//! Comparison of two EVM execution traces, step by step: the first step at
//! which the program counter, the operation, the call depth, the gas or the
//! stack differ.

use vstd::prelude::*;
use vstd::utf8::is_char_boundary;
use vstd::string::StringSliceAdditionalSpecFns;
use crate::hex_quantity::{HexError, hex_quantity, parse_hex_quantity};

verus! {

/// A gas amount written as a prefixed hexadecimal quantity.
#[derive(Clone, Copy, Debug, PartialEq, Eq)]
pub struct U64Hex(pub u64);

impl U64Hex {
    /// Reads a gas amount such as `0x5f5e100`: the first two bytes are
    /// skipped and the rest read as hexadecimal digits.
    pub fn from_prefixed_hex(s: &str) -> (r: Result<U64Hex, HexError>)
        requires
            is_char_boundary(s.spec_bytes(), 2),
        ensures
            match hex_quantity(s.spec_bytes()) {
                Ok(v) => r == Ok::<U64Hex, HexError>(U64Hex(v)),
                Err(e) => r == Err::<U64Hex, HexError>(e),
            },
    {
        match parse_hex_quantity(s) {
            Ok(v) => Ok(U64Hex(v)),
            Err(e) => Err(e),
        }
    }
}

/// One step of a trace: the line it was read from and what it records.
pub struct EvmStep {
    pub original: String,
    pub depth: usize,
    pub gas: U64Hex,
    pub op: u8,
    pub op_name: String,
    pub pc: usize,
    pub stack: Vec<String>,
}

/// A way in which two steps at the same position differ.
#[derive(Clone, Copy, Debug, PartialEq, Eq)]
pub enum StepDifference {
    /// The program counters differ.
    Pc,
    /// The operation names differ.
    Op,
    /// The call depths differ.
    Depth,
    /// The gas left differs; the gas used since the previous step of the
    /// first trace, in each trace, and their difference.
    GasUsed { first_used: u64, second_used: u64, delta: i64 },
    /// The stack entries at `index` differ, or only one trace has one.
    Stack { index: usize, in_first: bool, in_second: bool },
}

/// The gas used up to step `n` of each trace can be told, measured from
/// step `n - 1` of the first trace, without going below zero or out of the
/// range of `i64` when subtracted.
pub open spec fn gas_terms_defined(first: Seq<EvmStep>, second: Seq<EvmStep>, n: int) -> bool {
    &&& n >= 1
    &&& first[n - 1].gas.0 >= first[n].gas.0
    &&& first[n - 1].gas.0 >= second[n].gas.0
    &&& i64::MIN <= ((first[n - 1].gas.0 - first[n].gas.0) as u64 as i64) - ((first[n - 1].gas.0
        - second[n].gas.0) as u64 as i64) <= i64::MAX
}

/// The differing stack entries among the first `k` positions of two stacks.
pub open spec fn stack_differences(a: Seq<String>, b: Seq<String>, k: nat) -> Seq<StepDifference>
    decreases k,
{
    if k == 0 {
        Seq::empty()
    } else {
        let i = k - 1;
        let prev = stack_differences(a, b, (k - 1) as nat);
        if i < a.len() && i < b.len() {
            if a[i]@ != b[i]@ {
                prev.push(StepDifference::Stack { index: i as usize, in_first: true, in_second: true })
            } else {
                prev
            }
        } else if i < a.len() {
            prev.push(StepDifference::Stack { index: i as usize, in_first: true, in_second: false })
        } else if i < b.len() {
            prev.push(StepDifference::Stack { index: i as usize, in_first: false, in_second: true })
        } else {
            prev
        }
    }
}

/// How step `n` of two traces differs, in the order: program counter,
/// operation, depth, gas, stack entries by position.
pub open spec fn step_differences(first: Seq<EvmStep>, second: Seq<EvmStep>, n: int) -> Seq<StepDifference> {
    let f = first[n];
    let s = second[n];
    let first_used = (first[n - 1].gas.0 - f.gas.0) as u64;
    let second_used = (first[n - 1].gas.0 - s.gas.0) as u64;
    let depth = if f.stack@.len() >= s.stack@.len() {
        f.stack@.len()
    } else {
        s.stack@.len()
    };
    (if f.pc != s.pc {
        seq![StepDifference::Pc]
    } else {
        Seq::empty()
    }) + (if f.op_name@ != s.op_name@ {
        seq![StepDifference::Op]
    } else {
        Seq::empty()
    }) + (if f.depth != s.depth {
        seq![StepDifference::Depth]
    } else {
        Seq::empty()
    }) + (if f.gas.0 != s.gas.0 {
        seq![
            StepDifference::GasUsed {
                first_used,
                second_used,
                delta: ((first_used as i64) - (second_used as i64)) as i64,
            },
        ]
    } else {
        Seq::empty()
    }) + stack_differences(f.stack@, s.stack@, depth)
}

/// Comparing the first `upto` steps of two traces needs nothing that
/// cannot be told: wherever the steps before agree and the gas differs,
/// the gas terms are defined.
pub open spec fn comparison_defined(first: Seq<EvmStep>, second: Seq<EvmStep>, upto: int) -> bool {
    forall|n: int|
        0 <= n < upto && n < first.len() && n < second.len() && (forall|m: int|
            0 <= m < n ==> (#[trigger] step_differences(first, second, m)).len() == 0) && first[n].gas.0
            != second[n].gas.0 ==> #[trigger] gas_terms_defined(first, second, n)
}

/// Lists how step `n` of two traces differs.
pub fn step_differences_at(first: &[EvmStep], second: &[EvmStep], n: usize) -> (r: Vec<StepDifference>)
    requires
        n < first@.len(),
        n < second@.len(),
        first@[n as int].gas.0 != second@[n as int].gas.0 ==> gas_terms_defined(first@, second@, n as int),
    ensures
        r@ == step_differences(first@, second@, n as int),
{
    let f = &first[n];
    let s = &second[n];
    let mut out: Vec<StepDifference> = Vec::new();
    if f.pc != s.pc {
        out.push(StepDifference::Pc);
    }
    if f.op_name != s.op_name {
        out.push(StepDifference::Op);
    }
    if f.depth != s.depth {
        out.push(StepDifference::Depth);
    }
    if f.gas.0 != s.gas.0 {
        let prev = first[n - 1].gas.0;
        let first_used = prev - f.gas.0;
        let second_used = prev - s.gas.0;
        let delta = (first_used as i64) - (second_used as i64);
        out.push(StepDifference::GasUsed { first_used, second_used, delta });
    }
    let ghost head = out@;
    let depth = if f.stack.len() >= s.stack.len() {
        f.stack.len()
    } else {
        s.stack.len()
    };
    let mut i: usize = 0;
    while i < depth
        invariant
            i <= depth,
            depth == if f.stack@.len() >= s.stack@.len() {
                f.stack@.len()
            } else {
                s.stack@.len()
            },
            out@ == head + stack_differences(f.stack@, s.stack@, i as nat),
        decreases depth - i,
    {
        let ghost before = out@;
        if i < f.stack.len() && i < s.stack.len() {
            if f.stack[i] != s.stack[i] {
                out.push(StepDifference::Stack { index: i, in_first: true, in_second: true });
            }
        } else if i < f.stack.len() {
            out.push(StepDifference::Stack { index: i, in_first: true, in_second: false });
        } else {
            out.push(StepDifference::Stack { index: i, in_first: false, in_second: true });
        }
        proof {
            let prev = stack_differences(f.stack@, s.stack@, i as nat);
            if out@.len() > before.len() {
                assert(out@ =~= head + prev.push(out@.last()));
            }
        }
        i = i + 1;
    }
    proof {
        assert(head + stack_differences(f.stack@, s.stack@, depth as nat) =~= step_differences(
            first@,
            second@,
            n as int,
        ));
    }
    out
}

/// No step before `n` differs.
pub open spec fn agree_before(first: Seq<EvmStep>, second: Seq<EvmStep>, n: int) -> bool {
    forall|m: int| 0 <= m < n ==> (#[trigger] step_differences(first, second, m)).len() == 0
}

/// The number of steps that two traces both have.
pub open spec fn common_len(first: Seq<EvmStep>, second: Seq<EvmStep>) -> int {
    if first.len() <= second.len() {
        first.len() as int
    } else {
        second.len() as int
    }
}

/// Whether the gas terms of step `n` can be told, computed.
fn gas_terms_ok(first: &[EvmStep], second: &[EvmStep], n: usize) -> (r: bool)
    requires
        n < first@.len(),
        n < second@.len(),
    ensures
        r == gas_terms_defined(first@, second@, n as int),
{
    if n == 0 {
        return false;
    }
    let prev = first[n - 1].gas.0;
    if prev < first[n].gas.0 || prev < second[n].gas.0 {
        return false;
    }
    let a = (prev - first[n].gas.0) as i64 as i128;
    let b = (prev - second[n].gas.0) as i64 as i128;
    let d = a - b;
    d >= i64::MIN as i128 && d <= i64::MAX as i128
}

/// Tells whether `first_divergence` can compare the two traces: the gas
/// terms are defined at the first step where the gas differs while every
/// step before agrees.
pub fn comparison_is_defined(first: &[EvmStep], second: &[EvmStep]) -> (r: bool)
    ensures
        r == comparison_defined(first@, second@, common_len(first@, second@)),
{
    let count = if first.len() <= second.len() {
        first.len()
    } else {
        second.len()
    };
    let mut n: usize = 0;
    while n < count
        invariant
            n <= count,
            count == common_len(first@, second@),
            agree_before(first@, second@, n as int),
            comparison_defined(first@, second@, n as int),
        decreases count - n,
    {
        if first[n].gas.0 != second[n].gas.0 && !gas_terms_ok(first, second, n) {
            proof {
                assert(!gas_terms_defined(first@, second@, n as int));
            }
            return false;
        }
        let d = step_differences_at(first, second, n);
        if d.len() > 0 {
            proof {
                assert forall|k: int|
                    0 <= k < count && k < first@.len() && k < second@.len() && (forall|m: int|
                        0 <= m < k ==> (#[trigger] step_differences(first@, second@, m)).len() == 0)
                        && first@[k].gas.0 != second@[k].gas.0 implies #[trigger] gas_terms_defined(
                    first@,
                    second@,
                    k,
                ) by {
                    if k > n {
                        assert(step_differences(first@, second@, n as int).len() == 0);
                    }
                }
            }
            return true;
        }
        n = n + 1;
    }
    true
}

/// Finds where `first_divergence` could not compare the two traces: the
/// first step, among those both have and with every step before agreeing,
/// whose gas differs while its gas terms cannot be told.
pub fn first_undefined_step(first: &[EvmStep], second: &[EvmStep]) -> (r: Option<usize>)
    ensures
        match r {
            None => comparison_defined(first@, second@, common_len(first@, second@)),
            Some(n) => {
                &&& n < common_len(first@, second@)
                &&& agree_before(first@, second@, n as int)
                &&& first@[n as int].gas.0 != second@[n as int].gas.0
                &&& !gas_terms_defined(first@, second@, n as int)
                &&& !comparison_defined(first@, second@, common_len(first@, second@))
            },
        },
{
    let count = if first.len() <= second.len() {
        first.len()
    } else {
        second.len()
    };
    let mut n: usize = 0;
    while n < count
        invariant
            n <= count,
            count == common_len(first@, second@),
            agree_before(first@, second@, n as int),
            comparison_defined(first@, second@, n as int),
        decreases count - n,
    {
        if first[n].gas.0 != second[n].gas.0 && !gas_terms_ok(first, second, n) {
            proof {
                assert(!gas_terms_defined(first@, second@, n as int));
            }
            return Some(n);
        }
        let d = step_differences_at(first, second, n);
        if d.len() > 0 {
            proof {
                assert forall|k: int|
                    0 <= k < count && k < first@.len() && k < second@.len() && (forall|m: int|
                        0 <= m < k ==> (#[trigger] step_differences(first@, second@, m)).len() == 0)
                        && first@[k].gas.0 != second@[k].gas.0 implies #[trigger] gas_terms_defined(
                    first@,
                    second@,
                    k,
                ) by {
                    if k > n {
                        assert(step_differences(first@, second@, n as int).len() == 0);
                    }
                }
            }
            return None;
        }
        n = n + 1;
    }
    None
}

/// Finds the first step at which two traces differ, among the steps both
/// have, and how it differs.
pub fn first_divergence(first: &[EvmStep], second: &[EvmStep]) -> (r: Option<(usize, Vec<StepDifference>)>)
    requires
        comparison_defined(first@, second@, common_len(first@, second@)),
    ensures
        match r {
            None => agree_before(first@, second@, common_len(first@, second@)),
            Some((n, d)) => {
                &&& n < common_len(first@, second@)
                &&& agree_before(first@, second@, n as int)
                &&& d@ == step_differences(first@, second@, n as int)
                &&& d@.len() > 0
            },
        },
{
    let count = if first.len() <= second.len() {
        first.len()
    } else {
        second.len()
    };
    let mut n: usize = 0;
    while n < count
        invariant
            n <= count,
            count == common_len(first@, second@),
            comparison_defined(first@, second@, common_len(first@, second@)),
            agree_before(first@, second@, n as int),
        decreases count - n,
    {
        proof {
            if first@[n as int].gas.0 != second@[n as int].gas.0 {
                assert(gas_terms_defined(first@, second@, n as int));
            }
        }
        let d = step_differences_at(first, second, n);
        if d.len() > 0 {
            return Some((n, d));
        }
        n = n + 1;
    }
    None
}

/// Stack differences are all of the stack kind.
proof fn lemma_stack_differences_kind(a: Seq<String>, b: Seq<String>, k: nat)
    ensures
        forall|q: int| 0 <= q < stack_differences(a, b, k).len() ==> #[trigger] stack_differences(a, b, k)[q] is Stack,
    decreases k,
{
    if k > 0 {
        lemma_stack_differences_kind(a, b, (k - 1) as nat);
    }
}

/// The gas difference of a step is reported exactly when the gas left
/// differs, with the gas each trace used since the previous step of the
/// first trace, and, where both fit in an `i64`, their difference, which is
/// the second trace's gas left less the first's.
pub proof fn lemma_gas_used_reported(first: Seq<EvmStep>, second: Seq<EvmStep>, n: int)
    requires
        1 <= n < first.len(),
        n < second.len(),
        first[n - 1].gas.0 >= first[n].gas.0,
        first[n - 1].gas.0 >= second[n].gas.0,
    ensures
        (first[n].gas.0 != second[n].gas.0) <==> exists|q: int|
            0 <= q < step_differences(first, second, n).len() && (#[trigger] step_differences(first, second, n)[q]) is GasUsed,
        forall|q: int|
            0 <= q < step_differences(first, second, n).len() ==> match #[trigger] step_differences(first, second, n)[q] {
                StepDifference::GasUsed { first_used, second_used, delta } => {
                    &&& first_used == first[n - 1].gas.0 - first[n].gas.0
                    &&& second_used == first[n - 1].gas.0 - second[n].gas.0
                    &&& first_used <= i64::MAX && second_used <= i64::MAX ==> delta == second[n].gas.0 - first[n].gas.0
                },
                _ => true,
            },
{
    let f = first[n];
    let sc = second[n];
    let d = step_differences(first, second, n);
    let depth = if f.stack@.len() >= sc.stack@.len() {
        f.stack@.len()
    } else {
        sc.stack@.len()
    };
    let sd = stack_differences(f.stack@, sc.stack@, depth);
    lemma_stack_differences_kind(f.stack@, sc.stack@, depth);
    let pc_part: Seq<StepDifference> = if f.pc != sc.pc {
        seq![StepDifference::Pc]
    } else {
        Seq::empty()
    };
    let op_part: Seq<StepDifference> = if f.op_name@ != sc.op_name@ {
        seq![StepDifference::Op]
    } else {
        Seq::empty()
    };
    let depth_part: Seq<StepDifference> = if f.depth != sc.depth {
        seq![StepDifference::Depth]
    } else {
        Seq::empty()
    };
    let first_used = (first[n - 1].gas.0 - f.gas.0) as u64;
    let second_used = (first[n - 1].gas.0 - sc.gas.0) as u64;
    let gas_part: Seq<StepDifference> = if f.gas.0 != sc.gas.0 {
        seq![
            StepDifference::GasUsed {
                first_used,
                second_used,
                delta: ((first_used as i64) - (second_used as i64)) as i64,
            },
        ]
    } else {
        Seq::empty()
    };
    let head = pc_part + op_part + depth_part;
    assert(d =~= head + gas_part + sd);
    assert forall|q: int| 0 <= q < head.len() implies !(#[trigger] head[q] is GasUsed) by {
        if q < pc_part.len() {
            assert(head[q] == pc_part[q]);
        } else if q < pc_part.len() + op_part.len() {
            assert(head[q] == op_part[q - pc_part.len()]);
        } else {
            assert(head[q] == depth_part[q - pc_part.len() - op_part.len()]);
        }
    }
    assert forall|q: int| 0 <= q < d.len() && (#[trigger] d[q]) is GasUsed implies q == head.len() && gas_part.len() == 1 by {
        if q < head.len() {
            assert(d[q] == head[q]);
        } else if q >= head.len() + gas_part.len() {
            assert(d[q] == sd[q - head.len() - gas_part.len()]);
        }
    }
    if f.gas.0 != sc.gas.0 {
        assert(d[head.len() as int] == gas_part[0]);
        if first_used <= i64::MAX && second_used <= i64::MAX {
            assert((first_used as i64) as int == first_used as int);
            assert((second_used as i64) as int == second_used as int);
        }
    }
}

/// Both stacks have position `i`, with equal entries, or neither has it.
pub open spec fn stack_entry_agrees(a: Seq<String>, b: Seq<String>, i: int) -> bool {
    ((i < a.len()) == (i < b.len())) && (i < a.len() ==> a[i]@ == b[i]@)
}

/// No stack entry differs among the first `k` positions exactly when both
/// stacks agree at each of them.
proof fn lemma_stack_differences_empty(a: Seq<String>, b: Seq<String>, k: nat)
    ensures
        stack_differences(a, b, k).len() == 0 <==> forall|i: int| 0 <= i < k ==> #[trigger] stack_entry_agrees(a, b, i),
    decreases k,
{
    if k > 0 {
        lemma_stack_differences_empty(a, b, (k - 1) as nat);
        if stack_differences(a, b, k).len() == 0 {
            assert forall|i: int| 0 <= i < k implies #[trigger] stack_entry_agrees(a, b, i) by {
                if i < k - 1 {
                    assert(stack_differences(a, b, (k - 1) as nat).len() == 0);
                }
            }
        } else {
            if forall|i: int| 0 <= i < k ==> #[trigger] stack_entry_agrees(a, b, i) {
                assert(stack_entry_agrees(a, b, k - 1));
            }
        }
    }
}

/// Two steps show no difference exactly when they agree on the program
/// counter, the operation name, the depth, the gas left and every stack
/// entry.
pub proof fn lemma_no_difference_iff_same_step(first: Seq<EvmStep>, second: Seq<EvmStep>, n: int)
    requires
        0 <= n < first.len(),
        n < second.len(),
    ensures
        step_differences(first, second, n).len() == 0 <==> {
            &&& first[n].pc == second[n].pc
            &&& first[n].op_name@ == second[n].op_name@
            &&& first[n].depth == second[n].depth
            &&& first[n].gas.0 == second[n].gas.0
            &&& first[n].stack@.len() == second[n].stack@.len()
            &&& forall|i: int| 0 <= i < first[n].stack@.len() ==> (#[trigger] first[n].stack@[i])@ == second[n].stack@[i]@
        },
{
    let f = first[n];
    let sc = second[n];
    let depth = if f.stack@.len() >= sc.stack@.len() {
        f.stack@.len()
    } else {
        sc.stack@.len()
    };
    lemma_stack_differences_empty(f.stack@, sc.stack@, depth);
    if f.stack@.len() != sc.stack@.len() {
        let i = if f.stack@.len() < sc.stack@.len() { f.stack@.len() as int } else { sc.stack@.len() as int };
        assert(0 <= i < depth && !stack_entry_agrees(f.stack@, sc.stack@, i));
    }
    if f.stack@.len() == sc.stack@.len() {
        if forall|i: int| 0 <= i < f.stack@.len() ==> (#[trigger] f.stack@[i])@ == sc.stack@[i]@ {
            assert forall|i: int| 0 <= i < depth implies #[trigger] stack_entry_agrees(f.stack@, sc.stack@, i) by {
                assert(f.stack@[i]@ == sc.stack@[i]@);
            }
        }
        if forall|i: int| 0 <= i < depth ==> #[trigger] stack_entry_agrees(f.stack@, sc.stack@, i) {
            assert forall|i: int| 0 <= i < f.stack@.len() implies (#[trigger] f.stack@[i])@ == sc.stack@[i]@ by {
                assert(stack_entry_agrees(f.stack@, sc.stack@, i));
            }
        }
    }
}

/// A stack compared with itself has no differing entry.
proof fn lemma_stack_differences_self(a: Seq<String>, k: nat)
    ensures
        stack_differences(a, a, k).len() == 0,
    decreases k,
{
    if k > 0 {
        lemma_stack_differences_self(a, (k - 1) as nat);
    }
}

/// A trace compared with itself never diverges: no step differs from
/// itself, and the comparison is defined on every prefix.
pub proof fn lemma_trace_agrees_with_itself(t: Seq<EvmStep>)
    ensures
        forall|n: int| 0 <= n < t.len() ==> (#[trigger] step_differences(t, t, n)).len() == 0,
        agree_before(t, t, t.len() as int),
        comparison_defined(t, t, common_len(t, t)),
{
    assert forall|n: int| 0 <= n < t.len() implies (#[trigger] step_differences(t, t, n)).len() == 0 by {
        let depth = t[n].stack@.len();
        lemma_stack_differences_self(t[n].stack@, depth);
    }
}

/// `needle` occurs in `hay` as a run of consecutive bytes.
pub open spec fn occurs_in(needle: Seq<u8>, hay: Seq<u8>) -> bool {
    exists|i: int| 0 <= i && i + needle.len() <= hay.len() && #[trigger] hay.subrange(i, i + needle.len()) == needle
}

/// How many bytes of `needle` match `hay` from position `i` on, up to the
/// first mismatch.
fn matching_prefix(hay: &[u8], needle: &[u8], i: usize) -> (j: usize)
    requires
        i + needle@.len() <= hay@.len(),
    ensures
        j <= needle@.len(),
        forall|t: int| 0 <= t < j ==> hay@[i + t] == needle@[t],
        j < needle@.len() ==> hay@[i + j] != needle@[j as int],
{
    let n = needle.len();
    let hl = hay.len();
    let mut j: usize = 0;
    while j < n
        invariant
            n == needle@.len(),
            hl == hay@.len(),
            i + n <= hay@.len(),
            j <= n,
            forall|t: int| 0 <= t < j ==> hay@[i + t] == needle@[t],
        decreases n - j,
    {
        if hay[i + j] != needle[j] {
            return j;
        }
        j = j + 1;
    }
    j
}

/// Whether `needle` occurs in `hay`.
pub fn contains_bytes(hay: &[u8], needle: &[u8]) -> (r: bool)
    ensures
        r == occurs_in(needle@, hay@),
{
    if needle.len() > hay.len() {
        return false;
    }
    let last = hay.len() - needle.len();
    let mut i: usize = 0;
    while i <= last
        invariant
            last == hay@.len() - needle@.len(),
            needle@.len() <= hay@.len(),
            forall|k: int| 0 <= k < i ==> #[trigger] hay@.subrange(k, k + needle@.len()) != needle@,
        decreases last + 1 - i,
    {
        let j = matching_prefix(hay, needle, i);
        if j == needle.len() {
            proof {
                assert(hay@.subrange(i as int, i + needle@.len()) =~= needle@);
            }
            return true;
        }
        proof {
            assert(hay@.subrange(i as int, i + needle@.len())[j as int] != needle@[j as int]);
        }
        if i == last {
            proof {
                assert forall|k: int|
                    0 <= k && k + needle@.len() <= hay@.len() implies #[trigger] hay@.subrange(
                    k,
                    k + needle@.len(),
                ) != needle@ by {
                    assert(k <= i);
                }
            }
            return false;
        }
        i = i + 1;
    }
    false
}

/// Whether a trace line records a step: it mentions `opName`.
pub fn is_step_line(line: &str) -> (r: bool)
    ensures
        r == occurs_in("opName".spec_bytes(), line.spec_bytes()),
{
    contains_bytes(line.as_bytes(), "opName".as_bytes())
}

} // verus!

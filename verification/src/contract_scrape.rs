//! The set of contracts seen while scanning blocks: the recipients of
//! transactions that carry input data, and the text in which the set is
//! saved.

use vstd::prelude::*;
use crate::keys::{KeyOrder, compare_bytes};
use crate::asm_source::{lower_hex, bytecode_hex};

verus! {

/// How often, in blocks, the scan reports and saves its progress.
pub const PROGRESS_INTERVAL: u64 = 1000;

/// The addresses of the contracts seen so far, each once.
pub struct ContractSet {
    addresses: Vec<Vec<u8>>,
}

/// The byte strings of a list of addresses.
pub open spec fn address_views(v: Seq<Vec<u8>>) -> Seq<Seq<u8>> {
    v.map_values(|a: Vec<u8>| a@)
}

impl View for ContractSet {
    type V = Set<Seq<u8>>;

    closed spec fn view(&self) -> Set<Seq<u8>> {
        address_views(self.addresses@).to_set()
    }
}

impl ContractSet {
    /// No address is listed twice.
    pub closed spec fn wf(&self) -> bool {
        address_views(self.addresses@).no_duplicates()
    }

    /// The addresses in the order in which they were first seen.
    pub closed spec fn address_seq(&self) -> Seq<Seq<u8>> {
        address_views(self.addresses@)
    }

    /// The listed addresses are the set, each once.
    pub proof fn lemma_address_seq(&self)
        requires
            self.wf(),
        ensures
            self.address_seq().no_duplicates(),
            self.address_seq().to_set() == self@,
    {
    }

    /// No contract seen yet.
    pub fn new() -> (r: ContractSet)
        ensures
            r.wf(),
            r@ == Set::<Seq<u8>>::empty(),
    {
        let r = ContractSet { addresses: Vec::new() };
        proof {
            assert(address_views(r.addresses@).to_set() =~= Set::<Seq<u8>>::empty());
        }
        r
    }

    /// Whether `address` has been seen.
    pub fn contains(&self, address: &[u8]) -> (r: bool)
        ensures
            r == self@.contains(address@),
    {
        let n = self.addresses.len();
        for i in 0..n
            invariant
                n == self.addresses@.len(),
                forall|j: int| 0 <= j < i ==> address_views(self.addresses@)[j] != address@,
        {
            match compare_bytes(self.addresses[i].as_slice(), address) {
                KeyOrder::Equal => {
                    proof {
                        assert(address_views(self.addresses@)[i as int] == address@);
                    }
                    return true;
                },
                _ => {},
            }
        }
        false
    }

    /// Takes note of a transaction: its recipient is a contract when it has
    /// one and the transaction carries input data.
    pub fn observe_transaction(&mut self, to: Option<&[u8]>, input_len: usize)
        requires
            old(self).wf(),
        ensures
            final(self).wf(),
            final(self)@ == match to {
                Some(a) => if input_len > 0 {
                    old(self)@.insert(a@)
                } else {
                    old(self)@
                },
                None => old(self)@,
            },
    {
        if let Some(a) = to {
            if input_len > 0 && !self.contains(a) {
                let ghost before = address_views(self.addresses@);
                let mut copy: Vec<u8> = Vec::new();
                let n = a.len();
                for i in 0..n
                    invariant
                        n == a@.len(),
                        copy@ == a@.take(i as int),
                {
                    copy.push(a[i]);
                    proof {
                        assert(a@.take(i + 1) =~= a@.take(i as int).push(a@[i as int]));
                    }
                }
                proof {
                    assert(a@.take(n as int) =~= a@);
                }
                self.addresses.push(copy);
                proof {
                    assert(address_views(self.addresses@) =~= before.push(a@));
                    before.lemma_push_to_set_commute(a@);
                    assert forall|x: int, y: int|
                        0 <= x < y < before.len() + 1 implies address_views(self.addresses@)[x]
                        != address_views(self.addresses@)[y] by {
                        if y == before.len() {
                            assert(before.to_set().contains(before[x]));
                        }
                    }
                }
            }
        }
    }

    /// The number of contracts seen.
    pub fn len(&self) -> (n: usize)
        requires
            self.wf(),
        ensures
            n == self@.len(),
    {
        proof {
            address_views(self.addresses@).unique_seq_to_set();
        }
        self.addresses.len()
    }

    /// The text in which the set is saved: the addresses in braces, each
    /// as `0x` and lower-case hexadecimal, separated by `, `.
    pub fn to_text(&self) -> (s: Vec<char>)
        ensures
            s@ == set_text(self.address_seq()),
    {
        let mut s: Vec<char> = Vec::new();
        s.push('{');
        let n = self.addresses.len();
        proof {
            assert(self.address_seq().take(0) =~= Seq::<Seq<u8>>::empty());
            assert(s@ =~= seq!['{'] + joined_addresses(self.address_seq().take(0)));
        }
        for i in 0..n
            invariant
                n == self.addresses@.len(),
                s@ == seq!['{'] + joined_addresses(self.address_seq().take(i as int)),
        {
            let ghost before = s@;
            if i > 0 {
                s.push(',');
                s.push(' ');
            }
            s.push('0');
            s.push('x');
            let hex = bytecode_hex(self.addresses[i].as_slice());
            let hb = hex.as_str();
            let len = hb.unicode_len();
            for j in 0..len
                invariant
                    len == hb@.len(),
                    hb@ == lower_hex(self.addresses@[i as int]@),
                    s@ == before + (if i > 0 { seq![',', ' '] } else { Seq::empty() }) + seq!['0', 'x'] + hb@.take(j as int),
            {
                s.push(hb.get_char(j));
                proof {
                    assert(hb@.take(j + 1) =~= hb@.take(j as int).push(hb@[j as int]));
                }
            }
            proof {
                let t = self.address_seq().take(i + 1);
                assert(t.drop_last() =~= self.address_seq().take(i as int));
                assert(hb@.take(len as int) =~= hb@);
                assert(t.last() == self.addresses@[i as int]@);
                assert(s@ =~= seq!['{'] + joined_addresses(t));
            }
        }
        s.push('}');
        proof {
            assert(self.address_seq().take(n as int) =~= self.address_seq());
        }
        s
    }
}

/// The addresses as `0x` and lower-case hexadecimal, separated by `, `.
pub open spec fn joined_addresses(addrs: Seq<Seq<u8>>) -> Seq<char>
    decreases addrs.len(),
{
    if addrs.len() == 0 {
        Seq::empty()
    } else if addrs.len() == 1 {
        seq!['0', 'x'] + lower_hex(addrs[0])
    } else {
        joined_addresses(addrs.drop_last()) + seq![',', ' ', '0', 'x'] + lower_hex(addrs.last())
    }
}

/// The saved text of a list of addresses.
pub open spec fn set_text(addrs: Seq<Seq<u8>>) -> Seq<char> {
    seq!['{'] + joined_addresses(addrs) + seq!['}']
}

/// Whether the scan of block `block_no` ends with a progress report.
pub fn is_progress_block(block_no: u64) -> (r: bool)
    ensures
        r == (block_no % PROGRESS_INTERVAL == 0),
{
    block_no % PROGRESS_INTERVAL == 0
}

} // verus!

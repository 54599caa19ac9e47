//! Sorting references to values by their keys.

use vstd::prelude::*;
use vstd::seq_lib::*;
use crate::keys::{SortKey, keys_of, ref_keys_of, sorted_keys, key_le, lex_le, lemma_lex_transitive, lemma_lex_total, key_le_exec};

verus! {

/// Every element of `out` is an element of `items`.
pub open spec fn drawn_from<T>(out: Seq<&T>, items: Seq<T>) -> bool {
    forall|j: int| 0 <= j < out.len() ==> items.contains(*#[trigger] out[j])
}

/// Returns references to the items of `items`, sorted by key. Items with
/// equal keys keep their relative order.
pub fn sort_refs_by_key<'a, T: SortKey>(items: &'a [T]) -> (out: Vec<&'a T>)
    ensures
        sorted_keys(ref_keys_of(out@)),
        ref_keys_of(out@).to_multiset() == keys_of(items@).to_multiset(),
        drawn_from(out@, items@),
{
    let mut out: Vec<&'a T> = Vec::new();
    let n = items.len();
    proof {
        assert(ref_keys_of(out@) =~= keys_of(items@.take(0)));
    }
    for i in 0..n
        invariant
            n == items@.len(),
            sorted_keys(ref_keys_of(out@)),
            ref_keys_of(out@).to_multiset() == keys_of(items@.take(i as int)).to_multiset(),
            drawn_from(out@, items@),
    {
        let x: &'a T = &items[i];
        let ghost ks = ref_keys_of(out@);
        let mut p: usize = 0;
        while p < out.len() && key_le_exec(out[p], x)
            invariant
                p <= out@.len(),
                ks == ref_keys_of(out@),
                sorted_keys(ks),
                forall|q: int| 0 <= q < p ==> lex_le(#[trigger] ks[q], x.key()),
            decreases out@.len() - p,
        {
            p = p + 1;
        }
        proof {
            assert forall|q: int| p <= q < ks.len() implies !lex_le(#[trigger] ks[q], x.key()) by {
                if lex_le(ks[q], x.key()) && q > p {
                    assert(key_le()(ks[p as int], ks[q]));
                    lemma_lex_transitive(ks[p as int], ks[q], x.key());
                }
            }
        }
        let ghost old_out = out@;
        out.insert(p, x);
        proof {
            assert(out@ =~= old_out.insert(p as int, x));
            let nks = ref_keys_of(out@);
            assert(nks =~= ks.insert(p as int, x.key()));
            assert forall|a: int, b: int| 0 <= a < b < nks.len() implies #[trigger] key_le()(
                nks[a],
                nks[b],
            ) by {
                if a < p && b == p {
                } else if a == p && b > p {
                    lemma_lex_total(x.key(), ks[b - 1]);
                } else if a < p && b > p {
                    lemma_lex_total(x.key(), ks[b - 1]);
                    lemma_lex_transitive(ks[a], x.key(), ks[b - 1]);
                } else if a > p {
                    assert(key_le()(ks[a - 1], ks[b - 1]));
                } else {
                    assert(key_le()(ks[a], ks[b]));
                }
            }
            to_multiset_insert(ks, p as int, x.key());
            assert(keys_of(items@.take(i + 1)) =~= keys_of(items@.take(i as int)).push(x.key()));
            to_multiset_build(keys_of(items@.take(i as int)), x.key());
            assert forall|j: int| 0 <= j < out@.len() implies items@.contains(*#[trigger] out@[j]) by {
                if j < p {
                    assert(out@[j] == old_out[j]);
                } else if j == p {
                    assert(items@[i as int] == *x);
                } else {
                    assert(out@[j] == old_out[j - 1]);
                }
            }
        }
    }
    proof {
        assert(items@.take(n as int) =~= items@);
    }
    out
}

} // verus!

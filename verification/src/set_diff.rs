//! Ordered differences of two lists of names.
//!
//! Both lists are sorted by key, then walked side by side: a key found in
//! both lists is matched once per pair of occurrences, and what is left over
//! belongs to one list only.

use vstd::prelude::*;
use vstd::seq_lib::*;
use vstd::multiset::*;
use vstd::relations::{sorted_by, total_ordering};
use crate::keys::{
    SortKey, KeyOrder, lemma_lex_total, keys_of, ref_keys_of, sorted_keys, key_le, lex_le, lex_lt,
    lemma_lex_transitive, lemma_lex_antisymmetric, lemma_lex_reflexive, compare_keys,
};
use crate::sort::{sort_refs_by_key, drawn_from};

verus! {

broadcast use {group_multiset_axioms, group_multiset_properties, group_to_multiset_ensures};

/// An entry of a merged listing is found in both lists.
pub open spec fn is_common<T: ?Sized>(e: (&T, bool, bool)) -> bool {
    e.1 && e.2
}

/// An entry of a merged listing is found in the first list only.
pub open spec fn is_first_only<T: ?Sized>(e: (&T, bool, bool)) -> bool {
    e.1 && !e.2
}

/// An entry of a merged listing is found in the second list only.
pub open spec fn is_second_only<T: ?Sized>(e: (&T, bool, bool)) -> bool {
    !e.1 && e.2
}

pub open spec fn common_pred<'a, T: ?Sized>() -> spec_fn((&'a T, bool, bool)) -> bool {
    |e: (&'a T, bool, bool)| is_common(e)
}

pub open spec fn first_only_pred<'a, T: ?Sized>() -> spec_fn((&'a T, bool, bool)) -> bool {
    |e: (&'a T, bool, bool)| is_first_only(e)
}

pub open spec fn second_only_pred<'a, T: ?Sized>() -> spec_fn((&'a T, bool, bool)) -> bool {
    |e: (&'a T, bool, bool)| is_second_only(e)
}

/// The keys of the entries of a merged listing, in order.
pub open spec fn entry_keys<T: SortKey + ?Sized>(s: Seq<(&T, bool, bool)>) -> Seq<Seq<u8>> {
    s.map_values(|e: (&T, bool, bool)| e.0.key())
}

/// Among entries of equal key, the common ones come first.
pub open spec fn entry_rank<T: ?Sized>(e: (&T, bool, bool)) -> int {
    if is_common(e) {
        0
    } else {
        1
    }
}

/// Entries come in order of key, and common entries precede one-sided
/// entries of the same key.
pub open spec fn entries_ordered<T: SortKey + ?Sized>(s: Seq<(&T, bool, bool)>) -> bool {
    forall|p: int, q: int|
        0 <= p < q < s.len() ==> {
            &&& lex_le(#[trigger] entry_keys(s)[p], #[trigger] entry_keys(s)[q])
            &&& entry_keys(s)[p] == entry_keys(s)[q] ==> entry_rank(s[p]) <= entry_rank(s[q])
        }
}

/// The multiset of keys of a list of names.
pub open spec fn key_counts<T: SortKey>(s: Seq<T>) -> Multiset<Seq<u8>> {
    keys_of(s).to_multiset()
}

/// `out` is the merged listing of `first` and `second`: every key occurs as
/// many times as in the list where it occurs most; of those occurrences, as
/// many as the two lists share are common, the rest belong to the list with
/// more of them.
pub open spec fn is_merged_listing<T: SortKey>(
    first: Seq<T>,
    second: Seq<T>,
    out: Seq<(&T, bool, bool)>,
) -> bool {
    let m1 = key_counts(first);
    let m2 = key_counts(second);
    let common = out.filter(common_pred());
    let ones = out.filter(first_only_pred());
    let twos = out.filter(second_only_pred());
    &&& forall|q: int| 0 <= q < out.len() ==> (#[trigger] out[q]).1 || out[q].2
    &&& entries_ordered(out)
    &&& sorted_keys(entry_keys(common))
    &&& sorted_keys(entry_keys(ones))
    &&& sorted_keys(entry_keys(twos))
    &&& entry_keys(common).to_multiset() == m1.intersection_with(m2)
    &&& entry_keys(ones).to_multiset() == m1.difference_with(m2)
    &&& entry_keys(twos).to_multiset() == m2.difference_with(m1)
    &&& forall|q: int| 0 <= q < out.len() && (#[trigger] out[q]).1 ==> first.contains(*out[q].0)
    &&& forall|q: int| 0 <= q < out.len() && !(#[trigger] out[q]).1 ==> second.contains(*out[q].0)
}

/// Every key of `ks` is at most `bound`.
pub open spec fn all_le(ks: Seq<Seq<u8>>, bound: Seq<u8>) -> bool {
    forall|q: int| 0 <= q < ks.len() ==> lex_le(#[trigger] ks[q], bound)
}

/// Every key of `ks` is below `bound`.
pub open spec fn all_lt(ks: Seq<Seq<u8>>, bound: Seq<u8>) -> bool {
    forall|q: int| 0 <= q < ks.len() ==> lex_lt(#[trigger] ks[q], bound)
}

proof fn lemma_all_le_raise(ks: Seq<Seq<u8>>, a: Seq<u8>, b: Seq<u8>)
    requires
        all_le(ks, a),
        lex_le(a, b),
    ensures
        all_le(ks, b),
{
    assert forall|q: int| 0 <= q < ks.len() implies lex_le(#[trigger] ks[q], b) by {
        lemma_lex_transitive(ks[q], a, b);
    }
}

proof fn lemma_all_lt_raise(ks: Seq<Seq<u8>>, a: Seq<u8>, b: Seq<u8>)
    requires
        all_lt(ks, a),
        lex_le(a, b),
    ensures
        all_lt(ks, b),
{
    assert forall|q: int| 0 <= q < ks.len() implies lex_lt(#[trigger] ks[q], b) by {
        lemma_lex_transitive(ks[q], a, b);
        if ks[q] == b {
            lemma_lex_antisymmetric(a, b);
        }
    }
}

/// A key below every key of a sequence does not occur in it.
proof fn lemma_all_lt_absent(ks: Seq<Seq<u8>>, x: Seq<u8>)
    requires
        all_lt(ks, x),
    ensures
        ks.to_multiset().count(x) == 0,
{
    if ks.to_multiset().count(x) > 0 {
        assert(ks.contains(x));
        let q = choose|q: int| 0 <= q < ks.len() && ks[q] == x;
        assert(lex_lt(ks[q], x));
    }
}

/// Pushing a key that is at least every key keeps a sequence sorted.
proof fn lemma_sorted_push(ks: Seq<Seq<u8>>, x: Seq<u8>)
    requires
        sorted_keys(ks),
        all_le(ks, x),
    ensures
        sorted_keys(ks.push(x)),
{
    let s = ks.push(x);
    assert forall|a: int, b: int| 0 <= a < b < s.len() implies #[trigger] key_le()(s[a], s[b]) by {
        if b == ks.len() {
            assert(lex_le(ks[a], x));
        } else {
            assert(key_le()(ks[a], ks[b]));
        }
    }
}

proof fn lemma_push_bounds(ks: Seq<Seq<u8>>, x: Seq<u8>, h: Seq<u8>)
    requires
        all_le(ks, h),
        lex_le(x, h),
    ensures
        all_le(ks.push(x), h),
{
    assert forall|q: int| 0 <= q < ks.push(x).len() implies lex_le(#[trigger] ks.push(x)[q], h) by {
        if q < ks.len() {
            assert(ks.push(x)[q] == ks[q]);
        }
    }
}

proof fn lemma_push_strict(ks: Seq<Seq<u8>>, x: Seq<u8>, h: Seq<u8>)
    requires
        all_lt(ks, h),
        lex_lt(x, h),
    ensures
        all_lt(ks.push(x), h),
{
    assert forall|q: int| 0 <= q < ks.push(x).len() implies lex_lt(#[trigger] ks.push(x)[q], h) by {
        if q < ks.len() {
            assert(ks.push(x)[q] == ks[q]);
        }
    }
}

/// What holds after each step of walking the sorted lists `fa` and `fb` up
/// to positions `i` and `j`, having produced `out`, whose common,
/// first-only and second-only entries are `gb`, `g1` and `g2`.
pub open spec fn walk_inv<'a, T: SortKey>(
    first: Seq<T>,
    second: Seq<T>,
    fa: Seq<&'a T>,
    fb: Seq<&'a T>,
    i: int,
    j: int,
    out: Seq<(&'a T, bool, bool)>,
    gb: Seq<(&'a T, bool, bool)>,
    g1: Seq<(&'a T, bool, bool)>,
    g2: Seq<(&'a T, bool, bool)>,
) -> bool {
    let ka = ref_keys_of(fa);
    let kb = ref_keys_of(fb);
    &&& 0 <= i <= fa.len()
    &&& 0 <= j <= fb.len()
    &&& sorted_keys(ka)
    &&& sorted_keys(kb)
    &&& drawn_from(fa, first)
    &&& drawn_from(fb, second)
    &&& gb == out.filter(common_pred())
    &&& g1 == out.filter(first_only_pred())
    &&& g2 == out.filter(second_only_pred())
    &&& entry_keys(gb).to_multiset().add(entry_keys(g1).to_multiset()) == ka.take(i).to_multiset()
    &&& entry_keys(gb).to_multiset().add(entry_keys(g2).to_multiset()) == kb.take(j).to_multiset()
    &&& forall|x: Seq<u8>|
        #![trigger entry_keys(g1).to_multiset().count(x)]
        #![trigger entry_keys(g2).to_multiset().count(x)]
        entry_keys(g1).to_multiset().count(x) == 0 || entry_keys(g2).to_multiset().count(x) == 0
    &&& sorted_keys(entry_keys(gb))
    &&& sorted_keys(entry_keys(g1))
    &&& sorted_keys(entry_keys(g2))
    &&& entries_ordered(out)
    &&& forall|q: int| 0 <= q < out.len() ==> (#[trigger] out[q]).1 || out[q].2
    &&& forall|q: int| 0 <= q < out.len() && (#[trigger] out[q]).1 ==> first.contains(*out[q].0)
    &&& forall|q: int| 0 <= q < out.len() && !(#[trigger] out[q]).1 ==> second.contains(*out[q].0)
    &&& i < fa.len() ==> {
        &&& all_le(entry_keys(out), ka[i])
        &&& all_le(entry_keys(gb), ka[i])
        &&& all_le(entry_keys(g1), ka[i])
        &&& all_lt(entry_keys(g2), ka[i])
        &&& forall|q: int|
            0 <= q < out.len() && is_second_only(#[trigger] out[q]) ==> lex_lt(entry_keys(out)[q], ka[i])
    }
    &&& j < fb.len() ==> {
        &&& all_le(entry_keys(out), kb[j])
        &&& all_le(entry_keys(gb), kb[j])
        &&& all_le(entry_keys(g2), kb[j])
        &&& all_lt(entry_keys(g1), kb[j])
        &&& forall|q: int|
            0 <= q < out.len() && is_first_only(#[trigger] out[q]) ==> lex_lt(entry_keys(out)[q], kb[j])
    }
}

proof fn lemma_filters_push<'a, T: SortKey>(out: Seq<(&'a T, bool, bool)>, e: (&'a T, bool, bool))
    ensures
        out.push(e).filter(common_pred()) == if is_common(e) {
            out.filter(common_pred()).push(e)
        } else {
            out.filter(common_pred())
        },
        out.push(e).filter(first_only_pred()) == if is_first_only(e) {
            out.filter(first_only_pred()).push(e)
        } else {
            out.filter(first_only_pred())
        },
        out.push(e).filter(second_only_pred()) == if is_second_only(e) {
            out.filter(second_only_pred()).push(e)
        } else {
            out.filter(second_only_pred())
        },
        entry_keys(out.push(e)) == entry_keys(out).push(e.0.key()),
{
    out.lemma_filter_push(e, common_pred());
    out.lemma_filter_push(e, first_only_pred());
    out.lemma_filter_push(e, second_only_pred());
    assert(entry_keys(out.push(e)) =~= entry_keys(out).push(e.0.key()));
}

proof fn lemma_take_push(ks: Seq<Seq<u8>>, i: int)
    requires
        0 <= i < ks.len(),
    ensures
        ks.take(i + 1).to_multiset() == ks.take(i).to_multiset().insert(ks[i]),
{
    assert(ks.take(i + 1) =~= ks.take(i).push(ks[i]));
    to_multiset_build(ks.take(i), ks[i]);
}

/// The entries of one kind keep their bounds when the entry pushed is of another kind.
proof fn lemma_entries_bound_raise<'a, T: SortKey>(
    out: Seq<(&'a T, bool, bool)>,
    a: Seq<u8>,
    b: Seq<u8>,
    second_side: bool,
)
    requires
        lex_le(a, b),
        second_side ==> forall|q: int|
            0 <= q < out.len() && is_second_only(#[trigger] out[q]) ==> lex_lt(entry_keys(out)[q], a),
        !second_side ==> forall|q: int|
            0 <= q < out.len() && is_first_only(#[trigger] out[q]) ==> lex_lt(entry_keys(out)[q], a),
    ensures
        second_side ==> forall|q: int|
            0 <= q < out.len() && is_second_only(#[trigger] out[q]) ==> lex_lt(entry_keys(out)[q], b),
        !second_side ==> forall|q: int|
            0 <= q < out.len() && is_first_only(#[trigger] out[q]) ==> lex_lt(entry_keys(out)[q], b),
{
    assert forall|q: int|
        0 <= q < out.len() && (if second_side { is_second_only(#[trigger] out[q]) } else { is_first_only(out[q]) })
        implies lex_lt(entry_keys(out)[q], b) by {
        lemma_lex_transitive(entry_keys(out)[q], a, b);
        if entry_keys(out)[q] == b {
            lemma_lex_antisymmetric(a, b);
        }
    }
}

/// After pushing an entry whose key is at least every key so far, and which
/// is not common when an equal key is already listed one-sided, the
/// entries stay ordered.
proof fn lemma_ordered_push<'a, T: SortKey>(out: Seq<(&'a T, bool, bool)>, e: (&'a T, bool, bool))
    requires
        entries_ordered(out),
        all_le(entry_keys(out), e.0.key()),
        is_common(e) ==> forall|q: int|
            0 <= q < out.len() && entry_keys(out)[q] == e.0.key() ==> is_common(#[trigger] out[q]),
    ensures
        entries_ordered(out.push(e)),
{
    let o2 = out.push(e);
    assert(entry_keys(o2) =~= entry_keys(out).push(e.0.key()));
    assert forall|p: int, q: int| 0 <= p < q < o2.len() implies {
        &&& lex_le(#[trigger] entry_keys(o2)[p], #[trigger] entry_keys(o2)[q])
        &&& entry_keys(o2)[p] == entry_keys(o2)[q] ==> entry_rank(o2[p]) <= entry_rank(o2[q])
    } by {
        assert(o2[p] == out[p]);
        if q < out.len() {
            assert(o2[q] == out[q]);
            assert(lex_le(entry_keys(out)[p], entry_keys(out)[q]));
        } else {
            assert(lex_le(entry_keys(out)[p], e.0.key()));
        }
    }
}

proof fn lemma_step_common<'a, T: SortKey>(
    first: Seq<T>,
    second: Seq<T>,
    fa: Seq<&'a T>,
    fb: Seq<&'a T>,
    i: int,
    j: int,
    out: Seq<(&'a T, bool, bool)>,
    gb: Seq<(&'a T, bool, bool)>,
    g1: Seq<(&'a T, bool, bool)>,
    g2: Seq<(&'a T, bool, bool)>,
)
    requires
        walk_inv(first, second, fa, fb, i, j, out, gb, g1, g2),
        i < fa.len(),
        j < fb.len(),
        fa[i].key() == fb[j].key(),
    ensures
        walk_inv(
            first,
            second,
            fa,
            fb,
            i + 1,
            j + 1,
            out.push((fa[i], true, true)),
            gb.push((fa[i], true, true)),
            g1,
            g2,
        ),
{
    let ka = ref_keys_of(fa);
    let kb = ref_keys_of(fb);
    let e = (fa[i], true, true);
    let x = fa[i].key();
    assert(ka[i] == x);
    assert(kb[j] == x);
    let out2 = out.push(e);
    let gb2 = gb.push(e);
    lemma_filters_push(out, e);
    assert(entry_keys(gb2) =~= entry_keys(gb).push(x));
    to_multiset_build(entry_keys(gb), x);
    lemma_take_push(ka, i);
    lemma_take_push(kb, j);
    assert(entry_keys(gb2).to_multiset().add(entry_keys(g1).to_multiset()) =~= ka.take(i + 1).to_multiset());
    assert(entry_keys(gb2).to_multiset().add(entry_keys(g2).to_multiset()) =~= kb.take(j + 1).to_multiset());
    lemma_sorted_push(entry_keys(gb), x);
    assert forall|q: int| 0 <= q < out.len() && entry_keys(out)[q] == e.0.key() implies is_common(
        #[trigger] out[q],
    ) by {
        if is_first_only(out[q]) {
            assert(lex_lt(entry_keys(out)[q], kb[j]));
        }
        if is_second_only(out[q]) {
            assert(lex_lt(entry_keys(out)[q], ka[i]));
        }
    }
    lemma_ordered_push(out, e);
    assert forall|q: int| 0 <= q < out2.len() implies (#[trigger] out2[q]).1 || out2[q].2 by {
        if q < out.len() {
            assert(out2[q] == out[q]);
        }
    }
    assert forall|q: int| 0 <= q < out2.len() && (#[trigger] out2[q]).1 implies first.contains(*out2[q].0) by {
        if q < out.len() {
            assert(out2[q] == out[q]);
        } else {
            assert(first.contains(*fa[i]));
        }
    }
    assert forall|q: int| 0 <= q < out2.len() && !(#[trigger] out2[q]).1 implies second.contains(*out2[q].0) by {
        if q < out.len() {
            assert(out2[q] == out[q]);
        }
    }
    if i + 1 < fa.len() {
        let h = ka[i + 1];
        assert(key_le()(ka[i], ka[i + 1]));
        lemma_all_le_raise(entry_keys(out), x, h);
        lemma_push_bounds(entry_keys(out), x, h);
        lemma_all_le_raise(entry_keys(gb), x, h);
        lemma_push_bounds(entry_keys(gb), x, h);
        lemma_all_le_raise(entry_keys(g1), x, h);
        lemma_all_lt_raise(entry_keys(g2), x, h);
        lemma_entries_bound_raise(out, x, h, true);
        assert forall|q: int|
            0 <= q < out2.len() && is_second_only(#[trigger] out2[q]) implies lex_lt(entry_keys(out2)[q], h) by {
            assert(out2[q] == out[q]);
        }
    }
    if j + 1 < fb.len() {
        let h = kb[j + 1];
        assert(key_le()(kb[j], kb[j + 1]));
        lemma_all_le_raise(entry_keys(out), x, h);
        lemma_push_bounds(entry_keys(out), x, h);
        lemma_all_le_raise(entry_keys(gb), x, h);
        lemma_push_bounds(entry_keys(gb), x, h);
        lemma_all_le_raise(entry_keys(g2), x, h);
        lemma_all_lt_raise(entry_keys(g1), x, h);
        lemma_entries_bound_raise(out, x, h, false);
        assert forall|q: int|
            0 <= q < out2.len() && is_first_only(#[trigger] out2[q]) implies lex_lt(entry_keys(out2)[q], h) by {
            assert(out2[q] == out[q]);
        }
    }
}

proof fn lemma_step_first<'a, T: SortKey>(
    first: Seq<T>,
    second: Seq<T>,
    fa: Seq<&'a T>,
    fb: Seq<&'a T>,
    i: int,
    j: int,
    out: Seq<(&'a T, bool, bool)>,
    gb: Seq<(&'a T, bool, bool)>,
    g1: Seq<(&'a T, bool, bool)>,
    g2: Seq<(&'a T, bool, bool)>,
)
    requires
        walk_inv(first, second, fa, fb, i, j, out, gb, g1, g2),
        i < fa.len(),
        j == fb.len() || lex_lt(fa[i].key(), fb[j].key()),
    ensures
        walk_inv(
            first,
            second,
            fa,
            fb,
            i + 1,
            j,
            out.push((fa[i], true, false)),
            gb,
            g1.push((fa[i], true, false)),
            g2,
        ),
{
    let ka = ref_keys_of(fa);
    let kb = ref_keys_of(fb);
    let e = (fa[i], true, false);
    let x = fa[i].key();
    assert(ka[i] == x);
    if j < fb.len() {
        assert(kb[j] == fb[j].key());
    }
    let out2 = out.push(e);
    let g12 = g1.push(e);
    lemma_filters_push(out, e);
    assert(entry_keys(g12) =~= entry_keys(g1).push(x));
    to_multiset_build(entry_keys(g1), x);
    lemma_take_push(ka, i);
    assert(entry_keys(gb).to_multiset().add(entry_keys(g12).to_multiset()) =~= ka.take(i + 1).to_multiset());
    lemma_all_lt_absent(entry_keys(g2), x);
    assert forall|y: Seq<u8>|
        #![trigger entry_keys(g12).to_multiset().count(y)]
        #![trigger entry_keys(g2).to_multiset().count(y)]
        entry_keys(g12).to_multiset().count(y) == 0 || entry_keys(g2).to_multiset().count(y) == 0 by {
        if y != x {
            assert(entry_keys(g12).to_multiset().count(y) == entry_keys(g1).to_multiset().count(y));
        }
    }
    lemma_sorted_push(entry_keys(g1), x);
    lemma_ordered_push(out, e);
    assert forall|q: int| 0 <= q < out2.len() implies (#[trigger] out2[q]).1 || out2[q].2 by {
        if q < out.len() {
            assert(out2[q] == out[q]);
        }
    }
    assert forall|q: int| 0 <= q < out2.len() && (#[trigger] out2[q]).1 implies first.contains(*out2[q].0) by {
        if q < out.len() {
            assert(out2[q] == out[q]);
        } else {
            assert(first.contains(*fa[i]));
        }
    }
    assert forall|q: int| 0 <= q < out2.len() && !(#[trigger] out2[q]).1 implies second.contains(*out2[q].0) by {
        if q < out.len() {
            assert(out2[q] == out[q]);
        }
    }
    if i + 1 < fa.len() {
        let h = ka[i + 1];
        assert(key_le()(ka[i], ka[i + 1]));
        lemma_all_le_raise(entry_keys(out), x, h);
        lemma_push_bounds(entry_keys(out), x, h);
        lemma_all_le_raise(entry_keys(gb), x, h);
        lemma_all_le_raise(entry_keys(g1), x, h);
        lemma_push_bounds(entry_keys(g1), x, h);
        lemma_all_lt_raise(entry_keys(g2), x, h);
        lemma_entries_bound_raise(out, x, h, true);
        assert forall|q: int|
            0 <= q < out2.len() && is_second_only(#[trigger] out2[q]) implies lex_lt(entry_keys(out2)[q], h) by {
            assert(out2[q] == out[q]);
        }
    }
    if j < fb.len() {
        let h = kb[j];
        lemma_push_bounds(entry_keys(out), x, h);
        lemma_push_strict(entry_keys(g1), x, h);
        assert forall|q: int|
            0 <= q < out2.len() && is_first_only(#[trigger] out2[q]) implies lex_lt(entry_keys(out2)[q], h) by {
            if q < out.len() {
                assert(out2[q] == out[q]);
            }
        }
    }
}

proof fn lemma_step_second<'a, T: SortKey>(
    first: Seq<T>,
    second: Seq<T>,
    fa: Seq<&'a T>,
    fb: Seq<&'a T>,
    i: int,
    j: int,
    out: Seq<(&'a T, bool, bool)>,
    gb: Seq<(&'a T, bool, bool)>,
    g1: Seq<(&'a T, bool, bool)>,
    g2: Seq<(&'a T, bool, bool)>,
)
    requires
        walk_inv(first, second, fa, fb, i, j, out, gb, g1, g2),
        j < fb.len(),
        i == fa.len() || lex_lt(fb[j].key(), fa[i].key()),
    ensures
        walk_inv(
            first,
            second,
            fa,
            fb,
            i,
            j + 1,
            out.push((fb[j], false, true)),
            gb,
            g1,
            g2.push((fb[j], false, true)),
        ),
{
    let ka = ref_keys_of(fa);
    let kb = ref_keys_of(fb);
    let e = (fb[j], false, true);
    let x = fb[j].key();
    assert(kb[j] == x);
    if i < fa.len() {
        assert(ka[i] == fa[i].key());
    }
    let out2 = out.push(e);
    let g22 = g2.push(e);
    lemma_filters_push(out, e);
    assert(entry_keys(g22) =~= entry_keys(g2).push(x));
    to_multiset_build(entry_keys(g2), x);
    lemma_take_push(kb, j);
    assert(entry_keys(gb).to_multiset().add(entry_keys(g22).to_multiset()) =~= kb.take(j + 1).to_multiset());
    lemma_all_lt_absent(entry_keys(g1), x);
    assert forall|y: Seq<u8>|
        #![trigger entry_keys(g1).to_multiset().count(y)]
        #![trigger entry_keys(g22).to_multiset().count(y)]
        entry_keys(g1).to_multiset().count(y) == 0 || entry_keys(g22).to_multiset().count(y) == 0 by {
        if y != x {
            assert(entry_keys(g22).to_multiset().count(y) == entry_keys(g2).to_multiset().count(y));
        }
    }
    lemma_sorted_push(entry_keys(g2), x);
    lemma_ordered_push(out, e);
    assert forall|q: int| 0 <= q < out2.len() implies (#[trigger] out2[q]).1 || out2[q].2 by {
        if q < out.len() {
            assert(out2[q] == out[q]);
        }
    }
    assert forall|q: int| 0 <= q < out2.len() && (#[trigger] out2[q]).1 implies first.contains(*out2[q].0) by {
        if q < out.len() {
            assert(out2[q] == out[q]);
        }
    }
    assert forall|q: int| 0 <= q < out2.len() && !(#[trigger] out2[q]).1 implies second.contains(*out2[q].0) by {
        if q < out.len() {
            assert(out2[q] == out[q]);
        } else {
            assert(second.contains(*fb[j]));
        }
    }
    if j + 1 < fb.len() {
        let h = kb[j + 1];
        assert(key_le()(kb[j], kb[j + 1]));
        lemma_all_le_raise(entry_keys(out), x, h);
        lemma_push_bounds(entry_keys(out), x, h);
        lemma_all_le_raise(entry_keys(gb), x, h);
        lemma_all_le_raise(entry_keys(g2), x, h);
        lemma_push_bounds(entry_keys(g2), x, h);
        lemma_all_lt_raise(entry_keys(g1), x, h);
        lemma_entries_bound_raise(out, x, h, false);
        assert forall|q: int|
            0 <= q < out2.len() && is_first_only(#[trigger] out2[q]) implies lex_lt(entry_keys(out2)[q], h) by {
            assert(out2[q] == out[q]);
        }
    }
    if i < fa.len() {
        let h = ka[i];
        lemma_push_bounds(entry_keys(out), x, h);
        lemma_push_strict(entry_keys(g2), x, h);
        assert forall|q: int|
            0 <= q < out2.len() && is_second_only(#[trigger] out2[q]) implies lex_lt(entry_keys(out2)[q], h) by {
            if q < out.len() {
                assert(out2[q] == out[q]);
            }
        }
    }
}

proof fn lemma_walk_start<'a, T: SortKey>(
    first: Seq<T>,
    second: Seq<T>,
    fa: Seq<&'a T>,
    fb: Seq<&'a T>,
)
    requires
        sorted_keys(ref_keys_of(fa)),
        sorted_keys(ref_keys_of(fb)),
        drawn_from(fa, first),
        drawn_from(fb, second),
    ensures
        walk_inv(
            first,
            second,
            fa,
            fb,
            0,
            0,
            Seq::<(&'a T, bool, bool)>::empty(),
            Seq::<(&'a T, bool, bool)>::empty(),
            Seq::<(&'a T, bool, bool)>::empty(),
            Seq::<(&'a T, bool, bool)>::empty(),
        ),
{
    let e = Seq::<(&'a T, bool, bool)>::empty();
    reveal(Seq::filter);
    assert(e.filter(common_pred()) =~= e);
    assert(e.filter(first_only_pred()) =~= e);
    assert(e.filter(second_only_pred()) =~= e);
    assert(entry_keys(e) =~= Seq::<Seq<u8>>::empty());
    assert(ref_keys_of(fa).take(0) =~= Seq::<Seq<u8>>::empty());
    assert(ref_keys_of(fb).take(0) =~= Seq::<Seq<u8>>::empty());
    assert(entry_keys(e).to_multiset().add(entry_keys(e).to_multiset()) =~= ref_keys_of(fa).take(0).to_multiset());
    assert(entry_keys(e).to_multiset().add(entry_keys(e).to_multiset()) =~= ref_keys_of(fb).take(0).to_multiset());
}

proof fn lemma_walk_done<'a, T: SortKey>(
    first: Seq<T>,
    second: Seq<T>,
    fa: Seq<&'a T>,
    fb: Seq<&'a T>,
    out: Seq<(&'a T, bool, bool)>,
    gb: Seq<(&'a T, bool, bool)>,
    g1: Seq<(&'a T, bool, bool)>,
    g2: Seq<(&'a T, bool, bool)>,
)
    requires
        walk_inv(first, second, fa, fb, fa.len() as int, fb.len() as int, out, gb, g1, g2),
        ref_keys_of(fa).to_multiset() == key_counts(first),
        ref_keys_of(fb).to_multiset() == key_counts(second),
    ensures
        is_merged_listing(first, second, out),
{
    let ka = ref_keys_of(fa);
    let kb = ref_keys_of(fb);
    assert(ka.take(fa.len() as int) =~= ka);
    assert(kb.take(fb.len() as int) =~= kb);
    let m1 = key_counts(first);
    let m2 = key_counts(second);
    let cb = entry_keys(gb).to_multiset();
    let c1 = entry_keys(g1).to_multiset();
    let c2 = entry_keys(g2).to_multiset();
    assert forall|y: Seq<u8>| #[trigger] cb.count(y) == m1.intersection_with(m2).count(y) by {
        lemma_intersection_count(m1, m2, y);
        assert(c1.count(y) == 0 || c2.count(y) == 0);
    }
    assert forall|y: Seq<u8>| #[trigger] c1.count(y) == m1.difference_with(m2).count(y) by {
        lemma_difference_count(m1, m2, y);
        assert(c1.count(y) == 0 || c2.count(y) == 0);
    }
    assert forall|y: Seq<u8>| #[trigger] c2.count(y) == m2.difference_with(m1).count(y) by {
        lemma_difference_count(m2, m1, y);
        assert(c1.count(y) == 0 || c2.count(y) == 0);
    }
    assert(cb =~= m1.intersection_with(m2));
    assert(c1 =~= m1.difference_with(m2));
    assert(c2 =~= m2.difference_with(m1));
}

/// Lists every name of `first` and `second` once per occurrence, in
/// sorted order, with whether it is in the first list and whether it is in
/// the second. A name that occurs in both is listed once as common for each
/// pair of occurrences; its further occurrences are listed as one-sided.
pub fn it_diff<'a, T: SortKey>(first: &'a [T], second: &'a [T]) -> (out: Vec<(&'a T, bool, bool)>)
    ensures
        is_merged_listing(first@, second@, out@),
{
    let fa = sort_refs_by_key(first);
    let fb = sort_refs_by_key(second);
    let mut out: Vec<(&'a T, bool, bool)> = Vec::new();
    let ghost mut gb = Seq::<(&'a T, bool, bool)>::empty();
    let ghost mut g1 = Seq::<(&'a T, bool, bool)>::empty();
    let ghost mut g2 = Seq::<(&'a T, bool, bool)>::empty();
    proof {
        lemma_walk_start(first@, second@, fa@, fb@);
        assert(out@ =~= Seq::<(&'a T, bool, bool)>::empty());
    }
    let mut i: usize = 0;
    let mut j: usize = 0;
    while i < fa.len() || j < fb.len()
        invariant
            walk_inv(first@, second@, fa@, fb@, i as int, j as int, out@, gb, g1, g2),
            ref_keys_of(fa@).to_multiset() == key_counts(first@),
            ref_keys_of(fb@).to_multiset() == key_counts(second@),
        decreases fa@.len() - i + fb@.len() - j,
    {
        if i < fa.len() && j < fb.len() {
            match compare_keys(fa[i], fb[j]) {
                KeyOrder::Equal => {
                    let e = (fa[i], true, true);
                    proof {
                        lemma_step_common(first@, second@, fa@, fb@, i as int, j as int, out@, gb, g1, g2);
                        gb = gb.push(e);
                    }
                    out.push(e);
                    i = i + 1;
                    j = j + 1;
                },
                KeyOrder::Less => {
                    let e = (fa[i], true, false);
                    proof {
                        lemma_step_first(first@, second@, fa@, fb@, i as int, j as int, out@, gb, g1, g2);
                        g1 = g1.push(e);
                    }
                    out.push(e);
                    i = i + 1;
                },
                KeyOrder::Greater => {
                    let e = (fb[j], false, true);
                    proof {
                        lemma_lex_total(fa@[i as int].key(), fb@[j as int].key());
                        lemma_step_second(first@, second@, fa@, fb@, i as int, j as int, out@, gb, g1, g2);
                        g2 = g2.push(e);
                    }
                    out.push(e);
                    j = j + 1;
                },
            }
        } else if i < fa.len() {
            let e = (fa[i], true, false);
            proof {
                lemma_step_first(first@, second@, fa@, fb@, i as int, j as int, out@, gb, g1, g2);
                g1 = g1.push(e);
            }
            out.push(e);
            i = i + 1;
        } else {
            let e = (fb[j], false, true);
            proof {
                lemma_step_second(first@, second@, fa@, fb@, i as int, j as int, out@, gb, g1, g2);
                g2 = g2.push(e);
            }
            out.push(e);
            j = j + 1;
        }
    }
    proof {
        lemma_walk_done(first@, second@, fa@, fb@, out@, gb, g1, g2);
    }
    out
}

/// The values of a listing's entries, in order.
pub open spec fn entry_values<'a, T: ?Sized>(s: Seq<(&'a T, bool, bool)>) -> Seq<&'a T> {
    s.map_values(|e: (&'a T, bool, bool)| e.0)
}

/// `both`, `ones` and `twos` are the ordered differences of `first` and
/// `second`: each is sorted by key; `both` holds every key as many times
/// as both lists share it, `ones` the further occurrences in `first`, and
/// `twos` the further occurrences in `second`.
pub open spec fn is_diff<T: SortKey>(
    first: Seq<T>,
    second: Seq<T>,
    both: Seq<&T>,
    ones: Seq<&T>,
    twos: Seq<&T>,
) -> bool {
    let m1 = key_counts(first);
    let m2 = key_counts(second);
    &&& sorted_keys(ref_keys_of(both))
    &&& sorted_keys(ref_keys_of(ones))
    &&& sorted_keys(ref_keys_of(twos))
    &&& ref_keys_of(both).to_multiset() == m1.intersection_with(m2)
    &&& ref_keys_of(ones).to_multiset() == m1.difference_with(m2)
    &&& ref_keys_of(twos).to_multiset() == m2.difference_with(m1)
    &&& drawn_from(both, first)
    &&& drawn_from(ones, first)
    &&& drawn_from(twos, second)
}

proof fn lemma_values_keys<'a, T: SortKey>(s: Seq<(&'a T, bool, bool)>)
    ensures
        ref_keys_of(entry_values(s)) == entry_keys(s),
{
    assert(ref_keys_of(entry_values(s)) =~= entry_keys(s));
}

/// Splits two lists of names into the names found in both, those found in
/// the first only, and those found in the second only, each sorted.
pub fn diff<'a, T: SortKey>(first: &'a [T], second: &'a [T]) -> (res: (Vec<&'a T>, Vec<&'a T>, Vec<&'a T>))
    ensures
        is_diff(first@, second@, res.0@, res.1@, res.2@),
{
    let entries = it_diff(first, second);
    let mut both: Vec<&'a T> = Vec::new();
    let mut ones: Vec<&'a T> = Vec::new();
    let mut twos: Vec<&'a T> = Vec::new();
    let n = entries.len();
    proof {
        reveal(Seq::filter);
        assert(entries@.take(0) =~= Seq::<(&'a T, bool, bool)>::empty());
        assert(entry_values(entries@.take(0).filter(common_pred())) =~= both@);
        assert(entry_values(entries@.take(0).filter(first_only_pred())) =~= ones@);
        assert(entry_values(entries@.take(0).filter(second_only_pred())) =~= twos@);
    }
    for k in 0..n
        invariant
            n == entries@.len(),
            is_merged_listing(first@, second@, entries@),
            both@ == entry_values(entries@.take(k as int).filter(common_pred())),
            ones@ == entry_values(entries@.take(k as int).filter(first_only_pred())),
            twos@ == entry_values(entries@.take(k as int).filter(second_only_pred())),
            drawn_from(both@, first@),
            drawn_from(ones@, first@),
            drawn_from(twos@, second@),
    {
        let e = entries[k];
        let ghost pre = entries@.take(k as int);
        proof {
            assert(entries@.take(k + 1) =~= pre.push(e));
            lemma_filters_push(pre, e);
            assert(e == entries@[k as int]);
        }
        if e.1 && e.2 {
            both.push(e.0);
            proof {
                assert(entry_values(pre.filter(common_pred()).push(e)) =~= entry_values(
                    pre.filter(common_pred()),
                ).push(e.0));
            }
        } else if e.1 {
            ones.push(e.0);
            proof {
                assert(entry_values(pre.filter(first_only_pred()).push(e)) =~= entry_values(
                    pre.filter(first_only_pred()),
                ).push(e.0));
            }
        } else {
            twos.push(e.0);
            proof {
                assert(entry_values(pre.filter(second_only_pred()).push(e)) =~= entry_values(
                    pre.filter(second_only_pred()),
                ).push(e.0));
            }
        }
    }
    proof {
        assert(entries@.take(n as int) =~= entries@);
        lemma_values_keys(entries@.filter(common_pred()));
        lemma_values_keys(entries@.filter(first_only_pred()));
        lemma_values_keys(entries@.filter(second_only_pred()));
    }
    (both, ones, twos)
}

proof fn lemma_intersection_commutes(a: Multiset<Seq<u8>>, b: Multiset<Seq<u8>>)
    ensures
        a.intersection_with(b) == b.intersection_with(a),
{
    assert forall|y: Seq<u8>| #[trigger] a.intersection_with(b).count(y) == b.intersection_with(a).count(y) by {
        lemma_intersection_count(a, b, y);
        lemma_intersection_count(b, a, y);
    }
    assert(a.intersection_with(b) =~= b.intersection_with(a));
}

/// Two sorted key sequences with the same keys are the same sequence.
pub proof fn lemma_sorted_keys_unique(x: Seq<Seq<u8>>, y: Seq<Seq<u8>>)
    requires
        sorted_keys(x),
        sorted_keys(y),
        x.to_multiset() == y.to_multiset(),
    ensures
        x == y,
{
    crate::keys::lemma_key_le_total_ordering();
    lemma_sorted_unique(x, y, key_le());
}

/// The ordered differences of two lists are determined by the lists: any
/// two results agree key for key.
pub proof fn lemma_diff_determined<T: SortKey>(
    first: Seq<T>,
    second: Seq<T>,
    both: Seq<&T>,
    ones: Seq<&T>,
    twos: Seq<&T>,
    both2: Seq<&T>,
    ones2: Seq<&T>,
    twos2: Seq<&T>,
)
    requires
        is_diff(first, second, both, ones, twos),
        is_diff(first, second, both2, ones2, twos2),
    ensures
        ref_keys_of(both) == ref_keys_of(both2),
        ref_keys_of(ones) == ref_keys_of(ones2),
        ref_keys_of(twos) == ref_keys_of(twos2),
{
    lemma_sorted_keys_unique(ref_keys_of(both), ref_keys_of(both2));
    lemma_sorted_keys_unique(ref_keys_of(ones), ref_keys_of(ones2));
    lemma_sorted_keys_unique(ref_keys_of(twos), ref_keys_of(twos2));
}

/// Swapping the two lists keeps the names found in both and swaps the
/// names found in one list only.
pub proof fn lemma_diff_swap<T: SortKey>(
    first: Seq<T>,
    second: Seq<T>,
    both: Seq<&T>,
    ones: Seq<&T>,
    twos: Seq<&T>,
    both_swapped: Seq<&T>,
    ones_swapped: Seq<&T>,
    twos_swapped: Seq<&T>,
)
    requires
        is_diff(first, second, both, ones, twos),
        is_diff(second, first, both_swapped, ones_swapped, twos_swapped),
    ensures
        ref_keys_of(both) == ref_keys_of(both_swapped),
        ref_keys_of(ones) == ref_keys_of(twos_swapped),
        ref_keys_of(twos) == ref_keys_of(ones_swapped),
{
    lemma_intersection_commutes(key_counts(first), key_counts(second));
    lemma_sorted_keys_unique(ref_keys_of(both), ref_keys_of(both_swapped));
    lemma_sorted_keys_unique(ref_keys_of(ones), ref_keys_of(twos_swapped));
    lemma_sorted_keys_unique(ref_keys_of(twos), ref_keys_of(ones_swapped));
}

/// A list compared with itself has every name in common and none on one
/// side only.
pub proof fn lemma_diff_with_itself<T: SortKey>(
    items: Seq<T>,
    both: Seq<&T>,
    ones: Seq<&T>,
    twos: Seq<&T>,
)
    requires
        is_diff(items, items, both, ones, twos),
    ensures
        ref_keys_of(both).to_multiset() == key_counts(items),
        ones.len() == 0,
        twos.len() == 0,
{
    let m = key_counts(items);
    assert forall|y: Seq<u8>| #[trigger] m.intersection_with(m).count(y) == m.count(y) by {
        lemma_intersection_count(m, m, y);
    }
    assert(m.intersection_with(m) =~= m);
    assert forall|y: Seq<u8>| #[trigger] m.difference_with(m).count(y) == 0 by {
        lemma_difference_count(m, m, y);
    }
    assert(m.difference_with(m) =~= Multiset::<Seq<u8>>::empty());
    to_multiset_len(ref_keys_of(ones));
    to_multiset_len(ref_keys_of(twos));
}

/// The merged listing and the ordered differences of the same two lists
/// agree: the common, first-only and second-only entries of the listing,
/// in order, have the keys of the three differences.
pub proof fn lemma_listing_matches_diff<'a, T: SortKey>(
    first: Seq<T>,
    second: Seq<T>,
    out: Seq<(&'a T, bool, bool)>,
    both: Seq<&T>,
    ones: Seq<&T>,
    twos: Seq<&T>,
)
    requires
        is_merged_listing(first, second, out),
        is_diff(first, second, both, ones, twos),
    ensures
        entry_keys(out.filter(common_pred())) == ref_keys_of(both),
        entry_keys(out.filter(first_only_pred())) == ref_keys_of(ones),
        entry_keys(out.filter(second_only_pred())) == ref_keys_of(twos),
{
    lemma_sorted_keys_unique(entry_keys(out.filter(common_pred())), ref_keys_of(both));
    lemma_sorted_keys_unique(entry_keys(out.filter(first_only_pred())), ref_keys_of(ones));
    lemma_sorted_keys_unique(entry_keys(out.filter(second_only_pred())), ref_keys_of(twos));
}

/// The rank of a pair of flags: common first, then first-only, then
/// second-only.
pub open spec fn flag_rank(a: bool, b: bool) -> int {
    if a && b {
        0
    } else if a {
        1
    } else if b {
        2
    } else {
        3
    }
}

/// The entries of a listing as keys with their flags, the flags swapped
/// when `swap` holds.
pub open spec fn tagged_entries<'a, T: SortKey>(s: Seq<(&'a T, bool, bool)>, swap: bool) -> Seq<(Seq<u8>, bool, bool)> {
    s.map_values(
        |e: (&'a T, bool, bool)|
            if swap {
                (e.0.key(), e.2, e.1)
            } else {
                (e.0.key(), e.1, e.2)
            },
    )
}

/// Keys in order, then flags in the order of their rank.
pub open spec fn tagged_le() -> spec_fn((Seq<u8>, bool, bool), (Seq<u8>, bool, bool)) -> bool {
    |x: (Seq<u8>, bool, bool), y: (Seq<u8>, bool, bool)|
        lex_lt(x.0, y.0) || (x.0 == y.0 && flag_rank(x.1, x.2) <= flag_rank(y.1, y.2))
}

proof fn lemma_tagged_le_total()
    ensures
        total_ordering(tagged_le()),
{
    assert forall|x: (Seq<u8>, bool, bool)| #[trigger] tagged_le()(x, x) by {}
    assert forall|x: (Seq<u8>, bool, bool), y: (Seq<u8>, bool, bool)| #[trigger]
        tagged_le()(x, y) && #[trigger] tagged_le()(y, x) implies x == y by {
        if x.0 != y.0 {
            lemma_lex_antisymmetric(x.0, y.0);
        }
    }
    assert forall|x: (Seq<u8>, bool, bool), y: (Seq<u8>, bool, bool), z: (Seq<u8>, bool, bool)| #[trigger]
        tagged_le()(x, y) && #[trigger] tagged_le()(y, z) implies tagged_le()(x, z) by {
        if x.0 != y.0 && y.0 != z.0 {
            lemma_lex_transitive(x.0, y.0, z.0);
            if x.0 == z.0 {
                lemma_lex_antisymmetric(x.0, y.0);
            }
        }
    }
    assert forall|x: (Seq<u8>, bool, bool), y: (Seq<u8>, bool, bool)| #[trigger]
        tagged_le()(x, y) || #[trigger] tagged_le()(y, x) by {
        lemma_lex_total(x.0, y.0);
    }
}

/// How often a key with given flags occurs in the tagged entries: as often
/// as the key among the entries of that kind.
proof fn lemma_tagged_counts<'a, T: SortKey>(s: Seq<(&'a T, bool, bool)>, swap: bool, k: Seq<u8>)
    requires
        forall|q: int| 0 <= q < s.len() ==> (#[trigger] s[q]).1 || s[q].2,
    ensures
        tagged_entries(s, swap).to_multiset().count((k, true, true)) == entry_keys(s.filter(common_pred())).to_multiset().count(k),
        tagged_entries(s, swap).to_multiset().count((k, !swap, swap)) == entry_keys(s.filter(first_only_pred())).to_multiset().count(k),
        tagged_entries(s, swap).to_multiset().count((k, swap, !swap)) == entry_keys(s.filter(second_only_pred())).to_multiset().count(k),
        tagged_entries(s, swap).to_multiset().count((k, false, false)) == 0,
    decreases s.len(),
{
    if s.len() == 0 {
        assert(tagged_entries(s, swap) =~= Seq::<(Seq<u8>, bool, bool)>::empty());
        assert(s.filter(common_pred()) =~= s);
        assert(s.filter(first_only_pred()) =~= s);
        assert(s.filter(second_only_pred()) =~= s);
        assert(entry_keys(s) =~= Seq::<Seq<u8>>::empty());
    } else {
        let s0 = s.drop_last();
        let e = s.last();
        assert(s0.push(e) =~= s);
        lemma_tagged_counts(s0, swap, k);
        lemma_filters_push(s0, e);
        let te = if swap {
            (e.0.key(), e.2, e.1)
        } else {
            (e.0.key(), e.1, e.2)
        };
        assert(tagged_entries(s, swap) =~= tagged_entries(s0, swap).push(te));
        lemma_filters_push(s0.filter(common_pred()), e);
        lemma_filters_push(s0.filter(first_only_pred()), e);
        lemma_filters_push(s0.filter(second_only_pred()), e);
    }
}

/// Tagged entries of a listing whose entries are ordered, and in which no
/// key is on both sides alone, are sorted.
proof fn lemma_tagged_sorted<'a, T: SortKey>(s: Seq<(&'a T, bool, bool)>, swap: bool)
    requires
        forall|q: int| 0 <= q < s.len() ==> (#[trigger] s[q]).1 || s[q].2,
        entries_ordered(s),
        forall|p: int, q: int|
            0 <= p < s.len() && 0 <= q < s.len() && is_first_only(#[trigger] s[p]) && is_second_only(#[trigger] s[q])
                ==> s[p].0.key() != s[q].0.key(),
    ensures
        sorted_by(tagged_entries(s, swap), tagged_le()),
{
    let t = tagged_entries(s, swap);
    assert forall|p: int, q: int| 0 <= p < q < t.len() implies #[trigger] tagged_le()(t[p], t[q]) by {
        assert(entry_keys(s)[p] == s[p].0.key());
        assert(entry_keys(s)[q] == s[q].0.key());
        assert(s[p].1 || s[p].2);
        assert(s[q].1 || s[q].2);
        if s[p].0.key() == s[q].0.key() {
            if is_first_only(s[p]) && is_second_only(s[q]) {
                assert(false);
            }
            if is_first_only(s[q]) && is_second_only(s[p]) {
                assert(false);
            }
        }
    }
}

/// Swapping the two lists of a merged listing swaps the two flags of every
/// entry and keeps the keys and their order.
pub proof fn lemma_listing_swap<'a, T: SortKey>(
    first: Seq<T>,
    second: Seq<T>,
    out: Seq<(&'a T, bool, bool)>,
    swapped: Seq<(&'a T, bool, bool)>,
)
    requires
        is_merged_listing(first, second, out),
        is_merged_listing(second, first, swapped),
    ensures
        swapped.len() == out.len(),
        forall|q: int|
            0 <= q < out.len() ==> (#[trigger] swapped[q]).0.key() == out[q].0.key() && swapped[q].1 == out[q].2
                && swapped[q].2 == out[q].1,
{
    let m1 = key_counts(first);
    let m2 = key_counts(second);
    let t = tagged_entries(out, false);
    let u = tagged_entries(swapped, true);
    lemma_intersection_commutes(m1, m2);
    assert forall|x: (Seq<u8>, bool, bool)| #[trigger] t.to_multiset().count(x) == u.to_multiset().count(x) by {
        lemma_tagged_counts(out, false, x.0);
        lemma_tagged_counts(swapped, true, x.0);
    }
    assert(t.to_multiset() =~= u.to_multiset());
    assert forall|p: int, q: int|
        0 <= p < out.len() && 0 <= q < out.len() && is_first_only(#[trigger] out[p]) && is_second_only(#[trigger] out[q])
            implies out[p].0.key() != out[q].0.key() by {
        let k = out[p].0.key();
        lemma_tagged_counts(out, false, k);
        assert(t[p] == (k, true, false));
        assert(t.to_multiset().count((k, true, false)) > 0);
        lemma_tagged_counts(out, false, out[q].0.key());
        assert(t[q] == (out[q].0.key(), false, true));
        assert(t.to_multiset().count((out[q].0.key(), false, true)) > 0);
        lemma_difference_count(m1, m2, k);
        lemma_difference_count(m2, m1, k);
    }
    assert forall|p: int, q: int|
        0 <= p < swapped.len() && 0 <= q < swapped.len() && is_first_only(#[trigger] swapped[p]) && is_second_only(
            #[trigger] swapped[q],
        ) implies swapped[p].0.key() != swapped[q].0.key() by {
        let k = swapped[p].0.key();
        lemma_tagged_counts(swapped, true, k);
        assert(u[p] == (k, false, true));
        assert(u.to_multiset().count((k, false, true)) > 0);
        lemma_tagged_counts(swapped, true, swapped[q].0.key());
        assert(u[q] == (swapped[q].0.key(), true, false));
        assert(u.to_multiset().count((swapped[q].0.key(), true, false)) > 0);
        lemma_difference_count(m1, m2, k);
        lemma_difference_count(m2, m1, k);
    }
    lemma_tagged_sorted(out, false);
    lemma_tagged_sorted(swapped, true);
    lemma_tagged_le_total();
    lemma_sorted_unique(t, u, tagged_le());
    assert forall|q: int| 0 <= q < out.len() implies (#[trigger] swapped[q]).0.key() == out[q].0.key() && swapped[q].1
        == out[q].2 && swapped[q].2 == out[q].1 by {
        assert(t[q] == u[q]);
    }
}

} // verus!

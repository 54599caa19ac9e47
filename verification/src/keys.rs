//! Byte-string keys and their lexicographic order, the order in which
//! `str` and `String` compare.

use vstd::prelude::*;
use vstd::relations::*;
use vstd::utf8::encode_utf8;

verus! {

/// The result of comparing two keys.
#[derive(Clone, Copy, Debug, PartialEq, Eq)]
pub enum KeyOrder {
    Less,
    Equal,
    Greater,
}

/// `a` is not greater than `b` in the lexicographic order of byte strings.
pub open spec fn lex_le(a: Seq<u8>, b: Seq<u8>) -> bool
    decreases a.len(),
{
    if a.len() == 0 {
        true
    } else if b.len() == 0 {
        false
    } else if a[0] != b[0] {
        a[0] < b[0]
    } else {
        lex_le(a.drop_first(), b.drop_first())
    }
}

/// `a` comes strictly before `b`.
pub open spec fn lex_lt(a: Seq<u8>, b: Seq<u8>) -> bool {
    lex_le(a, b) && a != b
}

/// The order as a relation value, for the library's notion of sortedness.
pub open spec fn key_le() -> spec_fn(Seq<u8>, Seq<u8>) -> bool {
    |a: Seq<u8>, b: Seq<u8>| lex_le(a, b)
}

/// What comparing `a` with `b` gives.
pub open spec fn key_order(a: Seq<u8>, b: Seq<u8>) -> KeyOrder {
    if a == b {
        KeyOrder::Equal
    } else if lex_le(a, b) {
        KeyOrder::Less
    } else {
        KeyOrder::Greater
    }
}

pub proof fn lemma_lex_reflexive(a: Seq<u8>)
    ensures
        lex_le(a, a),
    decreases a.len(),
{
    if a.len() > 0 {
        lemma_lex_reflexive(a.drop_first());
    }
}

pub proof fn lemma_lex_antisymmetric(a: Seq<u8>, b: Seq<u8>)
    requires
        lex_le(a, b),
        lex_le(b, a),
    ensures
        a == b,
    decreases a.len(),
{
    if a.len() > 0 && b.len() > 0 {
        lemma_lex_antisymmetric(a.drop_first(), b.drop_first());
        assert(a =~= seq![a[0]] + a.drop_first());
        assert(b =~= seq![b[0]] + b.drop_first());
    }
}

pub proof fn lemma_lex_transitive(a: Seq<u8>, b: Seq<u8>, c: Seq<u8>)
    requires
        lex_le(a, b),
        lex_le(b, c),
    ensures
        lex_le(a, c),
    decreases a.len(),
{
    if a.len() > 0 && b.len() > 0 && c.len() > 0 {
        if a[0] == b[0] && b[0] == c[0] {
            lemma_lex_transitive(a.drop_first(), b.drop_first(), c.drop_first());
        }
    }
}

pub proof fn lemma_lex_total(a: Seq<u8>, b: Seq<u8>)
    ensures
        lex_le(a, b) || lex_le(b, a),
    decreases a.len(),
{
    if a.len() > 0 && b.len() > 0 && a[0] == b[0] {
        lemma_lex_total(a.drop_first(), b.drop_first());
    }
}

/// The lexicographic order is a total order on byte strings.
pub proof fn lemma_key_le_total_ordering()
    ensures
        total_ordering(key_le()),
{
    assert forall|a: Seq<u8>| #[trigger] key_le()(a, a) by {
        lemma_lex_reflexive(a);
    }
    assert forall|a: Seq<u8>, b: Seq<u8>| #[trigger]
        key_le()(a, b) && #[trigger] key_le()(b, a) implies a == b by {
        lemma_lex_antisymmetric(a, b);
    }
    assert forall|a: Seq<u8>, b: Seq<u8>, c: Seq<u8>| #[trigger]
        key_le()(a, b) && #[trigger] key_le()(b, c) implies key_le()(a, c) by {
        lemma_lex_transitive(a, b, c);
    }
    assert forall|a: Seq<u8>, b: Seq<u8>| #[trigger]
        key_le()(a, b) || #[trigger] key_le()(b, a) by {
        lemma_lex_total(a, b);
    }
}

/// Compares two byte strings lexicographically, as `<[u8] as Ord>::cmp` does.
pub fn compare_bytes(a: &[u8], b: &[u8]) -> (r: KeyOrder)
    ensures
        r == key_order(a@, b@),
{
    let mut i: usize = 0;
    proof {
        assert(a@.skip(0) =~= a@);
        assert(b@.skip(0) =~= b@);
    }
    while i < a.len() && i < b.len()
        invariant
            i <= a@.len(),
            i <= b@.len(),
            a@.take(i as int) == b@.take(i as int),
            lex_le(a@, b@) == lex_le(a@.skip(i as int), b@.skip(i as int)),
        decreases a@.len() - i,
    {
        if a[i] != b[i] {
            proof {
                assert(a@.skip(i as int)[0] == a@[i as int]);
                assert(b@.skip(i as int)[0] == b@[i as int]);
                assert(a@[i as int] != b@[i as int]);
                assert(a@ != b@);
            }
            if a[i] < b[i] {
                return KeyOrder::Less;
            } else {
                return KeyOrder::Greater;
            }
        }
        proof {
            assert(a@.skip(i as int).drop_first() =~= a@.skip(i + 1));
            assert(b@.skip(i as int).drop_first() =~= b@.skip(i + 1));
            assert(a@.take(i + 1) =~= a@.take(i as int).push(a@[i as int]));
            assert(b@.take(i + 1) =~= b@.take(i as int).push(b@[i as int]));
        }
        i = i + 1;
    }
    if a.len() == b.len() {
        proof {
            assert(a@ =~= a@.take(i as int));
            assert(b@ =~= b@.take(i as int));
        }
        KeyOrder::Equal
    } else if a.len() < b.len() {
        proof {
            assert(a@.skip(i as int).len() == 0);
            assert(a@ != b@);
        }
        KeyOrder::Less
    } else {
        proof {
            assert(b@.skip(i as int).len() == 0);
            assert(a@.skip(i as int).len() > 0);
            assert(a@ != b@);
        }
        KeyOrder::Greater
    }
}

/// A value that is ordered by a byte-string key, as `str` and `String`
/// are ordered by their UTF-8 bytes.
pub trait SortKey {
    /// The bytes by which the value is ordered and told apart.
    spec fn key(&self) -> Seq<u8>;

    /// Gives the key bytes.
    fn key_bytes(&self) -> (b: &[u8])
        ensures
            b@ == self.key(),
    ;
}

impl SortKey for str {
    open spec fn key(&self) -> Seq<u8> {
        encode_utf8(self@)
    }

    fn key_bytes(&self) -> (b: &[u8]) {
        self.as_bytes()
    }
}

impl SortKey for String {
    open spec fn key(&self) -> Seq<u8> {
        encode_utf8(self@)
    }

    fn key_bytes(&self) -> (b: &[u8]) {
        self.as_str().as_bytes()
    }
}

impl<'a, K: SortKey + ?Sized> SortKey for &'a K {
    open spec fn key(&self) -> Seq<u8> {
        (**self).key()
    }

    fn key_bytes(&self) -> (b: &[u8]) {
        (**self).key_bytes()
    }
}

/// The keys of a sequence of values, in order.
pub open spec fn keys_of<X: SortKey>(s: Seq<X>) -> Seq<Seq<u8>> {
    s.map_values(|x: X| x.key())
}

/// The keys of a sequence of references, in order.
pub open spec fn ref_keys_of<T: SortKey + ?Sized>(s: Seq<&T>) -> Seq<Seq<u8>> {
    s.map_values(|x: &T| x.key())
}

/// A sequence of keys is in non-decreasing order.
pub open spec fn sorted_keys(ks: Seq<Seq<u8>>) -> bool {
    vstd::relations::sorted_by(ks, key_le())
}

/// Compares two values by their keys.
pub fn compare_keys<K: SortKey + ?Sized>(a: &K, b: &K) -> (r: KeyOrder)
    ensures
        r == key_order(a.key(), b.key()),
{
    compare_bytes(a.key_bytes(), b.key_bytes())
}

/// Tells whether `a`'s key is not greater than `b`'s.
pub fn key_le_exec<K: SortKey + ?Sized>(a: &K, b: &K) -> (r: bool)
    ensures
        r == lex_le(a.key(), b.key()),
{
    match compare_bytes(a.key_bytes(), b.key_bytes()) {
        KeyOrder::Greater => false,
        _ => {
            proof {
                if a.key() == b.key() {
                    lemma_lex_reflexive(a.key());
                }
            }
            true
        },
    }
}

} // verus!

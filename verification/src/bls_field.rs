//! Field elements of BLS12-381 as they appear in EIP-2537 inputs:
//! big-endian integers, reduced modulo the base field or scalar field
//! modulus by way of their decimal notation.

use vstd::prelude::*;
use fff::{PrimeField, PrimeFieldRepr};
use num_bigint::BigUint;
use paired::bls12_381::{Fq, Fr};

verus! {

/// The modulus of the BLS12-381 base field.
pub open spec fn fq_modulus() -> nat {
    4002409555221667393417789825735904156556882819939007885332058136124031650490837864442687629129015664037894272559787nat
}

/// The modulus of the BLS12-381 scalar field.
pub open spec fn fr_modulus() -> nat {
    52435875175126190479447740508185965837690552500527637822603658699938581184513nat
}

/// The unsigned integer that `bytes` denote in big-endian order.
pub open spec fn be_value(bytes: Seq<u8>) -> nat
    decreases bytes.len(),
{
    if bytes.len() == 0 {
        0
    } else {
        be_value(bytes.drop_last()) * 256 + bytes.last() as nat
    }
}

/// An ASCII decimal digit.
pub open spec fn is_digit(c: char) -> bool {
    '0' <= c && c <= '9'
}

/// The value of a decimal digit.
pub open spec fn digit_value(c: char) -> nat {
    (c as int - '0' as int) as nat
}

/// The decimal digit of value `d`, for `d < 10`.
pub open spec fn digit_char(d: nat) -> char {
    if d == 0 {
        '0'
    } else if d == 1 {
        '1'
    } else if d == 2 {
        '2'
    } else if d == 3 {
        '3'
    } else if d == 4 {
        '4'
    } else if d == 5 {
        '5'
    } else if d == 6 {
        '6'
    } else if d == 7 {
        '7'
    } else if d == 8 {
        '8'
    } else {
        '9'
    }
}

/// The value of a string of decimal digits.
pub open spec fn digits_value(s: Seq<char>) -> nat
    decreases s.len(),
{
    if s.len() == 0 {
        0
    } else {
        digits_value(s.drop_last()) * 10 + digit_value(s.last())
    }
}

/// The decimal notation of `n`, without leading zeroes.
pub open spec fn decimal_string(n: nat) -> Seq<char>
    decreases n,
{
    if n < 10 {
        seq![digit_char(n)]
    } else {
        decimal_string(n / 10).push(digit_char(n % 10))
    }
}

/// Reads a decimal number the way prime fields read one from a string:
/// no blank string, no unnecessary leading zero, digits only.
pub open spec fn parse_decimal(s: Seq<char>) -> Option<nat> {
    if s.len() == 0 {
        None
    } else if s == seq!['0'] {
        Some(0)
    } else if s[0] == '0' {
        None
    } else if exists|i: int| 0 <= i < s.len() && !is_digit(#[trigger] s[i]) {
        None
    } else {
        Some(digits_value(s))
    }
}

pub proof fn lemma_digit_char(d: nat)
    requires
        d < 10,
    ensures
        is_digit(digit_char(d)),
        digit_value(digit_char(d)) == d,
        d != 0 ==> digit_char(d) != '0',
{
}

/// The decimal notation of a number reads back as that number.
pub proof fn lemma_decimal_string(n: nat)
    ensures
        decimal_string(n).len() > 0,
        forall|i: int| 0 <= i < decimal_string(n).len() ==> is_digit(#[trigger] decimal_string(n)[i]),
        n > 0 ==> decimal_string(n)[0] != '0',
        n == 0 ==> decimal_string(n) == seq!['0'],
        digits_value(decimal_string(n)) == n,
    decreases n,
{
    if n < 10 {
        lemma_digit_char(n);
        assert(seq![digit_char(n)].drop_last() =~= Seq::<char>::empty());
        assert(digits_value(Seq::<char>::empty()) == 0);
        assert(digits_value(seq![digit_char(n)]) == n);
    } else {
        let q = n / 10;
        let r = n % 10;
        lemma_decimal_string(q);
        lemma_digit_char(r);
        let s = decimal_string(q).push(digit_char(r));
        assert(s.drop_last() =~= decimal_string(q));
        assert forall|i: int| 0 <= i < s.len() implies is_digit(#[trigger] s[i]) by {
            if i < decimal_string(q).len() {
                assert(s[i] == decimal_string(q)[i]);
            }
        }
        assert(s[0] == decimal_string(q)[0]);
        assert(s.last() == digit_char(r));
        assert(digits_value(s) == digits_value(decimal_string(q)) * 10 + digit_value(digit_char(r)));
        assert(n == q * 10 + r);
    }
}

pub proof fn lemma_parse_decimal_string(n: nat)
    ensures
        parse_decimal(decimal_string(n)) == Some(n),
{
    lemma_decimal_string(n);
    let s = decimal_string(n);
    if n != 0 {
        assert(s[0] != '0');
        assert(s != seq!['0']) by {
            if s == seq!['0'] {
                assert(s[0] == '0');
            }
        }
    }
}

/// The decimal notation of the big-endian integer `bytes`.
///
/// Calls `num_bigint::BigUint::from_bytes_be` and `BigUint::to_str_radix`
/// with radix 10, which writes the digits without leading zeroes, and
/// `"0"` for zero.
#[verifier::external_body]
fn be_bytes_to_decimal(bytes: &[u8]) -> (s: String)
    ensures
        s@ == decimal_string(be_value(bytes@)),
{
    BigUint::from_bytes_be(bytes).to_str_radix(10)
}

/// Reads a base field element from its decimal notation, giving its
/// canonical 48-byte big-endian representation.
///
/// Calls `fff::PrimeField::from_str` for `paired::bls12_381::Fq`, which
/// refuses a blank string, a leading zero other than in `"0"` and any
/// non-digit, and otherwise reduces the number modulo the field modulus;
/// the element is written out with `into_repr` and `write_be`.
#[verifier::external_body]
fn fq_from_decimal_str(s: &str) -> (r: Option<Vec<u8>>)
    ensures
        match parse_decimal(s@) {
            None => r is None,
            Some(v) => r is Some && r->0@.len() == 48 && be_value(r->0@) == v % fq_modulus(),
        },
{
    match <Fq as PrimeField>::from_str(s) {
        Some(f) => {
            let mut out: Vec<u8> = Vec::with_capacity(48);
            f.into_repr().write_be(&mut out).unwrap();
            Some(out)
        },
        None => None,
    }
}

/// Reads a scalar field element from its decimal notation, giving its
/// canonical 32-byte big-endian representation.
///
/// Calls `fff::PrimeField::from_str` for `paired::bls12_381::Fr`, with the
/// behaviour described at `fq_from_decimal_str`, modulo the scalar field
/// modulus.
#[verifier::external_body]
fn fr_from_decimal_str(s: &str) -> (r: Option<Vec<u8>>)
    ensures
        match parse_decimal(s@) {
            None => r is None,
            Some(v) => r is Some && r->0@.len() == 32 && be_value(r->0@) == v % fr_modulus(),
        },
{
    match <Fr as PrimeField>::from_str(s) {
        Some(f) => {
            let mut out: Vec<u8> = Vec::with_capacity(32);
            f.into_repr().write_be(&mut out).unwrap();
            Some(out)
        },
        None => None,
    }
}

/// Reduces the big-endian integer `bytes` into the base field, by way of
/// its decimal notation; gives the 48-byte representation of the element.
pub fn fq_from_be_bytes(bytes: &[u8]) -> (r: Vec<u8>)
    ensures
        r@.len() == 48,
        be_value(r@) == be_value(bytes@) % fq_modulus(),
{
    let dec = be_bytes_to_decimal(bytes);
    proof {
        lemma_parse_decimal_string(be_value(bytes@));
    }
    match fq_from_decimal_str(dec.as_str()) {
        Some(v) => v,
        None => {
            proof {
                assert(false);
            }
            Vec::new()
        },
    }
}

/// Reduces the big-endian integer `bytes` into the scalar field, by way of
/// its decimal notation; gives the 32-byte representation of the element.
pub fn fr_from_be_bytes(bytes: &[u8]) -> (r: Vec<u8>)
    ensures
        r@.len() == 32,
        be_value(r@) == be_value(bytes@) % fr_modulus(),
{
    let dec = be_bytes_to_decimal(bytes);
    proof {
        lemma_parse_decimal_string(be_value(bytes@));
    }
    match fr_from_decimal_str(dec.as_str()) {
        Some(v) => v,
        None => {
            proof {
                assert(false);
            }
            Vec::new()
        },
    }
}

} // verus!

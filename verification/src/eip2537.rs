//! Checks of EIP-2537 precompile test vectors against BLS12-381 group
//! operations: inputs and expected outputs are read in the precompiles'
//! encoding, the operation is carried out, and the result is compared with
//! the expected one.
//!
//! In that encoding a base field element takes 64 bytes, 16 of padding then
//! 48 big-endian; a G1 point is x then y; a G2 point is x.c0, x.c1, y.c0,
//! y.c1; a scalar takes 32 bytes big-endian. The padding is not checked.

use vstd::prelude::*;
use crate::bls_field::{be_value, fq_modulus, fr_modulus, fq_from_be_bytes, fr_from_be_bytes};
use crate::bls_points::{
    PointDecodeError, is_infinity_encoding, g1_unchecked_status, g2_unchecked_status, g1_checked_status,
    g2_checked_status, g1_in_subgroup, g2_in_subgroup, g1_decode_unchecked, g1_decode_checked,
    g2_decode_unchecked, g2_decode_checked, g1_sum, g2_sum, g1_multiple, g2_multiple,
    g1_map_from_field, g2_map_from_field, pairing_product_text, fq12_one_text, fq_text, fq2_text, fq6_text, zero_digits, pairs_trivial, g1_add, g2_add, g1_mul, g2_mul,
    g1_map_to_curve, g2_map_to_curve, pairing_text,
};
use crate::keys::{compare_bytes, KeyOrder};

verus! {

/// Why a test vector could not be checked.
#[derive(Clone, Copy, Debug, PartialEq, Eq)]
pub enum BlsError {
    /// The input or the expected output ended early.
    UnexpectedEof,
    /// An encoded point was refused.
    InvalidPoint(PointDecodeError),
    /// The final exponentiation of the pairing found nothing to invert.
    PairingUndefined,
}

/// The outcome of checking a test vector: whether the computed result
/// equals the expected one.
pub type TestResult<T> = Result<T, BlsError>;

/// A scalar at `at`: its value modulo the scalar field modulus, and where
/// reading goes on.
pub open spec fn read_fr(input: Seq<u8>, at: int) -> Result<(nat, int), BlsError> {
    if at + 32 > input.len() {
        Err(BlsError::UnexpectedEof)
    } else {
        Ok((be_value(input.subrange(at, at + 32)) % fr_modulus(), at + 32))
    }
}

/// A base field element at `at`, reduced, and where reading goes on.
pub open spec fn read_fq(input: Seq<u8>, at: int) -> Result<(nat, int), BlsError> {
    if at + 64 > input.len() {
        Err(BlsError::UnexpectedEof)
    } else {
        Ok((be_value(input.subrange(at + 16, at + 64)) % fq_modulus(), at + 64))
    }
}

/// An element c0 + c1 u of the quadratic extension at `at`, c0 first.
pub open spec fn read_fq2(input: Seq<u8>, at: int) -> Result<((nat, nat), int), BlsError> {
    match read_fq(input, at) {
        Err(e) => Err(e),
        Ok((c0, n)) => match read_fq(input, n) {
            Err(e) => Err(e),
            Ok((c1, m)) => Ok(((c0, c1), m)),
        },
    }
}

/// The uncompressed G1 encoding of the point written at `at`.
pub open spec fn g1_encoding(input: Seq<u8>, at: int) -> Seq<u8> {
    input.subrange(at + 16, at + 64) + input.subrange(at + 80, at + 128)
}

/// The uncompressed G2 encoding of the point written at `at`: x.c1, x.c0,
/// y.c1, y.c0.
pub open spec fn g2_encoding(input: Seq<u8>, at: int) -> Seq<u8> {
    input.subrange(at + 80, at + 128) + input.subrange(at + 16, at + 64) + input.subrange(
        at + 208,
        at + 256,
    ) + input.subrange(at + 144, at + 192)
}

/// Whether a G1 encoding decodes, with or without the curve checks.
pub open spec fn g1_status(b: Seq<u8>, check_subgroup: bool) -> Result<(), PointDecodeError> {
    if check_subgroup {
        g1_checked_status(b, g1_in_subgroup(b))
    } else {
        g1_unchecked_status(b)
    }
}

/// Whether a G2 encoding decodes, with or without the curve checks.
pub open spec fn g2_status(b: Seq<u8>, check_subgroup: bool) -> Result<(), PointDecodeError> {
    if check_subgroup {
        g2_checked_status(b, g2_in_subgroup(b))
    } else {
        g2_unchecked_status(b)
    }
}

/// A G1 point at `at`, as its encoding, and where reading goes on.
pub open spec fn read_g1(input: Seq<u8>, at: int, check_subgroup: bool) -> Result<(Seq<u8>, int), BlsError> {
    if at + 128 > input.len() {
        Err(BlsError::UnexpectedEof)
    } else {
        match g1_status(g1_encoding(input, at), check_subgroup) {
            Err(e) => Err(BlsError::InvalidPoint(e)),
            Ok(()) => Ok((g1_encoding(input, at), at + 128)),
        }
    }
}

/// A G2 point at `at`, as its encoding, and where reading goes on.
pub open spec fn read_g2(input: Seq<u8>, at: int, check_subgroup: bool) -> Result<(Seq<u8>, int), BlsError> {
    if at + 256 > input.len() {
        Err(BlsError::UnexpectedEof)
    } else {
        match g2_status(g2_encoding(input, at), check_subgroup) {
            Err(e) => Err(BlsError::InvalidPoint(e)),
            Ok(()) => Ok((g2_encoding(input, at), at + 256)),
        }
    }
}

/// Appends `src` to `out`.
fn append_bytes(out: &mut Vec<u8>, src: &[u8])
    ensures
        final(out)@ == old(out)@ + src@,
{
    let ghost start = out@;
    let n = src.len();
    for i in 0..n
        invariant
            n == src@.len(),
            out@ == start + src@.take(i as int),
    {
        out.push(src[i]);
        proof {
            assert(src@.take(i + 1) =~= src@.take(i as int).push(src@[i as int]));
        }
    }
    proof {
        assert(src@.take(n as int) =~= src@);
    }
}

/// Whether two byte strings are equal.
fn bytes_equal(a: &[u8], b: &[u8]) -> (r: bool)
    ensures
        r == (a@ == b@),
{
    match compare_bytes(a, b) {
        KeyOrder::Equal => true,
        _ => false,
    }
}

/// Reads a scalar at `at`: 32 bytes big-endian, reduced into the scalar
/// field; gives its canonical representation and where reading goes on.
fn u256_deserialize(input: &[u8], at: usize) -> (r: Result<(Vec<u8>, usize), BlsError>)
    requires
        at <= input@.len(),
    ensures
        match (r, read_fr(input@, at as int)) {
            (Ok((v, n)), Ok((sv, sn))) => v@.len() == 32 && be_value(v@) == sv && n == sn,
            (Err(e), Err(se)) => e == se,
            _ => false,
        },
{
    if input.len() - at < 32 {
        return Err(BlsError::UnexpectedEof);
    }
    let v = fr_from_be_bytes(&input[at..at + 32]);
    Ok((v, at + 32))
}

/// Reads a base field element at `at`: 16 bytes of padding, then 48 bytes
/// big-endian, reduced into the field.
fn fq_deserialize(input: &[u8], at: usize) -> (r: Result<(Vec<u8>, usize), BlsError>)
    requires
        at <= input@.len(),
    ensures
        match (r, read_fq(input@, at as int)) {
            (Ok((v, n)), Ok((sv, sn))) => v@.len() == 48 && be_value(v@) == sv && n == sn,
            (Err(e), Err(se)) => e == se,
            _ => false,
        },
{
    if input.len() - at < 64 {
        return Err(BlsError::UnexpectedEof);
    }
    let v = fq_from_be_bytes(&input[at + 16..at + 64]);
    Ok((v, at + 64))
}

/// Reads an element c0 + c1 u of the quadratic extension at `at`, c0
/// first; gives the representations of c0 and c1.
pub fn fq2_deserialize(input: &[u8], at: usize) -> (r: Result<((Vec<u8>, Vec<u8>), usize), BlsError>)
    requires
        at <= input@.len(),
    ensures
        match (r, read_fq2(input@, at as int)) {
            (Ok(((c0, c1), n)), Ok(((s0, s1), sn))) => {
                &&& c0@.len() == 48
                &&& c1@.len() == 48
                &&& be_value(c0@) == s0
                &&& be_value(c1@) == s1
                &&& n == sn
            },
            (Err(e), Err(se)) => e == se,
            _ => false,
        },
{
    let (c0, n) = fq_deserialize(input, at)?;
    let (c1, m) = fq_deserialize(input, n)?;
    Ok(((c0, c1), m))
}

/// Reads a G1 point at `at`, decoding it with or without the curve
/// checks; gives its uncompressed encoding and where reading goes on.
pub fn g1_deserialize(input: &[u8], at: usize, check_subgroup: bool) -> (r: Result<(Vec<u8>, usize), BlsError>)
    requires
        at <= input@.len(),
    ensures
        match (r, read_g1(input@, at as int, check_subgroup)) {
            (Ok((v, n)), Ok((sv, sn))) => v@ == sv && n == sn,
            (Err(e), Err(se)) => e == se,
            _ => false,
        },
        at + 128 <= input@.len() && is_infinity_encoding(g1_encoding(input@, at as int)) ==> r is Ok && r->Ok_0.0@
            == g1_encoding(input@, at as int) && r->Ok_0.1 == at + 128,
{
    if input.len() - at < 128 {
        return Err(BlsError::UnexpectedEof);
    }
    let mut enc: Vec<u8> = Vec::new();
    append_bytes(&mut enc, &input[at + 16..at + 64]);
    append_bytes(&mut enc, &input[at + 80..at + 128]);
    proof {
        assert(enc@ =~= g1_encoding(input@, at as int));
    }
    let status = if check_subgroup {
        g1_decode_checked(&enc)
    } else {
        g1_decode_unchecked(&enc)
    };
    match status {
        Ok(()) => Ok((enc, at + 128)),
        Err(e) => Err(BlsError::InvalidPoint(e)),
    }
}

/// Reads a G2 point at `at`, decoding it with or without the curve
/// checks; gives its uncompressed encoding and where reading goes on.
pub fn g2_deserialize(input: &[u8], at: usize, check_subgroup: bool) -> (r: Result<(Vec<u8>, usize), BlsError>)
    requires
        at <= input@.len(),
    ensures
        match (r, read_g2(input@, at as int, check_subgroup)) {
            (Ok((v, n)), Ok((sv, sn))) => v@ == sv && n == sn,
            (Err(e), Err(se)) => e == se,
            _ => false,
        },
        at + 256 <= input@.len() && is_infinity_encoding(g2_encoding(input@, at as int)) ==> r is Ok && r->Ok_0.0@
            == g2_encoding(input@, at as int) && r->Ok_0.1 == at + 256,
{
    if input.len() - at < 256 {
        return Err(BlsError::UnexpectedEof);
    }
    let mut enc: Vec<u8> = Vec::new();
    append_bytes(&mut enc, &input[at + 80..at + 128]);
    append_bytes(&mut enc, &input[at + 16..at + 64]);
    append_bytes(&mut enc, &input[at + 208..at + 256]);
    append_bytes(&mut enc, &input[at + 144..at + 192]);
    proof {
        assert(enc@ =~= g2_encoding(input@, at as int));
    }
    let status = if check_subgroup {
        g2_decode_checked(&enc)
    } else {
        g2_decode_unchecked(&enc)
    };
    match status {
        Ok(()) => Ok((enc, at + 256)),
        Err(e) => Err(BlsError::InvalidPoint(e)),
    }
}

/// What checking a map-to-G1 vector gives: the field element of the input
/// mapped to G1 against the expected point.
pub open spec fn fp_to_g1_outcome(input: Seq<u8>, output: Seq<u8>) -> Result<bool, BlsError> {
    match read_fq(input, 0) {
        Err(e) => Err(e),
        Ok((u, _)) => match read_g1(output, 0, false) {
            Err(e) => Err(e),
            Ok((expected, _)) => Ok(g1_map_from_field(u) == expected),
        },
    }
}

/// What checking a map-to-G2 vector gives.
pub open spec fn fp2_to_g2_outcome(input: Seq<u8>, output: Seq<u8>) -> Result<bool, BlsError> {
    match read_fq2(input, 0) {
        Err(e) => Err(e),
        Ok(((c0, c1), _)) => match read_g2(output, 0, false) {
            Err(e) => Err(e),
            Ok((expected, _)) => Ok(g2_map_from_field(c0, c1) == expected),
        },
    }
}

/// What checking a G1 addition vector gives: the two points of the input,
/// added, against the expected point.
pub open spec fn g1_add_outcome(input: Seq<u8>, output: Seq<u8>) -> Result<bool, BlsError> {
    match read_g1(input, 0, false) {
        Err(e) => Err(e),
        Ok((lhs, n)) => match read_g1(input, n, false) {
            Err(e) => Err(e),
            Ok((rhs, _)) => match read_g1(output, 0, false) {
                Err(e) => Err(e),
                Ok((expected, _)) => Ok(g1_sum(lhs, rhs) == expected),
            },
        },
    }
}

/// What checking a G2 addition vector gives.
pub open spec fn g2_add_outcome(input: Seq<u8>, output: Seq<u8>) -> Result<bool, BlsError> {
    match read_g2(input, 0, false) {
        Err(e) => Err(e),
        Ok((lhs, n)) => match read_g2(input, n, false) {
            Err(e) => Err(e),
            Ok((rhs, _)) => match read_g2(output, 0, false) {
                Err(e) => Err(e),
                Ok((expected, _)) => Ok(g2_sum(lhs, rhs) == expected),
            },
        },
    }
}

/// What checking a G1 multiplication vector gives: the point of the input
/// times its scalar, against the expected point.
pub open spec fn g1_mul_outcome(input: Seq<u8>, output: Seq<u8>) -> Result<bool, BlsError> {
    match read_g1(input, 0, false) {
        Err(e) => Err(e),
        Ok((p, n)) => match read_fr(input, n) {
            Err(e) => Err(e),
            Ok((s, _)) => match read_g1(output, 0, false) {
                Err(e) => Err(e),
                Ok((expected, _)) => Ok(g1_multiple(p, s) == expected),
            },
        },
    }
}

/// What checking a G2 multiplication vector gives.
pub open spec fn g2_mul_outcome(input: Seq<u8>, output: Seq<u8>) -> Result<bool, BlsError> {
    match read_g2(input, 0, false) {
        Err(e) => Err(e),
        Ok((p, n)) => match read_fr(input, n) {
            Err(e) => Err(e),
            Ok((s, _)) => match read_g2(output, 0, false) {
                Err(e) => Err(e),
                Ok((expected, _)) => Ok(g2_multiple(p, s) == expected),
            },
        },
    }
}

/// The input with its first two points, of `size` bytes each, in the
/// other order.
pub open spec fn swap_points(input: Seq<u8>, size: int) -> Seq<u8> {
    input.subrange(size, 2 * size) + input.subrange(0, size) + input.skip(2 * size)
}

/// Checking a G1 addition vector with its two points swapped reads the same
/// points in the other order; where their sum does not depend on the order,
/// the outcome is the same.
proof fn lemma_g1_add_swap(input: Seq<u8>, output: Seq<u8>)
    requires
        read_g1(input, 0, false) is Ok,
        read_g1(input, 128, false) is Ok,
        g1_sum(g1_encoding(input, 0), g1_encoding(input, 128)) == g1_sum(
            g1_encoding(input, 128),
            g1_encoding(input, 0),
        ),
    ensures
        g1_add_outcome(input, output) == g1_add_outcome(swap_points(input, 128), output),
{
    let w = swap_points(input, 128);
    assert(w.len() == input.len());
    assert(g1_encoding(w, 0) =~= g1_encoding(input, 128));
    assert(g1_encoding(w, 128) =~= g1_encoding(input, 0));
}

/// As `lemma_g1_add_swap`, for G2.
proof fn lemma_g2_add_swap(input: Seq<u8>, output: Seq<u8>)
    requires
        read_g2(input, 0, false) is Ok,
        read_g2(input, 256, false) is Ok,
        g2_sum(g2_encoding(input, 0), g2_encoding(input, 256)) == g2_sum(
            g2_encoding(input, 256),
            g2_encoding(input, 0),
        ),
    ensures
        g2_add_outcome(input, output) == g2_add_outcome(swap_points(input, 256), output),
{
    let w = swap_points(input, 256);
    assert(w.len() == input.len());
    assert(g2_encoding(w, 0) =~= g2_encoding(input, 256));
    assert(g2_encoding(w, 256) =~= g2_encoding(input, 0));
}

/// Checks a map-to-G1 vector: the input is one base field element, the
/// output the G1 point it maps to.
pub fn test_bls381_fp_to_g1(input: &[u8], output: &[u8]) -> (r: TestResult<bool>)
    ensures
        r == fp_to_g1_outcome(input@, output@),
{
    let (fq, _) = fq_deserialize(input, 0)?;
    let (expected, _) = g1_deserialize(output, 0, false)?;
    let result = g1_map_to_curve(&fq);
    Ok(bytes_equal(&result, &expected))
}

/// Checks a map-to-G2 vector: the input is one element of the quadratic
/// extension, the output the G2 point it maps to.
pub fn test_bls381_fp2_to_g2(input: &[u8], output: &[u8]) -> (r: TestResult<bool>)
    ensures
        r == fp2_to_g2_outcome(input@, output@),
{
    let ((c0, c1), _) = fq2_deserialize(input, 0)?;
    let (expected, _) = g2_deserialize(output, 0, false)?;
    let result = g2_map_to_curve(&c0, &c1);
    Ok(bytes_equal(&result, &expected))
}

/// Checks a G1 addition vector: the input is two G1 points, the output
/// their sum.
pub fn test_bls381_g1_add(input: &[u8], output: &[u8]) -> (r: TestResult<bool>)
    ensures
        r == g1_add_outcome(input@, output@),
        read_g1(input@, 0, false) is Ok && read_g1(input@, 128, false) is Ok ==> r == g1_add_outcome(
            swap_points(input@, 128),
            output@,
        ),
{
    let (lhs, n) = g1_deserialize(input, 0, false)?;
    let (rhs, _) = g1_deserialize(input, n, false)?;
    let sum = g1_add(&lhs, &rhs);
    proof {
        lemma_g1_add_swap(input@, output@);
    }
    let (expected, _) = g1_deserialize(output, 0, false)?;
    Ok(bytes_equal(&sum, &expected))
}

/// Checks a G1 multiplication vector: the input is a G1 point and a
/// scalar, the output their product.
pub fn test_bls381_g1_mul(input: &[u8], output: &[u8]) -> (r: TestResult<bool>)
    ensures
        r == g1_mul_outcome(input@, output@),
{
    let (lhs, n) = g1_deserialize(input, 0, false)?;
    let (rhs, _) = u256_deserialize(input, n)?;
    let (expected, _) = g1_deserialize(output, 0, false)?;
    let product = g1_mul(&lhs, &rhs);
    Ok(bytes_equal(&product, &expected))
}

/// Checks a G2 addition vector: the input is two G2 points, the output
/// their sum.
pub fn test_bls381_g2_add(input: &[u8], output: &[u8]) -> (r: TestResult<bool>)
    ensures
        r == g2_add_outcome(input@, output@),
        read_g2(input@, 0, false) is Ok && read_g2(input@, 256, false) is Ok ==> r == g2_add_outcome(
            swap_points(input@, 256),
            output@,
        ),
{
    let (lhs, n) = g2_deserialize(input, 0, false)?;
    let (rhs, _) = g2_deserialize(input, n, false)?;
    let sum = g2_add(&lhs, &rhs);
    proof {
        lemma_g2_add_swap(input@, output@);
    }
    let (expected, _) = g2_deserialize(output, 0, false)?;
    Ok(bytes_equal(&sum, &expected))
}

/// Checks a G2 multiplication vector: the input is a G2 point and a
/// scalar, the output their product.
pub fn test_bls381_g2_mul(input: &[u8], output: &[u8]) -> (r: TestResult<bool>)
    ensures
        r == g2_mul_outcome(input@, output@),
{
    let (lhs, n) = g2_deserialize(input, 0, false)?;
    let (rhs, _) = u256_deserialize(input, n)?;
    let (expected, _) = g2_deserialize(output, 0, false)?;
    let product = g2_mul(&lhs, &rhs);
    Ok(bytes_equal(&product, &expected))
}

/// The pairs of points of a pairing input from `at` on: each pair a G1 point
/// then a G2 point, both decoded with the curve and subgroup checks, until
/// the input ends.
pub open spec fn read_pairs(input: Seq<u8>, at: int) -> Result<(Seq<Seq<u8>>, Seq<Seq<u8>>), BlsError>
    decreases input.len() - at,
{
    if at < 0 || at >= input.len() {
        Ok((Seq::empty(), Seq::empty()))
    } else {
        match read_g1(input, at, true) {
            Err(e) => Err(e),
            Ok((a, _)) => match read_g2(input, at + 128, true) {
                Err(e) => Err(e),
                Ok((b, _)) => match read_pairs(input, at + 384) {
                    Err(e) => Err(e),
                    Ok((xs, ys)) => Ok((seq![a] + xs, seq![b] + ys)),
                },
            },
        }
    }
}

/// What checking a pairing vector gives: whether byte 31 of the output is
/// 1 when the product of the pairings of the input's pairs is one (its text
/// is that of one), and 0 when it is not.
pub open spec fn pairing_outcome(input: Seq<u8>, output: Seq<u8>) -> Result<bool, BlsError> {
    match read_pairs(input, 0) {
        Err(e) => Err(e),
        Ok((g1s, g2s)) => match pairing_product_text(g1s, g2s) {
            None => Err(BlsError::PairingUndefined),
            Some(t) => Ok(output[31] == if t == fq12_one_text() {
                1u8
            } else {
                0u8
            }),
        },
    }
}

/// Appends `n` zero digits.
fn push_zero_digits(out: &mut Vec<u8>, n: usize)
    ensures
        final(out)@ == old(out)@ + zero_digits(n as nat),
{
    let ghost start = out@;
    for i in 0..n
        invariant
            out@ == start + zero_digits(i as nat),
    {
        out.push(0x30);
        proof {
            assert(zero_digits((i + 1) as nat) =~= zero_digits(i as nat).push(0x30u8));
            assert(start + zero_digits((i + 1) as nat) =~= (start + zero_digits(i as nat)).push(0x30u8));
        }
    }
}

/// Appends the text of the base field element 1 or 0.
fn push_fq_text(out: &mut Vec<u8>, one: bool)
    ensures
        final(out)@ == old(out)@ + fq_text(one),
{
    let ghost start = out@;
    append_bytes(out, &[0x46u8, 0x71, 0x28, 0x30, 0x78]);
    push_zero_digits(out, 95);
    out.push(if one { 0x31u8 } else { 0x30u8 });
    out.push(0x29);
    proof {
        assert(out@ =~= start + fq_text(one));
    }
}

/// Appends the text of the element 1 or 0 of Fq2.
fn push_fq2_text(out: &mut Vec<u8>, one: bool)
    ensures
        final(out)@ == old(out)@ + fq2_text(one),
{
    let ghost start = out@;
    append_bytes(out, &[0x46u8, 0x71, 0x32, 0x28]);
    push_fq_text(out, one);
    append_bytes(out, &[0x20u8, 0x2b, 0x20]);
    push_fq_text(out, false);
    append_bytes(out, &[0x20u8, 0x2a, 0x20, 0x75, 0x29]);
    proof {
        assert(out@ =~= start + fq2_text(one));
    }
}

/// Appends the text of the element 1 or 0 of Fq6.
fn push_fq6_text(out: &mut Vec<u8>, one: bool)
    ensures
        final(out)@ == old(out)@ + fq6_text(one),
{
    let ghost start = out@;
    append_bytes(out, &[0x46u8, 0x71, 0x36, 0x28]);
    push_fq2_text(out, one);
    append_bytes(out, &[0x20u8, 0x2b, 0x20]);
    push_fq2_text(out, false);
    append_bytes(out, &[0x20u8, 0x2a, 0x20, 0x76, 0x2c, 0x20]);
    push_fq2_text(out, false);
    append_bytes(out, &[0x20u8, 0x2a, 0x20, 0x76, 0x5e, 0x32, 0x29]);
    proof {
        assert(out@ =~= start + fq6_text(one));
    }
}

/// The text of the element 1 of Fq12.
fn fq12_one_text_bytes() -> (r: Vec<u8>)
    ensures
        r@ == fq12_one_text(),
{
    let mut out: Vec<u8> = Vec::new();
    append_bytes(&mut out, &[0x46u8, 0x71, 0x31, 0x32, 0x28]);
    push_fq6_text(&mut out, true);
    append_bytes(&mut out, &[0x20u8, 0x2b, 0x20]);
    push_fq6_text(&mut out, false);
    append_bytes(&mut out, &[0x20u8, 0x2a, 0x20, 0x77, 0x29]);
    proof {
        assert(out@ =~= fq12_one_text());
    }
    out
}

/// Reads all pairs of a pairing input, each a G1 point then a G2 point,
/// both decoded with the curve and subgroup checks.
fn deserialize_pairs(input: &[u8]) -> (r: Result<(Vec<Vec<u8>>, Vec<Vec<u8>>), BlsError>)
    ensures
        match (r, read_pairs(input@, 0)) {
            (Ok((g1s, g2s)), Ok((xs, ys))) => {
                &&& g1s.deep_view() == xs
                &&& g2s.deep_view() == ys
                &&& g1s@.len() == g2s@.len()
                &&& forall|k: int|
                    0 <= k < g1s@.len() ==> (#[trigger] g1s@[k])@.len() == 96 && g1_unchecked_status(g1s@[k]@) is Ok
                &&& forall|k: int|
                    0 <= k < g2s@.len() ==> (#[trigger] g2s@[k])@.len() == 192 && g2_unchecked_status(g2s@[k]@) is Ok
            },
            (Err(e), Err(se)) => e == se,
            _ => false,
        },
{
    let mut g1s: Vec<Vec<u8>> = Vec::new();
    let mut g2s: Vec<Vec<u8>> = Vec::new();
    let mut at: usize = 0;
    proof {
        assert(g1s.deep_view() =~= Seq::<Seq<u8>>::empty());
        assert(g2s.deep_view() =~= Seq::<Seq<u8>>::empty());
        match read_pairs(input@, 0) {
            Ok((xs, ys)) => {
                assert(Seq::<Seq<u8>>::empty() + xs =~= xs);
                assert(Seq::<Seq<u8>>::empty() + ys =~= ys);
            },
            Err(_) => {},
        }
    }
    while at < input.len()
        invariant
            at <= input@.len(),
            g1s@.len() == g2s@.len(),
            forall|k: int|
                0 <= k < g1s@.len() ==> (#[trigger] g1s@[k])@.len() == 96 && g1_unchecked_status(g1s@[k]@) is Ok,
            forall|k: int|
                0 <= k < g2s@.len() ==> (#[trigger] g2s@[k])@.len() == 192 && g2_unchecked_status(g2s@[k]@) is Ok,
            read_pairs(input@, 0) == match read_pairs(input@, at as int) {
                Err(e) => Err(e),
                Ok((xs, ys)) => Ok((g1s.deep_view() + xs, g2s.deep_view() + ys)),
            },
        decreases input@.len() - at,
    {
        let (a, n) = match g1_deserialize(input, at, true) {
            Ok(v) => v,
            Err(e) => return Err(e),
        };
        let (b, m) = match g2_deserialize(input, n, true) {
            Ok(v) => v,
            Err(e) => return Err(e),
        };
        let ghost av = a@;
        let ghost bv = b@;
        let ghost old1 = g1s.deep_view();
        let ghost old2 = g2s.deep_view();
        g1s.push(a);
        g2s.push(b);
        proof {
            assert(g1s@[g1s@.len() - 1].deep_view() =~= av);
            assert(g2s@[g2s@.len() - 1].deep_view() =~= bv);
            assert(g1s.deep_view() =~= old1.push(av));
            assert(g2s.deep_view() =~= old2.push(bv));
            match read_pairs(input@, m as int) {
                Ok((xs, ys)) => {
                    assert(old1 + (seq![av] + xs) =~= old1.push(av) + xs);
                    assert(old2 + (seq![bv] + ys) =~= old2.push(bv) + ys);
                },
                Err(_) => {},
            }
        }
        at = m;
    }
    proof {
        assert(g1s.deep_view() + Seq::<Seq<u8>>::empty() =~= g1s.deep_view());
        assert(g2s.deep_view() + Seq::<Seq<u8>>::empty() =~= g2s.deep_view());
    }
    Ok((g1s, g2s))
}

/// Checks a pairing vector: the input is a sequence of (G1, G2) pairs, the
/// output 32 bytes whose last is 1 when the product of their pairings is
/// one and 0 otherwise. The output is only read once every pair has been
/// read, and must then hold 32 bytes.
pub fn test_bls381_pairing(input: &[u8], output: &[u8]) -> (r: TestResult<bool>)
    requires
        read_pairs(input@, 0) is Ok ==> output@.len() >= 32,
    ensures
        r == pairing_outcome(input@, output@),
        match read_pairs(input@, 0) {
            Ok((g1s, g2s)) => pairs_trivial(g1s, g2s) ==> r == Ok::<bool, BlsError>(output@[31] == 1u8),
            Err(_) => true,
        },
{
    let (g1s, g2s) = match deserialize_pairs(input) {
        Ok(v) => v,
        Err(e) => return Err(e),
    };
    let text = match pairing_text(&g1s, &g2s) {
        Some(t) => t,
        None => {
            return Err(BlsError::PairingUndefined);
        },
    };
    let one = fq12_one_text_bytes();
    let expected: u8 = if bytes_equal(&text, &one) {
        1
    } else {
        0
    };
    Ok(output[31] == expected)
}

/// Checks a pairing vector whatever the length of its output: none where
/// every pair of the input reads but the output is shorter than 32 bytes,
/// else what `test_bls381_pairing` gives.
pub fn test_bls381_pairing_any_output(input: &[u8], output: &[u8]) -> (r: Option<TestResult<bool>>)
    ensures
        match r {
            None => read_pairs(input@, 0) is Ok && output@.len() < 32,
            Some(t) => (read_pairs(input@, 0) is Ok ==> output@.len() >= 32) && t == pairing_outcome(input@, output@),
        },
{
    if output.len() >= 32 {
        return Some(test_bls381_pairing(input, output));
    }
    match deserialize_pairs(input) {
        Ok(_) => None,
        Err(_) => Some(test_bls381_pairing(input, output)),
    }
}

/// Two encodings agree but perhaps in the padding: the first 16 bytes of
/// each 64-byte word.
pub open spec fn same_but_padding(x: Seq<u8>, y: Seq<u8>) -> bool {
    &&& x.len() == y.len()
    &&& forall|p: int| 0 <= p < x.len() && p % 64 >= 16 ==> #[trigger] x[p] == #[trigger] y[p]
}

/// The bytes of the word at `at`, past its padding, agree.
proof fn lemma_word_agrees(x: Seq<u8>, y: Seq<u8>, at: int)
    requires
        same_but_padding(x, y),
        at >= 0,
        at % 64 == 0,
        at + 64 <= x.len(),
    ensures
        x.subrange(at + 16, at + 64) == y.subrange(at + 16, at + 64),
{
    assert forall|q: int| 16 <= q < 64 implies #[trigger] x[at + q] == y[at + q] by {
        assert((at + q) % 64 == q) by (nonlinear_arith)
            requires
                at % 64 == 0,
                at >= 0,
                0 <= q < 64,
        ;
    }
    assert(x.subrange(at + 16, at + 64) =~= y.subrange(at + 16, at + 64)) by {
        assert forall|i: int| 0 <= i < 48 implies #[trigger] x.subrange(at + 16, at + 64)[i] == y.subrange(at + 16, at + 64)[i] by {
            assert(x[at + (16 + i)] == y[at + (16 + i)]);
        }
    }
}

proof fn lemma_read_fq_padding(x: Seq<u8>, y: Seq<u8>, at: int)
    requires
        same_but_padding(x, y),
        at >= 0,
        at % 64 == 0,
    ensures
        read_fq(x, at) == read_fq(y, at),
{
    if at + 64 <= x.len() {
        lemma_word_agrees(x, y, at);
    }
}

proof fn lemma_read_fq2_padding(x: Seq<u8>, y: Seq<u8>, at: int)
    requires
        same_but_padding(x, y),
        at >= 0,
        at % 64 == 0,
    ensures
        read_fq2(x, at) == read_fq2(y, at),
{
    lemma_read_fq_padding(x, y, at);
    lemma_read_fq_padding(x, y, at + 64);
}

proof fn lemma_read_g1_padding(x: Seq<u8>, y: Seq<u8>, at: int, check: bool)
    requires
        same_but_padding(x, y),
        at >= 0,
        at % 64 == 0,
    ensures
        read_g1(x, at, check) == read_g1(y, at, check),
{
    if at + 128 <= x.len() {
        lemma_word_agrees(x, y, at);
        lemma_word_agrees(x, y, at + 64);
        assert(g1_encoding(x, at) == g1_encoding(y, at));
    }
}

proof fn lemma_read_g2_padding(x: Seq<u8>, y: Seq<u8>, at: int, check: bool)
    requires
        same_but_padding(x, y),
        at >= 0,
        at % 64 == 0,
    ensures
        read_g2(x, at, check) == read_g2(y, at, check),
{
    if at + 256 <= x.len() {
        lemma_word_agrees(x, y, at);
        lemma_word_agrees(x, y, at + 64);
        lemma_word_agrees(x, y, at + 128);
        lemma_word_agrees(x, y, at + 192);
        assert(g2_encoding(x, at) == g2_encoding(y, at));
    }
}

proof fn lemma_read_pairs_padding(x: Seq<u8>, y: Seq<u8>, at: int)
    requires
        same_but_padding(x, y),
        at >= 0,
        at % 64 == 0,
    ensures
        read_pairs(x, at) == read_pairs(y, at),
    decreases x.len() - at,
{
    if at < x.len() {
        lemma_read_g1_padding(x, y, at, true);
        lemma_read_g2_padding(x, y, at + 128, true);
        if at + 384 < x.len() {
            lemma_read_pairs_padding(x, y, at + 384);
        }
    }
}

/// The padding of the field elements and points of a test vector is never
/// read: inputs and outputs that differ only there give the same outcome,
/// for every check but the multiplications, whose scalar is not padded.
pub proof fn lemma_padding_is_ignored(input: Seq<u8>, other_input: Seq<u8>, output: Seq<u8>, other_output: Seq<u8>)
    requires
        same_but_padding(input, other_input),
        same_but_padding(output, other_output),
    ensures
        fp_to_g1_outcome(input, output) == fp_to_g1_outcome(other_input, other_output),
        fp2_to_g2_outcome(input, output) == fp2_to_g2_outcome(other_input, other_output),
        g1_add_outcome(input, output) == g1_add_outcome(other_input, other_output),
        g2_add_outcome(input, output) == g2_add_outcome(other_input, other_output),
        output.len() >= 32 ==> pairing_outcome(input, output) == pairing_outcome(other_input, other_output),
{
    lemma_read_fq_padding(input, other_input, 0);
    lemma_read_fq2_padding(input, other_input, 0);
    lemma_read_g1_padding(input, other_input, 0, false);
    lemma_read_g1_padding(input, other_input, 128, false);
    lemma_read_g2_padding(input, other_input, 0, false);
    lemma_read_g2_padding(input, other_input, 256, false);
    lemma_read_g1_padding(output, other_output, 0, false);
    lemma_read_g2_padding(output, other_output, 0, false);
    lemma_read_pairs_padding(input, other_input, 0);
    if output.len() >= 32 {
        assert(31int % 64 >= 16);
        assert(output[31] == other_output[31]);
    }
}

/// A scalar is the whole 32-byte word, big-endian, reduced modulo the
/// order of the groups.
pub proof fn lemma_scalar_is_whole_word(input: Seq<u8>, at: int)
    requires
        0 <= at,
        at + 32 <= input.len(),
    ensures
        read_fr(input, at) == Ok::<(nat, int), BlsError>((be_value(input.subrange(at, at + 32)) % fr_modulus(), at + 32)),
{
}

/// A base field element is the 48 bytes after its 16 bytes of padding,
/// big-endian, reduced modulo the field modulus.
pub proof fn lemma_field_element_is_whole_word(input: Seq<u8>, at: int)
    requires
        0 <= at,
        at + 64 <= input.len(),
    ensures
        read_fq(input, at) == Ok::<(nat, int), BlsError>((be_value(input.subrange(at + 16, at + 64)) % fq_modulus(), at + 64)),
{
}

/// Checking a multiplication vector multiplies the input's point by its
/// whole 32-byte scalar reduced modulo the group order, and compares with
/// the output's point.
pub proof fn lemma_mul_uses_whole_scalar(input: Seq<u8>, output: Seq<u8>)
    ensures
        read_g1(input, 0, false) is Ok && input.len() >= 160 && read_g1(output, 0, false) is Ok ==> g1_mul_outcome(
            input,
            output,
        ) == Ok::<bool, BlsError>(
            g1_multiple(g1_encoding(input, 0), be_value(input.subrange(128, 160)) % fr_modulus()) == g1_encoding(
                output,
                0,
            ),
        ),
        read_g2(input, 0, false) is Ok && input.len() >= 288 && read_g2(output, 0, false) is Ok ==> g2_mul_outcome(
            input,
            output,
        ) == Ok::<bool, BlsError>(
            g2_multiple(g2_encoding(input, 0), be_value(input.subrange(256, 288)) % fr_modulus()) == g2_encoding(
                output,
                0,
            ),
        ),
{
}

/// Every pair that a pairing input gives passes the full decoding: the G1
/// point at `at + 384 k` and the G2 point after it both pass the curve and
/// subgroup checks.
proof fn lemma_pairs_from_checked(input: Seq<u8>, at: int)
    requires
        0 <= at,
    ensures
        read_pairs(input, at) matches Ok((xs, ys)) ==> {
            &&& xs.len() == ys.len()
            &&& forall|k: int|
                0 <= k < xs.len() ==> {
                    &&& #[trigger] xs[k] == g1_encoding(input, at + 384 * k)
                    &&& g1_checked_status(xs[k], g1_in_subgroup(xs[k])) is Ok
                    &&& ys[k] == g2_encoding(input, at + 384 * k + 128)
                    &&& g2_checked_status(ys[k], g2_in_subgroup(ys[k])) is Ok
                }
        },
    decreases input.len() - at,
{
    if at < input.len() {
        if at + 384 < input.len() {
            lemma_pairs_from_checked(input, at + 384);
        }
        match read_pairs(input, at) {
            Ok((xs, ys)) => {
                let a = g1_encoding(input, at);
                let b = g2_encoding(input, at + 128);
                match read_pairs(input, at + 384) {
                    Ok((xs2, ys2)) => {
                        assert(xs == seq![a] + xs2);
                        assert(ys == seq![b] + ys2);
                        assert forall|k: int| 0 <= k < xs.len() implies {
                            &&& #[trigger] xs[k] == g1_encoding(input, at + 384 * k)
                            &&& g1_checked_status(xs[k], g1_in_subgroup(xs[k])) is Ok
                            &&& ys[k] == g2_encoding(input, at + 384 * k + 128)
                            &&& g2_checked_status(ys[k], g2_in_subgroup(ys[k])) is Ok
                        } by {
                            if k > 0 {
                                assert(xs[k] == xs2[k - 1]);
                                assert(ys[k] == ys2[k - 1]);
                                assert(at + 384 + 384 * (k - 1) == at + 384 * k);
                            }
                        }
                    },
                    Err(_) => {},
                }
            },
            Err(_) => {},
        }
    }
}

/// The pairs of a pairing input are read with the full decoding: every G1
/// and every G2 point they give passes the curve and subgroup checks, and
/// pair `k` is the G1 point at `384 k` and the G2 point at `384 k + 128`.
pub proof fn lemma_pairs_are_checked(input: Seq<u8>)
    ensures
        read_pairs(input, 0) matches Ok((xs, ys)) ==> {
            &&& xs.len() == ys.len()
            &&& forall|k: int|
                0 <= k < xs.len() ==> {
                    &&& #[trigger] xs[k] == g1_encoding(input, 384 * k)
                    &&& g1_checked_status(xs[k], g1_in_subgroup(xs[k])) is Ok
                    &&& ys[k] == g2_encoding(input, 384 * k + 128)
                    &&& g2_checked_status(ys[k], g2_in_subgroup(ys[k])) is Ok
                }
        },
{
    lemma_pairs_from_checked(input, 0);
}

} // verus!

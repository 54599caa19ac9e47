//! Points of the BLS12-381 groups G1 and G2, held as their uncompressed
//! affine encodings: 96 bytes (x, y) for G1 and 192 bytes (x.c1, x.c0,
//! y.c1, y.c0) for G2, each coordinate 48 bytes big-endian.
//!
//! An encoding that decodes is canonical: its flag bits are exactly those
//! of the point it denotes and its coordinates are below the modulus, so
//! two decodable encodings denote the same point exactly when they are the
//! same bytes.

use vstd::prelude::*;
use fff::{Field, PrimeField, PrimeFieldRepr};
use groupy::{CurveAffine, CurveProjective, EncodedPoint, GroupDecodingError};
use paired::bls12_381::{
    Bls12, ClearH, Fq, Fq2, FqRepr, Fr, FrRepr, G1, G1Uncompressed, G2, G2Uncompressed,
    IsogenyMap, OsswuMap,
};
use paired::{Engine, PairingCurveAffine};
use crate::bls_field::{be_value, fq_modulus, fr_modulus};

verus! {

/// Why an encoded point was refused.
#[derive(Clone, Copy, Debug, PartialEq, Eq)]
pub enum PointDecodeError {
    NotOnCurve,
    NotInSubgroup,
    CoordinateNotInField,
    UnexpectedCompressionMode,
    UnexpectedInformation,
}

#[verifier::external_type_specification]
#[verifier::external_body]
pub struct ExGroupDecodingError(GroupDecodingError);

/// The base field element written at `start` in an encoding.
pub open spec fn fq_coord(b: Seq<u8>, start: int) -> nat {
    be_value(b.subrange(start, start + 48))
}

/// The encoding of the point at infinity: the infinity flag and nothing else.
pub open spec fn is_infinity_encoding(b: Seq<u8>) -> bool {
    &&& b[0] == 0x40
    &&& forall|i: int| 1 <= i < b.len() ==> #[trigger] b[i] == 0
}

/// Whether an uncompressed encoding with coordinates at `starts` decodes,
/// before any check of the curve equation: the compression flag (bit 7 of
/// the first byte) must be clear; with the infinity flag (bit 6) set all
/// other bits must be clear; otherwise the sign flag (bit 5) must be clear
/// and every coordinate below the field modulus.
pub open spec fn uncompressed_status(b: Seq<u8>, starts: Seq<int>) -> Result<(), PointDecodeError> {
    if b[0] >= 0x80 {
        Err(PointDecodeError::UnexpectedCompressionMode)
    } else if b[0] >= 0x40 {
        if is_infinity_encoding(b) {
            Ok(())
        } else {
            Err(PointDecodeError::UnexpectedInformation)
        }
    } else if b[0] >= 0x20 {
        Err(PointDecodeError::UnexpectedInformation)
    } else if exists|k: int| 0 <= k < starts.len() && fq_coord(b, #[trigger] starts[k]) >= fq_modulus() {
        Err(PointDecodeError::CoordinateNotInField)
    } else {
        Ok(())
    }
}

/// Whether a 96-byte G1 encoding decodes without curve checks.
pub open spec fn g1_unchecked_status(b: Seq<u8>) -> Result<(), PointDecodeError> {
    uncompressed_status(b, seq![0int, 48int])
}

/// Whether a 192-byte G2 encoding decodes without curve checks.
pub open spec fn g2_unchecked_status(b: Seq<u8>) -> Result<(), PointDecodeError> {
    uncompressed_status(b, seq![0int, 48int, 96int, 144int])
}

/// Multiplication in the base field.
pub open spec fn fq_mul(a: nat, b: nat) -> nat {
    (a * b) % fq_modulus()
}

/// Multiplication in the quadratic extension Fq[u]/(u^2 + 1), on pairs (c0, c1).
pub open spec fn fq2_mul(a: (nat, nat), b: (nat, nat)) -> (nat, nat) {
    (
        ((a.0 * b.0 - a.1 * b.1) as int % (fq_modulus() as int)) as nat,
        ((a.0 * b.1 + a.1 * b.0) as int % (fq_modulus() as int)) as nat,
    )
}

/// A decoded G1 encoding lies on y^2 = x^3 + 4; the point at infinity does.
pub open spec fn g1_on_curve(b: Seq<u8>) -> bool {
    let x = fq_coord(b, 0);
    let y = fq_coord(b, 48);
    b[0] >= 0x40 || fq_mul(y, y) == (fq_mul(fq_mul(x, x), x) + 4) % fq_modulus()
}

/// A decoded G2 encoding lies on y^2 = x^3 + 4(1 + u); the point at
/// infinity does.
pub open spec fn g2_on_curve(b: Seq<u8>) -> bool {
    let x = (fq_coord(b, 48), fq_coord(b, 0));
    let y = (fq_coord(b, 144), fq_coord(b, 96));
    let x3 = fq2_mul(fq2_mul(x, x), x);
    b[0] >= 0x40 || fq2_mul(y, y) == ((x3.0 + 4) % fq_modulus(), (x3.1 + 4) % fq_modulus())
}

/// Whether the G1 point of a decodable encoding is in the prime-order
/// subgroup (multiplying it by the group order gives infinity).
pub uninterp spec fn g1_in_subgroup(b: Seq<u8>) -> bool;

/// Whether the G2 point of a decodable encoding is in the prime-order
/// subgroup.
pub uninterp spec fn g2_in_subgroup(b: Seq<u8>) -> bool;

/// Whether a G1 encoding decodes with the curve and subgroup checks,
/// `in_subgroup` telling whether its point is in the prime-order subgroup.
pub open spec fn g1_checked_status(b: Seq<u8>, in_subgroup: bool) -> Result<(), PointDecodeError> {
    match g1_unchecked_status(b) {
        Err(e) => Err(e),
        Ok(()) => if !g1_on_curve(b) {
            Err(PointDecodeError::NotOnCurve)
        } else if !in_subgroup {
            Err(PointDecodeError::NotInSubgroup)
        } else {
            Ok(())
        },
    }
}

/// Whether a G2 encoding decodes with the curve and subgroup checks,
/// `in_subgroup` telling whether its point is in the prime-order subgroup.
pub open spec fn g2_checked_status(b: Seq<u8>, in_subgroup: bool) -> Result<(), PointDecodeError> {
    match g2_unchecked_status(b) {
        Err(e) => Err(e),
        Ok(()) => if !g2_on_curve(b) {
            Err(PointDecodeError::NotOnCurve)
        } else if !in_subgroup {
            Err(PointDecodeError::NotInSubgroup)
        } else {
            Ok(())
        },
    }
}

/// The encoding of the sum of two G1 points, given by their encodings.
pub uninterp spec fn g1_sum(a: Seq<u8>, b: Seq<u8>) -> Seq<u8>;

/// The encoding of the sum of two G2 points.
pub uninterp spec fn g2_sum(a: Seq<u8>, b: Seq<u8>) -> Seq<u8>;

/// The encoding of the `s`-fold multiple of a G1 point.
pub uninterp spec fn g1_multiple(p: Seq<u8>, s: nat) -> Seq<u8>;

/// The encoding of the `s`-fold multiple of a G2 point.
pub uninterp spec fn g2_multiple(p: Seq<u8>, s: nat) -> Seq<u8>;

/// The encoding of the G1 point that the base field element `u` maps to:
/// the simplified SWU map onto the isogenous curve, the isogeny, then
/// cofactor clearing.
pub uninterp spec fn g1_map_from_field(u: nat) -> Seq<u8>;

/// The encoding of the G2 point that the element `c0 + c1 u` maps to, by
/// the same three steps.
pub uninterp spec fn g2_map_from_field(c0: nat, c1: nat) -> Seq<u8>;

/// The text of the product of the pairings of `g1s[k]` with `g2s[k]`, an
/// element of Fq12, as its `Display` writes it, in UTF-8; none when the
/// final exponentiation finds nothing to invert.
pub uninterp spec fn pairing_product_text(g1s: Seq<Seq<u8>>, g2s: Seq<Seq<u8>>) -> Option<Seq<u8>>;

/// `n` ASCII zero digits.
pub open spec fn zero_digits(n: nat) -> Seq<u8> {
    Seq::new(n, |i: int| 0x30u8)
}

/// The text `Display` gives for the base field element 1 or 0: `Fq(0x`,
/// 96 hexadecimal digits of its canonical value, `)`.
pub open spec fn fq_text(one: bool) -> Seq<u8> {
    seq![0x46u8, 0x71, 0x28, 0x30, 0x78] + zero_digits(95) + seq![if one { 0x31u8 } else { 0x30u8 }, 0x29]
}

/// The text of the element `c0 + 0 u` of Fq2, `c0` being 1 or 0:
/// `Fq2(c0 + c1 * u)`.
pub open spec fn fq2_text(one: bool) -> Seq<u8> {
    seq![0x46u8, 0x71, 0x32, 0x28] + fq_text(one) + seq![0x20u8, 0x2b, 0x20] + fq_text(false) + seq![
        0x20u8,
        0x2a,
        0x20,
        0x75,
        0x29,
    ]
}

/// The text of the element `c0 + 0 v + 0 v^2` of Fq6, `c0` being 1 or 0:
/// `Fq6(c0 + c1 * v, c2 * v^2)`.
pub open spec fn fq6_text(one: bool) -> Seq<u8> {
    seq![0x46u8, 0x71, 0x36, 0x28] + fq2_text(one) + seq![0x20u8, 0x2b, 0x20] + fq2_text(false) + seq![
        0x20u8,
        0x2a,
        0x20,
        0x76,
        0x2c,
        0x20,
    ] + fq2_text(false) + seq![0x20u8, 0x2a, 0x20, 0x76, 0x5e, 0x32, 0x29]
}

/// The text of the element 1 of Fq12: `Fq12(c0 + c1 * w)` with `c0` one
/// and `c1` zero.
pub open spec fn fq12_one_text() -> Seq<u8> {
    seq![0x46u8, 0x71, 0x31, 0x32, 0x28] + fq6_text(true) + seq![0x20u8, 0x2b, 0x20] + fq6_text(false) + seq![
        0x20u8,
        0x2a,
        0x20,
        0x77,
        0x29,
    ]
}

/// No pair has two points both away from infinity.
pub open spec fn pairs_trivial(g1s: Seq<Seq<u8>>, g2s: Seq<Seq<u8>>) -> bool {
    forall|k: int| 0 <= k < g1s.len() ==> is_infinity_encoding(#[trigger] g1s[k]) || is_infinity_encoding(g2s[k])
}

/// Decodes a G1 encoding without curve checks.
///
/// Calls `EncodedPoint::into_affine_unchecked` on a
/// `paired::bls12_381::G1Uncompressed`; the source checks the flag bits and
/// reads the two coordinates with `Fq::from_repr`, as `uncompressed_status`
/// states. Only the kind of the error is kept.
#[verifier::external_body]
pub(crate) fn g1_decode_unchecked(bytes: &[u8]) -> (r: Result<(), PointDecodeError>)
    requires
        bytes@.len() == 96,
    ensures
        r == g1_unchecked_status(bytes@),
{
    let mut enc = G1Uncompressed::empty();
    enc.as_mut().copy_from_slice(bytes);
    match enc.into_affine_unchecked() {
        Ok(_) => Ok(()),
        Err(GroupDecodingError::NotOnCurve) => Err(PointDecodeError::NotOnCurve),
        Err(GroupDecodingError::NotInSubgroup) => Err(PointDecodeError::NotInSubgroup),
        Err(GroupDecodingError::CoordinateDecodingError(..)) => Err(PointDecodeError::CoordinateNotInField),
        Err(GroupDecodingError::UnexpectedCompressionMode) => Err(PointDecodeError::UnexpectedCompressionMode),
        Err(GroupDecodingError::UnexpectedInformation) => Err(PointDecodeError::UnexpectedInformation),
    }
}

/// Decodes a G1 encoding with the curve and subgroup checks.
///
/// Calls `EncodedPoint::into_affine` on a `G1Uncompressed`, which decodes
/// as `into_affine_unchecked`, then refuses a point off the curve, then one
/// outside the prime-order subgroup. The subgroup test is named, not stated,
/// but for the point at infinity, which the source lets pass (its multiple
/// by the group order is infinity again).
#[verifier::external_body]
pub(crate) fn g1_decode_checked(bytes: &[u8]) -> (r: Result<(), PointDecodeError>)
    requires
        bytes@.len() == 96,
    ensures
        r == g1_checked_status(bytes@, g1_in_subgroup(bytes@)),
        is_infinity_encoding(bytes@) ==> r is Ok,
{
    let mut enc = G1Uncompressed::empty();
    enc.as_mut().copy_from_slice(bytes);
    match enc.into_affine() {
        Ok(_) => Ok(()),
        Err(GroupDecodingError::NotOnCurve) => Err(PointDecodeError::NotOnCurve),
        Err(GroupDecodingError::NotInSubgroup) => Err(PointDecodeError::NotInSubgroup),
        Err(GroupDecodingError::CoordinateDecodingError(..)) => Err(PointDecodeError::CoordinateNotInField),
        Err(GroupDecodingError::UnexpectedCompressionMode) => Err(PointDecodeError::UnexpectedCompressionMode),
        Err(GroupDecodingError::UnexpectedInformation) => Err(PointDecodeError::UnexpectedInformation),
    }
}

/// Decodes a G2 encoding without curve checks.
///
/// Calls `EncodedPoint::into_affine_unchecked` on a `G2Uncompressed`,
/// which checks the flag bits and reads the four coordinates with
/// `Fq::from_repr`.
#[verifier::external_body]
pub(crate) fn g2_decode_unchecked(bytes: &[u8]) -> (r: Result<(), PointDecodeError>)
    requires
        bytes@.len() == 192,
    ensures
        r == g2_unchecked_status(bytes@),
{
    let mut enc = G2Uncompressed::empty();
    enc.as_mut().copy_from_slice(bytes);
    match enc.into_affine_unchecked() {
        Ok(_) => Ok(()),
        Err(GroupDecodingError::NotOnCurve) => Err(PointDecodeError::NotOnCurve),
        Err(GroupDecodingError::NotInSubgroup) => Err(PointDecodeError::NotInSubgroup),
        Err(GroupDecodingError::CoordinateDecodingError(..)) => Err(PointDecodeError::CoordinateNotInField),
        Err(GroupDecodingError::UnexpectedCompressionMode) => Err(PointDecodeError::UnexpectedCompressionMode),
        Err(GroupDecodingError::UnexpectedInformation) => Err(PointDecodeError::UnexpectedInformation),
    }
}

/// Decodes a G2 encoding with the curve and subgroup checks.
///
/// Calls `EncodedPoint::into_affine` on a `G2Uncompressed`: decoding as
/// without checks, then the curve equation, then the named subgroup test,
/// which the point at infinity passes.
#[verifier::external_body]
pub(crate) fn g2_decode_checked(bytes: &[u8]) -> (r: Result<(), PointDecodeError>)
    requires
        bytes@.len() == 192,
    ensures
        r == g2_checked_status(bytes@, g2_in_subgroup(bytes@)),
        is_infinity_encoding(bytes@) ==> r is Ok,
{
    let mut enc = G2Uncompressed::empty();
    enc.as_mut().copy_from_slice(bytes);
    match enc.into_affine() {
        Ok(_) => Ok(()),
        Err(GroupDecodingError::NotOnCurve) => Err(PointDecodeError::NotOnCurve),
        Err(GroupDecodingError::NotInSubgroup) => Err(PointDecodeError::NotInSubgroup),
        Err(GroupDecodingError::CoordinateDecodingError(..)) => Err(PointDecodeError::CoordinateNotInField),
        Err(GroupDecodingError::UnexpectedCompressionMode) => Err(PointDecodeError::UnexpectedCompressionMode),
        Err(GroupDecodingError::UnexpectedInformation) => Err(PointDecodeError::UnexpectedInformation),
    }
}

/// Adds two G1 points given by encodings that decode.
///
/// Decodes both with `into_affine_unchecked`, adds them with
/// `CurveProjective::add_assign` on `paired::bls12_381::G1`, and encodes the
/// affine sum with `into_uncompressed`. The sum is named, not stated; of it
/// only this is claimed: the source's addition (the `add-2007-bl` formulas,
/// with the zero and doubling cases first) gives the same affine point
/// whichever operand comes first, so the sum does not depend on the order.
#[verifier::external_body]
pub(crate) fn g1_add(a: &[u8], b: &[u8]) -> (r: Vec<u8>)
    requires
        a@.len() == 96,
        b@.len() == 96,
        g1_unchecked_status(a@) is Ok,
        g1_unchecked_status(b@) is Ok,
    ensures
        r@ == g1_sum(a@, b@),
        r@ == g1_sum(b@, a@),
        r@.len() == 96,
{
    let (mut ea, mut eb) = (G1Uncompressed::empty(), G1Uncompressed::empty());
    ea.as_mut().copy_from_slice(a);
    eb.as_mut().copy_from_slice(b);
    let mut p = G1::from(ea.into_affine_unchecked().unwrap());
    p.add_assign(&G1::from(eb.into_affine_unchecked().unwrap()));
    p.into_affine().into_uncompressed().as_ref().to_vec()
}

/// Adds two G2 points given by encodings that decode.
///
/// As `g1_add`, with `paired::bls12_381::G2`, whose addition is the same
/// code; the sum does not depend on the order of the operands either.
#[verifier::external_body]
pub(crate) fn g2_add(a: &[u8], b: &[u8]) -> (r: Vec<u8>)
    requires
        a@.len() == 192,
        b@.len() == 192,
        g2_unchecked_status(a@) is Ok,
        g2_unchecked_status(b@) is Ok,
    ensures
        r@ == g2_sum(a@, b@),
        r@ == g2_sum(b@, a@),
        r@.len() == 192,
{
    let (mut ea, mut eb) = (G2Uncompressed::empty(), G2Uncompressed::empty());
    ea.as_mut().copy_from_slice(a);
    eb.as_mut().copy_from_slice(b);
    let mut p = G2::from(ea.into_affine_unchecked().unwrap());
    p.add_assign(&G2::from(eb.into_affine_unchecked().unwrap()));
    p.into_affine().into_uncompressed().as_ref().to_vec()
}

/// Multiplies a G1 point by a scalar field element given by its canonical
/// 32-byte big-endian representation.
///
/// Reads the scalar with `Fr::from_repr` and multiplies with
/// `CurveProjective::mul_assign`. The multiple is named, not stated.
#[verifier::external_body]
pub(crate) fn g1_mul(p: &[u8], scalar: &[u8]) -> (r: Vec<u8>)
    requires
        p@.len() == 96,
        g1_unchecked_status(p@) is Ok,
        scalar@.len() == 32,
        be_value(scalar@) < fr_modulus(),
    ensures
        r@ == g1_multiple(p@, be_value(scalar@)),
        r@.len() == 96,
{
    let mut enc = G1Uncompressed::empty();
    enc.as_mut().copy_from_slice(p);
    let mut repr = FrRepr::default();
    repr.read_be(scalar).unwrap();
    let mut point = G1::from(enc.into_affine_unchecked().unwrap());
    point.mul_assign(Fr::from_repr(repr).unwrap());
    point.into_affine().into_uncompressed().as_ref().to_vec()
}

/// Multiplies a G2 point by a scalar field element.
///
/// As `g1_mul`, with `paired::bls12_381::G2`.
#[verifier::external_body]
pub(crate) fn g2_mul(p: &[u8], scalar: &[u8]) -> (r: Vec<u8>)
    requires
        p@.len() == 192,
        g2_unchecked_status(p@) is Ok,
        scalar@.len() == 32,
        be_value(scalar@) < fr_modulus(),
    ensures
        r@ == g2_multiple(p@, be_value(scalar@)),
        r@.len() == 192,
{
    let mut enc = G2Uncompressed::empty();
    enc.as_mut().copy_from_slice(p);
    let mut repr = FrRepr::default();
    repr.read_be(scalar).unwrap();
    let mut point = G2::from(enc.into_affine_unchecked().unwrap());
    point.mul_assign(Fr::from_repr(repr).unwrap());
    point.into_affine().into_uncompressed().as_ref().to_vec()
}

/// Maps a base field element, given by its canonical 48-byte
/// representation, to G1.
///
/// Calls `OsswuMap::osswu_map`, then `IsogenyMap::isogeny_map`, then
/// `ClearH::clear_h` on `paired::bls12_381::G1`, and encodes the result.
/// The point is named, not stated.
#[verifier::external_body]
pub(crate) fn g1_map_to_curve(fp: &[u8]) -> (r: Vec<u8>)
    requires
        fp@.len() == 48,
        be_value(fp@) < fq_modulus(),
    ensures
        r@ == g1_map_from_field(be_value(fp@)),
        r@.len() == 96,
{
    let mut repr = FqRepr::default();
    repr.read_be(fp).unwrap();
    let mut p = G1::osswu_map(&Fq::from_repr(repr).unwrap());
    p.isogeny_map();
    p.clear_h();
    p.into_affine().into_uncompressed().as_ref().to_vec()
}

/// Maps an element `c0 + c1 u` of the quadratic extension, given by the
/// canonical representations of `c0` and `c1`, to G2.
///
/// Calls `OsswuMap::osswu_map`, `IsogenyMap::isogeny_map` and
/// `ClearH::clear_h` on `paired::bls12_381::G2`. The source of `osswu_map`
/// panics if neither of its square-root candidates fits. The simplified SWU
/// construction makes one of `g(X0(u))` and `g(X1(u))` a square for every
/// `u`, so that panic is not reached; no clause here states it.
#[verifier::external_body]
pub(crate) fn g2_map_to_curve(c0: &[u8], c1: &[u8]) -> (r: Vec<u8>)
    requires
        c0@.len() == 48,
        c1@.len() == 48,
        be_value(c0@) < fq_modulus(),
        be_value(c1@) < fq_modulus(),
    ensures
        r@ == g2_map_from_field(be_value(c0@), be_value(c1@)),
        r@.len() == 192,
{
    let (mut r0, mut r1) = (FqRepr::default(), FqRepr::default());
    r0.read_be(c0).unwrap();
    r1.read_be(c1).unwrap();
    let u = Fq2 { c0: Fq::from_repr(r0).unwrap(), c1: Fq::from_repr(r1).unwrap() };
    let mut p = G2::osswu_map(&u);
    p.isogeny_map();
    p.clear_h();
    p.into_affine().into_uncompressed().as_ref().to_vec()
}

/// The text of the product of the pairings of the pairs `(g1s[k], g2s[k])`
/// in the target group.
///
/// Prepares each point with `PairingCurveAffine::prepare`, runs
/// `Engine::miller_loop` for `Bls12` and `final_exponentiation`, and writes
/// the result with `Display`; gives none where `final_exponentiation`
/// does. The text is named, not stated, but for this: `miller_loop` skips
/// every pair with a point at infinity and starts from one, and the final
/// exponentiation of one is one, so pairs that all have such a point give
/// the text of one.
#[verifier::external_body]
pub(crate) fn pairing_text(g1s: &Vec<Vec<u8>>, g2s: &Vec<Vec<u8>>) -> (r: Option<Vec<u8>>)
    requires
        g1s@.len() == g2s@.len(),
        forall|k: int| 0 <= k < g1s@.len() ==> (#[trigger] g1s@[k])@.len() == 96 && g1_unchecked_status(g1s@[k]@) is Ok,
        forall|k: int| 0 <= k < g2s@.len() ==> (#[trigger] g2s@[k])@.len() == 192 && g2_unchecked_status(g2s@[k]@) is Ok,
    ensures
        match r {
            Some(t) => pairing_product_text(g1s.deep_view(), g2s.deep_view()) == Some(t@),
            None => pairing_product_text(g1s.deep_view(), g2s.deep_view()) is None,
        },
        pairs_trivial(g1s.deep_view(), g2s.deep_view()) ==> match r {
            Some(t) => t@ == fq12_one_text(),
            None => false,
        },
{
    let mut prepared = Vec::new();
    for (a, b) in g1s.iter().zip(g2s.iter()) {
        let (mut ea, mut eb) = (G1Uncompressed::empty(), G2Uncompressed::empty());
        ea.as_mut().copy_from_slice(a);
        eb.as_mut().copy_from_slice(b);
        prepared.push((ea.into_affine_unchecked().unwrap().prepare(), eb.into_affine_unchecked().unwrap().prepare()));
    }
    let refs: Vec<_> = prepared.iter().map(|(a, b)| (a, b)).collect();
    match Bls12::final_exponentiation(&Bls12::miller_loop(&refs)) {
        Some(f) => Some(format!("{}", f).into_bytes()),
        None => None,
    }
}

} // verus!

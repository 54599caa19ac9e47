use evm_tools::bls_field::{fq_from_be_bytes, fr_from_be_bytes};
use evm_tools::bls_points::PointDecodeError;
use evm_tools::eip2537::{fq2_deserialize, g1_deserialize, g2_deserialize, BlsError};
use fff::{PrimeField, PrimeFieldRepr};
use groupy::{CurveAffine, CurveProjective, EncodedPoint};
use paired::bls12_381::{Fq, Fr, G1, G2};

fn pad(field: &[u8]) -> Vec<u8> {
    let mut out = vec![0u8; 16];
    out.extend_from_slice(field);
    out
}

fn fq_modulus_bytes() -> Vec<u8> {
    let mut out = Vec::new();
    Fq::char().write_be(&mut out).unwrap();
    out
}

fn fr_modulus_bytes() -> Vec<u8> {
    let mut out = Vec::new();
    Fr::char().write_be(&mut out).unwrap();
    out
}

fn with_last(mut bytes: Vec<u8>, v: u8) -> Vec<u8> {
    let n = bytes.len();
    bytes[n - 1] = bytes[n - 1].wrapping_add(v);
    bytes
}

fn small(len: usize, v: u8) -> Vec<u8> {
    let mut out = vec![0u8; len];
    out[len - 1] = v;
    out
}

#[test]
fn base_field_reduction() {
    assert_eq!(fq_from_be_bytes(&small(48, 7)), small(48, 7));
    assert_eq!(fq_from_be_bytes(&fq_modulus_bytes()), vec![0u8; 48]);
    assert_eq!(fq_from_be_bytes(&with_last(fq_modulus_bytes(), 5)), small(48, 5));
    assert_eq!(fq_from_be_bytes(&[]), vec![0u8; 48]);
}

#[test]
fn scalar_field_reduction() {
    assert_eq!(fr_from_be_bytes(&small(32, 9)), small(32, 9));
    assert_eq!(fr_from_be_bytes(&with_last(fr_modulus_bytes(), 3)), small(32, 3));
    assert_eq!(fr_from_be_bytes(&[0x01]), small(32, 1));
}

#[test]
fn quadratic_extension_elements_are_read_c0_first() {
    let mut input = pad(&small(48, 2));
    input.extend(pad(&with_last(fq_modulus_bytes(), 1)));
    let ((c0, c1), n) = fq2_deserialize(&input, 0).unwrap();
    assert_eq!(c0, small(48, 2));
    assert_eq!(c1, small(48, 1));
    assert_eq!(n, 128);
    assert_eq!(fq2_deserialize(&input, 1).err(), Some(BlsError::UnexpectedEof));
    assert_eq!(fq2_deserialize(&input[..100], 0).err(), Some(BlsError::UnexpectedEof));
}

fn eip_g1(p: &G1) -> (Vec<u8>, Vec<u8>) {
    let enc = p.into_affine().into_uncompressed();
    let b = enc.as_ref();
    let mut out = pad(&b[0..48]);
    out.extend(pad(&b[48..96]));
    (out, b.to_vec())
}

fn eip_g2(p: &G2) -> (Vec<u8>, Vec<u8>) {
    let enc = p.into_affine().into_uncompressed();
    let b = enc.as_ref();
    let mut out = pad(&b[48..96]);
    out.extend(pad(&b[0..48]));
    out.extend(pad(&b[144..192]));
    out.extend(pad(&b[96..144]));
    (out, b.to_vec())
}

#[test]
fn g1_points_are_read_into_their_encoding() {
    let (input, enc) = eip_g1(&G1::one());
    assert_eq!(g1_deserialize(&input, 0, true), Ok((enc.clone(), 128)));
    assert_eq!(g1_deserialize(&input, 0, false), Ok((enc, 128)));
    assert_eq!(g1_deserialize(&input, 1, false), Err(BlsError::UnexpectedEof));
}

#[test]
fn g1_points_off_the_curve_are_refused_when_checked() {
    let (mut input, _) = eip_g1(&G1::one());
    input[127] ^= 1;
    assert_eq!(
        g1_deserialize(&input, 0, true),
        Err(BlsError::InvalidPoint(PointDecodeError::NotOnCurve))
    );
    assert!(g1_deserialize(&input, 0, false).is_ok());
}

#[test]
fn g2_points_are_read_into_their_encoding() {
    let (input, enc) = eip_g2(&G2::one());
    assert_eq!(g2_deserialize(&input, 0, true), Ok((enc.clone(), 256)));
    assert_eq!(g2_deserialize(&input, 0, false), Ok((enc, 256)));
    assert_eq!(g2_deserialize(&input[..255], 0, true), Err(BlsError::UnexpectedEof));
}

#[test]
fn points_at_infinity_pass_the_subgroup_check() {
    let (input, enc) = eip_g1(&G1::zero());
    assert_eq!(enc[0], 0x40);
    assert_eq!(g1_deserialize(&input, 0, true), Ok((enc, 128)));
    let (input2, enc2) = eip_g2(&G2::zero());
    assert_eq!(g2_deserialize(&input2, 0, true), Ok((enc2, 256)));
}

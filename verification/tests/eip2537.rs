use evm_tools::bls_points::PointDecodeError;
use evm_tools::eip2537::{
    test_bls381_fp2_to_g2, test_bls381_fp_to_g1, test_bls381_g1_add, test_bls381_g1_mul,
    test_bls381_g2_add, test_bls381_g2_mul, test_bls381_pairing, test_bls381_pairing_any_output,
    BlsError,
};
use fff::{Field, PrimeField, PrimeFieldRepr};
use groupy::{CurveAffine, CurveProjective, EncodedPoint};
use paired::bls12_381::{ClearH, Fq, Fq2, FqRepr, Fr, G1Affine, G2Affine, IsogenyMap, OsswuMap, G1, G2};

fn pad(field: &[u8]) -> Vec<u8> {
    let mut out = vec![0u8; 16];
    out.extend_from_slice(field);
    out
}

fn eip_g1(p: &G1) -> Vec<u8> {
    let enc = p.into_affine().into_uncompressed();
    let b = enc.as_ref();
    let mut out = pad(&b[0..48]);
    out.extend(pad(&b[48..96]));
    out
}

fn eip_g2(p: &G2) -> Vec<u8> {
    let enc = p.into_affine().into_uncompressed();
    let b = enc.as_ref();
    let mut out = pad(&b[48..96]);
    out.extend(pad(&b[0..48]));
    out.extend(pad(&b[144..192]));
    out.extend(pad(&b[96..144]));
    out
}

fn scalar_bytes(v: u64) -> Vec<u8> {
    let mut out = vec![0u8; 24];
    out.extend_from_slice(&v.to_be_bytes());
    out
}

fn fq_bytes(v: u64) -> Vec<u8> {
    let mut out = vec![0u8; 40];
    out.extend_from_slice(&v.to_be_bytes());
    out
}

fn fq_modulus_bytes() -> Vec<u8> {
    let mut out = Vec::new();
    Fq::char().write_be(&mut out).unwrap();
    out
}

fn add_small(bytes: &[u8], v: u8) -> Vec<u8> {
    let mut out = bytes.to_vec();
    let mut carry = v as u16;
    for b in out.iter_mut().rev() {
        let s = *b as u16 + carry;
        *b = s as u8;
        carry = s >> 8;
    }
    out
}

fn fq(v: u64) -> Fq {
    Fq::from_repr(FqRepr::from(v)).unwrap()
}

fn mapped_g1(u: Fq) -> G1 {
    let mut p = G1::osswu_map(&u);
    p.isogeny_map();
    p.clear_h();
    p
}

fn mapped_g2(u: Fq2) -> G2 {
    let mut p = G2::osswu_map(&u);
    p.isogeny_map();
    p.clear_h();
    p
}

#[test]
fn g1_add_of_generator_twice() {
    let g = G1::one();
    let mut two = g;
    two.double();
    let mut input = eip_g1(&g);
    input.extend(eip_g1(&g));
    assert_eq!(test_bls381_g1_add(&input, &eip_g1(&two)), Ok(true));
    assert_eq!(test_bls381_g1_add(&input, &eip_g1(&g)), Ok(false));
}

#[test]
fn g1_add_ignores_padding() {
    let g = G1::one();
    let mut two = g;
    two.double();
    let mut input = eip_g1(&g);
    input.extend(eip_g1(&g));
    input[0] = 0xff;
    input[64] = 0x12;
    assert_eq!(test_bls381_g1_add(&input, &eip_g1(&two)), Ok(true));
}

#[test]
fn g1_add_short_input() {
    let g = G1::one();
    let input = eip_g1(&g);
    assert_eq!(test_bls381_g1_add(&input, &eip_g1(&g)), Err(BlsError::UnexpectedEof));
    assert_eq!(test_bls381_g1_add(&[], &[]), Err(BlsError::UnexpectedEof));
}

#[test]
fn g1_add_refuses_bad_encodings() {
    let g = G1::one();
    let mut input = eip_g1(&g);
    input.extend(eip_g1(&g));
    let mut compressed = input.clone();
    compressed[16] |= 0x80;
    assert_eq!(
        test_bls381_g1_add(&compressed, &eip_g1(&g)),
        Err(BlsError::InvalidPoint(PointDecodeError::UnexpectedCompressionMode))
    );
    let mut signed = input.clone();
    signed[16] |= 0x20;
    assert_eq!(
        test_bls381_g1_add(&signed, &eip_g1(&g)),
        Err(BlsError::InvalidPoint(PointDecodeError::UnexpectedInformation))
    );
    let mut too_big = input.clone();
    for b in &mut too_big[16..64] {
        *b = 0xff;
    }
    too_big[16] = 0x1f;
    assert_eq!(
        test_bls381_g1_add(&too_big, &eip_g1(&g)),
        Err(BlsError::InvalidPoint(PointDecodeError::CoordinateNotInField))
    );
}

#[test]
fn g1_mul_by_small_scalar() {
    let g = G1::one();
    let mut five = g;
    five.mul_assign(Fr::from_repr(paired::bls12_381::FrRepr::from(5)).unwrap());
    let mut input = eip_g1(&g);
    input.extend(scalar_bytes(5));
    assert_eq!(test_bls381_g1_mul(&input, &eip_g1(&five)), Ok(true));
    assert_eq!(test_bls381_g1_mul(&input, &eip_g1(&g)), Ok(false));
}

#[test]
fn g1_mul_reduces_the_scalar() {
    let g = G1::one();
    let mut five = g;
    five.mul_assign(Fr::from_repr(paired::bls12_381::FrRepr::from(5)).unwrap());
    let mut order = Vec::new();
    Fr::char().write_be(&mut order).unwrap();
    let mut input = eip_g1(&g);
    input.extend(add_small(&order, 5));
    assert_eq!(test_bls381_g1_mul(&input, &eip_g1(&five)), Ok(true));
}

#[test]
fn g1_mul_short_scalar() {
    let g = G1::one();
    let mut input = eip_g1(&g);
    input.extend(vec![0u8; 31]);
    assert_eq!(test_bls381_g1_mul(&input, &eip_g1(&g)), Err(BlsError::UnexpectedEof));
}

#[test]
fn g2_add_and_mul() {
    let g = G2::one();
    let mut two = g;
    two.double();
    let mut input = eip_g2(&g);
    input.extend(eip_g2(&g));
    assert_eq!(test_bls381_g2_add(&input, &eip_g2(&two)), Ok(true));
    assert_eq!(test_bls381_g2_add(&input, &eip_g2(&g)), Ok(false));
    let mut input = eip_g2(&g);
    input.extend(scalar_bytes(2));
    assert_eq!(test_bls381_g2_mul(&input, &eip_g2(&two)), Ok(true));
    assert_eq!(test_bls381_g2_mul(&input[..100], &eip_g2(&two)), Err(BlsError::UnexpectedEof));
}

#[test]
fn fp_to_g1_maps_the_element() {
    let expected = mapped_g1(fq(5));
    assert_eq!(test_bls381_fp_to_g1(&pad(&fq_bytes(5)), &eip_g1(&expected)), Ok(true));
    assert_eq!(test_bls381_fp_to_g1(&pad(&fq_bytes(6)), &eip_g1(&expected)), Ok(false));
    assert_eq!(test_bls381_fp_to_g1(&pad(&fq_bytes(6))[..63], &eip_g1(&expected)), Err(BlsError::UnexpectedEof));
}

#[test]
fn fp_to_g1_reduces_the_element() {
    let expected = mapped_g1(fq(5));
    let reduced = add_small(&fq_modulus_bytes(), 5);
    assert_eq!(test_bls381_fp_to_g1(&pad(&reduced), &eip_g1(&expected)), Ok(true));
}

#[test]
fn fp2_to_g2_maps_the_element() {
    let expected = mapped_g2(Fq2 { c0: fq(3), c1: fq(7) });
    let mut input = pad(&fq_bytes(3));
    input.extend(pad(&fq_bytes(7)));
    assert_eq!(test_bls381_fp2_to_g2(&input, &eip_g2(&expected)), Ok(true));
    let mut swapped = pad(&fq_bytes(7));
    swapped.extend(pad(&fq_bytes(3)));
    assert_eq!(test_bls381_fp2_to_g2(&swapped, &eip_g2(&expected)), Ok(false));
}

fn output_byte(b: u8) -> Vec<u8> {
    let mut out = vec![0u8; 32];
    out[31] = b;
    out
}

#[test]
fn pairing_of_inverse_pairs_is_one() {
    let g1 = G1::one();
    let mut neg = g1;
    neg.negate();
    let g2 = G2::one();
    let mut input = eip_g1(&g1);
    input.extend(eip_g2(&g2));
    input.extend(eip_g1(&neg));
    input.extend(eip_g2(&g2));
    assert_eq!(test_bls381_pairing(&input, &output_byte(1)), Ok(true));
    assert_eq!(test_bls381_pairing(&input, &output_byte(0)), Ok(false));
}

#[test]
fn pairing_of_one_pair_is_not_one() {
    let mut input = eip_g1(&G1::one());
    input.extend(eip_g2(&G2::one()));
    assert_eq!(test_bls381_pairing(&input, &output_byte(0)), Ok(true));
}

#[test]
fn pairing_of_nothing_is_one() {
    assert_eq!(test_bls381_pairing(&[], &output_byte(1)), Ok(true));
}

#[test]
fn pairing_refuses_points_off_the_curve() {
    let mut input = pad(&fq_bytes(1));
    input.extend(pad(&fq_bytes(1)));
    input.extend(eip_g2(&G2::one()));
    assert_eq!(
        test_bls381_pairing(&input, &output_byte(1)),
        Err(BlsError::InvalidPoint(PointDecodeError::NotOnCurve))
    );
}

#[test]
fn pairing_refuses_a_missing_g2_point() {
    let input = eip_g1(&G1::one());
    assert_eq!(test_bls381_pairing(&input, &output_byte(1)), Err(BlsError::UnexpectedEof));
}

#[test]
fn affine_zero_is_not_decoded_from_zero_bytes() {
    let zero = G1Affine::zero();
    assert!(zero.is_zero());
    let _ = G2Affine::zero();
    let g = G1::one();
    let mut input = vec![0u8; 128];
    input.extend(eip_g1(&g));
    assert_eq!(test_bls381_g1_add(&input, &eip_g1(&g)), Ok(false));
}

#[test]
fn pairing_with_a_cut_input_fails_before_the_output_is_read() {
    let input = eip_g1(&G1::one());
    assert_eq!(test_bls381_pairing(&input, &[]), Err(BlsError::UnexpectedEof));
    assert_eq!(test_bls381_pairing_any_output(&input, &[]), Some(Err(BlsError::UnexpectedEof)));
}

#[test]
fn pairing_with_any_output() {
    let mut input = eip_g1(&G1::one());
    input.extend(eip_g2(&G2::one()));
    assert_eq!(test_bls381_pairing_any_output(&input, &[0u8; 10]), None);
    assert_eq!(test_bls381_pairing_any_output(&input, &output_byte(0)), Some(Ok(true)));
    assert_eq!(test_bls381_pairing_any_output(&[], &[]), None);
}

#[test]
fn g1_and_g2_addition_do_not_depend_on_the_order() {
    let g = G1::one();
    let mut two = g;
    two.double();
    let mut three = two;
    three.add_assign(&g);
    let mut ab = eip_g1(&g);
    ab.extend(eip_g1(&two));
    let mut ba = eip_g1(&two);
    ba.extend(eip_g1(&g));
    assert_eq!(test_bls381_g1_add(&ab, &eip_g1(&three)), Ok(true));
    assert_eq!(test_bls381_g1_add(&ba, &eip_g1(&three)), Ok(true));
    assert_eq!(test_bls381_g1_add(&ba, &eip_g1(&two)), Ok(false));

    let h = G2::one();
    let mut h2 = h;
    h2.double();
    let mut h3 = h2;
    h3.add_assign(&h);
    let mut hab = eip_g2(&h);
    hab.extend(eip_g2(&h2));
    let mut hba = eip_g2(&h2);
    hba.extend(eip_g2(&h));
    assert_eq!(test_bls381_g2_add(&hab, &eip_g2(&h3)), Ok(true));
    assert_eq!(test_bls381_g2_add(&hba, &eip_g2(&h3)), Ok(true));
}

#[test]
fn pairs_with_a_point_at_infinity_give_one() {
    let mut input = eip_g1(&G1::zero());
    input.extend(eip_g2(&G2::one()));
    input.extend(eip_g1(&G1::one()));
    input.extend(eip_g2(&G2::zero()));
    assert_eq!(test_bls381_pairing(&input, &output_byte(1)), Ok(true));
    assert_eq!(test_bls381_pairing(&input, &output_byte(0)), Ok(false));
}

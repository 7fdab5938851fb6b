use ecc::curve::{curve_add, curve_mul, CurvePoint};
use ecc::errors::Error;
use ecc::general_ecc::{GeneralEccChip, GeneralEccInstruction};
use ecc::params::CurveParams;
use ecc::point::AssignedPoint;

// y^2 = x^3 + 5x + 3 over the 9739-element field; the group has 9654 points.
const P: u64 = 9739;
const A: u64 = 5;
const B: u64 = 3;
const ORDER: u64 = 9654;
const NUM_BITS: u64 = 14;

fn params() -> CurveParams {
    CurveParams::new(P, A, B, ORDER, NUM_BITS, 17).unwrap()
}

fn chip() -> GeneralEccChip {
    GeneralEccChip::new(params())
}

fn affine(x: u64, y: u64) -> CurvePoint {
    CurvePoint::Affine { x, y }
}

#[test]
fn test_ecc_add_circuit_neq() {
    let ecc_chip = chip();
    let c = params();
    let pa = affine(2924, 5455);
    let pb = affine(5518, 3121);
    let sum = curve_add(&c, pa, pb);
    assert_eq!(sum, affine(4587, 7207));

    let x = ecc_chip.assign_point(pa).unwrap();
    let y = ecc_chip.assign_point(pb).unwrap();
    let z = ecc_chip.assign_point(sum).unwrap();
    let r = ecc_chip.add(&x, &y).unwrap();
    assert!(ecc_chip.assert_equal(&r, &z).is_ok());
}

#[test]
fn test_ecc_add_circuit_zero_left() {
    // the chip disallows the point at infinity: assigning it is a
    // synthesis error, so an identity summand never reaches `add`
    let ecc_chip = chip();
    assert_eq!(ecc_chip.assign_point(CurvePoint::Identity), Err(Error::Synthesis));
    let a = ecc_chip.assign_point(affine(2924, 5455)).unwrap();
    assert_eq!(
        ecc_chip.select_or_assign(false, &a, CurvePoint::Identity),
        Err(Error::Synthesis)
    );
}

#[test]
fn test_ecc_scalar_mul_zero() {
    // a zero scalar would make the result the point at infinity, which the
    // incomplete representation cannot hold: the final cancellation step
    // leaves its constraint unsatisfied
    let mut ecc_chip = chip();
    ecc_chip.assign_aux_generator(affine(66, 7101)).unwrap();
    ecc_chip.assign_aux(1, 1).unwrap();
    let base = ecc_chip.assign_point(affine(2924, 5455)).unwrap();
    assert_eq!(ecc_chip.mul(&base, 0, 1), Err(Error::Unsatisfied));
}

#[test]
fn test_ecc_scalar_zero_mul() {
    // the identity base point is rejected at assignment, before any
    // multiplication can be attempted
    let ecc_chip = chip();
    assert_eq!(ecc_chip.assign_point(CurvePoint::Identity), Err(Error::Synthesis));
}

#[test]
fn test_ecc_scalar_mul_nonzero() {
    let c = params();
    let base = affine(2924, 5455);  // 9202 times the group generator
    let aux = affine(66, 7101);
    let s: u64 = 7617;
    let expect = curve_mul(&c, s, base);
    assert_eq!(expect, affine(1714, 9504));

    for window_size in 1..5usize {
        let mut ecc_chip = chip();
        ecc_chip.assign_aux_generator(aux).unwrap();
        ecc_chip.assign_aux(window_size, 1).unwrap();
        let base_p = ecc_chip.assign_point(base).unwrap();
        let expect_p = ecc_chip.assign_point(expect).unwrap();
        let r = ecc_chip.mul(&base_p, s, window_size).unwrap();
        assert!(ecc_chip.assert_equal(&r, &expect_p).is_ok());
    }

    // the trait's variable-base multiplication uses the narrowest window
    let mut ecc_chip = chip();
    ecc_chip.assign_aux_generator(aux).unwrap();
    ecc_chip.assign_aux(1, 1).unwrap();
    let base_p = ecc_chip.assign_point(base).unwrap();
    let r = ecc_chip.mul_var(&base_p, s).unwrap();
    assert_eq!(r, AssignedPoint { x: 1714, y: 9504 });
}

#[test]
fn test_general_parameter_access() {
    let ecc_chip = chip();
    assert_eq!(ecc_chip.parameter_a(), A);
    assert_eq!(ecc_chip.parameter_b(), B);
    assert!(!ecc_chip.is_a_0());
    assert_eq!(ecc_chip.rns_base().bit_len_limb, 17);

    let base_chip = ecc::base_field_ecc::BaseFieldEccChip::new(
        CurveParams::new(64997, 0, 7, 64998, 16, 17).unwrap(),
    );
    assert_eq!(base_chip.rns().bit_len_limb, 17);
    assert_eq!(base_chip.rns().number_of_limbs, 4);
}

#[test]
fn test_general_instruction_surface() {
    let ecc_chip = chip();
    let a = ecc_chip.assign_point(affine(2924, 5455)).unwrap();
    let b = ecc_chip.assign_point(affine(5518, 3121)).unwrap();

    assert!(ecc_chip.assert_is_on_curve(&a).is_ok());
    assert_eq!(
        ecc_chip.assert_is_on_curve(&AssignedPoint { x: 2924, y: 5456 }),
        Err(Error::Unsatisfied)
    );
    assert_eq!(ecc_chip.select(false, &a, &b), Ok(b));
    assert_eq!(ecc_chip.assert_equal(&a, &b), Err(Error::Unsatisfied));

    let n = ecc_chip.neg(&a).unwrap();
    assert_eq!(n, AssignedPoint { x: 2924, y: P - 5455 });

    // without auxiliary data, variable-base multiplication is a
    // precondition failure
    assert!(matches!(ecc_chip.mul_var(&a, 5), Err(Error::Synthesis)));

    let d = ecc_chip.double(&a).unwrap();
    let expect = curve_add(&params(), affine(2924, 5455), affine(2924, 5455));
    match expect {
        CurvePoint::Affine { x, y } => assert_eq!(d, AssignedPoint { x, y }),
        CurvePoint::Identity => panic!("doubling left the curve"),
    }
}

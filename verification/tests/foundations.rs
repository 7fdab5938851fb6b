use ecc::curve::{curve_add, curve_mul, make_mul_aux, CurvePoint};
use ecc::euclid::inv_mod;
use ecc::limbs::decompose_limbs;
use ecc::modular::{add_mod, mul_mod, neg_mod, reduce_mod, sub_mod};
use ecc::params::{CurveParams, RnsParams};
use ecc::primality::check_prime;
use ecc::windowed::{decompose_bits, pad_bits, window_bits};

fn params1() -> CurveParams {
    CurveParams::new(64997, 0, 7, 64998, 16, 17).unwrap()
}

#[test]
fn test_params_validation() {
    assert!(CurveParams::new(64997, 0, 7, 64998, 16, 17).is_some());
    // composite modulus
    assert!(CurveParams::new(64995, 0, 7, 64998, 16, 17).is_none());
    // singular curve: 4a^3 + 27b^2 == 0
    assert!(CurveParams::new(64997, 0, 0, 64998, 16, 17).is_none());
    // curve constants must be reduced
    assert!(CurveParams::new(64997, 64997, 7, 64998, 16, 17).is_none());
    // a scalar field needs at least two elements
    assert!(CurveParams::new(64997, 0, 7, 1, 16, 17).is_none());
    // the bit length must be exact: 64998 needs 16 bits, not 17 or 15
    assert!(CurveParams::new(64997, 0, 7, 64998, 17, 17).is_none());
    assert!(CurveParams::new(64997, 0, 7, 64998, 15, 17).is_none());
    // limb widths are bounded
    assert!(CurveParams::new(64997, 0, 7, 64998, 16, 0).is_none());
    assert!(CurveParams::new(64997, 0, 7, 64998, 16, 69).is_none());
}

#[test]
fn test_rns_construction() {
    let r = RnsParams::construct(17).unwrap();
    assert_eq!(r.number_of_limbs, 4);
    let r = RnsParams::construct(68).unwrap();
    assert_eq!(r.number_of_limbs, 1);
    let r = RnsParams::construct(1).unwrap();
    assert_eq!(r.number_of_limbs, 64);
    assert!(RnsParams::construct(0).is_none());
    assert!(RnsParams::construct(69).is_none());
}

#[test]
fn test_primality_check() {
    assert!(check_prime(2));
    assert!(check_prime(64997));
    assert!(!check_prime(1));
    assert!(!check_prime(64995));
}

#[test]
fn test_modular_arithmetic() {
    assert_eq!(add_mod(13, 9, 17), 5);
    assert_eq!(sub_mod(3, 9, 17), 11);
    assert_eq!(mul_mod(13, 9, 17), 15);
    assert_eq!(neg_mod(0, 17), 0);
    assert_eq!(neg_mod(5, 17), 12);
    assert_eq!(reduce_mod(40, 17), 6);
}

#[test]
fn test_modular_inverse() {
    let p: u64 = 64997;
    for a in [1u64, 2, 12345, p - 1] {
        let v = inv_mod(a, p).unwrap();
        assert_eq!(mul_mod(a, v, p), 1);
    }
    assert!(inv_mod(0, p).is_none());
    // a shared factor means no inverse
    assert!(inv_mod(4, 8).is_none());
    assert_eq!(inv_mod(3, 8), Some(3));
}

#[test]
fn test_bit_pipeline() {
    // 13 = 0b1101 over 4 bits, least significant first
    let bits = decompose_bits(13, 4);
    assert_eq!(bits, vec![true, false, true, true]);

    // pad to windows of 3 and reverse: most significant bit first
    let mut padded = decompose_bits(13, 4);
    pad_bits(&mut padded, 3);
    assert_eq!(padded, vec![false, false, true, true, false, true]);

    // windows, most significant first; bits inside a selector are least
    // significant first, so the values are the base-8 digits of 13
    let windows = window_bits(padded, 3);
    assert_eq!(windows.len(), 2);
    assert_eq!(windows[0], vec![true, false, false]);
    assert_eq!(windows[1], vec![true, false, true]);
}

#[test]
fn test_limb_decomposition() {
    let rns = RnsParams::construct(7).unwrap();
    let limbs = decompose_limbs(0x12345, rns);
    assert_eq!(limbs, vec![69, 70, 4, 0, 0, 0, 0, 0, 0, 0]);
    // ascending recomposition gives the value back
    let mut acc: u64 = 0;
    for (i, &l) in limbs.iter().enumerate() {
        acc += l << (7 * i);
    }
    assert_eq!(acc, 0x12345);
}

#[test]
fn test_off_circuit_group_law() {
    let c = params1();
    let a = CurvePoint::Affine { x: 59560, y: 4107 };
    // the identity is the neutral element of the complete law
    assert_eq!(curve_add(&c, CurvePoint::Identity, a), a);
    assert_eq!(curve_add(&c, a, CurvePoint::Identity), a);
    // opposite points cancel
    let neg = CurvePoint::Affine { x: 59560, y: 64997 - 4107 };
    assert_eq!(curve_add(&c, a, neg), CurvePoint::Identity);
    // small multiples
    assert_eq!(curve_mul(&c, 0, a), CurvePoint::Identity);
    assert_eq!(curve_mul(&c, 1, a), a);
    assert_eq!(curve_mul(&c, 3, a), CurvePoint::Affine { x: 7458, y: 33036 });
    // the whole group's order annihilates every point
    assert_eq!(curve_mul(&c, 64998, a), CurvePoint::Identity);
}

#[test]
fn test_make_mul_aux_deterministic() {
    let c = params1();
    let aux = CurvePoint::Affine { x: 38468, y: 30685 };
    let first = make_mul_aux(&c, aux, 2, 1);
    let second = make_mul_aux(&c, aux, 2, 1);
    assert_eq!(first, second);
    // different schedules get different subtrahends in general
    let other = make_mul_aux(&c, aux, 3, 1);
    assert!(first != other);
}

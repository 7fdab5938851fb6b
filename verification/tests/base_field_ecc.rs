use ecc::base_field_ecc::BaseFieldEccChip;
use ecc::curve::{curve_add, curve_mul, CurvePoint};
use ecc::errors::Error;
use ecc::params::CurveParams;
use ecc::point::AssignedPoint;

// y^2 = x^3 + 7 over the 64997-element field; the group has 64998 points.
const P: u64 = 64997;
const A: u64 = 0;
const B: u64 = 7;
const ORDER: u64 = 64998;
const NUM_BITS: u64 = 16;

fn params(bit_len_limb: u64) -> CurveParams {
    CurveParams::new(P, A, B, ORDER, NUM_BITS, bit_len_limb).unwrap()
}

fn chip() -> BaseFieldEccChip {
    BaseFieldEccChip::new(params(17))
}

fn affine(x: u64, y: u64) -> CurvePoint {
    CurvePoint::Affine { x, y }
}

#[test]
fn test_base_field_ecc_addition_circuit() {
    let ecc_chip = chip();
    let c = params(17);

    let a = affine(59560, 4107);
    let b = affine(42660, 42588);
    let sum = curve_add(&c, a, b);
    assert_eq!(sum, affine(45926, 61698));

    let a_p = ecc_chip.assign_point(a).unwrap();
    let b_p = ecc_chip.assign_point(b).unwrap();
    let c_0 = ecc_chip.assign_point(sum).unwrap();
    let c_1 = ecc_chip.add(&a_p, &b_p).unwrap();
    assert!(ecc_chip.assert_equal(&c_0, &c_1).is_ok());

    let c_1 = ecc_chip.add(&a_p, &b_p).unwrap();
    assert!(ecc_chip.assert_equal(&c_0, &c_1).is_ok());

    // doubling
    let dbl = curve_add(&c, a, a);
    assert_eq!(dbl, affine(27002, 35048));
    let c_0 = ecc_chip.assign_point(dbl).unwrap();
    let c_1 = ecc_chip.double(&a_p).unwrap();
    assert!(ecc_chip.assert_equal(&c_0, &c_1).is_ok());

    // ladder: 2*a + b computed as (a + b) + a
    let lad = curve_add(&c, curve_add(&c, a, b), a);
    assert_eq!(lad, affine(45065, 44422));
    let c_0 = ecc_chip.assign_point(lad).unwrap();
    let c_1 = ecc_chip.ladder(&a_p, &b_p).unwrap();
    assert!(ecc_chip.assert_equal(&c_0, &c_1).is_ok());
}

#[test]
fn test_base_field_ecc_public_input() {
    // 7-bit limbs: ten limbs cover a machine word
    let c = params(7);
    let ecc_chip = BaseFieldEccChip::new(c);

    let a = affine(59560, 4107);
    let b = affine(42660, 42588);

    let a_p = ecc_chip.assign_point(a).unwrap();
    let b_p = ecc_chip.assign_point(b).unwrap();
    let sum = ecc_chip.add(&a_p, &b_p).unwrap();
    let sum = ecc_chip.normalize(&sum).unwrap();
    let dbl = ecc_chip.double(&a_p).unwrap();
    let dbl = ecc_chip.normalize(&dbl).unwrap();

    let mut instance: Vec<u64> = vec![0; 40];
    ecc_chip.expose_public(&mut instance, &sum, 0).unwrap();
    ecc_chip.expose_public(&mut instance, &dbl, 20).unwrap();

    // limbs of (45926, 61698), x first, ascending, then the limbs of y
    let expected: Vec<u64> = vec![
        102, 102, 2, 0, 0, 0, 0, 0, 0, 0, // x of a + b
        2, 98, 3, 0, 0, 0, 0, 0, 0, 0, // y of a + b
        122, 82, 1, 0, 0, 0, 0, 0, 0, 0, // x of 2a
        104, 17, 2, 0, 0, 0, 0, 0, 0, 0, // y of 2a
    ];
    assert_eq!(instance, expected);
}

#[test]
fn test_base_field_ecc_mul_circuit() {
    let c = params(17);
    let base = affine(39874, 51871);
    let aux = affine(38468, 30685);
    let scalars: [u64; 3] = [1, 12345, ORDER - 1];

    for window_size in 1..5usize {
        let mut ecc_chip = chip();
        ecc_chip.assign_aux_generator(aux).unwrap();
        ecc_chip.assign_aux(window_size, 1).unwrap();
        ecc_chip.get_mul_aux(window_size, 1).unwrap();

        let base_p = ecc_chip.assign_point(base).unwrap();
        for &s in scalars.iter() {
            let expect = curve_mul(&c, s, base);
            let result_0 = ecc_chip.assign_point(expect).unwrap();
            let result_1 = ecc_chip.mul(&base_p, s, window_size).unwrap();
            assert!(ecc_chip.assert_equal(&result_0, &result_1).is_ok());
        }
        // one pinned value
        let result = ecc_chip.mul(&base_p, 12345, window_size).unwrap();
        assert_eq!(result, AssignedPoint { x: 54697, y: 58173 });
    }
}

#[test]
fn test_base_field_ecc_mul_batch_circuit() {
    let c = params(17);
    let aux = affine(59451, 3666);
    let entries: [(u64, u64, u64); 4] = [
        (46595, 30473, 11718),
        (27431, 48484, 16282),
        (44604, 47454, 49800),
        (29402, 40258, 16460),
    ];

    for window_size in 1..3usize {
        let mut ecc_chip = chip();
        ecc_chip.assign_aux_generator(aux).unwrap();
        ecc_chip.assign_aux(window_size, entries.len()).unwrap();
        ecc_chip.get_mul_aux(window_size, entries.len()).unwrap();

        let mut acc = CurvePoint::Identity;
        let mut pairs: Vec<(AssignedPoint, u64)> = Vec::new();
        for &(x, y, s) in entries.iter() {
            let pt = affine(x, y);
            acc = curve_add(&c, acc, curve_mul(&c, s, pt));
            let assigned = ecc_chip.assign_point(pt).unwrap();
            pairs.push((assigned, s));
        }
        assert_eq!(acc, affine(21809, 60698));

        let result_0 = ecc_chip.assign_point(acc).unwrap();
        let result_1 = ecc_chip.mul_batch_1d_horizontal(&pairs, window_size).unwrap();
        assert!(ecc_chip.assert_equal(&result_0, &result_1).is_ok());
    }
}

#[test]
fn test_mul_batch_single_pair() {
    let c = params(17);
    let aux = affine(22467, 64271);
    let pt = affine(57497, 49947);
    let s: u64 = 34788;

    for window_size in 1..3usize {
        let mut ecc_chip = chip();
        ecc_chip.assign_aux_generator(aux).unwrap();
        ecc_chip.assign_aux(window_size, 1).unwrap();

        let assigned = ecc_chip.assign_point(pt).unwrap();
        let pairs = vec![(assigned, s)];
        let result = ecc_chip.mul_batch_1d_horizontal(&pairs, window_size).unwrap();
        let expect = curve_mul(&c, s, pt);
        assert_eq!(expect, CurvePoint::Affine { x: 23851, y: 26751 });
        let expect_p = ecc_chip.assign_point(expect).unwrap();
        assert!(ecc_chip.assert_equal(&expect_p, &result).is_ok());
    }
}

#[test]
fn test_add_rejects_shared_x_coordinate() {
    let ecc_chip = chip();
    let a = ecc_chip.assign_point(affine(59560, 4107)).unwrap();
    // equal operands
    assert_eq!(ecc_chip.add(&a, &a), Err(Error::Unsatisfied));
    // opposite operands share the x-coordinate as well
    let neg_a = ecc_chip.neg(&a).unwrap();
    assert_eq!(neg_a, AssignedPoint { x: 59560, y: P - 4107 });
    assert_eq!(ecc_chip.add(&a, &neg_a), Err(Error::Unsatisfied));
}

#[test]
fn test_assign_point_rejections() {
    let ecc_chip = chip();
    // the point at infinity has no assigned form
    assert_eq!(ecc_chip.assign_point(CurvePoint::Identity), Err(Error::Synthesis));
    // out-of-range coordinates fail the range assignment
    assert_eq!(ecc_chip.assign_point(affine(P, 1)), Err(Error::Synthesis));
    assert_eq!(ecc_chip.assign_point(affine(1, P + 3)), Err(Error::Synthesis));
    // a well-formed witness off the curve leaves the on-curve constraint unsatisfied
    assert_eq!(ecc_chip.assign_point(affine(59560, 4108)), Err(Error::Unsatisfied));
    // the curve-equation assertion agrees
    assert!(ecc_chip.assert_is_on_curve(&AssignedPoint { x: 59560, y: 4107 }).is_ok());
    assert_eq!(
        ecc_chip.assert_is_on_curve(&AssignedPoint { x: 59560, y: 4108 }),
        Err(Error::Unsatisfied)
    );
}

#[test]
fn test_aux_registry_lifecycle() {
    let mut ecc_chip = chip();
    let aux = affine(38468, 30685);

    // before anything is assigned, auxiliary data is a precondition failure
    assert!(matches!(ecc_chip.get_mul_aux(2, 1), Err(Error::Synthesis)));
    assert_eq!(ecc_chip.assign_aux(2, 1), Err(Error::Synthesis));

    ecc_chip.assign_aux_generator(aux).unwrap();
    // generator alone is not enough: the registry entry is still missing
    assert!(matches!(ecc_chip.get_mul_aux(2, 1), Err(Error::Synthesis)));

    ecc_chip.assign_aux(2, 1).unwrap();
    let first = ecc_chip.get_mul_aux(2, 1).unwrap();
    let second = ecc_chip.get_mul_aux(2, 1).unwrap();
    assert_eq!(first, second);
    assert_eq!(first.to_add, AssignedPoint { x: 38468, y: 30685 });

    // registration is idempotent for a key already present
    ecc_chip.assign_aux(2, 1).unwrap();
    assert_eq!(ecc_chip.get_mul_aux(2, 1).unwrap(), first);

    // other keys stay unregistered
    assert!(matches!(ecc_chip.get_mul_aux(3, 1), Err(Error::Synthesis)));
    assert!(matches!(ecc_chip.get_mul_aux(2, 4), Err(Error::Synthesis)));
}

#[test]
fn test_select_and_normalize() {
    let ecc_chip = chip();
    let a = ecc_chip.assign_point(affine(59560, 4107)).unwrap();
    let b = ecc_chip.assign_point(affine(42660, 42588)).unwrap();

    assert_eq!(ecc_chip.select(true, &a, &b), Ok(a));
    assert_eq!(ecc_chip.select(false, &a, &b), Ok(b));

    assert_eq!(ecc_chip.select_or_assign(true, &a, affine(1, 2)), Ok(a));
    assert_eq!(
        ecc_chip.select_or_assign(false, &a, affine(P + 5, 2)),
        Ok(AssignedPoint { x: 5, y: 2 })
    );
    assert_eq!(
        ecc_chip.select_or_assign(false, &a, CurvePoint::Identity),
        Err(Error::Synthesis)
    );

    // normalization reduces an unreduced representation
    let raw = AssignedPoint { x: P + 5, y: 2 * P + 9 };
    assert_eq!(ecc_chip.normalize(&raw), Ok(AssignedPoint { x: 5, y: 9 }));

    // constants are reduced on assignment and not on-curve-checked
    assert_eq!(
        ecc_chip.assign_constant(affine(P + 1, 1)),
        Ok(AssignedPoint { x: 1, y: 1 })
    );
    assert_eq!(ecc_chip.assign_constant(CurvePoint::Identity), Err(Error::Synthesis));
}

#[test]
fn test_double_n_matches_repeated_doubling() {
    let c = params(17);
    let ecc_chip = chip();
    let a = affine(59560, 4107);
    let a_p = ecc_chip.assign_point(a).unwrap();
    let r = ecc_chip.double_n(&a_p, 3).unwrap();
    let expect = curve_mul(&c, 8, a);
    assert_eq!(expect, affine(29046, 10915));
    let expect_p = ecc_chip.assign_point(expect).unwrap();
    assert!(ecc_chip.assert_equal(&expect_p, &r).is_ok());
}

#[test]
fn test_expose_public_leaves_other_slots() {
    let c = params(7);
    let ecc_chip = BaseFieldEccChip::new(c);
    let a = ecc_chip.assign_point(affine(59560, 4107)).unwrap();
    let mut instance: Vec<u64> = vec![99; 25];
    ecc_chip.expose_public(&mut instance, &a, 2).unwrap();
    assert_eq!(instance[0], 99);
    assert_eq!(instance[1], 99);
    assert_eq!(instance[22], 99);
    assert_eq!(instance[23], 99);
    assert_eq!(instance[24], 99);
    // x = 59560 in 7-bit limbs, ascending
    assert_eq!(&instance[2..12], &[40, 81, 3, 0, 0, 0, 0, 0, 0, 0]);
}

#[test]
fn test_public_input_68bit_limb() {
    // one 68-bit limb carries a whole coordinate
    let c = params(68);
    let ecc_chip = BaseFieldEccChip::new(c);

    let a = affine(59560, 4107);
    let b = affine(42660, 42588);
    let a_p = ecc_chip.assign_point(a).unwrap();
    let b_p = ecc_chip.assign_point(b).unwrap();

    let sum = ecc_chip.add(&a_p, &b_p).unwrap();
    let sum = ecc_chip.normalize(&sum).unwrap();
    let dbl = ecc_chip.double(&a_p).unwrap();
    let dbl = ecc_chip.normalize(&dbl).unwrap();

    let mut instance: Vec<u64> = vec![0; 4];
    ecc_chip.expose_public(&mut instance, &sum, 0).unwrap();
    ecc_chip.expose_public(&mut instance, &dbl, 2).unwrap();
    assert_eq!(instance, vec![45926, 61698, 27002, 35048]);
}

#[test]
fn test_mul_without_aux_fails() {
    let ecc_chip = chip();
    let base = ecc_chip.assign_point(affine(39874, 51871)).unwrap();
    assert!(matches!(ecc_chip.mul(&base, 5, 2), Err(Error::Synthesis)));
}

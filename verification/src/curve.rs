//! Plain curve points and the complete group law, used off-circuit: as the
//! reference the gadget operations are specified against, and to derive the
//! auxiliary points that the multiplication schedules subtract.

use vstd::prelude::*;
use crate::modular::{fadd, fsub, fmul, fneg, add_mod, sub_mod, mul_mod, reduce_mod,
    lemma_fmul_reduces, lemma_fsub_zero_iff};
use crate::euclid::{finv, inv_mod};
use crate::primality::lemma_prime_coprime;
use crate::params::CurveParams;
use crate::schedule::{window_count, schedule_aux_coeff, sub_aux_scalar};

verus! {

/// A point of the emulated curve, with the point at infinity explicit.
/// The gadget layer rejects the identity at assignment; this complete form
/// exists for the off-circuit side: reference results and auxiliary-point
/// derivation.
#[derive(Clone, Copy, Debug, PartialEq, Eq, Structural)]
pub enum CurvePoint {
    Identity,
    Affine { x: u64, y: u64 },
}

/// Coordinates reduced into the foreign field.
pub open spec fn cp_wf(c: CurveParams, pt: CurvePoint) -> bool {
    match pt {
        CurvePoint::Identity => true,
        CurvePoint::Affine { x, y } => x < c.modulus && y < c.modulus,
    }
}

/// The affine curve equation `y^2 == x^3 + a*x + b` over the foreign field.
pub open spec fn on_curve(c: CurveParams, x: int, y: int) -> bool {
    fmul(c.modulus as int, y, y) == fadd(
        c.modulus as int,
        fadd(
            c.modulus as int,
            fmul(c.modulus as int, x, fmul(c.modulus as int, x, x)),
            fmul(c.modulus as int, c.a as int, x),
        ),
        c.b as int,
    )
}

/// Slope of the chord through two points with distinct x-coordinates.
pub open spec fn chord_slope(c: CurveParams, x1: int, y1: int, x2: int, y2: int) -> int {
    fmul(
        c.modulus as int,
        fsub(c.modulus as int, y2, y1),
        finv(c.modulus as int, fsub(c.modulus as int, x2, x1)),
    )
}

/// Slope of the tangent at `(x, y1)`, written with denominator `y1 + y2` so
/// that it coincides with `2*y` when the two operands are one point.
pub open spec fn tangent_slope(c: CurveParams, x: int, y1: int, y2: int) -> int {
    fmul(
        c.modulus as int,
        fadd(
            c.modulus as int,
            fmul(c.modulus as int, 3, fmul(c.modulus as int, x, x)),
            c.a as int,
        ),
        finv(c.modulus as int, fadd(c.modulus as int, y1, y2)),
    )
}

/// x-coordinate produced by a slope `l` through `x1` and `x2`.
pub open spec fn third_x(c: CurveParams, l: int, x1: int, x2: int) -> int {
    fsub(c.modulus as int, fsub(c.modulus as int, fmul(c.modulus as int, l, l), x1), x2)
}

/// y-coordinate produced by a slope `l` from `(x1, y1)` toward `x3`.
pub open spec fn third_y(c: CurveParams, l: int, x1: int, x3: int, y1: int) -> int {
    fsub(c.modulus as int, fmul(c.modulus as int, l, fsub(c.modulus as int, x1, x3)), y1)
}

/// The complete group law on the curve, with the identity handled and the
/// tangent rule taken when the x-coordinates coincide and the points are
/// not opposite.
pub open spec fn ec_add(c: CurveParams, p1: CurvePoint, p2: CurvePoint) -> CurvePoint {
    match (p1, p2) {
        (CurvePoint::Identity, q) => q,
        (q, CurvePoint::Identity) => q,
        (CurvePoint::Affine { x: x1, y: y1 }, CurvePoint::Affine { x: x2, y: y2 }) => {
            if x1 == x2 {
                if fadd(c.modulus as int, y1 as int, y2 as int) == 0 {
                    CurvePoint::Identity
                } else {
                    let l = tangent_slope(c, x1 as int, y1 as int, y2 as int);
                    let x3 = third_x(c, l, x1 as int, x2 as int);
                    CurvePoint::Affine {
                        x: x3 as u64,
                        y: third_y(c, l, x1 as int, x3, y1 as int) as u64,
                    }
                }
            } else {
                let l = chord_slope(c, x1 as int, y1 as int, x2 as int, y2 as int);
                let x3 = third_x(c, l, x1 as int, x2 as int);
                CurvePoint::Affine {
                    x: x3 as u64,
                    y: third_y(c, l, x1 as int, x3, y1 as int) as u64,
                }
            }
        },
    }
}

/// Scalar multiples of a point under the complete law.
pub open spec fn ec_mul(c: CurveParams, k: nat, pt: CurvePoint) -> CurvePoint
    decreases k,
{
    if k == 0 {
        CurvePoint::Identity
    } else {
        ec_add(c, ec_mul(c, (k - 1) as nat, pt), pt)
    }
}

/// The complete addition, executed: the off-circuit group sum.
pub fn curve_add(c: &CurveParams, p1: CurvePoint, p2: CurvePoint) -> (r: CurvePoint)
    requires
        c.wf(),
        cp_wf(*c, p1),
        cp_wf(*c, p2),
    ensures
        r == ec_add(*c, p1, p2),
        cp_wf(*c, r),
{
    let m = c.modulus;
    match (p1, p2) {
        (CurvePoint::Identity, q) => q,
        (q, CurvePoint::Identity) => q,
        (CurvePoint::Affine { x: x1, y: y1 }, CurvePoint::Affine { x: x2, y: y2 }) => {
            if x1 == x2 {
                let s = add_mod(y1, y2, m);
                if s == 0 {
                    CurvePoint::Identity
                } else {
                    let xx = mul_mod(x1, x1, m);
                    let t3 = reduce_mod(3, m);
                    let num = add_mod(mul_mod(t3, xx, m), c.a, m);
                    proof {
                        lemma_fmul_reduces(m as int, 3, fmul(m as int, x1 as int, x1 as int));
                        lemma_prime_coprime(m as nat, s as nat);
                    }
                    let inv = match inv_mod(s, m) {
                        Some(v) => v,
                        None => {
                            proof {
                                assert(false);
                            }
                            0
                        },
                    };
                    let l = mul_mod(num, inv, m);
                    let x3 = sub_mod(sub_mod(mul_mod(l, l, m), x1, m), x2, m);
                    let y3 = sub_mod(mul_mod(l, sub_mod(x1, x3, m), m), y1, m);
                    CurvePoint::Affine { x: x3, y: y3 }
                }
            } else {
                let dx = sub_mod(x2, x1, m);
                let dy = sub_mod(y2, y1, m);
                proof {
                    lemma_fsub_zero_iff(m as int, x2 as int, x1 as int);
                    lemma_prime_coprime(m as nat, dx as nat);
                }
                let inv = match inv_mod(dx, m) {
                    Some(v) => v,
                    None => {
                        proof {
                            assert(false);
                        }
                        0
                    },
                };
                let l = mul_mod(dy, inv, m);
                let x3 = sub_mod(sub_mod(mul_mod(l, l, m), x1, m), x2, m);
                let y3 = sub_mod(mul_mod(l, sub_mod(x1, x3, m), m), y1, m);
                CurvePoint::Affine { x: x3, y: y3 }
            }
        },
    }
}

/// The scalar multiple of a point, executed off-circuit by repeated
/// complete additions; the reference that every schedule is judged against.
pub fn curve_mul(c: &CurveParams, k: u64, pt: CurvePoint) -> (r: CurvePoint)
    requires
        c.wf(),
        cp_wf(*c, pt),
    ensures
        r == ec_mul(*c, k as nat, pt),
        cp_wf(*c, r),
{
    let mut acc = CurvePoint::Identity;
    let mut i: u64 = 0;
    while i < k
        invariant
            c.wf(),
            cp_wf(*c, pt),
            i <= k,
            acc == ec_mul(*c, i as nat, pt),
            cp_wf(*c, acc),
        decreases k - i,
    {
        acc = curve_add(c, acc, pt);
        i = i + 1;
    }
    acc
}

/// The scalar that the registered "to subtract" point carries: minus the
/// schedule's auxiliary coefficient for `window_size` and `number_of_pairs`,
/// reduced into the scalar field.
pub open spec fn sub_aux_scalar_spec(c: CurveParams, window_size: nat, number_of_pairs: nat) -> nat {
    fneg(
        c.order as int,
        schedule_aux_coeff(
            window_size,
            window_count(c.num_bits as nat, window_size),
            number_of_pairs,
        ) as int,
    ) as nat
}

/// Derives, off-circuit, the point that cancels the auxiliary contribution
/// that the `(window_size, number_of_pairs)` schedule accumulates on the
/// auxiliary generator.
pub fn make_mul_aux(c: &CurveParams, aux: CurvePoint, window_size: u64, number_of_pairs: u64) -> (r:
    CurvePoint)
    requires
        c.wf(),
        cp_wf(*c, aux),
        1 <= window_size <= 64,
        1 <= number_of_pairs,
    ensures
        r == ec_mul(*c, sub_aux_scalar_spec(*c, window_size as nat, number_of_pairs as nat), aux),
        cp_wf(*c, r),
{
    let nw = (c.num_bits + window_size - 1) / window_size;
    proof {
        assert(nw as nat == window_count(c.num_bits as nat, window_size as nat));
    }
    let k = sub_aux_scalar(c.order, window_size, nw, number_of_pairs);
    curve_mul(c, k, aux)
}

} // verus!

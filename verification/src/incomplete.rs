//! The incomplete point formulas: chord addition, tangent doubling, and the
//! fused ladder. Each is exact on its domain and reports `Unsatisfied`
//! outside it; none of them can represent the point at infinity.

use vstd::prelude::*;
use vstd::arithmetic::div_mod::{lemma_mod_equivalence, lemma_mul_mod_noop_right,
    lemma_sub_mod_noop, lemma_sub_mod_noop_right, lemma_small_mod, lemma_mod_twice};
use vstd::arithmetic::mul::lemma_mul_is_distributive_sub;
use vstd::calc;
use crate::modular::{fadd, fsub, fmul, fneg, canonical, add_mod, sub_mod, mul_mod, reduce_mod,
    lemma_fmul_reduces, lemma_fmul_assoc, lemma_fmul_comm, lemma_fmul_fsub, lemma_fmul_fneg,
    lemma_fsub_rearrange, lemma_fsub_zero_iff};
use crate::euclid::{finv, has_inv, inv_mod, lemma_finv_property, lemma_fmul_cancel};
use crate::primality::{lemma_prime_coprime, lemma_odd_prime};
use crate::params::CurveParams;
use crate::curve::{ec_add, chord_slope, tangent_slope, third_x, third_y};
use crate::point::AssignedPoint;
use crate::errors::Error;

verus! {

/// Chord addition: defined exactly when the x-coordinates differ.
pub open spec fn padd(c: CurveParams, a: AssignedPoint, b: AssignedPoint) -> Option<AssignedPoint> {
    if a.x == b.x {
        None
    } else {
        let l = chord_slope(c, a.x as int, a.y as int, b.x as int, b.y as int);
        let x3 = third_x(c, l, a.x as int, b.x as int);
        Some(AssignedPoint { x: x3 as u64, y: third_y(c, l, a.x as int, x3, a.y as int) as u64 })
    }
}

/// Tangent doubling: defined exactly when the tangent denominator `2*y`
/// does not vanish.
pub open spec fn pdouble(c: CurveParams, a: AssignedPoint) -> Option<AssignedPoint> {
    if fadd(c.modulus as int, a.y as int, a.y as int) == 0 {
        None
    } else {
        let l = tangent_slope(c, a.x as int, a.y as int, a.y as int);
        let x3 = third_x(c, l, a.x as int, a.x as int);
        Some(AssignedPoint { x: x3 as u64, y: third_y(c, l, a.x as int, x3, a.y as int) as u64 })
    }
}

/// `k` tangent doublings in a row.
pub open spec fn pdouble_n(c: CurveParams, a: AssignedPoint, k: nat) -> Option<AssignedPoint>
    decreases k,
{
    if k == 0 {
        Some(a)
    } else {
        match pdouble_n(c, a, (k - 1) as nat) {
            Some(t) => pdouble(c, t),
            None => None,
        }
    }
}

/// The ladder `2*a + b`, taken as `(a + b) + a`.
pub open spec fn pladder(c: CurveParams, a: AssignedPoint, b: AssignedPoint) -> Option<
    AssignedPoint,
> {
    match padd(c, a, b) {
        Some(t) => padd(c, t, a),
        None => None,
    }
}

/// Doubling a canonical residue vanishes only on zero, the modulus being
/// an odd prime.
pub proof fn lemma_double_zero_iff(p: int, y: int)
    requires
        p >= 3,
        crate::primality::is_prime(p as nat),
        canonical(p, y),
    ensures
        fadd(p, y, y) == 0 <==> y == 0,
{
    lemma_odd_prime(p as nat);
    if y == 0 {
        lemma_small_mod(0, p as nat);
    } else {
        if y + y == p {
            assert(p % 2 == 0) by {
                vstd::arithmetic::div_mod::lemma_mod_multiples_basic(y, 2);
            }
            assert(false);
        }
        if y + y < p {
            lemma_small_mod((y + y) as nat, p as nat);
        } else {
            vstd::arithmetic::div_mod::lemma_mod_add_multiples_vanish(y + y - p, p);
            lemma_small_mod((y + y - p) as nat, p as nat);
        }
    }
}

/// The chord's y-formula gives the same value from either endpoint.
proof fn lemma_chord_both_ends(c: CurveParams, x1: int, y1: int, x2: int, y2: int, x3: int)
    requires
        c.wf(),
        canonical(c.modulus as int, x1),
        canonical(c.modulus as int, y1),
        canonical(c.modulus as int, x2),
        canonical(c.modulus as int, y2),
        x1 != x2,
        has_inv(c.modulus as int, fsub(c.modulus as int, x2, x1)),
    ensures
        third_y(c, chord_slope(c, x1, y1, x2, y2), x1, x3, y1) == third_y(
            c,
            chord_slope(c, x1, y1, x2, y2),
            x2,
            x3,
            y2,
        ),
{
    let m = c.modulus as int;
    let dx = fsub(m, x2, x1);
    let dy = fsub(m, y2, y1);
    let iv = finv(m, dx);
    let l = chord_slope(c, x1, y1, x2, y2);
    lemma_finv_property(m, dx);
    // (l * (x1 - x2)) % m == (y1 - y2) % m
    assert((l * (x1 - x2)) % m == (y1 - y2) % m) by {
        calc! {
            (==)
            (l * (x1 - x2)) % m; {
                lemma_mul_mod_noop_right(l, x1 - x2, m);
                lemma_sub_mod_noop(x1, x2, m);
                lemma_mod_twice(x1 - x2, m);
            }
            fmul(m, l, fsub(m, x1, x2)); {
                // (x1 - x2) % m is the negation of dx modulo m
                assert(fsub(m, x1, x2) == fneg(m, dx)) by {
                    lemma_sub_mod_noop_right(0, x2 - x1, m);
                    assert(fneg(m, dx) == (0 - (x2 - x1)) % m);
                    assert(0 - (x2 - x1) == x1 - x2);
                }
            }
            fmul(m, l, fneg(m, dx)); {
                lemma_fmul_fneg(m, l, dx);
            }
            fneg(m, fmul(m, l, dx)); {
                assert(fmul(m, l, dx) == dy % m) by {
                    lemma_fmul_assoc(m, dy, iv, dx);
                    lemma_fmul_comm(m, iv, dx);
                    lemma_fmul_assoc(m, dy, dx, iv);
                    lemma_fmul_cancel(m, dx, dy);
                }
                lemma_mod_twice(y2 - y1, m);
            }
            fneg(m, dy); {
                lemma_sub_mod_noop_right(0, y2 - y1, m);
                assert(0 - (y2 - y1) == y1 - y2);
            }
            (y1 - y2) % m;
        }
    }
    // so the two y-expressions agree modulo m
    let e1 = l * (x1 - x3) - y1;
    let e2 = l * (x2 - x3) - y2;
    assert((e1 - e2) % m == 0) by {
        assert(e1 - e2 == l * (x1 - x2) - (y1 - y2)) by {
            lemma_mul_is_distributive_sub(l, x1 - x3, x2 - x3);
            lemma_mul_is_distributive_sub(l, x1 - x2, 0);
            assert((x1 - x3) - (x2 - x3) == x1 - x2);
            lemma_mul_is_distributive_sub(l, x1, x3);
            lemma_mul_is_distributive_sub(l, x2, x3);
            lemma_mul_is_distributive_sub(l, x1, x2);
        }
        lemma_mod_equivalence(l * (x1 - x2), y1 - y2, m);
        lemma_mod_equivalence(e1, e2, m);
        assert((e1 - e2) % m == (l * (x1 - x2) - (y1 - y2)) % m);
    }
    assert(third_y(c, l, x1, x3, y1) == e1 % m) by {
        lemma_mul_mod_noop_right(l, x1 - x3, m);
        lemma_sub_mod_noop(x1, x3, m);
        lemma_mod_twice(x1 - x3, m);
        lemma_sub_mod_noop_right(0, 0, m);
        assert(fmul(m, l, fsub(m, x1, x3)) == (l * (x1 - x3)) % m);
        calc! {
            (==)
            fsub(m, fmul(m, l, fsub(m, x1, x3)), y1); {}
            ((l * (x1 - x3)) % m - y1) % m; {
                lemma_sub_mod_noop(l * (x1 - x3), y1, m);
                lemma_mod_twice(y1, m);
                lemma_small_mod(y1 as nat, m as nat);
            }
            e1 % m;
        }
    }
    assert(third_y(c, l, x2, x3, y2) == e2 % m) by {
        lemma_mul_mod_noop_right(l, x2 - x3, m);
        lemma_sub_mod_noop(x2, x3, m);
        lemma_mod_twice(x2 - x3, m);
        assert(fmul(m, l, fsub(m, x2, x3)) == (l * (x2 - x3)) % m);
        calc! {
            (==)
            fsub(m, fmul(m, l, fsub(m, x2, x3)), y2); {}
            ((l * (x2 - x3)) % m - y2) % m; {
                lemma_sub_mod_noop(l * (x2 - x3), y2, m);
                lemma_mod_twice(y2, m);
                lemma_small_mod(y2 as nat, m as nat);
            }
            e2 % m;
        }
    }
    lemma_mod_equivalence(e1, e2, m);
}

/// Chord addition, executed; `Unsatisfied` exactly on equal x-coordinates.
pub(crate) fn add_incomplete(c: &CurveParams, a: &AssignedPoint, b: &AssignedPoint) -> (r: Result<
    AssignedPoint,
    Error,
>)
    requires
        c.wf(),
        a.wf(*c),
        b.wf(*c),
    ensures
        (r is Ok) <==> a.x != b.x,
        r matches Ok(q) ==> Some(q) == padd(*c, *a, *b) && q.wf(*c),
        r matches Ok(q) ==> q.affine() == ec_add(*c, a.affine(), b.affine()),
        r matches Err(e) ==> e == Error::Unsatisfied,
{
    let m = c.modulus;
    let dx = sub_mod(b.x, a.x, m);
    proof {
        lemma_fsub_zero_iff(m as int, b.x as int, a.x as int);
    }
    if dx == 0 {
        return Err(Error::Unsatisfied);
    }
    proof {
        lemma_prime_coprime(m as nat, dx as nat);
    }
    let inv = match inv_mod(dx, m) {
        Some(v) => v,
        None => {
            proof {
                assert(false);
            }
            0
        },
    };
    let dy = sub_mod(b.y, a.y, m);
    let l = mul_mod(dy, inv, m);
    let x3 = sub_mod(sub_mod(mul_mod(l, l, m), a.x, m), b.x, m);
    let y3 = sub_mod(mul_mod(l, sub_mod(a.x, x3, m), m), a.y, m);
    Ok(AssignedPoint { x: x3, y: y3 })
}

/// Tangent doubling, executed; `Unsatisfied` exactly on a vanishing
/// y-coordinate.
pub(crate) fn double_incomplete(c: &CurveParams, a: &AssignedPoint) -> (r: Result<
    AssignedPoint,
    Error,
>)
    requires
        c.wf(),
        a.wf(*c),
    ensures
        (r is Ok) <==> a.y != 0,
        r matches Ok(q) ==> Some(q) == pdouble(*c, *a) && q.wf(*c),
        r matches Ok(q) ==> q.affine() == ec_add(*c, a.affine(), a.affine()),
        r matches Err(e) ==> e == Error::Unsatisfied,
{
    let m = c.modulus;
    let s = add_mod(a.y, a.y, m);
    proof {
        lemma_double_zero_iff(m as int, a.y as int);
    }
    if s == 0 {
        return Err(Error::Unsatisfied);
    }
    proof {
        lemma_prime_coprime(m as nat, s as nat);
    }
    let inv = match inv_mod(s, m) {
        Some(v) => v,
        None => {
            proof {
                assert(false);
            }
            0
        },
    };
    let xx = mul_mod(a.x, a.x, m);
    let t3 = reduce_mod(3, m);
    let num = add_mod(mul_mod(t3, xx, m), c.a, m);
    proof {
        lemma_fmul_reduces(m as int, 3, fmul(m as int, a.x as int, a.x as int));
    }
    let l = mul_mod(num, inv, m);
    let x3 = sub_mod(sub_mod(mul_mod(l, l, m), a.x, m), a.x, m);
    let y3 = sub_mod(mul_mod(l, sub_mod(a.x, x3, m), m), a.y, m);
    Ok(AssignedPoint { x: x3, y: y3 })
}

/// The fused ladder `2*a + b`, executed: one chord to `x3` only, then a
/// second slope obtained without ever computing the intermediate
/// y-coordinate. `Unsatisfied` exactly where one of the two chords is
/// undefined.
pub(crate) fn ladder_incomplete(c: &CurveParams, a: &AssignedPoint, b: &AssignedPoint) -> (r:
    Result<AssignedPoint, Error>)
    requires
        c.wf(),
        a.wf(*c),
        b.wf(*c),
    ensures
        (r is Ok) <==> pladder(*c, *a, *b) is Some,
        r matches Ok(q) ==> Some(q) == pladder(*c, *a, *b) && q.wf(*c),
        r matches Ok(q) ==> q.affine() == ec_add(
            *c,
            ec_add(*c, a.affine(), b.affine()),
            a.affine(),
        ),
        r matches Err(e) ==> e == Error::Unsatisfied,
{
    let m = c.modulus;
    let dx1 = sub_mod(b.x, a.x, m);
    proof {
        lemma_fsub_zero_iff(m as int, b.x as int, a.x as int);
    }
    if dx1 == 0 {
        return Err(Error::Unsatisfied);
    }
    proof {
        lemma_prime_coprime(m as nat, dx1 as nat);
    }
    let inv1 = match inv_mod(dx1, m) {
        Some(v) => v,
        None => {
            proof {
                assert(false);
            }
            0
        },
    };
    let l1 = mul_mod(sub_mod(b.y, a.y, m), inv1, m);
    let x3 = sub_mod(sub_mod(mul_mod(l1, l1, m), a.x, m), b.x, m);
    let ghost t = padd(*c, *a, *b)->Some_0;
    proof {
        assert(t.x == x3);
    }
    let dx2 = sub_mod(a.x, x3, m);
    proof {
        lemma_fsub_zero_iff(m as int, a.x as int, x3 as int);
    }
    if dx2 == 0 {
        return Err(Error::Unsatisfied);
    }
    proof {
        lemma_prime_coprime(m as nat, dx2 as nat);
    }
    let inv2 = match inv_mod(dx2, m) {
        Some(v) => v,
        None => {
            proof {
                assert(false);
            }
            0
        },
    };
    let tt = mul_mod(add_mod(a.y, a.y, m), inv2, m);
    let l2 = sub_mod(tt, l1, m);
    proof {
        lemma_ladder_slope(*c, *a, *b, l1 as int, x3 as int, dx2 as int, tt as int, l2 as int);
    }
    let x4 = sub_mod(sub_mod(mul_mod(l2, l2, m), x3, m), a.x, m);
    let y4 = sub_mod(mul_mod(l2, sub_mod(a.x, x4, m), m), a.y, m);
    proof {
        assert(canonical(m as int, t.y as int)) by {
            vstd::arithmetic::div_mod::lemma_mod_bound(
                fmul(m as int, l1 as int, dx2 as int) - a.y,
                m as int,
            );
        }
        assert(has_inv(m as int, dx2 as int));
        lemma_chord_both_ends(*c, t.x as int, t.y as int, a.x as int, a.y as int, x4 as int);
    }
    Ok(AssignedPoint { x: x4, y: y4 })
}

/// The fused second slope equals the chord slope from the intermediate
/// point to the doubled operand.
proof fn lemma_ladder_slope(
    c: CurveParams,
    a: AssignedPoint,
    b: AssignedPoint,
    l1: int,
    x3: int,
    dx2: int,
    tt: int,
    l2: int,
)
    requires
        c.wf(),
        a.wf(c),
        b.wf(c),
        a.x != b.x,
        padd(c, a, b) matches Some(t3) && t3.x == x3 && x3 != a.x,
        l1 == chord_slope(c, a.x as int, a.y as int, b.x as int, b.y as int),
        canonical(c.modulus as int, x3),
        dx2 == fsub(c.modulus as int, a.x as int, x3),
        has_inv(c.modulus as int, dx2),
        tt == fmul(
            c.modulus as int,
            fadd(c.modulus as int, a.y as int, a.y as int),
            finv(c.modulus as int, dx2),
        ),
        l2 == fsub(c.modulus as int, tt, l1),
    ensures
        padd(c, a, b) matches Some(t3) && l2 == chord_slope(
            c,
            t3.x as int,
            t3.y as int,
            a.x as int,
            a.y as int,
        ),
{
    let m = c.modulus as int;
    let t3 = padd(c, a, b)->Some_0;
    let y3 = t3.y as int;
    let iv = finv(m, dx2);
    lemma_finv_property(m, dx2);
    // y3 is the chord y-value, so ay - y3 rearranges to 2*ay - l1*dx2
    assert(y3 == fsub(m, fmul(m, l1, dx2), a.y as int));
    calc! {
        (==)
        chord_slope(c, t3.x as int, y3, a.x as int, a.y as int); {}
        fmul(m, fsub(m, a.y as int, fsub(m, fmul(m, l1, dx2), a.y as int)), iv); {
            lemma_fsub_rearrange(m, a.y as int, fmul(m, l1, dx2));
        }
        fmul(m, fsub(m, fadd(m, a.y as int, a.y as int), fmul(m, l1, dx2)), iv); {
            lemma_fmul_comm(m, fsub(m, fadd(m, a.y as int, a.y as int), fmul(m, l1, dx2)), iv);
            lemma_fmul_fsub(m, iv, fadd(m, a.y as int, a.y as int), fmul(m, l1, dx2));
            lemma_fmul_comm(m, iv, fadd(m, a.y as int, a.y as int));
            lemma_fmul_comm(m, iv, fmul(m, l1, dx2));
        }
        fsub(m, tt, fmul(m, fmul(m, l1, dx2), iv)); {
            lemma_fmul_cancel(m, dx2, l1);
            lemma_small_mod(l1 as nat, m as nat);
        }
        fsub(m, tt, l1);
    }
}

} // verus!

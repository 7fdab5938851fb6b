//! The law of the windowed schedule, stated against an abstract group.
//!
//! The chord and tangent formulas compute the curve's group operation on
//! their domain; that this operation is commutative, associative and has
//! the point at infinity as neutral element is classical for a nonsingular
//! curve, but lies beyond this development's arithmetic. The lemmas here
//! therefore take the group structure as an explicit hypothesis: for
//! *every* operation `g` that is commutative, associative, has the
//! identity point as neutral element, and agrees with the incomplete
//! formulas where they are defined, a successful run of the single-point
//! schedule returns the scalar multiple of the input point, plus the
//! auxiliary coefficient times the auxiliary seed, plus the registered
//! subtrahend — so when the subtrahend cancels the auxiliary contribution,
//! the result is exactly the scalar multiple.

use vstd::prelude::*;
use vstd::arithmetic::power2::{pow2, lemma_pow2_adds, lemma2_to64, lemma_pow2_pos};
use crate::params::CurveParams;
use crate::point::AssignedPoint;
use crate::curve::CurvePoint;
use crate::incomplete::{padd, pdouble, pdouble_n, pladder};
use crate::windowed::{ptable, mul_acc, mul_windowed, batch_seed, batch_entry, batch_acc_row,
    batch_windowed};
use crate::schedule::{wdigit, wprefix, aux_coeff, schedule_aux_coeff, lemma_wprefix_step,
    lemma_wprefix_ends};

verus! {

/// `g` is commutative and associative, the identity point is neutral, and
/// the incomplete formulas compute `g` wherever they are defined. Kept
/// opaque so that the laws fetch single instances instead of letting the
/// algebraic axioms loop.
#[verifier::opaque]
pub open spec fn group_like(c: CurveParams, g: spec_fn(CurvePoint, CurvePoint) -> CurvePoint) -> bool {
    &&& forall|x: CurvePoint| #[trigger] g(x, CurvePoint::Identity) == x
    &&& forall|x: CurvePoint, y: CurvePoint| #[trigger] g(x, y) == g(y, x)
    &&& forall|x: CurvePoint, y: CurvePoint, z: CurvePoint| #[trigger] g(g(x, y), z) == g(
        x,
        g(y, z),
    )
    &&& forall|a: AssignedPoint, b: AssignedPoint|
        (#[trigger] padd(c, a, b)) matches Some(q) ==> q.affine() == g(a.affine(), b.affine())
    &&& forall|a: AssignedPoint|
        (#[trigger] pdouble(c, a)) matches Some(q) ==> q.affine() == g(a.affine(), a.affine())
}

proof fn gl_identity(c: CurveParams, g: spec_fn(CurvePoint, CurvePoint) -> CurvePoint, x: CurvePoint)
    requires
        group_like(c, g),
    ensures
        g(x, CurvePoint::Identity) == x,
{
    reveal(group_like);
}

proof fn gl_comm(
    c: CurveParams,
    g: spec_fn(CurvePoint, CurvePoint) -> CurvePoint,
    x: CurvePoint,
    y: CurvePoint,
)
    requires
        group_like(c, g),
    ensures
        g(x, y) == g(y, x),
{
    reveal(group_like);
}

proof fn gl_assoc(
    c: CurveParams,
    g: spec_fn(CurvePoint, CurvePoint) -> CurvePoint,
    x: CurvePoint,
    y: CurvePoint,
    z: CurvePoint,
)
    requires
        group_like(c, g),
    ensures
        g(g(x, y), z) == g(x, g(y, z)),
{
    reveal(group_like);
}

proof fn gl_padd(
    c: CurveParams,
    g: spec_fn(CurvePoint, CurvePoint) -> CurvePoint,
    a: AssignedPoint,
    b: AssignedPoint,
)
    requires
        group_like(c, g),
        padd(c, a, b) is Some,
    ensures
        (padd(c, a, b)->Some_0).affine() == g(a.affine(), b.affine()),
{
    reveal(group_like);
}

proof fn gl_pdouble(c: CurveParams, g: spec_fn(CurvePoint, CurvePoint) -> CurvePoint, a: AssignedPoint)
    requires
        group_like(c, g),
        pdouble(c, a) is Some,
    ensures
        (pdouble(c, a)->Some_0).affine() == g(a.affine(), a.affine()),
{
    reveal(group_like);
}

/// The `k`-fold `g`-sum of a point.
pub open spec fn gpow(g: spec_fn(CurvePoint, CurvePoint) -> CurvePoint, k: nat, x: CurvePoint) -> CurvePoint
    decreases k,
{
    if k == 0 {
        CurvePoint::Identity
    } else {
        g(gpow(g, (k - 1) as nat, x), x)
    }
}

/// One copy is the point itself.
proof fn lemma_gpow_one(c: CurveParams, g: spec_fn(CurvePoint, CurvePoint) -> CurvePoint, x: CurvePoint)
    requires
        group_like(c, g),
    ensures
        gpow(g, 1, x) == x,
{
    assert(gpow(g, 0, x) == CurvePoint::Identity);
    gl_comm(c, g, CurvePoint::Identity, x);
    gl_identity(c, g, x);
}

/// Iterated sums add up: `gpow(k1 + k2) == gpow(k1) + gpow(k2)`.
pub proof fn lemma_gpow_add(
    c: CurveParams,
    g: spec_fn(CurvePoint, CurvePoint) -> CurvePoint,
    k1: nat,
    k2: nat,
    x: CurvePoint,
)
    requires
        group_like(c, g),
    ensures
        gpow(g, (k1 + k2) as nat, x) == g(gpow(g, k1, x), gpow(g, k2, x)),
    decreases k2,
{
    if k2 == 0 {
        gl_identity(c, g, gpow(g, k1, x));
    } else {
        lemma_gpow_add(c, g, k1, (k2 - 1) as nat, x);
        gl_assoc(c, g, gpow(g, k1, x), gpow(g, (k2 - 1) as nat, x), x);
    }
}

/// The four-way shuffle: `(a + b) + (x + y) == (a + x) + (b + y)`.
proof fn lemma_interchange(
    c: CurveParams,
    g: spec_fn(CurvePoint, CurvePoint) -> CurvePoint,
    a: CurvePoint,
    b: CurvePoint,
    x: CurvePoint,
    y: CurvePoint,
)
    requires
        group_like(c, g),
    ensures
        g(g(a, b), g(x, y)) == g(g(a, x), g(b, y)),
{
    gl_assoc(c, g, a, b, g(x, y));
    gl_comm(c, g, b, g(x, y));
    gl_assoc(c, g, x, y, b);
    gl_assoc(c, g, a, x, g(y, b));
    gl_comm(c, g, y, b);
}

/// Every table entry is the seed plus a multiple of the point.
proof fn lemma_table_gpow(
    c: CurveParams,
    g: spec_fn(CurvePoint, CurvePoint) -> CurvePoint,
    seed: AssignedPoint,
    point: AssignedPoint,
    i: nat,
)
    requires
        group_like(c, g),
        ptable(c, seed, point, i) is Some,
    ensures
        (ptable(c, seed, point, i)->Some_0).affine() == g(
            seed.affine(),
            gpow(g, i, point.affine()),
        ),
    decreases i,
{
    if i == 0 {
        gl_identity(c, g, seed.affine());
    } else {
        let prev = ptable(c, seed, point, (i - 1) as nat)->Some_0;
        lemma_table_gpow(c, g, seed, point, (i - 1) as nat);
        gl_padd(c, g, prev, point);
        gl_assoc(c, g, seed.affine(), gpow(g, (i - 1) as nat, point.affine()), point.affine());
    }
}

/// A run of doublings scales both coefficients of a split value by a
/// power of two.
proof fn lemma_pair_double_n(
    c: CurveParams,
    g: spec_fn(CurvePoint, CurvePoint) -> CurvePoint,
    a: AssignedPoint,
    k: nat,
    m: nat,
    n: nat,
    bp: CurvePoint,
    ba: CurvePoint,
)
    requires
        group_like(c, g),
        a.affine() == g(gpow(g, m, bp), gpow(g, n, ba)),
        pdouble_n(c, a, k) is Some,
    ensures
        (pdouble_n(c, a, k)->Some_0).affine() == g(
            gpow(g, (m * pow2(k)) as nat, bp),
            gpow(g, (n * pow2(k)) as nat, ba),
        ),
    decreases k,
{
    if k == 0 {
        lemma2_to64();
        assert(m * pow2(0) == m && n * pow2(0) == n) by {
            vstd::arithmetic::mul::lemma_mul_basics(m as int);
            vstd::arithmetic::mul::lemma_mul_basics(n as int);
        }
    } else {
        let prev = pdouble_n(c, a, (k - 1) as nat)->Some_0;
        lemma_pair_double_n(c, g, a, (k - 1) as nat, m, n, bp, ba);
        let m1 = (m * pow2((k - 1) as nat)) as nat;
        let n1 = (n * pow2((k - 1) as nat)) as nat;
        gl_pdouble(c, g, prev);
        lemma_interchange(c, g, gpow(g, m1, bp), gpow(g, n1, ba), gpow(g, m1, bp), gpow(g, n1, ba));
        lemma_gpow_add(c, g, m1, m1, bp);
        lemma_gpow_add(c, g, n1, n1, ba);
        assert(m1 + m1 == m * pow2(k) && n1 + n1 == n * pow2(k)) by {
            lemma_pow2_adds((k - 1) as nat, 1);
            lemma2_to64();
            vstd::arithmetic::mul::lemma_mul_is_associative(m as int, pow2((k - 1) as nat) as int, 2);
            vstd::arithmetic::mul::lemma_mul_is_associative(n as int, pow2((k - 1) as nat) as int, 2);
        }
    }
}

/// Adding a table entry to a split value raises the point coefficient by
/// the entry's digit and the auxiliary coefficient by one.
proof fn lemma_pair_add_entry(
    c: CurveParams,
    g: spec_fn(CurvePoint, CurvePoint) -> CurvePoint,
    a: AssignedPoint,
    e: AssignedPoint,
    m: nat,
    n: nat,
    d: nat,
    bp: CurvePoint,
    ba: CurvePoint,
)
    requires
        group_like(c, g),
        a.affine() == g(gpow(g, m, bp), gpow(g, n, ba)),
        e.affine() == g(ba, gpow(g, d, bp)),
        padd(c, a, e) is Some,
    ensures
        (padd(c, a, e)->Some_0).affine() == g(
            gpow(g, (m + d) as nat, bp),
            gpow(g, (n + 1) as nat, ba),
        ),
{
    gl_padd(c, g, a, e);
    lemma_gpow_one(c, g, ba);
    gl_comm(c, g, ba, gpow(g, d, bp));
    assert(e.affine() == g(gpow(g, d, bp), gpow(g, 1, ba)));
    lemma_interchange(c, g, gpow(g, m, bp), gpow(g, n, ba), gpow(g, d, bp), gpow(g, 1, ba));
    lemma_gpow_add(c, g, m, d, bp);
    lemma_gpow_add(c, g, n, 1, ba);
}

/// After `j` windows the accumulator splits as: the prefix of the scalar
/// times the point, plus the Horner coefficient times the auxiliary seed.
proof fn lemma_mul_acc_gpow(
    c: CurveParams,
    g: spec_fn(CurvePoint, CurvePoint) -> CurvePoint,
    seed: AssignedPoint,
    point: AssignedPoint,
    s: nat,
    w: nat,
    nw: nat,
    j: nat,
)
    requires
        group_like(c, g),
        w >= 1,
        1 <= j <= nw,
        s < pow2(w * nw),
        mul_acc(c, seed, point, s, w, nw, j) is Some,
    ensures
        (mul_acc(c, seed, point, s, w, nw, j)->Some_0).affine() == g(
            gpow(g, wprefix(s, w, nw, j), point.affine()),
            gpow(g, aux_coeff(w, j), seed.affine()),
        ),
    decreases j,
{
    let bp = point.affine();
    let ba = seed.affine();
    lemma_wprefix_ends(s, w, nw);
    if j == 1 {
        let d = wdigit(s, w, (nw - 1) as nat);
        lemma_table_gpow(c, g, seed, point, d);
        lemma_wprefix_step(s, w, nw, 1);
        assert(wprefix(s, w, nw, 1) == d && aux_coeff(w, 1) == 1) by {
            vstd::arithmetic::mul::lemma_mul_is_commutative(0, pow2(w) as int);
            vstd::arithmetic::mul::lemma_mul_basics(pow2(w) as int);
        }
        lemma_gpow_one(c, g, ba);
        gl_comm(c, g, ba, gpow(g, d, bp));
    } else if j == 2 {
        let a1 = mul_acc(c, seed, point, s, w, nw, 1)->Some_0;
        lemma_mul_acc_gpow(c, g, seed, point, s, w, nw, 1);
        let b = pdouble_n(c, a1, w)->Some_0;
        lemma_pair_double_n(c, g, a1, w, wprefix(s, w, nw, 1), aux_coeff(w, 1), bp, ba);
        let d = wdigit(s, w, (nw - 2) as nat);
        lemma_table_gpow(c, g, seed, point, d);
        lemma_pair_add_entry(
            c,
            g,
            b,
            ptable(c, seed, point, d)->Some_0,
            (wprefix(s, w, nw, 1) * pow2(w)) as nat,
            (aux_coeff(w, 1) * pow2(w)) as nat,
            d,
            bp,
            ba,
        );
        lemma_wprefix_step(s, w, nw, 2);
    } else {
        let a1 = mul_acc(c, seed, point, s, w, nw, (j - 1) as nat)->Some_0;
        lemma_mul_acc_gpow(c, g, seed, point, s, w, nw, (j - 1) as nat);
        let m = wprefix(s, w, nw, (j - 1) as nat);
        let n = aux_coeff(w, (j - 1) as nat);
        let b = pdouble_n(c, a1, (w - 1) as nat)->Some_0;
        lemma_pair_double_n(c, g, a1, (w - 1) as nat, m, n, bp, ba);
        let m1 = (m * pow2((w - 1) as nat)) as nat;
        let n1 = (n * pow2((w - 1) as nat)) as nat;
        let d = wdigit(s, w, (nw - j) as nat);
        let e = ptable(c, seed, point, d)->Some_0;
        lemma_table_gpow(c, g, seed, point, d);
        let t = mul_acc(c, seed, point, s, w, nw, j)->Some_0;
        // the ladder is two chords: (b + e) + b == (b + b) + e
        let u = padd(c, b, e)->Some_0;
        gl_padd(c, g, b, e);
        gl_padd(c, g, u, b);
        gl_assoc(c, g, b.affine(), e.affine(), b.affine());
        gl_comm(c, g, e.affine(), b.affine());
        gl_assoc(c, g, b.affine(), b.affine(), e.affine());
        assert(t.affine() == g(g(b.affine(), b.affine()), e.affine()));
        // the doubled accumulator splits with both coefficients doubled
        lemma_interchange(c, g, gpow(g, m1, bp), gpow(g, n1, ba), gpow(g, m1, bp), gpow(g, n1, ba));
        lemma_gpow_add(c, g, m1, m1, bp);
        lemma_gpow_add(c, g, n1, n1, ba);
        // fold the entry in
        lemma_gpow_one(c, g, ba);
        gl_comm(c, g, ba, gpow(g, d, bp));
        assert(e.affine() == g(gpow(g, d, bp), gpow(g, 1, ba)));
        lemma_interchange(
            c,
            g,
            gpow(g, (m1 + m1) as nat, bp),
            gpow(g, (n1 + n1) as nat, ba),
            gpow(g, d, bp),
            gpow(g, 1, ba),
        );
        lemma_gpow_add(c, g, (m1 + m1) as nat, d, bp);
        lemma_gpow_add(c, g, (n1 + n1) as nat, 1, ba);
        // coefficient bookkeeping: doubling after w - 1 doublings scales by 2^w
        assert(m1 + m1 == m * pow2(w) && n1 + n1 == n * pow2(w)) by {
            lemma_pow2_adds((w - 1) as nat, 1);
            lemma2_to64();
            vstd::arithmetic::mul::lemma_mul_is_associative(m as int, pow2((w - 1) as nat) as int, 2);
            vstd::arithmetic::mul::lemma_mul_is_associative(n as int, pow2((w - 1) as nat) as int, 2);
        }
        lemma_wprefix_step(s, w, nw, j);
    }
}

/// The single-point schedule in any compatible group: a successful run
/// returns the scalar times the point, plus the auxiliary coefficient
/// times the auxiliary seed, plus the registered subtrahend.
pub proof fn lemma_mul_windowed_in_group(
    c: CurveParams,
    g: spec_fn(CurvePoint, CurvePoint) -> CurvePoint,
    s: nat,
    w: nat,
    nw: nat,
    point: AssignedPoint,
    to_add: AssignedPoint,
    to_sub: AssignedPoint,
    q: AssignedPoint,
)
    requires
        group_like(c, g),
        w >= 1,
        nw >= 1,
        s < pow2(w * nw),
        mul_windowed(c, s, w, nw, point, to_add, to_sub) == Some(q),
    ensures
        q.affine() == g(
            g(gpow(g, s, point.affine()), gpow(g, aux_coeff(w, nw), to_add.affine())),
            to_sub.affine(),
        ),
{
    let a = mul_acc(c, to_add, point, s, w, nw, nw)->Some_0;
    lemma_mul_acc_gpow(c, g, to_add, point, s, w, nw, nw);
    lemma_wprefix_ends(s, w, nw);
    gl_padd(c, g, a, to_sub);
}

/// When the registered point cancels the accumulated auxiliary
/// contribution, the schedule returns exactly the scalar multiple.
pub proof fn lemma_mul_windowed_cancels(
    c: CurveParams,
    g: spec_fn(CurvePoint, CurvePoint) -> CurvePoint,
    s: nat,
    w: nat,
    nw: nat,
    point: AssignedPoint,
    to_add: AssignedPoint,
    to_sub: AssignedPoint,
    q: AssignedPoint,
)
    requires
        group_like(c, g),
        w >= 1,
        nw >= 1,
        s < pow2(w * nw),
        mul_windowed(c, s, w, nw, point, to_add, to_sub) == Some(q),
        g(gpow(g, aux_coeff(w, nw), to_add.affine()), to_sub.affine()) == CurvePoint::Identity,
    ensures
        q.affine() == gpow(g, s, point.affine()),
{
    lemma_mul_windowed_in_group(c, g, s, w, nw, point, to_add, to_sub, q);
    let sp = gpow(g, s, point.affine());
    let ax = gpow(g, aux_coeff(w, nw), to_add.affine());
    gl_assoc(c, g, sp, ax, to_sub.affine());
    gl_identity(c, g, sp);
}

/// The ladder under the group hypotheses: `2*a + b`, as the doubling of
/// its first operand plus its second.
pub proof fn lemma_ladder_in_group(
    c: CurveParams,
    g: spec_fn(CurvePoint, CurvePoint) -> CurvePoint,
    a: AssignedPoint,
    b: AssignedPoint,
    q: AssignedPoint,
)
    requires
        group_like(c, g),
        pladder(c, a, b) == Some(q),
    ensures
        q.affine() == g(g(a.affine(), a.affine()), b.affine()),
{
    let u = padd(c, a, b)->Some_0;
    gl_padd(c, g, a, b);
    gl_padd(c, g, u, a);
    gl_assoc(c, g, a.affine(), b.affine(), a.affine());
    gl_comm(c, g, b.affine(), a.affine());
    gl_assoc(c, g, a.affine(), a.affine(), b.affine());
}

/// The point coefficient of pair `t` in the batched state `(j, i)`:
/// `j` full windows plus the window-`j` additions of the first `i` pairs.
pub open spec fn bcoeff_point(
    pairs: Seq<(AssignedPoint, u64)>,
    w: nat,
    nw: nat,
    j: nat,
    i: nat,
    t: nat,
) -> nat {
    if t < i {
        wprefix(pairs[t as int].1 as nat, w, nw, (j + 1) as nat)
    } else {
        wprefix(pairs[t as int].1 as nat, w, nw, j) * pow2(w)
    }
}

/// The auxiliary coefficient of pair `t` in the batched state `(j, i)`.
pub open spec fn bcoeff_aux(w: nat, j: nat, i: nat, t: nat) -> nat {
    if t < i {
        aux_coeff(w, (j + 1) as nat) * pow2(t)
    } else {
        (aux_coeff(w, j) * pow2(w)) * pow2(t)
    }
}

/// The value of the batched state `(j, i)` over the first `t` pairs, every
/// coefficient scaled by `scale`.
pub open spec fn batch_val(
    g: spec_fn(CurvePoint, CurvePoint) -> CurvePoint,
    pairs: Seq<(AssignedPoint, u64)>,
    w: nat,
    nw: nat,
    j: nat,
    i: nat,
    t: nat,
    scale: nat,
    ax: CurvePoint,
) -> CurvePoint
    decreases t,
{
    if t == 0 {
        CurvePoint::Identity
    } else {
        g(
            batch_val(g, pairs, w, nw, j, i, (t - 1) as nat, scale, ax),
            g(
                gpow(
                    g,
                    (bcoeff_point(pairs, w, nw, j, i, (t - 1) as nat) * scale) as nat,
                    pairs[t - 1].0.affine(),
                ),
                gpow(g, (bcoeff_aux(w, j, i, (t - 1) as nat) * scale) as nat, ax),
            ),
        )
    }
}

/// Each per-pair seed is a doubled copy of the shared auxiliary seed.
proof fn lemma_batch_seed_gpow(
    c: CurveParams,
    g: spec_fn(CurvePoint, CurvePoint) -> CurvePoint,
    to_add: AssignedPoint,
    i: nat,
)
    requires
        group_like(c, g),
        batch_seed(c, to_add, i) is Some,
    ensures
        (batch_seed(c, to_add, i)->Some_0).affine() == gpow(g, pow2(i), to_add.affine()),
    decreases i,
{
    if i == 0 {
        lemma2_to64();
        lemma_gpow_one(c, g, to_add.affine());
    } else {
        let prev = batch_seed(c, to_add, (i - 1) as nat)->Some_0;
        lemma_batch_seed_gpow(c, g, to_add, (i - 1) as nat);
        gl_pdouble(c, g, prev);
        lemma_gpow_add(c, g, pow2((i - 1) as nat), pow2((i - 1) as nat), to_add.affine());
        lemma_pow2_adds((i - 1) as nat, 1);
        lemma2_to64();
    }
}

/// States that only differ beyond the first `t` pairs have the same value
/// over those pairs.
proof fn lemma_batch_val_agree_low(
    g: spec_fn(CurvePoint, CurvePoint) -> CurvePoint,
    pairs: Seq<(AssignedPoint, u64)>,
    w: nat,
    nw: nat,
    j: nat,
    i: nat,
    t: nat,
    scale: nat,
    ax: CurvePoint,
)
    requires
        t <= i,
    ensures
        batch_val(g, pairs, w, nw, j, i, t, scale, ax) == batch_val(
            g,
            pairs,
            w,
            nw,
            j,
            (i + 1) as nat,
            t,
            scale,
            ax,
        ),
    decreases t,
{
    if t > 0 {
        lemma_batch_val_agree_low(g, pairs, w, nw, j, i, (t - 1) as nat, scale, ax);
    }
}

/// In window 0, pairs not yet added contribute nothing.
proof fn lemma_batch_val_zero_tail(
    c: CurveParams,
    g: spec_fn(CurvePoint, CurvePoint) -> CurvePoint,
    pairs: Seq<(AssignedPoint, u64)>,
    w: nat,
    nw: nat,
    i: nat,
    t: nat,
    scale: nat,
    ax: CurvePoint,
)
    requires
        group_like(c, g),
        i <= t,
        forall|t2: int| 0 <= t2 < pairs.len() ==> (#[trigger] pairs[t2]).1 < pow2(w * nw),
        t <= pairs.len(),
        w >= 1,
    ensures
        batch_val(g, pairs, w, nw, 0, i, t, scale, ax) == batch_val(
            g,
            pairs,
            w,
            nw,
            0,
            i,
            i,
            scale,
            ax,
        ),
    decreases t,
{
    if t > i {
        lemma_batch_val_zero_tail(c, g, pairs, w, nw, i, (t - 1) as nat, scale, ax);
        // the dropped term carries zero copies of everything
        lemma_wprefix_ends(pairs[t - 1].1 as nat, w, nw);
        assert(bcoeff_point(pairs, w, nw, 0, i, (t - 1) as nat) == 0) by {
            vstd::arithmetic::mul::lemma_mul_is_commutative(0, pow2(w) as int);
        }
        assert(bcoeff_aux(w, 0, i, (t - 1) as nat) == 0) by {
            vstd::arithmetic::mul::lemma_mul_is_commutative(0, pow2(w) as int);
            vstd::arithmetic::mul::lemma_mul_is_commutative(
                0 * pow2(w) as int,
                pow2((t - 1) as nat) as int,
            );
            vstd::arithmetic::mul::lemma_mul_is_commutative(0, pow2((t - 1) as nat) as int);
        }
        assert(0 * scale == 0) by {
            vstd::arithmetic::mul::lemma_mul_is_commutative(0, scale as int);
        }
        gl_identity(c, g, CurvePoint::Identity);
        gl_identity(c, g, batch_val(g, pairs, w, nw, 0, i, (t - 1) as nat, scale, ax));
    }
}

/// Folding pair `i`'s table entry into the state advances that pair's
/// coefficients by one window.
proof fn lemma_batch_val_bump(
    c: CurveParams,
    g: spec_fn(CurvePoint, CurvePoint) -> CurvePoint,
    pairs: Seq<(AssignedPoint, u64)>,
    w: nat,
    nw: nat,
    j: nat,
    i: nat,
    t: nat,
    ax: CurvePoint,
    e: CurvePoint,
)
    requires
        group_like(c, g),
        w >= 1,
        j < nw,
        i < t <= pairs.len(),
        e == g(
            gpow(g, wdigit(pairs[i as int].1 as nat, w, (nw - 1 - j) as nat), pairs[i as int].0.affine()),
            gpow(g, pow2(i), ax),
        ),
    ensures
        g(batch_val(g, pairs, w, nw, j, i, t, 1, ax), e) == batch_val(
            g,
            pairs,
            w,
            nw,
            j,
            (i + 1) as nat,
            t,
            1,
            ax,
        ),
    decreases t,
{
    let d = wdigit(pairs[i as int].1 as nat, w, (nw - 1 - j) as nat);
    let bp = pairs[i as int].0.affine();
    if t == i + 1 {
        lemma_batch_val_agree_low(g, pairs, w, nw, j, i, i, 1, ax);
        let v = batch_val(g, pairs, w, nw, j, i, i, 1, ax);
        let m = (wprefix(pairs[i as int].1 as nat, w, nw, j) * pow2(w)) as nat;
        let n = ((aux_coeff(w, j) * pow2(w)) * pow2(i)) as nat;
        let m2 = wprefix(pairs[i as int].1 as nat, w, nw, (j + 1) as nat);
        let n2 = (aux_coeff(w, (j + 1) as nat) * pow2(i)) as nat;
        // scale-1 coefficients are the coefficients themselves
        lemma_scale_one(m);
        lemma_scale_one(n);
        lemma_scale_one(m2);
        lemma_scale_one(n2);
        let told = g(gpow(g, m, bp), gpow(g, n, ax));
        // (v + T_old) + e == v + (T_old + e), and T_old + e is T_new
        gl_assoc(c, g, v, told, e);
        lemma_interchange(c, g, gpow(g, m, bp), gpow(g, n, ax), gpow(g, d, bp), gpow(g, pow2(i), ax));
        lemma_gpow_add(c, g, m, d, bp);
        lemma_gpow_add(c, g, n, pow2(i), ax);
        assert(m + d == m2) by {
            lemma_wprefix_step(pairs[i as int].1 as nat, w, nw, (j + 1) as nat);
        }
        assert(n + pow2(i) == n2) by {
            vstd::arithmetic::mul::lemma_mul_is_distributive_add_other_way(
                pow2(i) as int,
                aux_coeff(w, j) as int * pow2(w) as int,
                1,
            );
            vstd::arithmetic::mul::lemma_mul_basics(pow2(i) as int);
            vstd::arithmetic::mul::lemma_mul_is_commutative(1, pow2(i) as int);
        }
    } else {
        lemma_batch_val_bump(c, g, pairs, w, nw, j, i, (t - 1) as nat, ax, e);
        let v = batch_val(g, pairs, w, nw, j, i, (t - 1) as nat, 1, ax);
        let m = (bcoeff_point(pairs, w, nw, j, i, (t - 1) as nat) * 1) as nat;
        let n = (bcoeff_aux(w, j, i, (t - 1) as nat) * 1) as nat;
        let term = g(gpow(g, m, pairs[t - 1].0.affine()), gpow(g, n, ax));
        // rotate e past the last term
        gl_assoc(c, g, v, term, e);
        gl_comm(c, g, term, e);
        gl_assoc(c, g, v, e, term);
        assert(bcoeff_point(pairs, w, nw, j, (i + 1) as nat, (t - 1) as nat) == bcoeff_point(
            pairs,
            w,
            nw,
            j,
            i,
            (t - 1) as nat,
        ));
        assert(bcoeff_aux(w, j, (i + 1) as nat, (t - 1) as nat) == bcoeff_aux(
            w,
            j,
            i,
            (t - 1) as nat,
        ));
    }
}

/// Multiplying by one changes nothing (kept explicit for the nonlinear
/// positions above).
proof fn lemma_scale_one(x: nat)
    ensures
        (x * 1) as nat == x,
{
    vstd::arithmetic::mul::lemma_mul_basics(x as int);
}

/// Doubling the whole state doubles the scale.
proof fn lemma_batch_val_double(
    c: CurveParams,
    g: spec_fn(CurvePoint, CurvePoint) -> CurvePoint,
    pairs: Seq<(AssignedPoint, u64)>,
    w: nat,
    nw: nat,
    j: nat,
    i: nat,
    t: nat,
    scale: nat,
    ax: CurvePoint,
)
    requires
        group_like(c, g),
        t <= pairs.len(),
    ensures
        g(
            batch_val(g, pairs, w, nw, j, i, t, scale, ax),
            batch_val(g, pairs, w, nw, j, i, t, scale, ax),
        ) == batch_val(g, pairs, w, nw, j, i, t, (2 * scale) as nat, ax),
    decreases t,
{
    if t == 0 {
        gl_identity(c, g, CurvePoint::Identity);
    } else {
        lemma_batch_val_double(c, g, pairs, w, nw, j, i, (t - 1) as nat, scale, ax);
        let v = batch_val(g, pairs, w, nw, j, i, (t - 1) as nat, scale, ax);
        let cp = bcoeff_point(pairs, w, nw, j, i, (t - 1) as nat);
        let ca = bcoeff_aux(w, j, i, (t - 1) as nat);
        let bp = pairs[t - 1].0.affine();
        let term = g(gpow(g, (cp * scale) as nat, bp), gpow(g, (ca * scale) as nat, ax));
        lemma_interchange(c, g, v, term, v, term);
        lemma_interchange(
            c,
            g,
            gpow(g, (cp * scale) as nat, bp),
            gpow(g, (ca * scale) as nat, ax),
            gpow(g, (cp * scale) as nat, bp),
            gpow(g, (ca * scale) as nat, ax),
        );
        lemma_gpow_add(c, g, (cp * scale) as nat, (cp * scale) as nat, bp);
        lemma_gpow_add(c, g, (ca * scale) as nat, (ca * scale) as nat, ax);
        assert(cp * scale + cp * scale == cp * (2 * scale) && ca * scale + ca * scale == ca * (2
            * scale)) by {
            vstd::arithmetic::mul::lemma_mul_is_distributive_add(cp as int, scale as int, scale as int);
            vstd::arithmetic::mul::lemma_mul_is_distributive_add(ca as int, scale as int, scale as int);
        }
    }
}

/// A run of doublings scales the state by a power of two.
proof fn lemma_batch_val_double_n(
    c: CurveParams,
    g: spec_fn(CurvePoint, CurvePoint) -> CurvePoint,
    pairs: Seq<(AssignedPoint, u64)>,
    w: nat,
    nw: nat,
    j: nat,
    i: nat,
    a: AssignedPoint,
    k: nat,
    scale: nat,
    ax: CurvePoint,
)
    requires
        group_like(c, g),
        a.affine() == batch_val(g, pairs, w, nw, j, i, pairs.len(), scale, ax),
        pdouble_n(c, a, k) is Some,
    ensures
        (pdouble_n(c, a, k)->Some_0).affine() == batch_val(
            g,
            pairs,
            w,
            nw,
            j,
            i,
            pairs.len(),
            (scale * pow2(k)) as nat,
            ax,
        ),
    decreases k,
{
    if k == 0 {
        lemma2_to64();
        lemma_scale_one(scale);
        vstd::arithmetic::mul::lemma_mul_basics(scale as int);
    } else {
        let prev = pdouble_n(c, a, (k - 1) as nat)->Some_0;
        lemma_batch_val_double_n(c, g, pairs, w, nw, j, i, a, (k - 1) as nat, scale, ax);
        gl_pdouble(c, g, prev);
        lemma_batch_val_double(
            c,
            g,
            pairs,
            w,
            nw,
            j,
            i,
            pairs.len(),
            (scale * pow2((k - 1) as nat)) as nat,
            ax,
        );
        assert(2 * (scale * pow2((k - 1) as nat)) == scale * pow2(k)) by {
            lemma_pow2_adds((k - 1) as nat, 1);
            lemma2_to64();
            vstd::arithmetic::mul::lemma_mul_is_associative(
                scale as int,
                pow2((k - 1) as nat) as int,
                2,
            );
            vstd::arithmetic::mul::lemma_mul_is_commutative(
                2,
                (scale * pow2((k - 1) as nat)) as int,
            );
        }
    }
}

/// A window's worth of scale turns the finished window `j` into the start
/// of window `j + 1`.
proof fn lemma_batch_val_next_window(
    g: spec_fn(CurvePoint, CurvePoint) -> CurvePoint,
    pairs: Seq<(AssignedPoint, u64)>,
    w: nat,
    nw: nat,
    j: nat,
    t: nat,
    ax: CurvePoint,
)
    requires
        t <= pairs.len(),
    ensures
        batch_val(g, pairs, w, nw, j, pairs.len(), t, pow2(w), ax) == batch_val(
            g,
            pairs,
            w,
            nw,
            (j + 1) as nat,
            0,
            t,
            1,
            ax,
        ),
    decreases t,
{
    if t > 0 {
        lemma_batch_val_next_window(g, pairs, w, nw, j, (t - 1) as nat, ax);
        let tm = (t - 1) as nat;
        // point coefficients: prefix * 2^w on both sides
        assert(bcoeff_point(pairs, w, nw, j, pairs.len(), tm) * pow2(w) == bcoeff_point(
            pairs,
            w,
            nw,
            (j + 1) as nat,
            0,
            tm,
        ) * 1) by {
            lemma_scale_one(bcoeff_point(pairs, w, nw, (j + 1) as nat, 0, tm));
        }
        // auxiliary coefficients: reassociate the three factors
        assert(bcoeff_aux(w, j, pairs.len(), tm) * pow2(w) == bcoeff_aux(
            w,
            (j + 1) as nat,
            0,
            tm,
        ) * 1) by {
            lemma_scale_one(bcoeff_aux(w, (j + 1) as nat, 0, tm));
            vstd::arithmetic::mul::lemma_mul_is_associative(
                aux_coeff(w, (j + 1) as nat) as int,
                pow2(tm) as int,
                pow2(w) as int,
            );
            vstd::arithmetic::mul::lemma_mul_is_associative(
                aux_coeff(w, (j + 1) as nat) as int,
                pow2(w) as int,
                pow2(tm) as int,
            );
            vstd::arithmetic::mul::lemma_mul_is_commutative(pow2(tm) as int, pow2(w) as int);
        }
    }
}

/// The batched accumulator splits over the pairs with the stated
/// coefficients, throughout the schedule.
proof fn lemma_batch_row_gpow(
    c: CurveParams,
    g: spec_fn(CurvePoint, CurvePoint) -> CurvePoint,
    to_add: AssignedPoint,
    pairs: Seq<(AssignedPoint, u64)>,
    w: nat,
    nw: nat,
    j: nat,
    i: nat,
)
    requires
        group_like(c, g),
        w >= 1,
        pairs.len() >= 1,
        j < nw,
        i <= pairs.len(),
        j >= 1 || i >= 1,
        forall|t2: int| 0 <= t2 < pairs.len() ==> (#[trigger] pairs[t2]).1 < pow2(w * nw),
        batch_acc_row(c, to_add, pairs, w, nw, j, i) is Some,
    ensures
        (batch_acc_row(c, to_add, pairs, w, nw, j, i)->Some_0).affine() == batch_val(
            g,
            pairs,
            w,
            nw,
            j,
            i,
            pairs.len(),
            1,
            to_add.affine(),
        ),
    decreases j, i,
{
    let ax = to_add.affine();
    let np = pairs.len();
    if j == 0 && i == 1 {
        let d = wdigit(pairs[0].1 as nat, w, (nw - 1) as nat);
        let sd = batch_seed(c, to_add, 0)->Some_0;
        assert(sd == to_add);
        lemma_table_gpow(c, g, to_add, pairs[0].0, d);
        let t0 = batch_acc_row(c, to_add, pairs, w, nw, 0, 1)->Some_0;
        assert(t0.affine() == g(ax, gpow(g, d, pairs[0].0.affine())));
        // tail pairs contribute nothing yet
        lemma_batch_val_zero_tail(c, g, pairs, w, nw, 1, np, 1, ax);
        // the single term carries digit d of the point and one copy of ax
        lemma_wprefix_step(pairs[0].1 as nat, w, nw, 1);
        lemma_wprefix_ends(pairs[0].1 as nat, w, nw);
        assert(bcoeff_point(pairs, w, nw, 0, 1, 0) == d) by {
            vstd::arithmetic::mul::lemma_mul_is_commutative(0, pow2(w) as int);
        }
        assert(bcoeff_aux(w, 0, 1, 0) == 1) by {
            lemma2_to64();
            vstd::arithmetic::mul::lemma_mul_is_commutative(0, pow2(w) as int);
            vstd::arithmetic::mul::lemma_mul_basics(aux_coeff(w, 1) as int);
        }
        lemma_scale_one(d);
        lemma_scale_one(1);
        lemma_gpow_one(c, g, ax);
        let term = g(gpow(g, d, pairs[0].0.affine()), gpow(g, 1, ax));
        assert(batch_val(g, pairs, w, nw, 0, 1, 0, 1, ax) == CurvePoint::Identity);
        assert(batch_val(g, pairs, w, nw, 0, 1, 1, 1, ax) == g(CurvePoint::Identity, term));
        gl_comm(c, g, CurvePoint::Identity, term);
        gl_identity(c, g, term);
        gl_comm(c, g, ax, gpow(g, d, pairs[0].0.affine()));
    } else if i == 0 {
        let prev = batch_acc_row(c, to_add, pairs, w, nw, (j - 1) as nat, np)->Some_0;
        lemma_batch_row_gpow(c, g, to_add, pairs, w, nw, (j - 1) as nat, np);
        lemma_batch_val_double_n(
            c,
            g,
            pairs,
            w,
            nw,
            (j - 1) as nat,
            np,
            prev,
            w,
            1,
            ax,
        );
        assert(1 * pow2(w) == pow2(w)) by {
            vstd::arithmetic::mul::lemma_mul_basics(pow2(w) as int);
            vstd::arithmetic::mul::lemma_mul_is_commutative(1, pow2(w) as int);
        }
        lemma_batch_val_next_window(g, pairs, w, nw, (j - 1) as nat, np, ax);
    } else {
        let prev = batch_acc_row(c, to_add, pairs, w, nw, j, (i - 1) as nat)->Some_0;
        lemma_batch_row_gpow(c, g, to_add, pairs, w, nw, j, (i - 1) as nat);
        let d = wdigit(pairs[i - 1].1 as nat, w, (nw - 1 - j) as nat);
        let sd = batch_seed(c, to_add, (i - 1) as nat)->Some_0;
        lemma_batch_seed_gpow(c, g, to_add, (i - 1) as nat);
        let e = batch_entry(c, to_add, pairs, (i - 1) as nat, d)->Some_0;
        lemma_table_gpow(c, g, sd, pairs[i - 1].0, d);
        let t = batch_acc_row(c, to_add, pairs, w, nw, j, i)->Some_0;
        gl_padd(c, g, prev, e);
        gl_comm(c, g, gpow(g, pow2((i - 1) as nat), ax), gpow(g, d, pairs[i - 1].0.affine()));
        lemma_batch_val_bump(
            c,
            g,
            pairs,
            w,
            nw,
            j,
            (i - 1) as nat,
            np,
            ax,
            e.affine(),
        );
    }
}

/// The multi-scalar total over the first `t` pairs: each scalar times its
/// point, and `aux_coeff(w, nw) * 2^t` copies of the auxiliary seed from
/// pair `t`.
pub open spec fn batch_total(
    g: spec_fn(CurvePoint, CurvePoint) -> CurvePoint,
    pairs: Seq<(AssignedPoint, u64)>,
    w: nat,
    nw: nat,
    t: nat,
    ax: CurvePoint,
) -> CurvePoint
    decreases t,
{
    if t == 0 {
        CurvePoint::Identity
    } else {
        g(
            batch_total(g, pairs, w, nw, (t - 1) as nat, ax),
            g(
                gpow(g, pairs[t - 1].1 as nat, pairs[t - 1].0.affine()),
                gpow(g, (aux_coeff(w, nw) * pow2((t - 1) as nat)) as nat, ax),
            ),
        )
    }
}

/// The finished state is the multi-scalar total.
proof fn lemma_batch_val_is_total(
    c: CurveParams,
    g: spec_fn(CurvePoint, CurvePoint) -> CurvePoint,
    pairs: Seq<(AssignedPoint, u64)>,
    w: nat,
    nw: nat,
    t: nat,
    ax: CurvePoint,
)
    requires
        group_like(c, g),
        w >= 1,
        nw >= 1,
        t <= pairs.len(),
        forall|t2: int| 0 <= t2 < pairs.len() ==> (#[trigger] pairs[t2]).1 < pow2(w * nw),
    ensures
        batch_val(g, pairs, w, nw, (nw - 1) as nat, pairs.len(), t, 1, ax) == batch_total(
            g,
            pairs,
            w,
            nw,
            t,
            ax,
        ),
    decreases t,
{
    if t > 0 {
        lemma_batch_val_is_total(c, g, pairs, w, nw, (t - 1) as nat, ax);
        let tm = (t - 1) as nat;
        lemma_wprefix_ends(pairs[t - 1].1 as nat, w, nw);
        assert(bcoeff_point(pairs, w, nw, (nw - 1) as nat, pairs.len(), tm) * 1
            == pairs[t - 1].1 as nat) by {
            lemma_scale_one(bcoeff_point(pairs, w, nw, (nw - 1) as nat, pairs.len(), tm));
        }
        lemma_scale_one(bcoeff_aux(w, (nw - 1) as nat, pairs.len(), tm));
    }
}

/// The whole auxiliary contribution of the batch, gathered into one term:
/// the total splits as the plain multi-scalar sum plus
/// `schedule_aux_coeff` copies of the auxiliary seed.
pub open spec fn msm_total(
    g: spec_fn(CurvePoint, CurvePoint) -> CurvePoint,
    pairs: Seq<(AssignedPoint, u64)>,
    t: nat,
) -> CurvePoint
    decreases t,
{
    if t == 0 {
        CurvePoint::Identity
    } else {
        g(msm_total(g, pairs, (t - 1) as nat), gpow(g, pairs[t - 1].1 as nat, pairs[t - 1].0.affine()))
    }
}

/// Splitting the finished state into the multi-scalar sum and the
/// gathered auxiliary contribution.
proof fn lemma_batch_total_split(
    c: CurveParams,
    g: spec_fn(CurvePoint, CurvePoint) -> CurvePoint,
    pairs: Seq<(AssignedPoint, u64)>,
    w: nat,
    nw: nat,
    t: nat,
    ax: CurvePoint,
)
    requires
        group_like(c, g),
    ensures
        batch_total(g, pairs, w, nw, t, ax) == g(
            msm_total(g, pairs, t),
            gpow(g, (aux_coeff(w, nw) * ((pow2(t) - 1) as nat)) as nat, ax),
        ),
    decreases t,
{
    let k = aux_coeff(w, nw);
    if t == 0 {
        lemma2_to64();
        assert(k * 0 == 0) by {
            vstd::arithmetic::mul::lemma_mul_basics(k as int);
        }
        gl_identity(c, g, CurvePoint::Identity);
    } else {
        lemma_batch_total_split(c, g, pairs, w, nw, (t - 1) as nat, ax);
        let tm = (t - 1) as nat;
        lemma_interchange(
            c,
            g,
            msm_total(g, pairs, tm),
            gpow(g, (k * ((pow2(tm) - 1) as nat)) as nat, ax),
            gpow(g, pairs[t - 1].1 as nat, pairs[t - 1].0.affine()),
            gpow(g, (k * pow2(tm)) as nat, ax),
        );
        lemma_gpow_add(c, g, (k * ((pow2(tm) - 1) as nat)) as nat, (k * pow2(tm)) as nat, ax);
        lemma_pow2_pos(tm);
        assert(k * ((pow2(tm) - 1) as nat) + k * pow2(tm) == k * ((pow2(t) - 1) as nat)) by {
            lemma_pow2_adds(tm, 1);
            lemma2_to64();
            vstd::arithmetic::mul::lemma_mul_is_distributive_add(
                k as int,
                pow2(tm) as int - 1,
                pow2(tm) as int,
            );
        }
    }
}

/// The batched schedule in any compatible group: a successful run returns
/// the multi-scalar sum, plus the schedule's auxiliary coefficient times
/// the auxiliary seed, plus the registered subtrahend.
pub proof fn lemma_batch_windowed_in_group(
    c: CurveParams,
    g: spec_fn(CurvePoint, CurvePoint) -> CurvePoint,
    pairs: Seq<(AssignedPoint, u64)>,
    w: nat,
    nw: nat,
    to_add: AssignedPoint,
    to_sub: AssignedPoint,
    q: AssignedPoint,
)
    requires
        group_like(c, g),
        w >= 1,
        nw >= 1,
        pairs.len() >= 1,
        forall|t2: int| 0 <= t2 < pairs.len() ==> (#[trigger] pairs[t2]).1 < pow2(w * nw),
        batch_windowed(c, pairs, w, nw, to_add, to_sub) == Some(q),
    ensures
        q.affine() == g(
            g(
                msm_total(g, pairs, pairs.len()),
                gpow(g, schedule_aux_coeff(w, nw, pairs.len()), to_add.affine()),
            ),
            to_sub.affine(),
        ),
{
    let np = pairs.len();
    let a = batch_acc_row(c, to_add, pairs, w, nw, (nw - 1) as nat, np)->Some_0;
    lemma_batch_row_gpow(c, g, to_add, pairs, w, nw, (nw - 1) as nat, np);
    lemma_batch_val_is_total(c, g, pairs, w, nw, np, to_add.affine());
    lemma_batch_total_split(c, g, pairs, w, nw, np, to_add.affine());
    gl_padd(c, g, a, to_sub);
}

/// When the registered point cancels the batched auxiliary contribution,
/// the schedule returns exactly the multi-scalar sum.
pub proof fn lemma_batch_windowed_cancels(
    c: CurveParams,
    g: spec_fn(CurvePoint, CurvePoint) -> CurvePoint,
    pairs: Seq<(AssignedPoint, u64)>,
    w: nat,
    nw: nat,
    to_add: AssignedPoint,
    to_sub: AssignedPoint,
    q: AssignedPoint,
)
    requires
        group_like(c, g),
        w >= 1,
        nw >= 1,
        pairs.len() >= 1,
        forall|t2: int| 0 <= t2 < pairs.len() ==> (#[trigger] pairs[t2]).1 < pow2(w * nw),
        batch_windowed(c, pairs, w, nw, to_add, to_sub) == Some(q),
        g(
            gpow(g, schedule_aux_coeff(w, nw, pairs.len()), to_add.affine()),
            to_sub.affine(),
        ) == CurvePoint::Identity,
    ensures
        q.affine() == msm_total(g, pairs, pairs.len()),
{
    lemma_batch_windowed_in_group(c, g, pairs, w, nw, to_add, to_sub, q);
    let sp = msm_total(g, pairs, pairs.len());
    let ax = gpow(g, schedule_aux_coeff(w, nw, pairs.len()), to_add.affine());
    gl_assoc(c, g, sp, ax, to_sub.affine());
    gl_identity(c, g, sp);
}

} // verus!

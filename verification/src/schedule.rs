//! Arithmetic of the windowed multiplication schedule.
//!
//! A scalar is cut into `nw` windows of `w` bits, most-significant window
//! first. The schedule doubles an accumulator `w` times per window and adds
//! one table entry per window; every table entry carries one copy of the
//! auxiliary point on top of a multiple of the input point. The lemmas here
//! account for both contributions exactly, over the integers: the input
//! point ends up multiplied by the scalar, and the auxiliary point by a
//! coefficient that depends only on the window count, the window size and
//! (for batches) the number of pairs. The registered "to subtract" point is
//! derived from that same coefficient, so the two cancel.

use vstd::prelude::*;
use vstd::arithmetic::div_mod::*;
use vstd::arithmetic::mul::*;
use vstd::arithmetic::power2::{pow2, lemma_pow2_pos, lemma_pow2_adds, lemma2_to64};
use vstd::calc;
use crate::modular::{fneg, add_mod, mul_mod, sub_mod};

verus! {

/// Window `t` of `s`, counting windows of `w` bits from the least
/// significant end.
pub open spec fn wdigit(s: nat, w: nat, t: nat) -> nat {
    (s / pow2(w * t)) % pow2(w)
}

/// The number of `w`-bit windows needed for `bits` bits.
pub open spec fn window_count(bits: nat, w: nat) -> nat
    recommends
        w >= 1,
{
    ((bits + w - 1) / w as int) as nat
}

/// The value of the first `j` windows of `s`, most-significant first, under
/// `nw` windows in all.
pub open spec fn wprefix(s: nat, w: nat, nw: nat, j: nat) -> nat
    recommends
        j <= nw,
{
    s / pow2(w * ((nw - j) as nat))
}

/// Horner coefficient of the auxiliary point after `j` windows:
/// `1 + 2^w + 2^(2w) + ... + 2^((j-1)w)`.
pub open spec fn aux_coeff(w: nat, j: nat) -> nat
    decreases j,
{
    if j == 0 {
        0
    } else {
        aux_coeff(w, (j - 1) as nat) * pow2(w) + 1
    }
}

/// The combined auxiliary coefficient of a whole schedule: each of `np`
/// pairs contributes its own doubled copy of the auxiliary point.
pub open spec fn schedule_aux_coeff(w: nat, nw: nat, np: nat) -> nat {
    aux_coeff(w, nw) * ((pow2(np) - 1) as nat)
}

/// One Horner step on window prefixes.
pub proof fn lemma_wprefix_step(s: nat, w: nat, nw: nat, j: nat)
    requires
        w >= 1,
        1 <= j <= nw,
    ensures
        wprefix(s, w, nw, j) == wprefix(s, w, nw, (j - 1) as nat) * pow2(w) + wdigit(
            s,
            w,
            (nw - j) as nat,
        ),
{
    let t = (nw - j) as nat;
    let lo = pow2(w * t) as int;
    let hi = pow2(w) as int;
    lemma_pow2_pos(w * t);
    lemma_pow2_pos(w);
    assert(w * (t + 1) == w * t + w) by {
        lemma_mul_is_distributive_add(w as int, t as int, 1);
        lemma_mul_basics(w as int);
    }
    lemma_pow2_adds(w * t, w);
    // s / 2^(wt) splits into quotient and remainder by 2^w
    let x = s as int / lo;
    lemma_div_pos_is_pos(s as int, lo);
    lemma_fundamental_div_mod(x, hi);
    lemma_mod_bound(x, hi);
    assert(x == hi * (x / hi) + x % hi);
    assert(x / hi == s as int / (lo * hi)) by {
        lemma_div_denominator(s as int, lo, hi);
    }
    assert(wprefix(s, w, nw, (j - 1) as nat) == x / hi);
    assert(wdigit(s, w, t) == x % hi);
    assert(hi * (x / hi) == (x / hi) * hi) by {
        lemma_mul_is_commutative(hi, x / hi);
    }
}

/// Before any window is processed the prefix is 0; afterwards it is `s`.
pub proof fn lemma_wprefix_ends(s: nat, w: nat, nw: nat)
    requires
        w >= 1,
        s < pow2(w * nw),
    ensures
        wprefix(s, w, nw, 0) == 0,
        wprefix(s, w, nw, nw) == s,
{
    lemma_pow2_pos(w * nw);
    lemma_basic_div(s as int, pow2(w * nw) as int);
    assert(w * 0 == 0) by {
        lemma_mul_basics(w as int);
    }
    lemma2_to64();
    lemma_div_basics(s as int);
}

/// The running total of the single-point schedule over the integers: after
/// `j` of `nw` windows, with the input point standing for `px` and the
/// auxiliary point for `ax`.
pub open spec fn mul_ledger(s: nat, w: nat, nw: nat, j: nat, px: int, ax: int) -> int
    decreases j,
{
    if j == 0 {
        0
    } else {
        mul_ledger(s, w, nw, (j - 1) as nat, px, ax) * pow2(w) + (ax + wdigit(
            s,
            w,
            (nw - j) as nat,
        ) * px)
    }
}

/// After `j` windows the single-point schedule holds exactly the prefix of
/// the scalar times the point, plus the Horner coefficient times the
/// auxiliary point.
pub proof fn lemma_mul_ledger_prefix(s: nat, w: nat, nw: nat, j: nat, px: int, ax: int)
    requires
        w >= 1,
        j <= nw,
        s < pow2(w * nw),
    ensures
        mul_ledger(s, w, nw, j, px, ax) == wprefix(s, w, nw, j) * px + aux_coeff(w, j) * ax,
    decreases j,
{
    if j == 0 {
        lemma_wprefix_ends(s, w, nw);
        lemma_mul_basics(px);
        lemma_mul_basics(ax);
        assert(wprefix(s, w, nw, 0) * px == 0) by {
            lemma_wprefix_ends(s, w, nw);
            lemma_mul_is_commutative(wprefix(s, w, nw, 0) as int, px);
            lemma_mul_basics(wprefix(s, w, nw, 0) as int);
        }
    } else {
        let jm = (j - 1) as nat;
        lemma_mul_ledger_prefix(s, w, nw, jm, px, ax);
        lemma_wprefix_step(s, w, nw, j);
        let p0 = wprefix(s, w, nw, jm) as int;
        let c0 = aux_coeff(w, jm) as int;
        let d = wdigit(s, w, (nw - j) as nat) as int;
        let hi = pow2(w) as int;
        calc! {
            (==)
            mul_ledger(s, w, nw, j, px, ax); {}
            (p0 * px + c0 * ax) * hi + (ax + d * px); {
                lemma_mul_is_distributive_add_other_way(hi, p0 * px, c0 * ax);
            }
            (p0 * px) * hi + (c0 * ax) * hi + ax + d * px; {
                lemma_mul_is_associative(p0, px, hi);
                lemma_mul_is_commutative(px, hi);
                lemma_mul_is_associative(p0, hi, px);
            }
            (p0 * hi) * px + (c0 * ax) * hi + ax + d * px; {
                lemma_mul_is_associative(c0, ax, hi);
                lemma_mul_is_commutative(ax, hi);
                lemma_mul_is_associative(c0, hi, ax);
            }
            (p0 * hi) * px + (c0 * hi) * ax + ax + d * px; {
                lemma_mul_is_distributive_add_other_way(px, p0 * hi, d);
                lemma_mul_is_distributive_add_other_way(ax, c0 * hi, 1);
                lemma_mul_basics(ax);
            }
            (p0 * hi + d) * px + (c0 * hi + 1) * ax;
        }
    }
}

/// The single-point schedule law: run over the integers, the whole schedule
/// yields the scalar times the point plus `aux_coeff` copies of the
/// auxiliary point, so subtracting `aux_coeff(w, nw) * ax` afterwards leaves
/// exactly `s * px`.
pub proof fn lemma_mul_ledger_total(s: nat, w: nat, nw: nat, px: int, ax: int)
    requires
        w >= 1,
        s < pow2(w * nw),
    ensures
        mul_ledger(s, w, nw, nw, px, ax) == s * px + aux_coeff(w, nw) * ax,
{
    lemma_mul_ledger_prefix(s, w, nw, nw, px, ax);
    lemma_wprefix_ends(s, w, nw);
}

/// The running total of the batched schedule over the integers: `j` of `nw`
/// windows processed, scalars `ss`, points standing for the integers `ps`,
/// pair `i` carrying `2^i` copies of the auxiliary point.
pub open spec fn batch_window_term(ss: Seq<nat>, ps: Seq<int>, w: nat, t: nat, ax: int, i: nat) -> int
    decreases i,
{
    if i == 0 {
        0
    } else {
        batch_window_term(ss, ps, w, t, ax, (i - 1) as nat) + pow2((i - 1) as nat) * ax + wdigit(
            ss[i - 1],
            w,
            t,
        ) * ps[i - 1]
    }
}

/// The batched ledger over all pairs.
pub open spec fn batch_ledger(ss: Seq<nat>, ps: Seq<int>, w: nat, nw: nat, j: nat, ax: int) -> int
    decreases j,
{
    if j == 0 {
        0
    } else {
        batch_ledger(ss, ps, w, nw, (j - 1) as nat, ax) * pow2(w) + batch_window_term(
            ss,
            ps,
            w,
            (nw - j) as nat,
            ax,
            ss.len(),
        )
    }
}

/// Sum of the scalar-times-point products over the first `i` pairs.
pub open spec fn pairs_total(ss: Seq<nat>, ps: Seq<int>, i: nat) -> int
    decreases i,
{
    if i == 0 {
        0
    } else {
        pairs_total(ss, ps, (i - 1) as nat) + ss[i - 1] * ps[i - 1]
    }
}

/// A window term of the batch is the sum of the per-pair single ledger
/// steps; the batch ledger is the sum of the per-pair single ledgers.
proof fn lemma_batch_ledger_split(ss: Seq<nat>, ps: Seq<int>, w: nat, nw: nat, j: nat, ax: int, i: nat)
    requires
        w >= 1,
        j <= nw,
        i <= ss.len(),
        ps.len() == ss.len(),
    ensures
        batch_ledger_upto(ss, ps, w, nw, j, ax, i) == single_sum(ss, ps, w, nw, j, ax, i),
    decreases j,
{
    if j == 0 {
        lemma_single_sum_zero(ss, ps, w, nw, ax, i);
    } else {
        lemma_batch_ledger_split(ss, ps, w, nw, (j - 1) as nat, ax, i);
        lemma_single_sum_step(ss, ps, w, nw, j, ax, i);
    }
}

/// With no window processed, every per-pair ledger is empty.
proof fn lemma_single_sum_zero(ss: Seq<nat>, ps: Seq<int>, w: nat, nw: nat, ax: int, i: nat)
    ensures
        single_sum(ss, ps, w, nw, 0, ax, i) == 0,
    decreases i,
{
    if i > 0 {
        lemma_single_sum_zero(ss, ps, w, nw, ax, (i - 1) as nat);
    }
}

/// The batch ledger restricted to the first `i` pairs.
pub open spec fn batch_ledger_upto(ss: Seq<nat>, ps: Seq<int>, w: nat, nw: nat, j: nat, ax: int, i: nat) -> int
    decreases j,
{
    if j == 0 {
        0
    } else {
        batch_ledger_upto(ss, ps, w, nw, (j - 1) as nat, ax, i) * pow2(w) + batch_window_term(
            ss,
            ps,
            w,
            (nw - j) as nat,
            ax,
            i,
        )
    }
}

/// Sum over the first `i` pairs of the per-pair single-point ledgers, each
/// pair using `2^i` copies of the auxiliary point.
pub open spec fn single_sum(ss: Seq<nat>, ps: Seq<int>, w: nat, nw: nat, j: nat, ax: int, i: nat) -> int
    decreases i,
{
    if i == 0 {
        0
    } else {
        single_sum(ss, ps, w, nw, j, ax, (i - 1) as nat) + mul_ledger(
            ss[i - 1],
            w,
            nw,
            j,
            ps[i - 1],
            pow2((i - 1) as nat) * ax,
        )
    }
}

/// One window step commutes with summing over pairs.
proof fn lemma_single_sum_step(ss: Seq<nat>, ps: Seq<int>, w: nat, nw: nat, j: nat, ax: int, i: nat)
    requires
        w >= 1,
        1 <= j <= nw,
        i <= ss.len(),
        ps.len() == ss.len(),
    ensures
        single_sum(ss, ps, w, nw, j, ax, i) == single_sum(ss, ps, w, nw, (j - 1) as nat, ax, i)
            * pow2(w) + batch_window_term(ss, ps, w, (nw - j) as nat, ax, i),
    decreases i,
{
    if i == 0 {
        lemma_mul_basics(pow2(w) as int);
        assert(0 * pow2(w) == 0) by {
            lemma_mul_is_commutative(0, pow2(w) as int);
        }
    } else {
        lemma_single_sum_step(ss, ps, w, nw, j, ax, (i - 1) as nat);
        let a = single_sum(ss, ps, w, nw, (j - 1) as nat, ax, (i - 1) as nat);
        let b = mul_ledger(ss[i - 1], w, nw, (j - 1) as nat, ps[i - 1], pow2((i - 1) as nat) * ax);
        let hi = pow2(w) as int;
        lemma_mul_is_distributive_add_other_way(hi, a, b);
    }
}

/// The batched schedule law: over the integers, the whole batched schedule
/// yields the sum of all scalar-point products plus `schedule_aux_coeff`
/// copies of the auxiliary point, so subtracting that multiple afterwards
/// leaves exactly the multi-scalar total.
pub proof fn lemma_batch_ledger_total(ss: Seq<nat>, ps: Seq<int>, w: nat, nw: nat, ax: int)
    requires
        w >= 1,
        ps.len() == ss.len(),
        forall|i: int| 0 <= i < ss.len() ==> ss[i] < pow2(w * nw),
    ensures
        batch_ledger(ss, ps, w, nw, nw, ax) == pairs_total(ss, ps, ss.len()) + schedule_aux_coeff(
            w,
            nw,
            ss.len(),
        ) * ax,
{
    let np = ss.len();
    lemma_batch_equals_upto(ss, ps, w, nw, nw, ax);
    lemma_batch_ledger_split(ss, ps, w, nw, nw, ax, np);
    lemma_single_sum_total(ss, ps, w, nw, ax, np);
}

/// `batch_ledger` is `batch_ledger_upto` taken over every pair.
proof fn lemma_batch_equals_upto(ss: Seq<nat>, ps: Seq<int>, w: nat, nw: nat, j: nat, ax: int)
    requires
        j <= nw,
    ensures
        batch_ledger(ss, ps, w, nw, j, ax) == batch_ledger_upto(ss, ps, w, nw, j, ax, ss.len()),
    decreases j,
{
    if j > 0 {
        lemma_batch_equals_upto(ss, ps, w, nw, (j - 1) as nat, ax);
    }
}

/// Closing the sum of single ledgers: each pair contributes its own product
/// and `aux_coeff * 2^i` auxiliary copies; the powers of two add up to
/// `2^np - 1`.
proof fn lemma_single_sum_total(ss: Seq<nat>, ps: Seq<int>, w: nat, nw: nat, ax: int, i: nat)
    requires
        w >= 1,
        i <= ss.len(),
        ps.len() == ss.len(),
        forall|k: int| 0 <= k < ss.len() ==> ss[k] < pow2(w * nw),
    ensures
        single_sum(ss, ps, w, nw, nw, ax, i) == pairs_total(ss, ps, i) + (aux_coeff(w, nw) * ((
        pow2(i) - 1) as nat)) * ax,
    decreases i,
{
    let c = aux_coeff(w, nw) as int;
    if i == 0 {
        lemma2_to64();
        assert(c * 0 == 0) by {
            lemma_mul_basics(c);
        }
        assert(0 * ax == 0) by {
            lemma_mul_is_commutative(0, ax);
        }
    } else {
        lemma_single_sum_total(ss, ps, w, nw, ax, (i - 1) as nat);
        lemma_mul_ledger_total(ss[i - 1] as nat, w, nw, ps[i - 1], pow2((i - 1) as nat) * ax);
        lemma_pow2_pos((i - 1) as nat);
        lemma_pow2_pos(i);
        // 2^(i-1) + (2^(i-1) - 1) == 2^i - 1
        assert(pow2(i) == 2 * pow2((i - 1) as nat)) by {
            lemma_pow2_adds(1, (i - 1) as nat);
            lemma2_to64();
        }
        calc! {
            (==)
            single_sum(ss, ps, w, nw, nw, ax, i); {}
            pairs_total(ss, ps, (i - 1) as nat) + (c * ((pow2((i - 1) as nat) - 1) as nat)) * ax + (
            ss[i - 1] * ps[i - 1] + c * (pow2((i - 1) as nat) * ax)); {
                lemma_mul_is_associative(c, pow2((i - 1) as nat) as int, ax);
            }
            pairs_total(ss, ps, i) + (c * (pow2((i - 1) as nat) - 1)) * ax + (c * pow2(
                (i - 1) as nat,
            )) * ax; {
                lemma_mul_is_distributive_add_other_way(
                    ax,
                    c * (pow2((i - 1) as nat) - 1),
                    c * pow2((i - 1) as nat),
                );
            }
            pairs_total(ss, ps, i) + (c * (pow2((i - 1) as nat) - 1) + c * pow2((i - 1) as nat))
                * ax; {
                lemma_mul_is_distributive_add(
                    c,
                    pow2((i - 1) as nat) - 1,
                    pow2((i - 1) as nat) as int,
                );
            }
            pairs_total(ss, ps, i) + (c * ((pow2(i) - 1) as nat)) * ax;
        }
    }
}

/// `aux_coeff` reduced modulo the scalar-field order, computed a window at
/// a time.
pub fn aux_coeff_mod(order: u64, w: u64, nw: u64) -> (r: u64)
    requires
        order >= 2,
    ensures
        r == aux_coeff(w as nat, nw as nat) as int % order as int,
        r < order,
{
    let t = pow2_mod(order, w);
    let mut k: u64 = 0;
    let mut j: u64 = 0;
    proof {
        lemma_small_mod(0, order as nat);
    }
    while j < nw
        invariant
            order >= 2,
            j <= nw,
            t == pow2(w as nat) as int % order as int,
            k == aux_coeff(w as nat, j as nat) as int % order as int,
            k < order,
        decreases nw - j,
    {
        let km = mul_mod(k, t, order);
        let k2 = add_mod(km, 1 % order, order);
        proof {
            let oi = order as int;
            let c0 = aux_coeff(w as nat, j as nat) as int;
            let hi = pow2(w as nat) as int;
            assert(km == (c0 * hi) % oi) by {
                lemma_mul_mod_noop_general(c0, hi, oi);
            }
            assert(k2 == (c0 * hi + 1) % oi) by {
                lemma_add_mod_noop(c0 * hi, 1, oi);
                lemma_mod_twice((c0 * hi) % oi + 1int % oi, oi);
                lemma_add_mod_noop((c0 * hi) % oi, 1, oi);
                lemma_mod_twice(c0 * hi, oi);
                lemma_mod_twice(1, oi);
            }
        }
        k = k2;
        j = j + 1;
    }
    k
}

/// `2^e` reduced modulo `order`, by repeated doubling.
pub fn pow2_mod(order: u64, e: u64) -> (r: u64)
    requires
        order >= 2,
    ensures
        r == pow2(e as nat) as int % order as int,
        r < order,
{
    let mut t: u64 = 1 % order;
    let mut i: u64 = 0;
    proof {
        lemma2_to64();
    }
    while i < e
        invariant
            order >= 2,
            i <= e,
            t == pow2(i as nat) as int % order as int,
            t < order,
        decreases e - i,
    {
        let t2 = add_mod(t, t, order);
        proof {
            let oi = order as int;
            let pi = pow2(i as nat) as int;
            assert(pow2((i + 1) as nat) == 2 * pow2(i as nat)) by {
                lemma_pow2_adds(1, i as nat);
                lemma2_to64();
            }
            assert(t2 == (pi + pi) % oi) by {
                lemma_add_mod_noop(pi, pi, oi);
                lemma_mod_twice(pi % oi + pi % oi, oi);
                lemma_add_mod_noop(pi % oi, pi % oi, oi);
                lemma_mod_twice(pi, oi);
            }
        }
        t = t2;
        i = i + 1;
    }
    t
}

/// The scalar by which the auxiliary generator is multiplied to obtain the
/// registered "to subtract" point: minus the whole schedule's auxiliary
/// coefficient, reduced into the scalar field.
pub fn sub_aux_scalar(order: u64, w: u64, nw: u64, np: u64) -> (r: u64)
    requires
        order >= 2,
    ensures
        r == fneg(order as int, schedule_aux_coeff(w as nat, nw as nat, np as nat) as int),
        r < order,
{
    let oi: Ghost<int> = Ghost(order as int);
    let k = aux_coeff_mod(order, w, nw);
    let u = pow2_mod(order, np);
    let m = sub_mod(u, 1 % order, order);
    let c = mul_mod(k, m, order);
    let r = crate::modular::neg_mod(c, order);
    proof {
        let ci = aux_coeff(w as nat, nw as nat) as int;
        let pi = pow2(np as nat) as int;
        lemma_pow2_pos(np as nat);
        assert(m == (pi - 1) % oi@) by {
            lemma_sub_mod_noop(pi, 1, oi@);
            lemma_mod_twice(pi % oi@ - 1int % oi@, oi@);
            lemma_sub_mod_noop(pi % oi@, 1int % oi@, oi@);
            lemma_mod_twice(pi, oi@);
            lemma_mod_twice(1, oi@);
        }
        assert(c == (ci * (pi - 1)) % oi@) by {
            lemma_mul_mod_noop_general(ci, pi - 1, oi@);
        }
        assert(r == fneg(oi@, schedule_aux_coeff(w as nat, nw as nat, np as nat) as int)) by {
            lemma_mod_neg_sub(oi@, ci * (pi - 1));
        }
    }
    r
}

/// Negation modulo `m` ignores prior reduction of its argument.
pub proof fn lemma_mod_neg_sub(m: int, x: int)
    requires
        m >= 1,
    ensures
        (0 - (x % m)) % m == (0 - x) % m,
{
    lemma_sub_mod_noop(0, x, m);
    lemma_sub_mod_noop(0, x % m, m);
    lemma_mod_twice(x, m);
    lemma_small_mod(0, m as nat);
    lemma_mod_twice(0 - x % m, m);
    lemma_mod_twice(0 - x, m);
}

} // verus!

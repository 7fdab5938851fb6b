//! Windowed scalar multiplication: scalar decomposition, padding and
//! windowing of the bit string, the balanced multiplexer tree that selects
//! a table entry per window, the incremental lookup table, and the single-
//! and multi-scalar schedules built from them.

use vstd::prelude::*;
use vstd::arithmetic::div_mod::{lemma_fundamental_div_mod, lemma_mod_bound, lemma_small_mod,
    lemma_div_denominator, lemma_div_basics, lemma_mod_breakdown, lemma_basic_div};
use vstd::arithmetic::mul::{lemma_mul_basics, lemma_mul_is_commutative, lemma_mul_inequality,
    lemma_mul_is_distributive_add, lemma_mul_is_distributive_add_other_way,
    lemma_mul_is_associative, lemma_mul_strict_inequality};
use vstd::arithmetic::power2::{pow2, lemma_pow2_pos, lemma_pow2_adds, lemma2_to64,
    lemma_pow2_strictly_increases};
use vstd::bits::lemma_usize_shl_is_mul;
use crate::params::CurveParams;
use crate::point::AssignedPoint;
use crate::incomplete::{padd, pdouble, pdouble_n, pladder};
use crate::base_field_ecc::BaseFieldEccChip;
use crate::schedule::{wdigit, window_count};
use crate::errors::Error;

verus! {

/// Bit `i` of `s`, least significant first.
pub open spec fn bit_of(s: nat, i: nat) -> bool {
    (s / pow2(i)) % 2 == 1
}

/// The value of the first `i` bits of a selector, least significant first.
pub open spec fn sel_val(s: Seq<bool>, i: nat) -> nat
    decreases i,
{
    if i == 0 {
        0
    } else {
        sel_val(s, (i - 1) as nat) + (if s[i - 1] {
            pow2((i - 1) as nat)
        } else {
            0
        })
    }
}

/// A selector holding the bits of `s / 2^e` selects exactly the window
/// value `(s / 2^e) % 2^w`.
pub proof fn lemma_sel_val_digit(q: Seq<bool>, s: nat, e: nat, w: nat)
    requires
        q.len() >= w,
        forall|t: int| 0 <= t < w ==> q[t] == bit_of(s, (e + t) as nat),
    ensures
        sel_val(q, w) == (s / pow2(e)) % pow2(w),
    decreases w,
{
    let x = s / pow2(e);
    lemma_pow2_pos(e);
    lemma_pow2_pos(w);
    if w == 0 {
        lemma2_to64();
        lemma_mod_bound(x as int, 1);
    } else {
        let wm = (w - 1) as nat;
        lemma_sel_val_digit(q, s, e, wm);
        lemma_pow2_pos(wm);
        // x % 2^w splits into the low w-1 bits plus bit w-1
        lemma_mod_breakdown(x as int, pow2(wm) as int, 2);
        lemma_pow2_adds(wm, 1);
        lemma2_to64();
        assert(x % pow2(w) == pow2(wm) * ((x / pow2(wm)) % 2) + x % pow2(wm)) by {
            assert(pow2(w) == pow2(wm) * 2);
        }
        // bit w-1 of the window is bit e+w-1 of s
        assert((x / pow2(wm)) % 2 == (if bit_of(s, e + wm) {
            1nat
        } else {
            0nat
        })) by {
            lemma_div_denominator(s as int, pow2(e) as int, pow2(wm) as int);
            lemma_pow2_adds(e, wm);
            lemma_mod_bound((s / pow2(e + wm)) as int, 2);
        }
        assert(q[wm as int] == bit_of(s, e + wm));
        assert(pow2(wm) * ((x / pow2(wm)) % 2) == (if q[wm as int] {
            pow2(wm)
        } else {
            0nat
        })) by {
            lemma_mul_basics(pow2(wm) as int);
        }
    }
}

/// The bits of a scalar, least significant first, over the scalar field's
/// full bit length.
pub fn decompose_bits(scalar: u64, num_bits: u64) -> (r: Vec<bool>)
    requires
        num_bits <= 64,
    ensures
        r@.len() == num_bits,
        forall|i: int| 0 <= i < num_bits ==> r@[i] == bit_of(scalar as nat, i as nat),
{
    let mut out: Vec<bool> = Vec::new();
    let mut cur: u64 = scalar;
    let mut i: u64 = 0;
    proof {
        lemma2_to64();
        lemma_div_basics(scalar as int);
    }
    while i < num_bits
        invariant
            i <= num_bits,
            out@.len() == i,
            cur == scalar as nat / pow2(i as nat),
            forall|j: int| 0 <= j < i ==> out@[j] == bit_of(scalar as nat, j as nat),
        decreases num_bits - i,
    {
        proof {
            lemma_pow2_pos(i as nat);
            lemma_div_denominator(scalar as int, pow2(i as nat) as int, 2);
            lemma_pow2_adds(i as nat, 1);
            lemma2_to64();
        }
        let b = cur % 2 == 1;
        out.push(b);
        cur = cur / 2;
        i = i + 1;
    }
    out
}

/// Pads the bit string with leading zeros to a whole number of windows and
/// reverses it, most-significant bit first.
pub fn pad_bits(bits: &mut Vec<bool>, window_size: usize)
    requires
        1 <= window_size,
    ensures
        final(bits)@.len() == window_count(old(bits)@.len(), window_size as nat) * (
        window_size as nat),
        forall|i: int|
            0 <= i < final(bits)@.len() ==> final(bits)@[i] == (if final(bits)@.len() - 1 - i < old(
                bits,
            )@.len() {
                old(bits)@[final(bits)@.len() - 1 - i]
            } else {
                false
            }),
{
    let len = bits.len();
    let padding_offset = (window_size - (len % window_size)) % window_size;
    let mut k: usize = 0;
    while k < padding_offset
        invariant
            k <= padding_offset,
            bits@.len() == old(bits)@.len() + k,
            forall|j: int| 0 <= j < old(bits)@.len() ==> bits@[j] == old(bits)@[j],
            forall|j: int| old(bits)@.len() <= j < bits@.len() ==> bits@[j] == false,
        decreases padding_offset - k,
    {
        bits.push(false);
        k = k + 1;
    }
    proof {
        let l = old(bits)@.len() as int;
        let w = window_size as int;
        lemma_fundamental_div_mod(l, w);
        lemma_mod_bound(l, w);
        lemma_fundamental_div_mod(l + w - 1, w);
        lemma_mod_bound(l + w - 1, w);
        let q = l / w;
        let rr = l % w;
        if rr == 0 {
            assert((w - rr) % w == 0) by {
                vstd::arithmetic::div_mod::lemma_mod_self_0(w);
            }
            assert((l + w - 1) / w == q) by {
                lemma_mul_is_commutative(w, q);
                lemma_fundamental_div_mod_converse_pos(l + w - 1, w, q, w - 1);
            }
        } else {
            assert((w - rr) % w == w - rr) by {
                lemma_small_mod((w - rr) as nat, w as nat);
            }
            assert((l + w - 1) / w == q + 1) by {
                lemma_mul_is_commutative(w, q);
                lemma_mul_is_commutative(w, q + 1);
                lemma_mul_is_distributive_add_other_way(w, q, 1);
                lemma_mul_basics(w);
                lemma_fundamental_div_mod_converse_pos(l + w - 1, w, q + 1, rr - 1);
            }
        }
        assert(bits@.len() == window_count(old(bits)@.len(), window_size as nat) * (
        window_size as nat)) by {
            lemma_mul_is_commutative(w, (l + w - 1) / w);
            lemma_mul_is_distributive_add(w, q, 1);
            lemma_mul_basics(w);
        }
    }
    reverse_bits(bits);
}

/// Reverses a bit vector in place (by rebuilding it back to front).
fn reverse_bits(bits: &mut Vec<bool>)
    ensures
        final(bits)@.len() == old(bits)@.len(),
        forall|i: int|
            0 <= i < final(bits)@.len() ==> final(bits)@[i] == old(bits)@[final(bits)@.len() - 1
                - i],
{
    let n = bits.len();
    let mut out: Vec<bool> = Vec::new();
    let mut i: usize = 0;
    while i < n
        invariant
            n == bits@.len(),
            bits@ == old(bits)@,
            i <= n,
            out@.len() == i,
            forall|j: int| 0 <= j < i ==> out@[j] == bits@[n - 1 - j],
        decreases n - i,
    {
        let v = bits[n - 1 - i];
        out.push(v);
        i = i + 1;
    }
    *bits = out;
}

/// The division/remainder pair determines the quotient, for non-negative
/// remainders below the divisor.
proof fn lemma_fundamental_div_mod_converse_pos(x: int, d: int, q: int, r: int)
    requires
        d > 0,
        0 <= r < d,
        x == q * d + r,
    ensures
        x / d == q,
        x % d == r,
{
    vstd::arithmetic::div_mod::lemma_fundamental_div_mod_converse(x, d, q, r);
}

/// Cuts a padded, most-significant-first bit string into selectors of
/// `window_size` bits each; within one selector the least significant bit
/// comes first.
pub fn window_bits(bits: Vec<bool>, window_size: usize) -> (r: Vec<Vec<bool>>)
    requires
        1 <= window_size,
        bits@.len() % (window_size as nat) == 0,
    ensures
        r@.len() * (window_size as nat) == bits@.len(),
        forall|j: int| 0 <= j < r@.len() ==> (#[trigger] r@[j])@.len() == window_size,
        forall|j: int, t: int|
            0 <= j < r@.len() && 0 <= t < window_size ==> #[trigger] r@[j]@[t] == bits@[j
                * (window_size as int) + (window_size as int) - 1 - t],
{
    let number_of_windows = bits.len() / window_size;
    proof {
        lemma_fundamental_div_mod(bits@.len() as int, window_size as int);
        lemma_mul_is_commutative(window_size as int, (bits@.len() as int) / (window_size as int));
    }
    let mut out: Vec<Vec<bool>> = Vec::new();
    let mut j: usize = 0;
    while j < number_of_windows
        invariant
            number_of_windows * (window_size as nat) == bits@.len(),
            bits@.len() <= usize::MAX,
            1 <= window_size,
            j <= number_of_windows,
            out@.len() == j,
            forall|j2: int| 0 <= j2 < j ==> (#[trigger] out@[j2])@.len() == window_size,
            forall|j2: int, t: int|
                0 <= j2 < j && 0 <= t < window_size ==> #[trigger] out@[j2]@[t] == bits@[j2
                    * (window_size as int) + (window_size as int) - 1 - t],
        decreases number_of_windows - j,
    {
        let mut sel: Vec<bool> = Vec::new();
        let mut t: usize = 0;
        proof {
            assert((j + 1) * (window_size as int) <= number_of_windows * (window_size as int))
                by {
                lemma_mul_inequality(j as int + 1, number_of_windows as int, window_size as int);
            }
            assert(j * (window_size as int) + (window_size as int) == (j + 1) * (
            window_size as int)) by {
                lemma_mul_is_distributive_add_other_way(window_size as int, j as int, 1);
                lemma_mul_basics(window_size as int);
            }
        }
        while t < window_size
            invariant
                number_of_windows * (window_size as nat) == bits@.len(),
                bits@.len() <= usize::MAX,
                1 <= window_size,
                j < number_of_windows,
                j * (window_size as int) + (window_size as int) <= bits@.len(),
                t <= window_size,
                sel@.len() == t,
                forall|t2: int|
                    0 <= t2 < t ==> sel@[t2] == bits@[j * (window_size as int) + (
                    window_size as int) - 1 - t2],
            decreases window_size - t,
        {
            let v = bits[j * window_size + window_size - 1 - t];
            sel.push(v);
            t = t + 1;
        }
        out.push(sel);
        j = j + 1;
    }
    out
}

/// The chain of table entries: entry `i` is the auxiliary seed plus `i`
/// incomplete additions of the point.
pub open spec fn ptable(c: CurveParams, seed: AssignedPoint, point: AssignedPoint, i: nat) -> Option<
    AssignedPoint,
>
    decreases i,
{
    if i == 0 {
        Some(seed)
    } else {
        match ptable(c, seed, point, (i - 1) as nat) {
            Some(t) => padd(c, t, point),
            None => None,
        }
    }
}

/// Once the table chain has failed it stays failed.
pub proof fn lemma_ptable_stays_none(
    c: CurveParams,
    seed: AssignedPoint,
    point: AssignedPoint,
    k1: nat,
    k2: nat,
)
    requires
        k1 <= k2,
        ptable(c, seed, point, k1) is None,
    ensures
        ptable(c, seed, point, k2) is None,
    decreases k2 - k1,
{
    if k1 < k2 {
        lemma_ptable_stays_none(c, seed, point, k1, (k2 - 1) as nat);
    }
}

impl BaseFieldEccChip {
    /// Builds the lookup table of `2^window_size` entries: the auxiliary
    /// seed, then one more incomplete addition of the point per entry.
    pub fn make_incremental_table(
        &self,
        seed: &AssignedPoint,
        point: &AssignedPoint,
        window_size: usize,
    ) -> (r: Result<Vec<AssignedPoint>, Error>)
        requires
            self.wf(),
            seed.wf(self.params),
            point.wf(self.params),
            1 <= window_size <= 31,
        ensures
            (r is Ok) <==> (forall|i: int|
                0 <= i < pow2(window_size as nat) ==> (#[trigger] ptable(
                    self.params,
                    *seed,
                    *point,
                    i as nat,
                )) is Some),
            r matches Ok(tbl) ==> tbl@.len() == pow2(window_size as nat) && (forall|i: int|
                0 <= i < tbl@.len() ==> Some(#[trigger] tbl@[i]) == ptable(
                    self.params,
                    *seed,
                    *point,
                    i as nat,
                ) && tbl@[i].wf(self.params)),
            r matches Err(e) ==> e == Error::Unsatisfied,
    {
        proof {
            lemma2_to64();
            if (window_size as nat) < 31 {
                lemma_pow2_strictly_increases(window_size as nat, 31);
            }
            assert(usize::MAX >= 0xffff_ffffusize);
            assert(1usize * pow2(window_size as nat) <= usize::MAX) by {
                lemma_mul_basics(pow2(window_size as nat) as int);
            }
            lemma_usize_shl_is_mul(1usize, window_size);
            lemma_mul_basics(pow2(window_size as nat) as int);
        }
        let table_size: usize = 1usize << window_size;
        let mut table: Vec<AssignedPoint> = Vec::new();
        table.push(*seed);
        let mut i: usize = 0;
        while i < table_size - 1
            invariant
                self.wf(),
                seed.wf(self.params),
                point.wf(self.params),
                table_size == pow2(window_size as nat),
                i <= table_size - 1,
                table@.len() == i + 1,
                forall|k: int|
                    0 <= k < table@.len() ==> Some(#[trigger] table@[k]) == ptable(
                        self.params,
                        *seed,
                        *point,
                        k as nat,
                    ) && table@[k].wf(self.params),
            decreases table_size - i,
        {
            let last = table[i];
            match crate::incomplete::add_incomplete(&self.params, &last, point) {
                Ok(q) => {
                    table.push(q);
                },
                Err(e) => {
                    proof {
                        assert(ptable(self.params, *seed, *point, (i + 1) as nat) is None);
                        lemma_ptable_stays_none(
                            self.params,
                            *seed,
                            *point,
                            (i + 1) as nat,
                            (pow2(window_size as nat) - 1) as nat,
                        );
                    }
                    return Err(e);
                },
            }
            i = i + 1;
        }
        proof {
            assert forall|t: int| 0 <= t < pow2(window_size as nat) implies (#[trigger] ptable(
                self.params,
                *seed,
                *point,
                t as nat,
            )) is Some by {
                assert(Some(table@[t]) == ptable(self.params, *seed, *point, t as nat));
            }
        }
        Ok(table)
    }

    /// Selects, by a balanced tree of conditional selections, the table
    /// entry whose index the selector bits spell out.
    pub fn select_multi(&self, selector: &Vec<bool>, table: &Vec<AssignedPoint>) -> (r: Result<
        AssignedPoint,
        Error,
    >)
        requires
            self.wf(),
            1 <= selector@.len() <= 31,
            table@.len() == pow2(selector@.len()),
        ensures
            r == Ok::<AssignedPoint, Error>(
                table@[sel_val(selector@, selector@.len()) as int],
            ),
    {
        let k = selector.len();
        let tlen = table.len();
        let mut reducer: Vec<AssignedPoint> = Vec::new();
        let mut c0: usize = 0;
        while c0 < tlen
            invariant
                tlen == table@.len(),
                c0 <= tlen,
                reducer@.len() == c0,
                forall|t: int| 0 <= t < c0 ==> reducer@[t] == table@[t],
            decreases tlen - c0,
        {
            let v = table[c0];
            reducer.push(v);
            c0 = c0 + 1;
        }
        proof {
            lemma_pow2_pos(k as nat);
            lemma2_to64();
            assert forall|t: int| 0 <= t < reducer@.len() implies #[trigger] reducer@[t]
                == table@[t * pow2(0) as int + sel_val(selector@, 0) as int] by {
                lemma_mul_basics(t);
            }
        }
        let mut i: usize = 0;
        while i < k
            invariant
                self.wf(),
                1 <= k <= 31,
                k == selector@.len(),
                table@.len() == pow2(k as nat),
                i <= k,
                reducer@.len() == table@.len(),
                forall|t: int|
                    0 <= t < pow2((k - i) as nat) ==> #[trigger] reducer@[t] == table@[t * pow2(
                        i as nat,
                    ) as int + sel_val(selector@, i as nat) as int],
            decreases k - i,
        {
            proof {
                lemma2_to64();
                if ((k - 1 - i) as nat) < 31 {
                    lemma_pow2_strictly_increases((k - 1 - i) as nat, 31);
                }
                assert(usize::MAX >= 0xffff_ffffusize);
                assert(1usize * pow2((k - 1 - i) as nat) <= usize::MAX) by {
                    lemma_mul_basics(pow2((k - 1 - i) as nat) as int);
                }
                lemma_usize_shl_is_mul(1usize, (k - 1 - i) as usize);
                lemma_mul_basics(pow2((k - 1 - i) as nat) as int);
            }
            let n: usize = 1usize << (k - 1 - i);
            let sbit = selector[i];
            let mut j: usize = 0;
            while j < n
                invariant
                    self.wf(),
                    1 <= k <= 31,
                    k == selector@.len(),
                    i < k,
                    table@.len() == pow2(k as nat),
                    n == pow2((k - 1 - i) as nat),
                    sbit == selector@[i as int],
                    j <= n,
                    reducer@.len() == table@.len(),
                    forall|t: int|
                        j <= t < pow2((k - i) as nat) ==> #[trigger] reducer@[t] == table@[t
                            * pow2(i as nat) as int + sel_val(selector@, i as nat) as int],
                    forall|t: int|
                        0 <= t < j ==> #[trigger] reducer@[t] == table@[t * pow2(
                            (i + 1) as nat,
                        ) as int + sel_val(selector@, (i + 1) as nat) as int],
                decreases n - j,
            {
                proof {
                    lemma_pow2_adds((k - 1 - i) as nat, 1);
                    lemma2_to64();
                    assert(2 * j + 1 < pow2((k - i) as nat));
                    if i > 0 {
                        lemma_pow2_strictly_increases((k - i) as nat, k as nat);
                    }
                    lemma_select_step(selector@, table@, i as nat, j as int, k as nat);
                }
                let picked = if sbit {
                    reducer[2 * j + 1]
                } else {
                    reducer[2 * j]
                };
                reducer[j] = picked;
                j = j + 1;
            }
            proof {
                lemma_pow2_adds((k - 1 - i) as nat, 1);
                lemma2_to64();
            }
            i = i + 1;
        }
        proof {
            assert(pow2(0) == 1) by {
                lemma2_to64();
            }
            assert(reducer@[0] == table@[0 * pow2(k as nat) as int + sel_val(
                selector@,
                k as nat,
            ) as int]);
            assert(0 * pow2(k as nat) as int == 0) by {
                lemma_mul_basics(pow2(k as nat) as int);
            }
        }
        let out = reducer[0];
        Ok(out)
    }
}

/// The accumulator of the single-point schedule after `j` of `nw` windows,
/// digits taken most-significant window first: one table selection, then
/// `w` doublings and an addition for the second window, then `w - 1`
/// doublings and a ladder for each later window.
pub open spec fn mul_acc(
    c: CurveParams,
    seed: AssignedPoint,
    point: AssignedPoint,
    s: nat,
    w: nat,
    nw: nat,
    j: nat,
) -> Option<AssignedPoint>
    decreases j,
{
    if j == 0 {
        None
    } else if j == 1 {
        ptable(c, seed, point, wdigit(s, w, (nw - 1) as nat))
    } else if j == 2 {
        match mul_acc(c, seed, point, s, w, nw, 1) {
            Some(a) => match pdouble_n(c, a, w) {
                Some(b) => match ptable(c, seed, point, wdigit(s, w, (nw - 2) as nat)) {
                    Some(t) => padd(c, b, t),
                    None => None,
                },
                None => None,
            },
            None => None,
        }
    } else {
        match mul_acc(c, seed, point, s, w, nw, (j - 1) as nat) {
            Some(a) => match pdouble_n(c, a, (w - 1) as nat) {
                Some(b) => match ptable(c, seed, point, wdigit(s, w, (nw - j) as nat)) {
                    Some(t) => pladder(c, b, t),
                    None => None,
                },
                None => None,
            },
            None => None,
        }
    }
}

/// Once the schedule has failed it stays failed.
pub proof fn lemma_mul_acc_stays_none(
    c: CurveParams,
    seed: AssignedPoint,
    point: AssignedPoint,
    s: nat,
    w: nat,
    nw: nat,
    j1: nat,
    j2: nat,
)
    requires
        1 <= j1 <= j2,
        mul_acc(c, seed, point, s, w, nw, j1) is None,
    ensures
        mul_acc(c, seed, point, s, w, nw, j2) is None,
    decreases j2 - j1,
{
    if j1 < j2 {
        lemma_mul_acc_stays_none(c, seed, point, s, w, nw, j1, (j2 - 1) as nat);
    }
}

/// The whole single-point schedule: build the table, run the windows,
/// subtract the registered auxiliary point. `None` exactly where one of
/// the incomplete operations leaves its domain.
pub open spec fn mul_windowed(
    c: CurveParams,
    s: nat,
    w: nat,
    nw: nat,
    point: AssignedPoint,
    to_add: AssignedPoint,
    to_sub: AssignedPoint,
) -> Option<AssignedPoint> {
    if exists|i: int| 0 <= i < pow2(w) && (#[trigger] ptable(c, to_add, point, i as nat)) is None {
        None
    } else {
        match mul_acc(c, to_add, point, s, w, nw, nw) {
            Some(a) => padd(c, a, to_sub),
            None => None,
        }
    }
}

/// Windows of `s` below `2^w` index into the table.
pub proof fn lemma_wdigit_bound(s: nat, w: nat, t: nat)
    ensures
        wdigit(s, w, t) < pow2(w),
    decreases 0nat,
{
    lemma_pow2_pos(w);
    lemma_mod_bound((s / pow2(w * t)) as int, pow2(w) as int);
}

/// Bits of `s` beyond its bit length are zero.
pub proof fn lemma_bit_of_high(s: nat, bits: nat, e: nat)
    requires
        s < pow2(bits),
        e >= bits,
    ensures
        !bit_of(s, e),
{
    if e > bits {
        lemma_pow2_strictly_increases(bits, e);
    }
    lemma_pow2_pos(e);
    lemma_basic_div(s as int, pow2(e) as int);
    lemma_small_mod(0, 2);
}

impl BaseFieldEccChip {
    /// Windowed scalar multiplication: the scalar is decomposed, padded and
    /// windowed; a table seeded by the auxiliary offset is built and one
    /// entry per window is folded into the accumulator; the registered
    /// auxiliary point is subtracted at the end. The outcome is exactly the
    /// `mul_windowed` schedule over the assigned values.
    #[verifier::rlimit(100)]
    pub fn mul(&self, point: &AssignedPoint, scalar: u64, window_size: usize) -> (r: Result<
        AssignedPoint,
        Error,
    >)
        requires
            self.wf(),
            point.wf(self.params),
            1 <= window_size <= 31,
            window_count(self.params.num_bits as nat, window_size as nat) >= 2,
            scalar < pow2(self.params.num_bits as nat),
        ensures
            self.aux_generator is None ==> r == Err::<AssignedPoint, Error>(Error::Synthesis),
            self.aux_generator is Some && self.lookup_aux(window_size as int, 1) is None ==> r
                == Err::<AssignedPoint, Error>(Error::Synthesis),
            self.aux_generator matches Some(g) ==> (self.lookup_aux(window_size as int, 1)
                matches Some(sb) ==> (match mul_windowed(
                self.params,
                scalar as nat,
                window_size as nat,
                window_count(self.params.num_bits as nat, window_size as nat),
                *point,
                g,
                sb,
            ) {
                Some(q) => r == Ok::<AssignedPoint, Error>(q),
                None => r == Err::<AssignedPoint, Error>(Error::Unsatisfied),
            })),
            r matches Ok(q) ==> q.wf(self.params),
    {
        let ghost c = self.params;
        let ghost w_spec = window_size as nat;
        let ghost s_spec = scalar as nat;
        let ghost nw_spec = window_count(self.params.num_bits as nat, window_size as nat);
        let aux = match self.get_mul_aux(window_size, 1) {
            Ok(aux) => aux,
            Err(e) => {
                return Err(e);
            },
        };
        let mut decomposed = decompose_bits(scalar, self.params.num_bits);
        let ghost raw_bits = decomposed@;
        pad_bits(&mut decomposed, window_size);
        let ghost padded = decomposed@;
        proof {
            vstd::arithmetic::div_mod::lemma_mod_multiples_basic(
                window_count(self.params.num_bits as nat, window_size as nat) as int,
                window_size as int,
            );
            lemma_mul_is_commutative(
                window_count(self.params.num_bits as nat, window_size as nat) as int,
                window_size as int,
            );
        }
        let windowed = window_bits(decomposed, window_size);
        proof {
            lemma_windowed_are_digits(
                windowed@,
                padded,
                raw_bits,
                s_spec,
                self.params.num_bits as nat,
                w_spec,
                nw_spec,
            );
        }
        let table = match self.make_incremental_table(&aux.to_add, point, window_size) {
            Ok(t) => t,
            Err(e) => {
                return Err(e);
            },
        };
        let nw = windowed.len();
        proof {
            lemma_wdigit_bound(s_spec, w_spec, (nw_spec - 1) as nat);
            lemma_wdigit_bound(s_spec, w_spec, (nw_spec - 2) as nat);
        }
        let acc0 = match self.select_multi(&windowed[0], &table) {
            Ok(a) => a,
            Err(e) => {
                proof {
                    assert(false);
                }
                return Err(e);
            },
        };
        proof {
            assert(Some(acc0) == mul_acc(c, aux.to_add, *point, s_spec, w_spec, nw_spec, 1));
        }
        let acc1 = match self.double_n(&acc0, window_size) {
            Ok(a) => a,
            Err(e) => {
                proof {
                    assert(mul_acc(c, aux.to_add, *point, s_spec, w_spec, nw_spec, 2) is None);
                    lemma_mul_acc_stays_none(c, aux.to_add, *point, s_spec, w_spec, nw_spec, 2, nw_spec);
                }
                return Err(e);
            },
        };
        let t1 = match self.select_multi(&windowed[1], &table) {
            Ok(a) => a,
            Err(e) => {
                proof {
                    assert(false);
                }
                return Err(e);
            },
        };
        let mut acc = match self.add(&acc1, &t1) {
            Ok(a) => a,
            Err(e) => {
                proof {
                    assert(mul_acc(c, aux.to_add, *point, s_spec, w_spec, nw_spec, 2) is None);
                    lemma_mul_acc_stays_none(c, aux.to_add, *point, s_spec, w_spec, nw_spec, 2, nw_spec);
                }
                return Err(e);
            },
        };
        proof {
            assert(Some(acc) == mul_acc(c, aux.to_add, *point, s_spec, w_spec, nw_spec, 2));
        }
        let mut j: usize = 2;
        while j < nw
            invariant
                self.wf(),
                point.wf(self.params),
                c == self.params,
                w_spec == window_size as nat,
                s_spec == scalar as nat,
                1 <= window_size <= 31,
                2 <= nw_spec,
                nw_spec == window_count(self.params.num_bits as nat, w_spec),
                nw == nw_spec,
                nw == windowed@.len(),
                2 <= j <= nw,
                self.aux_generator == Some(aux.to_add),
                self.lookup_aux(window_size as int, 1) == Some(aux.to_sub),
                aux.to_add.wf(self.params),
                aux.to_sub.wf(self.params),
                table@.len() == pow2(w_spec),
                forall|i: int|
                    0 <= i < table@.len() ==> Some(#[trigger] table@[i]) == ptable(
                        c,
                        aux.to_add,
                        *point,
                        i as nat,
                    ) && table@[i].wf(c),
                forall|j2: int| 0 <= j2 < windowed@.len() ==> (#[trigger] windowed@[j2])@.len()
                    == w_spec,
                forall|j2: int|
                    0 <= j2 < windowed@.len() ==> sel_val(#[trigger] windowed@[j2]@, w_spec)
                        == wdigit(s_spec, w_spec, (nw_spec - 1 - j2) as nat),
                Some(acc) == mul_acc(c, aux.to_add, *point, s_spec, w_spec, nw_spec, j as nat),
                acc.wf(self.params),
            decreases nw - j,
        {
            proof {
                lemma_wdigit_bound(s_spec, w_spec, (nw_spec - 1 - j) as nat);
            }
            let dbl = match self.double_n(&acc, window_size - 1) {
                Ok(a) => a,
                Err(e) => {
                    proof {
                        assert(mul_acc(c, aux.to_add, *point, s_spec, w_spec, nw_spec, (j + 1) as nat)
                            is None);
                        lemma_mul_acc_stays_none(
                            c,
                            aux.to_add,
                            *point,
                            s_spec,
                            w_spec,
                            nw_spec,
                            (j + 1) as nat,
                            nw_spec,
                        );
                    }
                    return Err(e);
                },
            };
            let tj = match self.select_multi(&windowed[j], &table) {
                Ok(a) => a,
                Err(e) => {
                    proof {
                        assert(false);
                    }
                    return Err(e);
                },
            };
            let stepped = match self.ladder(&dbl, &tj) {
                Ok(a) => a,
                Err(e) => {
                    proof {
                        assert(mul_acc(c, aux.to_add, *point, s_spec, w_spec, nw_spec, (j + 1) as nat)
                            is None);
                        lemma_mul_acc_stays_none(
                            c,
                            aux.to_add,
                            *point,
                            s_spec,
                            w_spec,
                            nw_spec,
                            (j + 1) as nat,
                            nw_spec,
                        );
                    }
                    return Err(e);
                },
            };
            acc = stepped;
            proof {
                assert(Some(acc) == mul_acc(c, aux.to_add, *point, s_spec, w_spec, nw_spec, (j
                    + 1) as nat));
            }
            j = j + 1;
        }
        match self.add(&acc, &aux.to_sub) {
            Ok(q) => Ok(q),
            Err(e) => Err(e),
        }
    }
}

/// The selectors that padding and windowing produce spell out, least
/// significant bit first, exactly the windows of the scalar, most
/// significant window first.
proof fn lemma_windowed_are_digits(
    wnd: Seq<Vec<bool>>,
    padded: Seq<bool>,
    raw: Seq<bool>,
    s: nat,
    num_bits: nat,
    w: nat,
    nw: nat,
)
    requires
        w >= 1,
        s < pow2(num_bits),
        nw == window_count(num_bits, w),
        raw.len() == num_bits,
        forall|i: int| 0 <= i < num_bits ==> raw[i] == bit_of(s, i as nat),
        padded.len() == nw * w,
        forall|i: int|
            0 <= i < padded.len() ==> padded[i] == (if padded.len() - 1 - i < raw.len() {
                raw[padded.len() - 1 - i]
            } else {
                false
            }),
        wnd.len() * w == padded.len(),
        forall|j: int| 0 <= j < wnd.len() ==> (#[trigger] wnd[j])@.len() == w,
        forall|j: int, t: int|
            0 <= j < wnd.len() && 0 <= t < w ==> #[trigger] wnd[j]@[t] == padded[j * (w as int) + (
            w as int) - 1 - t],
    ensures
        wnd.len() == nw,
        forall|j: int|
            0 <= j < nw ==> sel_val(#[trigger] wnd[j]@, w) == wdigit(s, w, (nw - 1 - j) as nat),
{
    lemma_mul_equality_converse_pos(w as int, wnd.len() as int, nw as int);
    assert forall|j: int| 0 <= j < nw implies sel_val(#[trigger] wnd[j]@, w) == wdigit(
        s,
        w,
        (nw - 1 - j) as nat,
    ) by {
        let e = (w * (nw - 1 - j)) as nat;
        assert forall|t: int| 0 <= t < w implies wnd[j]@[t] == bit_of(s, (e + t) as nat) by {
            let idx = j * (w as int) + (w as int) - 1 - t;
            assert(0 <= idx < padded.len()) by {
                lemma_mul_inequality(j + 1, nw as int, w as int);
                lemma_mul_is_distributive_add_other_way(w as int, j, 1);
                lemma_mul_basics(w as int);
                lemma_mul_is_commutative(j, w as int);
                lemma_mul_is_commutative(nw as int, w as int);
                vstd::arithmetic::mul::lemma_mul_nonnegative(j, w as int);
            }
            assert(padded.len() - 1 - idx == e + t) by {
                lemma_mul_is_commutative(nw as int, w as int);
                lemma_mul_is_distributive_add(w as int, nw as int - 1 - j, j);
                lemma_mul_is_distributive_add_other_way(w as int, nw as int - 1 - j, j + 1);
                lemma_mul_is_distributive_add_other_way(w as int, j, 1);
                lemma_mul_basics(w as int);
                assert(w as int * (nw as int) == w as int * (nw as int - 1 - j) + w as int * (j
                    + 1)) by {
                    lemma_mul_is_distributive_add(w as int, nw as int - 1 - j, j + 1);
                }
            }
            if e + t < num_bits {
                assert(padded[idx] == raw[e + t]);
            } else {
                lemma_bit_of_high(s, num_bits, (e + t) as nat);
            }
        }
        lemma_sel_val_digit(wnd[j]@, s, e, w);
    }
}

/// Cancelling a positive common factor on the right of a product equality.
proof fn lemma_mul_equality_converse_pos(m: int, x: int, y: int)
    requires
        m > 0,
        x * m == y * m,
    ensures
        x == y,
{
    if x < y {
        lemma_mul_strict_inequality(x, y, m);
    }
    if y < x {
        lemma_mul_strict_inequality(y, x, m);
    }
}

/// Index arithmetic of one multiplexer round: the entry picked for slot `j`
/// out of the pair `(2j, 2j+1)` carries exactly the selector value extended
/// by bit `i`.
proof fn lemma_select_step(sel: Seq<bool>, table: Seq<AssignedPoint>, i: nat, j: int, k: nat)
    requires
        i < k,
        0 <= j < pow2((k - 1 - i) as nat),
    ensures
        (2 * j + 1) * pow2(i) as int + sel_val(sel, i) as int == j * pow2((i + 1) as nat) as int
            + (sel_val(sel, i) + pow2(i)) as int,
        (2 * j) * pow2(i) as int + sel_val(sel, i) as int == j * pow2((i + 1) as nat) as int
            + sel_val(sel, i) as int,
        sel_val(sel, (i + 1) as nat) == sel_val(sel, i) + (if sel[i as int] {
            pow2(i)
        } else {
            0nat
        }),
        2 * j + 1 < pow2((k - i) as nat),
{
    lemma_pow2_adds(i, 1);
    lemma_pow2_adds((k - 1 - i) as nat, 1);
    lemma2_to64();
    assert((2 * j + 1) * pow2(i) as int == 2 * j * pow2(i) as int + pow2(i)) by {
        lemma_mul_is_distributive_add_other_way(pow2(i) as int, 2 * j, 1);
        lemma_mul_basics(pow2(i) as int);
    }
    assert(2 * j * pow2(i) as int == j * (pow2(i) as int * 2)) by {
        lemma_mul_is_associative(2, j, pow2(i) as int);
        lemma_mul_is_associative(j, pow2(i) as int, 2);
        lemma_mul_is_commutative(2 * j, pow2(i) as int);
        lemma_mul_is_commutative(j, 2 * pow2(i) as int);
        lemma_mul_is_commutative(pow2(i) as int, 2);
        lemma_mul_is_associative(2, pow2(i) as int, j);
    }
    assert(pow2((i + 1) as nat) == pow2(i) * 2);
    assert(2 * j + 1 < pow2((k - i) as nat)) by {
        assert(j + 1 <= pow2((k - 1 - i) as nat));
        assert(pow2((k - i) as nat) == pow2((k - 1 - i) as nat) * 2);
    }
}

/// The chain of per-pair auxiliary seeds of the batched schedule: the
/// shared offset, doubled once more for each further pair.
pub open spec fn batch_seed(c: CurveParams, to_add: AssignedPoint, i: nat) -> Option<AssignedPoint>
    decreases i,
{
    if i == 0 {
        Some(to_add)
    } else {
        match batch_seed(c, to_add, (i - 1) as nat) {
            Some(a) => pdouble(c, a),
            None => None,
        }
    }
}

/// Entry `k` of pair `i`'s table.
pub open spec fn batch_entry(
    c: CurveParams,
    to_add: AssignedPoint,
    pairs: Seq<(AssignedPoint, u64)>,
    i: nat,
    k: nat,
) -> Option<AssignedPoint> {
    match batch_seed(c, to_add, i) {
        Some(sd) => ptable(c, sd, pairs[i as int].0, k),
        None => None,
    }
}

/// Every per-pair table of the batched schedule builds.
pub open spec fn batch_tables_ok(
    c: CurveParams,
    to_add: AssignedPoint,
    pairs: Seq<(AssignedPoint, u64)>,
    w: nat,
) -> bool {
    forall|i: nat, k: nat|
        i < pairs.len() && k < pow2(w) ==> (#[trigger] batch_entry(c, to_add, pairs, i, k))
            is Some
}

/// The accumulator of the batched schedule with window `j` processed up to
/// pair `i`: window 0 starts from pair 0's selection, every later window
/// starts with `w` doublings, and each pair contributes one incomplete
/// addition per window.
pub open spec fn batch_acc_row(
    c: CurveParams,
    to_add: AssignedPoint,
    pairs: Seq<(AssignedPoint, u64)>,
    w: nat,
    nw: nat,
    j: nat,
    i: nat,
) -> Option<AssignedPoint>
    decreases j, i,
{
    if j == 0 && i == 0 {
        None
    } else if j == 0 && i == 1 {
        batch_entry(c, to_add, pairs, 0, wdigit(pairs[0].1 as nat, w, (nw - 1) as nat))
    } else if i == 0 {
        match batch_acc_row(c, to_add, pairs, w, nw, (j - 1) as nat, pairs.len()) {
            Some(a) => pdouble_n(c, a, w),
            None => None,
        }
    } else {
        match batch_acc_row(c, to_add, pairs, w, nw, j, (i - 1) as nat) {
            Some(a) => match batch_entry(
                c,
                to_add,
                pairs,
                (i - 1) as nat,
                wdigit(pairs[i - 1].1 as nat, w, (nw - 1 - j) as nat),
            ) {
                Some(t) => padd(c, a, t),
                None => None,
            },
            None => None,
        }
    }
}

/// Once the batched schedule has failed it stays failed, along the order
/// in which its cells are computed.
pub proof fn lemma_batch_row_stays_none(
    c: CurveParams,
    to_add: AssignedPoint,
    pairs: Seq<(AssignedPoint, u64)>,
    w: nat,
    nw: nat,
    j1: nat,
    i1: nat,
    j2: nat,
    i2: nat,
)
    requires
        j1 >= 1 || i1 >= 1,
        i1 <= pairs.len(),
        i2 <= pairs.len(),
        j1 < j2 || (j1 == j2 && i1 <= i2),
        batch_acc_row(c, to_add, pairs, w, nw, j1, i1) is None,
    ensures
        batch_acc_row(c, to_add, pairs, w, nw, j2, i2) is None,
    decreases j2, i2,
{
    if j2 == 0 && i2 == 0 {
    } else if j1 == j2 && i1 == i2 {
    } else if i2 == 0 {
        lemma_batch_row_stays_none(c, to_add, pairs, w, nw, j1, i1, (j2 - 1) as nat, pairs.len());
    } else {
        lemma_batch_row_stays_none(c, to_add, pairs, w, nw, j1, i1, j2, (i2 - 1) as nat);
    }
}

/// The whole batched schedule: one table per pair off a doubled shared
/// seed, a shared doubling of the accumulator per window, one addition per
/// pair per window, and the registered point subtracted at the end.
pub open spec fn batch_windowed(
    c: CurveParams,
    pairs: Seq<(AssignedPoint, u64)>,
    w: nat,
    nw: nat,
    to_add: AssignedPoint,
    to_sub: AssignedPoint,
) -> Option<AssignedPoint> {
    if !batch_tables_ok(c, to_add, pairs, w) {
        None
    } else {
        match batch_acc_row(c, to_add, pairs, w, nw, (nw - 1) as nat, pairs.len()) {
            Some(a) => padd(c, a, to_sub),
            None => None,
        }
    }
}

impl BaseFieldEccChip {
    /// Batched multi-scalar multiplication with one shared accumulator:
    /// the `w`-bit doubling run is paid once per window for all pairs. The
    /// outcome is exactly the `batch_windowed` schedule over the assigned
    /// values.
    #[verifier::rlimit(100)]
    pub fn mul_batch_1d_horizontal(&self, pairs: &Vec<(AssignedPoint, u64)>, window_size: usize) -> (r:
        Result<AssignedPoint, Error>)
        requires
            self.wf(),
            1 <= window_size <= 31,
            1 <= pairs@.len(),
            forall|i: int|
                0 <= i < pairs@.len() ==> (#[trigger] pairs@[i]).0.wf(self.params) && pairs@[i].1
                    < pow2(self.params.num_bits as nat),
        ensures
            self.aux_generator is None ==> r == Err::<AssignedPoint, Error>(Error::Synthesis),
            self.aux_generator is Some && self.lookup_aux(window_size as int, pairs@.len() as int)
                is None ==> r == Err::<AssignedPoint, Error>(Error::Synthesis),
            self.aux_generator matches Some(g) ==> (self.lookup_aux(
                window_size as int,
                pairs@.len() as int,
            ) matches Some(sb) ==> (match batch_windowed(
                self.params,
                pairs@,
                window_size as nat,
                window_count(self.params.num_bits as nat, window_size as nat),
                g,
                sb,
            ) {
                Some(q) => r == Ok::<AssignedPoint, Error>(q),
                None => r == Err::<AssignedPoint, Error>(Error::Unsatisfied),
            })),
            r matches Ok(q) ==> q.wf(self.params),
    {
        let ghost c = self.params;
        let ghost w_spec = window_size as nat;
        let ghost nw_spec = window_count(self.params.num_bits as nat, window_size as nat);
        let np = pairs.len();
        let aux = match self.get_mul_aux(window_size, np) {
            Ok(aux) => aux,
            Err(e) => {
                return Err(e);
            },
        };
        // decompose, pad and window every scalar
        let mut windowed_scalars: Vec<Vec<Vec<bool>>> = Vec::new();
        let mut i: usize = 0;
        while i < np
            invariant
                self.wf(),
                c == self.params,
                w_spec == window_size as nat,
                1 <= window_size <= 31,
                nw_spec == window_count(self.params.num_bits as nat, w_spec),
                np == pairs@.len(),
                forall|i2: int|
                    0 <= i2 < pairs@.len() ==> (#[trigger] pairs@[i2]).0.wf(self.params)
                        && pairs@[i2].1 < pow2(self.params.num_bits as nat),
                i <= np,
                windowed_scalars@.len() == i,
                forall|i2: int|
                    0 <= i2 < i ==> (#[trigger] windowed_scalars@[i2])@.len() == nw_spec,
                forall|i2: int, j: int|
                    0 <= i2 < i && 0 <= j < nw_spec ==> (#[trigger] windowed_scalars@[i2]@[j])@.len()
                        == w_spec,
                forall|i2: int, j: int|
                    0 <= i2 < i && 0 <= j < nw_spec ==> sel_val(
                        #[trigger] windowed_scalars@[i2]@[j]@,
                        w_spec,
                    ) == wdigit(pairs@[i2].1 as nat, w_spec, (nw_spec - 1 - j) as nat),
            decreases np - i,
        {
            let mut bits = decompose_bits(pairs[i].1, self.params.num_bits);
            let ghost raw = bits@;
            pad_bits(&mut bits, window_size);
            let ghost padded = bits@;
            proof {
                vstd::arithmetic::div_mod::lemma_mod_multiples_basic(
                    nw_spec as int,
                    window_size as int,
                );
                lemma_mul_is_commutative(nw_spec as int, window_size as int);
            }
            let wnd = window_bits(bits, window_size);
            proof {
                lemma_windowed_are_digits(
                    wnd@,
                    padded,
                    raw,
                    pairs@[i as int].1 as nat,
                    self.params.num_bits as nat,
                    w_spec,
                    nw_spec,
                );
            }
            windowed_scalars.push(wnd);
            i = i + 1;
        }
        // one incremental table per pair, each seeded one doubling further
        let mut tables: Vec<Vec<AssignedPoint>> = Vec::new();
        let mut binary_aux = aux.to_add;
        let mut i2: usize = 0;
        while i2 < np
            invariant
                self.wf(),
                c == self.params,
                w_spec == window_size as nat,
                1 <= window_size <= 31,
                np == pairs@.len(),
                forall|t: int|
                    0 <= t < pairs@.len() ==> (#[trigger] pairs@[t]).0.wf(self.params)
                        && pairs@[t].1 < pow2(self.params.num_bits as nat),
                aux.to_add.wf(self.params),
                aux.to_sub.wf(self.params),
                self.aux_generator == Some(aux.to_add),
                self.lookup_aux(window_size as int, np as int) == Some(aux.to_sub),
                nw_spec == window_count(self.params.num_bits as nat, w_spec),
                i2 <= np,
                tables@.len() == i2,
                i2 < np ==> Some(binary_aux) == batch_seed(c, aux.to_add, i2 as nat),
                binary_aux.wf(self.params),
                forall|t: int|
                    0 <= t < i2 ==> (#[trigger] tables@[t])@.len() == pow2(w_spec),
                forall|t: int, k: int|
                    0 <= t < i2 && 0 <= k < pow2(w_spec) ==> Some(#[trigger] tables@[t]@[k])
                        == batch_entry(c, aux.to_add, pairs@, t as nat, k as nat)
                        && tables@[t]@[k].wf(c),
            decreases np - i2,
        {
            let base = pairs[i2].0;
            let table = match self.make_incremental_table(&binary_aux, &base, window_size) {
                Ok(t) => t,
                Err(e) => {
                    proof {
                        let bad = choose|k: int|
                            0 <= k < pow2(w_spec) && (#[trigger] ptable(
                                c,
                                binary_aux,
                                pairs@[i2 as int].0,
                                k as nat,
                            )) is None;
                        assert(batch_entry(c, aux.to_add, pairs@, i2 as nat, bad as nat)
                            is None);
                        assert(!batch_tables_ok(c, aux.to_add, pairs@, w_spec)) by {
                            assert(!((batch_entry(c, aux.to_add, pairs@, i2 as nat, bad as nat))
                                is Some));
                        }
                    }
                    return Err(e);
                },
            };
            tables.push(table);
            if i2 != np - 1 {
                binary_aux = match self.double(&binary_aux) {
                    Ok(q) => q,
                    Err(e) => {
                        proof {
                            assert(batch_seed(c, aux.to_add, (i2 + 1) as nat) is None);
                            assert(batch_entry(c, aux.to_add, pairs@, (i2 + 1) as nat, 0)
                                is None);
                            lemma_pow2_pos(w_spec);
                            assert(!batch_tables_ok(c, aux.to_add, pairs@, w_spec));
                        }
                        return Err(e);
                    },
                };
            }
            i2 = i2 + 1;
        }
        proof {
            assert(batch_tables_ok(c, aux.to_add, pairs@, w_spec)) by {
                assert forall|t: nat, k: nat|
                    t < pairs@.len() && k < pow2(w_spec) implies (#[trigger] batch_entry(
                    c,
                    aux.to_add,
                    pairs@,
                    t,
                    k,
                )) is Some by {
                    assert(Some(tables@[t as int]@[k as int]) == batch_entry(
                        c,
                        aux.to_add,
                        pairs@,
                        t,
                        k,
                    ));
                }
            }
        }
        // first window: pair 0 seeds the accumulator, the others add in
        let nw = windowed_scalars[0].len();
        proof {
            vstd::arithmetic::div_mod::lemma_div_non_zero(
                self.params.num_bits as int + window_size as int - 1,
                window_size as int,
            );
            lemma_wdigit_bound(pairs@[0].1 as nat, w_spec, (nw_spec - 1) as nat);
            assert(batch_entry(c, aux.to_add, pairs@, 0, wdigit(
                pairs@[0].1 as nat,
                w_spec,
                (nw_spec - 1) as nat,
            )) is Some);
        }
        let sel0 = &windowed_scalars[0];
        let acc0 = match self.select_multi(&sel0[0], &tables[0]) {
            Ok(a) => a,
            Err(e) => {
                proof {
                    assert(false);
                }
                return Err(e);
            },
        };
        let mut acc = acc0;
        proof {
            assert(Some(acc) == batch_acc_row(c, aux.to_add, pairs@, w_spec, nw_spec, 0, 1));
        }
        let mut i3: usize = 1;
        while i3 < np
            invariant
                self.wf(),
                c == self.params,
                w_spec == window_size as nat,
                1 <= window_size <= 31,
                1 <= nw_spec,
                nw_spec == window_count(self.params.num_bits as nat, w_spec),
                np == pairs@.len(),
                1 <= i3 <= np,
                nw == nw_spec,
                self.aux_generator == Some(aux.to_add),
                self.lookup_aux(window_size as int, np as int) == Some(aux.to_sub),
                aux.to_add.wf(self.params),
                aux.to_sub.wf(self.params),
                batch_tables_ok(c, aux.to_add, pairs@, w_spec),
                forall|t: int|
                    0 <= t < pairs@.len() ==> (#[trigger] pairs@[t]).0.wf(self.params)
                        && pairs@[t].1 < pow2(self.params.num_bits as nat),
                tables@.len() == np,
                forall|t: int|
                    0 <= t < np ==> (#[trigger] tables@[t])@.len() == pow2(w_spec),
                forall|t: int, k: int|
                    0 <= t < np && 0 <= k < pow2(w_spec) ==> Some(#[trigger] tables@[t]@[k])
                        == batch_entry(c, aux.to_add, pairs@, t as nat, k as nat)
                        && tables@[t]@[k].wf(c),
                windowed_scalars@.len() == np,
                forall|t: int|
                    0 <= t < np ==> (#[trigger] windowed_scalars@[t])@.len() == nw_spec,
                forall|t: int, j: int|
                    0 <= t < np && 0 <= j < nw_spec ==> (#[trigger] windowed_scalars@[t]@[j])@.len()
                        == w_spec,
                forall|t: int, j: int|
                    0 <= t < np && 0 <= j < nw_spec ==> sel_val(
                        #[trigger] windowed_scalars@[t]@[j]@,
                        w_spec,
                    ) == wdigit(pairs@[t].1 as nat, w_spec, (nw_spec - 1 - j) as nat),
                Some(acc) == batch_acc_row(c, aux.to_add, pairs@, w_spec, nw_spec, 0, i3 as nat),
                acc.wf(self.params),
            decreases np - i3,
        {
            proof {
                lemma_wdigit_bound(pairs@[i3 as int].1 as nat, w_spec, (nw_spec - 1) as nat);
            }
            let seli = &windowed_scalars[i3];
            let ti = match self.select_multi(&seli[0], &tables[i3]) {
                Ok(a) => a,
                Err(e) => {
                    proof {
                        assert(false);
                    }
                    return Err(e);
                },
            };
            let stepped = match self.add(&acc, &ti) {
                Ok(a) => a,
                Err(e) => {
                    proof {
                        assert(batch_acc_row(c, aux.to_add, pairs@, w_spec, nw_spec, 0, (i3
                            + 1) as nat) is None);
                        lemma_batch_row_stays_none(
                            c,
                            aux.to_add,
                            pairs@,
                            w_spec,
                            nw_spec,
                            0,
                            (i3 + 1) as nat,
                            (nw_spec - 1) as nat,
                            np as nat,
                        );
                    }
                    return Err(e);
                },
            };
            acc = stepped;
            i3 = i3 + 1;
        }
        // later windows: one shared doubling run, then one addition per pair
        let mut j: usize = 1;
        while j < nw
            invariant
                self.wf(),
                c == self.params,
                w_spec == window_size as nat,
                1 <= window_size <= 31,
                1 <= nw_spec,
                nw_spec == window_count(self.params.num_bits as nat, w_spec),
                np == pairs@.len(),
                1 <= np,
                1 <= j <= nw,
                nw == nw_spec,
                self.aux_generator == Some(aux.to_add),
                self.lookup_aux(window_size as int, np as int) == Some(aux.to_sub),
                aux.to_add.wf(self.params),
                aux.to_sub.wf(self.params),
                batch_tables_ok(c, aux.to_add, pairs@, w_spec),
                forall|t: int|
                    0 <= t < pairs@.len() ==> (#[trigger] pairs@[t]).0.wf(self.params)
                        && pairs@[t].1 < pow2(self.params.num_bits as nat),
                tables@.len() == np,
                forall|t: int|
                    0 <= t < np ==> (#[trigger] tables@[t])@.len() == pow2(w_spec),
                forall|t: int, k: int|
                    0 <= t < np && 0 <= k < pow2(w_spec) ==> Some(#[trigger] tables@[t]@[k])
                        == batch_entry(c, aux.to_add, pairs@, t as nat, k as nat)
                        && tables@[t]@[k].wf(c),
                windowed_scalars@.len() == np,
                forall|t: int|
                    0 <= t < np ==> (#[trigger] windowed_scalars@[t])@.len() == nw_spec,
                forall|t: int, j2: int|
                    0 <= t < np && 0 <= j2 < nw_spec ==> (#[trigger] windowed_scalars@[t]@[j2])@.len()
                        == w_spec,
                forall|t: int, j2: int|
                    0 <= t < np && 0 <= j2 < nw_spec ==> sel_val(
                        #[trigger] windowed_scalars@[t]@[j2]@,
                        w_spec,
                    ) == wdigit(pairs@[t].1 as nat, w_spec, (nw_spec - 1 - j2) as nat),
                Some(acc) == batch_acc_row(
                    c,
                    aux.to_add,
                    pairs@,
                    w_spec,
                    nw_spec,
                    (j - 1) as nat,
                    np as nat,
                ),
                acc.wf(self.params),
            decreases nw - j,
        {
            let dbl = match self.double_n(&acc, window_size) {
                Ok(a) => a,
                Err(e) => {
                    proof {
                        assert(batch_acc_row(c, aux.to_add, pairs@, w_spec, nw_spec, j as nat, 0)
                            is None);
                        lemma_batch_row_stays_none(
                            c,
                            aux.to_add,
                            pairs@,
                            w_spec,
                            nw_spec,
                            j as nat,
                            0,
                            (nw_spec - 1) as nat,
                            np as nat,
                        );
                    }
                    return Err(e);
                },
            };
            let mut row = dbl;
            proof {
                assert(Some(row) == batch_acc_row(c, aux.to_add, pairs@, w_spec, nw_spec, j as nat, 0));
            }
            let mut i4: usize = 0;
            while i4 < np
                invariant
                    self.wf(),
                    c == self.params,
                    w_spec == window_size as nat,
                    1 <= window_size <= 31,
                    1 <= nw_spec,
                    nw_spec == window_count(self.params.num_bits as nat, w_spec),
                    np == pairs@.len(),
                    1 <= np,
                    1 <= j < nw,
                    nw == nw_spec,
                    self.aux_generator == Some(aux.to_add),
                    self.lookup_aux(window_size as int, np as int) == Some(aux.to_sub),
                    aux.to_add.wf(self.params),
                    aux.to_sub.wf(self.params),
                    batch_tables_ok(c, aux.to_add, pairs@, w_spec),
                    forall|t: int|
                        0 <= t < pairs@.len() ==> (#[trigger] pairs@[t]).0.wf(self.params)
                            && pairs@[t].1 < pow2(self.params.num_bits as nat),
                    tables@.len() == np,
                    forall|t: int|
                        0 <= t < np ==> (#[trigger] tables@[t])@.len() == pow2(w_spec),
                    forall|t: int, k: int|
                        0 <= t < np && 0 <= k < pow2(w_spec) ==> Some(#[trigger] tables@[t]@[k])
                            == batch_entry(c, aux.to_add, pairs@, t as nat, k as nat)
                            && tables@[t]@[k].wf(c),
                    windowed_scalars@.len() == np,
                    forall|t: int|
                        0 <= t < np ==> (#[trigger] windowed_scalars@[t])@.len() == nw_spec,
                    forall|t: int, j2: int|
                        0 <= t < np && 0 <= j2 < nw_spec ==> (#[trigger] windowed_scalars@[t]@[j2])@.len()
                            == w_spec,
                    forall|t: int, j2: int|
                        0 <= t < np && 0 <= j2 < nw_spec ==> sel_val(
                            #[trigger] windowed_scalars@[t]@[j2]@,
                            w_spec,
                        ) == wdigit(pairs@[t].1 as nat, w_spec, (nw_spec - 1 - j2) as nat),
                    i4 <= np,
                    Some(row) == batch_acc_row(
                        c,
                        aux.to_add,
                        pairs@,
                        w_spec,
                        nw_spec,
                        j as nat,
                        i4 as nat,
                    ),
                    row.wf(self.params),
                decreases np - i4,
            {
                proof {
                    lemma_wdigit_bound(
                        pairs@[i4 as int].1 as nat,
                        w_spec,
                        (nw_spec - 1 - j) as nat,
                    );
                }
                let seli = &windowed_scalars[i4];
                let ti = match self.select_multi(&seli[j], &tables[i4]) {
                    Ok(a) => a,
                    Err(e) => {
                        proof {
                            assert(false);
                        }
                        return Err(e);
                    },
                };
                let stepped = match self.add(&row, &ti) {
                    Ok(a) => a,
                    Err(e) => {
                        proof {
                            assert(batch_acc_row(c, aux.to_add, pairs@, w_spec, nw_spec, j as nat, (
                            i4 + 1) as nat) is None);
                            lemma_batch_row_stays_none(
                                c,
                                aux.to_add,
                                pairs@,
                                w_spec,
                                nw_spec,
                                j as nat,
                                (i4 + 1) as nat,
                                (nw_spec - 1) as nat,
                                np as nat,
                            );
                        }
                        return Err(e);
                    },
                };
                row = stepped;
                i4 = i4 + 1;
            }
            acc = row;
            j = j + 1;
        }
        match self.add(&acc, &aux.to_sub) {
            Ok(q) => Ok(q),
            Err(e) => Err(e),
        }
    }
}

} // verus!

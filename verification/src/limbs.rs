//! Limb decomposition of a foreign-field coordinate: the wire format used
//! when a point is exposed as public input.

use vstd::prelude::*;
use vstd::arithmetic::div_mod::*;
use vstd::arithmetic::mul::*;
use vstd::arithmetic::power2::{pow2, lemma_pow2_pos, lemma_pow2_adds, lemma2_to64,
    lemma_pow2_strictly_increases};
use crate::params::{RnsParams, pow2_u128};

verus! {

/// Limb `i` of a value, under limbs of `bit_len` bits each.
pub open spec fn limb(value: int, bit_len: nat, i: nat) -> int {
    (value / pow2(bit_len * i) as int) % pow2(bit_len) as int
}

/// The value carried by the first `n` limbs, in ascending limb order.
pub open spec fn limbs_value(value: int, bit_len: nat, n: nat) -> int
    decreases n,
{
    if n == 0 {
        0
    } else {
        limbs_value(value, bit_len, (n - 1) as nat) + limb(value, bit_len, (n - 1) as nat) * pow2(
            bit_len * ((n - 1) as nat),
        )
    }
}

/// The first `n` limbs carry the value reduced modulo `2^(bit_len * n)`.
pub proof fn lemma_limbs_value_mod(value: int, bit_len: nat, n: nat)
    requires
        value >= 0,
        bit_len >= 1,
    ensures
        limbs_value(value, bit_len, n) == value % pow2(bit_len * n) as int,
    decreases n,
{
    if n == 0 {
        assert(pow2(bit_len * 0) == 1) by {
            lemma_mul_basics(bit_len as int);
            lemma2_to64();
        }
        lemma_small_mod(0, 1);
        assert(value % 1 == 0) by {
            lemma_mod_of_one(value);
        }
    } else {
        let m = (n - 1) as nat;
        lemma_limbs_value_mod(value, bit_len, m);
        let lo = pow2(bit_len * m) as int;
        let hi = pow2(bit_len) as int;
        lemma_pow2_pos(bit_len * m);
        lemma_pow2_pos(bit_len);
        assert(bit_len * n == bit_len * m + bit_len) by {
            lemma_mul_is_distributive_add(bit_len as int, m as int, 1);
            lemma_mul_basics(bit_len as int);
        }
        lemma_pow2_adds(bit_len * m, bit_len);
        lemma_mod_breakdown(value, lo, hi);
        assert(value % (lo * hi) == lo * ((value / lo) % hi) + value % lo);
        assert(lo * ((value / lo) % hi) == limb(value, bit_len, m) * lo) by {
            lemma_mul_is_commutative(lo, (value / lo) % hi);
        }
    }
}

/// Helper: `x % 1 == 0`.
proof fn lemma_mod_of_one(x: int)
    requires
        x >= 0,
    ensures
        x % 1 == 0,
{
    lemma_mod_bound(x, 1);
}

/// A full set of limbs recomposes, ascending, to exactly the value.
pub proof fn lemma_limbs_recompose(value: int, bit_len: nat, n: nat)
    requires
        0 <= value < pow2(64),
        bit_len >= 1,
        bit_len * n >= 64,
    ensures
        limbs_value(value, bit_len, n) == value,
{
    lemma_limbs_value_mod(value, bit_len, n);
    if bit_len * n > 64 {
        lemma_pow2_strictly_increases(64, bit_len * n);
    }
    lemma_small_mod(value as nat, pow2(bit_len * n));
}

/// Splits a word into its limbs, least-significant limb first.
pub fn decompose_limbs(value: u64, rns: RnsParams) -> (r: Vec<u64>)
    requires
        rns.wf(),
    ensures
        r@.len() == rns.number_of_limbs,
        forall|i: int|
            0 <= i < r@.len() ==> r@[i] == limb(
                value as int,
                rns.bit_len_limb as nat,
                i as nat,
            ),
{
    let b = rns.bit_len_limb;
    let n = rns.number_of_limbs;
    let pw: u128 = pow2_u128(b);
    let mut out: Vec<u64> = Vec::new();
    let mut cur: u64 = value;
    let mut i: u64 = 0;
    proof {
        lemma_pow2_pos(b as nat);
        assert(value as int / pow2((b * 0) as nat) as int == value) by {
            lemma_mul_basics(b as int);
            lemma2_to64();
            lemma_div_basics(value as int);
        }
    }
    while i < n
        invariant
            rns.wf(),
            b == rns.bit_len_limb,
            n == rns.number_of_limbs,
            pw == pow2(b as nat),
            i <= n,
            out@.len() == i,
            cur == value as int / pow2((b * i) as nat) as int,
            forall|j: int|
                0 <= j < i ==> out@[j] == limb(value as int, b as nat, j as nat),
        decreases n - i,
    {
        proof {
            lemma_pow2_pos((b * i) as nat);
            lemma_pow2_pos(b as nat);
            lemma_div_pos_is_pos(value as int, pow2((b * i) as nat) as int);
            lemma_mod_decreases(cur as nat, pow2(b as nat));
            lemma_div_nonincreasing(cur as int, pw as int);
        }
        let lm: u64 = (cur as u128 % pw) as u64;
        let nxt: u64 = (cur as u128 / pw) as u64;
        proof {
            assert(lm == limb(value as int, b as nat, i as nat));
            lemma_div_denominator(
                value as int,
                pow2((b * i) as nat) as int,
                pow2(b as nat) as int,
            );
            lemma_pow2_adds((b * i) as nat, b as nat);
            assert(b * (i + 1) == b * i + b) by {
                lemma_mul_is_distributive_add(b as int, i as int, 1);
                lemma_mul_basics(b as int);
            }
            assert(nxt == value as int / pow2((b * (i + 1)) as nat) as int);
        }
        out.push(lm);
        cur = nxt;
        i = i + 1;
    }
    out
}

} // verus!

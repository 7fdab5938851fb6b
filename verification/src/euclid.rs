//! Greatest common divisors and modular inverses.
//!
//! The inverse is computed by the extended Euclidean algorithm, carrying the
//! coefficient of the inverted element reduced modulo `p`, so the whole run
//! stays inside machine words.

use vstd::prelude::*;
use vstd::arithmetic::div_mod::*;
use vstd::arithmetic::mul::*;
use vstd::calc;
use crate::modular::{
    canonical, fmul, mul_mod, sub_mod, lemma_fmul_assoc, lemma_fmul_comm, lemma_fmul_reduces,
    lemma_fmul_fsub,
};

verus! {

/// Greatest common divisor by the Euclidean recursion.
pub open spec fn gcd(a: nat, b: nat) -> nat
    decreases b,
{
    if b == 0 {
        a
    } else {
        gcd(b, a % b)
    }
}

/// `a` has a multiplicative inverse modulo `p`.
pub open spec fn has_inv(p: int, a: int) -> bool {
    exists|b: int| canonical(p, b) && fmul(p, a, b) == 1
}

/// The multiplicative inverse of `a` modulo `p` (meaningful when `has_inv`).
pub open spec fn finv(p: int, a: int) -> int {
    choose|b: int| canonical(p, b) && fmul(p, a, b) == 1
}

/// A positive divisor of a positive number is at most that number.
pub proof fn lemma_divisor_bound(n: nat, d: nat)
    requires
        d >= 1,
        n >= 1,
        n % d == 0,
    ensures
        d <= n,
{
    lemma_fundamental_div_mod(n as int, d as int);
    if n / d == 0 {
        assert(n as int == d as int * (n as int / d as int));
        assert(false);
    } else {
        lemma_mul_inequality(1, n as int / d as int, d as int);
        lemma_mul_is_commutative(n as int / d as int, d as int);
    }
}

/// The gcd divides both of its arguments, and is positive unless both are 0.
pub proof fn lemma_gcd_divides(a: nat, b: nat)
    ensures
        gcd(a, b) == 0 ==> a == 0 && b == 0,
        gcd(a, b) >= 1 ==> a % gcd(a, b) == 0 && b % gcd(a, b) == 0,
        a >= 1 || b >= 1 ==> gcd(a, b) >= 1,
    decreases b,
{
    let g = gcd(a, b);
    if b == 0 {
        if a >= 1 {
            lemma_mod_self_0(a as int);
            lemma_small_mod(0, a);
        }
    } else {
        lemma_gcd_divides(b, a % b);
        lemma_mod_bound(a as int, b as int);
        if g >= 1 {
            // a == (a / b) * b + a % b, and g divides both summands
            lemma_fundamental_div_mod(a as int, b as int);
            let q = a as int / b as int;
            lemma_mod_bound(a as int, b as int);
            assert(b % g == 0 && (a % b) % g == 0);
            assert((q * b) % g as int == 0) by {
                lemma_mul_mod_noop_right(q, b as int, g as int);
                lemma_mul_basics(q);
                lemma_small_mod(0, g);
            }
            assert((q * b + a % b) % g as int == 0) by {
                lemma_add_mod_noop(q * b, (a % b) as int, g as int);
                lemma_small_mod(0, g);
            }
            assert(b as int * q == q * b as int) by {
                lemma_mul_is_commutative(b as int, q);
            }
        }
    }
}

/// Inverses modulo `p` are unique among canonical residues.
pub proof fn lemma_inv_unique(p: int, a: int, b1: int, b2: int)
    requires
        p >= 2,
        canonical(p, b1),
        canonical(p, b2),
        fmul(p, a, b1) == 1,
        fmul(p, a, b2) == 1,
    ensures
        b1 == b2,
{
    // b1 == b1 * (a * b2) == (b1 * a) * b2 == b2  (mod p)
    lemma_small_mod(b1 as nat, p as nat);
    lemma_small_mod(b2 as nat, p as nat);
    calc! {
        (==)
        b1; {
            lemma_mul_basics(b1);
        }
        (b1 * 1) % p; {
            lemma_mul_mod_noop_right(b1, a * b2, p);
        }
        fmul(p, b1, fmul(p, a, b2)); {
            lemma_fmul_assoc(p, b1, a, b2);
        }
        fmul(p, fmul(p, b1, a), b2); {
            lemma_fmul_comm(p, b1, a);
        }
        fmul(p, fmul(p, a, b1), b2); {
            lemma_mul_basics(b2);
        }
        (1 * b2) % p; {
            lemma_mul_is_commutative(1, b2);
        }
        b2;
    }
}

/// Whatever `finv` picked is a canonical inverse.
pub proof fn lemma_finv_property(p: int, a: int)
    requires
        p >= 2,
        has_inv(p, a),
    ensures
        canonical(p, finv(p, a)),
        fmul(p, a, finv(p, a)) == 1,
{
    let b = choose|b: int| canonical(p, b) && fmul(p, a, b) == 1;
    assert(canonical(p, b) && fmul(p, a, b) == 1);
}

/// Modular inverse of a canonical residue; `None` exactly when `a` and `p`
/// share a nontrivial factor.
pub fn inv_mod(a: u64, p: u64) -> (r: Option<u64>)
    requires
        p >= 2,
        a < p,
    ensures
        (r is Some) <==> gcd(p as nat, a as nat) == 1,
        r matches Some(v) ==> canonical(p as int, v as int) && fmul(p as int, a as int, v as int)
            == 1 && v == finv(p as int, a as int),
{
    let mut r0: u64 = p;
    let mut r1: u64 = a;
    let mut s0: u64 = 0;
    let mut s1: u64 = 1;
    proof {
        lemma_mod_self_0(p as int);
        lemma_small_mod(a as nat, p as nat);
        lemma_mul_basics(a as int);
    }
    while r1 != 0
        invariant
            p >= 2,
            1 <= r0 <= p,
            r1 < r0,
            s0 < p,
            s1 < p,
            gcd(r0 as nat, r1 as nat) == gcd(p as nat, a as nat),
            fmul(p as int, a as int, s0 as int) == r0 as int % p as int,
            fmul(p as int, a as int, s1 as int) == r1 as int,
        decreases r1,
    {
        let q: u64 = r0 / r1;
        let r2: u64 = r0 % r1;
        let qm: u64 = q % p;
        let t: u64 = mul_mod(qm, s1, p);
        let s2: u64 = sub_mod(s0, t, p);
        proof {
            lemma_mod_bound(r0 as int, r1 as int);
            lemma_small_mod(r1 as nat, p as nat);
            lemma_fundamental_div_mod(r0 as int, r1 as int);
            // a * s2 == r0 - q * r1 == r2  (mod p)
            lemma_fmul_fsub(p as int, a as int, s0 as int, t as int);
            assert(fmul(p as int, a as int, t as int) == (q as int * r1 as int) % p as int) by {
                lemma_fmul_assoc(p as int, a as int, qm as int, s1 as int);
                lemma_fmul_comm(p as int, a as int, qm as int);
                lemma_fmul_comm(p as int, fmul(p as int, a as int, qm as int), s1 as int);
                lemma_fmul_assoc(p as int, s1 as int, a as int, qm as int);
                lemma_fmul_comm(p as int, s1 as int, a as int);
                lemma_fmul_reduces(p as int, r1 as int, q as int);
                lemma_fmul_comm(p as int, r1 as int, q as int);
                assert(fmul(p as int, a as int, t as int) == fmul(
                    p as int,
                    fmul(p as int, a as int, s1 as int),
                    qm as int,
                ));
            }
            assert(fmul(p as int, a as int, s2 as int) == (r0 as int % p as int - (q as int
                * r1 as int) % p as int) % p as int);
            assert(fmul(p as int, a as int, s2 as int) == r2 as int) by {
                lemma_sub_mod_noop(r0 as int, q as int * r1 as int, p as int);
                assert((r0 as int - q as int * r1 as int) % p as int == r2 as int % p as int) by {
                    lemma_mul_is_commutative(r1 as int, q as int);
                }
                lemma_small_mod(r2 as nat, p as nat);
            }
        }
        r0 = r1;
        s0 = s1;
        r1 = r2;
        s1 = s2;
    }
    proof {
        lemma_gcd_divides(p as nat, a as nat);
    }
    if r0 == 1 {
        proof {
            lemma_small_mod(1, p as nat);
            assert(canonical(p as int, s0 as int) && fmul(p as int, a as int, s0 as int) == 1);
            assert(has_inv(p as int, a as int));
            lemma_finv_property(p as int, a as int);
            lemma_inv_unique(p as int, a as int, s0 as int, finv(p as int, a as int));
        }
        Some(s0)
    } else {
        None
    }
}

/// Multiplying by `a` and then by its inverse gives back the residue.
pub proof fn lemma_fmul_cancel(p: int, a: int, x: int)
    requires
        p >= 2,
        has_inv(p, a),
    ensures
        fmul(p, fmul(p, x, a), finv(p, a)) == x % p,
{
    lemma_finv_property(p, a);
    calc! {
        (==)
        fmul(p, fmul(p, x, a), finv(p, a)); {
            lemma_fmul_assoc(p, x, a, finv(p, a));
        }
        fmul(p, x, fmul(p, a, finv(p, a))); {}
        (x * 1) % p; {
            lemma_mul_basics(x);
        }
        x % p;
    }
}

} // verus!

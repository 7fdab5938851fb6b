//! Arithmetic in the foreign field: residues modulo an odd prime, held in
//! canonical form as machine words, with the mathematical operations defined
//! over `int`.

use vstd::prelude::*;
use vstd::arithmetic::div_mod::*;
use vstd::arithmetic::mul::*;
use vstd::calc;

verus! {

/// Sum of two residues modulo `p`.
pub open spec fn fadd(p: int, a: int, b: int) -> int {
    (a + b) % p
}

/// Difference of two residues modulo `p` (Euclidean remainder, so the result
/// lies in `[0, p)` whenever `p > 0`).
pub open spec fn fsub(p: int, a: int, b: int) -> int {
    (a - b) % p
}

/// Product of two residues modulo `p`.
pub open spec fn fmul(p: int, a: int, b: int) -> int {
    (a * b) % p
}

/// Additive inverse of a residue modulo `p`.
pub open spec fn fneg(p: int, a: int) -> int {
    (0 - a) % p
}

/// A value already reduced to its canonical residue.
pub open spec fn canonical(p: int, a: int) -> bool {
    0 <= a < p
}

/// Modular addition on canonical residues.
pub fn add_mod(a: u64, b: u64, p: u64) -> (r: u64)
    requires
        p >= 1,
        a < p,
        b < p,
    ensures
        r == fadd(p as int, a as int, b as int),
        r < p,
{
    let s: u128 = a as u128 + b as u128;
    let r: u128 = s % (p as u128);
    proof {
        lemma_mod_bound(s as int, p as int);
    }
    r as u64
}

/// Modular subtraction on canonical residues.
pub fn sub_mod(a: u64, b: u64, p: u64) -> (r: u64)
    requires
        p >= 1,
        a < p,
        b < p,
    ensures
        r == fsub(p as int, a as int, b as int),
        r < p,
{
    let s: u128 = a as u128 + p as u128 - b as u128;
    let r: u128 = s % (p as u128);
    proof {
        lemma_mod_bound(s as int, p as int);
        lemma_mod_add_multiples_vanish(a - b, p as int);
    }
    r as u64
}

/// Modular multiplication on canonical residues.
pub fn mul_mod(a: u64, b: u64, p: u64) -> (r: u64)
    requires
        p >= 1,
        a < p,
        b < p,
    ensures
        r == fmul(p as int, a as int, b as int),
        r < p,
{
    proof {
        lemma_mul_nonnegative(a as int, b as int);
        lemma_mul_upper_bound(a as int, 0xffff_ffff_ffff_ffff, b as int, 0xffff_ffff_ffff_ffff);
    }
    let s: u128 = a as u128 * b as u128;
    let r: u128 = s % (p as u128);
    proof {
        lemma_mod_bound(s as int, p as int);
    }
    r as u64
}

/// Modular negation of a canonical residue.
pub fn neg_mod(a: u64, p: u64) -> (r: u64)
    requires
        p >= 1,
        a < p,
    ensures
        r == fneg(p as int, a as int),
        r < p,
{
    proof {
        lemma_mod_add_multiples_vanish(0 - a, p as int);
        if a != 0 {
            lemma_small_mod((p - a) as nat, p as nat);
        } else {
            lemma_small_mod(0, p as nat);
        }
    }
    if a == 0 {
        0
    } else {
        p - a
    }
}

/// Reduction of an arbitrary word to its canonical residue.
pub fn reduce_mod(a: u64, p: u64) -> (r: u64)
    requires
        p >= 1,
    ensures
        r == a as int % p as int,
        r < p,
{
    proof {
        lemma_mod_bound(a as int, p as int);
    }
    a % p
}

/// Multiplication modulo `p` ignores prior reduction of either factor.
pub proof fn lemma_fmul_reduces(p: int, a: int, b: int)
    requires
        p >= 1,
    ensures
        fmul(p, a % p, b % p) == fmul(p, a, b),
        fmul(p, a % p, b) == fmul(p, a, b),
        fmul(p, a, b % p) == fmul(p, a, b),
{
    lemma_mul_mod_noop_general(a, b, p);
}

/// Multiplication modulo `p` is associative on residues.
pub proof fn lemma_fmul_assoc(p: int, a: int, b: int, c: int)
    requires
        p >= 1,
    ensures
        fmul(p, fmul(p, a, b), c) == fmul(p, a, fmul(p, b, c)),
{
    calc! {
        (==)
        fmul(p, fmul(p, a, b), c); {
            lemma_mul_mod_noop_general((a * b) % p, c, p);
        }
        (((a * b) % p) * (c % p)) % p; {
            lemma_mul_mod_noop_general(a * b, c, p);
        }
        ((a * b) * c) % p; {
            lemma_mul_is_associative(a, b, c);
        }
        (a * (b * c)) % p; {
            lemma_mul_mod_noop_general(a, b * c, p);
        }
        ((a % p) * ((b * c) % p)) % p; {
            lemma_mul_mod_noop_general(a, (b * c) % p, p);
        }
        fmul(p, a, fmul(p, b, c));
    }
}

/// On canonical residues, a modular difference vanishes exactly on equal
/// arguments.
pub proof fn lemma_fsub_zero_iff(p: int, a: int, b: int)
    requires
        p >= 1,
        canonical(p, a),
        canonical(p, b),
    ensures
        fsub(p, a, b) == 0 <==> a == b,
        canonical(p, fsub(p, a, b)),
{
    if a == b {
        lemma_small_mod(0, p as nat);
    } else if a > b {
        lemma_small_mod((a - b) as nat, p as nat);
    } else {
        lemma_mod_add_multiples_vanish(a - b, p);
        lemma_small_mod((a - b + p) as nat, p as nat);
    }
    lemma_mod_bound(a - b, p);
}

/// Negation passes through a modular product.
pub proof fn lemma_fmul_fneg(p: int, a: int, b: int)
    requires
        p >= 1,
    ensures
        fmul(p, a, fneg(p, b)) == fneg(p, fmul(p, a, b)),
{
    calc! {
        (==)
        fmul(p, a, fneg(p, b)); {
            lemma_mul_mod_noop_right(a, 0 - b, p);
        }
        (a * (0 - b)) % p; {
            lemma_mul_unary_negation(a, b);
        }
        (0 - a * b) % p; {
            lemma_sub_mod_noop_right(0, a * b, p);
        }
        fneg(p, fmul(p, a, b));
    }
}

/// `a - (u - a)` and `(a + a) - u` agree modulo `p`.
pub proof fn lemma_fsub_rearrange(p: int, a: int, u: int)
    requires
        p >= 1,
    ensures
        fsub(p, a, fsub(p, u, a)) == fsub(p, fadd(p, a, a), u),
{
    calc! {
        (==)
        fsub(p, a, fsub(p, u, a)); {
            lemma_sub_mod_noop_right(a, u - a, p);
        }
        (a + a - u) % p; {
            lemma_sub_mod_noop_right((a + a) % p, u, p);
            lemma_sub_mod_noop(a + a, u, p);
        }
        fsub(p, fadd(p, a, a), u);
    }
}

/// Multiplication distributes over a modular difference.
pub proof fn lemma_fmul_fsub(p: int, a: int, x: int, y: int)
    requires
        p >= 1,
    ensures
        fmul(p, a, fsub(p, x, y)) == fsub(p, fmul(p, a, x), fmul(p, a, y)),
{
    calc! {
        (==)
        fmul(p, a, fsub(p, x, y)); {
            lemma_mul_mod_noop_right(a, x - y, p);
        }
        (a * (x - y)) % p; {
            lemma_mul_is_distributive_sub(a, x, y);
        }
        (a * x - a * y) % p; {
            lemma_sub_mod_noop(a * x, a * y, p);
        }
        fsub(p, fmul(p, a, x), fmul(p, a, y));
    }
}

/// Multiplication modulo `p` is commutative.
pub proof fn lemma_fmul_comm(p: int, a: int, b: int)
    ensures
        fmul(p, a, b) == fmul(p, b, a),
{
    lemma_mul_is_commutative(a, b);
}

} // verus!

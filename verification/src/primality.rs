//! Primality of the foreign-field modulus, and its consequence: every
//! nonzero residue is invertible.

use vstd::prelude::*;
use vstd::arithmetic::div_mod::*;
use crate::euclid::{gcd, lemma_gcd_divides, lemma_divisor_bound};

verus! {

/// `p` has no divisor strictly between 1 and itself.
pub open spec fn is_prime(p: nat) -> bool {
    p >= 2 && forall|d: nat| 2 <= d < p ==> #[trigger] (p % d) != 0
}

/// Trial division decides primality of a word.
pub fn check_prime(p: u64) -> (r: bool)
    ensures
        r == is_prime(p as nat),
{
    if p < 2 {
        return false;
    }
    let mut d: u64 = 2;
    while d < p
        invariant
            2 <= d,
            d <= p || p < 2,
            p >= 2,
            forall|e: nat| 2 <= e < d ==> #[trigger] ((p as nat) % e) != 0,
        decreases p - d,
    {
        if p % d == 0 {
            proof {
                assert((p as nat) % (d as nat) == 0);
            }
            return false;
        }
        d = d + 1;
    }
    true
}

/// Modulo a prime, every nonzero canonical residue is coprime to the modulus.
pub proof fn lemma_prime_coprime(p: nat, a: nat)
    requires
        is_prime(p),
        1 <= a < p,
    ensures
        gcd(p, a) == 1,
{
    let g = gcd(p, a);
    lemma_gcd_divides(p, a);
    lemma_divisor_bound(a, g);
    if g >= 2 {
        assert(p % g != 0);
        assert(false);
    }
}

/// An odd prime leaves remainder 1 modulo 2.
pub proof fn lemma_odd_prime(p: nat)
    requires
        is_prime(p),
        p >= 3,
    ensures
        p % 2 == 1,
{
    assert(p % 2 != 0);
    lemma_mod_bound(p as int, 2);
}

} // verus!

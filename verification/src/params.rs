//! Parameters of one curve/field pairing: the foreign-field modulus, the
//! curve constants, the scalar-field modulus with its bit length, and the
//! limb layout used when a coordinate is exposed as public input.

use vstd::prelude::*;
use vstd::arithmetic::div_mod::*;
use vstd::arithmetic::mul::*;
use vstd::arithmetic::power2::{pow2, lemma2_to64, lemma_pow2_adds, lemma_pow2_strictly_increases};
use crate::modular::{fadd, fmul, mul_mod, reduce_mod, lemma_fmul_reduces};
use crate::primality::{is_prime, check_prime};

verus! {

/// Layout of a foreign-field value as limbs over the native field: how many
/// limbs, and how many bits each one carries.
#[derive(Clone, Copy, Debug, PartialEq, Eq, Structural)]
pub struct RnsParams {
    pub bit_len_limb: u64,
    pub number_of_limbs: u64,
}

impl RnsParams {
    /// The limbs cover a full machine word and every shift stays in range.
    pub open spec fn wf(self) -> bool {
        &&& 1 <= self.bit_len_limb <= 68
        &&& 1 <= self.number_of_limbs
        &&& self.number_of_limbs * self.bit_len_limb >= 64
        &&& self.number_of_limbs * self.bit_len_limb <= 128
    }

    /// Builds the layout for a given limb width: just enough limbs to cover
    /// a machine word.
    pub fn construct(bit_len_limb: u64) -> (r: Option<RnsParams>)
        ensures
            (r is Some) <==> 1 <= bit_len_limb <= 68,
            r matches Some(v) ==> v.bit_len_limb == bit_len_limb && v.number_of_limbs == (63
                + bit_len_limb) / (bit_len_limb as int) && v.wf(),
    {
        if bit_len_limb < 1 || bit_len_limb > 68 {
            return None;
        }
        let b = bit_len_limb;
        let n = (63 + b) / b;
        proof {
            let bi = b as int;
            lemma_fundamental_div_mod(63 + bi, bi);
            lemma_mod_bound(63 + bi, bi);
            let q = (63 + bi) / bi;
            let rr = (63 + bi) % bi;
            assert(63 + bi == bi * q + rr);
            if q <= 0 {
                lemma_mul_inequality(q, 0, bi);
                lemma_mul_is_commutative(q, bi);
                assert(bi * q <= 0);
                assert(false);
            }
            assert(q * bi == 63 + bi - rr) by {
                lemma_mul_is_commutative(q, bi);
            }
            assert(q * bi >= 64);
            if b >= 64 {
                if q >= 2 {
                    lemma_mul_inequality(2, q, bi);
                    lemma_mul_is_commutative(q, bi);
                    assert(false);
                }
                assert(q == 1);
                assert(q * bi == bi) by {
                    lemma_mul_basics(bi);
                }
            } else {
                assert(q * bi <= 63 + bi);
            }
            assert(n as int == q);
            assert(1 <= n);
            assert(n as int * bi >= 64);
            assert(n as int * bi <= 128);
        }
        Some(RnsParams { bit_len_limb, number_of_limbs: n })
    }
}

/// The defining data of the emulated curve `y^2 = x^3 + a*x + b` over the
/// prime field of `modulus` elements, with a scalar field of `order`
/// elements written on `num_bits` bits.
#[derive(Clone, Copy, Debug, PartialEq, Eq, Structural)]
pub struct CurveParams {
    pub modulus: u64,
    pub a: u64,
    pub b: u64,
    pub order: u64,
    pub num_bits: u64,
    pub rns: RnsParams,
}

/// The curve's discriminant quantity `4*a^3 + 27*b^2` does not vanish.
pub open spec fn nonsingular(p: int, a: int, b: int) -> bool {
    fadd(p, fmul(p, 4, fmul(p, a, fmul(p, a, a))), fmul(p, 27, fmul(p, b, b))) != 0
}

/// Everything `CurveParams::new` checks, except the limb layout.
pub open spec fn curve_ok(modulus: int, a: int, b: int, order: int, num_bits: int) -> bool {
    &&& is_prime(modulus as nat)
    &&& modulus >= 3
    &&& 0 <= a < modulus
    &&& 0 <= b < modulus
    &&& nonsingular(modulus, a, b)
    &&& order >= 2
    &&& 1 <= num_bits <= 64
    &&& order <= pow2(num_bits as nat)
    &&& pow2((num_bits - 1) as nat) < order
}

impl CurveParams {
    pub open spec fn wf(self) -> bool {
        &&& curve_ok(
            self.modulus as int,
            self.a as int,
            self.b as int,
            self.order as int,
            self.num_bits as int,
        )
        &&& self.rns.wf()
    }

    /// Validates and packages the curve description; `None` exactly when one
    /// of the stated conditions fails.
    pub fn new(modulus: u64, a: u64, b: u64, order: u64, num_bits: u64, bit_len_limb: u64) -> (r:
        Option<CurveParams>)
        ensures
            (r is Some) <==> curve_ok(modulus as int, a as int, b as int, order as int,
                num_bits as int) && 1 <= bit_len_limb <= 68,
            r matches Some(c) ==> c == (CurveParams {
                modulus,
                a,
                b,
                order,
                num_bits,
                rns: c.rns,
            }) && c.rns.bit_len_limb == bit_len_limb && c.rns.number_of_limbs == (63
                + bit_len_limb) / (bit_len_limb as int) && c.wf(),
    {
        if !check_prime(modulus) || modulus < 3 {
            return None;
        }
        if a >= modulus || b >= modulus {
            return None;
        }
        // discriminant quantity 4*a^3 + 27*b^2, all modulo the field size
        let a2 = mul_mod(a, a, modulus);
        let a3 = mul_mod(a, a2, modulus);
        let b2 = mul_mod(b, b, modulus);
        let t4 = reduce_mod(4, modulus);
        let t27 = reduce_mod(27, modulus);
        let d0 = mul_mod(t4, a3, modulus);
        let d1 = mul_mod(t27, b2, modulus);
        let disc = crate::modular::add_mod(d0, d1, modulus);
        proof {
            lemma_fmul_reduces(modulus as int, 4, fmul(modulus as int, a as int, a2 as int));
            lemma_fmul_reduces(modulus as int, 27, fmul(modulus as int, b as int, b as int));
        }
        if disc == 0 {
            return None;
        }
        if order < 2 || num_bits < 1 || num_bits > 64 {
            return None;
        }
        let hi = pow2_u128(num_bits);
        let lo = pow2_u128(num_bits - 1);
        if order as u128 > hi || order as u128 <= lo {
            return None;
        }
        match RnsParams::construct(bit_len_limb) {
            Some(rns) => Some(
                CurveParams { modulus, a, b, order, num_bits, rns },
            ),
            None => None,
        }
    }
}

/// Powers of two up to `2^68` stay within a `u128`.
pub proof fn lemma_pow2_le_68(e: nat)
    requires
        e <= 68,
    ensures
        pow2(e) <= 0x10_0000_0000_0000_0000,
{
    lemma2_to64();
    lemma_pow2_adds(64, 4);
    if e < 68 {
        lemma_pow2_strictly_increases(e, 68);
    }
}

/// `2^e` as a machine value, for exponents small enough to fit.
pub fn pow2_u128(e: u64) -> (r: u128)
    requires
        e <= 68,
    ensures
        r == pow2(e as nat),
{
    let mut pw: u128 = 1;
    let mut i: u64 = 0;
    proof {
        lemma2_to64();
    }
    while i < e
        invariant
            i <= e <= 68,
            pw == pow2(i as nat),
        decreases e - i,
    {
        proof {
            lemma_pow2_adds(i as nat, 1);
            lemma2_to64();
            lemma_pow2_le_68((i + 1) as nat);
        }
        pw = pw * 2;
        i = i + 1;
    }
    pw
}

} // verus!

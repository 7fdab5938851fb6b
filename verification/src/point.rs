//! Assigned points: the gadget-side representation of a curve point. The
//! point at infinity has no assigned form; both coordinates are canonical
//! residues of the foreign field.

use vstd::prelude::*;
use crate::params::CurveParams;
use crate::curve::{CurvePoint, on_curve};
use crate::limbs::{limb, decompose_limbs};

verus! {

/// A point whose coordinates have been assigned as foreign-field witnesses.
#[derive(Clone, Copy, Debug, PartialEq, Eq, Structural)]
pub struct AssignedPoint {
    pub x: u64,
    pub y: u64,
}

impl AssignedPoint {
    /// Both coordinates are canonical residues.
    pub open spec fn wf(self, c: CurveParams) -> bool {
        self.x < c.modulus && self.y < c.modulus
    }

    /// The coordinates satisfy the curve equation.
    pub open spec fn is_on_curve(self, c: CurveParams) -> bool {
        on_curve(c, self.x as int, self.y as int)
    }

    /// The same point in the complete, off-circuit form.
    pub open spec fn affine(self) -> CurvePoint {
        CurvePoint::Affine { x: self.x, y: self.y }
    }

    /// The limb decomposition that public exposure uses: the limbs of `x`
    /// in ascending order, then the limbs of `y` in ascending order.
    pub fn public(&self, c: &CurveParams) -> (r: Vec<u64>)
        requires
            c.wf(),
        ensures
            r@.len() == 2 * c.rns.number_of_limbs,
            forall|i: int|
                0 <= i < c.rns.number_of_limbs ==> r@[i] == limb(
                    self.x as int,
                    c.rns.bit_len_limb as nat,
                    i as nat,
                ),
            forall|i: int|
                0 <= i < c.rns.number_of_limbs ==> #[trigger] r@[c.rns.number_of_limbs + i]
                    == limb(self.y as int, c.rns.bit_len_limb as nat, i as nat),
    {
        let xl = decompose_limbs(self.x, c.rns);
        let yl = decompose_limbs(self.y, c.rns);
        let n = xl.len();
        let mut out: Vec<u64> = Vec::new();
        let mut i: usize = 0;
        while i < n
            invariant
                n == xl@.len(),
                i <= n,
                out@.len() == i,
                forall|j: int| 0 <= j < i ==> out@[j] == xl@[j],
            decreases n - i,
        {
            let v = xl[i];
            out.push(v);
            i = i + 1;
        }
        let mut k: usize = 0;
        let m = yl.len();
        while k < m
            invariant
                n == xl@.len(),
                m == yl@.len(),
                k <= m,
                out@.len() == n + k,
                forall|j: int| 0 <= j < n ==> out@[j] == xl@[j],
                forall|j: int| 0 <= j < k ==> out@[n + j] == yl@[j],
            decreases m - k,
        {
            let v = yl[k];
            out.push(v);
            k = k + 1;
        }
        proof {
            assert forall|i: int| 0 <= i < c.rns.number_of_limbs implies #[trigger] out@[c.rns.number_of_limbs
                + i] == limb(self.y as int, c.rns.bit_len_limb as nat, i as nat) by {
                assert(out@[n + i] == yl@[i]);
            }
        }
        out
    }
}

} // verus!

//! The general-curve chip: the same gadget family behind a trait, for
//! callers generic over the instruction set, with the emulated curve's
//! scalar field carried alongside the base field.

use vstd::prelude::*;
use vstd::arithmetic::power2::pow2;
use crate::modular::fneg;
use crate::params::{CurveParams, RnsParams};
use crate::curve::{CurvePoint, ec_add, ec_mul, on_curve, sub_aux_scalar_spec};
use crate::point::AssignedPoint;
use crate::incomplete::{padd, pdouble};
use crate::base_field_ecc::{BaseFieldEccChip, MulAux};
use crate::windowed::{mul_windowed, batch_windowed};
use crate::schedule::window_count;
use crate::errors::Error;

verus! {

/// The instruction set of an elliptic-curve chip: what a circuit written
/// against a generic curve needs from it.
pub trait GeneralEccInstruction: Sized {
    /// The chip is in a usable state.
    spec fn inv(&self) -> bool;

    /// The curve/field parameters the chip is bound to.
    spec fn curve(&self) -> CurveParams;

    /// The assigned auxiliary generator, once witnessed.
    spec fn aux_to_add(&self) -> Option<AssignedPoint>;

    /// The registered "to subtract" point for a (window size, pair count)
    /// key, if any.
    spec fn aux_to_sub(&self, window_size: int, number_of_pairs: int) -> Option<AssignedPoint>;

    /// Assigns a point as witnesses; the point at infinity and
    /// out-of-range coordinates are refused, and curve membership is
    /// asserted.
    fn assign_point(&self, point: CurvePoint) -> (r: Result<AssignedPoint, Error>)
        requires
            self.inv(),
        ensures
            point is Identity ==> r == Err::<AssignedPoint, Error>(Error::Synthesis),
            point matches CurvePoint::Affine { x, y } ==> ((x >= self.curve().modulus || y
                >= self.curve().modulus) ==> r == Err::<AssignedPoint, Error>(Error::Synthesis)),
            point matches CurvePoint::Affine { x, y } ==> ((x < self.curve().modulus && y
                < self.curve().modulus) ==> r == (if on_curve(self.curve(), x as int, y as int) {
                Ok::<AssignedPoint, Error>(AssignedPoint { x, y })
            } else {
                Err::<AssignedPoint, Error>(Error::Unsatisfied)
            })),
            r matches Ok(q) ==> q.wf(self.curve()) && q.is_on_curve(self.curve());

    /// Emits the curve-equation constraint.
    fn assert_is_on_curve(&self, p: &AssignedPoint) -> (r: Result<(), Error>)
        requires
            self.inv(),
            p.wf(self.curve()),
        ensures
            (r is Ok) <==> p.is_on_curve(self.curve()),
            r matches Err(e) ==> e == Error::Unsatisfied;

    /// Emits per-coordinate equality constraints.
    fn assert_equal(&self, p0: &AssignedPoint, p1: &AssignedPoint) -> (r: Result<(), Error>)
        requires
            self.inv(),
            p0.wf(self.curve()),
            p1.wf(self.curve()),
        ensures
            (r is Ok) <==> *p0 == *p1,
            r matches Err(e) ==> e == Error::Unsatisfied;

    /// Conditional selection between two assigned points.
    fn select(&self, cnd: bool, p1: &AssignedPoint, p2: &AssignedPoint) -> (r: Result<
        AssignedPoint,
        Error,
    >)
        requires
            self.inv(),
        ensures
            r == Ok::<AssignedPoint, Error>(if cnd {
                *p1
            } else {
                *p2
            });

    /// Conditional selection between an assigned point and a constant.
    fn select_or_assign(&self, cnd: bool, p1: &AssignedPoint, p2: CurvePoint) -> (r: Result<
        AssignedPoint,
        Error,
    >)
        requires
            self.inv(),
        ensures
            p2 is Identity ==> r == Err::<AssignedPoint, Error>(Error::Synthesis),
            p2 matches CurvePoint::Affine { x, y } ==> r == Ok::<AssignedPoint, Error>(
                if cnd {
                    *p1
                } else {
                    AssignedPoint {
                        x: (x as int % self.curve().modulus as int) as u64,
                        y: (y as int % self.curve().modulus as int) as u64,
                    }
                },
            );

    /// Incomplete addition of two points with distinct x-coordinates.
    fn add(&self, p0: &AssignedPoint, p1: &AssignedPoint) -> (r: Result<AssignedPoint, Error>)
        requires
            self.inv(),
            p0.wf(self.curve()),
            p1.wf(self.curve()),
        ensures
            (r is Ok) <==> p0.x != p1.x,
            r matches Ok(q) ==> Some(q) == padd(self.curve(), *p0, *p1) && q.wf(self.curve()),
            r matches Ok(q) ==> q.affine() == ec_add(self.curve(), p0.affine(), p1.affine()),
            r matches Err(e) ==> e == Error::Unsatisfied;

    /// Incomplete doubling by the tangent formula.
    fn double(&self, p: &AssignedPoint) -> (r: Result<AssignedPoint, Error>)
        requires
            self.inv(),
            p.wf(self.curve()),
        ensures
            (r is Ok) <==> p.y != 0,
            r matches Ok(q) ==> Some(q) == pdouble(self.curve(), *p) && q.wf(self.curve()),
            r matches Ok(q) ==> q.affine() == ec_add(self.curve(), p.affine(), p.affine()),
            r matches Err(e) ==> e == Error::Unsatisfied;

    /// The negated point.
    fn neg(&self, p: &AssignedPoint) -> (r: Result<AssignedPoint, Error>)
        requires
            self.inv(),
            p.wf(self.curve()),
        ensures
            r == Ok::<AssignedPoint, Error>(
                AssignedPoint { x: p.x, y: fneg(self.curve().modulus as int, p.y as int) as u64 },
            );

    /// Variable-base scalar multiplication through the narrowest window:
    /// a precondition failure while the auxiliary pair for one-bit windows
    /// and a single operand is missing, and otherwise exactly the windowed
    /// schedule over the assigned values.
    fn mul_var(&self, point: &AssignedPoint, scalar: u64) -> (r: Result<AssignedPoint, Error>)
        requires
            self.inv(),
            point.wf(self.curve()),
            self.curve().num_bits >= 2,
            scalar < pow2(self.curve().num_bits as nat),
        ensures
            self.aux_to_add() is None ==> r == Err::<AssignedPoint, Error>(Error::Synthesis),
            self.aux_to_add() is Some && self.aux_to_sub(1, 1) is None ==> r == Err::<
                AssignedPoint,
                Error,
            >(Error::Synthesis),
            self.aux_to_add() matches Some(g) ==> (self.aux_to_sub(1, 1) matches Some(sb) ==> (
            match mul_windowed(
                self.curve(),
                scalar as nat,
                1,
                window_count(self.curve().num_bits as nat, 1),
                *point,
                g,
                sb,
            ) {
                Some(q) => r == Ok::<AssignedPoint, Error>(q),
                None => r == Err::<AssignedPoint, Error>(Error::Unsatisfied),
            })),
            r matches Ok(q) ==> q.wf(self.curve());
}

/// The chip for a curve whose fields are both emulated, sharing the gadget
/// core with the base-field chip.
pub struct GeneralEccChip {
    pub chip: BaseFieldEccChip,
}

impl GeneralEccChip {
    /// All constituent state is usable.
    pub open spec fn wf(self) -> bool {
        self.chip.wf()
    }

    /// A fresh chip over the given parameters.
    pub fn new(params: CurveParams) -> (r: Self)
        requires
            params.wf(),
        ensures
            r.chip.params == params,
            r.chip.aux_generator is None,
            r.chip.aux_registry@.len() == 0,
            r.wf(),
    {
        GeneralEccChip { chip: BaseFieldEccChip::new(params) }
    }

    /// The limb layout of the base-field representation.
    pub fn rns_base(&self) -> (r: RnsParams)
        ensures
            r == self.chip.params.rns,
    {
        self.chip.params.rns
    }

    /// The emulated curve's constant `a`.
    pub fn parameter_a(&self) -> (r: u64)
        ensures
            r == self.chip.params.a,
    {
        self.chip.params.a
    }

    /// The emulated curve's constant `b`.
    pub fn parameter_b(&self) -> (r: u64)
        ensures
            r == self.chip.params.b,
    {
        self.chip.params.b
    }

    /// Whether the curve constant `a` vanishes, enabling the shortened
    /// curve-equation check.
    pub fn is_a_0(&self) -> (r: bool)
        ensures
            r == (self.chip.params.a == 0),
    {
        self.chip.params.a == 0
    }

    /// Witnesses the auxiliary generator; set exactly once per circuit
    /// instance.
    pub fn assign_aux_generator(&mut self, point: CurvePoint) -> (r: Result<(), Error>)
        requires
            old(self).wf(),
            old(self).chip.aux_generator is None,
        ensures
            final(self).chip.params == old(self).chip.params,
            final(self).chip.aux_registry == old(self).chip.aux_registry,
            final(self).wf(),
            r matches Ok(u) ==> point matches CurvePoint::Affine { x, y } && x
                < old(self).chip.params.modulus && y < old(self).chip.params.modulus && on_curve(
                old(self).chip.params,
                x as int,
                y as int,
            ) && final(self).chip.aux_generator == Some(AssignedPoint { x, y }),
            r matches Err(e) ==> *final(self) == *old(self) && (e == Error::Synthesis
                || e == Error::Unsatisfied),
            r is Err ==> (point is Identity || (point matches CurvePoint::Affine { x, y } && (x
                >= old(self).chip.params.modulus || y >= old(self).chip.params.modulus
                || !on_curve(old(self).chip.params, x as int, y as int)))),
    {
        self.chip.assign_aux_generator(point)
    }

    /// Derives and registers the auxiliary point for one schedule.
    /// Registration is lazy and append-only: a key already present is left
    /// untouched.
    pub fn assign_aux(&mut self, window_size: usize, number_of_pairs: usize) -> (r: Result<
        (),
        Error,
    >)
        requires
            old(self).wf(),
            1 <= window_size <= 64,
            1 <= number_of_pairs,
        ensures
            final(self).chip.params == old(self).chip.params,
            final(self).chip.aux_generator == old(self).chip.aux_generator,
            final(self).wf(),
            old(self).chip.aux_generator is None ==> r == Err::<(), Error>(Error::Synthesis)
                && *final(self) == *old(self),
            old(self).chip.aux_generator is Some && old(self).chip.lookup_aux(
                window_size as int,
                number_of_pairs as int,
            ) is Some ==> r == Ok::<(), Error>(()) && *final(self) == *old(self),
            ({
                let g = old(self).chip.aux_generator->Some_0;
                let d = ec_mul(
                    old(self).chip.params,
                    sub_aux_scalar_spec(
                        old(self).chip.params,
                        window_size as nat,
                        number_of_pairs as nat,
                    ),
                    g.affine(),
                );
                old(self).chip.aux_generator is Some && old(self).chip.lookup_aux(
                    window_size as int,
                    number_of_pairs as int,
                ) is None ==> {
                    &&& (d is Identity ==> r == Err::<(), Error>(Error::Synthesis) && *final(self)
                        == *old(self))
                    &&& (d matches CurvePoint::Affine { x, y } ==> ((!on_curve(
                        old(self).chip.params,
                        x as int,
                        y as int,
                    ) ==> r == Err::<(), Error>(Error::Unsatisfied) && *final(self) == *old(self))
                        && (on_curve(old(self).chip.params, x as int, y as int) ==> r == Ok::<
                        (),
                        Error,
                    >(()) && final(self).chip.lookup_aux(
                        window_size as int,
                        number_of_pairs as int,
                    ) == Some(AssignedPoint { x, y }) && (forall|w2: int, n2: int|
                        !(w2 == window_size as int && n2 == number_of_pairs as int)
                            ==> #[trigger] final(self).chip.lookup_aux(w2, n2) == old(
                            self,
                        ).chip.lookup_aux(w2, n2)))))
                }
            }),
    {
        self.chip.assign_aux(window_size, number_of_pairs)
    }

    /// Hands out the auxiliary pair for one schedule.
    pub fn get_mul_aux(&self, window_size: usize, number_of_pairs: usize) -> (r: Result<
        MulAux,
        Error,
    >)
        requires
            self.wf(),
        ensures
            self.chip.aux_generator is None ==> r == Err::<MulAux, Error>(Error::Synthesis),
            self.chip.aux_generator is Some && self.chip.lookup_aux(
                window_size as int,
                number_of_pairs as int,
            ) is None ==> r == Err::<MulAux, Error>(Error::Synthesis),
            self.chip.aux_generator matches Some(g) ==> (self.chip.lookup_aux(
                window_size as int,
                number_of_pairs as int,
            ) matches Some(s) ==> r == Ok::<MulAux, Error>(MulAux { to_add: g, to_sub: s })),
            r matches Ok(aux) ==> aux.to_add.wf(self.chip.params) && aux.to_sub.wf(
                self.chip.params,
            ),
    {
        self.chip.get_mul_aux(window_size, number_of_pairs)
    }

    /// Windowed scalar multiplication of an assigned point by an assigned
    /// scalar of the emulated scalar field.
    pub fn mul(&self, point: &AssignedPoint, scalar: u64, window_size: usize) -> (r: Result<
        AssignedPoint,
        Error,
    >)
        requires
            self.wf(),
            point.wf(self.chip.params),
            1 <= window_size <= 31,
            window_count(self.chip.params.num_bits as nat, window_size as nat) >= 2,
            scalar < pow2(self.chip.params.num_bits as nat),
        ensures
            self.chip.aux_generator is None ==> r == Err::<AssignedPoint, Error>(Error::Synthesis),
            self.chip.aux_generator is Some && self.chip.lookup_aux(window_size as int, 1)
                is None ==> r == Err::<AssignedPoint, Error>(Error::Synthesis),
            self.chip.aux_generator matches Some(g) ==> (self.chip.lookup_aux(
                window_size as int,
                1,
            ) matches Some(sb) ==> (match mul_windowed(
                self.chip.params,
                scalar as nat,
                window_size as nat,
                window_count(self.chip.params.num_bits as nat, window_size as nat),
                *point,
                g,
                sb,
            ) {
                Some(q) => r == Ok::<AssignedPoint, Error>(q),
                None => r == Err::<AssignedPoint, Error>(Error::Unsatisfied),
            })),
            r matches Ok(q) ==> q.wf(self.chip.params),
    {
        self.chip.mul(point, scalar, window_size)
    }

    /// Batched multi-scalar multiplication with a shared accumulator and
    /// doubling schedule.
    pub fn mul_batch_1d_horizontal(&self, pairs: &Vec<(AssignedPoint, u64)>, window_size: usize) -> (r:
        Result<AssignedPoint, Error>)
        requires
            self.wf(),
            1 <= window_size <= 31,
            1 <= pairs@.len(),
            forall|i: int|
                0 <= i < pairs@.len() ==> (#[trigger] pairs@[i]).0.wf(self.chip.params)
                    && pairs@[i].1 < pow2(self.chip.params.num_bits as nat),
        ensures
            self.chip.aux_generator is None ==> r == Err::<AssignedPoint, Error>(Error::Synthesis),
            self.chip.aux_generator is Some && self.chip.lookup_aux(
                window_size as int,
                pairs@.len() as int,
            ) is None ==> r == Err::<AssignedPoint, Error>(Error::Synthesis),
            self.chip.aux_generator matches Some(g) ==> (self.chip.lookup_aux(
                window_size as int,
                pairs@.len() as int,
            ) matches Some(sb) ==> (match batch_windowed(
                self.chip.params,
                pairs@,
                window_size as nat,
                window_count(self.chip.params.num_bits as nat, window_size as nat),
                g,
                sb,
            ) {
                Some(q) => r == Ok::<AssignedPoint, Error>(q),
                None => r == Err::<AssignedPoint, Error>(Error::Unsatisfied),
            })),
            r matches Ok(q) ==> q.wf(self.chip.params),
    {
        self.chip.mul_batch_1d_horizontal(pairs, window_size)
    }
}

impl GeneralEccInstruction for GeneralEccChip {
    open spec fn inv(&self) -> bool {
        self.wf()
    }

    open spec fn curve(&self) -> CurveParams {
        self.chip.params
    }

    open spec fn aux_to_add(&self) -> Option<AssignedPoint> {
        self.chip.aux_generator
    }

    open spec fn aux_to_sub(&self, window_size: int, number_of_pairs: int) -> Option<
        AssignedPoint,
    > {
        self.chip.lookup_aux(window_size, number_of_pairs)
    }

    fn assign_point(&self, point: CurvePoint) -> (r: Result<AssignedPoint, Error>) {
        self.chip.assign_point(point)
    }

    fn assert_is_on_curve(&self, p: &AssignedPoint) -> (r: Result<(), Error>) {
        self.chip.assert_is_on_curve(p)
    }

    fn assert_equal(&self, p0: &AssignedPoint, p1: &AssignedPoint) -> (r: Result<(), Error>) {
        self.chip.assert_equal(p0, p1)
    }

    fn select(&self, cnd: bool, p1: &AssignedPoint, p2: &AssignedPoint) -> (r: Result<
        AssignedPoint,
        Error,
    >) {
        self.chip.select(cnd, p1, p2)
    }

    fn select_or_assign(&self, cnd: bool, p1: &AssignedPoint, p2: CurvePoint) -> (r: Result<
        AssignedPoint,
        Error,
    >) {
        self.chip.select_or_assign(cnd, p1, p2)
    }

    fn add(&self, p0: &AssignedPoint, p1: &AssignedPoint) -> (r: Result<AssignedPoint, Error>) {
        self.chip.add(p0, p1)
    }

    fn double(&self, p: &AssignedPoint) -> (r: Result<AssignedPoint, Error>) {
        self.chip.double(p)
    }

    fn neg(&self, p: &AssignedPoint) -> (r: Result<AssignedPoint, Error>) {
        self.chip.neg(p)
    }

    fn mul_var(&self, point: &AssignedPoint, scalar: u64) -> (r: Result<AssignedPoint, Error>) {
        proof {
            lemma_min_window_count(self.chip.params.num_bits as nat);
        }
        self.chip.mul(point, scalar, 1)
    }
}

/// With the narrowest window every scalar bit is its own window.
proof fn lemma_min_window_count(bits: nat)
    ensures
        window_count(bits, 1) == bits,
{
    vstd::arithmetic::div_mod::lemma_div_basics(bits as int);
}

} // verus!

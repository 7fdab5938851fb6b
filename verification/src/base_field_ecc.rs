//! The ECC chip: point assignment and assertions, conditional selection,
//! negation and the incomplete operations, the auxiliary-point registry,
//! and public exposure of a point's limbs.

use vstd::prelude::*;
use vstd::arithmetic::div_mod::lemma_small_mod;
use crate::modular::{fneg, add_mod, mul_mod, reduce_mod, neg_mod};
use crate::params::{CurveParams, RnsParams};
use crate::curve::{CurvePoint, ec_add, ec_mul, on_curve, make_mul_aux, sub_aux_scalar_spec};
use crate::point::AssignedPoint;
use crate::incomplete::{padd, pdouble, pdouble_n, pladder, add_incomplete, double_incomplete,
    ladder_incomplete};
use crate::limbs::limb;
use crate::errors::Error;

verus! {

/// The two auxiliary points of one multiplication schedule: the offset that
/// seeds every lookup table, and the point that removes the accumulated
/// offset at the end.
#[derive(Clone, Copy, Debug, PartialEq, Eq, Structural)]
pub struct MulAux {
    pub to_add: AssignedPoint,
    pub to_sub: AssignedPoint,
}

/// One registered "to subtract" point, keyed by window size and number of
/// pairs.
#[derive(Clone, Copy, Debug, PartialEq, Eq, Structural)]
pub struct AuxEntry {
    pub window_size: usize,
    pub number_of_pairs: usize,
    pub point: AssignedPoint,
}

/// The first registered point under the given key, scanning in
/// registration order.
pub open spec fn registry_find(s: Seq<AuxEntry>, w: int, n: int) -> Option<AssignedPoint>
    decreases s.len(),
{
    if s.len() == 0 {
        None
    } else if s[0].window_size == w && s[0].number_of_pairs == n {
        Some(s[0].point)
    } else {
        registry_find(s.drop_first(), w, n)
    }
}

/// Looking a key up after a registration: the new entry answers for its own
/// key if that key was free, and no other key changes.
proof fn lemma_registry_find_push(s: Seq<AuxEntry>, e: AuxEntry, w: int, n: int)
    ensures
        e.window_size == w && e.number_of_pairs == n && registry_find(s, w, n) is None
            ==> registry_find(s.push(e), w, n) == Some(e.point),
        !(e.window_size == w && e.number_of_pairs == n) ==> registry_find(s.push(e), w, n)
            == registry_find(s, w, n),
    decreases s.len(),
{
    if s.len() == 0 {
        assert(s.push(e).drop_first() =~= Seq::<AuxEntry>::empty());
        assert(s.push(e)[0] == e);
        if !(e.window_size == w && e.number_of_pairs == n) {
            assert(registry_find(s.push(e), w, n) == registry_find(
                Seq::<AuxEntry>::empty(),
                w,
                n,
            ));
        }
    } else {
        lemma_registry_find_push(s.drop_first(), e, w, n);
        assert(s.push(e)[0] == s[0]);
        assert(s.push(e).drop_first() =~= s.drop_first().push(e));
        if s[0].window_size == w && s[0].number_of_pairs == n {
            assert(registry_find(s.push(e), w, n) == Some(s[0].point));
        } else {
            assert(registry_find(s.push(e), w, n) == registry_find(s.drop_first().push(e), w, n));
            assert(registry_find(s, w, n) == registry_find(s.drop_first(), w, n));
        }
    }
}

/// A key that the registry does not answer matches no entry at all.
proof fn lemma_registry_find_none_no_match(s: Seq<AuxEntry>, w: int, n: int)
    requires
        registry_find(s, w, n) is None,
    ensures
        forall|i: int|
            0 <= i < s.len() ==> !((#[trigger] s[i]).window_size == w && s[i].number_of_pairs
                == n),
    decreases s.len(),
{
    if s.len() > 0 {
        lemma_registry_find_none_no_match(s.drop_first(), w, n);
        assert forall|i: int|
            0 <= i < s.len() implies !((#[trigger] s[i]).window_size == w
            && s[i].number_of_pairs == n) by {
            if i > 0 {
                assert(s.drop_first()[i - 1] == s[i]);
            }
        }
    }
}

/// The elliptic-curve chip over one curve/field pairing: immutable
/// parameters, the auxiliary generator once assigned, and the append-only
/// registry of schedule-specific auxiliary points.
pub struct BaseFieldEccChip {
    pub params: CurveParams,
    pub aux_generator: Option<AssignedPoint>,
    pub aux_registry: Vec<AuxEntry>,
}

impl BaseFieldEccChip {
    /// Parameters valid, every stored point canonical, keys registered at
    /// most once.
    pub open spec fn wf(self) -> bool {
        &&& self.params.wf()
        &&& match self.aux_generator {
            Some(g) => g.wf(self.params),
            None => true,
        }
        &&& forall|i: int|
            0 <= i < self.aux_registry@.len() ==> (#[trigger] self.aux_registry@[i]).point.wf(
                self.params,
            ) && self.aux_registry@[i].window_size >= 1 && self.aux_registry@[i].number_of_pairs
                >= 1
        &&& forall|i: int, j: int|
            0 <= i < j < self.aux_registry@.len() ==> !((#[trigger] self.aux_registry@[i]).window_size
                == (#[trigger] self.aux_registry@[j]).window_size && self.aux_registry@[i].number_of_pairs
                == self.aux_registry@[j].number_of_pairs)
    }

    /// The registered point for a (window size, pair count) key, if any.
    pub open spec fn lookup_aux(self, w: int, n: int) -> Option<AssignedPoint> {
        registry_find(self.aux_registry@, w, n)
    }

    /// The limb layout in use.
    pub fn rns(&self) -> (r: RnsParams)
        ensures
            r == self.params.rns,
    {
        self.params.rns
    }

    /// A fresh chip over the given parameters: no auxiliary generator, an
    /// empty registry.
    pub fn new(params: CurveParams) -> (r: Self)
        requires
            params.wf(),
        ensures
            r.params == params,
            r.aux_generator is None,
            r.aux_registry@.len() == 0,
            r.wf(),
    {
        BaseFieldEccChip { params, aux_generator: None, aux_registry: Vec::new() }
    }

    /// Reduces a complete point into the chip's canonical coordinate form;
    /// the point at infinity has no such form and is refused.
    pub fn to_rns_point(&self, point: CurvePoint) -> (r: Result<AssignedPoint, Error>)
        requires
            self.wf(),
        ensures
            point is Identity ==> r == Err::<AssignedPoint, Error>(Error::Synthesis),
            point matches CurvePoint::Affine { x, y } ==> r == Ok::<AssignedPoint, Error>(
                AssignedPoint {
                    x: (x as int % self.params.modulus as int) as u64,
                    y: (y as int % self.params.modulus as int) as u64,
                },
            ),
            r matches Ok(q) ==> q.wf(self.params),
    {
        match point {
            CurvePoint::Identity => Err(Error::Synthesis),
            CurvePoint::Affine { x, y } => Ok(
                AssignedPoint {
                    x: reduce_mod(x, self.params.modulus),
                    y: reduce_mod(y, self.params.modulus),
                },
            ),
        }
    }

    /// Assigns a point as fixed constants; the coordinates are reduced, the
    /// point at infinity is refused, and no curve membership is enforced.
    pub fn assign_constant(&self, point: CurvePoint) -> (r: Result<AssignedPoint, Error>)
        requires
            self.wf(),
        ensures
            point is Identity ==> r == Err::<AssignedPoint, Error>(Error::Synthesis),
            point matches CurvePoint::Affine { x, y } ==> r == Ok::<AssignedPoint, Error>(
                AssignedPoint {
                    x: (x as int % self.params.modulus as int) as u64,
                    y: (y as int % self.params.modulus as int) as u64,
                },
            ),
            r matches Ok(q) ==> q.wf(self.params),
    {
        self.to_rns_point(point)
    }

    /// Assigns a point as witnesses: the point at infinity and coordinates
    /// outside the canonical range are refused before constraints are
    /// emitted, and the curve equation is then asserted.
    pub fn assign_point(&self, point: CurvePoint) -> (r: Result<AssignedPoint, Error>)
        requires
            self.wf(),
        ensures
            point is Identity ==> r == Err::<AssignedPoint, Error>(Error::Synthesis),
            point matches CurvePoint::Affine { x, y } ==> ((x >= self.params.modulus || y
                >= self.params.modulus) ==> r == Err::<AssignedPoint, Error>(Error::Synthesis)),
            point matches CurvePoint::Affine { x, y } ==> ((x < self.params.modulus && y
                < self.params.modulus) ==> r == (if on_curve(self.params, x as int, y as int) {
                Ok::<AssignedPoint, Error>(AssignedPoint { x, y })
            } else {
                Err::<AssignedPoint, Error>(Error::Unsatisfied)
            })),
            r matches Ok(q) ==> q.wf(self.params) && q.is_on_curve(self.params),
    {
        match point {
            CurvePoint::Identity => Err(Error::Synthesis),
            CurvePoint::Affine { x, y } => {
                if x >= self.params.modulus || y >= self.params.modulus {
                    return Err(Error::Synthesis);
                }
                let p = AssignedPoint { x, y };
                self.assert_is_on_curve(&p)?;
                Ok(p)
            },
        }
    }

    /// Emits the curve-equation constraint `y^2 == x^3 + a*x + b`;
    /// unsatisfied exactly when the point is not on the curve.
    pub fn assert_is_on_curve(&self, p: &AssignedPoint) -> (r: Result<(), Error>)
        requires
            self.wf(),
            p.wf(self.params),
        ensures
            (r is Ok) <==> p.is_on_curve(self.params),
            r matches Err(e) ==> e == Error::Unsatisfied,
    {
        let m = self.params.modulus;
        let y_square = mul_mod(p.y, p.y, m);
        let x_square = mul_mod(p.x, p.x, m);
        let x_cube = mul_mod(p.x, x_square, m);
        let a_x = mul_mod(self.params.a, p.x, m);
        let rhs = add_mod(add_mod(x_cube, a_x, m), self.params.b, m);
        if y_square == rhs {
            Ok(())
        } else {
            Err(Error::Unsatisfied)
        }
    }

    /// Emits per-coordinate equality constraints; unsatisfied exactly when
    /// the canonical coordinates differ.
    pub fn assert_equal(&self, p0: &AssignedPoint, p1: &AssignedPoint) -> (r: Result<(), Error>)
        requires
            self.wf(),
            p0.wf(self.params),
            p1.wf(self.params),
        ensures
            (r is Ok) <==> *p0 == *p1,
            r matches Err(e) ==> e == Error::Unsatisfied,
    {
        if p0.x == p1.x && p0.y == p1.y {
            Ok(())
        } else {
            Err(Error::Unsatisfied)
        }
    }

    /// Conditional selection between two assigned points.
    pub fn select(&self, cnd: bool, p1: &AssignedPoint, p2: &AssignedPoint) -> (r: Result<
        AssignedPoint,
        Error,
    >)
        requires
            self.wf(),
        ensures
            r == Ok::<AssignedPoint, Error>(if cnd {
                *p1
            } else {
                *p2
            }),
    {
        if cnd {
            Ok(*p1)
        } else {
            Ok(*p2)
        }
    }

    /// Conditional selection between an assigned point and a constant
    /// point; the constant is reduced on assignment and the point at
    /// infinity is refused.
    pub fn select_or_assign(&self, cnd: bool, p1: &AssignedPoint, p2: CurvePoint) -> (r: Result<
        AssignedPoint,
        Error,
    >)
        requires
            self.wf(),
        ensures
            p2 is Identity ==> r == Err::<AssignedPoint, Error>(Error::Synthesis),
            p2 matches CurvePoint::Affine { x, y } ==> r == Ok::<AssignedPoint, Error>(
                if cnd {
                    *p1
                } else {
                    AssignedPoint {
                        x: (x as int % self.params.modulus as int) as u64,
                        y: (y as int % self.params.modulus as int) as u64,
                    }
                },
            ),
    {
        let q = self.to_rns_point(p2)?;
        if cnd {
            Ok(*p1)
        } else {
            Ok(q)
        }
    }

    /// Reduces both coordinates to canonical form.
    pub fn normalize(&self, p: &AssignedPoint) -> (r: Result<AssignedPoint, Error>)
        requires
            self.wf(),
        ensures
            r == Ok::<AssignedPoint, Error>(
                AssignedPoint {
                    x: (p.x as int % self.params.modulus as int) as u64,
                    y: (p.y as int % self.params.modulus as int) as u64,
                },
            ),
            r matches Ok(q) ==> q.wf(self.params),
    {
        Ok(
            AssignedPoint {
                x: reduce_mod(p.x, self.params.modulus),
                y: reduce_mod(p.y, self.params.modulus),
            },
        )
    }

    /// The negated point: the y-coordinate is replaced by its additive
    /// inverse.
    pub fn neg(&self, p: &AssignedPoint) -> (r: Result<AssignedPoint, Error>)
        requires
            self.wf(),
            p.wf(self.params),
        ensures
            r == Ok::<AssignedPoint, Error>(
                AssignedPoint { x: p.x, y: fneg(self.params.modulus as int, p.y as int) as u64 },
            ),
            r matches Ok(q) ==> q.wf(self.params),
    {
        Ok(AssignedPoint { x: p.x, y: neg_mod(p.y, self.params.modulus) })
    }

    /// Incomplete addition of two distinct points: asserts the
    /// x-coordinates differ, which rules out both equal and opposite
    /// operands, then applies the chord formula.
    pub fn add(&self, p0: &AssignedPoint, p1: &AssignedPoint) -> (r: Result<AssignedPoint, Error>)
        requires
            self.wf(),
            p0.wf(self.params),
            p1.wf(self.params),
        ensures
            (r is Ok) <==> p0.x != p1.x,
            r matches Ok(q) ==> Some(q) == padd(self.params, *p0, *p1) && q.wf(self.params),
            r matches Ok(q) ==> q.affine() == ec_add(self.params, p0.affine(), p1.affine()),
            r matches Err(e) ==> e == Error::Unsatisfied,
    {
        add_incomplete(&self.params, p0, p1)
    }

    /// Incomplete doubling by the tangent formula; the caller is expected
    /// to have established that the point is on the curve and not the
    /// identity.
    pub fn double(&self, p: &AssignedPoint) -> (r: Result<AssignedPoint, Error>)
        requires
            self.wf(),
            p.wf(self.params),
        ensures
            (r is Ok) <==> p.y != 0,
            r matches Ok(q) ==> Some(q) == pdouble(self.params, *p) && q.wf(self.params),
            r matches Ok(q) ==> q.affine() == ec_add(self.params, p.affine(), p.affine()),
            r matches Err(e) ==> e == Error::Unsatisfied,
    {
        double_incomplete(&self.params, p)
    }

    /// `logn` doublings in sequence.
    pub fn double_n(&self, p: &AssignedPoint, logn: usize) -> (r: Result<AssignedPoint, Error>)
        requires
            self.wf(),
            p.wf(self.params),
        ensures
            (r is Ok) <==> pdouble_n(self.params, *p, logn as nat) is Some,
            r matches Ok(q) ==> Some(q) == pdouble_n(self.params, *p, logn as nat) && q.wf(
                self.params,
            ),
            r matches Err(e) ==> e == Error::Unsatisfied,
    {
        let mut acc = *p;
        let mut i: usize = 0;
        while i < logn
            invariant
                self.wf(),
                p.wf(self.params),
                i <= logn,
                Some(acc) == pdouble_n(self.params, *p, i as nat),
                acc.wf(self.params),
            decreases logn - i,
        {
            match double_incomplete(&self.params, &acc) {
                Ok(q) => {
                    acc = q;
                },
                Err(e) => {
                    proof {
                        lemma_small_mod(0, self.params.modulus as nat);
                        assert(pdouble(self.params, acc) is None);
                        assert(pdouble_n(self.params, *p, (i + 1) as nat) is None);
                        lemma_pdouble_n_stays_none(self.params, *p, (i + 1) as nat, logn as nat);
                    }
                    return Err(e);
                },
            }
            i = i + 1;
        }
        Ok(acc)
    }

    /// The ladder `2*P + Q`, fused so that the intermediate y-coordinate is
    /// never materialized.
    pub fn ladder(&self, to_double: &AssignedPoint, to_add: &AssignedPoint) -> (r: Result<
        AssignedPoint,
        Error,
    >)
        requires
            self.wf(),
            to_double.wf(self.params),
            to_add.wf(self.params),
        ensures
            (r is Ok) <==> pladder(self.params, *to_double, *to_add) is Some,
            r matches Ok(q) ==> Some(q) == pladder(self.params, *to_double, *to_add) && q.wf(
                self.params,
            ),
            r matches Ok(q) ==> q.affine() == ec_add(
                self.params,
                ec_add(self.params, to_double.affine(), to_add.affine()),
                to_double.affine(),
            ),
            r matches Err(e) ==> e == Error::Unsatisfied,
    {
        ladder_incomplete(&self.params, to_double, to_add)
    }

    /// Witnesses the auxiliary generator; kept both for the schedules (as
    /// an assigned point) and for deriving registry entries off-circuit.
    /// The generator is set exactly once per circuit instance, so that
    /// registered points always pair with the generator they were derived
    /// from.
    pub fn assign_aux_generator(&mut self, point: CurvePoint) -> (r: Result<(), Error>)
        requires
            old(self).wf(),
            old(self).aux_generator is None,
        ensures
            final(self).params == old(self).params,
            final(self).aux_registry == old(self).aux_registry,
            final(self).wf(),
            r matches Ok(u) ==> point matches CurvePoint::Affine { x, y } && x
                < old(self).params.modulus && y < old(self).params.modulus && on_curve(
                old(self).params,
                x as int,
                y as int,
            ) && final(self).aux_generator == Some(AssignedPoint { x, y }),
            r matches Err(e) ==> *final(self) == *old(self) && (e == Error::Synthesis
                || e == Error::Unsatisfied),
            r is Err ==> (point is Identity || (point matches CurvePoint::Affine { x, y } && (x
                >= old(self).params.modulus || y >= old(self).params.modulus || !on_curve(
                old(self).params,
                x as int,
                y as int,
            )))),
    {
        match self.assign_point(point) {
            Ok(p) => {
                self.aux_generator = Some(p);
                Ok(())
            },
            Err(e) => Err(e),
        }
    }

    /// Derives and registers, off-circuit, the "to subtract" point for one
    /// (window size, pair count) schedule. Registration is lazy and
    /// append-only: a key already present is left untouched.
    pub fn assign_aux(&mut self, window_size: usize, number_of_pairs: usize) -> (r: Result<
        (),
        Error,
    >)
        requires
            old(self).wf(),
            1 <= window_size <= 64,
            1 <= number_of_pairs,
        ensures
            final(self).params == old(self).params,
            final(self).aux_generator == old(self).aux_generator,
            final(self).wf(),
            old(self).aux_generator is None ==> r == Err::<(), Error>(Error::Synthesis)
                && *final(self) == *old(self),
            old(self).aux_generator is Some && old(self).lookup_aux(
                window_size as int,
                number_of_pairs as int,
            ) is Some ==> r == Ok::<(), Error>(()) && *final(self) == *old(self),
            ({
                let g = old(self).aux_generator->Some_0;
                let d = ec_mul(
                    old(self).params,
                    sub_aux_scalar_spec(
                        old(self).params,
                        window_size as nat,
                        number_of_pairs as nat,
                    ),
                    g.affine(),
                );
                old(self).aux_generator is Some && old(self).lookup_aux(
                    window_size as int,
                    number_of_pairs as int,
                ) is None ==> {
                    &&& (d is Identity ==> r == Err::<(), Error>(Error::Synthesis) && *final(self)
                        == *old(self))
                    &&& (d matches CurvePoint::Affine { x, y } ==> ((!on_curve(
                        old(self).params,
                        x as int,
                        y as int,
                    ) ==> r == Err::<(), Error>(Error::Unsatisfied) && *final(self) == *old(self))
                        && (on_curve(old(self).params, x as int, y as int) ==> r == Ok::<
                        (),
                        Error,
                    >(()) && final(self).lookup_aux(window_size as int, number_of_pairs as int)
                        == Some(AssignedPoint { x, y }) && (forall|w2: int, n2: int|
                        !(w2 == window_size as int && n2 == number_of_pairs as int)
                            ==> #[trigger] final(self).lookup_aux(w2, n2) == old(self).lookup_aux(
                            w2,
                            n2,
                        )))))
                }
            }),
    {
        let g = match self.aux_generator {
            Some(g) => g,
            None => {
                return Err(Error::Synthesis);
            },
        };
        if self.contains_aux(window_size, number_of_pairs) {
            return Ok(());
        }
        let d = make_mul_aux(
            &self.params,
            CurvePoint::Affine { x: g.x, y: g.y },
            window_size as u64,
            number_of_pairs as u64,
        );
        let p = match self.assign_point(d) {
            Ok(p) => p,
            Err(e) => {
                return Err(e);
            },
        };
        let entry = AuxEntry { window_size, number_of_pairs, point: p };
        proof {
            lemma_registry_find_none_no_match(
                self.aux_registry@,
                window_size as int,
                number_of_pairs as int,
            );
            lemma_registry_find_push(
                self.aux_registry@,
                entry,
                window_size as int,
                number_of_pairs as int,
            );
            assert forall|w2: int, n2: int|
                !(w2 == window_size as int && n2 == number_of_pairs as int) implies #[trigger] registry_find(
                self.aux_registry@.push(entry),
                w2,
                n2,
            ) == registry_find(self.aux_registry@, w2, n2) by {
                lemma_registry_find_push(self.aux_registry@, entry, w2, n2);
            }
        }
        self.aux_registry.push(entry);
        Ok(())
    }

    /// Whether a key is already registered.
    fn contains_aux(&self, window_size: usize, number_of_pairs: usize) -> (r: bool)
        ensures
            r == (self.lookup_aux(window_size as int, number_of_pairs as int) is Some),
    {
        let mut i: usize = 0;
        let n = self.aux_registry.len();
        proof {
            assert(self.aux_registry@.skip(0) =~= self.aux_registry@);
        }
        while i < n
            invariant
                n == self.aux_registry@.len(),
                i <= n,
                registry_find(
                    self.aux_registry@.skip(i as int),
                    window_size as int,
                    number_of_pairs as int,
                ) == registry_find(
                    self.aux_registry@,
                    window_size as int,
                    number_of_pairs as int,
                ),
            decreases n - i,
        {
            let e = &self.aux_registry[i];
            proof {
                assert(self.aux_registry@.skip(i as int)[0] == self.aux_registry@[i as int]);
                assert(self.aux_registry@.skip(i as int).drop_first() =~= self.aux_registry@.skip(
                    i as int + 1,
                ));
            }
            if e.window_size == window_size && e.number_of_pairs == number_of_pairs {
                return true;
            }
            i = i + 1;
        }
        proof {
            assert(self.aux_registry@.skip(n as int) =~= Seq::<AuxEntry>::empty());
        }
        false
    }

    /// The registered point under a key, if any.
    fn find_aux(&self, window_size: usize, number_of_pairs: usize) -> (r: Option<AssignedPoint>)
        ensures
            r == self.lookup_aux(window_size as int, number_of_pairs as int),
    {
        let mut i: usize = 0;
        let n = self.aux_registry.len();
        proof {
            assert(self.aux_registry@.skip(0) =~= self.aux_registry@);
        }
        while i < n
            invariant
                n == self.aux_registry@.len(),
                i <= n,
                registry_find(
                    self.aux_registry@.skip(i as int),
                    window_size as int,
                    number_of_pairs as int,
                ) == registry_find(
                    self.aux_registry@,
                    window_size as int,
                    number_of_pairs as int,
                ),
            decreases n - i,
        {
            let e = &self.aux_registry[i];
            proof {
                assert(self.aux_registry@.skip(i as int)[0] == self.aux_registry@[i as int]);
                assert(self.aux_registry@.skip(i as int).drop_first() =~= self.aux_registry@.skip(
                    i as int + 1,
                ));
            }
            if e.window_size == window_size && e.number_of_pairs == number_of_pairs {
                return Some(e.point);
            }
            i = i + 1;
        }
        proof {
            assert(self.aux_registry@.skip(n as int) =~= Seq::<AuxEntry>::empty());
        }
        None
    }

    /// Hands out the auxiliary pair for one schedule; a precondition
    /// failure, not a constraint failure, when either half is missing.
    pub fn get_mul_aux(&self, window_size: usize, number_of_pairs: usize) -> (r: Result<
        MulAux,
        Error,
    >)
        requires
            self.wf(),
        ensures
            self.aux_generator is None ==> r == Err::<MulAux, Error>(Error::Synthesis),
            self.aux_generator is Some && self.lookup_aux(
                window_size as int,
                number_of_pairs as int,
            ) is None ==> r == Err::<MulAux, Error>(Error::Synthesis),
            self.aux_generator matches Some(g) ==> (self.lookup_aux(
                window_size as int,
                number_of_pairs as int,
            ) matches Some(s) ==> r == Ok::<MulAux, Error>(MulAux { to_add: g, to_sub: s })),
            r matches Ok(aux) ==> aux.to_add.wf(self.params) && aux.to_sub.wf(self.params),
    {
        let to_add = match self.aux_generator {
            Some(g) => g,
            None => {
                return Err(Error::Synthesis);
            },
        };
        let to_sub = match self.find_aux(window_size, number_of_pairs) {
            Some(s) => s,
            None => {
                return Err(Error::Synthesis);
            },
        };
        proof {
            lemma_registry_find_wf(*self, window_size as int, number_of_pairs as int);
        }
        Ok(MulAux { to_add, to_sub })
    }

    /// Copies the limbs of a normalized point into public-instance slots:
    /// the limbs of `x` in ascending order from `offset`, then the limbs of
    /// `y`.
    pub fn expose_public(&self, instance: &mut Vec<u64>, point: &AssignedPoint, offset: usize) -> (r:
        Result<(), Error>)
        requires
            self.wf(),
            offset + 2 * self.params.rns.number_of_limbs <= old(instance)@.len(),
        ensures
            r == Ok::<(), Error>(()),
            final(instance)@.len() == old(instance)@.len(),
            forall|i: int|
                0 <= i < self.params.rns.number_of_limbs ==> #[trigger] final(instance)@[offset
                    + i] == limb(point.x as int, self.params.rns.bit_len_limb as nat, i as nat),
            forall|i: int|
                0 <= i < self.params.rns.number_of_limbs ==> #[trigger] final(instance)@[offset
                    + self.params.rns.number_of_limbs + i] == limb(
                    point.y as int,
                    self.params.rns.bit_len_limb as nat,
                    i as nat,
                ),
            forall|j: int|
                0 <= j < old(instance)@.len() && !(offset <= j < offset + 2
                    * self.params.rns.number_of_limbs) ==> #[trigger] final(instance)@[j]
                    == old(instance)@[j],
    {
        let limbs = point.public(&self.params);
        let n = limbs.len();
        let total = instance.len();
        let mut k: usize = 0;
        while k < n
            invariant
                n == limbs@.len(),
                n == 2 * self.params.rns.number_of_limbs,
                k <= n,
                offset + n <= total,
                total == instance@.len(),
                instance@.len() == old(instance)@.len(),
                forall|j: int| 0 <= j < k ==> #[trigger] instance@[offset + j] == limbs@[j],
                forall|j: int|
                    0 <= j < old(instance)@.len() && !(offset <= j < offset + k)
                        ==> #[trigger] instance@[j] == old(instance)@[j],
            decreases n - k,
        {
            let v = limbs[k];
            instance[offset + k] = v;
            k = k + 1;
        }
        proof {
            let nl = self.params.rns.number_of_limbs as int;
            assert forall|i: int| 0 <= i < nl implies #[trigger] instance@[offset + nl + i]
                == limb(point.y as int, self.params.rns.bit_len_limb as nat, i as nat) by {
                assert(instance@[offset + (nl + i)] == limbs@[nl + i]);
            }
        }
        Ok(())
    }
}

/// A point handed back by the registry satisfies the chip invariant.
proof fn lemma_registry_find_wf(chip: BaseFieldEccChip, w: int, n: int)
    requires
        chip.wf(),
    ensures
        chip.lookup_aux(w, n) matches Some(p) ==> p.wf(chip.params),
{
    lemma_registry_find_wf_rec(chip.aux_registry@, chip.params, w, n);
}

/// Helper for `lemma_registry_find_wf`, by induction over the registry.
proof fn lemma_registry_find_wf_rec(s: Seq<AuxEntry>, c: CurveParams, w: int, n: int)
    requires
        forall|i: int| 0 <= i < s.len() ==> (#[trigger] s[i]).point.wf(c),
    ensures
        registry_find(s, w, n) matches Some(p) ==> p.wf(c),
    decreases s.len(),
{
    if s.len() > 0 {
        assert(s[0].point.wf(c));
        lemma_registry_find_wf_rec(s.drop_first(), c, w, n);
        assert(forall|i: int|
            0 <= i < s.drop_first().len() ==> (#[trigger] s.drop_first()[i]).point.wf(c)) by {
            assert(forall|i: int|
                0 <= i < s.drop_first().len() ==> s.drop_first()[i] == s[i + 1]);
        }
    }
}

/// Once a doubling chain has failed it stays failed.
proof fn lemma_pdouble_n_stays_none(c: CurveParams, a: AssignedPoint, k1: nat, k2: nat)
    requires
        k1 <= k2,
        pdouble_n(c, a, k1) is None,
    ensures
        pdouble_n(c, a, k2) is None,
    decreases k2 - k1,
{
    if k1 < k2 {
        lemma_pdouble_n_stays_none(c, a, k1, (k2 - 1) as nat);
    }
}

} // verus!

//! Failure of a gadget operation.

use vstd::prelude::*;

verus! {

/// Why an operation could not complete.
///
/// `Synthesis` is a precondition failure surfaced before constraints are
/// emitted: auxiliary data requested before it was assigned, a point at
/// infinity supplied where the representation disallows it, a witness
/// outside its range. `Unsatisfied` means the constraint the operation
/// emits cannot hold of the witness values at hand — off-circuit it is
/// reported at once, in-circuit it would surface as an unsatisfiable
/// system at proving time.
#[derive(Clone, Copy, Debug, PartialEq, Eq, Structural)]
pub enum Error {
    Synthesis,
    Unsatisfied,
}

} // verus!

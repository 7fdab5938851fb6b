//! Elliptic-curve group arithmetic gadgets over a foreign field.
//!
//! The crate models, at the level of witness values, a family of circuit
//! gadgets for elliptic-curve arithmetic: curve points whose coordinates live
//! in a field other than the machine-native one, incomplete (exception-free by
//! construction) point addition, doubling and ladder steps, an
//! auxiliary-point registry that keeps every intermediate addition of a
//! scalar-multiplication schedule outside the exceptional cases of the
//! incomplete formulas, and windowed single- and multi-scalar multiplication
//! built on top.
//!
//! Every operation computes exactly the values that the corresponding gadget
//! would witness, and returns an error exactly where the gadget's constraints
//! could not be satisfied or where a precondition of synthesis is missing.
//! Constraint layout itself (columns, gates, rows) is outside the scope of
//! this crate.

pub mod modular;
pub mod euclid;
pub mod primality;
pub mod params;
pub mod limbs;
pub mod schedule;
pub mod curve;
pub mod errors;
pub mod point;
pub mod incomplete;
pub mod base_field_ecc;
pub mod windowed;
pub mod general_ecc;
pub mod laws;

//! A zero-knowledge proof frontend: rank-1 constraint systems (R1CS) over the
//! scalar field of the alt_bn128 curve, together with the exact witness layout
//! and satisfaction semantics that the proving engine expects.
//!
//! The cryptographic engine itself (key generation, proving, verification) is
//! an external collaborator reached from the application layer; this crate
//! holds the field arithmetic and the constraint-system data model, verified.

pub mod arith;
pub mod r1cs;

pub use arith::FieldT;
pub use r1cs::ConstraintSystem;
pub use r1cs::LinearTerm;
pub use r1cs::R1csError;

//! An arithmetization layer for zero-knowledge proof toolchains.
//!
//! A caller builds symbolic expressions over a prime field, combines them into
//! equations, and feeds them to a constraint system.  The system derives an
//! evaluation order incrementally, `solve` computes a concrete witness from
//! the primary inputs, and two pure compilers lower the finished constraint
//! list into backend rows: Rank-1 Constraint System triplets and PLONK-style
//! gates with a copy-constraint permutation.
use vstd::prelude::*;

pub mod bigint;
pub mod expr;
pub mod plonkish;
pub mod r1cs;
pub mod system;
pub mod varmap;

verus! {

/// Everything that can go wrong while building, solving or compiling a
/// circuit.
#[derive(Clone, Copy, Debug, PartialEq, Eq, Structural)]
pub enum CircuitError {
    /// An input variable had no binding when a value was required.
    MissingVariable,
    /// A divisor has no modular inverse with respect to the modulus.
    NonInvertible,
    /// `isolate_term` cannot solve for a variable in a non-linear position.
    NonLinearRearrangement,
    /// A gate shape that a backend row cannot represent.
    UnsupportedGateShape,
    /// A fully-known constraint's two sides disagree.
    ConstraintViolation,
    /// The solver's worklist exceeded its bounded retry budget.
    EvaluationNonTermination,
    /// An external hint did not yield an integer value.
    HintTypeError,
}

} // verus!

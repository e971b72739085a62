//! Small enumerations shared across the crate.
use vstd::prelude::*;

verus! {

/// The state space a calculation runs in.
#[derive(Debug, Clone, Copy, PartialEq, Eq, Structural)]
pub enum StateSpace {
    /// Liouville (superoperator) space: density matrices as vectors.
    Liouville,
    /// Hilbert space: wavefunctions and unitaries.
    Hilbert,
}

/// The operator basis.
#[derive(Debug, Clone, Copy, PartialEq, Eq, Structural)]
pub enum Basis {
    /// Irreducible spherical tensors.
    Sphten,
    /// The Zeeman (product) basis.
    Zeeman,
}

/// The waveform penalty terms.
#[derive(Debug, Clone, Copy, PartialEq, Eq, Structural)]
pub enum Penalty {
    /// No penalty.
    NoPenalty,
    /// Norm square.
    Ns,
    /// Derivative norm square: smoothing.
    Dns,
    /// Spillout norm square: amplitude bounds per channel.
    Sns,
    /// Spillout norm square on the polar amplitude of each x/y pair.
    Snsa,
    /// Spillout norm square on the summed amplitude.
    Snsm,
    /// Adiabaticity.
    Adiab,
}

} // verus!

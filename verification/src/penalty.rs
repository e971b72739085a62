//! Waveform penalties: how much of a penalty term to compute, and whether
//! a configuration's penalty list penalises anything.
use vstd::prelude::*;
use crate::types::Penalty;

verus! {

/// How much of the penalty to compute.
#[derive(Debug, Clone, Copy, PartialEq, Eq, Structural)]
pub enum PenaltyOrder {
    /// Value only.
    Value,
    /// Value and gradient.
    Gradient,
    /// Value, gradient and Hessian.
    Hessian,
}

/// Whether a penalty list penalises anything: every list does but the one
/// that holds only "no penalty".
pub fn penalties_active(penalties: &[Penalty]) -> (r: bool)
    ensures
        r == !(penalties@.len() == 1 && penalties@[0] == Penalty::NoPenalty),
{
    !(penalties.len() == 1 && penalties[0] == Penalty::NoPenalty)
}

} // verus!

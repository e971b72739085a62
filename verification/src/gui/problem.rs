//! The two optimisers the front end offers.
use vstd::prelude::*;

verus! {

/// The two optimisers the application offers.
#[derive(Debug, Clone, Copy, PartialEq, Eq, Structural)]
pub enum Algorithm {
    /// Coupled spins, adaptive operator splitting.
    Qoala,
    /// Uncoupled spins across a band, analytic Hessian.
    Escalade,
}

impl Algorithm {
    /// Both algorithms, in switch order.
    pub const ALL: [Algorithm; 2] = [Algorithm::Qoala, Algorithm::Escalade];

    /// Label for the switch.
    pub fn name(self) -> (s: &'static str)
        ensures
            s@ == match self {
                Algorithm::Qoala => "QOALA"@,
                Algorithm::Escalade => "ESCALADE"@,
            },
    {
        match self {
            Algorithm::Qoala => "QOALA",
            Algorithm::Escalade => "ESCALADE",
        }
    }

    /// One line on what it is for.
    pub fn blurb(self) -> (s: &'static str)
        ensures
            s@ == match self {
                Algorithm::Qoala => "coupled spins: adaptive split-operator pulse optimisation"@,
                Algorithm::Escalade => "single spins across a band: broadband and B1-robust pulses"@,
            },
    {
        match self {
            Algorithm::Qoala => "coupled spins: adaptive split-operator pulse optimisation",
            Algorithm::Escalade => "single spins across a band: broadband and B1-robust pulses",
        }
    }
}

} // verus!

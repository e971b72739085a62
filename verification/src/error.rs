//! Error type for the QOALA crate.
//!
//! Configuration problems, unsupported option combinations and numerical
//! failures become typed errors that propagate through `Result`.
use vstd::prelude::*;

verus! {

/// Everything that can go wrong inside QOALA.
#[derive(Debug, Clone)]
pub enum QoalaError {
    /// A required configuration field was not supplied.
    MissingField(String),
    /// A configuration field was supplied but is inconsistent or out of range.
    BadValue(String),
    /// A combination of options that the package does not implement.
    NotImplemented(String),
    /// Shapes of two operands do not line up.
    Dimension(String),
    /// A numerical routine failed (singular matrix, non-convergence, ...).
    Numerical(String),
    /// Filesystem problem while reading or writing the propagator cache.
    Io(String),
}

/// Convenience alias used throughout the crate.
pub type Result<T> = core::result::Result<T, QoalaError>;

/// The text that `message` renders for an error: its kind, then its detail.
pub open spec fn error_message(e: QoalaError) -> Seq<char> {
    match e {
        QoalaError::MissingField(s) => "missing configuration: "@ + s@,
        QoalaError::BadValue(s) => "invalid configuration: "@ + s@,
        QoalaError::NotImplemented(s) => "not implemented: "@ + s@,
        QoalaError::Dimension(s) => "dimension mismatch: "@ + s@,
        QoalaError::Numerical(s) => "numerical failure: "@ + s@,
        QoalaError::Io(s) => "io error: "@ + s@,
    }
}

impl QoalaError {
    /// The human-readable form of the error, e.g. `not implemented: ...`.
    pub fn message(&self) -> (m: String)
        ensures
            m@ == error_message(*self),
    {
        let (prefix, detail) = match self {
            QoalaError::MissingField(s) => ("missing configuration: ", s),
            QoalaError::BadValue(s) => ("invalid configuration: ", s),
            QoalaError::NotImplemented(s) => ("not implemented: ", s),
            QoalaError::Dimension(s) => ("dimension mismatch: ", s),
            QoalaError::Numerical(s) => ("numerical failure: ", s),
            QoalaError::Io(s) => ("io error: ", s),
        };
        let mut out = String::from_str(prefix);
        out.append(detail.as_str());
        out
    }
}

} // verus!

//! Where per-iteration reports go.
use vstd::prelude::*;

verus! {

/// A report sink that does nothing with what it is given, for runs whose
/// caller does not follow the iterations.
#[derive(Debug, Clone, Copy, Default)]
pub struct NoProgress;

} // verus!

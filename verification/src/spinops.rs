//! Spin operators: which Cartesian direction a product operator acts along.
use vstd::prelude::*;

verus! {

/// Which Cartesian direction a product operator acts along.
#[derive(Debug, Clone, Copy, PartialEq, Eq, Structural)]
pub enum ProductAxis {
    /// `xx` product operator.
    X,
    /// `yy` product operator.
    Y,
    /// `zz` product operator.
    Z,
}

} // verus!

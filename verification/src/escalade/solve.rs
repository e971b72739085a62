//! The order of an objective evaluation, for reusing what was evaluated.
use vstd::prelude::*;
use crate::optim::ObjectiveRequest;

verus! {

/// How much an evaluation order computes: value 0, gradient 1, Hessian 2.
/// An evaluation at one point serves any request of no higher rank.
pub fn rank(order: ObjectiveRequest) -> (r: u8)
    ensures
        r == match order {
            ObjectiveRequest::Value => 0u8,
            ObjectiveRequest::Gradient => 1u8,
            ObjectiveRequest::Hessian => 2u8,
        },
{
    match order {
        ObjectiveRequest::Value => 0,
        ObjectiveRequest::Gradient => 1,
        ObjectiveRequest::Hessian => 2,
    }
}

/// Whether an evaluation held for some point serves a request at that
/// point: only at the same point, and only if it was made to no lower an
/// order than the one asked for.
pub fn serves(same_point: bool, held: ObjectiveRequest, want: ObjectiveRequest) -> (r: bool)
    ensures
        r == (same_point && rank_of(held) >= rank_of(want)),
{
    same_point && rank(held) >= rank(want)
}

/// The rank of an order, as `rank` computes it.
pub open spec fn rank_of(order: ObjectiveRequest) -> int {
    match order {
        ObjectiveRequest::Value => 0,
        ObjectiveRequest::Gradient => 1,
        ObjectiveRequest::Hessian => 2,
    }
}

/// A Hessian evaluation serves every request at its point, and a value
/// evaluation serves only a value request.
pub proof fn law_higher_orders_serve_lower(held: ObjectiveRequest, want: ObjectiveRequest)
    ensures
        held == ObjectiveRequest::Hessian ==> rank_of(held) >= rank_of(want),
        held == ObjectiveRequest::Value ==> (rank_of(held) >= rank_of(want) <==> want == ObjectiveRequest::Value),
{
}

} // verus!

//! How one objective evaluation is cut into pieces for parallel folding.
use vstd::prelude::*;
use crate::optim::ObjectiveRequest;

verus! {

/// Most pieces an evaluation is cut into.
pub const MAX_PIECES: usize = 64;

/// Most memory, in bytes, that the accumulators of one evaluation's pieces
/// may take together: 256 MiB.
pub const ACCUMULATOR_BUDGET: usize = 268435456;

/// Bytes in one accumulator entry (an `f64`).
pub const ENTRY_BYTES: usize = 8;

/// Entries in one accumulator for `n` pulse points: the value, then the
/// `2n` gradient entries, then the `2n x 2n` Hessian, as far as asked.
pub open spec fn accumulator_entries(n: nat, request: ObjectiveRequest) -> nat {
    match request {
        ObjectiveRequest::Value => 1,
        ObjectiveRequest::Gradient => 1 + 2 * n,
        ObjectiveRequest::Hessian => 1 + 2 * n + 4 * n * n,
    }
}

/// `x` held to `lo..=hi`.
pub open spec fn clamp(x: int, lo: int, hi: int) -> int {
    if x < lo { lo } else if x > hi { hi } else { x }
}

/// As many pieces as the budget has room for accumulators, between one and
/// `MAX_PIECES`.
pub open spec fn piece_count(n: nat, request: ObjectiveRequest) -> int {
    clamp(
        ACCUMULATOR_BUDGET as int / (ENTRY_BYTES * accumulator_entries(n, request)) as int,
        1,
        MAX_PIECES as int,
    )
}

/// `a * b`, or `usize::MAX` where that overflows.
fn saturating_mul(a: usize, b: usize) -> (r: usize)
    ensures
        r as int == if a * b > usize::MAX { usize::MAX as int } else { a * b },
{
    match a.checked_mul(b) {
        Some(p) => p,
        None => usize::MAX,
    }
}

/// How many pieces an evaluation of `n` pulse points, to the order asked,
/// is cut into: as many as `ACCUMULATOR_BUDGET` allows, from one to
/// `MAX_PIECES`.  Sizes beyond `usize` count as the largest `usize`.
pub fn pieces(n: usize, request: ObjectiveRequest) -> (p: usize)
    ensures
        p as int == piece_count(n as nat, request),
{
    let linear = 1usize.saturating_add(saturating_mul(2, n));
    let entries = match request {
        ObjectiveRequest::Value => 1,
        ObjectiveRequest::Gradient => linear,
        ObjectiveRequest::Hessian => {
            let quadratic = saturating_mul(saturating_mul(4, n), n);
            proof {
                lemma_saturated_quadratic(n as nat, quadratic);
            }
            linear.saturating_add(quadratic)
        },
    };
    let bytes = saturating_mul(entries, ENTRY_BYTES);
    proof {
        lemma_saturated_quotient(n as nat, request, entries, bytes);
    }
    let q = ACCUMULATOR_BUDGET / bytes;
    if q < 1 {
        1
    } else if q > MAX_PIECES {
        MAX_PIECES
    } else {
        q
    }
}

/// `4n * n`, saturated after each product, is `4n^2` saturated once.
proof fn lemma_saturated_quadratic(n: nat, quadratic: usize)
    requires
        n <= usize::MAX,
        quadratic as int == {
            let a: int = if 4 * n > usize::MAX { usize::MAX as int } else { 4 * n as int };
            if a * n > usize::MAX { usize::MAX as int } else { a * n }
        },
    ensures
        quadratic as int == if 4 * n * n > usize::MAX { usize::MAX as int } else { (4 * n * n) as int },
{
    if 4 * n > usize::MAX {
        assert(usize::MAX * n >= usize::MAX as int) by (nonlinear_arith)
            requires n >= 1;
        assert(4 * n * n >= 4 * n) by (nonlinear_arith)
            requires n >= 1;
    }
}

/// Saturating the byte count changes nothing in the quotient: where it
/// saturates, the exact count is beyond the budget as well.
proof fn lemma_saturated_quotient(n: nat, request: ObjectiveRequest, entries: usize, bytes: usize)
    requires
        n <= usize::MAX,
        entries >= 1,
        entries as int == if accumulator_entries(n, request) > usize::MAX {
            usize::MAX as int
        } else {
            accumulator_entries(n, request) as int
        },
        bytes as int == if entries * 8 > usize::MAX { usize::MAX as int } else { entries * 8 },
    ensures
        bytes >= 8,
        ACCUMULATOR_BUDGET as int / bytes as int
            == ACCUMULATOR_BUDGET as int / (ENTRY_BYTES * accumulator_entries(n, request)) as int,
{
    let e = accumulator_entries(n, request) as int;
    assert(e >= 1);
    if bytes as int != 8 * e {
        // The exact count is past `usize::MAX`, and so past the budget.
        assert(8 * e > usize::MAX);
        assert(bytes as int == usize::MAX);
        assert(ACCUMULATOR_BUDGET as int / bytes as int == 0) by {
            vstd::arithmetic::div_mod::lemma_basic_div(ACCUMULATOR_BUDGET as int, bytes as int);
        }
        assert(ACCUMULATOR_BUDGET as int / (8 * e) == 0) by {
            vstd::arithmetic::div_mod::lemma_basic_div(ACCUMULATOR_BUDGET as int, 8 * e);
        }
    }
}

/// The pieces' accumulators keep to the budget, unless one piece alone is
/// over it; there is always at least one piece and never more than
/// `MAX_PIECES`.
pub proof fn law_pieces_keep_to_budget(n: nat, request: ObjectiveRequest)
    ensures
        1 <= piece_count(n, request) <= MAX_PIECES,
        piece_count(n, request) == 1
            || piece_count(n, request) * (ENTRY_BYTES * accumulator_entries(n, request))
            <= ACCUMULATOR_BUDGET,
{
    let b = (ENTRY_BYTES * accumulator_entries(n, request)) as int;
    let q = ACCUMULATOR_BUDGET as int / b;
    assert(b >= 8);
    vstd::arithmetic::div_mod::lemma_fundamental_div_mod(ACCUMULATOR_BUDGET as int, b);
    vstd::arithmetic::div_mod::lemma_mod_pos_bound(ACCUMULATOR_BUDGET as int, b);
    let p = piece_count(n, request);
    if p != 1 {
        assert(p <= q);
        assert(p * b <= q * b) by {
            vstd::arithmetic::mul::lemma_mul_inequality(p, q, b);
        }
    }
}

/// Longer pulses are never cut into more pieces than shorter ones, at
/// every order of evaluation.
pub proof fn law_pieces_fall_with_length(n: nat, m: nat, request: ObjectiveRequest)
    requires
        n <= m,
    ensures
        piece_count(m, request) <= piece_count(n, request),
{
    let en = accumulator_entries(n, request) as int;
    let em = accumulator_entries(m, request) as int;
    assert(4 * n * n <= 4 * m * m) by (nonlinear_arith)
        requires n <= m;
    assert(1 <= en <= em);
    vstd::arithmetic::div_mod::lemma_div_is_ordered_by_denominator(
        ACCUMULATOR_BUDGET as int,
        8 * en,
        8 * em,
    );
}

/// Without a Hessian, the accumulators are small enough for every piece,
/// up to half a million gradient entries.
pub proof fn law_value_and_gradient_get_every_piece(n: nat)
    ensures
        piece_count(n, ObjectiveRequest::Value) == MAX_PIECES,
        1 + 2 * n <= 524288 ==> piece_count(n, ObjectiveRequest::Gradient) == MAX_PIECES,
{
    assert(268435456int / 8 >= 64) by (nonlinear_arith);
    let d: int = (8 * (1 + 2 * n)) as int;
    if 1 + 2 * n <= 524288 {
        assert(268435456int / d >= 64) by (nonlinear_arith)
            requires 8 <= d <= 4194304;
    }
}

} // verus!

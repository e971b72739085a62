//! Spreading a fold over threads without changing its value.
//!
//! [`fold`] cuts `0..len` into contiguous pieces fixed by the length and a
//! piece count its caller chooses, folds each piece from a fresh
//! accumulator, and merges neighbouring pieces up a fixed balanced tree.
//! Threads decide where a piece runs, never how the results combine.
use vstd::prelude::*;

verus! {

/// Runs `a` and `b`, possibly in parallel, and returns both results:
/// `rayon::join`.
///
/// Trusted: rayon documents that `join` executes both closures and returns
/// their results as a pair, first closure first.  The contract says that
/// each result is one that its closure may return; rayon runs both closures
/// whatever happens, and the closures handed to it here do not panic.
#[verifier::external_body]
fn join<A, B, RA, RB>(a: A, b: B) -> (r: (RA, RB))
    where
        A: FnOnce() -> RA + Send,
        B: FnOnce() -> RB + Send,
        RA: Send,
        RB: Send,
    requires
        call_requires(a, ()),
        call_requires(b, ()),
    ensures
        call_ensures(a, (), r.0),
        call_ensures(b, (), r.1),
{
    rayon::join(a, b)
}

/// `ceil(a / b)` for `b >= 1`: the quotient, plus one when there is a
/// remainder.
pub open spec fn ceil_div(a: nat, b: nat) -> nat
    recommends b >= 1,
{
    a / b + if a % b != 0 { 1nat } else { 0nat }
}

/// Length of every piece but the last: `len / max(pieces, 1)`, rounded up,
/// and at least one.
pub open spec fn piece_length(len: nat, pieces: nat) -> nat {
    let p: nat = if pieces == 0 { 1 } else { pieces };
    let c = ceil_div(len, p);
    if c == 0 { 1 } else { c }
}

/// How many pieces `0..len` is cut into.
pub open spec fn piece_total(len: nat, pieces: nat) -> nat {
    ceil_div(len, piece_length(len, pieces))
}

/// The indices of pieces `lo..hi` taken together: from the start of piece
/// `lo` to the end of piece `hi - 1`, cut off at `len`.
pub open spec fn span_start(piece_len: nat, lo: nat) -> nat {
    lo * piece_len
}

/// End of the span of pieces `lo..hi`.
pub open spec fn span_end(len: nat, piece_len: nat, hi: nat) -> nat {
    if hi * piece_len < len { hi * piece_len } else { len }
}

/// Holds of every value: names a value as the witness of a fold's history.
pub open spec fn is_value<T>(x: T) -> bool {
    true
}

/// Holds of every pair: names two values as the witnesses of a merge.
pub open spec fn is_pair<T>(x: T, y: T) -> bool {
    true
}

/// `r` is a value that folding indices `a..b` with `step`, from a value of
/// `init()`, may give.
pub open spec fn steps_give<T, I: Fn() -> T, S: Fn(T, usize) -> T>(
    init: I,
    step: S,
    a: int,
    b: int,
    r: T,
) -> bool
    decreases b - a,
{
    if b <= a {
        call_ensures(init, (), r)
    } else {
        exists|prev: T| #[trigger] is_value(prev) && steps_give(init, step, a, b - 1, prev)
            && call_ensures(step, (prev, (b - 1) as usize), r)
    }
}

/// One more step extends a fold by one index.
proof fn lemma_step_extends<T, I: Fn() -> T, S: Fn(T, usize) -> T>(
    init: I,
    step: S,
    a: int,
    b: int,
    prev: T,
    next: T,
)
    requires
        a <= b,
        0 <= b <= usize::MAX,
        steps_give(init, step, a, b, prev),
        call_ensures(step, (prev, b as usize), next),
    ensures
        steps_give(init, step, a, b + 1, next),
{
    assert(is_value(prev));
}

/// `r` is a value that pieces `lo..hi`, each folded on its own and merged
/// left to right up the balanced tree, may give.
pub open spec fn tree_gives<T, I: Fn() -> T, S: Fn(T, usize) -> T, M: Fn(T, T) -> T>(
    init: I,
    step: S,
    merge: M,
    len: nat,
    piece_len: nat,
    lo: nat,
    hi: nat,
    r: T,
) -> bool
    decreases hi - lo,
{
    if hi <= lo + 1 {
        steps_give(init, step, span_start(piece_len, lo) as int, span_end(len, piece_len, hi) as int, r)
    } else {
        let mid = (lo + (hi - lo) / 2) as nat;
        exists|left: T, right: T|
            #[trigger] is_pair(left, right)
                && tree_gives(init, step, merge, len, piece_len, lo, mid, left)
                && tree_gives(init, step, merge, len, piece_len, mid, hi, right)
                && call_ensures(merge, (left, right), r)
    }
}

/// `r` is a value that `fold(len, pieces, init, step, merge)` may give.
pub open spec fn fold_gives<T, I: Fn() -> T, S: Fn(T, usize) -> T, M: Fn(T, T) -> T>(
    len: nat,
    pieces: nat,
    init: I,
    step: S,
    merge: M,
    r: T,
) -> bool {
    tree_gives(init, step, merge, len, piece_length(len, pieces), 0, piece_total(len, pieces), r)
}

/// Folds pieces `lo..hi` of the `total` pieces of `0..len` and merges them.
fn fold_span<T, I, S, M>(
    len: usize,
    piece_len: usize,
    total: usize,
    init: &I,
    step: &S,
    merge: &M,
    lo: usize,
    hi: usize,
) -> (r: T)
    where
        T: Send,
        I: Fn() -> T + Sync,
        S: Fn(T, usize) -> T + Sync,
        M: Fn(T, T) -> T + Sync,
    requires
        piece_len >= 1,
        total == ceil_div(len as nat, piece_len as nat),
        lo <= hi <= total,
        lo == hi ==> lo == 0,
        call_requires(*init, ()),
        forall|a: T, i: usize| i < len ==> call_requires(*step, (a, i)),
        forall|a: T, b: T| call_requires(*merge, (a, b)),
    ensures
        tree_gives(*init, *step, *merge, len as nat, piece_len as nat, lo as nat, hi as nat, r),
    decreases hi - lo,
{
    if hi - lo <= 1 {
        proof {
            lemma_ceil_div(len as nat, piece_len as nat);
            if lo < hi {
                lemma_inside_pieces(len as nat, piece_len as nat, lo as nat);
            }
            if hi < total {
                lemma_inside_pieces(len as nat, piece_len as nat, hi as nat);
            }
            if lo < hi {
                assert(lo * piece_len <= hi * piece_len) by (nonlinear_arith)
                    requires lo < hi;
            }
        }
        let start = if lo < hi { lo * piece_len } else { 0 };
        let end = if hi < total { hi * piece_len } else { len };
        assert(start as nat == span_start(piece_len as nat, lo as nat));
        assert(end as nat == span_end(len as nat, piece_len as nat, hi as nat));
        assert(start <= end);
        let mut acc = init();
        let mut i = start;
        while i < end
            invariant
                start <= i <= end <= len,
                forall|a: T, j: usize| j < len ==> call_requires(*step, (a, j)),
                steps_give(*init, *step, start as int, i as int, acc),
            decreases end - i,
        {
            let ghost prev = acc;
            let next = step(acc, i);
            proof {
                lemma_step_extends(*init, *step, start as int, i as int, prev, next);
            }
            acc = next;
            i = i + 1;
        }
        acc
    } else {
        let mid = lo + (hi - lo) / 2;
        let left_task = || -> (out: T)
            requires
                call_requires(*init, ()),
                forall|a: T, i: usize| i < len ==> call_requires(*step, (a, i)),
                forall|a: T, b: T| call_requires(*merge, (a, b)),
            ensures
                tree_gives(*init, *step, *merge, len as nat, piece_len as nat, lo as nat, mid as nat, out),
        { fold_span(len, piece_len, total, init, step, merge, lo, mid) };
        let right_task = || -> (out: T)
            requires
                call_requires(*init, ()),
                forall|a: T, i: usize| i < len ==> call_requires(*step, (a, i)),
                forall|a: T, b: T| call_requires(*merge, (a, b)),
            ensures
                tree_gives(*init, *step, *merge, len as nat, piece_len as nat, mid as nat, hi as nat, out),
        { fold_span(len, piece_len, total, init, step, merge, mid, hi) };
        let (left, right) = join(left_task, right_task);
        let r = merge(left, right);
        assert(is_pair(left, right));
        r
    }
}

/// Folds every index in `0..len` into one accumulator.
///
/// The range is cut into at most `max(pieces, 1)` contiguous pieces, all of
/// one length but the last.  Each piece starts from `init()` and applies
/// `step` to its indices in order; neighbouring pieces are then combined,
/// left to right, by `merge(left, right)` up a balanced binary tree.  An
/// empty range gives `init()`.
pub fn fold<T, I, S, M>(len: usize, pieces: usize, init: I, step: S, merge: M) -> (r: T)
    where
        T: Send,
        I: Fn() -> T + Sync,
        S: Fn(T, usize) -> T + Sync,
        M: Fn(T, T) -> T + Sync,
    requires
        call_requires(init, ()),
        forall|a: T, i: usize| i < len ==> call_requires(step, (a, i)),
        forall|a: T, b: T| call_requires(merge, (a, b)),
    ensures
        fold_gives(len as nat, pieces as nat, init, step, merge, r),
{
    let p: usize = if pieces == 0 { 1 } else { pieces };
    proof {
        lemma_ceil_div(len as nat, p as nat);
    }
    let c = len / p + if len % p != 0 { 1 } else { 0 };
    let piece_len: usize = if c == 0 { 1 } else { c };
    proof {
        lemma_ceil_div(len as nat, piece_len as nat);
    }
    let total = len / piece_len + if len % piece_len != 0 { 1 } else { 0 };
    fold_span(len, piece_len, total, &init, &step, &merge, 0, total)
}

/// What `ceil_div` is: it fits wherever its numerator does, covers the
/// numerator, and is zero only for zero.
proof fn lemma_ceil_div(a: nat, b: nat)
    requires
        b >= 1,
        a <= usize::MAX,
    ensures
        ceil_div(a, b) <= usize::MAX,
        ceil_div(a, b) <= a,
        ceil_div(a, b) * b >= a,
        (ceil_div(a, b) - 1) * b < a,
        a == 0 <==> ceil_div(a, b) == 0,
{
    vstd::arithmetic::div_mod::lemma_fundamental_div_mod(a as int, b as int);
    vstd::arithmetic::div_mod::lemma_mod_pos_bound(a as int, b as int);
    let q = (a / b) as int;
    let r = (a % b) as int;
    assert(0 <= q);
    assert(ceil_div(a, b) <= a && ceil_div(a, b) * b >= a && (ceil_div(a, b) - 1) * b < a
        && (a == 0 <==> ceil_div(a, b) == 0)) by (nonlinear_arith)
        requires
            a == b * q + r,
            0 <= r < b,
            b >= 1,
            q >= 0,
            ceil_div(a, b) == q + if r != 0 { 1int } else { 0int },
    ;
}

/// Piece `k` of `ceil_div(len, piece_len)` starts inside `0..len`.
proof fn lemma_inside_pieces(len: nat, piece_len: nat, k: nat)
    requires
        piece_len >= 1,
        len <= usize::MAX,
        k < ceil_div(len, piece_len),
    ensures
        k * piece_len < len,
{
    lemma_ceil_div(len, piece_len);
    let c = ceil_div(len, piece_len);
    assert(k * piece_len <= (c - 1) * piece_len) by (nonlinear_arith)
        requires k <= c - 1, piece_len >= 1;
}

// ------------------------------------------------------------------ laws ----

/// The range `a..b` as a sequence of indices.
pub open spec fn index_range(a: nat, b: nat) -> Seq<usize> {
    Seq::new((b - a) as nat, |k: int| (a + k) as usize)
}

/// Closures that build the list of indices they are given: `init` makes an
/// empty list, `step` appends its index, and `merge` concatenates.
pub open spec fn collects_indices<I: Fn() -> Vec<usize>, S: Fn(Vec<usize>, usize) -> Vec<usize>, M: Fn(Vec<usize>, Vec<usize>) -> Vec<usize>>(
    init: I,
    step: S,
    merge: M,
) -> bool {
    &&& forall|r: Vec<usize>| #[trigger] call_ensures(init, (), r) ==> r@ == Seq::<usize>::empty()
    &&& forall|v: Vec<usize>, i: usize, r: Vec<usize>| #[trigger] call_ensures(step, (v, i), r) ==> r@ == v@.push(i)
    &&& forall|v: Vec<usize>, w: Vec<usize>, r: Vec<usize>| #[trigger] call_ensures(merge, (v, w), r) ==> r@ == v@ + w@
}

/// Folding `a..b` with index-collecting closures lists `a..b`.
proof fn lemma_steps_list<I: Fn() -> Vec<usize>, S: Fn(Vec<usize>, usize) -> Vec<usize>, M: Fn(Vec<usize>, Vec<usize>) -> Vec<usize>>(
    init: I,
    step: S,
    merge: M,
    a: nat,
    b: nat,
    r: Vec<usize>,
)
    requires
        collects_indices(init, step, merge),
        a <= b <= usize::MAX,
        steps_give(init, step, a as int, b as int, r),
    ensures
        r@ == index_range(a, b),
    decreases b - a,
{
    if b > a {
        let prev = choose|prev: Vec<usize>| #[trigger] is_value(prev)
            && steps_give(init, step, a as int, b - 1, prev)
            && call_ensures(step, (prev, (b - 1) as usize), r);
        lemma_steps_list(init, step, merge, a, (b - 1) as nat, prev);
        assert(r@ =~= index_range(a, b));
    } else {
        assert(r@ =~= index_range(a, b));
    }
}

/// Pieces `lo..hi` of a fold with index-collecting closures list the
/// indices their span covers.
proof fn lemma_tree_list<I: Fn() -> Vec<usize>, S: Fn(Vec<usize>, usize) -> Vec<usize>, M: Fn(Vec<usize>, Vec<usize>) -> Vec<usize>>(
    init: I,
    step: S,
    merge: M,
    len: nat,
    piece_len: nat,
    lo: nat,
    hi: nat,
    r: Vec<usize>,
)
    requires
        collects_indices(init, step, merge),
        len <= usize::MAX,
        piece_len >= 1,
        lo < hi <= ceil_div(len, piece_len),
        tree_gives(init, step, merge, len, piece_len, lo, hi, r),
    ensures
        span_start(piece_len, lo) <= span_end(len, piece_len, hi),
        r@ == index_range(span_start(piece_len, lo), span_end(len, piece_len, hi)),
    decreases hi - lo,
{
    lemma_inside_pieces(len, piece_len, lo);
    assert(lo * piece_len <= hi * piece_len) by (nonlinear_arith)
        requires lo < hi;
    if hi <= lo + 1 {
        lemma_steps_list(
            init,
            step,
            merge,
            span_start(piece_len, lo),
            span_end(len, piece_len, hi),
            r,
        );
    } else {
        let mid = (lo + (hi - lo) / 2) as nat;
        let (left, right) = choose|left: Vec<usize>, right: Vec<usize>| #[trigger] is_pair(left, right)
            && tree_gives(init, step, merge, len, piece_len, lo, mid, left)
            && tree_gives(init, step, merge, len, piece_len, mid, hi, right)
            && call_ensures(merge, (left, right), r);
        lemma_tree_list(init, step, merge, len, piece_len, lo, mid, left);
        lemma_tree_list(init, step, merge, len, piece_len, mid, hi, right);
        lemma_inside_pieces(len, piece_len, mid);
        assert(span_end(len, piece_len, mid) == span_start(piece_len, mid));
        assert(r@ =~= index_range(span_start(piece_len, lo), span_end(len, piece_len, hi)));
    }
}

/// Every index of `0..len` is folded exactly once, and the merges keep the
/// indices in order: closures that collect the indices they see give back
/// `0, 1, ..., len - 1`, whatever the piece count.
pub proof fn law_fold_visits_each_index_once_in_order<I: Fn() -> Vec<usize>, S: Fn(Vec<usize>, usize) -> Vec<usize>, M: Fn(Vec<usize>, Vec<usize>) -> Vec<usize>>(
    len: usize,
    pieces: usize,
    init: I,
    step: S,
    merge: M,
    r: Vec<usize>,
)
    requires
        collects_indices(init, step, merge),
        fold_gives(len as nat, pieces as nat, init, step, merge, r),
    ensures
        r@ == index_range(0, len as nat),
{
    let p: nat = if pieces == 0 { 1 } else { pieces as nat };
    lemma_ceil_div(len as nat, p);
    let pl = piece_length(len as nat, pieces as nat);
    lemma_ceil_div(len as nat, pl);
    let total = piece_total(len as nat, pieces as nat);
    if len == 0 {
        assert(total == 0);
        assert(r@ =~= index_range(0, 0));
    } else {
        lemma_tree_list(init, step, merge, len as nat, pl, 0, total, r);
        assert(total * pl >= len);
    }
}

/// No more pieces are made than were asked for, nor more than there are
/// indices; a non-empty range has at least one piece, and the pieces,
/// each `piece_length` long but the last, reach exactly to `len`.
pub proof fn law_piece_count_is_bounded(len: usize, pieces: usize)
    ensures
        piece_total(len as nat, pieces as nat) <= if pieces == 0 { 1 } else { pieces as nat },
        piece_total(len as nat, pieces as nat) <= len,
        len > 0 ==> piece_total(len as nat, pieces as nat) >= 1,
        piece_total(len as nat, pieces as nat) * piece_length(len as nat, pieces as nat) >= len,
        len > 0 ==> (piece_total(len as nat, pieces as nat) - 1) * piece_length(len as nat, pieces as nat) < len,
{
    let p: nat = if pieces == 0 { 1 } else { pieces as nat };
    lemma_ceil_div(len as nat, p);
    let c = ceil_div(len as nat, p);
    let pl = piece_length(len as nat, pieces as nat);
    lemma_ceil_div(len as nat, pl);
    let t = ceil_div(len as nat, pl);
    if len > 0 {
        // `c` pieces of length `pl = c` are too many only if `p` of them were.
        assert(c >= 1);
        assert(pl == c);
        assert((c - 1) * p < len);
        assert((t - 1) * c < len);
        assert(c * p >= len);
        // t <= p: otherwise (t - 1) * c >= p * c >= len.
        assert(t <= p) by {
            if t > p {
                assert((t - 1) * c >= p * c) by (nonlinear_arith)
                    requires t - 1 >= p, c >= 1;
            }
        }
    }
}

/// Closures that always give the same result for the same arguments.
pub open spec fn deterministic<T, I: Fn() -> T, S: Fn(T, usize) -> T, M: Fn(T, T) -> T>(
    init: I,
    step: S,
    merge: M,
) -> bool {
    &&& forall|r1: T, r2: T| call_ensures(init, (), r1) && call_ensures(init, (), r2) ==> r1 == r2
    &&& forall|a: T, i: usize, r1: T, r2: T| call_ensures(step, (a, i), r1) && call_ensures(step, (a, i), r2) ==> r1 == r2
    &&& forall|a: T, b: T, r1: T, r2: T| call_ensures(merge, (a, b), r1) && call_ensures(merge, (a, b), r2) ==> r1 == r2
}

proof fn lemma_steps_unique<T, I: Fn() -> T, S: Fn(T, usize) -> T, M: Fn(T, T) -> T>(
    init: I,
    step: S,
    merge: M,
    a: int,
    b: int,
    r1: T,
    r2: T,
)
    requires
        deterministic(init, step, merge),
        steps_give(init, step, a, b, r1),
        steps_give(init, step, a, b, r2),
    ensures
        r1 == r2,
    decreases b - a,
{
    if b > a {
        let p1 = choose|prev: T| #[trigger] is_value(prev) && steps_give(init, step, a, b - 1, prev)
            && call_ensures(step, (prev, (b - 1) as usize), r1);
        let p2 = choose|prev: T| #[trigger] is_value(prev) && steps_give(init, step, a, b - 1, prev)
            && call_ensures(step, (prev, (b - 1) as usize), r2);
        lemma_steps_unique(init, step, merge, a, b - 1, p1, p2);
    }
}

proof fn lemma_tree_unique<T, I: Fn() -> T, S: Fn(T, usize) -> T, M: Fn(T, T) -> T>(
    init: I,
    step: S,
    merge: M,
    len: nat,
    piece_len: nat,
    lo: nat,
    hi: nat,
    r1: T,
    r2: T,
)
    requires
        deterministic(init, step, merge),
        tree_gives(init, step, merge, len, piece_len, lo, hi, r1),
        tree_gives(init, step, merge, len, piece_len, lo, hi, r2),
    ensures
        r1 == r2,
    decreases hi - lo,
{
    if hi <= lo + 1 {
        lemma_steps_unique(
            init,
            step,
            merge,
            span_start(piece_len, lo) as int,
            span_end(len, piece_len, hi) as int,
            r1,
            r2,
        );
    } else {
        let mid = (lo + (hi - lo) / 2) as nat;
        let (l1, q1) = choose|left: T, right: T| #[trigger] is_pair(left, right)
            && tree_gives(init, step, merge, len, piece_len, lo, mid, left)
            && tree_gives(init, step, merge, len, piece_len, mid, hi, right)
            && call_ensures(merge, (left, right), r1);
        let (l2, q2) = choose|left: T, right: T| #[trigger] is_pair(left, right)
            && tree_gives(init, step, merge, len, piece_len, lo, mid, left)
            && tree_gives(init, step, merge, len, piece_len, mid, hi, right)
            && call_ensures(merge, (left, right), r2);
        lemma_tree_unique(init, step, merge, len, piece_len, lo, mid, l1, l2);
        lemma_tree_unique(init, step, merge, len, piece_len, mid, hi, q1, q2);
    }
}

/// The pieces and the tree that merges them are fixed by the length and
/// the piece count alone, so with closures that always give the same
/// result for the same arguments, every run of a fold gives the same
/// value, however its pieces were spread over threads.
pub proof fn law_fold_is_deterministic<T, I: Fn() -> T, S: Fn(T, usize) -> T, M: Fn(T, T) -> T>(
    len: usize,
    pieces: usize,
    init: I,
    step: S,
    merge: M,
    r1: T,
    r2: T,
)
    requires
        deterministic(init, step, merge),
        fold_gives(len as nat, pieces as nat, init, step, merge, r1),
        fold_gives(len as nat, pieces as nat, init, step, merge, r2),
    ensures
        r1 == r2,
{
    lemma_tree_unique(
        init,
        step,
        merge,
        len as nat,
        piece_length(len as nat, pieces as nat),
        0,
        piece_total(len as nat, pieces as nat),
        r1,
        r2,
    );
}


/// Closures that count pieces: every piece starts at one, its steps leave
/// the count alone, and merging adds, wherever the sum fits in a `usize`.
pub open spec fn counts_pieces<I: Fn() -> usize, S: Fn(usize, usize) -> usize, M: Fn(usize, usize) -> usize>(
    init: I,
    step: S,
    merge: M,
) -> bool {
    &&& forall|r: usize| #[trigger] call_ensures(init, (), r) ==> r == 1
    &&& forall|v: usize, i: usize, r: usize| #[trigger] call_ensures(step, (v, i), r) ==> r == v
    &&& forall|a: usize, b: usize, r: usize| #[trigger] call_ensures(merge, (a, b), r) && a + b <= usize::MAX
        ==> r == a + b
}

proof fn lemma_steps_count<I: Fn() -> usize, S: Fn(usize, usize) -> usize, M: Fn(usize, usize) -> usize>(
    init: I,
    step: S,
    merge: M,
    a: int,
    b: int,
    r: usize,
)
    requires
        counts_pieces(init, step, merge),
        steps_give(init, step, a, b, r),
    ensures
        r == 1,
    decreases b - a,
{
    if b > a {
        let prev = choose|prev: usize| #[trigger] is_value(prev) && steps_give(init, step, a, b - 1, prev)
            && call_ensures(step, (prev, (b - 1) as usize), r);
        lemma_steps_count(init, step, merge, a, b - 1, prev);
    }
}

proof fn lemma_tree_count<I: Fn() -> usize, S: Fn(usize, usize) -> usize, M: Fn(usize, usize) -> usize>(
    init: I,
    step: S,
    merge: M,
    len: nat,
    piece_len: nat,
    lo: nat,
    hi: nat,
    r: usize,
)
    requires
        counts_pieces(init, step, merge),
        lo < hi <= usize::MAX,
        tree_gives(init, step, merge, len, piece_len, lo, hi, r),
    ensures
        r == hi - lo,
    decreases hi - lo,
{
    if hi <= lo + 1 {
        lemma_steps_count(
            init,
            step,
            merge,
            span_start(piece_len, lo) as int,
            span_end(len, piece_len, hi) as int,
            r,
        );
    } else {
        let mid = (lo + (hi - lo) / 2) as nat;
        let (left, right) = choose|left: usize, right: usize| #[trigger] is_pair(left, right)
            && tree_gives(init, step, merge, len, piece_len, lo, mid, left)
            && tree_gives(init, step, merge, len, piece_len, mid, hi, right)
            && call_ensures(merge, (left, right), r);
        lemma_tree_count(init, step, merge, len, piece_len, lo, mid, left);
        lemma_tree_count(init, step, merge, len, piece_len, mid, hi, right);
    }
}

/// A fold makes exactly `piece_total` accumulators: closures that count
/// pieces give the piece count, which is at least one, no more than the
/// pieces asked for (one when none were) and no more than `len`.
pub proof fn law_fold_makes_one_accumulator_per_piece<I: Fn() -> usize, S: Fn(usize, usize) -> usize, M: Fn(usize, usize) -> usize>(
    len: usize,
    pieces: usize,
    init: I,
    step: S,
    merge: M,
    made: usize,
)
    requires
        len >= 1,
        counts_pieces(init, step, merge),
        fold_gives(len as nat, pieces as nat, init, step, merge, made),
    ensures
        made == piece_total(len as nat, pieces as nat),
        made == ceil_div(len as nat, ceil_div(len as nat, if pieces == 0 { 1 } else { pieces as nat })),
        1 <= made <= if pieces == 0 { 1 } else { pieces as nat },
        made <= len,
{
    law_piece_count_is_bounded(len, pieces);
    let p: nat = if pieces == 0 { 1 } else { pieces as nat };
    lemma_ceil_div(len as nat, p);
    lemma_tree_count(
        init,
        step,
        merge,
        len as nat,
        piece_length(len as nat, pieces as nat),
        0,
        piece_total(len as nat, pieces as nat),
        made,
    );
}

} // verus!

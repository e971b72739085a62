//! The decisions of control-system configuration: how the state space, the
//! spin count, the operator-splitting ladder and the power-level ensemble
//! are resolved from what the user supplied, and the index table of an
//! uncoupled system.
use vstd::prelude::*;
use crate::error::{QoalaError, Result};
use crate::text::{digits, digits_string};
use crate::types::{Basis, StateSpace};
use crate::prop_index::{propagator_ind, propagator_table, tabulated, sphten_len, unsupported_count_message};

verus! {

/// The approximation flag, which selects a cheaper propagator index table.
#[derive(Debug, Clone, Copy, PartialEq, Eq, Structural)]
pub enum Approximation {
    /// Build the index table as if the spins were uncoupled.
    NoCoupling,
}

/// A Hamiltonian term that may be constant or piecewise-constant in time,
/// over the operator type `M`.
#[derive(Debug, Clone)]
pub enum TimeDependent<M> {
    /// The same operator at every time slice.
    Constant(M),
    /// One operator per time slice.
    PerStep(Vec<M>),
}

impl<M> TimeDependent<M> {
    /// The operator at time slice `n`.
    pub fn at(&self, n: usize) -> (r: Result<&M>)
        ensures
            match *self {
                TimeDependent::Constant(m) => r == Ok::<&M, QoalaError>(&m),
                TimeDependent::PerStep(v) => if n < v@.len() {
                    r == Ok::<&M, QoalaError>(&v@[n as int])
                } else {
                    r matches Err(QoalaError::Dimension(msg)) && msg@ == "no time-dependent operator for step "@
                        + digits(n as nat)
                },
            },
    {
        match self {
            TimeDependent::Constant(m) => Ok(m),
            TimeDependent::PerStep(v) => {
                if n < v.len() {
                    Ok(&v[n])
                } else {
                    let mut msg = String::from_str("no time-dependent operator for step ");
                    let d = digits_string(n as u64);
                    msg.append(d.as_str());
                    Err(QoalaError::Dimension(msg))
                }
            },
        }
    }

    /// True when the term does not change with time.
    pub fn is_constant(&self) -> (r: bool)
        ensures
            r == (*self is Constant),
    {
        match self {
            TimeDependent::Constant(_) => true,
            TimeDependent::PerStep(_) => false,
        }
    }
}

// ------------------------------------------------------------ formalism ----

/// The state space a configuration runs in: spherical tensors always run in
/// Liouville space (the second component says a Hilbert-space request was
/// overridden); otherwise the space must be given.
pub fn resolve_space(basis: Basis, space: Option<StateSpace>) -> (r: Result<(StateSpace, bool)>)
    ensures
        basis == Basis::Sphten ==> r == Ok::<(StateSpace, bool), QoalaError>(
            (StateSpace::Liouville, space == Some(StateSpace::Hilbert)),
        ),
        basis == Basis::Zeeman && space.is_some() ==> r == Ok::<(StateSpace, bool), QoalaError>(
            (space.unwrap(), false),
        ),
        basis == Basis::Zeeman && space.is_none() ==> (r matches Err(QoalaError::MissingField(s))
            && s@ == "space"@),
{
    match (basis, space) {
        (Basis::Sphten, Some(StateSpace::Hilbert)) => Ok((StateSpace::Liouville, true)),
        (Basis::Sphten, _) => Ok((StateSpace::Liouville, false)),
        (_, Some(s)) => Ok((s, false)),
        (_, None) => Err(QoalaError::MissingField(String::from_str("space"))),
    }
}

/// What resolving the spin count had to assume.
#[derive(Debug, Clone, Copy, PartialEq, Eq, Structural)]
pub enum SpinNote {
    /// Nothing.
    Consistent,
    /// `mults` and `nspins` disagreed; the length of `mults` won.
    CountFromMults,
    /// No `mults`: every spin is taken as a two-level system.
    AssumedTwoLevel,
}

/// The spin count and multiplicities of a configuration: `mults` decides
/// the count when given; without it every one of `nspins` spins is a
/// two-level system; one of the two must be given.
pub fn resolve_spins(nspins: Option<usize>, mults: Option<Vec<usize>>) -> (r: Result<(usize, Vec<usize>, SpinNote)>)
    ensures
        mults is Some ==> (r matches Ok((n, m, note)) && m@ == mults.unwrap()@ && n == m@.len()
            && note == (if nspins is Some && nspins.unwrap() != m@.len() {
                SpinNote::CountFromMults
            } else {
                SpinNote::Consistent
            })),
        mults is None && nspins is Some ==> (r matches Ok((n, m, note)) && n == nspins.unwrap()
            && m@ == Seq::new(n as nat, |i: int| 2usize) && note == SpinNote::AssumedTwoLevel),
        mults is None && nspins is None ==> (r matches Err(QoalaError::MissingField(s))
            && s@ == "either nspins or mults must be provided"@),
{
    match (nspins, mults) {
        (Some(n), Some(m)) => {
            let len = m.len();
            let note = if len != n { SpinNote::CountFromMults } else { SpinNote::Consistent };
            Ok((len, m, note))
        },
        (Some(n), None) => {
            let mut m: Vec<usize> = Vec::new();
            let mut k: usize = 0;
            while k < n
                invariant
                    k <= n,
                    m@ == Seq::new(k as nat, |i: int| 2usize),
                decreases n - k,
            {
                m.push(2);
                k = k + 1;
                assert(m@ =~= Seq::new(k as nat, |i: int| 2usize));
            }
            Ok((n, m, SpinNote::AssumedTwoLevel))
        },
        (None, Some(m)) => {
            let len = m.len();
            Ok((len, m, SpinNote::Consistent))
        },
        (None, None) => Err(QoalaError::MissingField(String::from_str("either nspins or mults must be provided"))),
    }
}

/// How often `v` occurs in `s`.
pub open spec fn occurrences(s: Seq<usize>, v: usize) -> nat
    decreases s.len(),
{
    if s.len() == 0 {
        0
    } else {
        occurrences(s.drop_last(), v) + if s.last() == v { 1nat } else { 0nat }
    }
}

/// `counts` lists each value of `s` once, in increasing order, with how
/// often it occurs.
pub open spec fn tallies(s: Seq<usize>, counts: Seq<(usize, usize)>) -> bool {
    &&& forall|i: int, j: int| 0 <= i < j < counts.len() ==> #[trigger] counts[i].0 < #[trigger] counts[j].0
    &&& forall|i: int| 0 <= i < counts.len() ==> #[trigger] counts[i].1 == occurrences(s, counts[i].0)
        && counts[i].1 > 0
    &&& forall|v: usize| occurrences(s, v) > 0 ==> exists|i: int| 0 <= i < counts.len() && #[trigger] counts[i].0 == v
}

/// How many spins of each multiplicity there are: each multiplicity that
/// occurs, once, in increasing order, with its count.
pub fn multiplicity_counts(mults: &Vec<usize>) -> (counts: Vec<(usize, usize)>)
    ensures
        tallies(mults@, counts@),
{
    let mut counts: Vec<(usize, usize)> = Vec::new();
    let mut i: usize = 0;
    while i < mults.len()
        invariant
            i <= mults@.len(),
            tallies(mults@.take(i as int), counts@),
            forall|j: int| 0 <= j < counts@.len() ==> #[trigger] counts@[j].1 <= i,
        decreases mults@.len() - i,
    {
        let x = mults[i];
        let ghost p = mults@.take(i as int);
        let ghost q = mults@.take(i as int + 1);
        assert(q.drop_last() =~= p);
        assert(q.last() == x);
        let mut k: usize = 0;
        while k < counts.len() && counts[k].0 < x
            invariant
                k <= counts@.len(),
                forall|j: int| 0 <= j < k ==> #[trigger] counts@[j].0 < x,
            decreases counts@.len() - k,
        {
            k = k + 1;
        }
        let ghost old_counts = counts@;
        if k < counts.len() && counts[k].0 == x {
            let c = counts[k].1;
            counts.set(k, (x, c + 1));
            proof {
                assert forall|j: int| 0 <= j < counts@.len() implies #[trigger] counts@[j].1 == occurrences(q, counts@[j].0)
                    && counts@[j].1 > 0 by {
                    if j != k {
                        assert(counts@[j] == old_counts[j]);
                        if j < k {
                            assert(old_counts[j].0 < old_counts[k as int].0);
                        } else {
                            assert(old_counts[k as int].0 < old_counts[j].0);
                        }
                    }
                }
                assert forall|v: usize| occurrences(q, v) > 0 implies exists|j: int| 0 <= j < counts@.len()
                    && #[trigger] counts@[j].0 == v by {
                    if v == x {
                        assert(counts@[k as int].0 == v);
                    } else {
                        assert(occurrences(q, v) == occurrences(q.drop_last(), v) + if q.last() == v { 1nat } else { 0nat });
                        assert(occurrences(p, v) > 0);
                        let j = choose|j: int| 0 <= j < old_counts.len() && #[trigger] old_counts[j].0 == v;
                        assert(counts@[j].0 == v);
                    }
                }
                assert forall|a: int, b: int| 0 <= a < b < counts@.len() implies #[trigger] counts@[a].0 < #[trigger] counts@[b].0 by {
                    assert(old_counts[a].0 < old_counts[b].0);
                }
            }
        } else {
            counts.insert(k, (x, 1));
            proof {
                assert forall|v: usize| occurrences(p, v) > 0 implies v != x by {
                    if v == x {
                        let j = choose|j: int| 0 <= j < old_counts.len() && #[trigger] old_counts[j].0 == v;
                        if j < k {
                            assert(old_counts[j].0 < x);
                        } else {
                            if k < old_counts.len() {
                                assert(old_counts[k as int].0 != x);
                                assert(old_counts[k as int].0 >= x);
                                if j > k {
                                    assert(old_counts[k as int].0 < old_counts[j].0);
                                }
                            }
                        }
                    }
                }
                assert forall|j: int| 0 <= j < counts@.len() implies #[trigger] counts@[j].1 == occurrences(q, counts@[j].0)
                    && counts@[j].1 > 0 by {
                    if j < k {
                        assert(counts@[j] == old_counts[j]);
                    } else if j > k {
                        assert(counts@[j] == old_counts[j - 1]);
                        if k < old_counts.len() {
                            assert(old_counts[k as int].0 > x);
                            if j - 1 > k {
                                assert(old_counts[k as int].0 < old_counts[j - 1].0);
                            }
                        }
                    } else {
                        assert(occurrences(p, x) == 0);
                    }
                }
                assert forall|v: usize| occurrences(q, v) > 0 implies exists|j: int| 0 <= j < counts@.len()
                    && #[trigger] counts@[j].0 == v by {
                    if v == x {
                        assert(counts@[k as int].0 == v);
                    } else {
                        assert(occurrences(q, v) == occurrences(q.drop_last(), v) + if q.last() == v { 1nat } else { 0nat });
                        assert(occurrences(p, v) > 0);
                        let j = choose|j: int| 0 <= j < old_counts.len() && #[trigger] old_counts[j].0 == v;
                        if j < k {
                            assert(counts@[j].0 == v);
                        } else {
                            assert(counts@[j + 1].0 == v);
                        }
                    }
                }
                assert forall|a: int, b: int| 0 <= a < b < counts@.len() implies #[trigger] counts@[a].0 < #[trigger] counts@[b].0 by {
                    if k < old_counts.len() {
                        assert(old_counts[k as int].0 > x);
                    }
                    if a < k && b < k {
                        assert(counts@[a] == old_counts[a] && counts@[b] == old_counts[b]);
                    } else if a < k && b == k {
                        assert(counts@[a] == old_counts[a]);
                    } else if a < k && b > k {
                        assert(counts@[a] == old_counts[a] && counts@[b] == old_counts[b - 1]);
                        assert(old_counts[a].0 < old_counts[b - 1].0);
                    } else if a == k {
                        assert(counts@[b] == old_counts[b - 1]);
                        if b - 1 > k {
                            assert(old_counts[k as int].0 < old_counts[b - 1].0);
                        }
                    } else {
                        assert(counts@[a] == old_counts[a - 1] && counts@[b] == old_counts[b - 1]);
                        assert(old_counts[a - 1].0 < old_counts[b - 1].0);
                    }
                }
            }
        }
        i = i + 1;
    }
    assert(mults@.take(i as int) =~= mults@);
    counts
}

// ------------------------------------------------------- uncoupled tables ----

/// Entry `k` of the index table of `n` uncoupled spins whose single-spin
/// blocks are `b x b` (`b = 3` in Liouville space with spherical tensors,
/// `b = 2` in Hilbert space): block `k / b^2`, filled column-major.
pub open spec fn uncoupled_entry(b: nat, k: int) -> (usize, usize) {
    let s = k / (b * b) as int;
    let within = k % (b * b) as int;
    ((b * s + within % b as int) as usize, (b * s + within / b as int) as usize)
}

/// The index table of `n` uncoupled spins with `b x b` blocks.
pub open spec fn uncoupled_table(b: nat, n: nat) -> Seq<(usize, usize)> {
    Seq::new(b * b * n, |k: int| uncoupled_entry(b, k))
}

/// Fills the block-diagonal table.
fn uncoupled_blocks(b: usize, nspins: usize) -> (out: Vec<(usize, usize)>)
    requires
        2 <= b <= 3,
        b * b * nspins <= usize::MAX,
    ensures
        out@ == uncoupled_table(b as nat, nspins as nat),
{
    let mut out: Vec<(usize, usize)> = Vec::new();
    let mut s: usize = 0;
    while s < nspins
        invariant
            2 <= b <= 3,
            b * b * nspins <= usize::MAX,
            s <= nspins,
            out@.len() == b * b * s,
            forall|k: int| 0 <= k < out@.len() ==> #[trigger] out@[k] == uncoupled_entry(b as nat, k),
        decreases nspins - s,
    {
        let mut c: usize = 0;
        while c < b
            invariant
                2 <= b <= 3,
                b * b * nspins <= usize::MAX,
                s < nspins,
                c <= b,
                out@.len() == b * b * s + b * c,
                forall|k: int| 0 <= k < out@.len() ==> #[trigger] out@[k] == uncoupled_entry(b as nat, k),
            decreases b - c,
        {
            let mut r: usize = 0;
            while r < b
                invariant
                    2 <= b <= 3,
                    b * b * nspins <= usize::MAX,
                    s < nspins,
                    c < b,
                    r <= b,
                    out@.len() == b * b * s + b * c + r,
                    forall|k: int| 0 <= k < out@.len() ==> #[trigger] out@[k] == uncoupled_entry(b as nat, k),
                decreases b - r,
            {
                proof {
                    lemma_uncoupled_entry(b as nat, s as nat, c as nat, r as nat);
                    assert(b * s + r < b * b * nspins && b * s + c < b * b * nspins) by (nonlinear_arith)
                        requires 2 <= b <= 3, s < nspins, r < b, c < b;
                }
                out.push((b * s + r, b * s + c));
                r = r + 1;
            }
            assert(b * b * s + b * c + b == b * b * s + b * (c + 1)) by (nonlinear_arith);
            c = c + 1;
        }
        assert(b * b * s + b * b == b * b * (s + 1)) by (nonlinear_arith);
        s = s + 1;
    }
    out
}

/// The entry written for spin `s`, column `c` and row `r` is the one at its
/// position.
proof fn lemma_uncoupled_entry(b: nat, s: nat, c: nat, r: nat)
    requires
        2 <= b <= 3,
        c < b,
        r < b,
    ensures
        uncoupled_entry(b, (b * b * s + b * c + r) as int) == ((b * s + r) as usize, (b * s + c) as usize),
{
    let k = (b * b * s + b * c + r) as int;
    let bb = (b * b) as int;
    let within = (b * c + r) as int;
    assert(0 <= within < bb) by (nonlinear_arith)
        requires within == b * c + r, c < b, r < b, bb == b * b;
    assert(k == s * bb + within) by (nonlinear_arith)
        requires k == b * b * s + b * c + r, bb == b * b, within == b * c + r;
    vstd::arithmetic::div_mod::lemma_fundamental_div_mod_converse(k, bb, s as int, within);
    assert(within == c * b + r) by (nonlinear_arith)
        requires within == b * c + r;
    vstd::arithmetic::div_mod::lemma_fundamental_div_mod_converse(within, b as int, c as int, r as int);
}

/// The propagator index table for a system treated as uncoupled: one
/// single-spin block after another down the diagonal, each filled
/// column-major.  Implemented for spherical tensors in Liouville space and
/// the Zeeman basis in Hilbert space.
pub fn uncoupled_index_table(space: StateSpace, basis: Basis, nspins: usize) -> (r: Result<Vec<(usize, usize)>>)
    requires
        space == StateSpace::Liouville && basis == Basis::Sphten ==> 9 * nspins <= usize::MAX,
        space == StateSpace::Hilbert && basis == Basis::Zeeman ==> 4 * nspins <= usize::MAX,
    ensures
        space == StateSpace::Liouville && basis == Basis::Sphten ==> (r matches Ok(t) && t@ == uncoupled_table(3, nspins as nat)),
        space == StateSpace::Hilbert && basis == Basis::Zeeman ==> (r matches Ok(t) && t@ == uncoupled_table(2, nspins as nat)),
        space == StateSpace::Liouville && basis == Basis::Zeeman ==> (r matches Err(QoalaError::NotImplemented(s))
            && s@ == "uncoupled propagator indices for the zeeman basis in a liouville space"@),
        space == StateSpace::Hilbert && basis == Basis::Sphten ==> (r matches Err(QoalaError::NotImplemented(s))
            && s@ == "uncoupled propagator indices for the sphten basis in a hilbert space"@),
{
    match (space, basis) {
        (StateSpace::Liouville, Basis::Sphten) => Ok(uncoupled_blocks(3, nspins)),
        (StateSpace::Hilbert, Basis::Zeeman) => Ok(uncoupled_blocks(2, nspins)),
        (StateSpace::Liouville, Basis::Zeeman) => Err(
            QoalaError::NotImplemented(
                String::from_str("uncoupled propagator indices for the zeeman basis in a liouville space"),
            ),
        ),
        (StateSpace::Hilbert, Basis::Sphten) => Err(
            QoalaError::NotImplemented(
                String::from_str("uncoupled propagator indices for the sphten basis in a hilbert space"),
            ),
        ),
    }
}

/// The uncoupled table couples nothing: every entry pairs a row and a
/// column of the same spin's block.
pub proof fn law_uncoupled_entries_stay_in_their_block(b: nat, n: nat, k: int)
    requires
        2 <= b <= 3,
        9 * n <= usize::MAX,
        0 <= k < uncoupled_table(b, n).len(),
    ensures
        uncoupled_table(b, n)[k].0 as int / b as int == k / (b * b) as int,
        uncoupled_table(b, n)[k].1 as int / b as int == k / (b * b) as int,
        (uncoupled_table(b, n)[k].0 as int) < b * n,
        (uncoupled_table(b, n)[k].1 as int) < b * n,
{
    let bb = (b * b) as int;
    let s = k / bb;
    let within = k % bb;
    vstd::arithmetic::div_mod::lemma_fundamental_div_mod(k, bb);
    vstd::arithmetic::div_mod::lemma_mod_pos_bound(k, bb);
    vstd::arithmetic::div_mod::lemma_div_pos_is_pos(k, bb);
    vstd::arithmetic::div_mod::lemma_mod_pos_bound(within, b as int);
    vstd::arithmetic::div_mod::lemma_div_pos_is_pos(within, b as int);
    vstd::arithmetic::div_mod::lemma_fundamental_div_mod(within, b as int);
    let r = within % b as int;
    let c = within / b as int;
    assert(c < b) by (nonlinear_arith)
        requires within == b * c + r, 0 <= r < b, within < bb, bb == b * b, c >= 0;
    assert(s < n) by (nonlinear_arith)
        requires k == bb * s + within, 0 <= within, k < b * b * n, bb == b * b, s >= 0;
    assert(b * s + r < b * n && b * s + c < b * n) by (nonlinear_arith)
        requires s < n, 0 <= r < b, 0 <= c < b, s >= 0;
    assert(b * n <= usize::MAX) by (nonlinear_arith)
        requires b <= 3, 9 * n <= usize::MAX;
    assert(b * s + r == s * b + r && b * s + c == s * b + c) by (nonlinear_arith);
    vstd::arithmetic::div_mod::lemma_fundamental_div_mod_converse(b * s + r, b as int, s, r);
    vstd::arithmetic::div_mod::lemma_fundamental_div_mod_converse(b * s + c, b as int, s, c);
    assert(uncoupled_table(b, n)[k] == uncoupled_entry(b, k));
}

// ---------------------------------------------------------- index tables ----

/// A copy of an index table.
fn copy_table(t: &Vec<(usize, usize)>) -> (c: Vec<(usize, usize)>)
    ensures
        c@ == t@,
{
    let mut c: Vec<(usize, usize)> = Vec::new();
    let mut k: usize = 0;
    while k < t.len()
        invariant
            k <= t@.len(),
            c@ == t@.take(k as int),
        decreases t@.len() - k,
    {
        c.push(t[k]);
        k = k + 1;
        assert(c@ =~= t@.take(k as int));
    }
    assert(t@.take(k as int) =~= t@);
    c
}

/// The propagator index tables a configuration carries: the single-spin
/// table and one composite table per spin.  A table supplied by the user is
/// used as both; otherwise the QOALA objective functions get the uncoupled
/// table when the coupling is approximated away, else the tabulated ones;
/// other objective functions carry none.
pub fn index_tables(
    given: Option<Vec<(usize, usize)>>,
    qoala: bool,
    no_coupling: bool,
    space: StateSpace,
    basis: Basis,
    nspins: usize,
) -> (r: Result<(Vec<(usize, usize)>, Vec<Vec<(usize, usize)>>)>)
    requires
        given is None && qoala && no_coupling ==> (space == StateSpace::Liouville && basis == Basis::Sphten
            ==> 9 * nspins <= usize::MAX) && (space == StateSpace::Hilbert && basis == Basis::Zeeman ==> 4
            * nspins <= usize::MAX),
        given is None && qoala && !no_coupling && space == StateSpace::Liouville && basis == Basis::Sphten
            && nspins >= 1 ==> sphten_len(nspins as nat) <= usize::MAX,
    ensures
        given matches Some(pi) ==> (r matches Ok((single, grad)) && single@ == pi@ && grad@.len() == 1
            && grad@[0]@ == pi@),
        given is None && !qoala ==> (r matches Ok((single, grad)) && single@.len() == 0 && grad@.len() == 1
            && grad@[0]@.len() == 0),
        given is None && qoala && no_coupling ==> ({
            let b: nat = if space == StateSpace::Liouville { 3 } else { 2 };
            if (space == StateSpace::Liouville) == (basis == Basis::Sphten) {
                r matches Ok((single, grad)) && single@ == uncoupled_table(b, nspins as nat) && grad@.len() == 1
                    && grad@[0]@ == single@
            } else {
                r matches Err(QoalaError::NotImplemented(_))
            }
        }),
        given is None && qoala && !no_coupling ==> ({
            if space == StateSpace::Hilbert && basis == Basis::Sphten {
                r matches Err(QoalaError::NotImplemented(m))
                    && m@ == "propagator_ind for the sphten basis in a hilbert space formalism"@
            } else if nspins == 0 {
                r matches Err(QoalaError::BadValue(m)) && m@ == "need at least one spin"@
            } else if tabulated(space, basis, nspins as nat) {
                r matches Ok((single, grad)) && single@ == propagator_table(space, basis, 1, 0)
                    && grad@.len() == nspins && forall|m: int| 0 <= m < nspins ==> #[trigger] grad@[m]@
                    == propagator_table(space, basis, nspins as nat, m as nat)
            } else {
                r matches Err(QoalaError::NotImplemented(m)) && m@ == unsupported_count_message(
                    if space == StateSpace::Liouville { "zeeman-liouville"@ } else { "zeeman-hilbert"@ },
                    nspins as nat,
                )
            }
        }),
{
    match given {
        Some(pi) => {
            let single = copy_table(&pi);
            let mut grad: Vec<Vec<(usize, usize)>> = Vec::new();
            grad.push(pi);
            Ok((single, grad))
        },
        None => {
            if !qoala {
                let mut grad: Vec<Vec<(usize, usize)>> = Vec::new();
                grad.push(Vec::new());
                return Ok((Vec::new(), grad));
            }
            if no_coupling {
                let t = uncoupled_index_table(space, basis, nspins)?;
                let g = copy_table(&t);
                let mut grad: Vec<Vec<(usize, usize)>> = Vec::new();
                grad.push(g);
                return Ok((t, grad));
            }
            let mut one = propagator_ind(space, basis, 1)?;
            let grad = propagator_ind(space, basis, nspins)?;
            let single = one.remove(0);
            Ok((single, grad))
        },
    }
}

// ------------------------------------------------------ splitting ladder ----

/// The operator-splitting options of one drift system, as supplied.
#[derive(Debug, Clone)]
pub struct SplitOptions {
    /// Order of the splitting method, when one was named; it takes
    /// precedence over `split_order`.
    pub method_order: Option<usize>,
    /// Splitting order.
    pub split_order: Option<usize>,
    /// Trotter number.
    pub trotter_number: Option<usize>,
    /// Splitting orders the adaptive step may choose from.
    pub splitset: Option<Vec<usize>>,
    /// Trotter numbers the adaptive step may choose from.
    pub trotterset: Option<Vec<usize>>,
    /// Explicit `(trotter, order)` ladder, overridden by the two sets.
    pub adaptset: Option<Vec<(usize, usize)>>,
}

/// A resolution that overrode something the user supplied.
#[derive(Debug, Clone, Copy, PartialEq, Eq, Structural)]
pub enum SplitNote {
    /// No interaction is present: the splitting options were dropped.
    SplittingRemoved,
    /// Both a method and an order were given: the method won.
    MethodOverridesOrder,
    /// `adaptset`, `trotterset` and `splitset` were given: the sets won.
    SetsOverrideAdaptset,
    /// `adaptset` and `trotterset` were given: `trotterset` won.
    TrottersetOverridesAdaptset,
    /// `adaptset` and `splitset` were given: `splitset` won.
    SplitsetOverridesAdaptset,
}

/// The resolved splitting of one drift system.
#[derive(Debug, Clone)]
pub struct Splitting {
    /// Splitting order to start from.
    pub split_order: usize,
    /// Trotter number to start from.
    pub trotter_number: usize,
    /// Whether the adaptive step walks a ladder.
    pub adapt: bool,
    /// The `(trotter, order)` ladder.
    pub adaptset: Vec<(usize, usize)>,
    /// What had to be overridden, in the order it was decided.
    pub notes: Vec<SplitNote>,
}

/// The contents of an optional vector.
pub open spec fn opt_view(o: Option<Vec<usize>>) -> Option<Seq<usize>> {
    match o {
        Some(v) => Some(v@),
        None => None,
    }
}

/// The contents of an optional ladder.
pub open spec fn opt_pairs_view(o: Option<Vec<(usize, usize)>>) -> Option<Seq<(usize, usize)>> {
    match o {
        Some(v) => Some(v@),
        None => None,
    }
}

/// Position of the rung `(trotter, order)` on a ladder: the first
/// position holding it, if any.
pub fn ladder_index(adaptset: &Vec<(usize, usize)>, trotter: usize, order: usize) -> (r: Option<usize>)
    ensures
        r matches Some(k) ==> k < adaptset@.len() && adaptset@[k as int] == (trotter, order)
            && forall|j: int| 0 <= j < k ==> #[trigger] adaptset@[j] != (trotter, order),
        r is None ==> forall|j: int| 0 <= j < adaptset@.len() ==> #[trigger] adaptset@[j] != (trotter, order),
{
    let mut k: usize = 0;
    while k < adaptset.len()
        invariant
            k <= adaptset@.len(),
            forall|j: int| 0 <= j < k ==> #[trigger] adaptset@[j] != (trotter, order),
        decreases adaptset@.len() - k,
    {
        let (q, p) = adaptset[k];
        if q == trotter && p == order {
            return Some(k);
        }
        k = k + 1;
    }
    None
}

/// Which stored splitting serves ladder rung `k`: the only one when a
/// single set is stored (the rungs are then computed as they are needed),
/// else the `k`-th, which must exist.
pub fn split_slot(stored: usize, k: usize) -> (r: Result<usize>)
    ensures
        stored == 1 ==> r == Ok::<usize, QoalaError>(0),
        stored != 1 && k < stored ==> r == Ok::<usize, QoalaError>(k),
        stored != 1 && k >= stored ==> (r matches Err(QoalaError::Dimension(m))
            && m@ == "no splitting data for ladder rung "@ + digits(k as nat)),
{
    if stored == 1 {
        Ok(0)
    } else if k < stored {
        Ok(k)
    } else {
        let mut m = String::from_str("no splitting data for ladder rung ");
        let d = digits_string(k as u64);
        m.append(d.as_str());
        Err(QoalaError::Dimension(m))
    }
}

/// The stored splitting for the current rung: the rung's position on the
/// ladder, or the first rung when it is not on it.
pub fn current_split_slot(adaptset: &Vec<(usize, usize)>, trotter: usize, order: usize, stored: usize) -> (r: Result<usize>)
    ensures
        ({
            let k: usize = match ladder_position(adaptset@, trotter, order) {
                Some(k) => k as usize,
                None => 0usize,
            };
            if stored == 1 {
                r == Ok::<usize, QoalaError>(0)
            } else if k < stored {
                r == Ok::<usize, QoalaError>(k)
            } else {
                r matches Err(QoalaError::Dimension(m)) && m@ == "no splitting data for ladder rung "@ + digits(k as nat)
            }
        }),
{
    let k = match ladder_index(adaptset, trotter, order) {
        Some(k) => k,
        None => 0,
    };
    proof {
        lemma_ladder_position(adaptset@, trotter, order);
    }
    split_slot(stored, k)
}

/// The first position of a rung on a ladder, if any.
pub open spec fn ladder_position(ladder: Seq<(usize, usize)>, trotter: usize, order: usize) -> Option<nat>
    decreases ladder.len(),
{
    if ladder.len() == 0 {
        None
    } else {
        match ladder_position(ladder.drop_last(), trotter, order) {
            Some(k) => Some(k),
            None => if ladder.last() == (trotter, order) { Some((ladder.len() - 1) as nat) } else { None },
        }
    }
}

/// `ladder_position` is the first position holding the rung.
proof fn lemma_ladder_position(ladder: Seq<(usize, usize)>, trotter: usize, order: usize)
    ensures
        ladder_position(ladder, trotter, order) matches Some(k) ==> k < ladder.len() && ladder[k as int] == (
            trotter,
            order,
        ) && forall|j: int| 0 <= j < k ==> #[trigger] ladder[j] != (trotter, order),
        ladder_position(ladder, trotter, order) is None ==> forall|j: int| 0 <= j < ladder.len() ==> #[trigger] ladder[j]
            != (trotter, order),
    decreases ladder.len(),
{
    if ladder.len() > 0 {
        let d = ladder.drop_last();
        lemma_ladder_position(d, trotter, order);
        assert forall|j: int| 0 <= j < d.len() implies #[trigger] ladder[j] == d[j] by {}
    }
}

/// The smallest element of a non-empty sequence.
pub open spec fn seq_min(s: Seq<usize>) -> usize
    decreases s.len(),
{
    if s.len() <= 1 {
        s[0]
    } else if s.last() < seq_min(s.drop_last()) {
        s.last()
    } else {
        seq_min(s.drop_last())
    }
}

/// Splitting orders the splittings implement.
pub open spec fn order_is_coded(order: nat) -> bool {
    order <= 4 || order == 6
}

/// The starting order: the method's, else the order given, else the least
/// of `splitset`, else 2.  `None` for an empty `splitset`.
pub open spec fn chosen_order(method: Option<usize>, order: Option<usize>, splitset: Option<Seq<usize>>) -> Option<usize> {
    if method is Some {
        method
    } else if order is Some {
        order
    } else if splitset is Some {
        if splitset.unwrap().len() == 0 { None } else { Some(seq_min(splitset.unwrap())) }
    } else {
        Some(2)
    }
}

/// The starting Trotter number: the one given, else the least of
/// `trotterset`, else 1.  `None` for an empty `trotterset`.
pub open spec fn chosen_trotter(trotter: Option<usize>, trotterset: Option<Seq<usize>>) -> Option<usize> {
    if trotter is Some {
        trotter
    } else if trotterset is Some {
        if trotterset.unwrap().len() == 0 { None } else { Some(seq_min(trotterset.unwrap())) }
    } else {
        Some(1)
    }
}

/// The ladder: every order of `splitset` with every Trotter number of
/// `trotterset` (orders outermost); one of the sets against the other
/// starting value; else the `adaptset` given; else the single starting
/// rung.
pub open spec fn chosen_ladder(
    splitset: Option<Seq<usize>>,
    trotterset: Option<Seq<usize>>,
    adaptset: Option<Seq<(usize, usize)>>,
    order: usize,
    trotter: usize,
) -> (bool, Seq<(usize, usize)>) {
    match (splitset, trotterset) {
        (Some(s), Some(t)) => (
            true,
            Seq::new(s.len() * t.len(), |k: int| (t[k % t.len() as int], s[k / t.len() as int])),
        ),
        (None, Some(t)) => (true, t.map_values(|q: usize| (q, order))),
        (Some(s), None) => (true, s.map_values(|p: usize| (trotter, p))),
        (None, None) => match adaptset {
            Some(a) => (true, a),
            None => (false, seq![(trotter, order)]),
        },
    }
}

/// The message for an order the splittings do not implement.
pub open spec fn uncoded_order_message(order: nat) -> Seq<char> {
    "splitting order "@ + digits(order) + " is not coded"@
}

/// The least element of a non-empty vector.
fn vec_min(v: &Vec<usize>) -> (m: usize)
    requires
        v.len() > 0,
    ensures
        m == seq_min(v@),
{
    let mut m = v[0];
    let mut i: usize = 1;
    assert(v@.take(1).drop_last() =~= Seq::<usize>::empty());
    while i < v.len()
        invariant
            1 <= i <= v.len(),
            m == seq_min(v@.take(i as int)),
        decreases v.len() - i,
    {
        proof {
            let t = v@.take(i as int + 1);
            assert(t.drop_last() =~= v@.take(i as int));
            assert(t.last() == v@[i as int]);
        }
        if v[i] < m {
            m = v[i];
        }
        i = i + 1;
    }
    assert(v@.take(v.len() as int) =~= v@);
    m
}

/// The options of one drift system resolved into a splitting.
///
/// Without an interaction there is nothing to split: order 0, Trotter
/// number 1, no ladder, and a note if splitting options were given.  With
/// one, the starting order and Trotter number and the ladder are chosen as
/// `chosen_order`, `chosen_trotter` and `chosen_ladder` say; an empty set
/// or an order the splittings do not implement is refused.
pub fn resolve_splitting(interaction: bool, opts: SplitOptions) -> (r: Result<Splitting>)
    ensures
        !interaction ==> (r matches Ok(sp) && sp.split_order == 0 && sp.trotter_number == 1 && !sp.adapt
            && sp.adaptset@.len() == 0 && sp.notes@ == (if opts.method_order is Some || opts.split_order is Some
            || opts.trotter_number is Some || opts.splitset is Some || opts.trotterset is Some
            || opts.adaptset is Some {
            seq![SplitNote::SplittingRemoved]
        } else {
            Seq::empty()
        })),
        interaction ==> ({
            let order = chosen_order(opts.method_order, opts.split_order, opt_view(opts.splitset));
            let trotter = chosen_trotter(opts.trotter_number, opt_view(opts.trotterset));
            if order is None {
                r matches Err(QoalaError::BadValue(m)) && m@ == "splitset must not be empty"@
            } else if !order_is_coded(order.unwrap() as nat) {
                r matches Err(QoalaError::BadValue(m)) && m@ == uncoded_order_message(order.unwrap() as nat)
            } else if trotter is None {
                r matches Err(QoalaError::BadValue(m)) && m@ == "trotterset must not be empty"@
            } else {
                let (adapt, ladder) = chosen_ladder(
                    opt_view(opts.splitset),
                    opt_view(opts.trotterset),
                    opt_pairs_view(opts.adaptset),
                    order.unwrap(),
                    trotter.unwrap(),
                );
                r matches Ok(sp) && sp.split_order == order.unwrap() && sp.trotter_number == trotter.unwrap()
                    && sp.adapt == adapt && sp.adaptset@ == ladder && sp.notes@ == split_notes(
                    opts.method_order is Some && opts.split_order is Some,
                    opts.splitset is Some,
                    opts.trotterset is Some,
                    opts.adaptset is Some,
                )
            }
        }),
{
    let SplitOptions { method_order, split_order, trotter_number, splitset, trotterset, adaptset } = opts;
    let mut notes: Vec<SplitNote> = Vec::new();
    if !interaction {
        if method_order.is_some() || split_order.is_some() || trotter_number.is_some() || splitset.is_some()
            || trotterset.is_some() || adaptset.is_some() {
            notes.push(SplitNote::SplittingRemoved);
        }
        return Ok(Splitting { split_order: 0, trotter_number: 1, adapt: false, adaptset: Vec::new(), notes });
    }
    let order: usize = match method_order {
        Some(m) => {
            if split_order.is_some() {
                notes.push(SplitNote::MethodOverridesOrder);
            }
            m
        },
        None => match split_order {
            Some(o) => o,
            None => match &splitset {
                Some(s) => {
                    if s.len() == 0 {
                        return Err(QoalaError::BadValue(String::from_str("splitset must not be empty")));
                    }
                    vec_min(s)
                },
                None => 2,
            },
        },
    };
    if !(order <= 4 || order == 6) {
        let mut m = String::from_str("splitting order ");
        let d = digits_string(order as u64);
        m.append(d.as_str());
        m.append(" is not coded");
        return Err(QoalaError::BadValue(m));
    }
    let trotter: usize = match trotter_number {
        Some(t) => t,
        None => match &trotterset {
            Some(t) => {
                if t.len() == 0 {
                    return Err(QoalaError::BadValue(String::from_str("trotterset must not be empty")));
                }
                vec_min(t)
            },
            None => 1,
        },
    };
    let ghost notes_before = notes@;
    let (adapt, ladder) = resolve_ladder(&splitset, &trotterset, adaptset, order, trotter, &mut notes);
    proof {
        assert(notes_before == (if method_order is Some && split_order is Some {
            seq![SplitNote::MethodOverridesOrder]
        } else {
            Seq::empty()
        }));
    }
    Ok(Splitting { split_order: order, trotter_number: trotter, adapt, adaptset: ladder, notes })
}

/// The notes a resolution with an interaction leaves, in order.
pub open spec fn split_notes(method_and_order: bool, splitset: bool, trotterset: bool, adaptset: bool) -> Seq<SplitNote> {
    let first = if method_and_order { seq![SplitNote::MethodOverridesOrder] } else { Seq::empty() };
    let second = if adaptset && splitset && trotterset {
        seq![SplitNote::SetsOverrideAdaptset]
    } else if adaptset && trotterset {
        seq![SplitNote::TrottersetOverridesAdaptset]
    } else if adaptset && splitset {
        seq![SplitNote::SplitsetOverridesAdaptset]
    } else {
        Seq::empty()
    };
    first + second
}

/// Builds the ladder and notes what it overrode.
fn resolve_ladder(
    splitset: &Option<Vec<usize>>,
    trotterset: &Option<Vec<usize>>,
    adaptset: Option<Vec<(usize, usize)>>,
    order: usize,
    trotter: usize,
    notes: &mut Vec<SplitNote>,
) -> (r: (bool, Vec<(usize, usize)>))
    ensures
        (r.0, r.1@) == chosen_ladder(
            opt_view(*splitset),
            opt_view(*trotterset),
            opt_pairs_view(adaptset),
            order,
            trotter,
        ),
        final(notes)@ == old(notes)@ + split_notes(false, splitset is Some, trotterset is Some, adaptset is Some),
{
    let given = adaptset.is_some();
    match (splitset, trotterset) {
        (Some(s), Some(t)) => {
            if given {
                notes.push(SplitNote::SetsOverrideAdaptset);
            }
            let mut ladder: Vec<(usize, usize)> = Vec::new();
            let mut i: usize = 0;
            while i < s.len()
                invariant
                    i <= s.len(),
                    ladder@.len() == i * t.len(),
                    forall|k: int| 0 <= k < ladder@.len() ==> #[trigger] ladder@[k] == (t@[k % t.len() as int], s@[k / t.len() as int]),
                decreases s.len() - i,
            {
                let mut j: usize = 0;
                while j < t.len()
                    invariant
                        i < s.len(),
                        j <= t.len(),
                        ladder@.len() == i * t.len() + j,
                        forall|k: int| 0 <= k < ladder@.len() ==> #[trigger] ladder@[k] == (t@[k % t.len() as int], s@[k / t.len() as int]),
                    decreases t.len() - j,
                {
                    proof {
                        let k = (i * t.len() + j) as int;
                        assert(k == i * t.len() + j);
                        assert(k == (i as int) * (t.len() as int) + (j as int)) by (nonlinear_arith)
                            requires k == i * t.len() + j;
                        vstd::arithmetic::div_mod::lemma_fundamental_div_mod_converse(k, t.len() as int, i as int, j as int);
                    }
                    ladder.push((t[j], s[i]));
                    j = j + 1;
                }
                assert(i * t.len() + t.len() == (i + 1) * t.len()) by (nonlinear_arith);
                i = i + 1;
            }
            proof {
                let want = Seq::new(s@.len() * t@.len(), |k: int| (t@[k % t.len() as int], s@[k / t.len() as int]));
                assert(ladder@ =~= want);
            }
            (true, ladder)
        },
        (None, Some(t)) => {
            if given {
                notes.push(SplitNote::TrottersetOverridesAdaptset);
            }
            let mut ladder: Vec<(usize, usize)> = Vec::new();
            let mut j: usize = 0;
            while j < t.len()
                invariant
                    j <= t.len(),
                    ladder@ == t@.take(j as int).map_values(|q: usize| (q, order)),
                decreases t.len() - j,
            {
                ladder.push((t[j], order));
                j = j + 1;
                assert(ladder@ =~= t@.take(j as int).map_values(|q: usize| (q, order)));
            }
            assert(t@.take(j as int) =~= t@);
            (true, ladder)
        },
        (Some(s), None) => {
            if given {
                notes.push(SplitNote::SplitsetOverridesAdaptset);
            }
            let mut ladder: Vec<(usize, usize)> = Vec::new();
            let mut i: usize = 0;
            while i < s.len()
                invariant
                    i <= s.len(),
                    ladder@ == s@.take(i as int).map_values(|p: usize| (trotter, p)),
                decreases s.len() - i,
            {
                ladder.push((trotter, s[i]));
                i = i + 1;
                assert(ladder@ =~= s@.take(i as int).map_values(|p: usize| (trotter, p)));
            }
            assert(s@.take(i as int) =~= s@);
            (true, ladder)
        },
        (None, None) => match adaptset {
            Some(a) => (true, a),
            None => {
                let mut ladder: Vec<(usize, usize)> = Vec::new();
                ladder.push((trotter, order));
                (false, ladder)
            },
        },
    }
}

/// The ladder starts from a rung of its own when it is built from the
/// sets: the starting `(trotter, order)` pair is on it.
pub proof fn law_ladder_holds_the_starting_rung(
    splitset: Option<Seq<usize>>,
    trotterset: Option<Seq<usize>>,
    method: Option<usize>,
    order: Option<usize>,
    trotter: Option<usize>,
)
    requires
        method is None,
        order is None,
        trotter is None,
        splitset is Some ==> splitset.unwrap().len() > 0,
        trotterset is Some ==> trotterset.unwrap().len() > 0,
        splitset is Some || trotterset is Some,
    ensures
        chosen_ladder(
            splitset,
            trotterset,
            None,
            chosen_order(method, order, splitset).unwrap(),
            chosen_trotter(trotter, trotterset).unwrap(),
        ).1.contains((chosen_trotter(trotter, trotterset).unwrap(), chosen_order(method, order, splitset).unwrap())),
{
    let p = chosen_order(method, order, splitset).unwrap();
    let q = chosen_trotter(trotter, trotterset).unwrap();
    let ladder = chosen_ladder(splitset, trotterset, None, p, q).1;
    match (splitset, trotterset) {
        (Some(s), Some(t)) => {
            let i = lemma_min_is_member(s);
            let j = lemma_min_is_member(t);
            let k = i * t.len() + j;
            assert(0 <= k < s.len() * t.len()) by (nonlinear_arith)
                requires 0 <= i < s.len(), 0 <= j < t.len(), k == i * t.len() + j;
            assert(k == i * (t.len() as int) + j);
            vstd::arithmetic::div_mod::lemma_fundamental_div_mod_converse(k, t.len() as int, i, j);
            assert(ladder[k] == (q, p));
        },
        (None, Some(t)) => {
            let j = lemma_min_is_member(t);
            assert(ladder[j] == (q, p));
        },
        (Some(s), None) => {
            let i = lemma_min_is_member(s);
            assert(ladder[i] == (q, p));
        },
        (None, None) => {},
    }
}

/// The least element is an element, and no element is smaller.
pub proof fn lemma_min_is_member(s: Seq<usize>) -> (i: int)
    requires
        s.len() > 0,
    ensures
        0 <= i < s.len(),
        s[i] == seq_min(s),
        forall|k: int| 0 <= k < s.len() ==> seq_min(s) <= #[trigger] s[k],
    decreases s.len(),
{
    if s.len() == 1 {
        0
    } else {
        let d = s.drop_last();
        let j = lemma_min_is_member(d);
        assert forall|k: int| 0 <= k < s.len() implies seq_min(s) <= #[trigger] s[k] by {
            if k < d.len() {
                assert(s[k] == d[k]);
            }
        }
        if s.last() < seq_min(d) {
            s.len() - 1
        } else {
            j
        }
    }
}

// ---------------------------------------------------------- power levels ----

/// The product of a sequence of counts.
pub open spec fn count_product(s: Seq<usize>) -> nat
    decreases s.len(),
{
    if s.len() == 0 { 1 } else { s[0] as nat * count_product(s.skip(1)) }
}

/// Every run of consecutive counts multiplies to something a `usize`
/// holds: what building the pattern computes.
pub open spec fn products_fit(lens: Seq<usize>) -> bool {
    forall|a: int, b: int| 0 <= a <= b <= lens.len() ==> #[trigger] count_product(lens.subrange(a, b)) <= usize::MAX
}

/// The power level channel `k` takes in ensemble member `row`: the levels
/// repeat in a Kronecker pattern, the last channel varying fastest.
pub open spec fn level_choice(lens: Seq<usize>, row: int, k: int) -> int {
    (row / count_product(lens.skip(k + 1)) as int) % (lens[k] as int)
}

/// The product of a suffix peels off its first count.
proof fn lemma_product_step(s: Seq<usize>, k: int)
    requires
        0 <= k < s.len(),
    ensures
        count_product(s.skip(k)) == s[k] as nat * count_product(s.skip(k + 1)),
{
    assert(s.skip(k).skip(1) =~= s.skip(k + 1));
}

/// A positive product has positive factors and positive suffix products.
proof fn lemma_positive_product(s: Seq<usize>, k: int)
    requires
        0 <= k <= s.len(),
        count_product(s) > 0,
    ensures
        count_product(s.skip(k)) > 0,
        k < s.len() ==> s[k] > 0,
    decreases k,
{
    if k > 0 {
        lemma_positive_product(s, k - 1);
        lemma_product_step(s, k - 1);
        assert(count_product(s.skip(k)) > 0) by (nonlinear_arith)
            requires count_product(s.skip(k - 1)) == s[k - 1] as nat * count_product(s.skip(k)),
                count_product(s.skip(k - 1)) > 0;
    } else {
        assert(s.skip(0) =~= s);
    }
    if k < s.len() {
        lemma_product_step(s, k);
        assert(s[k] > 0) by (nonlinear_arith)
            requires count_product(s.skip(k)) == s[k] as nat * count_product(s.skip(k + 1)),
                count_product(s.skip(k)) > 0;
    }
}

/// Which power level each channel takes in each ensemble member, when
/// channel `k` offers `lens[k]` levels: every combination once, in the
/// Kronecker order (the last channel varying fastest).  There must be one
/// list per channel.
pub fn power_level_pattern(lens: &Vec<usize>, kctrls: usize) -> (r: Result<Vec<Vec<usize>>>)
    requires
        lens@.len() == kctrls ==> products_fit(lens@),
    ensures
        lens@.len() != kctrls ==> (r matches Err(QoalaError::Dimension(m))
            && m@ == "a power level list is needed for each of the "@ + digits(kctrls as nat) + " channels"@),
        lens@.len() == kctrls ==> (r matches Ok(rows) && rows@.len() == count_product(lens@)
            && forall|row: int| 0 <= row < rows@.len() ==> (#[trigger] rows@[row])@.len() == kctrls
                && forall|k: int| 0 <= k < kctrls ==> rows@[row]@[k] == level_choice(lens@, row, k)),
{
    let n = lens.len();
    if n != kctrls {
        let mut m = String::from_str("a power level list is needed for each of the ");
        let d = digits_string(kctrls as u64);
        m.append(d.as_str());
        m.append(" channels");
        return Err(QoalaError::Dimension(m));
    }
    // suffix[j] is the product of the last j counts.
    let mut suffix: Vec<usize> = Vec::new();
    suffix.push(1);
    let mut j: usize = 0;
    assert(lens@.skip(n as int) =~= lens@.subrange(n as int, n as int));
    while j < n
        invariant
            n == lens@.len(),
            products_fit(lens@),
            j <= n,
            suffix@.len() == j + 1,
            forall|t: int| 0 <= t <= j ==> #[trigger] suffix@[t] == count_product(lens@.skip(n - t)),
        decreases n - j,
    {
        let k = n - 1 - j;
        proof {
            lemma_product_step(lens@, k as int);
            assert(lens@.skip(k as int) =~= lens@.subrange(k as int, n as int));
            assert(count_product(lens@.subrange(k as int, n as int)) <= usize::MAX);
        }
        let next = lens[k] * suffix[j];
        suffix.push(next);
        j = j + 1;
    }
    let total = suffix[n];
    assert(lens@.skip(0) =~= lens@);
    let mut rows: Vec<Vec<usize>> = Vec::new();
    let mut row: usize = 0;
    while row < total
        invariant
            n == lens@.len(),
            n == kctrls,
            suffix@.len() == n + 1,
            forall|t: int| 0 <= t <= n ==> #[trigger] suffix@[t] == count_product(lens@.skip(n - t)),
            total == count_product(lens@),
            row <= total,
            rows@.len() == row,
            forall|r2: int| 0 <= r2 < row ==> (#[trigger] rows@[r2])@.len() == kctrls
                && forall|k: int| 0 <= k < kctrls ==> rows@[r2]@[k] == level_choice(lens@, r2, k),
        decreases total - row,
    {
        let mut choice: Vec<usize> = Vec::new();
        let mut k: usize = 0;
        while k < n
            invariant
                n == lens@.len(),
                n == kctrls,
                suffix@.len() == n + 1,
                forall|t: int| 0 <= t <= n ==> #[trigger] suffix@[t] == count_product(lens@.skip(n - t)),
                total == count_product(lens@),
                row < total,
                k <= n,
                choice@.len() == k,
                forall|k2: int| 0 <= k2 < k ==> #[trigger] choice@[k2] == level_choice(lens@, row as int, k2),
            decreases n - k,
        {
            proof {
                lemma_positive_product(lens@, k as int);
                lemma_positive_product(lens@, k as int + 1);
                assert(suffix@[(n - k - 1) as int] == count_product(lens@.skip(k as int + 1)));
            }
            let inner = suffix[n - k - 1];
            choice.push((row / inner) % lens[k]);
            k = k + 1;
        }
        rows.push(choice);
        row = row + 1;
    }
    Ok(rows)
}

/// The member number rebuilt from its choices from channel `j` on: the
/// choices read as the digits of a mixed-radix numeral.
pub open spec fn rebuilt_row(lens: Seq<usize>, row: int, j: int) -> int
    decreases lens.len() - j,
{
    if j >= lens.len() || j < 0 {
        0
    } else {
        level_choice(lens, row, j) * count_product(lens.skip(j + 1)) as int + rebuilt_row(lens, row, j + 1)
    }
}

/// The choices from channel `j` on are the digits of the member number
/// modulo the product of those channels' counts.
proof fn lemma_rebuilt_row(lens: Seq<usize>, row: int, j: int)
    requires
        0 <= j <= lens.len(),
        0 <= row,
        count_product(lens) > 0,
    ensures
        rebuilt_row(lens, row, j) == row % count_product(lens.skip(j)) as int,
    decreases lens.len() - j,
{
    lemma_positive_product(lens, j);
    if j == lens.len() {
        assert(lens.skip(j) =~= Seq::<usize>::empty());
        assert(row % 1 == 0);
    } else {
        lemma_rebuilt_row(lens, row, j + 1);
        lemma_positive_product(lens, j + 1);
        lemma_product_step(lens, j);
        let inner = count_product(lens.skip(j + 1)) as int;
        let len = lens[j] as int;
        vstd::arithmetic::div_mod::lemma_mod_breakdown(row, inner, len);
        assert(count_product(lens.skip(j)) as int == inner * len) by (nonlinear_arith)
            requires count_product(lens.skip(j)) == len * inner;
        assert(level_choice(lens, row, j) * inner == inner * ((row / inner) % len)) by (nonlinear_arith)
            requires level_choice(lens, row, j) == (row / inner) % len;
    }
}

/// Every combination of levels is one ensemble member, and no two members
/// share a combination: the choices of a member determine it.
pub proof fn law_members_are_distinct_combinations(lens: Seq<usize>, r1: int, r2: int)
    requires
        0 <= r1 < count_product(lens),
        0 <= r2 < count_product(lens),
        forall|k: int| 0 <= k < lens.len() ==> level_choice(lens, r1, k) == level_choice(lens, r2, k),
    ensures
        r1 == r2,
{
    lemma_rebuilt_row(lens, r1, 0);
    lemma_rebuilt_row(lens, r2, 0);
    assert(lens.skip(0) =~= lens);
    lemma_same_choices_same_rebuild(lens, r1, r2, 0);
    vstd::arithmetic::div_mod::lemma_small_mod(r1 as nat, count_product(lens));
    vstd::arithmetic::div_mod::lemma_small_mod(r2 as nat, count_product(lens));
}

/// Equal choices rebuild equal numbers.
proof fn lemma_same_choices_same_rebuild(lens: Seq<usize>, r1: int, r2: int, j: int)
    requires
        0 <= j <= lens.len(),
        forall|k: int| 0 <= k < lens.len() ==> level_choice(lens, r1, k) == level_choice(lens, r2, k),
    ensures
        rebuilt_row(lens, r1, j) == rebuilt_row(lens, r2, j),
    decreases lens.len() - j,
{
    if j < lens.len() {
        lemma_same_choices_same_rebuild(lens, r1, r2, j + 1);
        assert(level_choice(lens, r1, j) == level_choice(lens, r2, j));
    }
}

// -------------------------------------------------------------- symmetry ----

/// The pulse symmetry flags in force: those given when their magnitudes
/// add up to two, otherwise none (`[0, 0]`); the flag says whether a
/// symmetric-pulse constraint is on.
pub fn symmetry_flags(syms: Option<[i32; 2]>) -> (r: ([i32; 2], bool))
    requires
        syms matches Some(s) ==> s[0] != i32::MIN && s[1] != i32::MIN
            && (if s[0] < 0 { -s[0] } else { s[0] as int }) + (if s[1] < 0 { -s[1] } else { s[1] as int }) <= i32::MAX,
    ensures
        match syms {
            Some(s) => {
                let total = (if s[0] < 0 { -s[0] } else { s[0] as int }) + (if s[1] < 0 { -s[1] } else { s[1] as int });
                if total == 2 { r.0@ == s@ && r.1 } else { r.0@ == seq![0i32, 0] && !r.1 }
            },
            None => r.0@ == seq![0i32, 0] && !r.1,
        },
{
    match syms {
        Some(s) => {
            let a = if s[0] < 0 { -s[0] } else { s[0] };
            let b = if s[1] < 0 { -s[1] } else { s[1] };
            if a + b == 2 {
                (s, true)
            } else {
                let z: [i32; 2] = [0, 0];
                assert(z@ =~= seq![0i32, 0]);
                (z, false)
            }
        },
        None => {
            let z: [i32; 2] = [0, 0];
            assert(z@ =~= seq![0i32, 0]);
            (z, false)
        },
    }
}

} // verus!

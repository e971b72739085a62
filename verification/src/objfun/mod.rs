//! The bookkeeping around the GRAPE objective functions: how much of the
//! objective to compute, how fidelities are normalised, and the single-spin
//! block size read off a propagator index table.
use vstd::prelude::*;
use crate::error::{QoalaError, Result};

verus! {

/// How much of the objective to compute.
#[derive(Debug, Clone, Copy, PartialEq, Eq, Structural)]
pub enum EvalOrder {
    /// Fidelity only.
    Value,
    /// Fidelity and gradient.
    Gradient,
}

/// Fidelity normalisation: point-to-point overlaps are already normalised,
/// gate fidelities are divided by the space dimension.
#[derive(Debug, Clone, Copy, PartialEq, Eq, Structural)]
pub enum FidelityKind {
    /// `Re<target|rho(T)>`.
    State,
    /// `Re tr(target^dagger U(T)) / dim`.
    Gate,
}

impl FidelityKind {
    /// Whether the adaptive step normalises the compared states.  The
    /// point-to-point objective divides by the state norm before comparing;
    /// gate fidelities compare propagators directly.
    pub fn normalise_for_adaptivity(self) -> (b: bool)
        ensures
            b == (self == FidelityKind::State),
    {
        self == FidelityKind::State
    }
}

/// The larger of the row and column of an index-table entry.
pub open spec fn entry_extent(e: (usize, usize)) -> nat {
    if e.0 >= e.1 { e.0 as nat } else { e.1 as nat }
}

/// The largest `entry_extent` over a non-empty table.
pub open spec fn table_extent(t: Seq<(usize, usize)>) -> nat
    decreases t.len(),
{
    if t.len() <= 1 {
        if t.len() == 0 { 0 } else { entry_extent(t[0]) }
    } else {
        let rest = table_extent(t.drop_last());
        let last = entry_extent(t.last());
        if rest >= last { rest } else { last }
    }
}

/// Dimension of a single spin's propagator block, inferred from the index
/// table: one more than the largest row or column it addresses.
pub fn single_spin_dim(prop_ind: &[(usize, usize)]) -> (r: Result<usize>)
    requires
        forall|k: int| 0 <= k < prop_ind@.len() ==> #[trigger] entry_extent(prop_ind@[k]) < usize::MAX,
    ensures
        prop_ind@.len() > 0 ==> r == Ok::<usize, QoalaError>((table_extent(prop_ind@) + 1) as usize),
        prop_ind@.len() == 0 ==> (r matches Err(QoalaError::BadValue(s))
            && s@ == "empty propagator index table"@),
{
    if prop_ind.len() == 0 {
        return Err(QoalaError::BadValue(String::from_str("empty propagator index table")));
    }
    let mut best: usize = 0;
    let mut k: usize = 0;
    while k < prop_ind.len()
        invariant
            k <= prop_ind@.len(),
            prop_ind@.len() > 0,
            k == 0 ==> best == 0,
            k > 0 ==> best == table_extent(prop_ind@.subrange(0, k as int)),
            forall|j: int| 0 <= j < prop_ind@.len() ==> #[trigger] entry_extent(prop_ind@[j]) < usize::MAX,
        decreases prop_ind@.len() - k,
    {
        let (r, c) = prop_ind[k];
        let m = if r >= c { r } else { c };
        assert(prop_ind@.subrange(0, k as int + 1).drop_last() =~= prop_ind@.subrange(0, k as int));
        if k == 0 || m > best {
            best = m;
        }
        k = k + 1;
    }
    assert(prop_ind@.subrange(0, prop_ind@.len() as int) =~= prop_ind@);
    assert(entry_extent(prop_ind@[0]) < usize::MAX);
    proof { lemma_table_extent_bounded(prop_ind@); }
    Ok(best + 1)
}

/// The extent of a table is the extent of one of its entries.
proof fn lemma_table_extent_bounded(t: Seq<(usize, usize)>)
    requires
        t.len() > 0,
        forall|k: int| 0 <= k < t.len() ==> #[trigger] entry_extent(t[k]) < usize::MAX,
    ensures
        table_extent(t) < usize::MAX,
    decreases t.len(),
{
    if t.len() > 1 {
        let d = t.drop_last();
        assert forall|k: int| 0 <= k < d.len() implies #[trigger] entry_extent(d[k]) < usize::MAX by {
            assert(d[k] == t[k]);
        }
        lemma_table_extent_bounded(d);
        assert(entry_extent(t[t.len() - 1]) < usize::MAX);
    } else {
        assert(entry_extent(t[0]) < usize::MAX);
    }
}

/// The two shapes of control-operator array the objective functions want,
/// over the operator type `C`.
#[derive(Debug, Clone)]
pub enum Controls<'a, C> {
    /// Composite-space control operators, one per channel.
    Composite(&'a [C]),
    /// Single-spin Cartesian operators, `nspins x 3*npairs`.
    Pauli(&'a [Vec<Option<C>>]),
}

impl<'a, C> Controls<'a, C> {
    /// The composite-space operators, or an error for the single-spin form.
    pub fn composite(&self) -> (r: Result<&'a [C]>)
        ensures
            match *self {
                Controls::Composite(c) => r == Ok::<&'a [C], QoalaError>(c),
                Controls::Pauli(_) => r matches Err(QoalaError::BadValue(m))
                    && m@ == "this objective function needs composite control operators"@,
            },
    {
        match self {
            Controls::Composite(c) => Ok(c),
            Controls::Pauli(_) => Err(
                QoalaError::BadValue(String::from_str("this objective function needs composite control operators")),
            ),
        }
    }

    /// The single-spin operators, or an error for the composite form.
    pub fn pauli(&self) -> (r: Result<&'a [Vec<Option<C>>]>)
        ensures
            match *self {
                Controls::Pauli(p) => r == Ok::<&'a [Vec<Option<C>>], QoalaError>(p),
                Controls::Composite(_) => r matches Err(QoalaError::BadValue(m))
                    && m@ == "this objective function needs single-spin Cartesian operators"@,
            },
    {
        match self {
            Controls::Pauli(p) => Ok(p),
            Controls::Composite(_) => Err(
                QoalaError::BadValue(String::from_str("this objective function needs single-spin Cartesian operators")),
            ),
        }
    }
}

} // verus!

//! The validation of control options: which options must be given, which
//! combinations are refused, and the defaults filled in for the rest.  The
//! options are described here by the facts the checks read (whether a field
//! was given, how many entries it holds, the shapes of the operators); the
//! numerical contents stay with the caller.
use vstd::prelude::*;
use crate::error::{QoalaError, Result};
use crate::text::{digits, digits_string};
use crate::types::{Basis, Penalty, StateSpace};
use crate::config::{resolve_space, resolve_spins, SpinNote};

verus! {

/// The kind of a configuration error, without its detail.
#[derive(Debug, Clone, Copy, PartialEq, Eq, Structural)]
pub enum ErrKind {
    /// `QoalaError::MissingField`.
    MissingField,
    /// `QoalaError::BadValue`.
    BadValue,
    /// `QoalaError::NotImplemented`.
    NotImplemented,
    /// `QoalaError::Dimension`.
    Dimension,
}

/// The error `e` is of kind `k` with detail `m`.
pub open spec fn error_is(e: QoalaError, k: ErrKind, m: Seq<char>) -> bool {
    match k {
        ErrKind::MissingField => e matches QoalaError::MissingField(s) && s@ == m,
        ErrKind::BadValue => e matches QoalaError::BadValue(s) && s@ == m,
        ErrKind::NotImplemented => e matches QoalaError::NotImplemented(s) && s@ == m,
        ErrKind::Dimension => e matches QoalaError::Dimension(s) && s@ == m,
    }
}

/// A configuration problem: its kind and its detail.
pub type Problem = (ErrKind, Seq<char>);

fn make_error(k: ErrKind, m: String) -> (e: QoalaError)
    ensures
        error_is(e, k, m@),
{
    match k {
        ErrKind::MissingField => QoalaError::MissingField(m),
        ErrKind::BadValue => QoalaError::BadValue(m),
        ErrKind::NotImplemented => QoalaError::NotImplemented(m),
        ErrKind::Dimension => QoalaError::Dimension(m),
    }
}

// ------------------------------------------------------ operator shapes ----

/// `"{r}x{c}"`.
pub open spec fn shape_text(s: (usize, usize)) -> Seq<char> {
    digits(s.0 as nat) + "x"@ + digits(s.1 as nat)
}

fn shape_string(s: (usize, usize)) -> (out: String)
    ensures
        out@ == shape_text(s),
{
    let mut out = digits_string(s.0 as u64);
    out.append("x");
    let c = digits_string(s.1 as u64);
    out.append(c.as_str());
    out
}

/// What goes wrong, if anything, when the commutator of operators `a` and
/// `b` is formed: `a b` needs the columns of `a` to match the rows of `b`,
/// `b a` the reverse, and their difference needs equal shapes.
pub open spec fn commutator_problem(a: (usize, usize), b: (usize, usize)) -> Option<Problem> {
    if a.1 != b.0 {
        Some((ErrKind::Dimension, "cannot multiply "@ + shape_text(a) + " by "@ + shape_text(b)))
    } else if b.1 != a.0 {
        Some((ErrKind::Dimension, "cannot multiply "@ + shape_text(b) + " by "@ + shape_text(a)))
    } else if a.0 != b.0 || b.1 != a.1 {
        Some((ErrKind::Dimension, "cannot add "@ + shape_text((a.0, b.1)) + " to "@ + shape_text((b.0, a.1))))
    } else {
        None
    }
}

/// The first commutator problem of operator `n` with operators `m..`.
pub open spec fn row_problem(ops: Seq<(usize, usize)>, n: int, m: int) -> Option<Problem>
    decreases ops.len() - m,
{
    if m < 0 || m >= ops.len() {
        None
    } else if commutator_problem(ops[n], ops[m]) is Some {
        commutator_problem(ops[n], ops[m])
    } else {
        row_problem(ops, n, m + 1)
    }
}

/// The first commutator problem over operators `n..` against all operators,
/// in row-by-row order.
pub open spec fn shape_problem_from(ops: Seq<(usize, usize)>, n: int) -> Option<Problem>
    decreases ops.len() - n,
{
    if n < 0 || n >= ops.len() {
        None
    } else if row_problem(ops, n, 0) is Some {
        row_problem(ops, n, 0)
    } else {
        shape_problem_from(ops, n + 1)
    }
}

/// The first problem met when every pair of control operators is tested for
/// commutation, or `None` when every commutator can be formed.
pub open spec fn shape_problem(ops: Seq<(usize, usize)>) -> Option<Problem> {
    shape_problem_from(ops, 0)
}

fn commutator_check(a: (usize, usize), b: (usize, usize)) -> (r: Option<(ErrKind, String)>)
    ensures
        match commutator_problem(a, b) {
            Some(p) => r matches Some((k, m)) && k == p.0 && m@ == p.1,
            None => r is None,
        },
{
    if a.1 != b.0 {
        let mut m = String::from_str("cannot multiply ");
        let s = shape_string(a);
        m.append(s.as_str());
        m.append(" by ");
        let t = shape_string(b);
        m.append(t.as_str());
        Some((ErrKind::Dimension, m))
    } else if b.1 != a.0 {
        let mut m = String::from_str("cannot multiply ");
        let s = shape_string(b);
        m.append(s.as_str());
        m.append(" by ");
        let t = shape_string(a);
        m.append(t.as_str());
        Some((ErrKind::Dimension, m))
    } else if a.0 != b.0 || b.1 != a.1 {
        let mut m = String::from_str("cannot add ");
        let s = shape_string((a.0, b.1));
        m.append(s.as_str());
        m.append(" to ");
        let t = shape_string((b.0, a.1));
        m.append(t.as_str());
        Some((ErrKind::Dimension, m))
    } else {
        None
    }
}

/// Tests every ordered pair of control operators, by their shapes, for a
/// commutator that can be formed, and gives the first failure.
pub fn check_operator_shapes(ops: &Vec<(usize, usize)>) -> (r: Result<()>)
    ensures
        match shape_problem(ops@) {
            Some(p) => r matches Err(e) && error_is(e, p.0, p.1),
            None => r is Ok,
        },
{
    let k = ops.len();
    let mut n: usize = 0;
    while n < k
        invariant
            k == ops@.len(),
            n <= k,
            shape_problem(ops@) == shape_problem_from(ops@, n as int),
        decreases k - n,
    {
        let mut m: usize = 0;
        while m < k
            invariant
                k == ops@.len(),
                n < k,
                m <= k,
                shape_problem(ops@) == shape_problem_from(ops@, n as int),
                row_problem(ops@, n as int, 0) == row_problem(ops@, n as int, m as int),
            decreases k - m,
        {
            match commutator_check(ops[n], ops[m]) {
                Some((kind, msg)) => {
                    proof {
                        assert(commutator_problem(ops@[n as int], ops@[m as int]) is Some);
                        assert(row_problem(ops@, n as int, m as int) == commutator_problem(
                            ops@[n as int],
                            ops@[m as int],
                        ));
                        assert(shape_problem_from(ops@, n as int) == row_problem(ops@, n as int, 0));
                    }
                    return Err(make_error(kind, msg));
                },
                None => {},
            }
            m = m + 1;
        }
        n = n + 1;
    }
    Ok(())
}


// ---------------------------------------------------------- power levels ----

/// How the control power levels were supplied, by what the checks read.
#[derive(Debug, Clone, Copy, PartialEq, Eq, Structural)]
pub enum PowerShape {
    /// One value for every channel; `true` unless the value is at most zero.
    Uniform(bool),
    /// One value per channel: how many were given.
    PerChannel(usize),
    /// A list of values per channel: how many lists were given.
    Ensemble(usize),
}

/// What is wrong with the power levels for `kctrls` channels, if anything.
pub open spec fn power_problem(p: PowerShape, kctrls: usize) -> Option<Problem> {
    match p {
        PowerShape::Uniform(positive) => if !positive {
            Some((ErrKind::BadValue, "power levels must be positive"@))
        } else {
            None
        },
        PowerShape::PerChannel(n) => if n != kctrls {
            Some((ErrKind::Dimension, "expected "@ + digits(kctrls as nat) + " power levels, got "@ + digits(n as nat)))
        } else {
            None
        },
        PowerShape::Ensemble(n) => if n != kctrls {
            Some((ErrKind::Dimension, "a power level list is needed for each of the "@ + digits(kctrls as nat)
                + " channels"@))
        } else {
            None
        },
    }
}

/// Checks supplied power levels against the number of control channels.
pub fn check_power_shape(p: PowerShape, kctrls: usize) -> (r: Result<()>)
    ensures
        match power_problem(p, kctrls) {
            Some(q) => r matches Err(e) && error_is(e, q.0, q.1),
            None => r is Ok,
        },
{
    match p {
        PowerShape::Uniform(positive) => {
            if !positive {
                return Err(QoalaError::BadValue(String::from_str("power levels must be positive")));
            }
            Ok(())
        },
        PowerShape::PerChannel(n) => {
            if n != kctrls {
                let mut m = String::from_str("expected ");
                let a = digits_string(kctrls as u64);
                m.append(a.as_str());
                m.append(" power levels, got ");
                let b = digits_string(n as u64);
                m.append(b.as_str());
                return Err(QoalaError::Dimension(m));
            }
            Ok(())
        },
        PowerShape::Ensemble(n) => {
            if n != kctrls {
                let mut m = String::from_str("a power level list is needed for each of the ");
                let a = digits_string(kctrls as u64);
                m.append(a.as_str());
                m.append(" channels");
                return Err(QoalaError::Dimension(m));
            }
            Ok(())
        },
    }
}

// --------------------------------------------------------------- options ----

/// The fidelity functional.
#[derive(Debug, Clone, Copy, PartialEq, Eq, Structural)]
pub enum Fidelity {
    /// `Re(<target|rho(T)>)`.
    Real,
    /// `|<target|rho(T)>|^2`.
    Square,
}

/// Whether states or propagators are steered.
#[derive(Debug, Clone, Copy, PartialEq, Eq, Structural)]
pub enum CtrlType {
    /// Initial states to target states.
    PointToPoint,
    /// Initial propagators to target propagators.
    UniversalRotation,
}

/// How interaction propagators are cached.
#[derive(Debug, Clone, Copy, PartialEq, Eq, Structural)]
pub enum PropCache {
    /// Precalculated and stored on disk.
    Store,
    /// Precalculated and carried in memory.
    Carry,
    /// Calculated when needed.
    Calc,
}

/// How a propagator is computed.
#[derive(Debug, Clone, Copy, PartialEq, Eq, Structural)]
pub enum PropMethod {
    /// Krylov subspace.
    Krylov,
    /// Truncated Taylor series.
    Taylor,
    /// Pade approximant.
    Pade,
}

/// The optimisation algorithm.
#[derive(Debug, Clone, Copy, PartialEq, Eq, Structural)]
pub enum OptMethod {
    /// Limited-memory BFGS.
    Lbfgs,
    /// Newton-Raphson with a regularised Hessian.
    NewtonRaphson,
    /// Gauss-Newton.
    GaussNewton,
}

/// Which timing options gave way to an explicit time grid.
#[derive(Debug, Clone, Copy, PartialEq, Eq, Structural)]
pub enum GridNote {
    /// Nothing gave way.
    Quiet,
    /// Both the duration and the slice count were also given.
    DurAndSteps,
    /// The duration was also given.
    Dur,
    /// The slice count was also given.
    Steps,
}

/// Where the penalty weights come from.
#[derive(Debug, Clone, Copy, PartialEq, Eq, Structural)]
pub enum WeightRule {
    /// As given, one per penalty.
    Given,
    /// The number of time slices, for every penalty.
    SliceCount,
}

/// Where the pulse bandwidth comes from.
#[derive(Debug, Clone, Copy, PartialEq, Eq, Structural)]
pub enum BandwidthSource {
    /// As given.
    Given,
    /// The range of the offsets, for the adiabaticity penalty.
    OffsetRange,
    /// None was given and none is needed.
    Absent,
}

/// What the option checks read of the control options.
#[derive(Debug, Clone)]
pub struct OptionFacts {
    /// The basis, when given.
    pub basis: Option<Basis>,
    /// The state space, when given.
    pub space: Option<StateSpace>,
    /// The spin count, when given.
    pub nspins: Option<usize>,
    /// The multiplicities, when given.
    pub mults: Option<Vec<usize>>,
    /// Whether an objective function was named.
    pub objective_given: bool,
    /// Whether target propagators were given.
    pub prop_targ_given: bool,
    /// How many initial states were given, when they were.
    pub rho_init: Option<usize>,
    /// How many target states were given, when they were.
    pub rho_targ: Option<usize>,
    /// The fidelity functional, when named.
    pub fidelity: Option<Fidelity>,
    /// The shape `(rows, columns)` of each control operator, when given.
    pub operators: Option<Vec<(usize, usize)>>,
    /// The power levels, when given.
    pub pwr_levels: Option<PowerShape>,
    /// An explicit time grid: its length, and whether every slice is
    /// longer than zero.
    pub pulse_dt: Option<(usize, bool)>,
    /// The pulse duration, when given: whether it is longer than zero.
    pub pulse_dur: Option<bool>,
    /// The slice count, when given.
    pub pulse_nsteps: Option<usize>,
    /// The penalties, when given.
    pub penalties: Option<Vec<Penalty>>,
    /// How many penalty weights were given, when they were.
    pub p_weights: Option<usize>,
    /// Whether a pulse bandwidth was given.
    pub bandwidth_given: bool,
    /// How many offset ensembles were given, when they were.
    pub offsets: Option<usize>,
    /// How many drift systems were given.
    pub drift_count: usize,
    /// The propagator caching strategy, when named.
    pub prop_cache: Option<PropCache>,
    /// The time-step propagation method, when named.
    pub step_method: Option<PropMethod>,
    /// The auxiliary-matrix propagation method, when named.
    pub auxmat_method: Option<PropMethod>,
    /// The optimisation algorithm, when named.
    pub method: Option<OptMethod>,
    /// The iteration budget, when given.
    pub max_iter: Option<usize>,
    /// The LBFGS history length, when given.
    pub n_grads: Option<usize>,
    /// The RFO regularisation budget, when given.
    pub reg_max_iter: Option<usize>,
}

/// What the option checks settle.
#[derive(Debug, Clone)]
pub struct OptionPlan {
    /// The basis.
    pub basis: Basis,
    /// The state space.
    pub space: StateSpace,
    /// Whether a Hilbert-space request was overridden.
    pub space_overridden: bool,
    /// The spin count.
    pub nspins: usize,
    /// The multiplicity of each spin.
    pub mults: Vec<usize>,
    /// What resolving the spins had to assume.
    pub spin_note: SpinNote,
    /// Whether states or propagators are steered.
    pub ctrl_type: CtrlType,
    /// The fidelity functional.
    pub fidelity: Fidelity,
    /// The number of control channels.
    pub kctrls: usize,
    /// The dimension of the systems: the rows of the first operator.
    pub dim: usize,
    /// The number of time slices.
    pub nsteps: usize,
    /// Whether the slices come from an explicit grid.
    pub grid_given: bool,
    /// Which timing options gave way to the grid.
    pub grid_note: GridNote,
    /// The penalties.
    pub penalties: Vec<Penalty>,
    /// Where their weights come from.
    pub weights: WeightRule,
    /// Where the pulse bandwidth comes from.
    pub bandwidth: BandwidthSource,
    /// The ensemble size: the number of drift systems.
    pub ensemble: usize,
    /// The propagator caching strategy.
    pub prop_cache: PropCache,
    /// The time-step propagation method.
    pub step_method: PropMethod,
    /// The auxiliary-matrix propagation method.
    pub auxmat_method: PropMethod,
    /// The optimisation algorithm.
    pub method: OptMethod,
    /// The iteration budget.
    pub max_iter: usize,
    /// The LBFGS history length; zero for the other algorithms.
    pub n_grads: usize,
    /// Whether a history length was given to an algorithm that has none.
    pub n_grads_dropped: bool,
    /// The RFO regularisation budget.
    pub reg_max_iter: usize,
}

/// The problem with the targets, if any: target propagators win; target
/// states need as many initial states.
pub open spec fn target_problem(f: OptionFacts) -> Option<Problem> {
    if f.prop_targ_given {
        None
    } else if f.rho_init is Some && f.rho_targ is Some {
        if f.rho_init.unwrap() != f.rho_targ.unwrap() {
            Some((ErrKind::BadValue, "rho_targ must have the same number of states as rho_init"@))
        } else {
            None
        }
    } else {
        Some((ErrKind::MissingField, "targets must be supplied in rho_targ or prop_targ"@))
    }
}

/// The problems found before the timing is read, in the order they are
/// checked: formalism, objective, targets, fidelity, operators, power.
pub open spec fn early_problem(f: OptionFacts) -> Option<Problem> {
    if f.basis is None {
        Some((ErrKind::MissingField, "basis"@))
    } else if f.basis == Some(Basis::Zeeman) && f.space is None {
        Some((ErrKind::MissingField, "space"@))
    } else if f.nspins is None && f.mults is None {
        Some((ErrKind::MissingField, "either nspins or mults must be provided"@))
    } else if !f.objective_given {
        Some((ErrKind::MissingField, "optimcon_fun"@))
    } else if target_problem(f) is Some {
        target_problem(f)
    } else if f.fidelity == Some(Fidelity::Square) {
        Some((ErrKind::NotImplemented,
            "the 'square' fidelity functional (the shipped objective functions only implement 'real')"@))
    } else if f.operators is None {
        Some((ErrKind::MissingField, "operators"@))
    } else if f.operators.unwrap()@.len() == 0 {
        Some((ErrKind::BadValue, "no control operators supplied"@))
    } else if shape_problem(f.operators.unwrap()@) is Some {
        shape_problem(f.operators.unwrap()@)
    } else if f.pwr_levels is None {
        Some((ErrKind::MissingField, "pwr_levels"@))
    } else {
        power_problem(f.pwr_levels.unwrap(), f.operators.unwrap()@.len() as usize)
    }
}

/// The problem with the timing, if any: an explicit grid must have only
/// positive slices; otherwise a positive duration and a positive slice
/// count are both needed.
pub open spec fn timing_problem(f: OptionFacts) -> Option<Problem> {
    match f.pulse_dt {
        Some(g) => if !g.1 {
            Some((ErrKind::BadValue, "pulse_dt must be positive real numbers"@))
        } else {
            None
        },
        None => if f.pulse_dur is None {
            Some((ErrKind::MissingField, "pulse_dur or pulse_dt"@))
        } else if f.pulse_nsteps is None {
            Some((ErrKind::MissingField, "pulse_nsteps or pulse_dt"@))
        } else if !f.pulse_dur.unwrap() {
            Some((ErrKind::BadValue, "pulse_dur must be positive"@))
        } else if f.pulse_nsteps.unwrap() == 0 {
            Some((ErrKind::BadValue, "pulse_nsteps must be positive"@))
        } else {
            None
        },
    }
}

/// The penalties in force: as given, else the lone `NoPenalty`.
pub open spec fn penalties_of(f: OptionFacts) -> Seq<Penalty> {
    match f.penalties {
        Some(v) => v@,
        None => seq![Penalty::NoPenalty],
    }
}

/// Whether a bandwidth can be had without one being given: from offsets.
pub open spec fn offsets_span(f: OptionFacts) -> bool {
    f.offsets matches Some(n) && n > 0
}

/// The first problem with the options, in the order they are checked, or
/// `None` when they pass.
pub open spec fn option_problem(f: OptionFacts) -> Option<Problem> {
    if early_problem(f) is Some {
        early_problem(f)
    } else if timing_problem(f) is Some {
        timing_problem(f)
    } else if f.p_weights is Some && f.p_weights.unwrap() != penalties_of(f).len() {
        Some((ErrKind::BadValue, "p_weights must have one entry per penalty"@))
    } else if penalties_of(f).contains(Penalty::Adiab) && !f.bandwidth_given && !offsets_span(f) {
        Some((ErrKind::MissingField, "a pulse bandwidth must be provided with the ADIAB penalty"@))
    } else if f.drift_count == 0 {
        Some((ErrKind::MissingField, "information on the drift terms must be supplied in drift_sys"@))
    } else {
        None
    }
}

/// The plan the checks settle on options that pass.
pub open spec fn plan_fits(f: OptionFacts, p: OptionPlan) -> bool {
    let ops = f.operators.unwrap()@;
    let pens = penalties_of(f);
    &&& p.basis == f.basis.unwrap()
    &&& (if p.basis == Basis::Sphten {
        p.space == StateSpace::Liouville && p.space_overridden == (f.space == Some(StateSpace::Hilbert))
    } else {
        p.space == f.space.unwrap() && !p.space_overridden
    })
    &&& (match f.mults {
        Some(m) => p.mults@ == m@ && p.nspins == m@.len() && p.spin_note == (if f.nspins is Some
            && f.nspins.unwrap() != m@.len() {
            SpinNote::CountFromMults
        } else {
            SpinNote::Consistent
        }),
        None => p.nspins == f.nspins.unwrap() && p.mults@ == Seq::new(p.nspins as nat, |i: int| 2usize)
            && p.spin_note == SpinNote::AssumedTwoLevel,
    })
    &&& p.ctrl_type == (if f.prop_targ_given { CtrlType::UniversalRotation } else { CtrlType::PointToPoint })
    &&& p.fidelity == Fidelity::Real
    &&& p.kctrls == ops.len() && p.dim == ops[0].0
    &&& (match f.pulse_dt {
        Some(g) => p.nsteps == g.0 && p.grid_given && p.grid_note == (if f.pulse_dur is Some
            && f.pulse_nsteps is Some {
            GridNote::DurAndSteps
        } else if f.pulse_dur is Some {
            GridNote::Dur
        } else if f.pulse_nsteps is Some {
            GridNote::Steps
        } else {
            GridNote::Quiet
        }),
        None => p.nsteps == f.pulse_nsteps.unwrap() && !p.grid_given && p.grid_note == GridNote::Quiet,
    })
    &&& p.penalties@ == pens
    &&& p.weights == (if f.p_weights is Some { WeightRule::Given } else { WeightRule::SliceCount })
    &&& p.bandwidth == (if f.bandwidth_given {
        BandwidthSource::Given
    } else if pens.contains(Penalty::Adiab) {
        BandwidthSource::OffsetRange
    } else {
        BandwidthSource::Absent
    })
    &&& p.ensemble == f.drift_count
    &&& p.prop_cache == (match f.prop_cache { Some(c) => c, None => PropCache::Carry })
    &&& p.step_method == (match f.step_method { Some(m) => m, None => PropMethod::Krylov })
    &&& p.auxmat_method == (match f.auxmat_method { Some(m) => m, None => PropMethod::Taylor })
    &&& p.method == (match f.method { Some(m) => m, None => OptMethod::Lbfgs })
    &&& p.max_iter == (match f.max_iter { Some(n) => n, None => 100 })
    &&& (if p.method == OptMethod::Lbfgs {
        p.n_grads == (match f.n_grads { Some(n) => n, None => 20 }) && !p.n_grads_dropped
    } else {
        p.n_grads == 0 && p.n_grads_dropped == (f.n_grads is Some)
    })
    &&& p.reg_max_iter == (match f.reg_max_iter { Some(n) => n, None => 2500 })
}


fn has_penalty(v: &Vec<Penalty>, p: Penalty) -> (b: bool)
    ensures
        b == v@.contains(p),
{
    let mut i: usize = 0;
    while i < v.len()
        invariant
            i <= v@.len(),
            forall|j: int| 0 <= j < i ==> v@[j] != p,
        decreases v@.len() - i,
    {
        if v[i] == p {
            assert(v@[i as int] == p);
            return true;
        }
        i = i + 1;
    }
    assert(!v@.contains(p)) by {
        if v@.contains(p) {
            let j = choose|j: int| 0 <= j < v@.len() && v@[j] == p;
            assert(v@[j] != p);
        }
    }
    false
}

fn missing(m: &str) -> (e: QoalaError)
    ensures
        e matches QoalaError::MissingField(s) && s@ == m@,
{
    QoalaError::MissingField(String::from_str(m))
}

fn bad(m: &str) -> (e: QoalaError)
    ensures
        e matches QoalaError::BadValue(s) && s@ == m@,
{
    QoalaError::BadValue(String::from_str(m))
}

fn check_targets(f: &OptionFacts) -> (r: Result<CtrlType>)
    ensures
        match target_problem(*f) {
            Some(q) => r matches Err(e) && error_is(e, q.0, q.1),
            None => r == Ok::<CtrlType, QoalaError>(
                if f.prop_targ_given { CtrlType::UniversalRotation } else { CtrlType::PointToPoint },
            ),
        },
{
    if f.prop_targ_given {
        return Ok(CtrlType::UniversalRotation);
    }
    match (f.rho_init, f.rho_targ) {
        (Some(a), Some(b)) => {
            if a != b {
                return Err(bad("rho_targ must have the same number of states as rho_init"));
            }
            Ok(CtrlType::PointToPoint)
        },
        _ => Err(missing("targets must be supplied in rho_targ or prop_targ")),
    }
}

fn check_timing(f: &OptionFacts) -> (r: Result<(usize, bool, GridNote)>)
    ensures
        match timing_problem(*f) {
            Some(q) => r matches Err(e) && error_is(e, q.0, q.1),
            None => r matches Ok((n, given, note)) && (match f.pulse_dt {
                Some(g) => n == g.0 && given && note == (if f.pulse_dur is Some && f.pulse_nsteps is Some {
                    GridNote::DurAndSteps
                } else if f.pulse_dur is Some {
                    GridNote::Dur
                } else if f.pulse_nsteps is Some {
                    GridNote::Steps
                } else {
                    GridNote::Quiet
                }),
                None => n == f.pulse_nsteps.unwrap() && !given && note == GridNote::Quiet,
            }),
        },
{
    match f.pulse_dt {
        Some((len, positive)) => {
            if !positive {
                return Err(bad("pulse_dt must be positive real numbers"));
            }
            let note = if f.pulse_dur.is_some() && f.pulse_nsteps.is_some() {
                GridNote::DurAndSteps
            } else if f.pulse_dur.is_some() {
                GridNote::Dur
            } else if f.pulse_nsteps.is_some() {
                GridNote::Steps
            } else {
                GridNote::Quiet
            };
            Ok((len, true, note))
        },
        None => {
            let dur_positive = match f.pulse_dur {
                Some(p) => p,
                None => return Err(missing("pulse_dur or pulse_dt")),
            };
            let n = match f.pulse_nsteps {
                Some(n) => n,
                None => return Err(missing("pulse_nsteps or pulse_dt")),
            };
            if !dur_positive {
                return Err(bad("pulse_dur must be positive"));
            }
            if n == 0 {
                return Err(bad("pulse_nsteps must be positive"));
            }
            Ok((n, false, GridNote::Quiet))
        },
    }
}

/// Validates control options and fills in the defaults: the first failing
/// check gives its error, in the order the options are read; options that
/// pass give the plan the rest of the configuration is built on.  An
/// explicit time grid with no slices is left out: reading its first slice
/// would fail.
#[verifier::spinoff_prover]
pub fn check_options(f: OptionFacts) -> (r: Result<OptionPlan>)
    requires
        f.pulse_dt == Some((0usize, true)) ==> early_problem(f) is Some,
    ensures
        match option_problem(f) {
            Some(q) => r matches Err(e) && error_is(e, q.0, q.1),
            None => r matches Ok(p) && plan_fits(f, p),
        },
        r matches Ok(p) ==> (p.ctrl_type == CtrlType::UniversalRotation <==> f.prop_targ_given),
        r matches Ok(p) ==> p.fidelity == Fidelity::Real && p.nsteps >= 1 && p.kctrls >= 1 && p.ensemble >= 1
            && p.nspins == p.mults@.len(),
{
    let basis = match f.basis {
        Some(b) => b,
        None => return Err(missing("basis")),
    };
    let (space, space_overridden) = match resolve_space(basis, f.space) {
        Ok(t) => t,
        Err(e) => return Err(e),
    };
    let (nspins, mults, spin_note) = match resolve_spins(f.nspins, f.mults.clone()) {
        Ok(t) => t,
        Err(e) => return Err(e),
    };
    if !f.objective_given {
        return Err(missing("optimcon_fun"));
    }
    let ctrl_type = match check_targets(&f) {
        Ok(c) => c,
        Err(e) => return Err(e),
    };
    if f.fidelity == Some(Fidelity::Square) {
        return Err(QoalaError::NotImplemented(String::from_str(
            "the 'square' fidelity functional (the shipped objective functions only implement 'real')",
        )));
    }
    let (kctrls, dim) = match &f.operators {
        Some(ops) => {
            if ops.len() == 0 {
                return Err(bad("no control operators supplied"));
            }
            match check_operator_shapes(ops) {
                Ok(_) => {},
                Err(e) => return Err(e),
            }
            (ops.len(), ops[0].0)
        },
        None => return Err(missing("operators")),
    };
    match f.pwr_levels {
        Some(p) => match check_power_shape(p, kctrls) {
            Ok(_) => {},
            Err(e) => return Err(e),
        },
        None => return Err(missing("pwr_levels")),
    }
    assert(early_problem(f) is None);
    let (nsteps, grid_given, grid_note) = match check_timing(&f) {
        Ok(t) => t,
        Err(e) => return Err(e),
    };
    let penalties = match &f.penalties {
        Some(v) => v.clone(),
        None => vec![Penalty::NoPenalty],
    };
    assert(penalties@ == penalties_of(f));
    let weights = match f.p_weights {
        Some(n) => {
            if n != penalties.len() {
                return Err(bad("p_weights must have one entry per penalty"));
            }
            WeightRule::Given
        },
        None => WeightRule::SliceCount,
    };
    let adiab = has_penalty(&penalties, Penalty::Adiab);
    let spans = match f.offsets {
        Some(n) => n > 0,
        None => false,
    };
    if adiab && !f.bandwidth_given && !spans {
        return Err(missing("a pulse bandwidth must be provided with the ADIAB penalty"));
    }
    let bandwidth = if f.bandwidth_given {
        BandwidthSource::Given
    } else if adiab {
        BandwidthSource::OffsetRange
    } else {
        BandwidthSource::Absent
    };
    if f.drift_count == 0 {
        return Err(missing("information on the drift terms must be supplied in drift_sys"));
    }
    let method = match f.method {
        Some(m) => m,
        None => OptMethod::Lbfgs,
    };
    let (n_grads, n_grads_dropped) = if method == OptMethod::Lbfgs {
        (match f.n_grads {
            Some(n) => n,
            None => 20,
        }, false)
    } else {
        (0, f.n_grads.is_some())
    };
    Ok(OptionPlan {
        basis,
        space,
        space_overridden,
        nspins,
        mults,
        spin_note,
        ctrl_type,
        fidelity: Fidelity::Real,
        kctrls,
        dim,
        nsteps,
        grid_given,
        grid_note,
        penalties,
        weights,
        bandwidth,
        ensemble: f.drift_count,
        prop_cache: match f.prop_cache {
            Some(c) => c,
            None => PropCache::Carry,
        },
        step_method: match f.step_method {
            Some(m) => m,
            None => PropMethod::Krylov,
        },
        auxmat_method: match f.auxmat_method {
            Some(m) => m,
            None => PropMethod::Taylor,
        },
        method,
        max_iter: match f.max_iter {
            Some(n) => n,
            None => 100,
        },
        n_grads,
        n_grads_dropped,
        reg_max_iter: match f.reg_max_iter {
            Some(n) => n,
            None => 2500,
        },
    })
}


// ------------------------------------------------------- control layout ----

/// Which control channels (columns) drive which spins (rows).
#[derive(Debug, Clone)]
pub struct SpinControl {
    /// The number of channels.
    pub cols: usize,
    /// One row per spin, each `cols` long.
    pub rows: Vec<Vec<bool>>,
}

/// Where the single-spin operators of the QOALA gradient come from.
#[derive(Debug, Clone)]
pub enum PauliPlan {
    /// Supplied by the user.
    Given,
    /// Not needed: the objective function is not a QOALA one.
    NotNeeded,
    /// One set of single-spin operators, shared by every spin.
    SingleSpin,
    /// One set per spin and channel pair: `slots[n][k]` says whether spin
    /// `n` gets operators for pair `k`, which it does when the pair's second
    /// channel drives it.
    PerPair(Vec<Vec<bool>>),
}

/// The first problem with the control layout, in the order it is checked.
pub open spec fn layout_problem(
    qoala: bool,
    space: StateSpace,
    basis: Basis,
    mults: Seq<usize>,
    sc: Option<SpinControl>,
    pauli_given: bool,
    sparse_gradops: bool,
) -> Option<Problem> {
    if sc is None && qoala {
        Some((ErrKind::MissingField,
            "spin_control: an array saying which control channels (columns) drive which spins (rows)"@))
    } else if pauli_given || !qoala {
        None
    } else if exists|i: int| 0 <= i < mults.len() && mults[i] != 2 {
        Some((ErrKind::NotImplemented, "single-spin operators for anything other than spin-1/2"@))
    } else if space == StateSpace::Hilbert && basis == Basis::Sphten {
        Some((ErrKind::NotImplemented, "single spin operators for the sphten basis in a hilbert space formalism"@))
    } else if sparse_gradops {
        None
    } else if sc.unwrap().cols == 0 {
        Some((ErrKind::MissingField, "spin_control"@))
    } else {
        None
    }
}

/// The pair slots of a spin-control layout for `nspins` spins.
pub open spec fn pair_slots_fit(s: Seq<Vec<bool>>, sc: SpinControl, nspins: nat) -> bool {
    &&& s.len() == nspins
    &&& forall|n: int| 0 <= n < nspins ==> #[trigger] s[n]@.len() == sc.cols / 2
        && forall|k: int| 0 <= k < sc.cols / 2 ==> s[n]@[k] == sc.rows@[n]@[2 * k + 1]
}

/// Checks the spin-control layout and decides where the single-spin
/// operators of the QOALA gradient come from.  A layout with channel pairs
/// but fewer rows than spins is left out: the rows are read for every spin.
pub fn check_control_layout(
    qoala: bool,
    space: StateSpace,
    basis: Basis,
    nspins: usize,
    mults: &Vec<usize>,
    sc: Option<SpinControl>,
    pauli_given: bool,
    sparse_gradops: bool,
) -> (r: Result<PauliPlan>)
    requires
        sc matches Some(c) ==> forall|i: int| 0 <= i < c.rows@.len() ==> (#[trigger] c.rows@[i])@.len() == c.cols,
        qoala && !pauli_given && !sparse_gradops && sc is Some && sc.unwrap().cols / 2 > 0
            ==> sc.unwrap().rows@.len() >= nspins,
    ensures
        match layout_problem(qoala, space, basis, mults@, sc, pauli_given, sparse_gradops) {
            Some(q) => r matches Err(e) && error_is(e, q.0, q.1),
            None => r matches Ok(p) && (if pauli_given {
                p is Given
            } else if !qoala {
                p is NotNeeded
            } else if sparse_gradops {
                p is SingleSpin
            } else {
                p matches PauliPlan::PerPair(s) && pair_slots_fit(s@, sc.unwrap(), nspins as nat)
            }),
        },
{
    let c = match sc {
        Some(c) => c,
        None => {
            if qoala {
                return Err(missing(
                    "spin_control: an array saying which control channels (columns) drive which spins (rows)",
                ));
            }
            SpinControl { cols: 0, rows: Vec::new() }
        },
    };
    if pauli_given {
        return Ok(PauliPlan::Given);
    }
    if !qoala {
        return Ok(PauliPlan::NotNeeded);
    }
    let mut i: usize = 0;
    while i < mults.len()
        invariant
            i <= mults@.len(),
            qoala && !pauli_given && sc is Some,
            forall|j: int| 0 <= j < i ==> mults@[j] == 2,
        decreases mults@.len() - i,
    {
        if mults[i] != 2 {
            assert(mults@[i as int] != 2);
            return Err(QoalaError::NotImplemented(String::from_str(
                "single-spin operators for anything other than spin-1/2",
            )));
        }
        i = i + 1;
    }
    if space == StateSpace::Hilbert && basis == Basis::Sphten {
        return Err(QoalaError::NotImplemented(String::from_str(
            "single spin operators for the sphten basis in a hilbert space formalism",
        )));
    }
    if sparse_gradops {
        return Ok(PauliPlan::SingleSpin);
    }
    if c.cols == 0 {
        return Err(missing("spin_control"));
    }
    let npairs = c.cols / 2;
    let mut slots: Vec<Vec<bool>> = Vec::new();
    let mut n: usize = 0;
    while n < nspins
        invariant
            n <= nspins,
            npairs == c.cols / 2,
            npairs > 0 ==> c.rows@.len() >= nspins,
            forall|i: int| 0 <= i < c.rows@.len() ==> (#[trigger] c.rows@[i])@.len() == c.cols,
            slots@.len() == n,
            forall|m: int| 0 <= m < n ==> #[trigger] slots@[m]@.len() == npairs
                && forall|k: int| 0 <= k < npairs ==> slots@[m]@[k] == c.rows@[m]@[2 * k + 1],
        decreases nspins - n,
    {
        let mut row: Vec<bool> = Vec::new();
        let mut k: usize = 0;
        while k < npairs
            invariant
                n < nspins,
                k <= npairs,
                npairs == c.cols / 2,
                npairs > 0 ==> c.rows@.len() >= nspins,
                forall|i: int| 0 <= i < c.rows@.len() ==> (#[trigger] c.rows@[i])@.len() == c.cols,
                row@.len() == k,
                forall|j: int| 0 <= j < k ==> row@[j] == c.rows@[n as int]@[2 * j + 1],
            decreases npairs - k,
        {
            assert(c.rows@[n as int]@.len() == c.cols);
            row.push(c.rows[n][2 * k + 1]);
            k = k + 1;
        }
        let ghost r = row@;
        let ghost before = slots@;
        slots.push(row);
        assert(slots@[n as int]@ == r);
        assert(forall|m: int| 0 <= m < n ==> slots@[m] == before[m]);
        n = n + 1;
    }
    Ok(PauliPlan::PerPair(slots))
}


/// Every ordered pair of operators can form a commutator: no pair problem.
proof fn lemma_no_row_problem(ops: Seq<(usize, usize)>, n: int, m: int, j: int)
    requires
        0 <= m <= j < ops.len(),
        row_problem(ops, n, m) is None,
    ensures
        commutator_problem(ops[n], ops[j]) is None,
    decreases j - m,
{
    if m < j {
        lemma_no_row_problem(ops, n, m + 1, j);
    }
}

proof fn lemma_no_shape_problem(ops: Seq<(usize, usize)>, n0: int, n: int, j: int)
    requires
        0 <= n0 <= n < ops.len(),
        0 <= j < ops.len(),
        shape_problem_from(ops, n0) is None,
    ensures
        commutator_problem(ops[n], ops[j]) is None,
    decreases n - n0,
{
    if n0 < n {
        lemma_no_shape_problem(ops, n0 + 1, n, j);
    } else {
        lemma_no_row_problem(ops, n, 0, j);
    }
}

/// Operators whose every pair forms a commutator are all square, of one
/// dimension: the first operator's rows.
pub proof fn law_commuting_shapes_are_square(ops: Seq<(usize, usize)>)
    requires
        ops.len() >= 1,
        shape_problem(ops) is None,
    ensures
        forall|i: int| 0 <= i < ops.len() ==> #[trigger] ops[i] == (ops[0].0, ops[0].0),
{
    assert forall|i: int| 0 <= i < ops.len() implies #[trigger] ops[i] == (ops[0].0, ops[0].0) by {
        lemma_no_shape_problem(ops, 0, 0, 0);
        lemma_no_shape_problem(ops, 0, 0, i);
    }
}

/// What options that pass settle, stated over the options themselves:
/// target propagators make a universal rotation and target states a
/// point-to-point problem with as many initial states; every operator is
/// square of the plan's dimension; the slices, channels and ensemble are
/// never empty; there is a multiplicity per spin, two-level when none were
/// given; the penalties are as given or the lone `NoPenalty`, with their
/// weights given one per penalty or taken from the slice count; the
/// adiabaticity penalty always has a bandwidth; only LBFGS keeps a history;
/// and the iteration budget is as given, else 100.
pub proof fn law_plan_follows_the_options(f: OptionFacts, p: OptionPlan)
    requires
        option_problem(f) is None,
        f.pulse_dt != Some((0usize, true)),
        plan_fits(f, p),
    ensures
        p.ctrl_type == CtrlType::UniversalRotation <==> f.prop_targ_given,
        !f.prop_targ_given ==> f.rho_init is Some && f.rho_init == f.rho_targ,
        p.fidelity == Fidelity::Real,
        f.operators matches Some(ops) && p.kctrls == ops@.len() && p.kctrls >= 1
            && forall|i: int| 0 <= i < ops@.len() ==> #[trigger] ops@[i] == (p.dim, p.dim),
        p.nsteps >= 1,
        p.ensemble == f.drift_count && p.ensemble >= 1,
        p.nspins == p.mults@.len(),
        f.mults matches Some(m) ==> p.mults@ == m@,
        f.mults is None ==> forall|i: int| 0 <= i < p.mults@.len() ==> #[trigger] p.mults@[i] == 2,
        f.penalties matches Some(v) ==> p.penalties@ == v@,
        f.penalties is None ==> p.penalties@ == seq![Penalty::NoPenalty],
        (p.weights == WeightRule::Given) <==> (f.p_weights is Some),
        f.p_weights matches Some(w) ==> w == p.penalties@.len(),
        p.penalties@.contains(Penalty::Adiab) ==> p.bandwidth != BandwidthSource::Absent,
        p.bandwidth == BandwidthSource::OffsetRange ==> !f.bandwidth_given && (f.offsets matches Some(n) && n > 0),
        p.method != OptMethod::Lbfgs ==> p.n_grads == 0,
        f.max_iter matches Some(n) ==> p.max_iter == n,
        f.max_iter is None ==> p.max_iter == 100,
{
    let ops = f.operators.unwrap()@;
    law_commuting_shapes_are_square(ops);
}

} // verus!

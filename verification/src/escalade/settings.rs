//! How an ESCALADE problem's spin count is settled: per-spin initial and
//! target states and explicit offsets each dictate it, and have to agree.
use vstd::prelude::*;
use crate::error::{QoalaError, Result};
use crate::text::{digits, digits_string};

verus! {

/// The counts that dictate the spin count, in the order they are
/// consulted, each with the name of what dictates it.
pub open spec fn dictated_counts(initial: Option<usize>, target: Option<usize>, offsets: Option<usize>) -> Seq<(Seq<char>, usize)> {
    let a: Seq<(Seq<char>, usize)> = match initial {
        Some(n) => seq![("initial states"@, n)],
        None => Seq::empty(),
    };
    let b: Seq<(Seq<char>, usize)> = match target {
        Some(n) => seq![("target states"@, n)],
        None => Seq::empty(),
    };
    let c: Seq<(Seq<char>, usize)> = match offsets {
        Some(n) => seq![("offsets"@, n)],
        None => Seq::empty(),
    };
    a + b + c
}

/// The first dictated count that disagrees with the first one, if any.
pub open spec fn first_disagreement(d: Seq<(Seq<char>, usize)>) -> Option<int> {
    if d.len() >= 2 && d[1].1 != d[0].1 {
        Some(1)
    } else if d.len() >= 3 && d[2].1 != d[0].1 {
        Some(2)
    } else {
        None
    }
}

/// The spin count of an ESCALADE problem: what the per-spin states and the
/// explicit offsets dictate, when they agree, else `nspins`; never zero.
pub fn resolve_spin_count(
    initial: Option<usize>,
    target: Option<usize>,
    offsets: Option<usize>,
    nspins: usize,
) -> (r: Result<usize>)
    ensures
        ({
            let d = dictated_counts(initial, target, offsets);
            match first_disagreement(d) {
                Some(j) => r matches Err(QoalaError::BadValue(m)) && m@ == d[j].0 + " give "@ + digits(d[j].1 as nat)
                    + " spins but "@ + d[0].0 + " give "@ + digits(d[0].1 as nat),
                None => {
                    let n = if d.len() > 0 { d[0].1 } else { nspins };
                    if n == 0 {
                        r matches Err(QoalaError::BadValue(m)) && m@ == "at least one spin is needed"@
                    } else {
                        r == Ok::<usize, QoalaError>(n)
                    }
                },
            }
        }),
{
    let mut names: Vec<&str> = Vec::new();
    let mut counts: Vec<usize> = Vec::new();
    match initial {
        Some(n) => {
            names.push("initial states");
            counts.push(n);
        },
        None => {},
    }
    match target {
        Some(n) => {
            names.push("target states");
            counts.push(n);
        },
        None => {},
    }
    match offsets {
        Some(n) => {
            names.push("offsets");
            counts.push(n);
        },
        None => {},
    }
    let ghost d = dictated_counts(initial, target, offsets);
    assert(names@.len() == d.len() && counts@.len() == d.len());
    assert(forall|j: int| 0 <= j < d.len() ==> #[trigger] names@[j]@ == d[j].0 && counts@[j] == d[j].1);
    let n = if counts.len() > 0 {
        let first = counts[0];
        let mut j: usize = 1;
        while j < counts.len()
            invariant
                1 <= j <= counts@.len() <= 3,
                d == dictated_counts(initial, target, offsets),
                counts@.len() == d.len(),
                names@.len() == d.len(),
                forall|k: int| 0 <= k < d.len() ==> #[trigger] names@[k]@ == d[k].0 && counts@[k] == d[k].1,
                first == counts@[0],
                forall|k: int| 1 <= k < j ==> #[trigger] counts@[k] == first,
            decreases counts@.len() - j,
        {
            if counts[j] != first {
                let mut m = String::from_str(names[j]);
                m.append(" give ");
                let dj = digits_string(counts[j] as u64);
                m.append(dj.as_str());
                m.append(" spins but ");
                m.append(names[0]);
                m.append(" give ");
                let d0 = digits_string(first as u64);
                m.append(d0.as_str());
                proof {
                    if j == 2 {
                        assert(counts@[1] == first);
                    }
                    assert(names@[j as int]@ == d[j as int].0 && names@[0]@ == d[0].0);
                    assert(names@[1]@ == d[1].0);
                    assert(counts@[j as int] == d[j as int].1 && first == d[0].1);
                    assert(first_disagreement(d) == Some(j as int));
                }
                return Err(QoalaError::BadValue(m));
            }
            j = j + 1;
        }
        assert(d.len() >= 2 ==> counts@[1] == first);
        assert(d.len() >= 3 ==> counts@[2] == first);
        first
    } else {
        nspins
    };
    if n == 0 {
        return Err(QoalaError::BadValue(String::from_str("at least one spin is needed")));
    }
    Ok(n)
}


/// A starting pulse, as the checks read it: its rows, its columns, and
/// whether every entry is finite.
#[derive(Debug, Clone, Copy, PartialEq, Eq, Structural)]
pub struct StartShape {
    /// Rows: one per pulse point.
    pub rows: usize,
    /// Columns: two, `x` and `y`.
    pub cols: usize,
    /// Whether every entry is finite.
    pub finite: bool,
}

/// The first problem with the radio-frequency amplitudes, their weights and
/// the starting pulse, in the order they are checked, or the number of
/// pulse points: the rows of the starting pulse, else `np_pulse`.
pub open spec fn pulse_settings(
    rf: nat,
    rf_finite: bool,
    weights: Option<usize>,
    weights_sum_nonzero: bool,
    start: Option<StartShape>,
    np_pulse: usize,
) -> core::result::Result<usize, (bool, Seq<char>)> {
    if rf == 0 {
        Err((true, "at least one radio-frequency amplitude"@))
    } else if !rf_finite {
        Err((false, "radio-frequency amplitudes must be finite"@))
    } else if weights is Some && weights.unwrap() != rf {
        Err((false, digits(weights.unwrap() as nat) + " weights for "@ + digits(rf) + " radio-frequency amplitudes"@))
    } else if !weights_sum_nonzero {
        Err((false, "radio-frequency weights must have a non-zero sum"@))
    } else {
        match start {
            Some(p) => if p.cols != 2 || p.rows == 0 {
                Err((false, "the starting pulse must be np x 2, got "@ + digits(p.rows as nat) + "x"@ + digits(
                    p.cols as nat,
                )))
            } else if !p.finite {
                Err((false, "the starting pulse must be finite"@))
            } else {
                Ok(p.rows)
            },
            None => if np_pulse == 0 {
                Err((false, "the pulse needs at least one point"@))
            } else {
                Ok(np_pulse)
            },
        }
    }
}

/// The checks on the radio-frequency amplitudes, their weights and the
/// starting pulse of an ESCALADE problem.  `rf` counts the amplitudes and
/// `rf_finite` says whether all are finite; `weights` counts the weights
/// when they were given, and `weights_sum_nonzero` says whether the weights
/// in force (one per amplitude when none were given) have a finite,
/// non-zero sum.  Gives the number of pulse points.
pub fn check_pulse_settings(
    rf: usize,
    rf_finite: bool,
    weights: Option<usize>,
    weights_sum_nonzero: bool,
    start: Option<StartShape>,
    np_pulse: usize,
) -> (r: Result<usize>)
    ensures
        match pulse_settings(rf as nat, rf_finite, weights, weights_sum_nonzero, start, np_pulse) {
            Ok(n) => r == Ok::<usize, QoalaError>(n),
            Err(p) => if p.0 {
                r matches Err(QoalaError::MissingField(m)) && m@ == p.1
            } else {
                r matches Err(QoalaError::BadValue(m)) && m@ == p.1
            },
        },
        r matches Ok(n) ==> n >= 1 && rf >= 1 && rf_finite && weights_sum_nonzero && (weights matches Some(w)
            ==> w == rf) && match start {
            Some(p) => n == p.rows && p.cols == 2 && p.finite,
            None => n == np_pulse,
        },
{
    if rf == 0 {
        return Err(QoalaError::MissingField(String::from_str("at least one radio-frequency amplitude")));
    }
    if !rf_finite {
        return Err(QoalaError::BadValue(String::from_str("radio-frequency amplitudes must be finite")));
    }
    match weights {
        Some(w) => {
            if w != rf {
                let mut m = digits_string(w as u64);
                m.append(" weights for ");
                let d = digits_string(rf as u64);
                m.append(d.as_str());
                m.append(" radio-frequency amplitudes");
                return Err(QoalaError::BadValue(m));
            }
        },
        None => {},
    }
    if !weights_sum_nonzero {
        return Err(QoalaError::BadValue(String::from_str("radio-frequency weights must have a non-zero sum")));
    }
    match start {
        Some(p) => {
            if p.cols != 2 || p.rows == 0 {
                let mut m = String::from_str("the starting pulse must be np x 2, got ");
                let a = digits_string(p.rows as u64);
                m.append(a.as_str());
                m.append("x");
                let b = digits_string(p.cols as u64);
                m.append(b.as_str());
                return Err(QoalaError::BadValue(m));
            }
            if !p.finite {
                return Err(QoalaError::BadValue(String::from_str("the starting pulse must be finite")));
            }
            Ok(p.rows)
        },
        None => {
            if np_pulse == 0 {
                return Err(QoalaError::BadValue(String::from_str("the pulse needs at least one point")));
            }
            Ok(np_pulse)
        },
    }
}


/// The pulse has as many points as the starting pulse has rows whenever a
/// starting pulse is given, whatever `np_pulse` says; only without one does
/// `np_pulse` count.  Settings that pass always have at least one point,
/// at least one amplitude, and one weight per amplitude when weights are
/// given.
pub proof fn law_start_pulse_sets_the_point_count(
    rf: nat,
    rf_finite: bool,
    weights: Option<usize>,
    weights_sum_nonzero: bool,
    start: Option<StartShape>,
    np_pulse: usize,
)
    ensures
        pulse_settings(rf, rf_finite, weights, weights_sum_nonzero, start, np_pulse) matches Ok(n) ==> {
            &&& n >= 1
            &&& rf >= 1
            &&& (weights matches Some(w) ==> w == rf)
            &&& (start matches Some(p) ==> n == p.rows && p.cols == 2)
            &&& (start is None ==> n == np_pulse)
        },
        start matches Some(p) ==> (pulse_settings(rf, rf_finite, weights, weights_sum_nonzero, start, np_pulse)
            == pulse_settings(rf, rf_finite, weights, weights_sum_nonzero, start, 0)),
{
}

} // verus!

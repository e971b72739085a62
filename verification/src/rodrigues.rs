//! Facts about the closed-form single-spin propagators: how many propagator
//! elements are stored per time point, and the missing second derivative.
use vstd::prelude::*;
use crate::error::{QoalaError, Result};
use crate::types::{Basis, StateSpace};
use crate::text::{digits, digits_string};

verus! {

/// Number of stored propagator elements per time point for a formalism:
/// the rank-1 block of a spherical-tensor Liouville propagator (nine), the
/// full single-spin Zeeman Liouville propagator (sixteen) or the Hilbert
/// space SU(2) matrix (four).  `None` for spherical tensors in Hilbert space,
/// which the package does not implement.
pub open spec fn spec_elements_per_point(space: StateSpace, basis: Basis) -> Option<nat> {
    match (space, basis) {
        (StateSpace::Liouville, Basis::Sphten) => Some(9),
        (StateSpace::Liouville, Basis::Zeeman) => Some(16),
        (StateSpace::Hilbert, Basis::Zeeman) => Some(4),
        (StateSpace::Hilbert, Basis::Sphten) => None,
    }
}

/// Number of stored propagator elements per time point for a given formalism.
pub fn elements_per_point(space: StateSpace, basis: Basis) -> (r: Result<usize>)
    ensures
        match spec_elements_per_point(space, basis) {
            Some(n) => r == Ok::<usize, QoalaError>(n as usize),
            None => r matches Err(QoalaError::NotImplemented(s))
                && s@ == "spherical tensors in Hilbert space"@,
        },
{
    match (space, basis) {
        (StateSpace::Liouville, Basis::Sphten) => Ok(9),
        (StateSpace::Liouville, Basis::Zeeman) => Ok(16),
        (StateSpace::Hilbert, Basis::Zeeman) => Ok(4),
        (StateSpace::Hilbert, Basis::Sphten) => Err(
            QoalaError::NotImplemented(String::from_str("spherical tensors in Hilbert space")),
        ),
    }
}

/// The second derivative is not available.
///
/// The closed-form propagator has no second-derivative formula that holds
/// for multi-spin systems, so the package declines explicitly, with an
/// error that says so.
pub fn rodrigues_hessian_unavailable() -> (e: QoalaError)
    ensures
        e matches QoalaError::NotImplemented(s) && s@
            == "second propagator derivatives (the MATLAB rodrigues Hessian branch is incomplete)"@,
{
    QoalaError::NotImplemented(
        String::from_str(
            "second propagator derivatives (the MATLAB rodrigues Hessian branch is incomplete)",
        ),
    )
}


/// `"{r}x{c}"`.
pub open spec fn by_text(r: nat, c: nat) -> Seq<char> {
    digits(r) + "x"@ + digits(c)
}

/// The layout of a propagator-derivative request, when its shapes agree:
/// `(npairs, kctrls, npoints)`.
pub open spec fn rotation_layout_spec(
    space: StateSpace,
    basis: Basis,
    axis_rows: nat,
    axis_cols: nat,
    m: nat,
    row_lens: Seq<nat>,
) -> core::result::Result<(nat, nat, nat), (nat, Seq<char>)> {
    if axis_rows != m || axis_cols != 3 {
        Err((3, "rot_axis must be "@ + digits(m) + "x3, got "@ + by_text(axis_rows, axis_cols)))
    } else if spec_elements_per_point(space, basis) is None {
        Err((2, "spherical tensors in Hilbert space"@))
    } else if row_lens.len() == 0 {
        Err((1, "no control operators supplied"@))
    } else if row_lens[0] % 3 != 0 {
        Err((3, "control operator array must have 3 columns (x, y, z) per control pair"@))
    } else if m % row_lens.len() != 0 {
        Err((3, "time-point count "@ + digits(m) + " is not a multiple of the spin count "@ + digits(
            row_lens.len(),
        )))
    } else {
        Ok((row_lens[0] / 3, 2 * (row_lens[0] / 3), m / row_lens.len()))
    }
}

/// The error whose kind is coded `k` (1 a bad value, 2 not implemented,
/// 3 a dimension mismatch) and whose detail is `m`.
pub open spec fn coded_error(e: QoalaError, k: nat, m: Seq<char>) -> bool {
    if k == 1 {
        e matches QoalaError::BadValue(s) && s@ == m
    } else if k == 2 {
        e matches QoalaError::NotImplemented(s) && s@ == m
    } else {
        e matches QoalaError::Dimension(s) && s@ == m
    }
}

/// The shape checks of a propagator-derivative request, in order: the
/// rotation axes must be one `x, y, z` row per time point; the formalism
/// must be implemented; there must be a row of operators per spin, three
/// per control pair; and the time points must split evenly over the spins.
/// Gives the pair count, the channel count and the points per spin.
pub fn rotation_layout<C>(
    space: StateSpace,
    basis: Basis,
    axis_rows: usize,
    axis_cols: usize,
    m: usize,
    rot_ops: &[Vec<Option<C>>],
) -> (r: Result<(usize, usize, usize)>)
    ensures
        match rotation_layout_spec(
            space,
            basis,
            axis_rows as nat,
            axis_cols as nat,
            m as nat,
            Seq::new(rot_ops@.len(), |i: int| rot_ops@[i]@.len()),
        ) {
            Ok(t) => r matches Ok(u) && u.0 == t.0 && u.1 == t.1 && u.2 == t.2,
            Err(p) => r matches Err(e) && coded_error(e, p.0, p.1),
        },
        r matches Ok(u) ==> rot_ops@.len() >= 1 && 3 * u.0 == rot_ops@[0]@.len() && u.1 == 2 * u.0 && u.2
            * rot_ops@.len() == m && axis_rows == m && axis_cols == 3,
{
    if axis_rows != m || axis_cols != 3 {
        let mut s = String::from_str("rot_axis must be ");
        let a = digits_string(m as u64);
        s.append(a.as_str());
        s.append("x3, got ");
        let b = digits_string(axis_rows as u64);
        s.append(b.as_str());
        s.append("x");
        let c = digits_string(axis_cols as u64);
        s.append(c.as_str());
        assert(s@ =~= "rot_axis must be "@ + digits(m as nat) + "x3, got "@ + by_text(axis_rows as nat, axis_cols as nat));
        return Err(QoalaError::Dimension(s));
    }
    match elements_per_point(space, basis) {
        Ok(_) => {},
        Err(e) => return Err(e),
    }
    let nspins = rot_ops.len();
    if nspins == 0 {
        return Err(QoalaError::BadValue(String::from_str("no control operators supplied")));
    }
    let ncols = rot_ops[0].len();
    if ncols % 3 != 0 {
        return Err(QoalaError::Dimension(String::from_str(
            "control operator array must have 3 columns (x, y, z) per control pair",
        )));
    }
    let npairs = ncols / 3;
    if m % nspins != 0 {
        let mut s = String::from_str("time-point count ");
        let a = digits_string(m as u64);
        s.append(a.as_str());
        s.append(" is not a multiple of the spin count ");
        let b = digits_string(nspins as u64);
        s.append(b.as_str());
        return Err(QoalaError::Dimension(s));
    }
    assert((m / nspins) * nspins == m) by (nonlinear_arith)
        requires m % nspins == 0, nspins > 0;
    Ok((npairs, 2 * npairs, m / nspins))
}


/// A request whose shapes agree has three operators per control pair in
/// each spin's row, two channels (`x` and `y`) per pair, and its time
/// points split evenly over the spins: the pair count times three is the
/// row length, the channel count is twice the pair count, and the points
/// per spin times the spin count is the number of time points.
pub proof fn law_layout_counts_channels_in_pairs(
    space: StateSpace,
    basis: Basis,
    axis_rows: nat,
    axis_cols: nat,
    m: nat,
    row_lens: Seq<nat>,
)
    ensures
        rotation_layout_spec(space, basis, axis_rows, axis_cols, m, row_lens) matches Ok(t) ==> {
            &&& row_lens.len() >= 1
            &&& 3 * t.0 == row_lens[0]
            &&& t.1 == 2 * t.0
            &&& t.2 * row_lens.len() == m
        },
{
    if rotation_layout_spec(space, basis, axis_rows, axis_cols, m, row_lens) is Ok {
        let n = row_lens.len();
        let c = row_lens[0];
        assert(3 * (c / 3) == c) by (nonlinear_arith)
            requires c % 3 == 0;
        assert((m / n) * n == m) by (nonlinear_arith)
            requires m % n == 0, n > 0;
    }
}

} // verus!

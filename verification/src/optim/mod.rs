//! The optimiser's bookkeeping: what an objective call is asked for, the
//! evaluation counters, and the layout of the console table.
use vstd::prelude::*;
use crate::error::{QoalaError, Result};
use crate::text::{digits, digits_string, push_char};

pub mod newton;
pub mod progress;

verus! {

/// How much of the objective to evaluate.
#[derive(Debug, Clone, Copy, PartialEq, Eq, Structural)]
pub enum ObjectiveRequest {
    /// Value only.
    Value,
    /// Value and gradient.
    Gradient,
    /// Value, gradient and Hessian.
    Hessian,
}

/// Evaluation counters of an optimisation.
#[derive(Debug, Clone, Copy)]
pub struct Counters {
    /// Optimiser iterations.
    pub iter: usize,
    /// Objective-function evaluations.
    pub fx: usize,
    /// Gradient evaluations.
    pub gfx: usize,
    /// Hessian evaluations.
    pub hfx: usize,
    /// Rational-function-optimisation regularisation steps.
    pub rfo: usize,
}

impl Default for Counters {
    /// All counters at zero.
    fn default() -> (c: Counters)
        ensures
            c.iter == 0,
            c.fx == 0,
            c.gfx == 0,
            c.hfx == 0,
            c.rfo == 0,
    {
        Counters { iter: 0, fx: 0, gfx: 0, hfx: 0, rfo: 0 }
    }
}

impl Counters {
    /// Counts one objective call made to the order asked: a function
    /// evaluation always, a gradient evaluation from `Gradient` up, a
    /// Hessian evaluation for `Hessian`.
    pub fn record_evaluation(&mut self, request: ObjectiveRequest)
        requires
            old(self).fx < usize::MAX,
            request != ObjectiveRequest::Value ==> old(self).gfx < usize::MAX,
            request == ObjectiveRequest::Hessian ==> old(self).hfx < usize::MAX,
        ensures
            final(self).fx == old(self).fx + 1,
            final(self).gfx == old(self).gfx + if request != ObjectiveRequest::Value { 1int } else { 0int },
            final(self).hfx == old(self).hfx + if request == ObjectiveRequest::Hessian { 1int } else { 0int },
            final(self).iter == old(self).iter,
            final(self).rfo == old(self).rfo,
    {
        self.fx = self.fx + 1;
        match request {
            ObjectiveRequest::Value => {},
            ObjectiveRequest::Gradient => {
                self.gfx = self.gfx + 1;
            },
            ObjectiveRequest::Hessian => {
                self.gfx = self.gfx + 1;
                self.hfx = self.hfx + 1;
            },
        }
    }

    /// Counts the extra function evaluations an adaptive step made.
    pub fn record_adaptive_evaluations(&mut self, n: usize)
        requires
            old(self).fx + n <= usize::MAX,
        ensures
            final(self).fx == old(self).fx + n,
            final(self).gfx == old(self).gfx,
            final(self).hfx == old(self).hfx,
            final(self).iter == old(self).iter,
            final(self).rfo == old(self).rfo,
    {
        self.fx = self.fx + n;
    }
}

/// The message for a parameter vector that does not fill the waveform.
pub open spec fn parameter_count_message(len: nat, rows: nat, cols: nat) -> Seq<char> {
    "parameter vector has "@ + digits(len) + " entries but the waveform is "@ + digits(rows) + "x"@ + digits(cols)
}

/// Whether a flat parameter vector of `len` entries fills a `rows x cols`
/// waveform.
pub fn check_parameter_count(len: usize, rows: usize, cols: usize) -> (r: Result<()>)
    requires
        rows * cols <= usize::MAX,
    ensures
        len == rows * cols ==> r is Ok,
        len != rows * cols ==> (r matches Err(QoalaError::Dimension(m))
            && m@ == parameter_count_message(len as nat, rows as nat, cols as nat)),
{
    if len != rows * cols {
        let mut m = String::from_str("parameter vector has ");
        let a = digits_string(len as u64);
        m.append(a.as_str());
        m.append(" entries but the waveform is ");
        let b = digits_string(rows as u64);
        m.append(b.as_str());
        push_char(&mut m, 'x');
        let c = digits_string(cols as u64);
        m.append(c.as_str());
        proof {
            reveal_strlit("x");
        }
        return Err(QoalaError::Dimension(m));
    }
    Ok(())
}

} // verus!

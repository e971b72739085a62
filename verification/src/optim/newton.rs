//! The layout of the Newton-family optimisers' console table.
use vstd::prelude::*;
use crate::optim::Counters;
use crate::report::{int2str, pad, padded_right};
use crate::text::{decimal, push_char};

verus! {

/// Which optional columns the console table carries.
#[derive(Debug, Clone, Copy, PartialEq, Eq, Structural)]
pub struct ReportLayout {
    /// An independent fidelity check is computed.
    pub check: bool,
    /// Penalty terms are active.
    pub penalties: bool,
    /// The propagator splitting adapts during the run.
    pub adaptive: bool,
}

/// The counter columns of the header.
pub open spec fn counter_header(adaptive: bool) -> Seq<char> {
    if adaptive {
        "Iter  #f   #g   #H   #R   #T   #O    "@
    } else {
        "Iter  #f   #g   #H   #R    "@
    }
}

/// The fidelity columns of the header.
pub open spec fn fidelity_header(check: bool, penalties: bool) -> Seq<char> {
    if check && penalties {
        "fidelity      check         penalise      total       "@
    } else if !check && !penalties {
        "fidelity      "@
    } else if !check && penalties {
        "fidelity      penalise      total       "@
    } else {
        "fidelity      check           "@
    }
}

/// The step columns that close the header.
pub open spec fn step_header() -> Seq<char> {
    "alpha      |grad|    "@
}

impl ReportLayout {
    /// Width of the table's horizontal rules.
    pub open spec fn rule_width(self) -> nat {
        if !self.adaptive {
            if self.check && self.penalties {
                102
            } else if !self.check && !self.penalties {
                62
            } else if !self.check && self.penalties {
                88
            } else {
                78
            }
        } else {
            if self.check && self.penalties {
                112
            } else if !self.check && !self.penalties {
                72
            } else if !self.check && self.penalties {
                98
            } else {
                88
            }
        }
    }

    /// The table header.
    pub open spec fn header(self) -> Seq<char> {
        counter_header(self.adaptive) + fidelity_header(self.check, self.penalties) + step_header()
    }

    /// A horizontal rule of `ch` as wide as the table.
    pub fn rule(&self, ch: char) -> (out: String)
        ensures
            out@ == Seq::new(self.rule_width(), |i: int| ch),
    {
        let width: usize = if !self.adaptive {
            if self.check && self.penalties {
                102
            } else if !self.check && !self.penalties {
                62
            } else if !self.check && self.penalties {
                88
            } else {
                78
            }
        } else {
            if self.check && self.penalties {
                112
            } else if !self.check && !self.penalties {
                72
            } else if !self.check && self.penalties {
                98
            } else {
                88
            }
        };
        let mut out = String::new();
        let mut k: usize = 0;
        while k < width
            invariant
                k <= width,
                out@ == Seq::new(k as nat, |i: int| ch),
            decreases width - k,
        {
            push_char(&mut out, ch);
            k = k + 1;
            assert(out@ =~= Seq::new(k as nat, |i: int| ch));
        }
        assert(width == self.rule_width());
        out
    }

    /// The column headings.
    pub fn columns(&self) -> (out: String)
        ensures
            out@ == self.header(),
    {
        let mut out = if self.adaptive {
            String::from_str("Iter  #f   #g   #H   #R   #T   #O    ")
        } else {
            String::from_str("Iter  #f   #g   #H   #R    ")
        };
        if self.check && self.penalties {
            out.append("fidelity      check         penalise      total       ");
        } else if !self.check && !self.penalties {
            out.append("fidelity      ");
        } else if !self.check && self.penalties {
            out.append("fidelity      penalise      total       ");
        } else {
            out.append("fidelity      check           ");
        }
        out.append("alpha      |grad|    ");
        out
    }
}

/// The rules of the console table are exactly as wide as its header, for
/// every combination of optional columns.
pub proof fn law_rule_spans_header(layout: ReportLayout)
    ensures
        layout.header().len() == layout.rule_width(),
{
    reveal_strlit("Iter  #f   #g   #H   #R   #T   #O    ");
    reveal_strlit("Iter  #f   #g   #H   #R    ");
    reveal_strlit("fidelity      check         penalise      total       ");
    reveal_strlit("fidelity      ");
    reveal_strlit("fidelity      penalise      total       ");
    reveal_strlit("fidelity      check           ");
    reveal_strlit("alpha      |grad|    ");
}

/// One counter cell of a table row: the count as the table's signed
/// integer, padded to `width` columns.
pub open spec fn counter_cell(count: usize, width: nat) -> Seq<char> {
    padded_right(decimal((count as i64) as int), width)
}

/// The counter cells that open a table row.
pub open spec fn counter_row(c: Counters, adaptive: bool, trotter_number: usize, split_order: usize) -> Seq<char> {
    counter_cell(c.iter, 6) + counter_cell(c.fx, 5) + counter_cell(c.gfx, 5) + counter_cell(c.hfx, 5)
        + counter_cell(c.rfo, 5) + if adaptive {
        counter_cell(trotter_number, 5) + counter_cell(split_order, 5)
    } else {
        Seq::empty()
    }
}

/// Appends one counter cell.
fn push_counter(row: &mut String, count: usize, width: usize)
    ensures
        final(row)@ == old(row)@ + counter_cell(count, width as nat),
{
    let text = int2str(count as i64);
    let cell = pad(text.as_str(), width);
    row.append(cell.as_str());
}

impl ReportLayout {
    /// The counter cells that open a row of the iteration table: the
    /// iteration, function, gradient, Hessian and regularisation counts,
    /// then, when the splitting adapts, the Trotter number and order.
    pub fn counter_cells(&self, c: &Counters, trotter_number: usize, split_order: usize) -> (row: String)
        ensures
            row@ == counter_row(*c, self.adaptive, trotter_number, split_order),
    {
        let mut row = String::new();
        push_counter(&mut row, c.iter, 6);
        push_counter(&mut row, c.fx, 5);
        push_counter(&mut row, c.gfx, 5);
        push_counter(&mut row, c.hfx, 5);
        push_counter(&mut row, c.rfo, 5);
        if self.adaptive {
            push_counter(&mut row, trotter_number, 5);
            push_counter(&mut row, split_order, 5);
        }
        proof {
            assert(Seq::<char>::empty() + counter_row(*c, self.adaptive, trotter_number, split_order) =~= counter_row(*c, self.adaptive, trotter_number, split_order));
        }
        row
    }
}

} // verus!

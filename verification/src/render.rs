use vstd::prelude::*;
use crate::cell::CellState;
use crate::maze::Mazm;
use crate::model::MazeModel;

verus! {

/// The class label of one cell. A closed cell is labelled `closed` and
/// nothing else; an open cell starts from the empty label and appends, in
/// this fixed order, `t` for a top passage, then ` l`, ` r` and ` b` for the
/// other sides. A cell with no passage renders with an empty label.
pub open spec fn spec_label(c: CellState) -> Seq<char> {
    if c.closed {
        "closed"@
    } else {
        (if c.top {
            "t"@
        } else {
            Seq::empty()
        }) + (if c.left {
            " l"@
        } else {
            Seq::empty()
        }) + (if c.right {
            " r"@
        } else {
            Seq::empty()
        }) + (if c.bottom {
            " b"@
        } else {
            Seq::empty()
        })
    }
}

/// The markup of one cell: an element carrying the cell's class label.
pub open spec fn spec_cell_markup(c: CellState) -> Seq<char> {
    "<i class=\""@ + spec_label(c) + "\"></i>"@
}

/// The markup of the first `k` cells, row-major, with a line terminator after
/// each completed row of `width` cells.
pub open spec fn spec_render_upto(cells: Seq<CellState>, width: usize, k: int) -> Seq<char>
    decreases k,
{
    if k <= 0 {
        Seq::empty()
    } else {
        spec_render_upto(cells, width, k - 1) + spec_cell_markup(cells[k - 1]) + (if k % (
        width as int) == 0 {
            "<br/>"@
        } else {
            Seq::empty()
        })
    }
}

/// The full rendering of an engine's grid.
pub open spec fn spec_render(m: MazeModel) -> Seq<char> {
    spec_render_upto(m.cells, m.width, m.cells.len() as int)
}

impl Mazm {
    /// Serialize the current grid as textual markup, row by row: one element
    /// per cell carrying its class label, and a line terminator after each
    /// row. A pure read of the grid: the result is a function of the engine
    /// state alone, so rendering twice without a step in between yields
    /// identical strings.
    #[verifier::rlimit(100)]
    pub fn render(&self) -> (r: String)
        requires
            self@.wf(),
        ensures
            r@ == spec_render(self@),
    {
        let mut out = String::new();
        let n = self.cells.len();
        let mut i: usize = 0;
        while i < n
            invariant
                self@.wf(),
                n == self@.cells.len(),
                i <= n,
                out@ == spec_render_upto(self@.cells, self@.width, i as int),
            decreases n - i,
        {
            let ghost prefix = out@;
            out.append("<i class=\"");
            let c = self.cells[i];
            if c.closed {
                out.append("closed");
            } else {
                if c.top {
                    out.append("t");
                }
                if c.left {
                    out.append(" l");
                }
                if c.right {
                    out.append(" r");
                }
                if c.bottom {
                    out.append(" b");
                }
            }
            proof {
                assert(out@ =~= prefix + "<i class=\""@ + spec_label(c));
            }
            out.append("\"></i>");
            proof {
                assert(out@ =~= prefix + spec_cell_markup(c));
            }
            if (i + 1) % self.width == 0 {
                out.append("<br/>");
            }
            proof {
                assert(out@ =~= spec_render_upto(self@.cells, self@.width, i + 1));
            }
            i = i + 1;
        }
        out
    }
}

} // verus!

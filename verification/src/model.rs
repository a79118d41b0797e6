use vstd::prelude::*;
use crate::cell::CellState;

verus! {

/// Sum of the first three samples of a cell must exceed this for the cell to
/// be classified as open.
pub const SELECT_THRESHOLD: usize = (255 * 3) / 2;

/// Mathematical image of a maze engine: the grid as a sequence of cell
/// states, the cursor, the fallback pool of indices, and the step counter.
#[verifier::ext_equal]
pub ghost struct MazeModel {
    pub width: usize,
    pub height: usize,
    pub time: usize,
    pub cells: Seq<CellState>,
    pub unvisited: Seq<usize>,
    pub current: usize,
}

impl MazeModel {
    /// Structural well-formedness: a non-empty square grid, the cursor in
    /// bounds, and every fallback-pool entry in bounds.
    pub open spec fn wf(self) -> bool {
        &&& self.width == self.height
        &&& 0 < self.width
        &&& self.cells.len() == self.width * self.height
        &&& self.cells.len() <= usize::MAX
        &&& (self.current as int) < self.cells.len()
        &&& forall|k: int|
            0 <= k < self.unvisited.len() ==> (self.unvisited[k] as int) < self.cells.len()
    }
}

/// Row of a linear grid index.
pub open spec fn row_of(width: usize, idx: int) -> int {
    idx / width as int
}

/// Column of a linear grid index.
pub open spec fn col_of(width: usize, idx: int) -> int {
    idx % width as int
}

/// Two positions are grid-adjacent: same row and neighbouring columns, or
/// same column and neighbouring rows. No wraparound: positions in different
/// rows are never horizontal neighbours.
pub open spec fn adjacent(width: usize, a: int, b: int) -> bool {
    ||| (row_of(width, a) == row_of(width, b) && (col_of(width, a) - col_of(width, b) == 1
        || col_of(width, b) - col_of(width, a) == 1))
    ||| (col_of(width, a) == col_of(width, b) && (row_of(width, a) - row_of(width, b) == 1
        || row_of(width, b) - row_of(width, a) == 1))
}

/// A cell is eligible as a next-step candidate: neither excluded from the
/// maze nor already carved.
pub open spec fn eligible(cells: Seq<CellState>, idx: int) -> bool {
    &&& !cells[idx].closed
    &&& !cells[idx].linked
}

/// A candidate list entry that is present only under a condition.
pub open spec fn candidate_if(cond: bool, idx: int) -> Seq<usize> {
    if cond {
        seq![idx as usize]
    } else {
        Seq::empty()
    }
}

/// The ordered candidate list for one step from `curr`: up, left, right,
/// down. Each direction requires the neighbour to exist in that direction,
/// to be neither closed nor linked, and — for up and left — to have a
/// linear index strictly below `curr` (a deliberate directional bias).
pub open spec fn spec_neighbours(m: MazeModel, curr: usize) -> Seq<usize> {
    let row = row_of(m.width, curr as int);
    let col = col_of(m.width, curr as int);
    let up = curr - m.width;
    let left = curr - 1;
    let right = curr + 1;
    let down = curr + m.width;
    candidate_if(row > 0 && up < curr && eligible(m.cells, up), up) + candidate_if(
        col > 0 && left < curr && eligible(m.cells, left),
        left,
    ) + candidate_if(col + 1 < m.width && eligible(m.cells, right), right) + candidate_if(
        row + 1 < m.height && eligible(m.cells, down),
        down,
    )
}

/// A cell with a passage carved on the given sides and the `Linked` mark set;
/// flags are only added, never cleared.
pub open spec fn carved(c: CellState, top: bool, left: bool, right: bool, bottom: bool) -> CellState {
    CellState {
        top: c.top || top,
        left: c.left || left,
        right: c.right || right,
        bottom: c.bottom || bottom,
        linked: true,
        ..c
    }
}

/// The grid after linking `curr` and `next`: the paired opposite direction
/// flags are set on the two cells according to their relative position, both
/// are marked `Linked`, and every other cell is untouched.
pub open spec fn link_cells(m: MazeModel, curr: usize, next: usize) -> Seq<CellState> {
    let row = row_of(m.width, curr as int);
    let col = col_of(m.width, curr as int);
    let n_row = row_of(m.width, next as int);
    let n_col = col_of(m.width, next as int);
    let c = m.cells[curr as int];
    let n = m.cells[next as int];
    if row > n_row {
        m.cells.update(curr as int, carved(c, true, false, false, false)).update(
            next as int,
            carved(n, false, false, false, true),
        )
    } else if col > n_col {
        m.cells.update(curr as int, carved(c, false, true, false, false)).update(
            next as int,
            carved(n, false, false, true, false),
        )
    } else if col < n_col {
        m.cells.update(curr as int, carved(c, false, false, true, false)).update(
            next as int,
            carved(n, false, true, false, false),
        )
    } else if row < n_row {
        m.cells.update(curr as int, carved(c, false, false, false, true)).update(
            next as int,
            carved(n, true, false, false, false),
        )
    } else {
        m.cells
    }
}

/// One generation step. While the fallback pool is non-empty: if the cursor
/// has candidates, the pick (reduced by remainder) selects one, the pair is
/// linked and the cursor moves there; otherwise the cursor jumps to the last
/// pool entry, which is removed. With an empty pool the engine is inert.
pub open spec fn spec_step(m: MazeModel, pick: usize) -> MazeModel {
    if m.unvisited.len() > 0 {
        let ns = spec_neighbours(m, m.current);
        if ns.len() > 0 {
            let chosen = ns[pick as int % ns.len() as int];
            MazeModel { cells: link_cells(m, m.current, chosen), current: chosen, ..m }
        } else {
            MazeModel { current: m.unvisited.last(), unvisited: m.unvisited.drop_last(), ..m }
        }
    } else {
        m
    }
}

/// The engine after one step per entry of `picks`, in order.
pub open spec fn spec_run(m: MazeModel, picks: Seq<usize>) -> MazeModel
    decreases picks.len(),
{
    if picks.len() == 0 {
        m
    } else {
        spec_run(spec_step(m, picks.first()), picks.drop_first())
    }
}

/// A tick: one step per entry of `picks`, then the step counter advanced by
/// the number of steps taken.
pub open spec fn spec_tick(m: MazeModel, picks: Seq<usize>) -> MazeModel {
    let r = spec_run(m, picks);
    MazeModel { time: (m.time + picks.len()) as usize, ..r }
}

/// A linear index decomposes into its row and column: `idx == row * width +
/// col` with the column inside the row.
pub proof fn lemma_row_col(width: usize, idx: int)
    requires
        0 < width,
        0 <= idx,
    ensures
        idx == row_of(width, idx) * width + col_of(width, idx),
        0 <= col_of(width, idx) < width,
        0 <= row_of(width, idx),
{
    vstd::arithmetic::div_mod::lemma_fundamental_div_mod(idx, width as int);
    vstd::arithmetic::div_mod::lemma_mod_division_less_than_divisor(idx, width as int);
    vstd::arithmetic::div_mod::lemma_div_pos_is_pos(idx, width as int);
    vstd::arithmetic::mul::lemma_mul_is_commutative(width as int, row_of(width, idx));
}

/// Row and column recover the linear index they came from.
pub proof fn lemma_row_col_converse(width: usize, row: int, col: int)
    requires
        0 < width,
        0 <= row,
        0 <= col < width,
    ensures
        row_of(width, row * width + col) == row,
        col_of(width, row * width + col) == col,
        0 <= row * width + col,
{
    vstd::arithmetic::div_mod::lemma_fundamental_div_mod_converse(
        row * width + col,
        width as int,
        row,
        col,
    );
    vstd::arithmetic::mul::lemma_mul_nonnegative(row, width as int);
}

/// A position strictly inside the grid has a linear index strictly inside the
/// cell sequence.
pub proof fn lemma_index_in_bounds(width: usize, height: usize, row: int, col: int)
    requires
        0 < width,
        0 <= row < height,
        0 <= col < width,
    ensures
        0 <= row * width + col < width * height,
{
    vstd::arithmetic::mul::lemma_mul_nonnegative(row, width as int);
    assert(row * width + col < width * height) by (nonlinear_arith)
        requires
            0 < width,
            0 <= row < height,
            0 <= col < width,
    ;
}

/// Every candidate the neighbour query returns is in bounds, eligible
/// (neither closed nor linked), adjacent to the cursor, and distinct from it.
/// In particular a closed cell is never selected as a candidate.
pub proof fn lemma_neighbours_sound(m: MazeModel, curr: usize)
    requires
        m.wf(),
        (curr as int) < m.cells.len(),
    ensures
        forall|k: int|
            0 <= k < spec_neighbours(m, curr).len() ==> {
                let j = #[trigger] spec_neighbours(m, curr)[k] as int;
                &&& 0 <= j < m.cells.len()
                &&& eligible(m.cells, j)
                &&& adjacent(m.width, curr as int, j)
                &&& j != curr as int
            },
{
    let row = row_of(m.width, curr as int);
    let col = col_of(m.width, curr as int);
    lemma_row_col(m.width, curr as int);
    assert(row < m.height) by (nonlinear_arith)
        requires
            0 < m.width,
            0 <= col,
            curr as int == row * m.width + col,
            (curr as int) < m.width * m.height,
    ;
    if row > 0 {
        lemma_row_col_converse(m.width, row - 1, col);
        lemma_index_in_bounds(m.width, m.height, row - 1, col);
        assert(curr - m.width == (row - 1) * m.width + col) by (nonlinear_arith)
            requires
                curr as int == row * m.width + col,
        ;
    }
    if col > 0 {
        lemma_row_col_converse(m.width, row, col - 1);
        lemma_index_in_bounds(m.width, m.height, row, col - 1);
    }
    if col + 1 < m.width {
        lemma_row_col_converse(m.width, row, col + 1);
        lemma_index_in_bounds(m.width, m.height, row, col + 1);
    }
    if row + 1 < m.height {
        lemma_row_col_converse(m.width, row + 1, col);
        lemma_index_in_bounds(m.width, m.height, row + 1, col);
        assert(curr + m.width == (row + 1) * m.width + col) by (nonlinear_arith)
            requires
                curr as int == row * m.width + col,
        ;
    }
    let ns = spec_neighbours(m, curr);
    let up = curr - m.width;
    let left = curr - 1;
    let right = curr + 1;
    let down = curr + m.width;
    let a = candidate_if(row > 0 && up < curr && eligible(m.cells, up), up);
    let b = candidate_if(col > 0 && left < curr && eligible(m.cells, left), left);
    let c = candidate_if(col + 1 < m.width && eligible(m.cells, right), right);
    let d = candidate_if(row + 1 < m.height && eligible(m.cells, down), down);
    assert(ns == a + b + c + d);
    assert forall|k: int| 0 <= k < ns.len() implies {
        let j = #[trigger] ns[k] as int;
        &&& 0 <= j < m.cells.len()
        &&& eligible(m.cells, j)
        &&& adjacent(m.width, curr as int, j)
        &&& j != curr as int
    } by {
        let ab = a + b;
        let abc = a + b + c;
        assert(ns[k] == (abc + d)[k]);
        if k < a.len() {
            assert(row > 0 && up < curr && eligible(m.cells, up));
            assert((abc + d)[k] == abc[k]);
            assert(abc[k] == ab[k]);
            assert(ab[k] == a[k]);
            assert(0 <= up <= usize::MAX);
            assert(ns[k] as int == up);
            assert(row_of(m.width, up) == row - 1 && col_of(m.width, up) == col);
        } else if k < ab.len() {
            assert(col > 0 && left < curr && eligible(m.cells, left));
            assert((abc + d)[k] == abc[k]);
            assert(abc[k] == ab[k]);
            assert(ab[k] == b[k - a.len()]);
            assert(0 <= left <= usize::MAX);
            assert(ns[k] as int == left);
            assert(row * m.width + (col - 1) == left);
            assert(row_of(m.width, left) == row && col_of(m.width, left) == col - 1);
        } else if k < abc.len() {
            assert(col + 1 < m.width && eligible(m.cells, right));
            assert((abc + d)[k] == abc[k]);
            assert(abc[k] == c[k - ab.len()]);
            assert(right < m.cells.len());
            assert(0 <= right <= usize::MAX);
            assert(ns[k] as int == right);
            assert(row * m.width + (col + 1) == right);
            assert(row_of(m.width, right) == row && col_of(m.width, right) == col + 1);
        } else {
            assert(row + 1 < m.height && eligible(m.cells, down));
            assert((abc + d)[k] == d[k - abc.len()]);
            assert(down < m.cells.len());
            assert(0 <= down <= usize::MAX);
            assert(ns[k] as int == down);
            assert(row_of(m.width, down) == row + 1 && col_of(m.width, down) == col);
        }
    }
}

/// A step leaves a well-formed engine well-formed.
pub proof fn lemma_step_wf(m: MazeModel, pick: usize)
    requires
        m.wf(),
    ensures
        spec_step(m, pick).wf(),
{
    if m.unvisited.len() > 0 {
        let ns = spec_neighbours(m, m.current);
        if ns.len() > 0 {
            lemma_neighbours_sound(m, m.current);
            vstd::arithmetic::div_mod::lemma_mod_division_less_than_divisor(
                pick as int,
                ns.len() as int,
            );
            assert(spec_step(m, pick).cells.len() == m.cells.len());
        }
    }
}

/// Running a pick sequence preserves well-formedness.
pub proof fn lemma_run_wf(m: MazeModel, picks: Seq<usize>)
    requires
        m.wf(),
    ensures
        spec_run(m, picks).wf(),
    decreases picks.len(),
{
    if picks.len() > 0 {
        lemma_step_wf(m, picks.first());
        lemma_run_wf(spec_step(m, picks.first()), picks.drop_first());
    }
}

/// Appending one pick to a run is one more step after the run.
pub proof fn lemma_run_snoc(m: MazeModel, picks: Seq<usize>, pick: usize)
    ensures
        spec_run(m, picks.push(pick)) == spec_step(spec_run(m, picks), pick),
    decreases picks.len(),
{
    let s = picks.push(pick);
    if picks.len() == 0 {
        assert(s.first() == pick);
        assert(s.drop_first() =~= Seq::<usize>::empty());
        assert(spec_run(m, s) == spec_run(spec_step(m, pick), s.drop_first()));
        assert(spec_run(spec_step(m, pick), s.drop_first()) == spec_step(m, pick));
        assert(spec_run(m, picks) == m);
    } else {
        assert(s.first() == picks.first());
        assert(s.drop_first() =~= picks.drop_first().push(pick));
        lemma_run_snoc(spec_step(m, picks.first()), picks.drop_first(), pick);
        assert(spec_run(m, s) == spec_run(spec_step(m, s.first()), s.drop_first()));
        assert(spec_run(m, picks) == spec_run(spec_step(m, picks.first()), picks.drop_first()));
    }
}

/// Whether the classifier marks cell `i` open: the sum of the first three of
/// its four samples exceeds the threshold.
pub open spec fn selectable(dat: Seq<u8>, i: int) -> bool {
    dat[4 * i] + dat[4 * i + 1] + dat[4 * i + 2] > SELECT_THRESHOLD
}

/// The ordered list of selectable cell indices among the first `n` cells.
pub open spec fn spec_selectables(dat: Seq<u8>, n: int) -> Seq<usize>
    decreases n,
{
    if n <= 0 {
        Seq::empty()
    } else {
        spec_selectables(dat, n - 1) + candidate_if(selectable(dat, n - 1), n - 1)
    }
}

/// The freshly constructed engine: every cell closed or open by
/// classification, the fallback pool holding every index in order, the step
/// counter at one, and the cursor on the selectable cell the pick chooses.
pub open spec fn spec_new(dat: Seq<u8>, sz: usize, pick: usize) -> MazeModel {
    let n = sz as int * sz as int;
    let sel = spec_selectables(dat, n);
    MazeModel {
        width: sz,
        height: sz,
        time: 1,
        cells: Seq::new(n as nat, |i: int| CellState::spec_initial(selectable(dat, i))),
        unvisited: Seq::new(n as nat, |i: int| i as usize),
        current: sel[pick as int % sel.len() as int],
    }
}

} // verus!

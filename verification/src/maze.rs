use vstd::prelude::*;
use crate::cell::CellState;
use crate::model::{
    MazeModel, adjacent, candidate_if, col_of, eligible, lemma_neighbours_sound, lemma_row_col,
    lemma_index_in_bounds, lemma_run_snoc, lemma_step_wf, link_cells, row_of, selectable,
    spec_neighbours, spec_new, spec_run, spec_selectables, spec_step, spec_tick,
    SELECT_THRESHOLD,
};

verus! {

/// Why construction was refused.
#[derive(Clone, Copy, Debug, PartialEq, Eq, Structural)]
pub enum MazeError {
    /// The sample buffer holds fewer than four samples per cell.
    BufferTooShort,
    /// No cell passed the brightness threshold, so no start can be chosen.
    NoSelectableCell,
}

/// The maze engine: a square grid of cell states, the traversal cursor, the
/// fallback pool of indices, and a step counter for progress reporting.
pub struct Mazm {
    pub width: usize,
    pub height: usize,
    pub time: usize,
    pub cells: Vec<CellState>,
    pub unvisited: Vec<usize>,
    pub current: usize,
}

impl View for Mazm {
    type V = MazeModel;

    open spec fn view(&self) -> MazeModel {
        MazeModel {
            width: self.width,
            height: self.height,
            time: self.time,
            cells: self.cells@,
            unvisited: self.unvisited@,
            current: self.current,
        }
    }
}

impl Mazm {
    /// The row and column of a linear grid index.
    fn get_row_col(&self, idx: usize) -> (rc: (usize, usize))
        requires
            self@.wf(),
        ensures
            rc.0 as int == row_of(self@.width, idx as int),
            rc.1 as int == col_of(self@.width, idx as int),
    {
        (idx / self.width, idx % self.width)
    }

    /// The linear grid index of a row and column inside the grid.
    fn get_index(&self, row: usize, col: usize) -> (idx: usize)
        requires
            self@.wf(),
            (row as int) < self@.height,
            (col as int) < self@.width,
        ensures
            idx as int == row * self@.width + col,
            (idx as int) < self@.cells.len(),
    {
        proof {
            lemma_index_in_bounds(self.width, self.height, row as int, col as int);
        }
        row * self.width + col
    }

    /// The ordered candidate list for one step from `curr`: the up, left,
    /// right and down neighbours that exist, are neither closed nor linked,
    /// and — for up and left — lie at a strictly smaller linear index.
    /// Returns an empty list when no neighbour qualifies; reads but never
    /// mutates the grid.
    pub fn get_neighbours(&self, curr: usize) -> (r: Vec<usize>)
        requires
            self@.wf(),
            (curr as int) < self@.cells.len(),
        ensures
            r@ == spec_neighbours(self@, curr),
    {
        let mut neighbours: Vec<usize> = Vec::new();
        let (row, col) = self.get_row_col(curr);
        proof {
            lemma_row_col(self@.width, curr as int);
            assert(row_of(self@.width, curr as int) < self@.height) by (nonlinear_arith)
                requires
                    0 < self@.width,
                    0 <= col_of(self@.width, curr as int),
                    curr as int == row_of(self@.width, curr as int) * self@.width + col_of(
                        self@.width,
                        curr as int,
                    ),
                    (curr as int) < self@.width * self@.height,
            ;
        }
        let ghost a = candidate_if(
            row_of(self@.width, curr as int) > 0 && curr - self@.width < curr && eligible(
                self@.cells,
                curr - self@.width,
            ),
            curr - self@.width,
        );
        let ghost b = candidate_if(
            col_of(self@.width, curr as int) > 0 && curr - 1 < curr && eligible(
                self@.cells,
                curr - 1,
            ),
            curr - 1,
        );
        let ghost c = candidate_if(
            col_of(self@.width, curr as int) + 1 < self@.width && eligible(self@.cells, curr + 1),
            curr + 1,
        );
        let ghost d = candidate_if(
            row_of(self@.width, curr as int) + 1 < self@.height && eligible(
                self@.cells,
                curr + self@.width,
            ),
            curr + self@.width,
        );

        if row > 0 {
            let idx = self.get_index(row - 1, col);
            proof {
                assert((row - 1) * self@.width == row * self@.width - self@.width)
                    by (nonlinear_arith);
            }
            if curr > idx && !self.cells[idx].closed && !self.cells[idx].linked {
                neighbours.push(idx);
            }
        }
        proof {
            assert(neighbours@ =~= a);
        }

        if col > 0 {
            let idx = self.get_index(row, col - 1);
            if curr > idx && !self.cells[idx].closed && !self.cells[idx].linked {
                neighbours.push(idx);
            }
        }
        proof {
            assert(neighbours@ =~= a + b);
        }

        if col + 1 < self.width {
            let idx = self.get_index(row, col + 1);
            if !self.cells[idx].closed && !self.cells[idx].linked {
                neighbours.push(idx);
            }
        }
        proof {
            assert(neighbours@ =~= a + b + c);
        }

        if row + 1 < self.height {
            let idx = self.get_index(row + 1, col);
            proof {
                assert((row + 1) * self@.width == row * self@.width + self@.width)
                    by (nonlinear_arith);
            }
            if !self.cells[idx].closed && !self.cells[idx].linked {
                neighbours.push(idx);
            }
        }
        proof {
            assert(neighbours@ =~= a + b + c + d);
            assert(neighbours@ =~= spec_neighbours(self@, curr));
        }

        neighbours
    }

    /// Link two grid-adjacent cells: set the paired opposite direction flags
    /// according to their relative position and mark both `Linked`. Flags are
    /// only OR-ed in, so linking the same pair again changes nothing, and no
    /// other cell or engine field is touched. Adjacency is a precondition and
    /// is not re-validated.
    pub fn link(&mut self, curr: usize, next: usize)
        requires
            old(self)@.wf(),
            (curr as int) < old(self)@.cells.len(),
            (next as int) < old(self)@.cells.len(),
            adjacent(old(self)@.width, curr as int, next as int),
        ensures
            final(self)@ == (MazeModel { cells: link_cells(old(self)@, curr, next), ..old(self)@ }),
            final(self)@.wf(),
    {
        let (row, col) = self.get_row_col(curr);
        let (n_row, n_col) = self.get_row_col(next);

        if row > n_row {
            let mut c = self.cells[curr];
            c.top = true;
            c.linked = true;
            self.cells[curr] = c;
            let mut n = self.cells[next];
            n.bottom = true;
            n.linked = true;
            self.cells[next] = n;
        }

        if col > n_col {
            let mut c = self.cells[curr];
            c.left = true;
            c.linked = true;
            self.cells[curr] = c;
            let mut n = self.cells[next];
            n.right = true;
            n.linked = true;
            self.cells[next] = n;
        }

        if col < n_col {
            let mut c = self.cells[curr];
            c.right = true;
            c.linked = true;
            self.cells[curr] = c;
            let mut n = self.cells[next];
            n.left = true;
            n.linked = true;
            self.cells[next] = n;
        }

        if row < n_row {
            let mut c = self.cells[curr];
            c.bottom = true;
            c.linked = true;
            self.cells[curr] = c;
            let mut n = self.cells[next];
            n.top = true;
            n.linked = true;
            self.cells[next] = n;
        }

        proof {
            assert(self@.cells =~= link_cells(old(self)@, curr, next));
            assert(self@ =~= (MazeModel {
                cells: link_cells(old(self)@, curr, next),
                ..old(self)@
            }));
        }
    }

    /// One generation step (the growing-tree step). While the fallback pool
    /// is non-empty: if the cursor has candidates, `pick` (reduced by
    /// remainder) selects one, the pair is linked and the cursor moves there;
    /// otherwise the cursor jumps to the last pool entry, which is removed.
    /// With an empty pool the engine is inert and nothing changes.
    pub fn step(&mut self, pick: usize)
        requires
            old(self)@.wf(),
        ensures
            final(self)@ == spec_step(old(self)@, pick),
            final(self)@.wf(),
    {
        proof {
            lemma_step_wf(old(self)@, pick);
        }
        if self.unvisited.len() > 0 {
            let curr = self.current;
            let neighbours = self.get_neighbours(curr);
            if neighbours.len() > 0 {
                proof {
                    lemma_neighbours_sound(self@, curr);
                }
                let neighbour = neighbours[pick % neighbours.len()];
                self.link(curr, neighbour);
                self.current = neighbour;
                proof {
                    assert(self@ =~= spec_step(old(self)@, pick));
                }
            } else {
                let unv = self.unvisited.pop();
                match unv {
                    Some(x) => {
                        self.current = x;
                    },
                    None => {},
                }
                proof {
                    assert(self@ =~= spec_step(old(self)@, pick));
                }
            }
        }
    }

    /// The number of selectable cells the classifier finds in a sample
    /// buffer for side length `sz`: how many cells have their first three
    /// samples summing above the threshold. A caller choosing a start at
    /// random draws below this count and hands the draw to `new`. Fails if
    /// and only if the buffer is shorter than `4 * sz * sz`.
    pub fn selectable_count(dat: &Vec<u8>, sz: usize) -> (r: Result<usize, MazeError>)
        ensures
            ({
                let n = sz as int * sz as int;
                match r {
                    Ok(count) => dat@.len() >= 4 * n && count == spec_selectables(dat@, n).len(),
                    Err(MazeError::BufferTooShort) => dat@.len() < 4 * n,
                    Err(MazeError::NoSelectableCell) => false,
                }
            }),
    {
        let buf_len = dat.len();
        let n = match sz.checked_mul(sz) {
            Some(v) => v,
            None => {
                return Err(MazeError::BufferTooShort);
            },
        };
        let need = match n.checked_mul(4) {
            Some(v) => v,
            None => {
                return Err(MazeError::BufferTooShort);
            },
        };
        if buf_len < need {
            return Err(MazeError::BufferTooShort);
        }

        let mut count: usize = 0;
        let mut i: usize = 0;
        while i < n
            invariant
                n == sz as int * sz as int,
                4 * (n as int) <= dat@.len(),
                4 * (n as int) <= usize::MAX,
                i <= n,
                count <= i,
                count == spec_selectables(dat@, i as int).len(),
            decreases n - i,
        {
            let base = 4 * i;
            let sum = dat[base] as usize + dat[base + 1] as usize + dat[base + 2] as usize;
            if sum > SELECT_THRESHOLD {
                count = count + 1;
            }
            proof {
                assert(spec_selectables(dat@, i + 1) == spec_selectables(dat@, i as int)
                    + candidate_if(selectable(dat@, i as int), i as int));
            }
            i = i + 1;
        }
        Ok(count)
    }

    /// Construct an engine from a flat sample buffer (four samples per cell,
    /// row-major) and a grid side length. A cell whose first three samples
    /// sum above the threshold is open and selectable; every other cell is
    /// closed. The cursor starts on the selectable cell that `pick` chooses
    /// (reduced by remainder), so a single selectable cell needs no
    /// particular pick. Construction fails if and only if the buffer is
    /// shorter than `4 * sz * sz` or no cell is selectable; it never reads
    /// out of bounds.
    pub fn new(dat: &Vec<u8>, sz: usize, pick: usize) -> (r: Result<Mazm, MazeError>)
        ensures
            ({
                let n = sz as int * sz as int;
                let sel = spec_selectables(dat@, n);
                match r {
                    Ok(m) => {
                        &&& dat@.len() >= 4 * n
                        &&& sel.len() > 0
                        &&& m@ == spec_new(dat@, sz, pick)
                        &&& m@.wf()
                    },
                    Err(MazeError::BufferTooShort) => dat@.len() < 4 * n,
                    Err(MazeError::NoSelectableCell) => dat@.len() >= 4 * n && sel.len() == 0,
                }
            }),
    {
        let buf_len = dat.len();
        let n = match sz.checked_mul(sz) {
            Some(v) => v,
            None => {
                return Err(MazeError::BufferTooShort);
            },
        };
        let need = match n.checked_mul(4) {
            Some(v) => v,
            None => {
                return Err(MazeError::BufferTooShort);
            },
        };
        if buf_len < need {
            return Err(MazeError::BufferTooShort);
        }

        let mut cells: Vec<CellState> = Vec::new();
        let mut unvisited: Vec<usize> = Vec::new();
        let mut selectables: Vec<usize> = Vec::new();
        let mut i: usize = 0;
        while i < n
            invariant
                n == sz as int * sz as int,
                4 * (n as int) <= dat@.len(),
                4 * (n as int) <= usize::MAX,
                i <= n,
                cells@.len() == i,
                forall|j: int|
                    0 <= j < i ==> cells@[j] == CellState::spec_initial(selectable(dat@, j)),
                unvisited@.len() == i,
                forall|j: int| 0 <= j < i ==> unvisited@[j] == j as usize,
                selectables@ == spec_selectables(dat@, i as int),
                forall|k: int|
                    0 <= k < selectables@.len() ==> (selectables@[k] as int) < i,
            decreases n - i,
        {
            let base = 4 * i;
            let sum = dat[base] as usize + dat[base + 1] as usize + dat[base + 2] as usize;
            if sum > SELECT_THRESHOLD {
                cells.push(CellState::initial(true));
                selectables.push(i);
            } else {
                cells.push(CellState::initial(false));
            }
            unvisited.push(i);
            proof {
                assert(spec_selectables(dat@, i + 1) == spec_selectables(dat@, i as int)
                    + candidate_if(selectable(dat@, i as int), i as int));
                assert(selectables@ =~= spec_selectables(dat@, i + 1));
            }
            i = i + 1;
        }

        if selectables.len() == 0 {
            return Err(MazeError::NoSelectableCell);
        }
        let current = selectables[pick % selectables.len()];
        let m = Mazm { width: sz, height: sz, time: 1, cells, unvisited, current };
        proof {
            let target = spec_new(dat@, sz, pick);
            assert(m@.cells =~= target.cells);
            assert(m@.unvisited =~= target.unvisited);
            vstd::arithmetic::div_mod::lemma_mod_division_less_than_divisor(
                pick as int,
                selectables@.len() as int,
            );
            assert(m@ =~= target);
            assert(sz > 0);
        }
        Ok(m)
    }

    /// Advance the generation by one step per entry of `picks`, in order,
    /// then advance the step counter by the number of steps taken. An empty
    /// `picks` is a valid no-op that changes nothing.
    pub fn tick(&mut self, picks: &Vec<usize>)
        requires
            old(self)@.wf(),
            old(self)@.time + picks@.len() <= usize::MAX,
        ensures
            final(self)@ == spec_tick(old(self)@, picks@),
            final(self)@.wf(),
    {
        let mut i: usize = 0;
        while i < picks.len()
            invariant
                self@.wf(),
                i <= picks@.len(),
                old(self)@.wf(),
                old(self)@.time + picks@.len() <= usize::MAX,
                self@.time == old(self)@.time,
                self@ == spec_run(old(self)@, picks@.take(i as int)),
            decreases picks@.len() - i,
        {
            proof {
                assert(picks@.take(i as int).push(picks@[i as int]) =~= picks@.take(i + 1));
                lemma_run_snoc(old(self)@, picks@.take(i as int), picks@[i as int]);
            }
            self.step(picks[i]);
            i = i + 1;
        }
        proof {
            assert(picks@.take(picks@.len() as int) =~= picks@);
            assert(self@.time == old(self)@.time);
        }
        self.time = self.time + picks.len();
        proof {
            assert(self@ =~= spec_tick(old(self)@, picks@));
        }
    }
}

} // verus!

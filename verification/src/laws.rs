use vstd::prelude::*;
use crate::cell::CellState;
use crate::model::{
    MazeModel, adjacent, carved, col_of, eligible, lemma_neighbours_sound, link_cells, row_of,
    spec_neighbours, spec_run, spec_step, spec_tick,
};
use crate::render::spec_render;

verus! {

/// Every closed cell is bare: no passage flag and no `Linked` mark.
pub open spec fn closed_cells_bare(cells: Seq<CellState>) -> bool {
    forall|i: int|
        0 <= i < cells.len() && (#[trigger] cells[i]).closed ==> !cells[i].top && !cells[i].left
            && !cells[i].right && !cells[i].bottom && !cells[i].linked
}

/// The cursor and every fallback-pool entry sit on non-closed cells.
pub open spec fn cursor_and_pool_open(m: MazeModel) -> bool {
    &&& !m.cells[m.current as int].closed
    &&& forall|k: int|
        0 <= k < m.unvisited.len() ==> !m.cells[#[trigger] m.unvisited[k] as int].closed
}

/// How many cells carry the `Linked` mark.
pub open spec fn linked_count(cells: Seq<CellState>) -> nat
    decreases cells.len(),
{
    if cells.len() == 0 {
        0
    } else {
        linked_count(cells.drop_last()) + if cells.last().linked {
            1nat
        } else {
            0nat
        }
    }
}

/// How many cells do not yet carry the `Linked` mark.
pub open spec fn unlinked_count(cells: Seq<CellState>) -> nat
    decreases cells.len(),
{
    if cells.len() == 0 {
        0
    } else {
        unlinked_count(cells.drop_last()) + if cells.last().linked {
            0nat
        } else {
            1nat
        }
    }
}

/// The measure that every state-changing step strictly decreases: pool
/// entries still to pop plus cells still to link.
pub open spec fn remaining_work(m: MazeModel) -> nat {
    m.unvisited.len() + unlinked_count(m.cells)
}

/// A grid with no `Linked` mark anywhere has every cell unlinked.
pub proof fn lemma_all_unlinked(cells: Seq<CellState>)
    requires
        forall|i: int| 0 <= i < cells.len() ==> !(#[trigger] cells[i]).linked,
    ensures
        unlinked_count(cells) == cells.len(),
    decreases cells.len(),
{
    if cells.len() > 0 {
        assert forall|i: int| 0 <= i < cells.drop_last().len() implies !(#[trigger] cells.drop_last()[
            i
        ]).linked by {
            assert(cells.drop_last()[i] == cells[i]);
        }
        lemma_all_unlinked(cells.drop_last());
    }
}

/// Pointwise monotone `Linked` marks keep the linked count from falling and
/// the unlinked count from rising.
pub proof fn lemma_count_monotone(a: Seq<CellState>, b: Seq<CellState>)
    requires
        a.len() == b.len(),
        forall|i: int| 0 <= i < a.len() ==> ((#[trigger] a[i]).linked ==> (#[trigger] b[i]).linked),
    ensures
        linked_count(a) <= linked_count(b),
        unlinked_count(b) <= unlinked_count(a),
    decreases a.len(),
{
    if a.len() > 0 {
        assert forall|i: int|
            0 <= i < a.drop_last().len() implies ((#[trigger] a.drop_last()[i]).linked ==> (
        #[trigger] b.drop_last()[i]).linked) by {
            assert(a.drop_last()[i] == a[i]);
            assert(b.drop_last()[i] == b[i]);
        }
        lemma_count_monotone(a.drop_last(), b.drop_last());
        assert(a.last() == a[a.len() - 1]);
        assert(b.last() == b[a.len() - 1]);
    }
}

/// If on top of that one cell flips from unlinked to linked, the unlinked
/// count strictly falls.
pub proof fn lemma_count_strict(a: Seq<CellState>, b: Seq<CellState>, j: int)
    requires
        a.len() == b.len(),
        forall|i: int| 0 <= i < a.len() ==> ((#[trigger] a[i]).linked ==> (#[trigger] b[i]).linked),
        0 <= j < a.len(),
        !a[j].linked,
        b[j].linked,
    ensures
        unlinked_count(b) < unlinked_count(a),
    decreases a.len(),
{
    assert forall|i: int|
        0 <= i < a.drop_last().len() implies ((#[trigger] a.drop_last()[i]).linked ==> (
    #[trigger] b.drop_last()[i]).linked) by {
        assert(a.drop_last()[i] == a[i]);
        assert(b.drop_last()[i] == b[i]);
    }
    if j == a.len() - 1 {
        lemma_count_monotone(a.drop_last(), b.drop_last());
        assert(a.last() == a[j]);
        assert(b.last() == b[j]);
    } else {
        lemma_count_strict(a.drop_last(), b.drop_last(), j);
        assert(a.last() == a[a.len() - 1]);
        assert(b.last() == b[a.len() - 1]);
    }
}

/// One step never clears a `Linked` mark: the grid keeps its size and every
/// cell linked before is linked after.
pub proof fn lemma_step_linked_monotone(m: MazeModel, pick: usize)
    requires
        m.wf(),
    ensures
        spec_step(m, pick).cells.len() == m.cells.len(),
        forall|i: int|
            0 <= i < m.cells.len() ==> ((#[trigger] m.cells[i]).linked ==> (#[trigger] spec_step(
                m,
                pick,
            ).cells[i]).linked),
{
    if m.unvisited.len() > 0 {
        let ns = spec_neighbours(m, m.current);
        if ns.len() > 0 {
            lemma_neighbours_sound(m, m.current);
            vstd::arithmetic::div_mod::lemma_mod_division_less_than_divisor(
                pick as int,
                ns.len() as int,
            );
        }
    }
}

/// The number of cells with `Linked` set never decreases across any number
/// of steps, and in particular across any `tick`.
pub proof fn lemma_linked_never_decreases(m: MazeModel, picks: Seq<usize>)
    requires
        m.wf(),
    ensures
        spec_run(m, picks).cells.len() == m.cells.len(),
        linked_count(m.cells) <= linked_count(spec_run(m, picks).cells),
        spec_tick(m, picks).cells == spec_run(m, picks).cells,
    decreases picks.len(),
{
    if picks.len() > 0 {
        let m1 = spec_step(m, picks.first());
        lemma_step_linked_monotone(m, picks.first());
        crate::model::lemma_step_wf(m, picks.first());
        lemma_count_monotone(m.cells, m1.cells);
        lemma_linked_never_decreases(m1, picks.drop_first());
    }
}

/// Linking is mutual. After one link of adjacent `curr` and `next`, both
/// carry `Linked`; exactly one axis pair is set, matching their relative
/// position — the cell in the lower row gains `Bottom` and the one below it
/// `Top`, the cell in the lower column gains `Right` and its right neighbour
/// `Left` — no other flag of the two cells changes, and no other cell
/// changes at all.
pub proof fn lemma_link_mutual(m: MazeModel, curr: usize, next: usize)
    requires
        m.wf(),
        (curr as int) < m.cells.len(),
        (next as int) < m.cells.len(),
        adjacent(m.width, curr as int, next as int),
    ensures
        ({
            let r = link_cells(m, curr, next);
            let c0 = m.cells[curr as int];
            let n0 = m.cells[next as int];
            &&& r.len() == m.cells.len()
            &&& curr != next
            &&& r[curr as int].linked
            &&& r[next as int].linked
            &&& forall|i: int|
                0 <= i < r.len() && i != curr && i != next ==> #[trigger] r[i] == m.cells[i]
            &&& (row_of(m.width, curr as int) == row_of(m.width, next as int) + 1 ==> r[curr as int]
                == carved(c0, true, false, false, false) && r[next as int] == carved(
                n0,
                false,
                false,
                false,
                true,
            ))
            &&& (row_of(m.width, next as int) == row_of(m.width, curr as int) + 1 ==> r[curr as int]
                == carved(c0, false, false, false, true) && r[next as int] == carved(
                n0,
                true,
                false,
                false,
                false,
            ))
            &&& (col_of(m.width, curr as int) == col_of(m.width, next as int) + 1 ==> r[curr as int]
                == carved(c0, false, true, false, false) && r[next as int] == carved(
                n0,
                false,
                false,
                true,
                false,
            ))
            &&& (col_of(m.width, next as int) == col_of(m.width, curr as int) + 1 ==> r[curr as int]
                == carved(c0, false, false, true, false) && r[next as int] == carved(
                n0,
                false,
                true,
                false,
                false,
            ))
        }),
{
}

/// Closed cells are never candidates and stay bare through any number of
/// steps, as long as the cursor and every fallback-pool entry sit on
/// non-closed cells; those two conditions maintain themselves. (A freshly
/// constructed engine with closed cells puts every index in the pool, so the
/// proviso there amounts to every cell being selectable.)
pub proof fn lemma_closed_cells_stay_bare_step(m: MazeModel, pick: usize)
    requires
        m.wf(),
        closed_cells_bare(m.cells),
        cursor_and_pool_open(m),
    ensures
        closed_cells_bare(spec_step(m, pick).cells),
        cursor_and_pool_open(spec_step(m, pick)),
        spec_step(m, pick).wf(),
{
    crate::model::lemma_step_wf(m, pick);
    if m.unvisited.len() > 0 {
        let ns = spec_neighbours(m, m.current);
        if ns.len() > 0 {
            lemma_neighbours_sound(m, m.current);
            vstd::arithmetic::div_mod::lemma_mod_division_less_than_divisor(
                pick as int,
                ns.len() as int,
            );
            let chosen = ns[pick as int % ns.len() as int];
            let r = spec_step(m, pick).cells;
            assert(!m.cells[chosen as int].closed);
            assert forall|i: int| 0 <= i < r.len() && (#[trigger] r[i]).closed implies !r[i].top
                && !r[i].left && !r[i].right && !r[i].bottom && !r[i].linked by {
                assert(r[i].closed == m.cells[i].closed);
                assert(!m.cells[m.current as int].closed && !m.cells[chosen as int].closed);
                assert(i != m.current as int && i != chosen as int ==> r[i] == m.cells[i]);
            }
        } else {
            let r = spec_step(m, pick);
            assert forall|k: int|
                0 <= k < r.unvisited.len() implies !r.cells[#[trigger] r.unvisited[k] as int].closed by {
                assert(r.unvisited[k] == m.unvisited[k]);
            }
        }
    }
}

/// Closed cells stay bare across a whole run under the same proviso.
pub proof fn lemma_closed_cells_stay_bare(m: MazeModel, picks: Seq<usize>)
    requires
        m.wf(),
        closed_cells_bare(m.cells),
        cursor_and_pool_open(m),
    ensures
        closed_cells_bare(spec_run(m, picks).cells),
        cursor_and_pool_open(spec_run(m, picks)),
        spec_run(m, picks).wf(),
    decreases picks.len(),
{
    if picks.len() > 0 {
        lemma_closed_cells_stay_bare_step(m, picks.first());
        lemma_closed_cells_stay_bare(spec_step(m, picks.first()), picks.drop_first());
    }
}

/// With a non-empty pool, every step strictly decreases the remaining work:
/// a growth step links a cell that was unlinked, a fallback step pops the
/// pool.
pub proof fn lemma_step_progress(m: MazeModel, pick: usize)
    requires
        m.wf(),
        m.unvisited.len() > 0,
    ensures
        remaining_work(spec_step(m, pick)) < remaining_work(m),
{
    let ns = spec_neighbours(m, m.current);
    if ns.len() > 0 {
        lemma_neighbours_sound(m, m.current);
        vstd::arithmetic::div_mod::lemma_mod_division_less_than_divisor(
            pick as int,
            ns.len() as int,
        );
        let chosen = ns[pick as int % ns.len() as int];
        lemma_step_linked_monotone(m, pick);
        assert(eligible(m.cells, chosen as int));
        assert(spec_step(m, pick).cells[chosen as int].linked);
        lemma_count_strict(m.cells, spec_step(m, pick).cells, chosen as int);
    }
}

/// An engine whose pool is empty is inert: any step returns it unchanged.
pub proof fn lemma_inert_step(m: MazeModel, pick: usize)
    requires
        m.unvisited.len() == 0,
    ensures
        spec_step(m, pick) == m,
{
}

/// An inert engine stays unchanged through any run.
pub proof fn lemma_inert_run(m: MazeModel, picks: Seq<usize>)
    requires
        m.unvisited.len() == 0,
    ensures
        spec_run(m, picks) == m,
    decreases picks.len(),
{
    if picks.len() > 0 {
        lemma_inert_run(m, picks.drop_first());
    }
}

/// A fresh engine's remaining work is exactly twice the cell count: the pool
/// holds every index and no cell is linked yet.
pub proof fn lemma_new_remaining_work(dat: Seq<u8>, sz: usize, pick: usize)
    ensures
        remaining_work(crate::model::spec_new(dat, sz, pick)) == 2 * (sz as nat) * (sz as nat),
{
    let m = crate::model::spec_new(dat, sz, pick);
    assert forall|i: int| 0 <= i < m.cells.len() implies !(#[trigger] m.cells[i]).linked by {
        assert(m.cells[i] == CellState::spec_initial(crate::model::selectable(dat, i)));
    }
    lemma_all_unlinked(m.cells);
    assert(m.unvisited.len() + m.cells.len() == 2 * (sz as nat) * (sz as nat)) by (nonlinear_arith)
        requires
            m.unvisited.len() == sz as int * sz as int,
            m.cells.len() == sz as int * sz as int,
    ;
}

/// Quiescence: after at most `remaining_work` steps — at construction the
/// pool holds every index and no cell is linked, so at most twice the cell
/// count — the pool is exhausted and every further step leaves the engine
/// exactly as it is.
pub proof fn lemma_quiescence(m: MazeModel, picks: Seq<usize>)
    requires
        m.wf(),
        picks.len() >= remaining_work(m),
    ensures
        spec_run(m, picks).unvisited.len() == 0,
        forall|pick: usize| spec_step(spec_run(m, picks), pick) == spec_run(m, picks),
        spec_run(m, picks).wf(),
    decreases picks.len(),
{
    crate::model::lemma_run_wf(m, picks);
    if m.unvisited.len() == 0 {
        lemma_inert_run(m, picks);
        assert forall|pick: usize| spec_step(spec_run(m, picks), pick) == spec_run(m, picks) by {
            lemma_inert_step(m, pick);
        }
    } else {
        lemma_step_progress(m, picks.first());
        crate::model::lemma_step_wf(m, picks.first());
        lemma_quiescence(spec_step(m, picks.first()), picks.drop_first());
    }
}

/// A tick with no picks changes nothing: neither the grid, nor the cursor,
/// nor the pool, nor the step counter.
pub proof fn lemma_tick_empty(m: MazeModel)
    ensures
        spec_tick(m, Seq::empty()) == m,
{
    assert(spec_tick(m, Seq::empty()) =~= m);
}

/// Rendering is idempotent: the rendered string is a function of the engine
/// state alone, so two renderings of one state are identical.
pub proof fn lemma_render_deterministic(m: MazeModel, first: Seq<char>, second: Seq<char>)
    requires
        first == spec_render(m),
        second == spec_render(m),
    ensures
        first == second,
{
}

} // verus!

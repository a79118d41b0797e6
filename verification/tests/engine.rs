use mazm::cell::{Cell, CellState};
use mazm::maze::{MazeError, Mazm};

/// Four samples for one cell that passes the brightness threshold.
fn bright() -> [u8; 4] {
    [255, 255, 255, 0]
}

/// Four samples for one cell that fails the brightness threshold.
fn dark() -> [u8; 4] {
    [0, 0, 0, 0]
}

/// A sample buffer from one four-sample group per cell.
fn buffer(cells: &[[u8; 4]]) -> Vec<u8> {
    let mut dat: Vec<u8> = Vec::new();
    for c in cells {
        dat.extend_from_slice(c);
    }
    dat
}

fn linked_cells(m: &Mazm) -> usize {
    m.cells.iter().filter(|c| c.linked).count()
}

#[test]
fn construct_fails_on_short_buffer() {
    let dat = vec![255u8; 15];
    let r = Mazm::new(&dat, 2, 0);
    assert!(matches!(r, Err(MazeError::BufferTooShort)));
}

#[test]
fn construct_never_reads_past_checked_length() {
    // One byte short of 4 * 3 * 3: rejected before any sample is read.
    let dat = vec![255u8; 35];
    let r = Mazm::new(&dat, 3, 5);
    assert!(matches!(r, Err(MazeError::BufferTooShort)));
}

#[test]
fn construct_fails_without_selectable_cell() {
    let dat = buffer(&[dark(), dark(), dark(), dark()]);
    let r = Mazm::new(&dat, 2, 0);
    assert!(matches!(r, Err(MazeError::NoSelectableCell)));
}

#[test]
fn threshold_is_strict() {
    // 127 + 127 + 128 = 382 is not enough; one more passes.
    let at_threshold = buffer(&[[127, 127, 128, 0]]);
    assert!(matches!(
        Mazm::new(&at_threshold, 1, 0),
        Err(MazeError::NoSelectableCell)
    ));
    let above = buffer(&[[127, 128, 128, 0]]);
    let m = Mazm::new(&above, 1, 0).unwrap();
    assert!(m.cells[0].open && !m.cells[0].closed);
}

#[test]
fn construct_classifies_and_starts_on_picked_cell() {
    let dat = buffer(&[dark(), bright(), dark(), bright()]);
    // Selectable cells are [1, 3]; pick 1 chooses index 3.
    let m = Mazm::new(&dat, 2, 1).unwrap();
    assert_eq!(m.width, 2);
    assert_eq!(m.height, 2);
    assert_eq!(m.time, 1);
    assert_eq!(m.current, 3);
    assert_eq!(m.unvisited, vec![0, 1, 2, 3]);
    assert!(m.cells[0].closed && !m.cells[0].open);
    assert!(m.cells[1].open && !m.cells[1].closed);
    assert!(m.cells[2].closed);
    assert!(m.cells[3].open);
    assert!(m.cells.iter().all(|c| !c.linked));
}

#[test]
fn construct_pick_wraps_around() {
    let dat = buffer(&[bright(), bright(), bright(), bright()]);
    // Four selectable cells; pick 6 wraps to index 2.
    let m = Mazm::new(&dat, 2, 6).unwrap();
    assert_eq!(m.current, 2);
}

#[test]
fn single_selectable_cell_construct_and_stuck_tick() {
    let dat = buffer(&[dark(), dark(), dark(), bright()]);
    // A single-element random choice is well-defined whatever the pick.
    let m = Mazm::new(&dat, 2, 9).unwrap();
    assert_eq!(m.current, 3);
    let before = m.cells.clone();
    let mut m = m;
    m.tick(&vec![0]);
    // No eligible neighbour: the grid is untouched, the cursor jumps to the
    // popped pool entry (the cursor's own index), and only the pool shrank.
    assert_eq!(m.cells, before);
    assert_eq!(m.current, 3);
    assert_eq!(m.unvisited, vec![0, 1, 2]);
    assert_eq!(m.time, 2);
}

#[test]
fn first_step_links_exactly_one_neighbour_of_start() {
    for pick in 0..2usize {
        let dat = buffer(&[bright(), bright(), bright(), bright()]);
        let mut m = Mazm::new(&dat, 2, 0).unwrap();
        assert_eq!(m.current, 0);
        // Cell 0 has two grid-adjacent candidates: 1 (right) and 2 (below).
        m.tick(&vec![pick]);
        let expected = [1usize, 2usize][pick];
        let other = [2usize, 1usize][pick];
        assert_eq!(m.current, expected);
        assert!(m.cells[0].linked);
        assert!(m.cells[expected].linked);
        assert!(!m.cells[other].linked);
        assert!(!m.cells[3].linked);
        if expected == 1 {
            assert!(m.cells[0].right && m.cells[1].left);
            assert!(!m.cells[0].bottom && !m.cells[1].top);
        } else {
            assert!(m.cells[0].bottom && m.cells[2].top);
            assert!(!m.cells[0].right && !m.cells[2].left);
        }
        assert_eq!(m.time, 2);
    }
}

#[test]
fn tick_with_no_picks_changes_nothing() {
    let dat = buffer(&[bright(), bright(), bright(), bright()]);
    let mut m = Mazm::new(&dat, 2, 0).unwrap();
    let cells = m.cells.clone();
    let unvisited = m.unvisited.clone();
    let (current, time) = (m.current, m.time);
    m.tick(&vec![]);
    assert_eq!(m.cells, cells);
    assert_eq!(m.unvisited, unvisited);
    assert_eq!(m.current, current);
    assert_eq!(m.time, time);
}

#[test]
fn linked_count_never_decreases_across_ticks() {
    let dat = buffer(&[
        bright(),
        bright(),
        dark(),
        bright(),
        dark(),
        bright(),
        bright(),
        bright(),
        dark(),
    ]);
    let mut m = Mazm::new(&dat, 3, 0).unwrap();
    let mut last = linked_cells(&m);
    for pick in 0..20usize {
        m.tick(&vec![pick]);
        let now = linked_cells(&m);
        assert!(now >= last);
        last = now;
    }
}

#[test]
fn closed_cells_stay_bare_when_every_cell_is_selectable() {
    let dat = buffer(&[bright(); 9]);
    let mut m = Mazm::new(&dat, 3, 4).unwrap();
    m.tick(&(0..30usize).collect());
    for c in &m.cells {
        assert!(!c.closed);
    }
}

#[test]
fn fallback_can_link_from_closed_cell() {
    // Open cells 0, 1 and 8 in a 3x3 grid. After the 0-1 pair is carved the
    // traversal is stuck; the pool hands out closed cells, and closed cell 7
    // still has the open, unlinked cell 8 as a candidate, so the link carves
    // a passage from a closed cell. The pool is deliberately not kept
    // consistent with visitation, so this is the engine's real behaviour.
    let dat = buffer(&[
        bright(),
        bright(),
        dark(),
        dark(),
        dark(),
        dark(),
        dark(),
        dark(),
        bright(),
    ]);
    let mut m = Mazm::new(&dat, 3, 1).unwrap();
    assert_eq!(m.current, 1);
    m.tick(&vec![0, 0, 0, 0]);
    assert!(m.cells[0].linked && m.cells[0].right);
    assert!(m.cells[1].linked && m.cells[1].left);
    assert!(m.cells[7].closed && m.cells[7].linked && m.cells[7].right);
    assert!(m.cells[8].linked && m.cells[8].left);
    assert_eq!(m.current, 8);
}

#[test]
fn engine_is_quiescent_after_twice_the_cell_count() {
    let dat = buffer(&[bright(), bright(), bright(), bright()]);
    let mut m = Mazm::new(&dat, 2, 3).unwrap();
    // Remaining work is at most pool size plus unlinked cells: 2 * 4.
    m.tick(&(0..8usize).collect());
    assert!(m.unvisited.is_empty());
    let cells = m.cells.clone();
    let current = m.current;
    m.tick(&(0..10usize).map(|p| 7 * p + 3).collect());
    assert_eq!(m.cells, cells);
    assert_eq!(m.current, current);
    assert!(m.unvisited.is_empty());
    assert_eq!(m.time, 1 + 8 + 10);
}

#[test]
fn neighbours_come_in_up_left_right_down_order() {
    let dat = buffer(&[bright(); 9]);
    let m = Mazm::new(&dat, 3, 4).unwrap();
    assert_eq!(m.get_neighbours(4), vec![1, 3, 5, 7]);
    assert_eq!(m.get_neighbours(0), vec![1, 3]);
    assert_eq!(m.get_neighbours(8), vec![5, 7]);
}

#[test]
fn neighbours_exclude_closed_and_linked_cells() {
    let dat = buffer(&[bright(), bright(), dark(), bright()]);
    let mut m = Mazm::new(&dat, 2, 0).unwrap();
    // Cell 2 is closed, so cell 0 only offers cell 1.
    assert_eq!(m.get_neighbours(0), vec![1]);
    m.link(0, 1);
    // Once linked, cell 1 is no candidate either.
    assert_eq!(m.get_neighbours(0), Vec::<usize>::new());
}

#[test]
fn link_sets_paired_flags_on_both_cells() {
    let dat = buffer(&[bright(), bright(), bright(), bright()]);
    let mut m = Mazm::new(&dat, 2, 0).unwrap();
    m.link(3, 2);
    assert!(m.cells[3].left && m.cells[3].linked);
    assert!(m.cells[2].right && m.cells[2].linked);
    assert!(!m.cells[3].right && !m.cells[3].top && !m.cells[3].bottom);
    assert!(!m.cells[2].left && !m.cells[2].top && !m.cells[2].bottom);
    m.link(3, 1);
    assert!(m.cells[3].top && m.cells[1].bottom && m.cells[1].linked);
    // The earlier flags survive: flags are only ever added.
    assert!(m.cells[3].left && m.cells[3].linked);
    // Untouched cells stay untouched.
    assert!(!m.cells[0].linked);
}

#[test]
fn link_is_idempotent() {
    let dat = buffer(&[bright(), bright(), bright(), bright()]);
    let mut m = Mazm::new(&dat, 2, 0).unwrap();
    m.link(0, 1);
    let cells = m.cells.clone();
    m.link(0, 1);
    assert_eq!(m.cells, cells);
}

#[test]
fn selectable_count_matches_classification() {
    let dat = buffer(&[dark(), bright(), dark(), bright()]);
    assert_eq!(Mazm::selectable_count(&dat, 2), Ok(2));
    let none = buffer(&[dark()]);
    assert_eq!(Mazm::selectable_count(&none, 1), Ok(0));
    let short = vec![255u8; 3];
    assert_eq!(
        Mazm::selectable_count(&short, 1),
        Err(MazeError::BufferTooShort)
    );
}

#[test]
fn cell_state_masks_and_flags() {
    let closed = CellState::initial(false);
    assert_eq!(closed.mask(), 1);
    assert!(closed.has(Cell::Closed) && !closed.has(Cell::Open));
    let open = CellState::initial(true);
    assert_eq!(open.mask(), 2);
    assert!(open.has(Cell::Open) && !open.has(Cell::Closed));

    let dat = buffer(&[bright(), bright(), bright(), bright()]);
    let mut m = Mazm::new(&dat, 2, 0).unwrap();
    m.link(0, 1);
    // Open, right passage, linked: 2 + 16 + 64.
    assert_eq!(m.cells[0].mask(), 82);
    assert!(m.cells[0].has(Cell::Right) && m.cells[0].has(Cell::Linked));
    assert!(m.cells[1].has(Cell::Left) && !m.cells[1].has(Cell::Right));
}

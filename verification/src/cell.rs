use vstd::prelude::*;

verus! {

/// The kinds of flag a grid cell can carry.
///
/// `Closed` marks a cell that is excluded from the maze; `Open` marks one that
/// may be carved. `Top`, `Left`, `Right` and `Bottom` record a passage on the
/// respective side, and `Linked` records that the cell has been carved at
/// least once.
#[derive(Clone, Copy, Debug, PartialEq, Eq, Structural)]
pub enum Cell {
    Closed,
    Open,
    Top,
    Left,
    Right,
    Bottom,
    Linked,
}

/// Per-cell state: one boolean per flag. Flags are only ever added, never
/// cleared, so a cell accumulates passages over its lifetime.
#[derive(Clone, Copy, Debug, PartialEq, Eq, Structural)]
pub struct CellState {
    pub closed: bool,
    pub open: bool,
    pub top: bool,
    pub left: bool,
    pub right: bool,
    pub bottom: bool,
    pub linked: bool,
}

impl CellState {
    /// The state classification gives a cell: closed with no other flag, or
    /// open with no other flag.
    pub open spec fn spec_initial(open: bool) -> CellState {
        CellState {
            closed: !open,
            open: open,
            top: false,
            left: false,
            right: false,
            bottom: false,
            linked: false,
        }
    }

    pub fn initial(open: bool) -> (c: CellState)
        ensures
            c == CellState::spec_initial(open),
    {
        CellState {
            closed: !open,
            open: open,
            top: false,
            left: false,
            right: false,
            bottom: false,
            linked: false,
        }
    }

    /// Whether the given flag is set.
    pub open spec fn spec_has(self, flag: Cell) -> bool {
        match flag {
            Cell::Closed => self.closed,
            Cell::Open => self.open,
            Cell::Top => self.top,
            Cell::Left => self.left,
            Cell::Right => self.right,
            Cell::Bottom => self.bottom,
            Cell::Linked => self.linked,
        }
    }

    pub fn has(self, flag: Cell) -> (b: bool)
        ensures
            b == self.spec_has(flag),
    {
        match flag {
            Cell::Closed => self.closed,
            Cell::Open => self.open,
            Cell::Top => self.top,
            Cell::Left => self.left,
            Cell::Right => self.right,
            Cell::Bottom => self.bottom,
            Cell::Linked => self.linked,
        }
    }

    /// The state as a bitmask, one disjoint power-of-two bit per flag.
    pub open spec fn spec_mask(self) -> u8 {
        ((if self.closed {
            1int
        } else {
            0int
        }) + (if self.open {
            2int
        } else {
            0int
        }) + (if self.top {
            4int
        } else {
            0int
        }) + (if self.left {
            8int
        } else {
            0int
        }) + (if self.right {
            16int
        } else {
            0int
        }) + (if self.bottom {
            32int
        } else {
            0int
        }) + (if self.linked {
            64int
        } else {
            0int
        })) as u8
    }

    pub fn mask(self) -> (m: u8)
        ensures
            m == self.spec_mask(),
    {
        let mut m: u8 = 0;
        if self.closed {
            m = m + 1;
        }
        if self.open {
            m = m + 2;
        }
        if self.top {
            m = m + 4;
        }
        if self.left {
            m = m + 8;
        }
        if self.right {
            m = m + 16;
        }
        if self.bottom {
            m = m + 32;
        }
        if self.linked {
            m = m + 64;
        }
        m
    }
}

} // verus!

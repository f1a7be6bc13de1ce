//! How a cell is to be drawn: the decision only, colours and fonts are the
//! caller's.

use vstd::prelude::*;
use crate::board::Cell;

verus! {

/// The kind of background a cell gets.
#[derive(Clone, Copy, Debug, PartialEq, Eq, Structural)]
pub enum Shade {
    /// Covered: nothing is known of the cell.
    Unknown,
    /// No mine around it.
    Safe,
    /// At least one mine around it.
    Suspect,
    /// The player clicked on a mine.
    Mine,
}

/// What is written on a cell.
#[derive(Clone, Copy, Debug, PartialEq, Eq, Structural)]
pub enum Caption {
    /// Nothing.
    Blank,
    /// The number of mines around the cell.
    Count(u8),
}

/// The background of a cell as it is generated: by its cover and its count
/// alone, whether or not it holds a mine.
pub open spec fn spec_shade(c: Cell) -> Shade {
    if !c.revealed {
        Shade::Unknown
    } else if c.neighbor_count == 0 {
        Shade::Safe
    } else {
        Shade::Suspect
    }
}

/// The background that a cell takes when the player clicks on it: a mine
/// shows as one, any other cell by its count.
pub open spec fn spec_clicked_shade(c: Cell) -> Shade {
    if c.is_bomb {
        Shade::Mine
    } else if c.neighbor_count == 0 {
        Shade::Safe
    } else {
        Shade::Suspect
    }
}

/// The caption of `c`: its count where it is uncovered and the count is not
/// zero, mine or not.
pub open spec fn spec_caption(c: Cell) -> Caption {
    if c.revealed && c.neighbor_count != 0 {
        Caption::Count(c.neighbor_count)
    } else {
        Caption::Blank
    }
}

/// Whether `c` carries the mark of a mine: uncovered mines do.
pub open spec fn spec_mine_mark(c: Cell) -> bool {
    c.revealed && c.is_bomb
}

impl Cell {
    /// The background this cell is drawn with when it is generated.
    pub fn shade(&self) -> (s: Shade)
        ensures
            s == spec_shade(*self),
    {
        if !self.revealed {
            Shade::Unknown
        } else if self.neighbor_count == 0 {
            Shade::Safe
        } else {
            Shade::Suspect
        }
    }

    /// The background this cell takes when the player clicks on it.
    pub fn clicked_shade(&self) -> (s: Shade)
        ensures
            s == spec_clicked_shade(*self),
    {
        if self.is_bomb {
            Shade::Mine
        } else if self.neighbor_count == 0 {
            Shade::Safe
        } else {
            Shade::Suspect
        }
    }

    /// What is written on this cell.
    pub fn caption(&self) -> (c: Caption)
        ensures
            c == spec_caption(*self),
    {
        if self.revealed && self.neighbor_count != 0 {
            Caption::Count(self.neighbor_count)
        } else {
            Caption::Blank
        }
    }

    /// Whether this cell carries the mark of a mine.
    pub fn mine_mark(&self) -> (m: bool)
        ensures
            m == spec_mine_mark(*self),
    {
        self.revealed && self.is_bomb
    }
}

} // verus!

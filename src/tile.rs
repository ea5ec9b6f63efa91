use vstd::prelude::*;

use crate::shade::Shade;

verus! {

/// What a tile holds, as contracts see it.
pub struct TileView {
    pub mine: bool,
    pub flipped: bool,
    pub marked: bool,
    pub number: Option<usize>,
    pub shade: Shade,
}

/// How a tile is drawn.
#[derive(Debug, Clone, Copy, PartialEq, Eq, Structural)]
pub enum TileLook {
    /// A revealed mine.
    Mine,
    /// A flag on a hidden tile.
    Marked,
    Flipped(Shade),
    Unflipped(Shade),
}

/// One cell of the board.
#[derive(Debug, Clone, Copy)]
pub struct Tile {
    shade: Shade,
    mine: bool,
    flipped: bool,
    number: Option<usize>,
    mark: bool,
}

impl View for Tile {
    type V = TileView;

    closed spec fn view(&self) -> TileView {
        TileView {
            mine: self.mine,
            flipped: self.flipped,
            marked: self.mark,
            number: self.number,
            shade: self.shade,
        }
    }
}

impl Tile {
    /// A hidden tile with no mine, no flag and no number.
    pub fn new(shade: Shade) -> (r: Self)
        ensures
            r@ == (TileView { mine: false, flipped: false, marked: false, number: None, shade }),
    {
        Self { mine: false, flipped: false, mark: false, number: None, shade }
    }

    /// Neither revealed nor flagged.
    pub fn is_hoverable(&self) -> (r: bool)
        ensures
            r == (!self@.flipped && !self@.marked),
    {
        !self.flipped && !self.mark
    }

    /// Adds a mine; returns `true` if the tile had none before.
    pub fn set_mine(&mut self) -> (r: bool)
        ensures
            r == !old(self)@.mine,
            final(self)@ == (TileView { mine: true, ..old(self)@ }),
    {
        if self.mine {
            return false;
        }
        self.mine = true;
        true
    }

    /// Reveals the tile; fails, changing nothing, on a flagged or revealed tile.
    pub fn flip(&mut self) -> (r: bool)
        ensures
            r == (!old(self)@.marked && !old(self)@.flipped),
            final(self)@ == (TileView { flipped: old(self)@.flipped || r, ..old(self)@ }),
    {
        if self.mark || self.flipped {
            return false;
        }
        self.flipped = true;
        true
    }

    pub fn is_flipped(&self) -> (r: bool)
        ensures
            r == self@.flipped,
    {
        self.flipped
    }

    pub fn contains_mine(&self) -> (r: bool)
        ensures
            r == self@.mine,
    {
        self.mine
    }

    /// The number of adjacent mines; `None` stands for zero.
    pub fn number(&self) -> (r: Option<usize>)
        ensures
            r == self@.number,
    {
        self.number
    }

    /// Records the number of adjacent mines; zero leaves the tile as it is.
    pub fn set_number(&mut self, number: usize)
        ensures
            final(self)@ == (if number == 0 {
                old(self)@
            } else {
                TileView { number: Some(number), ..old(self)@ }
            }),
    {
        if number == 0 {
            return;
        }
        self.number = Some(number);
    }

    /// Puts or lifts a flag; fails, changing nothing, on a revealed tile.
    pub fn toggle_mark(&mut self) -> (r: bool)
        ensures
            r == !old(self)@.flipped,
            final(self)@ == (TileView {
                marked: if r { !old(self)@.marked } else { old(self)@.marked },
                ..old(self)@
            }),
    {
        if self.flipped {
            return false;
        }
        self.mark = !self.mark;
        true
    }

    pub fn shade(&self) -> (r: Shade)
        ensures
            r == self@.shade,
    {
        self.shade
    }

    pub fn is_marked(&self) -> (r: bool)
        ensures
            r == self@.marked,
    {
        self.mark
    }

    /// A revealed mine shows as a mine, a flag as a flag, any other tile by
    /// whether it is revealed and by its shade.
    pub fn look(&self) -> (r: TileLook)
        ensures
            r == (if self@.mine && self@.flipped {
                TileLook::Mine
            } else if self@.marked {
                TileLook::Marked
            } else if self@.flipped {
                TileLook::Flipped(self@.shade)
            } else {
                TileLook::Unflipped(self@.shade)
            }),
    {
        if self.mine && self.flipped {
            return TileLook::Mine;
        }
        if self.mark {
            return TileLook::Marked;
        }
        if self.flipped {
            TileLook::Flipped(self.shade)
        } else {
            TileLook::Unflipped(self.shade)
        }
    }
}

} // verus!

use vstd::prelude::*;

verus! {

/// The address of a tile: its column and its row.
#[derive(Debug, Clone, Copy, PartialEq, Eq, Hash, Structural)]
pub struct Coordinates {
    pub col: i64,
    pub row: i64,
}

/// The absolute value of an integer.
pub open spec fn abs(x: int) -> int {
    if x < 0 {
        -x
    } else {
        x
    }
}

/// Two distinct tiles that touch by a side or a corner (a king's move apart).
pub open spec fn adjacent(a: Coordinates, b: Coordinates) -> bool {
    &&& a != b
    &&& -1 <= a.col - b.col <= 1
    &&& -1 <= a.row - b.row <= 1
}

impl Coordinates {
    /// The sum of the absolute row and column differences.
    pub open spec fn distance(self, other: Coordinates) -> int {
        abs(self.row - other.row) + abs(self.col - other.col)
    }

    pub fn new(col: i64, row: i64) -> (r: Self)
        ensures
            r == (Coordinates { col, row }),
    {
        Self { col, row }
    }

    /// The manhattan distance between two tiles.
    pub fn manhattan_distance(&self, other: &Self) -> (r: u64)
        requires
            self.distance(*other) <= u64::MAX,
        ensures
            r == self.distance(*other),
    {
        let dr: u64 = abs_diff(self.row, other.row);
        let dc: u64 = abs_diff(self.col, other.col);
        dr + dc
    }
}

fn abs_diff(a: i64, b: i64) -> (r: u64)
    ensures
        r == abs(a - b),
{
    if a >= b {
        ((a as i128) - (b as i128)) as u64
    } else {
        ((b as i128) - (a as i128)) as u64
    }
}

} // verus!

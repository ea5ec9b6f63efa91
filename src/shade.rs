use vstd::prelude::*;

verus! {

/// The checkerboard colour of a tile.
#[derive(Debug, Clone, Copy, PartialEq, Eq, Structural)]
pub enum Shade {
    Light,
    Dark,
}

impl Shade {
    /// Light where `row + col` is even, dark where it is odd.
    pub open spec fn of(row: int, col: int) -> Shade {
        if (row + col) % 2 == 0 {
            Shade::Light
        } else {
            Shade::Dark
        }
    }

    pub fn from_coordinates(row: i64, col: i64) -> (r: Self)
        requires
            0 <= row + col <= i64::MAX,
        ensures
            r == Shade::of(row as int, col as int),
    {
        match (row + col) % 2 {
            0 => Self::Light,
            _ => Self::Dark,
        }
    }
}

} // verus!

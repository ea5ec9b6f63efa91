use rand::Rng;
use vstd::prelude::*;

use crate::board::{
    chosen, fresh_board, fresh_tile, is_hidden, lemma_chosen_from, mined_and_numbered, lemma_count_update, is_marked, is_mine, lemma_row_major_lt, neighbors_upto, row_major, BoardView,
};
use crate::coordinates::{adjacent, Coordinates};
use crate::flood::{
    flipped_at, flood_inv, flood_post, flood_run, inv_frame, hit_mine, lemma_flood_done, lemma_flood_flip, lemma_flood_skip,
    lemma_flood_start, notice, opens, TileRevealed,
};
use crate::shade::Shade;
use crate::tile::{Tile, TileView};

verus! {

/// Why a board operation was refused.
#[derive(Debug, Clone, Copy, PartialEq, Eq, Structural)]
pub enum BoardError {
    /// The coordinates lie off the board.
    OutOfBounds,
    /// Fewer tiles are free than mines are asked for.
    TooManyMines,
}

/// Relies on `rand::Rng::gen_range` over `rand::thread_rng()`: a value drawn
/// from `0..n`; it panics on an empty range.
#[verifier::external_body]
fn random_below(n: usize) -> (r: usize)
    requires
        n > 0,
    ensures
        r < n,
{
    rand::thread_rng().gen_range(0..n)
}

/// The grid of tiles, stored row by row.
#[derive(Debug)]
pub struct TileMap {
    width: i64,
    height: i64,
    tiles: Vec<Tile>,
}

impl View for TileMap {
    type V = BoardView;

    closed spec fn view(&self) -> BoardView {
        BoardView {
            width: self.width as int,
            height: self.height as int,
            cells: self.tiles@.map_values(|t: Tile| t@),
        }
    }
}

impl TileMap {
    /// A board of `width` columns and `height` rows, every tile hidden and empty.
    pub fn new(width: i64, height: i64) -> (r: Self)
        requires
            0 <= width,
            0 <= height,
            width * height <= usize::MAX,
        ensures
            r@.wf(),
            r@.width == width,
            r@.height == height,
            forall|c: Coordinates| r@.in_bounds(c) ==> #[trigger] r@.tile(c) == fresh_tile(c),
            r@ == fresh_board(width as int, height as int),
    {
        let mut tiles: Vec<Tile> = Vec::new();
        let mut row: i64 = 0;
        while row < height
            invariant
                0 <= row <= height,
                0 <= width,
                width * height <= usize::MAX,
                tiles@.len() == row * width,
                forall|c: Coordinates|
                    0 <= c.col < width && 0 <= c.row < row ==> #[trigger] tiles@[row_major(
                        width as int,
                        c.row as int,
                        c.col as int,
                    )]@ == fresh_tile(c),
            decreases height - row,
        {
            let mut col: i64 = 0;
            while col < width
                invariant
                    0 <= row < height,
                    0 <= col <= width,
                    width * height <= usize::MAX,
                    tiles@.len() == row * width + col,
                    forall|c: Coordinates|
                        0 <= c.col < width && (0 <= c.row < row || (c.row == row && c.col < col))
                            ==> #[trigger] tiles@[row_major(
                            width as int,
                            c.row as int,
                            c.col as int,
                        )]@ == fresh_tile(c),
                decreases width - col,
            {
                let shade = Shade::from_coordinates(row % 2, col % 2);
                assert(Shade::of((row % 2) as int, (col % 2) as int) == Shade::of(
                    row as int,
                    col as int,
                ));
                let ghost before = tiles@;
                tiles.push(Tile::new(shade));
                assert forall|c: Coordinates|
                    0 <= c.col < width && (0 <= c.row < row || (c.row == row && c.col < col + 1))
                        implies #[trigger] tiles@[row_major(
                        width as int,
                        c.row as int,
                        c.col as int,
                    )]@ == fresh_tile(c) by {
                    if c.row == row && c.col == col {
                    } else {
                        lemma_row_major_lt(width as int, c.row as int, c.col as int, row as int, col as int);
                        assert(0 <= c.row * width) by (nonlinear_arith)
                            requires
                                0 <= c.row,
                                0 <= width,
                        ;
                        assert(tiles@[row_major(width as int, c.row as int, c.col as int)]
                            == before[row_major(width as int, c.row as int, c.col as int)]);
                    }
                }
                col = col + 1;
            }
            assert((row + 1) * width == row * width + width) by (nonlinear_arith);
            row = row + 1;
        }
        assert(row == height);
        assert(height * width == width * height) by (nonlinear_arith);
        let r = Self { width, height, tiles };
        assert forall|c: Coordinates| r@.in_bounds(c) implies #[trigger] r@.tile(c) == fresh_tile(c) by {
            r@.lemma_index();
        }
        assert forall|i: int| 0 <= i < r@.cells.len() implies #[trigger] r@.cells[i] == fresh_board(
            width as int,
            height as int,
        ).cells[i] by {
            r@.lemma_coordinates_of(i);
            assert(r@.tile(r@.coordinates_of(i)) == fresh_tile(r@.coordinates_of(i)));
        }
        assert(r@.cells =~= fresh_board(width as int, height as int).cells);
        r
    }

    pub fn width(&self) -> (r: i64)
        ensures
            r == self@.width,
    {
        self.width
    }

    pub fn height(&self) -> (r: i64)
        ensures
            r == self@.height,
    {
        self.height
    }

    pub fn is_in_bounds(&self, c: &Coordinates) -> (r: bool)
        ensures
            r == self@.in_bounds(*c),
    {
        0 <= c.col && c.col < self.width && 0 <= c.row && c.row < self.height
    }

    /// The place of the tile at `c` in the tile sequence.
    fn index_of(&self, c: &Coordinates) -> (r: usize)
        requires
            self@.wf(),
            self@.in_bounds(*c),
        ensures
            r == self@.index(*c),
            r < self.tiles@.len(),
    {
        proof {
            self@.lemma_index();
            assert(self@.index(*c) < self.tiles@.len());
            assert(0 <= c.row * self.width <= c.row * self.width + c.col) by (nonlinear_arith)
                requires
                    0 <= c.row,
                    0 <= self.width,
                    0 <= c.col,
            ;
            assert(self.height <= self.width * self.height) by (nonlinear_arith)
                requires
                    1 <= self.width,
                    0 <= self.height,
            ;
            assert(self.width <= self.width * self.height) by (nonlinear_arith)
                requires
                    0 <= self.width,
                    1 <= self.height,
            ;
        }
        let row = c.row as usize;
        let width = self.width as usize;
        let col = c.col as usize;
        row * width + col
    }

    /// The tile at `c`.
    pub fn get(&self, c: &Coordinates) -> (r: Result<&Tile, BoardError>)
        requires
            self@.wf(),
        ensures
            match r {
                Ok(t) => self@.in_bounds(*c) && t@ == self@.tile(*c),
                Err(e) => !self@.in_bounds(*c) && e == BoardError::OutOfBounds,
            },
    {
        if !self.is_in_bounds(c) {
            return Err(BoardError::OutOfBounds);
        }
        let i = self.index_of(c);
        Ok(&self.tiles[i])
    }

    /// The tiles around `c` that lie on the board, in row-major order.
    fn neighbors_of(&self, c: &Coordinates) -> (r: Vec<Coordinates>)
        requires
            self@.wf(),
            self@.in_bounds(*c),
        ensures
            r@ == self@.neighbors(*c),
    {
        let mut neighbors: Vec<Coordinates> = Vec::new();
        let mut k: i64 = 0;
        while k < 9
            invariant
                0 <= k <= 9,
                self@.wf(),
                self@.in_bounds(*c),
                neighbors@ == neighbors_upto(self.width as int, self.height as int, *c, k as int),
            decreases 9 - k,
        {
            if k != 4 {
                let row = c.row + (k / 3 - 1);
                let col = c.col + (k % 3 - 1);
                if 0 <= col && col < self.width && 0 <= row && row < self.height {
                    neighbors.push(Coordinates::new(col, row));
                }
            }
            k = k + 1;
        }
        neighbors
    }

    /// The tiles around `c` that lie on the board, in row-major order of
    /// their offsets.
    pub fn get_neighbors(&self, c: &Coordinates) -> (r: Result<Vec<Coordinates>, BoardError>)
        requires
            self@.wf(),
        ensures
            match r {
                Ok(v) => self@.in_bounds(*c) && v@ == self@.neighbors(*c),
                Err(e) => !self@.in_bounds(*c) && e == BoardError::OutOfBounds,
            },
    {
        if !self.is_in_bounds(c) {
            return Err(BoardError::OutOfBounds);
        }
        Ok(self.neighbors_of(c))
    }

    /// How many of the tiles at `cs` hold a mine.
    fn count_mines_at(&self, cs: &Vec<Coordinates>) -> (r: usize)
        requires
            self@.wf(),
            forall|i: int| 0 <= i < cs@.len() ==> self@.in_bounds(#[trigger] cs@[i]),
        ensures
            r == self@.count_at(cs@, |t: TileView| is_mine(t)),
    {
        let mut count: usize = 0;
        let mut i: usize = 0;
        while i < cs.len()
            invariant
                i <= cs@.len(),
                self@.wf(),
                forall|j: int| 0 <= j < cs@.len() ==> self@.in_bounds(#[trigger] cs@[j]),
                count == self@.count_at(cs@.take(i as int), |t: TileView| is_mine(t)),
                count <= i,
            decreases cs@.len() - i,
        {
            assert(cs@.take(i + 1).drop_last() =~= cs@.take(i as int));
            let at = self.index_of(&cs[i]);
            if self.tiles[at].contains_mine() {
                count = count + 1;
            }
            i = i + 1;
        }
        assert(cs@.take(i as int) =~= cs@);
        count
    }

    /// How many of the tiles at `cs` carry a flag.
    fn count_marks_at(&self, cs: &Vec<Coordinates>) -> (r: usize)
        requires
            self@.wf(),
            forall|i: int| 0 <= i < cs@.len() ==> self@.in_bounds(#[trigger] cs@[i]),
        ensures
            r == self@.count_at(cs@, |t: TileView| is_marked(t)),
    {
        let mut count: usize = 0;
        let mut i: usize = 0;
        while i < cs.len()
            invariant
                i <= cs@.len(),
                self@.wf(),
                forall|j: int| 0 <= j < cs@.len() ==> self@.in_bounds(#[trigger] cs@[j]),
                count == self@.count_at(cs@.take(i as int), |t: TileView| is_marked(t)),
                count <= i,
            decreases cs@.len() - i,
        {
            assert(cs@.take(i + 1).drop_last() =~= cs@.take(i as int));
            let at = self.index_of(&cs[i]);
            if self.tiles[at].is_marked() {
                count = count + 1;
            }
            i = i + 1;
        }
        assert(cs@.take(i as int) =~= cs@);
        count
    }

    /// Records in every tile the number of mines around it.
    pub fn update_tile_numbers(&mut self)
        requires
            old(self)@.wf(),
        ensures
            final(self)@.wf(),
            final(self)@.width == old(self)@.width,
            final(self)@.height == old(self)@.height,
            forall|c: Coordinates|
                old(self)@.in_bounds(c) ==> #[trigger] final(self)@.tile(c) == old(self)@.numbered(c),
            final(self)@.mine_total() == old(self)@.mine_total(),
            forall|c: Coordinates|
                old(self)@.in_bounds(c) && old(self)@.tile(c).number is None ==> (
                #[trigger] final(self)@.tile(c)).number == final(self)@.expected_number(c),
    {
        let ghost start = self@;
        let mut row: i64 = 0;
        while row < self.height
            invariant
                0 <= row <= self@.height,
                self@.wf(),
                self@.width == start.width,
                self@.height == start.height,
                self@.mine_total() == start.mine_total(),
                forall|c: Coordinates|
                    #![trigger self@.tile(c)]
                    start.in_bounds(c) ==> self@.tile(c) == if c.row < row {
                        start.numbered(c)
                    } else {
                        start.tile(c)
                    },
            decreases self@.height - row,
        {
            let mut col: i64 = 0;
            while col < self.width
                invariant
                    0 <= row < self@.height,
                    0 <= col <= self@.width,
                    self@.wf(),
                    self@.width == start.width,
                    self@.height == start.height,
                    self@.mine_total() == start.mine_total(),
                    forall|c: Coordinates|
                        #![trigger self@.tile(c)]
                        start.in_bounds(c) ==> self@.tile(c) == if c.row < row || (c.row == row
                            && c.col < col) {
                            start.numbered(c)
                        } else {
                            start.tile(c)
                        },
                decreases self@.width - col,
            {
                let here = Coordinates::new(col, row);
                let neighbors = self.neighbors_of(&here);
                proof {
                    self@.lemma_neighbors(here);
                    self@.lemma_index();
                    assert forall|i: int| 0 <= i < neighbors@.len() implies is_mine(
                        self@.tile(#[trigger] neighbors@[i]),
                    ) == is_mine(start.tile(neighbors@[i])) by {
                        assert(self@.in_bounds(neighbors@[i]));
                    }
                    self@.lemma_count_at_agree(start, neighbors@, |t: TileView| is_mine(t));
                    self@.lemma_count_at_len(neighbors@, |t: TileView| is_mine(t));
                }
                let count = self.count_mines_at(&neighbors);
                let at = self.index_of(&here);
                let mut tile = self.tiles[at];
                tile.set_number(count);
                let ghost before = self@;
                self.set_tile(&here, tile);
                proof {
                    lemma_count_update(before.cells, at as int, tile@, |t: TileView| is_mine(t));
                    assert forall|c: Coordinates|
                        #![trigger self@.tile(c)]
                        start.in_bounds(c) implies self@.tile(c) == if c.row < row || (c.row == row
                            && c.col < col + 1) {
                            start.numbered(c)
                        } else {
                            start.tile(c)
                        } by {
                        if c != here {
                            assert(before.tile(c) == self@.tile(c));
                        }
                    }
                }
                col = col + 1;
            }
            row = row + 1;
        }
        proof {
            assert forall|c: Coordinates| start.in_bounds(c) implies (#[trigger] start.tile(c)).mine
                == self@.tile(c).mine by {
                assert(self@.tile(c) == start.numbered(c));
            }
            start.lemma_same_mines(self@);
        }
    }

    /// True when the tile at `c` shows a number and exactly that many flags
    /// lie around it.
    pub fn can_reveal_neighbors(&self, c: &Coordinates) -> (r: Result<bool, BoardError>)
        requires
            self@.wf(),
        ensures
            match r {
                Ok(b) => self@.in_bounds(*c) && b == (self@.tile(*c).number == Some(
                    self@.adjacent_marks(*c) as usize,
                )),
                Err(e) => !self@.in_bounds(*c) && e == BoardError::OutOfBounds,
            },
    {
        if !self.is_in_bounds(c) {
            return Err(BoardError::OutOfBounds);
        }
        let neighbors = self.neighbors_of(c);
        proof {
            self@.lemma_neighbors(*c);
            self@.lemma_count_at_len(neighbors@, |t: TileView| is_marked(t));
        }
        let marks = self.count_marks_at(&neighbors);
        let at = self.index_of(c);
        match self.tiles[at].number() {
            Some(n) => Ok(n == marks),
            None => Ok(false),
        }
    }

    /// The free tiles of the board, in row-major order.
    pub(crate) fn free_tiles_of(&self, origin: &Coordinates, radius: u64) -> (r: Vec<Coordinates>)
        requires
            self@.wf(),
            self@.in_bounds(*origin),
        ensures
            r@ == self@.free_tiles(*origin, radius as int),
            r@.no_duplicates(),
            forall|i: int|
                0 <= i < r@.len() ==> self@.in_bounds(#[trigger] r@[i]) && self@.is_free(
                    r@[i],
                    *origin,
                    radius as int,
                ),
    {
        let mut cands: Vec<Coordinates> = Vec::new();
        let mut row: i64 = 0;
        while row < self.height
            invariant
                0 <= row <= self@.height,
                self@.wf(),
                self@.in_bounds(*origin),
                cands@ == self@.free_upto(*origin, radius as int, row as int),
                cands@.no_duplicates(),
                forall|i: int|
                    0 <= i < cands@.len() ==> self@.in_bounds(#[trigger] cands@[i]) && self@.is_free(
                        cands@[i],
                        *origin,
                        radius as int,
                    ) && cands@[i].row < row,
            decreases self@.height - row,
        {
            let ghost prefix = cands@;
            let mut col: i64 = 0;
            while col < self.width
                invariant
                    0 <= row < self@.height,
                    0 <= col <= self@.width,
                    self@.wf(),
                    self@.in_bounds(*origin),
                    prefix == self@.free_upto(*origin, radius as int, row as int),
                    cands@ == prefix + self@.free_in_row(*origin, radius as int, row as int, col as int),
                    cands@.no_duplicates(),
                    forall|i: int|
                        0 <= i < cands@.len() ==> self@.in_bounds(#[trigger] cands@[i])
                            && self@.is_free(cands@[i], *origin, radius as int) && (cands@[i].row
                            < row || (cands@[i].row == row && cands@[i].col < col)),
                decreases self@.width - col,
            {
                let c = Coordinates::new(col, row);
                let at = self.index_of(&c);
                let ghost before = cands@;
                if c.manhattan_distance(origin) > radius && !self.tiles[at].contains_mine() {
                    cands.push(c);
                    assert(cands@ =~= prefix + self@.free_in_row(
                        *origin,
                        radius as int,
                        row as int,
                        col + 1,
                    ));
                    assert forall|i: int, j: int|
                        0 <= i < cands@.len() && 0 <= j < cands@.len() && i != j implies cands@[i]
                        != cands@[j] by {
                        if i < before.len() && j < before.len() {
                        } else if i < before.len() {
                            assert(before[i].col < col || before[i].row < row);
                        } else {
                            assert(before[j].col < col || before[j].row < row);
                        }
                    }
                }
                col = col + 1;
            }
            row = row + 1;
        }
        cands
    }

    /// Mines the tiles that `picks` choose from `cands`, one per pick.
    fn place_from(&mut self, cands: Vec<Coordinates>, picks: &Vec<usize>)
        requires
            old(self)@.wf(),
            picks@.len() <= cands@.len(),
            cands@.no_duplicates(),
            forall|i: int|
                0 <= i < cands@.len() ==> old(self)@.in_bounds(#[trigger] cands@[i]) && !old(
                    self,
                )@.tile(cands@[i]).mine,
        ensures
            final(self)@.wf(),
            final(self)@.width == old(self)@.width,
            final(self)@.height == old(self)@.height,
            forall|c: Coordinates|
                #![trigger final(self)@.tile(c)]
                old(self)@.in_bounds(c) ==> final(self)@.tile(c) == if chosen(cands@, picks@).contains(
                    c,
                ) {
                    TileView { mine: true, ..old(self)@.tile(c) }
                } else {
                    old(self)@.tile(c)
                },
            final(self)@.mine_total() == old(self)@.mine_total() + picks@.len(),
    {
        let ghost start = self@;
        let ghost all = cands@;
        let ghost mut placed: Seq<Coordinates> = Seq::empty();
        let mut cands = cands;
        assert(picks@.skip(0) =~= picks@);
        assert(placed + chosen(all, picks@) =~= chosen(all, picks@));
        let mut k: usize = 0;
        while k < picks.len()
            invariant
                k <= picks@.len(),
                picks@.len() <= all.len(),
                self@.wf(),
                self@.width == start.width,
                self@.height == start.height,
                cands@.len() + k == all.len(),
                chosen(all, picks@) == placed + chosen(cands@, picks@.skip(k as int)),
                cands@.no_duplicates(),
                forall|i: int|
                    0 <= i < cands@.len() ==> self@.in_bounds(#[trigger] cands@[i]) && !self@.tile(
                        cands@[i],
                    ).mine,
                forall|c: Coordinates| #[trigger] placed.contains(c) ==> !cands@.contains(c),
                forall|c: Coordinates|
                    #![trigger self@.tile(c)]
                    start.in_bounds(c) ==> self@.tile(c) == if placed.contains(c) {
                        TileView { mine: true, ..start.tile(c) }
                    } else {
                        start.tile(c)
                    },
                self@.mine_total() == start.mine_total() + k,
            decreases picks@.len() - k,
        {
            let j = picks[k] % cands.len();
            let ghost rest = picks@.skip(k as int);
            assert(rest[0] == picks@[k as int]);
            assert(rest.drop_first() =~= picks@.skip(k + 1));
            let ghost old_cands = cands@;
            let c = cands.remove(j);
            proof {
                assert(old_cands.contains(c));
                assert(!placed.contains(c));
            }
            let at = self.index_of(&c);
            let mut tile = self.tiles[at];
            tile.set_mine();
            let ghost before = self@;
            self.set_tile(&c, tile);
            proof {
                self@.lemma_index();
                lemma_count_update(before.cells, at as int, tile@, |t: TileView| is_mine(t));
                assert(placed + chosen(old_cands, rest) =~= placed.push(c) + chosen(
                    cands@,
                    picks@.skip(k + 1),
                ));
                assert forall|i: int|
                    0 <= i < cands@.len() implies self@.in_bounds(#[trigger] cands@[i])
                    && !self@.tile(cands@[i]).mine by {
                    let o = if i < j { i } else { i + 1 };
                    assert(cands@[i] == old_cands[o]);
                    assert(cands@[i] != c);
                }
                assert forall|x: Coordinates| #[trigger] placed.push(c).contains(x) implies !cands@.contains(x) by {
                    if cands@.contains(x) {
                        let i = choose|i: int| 0 <= i < cands@.len() && cands@[i] == x;
                        let o = if i < j { i } else { i + 1 };
                        assert(old_cands[o] == x);
                        if x == c {
                            assert(old_cands[j as int] == c);
                        } else {
                            assert(placed.contains(x));
                        }
                    }
                }
                assert forall|x: Coordinates|
                    #![trigger self@.tile(x)]
                    start.in_bounds(x) implies self@.tile(x) == if placed.push(c).contains(x) {
                        TileView { mine: true, ..start.tile(x) }
                    } else {
                        start.tile(x)
                    } by {
                    if x != c {
                        assert(before.tile(x) == self@.tile(x));
                        assert(placed.push(c).contains(x) == placed.contains(x)) by {
                            if placed.push(c).contains(x) {
                                let i = choose|i: int| 0 <= i < placed.len() + 1 && placed.push(c)[i] == x;
                                assert(placed[i] == x);
                            }
                            if placed.contains(x) {
                                let i = choose|i: int| 0 <= i < placed.len() && placed[i] == x;
                                assert(placed.push(c)[i] == x);
                            }
                        }
                    } else {
                        assert(placed.push(c)[placed.len() as int] == c);
                    }
                }
                placed = placed.push(c);
            }
            k = k + 1;
        }
        proof {
            assert(picks@.skip(k as int).len() == 0);
            assert(placed + chosen(cands@, picks@.skip(k as int)) =~= placed);
        }
    }

    /// Mines one free tile for each pick, then records every tile's number.
    /// A free tile lies farther than `radius` from `origin` and has no mine;
    /// each pick, taken modulo the number of free tiles left, chooses among
    /// them in row-major order.
    pub fn place_mines(&mut self, origin: &Coordinates, radius: u64, picks: &Vec<usize>) -> (r:
        Result<(), BoardError>)
        requires
            old(self)@.wf(),
        ensures
            !old(self)@.in_bounds(*origin) ==> r == Err::<(), BoardError>(BoardError::OutOfBounds),
            old(self)@.in_bounds(*origin) && picks@.len() > old(self)@.free_tiles(
                *origin,
                radius as int,
            ).len() ==> r == Err::<(), BoardError>(BoardError::TooManyMines),
            old(self)@.in_bounds(*origin) && picks@.len() <= old(self)@.free_tiles(
                *origin,
                radius as int,
            ).len() ==> r is Ok,
            r is Err ==> final(self)@ == old(self)@,
            r is Ok ==> mined_and_numbered(
                old(self)@,
                final(self)@,
                chosen(old(self)@.free_tiles(*origin, radius as int), picks@),
            ),
            r is Ok ==> final(self)@.mine_total() == old(self)@.mine_total() + picks@.len(),
            r is Ok ==> forall|c: Coordinates|
                old(self)@.in_bounds(c) && #[trigger] final(self)@.tile(c).mine && !old(
                    self,
                )@.tile(c).mine ==> c.distance(*origin) > radius,
    {
        if !self.is_in_bounds(origin) {
            return Err(BoardError::OutOfBounds);
        }
        let cands = self.free_tiles_of(origin, radius);
        if picks.len() > cands.len() {
            return Err(BoardError::TooManyMines);
        }
        let ghost all = cands@;
        let ghost start = self@;
        self.place_from(cands, picks);
        self.finish_placement(Ghost(start), Ghost(chosen(all, picks@)));
        proof {
            self.lemma_placed_far(start, *origin, radius as int, all, picks@);
        }
        Ok(())
    }

    /// Places `mine_count` mines on free tiles drawn at random, then records
    /// every tile's number. A free tile lies farther than `radius` from
    /// `origin` and has no mine.
    pub fn generate_mines(&mut self, origin: &Coordinates, mine_count: u64, radius: u64) -> (r:
        Result<(), BoardError>)
        requires
            old(self)@.wf(),
        ensures
            !old(self)@.in_bounds(*origin) ==> r == Err::<(), BoardError>(BoardError::OutOfBounds),
            old(self)@.in_bounds(*origin) ==> (r == Err::<(), BoardError>(BoardError::TooManyMines)
                <==> mine_count > old(self)@.free_tiles(*origin, radius as int).len()),
            old(self)@.in_bounds(*origin) && mine_count <= old(self)@.free_tiles(
                *origin,
                radius as int,
            ).len() ==> r is Ok,
            r is Err ==> final(self)@ == old(self)@,
            r is Ok ==> exists|picks: Seq<usize>|
                picks.len() == mine_count && mined_and_numbered(
                    old(self)@,
                    final(self)@,
                    chosen(old(self)@.free_tiles(*origin, radius as int), picks),
                ),
            r is Ok ==> final(self)@.mine_total() == old(self)@.mine_total() + mine_count,
            r is Ok ==> forall|c: Coordinates|
                old(self)@.in_bounds(c) && #[trigger] final(self)@.tile(c).mine && !old(
                    self,
                )@.tile(c).mine ==> c.distance(*origin) > radius,
    {
        if !self.is_in_bounds(origin) {
            return Err(BoardError::OutOfBounds);
        }
        let cands = self.free_tiles_of(origin, radius);
        if (cands.len() as u128) < (mine_count as u128) {
            return Err(BoardError::TooManyMines);
        }
        let count = mine_count as usize;
        let mut picks: Vec<usize> = Vec::new();
        while picks.len() < count
            invariant
                count <= cands@.len(),
                picks@.len() <= count,
            decreases count - picks@.len(),
        {
            let pick = random_below(cands.len() - picks.len());
            picks.push(pick);
        }
        let ghost all = cands@;
        let ghost start = self@;
        self.place_from(cands, &picks);
        self.finish_placement(Ghost(start), Ghost(chosen(all, picks@)));
        proof {
            self.lemma_placed_far(start, *origin, radius as int, all, picks@);
            assert(picks@.len() == mine_count && mined_and_numbered(
                start,
                self@,
                chosen(all, picks@),
            ));
        }
        Ok(())
    }

    /// Reveals the tile at `c`, cascading through tiles with no number.
    pub fn reveal_tile(&mut self, c: &Coordinates) -> (r: Result<Vec<TileRevealed>, BoardError>)
        requires
            old(self)@.wf(),
        ensures
            match r {
                Ok(v) => old(self)@.in_bounds(*c) && flood_post(old(self)@, final(self)@, seq![*c], v@)
                    && (final(self)@, v@) == flood_run(old(self)@, seq![*c], Seq::empty()),
                Err(e) => !old(self)@.in_bounds(*c) && e == BoardError::OutOfBounds && final(self)@
                    == old(self)@,
            },
    {
        if !self.is_in_bounds(c) {
            return Err(BoardError::OutOfBounds);
        }
        let mut seeds: Vec<Coordinates> = Vec::new();
        seeds.push(*c);
        assert(seeds@ =~= seq![*c]);
        Ok(self.reveal_from(seeds))
    }

    /// The chord: when the tile at `c` shows a number matched exactly by the
    /// flags around it, reveals every unflagged tile around it (flagged ones
    /// stay as they are); otherwise does nothing.
    pub fn reveal_neighbors(&mut self, c: &Coordinates) -> (r: Result<Vec<TileRevealed>, BoardError>)
        requires
            old(self)@.wf(),
        ensures
            match r {
                Ok(v) => old(self)@.in_bounds(*c) && if old(self)@.tile(*c).number == Some(
                    old(self)@.adjacent_marks(*c) as usize,
                ) {
                    flood_post(old(self)@, final(self)@, old(self)@.neighbors(*c), v@) && (
                    final(self)@,
                    v@,
                ) == flood_run(old(self)@, old(self)@.neighbors(*c), Seq::empty())
                } else {
                    v@.len() == 0 && final(self)@ == old(self)@
                },
                Err(e) => !old(self)@.in_bounds(*c) && e == BoardError::OutOfBounds && final(self)@
                    == old(self)@,
            },
    {
        match self.can_reveal_neighbors(c) {
            Err(e) => Err(e),
            Ok(false) => Ok(Vec::new()),
            Ok(true) => {
                let around = self.neighbors_of(c);
                proof {
                    self@.lemma_neighbors(*c);
                }
                Ok(self.reveal_from(around))
            },
        }
    }

    /// Puts or lifts the flag on the tile at `c`; a revealed tile refuses.
    pub fn toggle_mark(&mut self, c: &Coordinates) -> (r: Result<bool, BoardError>)
        requires
            old(self)@.wf(),
        ensures
            match r {
                Ok(changed) => {
                    &&& old(self)@.in_bounds(*c)
                    &&& changed == !old(self)@.tile(*c).flipped
                    &&& final(self)@.wf()
                    &&& final(self)@.width == old(self)@.width
                    &&& final(self)@.height == old(self)@.height
                    &&& forall|x: Coordinates|
                        #![trigger final(self)@.tile(x)]
                        old(self)@.in_bounds(x) ==> final(self)@.tile(x) == if x == *c && changed {
                            TileView { marked: !old(self)@.tile(x).marked, ..old(self)@.tile(x) }
                        } else {
                            old(self)@.tile(x)
                        }
                },
                Err(e) => !old(self)@.in_bounds(*c) && e == BoardError::OutOfBounds && final(self)@
                    == old(self)@,
            },
    {
        if !self.is_in_bounds(c) {
            return Err(BoardError::OutOfBounds);
        }
        let at = self.index_of(c);
        let mut tile = self.tiles[at];
        let changed = tile.toggle_mark();
        self.set_tile(c, tile);
        Ok(changed)
    }

    /// True when every tile without a mine is revealed.
    pub fn all_safe_revealed(&self) -> (r: bool)
        requires
            self@.wf(),
        ensures
            r == self@.all_safe_flipped(),
    {
        let mut row: i64 = 0;
        while row < self.height
            invariant
                0 <= row <= self@.height,
                self@.wf(),
                forall|c: Coordinates|
                    self@.in_bounds(c) && c.row < row && !(#[trigger] self@.tile(c)).mine
                        ==> self@.tile(c).flipped,
            decreases self@.height - row,
        {
            let mut col: i64 = 0;
            while col < self.width
                invariant
                    0 <= row < self@.height,
                    0 <= col <= self@.width,
                    self@.wf(),
                    forall|c: Coordinates|
                        self@.in_bounds(c) && (c.row < row || (c.row == row && c.col < col)) && !(
                        #[trigger] self@.tile(c)).mine ==> self@.tile(c).flipped,
                decreases self@.width - col,
            {
                let here = Coordinates::new(col, row);
                let at = self.index_of(&here);
                if !self.tiles[at].contains_mine() && !self.tiles[at].is_flipped() {
                    assert(self@.in_bounds(here) && !self@.tile(here).mine && !self@.tile(here).flipped);
                    return false;
                }
                col = col + 1;
            }
            row = row + 1;
        }
        true
    }

    /// Records the numbers on a board that is `start` with mines added at
    /// `placed`.
    fn finish_placement(&mut self, Ghost(start): Ghost<BoardView>, Ghost(placed): Ghost<Seq<Coordinates>>)
        requires
            old(self)@.wf(),
            old(self)@.width == start.width,
            old(self)@.height == start.height,
            forall|c: Coordinates|
                #![trigger old(self)@.tile(c)]
                start.in_bounds(c) ==> old(self)@.tile(c) == if placed.contains(c) {
                    TileView { mine: true, ..start.tile(c) }
                } else {
                    start.tile(c)
                },
        ensures
            mined_and_numbered(start, final(self)@, placed),
            final(self)@.mine_total() == old(self)@.mine_total(),
    {
        let ghost mid = self@;
        self.update_tile_numbers();
        proof {
            assert forall|c: Coordinates|
                #![trigger self@.tile(c)]
                start.in_bounds(c) implies self@.tile(c) == (TileView {
                    mine: start.tile(c).mine || placed.contains(c),
                    number: if self@.adjacent_mines(c) == 0 {
                        start.tile(c).number
                    } else {
                        Some(self@.adjacent_mines(c) as usize)
                    },
                    ..start.tile(c)
                }) by {
                mid.lemma_neighbors(c);
                let n = mid.neighbors(c);
                assert forall|i: int| 0 <= i < n.len() implies is_mine(mid.tile(#[trigger] n[i]))
                    == is_mine(self@.tile(n[i])) by {
                    assert(self@.tile(n[i]) == mid.numbered(n[i]));
                }
                mid.lemma_count_at_agree(self@, n, |t: TileView| is_mine(t));
            }
        }
    }

    /// Every mine added by a placement lies off the safe area.
    proof fn lemma_placed_far(
        &self,
        start: BoardView,
        origin: Coordinates,
        radius: int,
        cands: Seq<Coordinates>,
        picks: Seq<usize>,
    )
        requires
            mined_and_numbered(start, self@, chosen(cands, picks)),
            forall|i: int|
                0 <= i < cands.len() ==> start.is_free(#[trigger] cands[i], origin, radius),
        ensures
            forall|c: Coordinates|
                start.in_bounds(c) && #[trigger] self@.tile(c).mine && !start.tile(c).mine
                    ==> c.distance(origin) > radius,
    {
        lemma_chosen_from(cands, picks);
        assert forall|c: Coordinates|
            start.in_bounds(c) && #[trigger] self@.tile(c).mine && !start.tile(c).mine
                implies c.distance(origin) > radius by {
            assert(chosen(cands, picks).contains(c));
            let i = choose|i: int| 0 <= i < cands.len() && cands[i] == c;
            assert(start.is_free(cands[i], origin, radius));
        }
    }

    /// The flood-fill reveal. Tiles to visit sit on a stack that starts with
    /// `seeds`; each popped tile that can be flipped is flipped and
    /// reported. A mine ends the whole flood; a tile with no number pushes its
    /// neighbours; a numbered tile is a border. Returns the notices in the
    /// order the tiles were flipped.
    pub fn reveal_from(&mut self, seeds: Vec<Coordinates>) -> (r: Vec<TileRevealed>)
        requires
            old(self)@.wf(),
            forall|k: int| 0 <= k < seeds@.len() ==> old(self)@.in_bounds(#[trigger] seeds@[k]),
        ensures
            flood_post(old(self)@, final(self)@, seeds@, r@),
            (final(self)@, r@) == flood_run(old(self)@, seeds@, Seq::empty()),
    {
        let ghost start = self@;
        let ghost all = seeds@;
        let mut stack = seeds;
        let mut out: Vec<TileRevealed> = Vec::new();
        let mut hit = false;
        proof {
            lemma_flood_start(start, all);
        }
        while !hit && stack.len() > 0
            invariant
                self@.wf(),
                self@.width == start.width,
                self@.height == start.height,
                hit == hit_mine(out@),
                forall|k: int| 0 <= k < stack@.len() ==> self@.in_bounds(#[trigger] stack@[k]),
                flood_inv(start, all, self@, stack@, out@),
                flood_run(self@, stack@, out@) == flood_run(start, all, Seq::empty()),
            decreases self@.hidden_total(), stack@.len(),
        {
            let ghost before = self@;
            let ghost old_stack = stack@;
            let ghost old_out = out@;
            let c = stack.pop().unwrap();
            assert(c == old_stack[old_stack.len() - 1]);
            assert(stack@ =~= old_stack.drop_last());
            let at = self.index_of(&c);
            let mut tile = self.tiles[at];
            if tile.flip() {
                self.set_tile(&c, tile);
                let revealed = TileRevealed {
                    coordinates: c,
                    has_mine: tile.contains_mine(),
                    number: tile.number(),
                };
                out.push(revealed);
                proof {
                    reveal(inv_frame);
                    assert(revealed == notice(start, c));
                }
                let ghost popped = stack@;
                if tile.contains_mine() {
                    hit = true;
                } else if tile.number().is_none() {
                    let mut around = self.neighbors_of(&c);
                    stack.append(&mut around);
                }
                proof {
                    let pushed = if opens(notice(start, c)) {
                        before.neighbors(c)
                    } else {
                        Seq::<Coordinates>::empty()
                    };
                    assert(stack@ =~= popped + pushed);
                    assert(self@.cells =~= before.cells.update(
                        before.index(c),
                        TileView { flipped: true, ..before.tile(c) },
                    ));
                    lemma_flood_flip(start, all, before, self@, old_stack, old_out, pushed);
                    assert(self@ == flipped_at(before, c));
                    assert(notice(before, c) == notice(start, c));
                    assert(flood_run(before, old_stack, old_out) == flood_run(
                        self@,
                        stack@,
                        out@,
                    ));
                }
            } else {
                proof {
                    lemma_flood_skip(start, all, before, old_stack, old_out);
                    assert(flood_run(before, old_stack, old_out) == flood_run(self@, stack@, out@));
                }
            }
        }
        proof {
            lemma_flood_done(start, all, self@, stack@, out@);
        }
        out
    }

    /// Puts `t` in place of the tile at `c`.
    fn set_tile(&mut self, c: &Coordinates, t: Tile)
        requires
            old(self)@.wf(),
            old(self)@.in_bounds(*c),
        ensures
            final(self)@ == (BoardView {
                cells: old(self)@.cells.update(old(self)@.index(*c), t@),
                ..old(self)@
            }),
            forall|x: Coordinates|
                #![trigger final(self)@.tile(x)]
                old(self)@.in_bounds(x) ==> final(self)@.tile(x) == if x == *c {
                    t@
                } else {
                    old(self)@.tile(x)
                },
    {
        let i = self.index_of(c);
        self.tiles.set(i, t);
        assert(self@.cells =~= old(self)@.cells.update(i as int, t@));
        proof {
            old(self)@.lemma_index();
            assert forall|x: Coordinates|
                #![trigger self@.tile(x)]
                old(self)@.in_bounds(x) implies self@.tile(x) == if x == *c {
                    t@
                } else {
                    old(self)@.tile(x)
                } by {
                if x != *c {
                    assert(old(self)@.index(x) != old(self)@.index(*c));
                }
            }
        }
    }
}

} // verus!

use vstd::arithmetic::div_mod::lemma_fundamental_div_mod;
use vstd::prelude::*;

use crate::coordinates::{adjacent, Coordinates};
use crate::shade::Shade;
use crate::tile::TileView;

verus! {

/// A board as contracts see it: its size and its tiles in row-major order.
pub struct BoardView {
    pub width: int,
    pub height: int,
    pub cells: Seq<TileView>,
}

/// The tile a new board holds at `c`.
pub open spec fn fresh_tile(c: Coordinates) -> TileView {
    TileView {
        mine: false,
        flipped: false,
        marked: false,
        number: None,
        shade: Shade::of(c.row as int, c.col as int),
    }
}

/// A new board of `width` columns and `height` rows.
pub open spec fn fresh_board(width: int, height: int) -> BoardView {
    let b = BoardView { width, height, cells: Seq::empty() };
    BoardView {
        width,
        height,
        cells: Seq::new((width * height) as nat, |i: int| fresh_tile(b.coordinates_of(i))),
    }
}

/// The position of `(col, row)` among the tiles of a board `width` wide.
pub open spec fn row_major(width: int, row: int, col: int) -> int {
    row * width + col
}

/// The `k`th of the nine offsets `(-1, -1), (-1, 0), ..., (1, 1)` in
/// row-major order; the fifth is the tile itself.
pub open spec fn offset_row(k: int) -> int {
    k / 3 - 1
}

pub open spec fn offset_col(k: int) -> int {
    k % 3 - 1
}

pub open spec fn shifted(c: Coordinates, k: int) -> Coordinates {
    Coordinates { col: (c.col + offset_col(k)) as i64, row: (c.row + offset_row(k)) as i64 }
}

/// Neighbours of `c` on a `width` by `height` board among the first `k` of
/// the nine offsets, in that order.
pub open spec fn neighbors_upto(width: int, height: int, c: Coordinates, k: int) -> Seq<Coordinates>
    decreases k,
{
    if k <= 0 {
        Seq::empty()
    } else {
        let before = neighbors_upto(width, height, c, k - 1);
        let b = shifted(c, k - 1);
        if k - 1 != 4 && 0 <= b.col < width && 0 <= b.row < height {
            before.push(b)
        } else {
            before
        }
    }
}

/// The tiles picked by `picks` from `cands`: each pick, taken modulo the
/// number of tiles left, chooses one tile, which then leaves the list.
pub open spec fn chosen(cands: Seq<Coordinates>, picks: Seq<usize>) -> Seq<Coordinates>
    decreases picks.len(),
{
    if picks.len() == 0 || cands.len() == 0 {
        Seq::empty()
    } else {
        let j = (picks[0] as int) % (cands.len() as int);
        seq![cands[j]] + chosen(cands.remove(j), picks.drop_first())
    }
}

/// Every tile that `picks` choose comes from `cands`.
pub proof fn lemma_chosen_from(cands: Seq<Coordinates>, picks: Seq<usize>)
    ensures
        forall|x: Coordinates| #[trigger] chosen(cands, picks).contains(x) ==> cands.contains(x),
    decreases picks.len(),
{
    if picks.len() > 0 && cands.len() > 0 {
        let j = (picks[0] as int) % (cands.len() as int);
        let rest = cands.remove(j);
        lemma_chosen_from(rest, picks.drop_first());
        assert forall|x: Coordinates| #[trigger] chosen(cands, picks).contains(x) implies cands.contains(x) by {
            let s = chosen(cands, picks);
            let i = choose|i: int| 0 <= i < s.len() && s[i] == x;
            if i == 0 {
                assert(cands[j] == x);
            } else {
                assert(chosen(rest, picks.drop_first())[i - 1] == x);
                assert(chosen(rest, picks.drop_first()).contains(x));
                let k = choose|k: int| 0 <= k < rest.len() && rest[k] == x;
                if k < j {
                    assert(cands[k] == x);
                } else {
                    assert(cands[k + 1] == x);
                }
            }
        }
    }
}

/// `new` is `old` with mines added at `placed` and every tile's number recorded.
pub open spec fn mined_and_numbered(old: BoardView, new: BoardView, placed: Seq<Coordinates>) -> bool {
    &&& new.wf()
    &&& new.width == old.width
    &&& new.height == old.height
    &&& forall|c: Coordinates|
        #![trigger new.tile(c)]
        old.in_bounds(c) ==> new.tile(c) == (TileView {
            mine: old.tile(c).mine || placed.contains(c),
            number: if new.adjacent_mines(c) == 0 {
                old.tile(c).number
            } else {
                Some(new.adjacent_mines(c) as usize)
            },
            ..old.tile(c)
        })
}

/// Earlier in row-major order comes first in the tile sequence.
pub proof fn lemma_row_major_lt(width: int, r1: int, c1: int, r2: int, c2: int)
    requires
        0 <= c1 < width,
        0 <= c2 < width,
        r1 < r2 || (r1 == r2 && c1 < c2),
    ensures
        row_major(width, r1, c1) < row_major(width, r2, c2),
{
    if r1 < r2 {
        assert(r1 * width + width <= r2 * width) by (nonlinear_arith)
            requires
                r1 < r2,
                0 < width,
        ;
    }
}


/// How many tiles of `s` satisfy `f`.
pub open spec fn count_tiles(s: Seq<TileView>, f: spec_fn(TileView) -> bool) -> nat
    decreases s.len(),
{
    if s.len() == 0 {
        0
    } else {
        count_tiles(s.drop_last(), f) + if f(s.last()) {
            1nat
        } else {
            0nat
        }
    }
}

pub open spec fn is_mine(t: TileView) -> bool {
    t.mine
}

pub open spec fn is_marked(t: TileView) -> bool {
    t.marked
}

pub open spec fn is_hidden(t: TileView) -> bool {
    !t.flipped
}

/// Replacing one tile changes the count by what the two tiles contribute.
pub proof fn lemma_count_update(s: Seq<TileView>, i: int, t: TileView, f: spec_fn(TileView) -> bool)
    requires
        0 <= i < s.len(),
    ensures
        count_tiles(s.update(i, t), f) + (if f(s[i]) {
            1int
        } else {
            0int
        }) == count_tiles(s, f) + (if f(t) {
            1int
        } else {
            0int
        }),
    decreases s.len(),
{
    let u = s.update(i, t);
    if i == s.len() - 1 {
        assert(u.drop_last() =~= s.drop_last());
    } else {
        assert(u.drop_last() =~= s.drop_last().update(i, t));
        lemma_count_update(s.drop_last(), i, t, f);
    }
}

/// Sequences whose tiles agree under `f` give the same count.
pub proof fn lemma_count_agree(s1: Seq<TileView>, s2: Seq<TileView>, f: spec_fn(TileView) -> bool)
    requires
        s1.len() == s2.len(),
        forall|i: int| 0 <= i < s1.len() ==> f(#[trigger] s1[i]) == f(s2[i]),
    ensures
        count_tiles(s1, f) == count_tiles(s2, f),
    decreases s1.len(),
{
    if s1.len() > 0 {
        lemma_count_agree(s1.drop_last(), s2.drop_last(), f);
    }
}

/// A count over tiles that all fail `f` is zero.
pub proof fn lemma_count_none(s: Seq<TileView>, f: spec_fn(TileView) -> bool)
    requires
        forall|i: int| 0 <= i < s.len() ==> !f(#[trigger] s[i]),
    ensures
        count_tiles(s, f) == 0,
    decreases s.len(),
{
    if s.len() > 0 {
        lemma_count_none(s.drop_last(), f);
    }
}

impl BoardView {
    pub open spec fn wf(self) -> bool {
        &&& 0 <= self.width <= i64::MAX
        &&& 0 <= self.height <= i64::MAX
        &&& self.width * self.height <= usize::MAX
        &&& self.cells.len() == self.width * self.height
    }

    pub open spec fn in_bounds(self, c: Coordinates) -> bool {
        &&& 0 <= c.col < self.width
        &&& 0 <= c.row < self.height
    }

    pub open spec fn index(self, c: Coordinates) -> int {
        row_major(self.width, c.row as int, c.col as int)
    }

    pub open spec fn tile(self, c: Coordinates) -> TileView {
        self.cells[self.index(c)]
    }

    /// The tiles around `c` that lie on the board, in row-major order.
    pub open spec fn neighbors(self, c: Coordinates) -> Seq<Coordinates> {
        neighbors_upto(self.width, self.height, c, 9)
    }


    /// A tile that may take a mine: off the safe area around `origin` and
    /// not mined yet.
    pub open spec fn is_free(self, c: Coordinates, origin: Coordinates, radius: int) -> bool {
        c.distance(origin) > radius && !self.tile(c).mine
    }

    /// The free tiles of row `row` among its first `cols` columns.
    pub open spec fn free_in_row(self, origin: Coordinates, radius: int, row: int, cols: int) -> Seq<
        Coordinates,
    >
        decreases cols,
    {
        if cols <= 0 {
            Seq::empty()
        } else {
            let before = self.free_in_row(origin, radius, row, cols - 1);
            let c = Coordinates { col: (cols - 1) as i64, row: row as i64 };
            if self.is_free(c, origin, radius) {
                before.push(c)
            } else {
                before
            }
        }
    }

    /// The free tiles of the first `rows` rows, in row-major order.
    pub open spec fn free_upto(self, origin: Coordinates, radius: int, rows: int) -> Seq<Coordinates>
        decreases rows,
    {
        if rows <= 0 {
            Seq::empty()
        } else {
            self.free_upto(origin, radius, rows - 1) + self.free_in_row(
                origin,
                radius,
                rows - 1,
                self.width,
            )
        }
    }

    /// All free tiles of the board, in row-major order.
    pub open spec fn free_tiles(self, origin: Coordinates, radius: int) -> Seq<Coordinates> {
        self.free_upto(origin, radius, self.height)
    }

    /// How many of the tiles at `s` satisfy `f`.
    pub open spec fn count_at(self, s: Seq<Coordinates>, f: spec_fn(TileView) -> bool) -> nat
        decreases s.len(),
    {
        if s.len() == 0 {
            0
        } else {
            self.count_at(s.drop_last(), f) + if f(self.tile(s.last())) {
                1nat
            } else {
                0nat
            }
        }
    }

    /// The number of mines around `c`.
    pub open spec fn adjacent_mines(self, c: Coordinates) -> nat {
        self.count_at(self.neighbors(c), |t: TileView| is_mine(t))
    }

    /// The number of flags around `c`.
    pub open spec fn adjacent_marks(self, c: Coordinates) -> nat {
        self.count_at(self.neighbors(c), |t: TileView| is_marked(t))
    }

    /// The tile at `c` once its number is recorded; a zero count leaves it as it is.
    pub open spec fn numbered(self, c: Coordinates) -> TileView {
        if self.adjacent_mines(c) == 0 {
            self.tile(c)
        } else {
            TileView { number: Some(self.adjacent_mines(c) as usize), ..self.tile(c) }
        }
    }

    /// The number a tile at `c` should show: `None` where no mine is adjacent.
    pub open spec fn expected_number(self, c: Coordinates) -> Option<usize> {
        if self.adjacent_mines(c) == 0 {
            None
        } else {
            Some(self.adjacent_mines(c) as usize)
        }
    }

    /// The number of mines on the board.
    pub open spec fn mine_total(self) -> nat {
        count_tiles(self.cells, |t: TileView| is_mine(t))
    }

    /// The number of hidden tiles on the board.
    pub open spec fn hidden_total(self) -> nat {
        count_tiles(self.cells, |t: TileView| is_hidden(t))
    }

    /// Two boards of one size whose tiles agree under `f` give the same counts.
    pub proof fn lemma_count_at_agree(
        self,
        other: BoardView,
        s: Seq<Coordinates>,
        f: spec_fn(TileView) -> bool,
    )
        requires
            forall|i: int|
                0 <= i < s.len() ==> f(self.tile(#[trigger] s[i])) == f(other.tile(s[i])),
        ensures
            self.count_at(s, f) == other.count_at(s, f),
        decreases s.len(),
    {
        if s.len() > 0 {
            self.lemma_count_at_agree(other, s.drop_last(), f);
        }
    }

    /// A count is never larger than the number of places counted.
    pub proof fn lemma_count_at_len(self, s: Seq<Coordinates>, f: spec_fn(TileView) -> bool)
        ensures
            self.count_at(s, f) <= s.len(),
        decreases s.len(),
    {
        if s.len() > 0 {
            self.lemma_count_at_len(s.drop_last(), f);
        }
    }


    /// The coordinates of the `i`th tile of the sequence.
    pub open spec fn coordinates_of(self, i: int) -> Coordinates {
        Coordinates { col: (i % self.width) as i64, row: (i / self.width) as i64 }
    }

    /// Each place in the tile sequence belongs to a tile on the board.
    pub proof fn lemma_coordinates_of(self, i: int)
        requires
            self.wf(),
            0 <= i < self.cells.len(),
        ensures
            self.in_bounds(self.coordinates_of(i)),
            self.index(self.coordinates_of(i)) == i,
    {
        let w = self.width;
        let h = self.height;
        assert(w > 0) by {
            if w == 0 {
                assert(w * h == 0) by (nonlinear_arith)
                    requires
                        w == 0,
                ;
            }
        }
        lemma_fundamental_div_mod(i, w);
        let q = i / w;
        let r = i % w;
        assert(0 <= r < w);
        assert(0 <= q < h) by (nonlinear_arith)
            requires
                i == w * q + r,
                0 <= r < w,
                0 <= i < w * h,
                w > 0,
        ;
        assert(q * w == w * q) by (nonlinear_arith);
    }

    /// A board with no mine on it has a mine total of zero.
    pub proof fn lemma_no_mines(self)
        requires
            self.wf(),
            forall|c: Coordinates| self.in_bounds(c) ==> !(#[trigger] self.tile(c)).mine,
        ensures
            self.mine_total() == 0,
    {
        assert forall|i: int| 0 <= i < self.cells.len() implies !is_mine(#[trigger] self.cells[i]) by {
            self.lemma_coordinates_of(i);
            assert(!self.tile(self.coordinates_of(i)).mine);
        }
        lemma_count_none(self.cells, |t: TileView| is_mine(t));
    }

    /// Two boards of one size that hold mines on the same tiles have the same
    /// mine total, the same counts around each tile, and the same free tiles.
    pub proof fn lemma_same_mines(self, other: BoardView)
        requires
            self.wf(),
            other.wf(),
            self.width == other.width,
            self.height == other.height,
            forall|c: Coordinates| self.in_bounds(c) ==> (#[trigger] self.tile(c)).mine == other.tile(c).mine,
        ensures
            self.mine_total() == other.mine_total(),
            forall|c: Coordinates| self.in_bounds(c) ==> #[trigger] self.adjacent_mines(c) == other.adjacent_mines(c),
            forall|c: Coordinates, radius: int| #[trigger] self.free_tiles(c, radius) == other.free_tiles(c, radius),
    {
        assert forall|i: int| 0 <= i < self.cells.len() implies is_mine(#[trigger] self.cells[i]) == is_mine(
            other.cells[i],
        ) by {
            self.lemma_coordinates_of(i);
            assert(self.tile(self.coordinates_of(i)).mine == other.tile(self.coordinates_of(i)).mine);
        }
        lemma_count_agree(self.cells, other.cells, |t: TileView| is_mine(t));
        assert forall|c: Coordinates| self.in_bounds(c) implies #[trigger] self.adjacent_mines(c)
            == other.adjacent_mines(c) by {
            self.lemma_neighbors(c);
            let n = self.neighbors(c);
            assert forall|i: int| 0 <= i < n.len() implies is_mine(self.tile(#[trigger] n[i])) == is_mine(
                other.tile(n[i]),
            ) by {
                assert(self.in_bounds(n[i]));
            }
            self.lemma_count_at_agree(other, n, |t: TileView| is_mine(t));
        }
        assert forall|c: Coordinates, radius: int| #[trigger] self.free_tiles(c, radius) == other.free_tiles(c, radius) by {
            self.lemma_free_upto_agree(other, c, radius, self.height);
        }
    }

    proof fn lemma_free_upto_agree(self, other: BoardView, origin: Coordinates, radius: int, rows: int)
        requires
            self.wf(),
            self.width == other.width,
            self.height == other.height,
            rows <= self.height,
            forall|c: Coordinates| self.in_bounds(c) ==> (#[trigger] self.tile(c)).mine == other.tile(c).mine,
        ensures
            self.free_upto(origin, radius, rows) == other.free_upto(origin, radius, rows),
        decreases rows,
    {
        if rows > 0 {
            self.lemma_free_upto_agree(other, origin, radius, rows - 1);
            self.lemma_free_in_row_agree(other, origin, radius, rows - 1, self.width);
        }
    }

    proof fn lemma_free_in_row_agree(
        self,
        other: BoardView,
        origin: Coordinates,
        radius: int,
        row: int,
        cols: int,
    )
        requires
            self.wf(),
            self.width == other.width,
            self.height == other.height,
            0 <= row < self.height,
            cols <= self.width,
            forall|c: Coordinates| self.in_bounds(c) ==> (#[trigger] self.tile(c)).mine == other.tile(c).mine,
        ensures
            self.free_in_row(origin, radius, row, cols) == other.free_in_row(origin, radius, row, cols),
        decreases cols,
    {
        if cols > 0 {
            self.lemma_free_in_row_agree(other, origin, radius, row, cols - 1);
            let c = Coordinates { col: (cols - 1) as i64, row: row as i64 };
            assert(self.in_bounds(c));
        }
    }

    /// Every tile without a mine is revealed.
    pub open spec fn all_safe_flipped(self) -> bool {
        forall|c: Coordinates| self.in_bounds(c) && !(#[trigger] self.tile(c)).mine ==> self.tile(c).flipped
    }

    /// Every tile shows the number of mines around it.
    pub open spec fn numbers_correct(self) -> bool {
        forall|c: Coordinates| self.in_bounds(c) ==> (#[trigger] self.tile(c)).number == self.expected_number(c)
    }

    /// Every tile on the board has a distinct place in the tile sequence.
    pub proof fn lemma_index(self)
        requires
            self.wf(),
        ensures
            forall|c: Coordinates|
                self.in_bounds(c) ==> 0 <= #[trigger] self.index(c) < self.cells.len(),
            forall|a: Coordinates, b: Coordinates|
                self.in_bounds(a) && self.in_bounds(b) && #[trigger] self.index(a)
                    == #[trigger] self.index(b) ==> a == b,
    {
        assert forall|c: Coordinates| self.in_bounds(c) implies 0 <= #[trigger] self.index(
            c,
        ) < self.cells.len() by {
            lemma_row_major_lt(self.width, c.row as int, c.col as int, self.height, 0);
            assert(self.height * self.width == self.width * self.height) by (nonlinear_arith);
            assert(0 <= c.row * self.width) by (nonlinear_arith)
                requires
                    0 <= c.row,
                    0 <= self.width,
            ;
        }
        assert forall|a: Coordinates, b: Coordinates|
            self.in_bounds(a) && self.in_bounds(b) && #[trigger] self.index(a)
                == #[trigger] self.index(b) implies a == b by {
            if a.row < b.row || (a.row == b.row && a.col < b.col) {
                lemma_row_major_lt(self.width, a.row as int, a.col as int, b.row as int, b.col as int);
            } else if b.row < a.row || (a.row == b.row && b.col < a.col) {
                lemma_row_major_lt(self.width, b.row as int, b.col as int, a.row as int, a.col as int);
            }
        }
    }

    /// The first `k` offsets give each neighbour once, and nothing else.
    proof fn lemma_neighbors_upto(self, c: Coordinates, k: int)
        requires
            self.wf(),
            self.in_bounds(c),
            0 <= k <= 9,
        ensures
            neighbors_upto(self.width, self.height, c, k).no_duplicates(),
            forall|b: Coordinates| #[trigger]
                neighbors_upto(self.width, self.height, c, k).contains(b) <==> self.in_bounds(b) && exists|j: int|
                    0 <= j < k && j != 4 && b == shifted(c, j),
        decreases k,
    {
        if k > 0 {
            self.lemma_neighbors_upto(c, k - 1);
            let before = neighbors_upto(self.width, self.height, c, k - 1);
            let x = shifted(c, k - 1);
            let now = neighbors_upto(self.width, self.height, c, k);
            assert forall|b: Coordinates| #[trigger] now.contains(b) <==> self.in_bounds(b) && exists|j: int|
                0 <= j < k && j != 4 && b == shifted(c, j) by {
                if now.contains(b) {
                    let i = choose|i: int| 0 <= i < now.len() && now[i] == b;
                    if i < before.len() {
                        assert(before[i] == b);
                        assert(before.contains(b));
                    }
                }
                if self.in_bounds(b) && exists|j: int| 0 <= j < k && j != 4 && b == shifted(c, j) {
                    let j = choose|j: int| 0 <= j < k && j != 4 && b == shifted(c, j);
                    if j < k - 1 {
                        assert(before.contains(b));
                        let i = choose|i: int| 0 <= i < before.len() && before[i] == b;
                        assert(now[i] == b);
                    } else {
                        assert(now[now.len() - 1] == b);
                    }
                }
            }
            if k - 1 != 4 && self.in_bounds(x) {
                assert forall|j: int| 0 <= j < k - 1 && j != 4 implies shifted(c, j) != x by {
                    assert(offset_row(j) != offset_row(k - 1) || offset_col(j) != offset_col(k - 1));
                }
                assert(!before.contains(x));
            }
        }
    }

    /// The neighbours of a tile are exactly the adjacent tiles on the board,
    /// each listed once.
    pub proof fn lemma_neighbors(self, c: Coordinates)
        requires
            self.wf(),
            self.in_bounds(c),
        ensures
            self.neighbors(c).no_duplicates(),
            forall|b: Coordinates|
                #[trigger] self.neighbors(c).contains(b) <==> self.in_bounds(b) && adjacent(c, b),
            forall|i: int|
                0 <= i < self.neighbors(c).len() ==> self.in_bounds(#[trigger] self.neighbors(c)[i]),
    {
        self.lemma_neighbors_upto(c, 9);
        let n = self.neighbors(c);
        assert forall|b: Coordinates| #[trigger] n.contains(b) <==> self.in_bounds(b) && adjacent(c, b) by {
            if self.in_bounds(b) && adjacent(c, b) {
                let k = (b.row - c.row + 1) * 3 + (b.col - c.col + 1);
                assert(b == shifted(c, k));
            }
            if n.contains(b) {
                let j = choose|j: int| 0 <= j < 9 && j != 4 && b == shifted(c, j);
                assert(adjacent(c, b));
            }
        }
        assert forall|i: int| 0 <= i < n.len() implies self.in_bounds(#[trigger] n[i]) by {
            assert(n.contains(n[i]));
        }
    }
}

} // verus!

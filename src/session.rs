use vstd::prelude::*;

use crate::board::{chosen, fresh_board, mined_and_numbered, BoardView};
use crate::coordinates::Coordinates;
use crate::flood::{flood_post, flood_run, hit_mine, lemma_mine_hit_stops, notice, TileRevealed};
use crate::tile::Tile;
use crate::tilemap::{BoardError, TileMap};

verus! {

/// The distance from the first revealed tile within which no mine is
/// placed: tiles at a manhattan distance of at most this stay clear.
pub const SAFETY_RADIUS: u64 = 3;

/// Where a game stands.
#[derive(Debug, Clone, Copy, PartialEq, Eq, Structural)]
pub enum GameState {
    /// No tile revealed yet; the mines are not placed.
    Pending,
    Ongoing,
    /// Every tile without a mine is revealed.
    Won,
    /// A mine was revealed.
    Lost,
}

impl Default for GameState {
    fn default() -> (r: Self)
        ensures
            r == GameState::Pending,
    {
        GameState::Pending
    }
}

/// A session as contracts see it.
pub struct SessionView {
    pub state: GameState,
    pub board: BoardView,
    pub mine_count: nat,
    pub safety_radius: nat,
}

/// Whatever tile is revealed first, enough tiles stay free for the mines.
pub open spec fn fits(b: BoardView, mine_count: nat, radius: nat) -> bool {
    forall|c: Coordinates|
        b.in_bounds(c) ==> mine_count <= (#[trigger] b.free_tiles(c, radius as int)).len()
}

/// The state after a command that revealed `r` and left the board `b`: a
/// revealed mine loses, all safe tiles revealed wins.
pub open spec fn judged(b: BoardView, r: Seq<TileRevealed>) -> GameState {
    if hit_mine(r) {
        GameState::Lost
    } else if b.all_safe_flipped() {
        GameState::Won
    } else {
        GameState::Ongoing
    }
}

/// `mid` is `old` with `mine_count` mines placed for a first reveal at
/// `origin`, and the numbers recorded.
pub open spec fn placed_for(
    old: BoardView,
    mid: BoardView,
    origin: Coordinates,
    mine_count: nat,
    radius: nat,
) -> bool {
    &&& exists|picks: Seq<usize>|
        picks.len() == mine_count && #[trigger] mined_and_numbered(
            old,
            mid,
            chosen(old.free_tiles(origin, radius as int), picks),
        )
    &&& mid.mine_total() == old.mine_total() + mine_count
    &&& forall|c: Coordinates|
        old.in_bounds(c) && #[trigger] mid.tile(c).mine && !old.tile(c).mine ==> c.distance(origin)
            > radius
}

impl SessionView {
    pub open spec fn wf(self) -> bool {
        &&& self.board.wf()
        &&& self.mine_count <= u64::MAX
        &&& self.safety_radius <= u64::MAX
        &&& self.state == GameState::Pending ==> {
            &&& fits(self.board, self.mine_count, self.safety_radius)
            &&& forall|c: Coordinates|
                self.board.in_bounds(c) ==> {
                    &&& !(#[trigger] self.board.tile(c)).mine
                    &&& !self.board.tile(c).flipped
                    &&& self.board.tile(c).number is None
                }
        }
        &&& self.state != GameState::Pending ==> {
            &&& self.board.numbers_correct()
            &&& self.board.mine_total() == self.mine_count
        }
    }
}

/// A game: the board and the rules of play around it.
#[derive(Debug)]
pub struct Session {
    state: GameState,
    map: TileMap,
    mine_count: u64,
    safety_radius: u64,
}

impl View for Session {
    type V = SessionView;

    closed spec fn view(&self) -> SessionView {
        SessionView {
            state: self.state,
            board: self.map@,
            mine_count: self.mine_count as nat,
            safety_radius: self.safety_radius as nat,
        }
    }
}

/// A reveal keeps the mines and the numbers, so the numbers stay right.
proof fn lemma_flood_keeps_numbers(
    old: BoardView,
    new: BoardView,
    seeds: Seq<Coordinates>,
    r: Seq<TileRevealed>,
)
    requires
        old.wf(),
        old.numbers_correct(),
        flood_post(old, new, seeds, r),
    ensures
        new.numbers_correct(),
        new.mine_total() == old.mine_total(),
{
    assert forall|c: Coordinates| old.in_bounds(c) implies (#[trigger] old.tile(c)).mine == new.tile(
        c,
    ).mine by {
        assert(new.tile(c).mine == old.tile(c).mine);
    }
    old.lemma_same_mines(new);
    assert forall|c: Coordinates| new.in_bounds(c) implies (#[trigger] new.tile(c)).number
        == new.expected_number(c) by {
        assert(old.tile(c).number == old.expected_number(c));
    }
}

/// Revealing a hidden, unflagged mine in a game under way reports that one
/// tile and loses the game, whatever else is left to reveal.
pub proof fn lemma_mine_reveal_loses(
    old: SessionView,
    new: SessionView,
    c: Coordinates,
    r: Seq<TileRevealed>,
)
    requires
        old.wf(),
        old.board.in_bounds(c),
        !old.board.tile(c).flipped,
        !old.board.tile(c).marked,
        old.board.tile(c).mine,
        flood_post(old.board, new.board, seq![c], r),
        new.state == judged(new.board, r),
    ensures
        r == seq![notice(old.board, c)],
        new.state == GameState::Lost,
{
    lemma_mine_hit_stops(old.board, new.board, c, r);
}

impl Session {
    /// A game on a `width` by `height` board with `mine_count` mines, kept
    /// farther than `SAFETY_RADIUS` from the first revealed tile.
    pub fn new(width: i64, height: i64, mine_count: u64) -> (r: Result<Session, BoardError>)
        requires
            0 <= width,
            0 <= height,
            width * height <= usize::MAX,
        ensures
            match r {
                Ok(s) => {
                    &&& s@.wf()
                    &&& s@.state == GameState::Pending
                    &&& s@.board == fresh_board(width as int, height as int)
                    &&& s@.mine_count == mine_count
                    &&& s@.safety_radius == SAFETY_RADIUS
                },
                Err(e) => e == BoardError::TooManyMines && !fits(
                    fresh_board(width as int, height as int),
                    mine_count as nat,
                    SAFETY_RADIUS as nat,
                ),
            },
    {
        Self::with_safety_radius(width, height, mine_count, SAFETY_RADIUS)
    }

    /// A game whose mines are kept farther than `safety_radius` from the
    /// first revealed tile. Refused when some first tile would leave fewer
    /// free tiles than mines.
    pub fn with_safety_radius(width: i64, height: i64, mine_count: u64, safety_radius: u64) -> (r:
        Result<Session, BoardError>)
        requires
            0 <= width,
            0 <= height,
            width * height <= usize::MAX,
        ensures
            match r {
                Ok(s) => {
                    &&& s@.wf()
                    &&& s@.state == GameState::Pending
                    &&& s@.board == fresh_board(width as int, height as int)
                    &&& s@.mine_count == mine_count
                    &&& s@.safety_radius == safety_radius
                },
                Err(e) => e == BoardError::TooManyMines && !fits(
                    fresh_board(width as int, height as int),
                    mine_count as nat,
                    safety_radius as nat,
                ),
            },
    {
        let map = TileMap::new(width, height);
        let mut row: i64 = 0;
        while row < height
            invariant
                0 <= row <= height,
                map@.wf(),
                map@ == fresh_board(width as int, height as int),
                forall|c: Coordinates|
                    map@.in_bounds(c) && c.row < row ==> mine_count <= (#[trigger] map@.free_tiles(
                        c,
                        safety_radius as int,
                    )).len(),
            decreases height - row,
        {
            let mut col: i64 = 0;
            while col < width
                invariant
                    0 <= row < height,
                    0 <= col <= width,
                    map@.wf(),
                    map@ == fresh_board(width as int, height as int),
                    forall|c: Coordinates|
                        map@.in_bounds(c) && (c.row < row || (c.row == row && c.col < col))
                            ==> mine_count <= (#[trigger] map@.free_tiles(
                            c,
                            safety_radius as int,
                        )).len(),
                decreases width - col,
            {
                let origin = Coordinates::new(col, row);
                let free = map.free_tiles_of(&origin, safety_radius);
                if (free.len() as u128) < (mine_count as u128) {
                    assert(map@.in_bounds(origin));
                    return Err(BoardError::TooManyMines);
                }
                col = col + 1;
            }
            row = row + 1;
        }
        let s = Session { state: GameState::Pending, map, mine_count, safety_radius };
        proof {
            assert forall|c: Coordinates| s@.board.in_bounds(c) implies {
                &&& !(#[trigger] s@.board.tile(c)).mine
                &&& !s@.board.tile(c).flipped
                &&& s@.board.tile(c).number is None
            } by {
                assert(map@.tile(c) == crate::board::fresh_tile(c));
            }
        }
        Ok(s)
    }

    pub fn state(&self) -> (r: GameState)
        ensures
            r == self@.state,
    {
        self.state
    }

    pub fn map(&self) -> (r: &TileMap)
        ensures
            r@ == self@.board,
    {
        &self.map
    }

    pub fn mine_count(&self) -> (r: u64)
        ensures
            r == self@.mine_count,
    {
        self.mine_count
    }

    pub fn safety_radius(&self) -> (r: u64)
        ensures
            r == self@.safety_radius,
    {
        self.safety_radius
    }

    /// The state after a command that revealed `revealed`.
    fn judge(&self, revealed: &Vec<TileRevealed>) -> (r: GameState)
        requires
            self@.board.wf(),
        ensures
            r == judged(self@.board, revealed@),
    {
        if revealed.len() > 0 && revealed[revealed.len() - 1].has_mine {
            GameState::Lost
        } else if self.map.all_safe_revealed() {
            GameState::Won
        } else {
            GameState::Ongoing
        }
    }

    /// Places the mines at random for a first reveal at `c`.
    fn start_game(&mut self, c: &Coordinates)
        requires
            old(self)@.wf(),
            old(self)@.state == GameState::Pending,
            old(self)@.board.in_bounds(*c),
        ensures
            final(self)@.wf(),
            final(self)@.state == GameState::Ongoing,
            final(self)@.mine_count == old(self)@.mine_count,
            final(self)@.safety_radius == old(self)@.safety_radius,
            placed_for(
                old(self)@.board,
                final(self)@.board,
                *c,
                old(self)@.mine_count,
                old(self)@.safety_radius,
            ),
    {
        let ghost start = self.map@;
        proof {
            assert(self@.mine_count <= start.free_tiles(*c, self@.safety_radius as int).len());
            start.lemma_no_mines();
        }
        let placed = self.map.generate_mines(c, self.mine_count, self.safety_radius);
        self.state = GameState::Ongoing;
        proof {
            let mid = self.map@;
            assert(placed is Ok);
            assert forall|x: Coordinates| mid.in_bounds(x) implies (#[trigger] mid.tile(x)).number
                == mid.expected_number(x) by {
                assert(mid.tile(x).number == if mid.adjacent_mines(x) == 0 {
                    start.tile(x).number
                } else {
                    Some(mid.adjacent_mines(x) as usize)
                });
            }
        }
    }

    /// Places the mines by `picks` for a first reveal at `c`.
    fn start_game_with(&mut self, c: &Coordinates, picks: &Vec<usize>)
        requires
            old(self)@.wf(),
            old(self)@.state == GameState::Pending,
            old(self)@.board.in_bounds(*c),
            picks@.len() == old(self)@.mine_count,
        ensures
            final(self)@.wf(),
            final(self)@.state == GameState::Ongoing,
            final(self)@.mine_count == old(self)@.mine_count,
            final(self)@.safety_radius == old(self)@.safety_radius,
            mined_and_numbered(
                old(self)@.board,
                final(self)@.board,
                chosen(old(self)@.board.free_tiles(*c, old(self)@.safety_radius as int), picks@),
            ),
    {
        let ghost start = self.map@;
        proof {
            assert(self@.mine_count <= start.free_tiles(*c, self@.safety_radius as int).len());
            start.lemma_no_mines();
        }
        let placed = self.map.place_mines(c, self.safety_radius, picks);
        self.state = GameState::Ongoing;
        proof {
            let mid = self.map@;
            assert(placed is Ok);
            assert forall|x: Coordinates| mid.in_bounds(x) implies (#[trigger] mid.tile(x)).number
                == mid.expected_number(x) by {
                assert(mid.tile(x).number == if mid.adjacent_mines(x) == 0 {
                    start.tile(x).number
                } else {
                    Some(mid.adjacent_mines(x) as usize)
                });
            }
        }
    }

    /// The flood from `c` in a game under way, and the judgement after it.
    fn flood_and_judge(&mut self, c: &Coordinates) -> (r: Vec<TileRevealed>)
        requires
            old(self)@.wf(),
            old(self)@.state == GameState::Ongoing,
            old(self)@.board.in_bounds(*c),
        ensures
            final(self)@.wf(),
            final(self)@.mine_count == old(self)@.mine_count,
            final(self)@.safety_radius == old(self)@.safety_radius,
            flood_post(old(self)@.board, final(self)@.board, seq![*c], r@),
            (final(self)@.board, r@) == flood_run(old(self)@.board, seq![*c], Seq::empty()),
            final(self)@.state == judged(final(self)@.board, r@),
    {
        let ghost before = self.map@;
        let revealed = match self.map.reveal_tile(c) {
            Ok(v) => v,
            Err(_) => Vec::new(),
        };
        proof {
            lemma_flood_keeps_numbers(before, self.map@, seq![*c], revealed@);
        }
        self.state = self.judge(&revealed);
        revealed
    }

    /// Reveals the tile at `c`. The first reveal places the mines at random,
    /// away from `c`. A revealed mine loses; revealing every safe tile wins.
    /// A finished game ignores the command.
    pub fn reveal_tile(&mut self, c: &Coordinates) -> (r: Result<Vec<TileRevealed>, BoardError>)
        requires
            old(self)@.wf(),
        ensures
            final(self)@.wf(),
            final(self)@.mine_count == old(self)@.mine_count,
            final(self)@.safety_radius == old(self)@.safety_radius,
            match r {
                Err(e) => !old(self)@.board.in_bounds(*c) && e == BoardError::OutOfBounds
                    && final(self)@ == old(self)@,
                Ok(v) => old(self)@.board.in_bounds(*c) && match old(self)@.state {
                    GameState::Won | GameState::Lost => v@.len() == 0 && final(self)@ == old(self)@,
                    GameState::Ongoing => flood_post(old(self)@.board, final(self)@.board, seq![*c], v@)
                        && (final(self)@.board, v@) == flood_run(
                        old(self)@.board,
                        seq![*c],
                        Seq::empty(),
                    ) && final(self)@.state == judged(final(self)@.board, v@),
                    GameState::Pending => (exists|mid: BoardView|
                        #[trigger] placed_for(
                            old(self)@.board,
                            mid,
                            *c,
                            old(self)@.mine_count,
                            old(self)@.safety_radius,
                        ) && flood_post(mid, final(self)@.board, seq![*c], v@) && (final(self)@.board, v@)
                        == flood_run(mid, seq![*c], Seq::empty())) && final(self)@.state
                        == judged(final(self)@.board, v@),
                },
            },
    {
        if !self.map.is_in_bounds(c) {
            return Err(BoardError::OutOfBounds);
        }
        match self.state {
            GameState::Won | GameState::Lost => {
                return Ok(Vec::new());
            },
            GameState::Pending => {
                let ghost start = self.map@;
                self.start_game(c);
                let ghost mid = self.map@;
                let revealed = self.flood_and_judge(c);
                proof {
                    assert(placed_for(start, mid, *c, self@.mine_count, self@.safety_radius)
                        && flood_post(mid, self@.board, seq![*c], revealed@) && (
                        self@.board,
                        revealed@,
                    ) == flood_run(mid, seq![*c], Seq::empty()));
                }
                Ok(revealed)
            },
            GameState::Ongoing => Ok(self.flood_and_judge(c)),
        }
    }

    /// Reveals the tile at `c` as `reveal_tile` does, but a first reveal
    /// places the mines by `picks` (one pick per mine) in place of random
    /// draws: each pick, taken modulo the number of free tiles left, chooses
    /// among them in row-major order.
    pub fn reveal_tile_with(&mut self, c: &Coordinates, picks: &Vec<usize>) -> (r: Result<
        Vec<TileRevealed>,
        BoardError,
    >)
        requires
            old(self)@.wf(),
            picks@.len() == old(self)@.mine_count,
        ensures
            final(self)@.wf(),
            final(self)@.mine_count == old(self)@.mine_count,
            final(self)@.safety_radius == old(self)@.safety_radius,
            match r {
                Err(e) => !old(self)@.board.in_bounds(*c) && e == BoardError::OutOfBounds
                    && final(self)@ == old(self)@,
                Ok(v) => old(self)@.board.in_bounds(*c) && match old(self)@.state {
                    GameState::Won | GameState::Lost => v@.len() == 0 && final(self)@ == old(self)@,
                    GameState::Ongoing => flood_post(old(self)@.board, final(self)@.board, seq![*c], v@)
                        && (final(self)@.board, v@) == flood_run(
                        old(self)@.board,
                        seq![*c],
                        Seq::empty(),
                    ) && final(self)@.state == judged(final(self)@.board, v@),
                    GameState::Pending => (exists|mid: BoardView|
                        #[trigger] mined_and_numbered(
                            old(self)@.board,
                            mid,
                            chosen(
                                old(self)@.board.free_tiles(*c, old(self)@.safety_radius as int),
                                picks@,
                            ),
                        ) && flood_post(mid, final(self)@.board, seq![*c], v@) && (final(self)@.board, v@)
                        == flood_run(mid, seq![*c], Seq::empty())) && final(self)@.state
                        == judged(final(self)@.board, v@),
                },
            },
    {
        if !self.map.is_in_bounds(c) {
            return Err(BoardError::OutOfBounds);
        }
        match self.state {
            GameState::Won | GameState::Lost => {
                return Ok(Vec::new());
            },
            GameState::Pending => {
                let ghost start = self.map@;
                self.start_game_with(c, picks);
                let ghost mid = self.map@;
                let revealed = self.flood_and_judge(c);
                proof {
                    assert(mined_and_numbered(
                        start,
                        mid,
                        chosen(start.free_tiles(*c, self@.safety_radius as int), picks@),
                    ) && flood_post(mid, self@.board, seq![*c], revealed@) && (
                        self@.board,
                        revealed@,
                    ) == flood_run(mid, seq![*c], Seq::empty()));
                }
                Ok(revealed)
            },
            GameState::Ongoing => Ok(self.flood_and_judge(c)),
        }
    }

    /// Puts or lifts the flag at `c` while the game is not finished; returns
    /// whether the flag changed (a revealed tile refuses).
    pub fn toggle_flag(&mut self, c: &Coordinates) -> (r: Result<bool, BoardError>)
        requires
            old(self)@.wf(),
        ensures
            final(self)@.wf(),
            final(self)@.state == old(self)@.state,
            final(self)@.mine_count == old(self)@.mine_count,
            final(self)@.safety_radius == old(self)@.safety_radius,
            final(self)@.board.width == old(self)@.board.width,
            final(self)@.board.height == old(self)@.board.height,
            match r {
                Err(e) => !old(self)@.board.in_bounds(*c) && e == BoardError::OutOfBounds
                    && final(self)@ == old(self)@,
                Ok(changed) => {
                    &&& old(self)@.board.in_bounds(*c)
                    &&& changed == (!old(self)@.board.tile(*c).flipped && (old(self)@.state
                        == GameState::Pending || old(self)@.state == GameState::Ongoing))
                    &&& forall|x: Coordinates|
                        #![trigger final(self)@.board.tile(x)]
                        old(self)@.board.in_bounds(x) ==> final(self)@.board.tile(x) == if x == *c
                            && changed {
                            crate::tile::TileView {
                                marked: !old(self)@.board.tile(x).marked,
                                ..old(self)@.board.tile(x)
                            }
                        } else {
                            old(self)@.board.tile(x)
                        }
                },
            },
    {
        if !self.map.is_in_bounds(c) {
            return Err(BoardError::OutOfBounds);
        }
        match self.state {
            GameState::Won | GameState::Lost => Ok(false),
            _ => {
                let ghost before = self.map@;
                let changed = self.map.toggle_mark(c);
                proof {
                    let after = self.map@;
                    assert forall|x: Coordinates| before.in_bounds(x) implies (#[trigger] before.tile(
                        x,
                    )).mine == after.tile(x).mine by {
                        assert(after.tile(x).mine == before.tile(x).mine);
                    }
                    before.lemma_same_mines(after);
                    if self.state == GameState::Pending {
                        assert forall|x: Coordinates| after.in_bounds(x) implies self@.mine_count
                            <= (#[trigger] after.free_tiles(x, self@.safety_radius as int)).len() by {
                            assert(self@.mine_count <= before.free_tiles(x, self@.safety_radius as int).len());
                        }
                        assert forall|x: Coordinates| after.in_bounds(x) implies {
                            &&& !(#[trigger] after.tile(x)).mine
                            &&& !after.tile(x).flipped
                            &&& after.tile(x).number is None
                        } by {
                            assert(!before.tile(x).mine);
                        }
                    } else {
                        assert forall|x: Coordinates| after.in_bounds(x) implies (#[trigger] after.tile(
                            x,
                        )).number == after.expected_number(x) by {
                            assert(before.tile(x).number == before.expected_number(x));
                        }
                    }
                }
                changed
            },
        }
    }

    /// The chord at `c` while the game is under way: when the number shown
    /// at `c` equals the flags around it, reveals every unflagged tile around
    /// it, then judges the game as `reveal_tile` does. Otherwise, or in
    /// another state, does nothing.
    pub fn chord_reveal(&mut self, c: &Coordinates) -> (r: Result<Vec<TileRevealed>, BoardError>)
        requires
            old(self)@.wf(),
        ensures
            final(self)@.wf(),
            final(self)@.mine_count == old(self)@.mine_count,
            final(self)@.safety_radius == old(self)@.safety_radius,
            match r {
                Err(e) => !old(self)@.board.in_bounds(*c) && e == BoardError::OutOfBounds
                    && final(self)@ == old(self)@,
                Ok(v) => old(self)@.board.in_bounds(*c) && if old(self)@.state == GameState::Ongoing
                    && old(self)@.board.tile(*c).number == Some(
                    old(self)@.board.adjacent_marks(*c) as usize,
                ) {
                    flood_post(
                        old(self)@.board,
                        final(self)@.board,
                        old(self)@.board.neighbors(*c),
                        v@,
                    ) && (final(self)@.board, v@) == flood_run(
                        old(self)@.board,
                        old(self)@.board.neighbors(*c),
                        Seq::empty(),
                    ) && final(self)@.state == judged(final(self)@.board, v@)
                } else {
                    v@.len() == 0 && final(self)@ == old(self)@
                },
            },
    {
        if !self.map.is_in_bounds(c) {
            return Err(BoardError::OutOfBounds);
        }
        if self.state != GameState::Ongoing {
            return Ok(Vec::new());
        }
        match self.map.can_reveal_neighbors(c) {
            Ok(true) => {},
            _ => {
                return Ok(Vec::new());
            },
        }
        let ghost before = self.map@;
        let revealed = match self.map.reveal_neighbors(c) {
            Ok(v) => v,
            Err(_) => Vec::new(),
        };
        proof {
            lemma_flood_keeps_numbers(before, self.map@, before.neighbors(*c), revealed@);
        }
        self.state = self.judge(&revealed);
        Ok(revealed)
    }

    /// A copy of the tile at `c`, for display.
    pub fn tile_snapshot(&self, c: &Coordinates) -> (r: Result<Tile, BoardError>)
        requires
            self@.wf(),
        ensures
            match r {
                Ok(t) => self@.board.in_bounds(*c) && t@ == self@.board.tile(*c),
                Err(e) => !self@.board.in_bounds(*c) && e == BoardError::OutOfBounds,
            },
    {
        match self.map.get(c) {
            Ok(t) => Ok(*t),
            Err(e) => Err(e),
        }
    }
}

} // verus!

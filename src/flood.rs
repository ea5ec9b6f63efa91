use vstd::prelude::*;

use crate::board::{is_hidden, lemma_count_update, BoardView};
use crate::coordinates::{adjacent, Coordinates};
use crate::tile::TileView;

verus! {

/// The notice that a tile was revealed, with what it holds.
#[derive(Debug, Clone, Copy, PartialEq, Eq, Structural)]
pub struct TileRevealed {
    pub coordinates: Coordinates,
    pub has_mine: bool,
    pub number: Option<usize>,
}

/// A revealed tile that lets the reveal spread: no mine and no number.
pub open spec fn opens(t: TileRevealed) -> bool {
    !t.has_mine && t.number is None
}

/// The reveal ended on a mine.
pub open spec fn hit_mine(r: Seq<TileRevealed>) -> bool {
    r.len() > 0 && r.last().has_mine
}

/// `c` is among the revealed tiles.
pub open spec fn reveals(r: Seq<TileRevealed>, c: Coordinates) -> bool {
    exists|i: int| 0 <= i < r.len() && (#[trigger] r[i]).coordinates == c
}

/// The notice for the tile at `c` of `b`.
pub open spec fn notice(b: BoardView, c: Coordinates) -> TileRevealed {
    TileRevealed { coordinates: c, has_mine: b.tile(c).mine, number: b.tile(c).number }
}

/// `old` is `new` after a flood-fill reveal from `seeds` that produced the
/// notices `r`, in the order the tiles were revealed:
/// - only the revealed tiles change, and they become revealed;
/// - each revealed tile was hidden and unflagged, and is listed once;
/// - the flood stops at the first mine, so only the last notice can be a mine;
/// - each revealed tile is a seed or touches a tile revealed before it that
///   has no mine and no number;
/// - unless a mine stopped it, every seed ends revealed or flagged, and so
///   does every tile around a revealed tile with no mine and no number.
pub open spec fn flood_post(
    old: BoardView,
    new: BoardView,
    seeds: Seq<Coordinates>,
    r: Seq<TileRevealed>,
) -> bool {
    &&& new.wf()
    &&& new.width == old.width
    &&& new.height == old.height
    &&& forall|c: Coordinates|
        #![trigger new.tile(c)]
        old.in_bounds(c) ==> new.tile(c) == (TileView {
            flipped: old.tile(c).flipped || reveals(r, c),
            ..old.tile(c)
        })
    &&& forall|i: int|
        #![trigger r[i]]
        0 <= i < r.len() ==> {
            &&& old.in_bounds(r[i].coordinates)
            &&& !old.tile(r[i].coordinates).flipped
            &&& !old.tile(r[i].coordinates).marked
            &&& r[i] == notice(old, r[i].coordinates)
        }
    &&& forall|i: int, j: int|
        0 <= i < j < r.len() ==> (#[trigger] r[i]).coordinates != (#[trigger] r[j]).coordinates
    &&& forall|i: int| 0 <= i < r.len() - 1 ==> !(#[trigger] r[i]).has_mine
    &&& forall|i: int|
        #![trigger r[i]]
        0 <= i < r.len() ==> seeds.contains(r[i].coordinates) || exists|j: int|
            0 <= j < i && opens(#[trigger] r[j]) && adjacent(r[j].coordinates, r[i].coordinates)
    &&& !hit_mine(r) ==> forall|k: int|
        #![trigger seeds[k]]
        0 <= k < seeds.len() ==> new.tile(seeds[k]).flipped || new.tile(seeds[k]).marked
    &&& !hit_mine(r) ==> forall|i: int, c: Coordinates|
        0 <= i < r.len() && opens(#[trigger] r[i]) && old.in_bounds(c) && #[trigger] adjacent(
            r[i].coordinates,
            c,
        ) ==> new.tile(c).flipped || new.tile(c).marked
}

/// `b` with the tile at `c` revealed.
pub open spec fn flipped_at(b: BoardView, c: Coordinates) -> BoardView {
    BoardView { cells: b.cells.update(b.index(c), TileView { flipped: true, ..b.tile(c) }), ..b }
}

/// The flood fill as a stack machine over the board `b`: while no mine is
/// reported and `stack` is not empty, pop its top; a revealed or flagged
/// tile is dropped; any other tile is revealed and reported in `out`, and a
/// tile with no mine and no number pushes its neighbours in row-major order.
/// Returns the final board and the notices.
pub open spec fn flood_run(b: BoardView, stack: Seq<Coordinates>, out: Seq<TileRevealed>) -> (
    BoardView,
    Seq<TileRevealed>,
)
    decreases b.hidden_total(), stack.len(),
    when b.wf() && forall|k: int| 0 <= k < stack.len() ==> b.in_bounds(#[trigger] stack[k])
{
    if stack.len() == 0 || hit_mine(out) {
        (b, out)
    } else {
        let c = stack.last();
        let rest = stack.drop_last();
        if b.tile(c).flipped || b.tile(c).marked {
            flood_run(b, rest, out)
        } else {
            let n = notice(b, c);
            let pushed = if opens(n) {
                b.neighbors(c)
            } else {
                Seq::empty()
            };
            proof {
                b.lemma_index();
                assert(b.in_bounds(c));
                lemma_count_update(
                    b.cells,
                    b.index(c),
                    TileView { flipped: true, ..b.tile(c) },
                    |t: TileView| is_hidden(t),
                );
            }
            flood_run(flipped_at(b, c), rest + pushed, out.push(n))
        }
    }
}

/// The board so far is the start board with the reported tiles revealed.
#[verifier::opaque]
pub open spec fn inv_frame(start: BoardView, cur: BoardView, out: Seq<TileRevealed>) -> bool {
    forall|c: Coordinates|
        #![trigger cur.tile(c)]
        start.in_bounds(c) ==> cur.tile(c) == (TileView {
            flipped: start.tile(c).flipped || reveals(out, c),
            ..start.tile(c)
        })
}

/// Each notice reports a tile that was hidden and unflagged, once; only the
/// last can be a mine.
#[verifier::opaque]
pub open spec fn inv_notices(start: BoardView, out: Seq<TileRevealed>) -> bool {
    &&& forall|i: int|
        #![trigger out[i]]
        0 <= i < out.len() ==> {
            &&& start.in_bounds(out[i].coordinates)
            &&& !start.tile(out[i].coordinates).flipped
            &&& !start.tile(out[i].coordinates).marked
            &&& out[i] == notice(start, out[i].coordinates)
        }
    &&& forall|i: int, j: int|
        0 <= i < j < out.len() ==> (#[trigger] out[i]).coordinates != (#[trigger] out[j]).coordinates
    &&& forall|i: int| 0 <= i < out.len() - 1 ==> !(#[trigger] out[i]).has_mine
}

/// Each notice is for a seed or for a tile around an earlier opening tile.
#[verifier::opaque]
pub open spec fn inv_origin(seeds: Seq<Coordinates>, out: Seq<TileRevealed>) -> bool {
    forall|i: int|
        #![trigger out[i]]
        0 <= i < out.len() ==> seeds.contains(out[i].coordinates) || exists|j: int|
            0 <= j < i && opens(#[trigger] out[j]) && adjacent(out[j].coordinates, out[i].coordinates)
}

/// Each tile on the stack is a seed or lies around an opening tile.
#[verifier::opaque]
pub open spec fn inv_stack(seeds: Seq<Coordinates>, stack: Seq<Coordinates>, out: Seq<TileRevealed>) -> bool {
    forall|k: int|
        #![trigger stack[k]]
        0 <= k < stack.len() ==> seeds.contains(stack[k]) || exists|j: int|
            0 <= j < out.len() && opens(#[trigger] out[j]) && adjacent(out[j].coordinates, stack[k])
}

/// Each seed is still on the stack, or revealed, or flagged.
#[verifier::opaque]
pub open spec fn inv_seeds(seeds: Seq<Coordinates>, stack: Seq<Coordinates>, cur: BoardView) -> bool {
    forall|k: int|
        #![trigger seeds[k]]
        0 <= k < seeds.len() ==> stack.contains(seeds[k]) || cur.tile(seeds[k]).flipped || cur.tile(
            seeds[k],
        ).marked
}

/// Each tile around an opening tile is on the stack, or revealed, or flagged.
#[verifier::opaque]
pub open spec fn inv_closure(
    start: BoardView,
    stack: Seq<Coordinates>,
    cur: BoardView,
    out: Seq<TileRevealed>,
) -> bool {
    forall|i: int, c: Coordinates|
        0 <= i < out.len() && opens(#[trigger] out[i]) && start.in_bounds(c) && #[trigger] adjacent(
            out[i].coordinates,
            c,
        ) ==> stack.contains(c) || cur.tile(c).flipped || cur.tile(c).marked
}

/// What holds between the steps of a flood from `seeds` over the board
/// `start`: `cur` is the board so far, `stack` the tiles still to visit and
/// `out` the notices so far.
pub open spec fn flood_inv(
    start: BoardView,
    seeds: Seq<Coordinates>,
    cur: BoardView,
    stack: Seq<Coordinates>,
    out: Seq<TileRevealed>,
) -> bool {
    &&& start.wf()
    &&& cur.wf()
    &&& cur.width == start.width
    &&& cur.height == start.height
    &&& forall|k: int| 0 <= k < stack.len() ==> start.in_bounds(#[trigger] stack[k])
    &&& forall|k: int| 0 <= k < seeds.len() ==> start.in_bounds(#[trigger] seeds[k])
    &&& inv_frame(start, cur, out)
    &&& inv_notices(start, out)
    &&& inv_origin(seeds, out)
    &&& inv_stack(seeds, stack, out)
    &&& inv_seeds(seeds, stack, cur)
    &&& inv_closure(start, stack, cur, out)
}

/// Before the first step.
pub proof fn lemma_flood_start(start: BoardView, seeds: Seq<Coordinates>)
    requires
        start.wf(),
        forall|k: int| 0 <= k < seeds.len() ==> start.in_bounds(#[trigger] seeds[k]),
    ensures
        flood_inv(start, seeds, start, seeds, Seq::empty()),
{
    reveal(inv_frame);
    reveal(inv_notices);
    reveal(inv_origin);
    reveal(inv_stack);
    reveal(inv_seeds);
    reveal(inv_closure);
    assert forall|k: int| 0 <= k < seeds.len() implies #[trigger] seeds.contains(seeds[k]) by {
    }
    assert forall|c: Coordinates| start.in_bounds(c) implies #[trigger] start.tile(c) == (TileView {
        flipped: start.tile(c).flipped || reveals(Seq::<TileRevealed>::empty(), c),
        ..start.tile(c)
    }) by {
    }
}

/// What stays on the stack after its top is popped and `pushed` is added.
proof fn lemma_restack(stack: Seq<Coordinates>, pushed: Seq<Coordinates>)
    requires
        stack.len() > 0,
    ensures
        forall|x: Coordinates|
            #[trigger] stack.contains(x) && x != stack.last() ==> (stack.drop_last()
                + pushed).contains(x),
        forall|x: Coordinates| #[trigger] pushed.contains(x) ==> (stack.drop_last() + pushed).contains(x),
        forall|k: int|
            0 <= k < stack.len() - 1 ==> #[trigger] (stack.drop_last() + pushed)[k] == stack[k],
        forall|k: int|
            stack.len() - 1 <= k < stack.len() - 1 + pushed.len() ==> #[trigger] (stack.drop_last()
                + pushed)[k] == pushed[k - stack.len() + 1],
{
    let stack2 = stack.drop_last() + pushed;
    assert forall|x: Coordinates| #[trigger] stack.contains(x) && x != stack.last() implies stack2.contains(x) by {
        let k = choose|k: int| 0 <= k < stack.len() && stack[k] == x;
        assert(stack2[k] == x);
    }
    assert forall|x: Coordinates| #[trigger] pushed.contains(x) implies stack2.contains(x) by {
        let k = choose|k: int| 0 <= k < pushed.len() && pushed[k] == x;
        assert(stack2[stack.len() - 1 + k] == x);
    }
}

/// Which tiles a longer list of notices reveals.
proof fn lemma_reveals_push(out: Seq<TileRevealed>, n: TileRevealed)
    ensures
        forall|x: Coordinates|
            #[trigger] reveals(out.push(n), x) == (reveals(out, x) || x == n.coordinates),
        forall|i: int| 0 <= i < out.len() ==> #[trigger] out.push(n)[i] == out[i],
        out.push(n)[out.len() as int] == n,
{
    let out2 = out.push(n);
    assert forall|x: Coordinates| #[trigger] reveals(out2, x) == (reveals(out, x) || x == n.coordinates) by {
        if reveals(out, x) {
            let i = choose|i: int| 0 <= i < out.len() && (#[trigger] out[i]).coordinates == x;
            assert(out2[i] == out[i]);
        }
        if x == n.coordinates {
            assert(out2[out.len() as int] == n);
        }
        if reveals(out2, x) {
            let i = choose|i: int| 0 <= i < out2.len() && (#[trigger] out2[i]).coordinates == x;
            if i < out.len() {
                assert(out2[i] == out[i]);
            }
        }
    }
}

/// A popped tile that is already revealed or flagged is dropped.
pub proof fn lemma_flood_skip(
    start: BoardView,
    seeds: Seq<Coordinates>,
    cur: BoardView,
    stack: Seq<Coordinates>,
    out: Seq<TileRevealed>,
)
    requires
        flood_inv(start, seeds, cur, stack, out),
        stack.len() > 0,
        cur.tile(stack.last()).flipped || cur.tile(stack.last()).marked,
    ensures
        flood_inv(start, seeds, cur, stack.drop_last(), out),
{
    let rest = stack.drop_last();
    lemma_restack(stack, Seq::empty());
    assert(rest + Seq::<Coordinates>::empty() =~= rest);
    assert forall|k: int| 0 <= k < rest.len() implies start.in_bounds(#[trigger] rest[k]) by {
        assert(rest[k] == stack[k]);
    }
    assert(inv_stack(seeds, rest, out)) by {
        reveal(inv_stack);
        assert forall|k: int|
            #![trigger rest[k]]
            0 <= k < rest.len() implies seeds.contains(rest[k]) || exists|j: int|
                0 <= j < out.len() && opens(#[trigger] out[j]) && adjacent(out[j].coordinates, rest[k]) by {
            assert(rest[k] == stack[k]);
        }
    }
    assert(inv_seeds(seeds, rest, cur)) by {
        reveal(inv_seeds);
    }
    assert(inv_closure(start, rest, cur, out)) by {
        reveal(inv_closure);
    }
}

/// A popped tile that can be flipped is flipped and reported; if it opens,
/// its neighbours are pushed.
pub proof fn lemma_flood_flip(
    start: BoardView,
    seeds: Seq<Coordinates>,
    cur: BoardView,
    new: BoardView,
    stack: Seq<Coordinates>,
    out: Seq<TileRevealed>,
    pushed: Seq<Coordinates>,
)
    requires
        flood_inv(start, seeds, cur, stack, out),
        !hit_mine(out),
        stack.len() > 0,
        !cur.tile(stack.last()).flipped,
        !cur.tile(stack.last()).marked,
        new.width == cur.width,
        new.height == cur.height,
        new.cells == cur.cells.update(
            cur.index(stack.last()),
            TileView { flipped: true, ..cur.tile(stack.last()) },
        ),
        pushed == (if opens(notice(start, stack.last())) {
            cur.neighbors(stack.last())
        } else {
            Seq::empty()
        }),
    ensures
        flood_inv(
            start,
            seeds,
            new,
            stack.drop_last() + pushed,
            out.push(notice(start, stack.last())),
        ),
        new.hidden_total() < cur.hidden_total(),
{
    let c = stack.last();
    let n = notice(start, c);
    let out2 = out.push(n);
    let stack2 = stack.drop_last() + pushed;
    cur.lemma_index();
    lemma_count_update(
        cur.cells,
        cur.index(c),
        TileView { flipped: true, ..cur.tile(c) },
        |t: TileView| is_hidden(t),
    );
    assert(start.in_bounds(c)) by {
        assert(stack[stack.len() - 1] == c);
    }
    assert forall|x: Coordinates|
        #![trigger new.tile(x)]
        start.in_bounds(x) implies new.tile(x) == if x == c {
            TileView { flipped: true, ..cur.tile(c) }
        } else {
            cur.tile(x)
        } by {
        if x != c {
            assert(cur.index(x) != cur.index(c));
        }
    }
    lemma_restack(stack, pushed);
    lemma_reveals_push(out, n);
    assert(cur.tile(c) == (TileView {
        flipped: start.tile(c).flipped || reveals(out, c),
        ..start.tile(c)
    })) by {
        reveal(inv_frame);
    }
    if opens(n) {
        cur.lemma_neighbors(c);
    }
    assert forall|k: int| 0 <= k < stack2.len() implies start.in_bounds(#[trigger] stack2[k]) by {
        if k >= stack.len() - 1 {
            assert(pushed.contains(pushed[k - stack.len() + 1]));
        }
    }
    assert(inv_frame(start, new, out2)) by {
        reveal(inv_frame);
    }
    assert(inv_notices(start, out2)) by {
        reveal(inv_notices);
        assert forall|i: int, j: int|
            0 <= i < j < out2.len() implies (#[trigger] out2[i]).coordinates != (
            #[trigger] out2[j]).coordinates by {
            if j == out.len() {
                assert(out[i] == out2[i]);
                assert(reveals(out, out[i].coordinates));
            }
        }
    }
    assert(inv_origin(seeds, out2)) by {
        reveal(inv_origin);
        reveal(inv_stack);
        assert forall|i: int|
            #![trigger out2[i]]
            0 <= i < out2.len() implies seeds.contains(out2[i].coordinates) || exists|j: int|
                0 <= j < i && opens(#[trigger] out2[j]) && adjacent(
                    out2[j].coordinates,
                    out2[i].coordinates,
                ) by {
            if i < out.len() {
                if !seeds.contains(out[i].coordinates) {
                    let j = choose|j: int|
                        0 <= j < i && opens(#[trigger] out[j]) && adjacent(
                            out[j].coordinates,
                            out[i].coordinates,
                        );
                    assert(out2[j] == out[j]);
                }
            } else {
                assert(stack[stack.len() - 1] == c);
                if !seeds.contains(c) {
                    let j = choose|j: int|
                        0 <= j < out.len() && opens(#[trigger] out[j]) && adjacent(
                            out[j].coordinates,
                            c,
                        );
                    assert(out2[j] == out[j]);
                }
            }
        }
    }
    assert(inv_stack(seeds, stack2, out2)) by {
        reveal(inv_stack);
        assert forall|k: int|
            #![trigger stack2[k]]
            0 <= k < stack2.len() implies seeds.contains(stack2[k]) || exists|j: int|
                0 <= j < out2.len() && opens(#[trigger] out2[j]) && adjacent(
                    out2[j].coordinates,
                    stack2[k],
                ) by {
            if k < stack.len() - 1 {
                if !seeds.contains(stack[k]) {
                    let j = choose|j: int|
                        0 <= j < out.len() && opens(#[trigger] out[j]) && adjacent(
                            out[j].coordinates,
                            stack[k],
                        );
                    assert(out2[j] == out[j]);
                }
            } else {
                assert(pushed.contains(stack2[k]));
                assert(out2[out.len() as int] == n);
            }
        }
    }
    assert(inv_seeds(seeds, stack2, new)) by {
        reveal(inv_seeds);
        assert forall|k: int|
            #![trigger seeds[k]]
            0 <= k < seeds.len() implies stack2.contains(seeds[k]) || new.tile(seeds[k]).flipped
                || new.tile(seeds[k]).marked by {
            assert(start.in_bounds(seeds[k]));
            if seeds[k] != c {
                assert(new.tile(seeds[k]) == cur.tile(seeds[k]));
            }
        }
    }
    assert(inv_closure(start, stack2, new, out2)) by {
        reveal(inv_closure);
        assert forall|i: int, x: Coordinates|
            0 <= i < out2.len() && opens(#[trigger] out2[i]) && start.in_bounds(x)
                && #[trigger] adjacent(out2[i].coordinates, x) implies stack2.contains(x) || new.tile(
                x,
            ).flipped || new.tile(x).marked by {
            if i < out.len() {
                assert(out2[i] == out[i]);
            } else {
                assert(pushed.contains(x));
            }
        }
    }
}

/// When the stack is empty or a mine was hit, the flood is done.
pub proof fn lemma_flood_done(
    start: BoardView,
    seeds: Seq<Coordinates>,
    cur: BoardView,
    stack: Seq<Coordinates>,
    out: Seq<TileRevealed>,
)
    requires
        flood_inv(start, seeds, cur, stack, out),
        hit_mine(out) || stack.len() == 0,
    ensures
        flood_post(start, cur, seeds, out),
{
    reveal(inv_frame);
    reveal(inv_notices);
    reveal(inv_origin);
    reveal(inv_seeds);
    reveal(inv_closure);
}

/// The first notice of a flood from one seed is for the seed itself, and a
/// flood from a hidden, unflagged seed reports at least the seed.
proof fn lemma_first_notice(old: BoardView, new: BoardView, seed: Coordinates, r: Seq<TileRevealed>)
    requires
        old.in_bounds(seed),
        flood_post(old, new, seq![seed], r),
    ensures
        r.len() > 0 ==> r[0].coordinates == seed && reveals(r, seed),
        !old.tile(seed).flipped && !old.tile(seed).marked ==> r.len() > 0,
        new.tile(seed).flipped || new.tile(seed).marked,
{
    if r.len() > 0 {
        assert(seq![seed].contains(r[0].coordinates));
        assert(seq![seed][0] == seed);
        assert(r[0].coordinates == seed);
        assert(reveals(r, seed));
    } else {
        assert(seq![seed][0] == seed);
        assert(new.tile(seed).flipped || new.tile(seed).marked);
    }
}

/// Revealing the same tile twice: the second reveal reports nothing and
/// changes nothing.
pub proof fn lemma_reveal_twice(
    b0: BoardView,
    b1: BoardView,
    b2: BoardView,
    seed: Coordinates,
    r1: Seq<TileRevealed>,
    r2: Seq<TileRevealed>,
)
    requires
        b0.wf(),
        b0.in_bounds(seed),
        flood_post(b0, b1, seq![seed], r1),
        flood_post(b1, b2, seq![seed], r2),
    ensures
        r2.len() == 0,
        forall|c: Coordinates| b1.in_bounds(c) ==> #[trigger] b2.tile(c) == b1.tile(c),
{
    lemma_first_notice(b0, b1, seed, r1);
    lemma_first_notice(b1, b2, seed, r2);
    if r2.len() > 0 {
        assert(!b1.tile(r2[0].coordinates).flipped && !b1.tile(r2[0].coordinates).marked);
    }
    assert forall|c: Coordinates| b1.in_bounds(c) implies #[trigger] b2.tile(c) == b1.tile(c) by {
        assert(!reveals(r2, c));
    }
}

/// Revealing a hidden, unflagged mine reports that tile alone and flips
/// nothing else.
pub proof fn lemma_mine_hit_stops(old: BoardView, new: BoardView, seed: Coordinates, r: Seq<TileRevealed>)
    requires
        old.wf(),
        old.in_bounds(seed),
        !old.tile(seed).flipped,
        !old.tile(seed).marked,
        old.tile(seed).mine,
        flood_post(old, new, seq![seed], r),
    ensures
        r == seq![notice(old, seed)],
        hit_mine(r),
        forall|c: Coordinates|
            old.in_bounds(c) && c != seed ==> #[trigger] new.tile(c) == old.tile(c),
{
    lemma_first_notice(old, new, seed, r);
    assert(r[0] == notice(old, seed));
    if r.len() > 1 {
        assert(!r[0].has_mine);
    }
    assert(r =~= seq![notice(old, seed)]);
    assert forall|c: Coordinates| old.in_bounds(c) && c != seed implies #[trigger] new.tile(c)
        == old.tile(c) by {
        if reveals(r, c) {
            let i = choose|i: int| 0 <= i < r.len() && (#[trigger] r[i]).coordinates == c;
            assert(r[i] == r[0]);
        }
    }
}

/// One step from `p` toward `t`: along the row first, then along the column.
pub open spec fn step_toward(p: Coordinates, t: Coordinates) -> Coordinates {
    if p.col < t.col {
        Coordinates { col: (p.col + 1) as i64, ..p }
    } else if p.col > t.col {
        Coordinates { col: (p.col - 1) as i64, ..p }
    } else if p.row < t.row {
        Coordinates { row: (p.row + 1) as i64, ..p }
    } else {
        Coordinates { row: (p.row - 1) as i64, ..p }
    }
}

/// A set of tiles that holds `p` and every tile on the board next to each of
/// its tiles holds every tile of the board.
proof fn lemma_walk(b: BoardView, r: Seq<TileRevealed>, p: Coordinates, t: Coordinates)
    requires
        b.in_bounds(p),
        b.in_bounds(t),
        reveals(r, p),
        forall|x: Coordinates, y: Coordinates|
            reveals(r, x) && b.in_bounds(y) && #[trigger] adjacent(x, y) ==> #[trigger] reveals(r, y),
    ensures
        reveals(r, t),
    decreases p.distance(t),
{
    if p != t {
        let q = step_toward(p, t);
        assert(adjacent(p, q));
        assert(b.in_bounds(q));
        assert(q.distance(t) < p.distance(t));
        lemma_walk(b, r, q, t);
    }
}

/// On a board with no mine, no number, no flag and nothing revealed, a
/// reveal from any tile reports every tile of the board, each once.
pub proof fn lemma_open_board_reveals_all(
    old: BoardView,
    new: BoardView,
    seed: Coordinates,
    r: Seq<TileRevealed>,
)
    requires
        old.wf(),
        old.in_bounds(seed),
        forall|c: Coordinates|
            old.in_bounds(c) ==> {
                &&& !(#[trigger] old.tile(c)).mine
                &&& !old.tile(c).flipped
                &&& !old.tile(c).marked
                &&& old.tile(c).number is None
            },
        flood_post(old, new, seq![seed], r),
    ensures
        forall|c: Coordinates| old.in_bounds(c) ==> #[trigger] reveals(r, c),
        forall|i: int, j: int|
            0 <= i < j < r.len() ==> (#[trigger] r[i]).coordinates != (#[trigger] r[j]).coordinates,
        forall|c: Coordinates| old.in_bounds(c) ==> (#[trigger] new.tile(c)).flipped,
{
    lemma_first_notice(old, new, seed, r);
    assert(!hit_mine(r)) by {
        if r.len() > 0 {
            assert(!r[r.len() - 1].has_mine);
        }
    }
    assert(reveals(r, seed));
    assert forall|x: Coordinates, y: Coordinates|
        reveals(r, x) && old.in_bounds(y) && #[trigger] adjacent(x, y) implies #[trigger] reveals(
        r,
        y,
    ) by {
        let i = choose|i: int| 0 <= i < r.len() && (#[trigger] r[i]).coordinates == x;
        assert(opens(r[i]));
        assert(new.tile(y).flipped || new.tile(y).marked);
    }
    assert forall|c: Coordinates| old.in_bounds(c) implies #[trigger] reveals(r, c) by {
        lemma_walk(old, r, seed, c);
    }
}

} // verus!

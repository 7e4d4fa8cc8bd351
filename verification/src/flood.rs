//! Which tiles a reveal uncovers: the tile itself and, through tiles that
//! count no mine, everything that hangs together with it.

use vstd::prelude::*;
use crate::grid::{
    adjacent, count_right, counts_right, in_grid, lemma_count_same, mine_at, mine_total, mined_around,
    mined_p, tile_at,
};
use crate::tile::{hidden, lemma_tile_bits, low_bits, mined, revealable};

verus! {

/// The tile at `(x, y)` counts no mine around it and is none itself.
pub open spec fn zero_at(d: Seq<u8>, w: int, x: int, y: int) -> bool {
    low_bits(tile_at(d, w, x, y)) == 0
}

/// The flood that starts at `(sx, sy)` gets to `(x, y)` in `n` steps or
/// fewer. It enters only tiles that a reveal uncovers, and it leaves only
/// tiles that count no mine.
pub open spec fn reach_in(
    d: Seq<u8>,
    w: int,
    h: int,
    sx: int,
    sy: int,
    x: int,
    y: int,
    n: nat,
) -> bool
    decreases n,
{
    &&& in_grid(w, h, x, y)
    &&& revealable(tile_at(d, w, x, y))
    &&& if n == 0 {
        x == sx && y == sy
    } else {
        let m = (n - 1) as nat;
        ||| reach_in(d, w, h, sx, sy, x, y, m)
        ||| (reach_in(d, w, h, sx, sy, x - 1, y - 1, m) && zero_at(d, w, x - 1, y - 1))
        ||| (reach_in(d, w, h, sx, sy, x, y - 1, m) && zero_at(d, w, x, y - 1))
        ||| (reach_in(d, w, h, sx, sy, x + 1, y - 1, m) && zero_at(d, w, x + 1, y - 1))
        ||| (reach_in(d, w, h, sx, sy, x - 1, y, m) && zero_at(d, w, x - 1, y))
        ||| (reach_in(d, w, h, sx, sy, x + 1, y, m) && zero_at(d, w, x + 1, y))
        ||| (reach_in(d, w, h, sx, sy, x - 1, y + 1, m) && zero_at(d, w, x - 1, y + 1))
        ||| (reach_in(d, w, h, sx, sy, x, y + 1, m) && zero_at(d, w, x, y + 1))
        ||| (reach_in(d, w, h, sx, sy, x + 1, y + 1, m) && zero_at(d, w, x + 1, y + 1))
    }
}

/// The flood that starts at `(sx, sy)` uncovers `(x, y)`.
pub open spec fn reaches(d: Seq<u8>, w: int, h: int, sx: int, sy: int, x: int, y: int) -> bool {
    exists|n: nat| reach_in(d, w, h, sx, sy, x, y, n)
}

/// The tile at `(x, y)` after the flood from `(sx, sy)`.
pub open spec fn flooded_tile(d: Seq<u8>, w: int, h: int, sx: int, sy: int, x: int, y: int) -> u8 {
    if reaches(d, w, h, sx, sy, x, y) {
        low_bits(tile_at(d, w, x, y))
    } else {
        tile_at(d, w, x, y)
    }
}

/// `e` is what the flood from `(sx, sy)` makes of `d`.
pub open spec fn is_flooded(d: Seq<u8>, e: Seq<u8>, w: int, h: int, sx: int, sy: int) -> bool {
    &&& e.len() == d.len()
    &&& forall|x: int, y: int|
        in_grid(w, h, x, y) ==> #[trigger] tile_at(e, w, x, y) == flooded_tile(
            d,
            w,
            h,
            sx,
            sy,
            x,
            y,
        )
}

/// The flood uncovers its own start, if a reveal uncovers that tile at all.
pub proof fn lemma_reaches_start(d: Seq<u8>, w: int, h: int, sx: int, sy: int)
    requires
        in_grid(w, h, sx, sy),
        revealable(tile_at(d, w, sx, sy)),
    ensures
        reaches(d, w, h, sx, sy, sx, sy),
{
    assert(reach_in(d, w, h, sx, sy, sx, sy, 0));
}

/// What the flood uncovers lies on the board and was there to uncover.
pub proof fn lemma_reaches_open(d: Seq<u8>, w: int, h: int, sx: int, sy: int, x: int, y: int)
    requires
        reaches(d, w, h, sx, sy, x, y),
    ensures
        in_grid(w, h, x, y),
        revealable(tile_at(d, w, x, y)),
{
    let n = choose|n: nat| reach_in(d, w, h, sx, sy, x, y, n);
    assert(reach_in(d, w, h, sx, sy, x, y, n));
}

/// From a tile that it uncovers and that counts no mine, the flood goes on
/// to every neighbour that a reveal uncovers.
pub proof fn lemma_reaches_step(
    d: Seq<u8>,
    w: int,
    h: int,
    sx: int,
    sy: int,
    x: int,
    y: int,
    nx: int,
    ny: int,
)
    requires
        reaches(d, w, h, sx, sy, x, y),
        zero_at(d, w, x, y),
        adjacent(x, y, nx, ny),
        in_grid(w, h, nx, ny),
        revealable(tile_at(d, w, nx, ny)),
    ensures
        reaches(d, w, h, sx, sy, nx, ny),
{
    let n = choose|n: nat| reach_in(d, w, h, sx, sy, x, y, n);
    assert(reach_in(d, w, h, sx, sy, x, y, n));
    assert(reach_in(d, w, h, sx, sy, nx, ny, n + 1));
}

/// A flood that starts on a mine, or on a tile that counts one, stays there.
pub proof fn lemma_reaches_stuck(
    d: Seq<u8>,
    w: int,
    h: int,
    sx: int,
    sy: int,
    x: int,
    y: int,
    n: nat,
)
    requires
        !zero_at(d, w, sx, sy),
        reach_in(d, w, h, sx, sy, x, y, n),
    ensures
        x == sx && y == sy,
    decreases n,
{
    if n > 0 {
        let m = (n - 1) as nat;
        if reach_in(d, w, h, sx, sy, x, y, m) {
            lemma_reaches_stuck(d, w, h, sx, sy, x, y, m);
        } else if reach_in(d, w, h, sx, sy, x - 1, y - 1, m) && zero_at(d, w, x - 1, y - 1) {
            lemma_reaches_stuck(d, w, h, sx, sy, x - 1, y - 1, m);
        } else if reach_in(d, w, h, sx, sy, x, y - 1, m) && zero_at(d, w, x, y - 1) {
            lemma_reaches_stuck(d, w, h, sx, sy, x, y - 1, m);
        } else if reach_in(d, w, h, sx, sy, x + 1, y - 1, m) && zero_at(d, w, x + 1, y - 1) {
            lemma_reaches_stuck(d, w, h, sx, sy, x + 1, y - 1, m);
        } else if reach_in(d, w, h, sx, sy, x - 1, y, m) && zero_at(d, w, x - 1, y) {
            lemma_reaches_stuck(d, w, h, sx, sy, x - 1, y, m);
        } else if reach_in(d, w, h, sx, sy, x + 1, y, m) && zero_at(d, w, x + 1, y) {
            lemma_reaches_stuck(d, w, h, sx, sy, x + 1, y, m);
        } else if reach_in(d, w, h, sx, sy, x - 1, y + 1, m) && zero_at(d, w, x - 1, y + 1) {
            lemma_reaches_stuck(d, w, h, sx, sy, x - 1, y + 1, m);
        } else if reach_in(d, w, h, sx, sy, x, y + 1, m) && zero_at(d, w, x, y + 1) {
            lemma_reaches_stuck(d, w, h, sx, sy, x, y + 1, m);
        } else {
            assert(reach_in(d, w, h, sx, sy, x + 1, y + 1, m) && zero_at(d, w, x + 1, y + 1));
            lemma_reaches_stuck(d, w, h, sx, sy, x + 1, y + 1, m);
        }
    }
}

/// Where the counts are right, the flood uncovers no mine but, at most, the
/// one it starts on.
pub proof fn lemma_reaches_safe(
    d: Seq<u8>,
    w: int,
    h: int,
    sx: int,
    sy: int,
    x: int,
    y: int,
    n: nat,
)
    requires
        counts_right(d, w, h),
        reach_in(d, w, h, sx, sy, x, y, n),
        !(x == sx && y == sy),
    ensures
        !mined(tile_at(d, w, x, y)),
    decreases n,
{
    if n > 0 {
        let m = (n - 1) as nat;
        if reach_in(d, w, h, sx, sy, x, y, m) {
            lemma_reaches_safe(d, w, h, sx, sy, x, y, m);
        } else if reach_in(d, w, h, sx, sy, x - 1, y - 1, m) && zero_at(d, w, x - 1, y - 1) {
            lemma_zero_clear(d, w, h, x - 1, y - 1, x, y);
        } else if reach_in(d, w, h, sx, sy, x, y - 1, m) && zero_at(d, w, x, y - 1) {
            lemma_zero_clear(d, w, h, x, y - 1, x, y);
        } else if reach_in(d, w, h, sx, sy, x + 1, y - 1, m) && zero_at(d, w, x + 1, y - 1) {
            lemma_zero_clear(d, w, h, x + 1, y - 1, x, y);
        } else if reach_in(d, w, h, sx, sy, x - 1, y, m) && zero_at(d, w, x - 1, y) {
            lemma_zero_clear(d, w, h, x - 1, y, x, y);
        } else if reach_in(d, w, h, sx, sy, x + 1, y, m) && zero_at(d, w, x + 1, y) {
            lemma_zero_clear(d, w, h, x + 1, y, x, y);
        } else if reach_in(d, w, h, sx, sy, x - 1, y + 1, m) && zero_at(d, w, x - 1, y + 1) {
            lemma_zero_clear(d, w, h, x - 1, y + 1, x, y);
        } else if reach_in(d, w, h, sx, sy, x, y + 1, m) && zero_at(d, w, x, y + 1) {
            lemma_zero_clear(d, w, h, x, y + 1, x, y);
        } else {
            assert(reach_in(d, w, h, sx, sy, x + 1, y + 1, m) && zero_at(d, w, x + 1, y + 1));
            lemma_zero_clear(d, w, h, x + 1, y + 1, x, y);
        }
    }
}

/// Around a tile that rightly counts no mine there is none.
pub proof fn lemma_zero_clear(d: Seq<u8>, w: int, h: int, x: int, y: int, nx: int, ny: int)
    requires
        counts_right(d, w, h),
        in_grid(w, h, x, y),
        zero_at(d, w, x, y),
        in_grid(w, h, nx, ny),
        adjacent(x, y, nx, ny),
    ensures
        !mined(tile_at(d, w, nx, ny)),
{
    assert(count_right(d, w, h, x, y));
    lemma_tile_bits(tile_at(d, w, x, y));
    assert(mined_around(d, w, h, x, y) == 0);
    assert(mine_at(d, w, h, nx, ny) == 0);
}

/// From `(x, y)`, uncovered and counting no mine, the flood has taken
/// `(nx, ny)` too, or still holds it in its worklist.
pub open spec fn spread_ok(
    d: Seq<u8>,
    c: Seq<u8>,
    q: Seq<(int, int)>,
    w: int,
    h: int,
    x: int,
    y: int,
    nx: int,
    ny: int,
) -> bool {
    (in_grid(w, h, x, y) && in_grid(w, h, nx, ny) && adjacent(x, y, nx, ny) && revealable(
        tile_at(d, w, x, y),
    ) && !hidden(tile_at(c, w, x, y)) && zero_at(d, w, x, y) && revealable(tile_at(d, w, nx, ny)))
        ==> (!hidden(tile_at(c, w, nx, ny)) || q.contains((nx, ny)))
}

/// The flood from `(sx, sy)` has nothing left to do on `c`, or has it in its
/// worklist `q`.
pub open spec fn spread_all(
    d: Seq<u8>,
    c: Seq<u8>,
    q: Seq<(int, int)>,
    w: int,
    h: int,
    sx: int,
    sy: int,
) -> bool {
    &&& (in_grid(w, h, sx, sy) && revealable(tile_at(d, w, sx, sy))) ==> (!hidden(
        tile_at(c, w, sx, sy),
    ) || q.contains((sx, sy)))
    &&& forall|x: int, y: int, nx: int, ny: int| #[trigger] spread_ok(d, c, q, w, h, x, y, nx, ny)
}

/// Once the worklist is empty, every tile that the flood gets to is
/// uncovered.
pub proof fn lemma_spread_done(
    d: Seq<u8>,
    c: Seq<u8>,
    w: int,
    h: int,
    sx: int,
    sy: int,
    x: int,
    y: int,
    n: nat,
)
    requires
        spread_all(d, c, Seq::empty(), w, h, sx, sy),
        reach_in(d, w, h, sx, sy, x, y, n),
    ensures
        !hidden(tile_at(c, w, x, y)),
    decreases n,
{
    let q = Seq::<(int, int)>::empty();
    assert(forall|p: (int, int)| !q.contains(p));
    if n > 0 {
        let m = (n - 1) as nat;
        if reach_in(d, w, h, sx, sy, x, y, m) {
            lemma_spread_done(d, c, w, h, sx, sy, x, y, m);
        } else if reach_in(d, w, h, sx, sy, x - 1, y - 1, m) && zero_at(d, w, x - 1, y - 1) {
            lemma_spread_done(d, c, w, h, sx, sy, x - 1, y - 1, m);
            assert(spread_ok(d, c, q, w, h, x - 1, y - 1, x, y));
        } else if reach_in(d, w, h, sx, sy, x, y - 1, m) && zero_at(d, w, x, y - 1) {
            lemma_spread_done(d, c, w, h, sx, sy, x, y - 1, m);
            assert(spread_ok(d, c, q, w, h, x, y - 1, x, y));
        } else if reach_in(d, w, h, sx, sy, x + 1, y - 1, m) && zero_at(d, w, x + 1, y - 1) {
            lemma_spread_done(d, c, w, h, sx, sy, x + 1, y - 1, m);
            assert(spread_ok(d, c, q, w, h, x + 1, y - 1, x, y));
        } else if reach_in(d, w, h, sx, sy, x - 1, y, m) && zero_at(d, w, x - 1, y) {
            lemma_spread_done(d, c, w, h, sx, sy, x - 1, y, m);
            assert(spread_ok(d, c, q, w, h, x - 1, y, x, y));
        } else if reach_in(d, w, h, sx, sy, x + 1, y, m) && zero_at(d, w, x + 1, y) {
            lemma_spread_done(d, c, w, h, sx, sy, x + 1, y, m);
            assert(spread_ok(d, c, q, w, h, x + 1, y, x, y));
        } else if reach_in(d, w, h, sx, sy, x - 1, y + 1, m) && zero_at(d, w, x - 1, y + 1) {
            lemma_spread_done(d, c, w, h, sx, sy, x - 1, y + 1, m);
            assert(spread_ok(d, c, q, w, h, x - 1, y + 1, x, y));
        } else if reach_in(d, w, h, sx, sy, x, y + 1, m) && zero_at(d, w, x, y + 1) {
            lemma_spread_done(d, c, w, h, sx, sy, x, y + 1, m);
            assert(spread_ok(d, c, q, w, h, x, y + 1, x, y));
        } else {
            assert(reach_in(d, w, h, sx, sy, x + 1, y + 1, m) && zero_at(d, w, x + 1, y + 1));
            lemma_spread_done(d, c, w, h, sx, sy, x + 1, y + 1, m);
            assert(spread_ok(d, c, q, w, h, x + 1, y + 1, x, y));
        }
    }
}

/// Tiles that keep their low bits keep their mines and their counts.
pub proof fn lemma_counts_kept(d: Seq<u8>, e: Seq<u8>, w: int, h: int)
    requires
        d.len() == e.len(),
        d.len() == w * h,
        0 < w,
        counts_right(d, w, h),
        forall|i: int| 0 <= i < d.len() ==> low_bits(#[trigger] e[i]) == low_bits(d[i]),
    ensures
        counts_right(e, w, h),
        mine_total(e) == mine_total(d),
{
    assert forall|x: int, y: int| in_grid(w, h, x, y) implies #[trigger] count_right(
        e,
        w,
        h,
        x,
        y,
    ) by {
        assert(count_right(d, w, h, x, y));
        lemma_low_at(d, e, w, h, x, y);
        lemma_low_at(d, e, w, h, x - 1, y - 1);
        lemma_low_at(d, e, w, h, x, y - 1);
        lemma_low_at(d, e, w, h, x + 1, y - 1);
        lemma_low_at(d, e, w, h, x - 1, y);
        lemma_low_at(d, e, w, h, x + 1, y);
        lemma_low_at(d, e, w, h, x - 1, y + 1);
        lemma_low_at(d, e, w, h, x, y + 1);
        lemma_low_at(d, e, w, h, x + 1, y + 1);
    }
    let p = mined_p();
    assert forall|i: int| 0 <= i < e.len() implies p(#[trigger] e[i]) == p(d[i]) by {
        assert(low_bits(e[i]) == low_bits(d[i]));
    }
    lemma_count_same(e, d, p);
}

proof fn lemma_low_at(d: Seq<u8>, e: Seq<u8>, w: int, h: int, x: int, y: int)
    requires
        d.len() == e.len(),
        d.len() == w * h,
        0 < w,
        forall|i: int| 0 <= i < d.len() ==> low_bits(#[trigger] e[i]) == low_bits(d[i]),
    ensures
        in_grid(w, h, x, y) ==> low_bits(tile_at(e, w, x, y)) == low_bits(tile_at(d, w, x, y)),
        mine_at(e, w, h, x, y) == mine_at(d, w, h, x, y),
{
    if in_grid(w, h, x, y) {
        crate::grid::lemma_offset_in(w, h, x, y);
        let i = crate::grid::offset(w, x, y);
        assert(low_bits(e[i]) == low_bits(d[i]));
    }
}

/// Taking a tile that is of no use from the end of the worklist loses
/// nothing: it is uncovered already, or no reveal uncovers it.
pub proof fn lemma_spread_skip(
    d: Seq<u8>,
    c: Seq<u8>,
    q: Seq<(int, int)>,
    w: int,
    h: int,
    sx: int,
    sy: int,
)
    requires
        q.len() > 0,
        spread_all(d, c, q, w, h, sx, sy),
        tile_at(c, w, q.last().0, q.last().1) == tile_at(d, w, q.last().0, q.last().1) || !hidden(
            tile_at(c, w, q.last().0, q.last().1),
        ),
        !revealable(tile_at(c, w, q.last().0, q.last().1)),
    ensures
        spread_all(d, c, q.drop_last(), w, h, sx, sy),
{
    let r = q.drop_last();
    assert forall|a: (int, int)| q.contains(a) implies r.contains(a) || a == q.last() by {
        let i = choose|i: int| 0 <= i < q.len() && q[i] == a;
        if i < q.len() - 1 {
            assert(r[i] == a);
        }
    }
    assert forall|x: int, y: int, nx: int, ny: int| #[trigger]
        spread_ok(d, c, r, w, h, x, y, nx, ny) by {
        assert(spread_ok(d, c, q, w, h, x, y, nx, ny));
    }
}

/// Uncovering the tile at the end of the worklist keeps the flood's books,
/// if the tiles around it join the worklist whenever it counts no mine.
pub proof fn lemma_spread_open(
    d: Seq<u8>,
    c: Seq<u8>,
    e: Seq<u8>,
    q: Seq<(int, int)>,
    r: Seq<(int, int)>,
    w: int,
    h: int,
    sx: int,
    sy: int,
)
    requires
        q.len() > 0,
        in_grid(w, h, q.last().0, q.last().1),
        spread_all(d, c, q, w, h, sx, sy),
        forall|x: int, y: int|
            in_grid(w, h, x, y) ==> #[trigger] tile_at(e, w, x, y) == (if x == q.last().0 && y
                == q.last().1 {
                low_bits(tile_at(c, w, x, y))
            } else {
                tile_at(c, w, x, y)
            }),
        forall|a: (int, int)| q.drop_last().contains(a) ==> r.contains(a),
        zero_at(d, w, q.last().0, q.last().1) ==> forall|nx: int, ny: int|
            in_grid(w, h, nx, ny) && adjacent(q.last().0, q.last().1, nx, ny) ==> r.contains(
                (nx, ny),
            ),
    ensures
        spread_all(d, e, r, w, h, sx, sy),
{
    let px = q.last().0;
    let py = q.last().1;
    lemma_tile_bits(tile_at(c, w, px, py));
    assert(!hidden(tile_at(e, w, px, py)));
    assert forall|a: (int, int)| q.contains(a) implies r.contains(a) || a == q.last() by {
        let i = choose|i: int| 0 <= i < q.len() && q[i] == a;
        if i < q.len() - 1 {
            assert(q.drop_last()[i] == a);
        }
    }
    assert forall|x: int, y: int, nx: int, ny: int| #[trigger]
        spread_ok(d, e, r, w, h, x, y, nx, ny) by {
        assert(spread_ok(d, c, q, w, h, x, y, nx, ny));
        if in_grid(w, h, x, y) && in_grid(w, h, nx, ny) {
            assert(tile_at(e, w, x, y) == tile_at(c, w, x, y) || (x == px && y == py));
            assert(tile_at(e, w, nx, ny) == tile_at(c, w, nx, ny) || (nx == px && ny == py));
        }
    }
    if in_grid(w, h, sx, sy) {
        assert(tile_at(e, w, sx, sy) == tile_at(c, w, sx, sy) || (sx == px && sy == py));
    }
}

/// While the flood runs, each tile is as it was or uncovered, and only
/// tiles that the flood gets to are uncovered.
pub open spec fn mid_flood(d: Seq<u8>, c: Seq<u8>, w: int, h: int, sx: int, sy: int) -> bool {
    &&& c.len() == d.len()
    &&& forall|x: int, y: int|
        in_grid(w, h, x, y) ==> #[trigger] tile_at(c, w, x, y) == tile_at(d, w, x, y) || (reaches(
            d,
            w,
            h,
            sx,
            sy,
            x,
            y,
        ) && tile_at(c, w, x, y) == low_bits(tile_at(d, w, x, y)))
}

/// A flood that has run out of work has uncovered exactly what it gets to.
pub proof fn lemma_flood_done(d: Seq<u8>, c: Seq<u8>, w: int, h: int, sx: int, sy: int)
    requires
        mid_flood(d, c, w, h, sx, sy),
        spread_all(d, c, Seq::empty(), w, h, sx, sy),
    ensures
        is_flooded(d, c, w, h, sx, sy),
{
    assert forall|x: int, y: int| in_grid(w, h, x, y) implies #[trigger] tile_at(c, w, x, y)
        == flooded_tile(d, w, h, sx, sy, x, y) by {
        if reaches(d, w, h, sx, sy, x, y) {
            let n = choose|n: nat| reach_in(d, w, h, sx, sy, x, y, n);
            lemma_spread_done(d, c, w, h, sx, sy, x, y, n);
        }
    }
}

/// A flood that starts on a tile that counts a mine, or is one, uncovers
/// that tile and no other.
pub proof fn lemma_flood_single(d: Seq<u8>, c: Seq<u8>, w: int, h: int, sx: int, sy: int)
    requires
        c.len() == d.len(),
        in_grid(w, h, sx, sy),
        revealable(tile_at(d, w, sx, sy)),
        !zero_at(d, w, sx, sy),
        forall|x: int, y: int|
            in_grid(w, h, x, y) ==> #[trigger] tile_at(c, w, x, y) == (if x == sx && y == sy {
                low_bits(tile_at(d, w, x, y))
            } else {
                tile_at(d, w, x, y)
            }),
    ensures
        is_flooded(d, c, w, h, sx, sy),
{
    lemma_reaches_start(d, w, h, sx, sy);
    assert forall|x: int, y: int| in_grid(w, h, x, y) implies #[trigger] tile_at(c, w, x, y)
        == flooded_tile(d, w, h, sx, sy, x, y) by {
        if reaches(d, w, h, sx, sy, x, y) {
            let n = choose|n: nat| reach_in(d, w, h, sx, sy, x, y, n);
            lemma_reaches_stuck(d, w, h, sx, sy, x, y, n);
        }
    }
}

/// The board after the flood from `(sx, sy)`.
pub open spec fn flooded(d: Seq<u8>, w: int, h: int, sx: int, sy: int) -> Seq<u8> {
    Seq::new(d.len(), |i: int| flooded_tile(d, w, h, sx, sy, i % w, i / w))
}

/// There is one board that the flood from `(sx, sy)` makes of `d`.
pub proof fn lemma_flooded_eq(d: Seq<u8>, e: Seq<u8>, w: int, h: int, sx: int, sy: int)
    requires
        0 < w,
        d.len() == w * h,
        is_flooded(d, e, w, h, sx, sy),
    ensures
        e == flooded(d, w, h, sx, sy),
{
    let f = flooded(d, w, h, sx, sy);
    assert forall|i: int| 0 <= i < d.len() implies e[i] == f[i] by {
        crate::grid::lemma_offset_coords(w, h, i);
        assert(tile_at(e, w, i % w, i / w) == flooded_tile(d, w, h, sx, sy, i % w, i / w));
    }
    assert(e =~= f);
}

/// The board after the floods from the first `k` of the positions `nb`, one
/// after the other, and whether one of them brought a mine to light. A
/// position under a plain flag is passed over, and nothing follows a mine.
pub open spec fn chord_upto(d: Seq<u8>, w: int, h: int, nb: Seq<(int, int)>, k: nat) -> (
    Seq<u8>,
    bool,
)
    decreases k,
{
    if k == 0 {
        (d, false)
    } else {
        let prev = chord_upto(d, w, h, nb, (k - 1) as nat);
        let n = nb[k - 1];
        if prev.1 || crate::tile::hard_flagged(tile_at(d, w, n.0, n.1)) {
            prev
        } else {
            (
                flooded(prev.0, w, h, n.0, n.1),
                revealable(tile_at(prev.0, w, n.0, n.1)) && mined(tile_at(prev.0, w, n.0, n.1)),
            )
        }
    }
}

/// Once a mine has come to light, the rest of the positions change nothing.
pub proof fn lemma_chord_sticks(d: Seq<u8>, w: int, h: int, nb: Seq<(int, int)>, k: nat, m: nat)
    requires
        k <= m,
        chord_upto(d, w, h, nb, k).1,
    ensures
        chord_upto(d, w, h, nb, m) == chord_upto(d, w, h, nb, k),
    decreases m,
{
    if m > k {
        lemma_chord_sticks(d, w, h, nb, k, (m - 1) as nat);
    }
}

/// `e` is `d` with some tiles uncovered: each tile is as it was, or it was
/// one that a reveal uncovers and has lost its flags.
pub open spec fn uncovers(d: Seq<u8>, e: Seq<u8>) -> bool {
    &&& e.len() == d.len()
    &&& forall|i: int|
        0 <= i < d.len() ==> #[trigger] e[i] == d[i] || (revealable(d[i]) && e[i] == low_bits(
            d[i],
        ))
}

/// `e` has every mine of `d` as it was.
pub open spec fn spares_mines(d: Seq<u8>, e: Seq<u8>) -> bool {
    &&& e.len() == d.len()
    &&& forall|i: int| 0 <= i < d.len() && mined(d[i]) ==> #[trigger] e[i] == d[i]
}

/// Uncovering after uncovering is uncovering.
pub proof fn lemma_uncovers_trans(d: Seq<u8>, c: Seq<u8>, e: Seq<u8>)
    requires
        uncovers(d, c),
        uncovers(c, e),
    ensures
        uncovers(d, e),
{
    assert forall|i: int| 0 <= i < d.len() implies #[trigger] e[i] == d[i] || (revealable(d[i])
        && e[i] == low_bits(d[i])) by {
        assert(c[i] == d[i] || (revealable(d[i]) && c[i] == low_bits(d[i])));
        assert(e[i] == c[i] || (revealable(c[i]) && e[i] == low_bits(c[i])));
        lemma_tile_bits(d[i]);
    }
}

/// Uncovering keeps the low bits of every tile, so the counts stay right;
/// it hides nothing, and it leaves no mark on a tile it uncovers.
pub proof fn lemma_uncovers_keeps(d: Seq<u8>, e: Seq<u8>, w: int, h: int)
    requires
        0 < w,
        d.len() == w * h,
        uncovers(d, e),
        counts_right(d, w, h),
    ensures
        counts_right(e, w, h),
        mine_total(e) == mine_total(d),
        forall|i: int| 0 <= i < d.len() ==> low_bits(#[trigger] e[i]) == low_bits(d[i]),
        forall|i: int| 0 <= i < d.len() && hidden(#[trigger] e[i]) ==> e[i] == d[i],
{
    assert forall|i: int| 0 <= i < d.len() implies low_bits(#[trigger] e[i]) == low_bits(d[i])
        && (hidden(e[i]) ==> e[i] == d[i]) by {
        lemma_tile_bits(d[i]);
    }
    lemma_counts_kept(d, e, w, h);
}

/// A flood only uncovers, and where the counts are right it spares every
/// mine but, at most, the one it starts on.
pub proof fn lemma_flood_uncovers(d: Seq<u8>, w: int, h: int, sx: int, sy: int)
    requires
        0 < w,
        d.len() == w * h,
    ensures
        uncovers(d, flooded(d, w, h, sx, sy)),
        counts_right(d, w, h) && !(in_grid(w, h, sx, sy) && revealable(tile_at(d, w, sx, sy))
            && mined(tile_at(d, w, sx, sy))) ==> spares_mines(d, flooded(d, w, h, sx, sy)),
        in_grid(w, h, sx, sy) && revealable(tile_at(d, w, sx, sy)) ==> !hidden(
            tile_at(flooded(d, w, h, sx, sy), w, sx, sy),
        ),
        in_grid(w, h, sx, sy) && !revealable(tile_at(d, w, sx, sy)) ==> flooded(d, w, h, sx, sy)
            == d,
{
    let e = flooded(d, w, h, sx, sy);
    assert forall|i: int| 0 <= i < d.len() implies #[trigger] e[i] == d[i] || (revealable(d[i])
        && e[i] == low_bits(d[i])) by {
        crate::grid::lemma_offset_coords(w, h, i);
        if reaches(d, w, h, sx, sy, i % w, i / w) {
            lemma_reaches_open(d, w, h, sx, sy, i % w, i / w);
        }
    }
    if counts_right(d, w, h) && !(in_grid(w, h, sx, sy) && revealable(tile_at(d, w, sx, sy))
        && mined(tile_at(d, w, sx, sy))) {
        assert forall|i: int| 0 <= i < d.len() && mined(d[i]) implies #[trigger] e[i] == d[i] by {
            crate::grid::lemma_offset_coords(w, h, i);
            let x = i % w;
            let y = i / w;
            if reaches(d, w, h, sx, sy, x, y) {
                let n = choose|n: nat| reach_in(d, w, h, sx, sy, x, y, n);
                lemma_reaches_open(d, w, h, sx, sy, x, y);
                if x == sx && y == sy {
                } else {
                    lemma_reaches_safe(d, w, h, sx, sy, x, y, n);
                }
            }
        }
    }
    if in_grid(w, h, sx, sy) {
        crate::grid::lemma_offset_in(w, h, sx, sy);
        let i = crate::grid::offset(w, sx, sy);
        crate::grid::lemma_offset_coords(w, h, i);
        crate::grid::lemma_offset_unique(w, i % w, i / w, sx, sy);
        lemma_tile_bits(d[i]);
        if revealable(tile_at(d, w, sx, sy)) {
            lemma_reaches_start(d, w, h, sx, sy);
        } else {
            assert forall|j: int| 0 <= j < d.len() implies e[j] == d[j] by {
                crate::grid::lemma_offset_coords(w, h, j);
                let x = j % w;
                let y = j / w;
                if reaches(d, w, h, sx, sy, x, y) {
                    let n = choose|n: nat| reach_in(d, w, h, sx, sy, x, y, n);
                    lemma_reaches_from_open(d, w, h, sx, sy, x, y, n);
                }
            }
            assert(e =~= d);
        }
    }
}

/// A flood gets nowhere unless a reveal uncovers its start.
pub proof fn lemma_reaches_from_open(
    d: Seq<u8>,
    w: int,
    h: int,
    sx: int,
    sy: int,
    x: int,
    y: int,
    n: nat,
)
    requires
        reach_in(d, w, h, sx, sy, x, y, n),
    ensures
        in_grid(w, h, sx, sy) && revealable(tile_at(d, w, sx, sy)),
    decreases n,
{
    if n > 0 {
        let m = (n - 1) as nat;
        if reach_in(d, w, h, sx, sy, x, y, m) {
            lemma_reaches_from_open(d, w, h, sx, sy, x, y, m);
        } else if reach_in(d, w, h, sx, sy, x - 1, y - 1, m) && zero_at(d, w, x - 1, y - 1) {
            lemma_reaches_from_open(d, w, h, sx, sy, x - 1, y - 1, m);
        } else if reach_in(d, w, h, sx, sy, x, y - 1, m) && zero_at(d, w, x, y - 1) {
            lemma_reaches_from_open(d, w, h, sx, sy, x, y - 1, m);
        } else if reach_in(d, w, h, sx, sy, x + 1, y - 1, m) && zero_at(d, w, x + 1, y - 1) {
            lemma_reaches_from_open(d, w, h, sx, sy, x + 1, y - 1, m);
        } else if reach_in(d, w, h, sx, sy, x - 1, y, m) && zero_at(d, w, x - 1, y) {
            lemma_reaches_from_open(d, w, h, sx, sy, x - 1, y, m);
        } else if reach_in(d, w, h, sx, sy, x + 1, y, m) && zero_at(d, w, x + 1, y) {
            lemma_reaches_from_open(d, w, h, sx, sy, x + 1, y, m);
        } else if reach_in(d, w, h, sx, sy, x - 1, y + 1, m) && zero_at(d, w, x - 1, y + 1) {
            lemma_reaches_from_open(d, w, h, sx, sy, x - 1, y + 1, m);
        } else if reach_in(d, w, h, sx, sy, x, y + 1, m) && zero_at(d, w, x, y + 1) {
            lemma_reaches_from_open(d, w, h, sx, sy, x, y + 1, m);
        } else {
            assert(reach_in(d, w, h, sx, sy, x + 1, y + 1, m) && zero_at(d, w, x + 1, y + 1));
            lemma_reaches_from_open(d, w, h, sx, sy, x + 1, y + 1, m);
        }
    }
}

/// Uncovering around a position only uncovers, and it spares every mine
/// unless it reports one.
pub proof fn lemma_chord_uncovers(d: Seq<u8>, w: int, h: int, nb: Seq<(int, int)>, k: nat)
    requires
        0 < w,
        d.len() == w * h,
        counts_right(d, w, h),
        k <= nb.len(),
        forall|i: int| 0 <= i < nb.len() ==> in_grid(w, h, (#[trigger] nb[i]).0, nb[i].1),
    ensures
        uncovers(d, chord_upto(d, w, h, nb, k).0),
        !chord_upto(d, w, h, nb, k).1 ==> spares_mines(d, chord_upto(d, w, h, nb, k).0),
    decreases k,
{
    if k > 0 {
        lemma_chord_uncovers(d, w, h, nb, (k - 1) as nat);
        let prev = chord_upto(d, w, h, nb, (k - 1) as nat);
        let n = nb[k - 1];
        if !(prev.1 || crate::tile::hard_flagged(tile_at(d, w, n.0, n.1))) {
            lemma_uncovers_keeps(d, prev.0, w, h);
            lemma_flood_uncovers(prev.0, w, h, n.0, n.1);
            lemma_uncovers_trans(d, prev.0, flooded(prev.0, w, h, n.0, n.1));
        }
    }
}

} // verus!

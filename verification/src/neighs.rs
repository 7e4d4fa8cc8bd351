//! Walking the neighbours of a position, and what a mine that comes or goes
//! does to the counts around it.

use vstd::prelude::*;
use crate::board::{block_index, neighbours, neighbours_upto, Board, BoardPos};
use crate::grid::{
    adjacent, count_right, counts_right, in_grid, lemma_offset_in, lemma_offset_unique, mine_at,
    mined_around, offset, tile_at,
};
use crate::tile::{bumped, dropped, lemma_count_step, lemma_tile_bits, low_bits, mined};

verus! {

/// The positions of a list, as pairs of integers.
pub open spec fn coords(v: Seq<BoardPos>) -> Seq<(int, int)> {
    v.map_values(|p: BoardPos| (p.x(), p.y()))
}

impl Board {
    /// The neighbours of `pos` that lie on the board, from the upper left one
    /// row by row to the lower right one.
    pub fn neighs(&self, pos: BoardPos) -> (r: Vec<BoardPos>)
        requires
            self.shaped(),
            pos.within(self),
        ensures
            coords(r@) == neighbours(self.w(), self.h(), pos.x(), pos.y()),
    {
        let mut r: Vec<BoardPos> = Vec::new();
        let mut k: u8 = 0;
        while k < 9
            invariant
                0 <= k <= 9,
                self.shaped(),
                pos.within(self),
                coords(r@) == neighbours_upto(self.w(), self.h(), pos.x(), pos.y(), k as int),
            decreases 9 - k,
        {
            let nx: i64 = pos.0 as i64 + (k % 3) as i64 - 1;
            let ny: i64 = pos.1 as i64 + (k / 3) as i64 - 1;
            if k != 4 && 0 <= nx && nx < self.width as i64 && 0 <= ny && ny < self.height as i64 {
                let ghost before = r@;
                r.push(BoardPos(nx as u32, ny as u32));
                assert(coords(r@) =~= coords(before).push((nx as int, ny as int)));
            }
            k = k + 1;
        }
        r
    }

    /// Puts `f` of the tile in the place of each tile around `pos`. The other
    /// tiles and the two counters stay as they are.
    pub fn map_neighs<F: Fn(u8) -> u8>(&mut self, pos: BoardPos, f: F)
        requires
            old(self).shaped(),
            pos.within(old(self)),
            forall|x: int, y: int|
                in_grid(old(self).w(), old(self).h(), x, y) && adjacent(pos.x(), pos.y(), x, y)
                    ==> f.requires((#[trigger] old(self).tile(x, y),)),
        ensures
            final(self).same_frame(old(self)),
            final(self).hidden_tiles == old(self).hidden_tiles,
            final(self).mine_count == old(self).mine_count,
            forall|x: int, y: int|
                in_grid(old(self).w(), old(self).h(), x, y) ==> (if adjacent(
                    pos.x(),
                    pos.y(),
                    x,
                    y,
                ) {
                    f.ensures((old(self).tile(x, y),), #[trigger] final(self).tile(x, y))
                } else {
                    final(self).tile(x, y) == old(self).tile(x, y)
                }),
    {
        let ghost w = self.w();
        let ghost h = self.h();
        let ghost px = pos.x();
        let ghost py = pos.y();
        let mut k: u8 = 0;
        while k < 9
            invariant
                0 <= k <= 9,
                self.shaped(),
                self.same_frame(old(self)),
                self.hidden_tiles == old(self).hidden_tiles,
                self.mine_count == old(self).mine_count,
                w == self.w(),
                h == self.h(),
                px == pos.x(),
                py == pos.y(),
                in_grid(w, h, px, py),
                forall|x: int, y: int|
                    in_grid(w, h, x, y) && adjacent(px, py, x, y) ==> f.requires(
                        (#[trigger] old(self).tile(x, y),),
                    ),
                forall|x: int, y: int|
                    in_grid(w, h, x, y) ==> (if adjacent(px, py, x, y) && block_index(px, py, x, y)
                        < k {
                        f.ensures((old(self).tile(x, y),), #[trigger] self.tile(x, y))
                    } else {
                        self.tile(x, y) == old(self).tile(x, y)
                    }),
            decreases 9 - k,
        {
            let nx: i64 = pos.0 as i64 + (k % 3) as i64 - 1;
            let ny: i64 = pos.1 as i64 + (k / 3) as i64 - 1;
            if k != 4 && 0 <= nx && nx < self.width as i64 && 0 <= ny && ny < self.height as i64 {
                proof {
                    lemma_offset_in(w, h, nx as int, ny as int);
                    assert(offset(w, nx as int, ny as int) < self.data.len());
                    assert(block_index(px, py, nx as int, ny as int) == k);
                }
                let at = BoardPos(nx as u32, ny as u32);
                assert(at.x() == nx && at.y() == ny);
                assert(at.index(self) == offset(w, nx as int, ny as int));
                let off = at.rel_offset_unchecked(self);
                let ghost before = self.data@;
                let ghost pre = *self;
                let t = self.data[off];
                assert(t == self.tile(nx as int, ny as int));
                assert(t == old(self).tile(nx as int, ny as int));
                assert(adjacent(px, py, nx as int, ny as int));
                let v = f(t);
                self.data.set(off, v);
                assert(self.data@ == before.update(off as int, v));
                assert forall|x: int, y: int| in_grid(w, h, x, y) implies (if adjacent(px, py, x, y)
                    && block_index(px, py, x, y) < k + 1 {
                    f.ensures((old(self).tile(x, y),), #[trigger] self.tile(x, y))
                } else {
                    self.tile(x, y) == old(self).tile(x, y)
                }) by {
                    lemma_offset_in(w, h, x, y);
                    if offset(w, x, y) == off {
                        lemma_offset_unique(w, x, y, nx as int, ny as int);
                        assert(self.tile(x, y) == v);
                    } else {
                        assert(self.tile(x, y) == pre.tile(x, y));
                    }
                }
            }
            k = k + 1;
        }
    }

    /// Adds one to the count of each tile around `pos` that is no mine.
    pub fn raise_neighs(&mut self, pos: BoardPos)
        requires
            old(self).shaped(),
            pos.within(old(self)),
        ensures
            final(self).same_frame(old(self)),
            final(self).hidden_tiles == old(self).hidden_tiles,
            final(self).mine_count == old(self).mine_count,
            forall|x: int, y: int|
                in_grid(old(self).w(), old(self).h(), x, y) ==> #[trigger] final(self).tile(x, y)
                    == (if adjacent(pos.x(), pos.y(), x, y) {
                    bumped(old(self).tile(x, y))
                } else {
                    old(self).tile(x, y)
                }),
    {
        let up = |t: u8| -> (r: u8)
            ensures
                r == bumped(t),
            {
                proof {
                    lemma_count_step(t);
                }
                if (t & 0x1f) == 0x1f {
                    t
                } else {
                    t + 1
                }
            };
        self.map_neighs(pos, up);
    }

    /// Takes one from the count of each tile around `pos` that is no mine.
    /// Each of them must count at least one mine.
    pub fn lower_neighs(&mut self, pos: BoardPos)
        requires
            old(self).shaped(),
            pos.within(old(self)),
            forall|x: int, y: int|
                in_grid(old(self).w(), old(self).h(), x, y) && adjacent(pos.x(), pos.y(), x, y)
                    ==> mined(#[trigger] old(self).tile(x, y)) || low_bits(old(self).tile(x, y))
                    >= 1,
        ensures
            final(self).same_frame(old(self)),
            final(self).hidden_tiles == old(self).hidden_tiles,
            final(self).mine_count == old(self).mine_count,
            forall|x: int, y: int|
                in_grid(old(self).w(), old(self).h(), x, y) ==> #[trigger] final(self).tile(x, y)
                    == (if adjacent(pos.x(), pos.y(), x, y) {
                    dropped(old(self).tile(x, y))
                } else {
                    old(self).tile(x, y)
                }),
    {
        let down = |t: u8| -> (r: u8)
            requires
                mined(t) || low_bits(t) >= 1,
            ensures
                r == dropped(t),
            {
                proof {
                    lemma_count_step(t);
                }
                if (t & 0x1f) == 0x1f {
                    t
                } else {
                    t - 1
                }
            };
        self.map_neighs(pos, down);
    }

    /// The number of mines around `pos`.
    pub fn count_mines_around(&self, pos: BoardPos) -> (n: u8)
        requires
            self.shaped(),
            pos.within(self),
        ensures
            n == self.mines_around(pos.x(), pos.y()),
            n <= 8,
    {
        let a = self.mine_on(pos.0 as i64 - 1, pos.1 as i64 - 1);
        let b = self.mine_on(pos.0 as i64, pos.1 as i64 - 1);
        let c = self.mine_on(pos.0 as i64 + 1, pos.1 as i64 - 1);
        let d = self.mine_on(pos.0 as i64 - 1, pos.1 as i64);
        let e = self.mine_on(pos.0 as i64 + 1, pos.1 as i64);
        let f = self.mine_on(pos.0 as i64 - 1, pos.1 as i64 + 1);
        let g = self.mine_on(pos.0 as i64, pos.1 as i64 + 1);
        let i = self.mine_on(pos.0 as i64 + 1, pos.1 as i64 + 1);
        a + b + c + d + e + f + g + i
    }

    /// 1 if `(x, y)` lies on the board and holds a mine, else 0.
    pub fn mine_on(&self, x: i64, y: i64) -> (n: u8)
        requires
            self.shaped(),
        ensures
            n == mine_at(self.data@, self.w(), self.h(), x as int, y as int),
            n <= 1,
    {
        if 0 <= x && x < self.width as i64 && 0 <= y && y < self.height as i64 {
            proof {
                lemma_offset_in(self.w(), self.h(), x as int, y as int);
                assert(offset(self.w(), x as int, y as int) < self.data.len());
            }
            let at = BoardPos(x as u32, y as u32);
            assert(at.index(self) == offset(self.w(), x as int, y as int));
            let t = self.data[at.rel_offset_unchecked(self)];
            if (t & 0x1f) == 0x1f {
                1
            } else {
                0
            }
        } else {
            0
        }
    }
}

/// A mine that appears on a tile without one leaves the counts right, once
/// every other tile around it counts one more.
pub proof fn lemma_mine_added(d: Seq<u8>, e: Seq<u8>, w: int, h: int, mx: int, my: int)
    requires
        counts_right(d, w, h),
        in_grid(w, h, mx, my),
        !mined(tile_at(d, w, mx, my)),
        mined(tile_at(e, w, mx, my)),
        forall|x: int, y: int|
            in_grid(w, h, x, y) && !(x == mx && y == my) ==> #[trigger] tile_at(e, w, x, y) == (
            if adjacent(mx, my, x, y) {
                bumped(tile_at(d, w, x, y))
            } else {
                tile_at(d, w, x, y)
            }),
    ensures
        counts_right(e, w, h),
        forall|x: int, y: int|
            in_grid(w, h, x, y) ==> mined(#[trigger] tile_at(e, w, x, y)) == (mined(
                tile_at(d, w, x, y),
            ) || (x == mx && y == my)),
{
    assert forall|x: int, y: int| in_grid(w, h, x, y) implies mined(#[trigger] tile_at(e, w, x, y))
        == (mined(tile_at(d, w, x, y)) || (x == mx && y == my)) by {
        lemma_step_keeps(d, w, h, x, y);
    }
    assert forall|x: int, y: int| in_grid(w, h, x, y) implies #[trigger] count_right(
        e,
        w,
        h,
        x,
        y,
    ) by {
        assert(count_right(d, w, h, x, y));
        lemma_step_keeps(d, w, h, x, y);
        lemma_count_step(tile_at(d, w, x, y));
        lemma_around_one_more(d, e, w, h, mx, my, x, y);
    }
}

/// A tile that counts its mines right, and is no mine, holds at most eight,
/// so one more or one fewer makes no mine of it.
pub proof fn lemma_step_keeps(d: Seq<u8>, w: int, h: int, x: int, y: int)
    requires
        counts_right(d, w, h),
        in_grid(w, h, x, y),
    ensures
        mined(bumped(tile_at(d, w, x, y))) == mined(tile_at(d, w, x, y)),
        mined(dropped(tile_at(d, w, x, y))) == mined(tile_at(d, w, x, y)) || low_bits(
            tile_at(d, w, x, y),
        ) == 0,
        !mined(tile_at(d, w, x, y)) ==> low_bits(tile_at(d, w, x, y)) <= 8,
{
    let t = tile_at(d, w, x, y);
    assert(count_right(d, w, h, x, y));
    lemma_count_step(t);
    lemma_tile_bits(t);
    if !mined(t) {
        assert(low_bits(t) <= 8);
        lemma_tile_bits((t + 1) as u8);
        if low_bits(t) >= 1 {
            lemma_tile_bits((t - 1) as u8);
        }
    }
}

/// With the mines of `e` those of `d` and one more at `(mx, my)`, a position
/// has one more mine around it in `e` exactly if it touches `(mx, my)`.
pub proof fn lemma_around_one_more(
    d: Seq<u8>,
    e: Seq<u8>,
    w: int,
    h: int,
    mx: int,
    my: int,
    x: int,
    y: int,
)
    requires
        in_grid(w, h, mx, my),
        !mined(tile_at(d, w, mx, my)),
        forall|ax: int, ay: int|
            in_grid(w, h, ax, ay) ==> mined(#[trigger] tile_at(e, w, ax, ay)) == (mined(
                tile_at(d, w, ax, ay),
            ) || (ax == mx && ay == my)),
    ensures
        mined_around(e, w, h, x, y) == mined_around(d, w, h, x, y) + (if adjacent(mx, my, x, y) {
            1int
        } else {
            0int
        }),
{
    lemma_one_more_at(d, e, w, h, mx, my, x - 1, y - 1);
    lemma_one_more_at(d, e, w, h, mx, my, x, y - 1);
    lemma_one_more_at(d, e, w, h, mx, my, x + 1, y - 1);
    lemma_one_more_at(d, e, w, h, mx, my, x - 1, y);
    lemma_one_more_at(d, e, w, h, mx, my, x + 1, y);
    lemma_one_more_at(d, e, w, h, mx, my, x - 1, y + 1);
    lemma_one_more_at(d, e, w, h, mx, my, x, y + 1);
    lemma_one_more_at(d, e, w, h, mx, my, x + 1, y + 1);
}

proof fn lemma_one_more_at(d: Seq<u8>, e: Seq<u8>, w: int, h: int, mx: int, my: int, x: int, y: int)
    requires
        in_grid(w, h, mx, my),
        !mined(tile_at(d, w, mx, my)),
        forall|ax: int, ay: int|
            in_grid(w, h, ax, ay) ==> mined(#[trigger] tile_at(e, w, ax, ay)) == (mined(
                tile_at(d, w, ax, ay),
            ) || (ax == mx && ay == my)),
    ensures
        mine_at(e, w, h, x, y) == mine_at(d, w, h, x, y) + (if x == mx && y == my {
            1int
        } else {
            0int
        }),
{
    if in_grid(w, h, x, y) {
        assert(mined(tile_at(e, w, x, y)) == (mined(tile_at(d, w, x, y)) || (x == mx && y == my)));
    }
}

/// A mine that leaves its tile leaves the counts right, once every other
/// tile around it counts one fewer and the tile itself counts its own.
pub proof fn lemma_mine_removed(d: Seq<u8>, e: Seq<u8>, w: int, h: int, mx: int, my: int)
    requires
        counts_right(d, w, h),
        in_grid(w, h, mx, my),
        mined(tile_at(d, w, mx, my)),
        !mined(tile_at(e, w, mx, my)),
        low_bits(tile_at(e, w, mx, my)) == mined_around(d, w, h, mx, my),
        forall|x: int, y: int|
            in_grid(w, h, x, y) && !(x == mx && y == my) ==> #[trigger] tile_at(e, w, x, y) == (
            if adjacent(mx, my, x, y) {
                dropped(tile_at(d, w, x, y))
            } else {
                tile_at(d, w, x, y)
            }),
    ensures
        counts_right(e, w, h),
        forall|x: int, y: int|
            in_grid(w, h, x, y) ==> mined(#[trigger] tile_at(e, w, x, y)) == (mined(
                tile_at(d, w, x, y),
            ) && !(x == mx && y == my)),
{
    assert forall|x: int, y: int| in_grid(w, h, x, y) implies mined(#[trigger] tile_at(e, w, x, y))
        == (mined(tile_at(d, w, x, y)) && !(x == mx && y == my)) by {
        lemma_step_keeps(d, w, h, x, y);
        if adjacent(mx, my, x, y) && !mined(tile_at(d, w, x, y)) {
            lemma_touching_counts(d, w, h, mx, my, x, y);
        }
    }
    assert forall|x: int, y: int| in_grid(w, h, x, y) implies #[trigger] count_right(
        e,
        w,
        h,
        x,
        y,
    ) by {
        assert(count_right(d, w, h, x, y));
        lemma_step_keeps(d, w, h, x, y);
        lemma_count_step(tile_at(d, w, x, y));
        lemma_around_one_more(e, d, w, h, mx, my, x, y);
        if adjacent(mx, my, x, y) && !mined(tile_at(d, w, x, y)) {
            lemma_touching_counts(d, w, h, mx, my, x, y);
        }
    }
}

/// A tile that touches a mine counts at least one.
pub proof fn lemma_touching_counts(d: Seq<u8>, w: int, h: int, mx: int, my: int, x: int, y: int)
    requires
        counts_right(d, w, h),
        in_grid(w, h, mx, my),
        in_grid(w, h, x, y),
        mined(tile_at(d, w, mx, my)),
        adjacent(mx, my, x, y),
        !mined(tile_at(d, w, x, y)),
    ensures
        low_bits(tile_at(d, w, x, y)) >= 1,
{
    assert(count_right(d, w, h, x, y));
    assert(mine_at(d, w, h, mx, my) == 1);
}

} // verus!

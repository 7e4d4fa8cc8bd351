//! Laying mines at random.

use vstd::prelude::*;
use crate::board::{Board, BoardPos};
use crate::outside::random_between;
use crate::grid::{
    adjacent, count_of, counts_right, hidden_count, hidden_p, in_grid, lemma_count_all,
    lemma_count_bound, lemma_count_same, lemma_count_update, lemma_offset_coords,
    lemma_offset_in, lemma_offset_unique, mine_total, mined_p, offset, tile_at,
};
use crate::neighs::{lemma_mine_added, lemma_step_keeps};
use crate::relocate::lemma_same_kinds;
use crate::tile::{
    bumped, hidden, is_hidden, is_mine, lemma_count_step, lemma_mine_value, mark_bits, mined, MINED,
};

verus! {

/// How often a position is drawn for one mine before the first free tile is
/// taken instead.
pub const MAX_DRAWS: u32 = 32;

/// The first column and row of the part of the board that takes mines: the
/// whole board, or the board without its outer ring.
pub open spec fn region_start(inner: bool) -> int {
    if inner {
        1
    } else {
        0
    }
}

/// The width, or height, of the part that takes mines on a board of width,
/// or height, `n`.
pub open spec fn region_side(n: int, inner: bool) -> int {
    if inner {
        n - 2
    } else {
        n
    }
}

/// `(x, y)` lies in the part of the board that takes mines.
pub open spec fn in_region(w: int, h: int, inner: bool, x: int, y: int) -> bool {
    &&& region_start(inner) <= x < region_start(inner) + region_side(w, inner)
    &&& region_start(inner) <= y < region_start(inner) + region_side(h, inner)
}

/// The tiles of the part that takes mines, row by row.
pub open spec fn region_tiles(d: Seq<u8>, w: int, h: int, inner: bool) -> Seq<u8> {
    Seq::new(
        (region_side(w, inner) * region_side(h, inner)) as nat,
        |k: int|
            tile_at(
                d,
                w,
                region_start(inner) + k % region_side(w, inner),
                region_start(inner) + k / region_side(w, inner),
            ),
    )
}

/// The number of mines in the part that takes mines.
pub open spec fn region_mines(d: Seq<u8>, w: int, h: int, inner: bool) -> nat {
    count_of(region_tiles(d, w, h, inner), mined_p())
}

/// `e` is `d` with more mines: the old mines are untouched, each new one is
/// a plain hidden mine inside the part that takes mines, and every tile
/// without a mine has kept its flags.
pub open spec fn laid(d: Seq<u8>, e: Seq<u8>, w: int, h: int, inner: bool) -> bool {
    &&& e.len() == d.len()
    &&& forall|x: int, y: int|
        in_grid(w, h, x, y) ==> {
            let a = tile_at(d, w, x, y);
            let b = #[trigger] tile_at(e, w, x, y);
            &&& mined(a) ==> b == a
            &&& mined(b) && !mined(a) ==> in_region(w, h, inner, x, y) && b == MINED
            &&& !mined(b) ==> hidden(b) == hidden(a) && mark_bits(b) == mark_bits(a)
        }
}

impl Board {
    /// Puts a plain hidden mine on the tile at `pos`, which has none, and
    /// lets the tiles around it count it.
    pub fn lay_mine(&mut self, pos: BoardPos)
        requires
            old(self).shaped(),
            counts_right(old(self).data@, old(self).w(), old(self).h()),
            old(self).hidden_tiles == hidden_count(old(self).data@),
            pos.within(old(self)),
            !mined(old(self).tile(pos.x(), pos.y())),
        ensures
            final(self).same_frame(old(self)),
            final(self).mine_count == old(self).mine_count,
            counts_right(final(self).data@, final(self).w(), final(self).h()),
            final(self).hidden_tiles == hidden_count(final(self).data@),
            mine_total(final(self).data@) == mine_total(old(self).data@) + 1,
            final(self).tile(pos.x(), pos.y()) == MINED,
            forall|x: int, y: int|
                in_grid(old(self).w(), old(self).h(), x, y) && !(x == pos.x() && y == pos.y())
                    ==> #[trigger] final(self).tile(x, y) == (if adjacent(
                    pos.x(),
                    pos.y(),
                    x,
                    y,
                ) {
                    bumped(old(self).tile(x, y))
                } else {
                    old(self).tile(x, y)
                }),
            forall|x: int, y: int|
                in_grid(old(self).w(), old(self).h(), x, y) && !(x == pos.x() && y == pos.y())
                    ==> mined(#[trigger] final(self).tile(x, y)) == mined(old(self).tile(x, y))
                    && hidden(final(self).tile(x, y)) == hidden(old(self).tile(x, y))
                    && mark_bits(final(self).tile(x, y)) == mark_bits(old(self).tile(x, y)),
    {
        let ghost d2 = self.data@;
        let ghost w = self.w();
        let ghost h = self.h();
        let ghost px = pos.x();
        let ghost py = pos.y();
        proof {
            lemma_offset_in(w, h, px, py);
            assert(offset(w, px, py) < self.data.len());
        }
        let off = pos.rel_offset_unchecked(self);
        let old_v = self.data[off];
        proof {
            lemma_mine_value();
            lemma_count_update(d2, hidden_p(), off as int, MINED);
            lemma_count_update(d2, mined_p(), off as int, MINED);
            lemma_count_bound(d2, hidden_p());
            if !hidden(old_v) {
                lemma_count_all(d2, hidden_p());
                assert(!hidden_p()(d2[off as int]));
            }
        }
        self.data.set(off, MINED);
        if !is_hidden(old_v) {
            self.hidden_tiles = self.hidden_tiles + 1;
        }
        let ghost d3 = self.data@;
        self.raise_neighs(pos);
        let ghost d4 = self.data@;
        proof {
            assert(d3 == d2.update(off as int, MINED));
            assert forall|x: int, y: int| in_grid(w, h, x, y) implies tile_at(d3, w, x, y) == (
            if x == px && y == py {
                MINED
            } else {
                tile_at(d2, w, x, y)
            }) by {
                lemma_offset_in(w, h, x, y);
                if offset(w, x, y) == off {
                    lemma_offset_unique(w, x, y, px, py);
                }
            }
            assert forall|x: int, y: int|
                in_grid(w, h, x, y) && !(x == px && y == py) implies #[trigger] tile_at(
                d4,
                w,
                x,
                y,
            ) == (if adjacent(px, py, x, y) {
                bumped(tile_at(d2, w, x, y))
            } else {
                tile_at(d2, w, x, y)
            }) by {
                assert(self.tile(x, y) == tile_at(d4, w, x, y));
            }
            assert(self.tile(px, py) == tile_at(d4, w, px, py));
            assert(tile_at(d4, w, px, py) == MINED);
            lemma_mine_added(d2, d4, w, h, px, py);
            assert forall|x: int, y: int| in_grid(w, h, x, y) implies hidden(
                #[trigger] tile_at(d4, w, x, y),
            ) == hidden(tile_at(d3, w, x, y)) && mined(tile_at(d4, w, x, y)) == mined(
                tile_at(d3, w, x, y),
            ) && mark_bits(tile_at(d4, w, x, y)) == mark_bits(tile_at(d3, w, x, y)) by {
                assert(self.tile(x, y) == tile_at(d4, w, x, y));
                if !(x == px && y == py) {
                    lemma_step_keeps(d2, w, h, x, y);
                    lemma_count_step(tile_at(d2, w, x, y));
                    lemma_count_step(tile_at(d4, w, x, y));
                }
            }
            lemma_same_kinds(d3, d4, w, h);
        }
    }
}

/// One more mine inside the part that takes mines is one more mine counted
/// there.
pub proof fn lemma_region_step(
    d: Seq<u8>,
    e: Seq<u8>,
    w: int,
    h: int,
    inner: bool,
    px: int,
    py: int,
)
    requires
        0 < region_side(w, inner),
        0 < region_side(h, inner),
        in_region(w, h, inner, px, py),
        !mined(tile_at(d, w, px, py)),
        mined(tile_at(e, w, px, py)),
        forall|x: int, y: int|
            in_grid(w, h, x, y) && !(x == px && y == py) ==> mined(#[trigger] tile_at(e, w, x, y))
                == mined(tile_at(d, w, x, y)),
    ensures
        region_mines(e, w, h, inner) == region_mines(d, w, h, inner) + 1,
{
    let rw = region_side(w, inner);
    let rh = region_side(h, inner);
    let s = region_start(inner);
    let rd = region_tiles(d, w, h, inner);
    let re = region_tiles(e, w, h, inner);
    let k0 = offset(rw, px - s, py - s);
    lemma_offset_in(rw, rh, px - s, py - s);
    lemma_offset_coords(rw, rh, k0);
    lemma_offset_unique(rw, k0 % rw, k0 / rw, px - s, py - s);
    let u = rd.update(k0, MINED);
    let p = mined_p();
    crate::tile::lemma_mine_value();
    assert forall|k: int| 0 <= k < re.len() implies p(#[trigger] re[k]) == p(u[k]) by {
        lemma_offset_coords(rw, rh, k);
        let x = s + k % rw;
        let y = s + k / rw;
        assert(in_grid(w, h, x, y));
        if k != k0 {
            if x == px && y == py {
                assert(offset(rw, k % rw, k / rw) == k);
                assert(false);
            }
            assert(mined(tile_at(e, w, x, y)) == mined(tile_at(d, w, x, y)));
        }
    }
    lemma_count_same(re, u, p);
    lemma_count_update(rd, p, k0, MINED);
    assert(!p(rd[k0]));
}

impl Board {
    /// A position in the part of the board that takes mines whose tile has
    /// none. Positions are drawn at random, again whenever one lands on a
    /// mine; after `MAX_DRAWS` draws the first free tile is taken.
    pub fn pick_free(&self, inner: bool) -> (pos: BoardPos)
        requires
            self.shaped(),
            inner ==> self.width >= 3 && self.height >= 3,
            region_mines(self.data@, self.w(), self.h(), inner) < region_side(self.w(), inner)
                * region_side(self.h(), inner),
        ensures
            pos.within(self),
            in_region(self.w(), self.h(), inner, pos.x(), pos.y()),
            !mined(self.tile(pos.x(), pos.y())),
    {
        let lo: u32 = if inner {
            1
        } else {
            0
        };
        let xhi: u32 = if inner {
            (self.width - 1) as u32
        } else {
            self.width as u32
        };
        let yhi: u32 = if inner {
            (self.height - 1) as u32
        } else {
            self.height as u32
        };
        let mut draws: u32 = 0;
        while draws < MAX_DRAWS
            invariant
                self.shaped(),
                lo == region_start(inner),
                xhi == lo + region_side(self.w(), inner),
                yhi == lo + region_side(self.h(), inner),
                lo < xhi <= self.width,
                lo < yhi <= self.height,
            decreases MAX_DRAWS - draws,
        {
            let drawn = BoardPos(random_between(lo, xhi), random_between(lo, yhi));
            if !is_mine(self.tile_of(drawn)) {
                return drawn;
            }
            draws = draws + 1;
        }
        self.first_free(inner)
    }

    /// The first position, row by row, in the part of the board that takes
    /// mines whose tile has none.
    pub fn first_free(&self, inner: bool) -> (pos: BoardPos)
        requires
            self.shaped(),
            inner ==> self.width >= 3 && self.height >= 3,
            region_mines(self.data@, self.w(), self.h(), inner) < region_side(self.w(), inner)
                * region_side(self.h(), inner),
        ensures
            pos.within(self),
            in_region(self.w(), self.h(), inner, pos.x(), pos.y()),
            !mined(self.tile(pos.x(), pos.y())),
            forall|j: int|
                0 <= j < offset(
                    region_side(self.w(), inner),
                    pos.x() - region_start(inner),
                    pos.y() - region_start(inner),
                ) ==> mined(#[trigger] region_tiles(self.data@, self.w(), self.h(), inner)[j]),
    {
        let lo: usize = if inner {
            1
        } else {
            0
        };
        let rw: usize = if inner {
            self.width - 2
        } else {
            self.width
        };
        let rh: usize = if inner {
            self.height - 2
        } else {
            self.height
        };
        let ghost rt = region_tiles(self.data@, self.w(), self.h(), inner);
        proof {
            assert(0 <= rw * rh <= self.width * self.height) by (nonlinear_arith)
                requires
                    0 <= rw <= self.width,
                    0 <= rh <= self.height,
            ;
            assert(self.width * self.height == self.data.len());
        }
        let total = rw * rh;
        let mut k: usize = 0;
        while k < total
            invariant
                0 <= k <= total,
                self.shaped(),
                inner ==> self.width >= 3 && self.height >= 3,
                lo == region_start(inner),
                rw == region_side(self.w(), inner),
                rh == region_side(self.h(), inner),
                0 < rw,
                0 < rh,
                total == rw * rh,
                rt == region_tiles(self.data@, self.w(), self.h(), inner),
                forall|j: int| 0 <= j < k ==> mined(#[trigger] rt[j]),
            decreases total - k,
        {
            proof {
                lemma_offset_coords(rw as int, rh as int, k as int);
            }
            let at = BoardPos((lo + k % rw) as u32, (lo + k / rw) as u32);
            let t = self.tile_of(at);
            assert(t == rt[k as int]);
            if !is_mine(t) {
                return at;
            }
            k = k + 1;
        }
        proof {
            lemma_count_all(rt, mined_p());
            assert forall|j: int| 0 <= j < rt.len() implies mined_p()(#[trigger] rt[j]) by {
                assert(mined(rt[j]));
            }
            assert(false);
        }
        BoardPos(0, 0)
    }

    /// Lays `count` more mines on tiles that have none, at random: over the
    /// whole board, or, `without_edges`, everywhere but on the outer ring.
    /// There must be room for them. Each new mine is a plain hidden one,
    /// and the tiles around it count it. The counter of hidden tiles stays
    /// right; the board's counter of mines is not touched, so the board is
    /// consistent afterwards if that counter took the new mines in already.
    pub fn spread_mines(&mut self, count: usize, without_edges: bool)
        requires
            old(self).shaped(),
            counts_right(old(self).data@, old(self).w(), old(self).h()),
            old(self).hidden_tiles == hidden_count(old(self).data@),
            without_edges ==> old(self).width >= 3 && old(self).height >= 3,
            count + region_mines(old(self).data@, old(self).w(), old(self).h(), without_edges)
                <= region_side(old(self).w(), without_edges) * region_side(
                old(self).h(),
                without_edges,
            ),
        ensures
            final(self).same_frame(old(self)),
            final(self).mine_count == old(self).mine_count,
            counts_right(final(self).data@, old(self).w(), old(self).h()),
            final(self).hidden_tiles == hidden_count(final(self).data@),
            mine_total(final(self).data@) == mine_total(old(self).data@) + count,
            laid(old(self).data@, final(self).data@, old(self).w(), old(self).h(), without_edges),
            old(self).mine_count == mine_total(old(self).data@) + count ==> final(self).wf(),
    {
        let ghost d0 = self.data@;
        let ghost w = self.w();
        let ghost h = self.h();
        let mut placed: usize = 0;
        while placed < count
            invariant
                0 <= placed <= count,
                self.shaped(),
                self.same_frame(old(self)),
                self.mine_count == old(self).mine_count,
                w == self.w(),
                h == self.h(),
                d0 == old(self).data@,
                without_edges ==> self.width >= 3 && self.height >= 3,
                counts_right(self.data@, w, h),
                self.hidden_tiles == hidden_count(self.data@),
                mine_total(self.data@) == mine_total(d0) + placed,
                region_mines(self.data@, w, h, without_edges) == region_mines(
                    d0,
                    w,
                    h,
                    without_edges,
                ) + placed,
                count + region_mines(d0, w, h, without_edges) <= region_side(w, without_edges)
                    * region_side(h, without_edges),
                laid(d0, self.data@, w, h, without_edges),
            decreases count - placed,
        {
            let ghost d = self.data@;
            let pos = self.pick_free(without_edges);
            self.lay_mine(pos);
            proof {
                let e = self.data@;
                assert(self.tile(pos.x(), pos.y()) == tile_at(e, w, pos.x(), pos.y()));
                crate::tile::lemma_mine_value();
                assert forall|x: int, y: int|
                    in_grid(w, h, x, y) && !(x == pos.x() && y == pos.y()) implies mined(
                    #[trigger] tile_at(e, w, x, y),
                ) == mined(tile_at(d, w, x, y)) by {
                    assert(self.tile(x, y) == tile_at(e, w, x, y));
                }
                lemma_region_step(d, e, w, h, without_edges, pos.x(), pos.y());
                assert forall|x: int, y: int| in_grid(w, h, x, y) implies ({
                    let a = tile_at(d0, w, x, y);
                    let b = #[trigger] tile_at(e, w, x, y);
                    &&& mined(a) ==> b == a
                    &&& mined(b) && !mined(a) ==> in_region(w, h, without_edges, x, y) && b
                        == MINED
                    &&& !mined(b) ==> hidden(b) == hidden(a) && mark_bits(b) == mark_bits(a)
                }) by {
                    assert(self.tile(x, y) == tile_at(e, w, x, y));
                    let m = tile_at(d, w, x, y);
                    assert(mined(tile_at(d0, w, x, y)) ==> m == tile_at(d0, w, x, y));
                }
            }
            placed = placed + 1;
        }
    }
}

} // verus!

//! Building a fresh board.

use vstd::prelude::*;
use crate::board::{Board, BoardConf, BoardPos};
use crate::flood::{
    flooded, lemma_flood_uncovers, lemma_uncovers_keeps, spares_mines,
    uncovers,
};
use crate::grid::{
    counts_right, flag_at, hidden_count, hidden_p, in_grid, lemma_count_all, lemma_offset_coords,
    lemma_offset_in, mine_at, mine_total, mined_p, offset, tile_at,
};
use crate::laying::{in_region, laid, region_mines, region_side, region_tiles};
use crate::tile::{
    hidden, lemma_mark_values, lemma_mine_value, lemma_tile_bits, low_bits,
    mark_bits, mined, revealable, HIDDEN_BIT, MINED,
};

verus! {

/// No tile carries a mark, and every mine is a plain hidden one: the tiles
/// of a game in which nobody has flagged anything nor hit a mine.
pub open spec fn pristine(d: Seq<u8>) -> bool {
    forall|i: int| 0 <= i < d.len() ==> mark_bits(#[trigger] d[i]) == 0 && (mined(d[i]) ==> d[i] == MINED)
}

/// `(x, y)` lies on the outer ring of the board.
pub open spec fn on_ring(w: int, h: int, x: int, y: int) -> bool {
    in_grid(w, h, x, y) && (x == 0 || y == 0 || x == w - 1 || y == h - 1)
}

/// The tiles all covered again and without marks: what they were when the
/// mines had just been laid.
pub open spec fn covered(d: Seq<u8>) -> Seq<u8> {
    d.map_values(|t: u8| (HIDDEN_BIT + low_bits(t)) as u8)
}

/// The positions of the outer ring in the order in which a fresh board
/// uncovers them: the upper and the lower row, column by column, then the
/// two sides, row by row.
pub open spec fn ring_order(w: int, h: int) -> Seq<(int, int)> {
    Seq::new(
        (2 * w + 2 * (h - 2)) as nat,
        |i: int|
            if i < 2 * w {
                (i / 2, if i % 2 == 0 {
                    0
                } else {
                    h - 1
                })
            } else {
                (if (i - 2 * w) % 2 == 0 {
                    0
                } else {
                    w - 1
                }, 1 + (i - 2 * w) / 2)
            },
    )
}

/// The tiles after a flood from each of the first `k` of the positions
/// `ps`, one after the other.
pub open spec fn flooded_from(d: Seq<u8>, w: int, h: int, ps: Seq<(int, int)>, k: nat) -> Seq<u8>
    decreases k,
{
    if k == 0 {
        d
    } else {
        flooded(flooded_from(d, w, h, ps, (k - 1) as nat), w, h, ps[k - 1].0, ps[k - 1].1)
    }
}

/// What uncovering says of one position.
pub proof fn lemma_uncovers_at(d: Seq<u8>, e: Seq<u8>, w: int, h: int, x: int, y: int)
    requires
        0 < w,
        d.len() == w * h,
        uncovers(d, e),
        in_grid(w, h, x, y),
    ensures
        tile_at(e, w, x, y) == tile_at(d, w, x, y) || (revealable(tile_at(d, w, x, y)) && tile_at(
            e,
            w,
            x,
            y,
        ) == low_bits(tile_at(d, w, x, y))),
        !hidden(tile_at(d, w, x, y)) ==> !hidden(tile_at(e, w, x, y)),
{
    lemma_offset_in(w, h, x, y);
    let i = offset(w, x, y);
    assert(e[i] == d[i] || (revealable(d[i]) && e[i] == low_bits(d[i])));
    lemma_tile_bits(d[i]);
}

impl BoardConf {
    /// The number of mines is no more than the number of tiles that may hold
    /// one, which is no more than the number of tiles.
    pub proof fn law_mine_count_bounded(&self)
        requires
            self.wf(),
        ensures
            0 <= self.mine_count() <= self.mined_area() <= self.area(),
    {
        let a = self.mined_area();
        let n = self.mine_ratio.0 as int;
        let q = self.mine_ratio.1 as int;
        assert(0 <= a <= self.w * self.h) by (nonlinear_arith)
            requires
                a == (if self.ringed() {
                    (self.w - 2) * (self.h - 2)
                } else {
                    self.w * self.h
                }),
                self.ringed() ==> self.w >= 3 && self.h >= 3,
                self.w >= 1,
                self.h >= 1,
        ;
        assert(0 <= (n * a) / q) by (nonlinear_arith)
            requires
                0 <= n,
                0 <= a,
                q >= 1,
        ;
    }

    /// The number of tiles that may hold a mine.
    pub fn mined_tiles(&self) -> (a: usize)
        requires
            self.wf(),
        ensures
            a == self.mined_area(),
            a <= self.w * self.h,
    {
        proof {
            self.law_mine_count_bounded();
        }
        if self.revealed_borders && self.w >= 3 && self.h >= 3 {
            (self.w - 2) * (self.h - 2)
        } else {
            self.w * self.h
        }
    }

    /// The number of mines that a board of this configuration holds.
    pub fn mines(&self) -> (n: usize)
        requires
            self.wf(),
        ensures
            n == self.mine_count(),
            n <= self.mined_area(),
    {
        let a = self.mined_tiles();
        proof {
            self.law_mine_count_bounded();
            assert(self.mine_ratio.0 as int * a as int <= u128::MAX) by (nonlinear_arith)
                requires
                    0 <= self.mine_ratio.0 as int <= 0xffff_ffff_ffff_ffff,
                    0 <= a as int <= 0xffff_ffff_ffff_ffff,
            ;
        }
        let wanted: u128 = (self.mine_ratio.0 as u128 * a as u128) / (self.mine_ratio.1 as u128);
        if wanted > a as u128 {
            a
        } else {
            wanted as usize
        }
    }
}

impl Board {
    /// Every tile of the outer ring is uncovered.
    pub open spec fn ring_open(&self) -> bool {
        forall|x: int, y: int| on_ring(self.w(), self.h(), x, y) ==> !hidden(#[trigger] self.tile(x, y))
    }

    /// A board as it is before the first move: consistent, of the size and
    /// with the number of mines that the configuration gives, no tile
    /// marked, no mine exposed, and no mine outside the part of the board
    /// that takes mines. Every tile is hidden; or, where the outer ring is
    /// kept free, the board is what a flood from each tile of the ring, in
    /// order, makes of the same board with every tile hidden.
    pub open spec fn fresh_for(&self, conf: &BoardConf) -> bool {
        &&& self.wf()
        &&& self.width == conf.w
        &&& self.height == conf.h
        &&& self.num_tile_reveal == conf.num_tile_reveal
        &&& self.mine_count == conf.mine_count()
        &&& pristine(self.data@)
        &&& forall|x: int, y: int|
            in_grid(self.w(), self.h(), x, y) && mined(#[trigger] self.tile(x, y)) ==> in_region(
                self.w(),
                self.h(),
                conf.ringed(),
                x,
                y,
            )
        &&& if conf.ringed() {
            &&& self.ring_open()
            &&& self.data@ == flooded_from(
                covered(self.data@),
                self.w(),
                self.h(),
                ring_order(self.w(), self.h()),
                ring_order(self.w(), self.h()).len(),
            )
        } else {
            self.hidden_tiles == self.width * self.height
        }
    }

    /// Uncovers at `pos` on a board where nothing is marked and no mine is
    /// exposed, for a tile that holds no mine: nothing but uncovering
    /// happens, and the tile at `pos` is uncovered afterwards.
    pub fn open_tile(&mut self, pos: BoardPos)
        requires
            old(self).wf(),
            pristine(old(self).data@),
            pos.within(old(self)),
            !mined(old(self).tile(pos.x(), pos.y())),
        ensures
            final(self).wf(),
            final(self).same_frame(old(self)),
            final(self).mine_count == old(self).mine_count,
            pristine(final(self).data@),
            uncovers(old(self).data@, final(self).data@),
            spares_mines(old(self).data@, final(self).data@),
            !hidden(final(self).tile(pos.x(), pos.y())),
            final(self).data@ == flooded(
                old(self).data@,
                old(self).w(),
                old(self).h(),
                pos.x(),
                pos.y(),
            ),
    {
        let ghost d = self.data@;
        let ghost w = self.w();
        let ghost h = self.h();
        let ghost x = pos.x();
        let ghost y = pos.y();
        proof {
            lemma_offset_in(w, h, x, y);
            lemma_tile_bits(tile_at(d, w, x, y));
            assert(mark_bits(d[offset(w, x, y)]) == 0);
            lemma_flood_uncovers(d, w, h, x, y);
            if self.num_tile_reveal && 1 <= self.tile(x, y) <= 8 {
                lemma_no_flag_at(d, w, h, x - 1, y - 1);
                lemma_no_flag_at(d, w, h, x, y - 1);
                lemma_no_flag_at(d, w, h, x + 1, y - 1);
                lemma_no_flag_at(d, w, h, x - 1, y);
                lemma_no_flag_at(d, w, h, x + 1, y);
                lemma_no_flag_at(d, w, h, x - 1, y + 1);
                lemma_no_flag_at(d, w, h, x, y + 1);
                lemma_no_flag_at(d, w, h, x + 1, y + 1);
                assert(!self.chord_ready(x, y));
            }
        }
        let boom = self.reveal_at(pos);
        proof {
            let e = self.data@;
            assert(!boom);
            assert(e == flooded(d, w, h, x, y));
            assert(uncovers(d, e));
            assert(spares_mines(d, e));
            assert forall|i: int| 0 <= i < e.len() implies mark_bits(#[trigger] e[i]) == 0 && (
            mined(e[i]) ==> e[i] == MINED) by {
                lemma_tile_bits(d[i]);
                assert(e[i] == d[i] || (revealable(d[i]) && e[i] == low_bits(d[i])));
                assert(mark_bits(d[i]) == 0);
                if mined(d[i]) {
                    assert(e[i] == d[i]);
                }
            }
        }
    }

    /// A board set up after `conf`: all tiles hidden and the mines laid at
    /// random; or, with revealed borders on a board of three by three tiles
    /// or more, the mines laid inside the outer ring and the ring uncovered,
    /// with whatever a reveal of each of its tiles uncovers beyond it.
    pub fn new(conf: BoardConf) -> (b: Board)
        requires
            conf.wf(),
        ensures
            b.fresh_for(&conf),
    {
        let w = conf.w;
        let h = conf.h;
        let area = w * h;
        let ringed = conf.revealed_borders && w >= 3 && h >= 3;
        let mine_count = conf.mines();
        let mut data: Vec<u8> = Vec::new();
        let mut i: usize = 0;
        while i < area
            invariant
                0 <= i <= area,
                data.len() == i,
                forall|k: int| 0 <= k < i ==> #[trigger] data@[k] == HIDDEN_BIT,
            decreases area - i,
        {
            data.push(HIDDEN_BIT);
            i = i + 1;
        }
        let mut b = Board {
            data,
            width: w,
            height: h,
            hidden_tiles: area,
            mine_count,
            num_tile_reveal: conf.num_tile_reveal,
        };
        let ghost d0 = b.data@;
        proof {
            lemma_mark_values();
            lemma_blank_board(d0, w as int, h as int, ringed);
        }
        b.spread_mines(mine_count, ringed);
        let ghost d1 = b.data@;
        proof {
            lemma_mine_value();
            assert forall|k: int| 0 <= k < d1.len() implies mark_bits(#[trigger] d1[k]) == 0
                && hidden(d1[k]) && (mined(d1[k]) ==> d1[k] == MINED) by {
                lemma_offset_coords(w as int, h as int, k);
                let t = tile_at(d1, w as int, k % (w as int), k / (w as int));
                assert(t == d1[k]);
                assert(tile_at(d0, w as int, k % (w as int), k / (w as int)) == HIDDEN_BIT);
            }
            lemma_count_all(d1, hidden_p());
            assert forall|k: int| 0 <= k < d1.len() implies hidden_p()(#[trigger] d1[k]) by {
                assert(hidden(d1[k]));
            }
            assert forall|x: int, y: int|
                in_grid(w as int, h as int, x, y) && mined(#[trigger] b.tile(x, y)) implies in_region(
                w as int,
                h as int,
                ringed,
                x,
                y,
            ) by {
                assert(tile_at(d0, w as int, x, y) == HIDDEN_BIT) by {
                    lemma_offset_in(w as int, h as int, x, y);
                }
                assert(b.tile(x, y) == tile_at(d1, w as int, x, y));
            }
        }
        if ringed {
            b.open_ring();
            proof {
                let e = b.data@;
                lemma_uncovers_keeps(d1, e, w as int, h as int);
                assert forall|k: int| 0 <= k < e.len() implies covered(e)[k] == d1[k] by {
                    assert(low_bits(e[k]) == low_bits(d1[k]));
                    assert(mark_bits(d1[k]) == 0 && hidden(d1[k]));
                    lemma_tile_bits(d1[k]);
                    crate::tile::lemma_flag_sum(d1[k]);
                }
                assert(covered(e) =~= d1);
            }
        }
        b
    }

    /// Uncovers every tile of the outer ring, the upper and the lower row
    /// first, column by column, then the sides.
    fn open_ring(&mut self)
        requires
            old(self).wf(),
            pristine(old(self).data@),
            old(self).width >= 3,
            old(self).height >= 3,
            forall|x: int, y: int|
                in_grid(old(self).w(), old(self).h(), x, y) && mined(
                    #[trigger] old(self).tile(x, y),
                ) ==> in_region(old(self).w(), old(self).h(), true, x, y),
        ensures
            final(self).wf(),
            final(self).same_frame(old(self)),
            final(self).mine_count == old(self).mine_count,
            pristine(final(self).data@),
            uncovers(old(self).data@, final(self).data@),
            spares_mines(old(self).data@, final(self).data@),
            final(self).ring_open(),
            forall|x: int, y: int|
                in_grid(old(self).w(), old(self).h(), x, y) && mined(
                    #[trigger] final(self).tile(x, y),
                ) ==> in_region(old(self).w(), old(self).h(), true, x, y),
            final(self).data@ == flooded_from(
                old(self).data@,
                old(self).w(),
                old(self).h(),
                ring_order(old(self).w(), old(self).h()),
                ring_order(old(self).w(), old(self).h()).len(),
            ),
    {
        let ghost d = self.data@;
        let ghost w = self.w();
        let ghost h = self.h();
        let width = self.width;
        let height = self.height;
        proof {
            assert forall|a: int, b: int|
                in_grid(w, h, a, b) && mined(#[trigger] tile_at(d, w, a, b)) implies in_region(
                w,
                h,
                true,
                a,
                b,
            ) by {
                assert(old(self).tile(a, b) == tile_at(d, w, a, b));
            }
            crate::flood::lemma_uncovers_keeps(d, d, w, h);
        }
        let mut x: usize = 0;
        while x < width
            invariant
                0 <= x <= width,
                width == self.width,
                height == self.height,
                width >= 3,
                height >= 3,
                self.wf(),
                self.same_frame(old(self)),
                self.mine_count == old(self).mine_count,
                w == self.w(),
                h == self.h(),
                d == old(self).data@,
                pristine(self.data@),
                uncovers(d, self.data@),
                spares_mines(d, self.data@),
                forall|a: int, b: int|
                    in_grid(w, h, a, b) && mined(#[trigger] tile_at(d, w, a, b)) ==> in_region(
                        w,
                        h,
                        true,
                        a,
                        b,
                    ),
                forall|a: int| 0 <= a < x ==> !hidden(#[trigger] self.tile(a, 0)),
                forall|a: int| 0 <= a < x ==> !hidden(#[trigger] self.tile(a, h - 1)),
                self.data@ == flooded_from(d, w, h, ring_order(w, h), (2 * x) as nat),
            decreases width - x,
        {
            let ghost pre = *self;
            self.open_one(BoardPos(x as u32, 0), Ghost(d));
            let ghost mid = *self;
            self.open_one(BoardPos(x as u32, (height - 1) as u32), Ghost(d));
            proof {
                let ps = ring_order(w, h);
                assert(ps[2 * x] == (x as int, 0int));
                assert(ps[2 * x + 1] == (x as int, h - 1));
                assert(mid.data@ == flooded_from(d, w, h, ps, (2 * x + 1) as nat));
                assert(self.data@ == flooded_from(d, w, h, ps, (2 * x + 2) as nat));
                assert forall|a: int| 0 <= a < x + 1 implies !hidden(#[trigger] self.tile(a, 0)) by {
                    if a < x {
                        assert(!hidden(pre.tile(a, 0)));
                    }
                    assert(!hidden(mid.tile(a, 0)));
                }
                assert forall|a: int| 0 <= a < x + 1 implies !hidden(
                    #[trigger] self.tile(a, h - 1),
                ) by {
                    if a < x {
                        assert(!hidden(pre.tile(a, h - 1)));
                        assert(!hidden(mid.tile(a, h - 1)));
                    }
                }
            }
            x = x + 1;
        }
        let mut y: usize = 1;
        while y < height - 1
            invariant
                1 <= y <= height - 1,
                width == self.width,
                height == self.height,
                width >= 3,
                height >= 3,
                self.wf(),
                self.same_frame(old(self)),
                self.mine_count == old(self).mine_count,
                w == self.w(),
                h == self.h(),
                d == old(self).data@,
                pristine(self.data@),
                uncovers(d, self.data@),
                spares_mines(d, self.data@),
                forall|a: int, b: int|
                    in_grid(w, h, a, b) && mined(#[trigger] tile_at(d, w, a, b)) ==> in_region(
                        w,
                        h,
                        true,
                        a,
                        b,
                    ),
                forall|a: int| 0 <= a < w ==> !hidden(#[trigger] self.tile(a, 0)),
                forall|a: int| 0 <= a < w ==> !hidden(#[trigger] self.tile(a, h - 1)),
                forall|c: int| 1 <= c < y ==> !hidden(#[trigger] self.tile(0, c)),
                forall|c: int| 1 <= c < y ==> !hidden(#[trigger] self.tile(w - 1, c)),
                self.data@ == flooded_from(
                    d,
                    w,
                    h,
                    ring_order(w, h),
                    (2 * w + 2 * (y - 1)) as nat,
                ),
            decreases height - 1 - y,
        {
            let ghost pre = *self;
            self.open_one(BoardPos(0, y as u32), Ghost(d));
            let ghost mid = *self;
            self.open_one(BoardPos((width - 1) as u32, y as u32), Ghost(d));
            proof {
                let ps = ring_order(w, h);
                let i = 2 * w + 2 * (y - 1);
                assert(ps[i] == (0int, y as int));
                assert(ps[i + 1] == (w - 1, y as int));
                assert(mid.data@ == flooded_from(d, w, h, ps, (i + 1) as nat));
                assert(self.data@ == flooded_from(d, w, h, ps, (i + 2) as nat));
                assert forall|a: int| 0 <= a < w implies !hidden(#[trigger] self.tile(a, 0)) by {
                    assert(!hidden(pre.tile(a, 0)));
                    assert(!hidden(mid.tile(a, 0)));
                }
                assert forall|a: int| 0 <= a < w implies !hidden(#[trigger] self.tile(a, h - 1)) by {
                    assert(!hidden(pre.tile(a, h - 1)));
                    assert(!hidden(mid.tile(a, h - 1)));
                }
                assert forall|c: int| 1 <= c < y + 1 implies !hidden(#[trigger] self.tile(0, c)) by {
                    if c < y {
                        assert(!hidden(pre.tile(0, c)));
                    }
                    assert(!hidden(mid.tile(0, c)));
                }
                assert forall|c: int| 1 <= c < y + 1 implies !hidden(
                    #[trigger] self.tile(w - 1, c),
                ) by {
                    if c < y {
                        assert(!hidden(pre.tile(w - 1, c)));
                        assert(!hidden(mid.tile(w - 1, c)));
                    }
                }
            }
            y = y + 1;
        }
        proof {
            let e = self.data@;
            assert forall|a: int, b: int| on_ring(w, h, a, b) implies !hidden(
                #[trigger] self.tile(a, b),
            ) by {
                if b == 0 {
                    assert(!hidden(self.tile(a, 0)));
                } else if b == h - 1 {
                    assert(!hidden(self.tile(a, h - 1)));
                } else if a == 0 {
                    assert(!hidden(self.tile(0, b)));
                } else {
                    assert(!hidden(self.tile(w - 1, b)));
                }
            }
            assert forall|a: int, b: int|
                in_grid(w, h, a, b) && mined(#[trigger] self.tile(a, b)) implies in_region(
                w,
                h,
                true,
                a,
                b,
            ) by {
                lemma_uncovers_at(d, e, w, h, a, b);
                lemma_tile_bits(tile_at(d, w, a, b));
            }
        }
    }

    /// Uncovers one tile of the outer ring and keeps what was uncovered
    /// before.
    fn open_one(&mut self, pos: BoardPos, Ghost(d): Ghost<Seq<u8>>)
        requires
            old(self).wf(),
            pristine(old(self).data@),
            pos.within(old(self)),
            on_ring(old(self).w(), old(self).h(), pos.x(), pos.y()),
            d.len() == old(self).data@.len(),
            uncovers(d, old(self).data@),
            spares_mines(d, old(self).data@),
            forall|a: int, b: int|
                in_grid(old(self).w(), old(self).h(), a, b) && mined(
                    #[trigger] tile_at(d, old(self).w(), a, b),
                ) ==> in_region(old(self).w(), old(self).h(), true, a, b),
        ensures
            final(self).wf(),
            final(self).same_frame(old(self)),
            final(self).mine_count == old(self).mine_count,
            pristine(final(self).data@),
            uncovers(d, final(self).data@),
            spares_mines(d, final(self).data@),
            uncovers(old(self).data@, final(self).data@),
            !hidden(final(self).tile(pos.x(), pos.y())),
            forall|a: int, b: int|
                in_grid(old(self).w(), old(self).h(), a, b) && !hidden(
                    #[trigger] old(self).tile(a, b),
                ) ==> !hidden(final(self).tile(a, b)),
            final(self).data@ == flooded(
                old(self).data@,
                old(self).w(),
                old(self).h(),
                pos.x(),
                pos.y(),
            ),
    {
        let ghost c = self.data@;
        let ghost w = self.w();
        let ghost h = self.h();
        proof {
            lemma_uncovers_at(d, c, w, h, pos.x(), pos.y());
            lemma_tile_bits(tile_at(d, w, pos.x(), pos.y()));
            assert(!mined(tile_at(d, w, pos.x(), pos.y())));
        }
        self.open_tile(pos);
        proof {
            let e = self.data@;
            crate::flood::lemma_uncovers_trans(d, c, e);
            assert forall|i: int| 0 <= i < d.len() && mined(d[i]) implies #[trigger] e[i]
                == d[i] by {
                assert(c[i] == d[i]);
            }
            assert forall|a: int, b: int|
                in_grid(w, h, a, b) && !hidden(#[trigger] old(self).tile(a, b)) implies !hidden(
                self.tile(a, b),
            ) by {
                lemma_uncovers_at(c, e, w, h, a, b);
            }
        }
    }
}

/// On a board without marks no position counts as flagged.
proof fn lemma_no_flag_at(d: Seq<u8>, w: int, h: int, x: int, y: int)
    requires
        0 < w,
        d.len() == w * h,
        pristine(d),
    ensures
        flag_at(d, w, h, x, y) == 0,
{
    if in_grid(w, h, x, y) {
        lemma_offset_in(w, h, x, y);
        let i = offset(w, x, y);
        assert(mark_bits(d[i]) == 0);
    }
}

/// A board of nothing but plain hidden tiles counts its mines right, has
/// every tile hidden and holds no mine.
proof fn lemma_blank_board(d: Seq<u8>, w: int, h: int, inner: bool)
    requires
        0 < w,
        0 < h,
        inner ==> w >= 3 && h >= 3,
        d.len() == w * h,
        forall|k: int| 0 <= k < d.len() ==> #[trigger] d[k] == HIDDEN_BIT,
    ensures
        counts_right(d, w, h),
        hidden_count(d) == d.len(),
        mine_total(d) == 0,
        region_mines(d, w, h, inner) == 0,
{
    lemma_mark_values();
    assert forall|x: int, y: int| in_grid(w, h, x, y) implies #[trigger] crate::grid::count_right(
        d,
        w,
        h,
        x,
        y,
    ) by {
        lemma_blank_at(d, w, h, x, y);
        lemma_blank_at(d, w, h, x - 1, y - 1);
        lemma_blank_at(d, w, h, x, y - 1);
        lemma_blank_at(d, w, h, x + 1, y - 1);
        lemma_blank_at(d, w, h, x - 1, y);
        lemma_blank_at(d, w, h, x + 1, y);
        lemma_blank_at(d, w, h, x - 1, y + 1);
        lemma_blank_at(d, w, h, x, y + 1);
        lemma_blank_at(d, w, h, x + 1, y + 1);
    }
    lemma_count_all(d, hidden_p());
    lemma_count_all(d, mined_p());
    assert forall|k: int| 0 <= k < d.len() implies hidden_p()(#[trigger] d[k]) && !mined_p()(
        d[k],
    ) by {
        assert(d[k] == HIDDEN_BIT);
    }
    let rt = region_tiles(d, w, h, inner);
    let rw = region_side(w, inner);
    let rh = region_side(h, inner);
    lemma_count_all(rt, mined_p());
    assert forall|k: int| 0 <= k < rt.len() implies !mined_p()(#[trigger] rt[k]) by {
        lemma_offset_coords(rw, rh, k);
        lemma_blank_at(
            d,
            w,
            h,
            crate::laying::region_start(inner) + k % rw,
            crate::laying::region_start(inner) + k / rw,
        );
    }
}

proof fn lemma_blank_at(d: Seq<u8>, w: int, h: int, x: int, y: int)
    requires
        0 < w,
        d.len() == w * h,
        forall|k: int| 0 <= k < d.len() ==> #[trigger] d[k] == HIDDEN_BIT,
    ensures
        in_grid(w, h, x, y) ==> tile_at(d, w, x, y) == HIDDEN_BIT,
        mine_at(d, w, h, x, y) == 0,
{
    lemma_mark_values();
    if in_grid(w, h, x, y) {
        lemma_offset_in(w, h, x, y);
        assert(d[offset(w, x, y)] == HIDDEN_BIT);
    }
}

} // verus!

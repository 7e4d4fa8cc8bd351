//! Moving a mine out of the way of a first reveal.

use vstd::prelude::*;
use crate::board::{Board, BoardPos};
use crate::grid::{
    adjacent, count_right, counts_right, hidden_count, hidden_p, in_grid, lemma_count_all,
    lemma_count_same, lemma_count_update, lemma_offset_coords,
    lemma_offset_in, lemma_offset_unique, mine_total, mined_around, mined_p, offset, tile_at,
};
use crate::neighs::{lemma_mine_added, lemma_mine_removed, lemma_step_keeps, lemma_touching_counts};
use crate::tile::{
    bumped, dropped, hidden, is_mine, lemma_count_step, lemma_tile_bits,
    lemma_tile_mine, low_bits, mark_bits, mined, MINED,
};

verus! {

/// `v` is the offset of the first tile, in row-major order, without a mine.
pub open spec fn vacant_first(d: Seq<u8>, v: int) -> bool {
    &&& 0 <= v < d.len()
    &&& !mined(d[v])
    &&& forall|j: int| 0 <= j < v ==> mined(#[trigger] d[j])
}

/// The offset of the first tile without a mine, where there is one.
pub open spec fn first_vacant(d: Seq<u8>) -> int {
    choose|v: int| vacant_first(d, v)
}

/// There is at most one first tile without a mine.
pub proof fn lemma_vacant_unique(d: Seq<u8>, a: int, b: int)
    requires
        vacant_first(d, a),
        vacant_first(d, b),
    ensures
        a == b,
{
    if a < b {
        assert(mined(d[a]));
    } else if b < a {
        assert(mined(d[b]));
    }
}

/// Tiles that keep being hidden or not, and mined or not, leave both counts
/// as they are.
pub proof fn lemma_same_kinds(d: Seq<u8>, e: Seq<u8>, w: int, h: int)
    requires
        0 < w,
        d.len() == w * h,
        e.len() == d.len(),
        forall|x: int, y: int|
            in_grid(w, h, x, y) ==> hidden(#[trigger] tile_at(e, w, x, y)) == hidden(
                tile_at(d, w, x, y),
            ) && mined(tile_at(e, w, x, y)) == mined(tile_at(d, w, x, y)),
    ensures
        hidden_count(e) == hidden_count(d),
        mine_total(e) == mine_total(d),
{
    let hp = hidden_p();
    let mp = mined_p();
    assert forall|i: int| 0 <= i < e.len() implies hp(#[trigger] e[i]) == hp(d[i]) && mp(e[i])
        == mp(d[i]) by {
        lemma_offset_coords(w, h, i);
        assert(tile_at(e, w, i % w, i / w) == e[i]);
    }
    lemma_count_same(e, d, hp);
    lemma_count_same(e, d, mp);
}

/// 1 if `(x, y)` lies on the board and holds a mine once the mine at
/// `(px, py)` has gone to the first free tile, else 0.
pub open spec fn moved_at(d: Seq<u8>, w: int, h: int, px: int, py: int, x: int, y: int) -> int {
    if in_grid(w, h, x, y) && (offset(w, x, y) == first_vacant(d) || (mined(tile_at(d, w, x, y))
        && !(x == px && y == py))) {
        1
    } else {
        0
    }
}

/// The number of mines around `(x, y)` once the mine at `(px, py)` has gone
/// to the first free tile.
pub open spec fn moved_around(d: Seq<u8>, w: int, h: int, px: int, py: int, x: int, y: int) -> int {
    moved_at(d, w, h, px, py, x - 1, y - 1) + moved_at(d, w, h, px, py, x, y - 1) + moved_at(
        d,
        w,
        h,
        px,
        py,
        x + 1,
        y - 1,
    ) + moved_at(d, w, h, px, py, x - 1, y) + moved_at(d, w, h, px, py, x + 1, y) + moved_at(
        d,
        w,
        h,
        px,
        py,
        x - 1,
        y + 1,
    ) + moved_at(d, w, h, px, py, x, y + 1) + moved_at(d, w, h, px, py, x + 1, y + 1)
}

/// The tile at `(x, y)` once the mine at `(px, py)` has gone to the first
/// free tile.
pub open spec fn relocated_tile(d: Seq<u8>, w: int, h: int, px: int, py: int, x: int, y: int) -> u8 {
    let t = tile_at(d, w, x, y);
    if x == px && y == py {
        moved_around(d, w, h, px, py, x, y) as u8
    } else if offset(w, x, y) == first_vacant(d) {
        (mark_bits(t) + MINED) as u8
    } else if mined(t) {
        t
    } else {
        ((t & 0xe0) + moved_around(d, w, h, px, py, x, y)) as u8
    }
}

/// The board once the mine at `(px, py)` has gone to the first free tile.
pub open spec fn relocated(d: Seq<u8>, w: int, h: int, px: int, py: int) -> Seq<u8> {
    Seq::new(d.len(), |i: int| relocated_tile(d, w, h, px, py, i % w, i / w))
}

/// A board with the mine moved, the counts right, the flags kept and the
/// tile that the mine left uncovered and unmarked is the relocated board.
pub proof fn lemma_relocated_eq(d: Seq<u8>, e: Seq<u8>, w: int, h: int, px: int, py: int)
    requires
        0 < w,
        d.len() == w * h,
        e.len() == d.len(),
        in_grid(w, h, px, py),
        counts_right(e, w, h),
        offset(w, px, py) != first_vacant(d),
        forall|x: int, y: int|
            in_grid(w, h, x, y) ==> mined(#[trigger] tile_at(e, w, x, y)) == (offset(w, x, y)
                == first_vacant(d) || (mined(tile_at(d, w, x, y)) && !(x == px && y == py))),
        forall|x: int, y: int|
            in_grid(w, h, x, y) && !(x == px && y == py) ==> mark_bits(
                #[trigger] tile_at(e, w, x, y),
            ) == mark_bits(tile_at(d, w, x, y)) && hidden(tile_at(e, w, x, y)) == (hidden(
                tile_at(d, w, x, y),
            ) || offset(w, x, y) == first_vacant(d)),
        !hidden(tile_at(e, w, px, py)),
        mark_bits(tile_at(e, w, px, py)) == 0,
    ensures
        e == relocated(d, w, h, px, py),
{
    let r = relocated(d, w, h, px, py);
    assert forall|i: int| 0 <= i < d.len() implies e[i] == r[i] by {
        lemma_offset_coords(w, h, i);
        let x = i % w;
        let y = i / w;
        let t = tile_at(d, w, x, y);
        let f = tile_at(e, w, x, y);
        assert(f == e[i] && t == d[i]);
        lemma_tile_bits(t);
        lemma_tile_bits(f);
        crate::tile::lemma_flag_sum(t);
        crate::tile::lemma_flag_sum(f);
        crate::tile::lemma_mine_value();
        assert(count_right(e, w, h, x, y));
        lemma_moved_around(d, e, w, h, px, py, x, y);
    }
    assert(e =~= r);
}

proof fn lemma_moved_around(d: Seq<u8>, e: Seq<u8>, w: int, h: int, px: int, py: int, x: int, y: int)
    requires
        forall|x: int, y: int|
            in_grid(w, h, x, y) ==> mined(#[trigger] tile_at(e, w, x, y)) == (offset(w, x, y)
                == first_vacant(d) || (mined(tile_at(d, w, x, y)) && !(x == px && y == py))),
    ensures
        mined_around(e, w, h, x, y) == moved_around(d, w, h, px, py, x, y),
        0 <= mined_around(e, w, h, x, y) <= 8,
{
    lemma_moved_at(d, e, w, h, px, py, x - 1, y - 1);
    lemma_moved_at(d, e, w, h, px, py, x, y - 1);
    lemma_moved_at(d, e, w, h, px, py, x + 1, y - 1);
    lemma_moved_at(d, e, w, h, px, py, x - 1, y);
    lemma_moved_at(d, e, w, h, px, py, x + 1, y);
    lemma_moved_at(d, e, w, h, px, py, x - 1, y + 1);
    lemma_moved_at(d, e, w, h, px, py, x, y + 1);
    lemma_moved_at(d, e, w, h, px, py, x + 1, y + 1);
}

proof fn lemma_moved_at(d: Seq<u8>, e: Seq<u8>, w: int, h: int, px: int, py: int, x: int, y: int)
    requires
        forall|x: int, y: int|
            in_grid(w, h, x, y) ==> mined(#[trigger] tile_at(e, w, x, y)) == (offset(w, x, y)
                == first_vacant(d) || (mined(tile_at(d, w, x, y)) && !(x == px && y == py))),
    ensures
        crate::grid::mine_at(e, w, h, x, y) == moved_at(d, w, h, px, py, x, y),
{
    if in_grid(w, h, x, y) {
        assert(mined(tile_at(e, w, x, y)) == (offset(w, x, y) == first_vacant(d) || (mined(
            tile_at(d, w, x, y),
        ) && !(x == px && y == py))));
    }
}

/// Some tile holds no mine.
pub open spec fn has_vacancy(d: Seq<u8>) -> bool {
    exists|i: int| 0 <= i < d.len() && !mined(#[trigger] d[i])
}

/// Where there are fewer mines than tiles, some tile holds no mine.
pub proof fn lemma_vacancy(d: Seq<u8>)
    requires
        mine_total(d) < d.len(),
    ensures
        has_vacancy(d),
{
    lemma_count_all(d, mined_p());
    if !has_vacancy(d) {
        assert forall|j: int| 0 <= j < d.len() implies mined_p()(#[trigger] d[j]) by {
            assert(mined(d[j]));
        }
    }
}

/// Moving a mine away keeps the number of mines, leaves no mine where the
/// mine was, counts the mines around every tile rightly for where the
/// mines are afterwards, and keeps the marks of every other tile.
pub proof fn law_relocated(d: Seq<u8>, w: int, h: int, px: int, py: int)
    requires
        0 < w,
        d.len() == w * h,
        in_grid(w, h, px, py),
        mined(tile_at(d, w, px, py)),
        has_vacancy(d),
    ensures
        relocated(d, w, h, px, py).len() == d.len(),
        mine_total(relocated(d, w, h, px, py)) == mine_total(d),
        counts_right(relocated(d, w, h, px, py), w, h),
        !mined(tile_at(relocated(d, w, h, px, py), w, px, py)),
        forall|x: int, y: int|
            in_grid(w, h, x, y) && !(x == px && y == py) ==> mark_bits(
                #[trigger] tile_at(relocated(d, w, h, px, py), w, x, y),
            ) == mark_bits(tile_at(d, w, x, y)),
{
    let e = relocated(d, w, h, px, py);
    let v = first_vacant(d);
    assert(vacant_first(d, v)) by {
        let k = choose|k: int| 0 <= k < d.len() && !mined(#[trigger] d[k]);
        lemma_least_vacant(d, k);
    }
    lemma_offset_in(w, h, px, py);
    let p = offset(w, px, py);
    assert forall|x: int, y: int| in_grid(w, h, x, y) implies mined(#[trigger] tile_at(e, w, x, y))
        == (offset(w, x, y) == v || (mined(tile_at(d, w, x, y)) && !(x == px && y == py)))
        && (!(x == px && y == py) ==> mark_bits(tile_at(e, w, x, y)) == mark_bits(
        tile_at(d, w, x, y),
    )) && (!mined(tile_at(e, w, x, y)) ==> low_bits(tile_at(e, w, x, y)) == moved_around(
        d,
        w,
        h,
        px,
        py,
        x,
        y,
    )) by {
        lemma_relocated_bits(d, w, h, px, py, x, y);
    }
    assert forall|x: int, y: int| in_grid(w, h, x, y) implies #[trigger] count_right(
        e,
        w,
        h,
        x,
        y,
    ) by {
        assert(mined(tile_at(e, w, x, y)) == (offset(w, x, y) == v || (mined(tile_at(d, w, x, y))
            && !(x == px && y == py))));
        lemma_moved_around(d, e, w, h, px, py, x, y);
    }
    assert(!mined(tile_at(e, w, px, py)));
    let mp = mined_p();
    let u = d.update(p, 0u8).update(v, MINED);
    crate::tile::lemma_mine_value();
    crate::tile::lemma_tile_bits(0u8);
    assert forall|i: int| 0 <= i < e.len() implies mp(#[trigger] e[i]) == mp(u[i]) by {
        lemma_offset_coords(w, h, i);
        let x = i % w;
        let y = i / w;
        assert(tile_at(e, w, x, y) == e[i]);
        assert(mined(tile_at(e, w, x, y)) == (offset(w, x, y) == v || (mined(tile_at(d, w, x, y))
            && !(x == px && y == py))));
        if i == p {
            lemma_offset_unique(w, x, y, px, py);
        }
    }
    lemma_count_same(e, u, mp);
    lemma_count_update(d, mp, p, 0u8);
    lemma_count_update(d.update(p, 0u8), mp, v, MINED);
}

/// The first tile without a mine is there if some tile is without one.
proof fn lemma_least_vacant(d: Seq<u8>, k: int)
    requires
        0 <= k < d.len(),
        !mined(d[k]),
    ensures
        exists|v: int| vacant_first(d, v),
    decreases k,
{
    if forall|j: int| 0 <= j < k ==> mined(#[trigger] d[j]) {
        assert(vacant_first(d, k));
    } else {
        let j = choose|j: int| 0 <= j < k && !mined(#[trigger] d[j]);
        lemma_least_vacant(d, j);
    }
}

/// What the tile at `(x, y)` of the relocated board holds.
proof fn lemma_relocated_bits(d: Seq<u8>, w: int, h: int, px: int, py: int, x: int, y: int)
    requires
        0 < w,
        d.len() == w * h,
        in_grid(w, h, px, py),
        in_grid(w, h, x, y),
        mined(tile_at(d, w, px, py)),
        vacant_first(d, first_vacant(d)),
    ensures
        mined(tile_at(relocated(d, w, h, px, py), w, x, y)) == (offset(w, x, y) == first_vacant(d)
            || (mined(tile_at(d, w, x, y)) && !(x == px && y == py))),
        !(x == px && y == py) ==> mark_bits(tile_at(relocated(d, w, h, px, py), w, x, y))
            == mark_bits(tile_at(d, w, x, y)),
        !mined(tile_at(relocated(d, w, h, px, py), w, x, y)) ==> low_bits(
            tile_at(relocated(d, w, h, px, py), w, x, y),
        ) == moved_around(d, w, h, px, py, x, y),
{
    let e = relocated(d, w, h, px, py);
    lemma_offset_in(w, h, x, y);
    lemma_offset_in(w, h, px, py);
    let i = offset(w, x, y);
    lemma_offset_coords(w, h, i);
    lemma_offset_unique(w, i % w, i / w, x, y);
    assert(e[i] == relocated_tile(d, w, h, px, py, x, y));
    let t = tile_at(d, w, x, y);
    let n = moved_around(d, w, h, px, py, x, y);
    assert(0 <= n <= 8);
    crate::tile::lemma_tile_sums(t, n as u8);
    lemma_tile_bits(t);
    crate::tile::lemma_flag_sum(t);
    if x == px && y == py {
        assert(i != first_vacant(d));
    } else if i == first_vacant(d) {
    } else if mined(t) {
    } else {
        if i == offset(w, px, py) {
            lemma_offset_unique(w, x, y, px, py);
        }
    }
}

impl Board {
    /// The mine at `pos` can be moved away: there is a mine at `pos`, some
    /// tile holds none, and the counts of the mines are right.
    pub open spec fn movable_at(&self, pos: BoardPos) -> bool {
        &&& self.shaped()
        &&& counts_right(self.data@, self.w(), self.h())
        &&& pos.within(self)
        &&& mined(self.tile(pos.x(), pos.y()))
        &&& has_vacancy(self.data@)
    }

    /// The offset of the first tile without a mine.
    pub fn find_vacant(&self) -> (v: usize)
        requires
            has_vacancy(self.data@),
        ensures
            vacant_first(self.data@, v as int),
            v as int == first_vacant(self.data@),
    {
        let n = self.data.len();
        let mut i: usize = 0;
        while i < n && is_mine(self.data[i])
            invariant
                0 <= i <= n,
                n == self.data@.len(),
                forall|j: int| 0 <= j < i ==> mined(#[trigger] self.data@[j]),
            decreases n - i,
        {
            i = i + 1;
        }
        proof {
            if i == n {
                let k = choose|k: int| 0 <= k < self.data@.len() && !mined(#[trigger] self.data@[k]);
                assert(mined(self.data@[k]));
            }
            assert(vacant_first(self.data@, i as int));
            lemma_vacant_unique(self.data@, i as int, first_vacant(self.data@));
        }
        i
    }

    /// Takes the mine from `pos` and puts one on the first tile, in row-major
    /// order, that has none. The tile at `pos` is then the bare number of
    /// the mines around it: uncovered and unmarked. The tile that got the
    /// mine is hidden and keeps its mark; every other tile keeps its flags,
    /// and its count follows the mines. Neither counter of the board is
    /// touched.
    pub fn move_mine_elsewhere(&mut self, pos: BoardPos)
        requires
            old(self).movable_at(pos),
        ensures
            final(self).same_frame(old(self)),
            final(self).mine_count == old(self).mine_count,
            final(self).hidden_tiles == old(self).hidden_tiles,
            final(self).data@ == relocated(
                old(self).data@,
                old(self).w(),
                old(self).h(),
                pos.x(),
                pos.y(),
            ),
            counts_right(final(self).data@, old(self).w(), old(self).h()),
            mine_total(final(self).data@) == mine_total(old(self).data@),
            hidden_count(final(self).data@) + (if hidden(old(self).tile(pos.x(), pos.y())) {
                1int
            } else {
                0int
            }) == hidden_count(old(self).data@) + (if hidden(
                old(self).data@[first_vacant(old(self).data@)],
            ) {
                0int
            } else {
                1int
            }),
            vacant_first(old(self).data@, first_vacant(old(self).data@)),
            forall|x: int, y: int|
                in_grid(old(self).w(), old(self).h(), x, y) ==> mined(
                    #[trigger] final(self).tile(x, y),
                ) == (offset(old(self).w(), x, y) == first_vacant(old(self).data@) || (mined(
                    old(self).tile(x, y),
                ) && !(x == pos.x() && y == pos.y()))),
            forall|x: int, y: int|
                in_grid(old(self).w(), old(self).h(), x, y) && !(x == pos.x() && y == pos.y())
                    ==> mark_bits(#[trigger] final(self).tile(x, y)) == mark_bits(
                    old(self).tile(x, y),
                ) && hidden(final(self).tile(x, y)) == (hidden(old(self).tile(x, y)) || offset(
                    old(self).w(),
                    x,
                    y,
                ) == first_vacant(old(self).data@)),
            final(self).tile(pos.x(), pos.y()) == final(self).mines_around(pos.x(), pos.y()),
            final(self).tile(pos.x(), pos.y()) <= 8,
            !hidden(final(self).tile(pos.x(), pos.y())),
            mark_bits(final(self).tile(pos.x(), pos.y())) == 0,
            !mined(final(self).tile(pos.x(), pos.y())),
    {
        let ghost d0 = self.data@;
        let ghost w = self.w();
        let ghost h = self.h();
        let ghost px = pos.x();
        let ghost py = pos.y();
        let v = self.find_vacant();
        proof {
            assert(self.width * self.height == self.data.len());
            lemma_offset_coords(w, h, v as int);
        }
        let vx = (v % self.width) as u32;
        let vy = (v / self.width) as u32;
        let vpos = BoardPos(vx, vy);
        let surround = self.count_mines_around(pos);
        proof {
            lemma_offset_in(w, h, px, py);
            assert(offset(w, px, py) < self.data.len());
            assert(vpos.x() == v as int % w && vpos.y() == v as int / w);
            assert forall|x: int, y: int|
                in_grid(w, h, x, y) && adjacent(px, py, x, y) implies mined(
                #[trigger] self.tile(x, y),
            ) || low_bits(self.tile(x, y)) >= 1 by {
                if !mined(tile_at(d0, w, x, y)) {
                    lemma_touching_counts(d0, w, h, px, py, x, y);
                }
            }
        }
        self.lower_neighs(pos);
        let ghost d1 = self.data@;
        let ghost b1 = *self;
        let off = pos.rel_offset_unchecked(self);
        proof {
            lemma_tile_bits(surround);
            assert(self.tile(px, py) == tile_at(d1, w, px, py));
            assert(tile_at(d1, w, px, py) == tile_at(d0, w, px, py));
            assert forall|x: int, y: int| in_grid(w, h, x, y) implies hidden(
                #[trigger] tile_at(d1, w, x, y),
            ) == hidden(tile_at(d0, w, x, y)) && mined(tile_at(d1, w, x, y)) == mined(
                tile_at(d0, w, x, y),
            ) && mark_bits(tile_at(d1, w, x, y)) == mark_bits(tile_at(d0, w, x, y)) by {
                assert(self.tile(x, y) == tile_at(d1, w, x, y));
                lemma_step_keeps(d0, w, h, x, y);
                lemma_count_step(tile_at(d0, w, x, y));
                lemma_count_step(tile_at(d1, w, x, y));
                if adjacent(px, py, x, y) && !mined(tile_at(d0, w, x, y)) {
                    lemma_touching_counts(d0, w, h, px, py, x, y);
                }
            }
            lemma_same_kinds(d0, d1, w, h);
            lemma_count_update(d1, hidden_p(), off as int, surround);
            lemma_count_update(d1, mined_p(), off as int, surround);
        }
        self.data.set(off, surround);
        let ghost d2 = self.data@;
        proof {
            assert(d2 == d1.update(off as int, surround));
            assert forall|x: int, y: int|
                in_grid(w, h, x, y) && !(x == px && y == py) implies #[trigger] tile_at(
                d2,
                w,
                x,
                y,
            ) == (if adjacent(px, py, x, y) {
                dropped(tile_at(d0, w, x, y))
            } else {
                tile_at(d0, w, x, y)
            }) by {
                lemma_offset_in(w, h, x, y);
                if offset(w, x, y) == off {
                    lemma_offset_unique(w, x, y, px, py);
                }
                assert(tile_at(d2, w, x, y) == tile_at(d1, w, x, y));
                assert(b1.tile(x, y) == tile_at(d1, w, x, y));
            }
            assert(tile_at(d2, w, px, py) == surround);
            lemma_mine_removed(d0, d2, w, h, px, py);
            assert(mine_total(d2) + 1 == mine_total(d0));
            assert(offset(w, vpos.x(), vpos.y()) == v);
            assert(!(vpos.x() == px && vpos.y() == py));
            assert(tile_at(d2, w, vpos.x(), vpos.y()) == d2[v as int]);
            assert(!mined(d2[v as int]));
        }
        let old_v = self.data[v];
        proof {
            lemma_tile_mine(old_v);
            lemma_count_update(d2, hidden_p(), v as int, (old_v | MINED));
            lemma_count_update(d2, mined_p(), v as int, (old_v | MINED));
        }
        self.data.set(v, old_v | MINED);
        let ghost d3 = self.data@;
        self.raise_neighs(vpos);
        let ghost d4 = self.data@;
        proof {
            assert(d3 == d2.update(v as int, (old_v | MINED)));
            assert forall|x: int, y: int| in_grid(w, h, x, y) implies tile_at(d3, w, x, y) == (
            if x == vpos.x() && y == vpos.y() {
                (old_v | MINED)
            } else {
                tile_at(d2, w, x, y)
            }) by {
                lemma_offset_in(w, h, x, y);
                if offset(w, x, y) == v {
                    lemma_offset_unique(w, x, y, vpos.x(), vpos.y());
                }
            }
            assert forall|x: int, y: int|
                in_grid(w, h, x, y) && !(x == vpos.x() && y == vpos.y()) implies #[trigger] tile_at(
                d4,
                w,
                x,
                y,
            ) == (if adjacent(vpos.x(), vpos.y(), x, y) {
                bumped(tile_at(d2, w, x, y))
            } else {
                tile_at(d2, w, x, y)
            }) by {
                assert(self.tile(x, y) == tile_at(d4, w, x, y));
                lemma_offset_in(w, h, x, y);
                if offset(w, x, y) == v {
                    lemma_offset_unique(w, x, y, vpos.x(), vpos.y());
                }
            }
            assert(self.tile(vpos.x(), vpos.y()) == tile_at(d4, w, vpos.x(), vpos.y()));
            assert(tile_at(d4, w, vpos.x(), vpos.y()) == (old_v | MINED));
            lemma_mine_added(d2, d4, w, h, vpos.x(), vpos.y());
            assert forall|x: int, y: int| in_grid(w, h, x, y) implies hidden(
                #[trigger] tile_at(d4, w, x, y),
            ) == hidden(tile_at(d3, w, x, y)) && mined(tile_at(d4, w, x, y)) == mined(
                tile_at(d3, w, x, y),
            ) && mark_bits(tile_at(d4, w, x, y)) == mark_bits(tile_at(d3, w, x, y)) by {
                assert(self.tile(x, y) == tile_at(d4, w, x, y));
                lemma_offset_in(w, h, x, y);
                if offset(w, x, y) == v {
                    lemma_offset_unique(w, x, y, vpos.x(), vpos.y());
                } else {
                    lemma_step_keeps(d2, w, h, x, y);
                    lemma_count_step(tile_at(d2, w, x, y));
                    lemma_count_step(tile_at(d4, w, x, y));
                }
            }
            lemma_same_kinds(d3, d4, w, h);
            assert(tile_at(d1, w, vpos.x(), vpos.y()) == d1[v as int]);
            assert(hidden(old_v) == hidden(d0[v as int])) by {
                assert(tile_at(d0, w, vpos.x(), vpos.y()) == d0[v as int]);
                assert(old_v == d1[v as int]);
            }
            assert forall|x: int, y: int| in_grid(w, h, x, y) implies mined(
                #[trigger] tile_at(d4, w, x, y),
            ) == (offset(w, x, y) == first_vacant(d0) || (mined(tile_at(d0, w, x, y)) && !(x == px
                && y == py))) by {
                lemma_offset_in(w, h, x, y);
                if offset(w, x, y) == v {
                    lemma_offset_unique(w, x, y, vpos.x(), vpos.y());
                }
                assert(mined(tile_at(d2, w, x, y)) == (mined(tile_at(d0, w, x, y)) && !(x == px
                    && y == py)));
            }
            assert forall|x: int, y: int|
                in_grid(w, h, x, y) && !(x == px && y == py) implies mark_bits(
                #[trigger] tile_at(d4, w, x, y),
            ) == mark_bits(tile_at(d0, w, x, y)) && hidden(tile_at(d4, w, x, y)) == (hidden(
                tile_at(d0, w, x, y),
            ) || offset(w, x, y) == first_vacant(d0)) by {
                lemma_offset_in(w, h, x, y);
                if offset(w, x, y) == v {
                    lemma_offset_unique(w, x, y, vpos.x(), vpos.y());
                    assert(tile_at(d1, w, x, y) == old_v);
                } else {
                    assert(tile_at(d3, w, x, y) == tile_at(d2, w, x, y));
                    assert(tile_at(d2, w, x, y) == tile_at(d1, w, x, y)) by {
                        if offset(w, x, y) == off {
                            lemma_offset_unique(w, x, y, px, py);
                        }
                    }
                }
            }
            assert(tile_at(d3, w, px, py) == surround);
            lemma_tile_bits(tile_at(d4, w, px, py));
            lemma_count_step(surround);
            assert(!hidden(tile_at(d4, w, px, py)) && mark_bits(tile_at(d4, w, px, py)) == 0);
            lemma_relocated_eq(d0, d4, w, h, px, py);
            assert forall|x: int, y: int| in_grid(w, h, x, y) implies mined(
                #[trigger] self.tile(x, y),
            ) == (offset(w, x, y) == first_vacant(d0) || (mined(tile_at(d0, w, x, y)) && !(x == px
                && y == py))) by {
                assert(self.tile(x, y) == tile_at(d4, w, x, y));
            }
            assert forall|x: int, y: int|
                in_grid(w, h, x, y) && !(x == px && y == py) implies mark_bits(
                #[trigger] self.tile(x, y),
            ) == mark_bits(tile_at(d0, w, x, y)) && hidden(self.tile(x, y)) == (hidden(
                tile_at(d0, w, x, y),
            ) || offset(w, x, y) == first_vacant(d0)) by {
                assert(self.tile(x, y) == tile_at(d4, w, x, y));
            }
            assert(count_right(d4, w, h, px, py));
            lemma_moved_around(d0, d4, w, h, px, py, px, py);
            assert(self.tile(px, py) == tile_at(d4, w, px, py));
        }
    }
}

} // verus!

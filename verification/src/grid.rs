//! The geometry of a board and what can be counted on it: offsets of tiles in
//! row-major order, the eight neighbours of a position, and the numbers of
//! hidden and of mined tiles.

use vstd::prelude::*;
use crate::tile::{hard_flagged, hidden, low_bits, mined};

verus! {

/// `(x, y)` lies on a board of `w` columns and `h` rows.
pub open spec fn in_grid(w: int, h: int, x: int, y: int) -> bool {
    0 <= x < w && 0 <= y < h
}

/// The place of `(x, y)` in the row-major tile array.
pub open spec fn offset(w: int, x: int, y: int) -> int {
    y * w + x
}

/// Two different positions that touch, diagonals included.
pub open spec fn adjacent(x1: int, y1: int, x2: int, y2: int) -> bool {
    &&& x1 - 1 <= x2 <= x1 + 1
    &&& y1 - 1 <= y2 <= y1 + 1
    &&& !(x1 == x2 && y1 == y2)
}

/// The tile at `(x, y)`.
pub open spec fn tile_at(data: Seq<u8>, w: int, x: int, y: int) -> u8 {
    data[offset(w, x, y)]
}

/// 1 if `(x, y)` is on the board and mined, else 0.
pub open spec fn mine_at(data: Seq<u8>, w: int, h: int, x: int, y: int) -> int {
    if in_grid(w, h, x, y) && mined(tile_at(data, w, x, y)) {
        1
    } else {
        0
    }
}

/// The number of mines on the eight neighbours of `(x, y)`, as far as they lie
/// on the board.
pub open spec fn mined_around(data: Seq<u8>, w: int, h: int, x: int, y: int) -> int {
    mine_at(data, w, h, x - 1, y - 1) + mine_at(data, w, h, x, y - 1) + mine_at(
        data,
        w,
        h,
        x + 1,
        y - 1,
    ) + mine_at(data, w, h, x - 1, y) + mine_at(data, w, h, x + 1, y) + mine_at(
        data,
        w,
        h,
        x - 1,
        y + 1,
    ) + mine_at(data, w, h, x, y + 1) + mine_at(data, w, h, x + 1, y + 1)
}

/// 1 if `(x, y)` is on the board and carries a plain flag, else 0.
pub open spec fn flag_at(data: Seq<u8>, w: int, h: int, x: int, y: int) -> int {
    if in_grid(w, h, x, y) && hard_flagged(tile_at(data, w, x, y)) {
        1
    } else {
        0
    }
}

/// The number of plain flags on the eight neighbours of `(x, y)`.
pub open spec fn flags_around(data: Seq<u8>, w: int, h: int, x: int, y: int) -> int {
    flag_at(data, w, h, x - 1, y - 1) + flag_at(data, w, h, x, y - 1) + flag_at(
        data,
        w,
        h,
        x + 1,
        y - 1,
    ) + flag_at(data, w, h, x - 1, y) + flag_at(data, w, h, x + 1, y) + flag_at(
        data,
        w,
        h,
        x - 1,
        y + 1,
    ) + flag_at(data, w, h, x, y + 1) + flag_at(data, w, h, x + 1, y + 1)
}

/// The tile at `(x, y)` is a mine, or its low bits count the mines around it.
pub open spec fn count_right(data: Seq<u8>, w: int, h: int, x: int, y: int) -> bool {
    mined(tile_at(data, w, x, y)) || low_bits(tile_at(data, w, x, y)) == mined_around(
        data,
        w,
        h,
        x,
        y,
    )
}

/// Every tile that is no mine counts the mines around it.
pub open spec fn counts_right(data: Seq<u8>, w: int, h: int) -> bool {
    forall|x: int, y: int| in_grid(w, h, x, y) ==> #[trigger] count_right(data, w, h, x, y)
}

/// How many elements of `s` satisfy `p`.
pub open spec fn count_of(s: Seq<u8>, p: spec_fn(u8) -> bool) -> nat
    decreases s.len(),
{
    if s.len() == 0 {
        0
    } else {
        count_of(s.drop_last(), p) + if p(s.last()) {
            1nat
        } else {
            0nat
        }
    }
}

/// The test for a hidden tile, as a value.
pub open spec fn hidden_p() -> spec_fn(u8) -> bool {
    |t: u8| hidden(t)
}

/// The test for a mined tile, as a value.
pub open spec fn mined_p() -> spec_fn(u8) -> bool {
    |t: u8| mined(t)
}

/// The number of hidden tiles.
pub open spec fn hidden_count(s: Seq<u8>) -> nat {
    count_of(s, hidden_p())
}

/// The number of mined tiles.
pub open spec fn mine_total(s: Seq<u8>) -> nat {
    count_of(s, mined_p())
}

/// A count is at most the length.
pub proof fn lemma_count_bound(s: Seq<u8>, p: spec_fn(u8) -> bool)
    ensures
        count_of(s, p) <= s.len(),
    decreases s.len(),
{
    if s.len() > 0 {
        lemma_count_bound(s.drop_last(), p);
    }
}

/// Writing one element moves the count by what that element contributes.
pub proof fn lemma_count_update(s: Seq<u8>, p: spec_fn(u8) -> bool, i: int, v: u8)
    requires
        0 <= i < s.len(),
    ensures
        count_of(s.update(i, v), p) + (if p(s[i]) {
            1int
        } else {
            0int
        }) == count_of(s, p) + (if p(v) {
            1int
        } else {
            0int
        }),
    decreases s.len(),
{
    let t = s.update(i, v);
    if i == s.len() - 1 {
        assert(t.drop_last() =~= s.drop_last());
    } else {
        assert(t.drop_last() =~= s.drop_last().update(i, v));
        lemma_count_update(s.drop_last(), p, i, v);
    }
}

/// The count is the full length exactly when every element satisfies `p`,
/// and zero exactly when none does.
pub proof fn lemma_count_all(s: Seq<u8>, p: spec_fn(u8) -> bool)
    ensures
        count_of(s, p) == s.len() <==> (forall|i: int| 0 <= i < s.len() ==> p(#[trigger] s[i])),
        count_of(s, p) == 0 <==> (forall|i: int| 0 <= i < s.len() ==> !p(#[trigger] s[i])),
    decreases s.len(),
{
    if s.len() > 0 {
        let d = s.drop_last();
        lemma_count_all(d, p);
        lemma_count_bound(d, p);
        assert(forall|i: int| 0 <= i < d.len() ==> d[i] == s[i]);
        if count_of(s, p) == s.len() {
            assert forall|i: int| 0 <= i < s.len() implies p(#[trigger] s[i]) by {
                if i < d.len() {
                    assert(p(d[i]));
                }
            }
        }
        if forall|i: int| 0 <= i < s.len() ==> p(#[trigger] s[i]) {
            assert(p(s[s.len() - 1]));
            assert forall|i: int| 0 <= i < d.len() implies p(#[trigger] d[i]) by {
                assert(p(s[i]));
            }
        }
        if count_of(s, p) == 0 {
            assert forall|i: int| 0 <= i < s.len() implies !p(#[trigger] s[i]) by {
                if i < d.len() {
                    assert(!p(d[i]));
                }
            }
        }
        if forall|i: int| 0 <= i < s.len() ==> !p(#[trigger] s[i]) {
            assert(!p(s[s.len() - 1]));
            assert forall|i: int| 0 <= i < d.len() implies !p(#[trigger] d[i]) by {
                assert(!p(s[i]));
            }
        }
    }
}

/// Two sequences that agree on `p` element by element have the same count.
pub proof fn lemma_count_same(s: Seq<u8>, t: Seq<u8>, p: spec_fn(u8) -> bool)
    requires
        s.len() == t.len(),
        forall|i: int| 0 <= i < s.len() ==> p(#[trigger] s[i]) == p(t[i]),
    ensures
        count_of(s, p) == count_of(t, p),
    decreases s.len(),
{
    if s.len() > 0 {
        let sd = s.drop_last();
        let td = t.drop_last();
        assert forall|i: int| 0 <= i < sd.len() implies p(#[trigger] sd[i]) == p(td[i]) by {
            assert(p(s[i]) == p(t[i]));
        }
        lemma_count_same(sd, td, p);
        assert(p(s[s.len() - 1]) == p(t[s.len() - 1]));
    }
}

/// Where `p` holds in `t` only if it holds in `s`, `t` has no more elements
/// with `p` than `s`.
pub proof fn lemma_count_le(s: Seq<u8>, t: Seq<u8>, p: spec_fn(u8) -> bool)
    requires
        s.len() == t.len(),
        forall|i: int| 0 <= i < s.len() && p(#[trigger] t[i]) ==> p(s[i]),
    ensures
        count_of(t, p) <= count_of(s, p),
    decreases s.len(),
{
    if s.len() > 0 {
        let sd = s.drop_last();
        let td = t.drop_last();
        assert forall|i: int| 0 <= i < sd.len() && p(#[trigger] td[i]) implies p(sd[i]) by {
            assert(p(t[i]) ==> p(s[i]));
        }
        lemma_count_le(sd, td, p);
        assert(p(t[s.len() - 1]) ==> p(s[s.len() - 1]));
    }
}

/// A position on the board has its offset inside the tile array.
pub proof fn lemma_offset_in(w: int, h: int, x: int, y: int)
    requires
        in_grid(w, h, x, y),
    ensures
        0 <= offset(w, x, y) < w * h,
{
    assert(0 <= y * w && y * w + w <= h * w) by (nonlinear_arith)
        requires
            0 <= y < h,
            0 < w,
    ;
    assert(h * w == w * h) by (nonlinear_arith);
}

/// Positions with the same offset are the same.
pub proof fn lemma_offset_unique(w: int, x1: int, y1: int, x2: int, y2: int)
    requires
        0 <= x1 < w,
        0 <= x2 < w,
        offset(w, x1, y1) == offset(w, x2, y2),
    ensures
        x1 == x2,
        y1 == y2,
{
    assert(y1 == y2) by (nonlinear_arith)
        requires
            0 <= x1 < w,
            0 <= x2 < w,
            y1 * w + x1 == y2 * w + x2,
    ;
}

/// Every offset belongs to a position on the board.
pub proof fn lemma_offset_coords(w: int, h: int, i: int)
    requires
        0 < w,
        0 <= i < w * h,
    ensures
        in_grid(w, h, i % w, i / w),
        offset(w, i % w, i / w) == i,
{
    assert(0 <= i % w < w && i == (i / w) * w + i % w && 0 <= i / w && i / w < h)
        by (nonlinear_arith)
        requires
            0 < w,
            0 <= i < w * h,
    ;
}

} // verus!

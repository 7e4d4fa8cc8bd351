//! The board: a grid of packed tiles with the counts that go with it.

use vstd::prelude::*;
use crate::grid::{
    adjacent, counts_right, flags_around, hidden_count, in_grid, lemma_offset_in,
    mine_total, mined_around, offset, tile_at,
};
use crate::tile::hidden;

verus! {

/// How a board is set up. It does not change once a room exists.
#[derive(Clone, Copy, Debug)]
pub struct BoardConf {
    /// Columns, at least one.
    pub w: usize,
    /// Rows, at least one.
    pub h: usize,
    /// Mines per tile, as numerator and denominator.
    pub mine_ratio: (usize, usize),
    /// The first reveal never loses: a mine under it is moved away.
    pub always_safe_first_move: bool,
    /// The outer ring starts revealed and carries no mine.
    pub revealed_borders: bool,
    /// A lost game shows where the mines were.
    pub reveal_on_lose: bool,
    /// A reveal on a satisfied number uncovers the tiles around it.
    pub num_tile_reveal: bool,
}

/// A position on a board, column first.
#[derive(Clone, Copy, Debug)]
pub struct BoardPos(pub u32, pub u32);

/// The tiles of a game in row-major order, with the counts kept beside them.
pub struct Board {
    pub data: Vec<u8>,
    pub width: usize,
    pub height: usize,
    /// How many tiles are still hidden.
    pub hidden_tiles: usize,
    /// How many tiles hold a mine.
    pub mine_count: usize,
    pub num_tile_reveal: bool,
}

impl BoardConf {
    /// The sizes are positive, fit a position's coordinates, and the area fits
    /// in memory; the ratio has a denominator.
    pub open spec fn wf(&self) -> bool {
        &&& 1 <= self.w <= u32::MAX
        &&& 1 <= self.h <= u32::MAX
        &&& self.w * self.h <= usize::MAX
        &&& self.mine_ratio.1 >= 1
    }

    /// The outer ring is kept free of mines: asked for, and the board is large
    /// enough to have an inside.
    pub open spec fn ringed(&self) -> bool {
        self.revealed_borders && self.w >= 3 && self.h >= 3
    }

    /// The number of tiles.
    pub open spec fn area(&self) -> int {
        self.w * self.h
    }

    /// The number of tiles that may hold a mine.
    pub open spec fn mined_area(&self) -> int {
        if self.ringed() {
            (self.w - 2) * (self.h - 2)
        } else {
            self.w * self.h
        }
    }

    /// The number of mines: the ratio of the tiles that may hold one, rounded
    /// down, and no more than there are such tiles.
    pub open spec fn mine_count(&self) -> int {
        let wanted = (self.mine_ratio.0 * self.mined_area()) / (self.mine_ratio.1 as int);
        if wanted > self.mined_area() {
            self.mined_area()
        } else {
            wanted
        }
    }
}

impl BoardPos {
    /// The column.
    pub open spec fn x(&self) -> int {
        self.0 as int
    }

    /// The row.
    pub open spec fn y(&self) -> int {
        self.1 as int
    }

    /// The position lies on the board.
    pub open spec fn within(&self, b: &Board) -> bool {
        in_grid(b.width as int, b.height as int, self.x(), self.y())
    }

    /// The place of the position's tile in the board's data.
    pub open spec fn index(&self, b: &Board) -> int {
        offset(b.width as int, self.x(), self.y())
    }

    /// Whether the position lies on the board.
    pub fn is_within(&self, b: &Board) -> (r: bool)
        ensures
            r == self.within(b),
    {
        (self.0 as usize) < b.width && (self.1 as usize) < b.height
    }

    /// The offset of the position's tile, for a position whose offset can be
    /// computed at all.
    pub fn rel_offset_unchecked(&self, b: &Board) -> (r: usize)
        requires
            self.index(b) <= usize::MAX,
        ensures
            r == self.index(b),
    {
        assert(self.1 as int * b.width as int >= 0) by (nonlinear_arith);
        self.0 as usize + self.1 as usize * b.width
    }

    /// The offset of the position's tile, if the position lies on the board.
    pub fn rel_offset(&self, b: &Board) -> (r: Option<usize>)
        requires
            b.shaped(),
        ensures
            r == (if self.within(b) {
                Some(self.index(b) as usize)
            } else {
                None
            }),
            self.within(b) ==> self.index(b) < b.data.len(),
    {
        if self.is_within(b) {
            proof {
                lemma_offset_in(b.width as int, b.height as int, self.x(), self.y());
                assert(self.index(b) < b.data.len());
            }
            Some(self.rel_offset_unchecked(b))
        } else {
            None
        }
    }
}

impl Board {
    /// The board's width as a mathematical integer.
    pub open spec fn w(&self) -> int {
        self.width as int
    }

    /// The board's height as a mathematical integer.
    pub open spec fn h(&self) -> int {
        self.height as int
    }

    /// The tile at `(x, y)`.
    pub open spec fn tile(&self, x: int, y: int) -> u8 {
        tile_at(self.data@, self.w(), x, y)
    }

    /// The data has the size that the dimensions ask for.
    pub open spec fn shaped(&self) -> bool {
        &&& 1 <= self.width <= u32::MAX
        &&& 1 <= self.height <= u32::MAX
        &&& self.data@.len() == self.width * self.height
    }

    /// The board is consistent: its two counters are the true counts, and every
    /// tile without a mine counts the mines around it.
    pub open spec fn wf(&self) -> bool {
        &&& self.shaped()
        &&& self.hidden_tiles == hidden_count(self.data@)
        &&& self.mine_count == mine_total(self.data@)
        &&& counts_right(self.data@, self.w(), self.h())
    }

    /// The same board but for the tiles: size and options are kept.
    pub open spec fn same_frame(&self, o: &Board) -> bool {
        &&& self.width == o.width
        &&& self.height == o.height
        &&& self.num_tile_reveal == o.num_tile_reveal
        &&& self.data@.len() == o.data@.len()
    }

    /// The number of mines around `(x, y)`.
    pub open spec fn mines_around(&self, x: int, y: int) -> int {
        mined_around(self.data@, self.w(), self.h(), x, y)
    }

    /// The number of plain flags around `(x, y)`.
    pub open spec fn flags_near(&self, x: int, y: int) -> int {
        flags_around(self.data@, self.w(), self.h(), x, y)
    }

    /// The tile at a position on the board.
    pub fn tile_of(&self, pos: BoardPos) -> (t: u8)
        requires
            self.shaped(),
            pos.within(self),
        ensures
            t == self.tile(pos.x(), pos.y()),
    {
        proof {
            lemma_offset_in(self.w(), self.h(), pos.x(), pos.y());
            assert(pos.index(self) < self.data.len());
        }
        self.data[pos.rel_offset_unchecked(self)]
    }
}

/// The `k`-th place of the three by three block around a position, row by
/// row: its column offset.
pub open spec fn block_dx(k: int) -> int {
    k % 3 - 1
}

/// The `k`-th place of the three by three block around a position: its row
/// offset.
pub open spec fn block_dy(k: int) -> int {
    k / 3 - 1
}

/// The place of `(x2, y2)` in the block around `(x1, y1)`.
pub open spec fn block_index(x1: int, y1: int, x2: int, y2: int) -> int {
    (y2 - y1 + 1) * 3 + (x2 - x1 + 1)
}

/// The neighbours of `(x, y)` on the board among the first `k` places of its
/// block, in the block's order.
pub open spec fn neighbours_upto(w: int, h: int, x: int, y: int, k: int) -> Seq<(int, int)>
    decreases k,
{
    if k <= 0 {
        Seq::empty()
    } else {
        let prev = neighbours_upto(w, h, x, y, k - 1);
        let nx = x + block_dx(k - 1);
        let ny = y + block_dy(k - 1);
        if k - 1 != 4 && in_grid(w, h, nx, ny) {
            prev.push((nx, ny))
        } else {
            prev
        }
    }
}

/// The neighbours of `(x, y)` that lie on the board: up to eight, from the
/// upper left one row by row to the lower right one.
pub open spec fn neighbours(w: int, h: int, x: int, y: int) -> Seq<(int, int)> {
    neighbours_upto(w, h, x, y, 9)
}

/// What the list of neighbours holds: the positions on the board that touch
/// `(x, y)`, each once.
pub proof fn lemma_neighbours_upto(w: int, h: int, x: int, y: int, k: int)
    requires
        0 <= k <= 9,
    ensures
        neighbours_upto(w, h, x, y, k).len() <= k,
        forall|i: int|
            0 <= i < neighbours_upto(w, h, x, y, k).len() ==> {
                let p = #[trigger] neighbours_upto(w, h, x, y, k)[i];
                &&& in_grid(w, h, p.0, p.1)
                &&& adjacent(x, y, p.0, p.1)
                &&& block_index(x, y, p.0, p.1) < k
            },
        forall|i: int, j: int|
            0 <= i < j < neighbours_upto(w, h, x, y, k).len() ==> block_index(
                x,
                y,
                (#[trigger] neighbours_upto(w, h, x, y, k)[i]).0,
                neighbours_upto(w, h, x, y, k)[i].1,
            ) < block_index(
                x,
                y,
                (#[trigger] neighbours_upto(w, h, x, y, k)[j]).0,
                neighbours_upto(w, h, x, y, k)[j].1,
            ),
        forall|nx: int, ny: int|
            in_grid(w, h, nx, ny) && adjacent(x, y, nx, ny) && block_index(x, y, nx, ny) < k
                ==> neighbours_upto(w, h, x, y, k).contains((nx, ny)),
    decreases k,
{
    if k > 0 {
        lemma_neighbours_upto(w, h, x, y, k - 1);
        let prev = neighbours_upto(w, h, x, y, k - 1);
        let cur = neighbours_upto(w, h, x, y, k);
        let nx = x + block_dx(k - 1);
        let ny = y + block_dy(k - 1);
        assert(block_index(x, y, nx, ny) == k - 1);
        assert forall|ax: int, ay: int|
            in_grid(w, h, ax, ay) && adjacent(x, y, ax, ay) && block_index(x, y, ax, ay)
                < k implies cur.contains((ax, ay)) by {
            if block_index(x, y, ax, ay) < k - 1 {
                assert(prev.contains((ax, ay)));
                let i = choose|i: int| 0 <= i < prev.len() && prev[i] == (ax, ay);
                assert(cur[i] == (ax, ay));
            } else {
                assert(ax == nx && ay == ny);
                assert(k - 1 != 4);
                assert(cur[cur.len() - 1] == (ax, ay));
            }
        }
    }
}

/// The positions on the board that touch `(x, y)` are exactly the members of
/// its list of neighbours, and none is listed twice.
pub proof fn lemma_neighbours(w: int, h: int, x: int, y: int)
    ensures
        neighbours(w, h, x, y).len() <= 8,
        forall|i: int|
            0 <= i < neighbours(w, h, x, y).len() ==> {
                let p = #[trigger] neighbours(w, h, x, y)[i];
                in_grid(w, h, p.0, p.1) && adjacent(x, y, p.0, p.1)
            },
        forall|i: int, j: int|
            0 <= i < j < neighbours(w, h, x, y).len() ==> #[trigger] neighbours(w, h, x, y)[i]
                != #[trigger] neighbours(w, h, x, y)[j],
        forall|nx: int, ny: int|
            in_grid(w, h, nx, ny) && adjacent(x, y, nx, ny) ==> neighbours(w, h, x, y).contains(
                (nx, ny),
            ),
{
    lemma_neighbours_upto(w, h, x, y, 9);
    lemma_neighbours_upto(w, h, x, y, 4);
    let n4 = neighbours_upto(w, h, x, y, 4);
    let n5 = neighbours_upto(w, h, x, y, 5);
    assert(n5 == n4);
    lemma_neighbours_len(w, h, x, y);
    let n = neighbours(w, h, x, y);
    assert forall|i: int, j: int| 0 <= i < j < n.len() implies #[trigger] n[i] != #[trigger] n[j] by {
        assert(block_index(x, y, n[i].0, n[i].1) < block_index(x, y, n[j].0, n[j].1));
    }
}

proof fn lemma_neighbours_len(w: int, h: int, x: int, y: int)
    ensures
        neighbours(w, h, x, y).len() <= 8,
{
    lemma_neighbours_upto(w, h, x, y, 4);
    let n4 = neighbours_upto(w, h, x, y, 4);
    let n5 = neighbours_upto(w, h, x, y, 5);
    let n6 = neighbours_upto(w, h, x, y, 6);
    let n7 = neighbours_upto(w, h, x, y, 7);
    let n8 = neighbours_upto(w, h, x, y, 8);
    let n9 = neighbours_upto(w, h, x, y, 9);
    assert(n5 == n4);
    assert(n6.len() <= n5.len() + 1);
    assert(n7.len() <= n6.len() + 1);
    assert(n8.len() <= n7.len() + 1);
    assert(n9.len() <= n8.len() + 1);
}

} // verus!

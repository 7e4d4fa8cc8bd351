//! What a player can do to the board: uncover tiles, and set or lift flags.
//! Also grading, which marks the rightly flagged mines once a game is over.

use vstd::prelude::*;
use crate::board::{neighbours, Board, BoardPos};
use crate::flood::{
    chord_upto, flooded, lemma_chord_sticks, lemma_counts_kept, lemma_flooded_eq,
};
use crate::grid::{
    flag_at, hidden_p, in_grid, lemma_count_same, lemma_count_update, lemma_offset_in, offset,
    tile_at,
};
use crate::neighs::coords;
use crate::tile::{
    grade_tile, graded, graded_all, hard_flagged, hidden, is_hard_flagged, law_grade_marks, lemma_tile_bits,
    low_bits, mined, revealable, toggle_flag, toggled,
};

verus! {

impl Board {
    /// A reveal at `(x, y)` would uncover the tiles around it: the tile shows
    /// a number, and as many plain flags stand around it.
    pub open spec fn chord_ready(&self, x: int, y: int) -> bool {
        &&& in_grid(self.w(), self.h(), x, y)
        &&& 1 <= self.tile(x, y) <= 8
        &&& self.flags_near(x, y) == self.tile(x, y)
    }

    /// The tiles after uncovering around `(x, y)`, and whether a mine came to
    /// light.
    pub open spec fn after_chord(&self, x: int, y: int) -> (Seq<u8>, bool) {
        if self.chord_ready(x, y) {
            let nb = neighbours(self.w(), self.h(), x, y);
            chord_upto(self.data@, self.w(), self.h(), nb, nb.len())
        } else {
            (self.data@, false)
        }
    }

    /// The tiles after a reveal at `(x, y)`, and whether a mine came to light.
    pub open spec fn after_reveal(&self, x: int, y: int) -> (Seq<u8>, bool) {
        if !in_grid(self.w(), self.h(), x, y) {
            (self.data@, false)
        } else if self.num_tile_reveal && 1 <= self.tile(x, y) <= 8 {
            self.after_chord(x, y)
        } else {
            (
                flooded(self.data@, self.w(), self.h(), x, y),
                revealable(self.tile(x, y)) && mined(self.tile(x, y)),
            )
        }
    }

    /// The tiles after a flag toggle at `(x, y)`.
    pub open spec fn after_flag(&self, x: int, y: int) -> Seq<u8> {
        if in_grid(self.w(), self.h(), x, y) {
            self.data@.update(offset(self.w(), x, y), toggled(self.tile(x, y)))
        } else {
            self.data@
        }
    }

    /// 1 if `(x, y)` lies on the board and carries a plain flag, else 0.
    pub fn flag_on(&self, x: i64, y: i64) -> (n: u8)
        requires
            self.shaped(),
        ensures
            n == flag_at(self.data@, self.w(), self.h(), x as int, y as int),
            n <= 1,
    {
        if 0 <= x && x < self.width as i64 && 0 <= y && y < self.height as i64 {
            let t = self.tile_of(BoardPos(x as u32, y as u32));
            if is_hard_flagged(t) {
                1
            } else {
                0
            }
        } else {
            0
        }
    }

    /// The number of plain flags around `pos`.
    pub fn count_flags_around(&self, pos: BoardPos) -> (n: u8)
        requires
            self.shaped(),
            pos.within(self),
        ensures
            n == self.flags_near(pos.x(), pos.y()),
            n <= 8,
    {
        let a = self.flag_on(pos.0 as i64 - 1, pos.1 as i64 - 1);
        let b = self.flag_on(pos.0 as i64, pos.1 as i64 - 1);
        let c = self.flag_on(pos.0 as i64 + 1, pos.1 as i64 - 1);
        let d = self.flag_on(pos.0 as i64 - 1, pos.1 as i64);
        let e = self.flag_on(pos.0 as i64 + 1, pos.1 as i64);
        let f = self.flag_on(pos.0 as i64 - 1, pos.1 as i64 + 1);
        let g = self.flag_on(pos.0 as i64, pos.1 as i64 + 1);
        let i = self.flag_on(pos.0 as i64 + 1, pos.1 as i64 + 1);
        a + b + c + d + e + f + g + i
    }

    /// A reveal on a number with as many plain flags around it as it shows:
    /// uncovers, by a flood each, the tiles around it that carry no plain
    /// flag, in the order of the neighbours, and stops at the first mine.
    /// Anywhere else it does nothing.
    pub fn reveal_numtile(&mut self, pos: BoardPos) -> (kaboom: bool)
        requires
            old(self).wf(),
        ensures
            final(self).wf(),
            final(self).same_frame(old(self)),
            final(self).mine_count == old(self).mine_count,
            final(self).hidden_tiles <= old(self).hidden_tiles,
            final(self).data@ == old(self).after_chord(pos.x(), pos.y()).0,
            kaboom == old(self).after_chord(pos.x(), pos.y()).1,
    {
        if !pos.is_within(self) {
            return false;
        }
        let v = self.tile_of(pos);
        if !(1 <= v && v <= 8) {
            return false;
        }
        let flags = self.count_flags_around(pos);
        if flags != v {
            return false;
        }
        let ghost d = self.data@;
        let ghost w = self.w();
        let ghost h = self.h();
        let ghost nb = neighbours(w, h, pos.x(), pos.y());
        let ns = self.neighs(pos);
        proof {
            crate::board::lemma_neighbours(w, h, pos.x(), pos.y());
            assert(coords(ns@) == nb);
            assert forall|i: int| 0 <= i < ns.len() implies in_grid(
                w,
                h,
                (#[trigger] ns[i]).x(),
                ns[i].y(),
            ) && nb[i] == (ns[i].x(), ns[i].y()) by {
                assert(nb[i] == (ns[i].x(), ns[i].y()));
            }
        }
        let mut marks: Vec<bool> = Vec::new();
        let mut j: usize = 0;
        while j < ns.len()
            invariant
                0 <= j <= ns.len(),
                marks.len() == j,
                self.shaped(),
                self.data@ == d,
                w == self.w(),
                h == self.h(),
                forall|i: int|
                    0 <= i < ns.len() ==> in_grid(w, h, (#[trigger] ns[i]).x(), ns[i].y()),
                forall|i: int|
                    0 <= i < j ==> #[trigger] marks[i] == hard_flagged(
                        tile_at(d, w, ns[i].x(), ns[i].y()),
                    ),
            decreases ns.len() - j,
        {
            let t = self.tile_of(ns[j]);
            marks.push(is_hard_flagged(t));
            j = j + 1;
        }
        let mut i: usize = 0;
        while i < ns.len()
            invariant
                0 <= i <= ns.len(),
                ns.len() == nb.len(),
                marks.len() == ns.len(),
                self.wf(),
                self.same_frame(old(self)),
                self.mine_count == old(self).mine_count,
                self.hidden_tiles <= old(self).hidden_tiles,
                w == self.w(),
                h == self.h(),
                d == old(self).data@,
                forall|i: int|
                    0 <= i < ns.len() ==> in_grid(w, h, (#[trigger] ns[i]).x(), ns[i].y())
                        && nb[i] == (ns[i].x(), ns[i].y()),
                forall|i: int|
                    0 <= i < ns.len() ==> #[trigger] marks[i] == hard_flagged(
                        tile_at(d, w, ns[i].x(), ns[i].y()),
                    ),
                old(self).chord_ready(pos.x(), pos.y()),
                nb == neighbours(w, h, pos.x(), pos.y()),
                chord_upto(d, w, h, nb, i as nat).0 == self.data@,
                !chord_upto(d, w, h, nb, i as nat).1,
            decreases ns.len() - i,
        {
            if !marks[i] {
                let ghost c = self.data@;
                let boom = self.flood_reveal(ns[i]);
                proof {
                    lemma_flooded_eq(c, self.data@, w, h, ns[i as int].x(), ns[i as int].y());
                    assert(chord_upto(d, w, h, nb, (i + 1) as nat).0 == self.data@);
                    assert(chord_upto(d, w, h, nb, (i + 1) as nat).1 == boom);
                }
                if boom {
                    proof {
                        lemma_chord_sticks(d, w, h, nb, (i + 1) as nat, nb.len());
                    }
                    return true;
                }
            } else {
                assert(chord_upto(d, w, h, nb, (i + 1) as nat) == chord_upto(d, w, h, nb, i as nat));
            }
            i = i + 1;
        }
        false
    }

    /// Uncovers at `pos`. On a revealed number, where the board has that
    /// option, the tiles around it are uncovered; anywhere else on the board
    /// a flood starts at `pos`. Off the board nothing happens. Returns
    /// whether a mine came to light.
    pub fn reveal_at(&mut self, pos: BoardPos) -> (kaboom: bool)
        requires
            old(self).wf(),
        ensures
            final(self).wf(),
            final(self).same_frame(old(self)),
            final(self).mine_count == old(self).mine_count,
            final(self).hidden_tiles <= old(self).hidden_tiles,
            final(self).data@ == old(self).after_reveal(pos.x(), pos.y()).0,
            kaboom == old(self).after_reveal(pos.x(), pos.y()).1,
    {
        if pos.is_within(self) {
            let v = self.tile_of(pos);
            if self.num_tile_reveal && 1 <= v && v <= 8 {
                self.reveal_numtile(pos)
            } else {
                let ghost c = self.data@;
                let boom = self.flood_reveal(pos);
                proof {
                    lemma_flooded_eq(c, self.data@, self.w(), self.h(), pos.x(), pos.y());
                }
                boom
            }
        } else {
            false
        }
    }

    /// Sets a flag on the hidden tile at `pos`, turns a flag into a question
    /// mark, or lifts a question mark. A revealed tile and a position off the
    /// board are left alone. A consistent board stays consistent.
    pub fn flag(&mut self, pos: BoardPos)
        requires
            old(self).shaped(),
        ensures
            old(self).wf() ==> final(self).wf(),
            final(self).same_frame(old(self)),
            final(self).mine_count == old(self).mine_count,
            final(self).hidden_tiles == old(self).hidden_tiles,
            final(self).data@ == old(self).after_flag(pos.x(), pos.y()),
    {
        if pos.is_within(self) {
            let t = self.tile_of(pos);
            let v = toggle_flag(t);
            let ghost c = self.data@;
            proof {
                lemma_offset_in(self.w(), self.h(), pos.x(), pos.y());
                assert(pos.index(self) < self.data.len());
            }
            let off = pos.rel_offset_unchecked(self);
            self.data.set(off, v);
            proof {
                let e = self.data@;
                assert forall|i: int| 0 <= i < c.len() implies low_bits(#[trigger] e[i])
                    == low_bits(c[i]) by {}
                if old(self).wf() {
                    lemma_counts_kept(c, e, self.w(), self.h());
                }
                lemma_count_update(c, hidden_p(), off as int, v);
            }
        }
    }

    /// Marks every hidden mine under a plain flag as rightly flagged. No
    /// other tile changes, and a consistent board stays consistent.
    pub fn grade(&mut self)
        requires
            old(self).shaped(),
        ensures
            old(self).wf() ==> final(self).wf(),
            final(self).same_frame(old(self)),
            final(self).mine_count == old(self).mine_count,
            final(self).hidden_tiles == old(self).hidden_tiles,
            final(self).data@ == graded_all(old(self).data@),
    {
        let ghost d = self.data@;
        let n = self.data.len();
        let mut i: usize = 0;
        while i < n
            invariant
                0 <= i <= n,
                n == d.len(),
                self.data@.len() == d.len(),
                self.same_frame(old(self)),
                self.mine_count == old(self).mine_count,
                self.hidden_tiles == old(self).hidden_tiles,
                forall|k: int| 0 <= k < i ==> #[trigger] self.data@[k] == graded(d[k]),
                forall|k: int| i <= k < n ==> #[trigger] self.data@[k] == d[k],
            decreases n - i,
        {
            let t = self.data[i];
            self.data.set(i, grade_tile(t));
            i = i + 1;
        }
        proof {
            let e = self.data@;
            assert(e =~= graded_all(d));
            assert forall|k: int| 0 <= k < d.len() implies low_bits(#[trigger] e[k]) == low_bits(
                d[k],
            ) && hidden(e[k]) == hidden(d[k]) by {
                law_grade_marks(d[k]);
                lemma_tile_bits(d[k]);
                lemma_tile_bits(e[k]);
            }
            if old(self).wf() {
                lemma_counts_kept(d, e, self.w(), self.h());
            }
            let p = hidden_p();
            assert forall|k: int| 0 <= k < e.len() implies p(#[trigger] e[k]) == p(d[k]) by {
                assert(hidden(e[k]) == hidden(d[k]));
            }
            lemma_count_same(e, d, p);
        }
    }
}

} // verus!

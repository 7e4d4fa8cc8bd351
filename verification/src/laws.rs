//! What holds of every board and every game.

use vstd::prelude::*;
use crate::board::Board;
use crate::flood::{
    flooded, lemma_flood_uncovers, lemma_uncovers_keeps, spares_mines, uncovers,
};
use crate::game::{hidden_again, lemma_after_chord_uncovers, Game, Move, MoveType, Phase};
use crate::grid::{
    flag_at, hidden_count, hidden_p, in_grid, lemma_count_le, lemma_offset_coords,
    lemma_offset_in, lemma_offset_unique, mine_total, offset, tile_at,
};
use crate::relocate::{moved_around, relocated, relocated_tile};
use crate::setup::{lemma_uncovers_at, pristine};
use crate::tile::{
    graded_all, hard_flagged, hidden, law_flag_cycle, law_grade_marks, law_grade_special,
    lemma_tile_bits, low_bits, mark_bits, mined, toggled, CORRECT, HIDDEN_BIT, MINED, SPECIAL_BIT,
};

verus! {

impl Board {
    /// On a consistent board the counter of hidden tiles is the number of
    /// hidden tiles, the counter of mines is the number of mines and no more
    /// than the number of tiles, and every tile without a mine holds the
    /// number of mines around it.
    pub proof fn law_counts(&self)
        requires
            self.wf(),
        ensures
            self.hidden_tiles == hidden_count(self.data@),
            self.mine_count == mine_total(self.data@),
            self.mine_count <= self.width * self.height,
            self.hidden_tiles <= self.width * self.height,
            forall|x: int, y: int|
                in_grid(self.w(), self.h(), x, y) && !mined(#[trigger] self.tile(x, y))
                    ==> low_bits(self.tile(x, y)) == self.mines_around(x, y),
    {
        crate::grid::lemma_count_bound(self.data@, hidden_p());
        crate::grid::lemma_count_bound(self.data@, crate::grid::mined_p());
        assert forall|x: int, y: int|
            in_grid(self.w(), self.h(), x, y) && !mined(
                #[trigger] self.tile(x, y),
            ) implies low_bits(self.tile(x, y)) == self.mines_around(x, y) by {
            assert(crate::grid::count_right(self.data@, self.w(), self.h(), x, y));
        }
    }

    /// A reveal hides nothing: every tile is as before or uncovered, so no
    /// more tiles are hidden than before; and unless the reveal reports a
    /// mine, every mine is as it was.
    pub proof fn law_reveal_uncovers(&self, x: int, y: int)
        requires
            self.wf(),
        ensures
            uncovers(self.data@, self.after_reveal(x, y).0),
            hidden_count(self.after_reveal(x, y).0) <= hidden_count(self.data@),
            !self.after_reveal(x, y).1 ==> spares_mines(self.data@, self.after_reveal(x, y).0),
    {
        let d = self.data@;
        let e = self.after_reveal(x, y).0;
        lemma_flood_uncovers(d, self.w(), self.h(), x, y);
        lemma_after_chord_uncovers(self, x, y);
        assert(uncovers(d, e));
        lemma_uncovers_keeps(d, e, self.w(), self.h());
        let p = hidden_p();
        assert forall|i: int| 0 <= i < d.len() && p(#[trigger] e[i]) implies p(d[i]) by {
            assert(hidden(e[i]) ==> e[i] == d[i]);
        }
        lemma_count_le(d, e, p);
    }

    /// Three flag toggles on a hidden tile that grading has not marked bring
    /// the board back to where it was, and fewer do not.
    pub proof fn law_flag_thrice(&self, a: &Board, b: &Board, c: &Board, x: int, y: int)
        requires
            self.shaped(),
            in_grid(self.w(), self.h(), x, y),
            hidden(self.tile(x, y)),
            mark_bits(self.tile(x, y)) != SPECIAL_BIT,
            a.same_frame(self),
            b.same_frame(self),
            c.same_frame(self),
            a.data@ == self.after_flag(x, y),
            b.data@ == a.after_flag(x, y),
            c.data@ == b.after_flag(x, y),
        ensures
            c.data@ == self.data@,
            a.data@ != self.data@,
            b.data@ != self.data@,
    {
        lemma_offset_in(self.w(), self.h(), x, y);
        let i = offset(self.w(), x, y);
        law_flag_cycle(self.data@[i]);
        assert(a.data@[i] == toggled(self.data@[i]));
        assert(b.data@[i] == toggled(a.data@[i]));
        assert(c.data@[i] == toggled(b.data@[i]));
        assert(c.data@ =~= self.data@);
    }
}

/// Grading writes the mark of a rightly flagged mine on every hidden mine
/// under a plain flag and changes no other tile; and on a board where no
/// tile carried that mark before, the tiles that carry it afterwards are
/// those mines and no others.
pub proof fn law_grade(d: Seq<u8>)
    ensures
        forall|i: int|
            0 <= i < d.len() ==> (#[trigger] graded_all(d)[i] == (if hidden(d[i])
                && hard_flagged(d[i]) && mined(d[i]) {
                CORRECT
            } else {
                d[i]
            })),
        (forall|i: int| 0 <= i < d.len() ==> mark_bits(#[trigger] d[i]) != SPECIAL_BIT) ==> (
        forall|i: int|
            0 <= i < d.len() ==> (mark_bits(#[trigger] graded_all(d)[i])
                == SPECIAL_BIT <==> (hidden(d[i]) && hard_flagged(d[i]) && mined(d[i])))),
{
    let e = graded_all(d);
    assert forall|i: int| 0 <= i < d.len() implies (#[trigger] e[i] == (if hidden(d[i])
        && hard_flagged(d[i]) && mined(d[i]) {
        CORRECT
    } else {
        d[i]
    })) by {
        law_grade_marks(d[i]);
    }
    if forall|i: int| 0 <= i < d.len() ==> mark_bits(#[trigger] d[i]) != SPECIAL_BIT {
        assert forall|i: int| 0 <= i < d.len() implies (mark_bits(#[trigger] e[i]) == SPECIAL_BIT
            <==> (hidden(d[i]) && hard_flagged(d[i]) && mined(d[i]))) by {
            law_grade_marks(d[i]);
            law_grade_special(d[i]);
            assert(mark_bits(d[i]) != SPECIAL_BIT);
        }
    }
}

impl Game {
    /// The first reveal of a game that grants a safe first move, on a board
    /// where nothing is marked and no mine is exposed and which has room
    /// for its mines elsewhere, never loses: afterwards the game is on, or
    /// won if nothing but mines is left hidden, and the tile that was
    /// revealed is uncovered and holds no mine.
    pub proof fn law_first_move_safe(&self, m: Move)
        requires
            self.wf(),
            self.phase == Phase::SafeFirstMove,
            m.t == MoveType::Reveal,
            m.pos.within(&self.board),
            pristine(self.board.data@),
            self.board.mine_count < self.board.width * self.board.height,
        ensures
            self.act_phase(m) == (if hidden_count(self.act_data(m)) == self.board.mine_count {
                Phase::Win
            } else {
                Phase::Run
            }),
            !hidden(tile_at(self.act_data(m), self.board.w(), m.pos.x(), m.pos.y())),
            !mined(tile_at(self.act_data(m), self.board.w(), m.pos.x(), m.pos.y())),
    {
        let b = self.board;
        let d = b.data@;
        let w = b.w();
        let h = b.h();
        let x = m.pos.x();
        let y = m.pos.y();
        let t = tile_at(d, w, x, y);
        let r = b.after_reveal(x, y);
        lemma_offset_in(w, h, x, y);
        let i = offset(w, x, y);
        lemma_offset_coords(w, h, i);
        lemma_offset_unique(w, i % w, i / w, x, y);
        lemma_tile_bits(t);
        crate::tile::lemma_mine_value();
        assert(mark_bits(d[i]) == 0 && (mined(d[i]) ==> d[i] == MINED));
        if b.num_tile_reveal && 1 <= t <= 8 {
            lemma_no_flags(d, w, h, x, y);
            assert(!b.chord_ready(x, y));
        } else {
            lemma_flood_uncovers(d, w, h, x, y);
            let e = flooded(d, w, h, x, y);
            lemma_uncovers_at(d, e, w, h, x, y);
            if r.1 {
                assert(mined(tile_at(r.0, w, x, y)));
                assert(self.rescued(m));
                let moved = relocated(r.0, w, h, x, y);
                lemma_moved_bound(r.0, w, h, x, y, x, y);
                let n = moved_around(r.0, w, h, x, y, x, y);
                assert(moved[i] == relocated_tile(r.0, w, h, x, y, x, y));
                assert(tile_at(moved, w, x, y) == n as u8);
                let v = hidden_again(moved, w, x, y);
                lemma_tile_bits(n as u8);
                crate::tile::lemma_mark_values();
                crate::tile::lemma_tile_compose(HIDDEN_BIT, n as u8);
                assert(tile_at(v, w, x, y) == (n as u8) | HIDDEN_BIT);
                lemma_flood_uncovers(v, w, h, x, y);
                lemma_uncovers_at(v, flooded(v, w, h, x, y), w, h, x, y);
                lemma_tile_bits(tile_at(v, w, x, y));
            }
        }
    }
}

/// On a board without marks no flag stands around a position.
proof fn lemma_no_flags(d: Seq<u8>, w: int, h: int, x: int, y: int)
    requires
        0 < w,
        d.len() == w * h,
        pristine(d),
    ensures
        crate::grid::flags_around(d, w, h, x, y) == 0,
{
    lemma_no_flag(d, w, h, x - 1, y - 1);
    lemma_no_flag(d, w, h, x, y - 1);
    lemma_no_flag(d, w, h, x + 1, y - 1);
    lemma_no_flag(d, w, h, x - 1, y);
    lemma_no_flag(d, w, h, x + 1, y);
    lemma_no_flag(d, w, h, x - 1, y + 1);
    lemma_no_flag(d, w, h, x, y + 1);
    lemma_no_flag(d, w, h, x + 1, y + 1);
}

proof fn lemma_no_flag(d: Seq<u8>, w: int, h: int, x: int, y: int)
    requires
        0 < w,
        d.len() == w * h,
        pristine(d),
    ensures
        flag_at(d, w, h, x, y) == 0,
{
    if in_grid(w, h, x, y) {
        lemma_offset_in(w, h, x, y);
        assert(mark_bits(d[offset(w, x, y)]) == 0);
    }
}

/// A position has at most eight mines around it, also after a mine has
/// moved.
proof fn lemma_moved_bound(d: Seq<u8>, w: int, h: int, px: int, py: int, x: int, y: int)
    ensures
        0 <= moved_around(d, w, h, px, py, x, y) <= 8,
{
}

} // verus!

//! A game: a board, its configuration, and the phase the game is in.

use vstd::prelude::*;
use crate::board::{Board, BoardConf, BoardPos};
use crate::flood::{flooded, lemma_counts_kept, lemma_flood_uncovers, lemma_chord_uncovers};
use crate::grid::{
    hidden_count, hidden_p, lemma_count_all, lemma_count_bound, lemma_count_update,
    lemma_offset_in, offset, tile_at,
};
use crate::relocate::relocated;
use crate::tile::{
    hidden, is_hidden, is_mine, lemma_tile_bits, low_bits, mined, unhide, HIDDEN_BIT,
};

verus! {

/// Where a game stands.
#[derive(PartialEq, Eq, Structural, Clone, Copy, Debug)]
pub enum Phase {
    /// No tile has been revealed yet, and the first reveal will not lose.
    SafeFirstMove,
    /// The first reveal hit a mine. A game is in this phase only while a
    /// move is being applied.
    FirstMoveFail,
    /// The game is on.
    Run,
    /// A mine came to light: the game is lost.
    Die,
    /// Only mines are left hidden: the game is won.
    Win,
}

/// What a move does.
#[derive(PartialEq, Eq, Structural, Clone, Copy, Debug)]
pub enum MoveType {
    Reveal,
    ToggleFlag,
}

/// A player's move.
#[derive(Clone, Copy, Debug)]
pub struct Move {
    pub t: MoveType,
    pub pos: BoardPos,
}

/// A game of minesweeper.
pub struct Game {
    pub phase: Phase,
    pub board: Board,
    pub board_conf: BoardConf,
}

/// The tiles with every mine uncovered.
pub open spec fn exposed(d: Seq<u8>) -> Seq<u8> {
    d.map_values(
        |t: u8|
            if mined(t) {
                low_bits(t)
            } else {
                t
            },
    )
}

/// The tiles with the one at `(x, y)` covered again.
pub open spec fn hidden_again(d: Seq<u8>, w: int, x: int, y: int) -> Seq<u8> {
    d.update(offset(w, x, y), tile_at(d, w, x, y) | HIDDEN_BIT)
}

impl Board {
    /// Covers the tile at `pos` again. The counters are not touched.
    pub fn hide_tile(&mut self, pos: BoardPos)
        requires
            old(self).shaped(),
            pos.within(old(self)),
        ensures
            final(self).same_frame(old(self)),
            final(self).mine_count == old(self).mine_count,
            final(self).hidden_tiles == old(self).hidden_tiles,
            final(self).data@ == hidden_again(old(self).data@, old(self).w(), pos.x(), pos.y()),
    {
        proof {
            lemma_offset_in(self.w(), self.h(), pos.x(), pos.y());
            assert(pos.index(self) < self.data.len());
        }
        let off = pos.rel_offset_unchecked(self);
        let t = self.data[off];
        self.data.set(off, t | HIDDEN_BIT);
    }

    /// Uncovers every mine, as a lost game shows them.
    pub fn expose_mines(&mut self)
        requires
            old(self).wf(),
        ensures
            final(self).wf(),
            final(self).same_frame(old(self)),
            final(self).mine_count == old(self).mine_count,
            final(self).data@ == exposed(old(self).data@),
    {
        let ghost d = self.data@;
        let n = self.data.len();
        let mut i: usize = 0;
        while i < n
            invariant
                0 <= i <= n,
                n == d.len(),
                self.wf(),
                self.same_frame(old(self)),
                self.mine_count == old(self).mine_count,
                d == old(self).data@,
                forall|k: int| 0 <= k < i ==> #[trigger] self.data@[k] == exposed(d)[k],
                forall|k: int| i <= k < n ==> #[trigger] self.data@[k] == d[k],
            decreases n - i,
        {
            let t = self.data[i];
            if is_mine(t) {
                let v = unhide(t);
                let ghost c = self.data@;
                proof {
                    lemma_count_update(c, hidden_p(), i as int, v);
                    lemma_tile_bits(t);
                }
                self.data.set(i, v);
                if is_hidden(t) {
                    self.hidden_tiles = self.hidden_tiles - 1;
                }
                proof {
                    let e = self.data@;
                    assert forall|k: int| 0 <= k < c.len() implies low_bits(#[trigger] e[k])
                        == low_bits(c[k]) by {}
                    lemma_counts_kept(c, e, self.w(), self.h());
                }
            }
            i = i + 1;
        }
        proof {
            assert(self.data@ =~= exposed(d));
        }
    }
}

impl Game {
    /// The game is consistent: so are its board and its configuration, they
    /// agree, the board has no more mines than the configuration has tiles
    /// for them, and no move is half applied.
    pub open spec fn wf(&self) -> bool {
        &&& self.board.wf()
        &&& self.board_conf.wf()
        &&& self.board.width == self.board_conf.w
        &&& self.board.height == self.board_conf.h
        &&& self.board.num_tile_reveal == self.board_conf.num_tile_reveal
        &&& self.board.mine_count <= self.board_conf.mined_area()
        &&& self.phase != Phase::FirstMoveFail
    }

    /// The game is over.
    pub open spec fn over(&self) -> bool {
        self.phase == Phase::Die || self.phase == Phase::Win
    }

    /// The move is a first reveal that hits a mine which can be moved away:
    /// the game grants a safe first move, the reveal brings the mine at its
    /// own position to light, and the board has a tile without a mine.
    pub open spec fn rescued(&self, m: Move) -> bool {
        let r = self.board.after_reveal(m.pos.x(), m.pos.y());
        &&& self.phase == Phase::SafeFirstMove
        &&& m.t == MoveType::Reveal
        &&& r.1
        &&& self.board.mine_count < self.board.width * self.board.height
        &&& m.pos.within(&self.board)
        &&& mined(tile_at(r.0, self.board.w(), m.pos.x(), m.pos.y()))
    }

    /// The tiles after the move.
    pub open spec fn act_data(&self, m: Move) -> Seq<u8> {
        let x = m.pos.x();
        let y = m.pos.y();
        if m.t == MoveType::ToggleFlag {
            self.board.after_flag(x, y)
        } else {
            let r = self.board.after_reveal(x, y);
            if !r.1 {
                r.0
            } else if self.rescued(m) {
                flooded(
                    hidden_again(
                        relocated(r.0, self.board.w(), self.board.h(), x, y),
                        self.board.w(),
                        x,
                        y,
                    ),
                    self.board.w(),
                    self.board.h(),
                    x,
                    y,
                )
            } else if self.board_conf.reveal_on_lose {
                exposed(r.0)
            } else {
                r.0
            }
        }
    }

    /// The phase after the move.
    pub open spec fn act_phase(&self, m: Move) -> Phase {
        let won = hidden_count(self.act_data(m)) == self.board.mine_count;
        if m.t == MoveType::ToggleFlag {
            if won {
                Phase::Win
            } else {
                self.phase
            }
        } else if self.board.after_reveal(m.pos.x(), m.pos.y()).1 && !self.rescued(m) {
            Phase::Die
        } else if won {
            Phase::Win
        } else {
            Phase::Run
        }
    }

    /// A new game after `conf`, with a fresh board.
    pub fn new(conf: BoardConf) -> (g: Game)
        requires
            conf.wf(),
        ensures
            g.wf(),
            g.board_conf == conf,
            g.board.fresh_for(&conf),
            g.phase == (if conf.always_safe_first_move {
                Phase::SafeFirstMove
            } else {
                Phase::Run
            }),
    {
        let board = Board::new(conf);
        proof {
            conf.law_mine_count_bounded();
        }
        Game {
            phase: if conf.always_safe_first_move {
                Phase::SafeFirstMove
            } else {
                Phase::Run
            },
            board,
            board_conf: conf,
        }
    }

    /// Applies a move to a game that is not over. A reveal that brings a
    /// mine to light loses the game, unless it is the first reveal of a game
    /// that grants a safe one and the mine lies at the position of the
    /// move: then that mine goes to the first free tile, the tile is covered
    /// again and the reveal is made once more. A first reveal that, around
    /// a number, brings the mine of a neighbour to light loses like any
    /// other, and so does one on a board that has no tile without a mine. A
    /// game with nothing hidden but its mines is won. A lost game uncovers
    /// its mines where the configuration says so.
    pub fn act(&mut self, m: Move)
        requires
            old(self).wf(),
            !old(self).over(),
        ensures
            final(self).wf(),
            final(self).board_conf == old(self).board_conf,
            final(self).board.same_frame(&old(self).board),
            final(self).board.mine_count == old(self).board.mine_count,
            final(self).board.data@ == old(self).act_data(m),
            final(self).phase == old(self).act_phase(m),
        decreases
                (if old(self).phase == Phase::SafeFirstMove {
                    1nat
                } else {
                    0nat
                }),
    {
        let ghost g0 = *self;
        let ghost w = self.board.w();
        let ghost h = self.board.h();
        let ghost x = m.pos.x();
        let ghost y = m.pos.y();
        match m.t {
            MoveType::Reveal => {
                let kaboom = self.board.reveal_at(m.pos);
                if kaboom {
                    if self.phase == Phase::SafeFirstMove {
                        self.phase = Phase::FirstMoveFail;
                    } else {
                        self.phase = Phase::Die;
                    }
                } else if self.phase == Phase::SafeFirstMove {
                    self.phase = Phase::Run;
                }
            },
            MoveType::ToggleFlag => {
                self.board.flag(m.pos);
            },
        }
        if self.phase == Phase::FirstMoveFail {
            let ghost d1 = self.board.data@;
            let winnable = self.board.mine_count < self.board.data.len() && m.pos.is_within(
                &self.board,
            ) && is_mine(self.board.tile_of(m.pos));
            if winnable {
                proof {
                    lemma_offset_in(w, h, x, y);
                    let t = g0.board.tile(x, y);
                    lemma_tile_bits(t);
                    if g0.board.num_tile_reveal && 1 <= t <= 8 {
                        lemma_after_chord_uncovers(&g0.board, x, y);
                        crate::setup::lemma_uncovers_at(g0.board.data@, d1, w, h, x, y);
                        assert(false);
                    }
                    lemma_flood_uncovers(g0.board.data@, w, h, x, y);
                    assert(!hidden(tile_at(d1, w, x, y)));
                    lemma_count_all(d1, hidden_p());
                    lemma_count_bound(d1, hidden_p());
                    assert(!hidden_p()(d1[offset(w, x, y)]));
                    crate::relocate::lemma_vacancy(d1);
                }
                let took = self.board.find_vacant();
                let uncovered = !is_hidden(self.board.data[took]);
                self.board.hidden_tiles = self.board.hidden_tiles + 1;
                self.board.move_mine_elsewhere(m.pos);
                let ghost d2 = self.board.data@;
                self.board.hide_tile(m.pos);
                let ghost d3 = self.board.data@;
                proof {
                    let t = tile_at(d2, w, x, y);
                    assert(self.board.tile(x, y) == tile_at(d3, w, x, y));
                    lemma_tile_bits(t);
                    crate::tile::lemma_mark_values();
                    crate::tile::lemma_tile_compose(HIDDEN_BIT, t);
                    lemma_count_update(d2, hidden_p(), offset(w, x, y), (t | HIDDEN_BIT));
                    lemma_count_bound(d3, hidden_p());
                    assert forall|k: int| 0 <= k < d2.len() implies low_bits(#[trigger] d3[k])
                        == low_bits(d2[k]) by {}
                    lemma_counts_kept(d2, d3, w, h);
                }
                if uncovered {
                    self.board.hidden_tiles = self.board.hidden_tiles + 1;
                }
                self.phase = Phase::Run;
                proof {
                    let t3 = self.board.tile(x, y);
                    lemma_tile_bits(t3);
                    assert(t3 >= 0x80);
                    assert(d2 == relocated(d1, w, h, x, y));
                }
                self.act(m);
            } else {
                self.phase = Phase::Die;
                if self.board_conf.reveal_on_lose {
                    self.board.expose_mines();
                }
            }
        } else if self.phase != Phase::Die && self.board.hidden_tiles == self.board.mine_count {
            self.phase = Phase::Win;
        } else if self.phase == Phase::Die && self.board_conf.reveal_on_lose {
            self.board.expose_mines();
        }
    }
}

/// Uncovering around a position only uncovers.
pub proof fn lemma_after_chord_uncovers(b: &Board, x: int, y: int)
    requires
        b.wf(),
    ensures
        crate::flood::uncovers(b.data@, b.after_chord(x, y).0),
        !b.after_chord(x, y).1 ==> crate::flood::spares_mines(b.data@, b.after_chord(x, y).0),
{
    if b.chord_ready(x, y) {
        crate::board::lemma_neighbours(b.w(), b.h(), x, y);
        let nb = crate::board::neighbours(b.w(), b.h(), x, y);
        lemma_chord_uncovers(b.data@, b.w(), b.h(), nb, nb.len());
    }
}

} // verus!

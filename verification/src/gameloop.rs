//! The game of a room, as the one consumer of the room's moves.

use vstd::prelude::*;
use crate::board::BoardConf;
use crate::game::{Game, Move, Phase};
use crate::message::{end_message, end_text, Frame, FrameView};
use crate::outside::{deflate, deflated};
use crate::players::PlayerMap;
use crate::room::{effects_view, Effect, EffectView, MetaMove};
use crate::snapshot::rendered;
use crate::tile::graded_all;

verus! {

/// The game of a room and what the room remembers about it.
pub struct GameLoop {
    pub game: Game,
    /// The name of the player whose move ended the last game.
    pub final_player_name: Option<Vec<u8>>,
    /// The players have not seen the state of the game as it is now.
    pub desynced: bool,
}

/// The name, in the terms of contracts.
pub open spec fn name_view(n: Option<Vec<u8>>) -> Option<Seq<u8>> {
    match n {
        Some(v) => Some(v@),
        None => None,
    }
}

/// Two games with the same tiles, counters, phase and configuration.
pub open spec fn same_game(a: &Game, b: &Game) -> bool {
    &&& a.phase == b.phase
    &&& a.board_conf == b.board_conf
    &&& a.board.data@ == b.board.data@
    &&& a.board.same_frame(&b.board)
    &&& a.board.hidden_tiles == b.board.hidden_tiles
    &&& a.board.mine_count == b.board.mine_count
}

/// What goes out to the players when the state of the game is asked for:
/// the board, rendered and compressed, and, if the game is over, how it
/// ended and by whose move.
pub open spec fn state_frames(g: &Game, name: Option<Seq<u8>>) -> Seq<EffectView> {
    let board = EffectView::Broadcast(
        FrameView::Binary(deflated(rendered(g.board.data@, g.board.w(), g.board.height as nat))),
    );
    if g.phase == Phase::Win {
        seq![board, EffectView::Broadcast(FrameView::Text(end_text(true, name)))]
    } else if g.phase == Phase::Die {
        seq![board, EffectView::Broadcast(FrameView::Text(end_text(false, name)))]
    } else {
        seq![board]
    }
}

impl GameLoop {
    /// The game is consistent.
    pub open spec fn wf(&self) -> bool {
        self.game.wf()
    }

    /// A room's game at its start. The players have not seen it yet.
    pub fn new(conf: BoardConf) -> (l: GameLoop)
        requires
            conf.wf(),
        ensures
            l.wf(),
            l.game.board_conf == conf,
            l.game.board.fresh_for(&conf),
            l.game.phase == (if conf.always_safe_first_move {
                Phase::SafeFirstMove
            } else {
                Phase::Run
            }),
            l.final_player_name.is_none(),
            l.desynced,
    {
        GameLoop { game: Game::new(conf), final_player_name: None, desynced: true }
    }

    /// Applies a player's move. A game that is over takes no move: nothing
    /// changes and nothing follows. Otherwise the move is applied; if it
    /// ends the game, the board is graded and the player's name kept; and
    /// the game asks itself to tell the players.
    pub fn on_move(&mut self, m: Move, addr: u64, players: &PlayerMap) -> (effects: Vec<Effect>)
        requires
            old(self).wf(),
        ensures
            final(self).wf(),
            old(self).game.over() ==> same_game(&final(self).game, &old(self).game) && name_view(
                final(self).final_player_name,
            ) == name_view(old(self).final_player_name) && final(self).desynced == old(self).desynced && effects@.len() == 0,
            !old(self).game.over() ==> {
                &&& final(self).game.board_conf == old(self).game.board_conf
                &&& final(self).game.phase == old(self).game.act_phase(m)
                &&& final(self).game.board.data@ == (if final(self).game.over() {
                    graded_all(old(self).game.act_data(m))
                } else {
                    old(self).game.act_data(m)
                })
                &&& name_view(final(self).final_player_name) == (if final(self).game.over() {
                    if players.has(addr) {
                        Some(players.player(addr).name@)
                    } else {
                        None
                    }
                } else {
                    name_view(old(self).final_player_name)
                })
                &&& final(self).desynced
                &&& effects_view(effects@) == seq![EffectView::ToGame(MetaMove::StateSync)]
            },
    {
        let mut effects: Vec<Effect> = Vec::new();
        if !self.is_over() {
            self.game.act(m);
            self.desynced = true;
            if self.is_over() {
                self.game.board.grade();
                self.final_player_name = players.name_of(addr);
            }
            effects.push(Effect::ToGame(MetaMove::StateSync));
            proof {
                assert(effects_view(effects@) =~= seq![EffectView::ToGame(MetaMove::StateSync)]);
            }
        }
        effects
    }

    /// Whether the game is over.
    pub fn is_over(&self) -> (r: bool)
        ensures
            r == self.game.over(),
    {
        self.game.phase == Phase::Die || self.game.phase == Phase::Win
    }

    /// Asks for the state to go out, unless the players have seen it.
    pub fn on_sync(&mut self) -> (effects: Vec<Effect>)
        ensures
            same_game(&final(self).game, &old(self).game),
            final(self).game == old(self).game,
            final(self).final_player_name == old(self).final_player_name,
            !final(self).desynced,
            effects_view(effects@) == (if old(self).desynced {
                seq![EffectView::ToGame(MetaMove::StateDump)]
            } else {
                Seq::empty()
            }),
    {
        let mut effects: Vec<Effect> = Vec::new();
        if self.desynced {
            effects.push(Effect::ToGame(MetaMove::StateDump));
            self.desynced = false;
        }
        proof {
            assert(effects_view(effects@) =~= (if old(self).desynced {
                seq![EffectView::ToGame(MetaMove::StateDump)]
            } else {
                Seq::empty()
            }));
        }
        effects
    }

    /// Sends the state of the game to every player.
    pub fn on_dump(&mut self) -> (effects: Vec<Effect>)
        requires
            old(self).wf(),
        ensures
            final(self).game == old(self).game,
            final(self).final_player_name == old(self).final_player_name,
            !final(self).desynced,
            effects_view(effects@) == state_frames(
                &old(self).game,
                name_view(old(self).final_player_name),
            ),
    {
        let mut effects: Vec<Effect> = Vec::new();
        let picture = deflate(&self.game.board.render());
        effects.push(Effect::Broadcast(Frame::Binary(picture)));
        if self.game.phase == Phase::Win {
            effects.push(
                Effect::Broadcast(Frame::Text(end_message(true, &self.final_player_name))),
            );
        } else if self.game.phase == Phase::Die {
            effects.push(
                Effect::Broadcast(Frame::Text(end_message(false, &self.final_player_name))),
            );
        }
        self.desynced = false;
        proof {
            assert(effects_view(effects@) =~= state_frames(
                &old(self).game,
                name_view(old(self).final_player_name),
            ));
        }
        effects
    }

    /// Starts a new game after the same configuration, if this one is over,
    /// and asks for its state to go out. A game that is on goes on, and
    /// nothing follows.
    pub fn on_reset(&mut self) -> (effects: Vec<Effect>)
        requires
            old(self).wf(),
        ensures
            final(self).wf(),
            final(self).final_player_name == old(self).final_player_name,
            final(self).desynced == old(self).desynced,
            final(self).game.board_conf == old(self).game.board_conf,
            old(self).game.over() ==> final(self).game.board.fresh_for(
                &old(self).game.board_conf,
            ) && final(self).game.phase == (if old(self).game.board_conf.always_safe_first_move {
                Phase::SafeFirstMove
            } else {
                Phase::Run
            }) && effects_view(effects@) == seq![EffectView::ToGame(MetaMove::StateDump)],
            !old(self).game.over() ==> final(self).game == old(self).game && effects@.len() == 0,
    {
        let mut effects: Vec<Effect> = Vec::new();
        if self.is_over() {
            self.game = Game::new(self.game.board_conf);
            effects.push(Effect::ToGame(MetaMove::StateDump));
            proof {
                assert(effects_view(effects@) =~= seq![EffectView::ToGame(MetaMove::StateDump)]);
            }
        }
        effects
    }

    /// Handles one message to the game.
    pub fn step(&mut self, req: MetaMove, players: &PlayerMap) -> (effects: Vec<Effect>)
        requires
            old(self).wf(),
        ensures
            final(self).wf(),
            final(self).game.board_conf == old(self).game.board_conf,
            match req {
                MetaMove::Move(m, addr) => if old(self).game.over() {
                    same_game(&final(self).game, &old(self).game) && name_view(
                        final(self).final_player_name,
                    ) == name_view(old(self).final_player_name) && final(self).desynced == old(self).desynced && effects@.len() == 0
                } else {
                    &&& final(self).game.phase == old(self).game.act_phase(m)
                    &&& final(self).game.board.data@ == (if final(self).game.over() {
                        graded_all(old(self).game.act_data(m))
                    } else {
                        old(self).game.act_data(m)
                    })
                    &&& name_view(final(self).final_player_name) == (if final(self).game.over() {
                        if players.has(addr) {
                            Some(players.player(addr).name@)
                        } else {
                            None
                        }
                    } else {
                        name_view(old(self).final_player_name)
                    })
                    &&& final(self).desynced
                    &&& effects_view(effects@) == seq![EffectView::ToGame(MetaMove::StateSync)]
                },
                MetaMove::StateSync => final(self).game == old(self).game && final(self).final_player_name == old(self).final_player_name && !final(self).desynced
                    && effects_view(effects@) == (if old(self).desynced {
                    seq![EffectView::ToGame(MetaMove::StateDump)]
                } else {
                    Seq::empty()
                }),
                MetaMove::StateDump => final(self).game == old(self).game && final(self).final_player_name == old(self).final_player_name && !final(self).desynced
                    && effects_view(effects@) == state_frames(
                    &old(self).game,
                    name_view(old(self).final_player_name),
                ),
                MetaMove::Reset => final(self).final_player_name == old(self).final_player_name
                    && final(self).desynced == old(self).desynced && (if old(self).game.over() {
                    final(self).game.board.fresh_for(&old(self).game.board_conf) && final(self).game.phase == (if old(self).game.board_conf.always_safe_first_move {
                        Phase::SafeFirstMove
                    } else {
                        Phase::Run
                    }) && effects_view(effects@) == seq![EffectView::ToGame(MetaMove::StateDump)]
                } else {
                    final(self).game == old(self).game && effects@.len() == 0
                }),
            },
    {
        match req {
            MetaMove::Move(m, addr) => self.on_move(m, addr, players),
            MetaMove::StateSync => self.on_sync(),
            MetaMove::StateDump => self.on_dump(),
            MetaMove::Reset => self.on_reset(),
        }
    }
}

} // verus!

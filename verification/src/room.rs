//! What the parts of a room say to one another.

use vstd::prelude::*;
use crate::board::{BoardConf, BoardPos};
use crate::game::Move;
use crate::message::{Frame, FrameView};

verus! {

/// How a room is set up.
#[derive(Clone, Debug)]
pub struct RoomConf {
    pub name: Vec<u8>,
    /// How many players the room takes.
    pub player_cap: usize,
    /// Whether the room is listed.
    pub public: bool,
    pub board_conf: BoardConf,
}

/// A message to the game of a room.
#[derive(Clone, Copy, Debug)]
pub enum MetaMove {
    /// A player's move, with the address of the player's connection.
    Move(Move, u64),
    /// The state of the game is to go out to the players.
    StateDump,
    /// The state is to go out unless it has since a move.
    StateSync,
    /// A new game is to start, if this one is over.
    Reset,
}

/// What a request to the keeper of the cursors is about.
#[derive(Clone, Copy, Debug)]
pub enum ReqData {
    /// The player's cursor is at this place.
    Pos((usize, usize)),
    /// Every cursor is to go out to the players.
    StateDump,
    /// The player has left.
    Quit,
}

/// A request to the keeper of the cursors, with the number of the player it
/// comes from.
#[derive(Clone, Copy, Debug)]
pub struct Req {
    pub id: usize,
    pub data: ReqData,
}

/// Something for the room to do after a step.
#[derive(Debug)]
pub enum Effect {
    /// A frame for the connection that the step was about.
    Reply(Frame),
    /// A frame for every player of the room.
    Broadcast(Frame),
    /// A message for the game.
    ToGame(MetaMove),
    /// A request for the keeper of the cursors.
    ToCursors(Req),
}

/// An effect, in the terms of contracts.
pub enum EffectView {
    Reply(FrameView),
    Broadcast(FrameView),
    ToGame(MetaMove),
    ToCursors(Req),
}

impl View for Effect {
    type V = EffectView;

    open spec fn view(&self) -> EffectView {
        match *self {
            Effect::Reply(f) => EffectView::Reply(f@),
            Effect::Broadcast(f) => EffectView::Broadcast(f@),
            Effect::ToGame(m) => EffectView::ToGame(m),
            Effect::ToCursors(r) => EffectView::ToCursors(r),
        }
    }
}

/// The effects of a list, in the terms of contracts.
pub open spec fn effects_view(v: Seq<Effect>) -> Seq<EffectView> {
    v.map_values(|e: Effect| e@)
}

/// The position with the coordinates `x` and `y`. Coordinates too large
/// for a position give one that lies on no board.
pub open spec fn pos_of(x: nat, y: nat) -> BoardPos {
    if x <= u32::MAX && y <= u32::MAX {
        BoardPos(x as u32, y as u32)
    } else {
        BoardPos(u32::MAX, u32::MAX)
    }
}

impl BoardPos {
    /// The position with the coordinates `x` and `y`. Coordinates too large
    /// for a position give one that lies on no board.
    pub fn from_coords(x: usize, y: usize) -> (p: BoardPos)
        ensures
            p == pos_of(x as nat, y as nat),
    {
        if x <= u32::MAX as usize && y <= u32::MAX as usize {
            BoardPos(x as u32, y as u32)
        } else {
            BoardPos(u32::MAX, u32::MAX)
        }
    }
}

} // verus!

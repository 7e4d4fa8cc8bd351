//! A connection's life in a room: it is let in, it registers, it sends
//! commands, it leaves.

use vstd::prelude::*;
use vstd::string::*;
use crate::command::{command_of, parse_command, Command, Parsed};
use crate::game::{Move, MoveType};
use crate::message::{
    logoff, logoff_text, players_message, players_text, regack, regack_text, Frame, FrameView,
};
use crate::outside::{clean_html, sanitized};
use crate::players::{next_number, place_of, rows_of, Conn, Player, PlayerMap};
use crate::room::{effects_view, pos_of, Effect, EffectView, MetaMove, Req, ReqData, RoomConf};
use crate::board::BoardPos;
use crate::text::push_slice;

verus! {

/// A frame as it came from a client.
#[derive(Debug)]
pub enum Incoming {
    Text(Vec<u8>),
    /// Any frame that is no text.
    Other,
}

/// What a frame leads to.
#[derive(Debug)]
pub struct Outcome {
    /// The connection is to be closed.
    pub close: bool,
    pub effects: Vec<Effect>,
}

/// `b` is white space: a space, a tab, a line feed, a vertical tab, a form
/// feed or a carriage return.
pub open spec fn blank_byte(b: u8) -> bool {
    b == 0x20 || (0x09 <= b <= 0x0d)
}

/// `s` is empty or nothing but white space.
pub open spec fn blank(s: Seq<u8>) -> bool {
    forall|i: int| 0 <= i < s.len() ==> blank_byte(#[trigger] s[i])
}

/// The name that a player goes by, given the name after sanitising: `anon`
/// for a name that is empty or nothing but white space.
pub open spec fn name_or_anon(cleaned: Seq<u8>) -> Seq<u8> {
    if blank(cleaned) {
        "anon".spec_bytes()
    } else {
        cleaned
    }
}

/// The name that a player goes by, given the name that was sent, if one
/// was sent.
pub open spec fn shown_name(sent: Option<Seq<u8>>) -> Seq<u8> {
    match sent {
        Some(n) => name_or_anon(sanitized(n)),
        None => "anon".spec_bytes(),
    }
}

/// What a registration leads to, in order: the answer to the new player,
/// the list of players to everybody, a request for every cursor, and a
/// request for the state of the game.
pub open spec fn welcome(room: &RoomConf, name: Seq<u8>, uid: usize, now: Seq<Player>) -> Seq<
    EffectView,
> {
    seq![
        EffectView::Reply(FrameView::Text(regack_text(room.name@, name, uid, room.board_conf))),
        EffectView::Broadcast(FrameView::Text(players_text(rows_of(now)))),
        EffectView::ToCursors(Req { id: uid, data: ReqData::StateDump }),
        EffectView::ToGame(MetaMove::StateDump),
    ]
}

/// What a command of a registered player leads to.
pub open spec fn forwarded(c: Parsed, uid: usize, addr: u64) -> Seq<EffectView> {
    match c {
        Parsed::Pos(x, y) => seq![
            EffectView::ToCursors(Req { id: uid, data: ReqData::Pos((x as usize, y as usize)) }),
        ],
        Parsed::Reveal(x, y) => seq![
            EffectView::ToGame(
                MetaMove::Move(Move { t: MoveType::Reveal, pos: pos_of(x, y) }, addr),
            ),
        ],
        Parsed::Flag(x, y) => seq![
            EffectView::ToGame(
                MetaMove::Move(Move { t: MoveType::ToggleFlag, pos: pos_of(x, y) }, addr),
            ),
        ],
        Parsed::Reset => seq![EffectView::ToGame(MetaMove::Reset)],
        _ => Seq::empty(),
    }
}

/// What the leaving of a player leads to: the keeper of the cursors hears
/// of it, and so does everybody who is left.
pub open spec fn farewell(uid: usize) -> Seq<EffectView> {
    seq![
        EffectView::ToCursors(Req { id: uid, data: ReqData::Quit }),
        EffectView::Broadcast(FrameView::Text(logoff_text(uid))),
    ]
}

/// Whether a room with these players has room for one more.
pub fn admits(players: &PlayerMap, cap: usize) -> (r: bool)
    ensures
        r == (players.entries().len() < cap),
{
    players.len() < cap
}

/// The name that a player goes by, given the name after sanitising.
pub fn display_name(cleaned: Vec<u8>) -> (r: Vec<u8>)
    ensures
        r@ == name_or_anon(cleaned@),
{
    let mut i: usize = 0;
    while i < cleaned.len()
        invariant
            0 <= i <= cleaned.len(),
            forall|k: int| 0 <= k < i ==> blank_byte(#[trigger] cleaned@[k]),
        decreases cleaned.len() - i,
    {
        let b = cleaned[i];
        if !(b == 0x20 || (0x09 <= b && b <= 0x0d)) {
            return cleaned;
        }
        i = i + 1;
    }
    let mut anon: Vec<u8> = Vec::new();
    push_slice(&mut anon, "anon".as_bytes());
    assert(anon@ =~= "anon".spec_bytes());
    anon
}

/// Registers the connection under the name and the colour, and says what
/// follows from it.
pub fn register(
    players: &mut PlayerMap,
    conn: Conn,
    name: Vec<u8>,
    clr: Vec<u8>,
    room: &RoomConf,
) -> (effects: Vec<Effect>)
    requires
        old(players).wf(),
    ensures
        final(players).wf(),
        final(players).next_uid() == next_number(old(players).next_uid()),
        final(players).has(conn.addr),
        final(players).player(conn.addr).uid == old(players).next_uid(),
        final(players).player(conn.addr).name@ == name@,
        final(players).player(conn.addr).clr@ == clr@,
        final(players).entries() == (if old(players).has(conn.addr) {
            old(players).entries().update(
                place_of(old(players).entries(), conn.addr),
                final(players).player(conn.addr),
            )
        } else {
            old(players).entries().push(final(players).player(conn.addr))
        }),
        effects_view(effects@) == welcome(
            room,
            name@,
            old(players).next_uid(),
            final(players).entries(),
        ),
{
    let ack_name = crate::text::copy_bytes(&name);
    let uid = players.insert_conn(conn, name, clr);
    let ack = regack(&room.name, &ack_name, uid, &room.board_conf);
    let list = players_message(&players.rows());
    let mut effects: Vec<Effect> = Vec::new();
    effects.push(Effect::Reply(Frame::Text(ack)));
    effects.push(Effect::Broadcast(Frame::Text(list)));
    effects.push(Effect::ToCursors(Req { id: uid, data: ReqData::StateDump }));
    effects.push(Effect::ToGame(MetaMove::StateDump));
    proof {
        assert(effects_view(effects@) =~= welcome(room, ack_name@, uid, players.entries()));
    }
    effects
}

/// Takes the connection out of the room and says what follows from it:
/// nothing, if it had not registered.
pub fn leave(players: &mut PlayerMap, conn: Conn) -> (effects: Vec<Effect>)
    requires
        old(players).wf(),
    ensures
        final(players).wf(),
        final(players).next_uid() == old(players).next_uid(),
        !final(players).has(conn.addr),
        old(players).has(conn.addr) ==> final(players).entries() == old(players).entries().remove(
            place_of(old(players).entries(), conn.addr),
        ) && effects_view(effects@) == farewell(old(players).player(conn.addr).uid),
        !old(players).has(conn.addr) ==> final(players).entries() == old(players).entries()
            && effects@.len() == 0,
{
    let mut effects: Vec<Effect> = Vec::new();
    match players.remove(conn.addr) {
        Some(p) => {
            effects.push(Effect::ToCursors(Req { id: p.uid, data: ReqData::Quit }));
            effects.push(Effect::Broadcast(Frame::Text(logoff(p.uid))));
            proof {
                assert(effects_view(effects@) =~= farewell(p.uid));
            }
        },
        None => {},
    }
    effects
}

/// What a command of the registered player `uid` leads to.
pub fn forward(c: &Command, uid: usize, addr: u64) -> (effects: Vec<Effect>)
    ensures
        effects_view(effects@) == forwarded(c@, uid, addr),
{
    let mut effects: Vec<Effect> = Vec::new();
    match c {
        Command::Pos(x, y) => {
            effects.push(Effect::ToCursors(Req { id: uid, data: ReqData::Pos((*x, *y)) }));
        },
        Command::Reveal(x, y) => {
            effects.push(
                Effect::ToGame(
                    MetaMove::Move(
                        Move { t: MoveType::Reveal, pos: BoardPos::from_coords(*x, *y) },
                        addr,
                    ),
                ),
            );
        },
        Command::Flag(x, y) => {
            effects.push(
                Effect::ToGame(
                    MetaMove::Move(
                        Move { t: MoveType::ToggleFlag, pos: BoardPos::from_coords(*x, *y) },
                        addr,
                    ),
                ),
            );
        },
        Command::Reset => {
            effects.push(Effect::ToGame(MetaMove::Reset));
        },
        _ => {},
    }
    proof {
        assert(effects_view(effects@) =~= forwarded(c@, uid, addr));
    }
    effects
}

/// The room's players are as they were.
pub open spec fn unchanged(now: &PlayerMap, before: &PlayerMap) -> bool {
    now.entries() == before.entries() && now.next_uid() == before.next_uid()
}

/// Handles one frame of a connection. A frame that is no text, or longer
/// than `max_in` bytes, closes the connection. A heartbeat is passed over.
/// A player's commands go on to the game or to the keeper of the cursors.
/// A connection that has not registered can only register; anything else
/// from it is passed over, as is a registration from a player.
pub fn on_frame(
    players: &mut PlayerMap,
    conn: Conn,
    frame: &Incoming,
    max_in: usize,
    room: &RoomConf,
) -> (out: Outcome)
    requires
        old(players).wf(),
    ensures
        final(players).wf(),
        match *frame {
            Incoming::Other => out.close && out.effects@.len() == 0 && unchanged(
                final(players),
                old(players),
            ),
            Incoming::Text(text) => if text@.len() > max_in {
                out.close && out.effects@.len() == 0 && unchanged(final(players), old(players))
            } else if old(players).has(conn.addr) {
                !out.close && unchanged(final(players), old(players)) && effects_view(
                    out.effects@,
                ) == forwarded(command_of(text@), old(players).player(conn.addr).uid, conn.addr)
            } else {
                match command_of(text@) {
                    Parsed::Register { name, color } => !out.close && final(players).has(
                        conn.addr,
                    ) && final(players).player(conn.addr).uid == old(players).next_uid()
                        && final(players).player(conn.addr).name@ == shown_name(name)
                        && final(players).player(conn.addr).clr@ == color
                        && final(players).entries() == old(players).entries().push(
                        final(players).player(conn.addr),
                    ) && final(players).next_uid() == next_number(old(players).next_uid())
                        && effects_view(out.effects@) == welcome(
                        room,
                        shown_name(name),
                        old(players).next_uid(),
                        final(players).entries(),
                    ),
                    _ => !out.close && out.effects@.len() == 0 && unchanged(
                        final(players),
                        old(players),
                    ),
                }
            },
        },
{
    match frame {
        Incoming::Other => Outcome { close: true, effects: Vec::new() },
        Incoming::Text(text) => {
            if text.len() > max_in {
                return Outcome { close: true, effects: Vec::new() };
            }
            let c = parse_command(text);
            match players.uid_of(conn.addr) {
                Some(uid) => Outcome { close: false, effects: forward(&c, uid, conn.addr) },
                None => match c {
                    Command::Register { name, color } => {
                        let shown = match name {
                            Some(n) => display_name(clean_html(&n)),
                            None => {
                                let mut anon: Vec<u8> = Vec::new();
                                push_slice(&mut anon, "anon".as_bytes());
                                assert(anon@ =~= "anon".spec_bytes());
                                anon
                            },
                        };
                        Outcome { close: false, effects: register(players, conn, shown, color, room) }
                    },
                    _ => Outcome { close: false, effects: Vec::new() },
                },
            }
        },
    }
}

} // verus!

//! What the server says: the texts of its frames.

use vstd::prelude::*;
use vstd::string::*;
use crate::board::BoardConf;
use crate::outside::{cursors_json, players_json, players_listing, positions_json, rows_view};
use crate::text::{digits, push_all, push_decimal, push_slice, replace_spaces, respaced};

verus! {

/// A frame on its way to a client.
#[derive(Debug)]
pub enum Frame {
    Text(Vec<u8>),
    Binary(Vec<u8>),
}

/// A frame, in the terms of contracts.
pub enum FrameView {
    Text(Seq<u8>),
    Binary(Seq<u8>),
}

impl View for Frame {
    type V = FrameView;

    open spec fn view(&self) -> FrameView {
        match *self {
            Frame::Text(t) => FrameView::Text(t@),
            Frame::Binary(b) => FrameView::Binary(b@),
        }
    }
}

/// `true` or `false`.
pub open spec fn truth(b: bool) -> Seq<u8> {
    if b {
        "true".spec_bytes()
    } else {
        "false".spec_bytes()
    }
}

/// The configuration of a board as the clients get it.
pub open spec fn conf_json(c: BoardConf) -> Seq<u8> {
    "{\"w\":".spec_bytes() + digits(c.w as nat) + ",\"h\":".spec_bytes() + digits(c.h as nat)
        + ",\"mine_ratio\":[".spec_bytes() + digits(c.mine_ratio.0 as nat) + ",".spec_bytes()
        + digits(c.mine_ratio.1 as nat) + "],\"always_safe_first_move\":".spec_bytes() + truth(
        c.always_safe_first_move,
    ) + ",\"revealed_borders\":".spec_bytes() + truth(c.revealed_borders)
        + ",\"reveal_on_lose\":".spec_bytes() + truth(c.reveal_on_lose) + "}".spec_bytes()
}

/// The answer to a registration: the room's and the player's name, each
/// with `&nbsp;` for its spaces, the player's number and the board's
/// configuration.
pub open spec fn regack_text(room: Seq<u8>, name: Seq<u8>, uid: usize, conf: BoardConf) -> Seq<u8> {
    "regack ".spec_bytes() + respaced(room, "&nbsp;".spec_bytes()) + " ".spec_bytes() + respaced(
        name,
        "&nbsp;".spec_bytes(),
    ) + " ".spec_bytes() + digits(uid as nat) + " ".spec_bytes() + conf_json(conf)
}

/// The news that a player has left.
pub open spec fn logoff_text(uid: usize) -> Seq<u8> {
    "logoff ".spec_bytes() + digits(uid as nat)
}

/// The cursors that have moved.
pub open spec fn pos_text(list: Seq<(usize, (usize, usize))>) -> Seq<u8> {
    "pos ".spec_bytes() + positions_json(list)
}

/// The list of the players of a room.
pub open spec fn players_text(rows: Seq<(usize, Seq<u8>, Seq<u8>)>) -> Seq<u8> {
    "players ".spec_bytes() + players_listing(rows)
}

/// The name under which a game's last move is announced: the player's, with
/// `&nbsp` for its spaces, or `unknown&nbspplayer`.
pub open spec fn announced(name: Option<Seq<u8>>) -> Seq<u8> {
    respaced(
        match name {
            Some(n) => n,
            None => "unknown player".spec_bytes(),
        },
        "&nbsp".spec_bytes(),
    )
}

/// The news that a game is won or lost, and by whose move.
pub open spec fn end_text(won: bool, name: Option<Seq<u8>>) -> Seq<u8> {
    (if won {
        "win ".spec_bytes()
    } else {
        "lose ".spec_bytes()
    }) + announced(name)
}

/// Appends `true` or `false`.
fn push_truth(out: &mut Vec<u8>, b: bool)
    ensures
        final(out)@ == old(out)@ + truth(b),
{
    if b {
        push_slice(out, "true".as_bytes());
    } else {
        push_slice(out, "false".as_bytes());
    }
}

impl BoardConf {
    /// The configuration in JSON, as the clients get it.
    pub fn to_json(&self) -> (r: Vec<u8>)
        ensures
            r@ == conf_json(*self),
    {
        let mut out: Vec<u8> = Vec::new();
        push_slice(&mut out, "{\"w\":".as_bytes());
        push_decimal(&mut out, self.w);
        push_slice(&mut out, ",\"h\":".as_bytes());
        push_decimal(&mut out, self.h);
        push_slice(&mut out, ",\"mine_ratio\":[".as_bytes());
        push_decimal(&mut out, self.mine_ratio.0);
        push_slice(&mut out, ",".as_bytes());
        push_decimal(&mut out, self.mine_ratio.1);
        push_slice(&mut out, "],\"always_safe_first_move\":".as_bytes());
        push_truth(&mut out, self.always_safe_first_move);
        push_slice(&mut out, ",\"revealed_borders\":".as_bytes());
        push_truth(&mut out, self.revealed_borders);
        push_slice(&mut out, ",\"reveal_on_lose\":".as_bytes());
        push_truth(&mut out, self.reveal_on_lose);
        push_slice(&mut out, "}".as_bytes());
        proof {
            assert(out@ =~= conf_json(*self));
        }
        out
    }
}

/// The text of the answer to a registration.
pub fn regack(room: &Vec<u8>, name: &Vec<u8>, uid: usize, conf: &BoardConf) -> (r: Vec<u8>)
    ensures
        r@ == regack_text(room@, name@, uid, *conf),
{
    let mut nbsp: Vec<u8> = Vec::new();
    push_slice(&mut nbsp, "&nbsp;".as_bytes());
    assert(nbsp@ =~= "&nbsp;".spec_bytes());
    let mut out: Vec<u8> = Vec::new();
    push_slice(&mut out, "regack ".as_bytes());
    push_all(&mut out, &replace_spaces(room, &nbsp));
    push_slice(&mut out, " ".as_bytes());
    push_all(&mut out, &replace_spaces(name, &nbsp));
    push_slice(&mut out, " ".as_bytes());
    push_decimal(&mut out, uid);
    push_slice(&mut out, " ".as_bytes());
    push_all(&mut out, &conf.to_json());
    proof {
        assert(out@ =~= regack_text(room@, name@, uid, *conf));
    }
    out
}

/// The text of the news that a player has left.
pub fn logoff(uid: usize) -> (r: Vec<u8>)
    ensures
        r@ == logoff_text(uid),
{
    let mut out: Vec<u8> = Vec::new();
    push_slice(&mut out, "logoff ".as_bytes());
    push_decimal(&mut out, uid);
    proof {
        assert(out@ =~= logoff_text(uid));
    }
    out
}

/// The text that tells where cursors are.
pub fn pos_message(list: &Vec<(usize, (usize, usize))>) -> (r: Vec<u8>)
    ensures
        r@ == pos_text(list@),
{
    let mut out: Vec<u8> = Vec::new();
    push_slice(&mut out, "pos ".as_bytes());
    push_all(&mut out, &cursors_json(list));
    proof {
        assert(out@ =~= pos_text(list@));
    }
    out
}

/// The text that lists the players of a room.
pub fn players_message(rows: &Vec<(usize, Vec<u8>, Vec<u8>)>) -> (r: Vec<u8>)
    ensures
        r@ == players_text(rows_view(rows@)),
{
    let mut out: Vec<u8> = Vec::new();
    push_slice(&mut out, "players ".as_bytes());
    push_all(&mut out, &players_json(rows));
    proof {
        assert(out@ =~= players_text(rows_view(rows@)));
    }
    out
}

/// The text that tells how a game ended.
pub fn end_message(won: bool, name: &Option<Vec<u8>>) -> (r: Vec<u8>)
    ensures
        r@ == end_text(
            won,
            match *name {
                Some(n) => Some(n@),
                None => None,
            },
        ),
{
    let mut nbsp: Vec<u8> = Vec::new();
    push_slice(&mut nbsp, "&nbsp".as_bytes());
    assert(nbsp@ =~= "&nbsp".spec_bytes());
    let mut out: Vec<u8> = Vec::new();
    if won {
        push_slice(&mut out, "win ".as_bytes());
    } else {
        push_slice(&mut out, "lose ".as_bytes());
    }
    match name {
        Some(n) => {
            push_all(&mut out, &replace_spaces(n, &nbsp));
        },
        None => {
            let mut unknown: Vec<u8> = Vec::new();
            push_slice(&mut unknown, "unknown player".as_bytes());
            assert(unknown@ =~= "unknown player".spec_bytes());
            push_all(&mut out, &replace_spaces(&unknown, &nbsp));
        },
    }
    proof {
        assert(out@ =~= end_text(
            won,
            match *name {
                Some(n) => Some(n@),
                None => None,
            },
        ));
    }
    out
}

} // verus!

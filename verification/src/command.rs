//! What a client may say: one command per text frame, its fields parted by
//! single spaces.

use vstd::prelude::*;
use vstd::string::*;
use crate::text::{
    fields, is_word, join_fields, joined, kept, number,
    parse_number, split_fields, views,
};

verus! {

/// A command as a client sent it.
#[derive(Debug)]
pub enum Command {
    /// `<3`: the client is alive.
    Heartbeat,
    /// `pos x y`: the client's cursor.
    Pos(usize, usize),
    /// `reveal x y`.
    Reveal(usize, usize),
    /// `flag x y`.
    Flag(usize, usize),
    /// `reset`.
    Reset,
    /// `register [name ...] colour`: the name as it was sent, if one was
    /// sent, and the colour, cleared of everything but hexadecimal digits
    /// and `#`.
    Register { name: Option<Vec<u8>>, color: Vec<u8> },
    /// Anything else, and a command whose arguments make no sense.
    Ignored,
}

/// A command, in the terms of contracts.
pub enum Parsed {
    Heartbeat,
    Pos(nat, nat),
    Reveal(nat, nat),
    Flag(nat, nat),
    Reset,
    Register { name: Option<Seq<u8>>, color: Seq<u8> },
    Ignored,
}

impl View for Command {
    type V = Parsed;

    open spec fn view(&self) -> Parsed {
        match *self {
            Command::Heartbeat => Parsed::Heartbeat,
            Command::Pos(x, y) => Parsed::Pos(x as nat, y as nat),
            Command::Reveal(x, y) => Parsed::Reveal(x as nat, y as nat),
            Command::Flag(x, y) => Parsed::Flag(x as nat, y as nat),
            Command::Reset => Parsed::Reset,
            Command::Register { name, color } => Parsed::Register {
                name: match name {
                    Some(n) => Some(n@),
                    None => None,
                },
                color: color@,
            },
            Command::Ignored => Parsed::Ignored,
        }
    }
}

/// `b` may stand in a colour: a hexadecimal digit or `#`.
pub open spec fn colour_byte(b: u8) -> bool {
    ||| 0x30 <= b <= 0x39
    ||| 0x41 <= b <= 0x46
    ||| 0x61 <= b <= 0x66
    ||| b == 0x23
}

/// The test for a byte of a colour, as a value.
pub open spec fn colour_p() -> spec_fn(u8) -> bool {
    |b: u8| colour_byte(b)
}

/// The two numbers in the second and third field, if both are there and
/// are numbers.
pub open spec fn two_numbers(ts: Seq<Seq<u8>>) -> Option<(nat, nat)> {
    if ts.len() >= 3 && number(ts[1]).is_some() && number(ts[2]).is_some() {
        Some((number(ts[1]).unwrap(), number(ts[2]).unwrap()))
    } else {
        None
    }
}

/// The command that the text `s` is.
pub open spec fn command_of(s: Seq<u8>) -> Parsed {
    let ts = fields(s);
    let verb = ts[0];
    if verb == "<3".spec_bytes() {
        Parsed::Heartbeat
    } else if verb == "pos".spec_bytes() {
        match two_numbers(ts) {
            Some((x, y)) => Parsed::Pos(x, y),
            None => Parsed::Ignored,
        }
    } else if verb == "reveal".spec_bytes() {
        match two_numbers(ts) {
            Some((x, y)) => Parsed::Reveal(x, y),
            None => Parsed::Ignored,
        }
    } else if verb == "flag".spec_bytes() {
        match two_numbers(ts) {
            Some((x, y)) => Parsed::Flag(x, y),
            None => Parsed::Ignored,
        }
    } else if verb == "reset".spec_bytes() {
        Parsed::Reset
    } else if verb == "register".spec_bytes() && ts.len() >= 2 {
        Parsed::Register {
            name: if ts.len() >= 3 {
                Some(joined(ts.subrange(1, ts.len() - 1)))
            } else {
                None
            },
            color: kept(ts.last(), colour_p()),
        }
    } else {
        Parsed::Ignored
    }
}

/// The bytes of `s` that may stand in a colour.
pub fn colour_of(s: &Vec<u8>) -> (r: Vec<u8>)
    ensures
        r@ == kept(s@, colour_p()),
{
    let mut out: Vec<u8> = Vec::new();
    let mut i: usize = 0;
    proof {
        assert(s@.take(0) =~= Seq::<u8>::empty());
    }
    while i < s.len()
        invariant
            0 <= i <= s.len(),
            out@ == kept(s@.take(i as int), colour_p()),
        decreases s.len() - i,
    {
        let b = s[i];
        proof {
            let upto = s@.take(i + 1);
            assert(upto.drop_last() =~= s@.take(i as int));
            assert(upto.last() == b);
        }
        if (0x30 <= b && b <= 0x39) || (0x41 <= b && b <= 0x46) || (0x61 <= b && b <= 0x66) || b
            == 0x23 {
            out.push(b);
        }
        i = i + 1;
    }
    proof {
        assert(s@.take(s.len() as int) =~= s@);
    }
    out
}

/// The two numbers after the verb.
fn two_of(ts: &Vec<Vec<u8>>) -> (r: Option<(usize, usize)>)
    ensures
        match r {
            Some((x, y)) => two_numbers(views(ts@)) == Some((x as nat, y as nat)),
            None => two_numbers(views(ts@)).is_none(),
        },
{
    if ts.len() < 3 {
        return None;
    }
    proof {
        assert(views(ts@)[1] == ts@[1]@);
        assert(views(ts@)[2] == ts@[2]@);
    }
    match parse_number(&ts[1]) {
        Some(x) => match parse_number(&ts[2]) {
            Some(y) => Some((x, y)),
            None => None,
        },
        None => None,
    }
}

/// Reads a text frame as a command.
pub fn parse_command(frame: &Vec<u8>) -> (c: Command)
    ensures
        c@ == command_of(frame@),
{
    let ts = split_fields(frame);
    proof {
        assert(views(ts@)[0] == ts@[0]@);
        assert(views(ts@).last() == ts@[ts.len() - 1]@);
    }
    let verb = &ts[0];
    if is_word(verb, "<3".as_bytes()) {
        Command::Heartbeat
    } else if is_word(verb, "pos".as_bytes()) {
        match two_of(&ts) {
            Some((x, y)) => Command::Pos(x, y),
            None => Command::Ignored,
        }
    } else if is_word(verb, "reveal".as_bytes()) {
        match two_of(&ts) {
            Some((x, y)) => Command::Reveal(x, y),
            None => Command::Ignored,
        }
    } else if is_word(verb, "flag".as_bytes()) {
        match two_of(&ts) {
            Some((x, y)) => Command::Flag(x, y),
            None => Command::Ignored,
        }
    } else if is_word(verb, "reset".as_bytes()) {
        Command::Reset
    } else if is_word(verb, "register".as_bytes()) && ts.len() >= 2 {
        let color = colour_of(&ts[ts.len() - 1]);
        let name = if ts.len() >= 3 {
            Some(join_fields(&ts, 1, ts.len() - 1))
        } else {
            None
        };
        Command::Register { name, color }
    } else {
        Command::Ignored
    }
}

} // verus!

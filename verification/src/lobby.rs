//! Making rooms: their names, what a form must hold to make one, and the
//! accounting of the places that the server has for rooms.

use vstd::prelude::*;
use vstd::string::*;
use crate::board::BoardConf;
use crate::outside::{alphanumeric, random_letter};
use crate::room::RoomConf;
use crate::text::{copy_bytes, is_word, number, parse_number, same_bytes};

verus! {

/// How often a name is drawn for a room before the attempt is given up.
pub const NAME_DRAWS: u32 = 32;

/// The length of the name of a room.
pub const NAME_LEN: usize = 16;

/// The name under which a room is found: sixteen letters and digits.
#[derive(Debug)]
pub struct RoomId(pub Vec<u8>);

/// Why no room was made.
#[derive(PartialEq, Eq, Structural, Clone, Copy, Debug)]
pub enum FormError {
    /// A field of the form is missing or makes no sense.
    BadFormData,
    /// The board has more tiles than the server allows, or more than a
    /// board can have.
    BoardTooBig,
    /// Every place for a room is taken by a room with players.
    NoRoomSlots,
}

/// The fields of a form, each with its name and its value.
pub open spec fn form_view(form: Seq<(Vec<u8>, Vec<u8>)>) -> Seq<(Seq<u8>, Seq<u8>)> {
    form.map_values(|f: (Vec<u8>, Vec<u8>)| (f.0@, f.1@))
}

/// The value of the first field named `key`.
pub open spec fn lookup(form: Seq<(Seq<u8>, Seq<u8>)>, key: Seq<u8>) -> Option<Seq<u8>>
    decreases form.len(),
{
    if form.len() == 0 {
        None
    } else if form[0].0 == key {
        Some(form[0].1)
    } else {
        lookup(form.skip(1), key)
    }
}

/// The positive number that a field holds.
pub open spec fn positive(v: Option<Seq<u8>>) -> Option<nat> {
    match v {
        Some(s) => match number(s) {
            Some(n) => if n >= 1 {
                Some(n)
            } else {
                None
            },
            None => None,
        },
        None => None,
    }
}

/// The number that a field holds.
pub open spec fn natural(v: Option<Seq<u8>>) -> Option<nat> {
    match v {
        Some(s) => number(s),
        None => None,
    }
}

/// The box of the field is ticked.
pub open spec fn ticked(v: Option<Seq<u8>>) -> bool {
    v == Some("on".spec_bytes())
}

/// The numbers of a form, if it holds them all: width, height, numerator
/// and denominator of the ratio of mines, and the number of players.
pub open spec fn form_numbers(form: Seq<(Seq<u8>, Seq<u8>)>) -> Option<(nat, nat, nat, nat, nat)> {
    let w = positive(lookup(form, "bwidth".spec_bytes()));
    let h = positive(lookup(form, "bheight".spec_bytes()));
    let n = natural(lookup(form, "mineratio-n".spec_bytes()));
    let d = positive(lookup(form, "mineratio-d".spec_bytes()));
    let cap = positive(lookup(form, "limit".spec_bytes()));
    if w.is_some() && h.is_some() && n.is_some() && d.is_some() && cap.is_some() {
        Some((w.unwrap(), h.unwrap(), n.unwrap(), d.unwrap(), cap.unwrap()))
    } else {
        None
    }
}

/// A board of this width and height is within what the server allows and
/// what a board can be.
pub open spec fn board_fits(w: nat, h: nat, area: usize) -> bool {
    w <= u32::MAX && h <= u32::MAX && w * h <= area
}

/// What a form leads to: the configuration of a room, or the reason why
/// there is none. The room goes by the name in the form, or by `id` if
/// that name is empty.
pub open spec fn form_result(form: Seq<(Seq<u8>, Seq<u8>)>, id: Seq<u8>, area: usize) -> Result<
    (Seq<u8>, nat, bool, BoardConf),
    FormError,
> {
    match form_numbers(form) {
        None => Err(FormError::BadFormData),
        Some((w, h, n, d, cap)) => if !board_fits(w, h, area) {
            Err(FormError::BoardTooBig)
        } else {
            match lookup(form, "rname".spec_bytes()) {
                None => Err(FormError::BadFormData),
                Some(name) => Ok(
                    (
                        if name.len() == 0 {
                            id
                        } else {
                            name
                        },
                        cap,
                        ticked(lookup(form, "public".spec_bytes())),
                        BoardConf {
                            w: w as usize,
                            h: h as usize,
                            mine_ratio: (n as usize, d as usize),
                            always_safe_first_move: ticked(
                                lookup(form, "allsafe1move".spec_bytes()),
                            ),
                            revealed_borders: ticked(lookup(form, "rborders".spec_bytes())),
                            reveal_on_lose: ticked(lookup(form, "revealonlose".spec_bytes())),
                            num_tile_reveal: false,
                        },
                    ),
                ),
            }
        },
    }
}

/// The value of the first field named `key`.
pub fn field<'a>(form: &'a Vec<(Vec<u8>, Vec<u8>)>, key: &[u8]) -> (r: Option<&'a Vec<u8>>)
    ensures
        match r {
            Some(v) => lookup(form_view(form@), key@) == Some(v@),
            None => lookup(form_view(form@), key@).is_none(),
        },
{
    let mut i: usize = 0;
    let ghost all = form_view(form@);
    proof {
        assert(all.skip(0) =~= all);
    }
    while i < form.len()
        invariant
            0 <= i <= form.len(),
            all == form_view(form@),
            lookup(all, key@) == lookup(all.skip(i as int), key@),
        decreases form.len() - i,
    {
        proof {
            assert(all.skip(i as int)[0] == all[i as int]);
            assert(all.skip(i as int).skip(1) =~= all.skip(i + 1));
        }
        if is_word(&form[i].0, key) {
            return Some(&form[i].1);
        }
        i = i + 1;
    }
    None
}

/// The number that the field named `key` holds.
fn natural_field(form: &Vec<(Vec<u8>, Vec<u8>)>, key: &[u8]) -> (r: Option<usize>)
    ensures
        match r {
            Some(n) => natural(lookup(form_view(form@), key@)) == Some(n as nat),
            None => natural(lookup(form_view(form@), key@)).is_none(),
        },
{
    match field(form, key) {
        Some(v) => parse_number(v),
        None => None,
    }
}

/// The positive number that the field named `key` holds.
fn positive_field(form: &Vec<(Vec<u8>, Vec<u8>)>, key: &[u8]) -> (r: Option<usize>)
    ensures
        match r {
            Some(n) => positive(lookup(form_view(form@), key@)) == Some(n as nat),
            None => positive(lookup(form_view(form@), key@)).is_none(),
        },
{
    match natural_field(form, key) {
        Some(n) => if n >= 1 {
            Some(n)
        } else {
            None
        },
        None => None,
    }
}

/// Whether the box of the field named `key` is ticked.
fn ticked_field(form: &Vec<(Vec<u8>, Vec<u8>)>, key: &[u8]) -> (r: bool)
    ensures
        r == ticked(lookup(form_view(form@), key@)),
{
    match field(form, key) {
        Some(v) => is_word(v, "on".as_bytes()),
        None => false,
    }
}

/// The configuration of the room that a form asks for.
pub fn room_from_form(uid: &RoomId, rinfo: &Vec<(Vec<u8>, Vec<u8>)>, board_area: usize) -> (r:
    Result<RoomConf, FormError>)
    ensures
        match r {
            Ok(conf) => form_result(form_view(rinfo@), uid.0@, board_area) == Ok::<
                (Seq<u8>, nat, bool, BoardConf),
                FormError,
            >((conf.name@, conf.player_cap as nat, conf.public, conf.board_conf))
                && conf.board_conf.wf(),
            Err(e) => form_result(form_view(rinfo@), uid.0@, board_area) == Err::<
                (Seq<u8>, nat, bool, BoardConf),
                FormError,
            >(e),
        },
{
    let w = positive_field(rinfo, "bwidth".as_bytes());
    let h = positive_field(rinfo, "bheight".as_bytes());
    let n = natural_field(rinfo, "mineratio-n".as_bytes());
    let d = positive_field(rinfo, "mineratio-d".as_bytes());
    let cap = positive_field(rinfo, "limit".as_bytes());
    match (w, h, n, d, cap) {
        (Some(w), Some(h), Some(n), Some(d), Some(cap)) => {
            if w > u32::MAX as usize || h > u32::MAX as usize {
                return Err(FormError::BoardTooBig);
            }
            proof {
                assert(w * h <= 0xffff_ffff * 0xffff_ffff) by (nonlinear_arith)
                    requires
                        0 <= w <= 0xffff_ffff,
                        0 <= h <= 0xffff_ffff,
                ;
            }
            if w as u64 * h as u64 > board_area as u64 {
                return Err(FormError::BoardTooBig);
            }
            let name = match field(rinfo, "rname".as_bytes()) {
                Some(v) => if v.len() == 0 {
                    copy_bytes(&uid.0)
                } else {
                    copy_bytes(v)
                },
                None => {
                    return Err(FormError::BadFormData);
                },
            };
            let board_conf = BoardConf {
                w,
                h,
                mine_ratio: (n, d),
                always_safe_first_move: ticked_field(rinfo, "allsafe1move".as_bytes()),
                revealed_borders: ticked_field(rinfo, "rborders".as_bytes()),
                reveal_on_lose: ticked_field(rinfo, "revealonlose".as_bytes()),
                num_tile_reveal: false,
            };
            Ok(
                RoomConf {
                    name,
                    player_cap: cap,
                    public: ticked_field(rinfo, "public".as_bytes()),
                    board_conf,
                },
            )
        },
        _ => Err(FormError::BadFormData),
    }
}

/// What to do about a place for a new room: nothing, if the server has a
/// place left; throw out the first room without players, if it has none;
/// and give up if every room has players.
pub fn plan_slot(room_slots: usize, room_count: usize, empty_count: usize) -> (r: Result<
    bool,
    FormError,
>)
    ensures
        r == (if room_count < room_slots {
            Ok::<bool, FormError>(false)
        } else if empty_count > 0 {
            Ok::<bool, FormError>(true)
        } else {
            Err::<bool, FormError>(FormError::NoRoomSlots)
        }),
{
    if room_count < room_slots {
        Ok(false)
    } else if empty_count > 0 {
        Ok(true)
    } else {
        Err(FormError::NoRoomSlots)
    }
}

/// How many rooms can still be made: the places that are left, and the
/// places of the rooms without players.
pub open spec fn space_left(room_slots: usize, room_count: usize, empty_count: usize) -> nat {
    let free = if room_slots >= room_count {
        room_slots - room_count
    } else {
        0
    };
    if free + empty_count > usize::MAX {
        usize::MAX as nat
    } else {
        (free + empty_count) as nat
    }
}

/// How many rooms can still be made.
pub fn free_slots(room_slots: usize, room_count: usize, empty_count: usize) -> (r: usize)
    ensures
        r == space_left(room_slots, room_count, empty_count),
{
    let free: usize = if room_slots >= room_count {
        room_slots - room_count
    } else {
        0
    };
    if free > usize::MAX - empty_count {
        usize::MAX
    } else {
        free + empty_count
    }
}

/// The names, in order, of the rooms without players, among rooms given
/// with the number of their players.
pub open spec fn empties(rooms: Seq<(RoomId, usize)>) -> Seq<Seq<u8>>
    decreases rooms.len(),
{
    if rooms.len() == 0 {
        Seq::empty()
    } else if rooms.last().1 == 0 {
        empties(rooms.drop_last()).push(rooms.last().0.0@)
    } else {
        empties(rooms.drop_last())
    }
}

/// The names of a list of rooms.
pub open spec fn names(ids: Seq<RoomId>) -> Seq<Seq<u8>> {
    ids.map_values(|r: RoomId| r.0@)
}

/// The rooms without players.
pub fn empty_rooms(rooms: &Vec<(RoomId, usize)>) -> (r: Vec<RoomId>)
    ensures
        names(r@) == empties(rooms@),
{
    let mut out: Vec<RoomId> = Vec::new();
    let mut i: usize = 0;
    proof {
        assert(rooms@.take(0) =~= Seq::<(RoomId, usize)>::empty());
        assert(names(out@) =~= empties(rooms@.take(0)));
    }
    while i < rooms.len()
        invariant
            0 <= i <= rooms.len(),
            names(out@) == empties(rooms@.take(i as int)),
        decreases rooms.len() - i,
    {
        proof {
            let upto = rooms@.take(i + 1);
            assert(upto.drop_last() =~= rooms@.take(i as int));
            assert(upto.last() == rooms@[i as int]);
        }
        if rooms[i].1 == 0 {
            let ghost before = out@;
            out.push(RoomId(copy_bytes(&rooms[i].0.0)));
            proof {
                assert(names(out@) =~= names(before).push(rooms@[i as int].0.0@));
            }
        }
        i = i + 1;
    }
    proof {
        assert(rooms@.take(i as int) =~= rooms@);
    }
    out
}

impl RoomId {
    /// The name is made of sixteen letters and digits.
    pub open spec fn wf(&self) -> bool {
        self.0@.len() == NAME_LEN && forall|i: int|
            0 <= i < self.0@.len() ==> alphanumeric(#[trigger] self.0@[i])
    }

    /// Sixteen letters and digits, each drawn at random.
    pub fn draw_name() -> (name: Vec<u8>)
        ensures
            name@.len() == NAME_LEN,
            forall|i: int| 0 <= i < name@.len() ==> alphanumeric(#[trigger] name@[i]),
    {
        let mut name: Vec<u8> = Vec::new();
        while name.len() < NAME_LEN
            invariant
                name@.len() <= NAME_LEN,
                forall|i: int| 0 <= i < name@.len() ==> alphanumeric(#[trigger] name@[i]),
            decreases NAME_LEN - name@.len(),
        {
            name.push(random_letter());
        }
        name
    }

    /// A room of `existing` goes by the name `name`.
    pub open spec fn taken(existing: Seq<RoomId>, name: Seq<u8>) -> bool {
        exists|i: int| 0 <= i < existing.len() && (#[trigger] existing[i]).0@ == name
    }

    /// Whether a room of `existing` goes by the name `name`.
    pub fn is_taken(existing: &Vec<RoomId>, name: &Vec<u8>) -> (r: bool)
        ensures
            r == Self::taken(existing@, name@),
    {
        let mut i: usize = 0;
        while i < existing.len()
            invariant
                0 <= i <= existing.len(),
                forall|k: int| 0 <= k < i ==> (#[trigger] existing@[k]).0@ != name@,
            decreases existing.len() - i,
        {
            if same_bytes(&existing[i].0, name) {
                return true;
            }
            i = i + 1;
        }
        false
    }

    /// The room name `candidate`, unless a room of `existing` goes by it.
    pub fn fresh_among(candidate: Vec<u8>, existing: &Vec<RoomId>) -> (r: Option<RoomId>)
        ensures
            match r {
                Some(id) => id.0@ == candidate@ && !Self::taken(existing@, candidate@),
                None => Self::taken(existing@, candidate@),
            },
    {
        if Self::is_taken(existing, &candidate) {
            None
        } else {
            Some(RoomId(candidate))
        }
    }

    /// A name for a new room, drawn at random, that no room of `existing`
    /// goes by. A name that is taken is drawn again; after `NAME_DRAWS`
    /// draws there is no name. Where there is no room yet, no name is
    /// taken, so the first draw gives the name.
    pub fn new_among(existing: &Vec<RoomId>) -> (r: Option<RoomId>)
        ensures
            match r {
                Some(id) => id.wf() && !Self::taken(existing@, id.0@),
                None => existing@.len() > 0,
            },
    {
        let mut draws: u32 = 0;
        while draws < NAME_DRAWS
            invariant
                0 <= draws <= NAME_DRAWS,
                draws > 0 ==> existing@.len() > 0,
            decreases NAME_DRAWS - draws,
        {
            match Self::fresh_among(Self::draw_name(), existing) {
                Some(id) => {
                    return Some(id);
                },
                None => {},
            }
            draws = draws + 1;
        }
        None
    }
}

} // verus!

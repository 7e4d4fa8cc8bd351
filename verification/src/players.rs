//! The players of a room, found by the address of their connection.

use vstd::prelude::*;
use vstd::string::*;
use crate::text::{copy_bytes, push_slice, replace_spaces, respaced};

verus! {

/// A connection, known by the address of its peer. The address is a number
/// that stands for the peer as long as the connection lives.
#[derive(Clone, Copy, Debug)]
pub struct Conn {
    pub addr: u64,
}

/// A player: a connection that has registered.
#[derive(Debug)]
pub struct Player {
    pub conn: Conn,
    /// The number that the room gave the player.
    pub uid: usize,
    /// The name, sanitised.
    pub name: Vec<u8>,
    /// The colour: hexadecimal digits and `#`.
    pub clr: Vec<u8>,
}

/// The players of a room, in the order in which they came, and the number
/// that the next one gets.
#[derive(Debug)]
pub struct PlayerMap {
    inner: Vec<Player>,
    uid_counter: usize,
}

/// The place of the player with the address `addr` in `s`, or the length of
/// `s` if there is none.
pub open spec fn place_of(s: Seq<Player>, addr: u64) -> int
    decreases s.len(),
{
    if s.len() == 0 {
        0
    } else {
        let before = place_of(s.drop_last(), addr);
        if before < s.len() - 1 {
            before
        } else if s.last().conn.addr == addr {
            s.len() - 1
        } else {
            s.len() as int
        }
    }
}

/// No two players of `s` have the same address.
pub open spec fn distinct(s: Seq<Player>) -> bool {
    forall|i: int, j: int|
        0 <= i < j < s.len() ==> (#[trigger] s[i]).conn.addr != (#[trigger] s[j]).conn.addr
}

/// A player as the list of players shows it: the number, the name with
/// `&nbsp` for its spaces, the colour.
pub open spec fn row_of(p: Player) -> (usize, Seq<u8>, Seq<u8>) {
    (p.uid, respaced(p.name@, "&nbsp".spec_bytes()), p.clr@)
}

/// The rows of the list of players.
pub open spec fn rows_of(s: Seq<Player>) -> Seq<(usize, Seq<u8>, Seq<u8>)> {
    s.map_values(|p: Player| row_of(p))
}

/// The number after `n`, starting over after the largest.
pub open spec fn next_number(n: usize) -> usize {
    if n == usize::MAX {
        0
    } else {
        (n + 1) as usize
    }
}

/// What `place_of` finds: the first player with the address, if any.
pub proof fn lemma_place_of(s: Seq<Player>, addr: u64)
    ensures
        0 <= place_of(s, addr) <= s.len(),
        place_of(s, addr) < s.len() ==> s[place_of(s, addr)].conn.addr == addr,
        forall|i: int| 0 <= i < place_of(s, addr) ==> (#[trigger] s[i]).conn.addr != addr,
    decreases s.len(),
{
    if s.len() > 0 {
        lemma_place_of(s.drop_last(), addr);
        let before = place_of(s.drop_last(), addr);
        assert forall|i: int| 0 <= i < place_of(s, addr) implies (#[trigger] s[i]).conn.addr
            != addr by {
            if i < s.len() - 1 {
                assert(s.drop_last()[i] == s[i]);
            }
        }
        if before < s.len() - 1 {
            assert(s.drop_last()[before] == s[before]);
        }
    }
}

impl PlayerMap {
    /// The players, in the order in which they came.
    pub closed spec fn entries(&self) -> Seq<Player> {
        self.inner@
    }

    /// The number that the next player gets.
    pub closed spec fn next_uid(&self) -> usize {
        self.uid_counter
    }

    /// No two players have the same address.
    pub open spec fn wf(&self) -> bool {
        distinct(self.entries())
    }

    /// A player with the address is registered.
    pub open spec fn has(&self, addr: u64) -> bool {
        place_of(self.entries(), addr) < self.entries().len()
    }

    /// The player with the address.
    pub open spec fn player(&self, addr: u64) -> Player {
        self.entries()[place_of(self.entries(), addr)]
    }

    /// A room without players; the first one will get the number 0.
    pub fn new() -> (m: PlayerMap)
        ensures
            m.wf(),
            m.entries() == Seq::<Player>::empty(),
            m.next_uid() == 0,
    {
        PlayerMap { inner: Vec::new(), uid_counter: 0 }
    }

    /// The number of players.
    pub fn len(&self) -> (n: usize)
        ensures
            n == self.entries().len(),
    {
        self.inner.len()
    }

    /// The place of the player with the address, if there is one.
    pub fn find(&self, addr: u64) -> (r: Option<usize>)
        ensures
            match r {
                Some(i) => self.has(addr) && i == place_of(self.entries(), addr),
                None => !self.has(addr),
            },
    {
        let mut i: usize = 0;
        proof {
            assert(self.inner@.take(0) =~= Seq::<Player>::empty());
        }
        while i < self.inner.len()
            invariant
                0 <= i <= self.inner.len(),
                place_of(self.inner@.take(i as int), addr) == i,
            decreases self.inner.len() - i,
        {
            let ghost upto = self.inner@.take(i + 1);
            proof {
                assert(upto.drop_last() =~= self.inner@.take(i as int));
                assert(upto.last() == self.inner@[i as int]);
            }
            if self.inner[i].conn.addr == addr {
                proof {
                    lemma_place_prefix(self.inner@, addr, i + 1);
                }
                return Some(i);
            }
            i = i + 1;
        }
        proof {
            assert(self.inner@.take(i as int) =~= self.inner@);
        }
        None
    }

    /// The number of the player with the address, if there is one.
    pub fn uid_of(&self, addr: u64) -> (r: Option<usize>)
        ensures
            r == (if self.has(addr) {
                Some(self.player(addr).uid)
            } else {
                None
            }),
    {
        match self.find(addr) {
            Some(i) => Some(self.inner[i].uid),
            None => None,
        }
    }

    /// The name of the player with the address, if there is one.
    pub fn name_of(&self, addr: u64) -> (r: Option<Vec<u8>>)
        ensures
            match r {
                Some(n) => self.has(addr) && n@ == self.player(addr).name@,
                None => !self.has(addr),
            },
    {
        match self.find(addr) {
            Some(i) => Some(copy_bytes(&self.inner[i].name)),
            None => None,
        }
    }

    /// Registers a connection under the next number. A player that was
    /// registered under the same address gives way to the new one.
    pub fn insert_conn(&mut self, conn: Conn, name: Vec<u8>, clr: Vec<u8>) -> (uid: usize)
        requires
            old(self).wf(),
        ensures
            final(self).wf(),
            uid == old(self).next_uid(),
            final(self).next_uid() == next_number(old(self).next_uid()),
            final(self).has(conn.addr),
            final(self).player(conn.addr).uid == uid,
            final(self).player(conn.addr).name@ == name@,
            final(self).player(conn.addr).clr@ == clr@,
            final(self).player(conn.addr).conn == conn,
            final(self).entries() == (if old(self).has(conn.addr) {
                old(self).entries().update(
                    place_of(old(self).entries(), conn.addr),
                    final(self).player(conn.addr),
                )
            } else {
                old(self).entries().push(final(self).player(conn.addr))
            }),
    {
        let uid = self.uid_counter;
        self.uid_counter = if uid == usize::MAX {
            0
        } else {
            uid + 1
        };
        let ghost before = self.inner@;
        let player = Player { conn, uid, name, clr };
        proof {
            lemma_place_of(before, conn.addr);
        }
        match self.find(conn.addr) {
            Some(i) => {
                self.inner.set(i, player);
                proof {
                    let after = self.inner@;
                    assert(after == before.update(i as int, player));
                    lemma_place_same(before, after, conn.addr);
                }
            },
            None => {
                self.inner.push(player);
                proof {
                    let after = self.inner@;
                    assert(after.drop_last() =~= before);
                    assert(place_of(after, conn.addr) == before.len());
                }
            },
        }
        uid
    }

    /// Takes the player with the address out of the room, if there is one.
    pub fn remove(&mut self, addr: u64) -> (r: Option<Player>)
        requires
            old(self).wf(),
        ensures
            final(self).wf(),
            final(self).next_uid() == old(self).next_uid(),
            !final(self).has(addr),
            match r {
                Some(p) => old(self).has(addr) && p == old(self).player(addr)
                    && final(self).entries() == old(self).entries().remove(
                    place_of(old(self).entries(), addr),
                ),
                None => !old(self).has(addr) && final(self).entries() == old(self).entries(),
            },
    {
        proof {
            lemma_place_of(self.inner@, addr);
        }
        match self.find(addr) {
            Some(i) => {
                let ghost before = self.inner@;
                let p = self.inner.remove(i);
                proof {
                    let after = self.inner@;
                    lemma_place_of(after, addr);
                    let k = place_of(after, addr);
                    if k < after.len() {
                        if k < i {
                            assert(after[k] == before[k]);
                        } else {
                            assert(after[k] == before[k + 1]);
                            assert(before[i as int].conn.addr != before[k + 1].conn.addr);
                        }
                    }
                }
                Some(p)
            },
            None => None,
        }
    }

    /// The rows of the list of players: for each the number, the name with
    /// `&nbsp` for its spaces, and the colour.
    pub fn rows(&self) -> (r: Vec<(usize, Vec<u8>, Vec<u8>)>)
        ensures
            crate::outside::rows_view(r@) == rows_of(self.entries()),
    {
        let mut nbsp: Vec<u8> = Vec::new();
        push_slice(&mut nbsp, "&nbsp".as_bytes());
        assert(nbsp@ =~= "&nbsp".spec_bytes());
        let mut out: Vec<(usize, Vec<u8>, Vec<u8>)> = Vec::new();
        let mut i: usize = 0;
        while i < self.inner.len()
            invariant
                0 <= i <= self.inner.len(),
                nbsp@ == "&nbsp".spec_bytes(),
                out.len() == i,
                crate::outside::rows_view(out@) == rows_of(self.inner@.take(i as int)),
            decreases self.inner.len() - i,
        {
            let p = &self.inner[i];
            let ghost sofar = out@;
            out.push((p.uid, replace_spaces(&p.name, &nbsp), copy_bytes(&p.clr)));
            proof {
                assert(self.inner@.take(i + 1) =~= self.inner@.take(i as int).push(
                    self.inner@[i as int],
                ));
                let a = crate::outside::rows_view(out@);
                let b = rows_of(self.inner@.take(i + 1));
                assert(a.len() == b.len());
                assert forall|k: int| 0 <= k < a.len() implies a[k] == b[k] by {
                    if k < i {
                        assert(out@[k] == sofar[k]);
                        assert(crate::outside::rows_view(sofar)[k] == rows_of(
                            self.inner@.take(i as int),
                        )[k]);
                    } else {
                        assert(out@[k].0 == p.uid);
                    }
                }
                assert(a =~= b);
            }
            i = i + 1;
        }
        proof {
            assert(self.inner@.take(i as int) =~= self.inner@);
        }
        out
    }
}

/// A player found among the first `k` is found in the whole list.
pub proof fn lemma_place_prefix(s: Seq<Player>, addr: u64, k: int)
    requires
        0 <= k <= s.len(),
        place_of(s.take(k), addr) < k,
    ensures
        place_of(s, addr) == place_of(s.take(k), addr),
    decreases s.len() - k,
{
    if k < s.len() {
        let a = s.take(k);
        let b = s.take(k + 1);
        assert(b.drop_last() =~= a);
        lemma_place_prefix(s, addr, k + 1);
    } else {
        assert(s.take(k) =~= s);
    }
}

/// Putting a player in the place of the one with the same address keeps
/// every place.
pub proof fn lemma_place_same(s: Seq<Player>, t: Seq<Player>, addr: u64)
    requires
        s.len() == t.len(),
        forall|i: int| 0 <= i < s.len() ==> (#[trigger] s[i]).conn.addr == t[i].conn.addr,
    ensures
        place_of(s, addr) == place_of(t, addr),
        distinct(s) ==> distinct(t),
    decreases s.len(),
{
    if s.len() > 0 {
        let sd = s.drop_last();
        let td = t.drop_last();
        assert forall|i: int| 0 <= i < sd.len() implies (#[trigger] sd[i]).conn.addr
            == td[i].conn.addr by {
            assert(s[i].conn.addr == t[i].conn.addr);
        }
        lemma_place_same(sd, td, addr);
        assert(s[s.len() - 1].conn.addr == t[s.len() - 1].conn.addr);
    }
    if distinct(s) {
        assert forall|i: int, j: int| 0 <= i < j < t.len() implies (#[trigger] t[i]).conn.addr != (
        #[trigger] t[j]).conn.addr by {
            assert(s[i].conn.addr == t[i].conn.addr);
            assert(s[j].conn.addr == t[j].conn.addr);
        }
    }
}

} // verus!

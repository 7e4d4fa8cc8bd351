//! The keeper of the cursors of a room: where each player's cursor is, and
//! which cursors have moved since the players last heard of them.

use vstd::prelude::*;
use crate::message::{pos_message, pos_text, Frame, FrameView};
use crate::room::{effects_view, Effect, EffectView, Req, ReqData};

verus! {

/// The cursors of a room.
pub struct Tracker {
    /// The players that have a cursor, in the order in which they first
    /// showed one.
    pub ids: Vec<usize>,
    /// For each of them, where the cursor is.
    pub spots: Vec<(usize, usize)>,
    /// The players whose cursor has moved since the last broadcast, in the
    /// order in which that was noticed.
    pub dirty: Vec<usize>,
}

/// The place of `id` in `s`, or the length of `s` if it is not there.
pub open spec fn slot_of(s: Seq<usize>, id: usize) -> int
    decreases s.len(),
{
    if s.len() == 0 {
        0
    } else {
        let before = slot_of(s.drop_last(), id);
        if before < s.len() - 1 {
            before
        } else if s.last() == id {
            s.len() - 1
        } else {
            s.len() as int
        }
    }
}

/// Nothing stands twice in `s`.
pub open spec fn no_twice(s: Seq<usize>) -> bool {
    forall|i: int, j: int| 0 <= i < j < s.len() ==> #[trigger] s[i] != #[trigger] s[j]
}

/// Where the cursor of `id` is: where it was last seen, or at the origin.
pub open spec fn cursor_of(ids: Seq<usize>, spots: Seq<(usize, usize)>, id: usize) -> (
    usize,
    usize,
) {
    if slot_of(ids, id) < ids.len() {
        spots[slot_of(ids, id)]
    } else {
        (0, 0)
    }
}

/// The cursors of the players `dirty`, each with the player's number.
pub open spec fn snapshot(ids: Seq<usize>, spots: Seq<(usize, usize)>, dirty: Seq<usize>) -> Seq<
    (usize, (usize, usize)),
> {
    dirty.map_values(|d: usize| (d, cursor_of(ids, spots, d)))
}

/// What `slot_of` finds: the first place of `id`, if it has one.
pub proof fn lemma_slot_of(s: Seq<usize>, id: usize)
    ensures
        0 <= slot_of(s, id) <= s.len(),
        slot_of(s, id) < s.len() ==> s[slot_of(s, id)] == id,
        forall|i: int| 0 <= i < slot_of(s, id) ==> #[trigger] s[i] != id,
        slot_of(s, id) < s.len() <==> s.contains(id),
    decreases s.len(),
{
    if s.len() > 0 {
        lemma_slot_of(s.drop_last(), id);
        let before = slot_of(s.drop_last(), id);
        assert forall|i: int| 0 <= i < slot_of(s, id) implies #[trigger] s[i] != id by {
            if i < s.len() - 1 {
                assert(s.drop_last()[i] == s[i]);
            }
        }
        if before < s.len() - 1 {
            assert(s.drop_last()[before] == s[before]);
        }
        if s.contains(id) {
            let i = choose|i: int| 0 <= i < s.len() && s[i] == id;
            if slot_of(s, id) == s.len() {
                assert(s[i] != id);
            }
        }
    }
    if slot_of(s, id) < s.len() {
        assert(s[slot_of(s, id)] == id);
    }
}

/// An element found among the first `k` is found in the whole list.
pub proof fn lemma_slot_prefix(s: Seq<usize>, id: usize, k: int)
    requires
        0 <= k <= s.len(),
        slot_of(s.take(k), id) < k,
    ensures
        slot_of(s, id) == slot_of(s.take(k), id),
    decreases s.len() - k,
{
    if k < s.len() {
        assert(s.take(k + 1).drop_last() =~= s.take(k));
        lemma_slot_prefix(s, id, k + 1);
    } else {
        assert(s.take(k) =~= s);
    }
}

/// The place of `id` in `s`, if it has one.
pub fn find_id(s: &Vec<usize>, id: usize) -> (r: Option<usize>)
    ensures
        match r {
            Some(i) => i == slot_of(s@, id) && i < s.len() && s@[i as int] == id,
            None => slot_of(s@, id) == s.len() && !s@.contains(id),
        },
{
    let mut i: usize = 0;
    proof {
        assert(s@.take(0) =~= Seq::<usize>::empty());
    }
    while i < s.len()
        invariant
            0 <= i <= s.len(),
            slot_of(s@.take(i as int), id) == i,
        decreases s.len() - i,
    {
        proof {
            let upto = s@.take(i + 1);
            assert(upto.drop_last() =~= s@.take(i as int));
            assert(upto.last() == s@[i as int]);
        }
        if s[i] == id {
            proof {
                lemma_slot_prefix(s@, id, i + 1);
            }
            return Some(i);
        }
        i = i + 1;
    }
    proof {
        assert(s@.take(i as int) =~= s@);
        lemma_slot_of(s@, id);
    }
    None
}

impl Tracker {
    /// Each player has one cursor at most and is marked as moved once at
    /// most, and whoever is marked has a cursor.
    pub open spec fn wf(&self) -> bool {
        &&& self.ids@.len() == self.spots@.len()
        &&& no_twice(self.ids@)
        &&& no_twice(self.dirty@)
        &&& forall|j: int| 0 <= j < self.dirty@.len() ==> self.ids@.contains(#[trigger] self.dirty@[j])
    }

    /// Where the cursor of `id` is.
    pub open spec fn cursor(&self, id: usize) -> (usize, usize) {
        cursor_of(self.ids@, self.spots@, id)
    }

    /// A keeper that knows of no cursor.
    pub fn new() -> (t: Tracker)
        ensures
            t.wf(),
            t.ids@.len() == 0,
            t.dirty@.len() == 0,
    {
        Tracker { ids: Vec::new(), spots: Vec::new(), dirty: Vec::new() }
    }

    /// Takes note of where a player's cursor is. The player counts as moved
    /// if this is not where the cursor was; a cursor that was never seen
    /// was at the origin.
    pub fn on_pos(&mut self, id: usize, p: (usize, usize))
        requires
            old(self).wf(),
        ensures
            final(self).wf(),
            final(self).ids@ == (if old(self).ids@.contains(id) {
                old(self).ids@
            } else {
                old(self).ids@.push(id)
            }),
            final(self).spots@ == (if old(self).ids@.contains(id) {
                old(self).spots@.update(slot_of(old(self).ids@, id), p)
            } else {
                old(self).spots@.push(p)
            }),
            final(self).cursor(id) == p,
            final(self).dirty@ == (if p != old(self).cursor(id) && !old(self).dirty@.contains(id) {
                old(self).dirty@.push(id)
            } else {
                old(self).dirty@
            }),
    {
        let ghost ids0 = self.ids@;
        proof {
            lemma_slot_of(ids0, id);
        }
        let moved = match find_id(&self.ids, id) {
            Some(k) => {
                let was = self.spots[k];
                self.spots.set(k, p);
                was.0 != p.0 || was.1 != p.1
            },
            None => {
                self.ids.push(id);
                self.spots.push(p);
                proof {
                    let ids1 = self.ids@;
                    assert(ids1.drop_last() =~= ids0);
                    assert(slot_of(ids1, id) == ids0.len());
                    assert forall|j: int|
                        0 <= j < self.dirty@.len() implies ids1.contains(
                        #[trigger] self.dirty@[j],
                    ) by {
                        let d = self.dirty@[j];
                        assert(ids0.contains(d));
                        let i = choose|i: int| 0 <= i < ids0.len() && ids0[i] == d;
                        assert(ids1[i] == d);
                    }
                }
                p.0 != 0 || p.1 != 0
            },
        };
        proof {
            lemma_slot_of(self.ids@, id);
            assert(self.ids@.contains(id)) by {
                assert(self.ids@[slot_of(self.ids@, id)] == id);
            }
        }
        if moved {
            match find_id(&self.dirty, id) {
                Some(_) => {},
                None => {
                    let ghost d0 = self.dirty@;
                    self.dirty.push(id);
                    proof {
                        let d1 = self.dirty@;
                        assert forall|i: int, j: int| 0 <= i < j < d1.len() implies #[trigger] d1[i]
                            != #[trigger] d1[j] by {
                            if j == d1.len() - 1 {
                                assert(d0[i] == d1[i]);
                                assert(d0.contains(d0[i]));
                            } else {
                                assert(d0[i] != d0[j]);
                            }
                        }
                    }
                },
            }
        }
    }

    /// Marks every player that has a cursor as moved, so that the next
    /// broadcast tells where every cursor is.
    pub fn on_state_dump(&mut self)
        requires
            old(self).wf(),
        ensures
            final(self).wf(),
            final(self).ids@ == old(self).ids@,
            final(self).spots@ == old(self).spots@,
            final(self).dirty@ == old(self).ids@,
    {
        let mut all: Vec<usize> = Vec::new();
        let mut i: usize = 0;
        while i < self.ids.len()
            invariant
                0 <= i <= self.ids.len(),
                all@ == self.ids@.take(i as int),
            decreases self.ids.len() - i,
        {
            all.push(self.ids[i]);
            proof {
                assert(all@ =~= self.ids@.take(i + 1));
            }
            i = i + 1;
        }
        proof {
            assert(self.ids@.take(i as int) =~= self.ids@);
        }
        self.dirty = all;
        proof {
            assert forall|j: int| 0 <= j < self.dirty@.len() implies self.ids@.contains(
                #[trigger] self.dirty@[j],
            ) by {
                assert(self.ids@[j] == self.dirty@[j]);
            }
        }
    }

    /// Forgets a player: the cursor, and that it moved.
    pub fn on_quit(&mut self, id: usize)
        requires
            old(self).wf(),
        ensures
            final(self).wf(),
            !final(self).ids@.contains(id),
            !final(self).dirty@.contains(id),
            final(self).ids@ == (if old(self).ids@.contains(id) {
                old(self).ids@.remove(slot_of(old(self).ids@, id))
            } else {
                old(self).ids@
            }),
            final(self).spots@ == (if old(self).ids@.contains(id) {
                old(self).spots@.remove(slot_of(old(self).ids@, id))
            } else {
                old(self).spots@
            }),
            final(self).dirty@ == (if old(self).dirty@.contains(id) {
                old(self).dirty@.remove(slot_of(old(self).dirty@, id))
            } else {
                old(self).dirty@
            }),
    {
        let ghost ids0 = self.ids@;
        let ghost d0 = self.dirty@;
        proof {
            lemma_slot_of(ids0, id);
            lemma_slot_of(d0, id);
        }
        match find_id(&self.ids, id) {
            Some(k) => {
                self.ids.remove(k);
                self.spots.remove(k);
                proof {
                    lemma_removed(ids0, k as int);
                }
            },
            None => {},
        }
        match find_id(&self.dirty, id) {
            Some(j) => {
                self.dirty.remove(j);
                proof {
                    lemma_removed(d0, j as int);
                }
            },
            None => {},
        }
        proof {
            let ids1 = self.ids@;
            let d1 = self.dirty@;
            assert forall|j: int| 0 <= j < d1.len() implies ids1.contains(#[trigger] d1[j]) by {
                let d = d1[j];
                assert(d0.contains(d)) by {
                    if d0.contains(id) {
                        let r = slot_of(d0, id);
                        if j < r {
                            assert(d0[j] == d);
                        } else {
                            assert(d0[j + 1] == d);
                        }
                    } else {
                        assert(d0[j] == d);
                    }
                }
                assert(d != id);
                let m = choose|m: int| 0 <= m < d0.len() && d0[m] == d;
                assert(ids0.contains(d0[m]));
                let i = choose|i: int| 0 <= i < ids0.len() && ids0[i] == d;
                if ids0.contains(id) {
                    let k = slot_of(ids0, id);
                    if i < k {
                        assert(ids1[i] == d);
                    } else {
                        assert(ids1[i - 1] == d);
                    }
                } else {
                    assert(ids1[i] == d);
                }
            }
        }
    }

    /// Handles one request: takes note of a cursor, marks every cursor as
    /// moved, or forgets a player.
    pub fn apply(&mut self, req: Req)
        requires
            old(self).wf(),
        ensures
            final(self).wf(),
            match req.data {
                ReqData::Pos(p) => {
                    &&& final(self).ids@ == (if old(self).ids@.contains(req.id) {
                        old(self).ids@
                    } else {
                        old(self).ids@.push(req.id)
                    })
                    &&& final(self).spots@ == (if old(self).ids@.contains(req.id) {
                        old(self).spots@.update(slot_of(old(self).ids@, req.id), p)
                    } else {
                        old(self).spots@.push(p)
                    })
                    &&& final(self).cursor(req.id) == p
                    &&& final(self).dirty@ == (if p != old(self).cursor(req.id) && !old(self).dirty@.contains(req.id) {
                        old(self).dirty@.push(req.id)
                    } else {
                        old(self).dirty@
                    })
                },
                ReqData::StateDump => final(self).ids@ == old(self).ids@ && final(self).spots@
                    == old(self).spots@ && final(self).dirty@ == old(self).ids@,
                ReqData::Quit => {
                    &&& !final(self).ids@.contains(req.id)
                    &&& !final(self).dirty@.contains(req.id)
                    &&& final(self).ids@ == (if old(self).ids@.contains(req.id) {
                        old(self).ids@.remove(slot_of(old(self).ids@, req.id))
                    } else {
                        old(self).ids@
                    })
                    &&& final(self).spots@ == (if old(self).ids@.contains(req.id) {
                        old(self).spots@.remove(slot_of(old(self).ids@, req.id))
                    } else {
                        old(self).spots@
                    })
                    &&& final(self).dirty@ == (if old(self).dirty@.contains(req.id) {
                        old(self).dirty@.remove(slot_of(old(self).dirty@, req.id))
                    } else {
                        old(self).dirty@
                    })
                },
            },
    {
        match req.data {
            ReqData::Pos(p) => self.on_pos(req.id, p),
            ReqData::StateDump => self.on_state_dump(),
            ReqData::Quit => self.on_quit(req.id),
        }
    }

    /// The broadcast that is due at a tick of the clock: the cursors that
    /// have moved, to everybody, or nothing if none has. Afterwards no
    /// cursor counts as moved.
    pub fn tick(&mut self) -> (effects: Vec<Effect>)
        requires
            old(self).wf(),
        ensures
            final(self).wf(),
            final(self).ids@ == old(self).ids@,
            final(self).spots@ == old(self).spots@,
            final(self).dirty@.len() == 0,
            effects_view(effects@) == (if old(self).dirty@.len() == 0 {
                Seq::empty()
            } else {
                seq![
                    EffectView::Broadcast(
                        FrameView::Text(
                            pos_text(snapshot(old(self).ids@, old(self).spots@, old(self).dirty@)),
                        ),
                    ),
                ]
            }),
    {
        let mut effects: Vec<Effect> = Vec::new();
        if self.dirty.len() > 0 {
            let mut pairs: Vec<(usize, (usize, usize))> = Vec::new();
            let mut j: usize = 0;
            while j < self.dirty.len()
                invariant
                    0 <= j <= self.dirty.len(),
                    self.wf(),
                    pairs@ == snapshot(self.ids@, self.spots@, self.dirty@.take(j as int)),
                decreases self.dirty.len() - j,
            {
                let d = self.dirty[j];
                proof {
                    lemma_slot_of(self.ids@, d);
                    assert(self.ids@.contains(self.dirty@[j as int]));
                }
                let at = match find_id(&self.ids, d) {
                    Some(k) => self.spots[k],
                    None => (0, 0),
                };
                pairs.push((d, at));
                proof {
                    assert(self.dirty@.take(j + 1) =~= self.dirty@.take(j as int).push(d));
                    assert(pairs@ =~= snapshot(self.ids@, self.spots@, self.dirty@.take(j + 1)));
                }
                j = j + 1;
            }
            proof {
                assert(self.dirty@.take(j as int) =~= self.dirty@);
            }
            effects.push(Effect::Broadcast(Frame::Text(pos_message(&pairs))));
            self.dirty = Vec::new();
            proof {
                assert(effects_view(effects@) =~= seq![
                    EffectView::Broadcast(
                        FrameView::Text(
                            pos_text(snapshot(old(self).ids@, old(self).spots@, old(self).dirty@)),
                        ),
                    ),
                ]);
            }
        }
        effects
    }
}

/// Taking one element out of a list without repeats leaves a list without
/// repeats that lacks the element.
pub proof fn lemma_removed(s: Seq<usize>, k: int)
    requires
        no_twice(s),
        0 <= k < s.len(),
    ensures
        no_twice(s.remove(k)),
        !s.remove(k).contains(s[k]),
{
    let t = s.remove(k);
    assert forall|i: int, j: int| 0 <= i < j < t.len() implies #[trigger] t[i] != #[trigger] t[j] by {
        let a = if i < k {
            i
        } else {
            i + 1
        };
        let b = if j < k {
            j
        } else {
            j + 1
        };
        assert(t[i] == s[a] && t[j] == s[b]);
    }
    if t.contains(s[k]) {
        let i = choose|i: int| 0 <= i < t.len() && t[i] == s[k];
        let a = if i < k {
            i
        } else {
            i + 1
        };
        assert(t[i] == s[a]);
        if a < k {
            assert(s[a] != s[k]);
        } else {
            assert(s[k] != s[a]);
        }
    }
}

} // verus!

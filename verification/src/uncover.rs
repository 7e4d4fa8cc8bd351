//! Uncovering tiles: the flood from one position.

use vstd::prelude::*;
use crate::board::{lemma_neighbours, neighbours, Board, BoardPos};
use crate::flood::{
    is_flooded, lemma_counts_kept, lemma_flood_done, lemma_flood_single, lemma_reaches_start,
    lemma_reaches_step, lemma_spread_open, lemma_spread_skip, lemma_zero_clear, mid_flood,
    reaches, spread_all, };
use crate::grid::{
    adjacent, hidden_p, in_grid, lemma_count_update, lemma_offset_in,
    lemma_offset_unique, offset, tile_at,
};
use crate::neighs::coords;
use crate::tile::{is_mine, is_revealable, lemma_tile_bits, low_bits, mined, revealable, unhide};

verus! {

impl Board {
    /// Uncovers the tile at `pos` and, as long as the tiles it uncovers count
    /// no mine, the tiles around them. A tile under a plain flag stays
    /// covered and stops the flood; one under a question mark does not.
    /// Returns whether a mine came to light, which can only be the tile at
    /// `pos` itself.
    pub fn flood_reveal(&mut self, pos: BoardPos) -> (kaboom: bool)
        requires
            old(self).wf(),
            pos.within(old(self)),
        ensures
            final(self).wf(),
            final(self).same_frame(old(self)),
            final(self).mine_count == old(self).mine_count,
            final(self).hidden_tiles <= old(self).hidden_tiles,
            is_flooded(
                old(self).data@,
                final(self).data@,
                old(self).w(),
                old(self).h(),
                pos.x(),
                pos.y(),
            ),
            kaboom == (revealable(old(self).tile(pos.x(), pos.y())) && mined(
                old(self).tile(pos.x(), pos.y()),
            )),
    {
        let ghost d = self.data@;
        let ghost w = self.w();
        let ghost h = self.h();
        let ghost sx = pos.x();
        let ghost sy = pos.y();
        let mut queue: Vec<BoardPos> = Vec::new();
        queue.push(pos);
        let ghost mut fresh = true;
        proof {
            assert(coords(queue@) =~= seq![(sx, sy)]);
            assert(coords(queue@)[0] == (sx, sy));
            assert forall|x: int, y: int, nx: int, ny: int| #[trigger]
                crate::flood::spread_ok(d, d, coords(queue@), w, h, x, y, nx, ny) by {}
            if revealable(tile_at(d, w, sx, sy)) {
                lemma_reaches_start(d, w, h, sx, sy);
            }
        }
        while queue.len() > 0
            invariant
                self.wf(),
                self.same_frame(old(self)),
                self.mine_count == old(self).mine_count,
                self.hidden_tiles <= old(self).hidden_tiles,
                d == old(self).data@,
                w == self.w(),
                h == self.h(),
                sx == pos.x(),
                sy == pos.y(),
                in_grid(w, h, sx, sy),
                old(self).wf(),
                forall|i: int|
                    0 <= i < queue.len() ==> in_grid(
                        w,
                        h,
                        (#[trigger] queue[i]).x(),
                        queue[i].y(),
                    ),
                forall|i: int|
                    0 <= i < queue.len() && revealable(
                        tile_at(d, w, (#[trigger] queue[i]).x(), queue[i].y()),
                    ) ==> reaches(d, w, h, sx, sy, queue[i].x(), queue[i].y()),
                fresh ==> self.data@ == d && queue.len() == 1 && queue[0].x() == sx && queue[0].y()
                    == sy,
                !fresh ==> forall|i: int|
                    0 <= i < queue.len() ==> !mined(
                        tile_at(d, w, (#[trigger] queue[i]).x(), queue[i].y()),
                    ),
                !fresh ==> !(revealable(tile_at(d, w, sx, sy)) && mined(tile_at(d, w, sx, sy))),
                mid_flood(d, self.data@, w, h, sx, sy),
                spread_all(d, self.data@, coords(queue@), w, h, sx, sy),
            decreases self.hidden_tiles, queue.len(),
        {
            let ghost q = coords(queue@);
            let ghost c = self.data@;
            let ghost was = queue@;
            let p = queue.pop().unwrap();
            let ghost px = p.x();
            let ghost py = p.y();
            proof {
                assert(p == was[was.len() - 1]);
                assert(q.last() == (px, py));
                assert(coords(queue@) =~= q.drop_last());
                lemma_offset_in(w, h, px, py);
                assert(offset(w, px, py) < self.data.len());
                assert(tile_at(c, w, px, py) == tile_at(d, w, px, py) || (reaches(
                    d,
                    w,
                    h,
                    sx,
                    sy,
                    px,
                    py,
                ) && tile_at(c, w, px, py) == low_bits(tile_at(d, w, px, py))));
                lemma_tile_bits(tile_at(d, w, px, py));
            }
            let off = p.rel_offset_unchecked(self);
            let t = self.data[off];
            if is_revealable(t) {
                let v = unhide(t);
                proof {
                    assert(t == tile_at(d, w, px, py));
                    assert(reaches(d, w, h, sx, sy, px, py));
                    lemma_count_update(c, hidden_p(), off as int, v);
                    lemma_tile_bits(t);
                }
                self.data.set(off, v);
                self.hidden_tiles = self.hidden_tiles - 1;
                let ghost e = self.data@;
                proof {
                    assert(e == c.update(off as int, v));
                    assert forall|i: int| 0 <= i < c.len() implies low_bits(#[trigger] e[i])
                        == low_bits(c[i]) by {}
                    lemma_counts_kept(c, e, w, h);
                    assert forall|x: int, y: int| in_grid(w, h, x, y) implies #[trigger] tile_at(
                        e,
                        w,
                        x,
                        y,
                    ) == (if x == px && y == py {
                        low_bits(tile_at(c, w, x, y))
                    } else {
                        tile_at(c, w, x, y)
                    }) by {
                        lemma_offset_in(w, h, x, y);
                        if offset(w, x, y) == off {
                            lemma_offset_unique(w, x, y, px, py);
                        }
                    }
                    assert forall|x: int, y: int| in_grid(w, h, x, y) implies #[trigger] tile_at(
                        e,
                        w,
                        x,
                        y,
                    ) == tile_at(d, w, x, y) || (reaches(d, w, h, sx, sy, x, y) && tile_at(
                        e,
                        w,
                        x,
                        y,
                    ) == low_bits(tile_at(d, w, x, y))) by {
                        assert(tile_at(c, w, x, y) == tile_at(d, w, x, y) || (reaches(
                            d,
                            w,
                            h,
                            sx,
                            sy,
                            x,
                            y,
                        ) && tile_at(c, w, x, y) == low_bits(tile_at(d, w, x, y))));
                    }
                }
                if is_mine(v) {
                    proof {
                        assert(mined(tile_at(d, w, px, py)));
                        assert(fresh);
                        assert(c == d);
                        assert(px == sx && py == sy);
                        lemma_flood_single(d, e, w, h, sx, sy);
                    }
                    return true;
                }
                if v == 0 {
                    let mut ns = self.neighs(p);
                    proof {
                        lemma_neighbours(w, h, px, py);
                        let nb = neighbours(w, h, px, py);
                        assert(coords(ns@) == nb);
                        assert forall|i: int| 0 <= i < ns.len() implies in_grid(
                            w,
                            h,
                            (#[trigger] ns[i]).x(),
                            ns[i].y(),
                        ) && adjacent(px, py, ns[i].x(), ns[i].y()) by {
                            assert(nb[i] == (ns[i].x(), ns[i].y()));
                        }
                    }
                    let ghost kept = queue@;
                    let ghost added = ns@;
                    queue.append(&mut ns);
                    proof {
                        assert(queue@ == kept + added);
                        let r = coords(queue@);
                        assert(r =~= coords(kept) + coords(added));
                        assert forall|a: (int, int)| q.drop_last().contains(a) implies r.contains(
                            a,
                        ) by {
                            let i = choose|i: int| 0 <= i < q.drop_last().len() && q.drop_last()[i]
                                == a;
                            assert(r[i] == a);
                        }
                        assert forall|nx: int, ny: int|
                            in_grid(w, h, nx, ny) && adjacent(px, py, nx, ny) implies r.contains(
                            (nx, ny),
                        ) by {
                            let nb = neighbours(w, h, px, py);
                            assert(nb.contains((nx, ny)));
                            let i = choose|i: int| 0 <= i < nb.len() && nb[i] == (nx, ny);
                            assert(r[kept.len() + i] == (nx, ny));
                        }
                        lemma_spread_open(d, c, e, q, r, w, h, sx, sy);
                        assert forall|i: int| 0 <= i < queue.len() implies in_grid(
                            w,
                            h,
                            (#[trigger] queue[i]).x(),
                            queue[i].y(),
                        ) by {
                            if i >= kept.len() {
                                assert(queue[i] == added[i - kept.len()]);
                            } else {
                                assert(queue[i] == was[i]);
                            }
                        }
                        assert forall|i: int|
                            0 <= i < queue.len() && revealable(
                                tile_at(d, w, (#[trigger] queue[i]).x(), queue[i].y()),
                            ) implies reaches(d, w, h, sx, sy, queue[i].x(), queue[i].y()) by {
                            if i >= kept.len() {
                                assert(queue[i] == added[i - kept.len()]);
                                lemma_reaches_step(
                                    d,
                                    w,
                                    h,
                                    sx,
                                    sy,
                                    px,
                                    py,
                                    queue[i].x(),
                                    queue[i].y(),
                                );
                            } else {
                                assert(queue[i] == was[i]);
                            }
                        }
                        assert forall|i: int| 0 <= i < queue.len() implies !mined(
                            tile_at(d, w, (#[trigger] queue[i]).x(), queue[i].y()),
                        ) by {
                            if i >= kept.len() {
                                assert(queue[i] == added[i - kept.len()]);
                                lemma_zero_clear(d, w, h, px, py, queue[i].x(), queue[i].y());
                            } else {
                                assert(queue[i] == was[i]);
                                assert(!fresh);
                            }
                        }
                    }
                } else {
                    proof {
                        let r = coords(queue@);
                        lemma_spread_open(d, c, e, q, r, w, h, sx, sy);
                        assert forall|i: int| 0 <= i < queue.len() implies queue[i] == was[i] by {}
                    }
                }
            } else {
                proof {
                    lemma_spread_skip(d, c, q, w, h, sx, sy);
                    assert forall|i: int| 0 <= i < queue.len() implies queue[i] == was[i] by {}
                }
            }
            proof {
                fresh = false;
            }
        }
        proof {
            assert(coords(queue@) =~= Seq::<(int, int)>::empty());
            lemma_flood_done(d, self.data@, w, h, sx, sy);
        }
        false
    }
}

} // verus!

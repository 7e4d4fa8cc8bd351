//! The board as text: one character per tile, each row closed by `<br>`.

use vstd::prelude::*;
use crate::board::Board;
use crate::tile::{glyph, render_tile};

verus! {

/// The characters of row `r`.
pub open spec fn row_glyphs(d: Seq<u8>, w: int, r: int) -> Seq<u8> {
    d.subrange(r * w, r * w + w).map_values(|t: u8| glyph(t))
}

/// The four bytes of `<br>`.
pub open spec fn line_break() -> Seq<u8> {
    seq![0x3cu8, 0x62u8, 0x72u8, 0x3eu8]
}

/// The text of the first `rows` rows.
pub open spec fn rendered(d: Seq<u8>, w: int, rows: nat) -> Seq<u8>
    decreases rows,
{
    if rows == 0 {
        Seq::empty()
    } else {
        rendered(d, w, (rows - 1) as nat) + row_glyphs(d, w, rows - 1) + line_break()
    }
}

impl Board {
    /// The board as it goes to the players: for each row its tiles, one
    /// character each, then `<br>`.
    pub fn render(&self) -> (out: Vec<u8>)
        requires
            self.shaped(),
        ensures
            out@ == rendered(self.data@, self.w(), self.height as nat),
    {
        let ghost d = self.data@;
        let ghost w = self.w();
        let ghost h = self.h();
        let mut out: Vec<u8> = Vec::new();
        let mut off: usize = 0;
        let mut y: usize = 0;
        while y < self.height
            invariant
                0 <= y <= self.height,
                self.shaped(),
                d == self.data@,
                w == self.w(),
                h == self.h(),
                off == y * w,
                out@ == rendered(d, w, y as nat),
            decreases self.height - y,
        {
            proof {
                assert(0 <= y * w && y * w + w <= w * h) by (nonlinear_arith)
                    requires
                        0 <= y < h,
                        0 < w,
                ;
                assert((y + 1) * w == y * w + w) by (nonlinear_arith);
            }
            let ghost start = out@;
            let mut x: usize = 0;
            while x < self.width
                invariant
                    0 <= x <= self.width,
                    self.shaped(),
                    d == self.data@,
                    w == self.w(),
                    off == y * w + x,
                    y * w + w <= d.len(),
                    0 <= y * w,
                    out@ == start + d.subrange(y * w, y * w + x).map_values(|t: u8| glyph(t)),
                decreases self.width - x,
            {
                assert(off < self.data.len());
                let t = self.data[off];
                out.push(render_tile(t));
                proof {
                    let a = d.subrange(y * w, y * w + x).map_values(|t: u8| glyph(t));
                    let b = d.subrange(y * w, y * w + x + 1).map_values(|t: u8| glyph(t));
                    assert(b =~= a.push(glyph(t)));
                    assert(out@ =~= start + b);
                }
                x = x + 1;
                off = off + 1;
            }
            out.push(0x3c);
            out.push(0x62);
            out.push(0x72);
            out.push(0x3e);
            proof {
                assert(out@ =~= start + row_glyphs(d, w, y as int) + line_break());
            }
            y = y + 1;
        }
        out
    }
}

} // verus!

//! One board tile, packed in a byte.
//!
//! The three top bits are flags, the five low bits hold either the number of
//! mined neighbours (0 to 8) or the mine marker, all five bits set.

use vstd::prelude::*;

verus! {

/// The tile has not been revealed yet.
pub const HIDDEN_BIT: u8 = 0x80;

/// A player put a flag on the tile.
pub const FLAGGED_BIT: u8 = 0x40;

/// With `FLAGGED_BIT`: the flag is a question mark. Without it: a mine that was
/// flagged rightly, as marked by grading.
pub const SPECIAL_BIT: u8 = 0x20;

/// The bits that are no flags.
pub const NUMBITS: u8 = 0x1f;

/// A hidden, unflagged mine.
pub const MINED: u8 = 0x9f;

/// The two flag bits of a question mark.
pub const QUESTION: u8 = 0x60;

/// A hidden mine that grading found rightly flagged.
pub const CORRECT: u8 = 0xbf;

/// The tile holds a mine, whatever its flags.
pub open spec fn mined(t: u8) -> bool {
    t & NUMBITS == NUMBITS
}

/// The tile is still hidden.
pub open spec fn hidden(t: u8) -> bool {
    t & HIDDEN_BIT != 0
}

/// The low five bits: a neighbour count, or the mine marker.
pub open spec fn low_bits(t: u8) -> u8 {
    t & NUMBITS
}

/// The flag bits without the hidden bit.
pub open spec fn mark_bits(t: u8) -> u8 {
    t & QUESTION
}

/// A plain flag, no question mark: such a tile stops a flood.
pub open spec fn hard_flagged(t: u8) -> bool {
    t & QUESTION == FLAGGED_BIT
}

/// The tile carries a plain flag. A flood passes over such a tile.
pub open spec fn unrevealable(t: u8) -> bool {
    hard_flagged(t)
}

/// A reveal uncovers the tile: it is hidden and carries no plain flag. A
/// question mark does not keep a tile covered, nor does the mark that
/// grading leaves.
pub open spec fn revealable(t: u8) -> bool {
    hidden(t) && !unrevealable(t)
}

/// The tile after it was uncovered: its flags are gone.
pub open spec fn unhidden(t: u8) -> u8 {
    t & NUMBITS
}

/// The mark that follows `t`'s mark in the cycle none, flag, question mark.
/// A tile marked by grading counts as unmarked.
pub open spec fn next_mark(t: u8) -> u8 {
    if t & QUESTION == FLAGGED_BIT {
        QUESTION
    } else if t & QUESTION == QUESTION {
        0u8
    } else {
        FLAGGED_BIT
    }
}

/// The tile after one flag toggle. A revealed tile keeps its value.
pub open spec fn toggled(t: u8) -> u8 {
    if hidden(t) {
        (t & NUMBITS) | (next_mark(t) | HIDDEN_BIT)
    } else {
        t
    }
}

/// The tile after grading: a hidden mine under a plain flag becomes `CORRECT`.
pub open spec fn graded(t: u8) -> u8 {
    if t == 0xdfu8 {
        CORRECT
    } else {
        t
    }
}

/// The tiles after grading.
pub open spec fn graded_all(d: Seq<u8>) -> Seq<u8> {
    d.map_values(|t: u8| graded(t))
}

/// The tile with one more mined neighbour. A mine keeps its value.
pub open spec fn bumped(t: u8) -> u8 {
    if mined(t) {
        t
    } else {
        (t + 1) as u8
    }
}

/// The tile with one mined neighbour fewer. A mine keeps its value.
pub open spec fn dropped(t: u8) -> u8 {
    if mined(t) {
        t
    } else {
        (t - 1) as u8
    }
}

/// The character that stands for the tile in a board snapshot.
pub open spec fn glyph(t: u8) -> u8 {
    if t == 0 {
        0x20u8
    } else if t <= 8 {
        (0x30 + t) as u8
    } else if t & QUESTION == QUESTION {
        0x51u8
    } else if t & SPECIAL_BIT != 0 {
        0x43u8
    } else if t & FLAGGED_BIT != 0 {
        0x46u8
    } else if t & HIDDEN_BIT != 0 {
        0x23u8
    } else if t == NUMBITS {
        0x4fu8
    } else {
        0x3fu8
    }
}

/// What the bit masks mean in arithmetic: the low bits are below 32, and the
/// flags are the rest.
pub proof fn lemma_tile_bits(t: u8)
    by (bit_vector)
    ensures
        t & 0x1f <= 31,
        (t & 0x1f) & 0x1f == t & 0x1f,
        (t & 0x1f) & 0x80 == 0,
        (t & 0x1f) & 0x60 == 0,
        (t & 0x1f) & 0x40 == 0,
        (t & 0x1f) & 0x20 == 0,
        t & 0x80 == 0 || t & 0x80 == 0x80,
        t & 0x60 == 0 || t & 0x60 == 0x20 || t & 0x60 == 0x40 || t & 0x60 == 0x60,
        t == (t & 0x80) + (t & 0x60) + (t & 0x1f),
        (t & 0x60 == 0x40) <==> (t & 0x40 != 0 && t & 0x20 == 0),
        (t & 0x60 == 0x60) <==> (t & 0x40 != 0 && t & 0x20 != 0),
        (t & 0x60 == 0x20) <==> (t & 0x40 == 0 && t & 0x20 != 0),
        (t & 0x60 == 0) <==> (t & 0x40 == 0 && t & 0x20 == 0),
        t & 0x80 == 0 && t & 0x60 == 0 ==> t == t & 0x1f,
        t <= 8 ==> t & 0x80 == 0 && t & 0x60 == 0 && t & 0x1f == t,
{
}

/// Adding or taking one from a count below the mine marker touches no flag.
pub proof fn lemma_count_step(t: u8)
    by (bit_vector)
    ensures
        t & 0x1f != 0x1f ==> t < 255 && (t + 1) as u8 & 0xe0 == t & 0xe0 && (t + 1) as u8 & 0x1f
            == (t & 0x1f) + 1,
        t & 0x1f != 0 ==> t > 0 && (t - 1) as u8 & 0xe0 == t & 0xe0 && (t - 1) as u8 & 0x1f == (t
            & 0x1f) - 1,
        (t & 0xe0) & 0x80 == t & 0x80,
        (t & 0xe0) & 0x60 == t & 0x60,
        (t & 0xe0) & 0x40 == t & 0x40,
        (t & 0xe0) & 0x20 == t & 0x20,
{
}

/// How a tile is put together from flags and a count.
pub proof fn lemma_tile_compose(f: u8, n: u8)
    by (bit_vector)
    requires
        f & 0x1f == 0,
        n <= 0x1f,
    ensures
        (f | n) & 0x1f == n,
        (f | n) & 0xe0 == f,
        (f | n) & 0x80 == f & 0x80,
        (f | n) & 0x60 == f & 0x60,
        (f | n) & 0x40 == f & 0x40,
        (f | n) & 0x20 == f & 0x20,
        n | f == f | n,
{
}

/// Marking a tile as a hidden mine keeps its two mark bits.
pub proof fn lemma_tile_mine(t: u8)
    by (bit_vector)
    ensures
        (t | 0x9f) & 0x1f == 0x1f,
        (t | 0x9f) & 0x80 == 0x80,
        (t | 0x9f) & 0x60 == t & 0x60,
        (t | 0x9f) & 0x40 == t & 0x40,
        (t | 0x9f) & 0x20 == t & 0x20,
{
}

/// Whether the tile holds a mine.
pub fn is_mine(v: u8) -> (r: bool)
    ensures
        r == mined(v),
{
    (v & NUMBITS) == NUMBITS
}

/// Clears the flags of a tile: what is left is its count or the mine marker.
pub fn unhide(tile: u8) -> (r: u8)
    ensures
        r == unhidden(tile),
        !hidden(r),
        mined(r) == mined(tile),
        r <= 31,
{
    proof {
        lemma_tile_bits(tile);
    }
    tile & NUMBITS
}

/// Whether the tile is still hidden.
pub fn is_hidden(tile: u8) -> (r: bool)
    ensures
        r == hidden(tile),
{
    tile & HIDDEN_BIT != 0
}

/// Whether the tile carries a plain flag.
pub fn is_hard_flagged(tile: u8) -> (r: bool)
    ensures
        r == hard_flagged(tile),
{
    tile & QUESTION == FLAGGED_BIT
}

/// Whether a reveal uncovers the tile.
pub fn is_revealable(tile: u8) -> (r: bool)
    ensures
        r == revealable(tile),
{
    tile & HIDDEN_BIT != 0 && tile & QUESTION != FLAGGED_BIT
}

/// Moves a hidden tile's mark one step on in the cycle none, flag, question
/// mark, none.
pub fn toggle_flag(tile: u8) -> (r: u8)
    ensures
        r == toggled(tile),
        hidden(r) == hidden(tile),
        low_bits(r) == low_bits(tile),
{
    if tile & HIDDEN_BIT != 0 {
        let marks = tile & QUESTION;
        let next: u8 = if marks == FLAGGED_BIT {
            QUESTION
        } else if marks == QUESTION {
            0
        } else {
            FLAGGED_BIT
        };
        proof {
            lemma_tile_bits(tile);
            lemma_mark_values();
            lemma_tile_compose((next | HIDDEN_BIT), (tile & NUMBITS));
        }
        (tile & NUMBITS) | (next | HIDDEN_BIT)
    } else {
        tile
    }
}

/// The three values that a toggle can put above the low bits.
pub proof fn lemma_mark_values()
    by (bit_vector)
    ensures
        (0x60u8 | 0x80u8) == 0xe0u8,
        (0x40u8 | 0x80u8) == 0xc0u8,
        (0u8 | 0x80u8) == 0x80u8,
        0xe0u8 & 0x1f == 0,
        0xc0u8 & 0x1f == 0,
        0x80u8 & 0x1f == 0,
        0xe0u8 & 0x60 == 0x60,
        0xc0u8 & 0x60 == 0x40,
        0x80u8 & 0x60 == 0,
        0xe0u8 & 0x80 == 0x80,
        0xc0u8 & 0x80 == 0x80,
        0x80u8 & 0x80 == 0x80,
{
}

/// The three flags are the hidden bit and the two marks.
pub proof fn lemma_flag_sum(t: u8)
    by (bit_vector)
    ensures
        t & 0xe0 == (t & 0x80) + (t & 0x60),
        (t & 0xe0) + (t & 0x1f) == t,
        (t & 0x60) + 0x9f <= 255,
        (t & 0xe0) + 8 <= 255,
{
}

/// A hidden mine under the mark of `t`, and the flags of `t` over a count
/// of at most eight.
pub proof fn lemma_tile_sums(t: u8, n: u8)
    by (bit_vector)
    requires
        n <= 8,
    ensures
        ((t & 0x60) + 0x9f) as u8 & 0x1f == 0x1f,
        ((t & 0x60) + 0x9f) as u8 & 0x80 == 0x80,
        ((t & 0x60) + 0x9f) as u8 & 0x60 == t & 0x60,
        ((t & 0xe0) + n) as u8 & 0x1f == n,
        ((t & 0xe0) + n) as u8 & 0x80 == t & 0x80,
        ((t & 0xe0) + n) as u8 & 0x60 == t & 0x60,
        n & 0x1f == n,
        n & 0x80 == 0,
        n & 0x60 == 0,
{
}

/// What the plain hidden mine is made of.
pub proof fn lemma_mine_value()
    by (bit_vector)
    ensures
        0x9fu8 & 0x1f == 0x1f,
        0x9fu8 & 0x80 == 0x80,
        0x9fu8 & 0x60 == 0,
        0x1fu8 & 0x1f == 0x1f,
        0x1fu8 & 0x80 == 0,
{
}

/// Marks a rightly flagged mine.
pub fn grade_tile(tile: u8) -> (r: u8)
    ensures
        r == graded(tile),
{
    if tile == 0xdf {
        CORRECT
    } else {
        tile
    }
}

/// The snapshot character of a tile.
pub fn render_tile(tile: u8) -> (r: u8)
    ensures
        r == glyph(tile),
{
    if tile == 0 {
        0x20
    } else if tile <= 8 {
        0x30 + tile
    } else if tile & QUESTION == QUESTION {
        0x51
    } else if tile & SPECIAL_BIT != 0 {
        0x43
    } else if tile & FLAGGED_BIT != 0 {
        0x46
    } else if tile & HIDDEN_BIT != 0 {
        0x23
    } else if tile == NUMBITS {
        0x4f
    } else {
        0x3f
    }
}

/// Three toggles bring a hidden tile back to where it was, unless grading had
/// marked it.
pub proof fn law_flag_cycle(t: u8)
    requires
        hidden(t),
        mark_bits(t) != SPECIAL_BIT,
    ensures
        toggled(toggled(toggled(t))) == t,
        toggled(t) != t,
        toggled(toggled(t)) != t,
{
    lemma_flag_cycle_bits(t);
}

proof fn lemma_flag_cycle_bits(t: u8)
    by (bit_vector)
    requires
        t & 0x80 != 0,
        t & 0x60 != 0x20,
    ensures
        ({
            let a = if t & 0x80 != 0 {
                (t & 0x1f) | ((if t & 0x60 == 0x40 {
                    0x60u8
                } else if t & 0x60 == 0x60 {
                    0u8
                } else {
                    0x40u8
                }) | 0x80)
            } else {
                t
            };
            let b = if a & 0x80 != 0 {
                (a & 0x1f) | ((if a & 0x60 == 0x40 {
                    0x60u8
                } else if a & 0x60 == 0x60 {
                    0u8
                } else {
                    0x40u8
                }) | 0x80)
            } else {
                a
            };
            let c = if b & 0x80 != 0 {
                (b & 0x1f) | ((if b & 0x60 == 0x40 {
                    0x60u8
                } else if b & 0x60 == 0x60 {
                    0u8
                } else {
                    0x40u8
                }) | 0x80)
            } else {
                b
            };
            c == t && a != t && b != t
        }),
{
}

/// After grading, a tile has the special bit without the flag bit exactly
/// if it is a rightly flagged mine, provided no tile looked so before.
pub proof fn law_grade_special(t: u8)
    requires
        mark_bits(t) != SPECIAL_BIT,
    ensures
        mark_bits(graded(t)) == SPECIAL_BIT <==> t == 0xdfu8,
        t == 0xdfu8 ==> graded(t) == CORRECT,
        graded(t) == CORRECT ==> t == 0xdfu8,
{
    lemma_grade_special_bits(t);
}

proof fn lemma_grade_special_bits(t: u8)
    by (bit_vector)
    requires
        t & 0x60 != 0x20,
    ensures
        0xbfu8 & 0x60 == 0x20,
        0xdfu8 & 0x60 == 0x40,
        t != 0xbf,
{
}

/// A revealed tile is not moved by a toggle.
pub proof fn law_flag_needs_hidden(t: u8)
    requires
        !hidden(t),
    ensures
        toggled(t) == t,
{
}

/// Grading changes one value only, and what it writes is a hidden mine with
/// the special bit and without the flag bit.
pub proof fn law_grade_marks(t: u8)
    ensures
        graded(t) != t <==> (hidden(t) && hard_flagged(t) && mined(t)),
        graded(t) != t ==> graded(t) == CORRECT,
        mined(graded(t)) == mined(t),
        hidden(graded(t)) == hidden(t),
        graded(graded(t)) == graded(t),
{
    lemma_grade_bits(t);
}

proof fn lemma_grade_bits(t: u8)
    by (bit_vector)
    ensures
        t == 0xdf <==> (t & 0x80 != 0 && t & 0x60 == 0x40 && t & 0x1f == 0x1f),
        0xbfu8 & 0x1f == 0x1f,
        0xbfu8 & 0x80 != 0,
        0xbfu8 != 0xdfu8,
{
}

} // verus!

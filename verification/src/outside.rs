//! What the library has from other crates: random numbers and names,
//! sanitising of markup, compression, and JSON of lists. Nothing in this file
//! is proved; each item says what it takes on trust.

use vstd::prelude::*;
use vstd::string::*;
use crate::text::digits;

verus! {

/// The bytes of what `ammonia::clean` makes of a text, the text being what
/// `String::from_utf8_lossy` reads from the given bytes.
pub uninterp spec fn sanitized(text: Seq<u8>) -> Seq<u8>;

/// What a deflate stream at the default level holds for the given bytes.
pub uninterp spec fn deflated(bytes: Seq<u8>) -> Seq<u8>;

/// The bytes of what `serde_json::to_string` writes for a string, the
/// string being what `String::from_utf8_lossy` reads from the given bytes:
/// the text between quotes, with escapes where JSON asks for them.
pub uninterp spec fn json_string(text: Seq<u8>) -> Seq<u8>;

/// One player in JSON, the two strings given as JSON writes them:
/// `[uid,name,colour]`.
pub open spec fn framed_row(row: (usize, Seq<u8>, Seq<u8>)) -> Seq<u8> {
    "[".spec_bytes() + digits(row.0 as nat) + ",".spec_bytes() + row.1 + ",".spec_bytes() + row.2
        + "]".spec_bytes()
}

/// Players in JSON, with commas between them.
pub open spec fn framed_rows(rows: Seq<(usize, Seq<u8>, Seq<u8>)>) -> Seq<u8>
    decreases rows.len(),
{
    if rows.len() == 0 {
        Seq::empty()
    } else if rows.len() == 1 {
        framed_row(rows[0])
    } else {
        framed_rows(rows.drop_last()) + ",".spec_bytes() + framed_row(rows.last())
    }
}

/// A list of players in JSON, the strings given as JSON writes them:
/// `[[uid,name,colour],...]`.
pub open spec fn framed_list(rows: Seq<(usize, Seq<u8>, Seq<u8>)>) -> Seq<u8> {
    "[".spec_bytes() + framed_rows(rows) + "]".spec_bytes()
}

/// A list of players in JSON: `[[uid,"name","colour"],...]`.
pub open spec fn players_listing(rows: Seq<(usize, Seq<u8>, Seq<u8>)>) -> Seq<u8> {
    framed_list(
        rows.map_values(
            |row: (usize, Seq<u8>, Seq<u8>)| (row.0, json_string(row.1), json_string(row.2)),
        ),
    )
}

/// The rows of a list of players, in the terms of contracts.
pub open spec fn rows_view(rows: Seq<(usize, Vec<u8>, Vec<u8>)>) -> Seq<(usize, Seq<u8>, Seq<u8>)> {
    rows.map_values(|r: (usize, Vec<u8>, Vec<u8>)| (r.0, r.1@, r.2@))
}

/// One cursor in JSON: `[id,[x,y]]`.
pub open spec fn position_json(p: (usize, (usize, usize))) -> Seq<u8> {
    "[".spec_bytes() + digits(p.0 as nat) + ",[".spec_bytes() + digits(p.1.0 as nat)
        + ",".spec_bytes() + digits(p.1.1 as nat) + "]]".spec_bytes()
}

/// Cursors in JSON, with commas between them.
pub open spec fn position_items(list: Seq<(usize, (usize, usize))>) -> Seq<u8>
    decreases list.len(),
{
    if list.len() == 0 {
        Seq::empty()
    } else if list.len() == 1 {
        position_json(list[0])
    } else {
        position_items(list.drop_last()) + ",".spec_bytes() + position_json(list.last())
    }
}

/// A list of cursors in JSON: `[[id,[x,y]],...]`.
pub open spec fn positions_json(list: Seq<(usize, (usize, usize))>) -> Seq<u8> {
    "[".spec_bytes() + position_items(list) + "]".spec_bytes()
}

/// `b` is a letter or a digit of ASCII.
pub open spec fn alphanumeric(b: u8) -> bool {
    ||| 0x30 <= b <= 0x39
    ||| 0x41 <= b <= 0x5a
    ||| 0x61 <= b <= 0x7a
}

/// A number drawn uniformly from `low` up to, not including, `high`.
///
/// Trusted: calls `rand::Rng::sample` on `rand::thread_rng()` with
/// `rand::distributions::Uniform::new(low, high)`. `Uniform::new` panics
/// unless `low < high`; a sample of it lies in the range. Nothing is claimed
/// of which number comes out.
#[verifier::external_body]
pub(crate) fn random_between(low: u32, high: u32) -> (r: u32)
    requires
        low < high,
    ensures
        low <= r < high,
{
    rand::Rng::sample(&mut rand::thread_rng(), rand::distributions::Uniform::new(low, high))
}

/// A text with its markup sanitised.
///
/// Trusted: calls `ammonia::clean` on the text, read as UTF-8 with
/// `String::from_utf8_lossy`, and hands back the bytes of what it returns.
/// `clean` works with a fixed set of rules, so the result depends on the
/// text alone; what the rules are is not stated here.
#[verifier::external_body]
pub(crate) fn clean_html(text: &Vec<u8>) -> (r: Vec<u8>)
    ensures
        r@ == sanitized(text@),
{
    ammonia::clean(&String::from_utf8_lossy(text)).into_bytes()
}

/// The bytes, compressed.
///
/// Trusted: writes the bytes to a `flate2::write::DeflateEncoder` over a
/// `Vec`, made with `Compression::default()`, and hands back what `finish`
/// returns. Writing to a `Vec` does not fail, and the encoder has no state
/// but what it was given, so the result depends on the bytes alone.
#[verifier::external_body]
pub(crate) fn deflate(bytes: &Vec<u8>) -> (r: Vec<u8>)
    ensures
        r@ == deflated(bytes@),
{
    let mut encoder = flate2::write::DeflateEncoder::new(
        Vec::new(),
        flate2::Compression::default(),
    );
    let written = std::io::Write::write_all(&mut encoder, bytes);
    match (written, encoder.finish()) {
        (Ok(()), Ok(out)) => out,
        _ => Vec::new(),
    }
}

/// A list of players in JSON.
///
/// Trusted: calls `serde_json::to_string` on the rows, each a number and
/// two strings read as UTF-8 with `String::from_utf8_lossy`. It writes a
/// sequence or tuple as `[`, the items with `,` between them, and `]`, an
/// unsigned number in decimal, and a string as `json_string` names it; for
/// such a value it does not fail. How a string is escaped is not stated.
#[verifier::external_body]
pub(crate) fn players_json(rows: &Vec<(usize, Vec<u8>, Vec<u8>)>) -> (r: Vec<u8>)
    ensures
        r@ == framed_list(
            rows_view(rows@).map_values(
                |row: (usize, Seq<u8>, Seq<u8>)| (row.0, json_string(row.1), json_string(row.2)),
            ),
        ),
{
    let rows: Vec<(usize, String, String)> = rows.iter().map(
        |r| (r.0, String::from_utf8_lossy(&r.1).into_owned(), String::from_utf8_lossy(&r.2).into_owned()),
    ).collect();
    serde_json::to_string(&rows).unwrap_or_default().into_bytes()
}

/// A list of cursors in JSON.
///
/// Trusted: calls `serde_json::to_string` on the list. It writes a
/// sequence or tuple as `[`, the items with `,` between them, and `]`, and
/// an unsigned number in decimal; for such a value it does not fail.
#[verifier::external_body]
pub(crate) fn cursors_json(list: &Vec<(usize, (usize, usize))>) -> (r: Vec<u8>)
    ensures
        r@ == positions_json(list@),
{
    serde_json::to_string(list).unwrap_or_default().into_bytes()
}

/// A letter or a digit, drawn at random.
///
/// Trusted: calls `rand::Rng::sample` on `rand::thread_rng()` with
/// `rand::distributions::Alphanumeric`. A sample of it is one of the 62
/// letters and digits of ASCII. Nothing is claimed of which one comes out.
#[verifier::external_body]
pub(crate) fn random_letter() -> (r: u8)
    ensures
        alphanumeric(r),
{
    rand::Rng::sample(&mut rand::thread_rng(), rand::distributions::Alphanumeric)
}

} // verus!

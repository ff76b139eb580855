//! Trusted boundary: the few calls into outside crates and into parts
//! of std that carry no specification. Each item's contract states only
//! what the callee's source or documentation plainly shows; everything
//! downstream of these calls is verified against these contracts.

use vstd::prelude::*;

verus! {

/// The characters that lossy UTF-8 decoding yields for a byte sequence:
/// a function of the bytes alone.
pub uninterp spec fn utf8_lossy_of(b: Seq<u8>) -> Seq<char>;

/// Relies on String::from_utf8_lossy: well-formed sequences decode to
/// their characters, malformed ones to replacement characters, never an
/// error; the result is empty exactly for empty input.
#[verifier::external_body]
pub fn utf8_lossy_chars(bytes: &[u8]) -> (r: Vec<char>)
    ensures
        r@ == utf8_lossy_of(bytes@),
        r@.len() == 0 <==> bytes@.len() == 0,
{
    String::from_utf8_lossy(bytes).chars().collect()
}

/// Relies on chrono's Local::now and DelayedFormat: a wall-clock
/// timestamp rendered as text. Nothing is assumed of its value.
#[verifier::external_body]
pub fn now_timestamp() -> (r: String) {
    chrono::Local::now().format("%H:%M:%S%.3f").to_string()
}

/// Relies on String::push: appends one character.
#[verifier::external_body]
pub fn push_char(s: &mut String, c: char)
    ensures
        final(s)@ == old(s)@.push(c),
{
    s.push(c);
}

/// Relies on String::pop: removes and returns the last character.
#[verifier::external_body]
pub fn pop_char(s: &mut String) -> (r: Option<char>)
    ensures
        old(s)@.len() == 0 ==> r is None && final(s)@ == old(s)@,
        old(s)@.len() > 0 ==> r == Some(old(s)@.last()) && final(s)@ == old(s)@.drop_last(),
{
    s.pop()
}

/// How one logical line word-wraps at a given width: a function of the
/// line and the width alone.
pub uninterp spec fn spec_wrapped(s: Seq<char>, width: nat) -> Seq<Seq<char>>;

/// Relies on textwrap::wrap: breaks one line into visual rows no wider
/// than `width`, deterministically from its arguments.
#[verifier::external_body]
pub fn wrap_line(s: &str, width: usize) -> (r: Vec<String>)
    ensures
        r@.map_values(|t: String| t@) == spec_wrapped(s@, width as nat),
{
    textwrap::wrap(s, width).into_iter().map(|c| c.into_owned()).collect()
}

#[verifier::external_type_specification]
#[verifier::external_body]
pub struct ExTable(defmt_decoder::Table);

#[verifier::external_type_specification]
#[verifier::external_body]
pub struct ExLocation(defmt_elf2table::Location);

/// Relies on defmt_decoder::decode: on success one frame has been read
/// from the front of the buffer, consuming at least one and at most all
/// of its bytes; the frame's rendered text and its index are returned
/// with the consumed count. Any failure — including "more bytes
/// needed", which is the normal end of a decode pass — is None.
#[verifier::external_body]
pub fn decode_frame(table: &defmt_decoder::Table, arena: &Vec<u8>) -> (r: Option<
    (String, u64, usize),
>)
    ensures
        r matches Some(t) ==> 1 <= t.2 <= arena@.len(),
{
    match defmt_decoder::decode(arena.as_slice(), table) {
        Ok((frame, consumed)) => Some((frame.display(false).to_string(), frame.index(), consumed)),
        Err(_) => None,
    }
}

/// Relies on BTreeMap::get and Path::strip_prefix: the source location
/// recorded for a frame index, if any, its path shown relative to `cwd`
/// when it lies under it and absolute otherwise, with its line number.
/// Nothing is assumed of the returned text.
#[verifier::external_body]
pub fn frame_location(locs: &defmt_elf2table::Locations, index: u64, cwd: &str) -> (r: Option<
    (String, u64),
>) {
    locs.get(&index).map(
        |loc|
            {
                let path = match loc.file.strip_prefix(cwd) {
                    Ok(p) => p,
                    Err(_) => loc.file.as_path(),
                };
                (path.display().to_string(), loc.line)
            },
    )
}

} // verus!

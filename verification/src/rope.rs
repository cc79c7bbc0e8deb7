use ropey::Rope;
use vstd::prelude::*;
use vstd::utf8::{encode_utf8, is_char_boundary};

verus! {

/// The rope of the `ropey` crate. Its contents are known only through
/// `rope_text`.
#[verifier::external_type_specification]
#[verifier::external_body]
pub struct ExRope(Rope);

/// The text that a rope holds.
pub uninterp spec fn rope_text(rope: Rope) -> Seq<char>;

/// The line in which `Rope::try_byte_to_line` finds byte `byte` of a rope
/// that holds `text`.
pub uninterp spec fn line_index(text: Seq<char>, byte: int) -> int;

/// The byte at which `Rope::try_line_to_byte` finds line `line` of a rope
/// that holds `text` to start, or `None` where it finds no such line.
pub uninterp spec fn line_start(text: Seq<char>, line: int) -> Option<int>;

/// The bytes of a text in UTF-8.
pub open spec fn bytes_of(text: Seq<char>) -> Seq<u8> {
    encode_utf8(text)
}

/// Whether the bytes `low..high` of `text` can be taken out of it: the range
/// lies within the text, and no character is cut at either end.
pub open spec fn sliceable(text: Seq<char>, low: int, high: int) -> bool {
    &&& 0 <= low <= high <= bytes_of(text).len()
    &&& is_char_boundary(bytes_of(text), low)
    &&& is_char_boundary(bytes_of(text), high)
}

/// `Rope::from_str` builds a rope that holds the text it is given.
pub assume_specification[ Rope::from_str ](text: &str) -> (rope: Rope)
    ensures
        rope_text(rope) == text@,
;

/// Cloning a rope gives a rope that holds the same text.
pub assume_specification[ <Rope as Clone>::clone ](rope: &Rope) -> (copy: Rope)
    ensures
        rope_text(copy) == rope_text(*rope),
;

/// `Rope::len_bytes` is the number of bytes of the rope's text in UTF-8.
pub assume_specification[ Rope::len_bytes ](rope: &Rope) -> (n: usize)
    ensures
        n == bytes_of(rope_text(*rope)).len(),
;

/// `String::from` copies the text of a rope, chunk by chunk, into a string.
#[verifier::external_body]
pub(crate) fn rope_to_string(rope: &Rope) -> (text: String)
    ensures
        text@ == rope_text(*rope),
{
    String::from(rope)
}

/// `Rope::get_byte_slice` gives the bytes `low..high` of the rope. It gives
/// nothing where `low > high`, where `high` lies beyond the last byte, and
/// where either end is not at the boundary of a character.
#[verifier::external_body]
pub(crate) fn rope_byte_slice(rope: &Rope, low: usize, high: usize) -> (slice: Option<String>)
    ensures
        slice is Some <==> sliceable(rope_text(*rope), low as int, high as int),
        slice matches Some(s) ==> bytes_of(s@) == bytes_of(rope_text(*rope)).subrange(
            low as int,
            high as int,
        ),
{
    match rope.get_byte_slice(low..high) {
        Some(slice) => Some(String::from(slice)),
        None => None,
    }
}

/// `Rope::try_byte_to_line` gives the line of a byte, and an error exactly
/// where the byte lies beyond the end of the rope; the end itself has a line.
#[verifier::external_body]
pub(crate) fn rope_byte_to_line(rope: &Rope, byte: usize) -> (line: Option<usize>)
    ensures
        line is Some <==> byte <= bytes_of(rope_text(*rope)).len(),
        line matches Some(l) ==> l == line_index(rope_text(*rope), byte as int),
{
    rope.try_byte_to_line(byte).ok()
}

/// `Rope::try_line_to_byte` gives the byte at which a line starts, or an
/// error where the rope has no such line.
#[verifier::external_body]
pub(crate) fn rope_line_to_byte(rope: &Rope, line: usize) -> (byte: Option<usize>)
    ensures
        match byte {
            Some(b) => line_start(rope_text(*rope), line as int) == Some(b as int),
            None => line_start(rope_text(*rope), line as int) is None,
        },
{
    rope.try_line_to_byte(line).ok()
}

} // verus!

use vstd::prelude::*;

verus! {

/// Whether `c` is alphanumeric as `char::is_alphanumeric` tells it.
pub uninterp spec fn alphanumeric(c: char) -> bool;

/// Whether `c` is alphabetic as `char::is_alphabetic` tells it.
pub uninterp spec fn alphabetic(c: char) -> bool;

/// Whether `c` is lowercase as `char::is_lowercase` tells it.
pub uninterp spec fn lowercase(c: char) -> bool;

/// Whether `c` is uppercase as `char::is_uppercase` tells it.
pub uninterp spec fn uppercase(c: char) -> bool;

/// Whether `c` is white space as `char::is_whitespace` tells it.
pub uninterp spec fn whitespace(c: char) -> bool;

/// `char::is_alphanumeric` looks the character up in the Unicode tables of
/// std; the answer depends on the character alone.
pub assume_specification[ char::is_alphanumeric ](c: char) -> (b: bool)
    ensures
        b == alphanumeric(c),
;

/// `char::is_alphabetic` looks the character up in the Unicode tables of
/// std; the answer depends on the character alone.
pub assume_specification[ char::is_alphabetic ](c: char) -> (b: bool)
    ensures
        b == alphabetic(c),
;

/// `char::is_lowercase` looks the character up in the Unicode tables of
/// std; the answer depends on the character alone.
pub assume_specification[ char::is_lowercase ](c: char) -> (b: bool)
    ensures
        b == lowercase(c),
;

/// `char::is_uppercase` looks the character up in the Unicode tables of
/// std; the answer depends on the character alone.
pub assume_specification[ char::is_uppercase ](c: char) -> (b: bool)
    ensures
        b == uppercase(c),
;

/// `char::is_whitespace` looks the character up in the Unicode tables of
/// std; the answer depends on the character alone.
pub assume_specification[ char::is_whitespace ](c: char) -> (b: bool)
    ensures
        b == whitespace(c),
;

/// What the splitters read of one character: how many bytes it takes in
/// UTF-8 and the classes it belongs to.
#[derive(Clone, Copy, PartialEq, Eq, Structural, Debug)]
pub struct Glyph {
    pub width: u8,
    pub alphanumeric: bool,
    pub alphabetic: bool,
    pub lowercase: bool,
    pub uppercase: bool,
    pub whitespace: bool,
}

/// The number of bytes of `c` in UTF-8.
pub open spec fn utf8_width(c: char) -> int {
    if (c as u32) < 0x80 {
        1
    } else if (c as u32) < 0x800 {
        2
    } else if (c as u32) < 0x10000 {
        3
    } else {
        4
    }
}

/// The glyph of a character.
pub open spec fn glyph_of(c: char) -> Glyph {
    Glyph {
        width: utf8_width(c) as u8,
        alphanumeric: alphanumeric(c),
        alphabetic: alphabetic(c),
        lowercase: lowercase(c),
        uppercase: uppercase(c),
        whitespace: whitespace(c),
    }
}

/// The glyphs of a text, one for each character.
pub open spec fn glyphs_of(text: Seq<char>) -> Seq<Glyph> {
    Seq::new(text.len(), |i: int| glyph_of(text[i]))
}

impl Glyph {
    /// Classifies one character.
    pub fn of(c: char) -> (glyph: Glyph)
        ensures
            glyph == glyph_of(c),
    {
        let code: u32 = c as u32;
        let width: u8 = if code < 0x80 {
            1
        } else if code < 0x800 {
            2
        } else if code < 0x10000 {
            3
        } else {
            4
        };
        Glyph {
            width,
            alphanumeric: c.is_alphanumeric(),
            alphabetic: c.is_alphabetic(),
            lowercase: c.is_lowercase(),
            uppercase: c.is_uppercase(),
            whitespace: c.is_whitespace(),
        }
    }
}

/// Classifies every character of `text`, in order.
pub fn classify(text: &str) -> (glyphs: Vec<Glyph>)
    ensures
        glyphs@ == glyphs_of(text@),
{
    let mut glyphs: Vec<Glyph> = Vec::new();
    for c in it: text.chars()
        invariant
            it.seq() == text@,
            glyphs@.len() == it.index(),
            forall|j: int| 0 <= j < glyphs@.len() ==> glyphs@[j] == glyph_of(text@[j]),
    {
        glyphs.push(Glyph::of(c));
    }
    assert(glyphs@ =~= glyphs_of(text@));
    glyphs
}

} // verus!

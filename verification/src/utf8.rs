use crate::glyph::{glyph_of, glyphs_of, utf8_width};
use crate::pieces::{offset, total_width};
use crate::rope::{bytes_of, sliceable};
use crate::span::{slice, Span};
use vstd::prelude::*;
use vstd::utf8::{
    decode_utf8_encode_utf8, encode_scalar, encode_utf8, encode_utf8_decode_utf8,
    encode_utf8_first_scalar, encode_utf8_valid_utf8, is_char_boundary,
    is_char_boundary_iff_not_is_continuation_byte, is_char_boundary_start_end_of_seq,
    length_of_first_scalar, pop_first_scalar, valid_utf8, valid_utf8_split,
};

verus! {

/// The bytes of two texts put together are the bytes of the first followed
/// by the bytes of the second.
pub proof fn lemma_bytes_of_concat(a: Seq<char>, b: Seq<char>)
    ensures
        bytes_of(a + b) == bytes_of(a) + bytes_of(b),
    decreases a.len(),
{
    if a.len() == 0 {
        assert(a + b =~= b);
        assert(bytes_of(a) + bytes_of(b) =~= bytes_of(b));
    } else {
        assert((a + b).drop_first() =~= a.drop_first() + b);
        assert((a + b)[0] == a[0]);
        lemma_bytes_of_concat(a.drop_first(), b);
        assert(bytes_of(a + b) =~= bytes_of(a) + bytes_of(b));
    }
}

/// The bytes of a text of one character.
pub proof fn lemma_bytes_of_one(c: char)
    ensures
        bytes_of(seq![c]) == encode_scalar(c as u32),
        bytes_of(seq![c]).len() == utf8_width(c),
{
    let one = seq![c];
    assert(one.drop_first() =~= Seq::<char>::empty());
    assert(encode_utf8(one.drop_first()) =~= Seq::<u8>::empty());
    assert(encode_utf8(one) =~= encode_scalar(c as u32));
}

/// The byte offset of glyph `i` of a text is the number of bytes of the
/// characters before it.
pub proof fn lemma_offset_is_bytes(text: Seq<char>, i: int)
    requires
        0 <= i <= text.len(),
    ensures
        offset(glyphs_of(text), i) == bytes_of(text.take(i)).len(),
    decreases i,
{
    if i == 0 {
        assert(text.take(0) =~= Seq::<char>::empty());
    } else {
        lemma_offset_is_bytes(text, i - 1);
        assert(text.take(i) =~= text.take(i - 1) + seq![text[i - 1]]);
        lemma_bytes_of_concat(text.take(i - 1), seq![text[i - 1]]);
        lemma_bytes_of_one(text[i - 1]);
        assert(glyphs_of(text)[i - 1] == glyph_of(text[i - 1]));
    }
}

/// The glyphs of a text take as many bytes as the text.
pub proof fn lemma_total_width_is_len(text: Seq<char>)
    ensures
        total_width(glyphs_of(text)) == bytes_of(text).len(),
{
    lemma_offset_is_bytes(text, text.len() as int);
    assert(text.take(text.len() as int) =~= text);
}

/// The bytes between two boundaries of characters are themselves the bytes
/// of a text.
pub proof fn lemma_bytes_between_boundaries(bytes: Seq<u8>, low: int, high: int)
    requires
        valid_utf8(bytes),
        0 <= low <= high <= bytes.len(),
        is_char_boundary(bytes, low),
        is_char_boundary(bytes, high),
    ensures
        valid_utf8(bytes.subrange(low, high)),
{
    let head = bytes.subrange(0, high);
    valid_utf8_split(bytes, high);
    if low < high {
        is_char_boundary_iff_not_is_continuation_byte(bytes, low);
        assert(head[low] == bytes[low]);
        is_char_boundary_iff_not_is_continuation_byte(head, low);
    } else {
        is_char_boundary_start_end_of_seq(head);
    }
    valid_utf8_split(head, low);
    assert(head.subrange(low, head.len() as int) =~= bytes.subrange(low, high));
}

/// The text of a span has the bytes of the span: as many as the span is
/// long, and none beyond the end of the buffer.
pub proof fn lemma_slice_bytes(text: Seq<char>, span: Span)
    requires
        slice(text, span) is Some,
    ensures
        bytes_of(slice(text, span)->0) == bytes_of(text).subrange(
            span.low.0 as int,
            span.high.0 as int,
        ),
        bytes_of(slice(text, span)->0).len() == span.high.0 - span.low.0,
        span.low.0 <= span.high.0 <= bytes_of(text).len(),
{
    let bytes = bytes_of(text);
    encode_utf8_valid_utf8(text);
    lemma_bytes_between_boundaries(bytes, span.low.0 as int, span.high.0 as int);
    decode_utf8_encode_utf8(bytes.subrange(span.low.0 as int, span.high.0 as int));
}

/// Where a text follows another, the second starts at the boundary of a
/// character.
pub proof fn lemma_boundary_after_prefix(a: Seq<char>, b: Seq<char>)
    ensures
        is_char_boundary(bytes_of(a + b), bytes_of(a).len() as int),
    decreases a.len(),
{
    let bytes = bytes_of(a + b);
    encode_utf8_valid_utf8(a + b);
    lemma_bytes_of_concat(a, b);
    if a.len() == 0 {
        assert(bytes_of(a) =~= Seq::<u8>::empty());
    } else {
        let all = a + b;
        encode_utf8_first_scalar(all);
        assert(pop_first_scalar(bytes) =~= encode_utf8(all.drop_first()));
        assert(all.drop_first() =~= a.drop_first() + b);
        assert(all[0] == a[0]);
        lemma_boundary_after_prefix(a.drop_first(), b);
        assert(bytes_of(a) =~= encode_scalar(a[0] as u32) + bytes_of(a.drop_first()));
        assert(length_of_first_scalar(bytes) == encode_scalar(a[0] as u32).len());
        assert(bytes_of(a).len() - length_of_first_scalar(bytes) == bytes_of(a.drop_first()).len());
    }
}

/// The characters `i..j` of a text are the text of the bytes from the byte
/// offset of character `i` to that of character `j`.
pub proof fn lemma_char_range_is_sliceable(text: Seq<char>, i: int, j: int)
    requires
        0 <= i <= j <= text.len(),
    ensures
        sliceable(text, bytes_of(text.take(i)).len() as int, bytes_of(text.take(j)).len() as int),
        bytes_of(text).subrange(
            bytes_of(text.take(i)).len() as int,
            bytes_of(text.take(j)).len() as int,
        ) == bytes_of(text.subrange(i, j)),
{
    let head = text.take(i);
    let middle = text.subrange(i, j);
    let tail = text.skip(j);
    assert(text =~= head + text.skip(i));
    assert(text =~= text.take(j) + tail);
    assert(text.take(j) =~= head + middle);
    lemma_boundary_after_prefix(head, text.skip(i));
    lemma_boundary_after_prefix(text.take(j), tail);
    lemma_bytes_of_concat(text.take(j), tail);
    lemma_bytes_of_concat(head, middle);
    assert(bytes_of(text) =~= bytes_of(head) + bytes_of(middle) + bytes_of(tail));
    assert(bytes_of(text).subrange(
        bytes_of(head).len() as int,
        bytes_of(text.take(j)).len() as int,
    ) =~= bytes_of(middle));
}

/// Within the text of a span, the characters `i..j` are the text of the
/// span that starts at the byte offset of character `i` and ends at that of
/// character `j`, both counted from the start of the outer span.
pub proof fn lemma_slice_of_slice(text: Seq<char>, span: Span, inner: Span, i: int, j: int)
    requires
        slice(text, span) is Some,
        0 <= i <= j <= slice(text, span)->0.len(),
        inner.low.0 == span.low.0 + bytes_of(slice(text, span)->0.take(i)).len(),
        inner.high.0 == span.low.0 + bytes_of(slice(text, span)->0.take(j)).len(),
        inner != Span::dummy_spec(),
    ensures
        slice(text, inner) == Some(slice(text, span)->0.subrange(i, j)),
{
    let part = slice(text, span)->0;
    let bytes = bytes_of(text);
    let inside = bytes_of(part);
    let low = span.low.0 as int;
    let high = span.high.0 as int;
    let p = bytes_of(part.take(i)).len() as int;
    let q = bytes_of(part.take(j)).len() as int;
    lemma_slice_bytes(text, span);
    lemma_char_range_is_sliceable(part, i, j);
    encode_utf8_valid_utf8(text);
    encode_utf8_valid_utf8(part);
    assert(inside == bytes.subrange(low, high));
    assert(is_char_boundary(bytes, low + p)) by {
        if p < inside.len() {
            is_char_boundary_iff_not_is_continuation_byte(inside, p);
            assert(inside[p] == bytes[low + p]);
            is_char_boundary_iff_not_is_continuation_byte(bytes, low + p);
        }
    }
    assert(is_char_boundary(bytes, low + q)) by {
        if q < inside.len() {
            is_char_boundary_iff_not_is_continuation_byte(inside, q);
            assert(inside[q] == bytes[low + q]);
            is_char_boundary_iff_not_is_continuation_byte(bytes, low + q);
        }
    }
    assert(bytes.subrange(low + p, low + q) =~= inside.subrange(p, q));
    encode_utf8_decode_utf8(part.subrange(i, j));
}

/// Every character takes at least one byte, so a later glyph of a text
/// starts at a later byte.
pub proof fn lemma_offset_strict(text: Seq<char>, i: int, j: int)
    requires
        0 <= i < j <= text.len(),
    ensures
        offset(glyphs_of(text), i) < offset(glyphs_of(text), j),
    decreases j - i,
{
    assert(glyphs_of(text)[j - 1] == glyph_of(text[j - 1]));
    if i < j - 1 {
        lemma_offset_strict(text, i, j - 1);
    }
}

} // verus!

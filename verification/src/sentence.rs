use crate::casing::{token_of, tokens_of};
use crate::glyph::Glyph;
use crate::pieces::{
    lemma_offset_monotonic, lemma_ordered_concat, lemma_ordered_widen, lemma_pieces_from_separated,
    lemma_pieces_within, offset, ordered, pieces_of, str_split_indices, total_width, Piece,
    Separator,
};
use crate::processor::Token;
use crate::span::{BytePos, Span};
use vstd::prelude::*;

verus! {

/// The first alphabetic glyph of `start..end`, or `end` where there is none.
pub open spec fn trim_start(glyphs: Seq<Glyph>, start: int, end: int) -> int
    decreases end - start,
{
    if start >= end || glyphs[start].alphabetic {
        start
    } else {
        trim_start(glyphs, start + 1, end)
    }
}

/// The glyph after the last alphabetic glyph of `start..end`, or `start`
/// where there is none.
pub open spec fn trim_end(glyphs: Seq<Glyph>, start: int, end: int) -> int
    decreases end - start,
{
    if end <= start || glyphs[end - 1].alphabetic {
        end
    } else {
        trim_end(glyphs, start, end - 1)
    }
}

/// The glyphs `range.0..range.1` without the glyphs at both ends that are
/// not alphabetic. What lies between two alphabetic glyphs stays.
pub open spec fn trimmed(glyphs: Seq<Glyph>, range: (int, int)) -> (int, int) {
    let start = trim_start(glyphs, range.0, range.1);
    (start, trim_end(glyphs, start, range.1))
}

/// The words of the first `k` of `pieces`: each piece trimmed, and left out
/// where nothing remains.
pub open spec fn trimmed_pieces(glyphs: Seq<Glyph>, pieces: Seq<(int, int)>, k: int) -> Seq<
    (int, int),
>
    decreases k,
{
    if k <= 0 {
        Seq::empty()
    } else {
        let before = trimmed_pieces(glyphs, pieces, k - 1);
        let word = trimmed(glyphs, pieces[k - 1]);
        if word.0 < word.1 {
            before.push(word)
        } else {
            before
        }
    }
}

/// The words of a sentence: it is cut at white space, and each piece is
/// trimmed to its first and last alphabetic character.
pub open spec fn sentence_ranges(glyphs: Seq<Glyph>) -> Seq<(int, int)> {
    let pieces = pieces_of(glyphs, Separator::Whitespace);
    trimmed_pieces(glyphs, pieces, pieces.len() as int)
}

/// The tokens of a sentence whose first byte is byte `base` of the buffer.
pub open spec fn sentence_tokens(glyphs: Seq<Glyph>, base: BytePos) -> Seq<Token> {
    tokens_of(glyphs, base, sentence_ranges(glyphs))
}

/// A trimmed range lies within the range it was trimmed from.
pub proof fn lemma_trimmed_within(glyphs: Seq<Glyph>, range: (int, int))
    requires
        range.0 <= range.1,
    ensures
        range.0 <= trimmed(glyphs, range).0 <= trimmed(glyphs, range).1 <= range.1,
{
    lemma_trim_start_within(glyphs, range.0, range.1);
    lemma_trim_end_within(glyphs, trim_start(glyphs, range.0, range.1), range.1);
}

/// `trim_start` stays within the range.
pub proof fn lemma_trim_start_within(glyphs: Seq<Glyph>, start: int, end: int)
    requires
        start <= end,
    ensures
        start <= trim_start(glyphs, start, end) <= end,
    decreases end - start,
{
    if start < end && !glyphs[start].alphabetic {
        lemma_trim_start_within(glyphs, start + 1, end);
    }
}

/// `trim_end` stays within the range.
pub proof fn lemma_trim_end_within(glyphs: Seq<Glyph>, start: int, end: int)
    requires
        start <= end,
    ensures
        start <= trim_end(glyphs, start, end) <= end,
    decreases end - start,
{
    if start < end && !glyphs[end - 1].alphabetic {
        lemma_trim_end_within(glyphs, start, end - 1);
    }
}

/// Trims one piece of a sentence. Returns the trimmed range with the byte
/// offsets of its two ends.
fn trim_piece(glyphs: &Vec<Glyph>, piece: Piece) -> (word: (usize, usize, usize, usize))
    requires
        piece.start <= piece.end <= glyphs@.len(),
        piece.low == offset(glyphs@, piece.start as int),
        total_width(glyphs@) <= usize::MAX,
    ensures
        (word.0 as int, word.1 as int) == trimmed(glyphs@, (piece.start as int, piece.end as int)),
        word.2 == offset(glyphs@, word.0 as int),
        word.3 == offset(glyphs@, word.1 as int),
{
    let end = piece.end;
    let mut i: usize = piece.start;
    let mut byte: usize = piece.low;
    while i < end && !glyphs[i].alphabetic
        invariant
            piece.start <= i <= end <= glyphs@.len(),
            total_width(glyphs@) <= usize::MAX,
            byte == offset(glyphs@, i as int),
            trim_start(glyphs@, i as int, end as int) == trim_start(
                glyphs@,
                piece.start as int,
                end as int,
            ),
        decreases end - i,
    {
        proof {
            lemma_offset_monotonic(glyphs@, i as int + 1, glyphs@.len() as int);
        }
        byte = byte + glyphs[i].width as usize;
        i = i + 1;
    }
    let start = i;
    let start_byte = byte;
    let mut last = i;
    let mut last_byte = byte;
    while i < end
        invariant
            start <= i <= end <= glyphs@.len(),
            total_width(glyphs@) <= usize::MAX,
            byte == offset(glyphs@, i as int),
            start <= last <= i,
            last == trim_end(glyphs@, start as int, i as int),
            last_byte == offset(glyphs@, last as int),
        decreases end - i,
    {
        proof {
            lemma_offset_monotonic(glyphs@, i as int + 1, glyphs@.len() as int);
        }
        byte = byte + glyphs[i].width as usize;
        if glyphs[i].alphabetic {
            last = i + 1;
            last_byte = byte;
        }
        i = i + 1;
    }
    (start, last, start_byte, last_byte)
}

/// Splits a sentence into its words: the text is cut at white space, and
/// each piece is trimmed to its first and last alphabetic character; a piece
/// without an alphabetic character gives no word. `glyphs` are the glyphs of
/// the sentence and `base` is where it starts in the buffer.
pub fn split_words(glyphs: &Vec<Glyph>, base: BytePos) -> (tokens: Vec<Token>)
    requires
        base.0 + total_width(glyphs@) <= u32::MAX,
    ensures
        tokens@ == sentence_tokens(glyphs@, base),
{
    let pieces = str_split_indices(glyphs, Separator::Whitespace);
    let ghost runs = pieces_of(glyphs@, Separator::Whitespace);
    let mut tokens: Vec<Token> = Vec::new();
    let mut k: usize = 0;
    proof {
        assert(tokens@ =~= tokens_of(glyphs@, base, trimmed_pieces(glyphs@, runs, 0)));
    }
    while k < pieces.len()
        invariant
            0 <= k <= pieces@.len(),
            runs == pieces_of(glyphs@, Separator::Whitespace),
            pieces@.len() == runs.len(),
            forall|j: int| 0 <= j < pieces@.len() ==> (#[trigger] pieces@[j]).covers(glyphs@, runs[j]),
            base.0 + total_width(glyphs@) <= u32::MAX,
            tokens@ == tokens_of(glyphs@, base, trimmed_pieces(glyphs@, runs, k as int)),
        decreases pieces@.len() - k,
    {
        let piece = pieces[k];
        proof {
            lemma_pieces_within(glyphs@, Separator::Whitespace, k as int);
        }
        let (start, end, start_byte, end_byte) = trim_piece(glyphs, piece);
        if start < end {
            proof {
                let before = trimmed_pieces(glyphs@, runs, k as int);
                let word = (start as int, end as int);
                lemma_trimmed_within(glyphs@, runs[k as int]);
                lemma_offset_monotonic(glyphs@, start as int, end as int);
                lemma_offset_monotonic(glyphs@, end as int, glyphs@.len() as int);
                assert(tokens@.push(token_of(glyphs@, base, word)) =~= tokens_of(
                    glyphs@,
                    base,
                    before.push(word),
                ));
            }
            tokens.push(
                Token::new_word(
                    Span::new(
                        BytePos(base.0 + start_byte as u32),
                        BytePos(base.0 + end_byte as u32),
                    ),
                ),
            );
        }
        k = k + 1;
    }
    tokens
}

/// The words of the first `k` pieces of a sentence are in order, and none of
/// them ends after the last of these pieces does.
pub proof fn lemma_trimmed_pieces_ordered(glyphs: Seq<Glyph>, k: int)
    requires
        0 <= k <= pieces_of(glyphs, Separator::Whitespace).len(),
    ensures
        ordered(
            trimmed_pieces(glyphs, pieces_of(glyphs, Separator::Whitespace), k),
            0,
            if k == 0 {
                0
            } else {
                pieces_of(glyphs, Separator::Whitespace)[k - 1].1
            },
        ),
    decreases k,
{
    let pieces = pieces_of(glyphs, Separator::Whitespace);
    lemma_pieces_from_separated(glyphs, Separator::Whitespace, 0);
    if k > 0 {
        let piece = pieces[k - 1];
        let before = trimmed_pieces(glyphs, pieces, k - 1);
        let word = trimmed(glyphs, piece);
        lemma_trimmed_pieces_ordered(glyphs, k - 1);
        lemma_trimmed_within(glyphs, piece);
        let mid = if k == 1 {
            0
        } else {
            pieces[k - 2].1
        };
        if k > 1 {
            assert(pieces[k - 2].1 < pieces[k - 1].0);
        }
        lemma_ordered_widen(before, 0, mid, 0, piece.0);
        if word.0 < word.1 {
            assert(ordered(seq![word], piece.0, piece.1));
            lemma_ordered_concat(before, seq![word], 0, piece.0, piece.1);
            assert(before + seq![word] =~= before.push(word));
        } else {
            lemma_ordered_widen(before, 0, piece.0, 0, piece.1);
        }
    }
}

/// The words of a sentence lie within it, hold at least one glyph each, and
/// come in order without overlap.
pub proof fn lemma_sentence_ranges_ordered(glyphs: Seq<Glyph>)
    ensures
        ordered(sentence_ranges(glyphs), 0, glyphs.len() as int),
{
    let pieces = pieces_of(glyphs, Separator::Whitespace);
    lemma_pieces_from_separated(glyphs, Separator::Whitespace, 0);
    lemma_trimmed_pieces_ordered(glyphs, pieces.len() as int);
    if pieces.len() > 0 {
        lemma_ordered_widen(
            sentence_ranges(glyphs),
            0,
            pieces[pieces.len() - 1].1,
            0,
            glyphs.len() as int,
        );
    }
}

/// A word of a sentence starts and ends with an alphabetic character.
pub proof fn lemma_trimmed_ends_alphabetic(glyphs: Seq<Glyph>, range: (int, int))
    requires
        0 <= range.0 <= range.1 <= glyphs.len(),
        trimmed(glyphs, range).0 < trimmed(glyphs, range).1,
    ensures
        glyphs[trimmed(glyphs, range).0].alphabetic,
        glyphs[trimmed(glyphs, range).1 - 1].alphabetic,
        forall|j: int| range.0 <= j < trimmed(glyphs, range).0 ==> !(#[trigger] glyphs[j]).alphabetic,
        forall|j: int| trimmed(glyphs, range).1 <= j < range.1 ==> !(#[trigger] glyphs[j]).alphabetic,
{
    lemma_trim_start_finds(glyphs, range.0, range.1);
    lemma_trim_end_finds(glyphs, trim_start(glyphs, range.0, range.1), range.1);
    lemma_trim_start_within(glyphs, range.0, range.1);
}

/// `trim_start` passes only glyphs that are not alphabetic, and stops at an
/// alphabetic one or at the end.
pub proof fn lemma_trim_start_finds(glyphs: Seq<Glyph>, start: int, end: int)
    requires
        start <= end,
    ensures
        forall|j: int| start <= j < trim_start(glyphs, start, end) ==> !(#[trigger] glyphs[j]).alphabetic,
        trim_start(glyphs, start, end) < end ==> glyphs[trim_start(glyphs, start, end)].alphabetic,
    decreases end - start,
{
    if start < end && !glyphs[start].alphabetic {
        lemma_trim_start_finds(glyphs, start + 1, end);
    }
}

/// `trim_end` passes only glyphs that are not alphabetic, and stops after
/// an alphabetic one or at the start.
pub proof fn lemma_trim_end_finds(glyphs: Seq<Glyph>, start: int, end: int)
    requires
        start <= end,
    ensures
        forall|j: int| trim_end(glyphs, start, end) <= j < end ==> !(#[trigger] glyphs[j]).alphabetic,
        start < trim_end(glyphs, start, end) ==> glyphs[trim_end(glyphs, start, end) - 1].alphabetic,
    decreases end - start,
{
    if start < end && !glyphs[end - 1].alphabetic {
        lemma_trim_end_finds(glyphs, start, end - 1);
    }
}

} // verus!

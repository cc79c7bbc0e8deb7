use crate::glyph::Glyph;
use crate::pieces::{
    lemma_offset_monotonic, lemma_ordered_concat, lemma_ordered_widen, lemma_pieces_from_separated,
    offset, ordered, pieces_of, str_split_indices, total_width, Piece, Separator,
};
use crate::processor::{Token, TokenKind};
use crate::span::{BytePos, Span};
use vstd::prelude::*;

verus! {

/// The casing of the cased characters seen so far in the current word.
#[derive(Clone, Copy, PartialEq, Eq, Structural, Debug)]
pub enum WordMode {
    /// No lowercase or uppercase character has been seen in the current
    /// word.
    Boundary,
    /// The last cased character of the current word is lowercase.
    Lowercase,
    /// The last cased character of the current word is uppercase.
    Uppercase,
}

/// The mode once `glyph` is part of the current word: a character that is
/// neither lowercase nor uppercase leaves the mode as it is.
pub open spec fn next_mode(mode: WordMode, glyph: Glyph) -> WordMode {
    if glyph.lowercase {
        WordMode::Lowercase
    } else if glyph.uppercase {
        WordMode::Uppercase
    } else {
        mode
    }
}

/// A boundary falls after `current` when the word is in lowercase mode with
/// it and an uppercase character follows.
pub open spec fn boundary_after(mode: WordMode, current: Glyph, next: Glyph) -> bool {
    next_mode(mode, current) == WordMode::Lowercase && next.uppercase
}

/// A boundary falls before `current` when the word is in uppercase mode,
/// `current` is uppercase and a lowercase character follows: `current`
/// starts the next word, and the run of capitals before it stays whole.
pub open spec fn boundary_before(mode: WordMode, current: Glyph, next: Glyph) -> bool {
    mode == WordMode::Uppercase && current.uppercase && next.lowercase
}

/// The words that the scan of the glyphs up to `end` yields from glyph `i`
/// on, when the current word starts at glyph `init` and is in mode `mode`.
/// Each word is given by the indices of its first glyph and of the glyph
/// after its last one.
pub open spec fn words_from(glyphs: Seq<Glyph>, end: int, i: int, init: int, mode: WordMode) -> Seq<
    (int, int),
>
    decreases end - i,
{
    if i >= end {
        Seq::empty()
    } else if i + 1 == end {
        seq![(init, end)]
    } else if boundary_after(mode, glyphs[i], glyphs[i + 1]) {
        seq![(init, i + 1)] + words_from(glyphs, end, i + 1, i + 1, WordMode::Boundary)
    } else if boundary_before(mode, glyphs[i], glyphs[i + 1]) {
        seq![(init, i)] + words_from(glyphs, end, i + 1, i, WordMode::Boundary)
    } else {
        words_from(glyphs, end, i + 1, init, next_mode(mode, glyphs[i]))
    }
}

/// The words of the glyphs `start..end`, split at their casing boundaries.
pub open spec fn casing_words(glyphs: Seq<Glyph>, start: int, end: int) -> Seq<(int, int)> {
    words_from(glyphs, end, start, start, WordMode::Boundary)
}

/// The words of the first `k` of `pieces`, in order.
pub open spec fn words_of_pieces(glyphs: Seq<Glyph>, pieces: Seq<(int, int)>, k: int) -> Seq<
    (int, int),
>
    decreases k,
{
    if k <= 0 {
        Seq::empty()
    } else {
        words_of_pieces(glyphs, pieces, k - 1) + casing_words(
            glyphs,
            pieces[k - 1].0,
            pieces[k - 1].1,
        )
    }
}

/// The words of an identifier: it is cut at every character that is not
/// alphanumeric, and each piece is split at its casing boundaries.
pub open spec fn casing_ranges(glyphs: Seq<Glyph>) -> Seq<(int, int)> {
    let pieces = pieces_of(glyphs, Separator::NonAlphanumeric);
    words_of_pieces(glyphs, pieces, pieces.len() as int)
}

/// The token of the glyphs `range.0..range.1` of a text whose first byte is
/// byte `base` of the buffer.
pub open spec fn token_of(glyphs: Seq<Glyph>, base: BytePos, range: (int, int)) -> Token {
    Token {
        kind: TokenKind::Word,
        span: Span {
            low: BytePos((base.0 + offset(glyphs, range.0)) as u32),
            high: BytePos((base.0 + offset(glyphs, range.1)) as u32),
        },
    }
}

/// The tokens of `ranges`, in order.
pub open spec fn tokens_of(glyphs: Seq<Glyph>, base: BytePos, ranges: Seq<(int, int)>) -> Seq<
    Token,
> {
    Seq::new(ranges.len(), |k: int| token_of(glyphs, base, ranges[k]))
}

/// The tokens of an identifier whose first byte is byte `base` of the
/// buffer.
pub open spec fn casing_tokens(glyphs: Seq<Glyph>, base: BytePos) -> Seq<Token> {
    tokens_of(glyphs, base, casing_ranges(glyphs))
}

/// The mode once `glyph` is part of the current word.
fn advance_mode(mode: WordMode, glyph: &Glyph) -> (next: WordMode)
    ensures
        next == next_mode(mode, *glyph),
{
    if glyph.lowercase {
        WordMode::Lowercase
    } else if glyph.uppercase {
        WordMode::Uppercase
    } else {
        mode
    }
}

/// Splits the glyphs of one piece at its casing boundaries and appends the
/// tokens to `tokens`.
fn split_piece(
    glyphs: &Vec<Glyph>,
    base: BytePos,
    piece: Piece,
    tokens: &mut Vec<Token>,
    Ghost(before): Ghost<Seq<(int, int)>>,
)
    requires
        piece.start <= piece.end <= glyphs@.len(),
        piece.low == offset(glyphs@, piece.start as int),
        base.0 + total_width(glyphs@) <= u32::MAX,
        old(tokens)@ == tokens_of(glyphs@, base, before),
    ensures
        final(tokens)@ == tokens_of(
            glyphs@,
            base,
            before + casing_words(glyphs@, piece.start as int, piece.end as int),
        ),
{
    proof {
        lemma_offset_monotonic(glyphs@, piece.start as int, glyphs@.len() as int);
    }
    let end = piece.end;
    let mut i: usize = piece.start;
    let mut byte: u32 = base.0 + piece.low as u32;
    let mut init_byte: u32 = byte;
    let mut mode = WordMode::Boundary;
    let ghost init: int = piece.start as int;
    let ghost done: Seq<(int, int)> = before;
    proof {
        assert(before + casing_words(glyphs@, piece.start as int, piece.end as int) =~= done
            + words_from(glyphs@, end as int, i as int, init, mode));
    }
    while i < end
        invariant
            piece.start <= i <= end <= glyphs@.len(),
            piece.start <= init <= i,
            base.0 + total_width(glyphs@) <= u32::MAX,
            byte == base.0 + offset(glyphs@, i as int),
            init_byte == base.0 + offset(glyphs@, init),
            tokens@ == tokens_of(glyphs@, base, done),
            done + words_from(glyphs@, end as int, i as int, init, mode) == before + casing_words(
                glyphs@,
                piece.start as int,
                piece.end as int,
            ),
        decreases end - i,
    {
        let current = glyphs[i];
        proof {
            lemma_offset_monotonic(glyphs@, i as int + 1, glyphs@.len() as int);
            lemma_offset_monotonic(glyphs@, init, i as int);
        }
        let next_byte: u32 = byte + current.width as u32;
        let ghost rest = words_from(glyphs@, end as int, i as int + 1, i as int + 1, WordMode::Boundary);
        if i + 1 == end {
            proof {
                let word = (init, end as int);
                assert(tokens@.push(token_of(glyphs@, base, word)) =~= tokens_of(
                    glyphs@,
                    base,
                    done.push(word),
                ));
                assert(done + seq![word] =~= done.push(word));
                assert(done.push(word) + words_from(
                    glyphs@,
                    end as int,
                    end as int,
                    init,
                    mode,
                ) =~= done.push(word));
                done = done.push(word);
            }
            tokens.push(Token::new_word(Span::new(BytePos(init_byte), BytePos(next_byte))));
        } else {
            let next = glyphs[i + 1];
            let with_current = advance_mode(mode, &current);
            if with_current == WordMode::Lowercase && next.uppercase {
                proof {
                    let word = (init, i as int + 1);
                    assert(tokens@.push(token_of(glyphs@, base, word)) =~= tokens_of(
                        glyphs@,
                        base,
                        done.push(word),
                    ));
                    assert(done + (seq![word] + rest) =~= done.push(word) + rest);
                    done = done.push(word);
                    init = i as int + 1;
                }
                tokens.push(Token::new_word(Span::new(BytePos(init_byte), BytePos(next_byte))));
                init_byte = next_byte;
                mode = WordMode::Boundary;
            } else if mode == WordMode::Uppercase && current.uppercase && next.lowercase {
                proof {
                    let word = (init, i as int);
                    let rest = words_from(
                        glyphs@,
                        end as int,
                        i as int + 1,
                        i as int,
                        WordMode::Boundary,
                    );
                    lemma_offset_monotonic(glyphs@, init, i as int);
                    assert(tokens@.push(token_of(glyphs@, base, word)) =~= tokens_of(
                        glyphs@,
                        base,
                        done.push(word),
                    ));
                    assert(done + (seq![word] + rest) =~= done.push(word) + rest);
                    done = done.push(word);
                    init = i as int;
                }
                tokens.push(Token::new_word(Span::new(BytePos(init_byte), BytePos(byte))));
                init_byte = byte;
                mode = WordMode::Boundary;
            } else {
                mode = with_current;
            }
        }
        byte = next_byte;
        i = i + 1;
    }
    proof {
        assert(done + Seq::<(int, int)>::empty() =~= done);
    }
}

/// Splits an identifier into its words: the text is cut at every character
/// that is not alphanumeric, and each piece at its casing boundaries.
/// `glyphs` are the glyphs of the identifier and `base` is where it starts in
/// the buffer.
pub fn split_casing(glyphs: &Vec<Glyph>, base: BytePos) -> (tokens: Vec<Token>)
    requires
        base.0 + total_width(glyphs@) <= u32::MAX,
    ensures
        tokens@ == casing_tokens(glyphs@, base),
{
    let pieces = str_split_indices(glyphs, Separator::NonAlphanumeric);
    let ghost runs = pieces_of(glyphs@, Separator::NonAlphanumeric);
    let mut tokens: Vec<Token> = Vec::new();
    let mut k: usize = 0;
    proof {
        assert(tokens@ =~= tokens_of(glyphs@, base, words_of_pieces(glyphs@, runs, 0)));
    }
    while k < pieces.len()
        invariant
            0 <= k <= pieces@.len(),
            runs == pieces_of(glyphs@, Separator::NonAlphanumeric),
            pieces@.len() == runs.len(),
            forall|j: int| 0 <= j < pieces@.len() ==> (#[trigger] pieces@[j]).covers(glyphs@, runs[j]),
            base.0 + total_width(glyphs@) <= u32::MAX,
            tokens@ == tokens_of(glyphs@, base, words_of_pieces(glyphs@, runs, k as int)),
        decreases pieces@.len() - k,
    {
        let piece = pieces[k];
        proof {
            crate::pieces::lemma_pieces_within(glyphs@, Separator::NonAlphanumeric, k as int);
        }
        split_piece(
            glyphs,
            base,
            piece,
            &mut tokens,
            Ghost(words_of_pieces(glyphs@, runs, k as int)),
        );
        k = k + 1;
    }
    tokens
}

/// Whether `words` cut `lo..hi` into parts: the first starts at `lo`, each
/// holds at least one glyph and ends where the next one starts, and the last
/// ends at `hi`.
pub open spec fn partitions(words: Seq<(int, int)>, lo: int, hi: int) -> bool {
    &&& words.len() > 0
    &&& words[0].0 == lo
    &&& words[words.len() - 1].1 == hi
    &&& forall|k: int| 0 <= k < words.len() ==> (#[trigger] words[k]).0 < words[k].1
    &&& forall|k: int| 0 <= k < words.len() - 1 ==> (#[trigger] words[k]).1 == words[k + 1].0
}

/// The scan loses nothing and yields no empty word: the words that it
/// yields from glyph `i` on cut the glyphs from the start of the current word
/// to the end into parts.
pub proof fn lemma_words_partition(glyphs: Seq<Glyph>, end: int, i: int, init: int, mode: WordMode)
    requires
        init <= i < end,
        mode != WordMode::Boundary ==> init < i,
    ensures
        partitions(words_from(glyphs, end, i, init, mode), init, end),
    decreases end - i,
{
    let words = words_from(glyphs, end, i, init, mode);
    if i + 1 == end {
    } else if boundary_after(mode, glyphs[i], glyphs[i + 1]) {
        let rest = words_from(glyphs, end, i + 1, i + 1, WordMode::Boundary);
        lemma_words_partition(glyphs, end, i + 1, i + 1, WordMode::Boundary);
        lemma_partition_push_front((init, i + 1), rest, end);
    } else if boundary_before(mode, glyphs[i], glyphs[i + 1]) {
        let rest = words_from(glyphs, end, i + 1, i, WordMode::Boundary);
        lemma_words_partition(glyphs, end, i + 1, i, WordMode::Boundary);
        lemma_partition_push_front((init, i), rest, end);
    } else {
        lemma_words_partition(glyphs, end, i + 1, init, next_mode(mode, glyphs[i]));
    }
}

/// A word that ends where a partition starts makes, put before it, a
/// partition that starts where the word starts.
pub proof fn lemma_partition_push_front(word: (int, int), rest: Seq<(int, int)>, hi: int)
    requires
        word.0 < word.1,
        partitions(rest, word.1, hi),
    ensures
        partitions(seq![word] + rest, word.0, hi),
{
    let all = seq![word] + rest;
    assert(all[0] == word);
    assert forall|k: int| 0 <= k < all.len() implies (#[trigger] all[k]).0 < all[k].1 by {
        if k > 0 {
            assert(all[k] == rest[k - 1]);
        }
    }
    assert forall|k: int| 0 <= k < all.len() - 1 implies (#[trigger] all[k]).1 == all[k + 1].0 by {
        assert(all[k + 1] == rest[k]);
        if k > 0 {
            assert(all[k] == rest[k - 1]);
        }
    }
    assert(all[all.len() - 1] == rest[rest.len() - 1]);
}

/// No word of a partition starts before the partition does.
pub proof fn lemma_partition_starts(words: Seq<(int, int)>, lo: int, hi: int, k: int)
    requires
        partitions(words, lo, hi),
        0 <= k < words.len(),
    ensures
        lo <= words[k].0,
    decreases k,
{
    if k > 0 {
        lemma_partition_starts(words, lo, hi, k - 1);
        assert(words[k - 1].1 == words[k].0);
    }
}

/// No word of a partition ends after the partition does.
pub proof fn lemma_partition_ends(words: Seq<(int, int)>, lo: int, hi: int, k: int)
    requires
        partitions(words, lo, hi),
        0 <= k < words.len(),
    ensures
        words[k].1 <= hi,
    decreases words.len() - k,
{
    if k < words.len() - 1 {
        lemma_partition_ends(words, lo, hi, k + 1);
        assert(words[k].1 == words[k + 1].0);
    }
}

/// A later word of a partition starts no earlier than an earlier one ends.
pub proof fn lemma_partition_follows(words: Seq<(int, int)>, lo: int, hi: int, k: int, l: int)
    requires
        partitions(words, lo, hi),
        0 <= k < l < words.len(),
    ensures
        words[k].1 <= words[l].0,
    decreases l - k,
{
    if k + 1 < l {
        lemma_partition_follows(words, lo, hi, k, l - 1);
        assert(words[l - 1].1 == words[l].0);
    } else {
        assert(words[k].1 == words[k + 1].0);
    }
}

/// The words of a partition are in order.
pub proof fn lemma_partition_ordered(words: Seq<(int, int)>, lo: int, hi: int)
    requires
        partitions(words, lo, hi),
    ensures
        ordered(words, lo, hi),
{
    assert forall|k: int| 0 <= k < words.len() implies lo <= (#[trigger] words[k]).0 < words[k].1
        <= hi by {
        lemma_partition_starts(words, lo, hi, k);
        lemma_partition_ends(words, lo, hi, k);
    }
    assert forall|k: int, l: int| 0 <= k < l < words.len() implies (#[trigger] words[k]).1 <= (
    #[trigger] words[l]).0 by {
        lemma_partition_follows(words, lo, hi, k, l);
    }
}

/// The words of the first `k` pieces of an identifier are in order, and
/// none of them ends after the last of these pieces does.
pub proof fn lemma_words_of_pieces_ordered(glyphs: Seq<Glyph>, k: int)
    requires
        0 <= k <= pieces_of(glyphs, Separator::NonAlphanumeric).len(),
    ensures
        ordered(
            words_of_pieces(glyphs, pieces_of(glyphs, Separator::NonAlphanumeric), k),
            0,
            if k == 0 {
                0
            } else {
                pieces_of(glyphs, Separator::NonAlphanumeric)[k - 1].1
            },
        ),
    decreases k,
{
    let pieces = pieces_of(glyphs, Separator::NonAlphanumeric);
    lemma_pieces_from_separated(glyphs, Separator::NonAlphanumeric, 0);
    if k > 0 {
        let piece = pieces[k - 1];
        let before = words_of_pieces(glyphs, pieces, k - 1);
        let words = casing_words(glyphs, piece.0, piece.1);
        lemma_words_of_pieces_ordered(glyphs, k - 1);
        lemma_words_partition(glyphs, piece.1, piece.0, piece.0, WordMode::Boundary);
        lemma_partition_ordered(words, piece.0, piece.1);
        let mid = if k == 1 {
            0
        } else {
            pieces[k - 2].1
        };
        if k > 1 {
            assert(pieces[k - 2].1 < pieces[k - 1].0);
        }
        lemma_ordered_widen(before, 0, mid, 0, piece.0);
        lemma_ordered_concat(before, words, 0, piece.0, piece.1);
    }
}

/// The words of an identifier lie within it, hold at least one glyph each,
/// and come in order without overlap.
pub proof fn lemma_casing_ranges_ordered(glyphs: Seq<Glyph>)
    ensures
        ordered(casing_ranges(glyphs), 0, glyphs.len() as int),
{
    let pieces = pieces_of(glyphs, Separator::NonAlphanumeric);
    lemma_pieces_from_separated(glyphs, Separator::NonAlphanumeric, 0);
    lemma_words_of_pieces_ordered(glyphs, pieces.len() as int);
    if pieces.len() > 0 {
        lemma_ordered_widen(
            casing_ranges(glyphs),
            0,
            pieces[pieces.len() - 1].1,
            0,
            glyphs.len() as int,
        );
    }
}

/// The tokens of ranges in order lie within the bytes of the text and come
/// in order without overlap.
pub proof fn lemma_tokens_ordered(glyphs: Seq<Glyph>, base: BytePos, ranges: Seq<(int, int)>)
    requires
        ordered(ranges, 0, glyphs.len() as int),
        base.0 + total_width(glyphs) <= u32::MAX,
    ensures
        forall|k: int|
            0 <= k < ranges.len() ==> {
                let span = (#[trigger] tokens_of(glyphs, base, ranges)[k]).span;
                base.0 <= span.low.0 <= span.high.0 <= base.0 + total_width(glyphs)
            },
        forall|k: int, l: int|
            0 <= k < l < ranges.len() ==> (#[trigger] tokens_of(glyphs, base, ranges)[k]).span.high.0
                <= (#[trigger] tokens_of(glyphs, base, ranges)[l]).span.low.0,
{
    let tokens = tokens_of(glyphs, base, ranges);
    assert forall|k: int| 0 <= k < ranges.len() implies {
        let span = (#[trigger] tokens[k]).span;
        base.0 <= span.low.0 <= span.high.0 <= base.0 + total_width(glyphs)
    } by {
        lemma_offset_monotonic(glyphs, 0, ranges[k].0);
        lemma_offset_monotonic(glyphs, ranges[k].0, ranges[k].1);
        lemma_offset_monotonic(glyphs, ranges[k].1, glyphs.len() as int);
    }
    assert forall|k: int, l: int| 0 <= k < l < ranges.len() implies (#[trigger] tokens[k]).span.high.0
        <= (#[trigger] tokens[l]).span.low.0 by {
        lemma_offset_monotonic(glyphs, 0, ranges[k].0);
        lemma_offset_monotonic(glyphs, ranges[k].1, ranges[l].0);
        lemma_offset_monotonic(glyphs, ranges[l].1, glyphs.len() as int);
        lemma_offset_monotonic(glyphs, ranges[k].0, ranges[k].1);
        lemma_offset_monotonic(glyphs, ranges[l].0, ranges[l].1);
    }
}

/// Whether no glyph of `glyphs` is both lowercase and uppercase.
pub open spec fn one_case_each(glyphs: Seq<Glyph>) -> bool {
    forall|i: int| 0 <= i < glyphs.len() ==> !((#[trigger] glyphs[i]).lowercase && glyphs[i].uppercase)
}

/// Where the scan stands before glyph `i` in a state that a scan of the
/// current word alone would also have reached, each word that it yields from
/// there on is, split again, that word alone.
pub proof fn lemma_words_stay_whole(glyphs: Seq<Glyph>, end: int, i: int, init: int, mode: WordMode)
    requires
        one_case_each(glyphs),
        0 <= init <= i < end <= glyphs.len(),
        mode != WordMode::Boundary ==> init < i,
        forall|b: int|
            i < b <= end ==> #[trigger] casing_words(glyphs, init, b) == words_from(
                glyphs,
                b,
                i,
                init,
                mode,
            ),
        init < i ==> casing_words(glyphs, init, i) == seq![(init, i)],
    ensures
        forall|k: int|
            0 <= k < words_from(glyphs, end, i, init, mode).len() ==> casing_words(
                glyphs,
                (#[trigger] words_from(glyphs, end, i, init, mode)[k]).0,
                words_from(glyphs, end, i, init, mode)[k].1,
            ) == seq![words_from(glyphs, end, i, init, mode)[k]],
    decreases end - i,
{
    let words = words_from(glyphs, end, i, init, mode);
    if i + 1 == end {
        assert(casing_words(glyphs, init, end) == words);
        assert(words == seq![(init, end)]);
        assert(words[0] == (init, end));
    } else if boundary_after(mode, glyphs[i], glyphs[i + 1]) {
        let rest = words_from(glyphs, end, i + 1, i + 1, WordMode::Boundary);
        assert(casing_words(glyphs, init, i + 1) == words_from(glyphs, i + 1, i, init, mode));
        assert(words_from(glyphs, i + 1, i, init, mode) == seq![(init, i + 1)]);
        lemma_words_stay_whole(glyphs, end, i + 1, i + 1, WordMode::Boundary);
        assert(words == seq![(init, i + 1)] + rest);
        assert forall|k: int| 0 <= k < words.len() implies casing_words(
            glyphs,
            (#[trigger] words[k]).0,
            words[k].1,
        ) == seq![words[k]] by {
            if k > 0 {
                assert(words[k] == rest[k - 1]);
            } else {
                assert(words[0] == (init, i + 1));
            }
        }
    } else if boundary_before(mode, glyphs[i], glyphs[i + 1]) {
        let rest = words_from(glyphs, end, i + 1, i, WordMode::Boundary);
        assert forall|b: int| i + 1 < b <= end implies #[trigger] casing_words(glyphs, i, b)
            == words_from(glyphs, b, i + 1, i, WordMode::Boundary) by {
            assert(!glyphs[i].lowercase);
            assert(!glyphs[i + 1].uppercase);
            assert(casing_words(glyphs, i, b) == words_from(
                glyphs,
                b,
                i + 1,
                i,
                WordMode::Uppercase,
            ));
            lemma_mode_forgotten(glyphs, b, i + 1, i);
        }
        assert(casing_words(glyphs, i, i + 1) == seq![(i, i + 1)]);
        lemma_words_stay_whole(glyphs, end, i + 1, i, WordMode::Boundary);
        assert(words == seq![(init, i)] + rest);
        assert forall|k: int| 0 <= k < words.len() implies casing_words(
            glyphs,
            (#[trigger] words[k]).0,
            words[k].1,
        ) == seq![words[k]] by {
            if k > 0 {
                assert(words[k] == rest[k - 1]);
            } else {
                assert(words[0] == (init, i));
            }
        }
    } else {
        let with_current = next_mode(mode, glyphs[i]);
        assert forall|b: int| i + 1 < b <= end implies #[trigger] casing_words(glyphs, init, b)
            == words_from(glyphs, b, i + 1, init, with_current) by {
            assert(casing_words(glyphs, init, b) == words_from(glyphs, b, i, init, mode));
        }
        assert(casing_words(glyphs, init, i + 1) == words_from(glyphs, i + 1, i, init, mode));
        assert(words_from(glyphs, i + 1, i, init, mode) == seq![(init, i + 1)]);
        lemma_words_stay_whole(glyphs, end, i + 1, init, with_current);
        assert(words == words_from(glyphs, end, i + 1, init, with_current));
    }
}

/// Before a lowercase glyph that is not uppercase, the scan goes on in the
/// same way from uppercase mode as from no mode.
pub proof fn lemma_mode_forgotten(glyphs: Seq<Glyph>, end: int, i: int, init: int)
    requires
        0 <= i < end <= glyphs.len(),
        glyphs[i].lowercase,
        !glyphs[i].uppercase,
    ensures
        words_from(glyphs, end, i, init, WordMode::Uppercase) == words_from(
            glyphs,
            end,
            i,
            init,
            WordMode::Boundary,
        ),
{
}

/// Splitting is idempotent: where no character is both lowercase and
/// uppercase, each word that the split of the glyphs `start..end` yields
/// is, split again, that word alone.
pub proof fn lemma_casing_idempotent(glyphs: Seq<Glyph>, start: int, end: int)
    requires
        one_case_each(glyphs),
        0 <= start <= end <= glyphs.len(),
    ensures
        forall|k: int|
            0 <= k < casing_words(glyphs, start, end).len() ==> casing_words(
                glyphs,
                (#[trigger] casing_words(glyphs, start, end)[k]).0,
                casing_words(glyphs, start, end)[k].1,
            ) == seq![casing_words(glyphs, start, end)[k]],
{
    if start < end {
        lemma_words_stay_whole(glyphs, end, start, start, WordMode::Boundary);
    }
}

/// The casing of the last cased glyph among the glyphs `start..j`, or no
/// casing where none of them is cased.
pub open spec fn case_before(glyphs: Seq<Glyph>, start: int, j: int) -> WordMode
    decreases j - start,
{
    if j <= start {
        WordMode::Boundary
    } else {
        next_mode(case_before(glyphs, start, j - 1), glyphs[j - 1])
    }
}

/// Whether a word starts at glyph `j` within the glyphs `start..end`: the
/// glyph is uppercase and either the last cased glyph before it is
/// lowercase, or that one is uppercase and a lowercase glyph follows.
pub open spec fn starts_word(glyphs: Seq<Glyph>, start: int, end: int, j: int) -> bool {
    &&& glyphs[j].uppercase
    &&& {
        ||| case_before(glyphs, start, j) == WordMode::Lowercase
        ||| case_before(glyphs, start, j) == WordMode::Uppercase && j + 1 < end && glyphs[j
            + 1].lowercase
    }
}

/// Whether one of `words` starts at glyph `j`.
pub open spec fn word_starts_at(words: Seq<(int, int)>, j: int) -> bool {
    exists|k: int| 0 <= k < words.len() && (#[trigger] words[k]).0 == j
}

/// A word starts at a glyph of a list that begins with `word` where `word`
/// starts there or one of the others does.
pub proof fn lemma_word_starts_push_front(word: (int, int), rest: Seq<(int, int)>, j: int)
    ensures
        word_starts_at(seq![word] + rest, j) <==> word.0 == j || word_starts_at(rest, j),
{
    let all = seq![word] + rest;
    if word_starts_at(all, j) {
        let k = choose|k: int| 0 <= k < all.len() && (#[trigger] all[k]).0 == j;
        if k > 0 {
            assert(rest[k - 1] == all[k]);
        }
    }
    if word_starts_at(rest, j) {
        let k = choose|k: int| 0 <= k < rest.len() && (#[trigger] rest[k]).0 == j;
        assert(all[k + 1] == rest[k]);
    }
    if word.0 == j {
        assert(all[0] == word);
    }
}

/// Where no glyph is both lowercase and uppercase, the scan starts a word
/// after the current one exactly at the glyphs at which `starts_word` says
/// that a word starts.
pub proof fn lemma_words_start_where_told(
    glyphs: Seq<Glyph>,
    start: int,
    end: int,
    i: int,
    init: int,
    mode: WordMode,
)
    requires
        one_case_each(glyphs),
        0 <= start <= init <= i < end <= glyphs.len(),
        mode != WordMode::Boundary ==> init < i,
        mode == case_before(glyphs, start, i) || (mode == WordMode::Boundary && (glyphs[i].lowercase
            || glyphs[i].uppercase) && (glyphs[i].uppercase ==> case_before(glyphs, start, i)
            != WordMode::Uppercase)),
        init < i ==> !(glyphs[i].uppercase && case_before(glyphs, start, i) == WordMode::Lowercase),
    ensures
        forall|j: int|
            init < j < end ==> (#[trigger] word_starts_at(words_from(glyphs, end, i, init, mode), j)
                <==> i <= j && starts_word(glyphs, start, end, j)),
    decreases end - i,
{
    let words = words_from(glyphs, end, i, init, mode);
    if i + 1 == end {
        assert(words == seq![(init, end)]);
        assert forall|j: int| init < j < end implies (#[trigger] word_starts_at(words, j) <==> i <= j
            && starts_word(glyphs, start, end, j)) by {
            if word_starts_at(words, j) {
                let k = choose|k: int| 0 <= k < words.len() && (#[trigger] words[k]).0 == j;
            }
        }
    } else if boundary_after(mode, glyphs[i], glyphs[i + 1]) {
        let rest = words_from(glyphs, end, i + 1, i + 1, WordMode::Boundary);
        assert(case_before(glyphs, start, i + 1) == WordMode::Lowercase);
        lemma_words_partition(glyphs, end, i + 1, i + 1, WordMode::Boundary);
        lemma_words_start_where_told(glyphs, start, end, i + 1, i + 1, WordMode::Boundary);
        assert forall|j: int| init < j < end implies (#[trigger] word_starts_at(words, j) <==> i <= j
            && starts_word(glyphs, start, end, j)) by {
            lemma_word_starts_push_front((init, i + 1), rest, j);
            if j < i + 1 {
                lemma_starts_not_before(rest, i + 1, end, j);
            } else if j == i + 1 {
                assert(rest[0].0 == j);
            }
        }
    } else if boundary_before(mode, glyphs[i], glyphs[i + 1]) {
        let rest = words_from(glyphs, end, i + 1, i, WordMode::Boundary);
        lemma_words_partition(glyphs, end, i + 1, i, WordMode::Boundary);
        lemma_words_start_where_told(glyphs, start, end, i + 1, i, WordMode::Boundary);
        assert forall|j: int| init < j < end implies (#[trigger] word_starts_at(words, j) <==> i <= j
            && starts_word(glyphs, start, end, j)) by {
            lemma_word_starts_push_front((init, i), rest, j);
            if j < i {
                lemma_starts_not_before(rest, i, end, j);
            } else if j == i {
                assert(rest[0].0 == j);
            }
        }
    } else {
        let with_current = next_mode(mode, glyphs[i]);
        assert(with_current == case_before(glyphs, start, i + 1));
        lemma_words_start_where_told(glyphs, start, end, i + 1, init, with_current);
        let later = words_from(glyphs, end, i + 1, init, with_current);
        assert(words == later);
        assert forall|j: int| init < j < end implies (#[trigger] word_starts_at(words, j) <==> i <= j
            && starts_word(glyphs, start, end, j)) by {
            assert(word_starts_at(later, j) <==> i + 1 <= j && starts_word(glyphs, start, end, j));
            if j == i {
                assert(!starts_word(glyphs, start, end, i));
            }
        }
    }
}

/// No word of a partition starts before the partition does.
pub proof fn lemma_starts_not_before(words: Seq<(int, int)>, lo: int, hi: int, j: int)
    requires
        partitions(words, lo, hi),
        j < lo,
    ensures
        !word_starts_at(words, j),
{
    if word_starts_at(words, j) {
        let k = choose|k: int| 0 <= k < words.len() && (#[trigger] words[k]).0 == j;
        lemma_partition_starts(words, lo, hi, k);
    }
}

/// Where no glyph is both lowercase and uppercase, the words of the glyphs
/// `start..end` start at `start` and at every uppercase glyph that follows a
/// lowercase phase or that ends a run of capitals before a lowercase glyph,
/// and nowhere else.
pub proof fn lemma_words_start_at_boundaries(glyphs: Seq<Glyph>, start: int, end: int)
    requires
        one_case_each(glyphs),
        0 <= start < end <= glyphs.len(),
    ensures
        partitions(casing_words(glyphs, start, end), start, end),
        forall|j: int|
            start < j < end ==> (#[trigger] word_starts_at(casing_words(glyphs, start, end), j)
                <==> starts_word(glyphs, start, end, j)),
{
    lemma_words_partition(glyphs, end, start, start, WordMode::Boundary);
    lemma_words_start_where_told(glyphs, start, end, start, start, WordMode::Boundary);
}

} // verus!

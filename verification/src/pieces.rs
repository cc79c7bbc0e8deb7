use crate::glyph::Glyph;
use vstd::prelude::*;

verus! {

/// The characters at which a text is cut into pieces.
#[derive(Clone, Copy, PartialEq, Eq, Structural, Debug)]
pub enum Separator {
    /// Every character that is not alphanumeric.
    NonAlphanumeric,
    /// Every white space character.
    Whitespace,
}

impl Separator {
    /// Whether the text is cut at `glyph`.
    pub open spec fn cuts(self, glyph: Glyph) -> bool {
        match self {
            Separator::NonAlphanumeric => !glyph.alphanumeric,
            Separator::Whitespace => glyph.whitespace,
        }
    }

    /// Whether the text is cut at `glyph`.
    pub fn separates(&self, glyph: &Glyph) -> (b: bool)
        ensures
            b == self.cuts(*glyph),
    {
        match self {
            Separator::NonAlphanumeric => !glyph.alphanumeric,
            Separator::Whitespace => glyph.whitespace,
        }
    }
}

/// The number of bytes that the first `i` glyphs take: the byte offset of
/// glyph `i`.
pub open spec fn offset(glyphs: Seq<Glyph>, i: int) -> int
    decreases i,
{
    if i <= 0 {
        0
    } else {
        offset(glyphs, i - 1) + glyphs[i - 1].width
    }
}

/// The number of bytes that all of `glyphs` take.
pub open spec fn total_width(glyphs: Seq<Glyph>) -> int {
    offset(glyphs, glyphs.len() as int)
}

/// Offsets grow with the index.
pub proof fn lemma_offset_monotonic(glyphs: Seq<Glyph>, i: int, j: int)
    requires
        i <= j,
    ensures
        0 <= offset(glyphs, i) <= offset(glyphs, j),
    decreases j - i,
{
    if i < j {
        lemma_offset_monotonic(glyphs, i, j - 1);
    } else {
        lemma_offset_nonnegative(glyphs, i);
    }
}

/// No offset is negative.
pub proof fn lemma_offset_nonnegative(glyphs: Seq<Glyph>, i: int)
    ensures
        0 <= offset(glyphs, i),
    decreases i,
{
    if i > 0 {
        lemma_offset_nonnegative(glyphs, i - 1);
    }
}

/// Where the piece that starts at glyph `i` ends: the first cut at or after
/// `i`, or the end of the text.
pub open spec fn piece_end(glyphs: Seq<Glyph>, separator: Separator, i: int) -> int
    decreases glyphs.len() - i,
{
    if i < 0 || i >= glyphs.len() || separator.cuts(glyphs[i]) {
        i
    } else {
        piece_end(glyphs, separator, i + 1)
    }
}

/// The pieces of `glyphs` from glyph `i` on, each as the indices of its first
/// glyph and of the glyph after its last one.
pub open spec fn pieces_from(glyphs: Seq<Glyph>, separator: Separator, i: int) -> Seq<(int, int)>
    decreases glyphs.len() - i,
{
    if i < 0 || i >= glyphs.len() {
        Seq::empty()
    } else if separator.cuts(glyphs[i]) {
        pieces_from(glyphs, separator, i + 1)
    } else {
        let end = piece_end(glyphs, separator, i);
        proof {
            lemma_piece_end(glyphs, separator, i + 1);
        }
        seq![(i, end)] + pieces_from(glyphs, separator, end)
    }
}

/// The pieces of `glyphs`: its maximal runs of glyphs without a cut, in
/// order.
pub open spec fn pieces_of(glyphs: Seq<Glyph>, separator: Separator) -> Seq<(int, int)> {
    pieces_from(glyphs, separator, 0)
}

/// One piece of a text: the glyphs `start..end`, which are the bytes
/// `low..high`.
#[derive(Clone, Copy, PartialEq, Eq, Structural, Debug)]
pub struct Piece {
    pub start: usize,
    pub end: usize,
    pub low: usize,
    pub high: usize,
}

impl Piece {
    /// Whether this is the piece of `glyphs` that holds the glyphs of
    /// `range`.
    pub open spec fn covers(self, glyphs: Seq<Glyph>, range: (int, int)) -> bool {
        &&& self.start == range.0
        &&& self.end == range.1
        &&& self.low == offset(glyphs, range.0)
        &&& self.high == offset(glyphs, range.1)
    }
}

/// What `piece_end` returns lies at or after its start, within the text, and
/// no glyph before it is a cut.
pub proof fn lemma_piece_end(glyphs: Seq<Glyph>, separator: Separator, i: int)
    requires
        0 <= i <= glyphs.len(),
    ensures
        i <= piece_end(glyphs, separator, i) <= glyphs.len(),
        forall|j: int| i <= j < piece_end(glyphs, separator, i) ==> !separator.cuts(#[trigger] glyphs[j]),
        piece_end(glyphs, separator, i) < glyphs.len() ==> separator.cuts(
            glyphs[piece_end(glyphs, separator, i)],
        ),
    decreases glyphs.len() - i,
{
    if i < glyphs.len() && !separator.cuts(glyphs[i]) {
        lemma_piece_end(glyphs, separator, i + 1);
    }
}

/// Whether `pieces` lie within `lo..hi`, hold at least one glyph each and come
/// in order with a gap between any two of them.
pub open spec fn separated(pieces: Seq<(int, int)>, lo: int, hi: int) -> bool {
    &&& forall|k: int| 0 <= k < pieces.len() ==> lo <= (#[trigger] pieces[k]).0 < pieces[k].1 <= hi
    &&& forall|k: int, l: int|
        0 <= k < l < pieces.len() ==> (#[trigger] pieces[k]).1 < (#[trigger] pieces[l]).0
}

/// The pieces from glyph `i` on lie within the text, at or after `i`, hold at
/// least one glyph each and come in order, with a cut between two of them.
pub proof fn lemma_pieces_from_separated(glyphs: Seq<Glyph>, separator: Separator, i: int)
    requires
        0 <= i,
    ensures
        separated(pieces_from(glyphs, separator, i), i, glyphs.len() as int),
    decreases glyphs.len() - i,
{
    let all = pieces_from(glyphs, separator, i);
    if i < glyphs.len() {
        if separator.cuts(glyphs[i]) {
            lemma_pieces_from_separated(glyphs, separator, i + 1);
            assert(all == pieces_from(glyphs, separator, i + 1));
        } else {
            let end = piece_end(glyphs, separator, i);
            lemma_piece_end(glyphs, separator, i + 1);
            let rest = pieces_from(glyphs, separator, end);
            assert(all == seq![(i, end)] + rest);
            lemma_pieces_from_separated(glyphs, separator, end);
            if end < glyphs.len() {
                assert(separator.cuts(glyphs[end]));
                assert(rest == pieces_from(glyphs, separator, end + 1));
                lemma_pieces_from_separated(glyphs, separator, end + 1);
            }
            assert forall|k: int| 0 <= k < all.len() implies i <= (#[trigger] all[k]).0 < all[k].1
                <= glyphs.len() by {
                if k > 0 {
                    assert(all[k] == rest[k - 1]);
                }
            }
            assert forall|k: int, l: int| 0 <= k < l < all.len() implies (#[trigger] all[k]).1 < (
            #[trigger] all[l]).0 by {
                assert(all[l] == rest[l - 1]);
                if k > 0 {
                    assert(all[k] == rest[k - 1]);
                }
            }
        }
    }
}

/// Piece `k` of a text lies within it and holds at least one glyph.
pub proof fn lemma_pieces_within(glyphs: Seq<Glyph>, separator: Separator, k: int)
    requires
        0 <= k < pieces_of(glyphs, separator).len(),
    ensures
        0 <= pieces_of(glyphs, separator)[k].0 < pieces_of(glyphs, separator)[k].1 <= glyphs.len(),
{
    lemma_pieces_from_separated(glyphs, separator, 0);
}

/// Splits `glyphs` at every cut and returns the pieces that are not empty,
/// in order, each with the bytes that it takes.
pub fn str_split_indices(glyphs: &Vec<Glyph>, separator: Separator) -> (pieces: Vec<Piece>)
    requires
        total_width(glyphs@) <= usize::MAX,
    ensures
        pieces@.len() == pieces_of(glyphs@, separator).len(),
        forall|k: int|
            0 <= k < pieces@.len() ==> (#[trigger] pieces@[k]).covers(
                glyphs@,
                pieces_of(glyphs@, separator)[k],
            ),
{
    let mut pieces: Vec<Piece> = Vec::new();
    let ghost done: Seq<(int, int)> = Seq::empty();
    let mut i: usize = 0;
    let mut byte: usize = 0;
    while i < glyphs.len()
        invariant
            0 <= i <= glyphs@.len(),
            total_width(glyphs@) <= usize::MAX,
            byte == offset(glyphs@, i as int),
            done + pieces_from(glyphs@, separator, i as int) == pieces_of(glyphs@, separator),
            pieces@.len() == done.len(),
            forall|k: int| 0 <= k < pieces@.len() ==> (#[trigger] pieces@[k]).covers(glyphs@, done[k]),
        decreases glyphs@.len() - i,
    {
        if separator.separates(&glyphs[i]) {
            proof {
                lemma_offset_monotonic(glyphs@, i as int + 1, glyphs@.len() as int);
            }
            byte = byte + glyphs[i].width as usize;
            i = i + 1;
        } else {
            let start = i;
            let start_byte = byte;
            while i < glyphs.len() && !separator.separates(&glyphs[i])
                invariant
                    start <= i <= glyphs@.len(),
                    total_width(glyphs@) <= usize::MAX,
                    byte == offset(glyphs@, i as int),
                    piece_end(glyphs@, separator, i as int) == piece_end(
                        glyphs@,
                        separator,
                        start as int,
                    ),
                decreases glyphs@.len() - i,
            {
                proof {
                    lemma_offset_monotonic(glyphs@, i as int + 1, glyphs@.len() as int);
                }
                byte = byte + glyphs[i].width as usize;
                i = i + 1;
            }
            proof {
                let rest = pieces_from(glyphs@, separator, i as int);
                assert(done + (seq![(start as int, i as int)] + rest) =~= done.push(
                    (start as int, i as int),
                ) + rest);
                done = done.push((start as int, i as int));
            }
            pieces.push(Piece { start, end: i, low: start_byte, high: byte });
        }
    }
    proof {
        assert(done + Seq::<(int, int)>::empty() =~= done);
    }
    pieces
}

/// Whether `ranges` lie within `lo..hi`, hold at least one glyph each and
/// come in order, none starting before the one before it has ended.
pub open spec fn ordered(ranges: Seq<(int, int)>, lo: int, hi: int) -> bool {
    &&& forall|k: int| 0 <= k < ranges.len() ==> lo <= (#[trigger] ranges[k]).0 < ranges[k].1 <= hi
    &&& forall|k: int, l: int|
        0 <= k < l < ranges.len() ==> (#[trigger] ranges[k]).1 <= (#[trigger] ranges[l]).0
}

/// Ranges in order, followed by ranges in order that start no earlier than
/// the first end, are in order.
pub proof fn lemma_ordered_concat(
    a: Seq<(int, int)>,
    b: Seq<(int, int)>,
    lo: int,
    mid: int,
    hi: int,
)
    requires
        ordered(a, lo, mid),
        ordered(b, mid, hi),
        lo <= mid <= hi,
    ensures
        ordered(a + b, lo, hi),
{
    let all = a + b;
    assert forall|k: int| 0 <= k < all.len() implies lo <= (#[trigger] all[k]).0 < all[k].1 <= hi by {
        if k < a.len() {
            assert(all[k] == a[k]);
        } else {
            assert(all[k] == b[k - a.len()]);
        }
    }
    assert forall|k: int, l: int| 0 <= k < l < all.len() implies (#[trigger] all[k]).1 <= (
    #[trigger] all[l]).0 by {
        if k < a.len() {
            assert(all[k] == a[k]);
        } else {
            assert(all[k] == b[k - a.len()]);
        }
        if l < a.len() {
            assert(all[l] == a[l]);
        } else {
            assert(all[l] == b[l - a.len()]);
        }
    }
}

/// Ranges in order within a range are in order within a wider one.
pub proof fn lemma_ordered_widen(ranges: Seq<(int, int)>, lo: int, hi: int, lower: int, higher: int)
    requires
        ordered(ranges, lo, hi),
        lower <= lo,
        hi <= higher,
    ensures
        ordered(ranges, lower, higher),
{
}

/// Whether the glyphs of `piece` are a maximal run without a cut: none of
/// them is a cut, and on both sides the run ends at a cut or at an end of the
/// text.
pub open spec fn maximal_run(glyphs: Seq<Glyph>, separator: Separator, piece: (int, int)) -> bool {
    &&& 0 <= piece.0 < piece.1 <= glyphs.len()
    &&& forall|j: int| piece.0 <= j < piece.1 ==> !separator.cuts(#[trigger] glyphs[j])
    &&& piece.0 == 0 || separator.cuts(glyphs[piece.0 - 1])
    &&& piece.1 == glyphs.len() || separator.cuts(glyphs[piece.1])
}

/// Whether glyph `j` lies in one of `pieces`.
pub open spec fn covered(pieces: Seq<(int, int)>, j: int) -> bool {
    exists|k: int| 0 <= k < pieces.len() && (#[trigger] pieces[k]).0 <= j < pieces[k].1
}

/// From a glyph that starts the text or follows a cut, the pieces are
/// maximal runs without a cut, and every glyph that is not a cut lies in one
/// of them.
pub proof fn lemma_pieces_from_runs(glyphs: Seq<Glyph>, separator: Separator, i: int)
    requires
        0 <= i <= glyphs.len(),
        i == 0 || i == glyphs.len() || separator.cuts(glyphs[i - 1]) || separator.cuts(glyphs[i]),
    ensures
        forall|k: int|
            0 <= k < pieces_from(glyphs, separator, i).len() ==> maximal_run(
                glyphs,
                separator,
                #[trigger] pieces_from(glyphs, separator, i)[k],
            ),
        forall|j: int|
            i <= j < glyphs.len() && !separator.cuts(#[trigger] glyphs[j]) ==> covered(
                pieces_from(glyphs, separator, i),
                j,
            ),
    decreases glyphs.len() - i,
{
    let all = pieces_from(glyphs, separator, i);
    if i < glyphs.len() {
        if separator.cuts(glyphs[i]) {
            lemma_pieces_from_runs(glyphs, separator, i + 1);
            assert forall|j: int|
                i <= j < glyphs.len() && !separator.cuts(#[trigger] glyphs[j]) implies covered(
                all,
                j,
            ) by {
                assert(covered(pieces_from(glyphs, separator, i + 1), j));
            }
        } else {
            let end = piece_end(glyphs, separator, i);
            lemma_piece_end(glyphs, separator, i);
            lemma_piece_end(glyphs, separator, i + 1);
            let rest = pieces_from(glyphs, separator, end);
            lemma_pieces_from_runs(glyphs, separator, end);
            assert(all == seq![(i, end)] + rest);
            assert(maximal_run(glyphs, separator, (i, end)));
            assert forall|k: int| 0 <= k < all.len() implies maximal_run(
                glyphs,
                separator,
                #[trigger] all[k],
            ) by {
                if k > 0 {
                    assert(all[k] == rest[k - 1]);
                }
            }
            assert forall|j: int|
                i <= j < glyphs.len() && !separator.cuts(#[trigger] glyphs[j]) implies covered(
                all,
                j,
            ) by {
                if j < end {
                    assert(all[0].0 <= j < all[0].1);
                } else {
                    assert(covered(rest, j));
                    let k = choose|k: int| 0 <= k < rest.len() && (#[trigger] rest[k]).0 <= j < rest[k].1;
                    assert(all[k + 1] == rest[k]);
                }
            }
        }
    }
}

/// The pieces of a text are its maximal runs of glyphs without a cut, all of
/// them, in order.
pub proof fn lemma_pieces_are_the_runs(glyphs: Seq<Glyph>, separator: Separator)
    ensures
        separated(pieces_of(glyphs, separator), 0, glyphs.len() as int),
        forall|k: int|
            0 <= k < pieces_of(glyphs, separator).len() ==> maximal_run(
                glyphs,
                separator,
                #[trigger] pieces_of(glyphs, separator)[k],
            ),
        forall|j: int|
            0 <= j < glyphs.len() && !separator.cuts(#[trigger] glyphs[j]) ==> covered(
                pieces_of(glyphs, separator),
                j,
            ),
{
    lemma_pieces_from_separated(glyphs, separator, 0);
    lemma_pieces_from_runs(glyphs, separator, 0);
}

} // verus!

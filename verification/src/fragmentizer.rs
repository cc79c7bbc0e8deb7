use crate::glyph::{classify, glyphs_of, Glyph};
use crate::pieces::{
    lemma_offset_monotonic, lemma_pieces_from_separated, lemma_pieces_within, offset, pieces_of,
    str_split_indices, total_width, Separator,
};
use crate::span::{slice, BytePos, Source, Span};
use crate::syntax::{capture_views, query_captures, run_query, Capture, CapturedNode};
use crate::utf8::{
    lemma_char_range_is_sliceable, lemma_offset_is_bytes, lemma_offset_strict,
    lemma_total_width_is_len,
};
use vstd::prelude::*;

verus! {

/// What a fragment of a buffer is taken for.
#[derive(Clone, Copy, PartialEq, Eq, Structural, Debug)]
pub enum FragmentKind {
    /// An identifier: words put together by a casing convention.
    Ident,
    /// Running text, as in a comment or a string: words set apart by white
    /// space and punctuation.
    Sentence,
    /// A run of alphanumeric characters of which nothing more is known; it
    /// is split as an identifier is.
    Unknown,
}

/// A part of a buffer that holds words.
#[derive(Clone, Copy, PartialEq, Eq, Structural, Debug)]
pub struct Fragment {
    pub kind: FragmentKind,
    pub span: Span,
}

/// The query that finds in a Rust source the nodes that hold words.
pub const SPELLCHECK_QUERY: &'static str = "(identifier) @ident
(type_identifier) @ident
(field_identifier) @ident
(string_literal) @sentence.string
(doc_comment) @sentence.comment
(line_comment !doc) @sentence.comment.raw
(block_comment !doc) @sentence.comment.raw
";

/// The fragment of the glyphs of `piece` in a plain text: nothing where the
/// piece ends beyond the last byte that a span can name.
pub open spec fn plain_fragment(glyphs: Seq<Glyph>, piece: (int, int)) -> Option<Fragment> {
    if offset(glyphs, piece.1) <= u32::MAX {
        Some(
            Fragment {
                kind: FragmentKind::Unknown,
                span: Span {
                    low: BytePos(offset(glyphs, piece.0) as u32),
                    high: BytePos(offset(glyphs, piece.1) as u32),
                },
            },
        )
    } else {
        None
    }
}

/// The fragments of the first `k` of `pieces`, in order.
pub open spec fn fragments_of_pieces(glyphs: Seq<Glyph>, pieces: Seq<(int, int)>, k: int) -> Seq<
    Fragment,
>
    decreases k,
{
    if k <= 0 {
        Seq::empty()
    } else {
        let before = fragments_of_pieces(glyphs, pieces, k - 1);
        match plain_fragment(glyphs, pieces[k - 1]) {
            Some(fragment) => before.push(fragment),
            None => before,
        }
    }
}

/// The fragments of a plain text: its maximal runs of alphanumeric
/// characters, in order.
pub open spec fn plain_fragments(glyphs: Seq<Glyph>) -> Seq<Fragment> {
    let pieces = pieces_of(glyphs, Separator::NonAlphanumeric);
    fragments_of_pieces(glyphs, pieces, pieces.len() as int)
}

/// How many bytes a capture loses at its start and at its end, and the kind
/// of its fragment: nothing where the name of the capture is not one of the
/// query's.
pub open spec fn capture_rule(capture: CapturedNode) -> Option<(FragmentKind, int, int)> {
    if capture.name == "ident"@ {
        Some((FragmentKind::Ident, 0, 0))
    } else if capture.name == "sentence.string"@ {
        Some((FragmentKind::Sentence, 1, 1))
    } else if capture.name == "sentence.comment"@ {
        Some((FragmentKind::Sentence, 0, 0))
    } else if capture.name == "sentence.comment.raw"@ {
        if capture.kind == "line_comment"@ {
            Some((FragmentKind::Sentence, 2, 0))
        } else if capture.kind == "block_comment"@ {
            Some((FragmentKind::Sentence, 2, 2))
        } else {
            Some((FragmentKind::Sentence, 0, 0))
        }
    } else {
        None
    }
}

/// The fragment of a capture: its bytes without the markers at its ends. A
/// capture that is shorter than its markers gives an empty fragment. There is
/// no fragment where the capture has no rule, where it ends before it
/// starts, and where it ends beyond the last byte that a span can name.
pub open spec fn capture_fragment(capture: CapturedNode) -> Option<Fragment> {
    match capture_rule(capture) {
        Some((kind, lead, trail)) => {
            if capture.start <= capture.end <= u32::MAX {
                let low = if capture.start + lead <= capture.end {
                    capture.start + lead
                } else {
                    capture.end as int
                };
                let high = if low <= capture.end - trail {
                    capture.end - trail
                } else {
                    low
                };
                Some(Fragment { kind, span: Span { low: BytePos(low as u32), high: BytePos(high as u32) } })
            } else {
                None
            }
        },
        None => None,
    }
}

/// The fragments of the first `k` of `captures`, in order.
pub open spec fn fragments_of_captures(captures: Seq<CapturedNode>, k: int) -> Seq<Fragment>
    decreases k,
{
    if k <= 0 {
        Seq::empty()
    } else {
        let before = fragments_of_captures(captures, k - 1);
        match capture_fragment(captures[k - 1]) {
            Some(fragment) => before.push(fragment),
            None => before,
        }
    }
}

/// The fragments of a source in which a query has captured `captures`.
pub open spec fn syntax_fragments(captures: Seq<CapturedNode>) -> Seq<Fragment> {
    fragments_of_captures(captures, captures.len() as int)
}

/// Whether `a` and `b` are the same text.
pub fn same_text(a: &str, b: &str) -> (same: bool)
    ensures
        same == (a@ == b@),
{
    let a: String = a.to_owned();
    let b: String = b.to_owned();
    a == b
}

/// The fragments of a plain text, of which `glyphs` are the glyphs.
pub fn plain_fragmentize(glyphs: &Vec<Glyph>) -> (fragments: Vec<Fragment>)
    requires
        total_width(glyphs@) <= usize::MAX,
    ensures
        fragments@ == plain_fragments(glyphs@),
{
    let pieces = str_split_indices(glyphs, Separator::NonAlphanumeric);
    let ghost runs = pieces_of(glyphs@, Separator::NonAlphanumeric);
    let mut fragments: Vec<Fragment> = Vec::new();
    let mut k: usize = 0;
    while k < pieces.len()
        invariant
            0 <= k <= pieces@.len(),
            runs == pieces_of(glyphs@, Separator::NonAlphanumeric),
            pieces@.len() == runs.len(),
            forall|j: int| 0 <= j < pieces@.len() ==> (#[trigger] pieces@[j]).covers(glyphs@, runs[j]),
            fragments@ == fragments_of_pieces(glyphs@, runs, k as int),
        decreases pieces@.len() - k,
    {
        let piece = pieces[k];
        proof {
            lemma_pieces_within(glyphs@, Separator::NonAlphanumeric, k as int);
            lemma_offset_monotonic(glyphs@, runs[k as int].0, runs[k as int].1);
        }
        if piece.high <= u32::MAX as usize {
            fragments.push(
                Fragment {
                    kind: FragmentKind::Unknown,
                    span: Span::new(BytePos(piece.low as u32), BytePos(piece.high as u32)),
                },
            );
        }
        k = k + 1;
    }
    fragments
}

/// The fragment of one capture.
pub fn capture_to_fragment(capture: &Capture) -> (fragment: Option<Fragment>)
    ensures
        fragment == capture_fragment(capture@),
{
    let name = capture.name.as_str();
    let rule: Option<(FragmentKind, usize, usize)> = if same_text(name, "ident") {
        Some((FragmentKind::Ident, 0, 0))
    } else if same_text(name, "sentence.string") {
        Some((FragmentKind::Sentence, 1, 1))
    } else if same_text(name, "sentence.comment") {
        Some((FragmentKind::Sentence, 0, 0))
    } else if same_text(name, "sentence.comment.raw") {
        if same_text(capture.kind.as_str(), "line_comment") {
            Some((FragmentKind::Sentence, 2, 0))
        } else if same_text(capture.kind.as_str(), "block_comment") {
            Some((FragmentKind::Sentence, 2, 2))
        } else {
            Some((FragmentKind::Sentence, 0, 0))
        }
    } else {
        None
    };
    match rule {
        Some((kind, lead, trail)) => {
            if capture.start <= capture.end && capture.end <= u32::MAX as usize {
                let low = if capture.end - capture.start >= lead {
                    capture.start + lead
                } else {
                    capture.end
                };
                let high = if capture.end - low >= trail {
                    capture.end - trail
                } else {
                    low
                };
                Some(Fragment { kind, span: Span::new(BytePos(low as u32), BytePos(high as u32)) })
            } else {
                None
            }
        },
        None => None,
    }
}

/// The fragments of the captures of a query, in the order of the captures.
pub fn syntax_fragmentize(captures: &Vec<Capture>) -> (fragments: Vec<Fragment>)
    ensures
        fragments@ == syntax_fragments(capture_views(captures@)),
{
    let mut fragments: Vec<Fragment> = Vec::new();
    let mut k: usize = 0;
    while k < captures.len()
        invariant
            0 <= k <= captures@.len(),
            fragments@ == fragments_of_captures(capture_views(captures@), k as int),
        decreases captures@.len() - k,
    {
        match capture_to_fragment(&captures[k]) {
            Some(fragment) => {
                fragments.push(fragment);
            },
            None => {},
        }
        k = k + 1;
    }
    fragments
}

/// The ways in which a buffer is cut into fragments.
#[derive(Clone, Copy, PartialEq, Eq, Structural, Debug)]
pub enum Fragmentizer {
    /// Every maximal run of alphanumeric characters is a fragment.
    PlainText,
    /// The identifiers, strings and comments of a Rust source are the
    /// fragments.
    Rust,
}

impl Fragmentizer {
    /// The fragmentizer of the language `language`: the one for plain text
    /// where the language has none of its own.
    pub open spec fn of_language(language: Seq<char>) -> Fragmentizer {
        if language == "rust"@ {
            Fragmentizer::Rust
        } else {
            Fragmentizer::PlainText
        }
    }

    /// Whether the language `language` has a fragmentizer of its own.
    pub open spec fn knows(language: Seq<char>) -> bool {
        language == "rust"@ || language == "plaintext"@
    }

    /// The fragments of `text`. A Rust source that the parser gives no tree
    /// for is cut as plain text is.
    pub open spec fn fragments(self, text: Seq<char>) -> Seq<Fragment> {
        match self {
            Fragmentizer::PlainText => plain_fragments(glyphs_of(text)),
            Fragmentizer::Rust => match query_captures(SPELLCHECK_QUERY@, text) {
                Some(captures) => syntax_fragments(captures),
                None => plain_fragments(glyphs_of(text)),
            },
        }
    }

    /// The fragmentizer of the language `language`: the one for plain text
    /// where the language has none of its own.
    pub fn for_language(language: &str) -> (fragmentizer: Fragmentizer)
        ensures
            fragmentizer == Fragmentizer::of_language(language@),
    {
        if same_text(language, "rust") {
            Fragmentizer::Rust
        } else {
            Fragmentizer::PlainText
        }
    }

    /// Whether the language `language` has a fragmentizer of its own.
    pub fn supports(language: &str) -> (known: bool)
        ensures
            known == Fragmentizer::knows(language@),
    {
        same_text(language, "rust") || same_text(language, "plaintext")
    }

    /// The name of the language that this fragmentizer is for.
    pub fn lang_code(&self) -> (code: &'static str)
        ensures
            code@ == match self {
                Fragmentizer::PlainText => "plaintext"@,
                Fragmentizer::Rust => "rust"@,
            },
            Fragmentizer::of_language(code@) == *self,
    {
        proof {
            reveal_strlit("plaintext");
            reveal_strlit("rust");
            assert("plaintext"@ != "rust"@) by {
                assert("plaintext"@.len() != "rust"@.len());
            }
        }
        match self {
            Fragmentizer::PlainText => "plaintext",
            Fragmentizer::Rust => "rust",
        }
    }

    /// Cuts the text of `source` into fragments.
    pub fn fragmentize(&self, source: &Source) -> (fragments: Vec<Fragment>)
        ensures
            fragments@ == self.fragments(source@),
    {
        let text = source.text();
        match self {
            Fragmentizer::PlainText => Self::plain(source, &text),
            Fragmentizer::Rust => match run_query(SPELLCHECK_QUERY, text.as_str()) {
                Some(captures) => syntax_fragmentize(&captures),
                None => Self::plain(source, &text),
            },
        }
    }

    /// Cuts the plain text `text`, which is the text of `source`, into
    /// fragments.
    fn plain(source: &Source, text: &String) -> (fragments: Vec<Fragment>)
        requires
            text@ == source@,
        ensures
            fragments@ == plain_fragments(glyphs_of(source@)),
    {
        let glyphs = classify(text.as_str());
        // That the buffer can tell its length shows that the bytes of its
        // text can be counted.
        let _ = source.len_bytes();
        proof {
            lemma_total_width_is_len(source@);
        }
        plain_fragmentize(&glyphs)
    }
}

/// Whether `fragments` come in the order of the buffer, none starting before
/// the one before it has ended.
pub open spec fn in_buffer_order(fragments: Seq<Fragment>) -> bool {
    forall|i: int, j: int|
        0 <= i < j < fragments.len() ==> (#[trigger] fragments[i]).span.high.0 <= (
        #[trigger] fragments[j]).span.low.0
}

/// The fragments of the first `k` pieces of a plain text hold at least one
/// byte each, end no later than the last of these pieces, and come in the
/// order of the buffer; and the bytes of each can be taken out of the text.
pub proof fn lemma_fragments_of_pieces(text: Seq<char>, k: int)
    requires
        0 <= k <= pieces_of(glyphs_of(text), Separator::NonAlphanumeric).len(),
    ensures
        in_buffer_order(
            fragments_of_pieces(
                glyphs_of(text),
                pieces_of(glyphs_of(text), Separator::NonAlphanumeric),
                k,
            ),
        ),
        forall|i: int|
            0 <= i < fragments_of_pieces(
                glyphs_of(text),
                pieces_of(glyphs_of(text), Separator::NonAlphanumeric),
                k,
            ).len() ==> {
                let fragment = #[trigger] fragments_of_pieces(
                    glyphs_of(text),
                    pieces_of(glyphs_of(text), Separator::NonAlphanumeric),
                    k,
                )[i];
                &&& fragment.kind == FragmentKind::Unknown
                &&& fragment.span.low.0 < fragment.span.high.0
                &&& k > 0 && fragment.span.high.0 <= offset(
                    glyphs_of(text),
                    pieces_of(glyphs_of(text), Separator::NonAlphanumeric)[k - 1].1,
                )
                &&& slice(text, fragment.span) is Some
            },
    decreases k,
{
    let glyphs = glyphs_of(text);
    let pieces = pieces_of(glyphs, Separator::NonAlphanumeric);
    if k > 0 {
        lemma_fragments_of_pieces(text, k - 1);
        lemma_pieces_from_separated(glyphs, Separator::NonAlphanumeric, 0);
        let piece = pieces[k - 1];
        let before = fragments_of_pieces(glyphs, pieces, k - 1);
        let all = fragments_of_pieces(glyphs, pieces, k);
        lemma_offset_strict(text, piece.0, piece.1);
        lemma_offset_monotonic(glyphs, 0, piece.0);
        lemma_offset_is_bytes(text, piece.0);
        lemma_offset_is_bytes(text, piece.1);
        lemma_char_range_is_sliceable(text, piece.0, piece.1);
        vstd::utf8::encode_utf8_decode_utf8(text.subrange(piece.0, piece.1));
        if k > 1 {
            assert(pieces[k - 2].1 < pieces[k - 1].0);
            lemma_offset_monotonic(glyphs, pieces[k - 2].1, piece.0);
        }
        assert forall|i: int| 0 <= i < all.len() implies {
            let fragment = #[trigger] all[i];
            &&& fragment.kind == FragmentKind::Unknown
            &&& fragment.span.low.0 < fragment.span.high.0
            &&& fragment.span.high.0 <= offset(glyphs, piece.1)
            &&& slice(text, fragment.span) is Some
        } by {
            if i < before.len() {
                assert(all[i] == before[i]);
            }
        }
        assert forall|i: int, j: int| 0 <= i < j < all.len() implies (#[trigger] all[i]).span.high.0 <= (
        #[trigger] all[j]).span.low.0 by {
            assert(all[i] == before[i]);
            if j < before.len() {
                assert(all[j] == before[j]);
            }
        }
    }
}

/// The fragments of a plain text come in the order of the buffer without
/// overlap, and the bytes of each can be taken out of the text.
pub proof fn lemma_plain_fragments(text: Seq<char>)
    ensures
        in_buffer_order(plain_fragments(glyphs_of(text))),
        forall|i: int|
            0 <= i < plain_fragments(glyphs_of(text)).len() ==> slice(
                text,
                (#[trigger] plain_fragments(glyphs_of(text))[i]).span,
            ) is Some,
{
    lemma_fragments_of_pieces(
        text,
        pieces_of(glyphs_of(text), Separator::NonAlphanumeric).len() as int,
    );
}

/// A language that has no fragmentizer of its own is cut into the fragments
/// of a plain text.
pub proof fn lemma_unknown_language_is_plain_text(language: Seq<char>, text: Seq<char>)
    requires
        !Fragmentizer::knows(language),
    ensures
        Fragmentizer::of_language(language) == Fragmentizer::PlainText,
        Fragmentizer::of_language(language).fragments(text) == plain_fragments(glyphs_of(text)),
{
}

} // verus!

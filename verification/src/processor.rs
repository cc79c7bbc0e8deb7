use crate::casing::{
    casing_ranges, casing_tokens, lemma_casing_ranges_ordered, lemma_tokens_ordered, split_casing,
    tokens_of,
};
use crate::pieces::{lemma_offset_monotonic, ordered};
use crate::fragmentizer::{Fragment, FragmentKind, Fragmentizer};
use crate::glyph::{classify, glyphs_of};
use crate::rope::bytes_of;
use crate::sentence::{
    lemma_sentence_ranges_ordered, sentence_ranges, sentence_tokens, split_words,
};
use crate::span::{slice, Source, Span};
use crate::utf8::{
    lemma_offset_is_bytes, lemma_offset_strict, lemma_slice_bytes, lemma_slice_of_slice,
    lemma_total_width_is_len,
};
use vstd::prelude::*;

verus! {

/// What a token is taken for. It tells the reader of a token more; the
/// lookup of the token does not depend on it.
#[derive(Clone, Copy, PartialEq, Eq, Structural, Debug)]
pub enum TokenKind {
    /// A word of a language.
    Word,
    /// Text of which nothing is known.
    Unknown,
}

/// One unit of text to look up in the dictionary.
#[derive(Clone, Copy, PartialEq, Eq, Structural, Debug)]
pub struct Token {
    pub kind: TokenKind,
    pub span: Span,
}

impl Token {
    /// A token of the kind `kind` at `span`.
    pub fn new(kind: TokenKind, span: Span) -> (token: Token)
        ensures
            token.kind == kind,
            token.span == span,
    {
        Token { kind, span }
    }

    /// A word at `span`.
    pub fn new_word(span: Span) -> (token: Token)
        ensures
            token.kind == TokenKind::Word,
            token.span == span,
    {
        Token { kind: TokenKind::Word, span }
    }
}

/// A span whose bytes cannot be taken out of the buffer.
#[derive(Clone, Copy, PartialEq, Eq, Structural, Debug)]
pub struct OutOfBounds(pub Span);

/// The tokens of the identifier that takes the bytes of `span` in `text`:
/// nothing where the bytes cannot be taken out of the text.
pub open spec fn casing_tokens_at(text: Seq<char>, span: Span) -> Option<Seq<Token>> {
    match slice(text, span) {
        Some(part) => Some(casing_tokens(glyphs_of(part), span.low)),
        None => None,
    }
}

/// The tokens of the sentence that takes the bytes of `span` in `text`:
/// nothing where the bytes cannot be taken out of the text.
pub open spec fn sentence_tokens_at(text: Seq<char>, span: Span) -> Option<Seq<Token>> {
    match slice(text, span) {
        Some(part) => Some(sentence_tokens(glyphs_of(part), span.low)),
        None => None,
    }
}

/// The tokens of one fragment of `text`: a sentence is split into its words,
/// anything else as an identifier is.
pub open spec fn fragment_tokens(text: Seq<char>, fragment: Fragment) -> Option<Seq<Token>> {
    match fragment.kind {
        FragmentKind::Sentence => sentence_tokens_at(text, fragment.span),
        FragmentKind::Ident | FragmentKind::Unknown => casing_tokens_at(text, fragment.span),
    }
}

/// The tokens of the first `k` of `fragments`, in order; or the span of the
/// first of them whose bytes cannot be taken out of `text`.
pub open spec fn tokens_of_fragments(text: Seq<char>, fragments: Seq<Fragment>, k: int) -> Result<
    Seq<Token>,
    OutOfBounds,
>
    decreases k,
{
    if k <= 0 {
        Ok(Seq::empty())
    } else {
        match tokens_of_fragments(text, fragments, k - 1) {
            Ok(before) => match fragment_tokens(text, fragments[k - 1]) {
                Some(tokens) => Ok(before + tokens),
                None => Err(OutOfBounds(fragments[k - 1].span)),
            },
            Err(error) => Err(error),
        }
    }
}

/// A pass that has failed stays failed, with the same error, whatever
/// fragments follow.
pub proof fn lemma_failure_stays(text: Seq<char>, fragments: Seq<Fragment>, k: int, m: int)
    requires
        k <= m,
        tokens_of_fragments(text, fragments, k) is Err,
    ensures
        tokens_of_fragments(text, fragments, m) == tokens_of_fragments(text, fragments, k),
    decreases m - k,
{
    if k < m {
        lemma_failure_stays(text, fragments, k, m - 1);
    }
}

/// The tokens of all of `fragments`.
pub open spec fn tokens_of_all(text: Seq<char>, fragments: Seq<Fragment>) -> Result<
    Seq<Token>,
    OutOfBounds,
> {
    tokens_of_fragments(text, fragments, fragments.len() as int)
}

/// Whether `result` holds what `expected` says: the same tokens, or the same
/// error.
pub open spec fn tokens_match(result: Result<Vec<Token>, OutOfBounds>, expected: Result<
    Seq<Token>,
    OutOfBounds,
>) -> bool {
    match result {
        Ok(tokens) => expected == Ok::<Seq<Token>, OutOfBounds>(tokens@),
        Err(error) => expected == Err::<Seq<Token>, OutOfBounds>(error),
    }
}

/// Turns the fragments of a buffer into the tokens to look up.
#[derive(Debug)]
pub struct FragmentProcessor<'a> {
    pub fragmentizer: Fragmentizer,
    pub source: &'a Source,
}

impl<'a> FragmentProcessor<'a> {
    /// The processor of the buffer `source`, which `fragmentizer` cuts into
    /// fragments.
    pub fn new(fragmentizer: Fragmentizer, source: &'a Source) -> (processor: Self)
        ensures
            processor.fragmentizer == fragmentizer,
            processor.source == source,
    {
        FragmentProcessor { fragmentizer, source }
    }

    /// The processor of a buffer in the language `language`. A language
    /// without a fragmentizer of its own is cut as plain text is.
    pub fn from_lang(language: &str, source: &'a Source) -> (processor: Self)
        ensures
            processor.fragmentizer == Fragmentizer::of_language(language@),
            processor.source == source,
    {
        FragmentProcessor { fragmentizer: Fragmentizer::for_language(language), source }
    }

    /// The tokens of the buffer, fragment by fragment, in the order of the
    /// fragments. The pass fails at the first fragment whose bytes cannot be
    /// taken out of the buffer.
    pub fn process(&self) -> (tokens: Result<Vec<Token>, OutOfBounds>)
        ensures
            tokens_match(tokens, tokens_of_all(self.source@, self.fragmentizer.fragments(self.source@))),
    {
        let fragments = self.fragmentizer.fragmentize(self.source);
        self.process_fragments(&fragments)
    }

    /// The tokens of `fragments`, in the order of the fragments. The pass
    /// fails at the first fragment whose bytes cannot be taken out of the
    /// buffer.
    pub fn process_fragments(&self, fragments: &Vec<Fragment>) -> (tokens: Result<
        Vec<Token>,
        OutOfBounds,
    >)
        ensures
            tokens_match(tokens, tokens_of_all(self.source@, fragments@)),
    {
        let mut tokens: Vec<Token> = Vec::new();
        let mut k: usize = 0;
        while k < fragments.len()
            invariant
                0 <= k <= fragments@.len(),
                tokens_of_fragments(self.source@, fragments@, k as int) == Ok::<
                    Seq<Token>,
                    OutOfBounds,
                >(tokens@),
            decreases fragments@.len() - k,
        {
            let fragment = fragments[k];
            let found = match fragment.kind {
                FragmentKind::Sentence => self.split_sentence(fragment.span),
                FragmentKind::Ident | FragmentKind::Unknown => self.split_generic_casing(
                    fragment.span,
                ),
            };
            match found {
                Some(mut more) => {
                    tokens.append(&mut more);
                },
                None => {
                    proof {
                        lemma_failure_stays(
                            self.source@,
                            fragments@,
                            k as int + 1,
                            fragments@.len() as int,
                        );
                    }
                    return Err(OutOfBounds(fragment.span));
                },
            }
            k = k + 1;
        }
        Ok(tokens)
    }

    /// Splits the identifier that takes the bytes of `span` at the
    /// boundaries of its words. There are no tokens where the bytes cannot be
    /// taken out of the buffer.
    pub fn split_generic_casing(&self, span: Span) -> (tokens: Option<Vec<Token>>)
        ensures
            match tokens {
                Some(tokens) => casing_tokens_at(self.source@, span) == Some(tokens@),
                None => casing_tokens_at(self.source@, span) is None,
            },
    {
        match self.source.str_from(span) {
            Some(part) => {
                let glyphs = classify(part.as_str());
                proof {
                    lemma_total_width_is_len(part@);
                }
                Some(split_casing(&glyphs, span.low))
            },
            None => None,
        }
    }

    /// Splits the sentence that takes the bytes of `span` into its words.
    /// There are no tokens where the bytes cannot be taken out of the
    /// buffer.
    pub fn split_sentence(&self, span: Span) -> (tokens: Option<Vec<Token>>)
        ensures
            match tokens {
                Some(tokens) => sentence_tokens_at(self.source@, span) == Some(tokens@),
                None => sentence_tokens_at(self.source@, span) is None,
            },
    {
        match self.source.str_from(span) {
            Some(part) => {
                let glyphs = classify(part.as_str());
                proof {
                    lemma_total_width_is_len(part@);
                }
                Some(split_words(&glyphs, span.low))
            },
            None => None,
        }
    }
}

/// The tokens of a fragment lie within the fragment, and so within the
/// buffer, and come in order without overlap.
pub proof fn lemma_tokens_within_fragment(text: Seq<char>, fragment: Fragment)
    requires
        fragment_tokens(text, fragment) is Some,
    ensures
        fragment.span.high.0 <= bytes_of(text).len(),
        forall|k: int|
            0 <= k < fragment_tokens(text, fragment)->0.len() ==> {
                let span = (#[trigger] fragment_tokens(text, fragment)->0[k]).span;
                fragment.span.low.0 <= span.low.0 <= span.high.0 <= fragment.span.high.0
            },
        forall|k: int, l: int|
            0 <= k < l < fragment_tokens(text, fragment)->0.len() ==> (#[trigger] fragment_tokens(
                text,
                fragment,
            )->0[k]).span.high.0 <= (#[trigger] fragment_tokens(text, fragment)->0[l]).span.low.0,
{
    let span = fragment.span;
    let part = slice(text, span)->0;
    let glyphs = glyphs_of(part);
    lemma_slice_bytes(text, span);
    lemma_total_width_is_len(part);
    match fragment.kind {
        FragmentKind::Sentence => {
            lemma_sentence_ranges_ordered(glyphs);
            lemma_tokens_ordered(glyphs, span.low, sentence_ranges(glyphs));
        },
        FragmentKind::Ident | FragmentKind::Unknown => {
            lemma_casing_ranges_ordered(glyphs);
            lemma_tokens_ordered(glyphs, span.low, casing_ranges(glyphs));
        },
    }
}

/// Whether the bytes of every one of `tokens` can be taken out of `text`.
pub open spec fn all_sliceable(text: Seq<char>, tokens: Seq<Token>) -> bool {
    forall|k: int| 0 <= k < tokens.len() ==> slice(text, (#[trigger] tokens[k]).span) is Some
}

/// The token of a range of characters within the text of a span has as its
/// text these characters.
pub proof fn lemma_token_is_slice(text: Seq<char>, span: Span, ranges: Seq<(int, int)>, k: int)
    requires
        slice(text, span) is Some,
        ordered(ranges, 0, slice(text, span)->0.len() as int),
        0 <= k < ranges.len(),
    ensures
        slice(text, tokens_of(glyphs_of(slice(text, span)->0), span.low, ranges)[k].span) == Some(
            slice(text, span)->0.subrange(ranges[k].0, ranges[k].1),
        ),
{
    let part = slice(text, span)->0;
    let glyphs = glyphs_of(part);
    let range = ranges[k];
    let inner = tokens_of(glyphs, span.low, ranges)[k].span;
    lemma_slice_bytes(text, span);
    lemma_total_width_is_len(part);
    lemma_offset_is_bytes(part, range.0);
    lemma_offset_is_bytes(part, range.1);
    lemma_offset_strict(part, range.0, range.1);
    lemma_offset_monotonic(glyphs, 0, range.0);
    lemma_offset_monotonic(glyphs, range.1, glyphs.len() as int);
    lemma_slice_of_slice(text, span, inner, range.0, range.1);
}

/// Where the bytes of a fragment can be taken out of the buffer, so can
/// those of each of its tokens.
pub proof fn lemma_fragment_tokens_sliceable(text: Seq<char>, fragment: Fragment)
    requires
        slice(text, fragment.span) is Some,
    ensures
        fragment_tokens(text, fragment) is Some,
        all_sliceable(text, fragment_tokens(text, fragment)->0),
{
    let span = fragment.span;
    let part = slice(text, span)->0;
    let glyphs = glyphs_of(part);
    let tokens = fragment_tokens(text, fragment)->0;
    match fragment.kind {
        FragmentKind::Sentence => {
            lemma_sentence_ranges_ordered(glyphs);
            assert forall|k: int| 0 <= k < tokens.len() implies slice(text, (#[trigger] tokens[k]).span)
                is Some by {
                lemma_token_is_slice(text, span, sentence_ranges(glyphs), k);
            }
        },
        FragmentKind::Ident | FragmentKind::Unknown => {
            lemma_casing_ranges_ordered(glyphs);
            assert forall|k: int| 0 <= k < tokens.len() implies slice(text, (#[trigger] tokens[k]).span)
                is Some by {
                lemma_token_is_slice(text, span, casing_ranges(glyphs), k);
            }
        },
    }
}

/// Where the bytes of each of the first `k` fragments can be taken out of
/// the buffer, the fragments have tokens, and the bytes of each token can be
/// taken out of the buffer.
pub proof fn lemma_tokens_sliceable(text: Seq<char>, fragments: Seq<Fragment>, k: int)
    requires
        0 <= k <= fragments.len(),
        forall|i: int| 0 <= i < k ==> slice(text, (#[trigger] fragments[i]).span) is Some,
    ensures
        tokens_of_fragments(text, fragments, k) is Ok,
        all_sliceable(text, tokens_of_fragments(text, fragments, k)->Ok_0),
    decreases k,
{
    if k > 0 {
        lemma_tokens_sliceable(text, fragments, k - 1);
        lemma_fragment_tokens_sliceable(text, fragments[k - 1]);
        let before = tokens_of_fragments(text, fragments, k - 1)->Ok_0;
        let more = fragment_tokens(text, fragments[k - 1])->0;
        let all = before + more;
        assert forall|i: int| 0 <= i < all.len() implies slice(text, (#[trigger] all[i]).span) is Some by {
            if i < before.len() {
                assert(all[i] == before[i]);
            } else {
                assert(all[i] == more[i - before.len()]);
            }
        }
    }
}

} // verus!

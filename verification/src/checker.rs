use crate::cache::LookupCache;
use crate::fragmentizer::{lemma_plain_fragments, Fragmentizer};
use crate::processor::{
    all_sliceable, lemma_tokens_sliceable, tokens_of_all, FragmentProcessor, OutOfBounds, Token,
};
use crate::span::{slice, Source, Span};
use vstd::prelude::*;
use vstd::string::StringExecFns;

verus! {

/// A word that the dictionary does not know, and where it stands.
#[derive(PartialEq, Eq, Debug)]
pub struct WordDiagnostic {
    pub word: String,
    pub span: Span,
}

/// A diagnostic with its word as a text.
pub struct DiagnosticView {
    pub word: Seq<char>,
    pub span: Span,
}

impl View for WordDiagnostic {
    type V = DiagnosticView;

    open spec fn view(&self) -> DiagnosticView {
        DiagnosticView { word: self.word@, span: self.span }
    }
}

/// The diagnostics, each as its view.
pub open spec fn diagnostic_views(diagnostics: Seq<WordDiagnostic>) -> Seq<DiagnosticView> {
    Seq::new(diagnostics.len(), |i: int| diagnostics[i]@)
}

/// Whether `lookup` answers as the dictionary `known` does: whatever it
/// returns for a word is what `known` says of the word's text.
pub open spec fn answers<F: Fn(&String) -> bool>(lookup: F, known: spec_fn(Seq<char>) -> bool) -> bool {
    forall|word: &String, answer: bool| #[trigger]
        call_ensures(lookup, (word,), answer) ==> answer == known(word@)
}

/// Whether `lookup` has given the answer `answer` for the text `word`.
pub open spec fn answered<F: Fn(&String) -> bool>(lookup: F, word: Seq<char>, answer: bool) -> bool {
    exists|asked: &String| asked@ == word && #[trigger] call_ensures(lookup, (asked,), answer)
}

/// The words of the first `k` of `tokens` with their spans, in order; or the
/// span of the first of them whose bytes cannot be taken out of `text`.
pub open spec fn words_of_tokens(text: Seq<char>, tokens: Seq<Token>, k: int) -> Result<
    Seq<DiagnosticView>,
    OutOfBounds,
>
    decreases k,
{
    if k <= 0 {
        Ok(Seq::empty())
    } else {
        match words_of_tokens(text, tokens, k - 1) {
            Ok(before) => match slice(text, tokens[k - 1].span) {
                Some(word) => Ok(before.push(DiagnosticView { word, span: tokens[k - 1].span })),
                None => Err(OutOfBounds(tokens[k - 1].span)),
            },
            Err(error) => Err(error),
        }
    }
}

/// The verdict of `word` for a checker that holds the verdicts of `cache`
/// and asks the dictionary `known` for the others.
pub open spec fn verdict(
    cache: Map<Seq<char>, bool>,
    known: spec_fn(Seq<char>) -> bool,
    word: Seq<char>,
) -> bool {
    if cache.contains_key(word) {
        cache[word]
    } else {
        known(word)
    }
}

/// Those of the first `k` of `words` whose verdict is that they are not
/// known, in order.
pub open spec fn unknown_words(
    words: Seq<DiagnosticView>,
    k: int,
    cache: Map<Seq<char>, bool>,
    known: spec_fn(Seq<char>) -> bool,
) -> Seq<DiagnosticView>
    decreases k,
{
    if k <= 0 {
        Seq::empty()
    } else {
        let before = unknown_words(words, k - 1, cache, known);
        if verdict(cache, known, words[k - 1].word) {
            before
        } else {
            before.push(words[k - 1])
        }
    }
}

/// Those of the first `k` of `words` that `cache` does not hold as known,
/// in order.
pub open spec fn rejected(words: Seq<DiagnosticView>, k: int, cache: Map<Seq<char>, bool>) -> Seq<
    DiagnosticView,
>
    decreases k,
{
    if k <= 0 {
        Seq::empty()
    } else {
        let before = rejected(words, k - 1, cache);
        if cache.contains_key(words[k - 1].word) && cache[words[k - 1].word] {
            before
        } else {
            before.push(words[k - 1])
        }
    }
}

/// A cache that has learned more rejects the same of the words whose
/// verdicts it held before.
pub proof fn lemma_rejected_by_more(
    words: Seq<DiagnosticView>,
    k: int,
    less: Map<Seq<char>, bool>,
    more: Map<Seq<char>, bool>,
)
    requires
        less.submap_of(more),
        k <= words.len(),
        forall|j: int| 0 <= j < k ==> less.contains_key((#[trigger] words[j]).word),
    ensures
        rejected(words, k, less) == rejected(words, k, more),
    decreases k,
{
    if k > 0 {
        lemma_rejected_by_more(words, k - 1, less, more);
        assert(less.contains_key(words[k - 1].word));
    }
}

/// Those of `words` that the dictionary `known` does not know, in order.
pub open spec fn reported(words: Seq<DiagnosticView>, known: spec_fn(Seq<char>) -> bool) -> Seq<
    DiagnosticView,
> {
    unknown_words(words, words.len() as int, Map::empty(), known)
}

/// The cache once the first `k` of `words` have been looked up.
pub open spec fn learned(
    words: Seq<DiagnosticView>,
    k: int,
    cache: Map<Seq<char>, bool>,
    known: spec_fn(Seq<char>) -> bool,
) -> Map<Seq<char>, bool>
    decreases k,
{
    if k <= 0 {
        cache
    } else {
        let before = learned(words, k - 1, cache, known);
        if before.contains_key(words[k - 1].word) {
            before
        } else {
            before.insert(words[k - 1].word, known(words[k - 1].word))
        }
    }
}

/// Whether `word` is one of `words`.
pub open spec fn among(word: DiagnosticView, words: Seq<DiagnosticView>) -> bool {
    exists|j: int| 0 <= j < words.len() && words[j] == word
}

/// Whether every verdict of `cache` is that of the dictionary `known`.
pub open spec fn agrees(cache: Map<Seq<char>, bool>, known: spec_fn(Seq<char>) -> bool) -> bool {
    forall|word: Seq<char>| #[trigger] cache.contains_key(word) ==> cache[word] == known(word)
}

/// The words of a buffer with the text `text`, cut into fragments by
/// `fragmentizer`.
pub open spec fn words_of_buffer(fragmentizer: Fragmentizer, text: Seq<char>) -> Result<
    Seq<DiagnosticView>,
    OutOfBounds,
> {
    match tokens_of_all(text, fragmentizer.fragments(text)) {
        Ok(tokens) => words_of_tokens(text, tokens, tokens.len() as int),
        Err(error) => Err(error),
    }
}

/// What a check of the buffer reports where the dictionary is `known`.
pub open spec fn diagnostics_of_buffer(
    fragmentizer: Fragmentizer,
    text: Seq<char>,
    known: spec_fn(Seq<char>) -> bool,
) -> Result<Seq<DiagnosticView>, OutOfBounds> {
    match words_of_buffer(fragmentizer, text) {
        Ok(words) => Ok(reported(words, known)),
        Err(error) => Err(error),
    }
}

/// Whether `result` holds what `expected` says: the same diagnostics, or the
/// same error.
pub open spec fn diagnostics_match(
    result: Result<Vec<WordDiagnostic>, OutOfBounds>,
    expected: Result<Seq<DiagnosticView>, OutOfBounds>,
) -> bool {
    match result {
        Ok(diagnostics) => expected == Ok::<Seq<DiagnosticView>, OutOfBounds>(
            diagnostic_views(diagnostics@),
        ),
        Err(error) => expected == Err::<Seq<DiagnosticView>, OutOfBounds>(error),
    }
}

impl WordDiagnostic {
    /// What is said of the word to the one who reads the buffer.
    pub fn message(&self) -> (message: String)
        ensures
            message@ == "`"@ + self.word@ + "` isn't in a loaded dictionary"@,
    {
        let mut message = "`".to_owned();
        message.append(self.word.as_str());
        message.append("` isn't in a loaded dictionary");
        message
    }

    /// The diagnostic of a word whose verdict is `known`: none where the
    /// word is known.
    pub fn unless(known: bool, word: String, span: Span) -> (diagnostic: Option<WordDiagnostic>)
        ensures
            match diagnostic {
                Some(d) => !known && d@ == (DiagnosticView { word: word@, span }),
                None => known,
            },
    {
        if known {
            None
        } else {
            Some(WordDiagnostic { word, span })
        }
    }
}

/// A cache whose verdicts agree with a dictionary reports what a checker
/// without a cache reports.
pub proof fn lemma_cache_transparent(
    words: Seq<DiagnosticView>,
    k: int,
    cache: Map<Seq<char>, bool>,
    known: spec_fn(Seq<char>) -> bool,
)
    requires
        agrees(cache, known),
    ensures
        unknown_words(words, k, cache, known) == unknown_words(words, k, Map::empty(), known),
    decreases k,
{
    if k > 0 {
        lemma_cache_transparent(words, k - 1, cache, known);
        assert(cache.contains_key(words[k - 1].word) ==> cache[words[k - 1].word] == known(
            words[k - 1].word,
        ));
    }
}

/// A second check of the same words, with the verdicts that the first check
/// has left in the cache, reports what the first check reported, and what a
/// checker without any verdict reports.
pub proof fn lemma_second_check_reports_the_same(
    words: Seq<DiagnosticView>,
    cache: Map<Seq<char>, bool>,
    known: spec_fn(Seq<char>) -> bool,
)
    requires
        agrees(cache, known),
    ensures
        unknown_words(
            words,
            words.len() as int,
            learned(words, words.len() as int, cache, known),
            known,
        ) == unknown_words(words, words.len() as int, cache, known),
        unknown_words(words, words.len() as int, cache, known) == reported(words, known),
{
    let n = words.len() as int;
    lemma_learned_agrees(words, n, cache, known);
    lemma_cache_transparent(words, n, learned(words, n, cache, known), known);
    lemma_cache_transparent(words, n, cache, known);
}

/// A cache that agrees with a dictionary still agrees with it once more
/// words have been looked up, and has lost nothing.
pub proof fn lemma_learned_agrees(
    words: Seq<DiagnosticView>,
    k: int,
    cache: Map<Seq<char>, bool>,
    known: spec_fn(Seq<char>) -> bool,
)
    requires
        agrees(cache, known),
    ensures
        agrees(learned(words, k, cache, known), known),
        cache.submap_of(learned(words, k, cache, known)),
    decreases k,
{
    if k > 0 {
        lemma_learned_agrees(words, k - 1, cache, known);
    }
}

/// Checks the words of one buffer against a dictionary, and remembers the
/// verdicts from one check to the next.
pub struct Checker<F: Fn(&String) -> bool> {
    source: Source,
    dictionary: F,
    fragmentizer: Fragmentizer,
    cache: LookupCache,
}

impl<F: Fn(&String) -> bool> Checker<F> {
    /// The invariant of a checker: the dictionary can be asked about every
    /// word, and every verdict of the cache is an answer of the dictionary.
    pub closed spec fn wf(&self) -> bool {
        &&& self.cache.wf()
        &&& forall|word: &String| call_requires(self.dictionary, (word,))
        &&& forall|word: Seq<char>| #[trigger]
            self.cache@.contains_key(word) ==> answered(self.dictionary, word, self.cache@[word])
    }

    /// The text of the buffer.
    pub closed spec fn text(&self) -> Seq<char> {
        self.source@
    }

    /// The way in which the buffer is cut into fragments.
    pub closed spec fn fragmentizer(&self) -> Fragmentizer {
        self.fragmentizer
    }

    /// The dictionary.
    pub closed spec fn dictionary(&self) -> F {
        self.dictionary
    }

    /// The verdicts that the checker remembers.
    pub closed spec fn cache(&self) -> Map<Seq<char>, bool> {
        self.cache@
    }

    /// Every verdict that a well-formed checker remembers is that of the
    /// dictionary that its lookups answer as.
    pub proof fn lemma_cache_agrees(&self, known: spec_fn(Seq<char>) -> bool)
        requires
            self.wf(),
            answers(self.dictionary(), known),
        ensures
            agrees(self.cache(), known),
    {
        assert forall|word: Seq<char>| #[trigger] self.cache@.contains_key(word) implies self.cache@[word]
            == known(word) by {
            assert(answered(self.dictionary, word, self.cache@[word]));
        }
    }

    /// A checker of the buffer `source` in the language `language`, which
    /// asks `dictionary` whether a word is known. It remembers no verdict
    /// yet. A language without a fragmentizer of its own is cut as plain
    /// text is.
    pub fn new(dictionary: F, language: &str, source: Source) -> (checker: Self)
        requires
            forall|word: &String| call_requires(dictionary, (word,)),
        ensures
            checker.wf(),
            checker.text() == source@,
            checker.fragmentizer() == Fragmentizer::of_language(language@),
            checker.dictionary() == dictionary,
            checker.cache() == Map::<Seq<char>, bool>::empty(),
    {
        Checker {
            source,
            dictionary,
            fragmentizer: Fragmentizer::for_language(language),
            cache: LookupCache::new(),
        }
    }

    /// Puts `source` in the place of the buffer. The language, the
    /// dictionary and the verdicts that the checker remembers stay.
    pub fn replace_src(&mut self, source: Source)
        requires
            old(self).wf(),
        ensures
            final(self).wf(),
            final(self).text() == source@,
            final(self).fragmentizer() == old(self).fragmentizer(),
            final(self).dictionary() == old(self).dictionary(),
            final(self).cache() == old(self).cache(),
    {
        self.source = source;
    }

    /// The buffer.
    pub fn source(&self) -> (source: &Source)
        ensures
            source@ == self.text(),
    {
        &self.source
    }

    /// The name of the language in which the buffer is cut into fragments.
    pub fn lang_code(&self) -> (code: &'static str)
        ensures
            Fragmentizer::of_language(code@) == self.fragmentizer(),
    {
        self.fragmentizer.lang_code()
    }

    /// Whether `word` is known: the verdict that the checker remembers, or
    /// else the answer of the dictionary, which the checker then remembers.
    pub fn lookup(&mut self, word: &String) -> (known: bool)
        requires
            old(self).wf(),
        ensures
            final(self).wf(),
            final(self).text() == old(self).text(),
            final(self).fragmentizer() == old(self).fragmentizer(),
            final(self).dictionary() == old(self).dictionary(),
            final(self).cache() == old(self).cache().insert(word@, known),
            old(self).cache().contains_key(word@) ==> known == old(self).cache()[word@],
            answered(old(self).dictionary(), word@, known),
    {
        match self.cache.get(word) {
            Some(known) => {
                proof {
                    assert(self.cache@.contains_key(word@));
                    assert(self.cache@.insert(word@, known) =~= self.cache@);
                }
                known
            },
            None => {
                let known = (self.dictionary)(word);
                self.cache.insert(word.clone(), known);
                proof {
                    assert forall|other: Seq<char>| #[trigger]
                        self.cache@.contains_key(other) implies answered(
                        self.dictionary,
                        other,
                        self.cache@[other],
                    ) by {
                        if other != word@ {
                            assert(old(self).cache@.contains_key(other));
                        }
                    }
                }
                known
            },
        }
    }

    /// The diagnostic of `word`, which stands at `span`: none where the word
    /// is known.
    pub fn diagnostic(&mut self, word: String, span: Span) -> (diagnostic: Option<WordDiagnostic>)
        requires
            old(self).wf(),
        ensures
            final(self).wf(),
            final(self).text() == old(self).text(),
            final(self).fragmentizer() == old(self).fragmentizer(),
            final(self).dictionary() == old(self).dictionary(),
            final(self).cache() == old(self).cache().insert(word@, diagnostic is None),
            old(self).cache().contains_key(word@) ==> (diagnostic is None) == old(self).cache()[word@],
            answered(old(self).dictionary(), word@, diagnostic is None),
            diagnostic matches Some(d) ==> d@ == (DiagnosticView { word: word@, span }),
    {
        let known = self.lookup(&word);
        WordDiagnostic::unless(known, word, span)
    }

    /// The words of the buffer with their spans, in the order of the tokens.
    /// There are none where a span of a fragment or of a token cannot be
    /// taken out of the buffer: the error holds the first such span.
    pub fn words(&self) -> (words: Result<Vec<WordDiagnostic>, OutOfBounds>)
        ensures
            diagnostics_match(words, words_of_buffer(self.fragmentizer(), self.text())),
    {
        let processor = FragmentProcessor::new(self.fragmentizer, &self.source);
        match processor.process() {
            Ok(tokens) => words_from_tokens(&self.source, &tokens),
            Err(error) => Err(error),
        }
    }

    /// Those of `words` that are not known, in order. Each word is looked up
    /// in the cache first, and the dictionary is asked only about a word
    /// that the cache does not hold.
    pub fn check_words(&mut self, words: Vec<WordDiagnostic>) -> (diagnostics: Vec<WordDiagnostic>)
        requires
            old(self).wf(),
        ensures
            final(self).wf(),
            final(self).text() == old(self).text(),
            final(self).fragmentizer() == old(self).fragmentizer(),
            final(self).dictionary() == old(self).dictionary(),
            old(self).cache().submap_of(final(self).cache()),
            forall|i: int|
                0 <= i < diagnostics@.len() ==> among(
                    (#[trigger] diagnostics@[i])@,
                    diagnostic_views(words@),
                ),
            forall|j: int|
                0 <= j < words@.len() ==> final(self).cache().contains_key(
                    (#[trigger] words@[j]).word@,
                ),
            diagnostic_views(diagnostics@) == rejected(
                diagnostic_views(words@),
                words@.len() as int,
                final(self).cache(),
            ),
            forall|word: Seq<char>| #[trigger]
                final(self).cache().contains_key(word) && !old(self).cache().contains_key(word)
                    ==> answered(old(self).dictionary(), word, final(self).cache()[word]),
            forall|known: spec_fn(Seq<char>) -> bool| #[trigger]
                answers(old(self).dictionary(), known) ==> {
                    &&& diagnostic_views(diagnostics@) == reported(diagnostic_views(words@), known)
                    &&& final(self).cache() == learned(
                        diagnostic_views(words@),
                        words@.len() as int,
                        old(self).cache(),
                        known,
                    )
                },
    {
        let ghost all = diagnostic_views(words@);
        let ghost start = self.cache@;
        let mut diagnostics: Vec<WordDiagnostic> = Vec::new();
        let mut queue = words;
        let mut rest: Vec<WordDiagnostic> = Vec::new();
        // The words are taken from the end of the list, so the list is
        // turned over first.
        let n = queue.len();
        while queue.len() > 0
            invariant
                rest@.len() + queue@.len() == n,
                n == all.len(),
                forall|i: int| 0 <= i < queue@.len() ==> (#[trigger] queue@[i])@ == all[i],
                forall|i: int| 0 <= i < rest@.len() ==> (#[trigger] rest@[i])@ == all[n - 1 - i],
            decreases queue@.len(),
        {
            let word = queue.pop().unwrap();
            rest.push(word);
        }
        let mut k: usize = 0;
        while rest.len() > 0
            invariant
                self.wf(),
                self.text() == old(self).text(),
                self.fragmentizer() == old(self).fragmentizer(),
                self.dictionary() == old(self).dictionary(),
                start == old(self).cache(),
                start.submap_of(self.cache@),
                n == all.len(),
                k + rest@.len() == n,
                forall|i: int| 0 <= i < rest@.len() ==> (#[trigger] rest@[i])@ == all[n - 1 - i],
                forall|i: int| 0 <= i < diagnostics@.len() ==> among((#[trigger] diagnostics@[i])@, all),
                forall|j: int| 0 <= j < k ==> self.cache@.contains_key((#[trigger] all[j]).word),
                diagnostic_views(diagnostics@) == rejected(all, k as int, self.cache@),
                forall|known: spec_fn(Seq<char>) -> bool| #[trigger]
                    answers(self.dictionary, known) ==> {
                        &&& diagnostic_views(diagnostics@) == unknown_words(
                            all,
                            k as int,
                            start,
                            known,
                        )
                        &&& self.cache@ == learned(all, k as int, start, known)
                    },
            decreases rest@.len(),
        {
            let ghost before = self.cache@;
            let ghost reported_before = diagnostic_views(diagnostics@);
            let next = rest.pop().unwrap();
            assert(next@ == all[k as int]);
            let WordDiagnostic { word, span } = next;
            let found = self.diagnostic(word, span);
            proof {
                assert(before.submap_of(self.cache@)) by {
                    assert forall|w: Seq<char>| #[trigger] before.contains_key(w) implies self.cache@.contains_key(w)
                        && before[w] == self.cache@[w] by {}
                }
                lemma_rejected_by_more(all, k as int, before, self.cache@);
                assert(self.cache@.contains_key(all[k as int].word));
                assert(self.cache@[all[k as int].word] == (found is None));
            }
            match found {
                Some(d) => {
                    let ghost so_far = diagnostics@;
                    diagnostics.push(d);
                    proof {
                        assert(diagnostic_views(diagnostics@) =~= reported_before.push(all[k as int]));
                        assert forall|i: int| 0 <= i < diagnostics@.len() implies among(
                            (#[trigger] diagnostics@[i])@,
                            all,
                        ) by {
                            if i < so_far.len() {
                                assert(diagnostics@[i] == so_far[i]);
                            } else {
                                assert(all[k as int] == diagnostics@[i]@);
                            }
                        }
                    }
                },
                None => {
                    proof {
                        assert(diagnostic_views(diagnostics@) =~= reported_before);
                    }
                },
            }
            proof {
                assert forall|known: spec_fn(Seq<char>) -> bool| #[trigger]
                    answers(self.dictionary, known) implies {
                    &&& diagnostic_views(diagnostics@) == unknown_words(
                        all,
                        k as int + 1,
                        start,
                        known,
                    )
                    &&& self.cache@ == learned(all, k as int + 1, start, known)
                } by {
                    let w = all[k as int].word;
                    let answer = found is None;
                    assert(answered(self.dictionary, w, answer));
                    assert(answer == known(w));
                    assert(before == learned(all, k as int, start, known));
                    lemma_learned_verdict(all, k as int, start, known, w);
                    if before.contains_key(w) {
                        assert(before.insert(w, answer) =~= before);
                    }
                }
            }
            k = k + 1;
        }
        proof {
            assert forall|known: spec_fn(Seq<char>) -> bool| #[trigger]
                answers(old(self).dictionary(), known) implies diagnostic_views(diagnostics@)
                == reported(all, known) by {
                old(self).lemma_cache_agrees(known);
                lemma_cache_transparent(all, n as int, start, known);
            }
            assert forall|j: int| 0 <= j < words@.len() implies self.cache@.contains_key(
                (#[trigger] words@[j]).word@,
            ) by {
                assert(all[j].word == words@[j].word@);
            }
        }
        diagnostics
    }

    /// Checks the buffer: cuts it into fragments, splits the fragments into
    /// tokens, and reports every token whose word the dictionary does not
    /// know, in the order of the tokens. What is reported does not depend on
    /// the verdicts that the checker remembers. The check fails, and
    /// nothing is looked up, where a span of a fragment or of a token cannot
    /// be taken out of the buffer.
    pub fn check(&mut self) -> (diagnostics: Result<Vec<WordDiagnostic>, OutOfBounds>)
        requires
            old(self).wf(),
        ensures
            final(self).wf(),
            final(self).text() == old(self).text(),
            final(self).fragmentizer() == old(self).fragmentizer(),
            final(self).dictionary() == old(self).dictionary(),
            old(self).cache().submap_of(final(self).cache()),
            diagnostics is Err ==> final(self).cache() == old(self).cache(),
            diagnostics is Ok <==> words_of_buffer(old(self).fragmentizer(), old(self).text()) is Ok,
            old(self).fragmentizer() == Fragmentizer::PlainText ==> diagnostics is Ok,
            diagnostics matches Err(error) ==> words_of_buffer(
                old(self).fragmentizer(),
                old(self).text(),
            ) == Err::<Seq<DiagnosticView>, OutOfBounds>(error),
            diagnostics matches Ok(found) ==> forall|i: int|
                0 <= i < found@.len() ==> slice(old(self).text(), (#[trigger] found@[i]).span)
                    == Some(found@[i].word@),
            diagnostics matches Ok(found) ==> {
                let words = words_of_buffer(old(self).fragmentizer(), old(self).text())->Ok_0;
                &&& forall|j: int|
                    0 <= j < words.len() ==> final(self).cache().contains_key(
                        (#[trigger] words[j]).word,
                    )
                &&& diagnostic_views(found@) == rejected(
                    words,
                    words.len() as int,
                    final(self).cache(),
                )
            },
            forall|word: Seq<char>| #[trigger]
                final(self).cache().contains_key(word) && !old(self).cache().contains_key(word)
                    ==> answered(old(self).dictionary(), word, final(self).cache()[word]),
            forall|known: spec_fn(Seq<char>) -> bool| #[trigger]
                answers(old(self).dictionary(), known) ==> diagnostics_match(
                    diagnostics,
                    diagnostics_of_buffer(old(self).fragmentizer(), old(self).text(), known),
                ),
    {
        proof {
            if self.fragmentizer == Fragmentizer::PlainText {
                lemma_plain_text_has_words(self.source@);
            }
        }
        match self.words() {
            Ok(words) => {
                let ghost all = diagnostic_views(words@);
                proof {
                    let tokens = tokens_of_all(self.source@, self.fragmentizer.fragments(self.source@))->Ok_0;
                    lemma_words_are_slices(self.source@, tokens, tokens.len() as int);
                }
                let ghost given = words@;
                let found = self.check_words(words);
                proof {
                    assert forall|j: int| 0 <= j < all.len() implies self.cache@.contains_key(
                        (#[trigger] all[j]).word,
                    ) by {
                        assert(all[j].word == given[j].word@);
                    }
                    assert forall|i: int| 0 <= i < found@.len() implies slice(
                        old(self).text(),
                        (#[trigger] found@[i]).span,
                    ) == Some(found@[i].word@) by {
                        assert(among(found@[i]@, all));
                        let j = choose|j: int| 0 <= j < all.len() && all[j] == found@[i]@;
                        assert(slice(old(self).text(), all[j].span) == Some(all[j].word));
                    }
                }
                Ok(found)
            },
            Err(error) => Err(error),
        }
    }
}

/// The verdict of a word before the cache is the verdict of the word once
/// more words have been looked up.
pub proof fn lemma_learned_verdict(
    words: Seq<DiagnosticView>,
    k: int,
    cache: Map<Seq<char>, bool>,
    known: spec_fn(Seq<char>) -> bool,
    word: Seq<char>,
)
    ensures
        verdict(learned(words, k, cache, known), known, word) == verdict(cache, known, word),
    decreases k,
{
    if k > 0 {
        lemma_learned_verdict(words, k - 1, cache, known, word);
    }
}

/// The word of every token is the text of its span in the buffer.
pub proof fn lemma_words_are_slices(text: Seq<char>, tokens: Seq<Token>, k: int)
    requires
        words_of_tokens(text, tokens, k) is Ok,
    ensures
        forall|i: int|
            0 <= i < words_of_tokens(text, tokens, k)->Ok_0.len() ==> slice(
                text,
                (#[trigger] words_of_tokens(text, tokens, k)->Ok_0[i]).span,
            ) == Some(words_of_tokens(text, tokens, k)->Ok_0[i].word),
    decreases k,
{
    if k > 0 {
        lemma_words_are_slices(text, tokens, k - 1);
        let before = words_of_tokens(text, tokens, k - 1)->Ok_0;
        let all = words_of_tokens(text, tokens, k)->Ok_0;
        assert forall|i: int| 0 <= i < all.len() implies slice(text, (#[trigger] all[i]).span) == Some(
            all[i].word,
        ) by {
            if i < before.len() {
                assert(all[i] == before[i]);
            }
        }
    }
}

/// The words of `tokens` with their spans, in order; or the span of the
/// first token whose bytes cannot be taken out of `source`.
pub fn words_from_tokens(source: &Source, tokens: &Vec<Token>) -> (words: Result<
    Vec<WordDiagnostic>,
    OutOfBounds,
>)
    ensures
        diagnostics_match(words, words_of_tokens(source@, tokens@, tokens@.len() as int)),
{
    let mut words: Vec<WordDiagnostic> = Vec::new();
    let mut k: usize = 0;
    proof {
        assert(diagnostic_views(words@) =~= Seq::<DiagnosticView>::empty());
    }
    while k < tokens.len()
        invariant
            0 <= k <= tokens@.len(),
            words_of_tokens(source@, tokens@, k as int) == Ok::<Seq<DiagnosticView>, OutOfBounds>(
                diagnostic_views(words@),
            ),
        decreases tokens@.len() - k,
    {
        let span = tokens[k].span;
        let ghost before = diagnostic_views(words@);
        match source.str_from(span) {
            Some(word) => {
                words.push(WordDiagnostic { word, span });
                proof {
                    assert(diagnostic_views(words@) =~= before.push(
                        DiagnosticView { word: word@, span },
                    ));
                }
            },
            None => {
                proof {
                    lemma_words_failure_stays(source@, tokens@, k as int + 1, tokens@.len() as int);
                }
                return Err(OutOfBounds(span));
            },
        }
        k = k + 1;
    }
    Ok(words)
}

/// Once the bytes of a token cannot be taken out of the buffer, the words of
/// the tokens are the same error, whatever tokens follow.
pub proof fn lemma_words_failure_stays(text: Seq<char>, tokens: Seq<Token>, k: int, m: int)
    requires
        k <= m,
        words_of_tokens(text, tokens, k) is Err,
    ensures
        words_of_tokens(text, tokens, m) == words_of_tokens(text, tokens, k),
    decreases m - k,
{
    if k < m {
        lemma_words_failure_stays(text, tokens, k, m - 1);
    }
}

/// Where the bytes of each of `tokens` can be taken out of the buffer, each
/// token has its word.
pub proof fn lemma_sliceable_tokens_have_words(text: Seq<char>, tokens: Seq<Token>, k: int)
    requires
        all_sliceable(text, tokens),
        0 <= k <= tokens.len(),
    ensures
        words_of_tokens(text, tokens, k) is Ok,
    decreases k,
{
    if k > 0 {
        lemma_sliceable_tokens_have_words(text, tokens, k - 1);
        assert(slice(text, tokens[k - 1].span) is Some);
    }
}

/// Where the bytes of each fragment can be taken out of the buffer, the
/// buffer has its words: a check of it does not fail.
pub proof fn lemma_sliceable_fragments_have_words(fragmentizer: Fragmentizer, text: Seq<char>)
    requires
        forall|i: int|
            0 <= i < fragmentizer.fragments(text).len() ==> slice(
                text,
                (#[trigger] fragmentizer.fragments(text)[i]).span,
            ) is Some,
    ensures
        words_of_buffer(fragmentizer, text) is Ok,
{
    let fragments = fragmentizer.fragments(text);
    lemma_tokens_sliceable(text, fragments, fragments.len() as int);
    let tokens = tokens_of_all(text, fragments)->Ok_0;
    lemma_sliceable_tokens_have_words(text, tokens, tokens.len() as int);
}

/// A plain text has its words: a check of it does not fail.
pub proof fn lemma_plain_text_has_words(text: Seq<char>)
    ensures
        words_of_buffer(Fragmentizer::PlainText, text) is Ok,
{
    lemma_plain_fragments(text);
    lemma_sliceable_fragments_have_words(Fragmentizer::PlainText, text);
}

} // verus!

use tree_sitter::Query;
use wordc::cache::{hash_word, LookupCache};
use wordc::checker::{words_from_tokens, Checker, WordDiagnostic};
use wordc::commands::{AddToDict, ADD_TO_DICT};
use wordc::fragmentizer::{
    capture_to_fragment, plain_fragmentize, same_text, syntax_fragmentize, Fragment, FragmentKind,
    Fragmentizer, SPELLCHECK_QUERY,
};
use wordc::glyph::classify;
use wordc::processor::{FragmentProcessor, OutOfBounds, Token};
use wordc::span::{BytePos, Source, Span};
use wordc::syntax::Capture;

fn span(low: u32, high: u32) -> Span {
    Span::new(BytePos(low), BytePos(high))
}

fn unknown(low: u32, high: u32) -> Fragment {
    Fragment { kind: FragmentKind::Unknown, span: span(low, high) }
}

fn diagnostic(word: &str, low: u32, high: u32) -> WordDiagnostic {
    WordDiagnostic { word: word.to_string(), span: span(low, high) }
}

fn only_bye(word: &String) -> bool {
    word == "bye"
}

#[test]
fn query_expect_patterns() {
    let grammar = tree_sitter_rust::language();
    let query = Query::new(&grammar, SPELLCHECK_QUERY).unwrap();

    assert_eq!(
        query.capture_names(),
        [
            "ident",
            "sentence.string",
            "sentence.comment",
            "sentence.comment.raw"
        ]
    );
}

#[test]
fn split_snake_case_ident() {
    let source = "
			let bye_jello = true;
		";
    let src = Source::new(source);
    let proc = FragmentProcessor::from_lang("rust", &src);

    let ident_span = Span::new(BytePos(8), BytePos(8 + 9));
    assert_eq!(
        proc.split_generic_casing(ident_span),
        Some(vec![
            // bye
            Token::new_word(ident_span.relative(BytePos(0), BytePos(3))),
            // jello
            Token::new_word(ident_span.relative(BytePos(4), BytePos(9)))
        ])
    );
}

#[test]
fn plain_text_cuts_at_what_is_not_alphanumeric() {
    let source = Source::new("let bye_jello = 42;");
    assert_eq!(
        Fragmentizer::PlainText.fragmentize(&source),
        vec![unknown(0, 3), unknown(4, 7), unknown(8, 13), unknown(16, 18)]
    );
    assert_eq!(plain_fragmentize(&classify("a-b")), vec![unknown(0, 1), unknown(2, 3)]);
    assert_eq!(Fragmentizer::PlainText.fragmentize(&Source::new("")), vec![]);
    assert_eq!(Fragmentizer::PlainText.fragmentize(&Source::new(" ;; ")), vec![]);
}

#[test]
fn plain_text_spans_are_bytes() {
    let source = Source::new("é là");
    assert_eq!(Fragmentizer::PlainText.fragmentize(&source), vec![unknown(0, 2), unknown(3, 6)]);
}

#[test]
fn rust_fragments_are_identifiers_strings_and_comments() {
    let text = "// a note\nfn byeJello() { let s = \"some text\"; }";
    let source = Source::new(text);
    let fragments = Fragmentizer::Rust.fragmentize(&source);
    let found: Vec<(FragmentKind, String)> = fragments
        .iter()
        .map(|f| (f.kind, source.str_from(f.span).unwrap()))
        .collect();
    assert!(found.contains(&(FragmentKind::Sentence, " a note".to_string())));
    assert!(found.contains(&(FragmentKind::Ident, "byeJello".to_string())));
    assert!(found.contains(&(FragmentKind::Ident, "s".to_string())));
    assert!(found.contains(&(FragmentKind::Sentence, "some text".to_string())));
    assert_eq!(found.len(), 4);
}

#[test]
fn rust_block_comments_lose_both_markers() {
    let source = Source::new("/* block words */ struct Thing;");
    let fragments = Fragmentizer::Rust.fragmentize(&source);
    let found: Vec<(FragmentKind, String)> = fragments
        .iter()
        .map(|f| (f.kind, source.str_from(f.span).unwrap()))
        .collect();
    assert_eq!(
        found,
        vec![
            (FragmentKind::Sentence, " block words ".to_string()),
            (FragmentKind::Ident, "Thing".to_string()),
        ]
    );
}

#[test]
fn rust_doc_comments_are_taken_once() {
    let source = Source::new("/// Adds numbers\nfn add() {}");
    let fragments = Fragmentizer::Rust.fragmentize(&source);
    let sentences: Vec<String> = fragments
        .iter()
        .filter(|f| f.kind == FragmentKind::Sentence)
        .map(|f| source.str_from(f.span).unwrap())
        .collect();
    assert_eq!(sentences.len(), 1);
    assert_eq!(sentences[0].trim(), "Adds numbers");
}

#[test]
fn captures_are_trimmed_by_their_rule() {
    let fragment = |name: &str, kind: &str, start: usize, end: usize| {
        capture_to_fragment(&Capture::new(name, kind, start, end))
    };
    let sentence = |low, high| Some(Fragment { kind: FragmentKind::Sentence, span: span(low, high) });
    assert_eq!(
        fragment("ident", "identifier", 3, 9),
        Some(Fragment { kind: FragmentKind::Ident, span: span(3, 9) })
    );
    assert_eq!(fragment("sentence.string", "string_literal", 10, 20), sentence(11, 19));
    assert_eq!(fragment("sentence.comment", "doc_comment", 10, 20), sentence(10, 20));
    assert_eq!(fragment("sentence.comment.raw", "line_comment", 10, 20), sentence(12, 20));
    assert_eq!(fragment("sentence.comment.raw", "block_comment", 10, 20), sentence(12, 18));
    assert_eq!(fragment("sentence.comment.raw", "other", 10, 20), sentence(10, 20));
    assert_eq!(fragment("something.else", "identifier", 3, 9), None);
}

#[test]
fn captures_shorter_than_their_markers_are_empty() {
    let fragment = |name: &str, kind: &str, start: usize, end: usize| {
        capture_to_fragment(&Capture::new(name, kind, start, end))
    };
    let sentence = |low, high| Some(Fragment { kind: FragmentKind::Sentence, span: span(low, high) });
    assert_eq!(fragment("sentence.comment.raw", "block_comment", 10, 13), sentence(12, 12));
    assert_eq!(fragment("sentence.comment.raw", "block_comment", 10, 11), sentence(11, 11));
    assert_eq!(fragment("sentence.comment.raw", "line_comment", 10, 11), sentence(11, 11));
    assert_eq!(fragment("sentence.string", "string_literal", 10, 11), sentence(11, 11));
    assert_eq!(fragment("sentence.string", "string_literal", 10, 10), sentence(10, 10));
}

#[test]
fn malformed_captures_give_no_fragment() {
    assert_eq!(capture_to_fragment(&Capture::new("ident", "identifier", 9, 3)), None);
    let beyond = u32::MAX as usize + 1;
    if beyond > u32::MAX as usize {
        assert_eq!(capture_to_fragment(&Capture::new("ident", "identifier", 3, beyond)), None);
    }
}

#[test]
fn syntax_fragments_follow_the_captures() {
    let captures = vec![
        Capture::new("sentence.comment.raw", "line_comment", 20, 30),
        Capture::new("nothing", "identifier", 0, 1),
        Capture::new("ident", "identifier", 3, 9),
    ];
    assert_eq!(
        syntax_fragmentize(&captures),
        vec![
            Fragment { kind: FragmentKind::Sentence, span: span(22, 30) },
            Fragment { kind: FragmentKind::Ident, span: span(3, 9) },
        ]
    );
}

#[test]
fn languages_have_their_fragmentizer() {
    assert_eq!(Fragmentizer::for_language("rust"), Fragmentizer::Rust);
    assert_eq!(Fragmentizer::for_language("plaintext"), Fragmentizer::PlainText);
    assert_eq!(Fragmentizer::Rust.lang_code(), "rust");
    assert_eq!(Fragmentizer::PlainText.lang_code(), "plaintext");
    assert!(Fragmentizer::supports("rust"));
    assert!(Fragmentizer::supports("plaintext"));
    assert!(!Fragmentizer::supports("klingon"));
    assert!(same_text("abc", "abc"));
    assert!(!same_text("abc", "abd"));
}

#[test]
fn unknown_language_falls_back_to_plain_text() {
    let source = Source::new("fn byeJello() {} // note");
    assert_eq!(Fragmentizer::for_language("klingon"), Fragmentizer::PlainText);
    let fallback = FragmentProcessor::from_lang("klingon", &source);
    let plain = FragmentProcessor::new(Fragmentizer::PlainText, &source);
    assert_eq!(
        fallback.fragmentizer.fragmentize(&source),
        plain.fragmentizer.fragmentize(&source)
    );
    assert_eq!(fallback.process(), plain.process());
    assert!(fallback.process().is_ok());
}

#[test]
fn process_splits_every_fragment() {
    let source = Source::new("byeJello HTTPServer x_1");
    let processor = FragmentProcessor::from_lang("plaintext", &source);
    let tokens = processor.process().unwrap();
    let words: Vec<String> = tokens.iter().map(|t| source.str_from(t.span).unwrap()).collect();
    assert_eq!(words, vec!["bye", "Jello", "HTTP", "Server", "x", "1"]);
}

#[test]
fn process_splits_sentences_and_identifiers_of_rust() {
    let source = Source::new("// Says hello, world!\nfn sayHello() {}");
    let processor = FragmentProcessor::from_lang("rust", &source);
    let tokens = processor.process().unwrap();
    let words: Vec<String> = tokens.iter().map(|t| source.str_from(t.span).unwrap()).collect();
    assert_eq!(words, vec!["Says", "hello", "world", "say", "Hello"]);
}

#[test]
fn process_fails_at_the_first_span_out_of_bounds() {
    let source = Source::new("bye jello");
    let processor = FragmentProcessor::from_lang("plaintext", &source);
    let fragments = vec![
        unknown(0, 3),
        Fragment { kind: FragmentKind::Sentence, span: span(4, 40) },
        unknown(50, 60),
    ];
    assert_eq!(processor.process_fragments(&fragments), Err(OutOfBounds(span(4, 40))));
    assert_eq!(processor.split_sentence(span(4, 40)), None);
    assert_eq!(processor.split_generic_casing(span(4, 40)), None);
    assert_eq!(
        processor.split_sentence(span(0, 9)),
        Some(vec![Token::new_word(span(0, 3)), Token::new_word(span(4, 9))])
    );
}

#[test]
fn words_are_the_text_of_their_tokens() {
    let source = Source::new("bye_jello");
    let tokens = vec![Token::new_word(span(0, 3)), Token::new_word(span(4, 9))];
    assert_eq!(
        words_from_tokens(&source, &tokens),
        Ok(vec![diagnostic("bye", 0, 3), diagnostic("jello", 4, 9)])
    );
    let beyond = vec![Token::new_word(span(0, 3)), Token::new_word(span(4, 10))];
    assert_eq!(words_from_tokens(&source, &beyond), Err(OutOfBounds(span(4, 10))));
}

#[test]
fn checker_reports_the_unknown_word() {
    let mut checker = Checker::new(only_bye, "plaintext", Source::new("bye_jello"));
    assert_eq!(checker.check(), Ok(vec![diagnostic("jello", 4, 9)]));
}

#[test]
fn checker_reports_in_buffer_order_with_repeats() {
    let mut checker = Checker::new(only_bye, "plaintext", Source::new("jello bye world jello"));
    assert_eq!(
        checker.check(),
        Ok(vec![diagnostic("jello", 0, 5), diagnostic("world", 10, 15), diagnostic("jello", 16, 21)])
    );
}

#[test]
fn checker_words_agree_with_the_buffer() {
    let source = Source::new("// Says helo, wörld!\nfn sayHelo() {}");
    let mut checker = Checker::new(|word: &String| word == "Says" || word == "say", "rust", source.clone());
    let found = checker.check().unwrap();
    assert_eq!(found.len(), 3);
    for d in &found {
        assert_eq!(source.str_from(d.span), Some(d.word.clone()));
    }
    let words: Vec<&str> = found.iter().map(|d| d.word.as_str()).collect();
    assert_eq!(words, vec!["helo", "wörld", "Helo"]);
}

#[test]
fn checker_is_case_sensitive() {
    let mut checker = Checker::new(|word: &String| word == "HTTP", "plaintext", Source::new("HTTP Http"));
    assert_eq!(checker.check(), Ok(vec![diagnostic("Http", 5, 9)]));
}

#[test]
fn checker_cache_is_transparent() {
    let text = "bye jello bye world jello";
    let mut cached = Checker::new(only_bye, "plaintext", Source::new(text));
    let first = cached.check();
    let second = cached.check();
    let mut fresh = Checker::new(only_bye, "plaintext", Source::new(text));
    let uncached = fresh.check();
    assert_eq!(first, second);
    assert_eq!(second, uncached);
}

#[test]
fn checker_asks_once_for_each_word() {
    let asked = std::cell::RefCell::new(Vec::<String>::new());
    let dictionary = |word: &String| {
        asked.borrow_mut().push(word.clone());
        word == "bye"
    };
    let mut checker = Checker::new(dictionary, "plaintext", Source::new("bye jello bye jello"));
    let found = checker.check().unwrap();
    assert_eq!(found.len(), 2);
    checker.check().unwrap();
    assert_eq!(*asked.borrow(), vec!["bye".to_string(), "jello".to_string()]);
}

#[test]
fn checker_keeps_its_cache_over_a_new_buffer() {
    let asked = std::cell::RefCell::new(Vec::<String>::new());
    let dictionary = |word: &String| {
        asked.borrow_mut().push(word.clone());
        word == "bye"
    };
    let mut checker = Checker::new(dictionary, "plaintext", Source::new("bye jello"));
    checker.check().unwrap();
    checker.replace_src(Source::new("jello_world"));
    assert_eq!(checker.source().text(), "jello_world");
    assert_eq!(checker.lang_code(), "plaintext");
    assert_eq!(checker.check(), Ok(vec![diagnostic("jello", 0, 5), diagnostic("world", 6, 11)]));
    assert_eq!(
        *asked.borrow(),
        vec!["bye".to_string(), "jello".to_string(), "world".to_string()]
    );
}

#[test]
fn checker_lookup_and_diagnostic() {
    let mut checker = Checker::new(only_bye, "plaintext", Source::new(""));
    assert!(checker.lookup(&"bye".to_string()));
    assert!(!checker.lookup(&"jello".to_string()));
    assert_eq!(checker.diagnostic("bye".to_string(), span(0, 3)), None);
    assert_eq!(checker.diagnostic("jello".to_string(), span(4, 9)), Some(diagnostic("jello", 4, 9)));
    assert_eq!(WordDiagnostic::unless(true, "x".to_string(), span(0, 1)), None);
    assert_eq!(WordDiagnostic::unless(false, "x".to_string(), span(0, 1)), Some(diagnostic("x", 0, 1)));
}

#[test]
fn checker_check_words_filters() {
    let mut checker = Checker::new(only_bye, "plaintext", Source::new(""));
    let words = vec![diagnostic("bye", 0, 3), diagnostic("jello", 4, 9), diagnostic("bye", 10, 13)];
    assert_eq!(checker.check_words(words), vec![diagnostic("jello", 4, 9)]);
    assert_eq!(checker.words(), Ok(vec![]));
}

#[test]
fn checker_of_an_empty_buffer_reports_nothing() {
    let mut checker = Checker::new(only_bye, "rust", Source::new(""));
    assert_eq!(checker.check(), Ok(vec![]));
}

#[test]
fn diagnostic_message_names_the_word() {
    assert_eq!(diagnostic("jello", 4, 9).message(), "`jello` isn't in a loaded dictionary");
}

#[test]
fn cache_remembers_verdicts() {
    let mut cache = LookupCache::new();
    assert_eq!(cache.get(&"bye".to_string()), None);
    cache.insert("bye".to_string(), true);
    cache.insert("jello".to_string(), false);
    assert_eq!(cache.get(&"bye".to_string()), Some(true));
    assert_eq!(cache.get(&"jello".to_string()), Some(false));
    assert_eq!(cache.get(&"Bye".to_string()), None);
    cache.insert("jello".to_string(), true);
    assert_eq!(cache.get(&"jello".to_string()), Some(true));
    assert_eq!(cache.get(&"bye".to_string()), Some(true));
}

#[test]
fn cache_keeps_many_words_apart() {
    let mut cache = LookupCache::new();
    for i in 0..5000 {
        cache.insert(format!("word{i}"), i % 3 == 0);
    }
    for i in 0..5000 {
        assert_eq!(cache.get(&format!("word{i}")), Some(i % 3 == 0));
    }
    assert_eq!(cache.get(&"word5000".to_string()), None);
}

#[test]
fn hash_of_a_word_is_its_polynomial() {
    assert_eq!(hash_word(&String::new()), 0);
    assert_eq!(hash_word(&"a".to_string()), 97);
    assert_eq!(hash_word(&"ab".to_string()), 97 * 31 + 98);
    assert_eq!(hash_word(&"bye".to_string()), (98 * 31 + 121) * 31 + 101);
    assert!(hash_word(&"a much longer word than the others".to_string()) < 4294967291);
}

#[test]
fn add_to_dict_command_carries_the_word() {
    let command = AddToDict::command("jello".to_string());
    assert_eq!(command.title, "Add a word to the workspace dictionary");
    assert_eq!(command.command, "add-to-dict");
    assert_eq!(command.command, ADD_TO_DICT);
    assert_eq!(command.arguments, vec!["jello".to_string()]);
}

#[test]
fn tokens_lie_within_their_fragment_in_order() {
    let text = "// Says hello, wörld!\nfn sayHelloHTTPWorld_x2() { let s = \"some_text here\"; }";
    let source = Source::new(text);
    for language in ["rust", "plaintext"] {
        let processor = FragmentProcessor::from_lang(language, &source);
        let fragments = processor.fragmentizer.fragmentize(&source);
        assert!(!fragments.is_empty());
        for fragment in fragments {
            let tokens = processor.process_fragments(&vec![fragment]).unwrap();
            let mut last = fragment.span.low;
            for token in tokens {
                assert!(last <= token.span.low);
                assert!(token.span.low < token.span.high);
                assert!(token.span.high <= fragment.span.high);
                assert!(token.span.high.to_usize() <= source.len_bytes());
                last = token.span.high;
            }
        }
    }
}

#[test]
fn plain_fragments_come_in_buffer_order() {
    let source = Source::new("one two_three çà 4");
    let fragments = Fragmentizer::PlainText.fragmentize(&source);
    assert_eq!(fragments.len(), 5);
    for pair in fragments.windows(2) {
        assert!(pair[0].span.high < pair[1].span.low);
    }
}

#[test]
fn splitting_a_word_again_gives_the_word() {
    let text = "parseHTTPResponse2xx_fooBar_ÉtéÉTÉ";
    let source = Source::new(text);
    let processor = FragmentProcessor::from_lang("plaintext", &source);
    let whole = Span::new(BytePos(0), BytePos(text.len() as u32));
    let tokens = processor.split_generic_casing(whole).unwrap();
    let words: Vec<String> = tokens.iter().map(|t| source.str_from(t.span).unwrap()).collect();
    assert_eq!(words, vec!["parse", "HTTP", "Response2xx", "foo", "Bar", "Été", "ÉTÉ"]);
    for token in tokens {
        assert_eq!(processor.split_generic_casing(token.span), Some(vec![token]));
    }
}

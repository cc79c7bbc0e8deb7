use wordc::casing::split_casing;
use wordc::glyph::{classify, Glyph};
use wordc::pieces::{str_split_indices, Piece, Separator};
use wordc::processor::{Token, TokenKind};
use wordc::sentence::split_words;
use wordc::span::{BytePos, Span};

fn texts(text: &str, base: u32, tokens: &[Token]) -> Vec<String> {
    tokens
        .iter()
        .map(|token| {
            let low = (token.span.low.0 - base) as usize;
            let high = (token.span.high.0 - base) as usize;
            text[low..high].to_string()
        })
        .collect()
}

fn casing(text: &str) -> Vec<String> {
    texts(text, 0, &split_casing(&classify(text), BytePos(0)))
}

fn sentence(text: &str) -> Vec<String> {
    texts(text, 0, &split_words(&classify(text), BytePos(0)))
}

fn word(low: u32, high: u32) -> Token {
    Token::new_word(Span::new(BytePos(low), BytePos(high)))
}

#[test]
fn classify_reads_width_and_classes() {
    let glyphs = classify("aZ9 _é\u{4e2d}\u{1f600}");
    let expected = vec![
        Glyph { width: 1, alphanumeric: true, alphabetic: true, lowercase: true, uppercase: false, whitespace: false },
        Glyph { width: 1, alphanumeric: true, alphabetic: true, lowercase: false, uppercase: true, whitespace: false },
        Glyph { width: 1, alphanumeric: true, alphabetic: false, lowercase: false, uppercase: false, whitespace: false },
        Glyph { width: 1, alphanumeric: false, alphabetic: false, lowercase: false, uppercase: false, whitespace: true },
        Glyph { width: 1, alphanumeric: false, alphabetic: false, lowercase: false, uppercase: false, whitespace: false },
        Glyph { width: 2, alphanumeric: true, alphabetic: true, lowercase: true, uppercase: false, whitespace: false },
        Glyph { width: 3, alphanumeric: true, alphabetic: true, lowercase: false, uppercase: false, whitespace: false },
        Glyph { width: 4, alphanumeric: false, alphabetic: false, lowercase: false, uppercase: false, whitespace: false },
    ];
    assert_eq!(glyphs, expected);
    assert_eq!(Glyph::of('a'), expected[0]);
    assert_eq!(classify(""), vec![]);
}

#[test]
fn split_indices_gives_the_pieces_with_their_bytes() {
    let glyphs = classify("__bye_é_jello_");
    assert_eq!(
        str_split_indices(&glyphs, Separator::NonAlphanumeric),
        vec![
            Piece { start: 2, end: 5, low: 2, high: 5 },
            Piece { start: 6, end: 7, low: 6, high: 8 },
            Piece { start: 8, end: 13, low: 9, high: 14 },
        ]
    );
    assert_eq!(str_split_indices(&classify("___"), Separator::NonAlphanumeric), vec![]);
    assert_eq!(str_split_indices(&classify(""), Separator::Whitespace), vec![]);
    assert_eq!(
        str_split_indices(&classify(" a\tb c  "), Separator::Whitespace),
        vec![
            Piece { start: 1, end: 2, low: 1, high: 2 },
            Piece { start: 3, end: 4, low: 3, high: 4 },
            Piece { start: 5, end: 6, low: 5, high: 6 },
        ]
    );
}

#[test]
fn separator_tells_where_to_cut() {
    let glyphs = classify("a _");
    assert!(!Separator::NonAlphanumeric.separates(&glyphs[0]));
    assert!(Separator::NonAlphanumeric.separates(&glyphs[1]));
    assert!(Separator::NonAlphanumeric.separates(&glyphs[2]));
    assert!(!Separator::Whitespace.separates(&glyphs[0]));
    assert!(Separator::Whitespace.separates(&glyphs[1]));
    assert!(!Separator::Whitespace.separates(&glyphs[2]));
}

#[test]
fn casing_keeps_a_minimal_word_whole() {
    assert_eq!(casing("jello"), vec!["jello"]);
    assert_eq!(split_casing(&classify("jello"), BytePos(0)), vec![word(0, 5)]);
}

#[test]
fn casing_splits_snake_case() {
    assert_eq!(split_casing(&classify("bye_jello"), BytePos(0)), vec![word(0, 3), word(4, 9)]);
    assert_eq!(casing("bye_jello"), vec!["bye", "jello"]);
}

#[test]
fn casing_rebases_onto_the_buffer() {
    assert_eq!(split_casing(&classify("bye_jello"), BytePos(8)), vec![word(8, 11), word(12, 17)]);
}

#[test]
fn casing_keeps_an_acronym_before_a_word() {
    assert_eq!(casing("HTTPServer"), vec!["HTTP", "Server"]);
    assert_eq!(split_casing(&classify("HTTPServer"), BytePos(0)), vec![word(0, 4), word(4, 10)]);
    assert_eq!(casing("JELLOWorld"), vec!["JELLO", "World"]);
}

#[test]
fn casing_of_one_character_and_of_nothing() {
    assert_eq!(casing("a"), vec!["a"]);
    assert_eq!(split_casing(&classify("a"), BytePos(0)), vec![word(0, 1)]);
    assert_eq!(split_casing(&classify(""), BytePos(0)), vec![]);
    assert_eq!(split_casing(&classify("___"), BytePos(0)), vec![]);
}

#[test]
fn casing_splits_camel_and_pascal_case() {
    assert_eq!(casing("byeJello"), vec!["bye", "Jello"]);
    assert_eq!(casing("ByeJelloWorld"), vec!["Bye", "Jello", "World"]);
    assert_eq!(casing("SCREAMING_SNAKE"), vec!["SCREAMING", "SNAKE"]);
    assert_eq!(casing("parseHTTPResponse"), vec!["parse", "HTTP", "Response"]);
}

#[test]
fn casing_never_splits_a_run_of_capitals() {
    assert_eq!(casing("HTTP"), vec!["HTTP"]);
    assert_eq!(casing("ABCd"), vec!["AB", "Cd"]);
}

#[test]
fn casing_leaves_the_mode_at_a_digit() {
    assert_eq!(casing("utf8Bytes"), vec!["utf8", "Bytes"]);
    assert_eq!(casing("x2"), vec!["x2"]);
    assert_eq!(casing("2D"), vec!["2D"]);
    assert_eq!(casing("AB1c"), vec!["AB1c"]);
}

#[test]
fn casing_counts_bytes_of_wide_characters() {
    assert_eq!(split_casing(&classify("étéÉté_x"), BytePos(10)), vec![word(10, 15), word(15, 20), word(21, 22)]);
    assert_eq!(casing("étéÉté_x"), vec!["été", "Été", "x"]);
}

#[test]
fn casing_tokens_are_words() {
    for token in split_casing(&classify("byeJello_world"), BytePos(0)) {
        assert_eq!(token.kind, TokenKind::Word);
    }
    assert_eq!(Token::new(TokenKind::Unknown, Span::new(BytePos(1), BytePos(2))).kind, TokenKind::Unknown);
}

#[test]
fn sentence_trims_punctuation() {
    assert_eq!(sentence("hello, world!"), vec!["hello", "world"]);
    assert_eq!(split_words(&classify("hello, world!"), BytePos(0)), vec![word(0, 5), word(7, 12)]);
}

#[test]
fn sentence_spans_start_at_the_trimmed_piece() {
    assert_eq!(split_words(&classify("  (hello)  \"world\""), BytePos(100)), vec![word(103, 108), word(112, 117)]);
}

#[test]
fn sentence_keeps_what_lies_inside_a_word() {
    assert_eq!(sentence("don't re-enter the well-known"), vec!["don't", "re-enter", "the", "well-known"]);
}

#[test]
fn sentence_drops_pieces_without_letters() {
    assert_eq!(sentence("123 ... 4-5"), Vec::<String>::new());
    assert_eq!(sentence("call 911 now"), vec!["call", "now"]);
    assert_eq!(sentence(""), Vec::<String>::new());
    assert_eq!(sentence("   "), Vec::<String>::new());
}

#[test]
fn sentence_trims_digits_at_the_ends() {
    assert_eq!(sentence("42nd x1 1x1"), vec!["nd", "x", "x"]);
}

#[test]
fn sentence_counts_bytes_of_wide_characters() {
    assert_eq!(split_words(&classify("«été» là"), BytePos(0)), vec![word(2, 7), word(10, 13)]);
    assert_eq!(sentence("«été» là"), vec!["été", "là"]);
}

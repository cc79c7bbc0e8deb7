use wordc::span::{BytePos, Position, Range, Source, Span};

#[test]
fn byte_pos_round_trips() {
    assert_eq!(BytePos::from_u32(7).to_u32(), 7);
    assert_eq!(BytePos::from_usize(9).to_usize(), 9);
    assert_eq!(BytePos(3) + BytePos(4), BytePos(7));
    assert_eq!(BytePos(9) - BytePos(4), BytePos(5));
    assert!(BytePos(3) < BytePos(4));
}

#[test]
fn span_new_keeps_bounds() {
    let span = Span::new(BytePos(2), BytePos(5));
    assert_eq!(span.low(), BytePos(2));
    assert_eq!(span.high(), BytePos(5));
    assert_eq!(span.len(), BytePos(3));
}

#[test]
fn span_relative_is_anchored_at_low() {
    let span = Span::new(BytePos(8), BytePos(17));
    assert_eq!(span.relative(BytePos(4), BytePos(9)), Span::new(BytePos(12), BytePos(17)));
    assert_eq!(span.relative(BytePos(0), BytePos(0)), Span::new(BytePos(8), BytePos(8)));
}

#[test]
fn span_to_is_the_convex_union() {
    let a = Span::new(BytePos(2), BytePos(5));
    let b = Span::new(BytePos(4), BytePos(9));
    let c = Span::new(BytePos(20), BytePos(21));
    assert_eq!(a.to(b), Span::new(BytePos(2), BytePos(9)));
    assert_eq!(b.to(a), Span::new(BytePos(2), BytePos(9)));
    assert_eq!(a.to(c), Span::new(BytePos(2), BytePos(21)));
    assert_eq!(a.to(a), a);
}

#[test]
fn dummy_span_is_the_default() {
    let dummy = Span::dummy();
    assert_eq!(dummy.low, BytePos(u32::MAX));
    assert_eq!(dummy.high, BytePos(u32::MAX));
    assert!(dummy.is_dummy());
    assert_eq!(Span::default(), dummy);
    assert!(!Span::new(BytePos(0), BytePos(0)).is_dummy());
}

#[test]
fn source_holds_its_text() {
    let source = Source::new("héllo wörld");
    assert_eq!(source.text(), "héllo wörld");
    assert_eq!(source.len_bytes(), 13);
    assert_eq!(source.clone().text(), "héllo wörld");
}

#[test]
fn str_from_takes_bytes() {
    let source = Source::new("let bye_jello = true;");
    assert_eq!(source.str_from(Span::new(BytePos(4), BytePos(13))), Some("bye_jello".to_string()));
    assert_eq!(source.str_from(Span::new(BytePos(0), BytePos(0))), Some(String::new()));
    assert_eq!(source.str_from(Span::new(BytePos(0), BytePos(21))), Some("let bye_jello = true;".to_string()));
}

#[test]
fn str_from_counts_bytes_not_characters() {
    let source = Source::new("é wörld");
    assert_eq!(source.str_from(Span::new(BytePos(3), BytePos(9))), Some("wörld".to_string()));
}

#[test]
fn str_from_fails_out_of_bounds() {
    let source = Source::new("hello");
    assert_eq!(source.str_from(Span::new(BytePos(2), BytePos(6))), None);
    assert_eq!(source.str_from(Span::new(BytePos(6), BytePos(7))), None);
    assert_eq!(source.str_from(Span { low: BytePos(3), high: BytePos(2) }), None);
}

#[test]
fn str_from_fails_inside_a_character() {
    let source = Source::new("é");
    assert_eq!(source.str_from(Span::new(BytePos(0), BytePos(1))), None);
    assert_eq!(source.str_from(Span::new(BytePos(1), BytePos(2))), None);
    assert_eq!(source.str_from(Span::new(BytePos(0), BytePos(2))), Some("é".to_string()));
}

#[test]
fn str_from_never_takes_the_dummy_span() {
    let source = Source::new("hello");
    assert_eq!(source.str_from(Span::dummy()), None);
}

#[test]
fn to_line_col_counts_lines_and_bytes() {
    let source = Source::new("one\ntwo three\nfour");
    assert_eq!(source.to_line_col(BytePos(0)), Some(Position(0, 0)));
    assert_eq!(source.to_line_col(BytePos(2)), Some(Position(0, 2)));
    assert_eq!(source.to_line_col(BytePos(4)), Some(Position(1, 0)));
    assert_eq!(source.to_line_col(BytePos(8)), Some(Position(1, 4)));
    assert_eq!(source.to_line_col(BytePos(14)), Some(Position(2, 0)));
    assert_eq!(source.to_line_col(BytePos(18)), Some(Position(2, 4)));
}

#[test]
fn to_line_col_column_is_a_byte_offset() {
    let source = Source::new("a\néé b");
    assert_eq!(source.to_line_col(BytePos(7)), Some(Position(1, 5)));
}

#[test]
fn to_line_col_fails_beyond_the_end() {
    let source = Source::new("one\ntwo");
    assert_eq!(source.to_line_col(BytePos(7)), Some(Position(1, 3)));
    assert_eq!(source.to_line_col(BytePos(8)), None);
    assert_eq!(source.to_line_col(BytePos(u32::MAX)), None);
}

#[test]
fn span_to_range_converts_both_ends() {
    let source = Source::new("one\ntwo three\nfour");
    assert_eq!(
        source.span_to_range(Span::new(BytePos(8), BytePos(13))),
        Some(Range(Position(1, 4), Position(1, 9)))
    );
    assert_eq!(
        source.span_to_range(Span::new(BytePos(2), BytePos(15))),
        Some(Range(Position(0, 2), Position(2, 1)))
    );
    assert_eq!(source.span_to_range(Span::new(BytePos(2), BytePos(19))), None);
    assert_eq!(source.span_to_range(Span::new(BytePos(19), BytePos(20))), None);
}

#[test]
fn locate_places_a_byte_in_its_line() {
    assert_eq!(Position::locate(BytePos(8), 1, 4), Some(Position(1, 4)));
    assert_eq!(Position::locate(BytePos(8), 1, 8), Some(Position(1, 0)));
    assert_eq!(Position::locate(BytePos(8), 1, 9), None);
}

use goose_db::lexer::scanner::{RawKind, Scanner, Segment};

#[test]
fn peek_returns_none_at_end_of_input() {
    let scanner = Scanner::new("");
    assert_eq!(scanner.peek(), None);
}

#[test]
fn peek_does_not_consume() {
    let scanner = Scanner::new("ab");
    assert_eq!(scanner.peek(), Some('a'));
    assert_eq!(scanner.peek(), Some('a'));
    assert_eq!(scanner.pos(), 0);
}

#[test]
fn advance_consumes_chars_in_order() {
    let mut scanner = Scanner::new("ab");
    assert_eq!(scanner.advance(), Some('a'));
    assert_eq!(scanner.advance(), Some('b'));
    assert_eq!(scanner.advance(), None);
}

#[test]
fn advance_tracks_line_and_col_across_newlines() {
    let mut scanner = Scanner::new("a\nbb");
    scanner.advance();
    assert_eq!((scanner.line(), scanner.col()), (1, 2));

    scanner.advance();
    assert_eq!((scanner.line(), scanner.col()), (2, 1));

    scanner.advance();
    assert_eq!((scanner.line(), scanner.col()), (2, 2));
}

#[test]
fn advance_counts_multibyte_utf8_as_one_char() {
    let mut scanner = Scanner::new("é");
    assert_eq!(scanner.advance(), Some('é'));
    assert_eq!(scanner.pos(), 2);
}

#[test]
fn next_segment_is_none_for_empty_input() {
    let mut scanner = Scanner::new("");
    assert_eq!(scanner.next_segment().unwrap(), None);
}

#[test]
fn next_segment_is_none_for_whitespace_only_input() {
    let mut scanner = Scanner::new("   \n\t ");
    assert_eq!(scanner.next_segment().unwrap(), None);
}

#[test]
fn scans_a_word_with_position() {
    let mut scanner = Scanner::new("page");
    let segment = scanner.next_segment().unwrap().unwrap();
    assert_eq!(
        segment,
        Segment {
            text: "page",
            start: 0,
            line: 1,
            col: 1,
            kind: RawKind::Word,
        }
    );
}

#[test]
fn word_segment_records_start_position_after_whitespace() {
    let mut scanner = Scanner::new("  co");
    let segment = scanner.next_segment().unwrap().unwrap();
    assert_eq!(segment.text, "co");
    assert_eq!(segment.start, 2);
    assert_eq!(segment.col, 3);
}

#[test]
fn scans_a_quoted_string() {
    let mut scanner = Scanner::new("'active'");
    let segment = scanner.next_segment().unwrap().unwrap();
    assert_eq!(
        segment,
        Segment {
            text: "'active'",
            start: 0,
            line: 1,
            col: 1,
            kind: RawKind::Quoted,
        }
    );
}

#[test]
fn quoted_string_with_spaces_is_one_segment() {
    let mut scanner = Scanner::new("'rejuvenating drink'");
    let segment = scanner.next_segment().unwrap().unwrap();
    assert_eq!(segment.kind, RawKind::Quoted);
    assert_eq!(segment.text, "'rejuvenating drink'");
}

#[test]
fn unterminated_quoted_string_is_an_error() {
    let mut scanner = Scanner::new("'oops");
    assert!(scanner.next_segment().is_err());
}

#[test]
fn scans_a_number() {
    let mut scanner = Scanner::new("42");
    let segment = scanner.next_segment().unwrap().unwrap();
    assert_eq!(
        segment,
        Segment {
            text: "42",
            start: 0,
            line: 1,
            col: 1,
            kind: RawKind::Number,
        }
    );
}

#[test]
fn scans_a_single_char_symbol() {
    let mut scanner = Scanner::new(",");
    let segment = scanner.next_segment().unwrap().unwrap();
    assert_eq!(
        segment,
        Segment {
            text: ",",
            start: 0,
            line: 1,
            col: 1,
            kind: RawKind::Symbol,
        }
    );
}

#[test]
fn word_boundary_stops_at_symbol() {
    let mut scanner = Scanner::new("a,");
    let word = scanner.next_segment().unwrap().unwrap();
    assert_eq!(word.text, "a");
    assert_eq!(word.kind, RawKind::Word);

    let symbol = scanner.next_segment().unwrap().unwrap();
    assert_eq!(symbol.text, ",");
    assert_eq!(symbol.kind, RawKind::Symbol);
}

#[test]
fn digit_run_followed_by_letter_is_an_error() {
    let mut scanner = Scanner::new("123abc");
    assert!(scanner.next_segment().is_err());
}

#[test]
fn digit_run_followed_by_underscore_is_an_error() {
    let mut scanner = Scanner::new("42_elephant");
    assert!(scanner.next_segment().is_err());
}

#[test]
fn digit_run_before_symbol_is_not_an_error() {
    let mut scanner = Scanner::new("123,");
    let number = scanner.next_segment().unwrap().unwrap();
    assert_eq!(number.text, "123");
    assert_eq!(number.kind, RawKind::Number);

    let symbol = scanner.next_segment().unwrap().unwrap();
    assert_eq!(symbol.text, ",");
    assert_eq!(symbol.kind, RawKind::Symbol);
}

fn segments_of(input: &str) -> Vec<(RawKind, &str)> {
    let mut scanner = Scanner::new(input);
    let mut out = Vec::new();
    while let Some(segment) = scanner.next_segment().unwrap() {
        out.push((segment.kind, segment.text));
    }
    out
}

#[test]
fn two_char_operators_scan_as_single_symbols() {
    let tokens = segments_of("a<=b, c>=d, e<>f, g!=h");
    assert_eq!(
        tokens,
        vec![
            (RawKind::Word, "a"),
            (RawKind::Symbol, "<="),
            (RawKind::Word, "b"),
            (RawKind::Symbol, ","),
            (RawKind::Word, "c"),
            (RawKind::Symbol, ">="),
            (RawKind::Word, "d"),
            (RawKind::Symbol, ","),
            (RawKind::Word, "e"),
            (RawKind::Symbol, "<>"),
            (RawKind::Word, "f"),
            (RawKind::Symbol, ","),
            (RawKind::Word, "g"),
            (RawKind::Symbol, "!="),
            (RawKind::Word, "h"),
        ]
    );
}

#[test]
fn non_operator_symbol_pairs_do_not_fuse() {
    let tokens = segments_of("a == b => c !> d");
    assert_eq!(
        tokens,
        vec![
            (RawKind::Word, "a"),
            (RawKind::Symbol, "="),
            (RawKind::Symbol, "="),
            (RawKind::Word, "b"),
            (RawKind::Symbol, "="),
            (RawKind::Symbol, ">"),
            (RawKind::Word, "c"),
            (RawKind::Symbol, "!"),
            (RawKind::Symbol, ">"),
            (RawKind::Word, "d"),
        ]
    );
}

#[test]
fn bang_alone_stays_a_single_symbol() {
    let tokens = segments_of("a!");
    assert_eq!(tokens, vec![(RawKind::Word, "a"), (RawKind::Symbol, "!")]);
}

#[test]
fn operator_fusion_is_independent_of_whitespace() {
    assert_eq!(segments_of("a<=b"), segments_of("a <= b"));
    assert_eq!(segments_of("c!=d"), segments_of("c != d"));
}

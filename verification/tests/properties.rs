use goose_db::errors::errors::ScanError;
use goose_db::lexer::mapper::{eq_ignore_ascii_case, token_mapper, tokenize, Keyword, Punctuation, SQLToken};
use goose_db::lexer::scanner::{decide_kind, RawKind, Scanner, Segment};

fn all_segments(input: &str) -> Vec<Segment<'_>> {
    let mut scanner = Scanner::new(input);
    let mut out = Vec::new();
    while let Some(segment) = scanner.next_segment().unwrap() {
        out.push(segment);
    }
    out
}

#[test]
fn segments_never_start_with_whitespace() {
    for segment in all_segments("  \t SELECT\n  a ,\r\n 'x y'  42 ") {
        assert!(!segment.text.chars().next().unwrap().is_whitespace());
    }
}

#[test]
fn segment_text_is_the_input_slice_at_its_byte_offset() {
    let input = "é  'ü ö' naïve <> 7";
    let segments = all_segments(input);
    assert_eq!(segments.len(), 5);
    for segment in segments {
        assert_eq!(&input[segment.start..segment.start + segment.text.len()], segment.text);
    }
}

#[test]
fn column_counts_characters_and_start_counts_bytes() {
    let mut scanner = Scanner::new("é x");
    let first = scanner.next_segment().unwrap().unwrap();
    assert_eq!((first.start, first.line, first.col), (0, 1, 1));
    let second = scanner.next_segment().unwrap().unwrap();
    assert_eq!(second.text, "x");
    assert_eq!((second.start, second.line, second.col), (3, 1, 3));
}

#[test]
fn lines_and_columns_follow_newlines() {
    let segments = all_segments("a\n  bc\n\nd");
    let positions: Vec<(u32, u32)> = segments.iter().map(|s| (s.line, s.col)).collect();
    assert_eq!(positions, vec![(1, 1), (2, 3), (4, 1)]);
}

#[test]
fn word_runs_over_letters_digits_and_underscores() {
    let segments = all_segments("abc_1.x");
    assert_eq!(segments[0].text, "abc_1");
    assert_eq!(segments[0].kind, RawKind::Word);
    assert_eq!(segments[1].text, ".");
    assert_eq!(segments[2].text, "x");
}

#[test]
fn word_may_start_with_underscore_or_non_ascii_letter() {
    let segments = all_segments("_id 京都 x٣");
    let texts: Vec<&str> = segments.iter().map(|s| s.text).collect();
    assert_eq!(texts, vec!["_id", "京都", "x٣"]);
    assert!(segments.iter().all(|s| s.kind == RawKind::Word));
}

#[test]
fn non_breaking_space_is_skipped_as_whitespace() {
    let mut scanner = Scanner::new("\u{A0}x");
    let segment = scanner.next_segment().unwrap().unwrap();
    assert_eq!(segment.text, "x");
    assert_eq!(segment.start, 2);
    assert_eq!(segment.col, 2);
}

#[test]
fn digit_run_followed_by_non_ascii_digit_is_an_error() {
    let mut scanner = Scanner::new("1٣");
    assert_eq!(
        scanner.next_segment(),
        Err(ScanError::IdentifierStartsWithDigit { line: 1, col: 1 })
    );
}

#[test]
fn digit_led_error_reports_where_the_run_began() {
    let mut scanner = Scanner::new("a\n  12b");
    scanner.next_segment().unwrap();
    let err = scanner.next_segment().unwrap_err();
    assert_eq!(err, ScanError::IdentifierStartsWithDigit { line: 2, col: 3 });
    assert_eq!(err.to_string(), "identifier cannot start with a digit at line 2, column 3");
    // the scanner stops right after the digit run
    assert_eq!(scanner.pos(), 6);
}

#[test]
fn unterminated_error_reports_where_the_quote_was() {
    let mut scanner = Scanner::new("SELECT 'oops");
    let err = tokenize(&mut scanner).unwrap_err();
    assert_eq!(err, ScanError::UnterminatedStringLiteral { line: 1, col: 8 });
    assert_eq!(err.to_string(), "unterminated string literal at line 1, column 8");
    // the scanner ran to the end of the input looking for the closing quote
    assert_eq!(scanner.pos(), 12);
    assert_eq!(scanner.peek(), None);
}

#[test]
fn error_messages_write_large_positions_in_decimal() {
    let err = ScanError::UnterminatedStringLiteral { line: 4294967295, col: 10 };
    assert_eq!(err.to_string(), "unterminated string literal at line 4294967295, column 10");
    let err = ScanError::IdentifierStartsWithDigit { line: 109, col: 0 };
    assert_eq!(err.to_string(), "identifier cannot start with a digit at line 109, column 0");
}

#[test]
fn quoted_segment_runs_to_the_first_closing_quote() {
    let segments = all_segments("'a b''c'");
    let texts: Vec<&str> = segments.iter().map(|s| s.text).collect();
    assert_eq!(texts, vec!["'a b'", "'c'"]);
    assert!(segments.iter().all(|s| s.kind == RawKind::Quoted));
}

#[test]
fn empty_quoted_string_is_a_segment() {
    let segments = all_segments("''");
    assert_eq!(segments.len(), 1);
    assert_eq!(segments[0].text, "''");
}

#[test]
fn lone_quote_is_unterminated() {
    let mut scanner = Scanner::new("  '");
    assert_eq!(
        scanner.next_segment(),
        Err(ScanError::UnterminatedStringLiteral { line: 1, col: 3 })
    );
}

#[test]
fn fused_operator_takes_only_two_characters() {
    let segments = all_segments("<=>!==");
    let texts: Vec<&str> = segments.iter().map(|s| s.text).collect();
    assert_eq!(texts, vec!["<=", ">", "!=", "="]);
}

#[test]
fn keywords_ignore_ascii_case() {
    let mut scanner = Scanner::new("fRoM From FROM from");
    let tokens = tokenize(&mut scanner).unwrap();
    assert_eq!(tokens, vec![
            SQLToken::Keyword(Keyword::From),
            SQLToken::Keyword(Keyword::From),
            SQLToken::Keyword(Keyword::From),
            SQLToken::Keyword(Keyword::From),
        ]);
}

#[test]
fn keyword_with_extra_characters_is_an_identifier() {
    let mut scanner = Scanner::new("selects intox VALUE");
    let tokens = tokenize(&mut scanner).unwrap();
    assert_eq!(
        tokens,
        vec![
            SQLToken::Identifier("selects"),
            SQLToken::Identifier("intox"),
            SQLToken::Identifier("VALUE"),
        ]
    );
}

#[test]
fn every_keyword_is_recognized() {
    let mut scanner = Scanner::new("select from insert into values where");
    let tokens = tokenize(&mut scanner).unwrap();
    assert_eq!(
        tokens,
        vec![
            SQLToken::Keyword(Keyword::Select),
            SQLToken::Keyword(Keyword::From),
            SQLToken::Keyword(Keyword::Insert),
            SQLToken::Keyword(Keyword::Into),
            SQLToken::Keyword(Keyword::Values),
            SQLToken::Keyword(Keyword::Where),
        ]
    );
}

#[test]
fn every_punctuation_is_recognized() {
    let mut scanner = Scanner::new("* , . ( ) = ; < > >= <> != <=");
    let tokens = tokenize(&mut scanner).unwrap();
    assert_eq!(
        tokens,
        vec![
            SQLToken::Punctuation(Punctuation::Star),
            SQLToken::Punctuation(Punctuation::Comma),
            SQLToken::Punctuation(Punctuation::Dot),
            SQLToken::Punctuation(Punctuation::Lparen),
            SQLToken::Punctuation(Punctuation::Rparen),
            SQLToken::Punctuation(Punctuation::Equals),
            SQLToken::Punctuation(Punctuation::Semicolon),
            SQLToken::Punctuation(Punctuation::LessThan),
            SQLToken::Punctuation(Punctuation::GreaterThan),
            SQLToken::Punctuation(Punctuation::GreaterThanEqual),
            SQLToken::Punctuation(Punctuation::NotEqual),
            SQLToken::Punctuation(Punctuation::NotEqual),
            SQLToken::Punctuation(Punctuation::LessThanEqual),
        ]
    );
}

#[test]
fn unknown_symbols_stay_undefined() {
    let mut scanner = Scanner::new("@ ! # é");
    let tokens = tokenize(&mut scanner).unwrap();
    assert_eq!(
        tokens,
        vec![
            SQLToken::Undefined("@"),
            SQLToken::Undefined("!"),
            SQLToken::Undefined("#"),
            SQLToken::Identifier("é"),
        ]
    );
}

#[test]
fn mapper_ignores_position_fields() {
    let a = Segment { text: "where", start: 0, line: 1, col: 1, kind: RawKind::Word };
    let b = Segment { text: "where", start: 99, line: 7, col: 12, kind: RawKind::Word };
    assert_eq!(token_mapper(&a), token_mapper(&b));
    assert_eq!(token_mapper(&a), SQLToken::Keyword(Keyword::Where));
}

#[test]
fn mapper_uses_the_kind_not_the_text_shape() {
    let quoted = Segment { text: "select", start: 0, line: 1, col: 1, kind: RawKind::Quoted };
    assert_eq!(token_mapper(&quoted), SQLToken::StringLiteral("select"));
    let symbol = Segment { text: "ab", start: 0, line: 1, col: 1, kind: RawKind::Symbol };
    assert_eq!(token_mapper(&symbol), SQLToken::Undefined("ab"));
    let long_symbol = Segment { text: "<=>", start: 0, line: 1, col: 1, kind: RawKind::Symbol };
    assert_eq!(token_mapper(&long_symbol), SQLToken::Undefined("<=>"));
}

#[test]
fn successful_tokenize_drains_the_scanner() {
    let input = "SELECT a FROM t  \n";
    let mut scanner = Scanner::new(input);
    assert_eq!(tokenize(&mut scanner).unwrap().len(), 4);
    assert_eq!(scanner.pos(), input.len());
    assert_eq!(scanner.peek(), None);
    assert!(tokenize(&mut scanner).unwrap().is_empty());
    assert_eq!(scanner.next_segment(), Ok(None));
}

#[test]
fn tokenize_continues_from_where_the_scanner_stands() {
    let mut scanner = Scanner::new("a , b");
    scanner.next_segment().unwrap();
    let tokens = tokenize(&mut scanner).unwrap();
    assert_eq!(
        tokens,
        vec![SQLToken::Punctuation(Punctuation::Comma), SQLToken::Identifier("b")]
    );
}

#[test]
fn advance_at_end_leaves_the_scanner_unchanged() {
    let mut scanner = Scanner::new("\n");
    assert_eq!(scanner.advance(), Some('\n'));
    assert_eq!((scanner.pos(), scanner.line(), scanner.col()), (1, 2, 1));
    assert_eq!(scanner.advance(), None);
    assert_eq!((scanner.pos(), scanner.line(), scanner.col()), (1, 2, 1));
}

#[test]
fn new_scanner_starts_at_line_one_column_one() {
    let scanner = Scanner::new("abc");
    assert_eq!((scanner.pos(), scanner.line(), scanner.col()), (0, 1, 1));
}

#[test]
fn kind_is_decided_by_the_first_character() {
    assert_eq!(decide_kind('a', true), RawKind::Word);
    assert_eq!(decide_kind('_', false), RawKind::Word);
    assert_eq!(decide_kind('7', false), RawKind::Number);
    assert_eq!(decide_kind('\'', false), RawKind::Quoted);
    assert_eq!(decide_kind('<', false), RawKind::Symbol);
    assert_eq!(decide_kind('٣', false), RawKind::Symbol);
}

#[test]
fn ascii_case_folding_compares_whole_words() {
    assert!(eq_ignore_ascii_case("SeLeCt", &['S', 'E', 'L', 'E', 'C', 'T']));
    assert!(!eq_ignore_ascii_case("SELEC", &['S', 'E', 'L', 'E', 'C', 'T']));
    assert!(!eq_ignore_ascii_case("SELECTS", &['S', 'E', 'L', 'E', 'C', 'T']));
    assert!(eq_ignore_ascii_case("", &[]));
    assert!(eq_ignore_ascii_case("é_1", &['é', '_', '1']));
    assert!(!eq_ignore_ascii_case("É", &['é']));
    assert!(!eq_ignore_ascii_case("[", &['{']));
}

#[test]
fn whitespace_rule_agrees_with_std_on_every_char() {
    for code in 0..=0x10FFFFu32 {
        if let Some(c) = char::from_u32(code) {
            assert_eq!(goose_db::lexer::text::char_is_whitespace(c), c.is_whitespace(), "{:?}", c);
        }
    }
}

#[test]
fn std_letter_predicates_behave_as_their_contracts_claim() {
    for code in 0..=0x10FFFFu32 {
        if let Some(c) = char::from_u32(code) {
            if code < 0x80 {
                assert_eq!(c.is_alphabetic(), c.is_ascii_alphabetic(), "{:?}", c);
                assert_eq!(c.is_alphanumeric(), c.is_ascii_alphanumeric(), "{:?}", c);
            } else if c.is_alphabetic() {
                assert!(c.is_alphanumeric(), "{:?}", c);
            }
        }
    }
}

fn kinds_and_texts(input: &str) -> Vec<(RawKind, String)> {
    all_segments(input).into_iter().map(|s| (s.kind, s.text.to_string())).collect()
}

#[test]
fn inserting_a_space_after_any_segment_changes_no_segment() {
    for input in ["a<=b,c>=d", "x!=1;y<>'q r'", "SELECT*FROM t WHERE a=1", "f(x,y)", "42.5", "é'ü'<"] {
        let expected = kinds_and_texts(input);
        let mut cuts = vec![0];
        for segment in all_segments(input) {
            cuts.push(segment.start + segment.text.len());
        }
        for cut in cuts {
            let spaced = format!("{} {}", &input[..cut], &input[cut..]);
            assert_eq!(kinds_and_texts(&spaced), expected, "{:?}", spaced);
        }
    }
}

#[test]
fn tokenize_is_next_segment_mapped_through_the_mapper() {
    for input in ["SELECT a, b FROM t WHERE c <> 'x'", "", "  ", "1 + 2 @", "select 12x", "'open"] {
        let mut by_hand = Scanner::new(input);
        let mut mapped = Vec::new();
        let expected = loop {
            match by_hand.next_segment() {
                Ok(Some(segment)) => mapped.push(token_mapper(&segment)),
                Ok(None) => break Ok(mapped),
                Err(e) => break Err(e),
            }
        };
        let mut scanner = Scanner::new(input);
        assert_eq!(tokenize(&mut scanner), expected);
        assert_eq!(scanner.pos(), by_hand.pos());
        assert_eq!((scanner.line(), scanner.col()), (by_hand.line(), by_hand.col()));
    }
}

#[test]
fn number_with_decimal_point_is_one_numeric_literal() {
    let mut scanner = Scanner::new("3.14");
    assert_eq!(tokenize(&mut scanner).unwrap(), vec![SQLToken::NumericLiteral("3.14")]);
    let segments = all_segments("x = 10.25;");
    assert_eq!(segments[2].text, "10.25");
    assert_eq!(segments[2].kind, RawKind::Number);
    assert_eq!(segments[3].text, ";");
}

#[test]
fn decimal_point_without_digits_after_it_is_not_part_of_the_number() {
    let texts: Vec<&str> = all_segments("3. 7.x .5").iter().map(|s| s.text).collect();
    assert_eq!(texts, vec!["3", ".", "7", ".", "x", ".", "5"]);
    let texts: Vec<&str> = all_segments("1.2.3").iter().map(|s| s.text).collect();
    assert_eq!(texts, vec!["1.2", ".", "3"]);
}

#[test]
fn word_after_a_decimal_number_is_an_error() {
    let mut scanner = Scanner::new(" 3.14abc");
    assert_eq!(
        scanner.next_segment(),
        Err(ScanError::IdentifierStartsWithDigit { line: 1, col: 2 })
    );
    assert_eq!(scanner.pos(), 5);
}

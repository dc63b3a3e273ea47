use goose_db::lexer::mapper::{token_mapper, Keyword, Punctuation, SQLToken};
use goose_db::lexer::scanner::{RawKind, Segment};

fn classify(text: &'static str, kind: RawKind) -> SQLToken<'static> {
    token_mapper(&Segment {
        text,
        start: 0,
        line: 1,
        col: 1,
        kind,
    })
}

#[test]
fn select_keyword_is_case_insensitive() {
    assert_eq!(
        classify("SELECT", RawKind::Word),
        SQLToken::Keyword(Keyword::Select)
    );
    assert_eq!(
        classify("select", RawKind::Word),
        SQLToken::Keyword(Keyword::Select)
    );
    assert_eq!(
        classify("SeLeCt", RawKind::Word),
        SQLToken::Keyword(Keyword::Select)
    );
}

#[test]
fn where_keyword_is_recognized() {
    assert_eq!(
        classify("WHERE", RawKind::Word),
        SQLToken::Keyword(Keyword::Where)
    );
}

#[test]
fn unknown_word_is_an_identifier() {
    assert_eq!(
        classify("user_id", RawKind::Word),
        SQLToken::Identifier("user_id")
    );
}

#[test]
fn quoted_segment_is_a_string_literal() {
    assert_eq!(
        classify("'active'", RawKind::Quoted),
        SQLToken::StringLiteral("'active'")
    );
}

#[test]
fn numeric_segment_is_a_numeric_literal() {
    assert_eq!(
        classify("42", RawKind::Number),
        SQLToken::NumericLiteral("42")
    );
}

#[test]
fn known_symbols_map_to_punctuation() {
    assert_eq!(
        classify(",", RawKind::Symbol),
        SQLToken::Punctuation(Punctuation::Comma)
    );
    assert_eq!(
        classify("=", RawKind::Symbol),
        SQLToken::Punctuation(Punctuation::Equals)
    );
    assert_eq!(
        classify("*", RawKind::Symbol),
        SQLToken::Punctuation(Punctuation::Star)
    );
    assert_eq!(
        classify(";", RawKind::Symbol),
        SQLToken::Punctuation(Punctuation::Semicolon)
    );
}

#[test]
fn multi_char_operators_map_to_punctuation() {
    assert_eq!(
        classify("<=", RawKind::Symbol),
        SQLToken::Punctuation(Punctuation::LessThanEqual)
    );
    assert_eq!(
        classify(">=", RawKind::Symbol),
        SQLToken::Punctuation(Punctuation::GreaterThanEqual)
    );
    assert_eq!(
        classify("<>", RawKind::Symbol),
        SQLToken::Punctuation(Punctuation::NotEqual)
    );
    assert_eq!(
        classify("!=", RawKind::Symbol),
        SQLToken::Punctuation(Punctuation::NotEqual)
    );
}

#[test]
fn unknown_symbol_stays_undefined() {
    assert_eq!(classify("@", RawKind::Symbol), SQLToken::Undefined("@"));
}

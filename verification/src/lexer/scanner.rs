use crate::errors::errors::ScanError;
use crate::lexer::text::{
    byte_len, char_is_alphabetic, char_is_alphanumeric, char_is_ascii_digit, char_is_whitespace,
    first_char, is_alphabetic, is_alphanumeric, is_ascii_digit, is_white_space, lemma_byte_len_step,
    lemma_encode_concat, split_at_char, utf8_width,
};
use vstd::utf8::{encode_scalar, encode_utf8};
use vstd::prelude::*;

verus! {

/// How a segment was scanned, decided purely by its character structure.
///
/// This is a low-level hint only: it records *how* a run of characters was
/// delimited, not what the text means. Semantic classification (keyword vs
/// identifier vs literal) is the mapper's job.
#[derive(Debug, PartialEq, Eq, Clone, Copy, Structural)]
pub enum RawKind {
    /// A run of letters, digits, and underscores, e.g. `user_id`.
    Word,
    /// A run of digits, optionally with a decimal point, e.g. `42` or `3.14`.
    Number,
    /// A run captured between quoting characters, e.g. `'active'`.
    Quoted,
    /// A single punctuation or operator character, e.g. `,` or `=`, or one of
    /// the two-character operators `<=`, `>=`, `<>`, `!=`.
    Symbol,
}

/// A raw run of input produced by a [`Scanner`].
///
/// `text` is borrowed directly from the source, so scanning allocates
/// nothing. The position fields point at the exact location in the input.
#[derive(Debug, PartialEq)]
pub struct Segment<'a> {
    /// The raw text of the run, borrowed from the input.
    pub text: &'a str,
    /// Byte offset of the run within the input string.
    pub start: usize,
    /// 1-based line number where the run begins.
    pub line: u32,
    /// 1-based column number where the run begins.
    pub col: u32,
    /// Low-level hint describing how the run was delimited.
    pub kind: RawKind,
}

// ---------------------------------------------------------------------------
// The scanning rules, over the input's characters.
// ---------------------------------------------------------------------------

/// The kind that a segment's first character `c` decides, given whether `c`
/// is alphabetic.
pub open spec fn kind_given(c: char, alphabetic: bool) -> RawKind {
    if alphabetic || c == '_' {
        RawKind::Word
    } else if is_ascii_digit(c) {
        RawKind::Number
    } else if c == '\'' {
        RawKind::Quoted
    } else {
        RawKind::Symbol
    }
}

/// The kind that the first character of a segment decides.
pub open spec fn raw_kind_of(c: char) -> RawKind {
    kind_given(c, is_alphabetic(c))
}

/// Decides a segment's kind from its first character `first`, where
/// `alphabetic` tells whether `first` is alphabetic: letters and `_` start a
/// word, ASCII digits a number, `'` a quoted string, anything else a symbol.
pub fn decide_kind(first: char, alphabetic: bool) -> (kind: RawKind)
    ensures
        kind == kind_given(first, alphabetic),
{
    if alphabetic || first == '_' {
        RawKind::Word
    } else if char_is_ascii_digit(first) {
        RawKind::Number
    } else if first == '\'' {
        RawKind::Quoted
    } else {
        RawKind::Symbol
    }
}

/// A character that continues a word (and that may not follow a digit run).
pub open spec fn is_word_char(c: char) -> bool {
    c == '_' || is_alphanumeric(c)
}

/// The two-character operators: `<=`, `<>`, `>=`, `!=`.
pub open spec fn fuses(first: char, second: char) -> bool {
    ||| first == '<' && second == '='
    ||| first == '<' && second == '>'
    ||| first == '>' && second == '='
    ||| first == '!' && second == '='
}

/// The first index at or after `i` that does not hold whitespace.
pub open spec fn skip_whitespace(s: Seq<char>, i: int) -> int
    decreases s.len() - i,
{
    if 0 <= i < s.len() && is_white_space(s[i]) {
        skip_whitespace(s, i + 1)
    } else {
        i
    }
}

/// The first index at or after `i` that does not hold a word character.
pub open spec fn word_end(s: Seq<char>, i: int) -> int
    decreases s.len() - i,
{
    if 0 <= i < s.len() && is_word_char(s[i]) {
        word_end(s, i + 1)
    } else {
        i
    }
}

/// The first index at or after `i` that does not hold an ASCII digit.
pub open spec fn digits_end(s: Seq<char>, i: int) -> int
    decreases s.len() - i,
{
    if 0 <= i < s.len() && is_ascii_digit(s[i]) {
        digits_end(s, i + 1)
    } else {
        i
    }
}

/// A `.` followed by a digit stands at `e`: the digit run before it goes on
/// as a fraction.
pub open spec fn has_fraction(s: Seq<char>, e: int) -> bool {
    0 <= e && e + 1 < s.len() && s[e] == '.' && is_ascii_digit(s[e + 1])
}

/// The end of a number whose digits continue from `i`: the digit run, then,
/// if a `.` and a digit follow, the `.` and the digit run after it.
pub open spec fn number_end(s: Seq<char>, i: int) -> int {
    let d1 = digits_end(s, i);
    if has_fraction(s, d1) {
        digits_end(s, d1 + 1)
    } else {
        d1
    }
}

/// The index just after the first quote at or after `i`, if there is one.
pub open spec fn closing_quote_end(s: Seq<char>, i: int) -> Option<int>
    decreases s.len() - i,
{
    if i < 0 || i >= s.len() {
        None
    } else if s[i] == '\'' {
        Some(i + 1)
    } else {
        closing_quote_end(s, i + 1)
    }
}

/// The outcome of one scanning step, in character indices of the input.
pub enum Scan {
    /// Only whitespace was left.
    End,
    /// A segment of `kind` spanning the characters `start..end`.
    Run { kind: RawKind, start: int, end: int },
    /// A quote at `start` that no later quote closes.
    Unterminated { start: int },
    /// A digit run starting at `start` and ending at `stop`, followed by a word character.
    DigitLed { start: int, stop: int },
}

/// What scanning a segment whose first character is at `j` produces.
pub open spec fn scan_at(s: Seq<char>, j: int) -> Scan {
    let c = s[j];
    match raw_kind_of(c) {
        RawKind::Word => Scan::Run { kind: RawKind::Word, start: j, end: word_end(s, j + 1) },
        RawKind::Number => {
            let e = number_end(s, j + 1);
            if e < s.len() && is_word_char(s[e]) {
                Scan::DigitLed { start: j, stop: e }
            } else {
                Scan::Run { kind: RawKind::Number, start: j, end: e }
            }
        },
        RawKind::Quoted => match closing_quote_end(s, j + 1) {
            Some(e) => Scan::Run { kind: RawKind::Quoted, start: j, end: e },
            None => Scan::Unterminated { start: j },
        },
        RawKind::Symbol => if j + 1 < s.len() && fuses(c, s[j + 1]) {
            Scan::Run { kind: RawKind::Symbol, start: j, end: j + 2 }
        } else {
            Scan::Run { kind: RawKind::Symbol, start: j, end: j + 1 }
        },
    }
}

/// Where the scanner stands after scanning a segment whose first character is at `j`.
pub open spec fn scan_at_stop(s: Seq<char>, j: int) -> int {
    match scan_at(s, j) {
        Scan::End => j,
        Scan::Run { end, .. } => end,
        Scan::Unterminated { .. } => s.len() as int,
        Scan::DigitLed { stop, .. } => stop,
    }
}

/// What scanning from character index `i` produces: whitespace is skipped,
/// then one segment is scanned, if any character is left.
pub open spec fn scan(s: Seq<char>, i: int) -> Scan {
    let j = skip_whitespace(s, i);
    if j >= s.len() {
        Scan::End
    } else {
        scan_at(s, j)
    }
}

/// Where the scanner stands after one scanning step from `i`.
pub open spec fn scan_stop(s: Seq<char>, i: int) -> int {
    match scan(s, i) {
        Scan::End => s.len() as int,
        Scan::Run { end, .. } => end,
        Scan::Unterminated { .. } => s.len() as int,
        Scan::DigitLed { stop, .. } => stop,
    }
}

/// The 1-based (line, column) reached after reading `s`, starting at (1, 1).
pub open spec fn line_col(s: Seq<char>) -> (int, int)
    decreases s.len(),
{
    if s.len() == 0 {
        (1, 1)
    } else {
        let (l, c) = line_col(s.drop_last());
        if s.last() == '\n' {
            (l + 1, 1)
        } else {
            (l, c + 1)
        }
    }
}

/// The line of the `k`-th character of `s`.
pub open spec fn line_at(s: Seq<char>, k: int) -> int {
    line_col(s.take(k)).0
}

/// The column of the `k`-th character of `s`.
pub open spec fn col_at(s: Seq<char>, k: int) -> int {
    line_col(s.take(k)).1
}

/// The line and column of the `k`-th character fit in a `u32`.
pub open spec fn position_fits(s: Seq<char>, k: int) -> bool {
    line_at(s, k) <= u32::MAX && col_at(s, k) <= u32::MAX
}

/// The lines and columns of the first `n` characters of `s` (and of the
/// point after them) fit in a `u32` (the scanner counts them in `u32`).
pub open spec fn positions_fit_upto(s: Seq<char>, n: int) -> bool {
    forall|k: int| 0 <= k <= n ==> #[trigger] position_fits(s, k)
}

/// Every line and column in `s` fits in a `u32`.
pub open spec fn positions_fit(s: Seq<char>) -> bool {
    positions_fit_upto(s, s.len() as int)
}

/// The error reported for an unterminated quote at character `k`.
pub open spec fn unterminated_at(s: Seq<char>, k: int) -> ScanError {
    ScanError::UnterminatedStringLiteral { line: line_at(s, k) as u32, col: col_at(s, k) as u32 }
}

/// The error reported for a digit-led word starting at character `k`.
pub open spec fn digit_led_at(s: Seq<char>, k: int) -> ScanError {
    ScanError::IdentifierStartsWithDigit { line: line_at(s, k) as u32, col: col_at(s, k) as u32 }
}

/// `seg` is the segment of `kind` spanning characters `start..end` of `s`.
pub open spec fn is_segment_of(seg: Segment, s: Seq<char>, kind: RawKind, start: int, end: int) -> bool {
    &&& seg.kind == kind
    &&& seg.text@ == s.subrange(start, end)
    &&& seg.start == byte_len(s.take(start))
    &&& seg.line == line_at(s, start)
    &&& seg.col == col_at(s, start)
}

/// `res` is what `next_segment` returns for the step `scan(s, i)`.
pub open spec fn next_segment_result(s: Seq<char>, i: int, res: Result<Option<Segment>, ScanError>) -> bool {
    match scan(s, i) {
        Scan::End => res matches Ok(None),
        Scan::Run { kind, start, end } => res matches Ok(Some(seg)) && is_segment_of(seg, s, kind, start, end),
        Scan::Unterminated { start } => res == Err::<Option<Segment>, ScanError>(unterminated_at(s, start)),
        Scan::DigitLed { start, .. } => res == Err::<Option<Segment>, ScanError>(digit_led_at(s, start)),
    }
}

/// Executable form of [`fuses`].
fn fuses_exec(first: char, second: char) -> (b: bool)
    ensures
        b == fuses(first, second),
{
    (first == '<' && second == '=') || (first == '<' && second == '>') || (first == '>' && second
        == '=') || (first == '!' && second == '=')
}

// ---------------------------------------------------------------------------
// Facts about the rules.
// ---------------------------------------------------------------------------

/// Positions are 1-based and counted in characters: the first character is
/// at line 1, column 1; a newline moves to column 1 of the next line, and
/// any other character one column to the right on the same line.
pub proof fn law_position_tracking(s: Seq<char>, k: int)
    requires
        0 <= k < s.len(),
    ensures
        line_at(s, 0) == 1 && col_at(s, 0) == 1,
        s[k] == '\n' ==> line_at(s, k + 1) == line_at(s, k) + 1 && col_at(s, k + 1) == 1,
        s[k] != '\n' ==> line_at(s, k + 1) == line_at(s, k) && col_at(s, k + 1) == col_at(s, k) + 1,
{
    assert(s.take(0) =~= Seq::<char>::empty());
    lemma_line_col_step(s, k);
}

/// The whitespace that the scanner skips: among ASCII characters exactly the
/// space, tab, line feed, vertical tab, form feed and carriage return; and no
/// whitespace character can start or continue a word or a number, or open a
/// quoted string.
pub proof fn law_white_space_chars(c: char)
    ensures
        c <= '\u{7f}' ==> (is_white_space(c) <==> (c == ' ' || c == '\t' || c == '\n' || c
            == '\u{b}' || c == '\u{c}' || c == '\r')),
        c == '\u{a0}' || c == '\u{3000}' || c == '\u{2028}' ==> is_white_space(c),
        is_white_space(c) ==> !(c == '_' || ('0' <= c && c <= '9') || c == '\'' || ('a' <= c
            && c <= 'z') || ('A' <= c && c <= 'Z')),
        is_white_space(c) && c <= '\u{7f}' ==> !is_alphanumeric(c) && !is_alphabetic(c),
{
}

/// Reading one more character advances the line and column as a newline or
/// any other character does.
pub proof fn lemma_line_col_step(s: Seq<char>, k: int)
    requires
        0 <= k < s.len(),
    ensures
        line_at(s, k + 1) == (if s[k] == '\n' { line_at(s, k) + 1 } else { line_at(s, k) }),
        col_at(s, k + 1) == (if s[k] == '\n' { 1 } else { col_at(s, k) + 1 }),
{
    assert(s.take(k + 1).drop_last() =~= s.take(k));
    assert(s.take(k + 1).last() == s[k]);
}

/// The byte offset of a span is the byte offset of its start plus its own length.
pub proof fn lemma_byte_len_split(s: Seq<char>, a: int, b: int)
    requires
        0 <= a <= b <= s.len(),
    ensures
        byte_len(s.take(b)) == byte_len(s.take(a)) + byte_len(s.subrange(a, b)),
        byte_len(s.take(b)) <= byte_len(s),
{
    assert(s.take(b) =~= s.take(a) + s.subrange(a, b));
    lemma_encode_concat(s.take(a), s.subrange(a, b));
    assert(s =~= s.take(b) + s.skip(b));
    lemma_encode_concat(s.take(b), s.skip(b));
}

pub proof fn lemma_skip_whitespace_bounds(s: Seq<char>, i: int)
    requires
        0 <= i <= s.len(),
    ensures
        i <= skip_whitespace(s, i) <= s.len(),
        forall|k: int| i <= k < skip_whitespace(s, i) ==> is_white_space(#[trigger] s[k]),
        skip_whitespace(s, i) < s.len() ==> !is_white_space(s[skip_whitespace(s, i)]),
    decreases s.len() - i,
{
    if i < s.len() && is_white_space(s[i]) {
        lemma_skip_whitespace_bounds(s, i + 1);
    }
}

pub proof fn lemma_word_end_bounds(s: Seq<char>, i: int)
    requires
        0 <= i <= s.len(),
    ensures
        i <= word_end(s, i) <= s.len(),
        forall|k: int| i <= k < word_end(s, i) ==> is_word_char(#[trigger] s[k]),
    decreases s.len() - i,
{
    if i < s.len() && is_word_char(s[i]) {
        lemma_word_end_bounds(s, i + 1);
    }
}

pub proof fn lemma_digits_end_bounds(s: Seq<char>, i: int)
    requires
        0 <= i <= s.len(),
    ensures
        i <= digits_end(s, i) <= s.len(),
        forall|k: int| i <= k < digits_end(s, i) ==> is_ascii_digit(#[trigger] s[k]),
    decreases s.len() - i,
{
    if i < s.len() && is_ascii_digit(s[i]) {
        lemma_digits_end_bounds(s, i + 1);
    }
}

pub proof fn lemma_closing_quote_bounds(s: Seq<char>, i: int)
    requires
        0 <= i <= s.len(),
    ensures
        closing_quote_end(s, i) matches Some(e) ==> i < e <= s.len() && s[e - 1] == '\''
            && forall|k: int| i <= k < e - 1 ==> #[trigger] s[k] != '\'',
        closing_quote_end(s, i) is None ==> forall|k: int| i <= k < s.len() ==> #[trigger] s[k] != '\'',
    decreases s.len() - i,
{
    if i < s.len() && s[i] != '\'' {
        lemma_closing_quote_bounds(s, i + 1);
    }
}

/// One scanning step stays within the input and, when it finds a segment,
/// consumes at least one character.
pub proof fn lemma_scan_bounds(s: Seq<char>, i: int)
    requires
        0 <= i <= s.len(),
    ensures
        i <= scan_stop(s, i) <= s.len(),
        scan(s, i) matches Scan::Run { start, end, .. } ==> i <= start < end <= s.len(),
        scan(s, i) matches Scan::Unterminated { start } ==> i <= start < s.len(),
        scan(s, i) matches Scan::DigitLed { start, stop } ==> i <= start < stop <= s.len(),
{
    let j = skip_whitespace(s, i);
    lemma_skip_whitespace_bounds(s, i);
    if j < s.len() {
        lemma_word_end_bounds(s, j + 1);
        lemma_number_end_bounds(s, j + 1);
        lemma_closing_quote_bounds(s, j + 1);
    }
}

/// A number runs over digits, then possibly over a `.` and more digits, and
/// stops before anything that would continue it.
pub proof fn lemma_number_end_bounds(s: Seq<char>, i: int)
    requires
        0 <= i <= s.len(),
    ensures
        i <= digits_end(s, i) <= number_end(s, i) <= s.len(),
        forall|k: int| i <= k < digits_end(s, i) ==> is_ascii_digit(#[trigger] s[k]),
        number_end(s, i) == digits_end(s, i) ==> !has_fraction(s, digits_end(s, i)),
        number_end(s, i) > digits_end(s, i) ==> {
            &&& s[digits_end(s, i)] == '.'
            &&& digits_end(s, i) + 1 < number_end(s, i)
            &&& forall|k: int| digits_end(s, i) < k < number_end(s, i) ==> is_ascii_digit(#[trigger] s[k])
        },
        number_end(s, i) < s.len() ==> !is_ascii_digit(s[number_end(s, i)]),
{
    let d1 = digits_end(s, i);
    lemma_digits_end_bounds(s, i);
    lemma_digits_end_stops(s, i);
    if has_fraction(s, d1) {
        lemma_digits_end_bounds(s, d1 + 1);
        lemma_digits_end_stops(s, d1 + 1);
        lemma_digits_end_bounds(s, d1 + 2);
    }
}

/// Lines and columns grow by at most one per character read.
pub proof fn lemma_line_col_bounded(s: Seq<char>)
    ensures
        1 <= line_col(s).0 <= s.len() + 1,
        1 <= line_col(s).1 <= s.len() + 1,
    decreases s.len(),
{
    if s.len() > 0 {
        lemma_line_col_bounded(s.drop_last());
    }
}

/// Every input shorter than `u32::MAX` characters has all its lines and
/// columns within `u32`.
pub proof fn lemma_short_input_positions_fit(s: Seq<char>)
    requires
        s.len() < u32::MAX,
    ensures
        positions_fit(s),
        forall|n: int| n <= s.len() ==> #[trigger] positions_fit_upto(s, n),
{
    assert forall|k: int| 0 <= k <= s.len() implies #[trigger] position_fits(s, k) by {
        lemma_line_col_bounded(s.take(k));
    }
}

/// The number of characters of `s` whose encoding takes the first `p` bytes.
pub open spec fn char_index_at_byte(s: Seq<char>, p: int) -> int {
    choose|k: int| 0 <= k <= s.len() && byte_len(s.take(k)) == p
}

/// Longer prefixes take more bytes.
pub proof fn lemma_byte_len_increasing(s: Seq<char>, a: int, b: int)
    requires
        0 <= a < b <= s.len(),
    ensures
        byte_len(s.take(a)) < byte_len(s.take(b)),
{
    lemma_byte_len_split(s, a, b);
    let t = s.subrange(a, b);
    assert(t =~= seq![t[0]] + t.drop_first());
    lemma_encode_concat(seq![t[0]], t.drop_first());
    assert(seq![t[0]].drop_first() =~= Seq::<char>::empty());
    assert(encode_utf8(Seq::<char>::empty()) =~= Seq::<u8>::empty());
    assert(encode_utf8(seq![t[0]]) =~= encode_scalar(t[0] as u32));
}

/// The byte offset of the first `k` characters identifies `k`.
pub proof fn lemma_char_index_at_byte(s: Seq<char>, p: int, k: int)
    requires
        0 <= k <= s.len(),
        p == byte_len(s.take(k)),
    ensures
        char_index_at_byte(s, p) == k,
{
    let c = char_index_at_byte(s, p);
    assert(0 <= c <= s.len() && byte_len(s.take(c)) == p);
    if c < k {
        lemma_byte_len_increasing(s, c, k);
    } else if k < c {
        lemma_byte_len_increasing(s, k, c);
    }
}

// ---------------------------------------------------------------------------
// Laws of scanning.
// ---------------------------------------------------------------------------

/// Whitespace is consumed, never emitted: a scanning step skips exactly the
/// whitespace before the next segment, which starts on a non-whitespace
/// character; a step that finds no segment saw only whitespace.
pub proof fn law_whitespace_is_skipped(s: Seq<char>, i: int)
    requires
        0 <= i <= s.len(),
    ensures
        scan(s, i) matches Scan::End ==> forall|k: int| i <= k < s.len() ==> is_white_space(#[trigger] s[k]),
        scan(s, i) matches Scan::Run { start, .. } ==> {
            &&& !is_white_space(s[start])
            &&& forall|k: int| i <= k < start ==> is_white_space(#[trigger] s[k])
        },
{
    lemma_skip_whitespace_bounds(s, i);
}

/// The shape of a scanned segment: its kind is the one its first character
/// decides; a word runs over word characters as far as they go; a number is a
/// maximal digit run not followed by a word character; a quoted segment runs
/// to the first closing quote; a symbol is one character, or two when they
/// form one of the operators `<=`, `<>`, `>=`, `!=`.
pub proof fn law_segment_shape(s: Seq<char>, i: int)
    requires
        0 <= i <= s.len(),
    ensures
        scan(s, i) matches Scan::Run { kind, start, end } ==> {
            &&& kind == raw_kind_of(s[start])
            &&& kind == RawKind::Word ==> {
                &&& s[start] == '_' || is_alphabetic(s[start])
                &&& forall|k: int| start < k < end ==> #[trigger] s[k] == '_' || is_alphanumeric(s[k])
                &&& forall|k: int|
                    start <= k < end && #[trigger] s[k] <= '\u{7f}' ==> s[k] == '_' || ('a' <= s[k]
                        && s[k] <= 'z') || ('A' <= s[k] && s[k] <= 'Z') || ('0' <= s[k] && s[k]
                        <= '9')
                &&& end < s.len() ==> !(s[end] == '_' || is_alphanumeric(s[end]))
            }
            &&& kind == RawKind::Number ==> {
                let point = digits_end(s, start + 1);
                &&& start < point <= end
                &&& forall|k: int| start <= k < point ==> '0' <= #[trigger] s[k] && s[k] <= '9'
                &&& point == end ==> !(point + 1 < s.len() && s[point] == '.' && '0' <= s[point
                    + 1] && s[point + 1] <= '9')
                &&& point < end ==> {
                    &&& s[point] == '.'
                    &&& point + 1 < end
                    &&& forall|k: int| point < k < end ==> '0' <= #[trigger] s[k] && s[k] <= '9'
                }
                &&& end < s.len() ==> !(s[end] == '_' || is_alphanumeric(s[end])) && !('0'
                    <= s[end] && s[end] <= '9')
            }
            &&& kind == RawKind::Quoted ==> {
                &&& end - start >= 2
                &&& s[start] == '\''
                &&& s[end - 1] == '\''
                &&& forall|k: int| start < k < end - 1 ==> #[trigger] s[k] != '\''
            }
            &&& kind == RawKind::Symbol ==> {
                let pair = start + 1 < s.len() && ((s[start] == '<' && s[start + 1] == '=') || (
                s[start] == '<' && s[start + 1] == '>') || (s[start] == '>' && s[start + 1] == '=')
                    || (s[start] == '!' && s[start + 1] == '='));
                &&& end == start + 1 || end == start + 2
                &&& end == start + 2 <==> pair
            }
        },
        scan(s, i) matches Scan::Unterminated { start } ==> {
            &&& s[start] == '\''
            &&& forall|k: int| start < k < s.len() ==> #[trigger] s[k] != '\''
        },
        scan(s, i) matches Scan::DigitLed { start, stop } ==> {
            &&& '0' <= s[start] && s[start] <= '9'
            &&& stop == number_end(s, start + 1)
            &&& stop < s.len()
            &&& s[stop] == '_' || is_alphanumeric(s[stop])
        },
{
    let j = skip_whitespace(s, i);
    lemma_skip_whitespace_bounds(s, i);
    if j < s.len() {
        lemma_word_end_bounds(s, j + 1);
        lemma_digits_end_bounds(s, j + 1);
        lemma_closing_quote_bounds(s, j + 1);
        lemma_number_end_bounds(s, j + 1);
        lemma_word_end_stops(s, j + 1);
    }
}

/// A segment's kind follows from its first character: an ASCII digit starts
/// a number, a quote a quoted string, `_` or an alphabetic character a word,
/// and anything else a symbol; and no other character starts each kind.
pub proof fn law_kind_of_first_char(c: char, alphabetic: bool)
    ensures
        '0' <= c && c <= '9' && !alphabetic ==> kind_given(c, alphabetic) == RawKind::Number,
        c == '\'' && !alphabetic ==> kind_given(c, alphabetic) == RawKind::Quoted,
        c == '_' || alphabetic ==> kind_given(c, alphabetic) == RawKind::Word,
        kind_given(c, alphabetic) == RawKind::Word ==> alphabetic || c == '_',
        kind_given(c, alphabetic) == RawKind::Number ==> '0' <= c && c <= '9',
        kind_given(c, alphabetic) == RawKind::Quoted ==> c == '\'',
        kind_given(c, alphabetic) == RawKind::Symbol ==> !alphabetic && c != '_' && c != '\''
            && !('0' <= c && c <= '9'),
        '0' <= c && c <= '9' ==> raw_kind_of(c) == RawKind::Number,
        ('a' <= c && c <= 'z') || ('A' <= c && c <= 'Z') || c == '_' ==> raw_kind_of(c)
            == RawKind::Word,
        c == '\'' ==> raw_kind_of(c) == RawKind::Quoted,
        c <= '\u{7f}' && !(('a' <= c && c <= 'z') || ('A' <= c && c <= 'Z') || ('0' <= c && c
            <= '9') || c == '_' || c == '\'') ==> raw_kind_of(c) == RawKind::Symbol,
{
}

proof fn lemma_word_end_stops(s: Seq<char>, i: int)
    requires
        0 <= i <= s.len(),
    ensures
        word_end(s, i) < s.len() ==> !is_word_char(s[word_end(s, i)]),
    decreases s.len() - i,
{
    if i < s.len() && is_word_char(s[i]) {
        lemma_word_end_stops(s, i + 1);
    }
}

proof fn lemma_digits_end_stops(s: Seq<char>, i: int)
    requires
        0 <= i <= s.len(),
    ensures
        digits_end(s, i) < s.len() ==> !is_ascii_digit(s[digits_end(s, i)]),
    decreases s.len() - i,
{
    if i < s.len() && is_ascii_digit(s[i]) {
        lemma_digits_end_stops(s, i + 1);
    }
}

/// A segment's text is the very slice of the input's bytes that starts at
/// its byte offset: the bytes of characters `a..b` sit at
/// `byte_len(s.take(a))..byte_len(s.take(b))` in the UTF-8 encoding of `s`.
pub proof fn law_segment_bytes_in_input(s: Seq<char>, a: int, b: int)
    requires
        0 <= a <= b <= s.len(),
    ensures
        encode_utf8(s).subrange(byte_len(s.take(a)) as int, byte_len(s.take(b)) as int)
            == encode_utf8(s.subrange(a, b)),
{
    lemma_byte_len_split(s, a, b);
    assert(s =~= s.take(a) + s.subrange(a, b) + s.skip(b));
    lemma_encode_concat(s.take(a), s.subrange(a, b));
    lemma_encode_concat(s.take(a) + s.subrange(a, b), s.skip(b));
    assert(s.take(b) =~= s.take(a) + s.subrange(a, b));
    assert(encode_utf8(s).subrange(byte_len(s.take(a)) as int, byte_len(s.take(b)) as int)
        =~= encode_utf8(s.subrange(a, b)));
}

// ---------------------------------------------------------------------------
// Repeated scanning.
// ---------------------------------------------------------------------------

/// The segments that calling `next_segment` again and again from character
/// index `i` returns, as (kind, start, end) spans, up to the call that
/// returns `Ok(None)`; or the error of the first call that fails.
pub open spec fn segments_from(s: Seq<char>, i: int) -> Result<Seq<(RawKind, int, int)>, ScanError>
    decreases s.len() - i,
    when 0 <= i <= s.len()
{
    match scan(s, i) {
        Scan::End => Ok(Seq::empty()),
        Scan::Run { kind, start, end } => {
            proof {
                lemma_scan_bounds(s, i);
            }
            match segments_from(s, end) {
                Ok(rest) => Ok(seq![(kind, start, end)] + rest),
                Err(e) => Err(e),
            }
        },
        Scan::Unterminated { start } => Err(unterminated_at(s, start)),
        Scan::DigitLed { start, .. } => Err(digit_led_at(s, start)),
    }
}

/// Where the scanner stands after that sequence of `next_segment` calls.
pub open spec fn segments_stop(s: Seq<char>, i: int) -> int
    decreases s.len() - i,
    when 0 <= i <= s.len()
{
    match scan(s, i) {
        Scan::Run { end, .. } => {
            proof {
                lemma_scan_bounds(s, i);
            }
            segments_stop(s, end)
        },
        _ => scan_stop(s, i),
    }
}

/// The kinds and texts of the given segment spans of `s`.
pub open spec fn segment_texts(s: Seq<char>, spans: Seq<(RawKind, int, int)>) -> Seq<(RawKind, Seq<char>)> {
    spans.map_values(|sp: (RawKind, int, int)| (sp.0, s.subrange(sp.1, sp.2)))
}

// ---------------------------------------------------------------------------
// Inserting whitespace between segments.
// ---------------------------------------------------------------------------

/// `s` with a space inserted before its `b`-th character.
pub open spec fn insert_space(s: Seq<char>, b: int) -> Seq<char> {
    s.take(b) + seq![' '] + s.skip(b)
}

/// Scanning `s` from `i` passes through character index `b`: `b` is `i` or
/// the end of one of the segments found from `i`.
pub open spec fn reaches(s: Seq<char>, i: int, b: int) -> bool
    decreases s.len() - i,
    when 0 <= i <= s.len()
{
    b == i || match scan(s, i) {
        Scan::Run { end, .. } => {
            proof {
                lemma_scan_bounds(s, i);
            }
            reaches(s, end, b)
        },
        _ => false,
    }
}

proof fn lemma_reaches_bounds(s: Seq<char>, i: int, b: int)
    requires
        0 <= i <= s.len(),
        reaches(s, i, b),
    ensures
        i <= b <= s.len(),
    decreases s.len() - i,
{
    lemma_scan_bounds(s, i);
    if b != i {
        if let Scan::Run { end, .. } = scan(s, i) {
            lemma_reaches_bounds(s, end, b);
        }
    }
}

/// The end of every segment found from `i` is reached from `i`.
proof fn lemma_span_end_reached(s: Seq<char>, i: int, k: int)
    requires
        0 <= i <= s.len(),
        segments_from(s, i) is Ok,
        0 <= k < segments_from(s, i)->Ok_0.len(),
    ensures
        reaches(s, i, segments_from(s, i)->Ok_0[k].2),
    decreases s.len() - i,
{
    lemma_scan_bounds(s, i);
    if let Scan::Run { kind, start, end } = scan(s, i) {
        let rest = segments_from(s, end)->Ok_0;
        assert(segments_from(s, i)->Ok_0 == seq![(kind, start, end)] + rest);
        if k == 0 {
            assert(reaches(s, end, end));
        } else {
            assert(segments_from(s, i)->Ok_0[k] == rest[k - 1]);
            lemma_span_end_reached(s, end, k - 1);
        }
    }
}

/// `y` holds the characters of `x` from `lo` to `hi`, shifted by `d`.
pub open spec fn agrees(x: Seq<char>, y: Seq<char>, d: int, lo: int, hi: int) -> bool {
    forall|j: int| lo <= j < hi ==> 0 <= j + d < y.len() && #[trigger] y[j + d] == x[j]
}

proof fn lemma_skip_agree(x: Seq<char>, y: Seq<char>, d: int, k: int)
    requires
        0 <= k <= x.len(),
        0 <= k + d,
        agrees(x, y, d, k, skip_whitespace(x, k)),
        skip_whitespace(x, k) + d <= y.len(),
        skip_whitespace(x, k) + d < y.len() ==> !is_white_space(y[skip_whitespace(x, k) + d]),
    ensures
        skip_whitespace(y, k + d) == skip_whitespace(x, k) + d,
    decreases x.len() - k,
{
    lemma_skip_whitespace_bounds(x, k);
    if k < x.len() && is_white_space(x[k]) {
        assert(y[k + d] == x[k]);
        lemma_skip_agree(x, y, d, k + 1);
    }
}

proof fn lemma_word_end_agree(x: Seq<char>, y: Seq<char>, d: int, k: int)
    requires
        0 <= k <= x.len(),
        0 <= k + d,
        agrees(x, y, d, k, word_end(x, k)),
        word_end(x, k) + d <= y.len(),
        word_end(x, k) + d < y.len() ==> !is_word_char(y[word_end(x, k) + d]),
    ensures
        word_end(y, k + d) == word_end(x, k) + d,
    decreases x.len() - k,
{
    lemma_word_end_bounds(x, k);
    if k < x.len() && is_word_char(x[k]) {
        lemma_word_end_bounds(x, k + 1);
        assert(y[k + d] == x[k]);
        lemma_word_end_agree(x, y, d, k + 1);
    }
}

proof fn lemma_digits_end_agree(x: Seq<char>, y: Seq<char>, d: int, k0: int, k: int)
    requires
        0 <= k0 <= k <= x.len(),
        0 <= k + d,
        agrees(x, y, d, k0, digits_end(x, k)),
        digits_end(x, k) + d <= y.len(),
        digits_end(x, k) + d < y.len() ==> !is_ascii_digit(y[digits_end(x, k) + d]),
    ensures
        digits_end(y, k + d) == digits_end(x, k) + d,
    decreases x.len() - k,
{
    lemma_digits_end_bounds(x, k);
    if k < x.len() && is_ascii_digit(x[k]) {
        lemma_digits_end_bounds(x, k + 1);
        assert(y[k + d] == x[k]);
        lemma_digits_end_agree(x, y, d, k0, k + 1);
    }
}

proof fn lemma_closing_quote_agree(x: Seq<char>, y: Seq<char>, d: int, k0: int, k: int, e: int)
    requires
        0 <= k0 <= k <= x.len(),
        0 <= k + d,
        closing_quote_end(x, k) == Some(e),
        agrees(x, y, d, k0, e),
    ensures
        closing_quote_end(y, k + d) == Some(e + d),
    decreases x.len() - k,
{
    lemma_closing_quote_bounds(x, k);
    assert(y[k + d] == x[k]);
    if x[k] != '\'' {
        lemma_closing_quote_agree(x, y, d, k0, k + 1, e);
    }
}

/// At `p`, `y` (shifted by `d`) holds what `x` holds, or a space, or both
/// have ended.
pub open spec fn same_or_space(x: Seq<char>, y: Seq<char>, d: int, p: int) -> bool {
    ||| p >= x.len() && p + d >= y.len()
    ||| 0 <= p + d < y.len() && y[p + d] == ' '
    ||| 0 <= p < x.len() && 0 <= p + d < y.len() && y[p + d] == x[p]
}

/// A scanning step that finds a segment sees only the characters of the
/// segment, the whitespace before it, and what follows it up to the
/// character after a decimal point; a space there ends it as well as any
/// character that ended it.
proof fn lemma_scan_run_agree(x: Seq<char>, y: Seq<char>, d: int, k: int)
    requires
        0 <= k <= x.len(),
        0 <= k + d,
        scan(x, k) is Run,
        agrees(x, y, d, k, scan(x, k)->end),
        scan(x, k)->end + d <= y.len(),
        same_or_space(x, y, d, scan(x, k)->end),
        (scan(x, k)->end < x.len() && x[scan(x, k)->end] == '.' && scan(x, k)->end + d < y.len()
            && y[scan(x, k)->end + d] == x[scan(x, k)->end]) ==> same_or_space(
            x,
            y,
            d,
            scan(x, k)->end + 1,
        ),
    ensures
        scan(y, k + d) == (Scan::Run {
            kind: scan(x, k)->kind,
            start: scan(x, k)->Run_start + d,
            end: scan(x, k)->end + d,
        }),
{
    let a = skip_whitespace(x, k);
    let e = scan(x, k)->end;
    lemma_scan_bounds(x, k);
    lemma_skip_whitespace_bounds(x, k);
    assert(y[a + d] == x[a]);
    lemma_skip_agree(x, y, d, k);
    lemma_word_end_bounds(x, a + 1);
    lemma_digits_end_bounds(x, a + 1);
    lemma_closing_quote_bounds(x, a + 1);
    lemma_word_end_stops(x, a + 1);
    lemma_digits_end_stops(x, a + 1);
    let c = x[a];
    match raw_kind_of(c) {
        RawKind::Word => {
            lemma_word_end_agree(x, y, d, a + 1);
        },
        RawKind::Number => {
            lemma_number_end_bounds(x, a + 1);
            let d1 = digits_end(x, a + 1);
            lemma_digits_end_agree(x, y, d, k, a + 1);
            if has_fraction(x, d1) {
                assert(y[d1 + d] == x[d1]);
                assert(y[d1 + 1 + d] == x[d1 + 1]);
                lemma_digits_end_agree(x, y, d, k, d1 + 1);
            }
        },
        RawKind::Quoted => {
            lemma_closing_quote_agree(x, y, d, k, a + 1, e);
        },
        RawKind::Symbol => {
            if e == a + 2 {
                assert(y[a + 1 + d] == x[a + 1]);
            }
        },
    }
}

/// Scanning `s` from any `k` at or after `b` and scanning `insert_space(s, b)`
/// from `k + 1` find segments of the same kinds and texts.
proof fn lemma_shifted_segments(s: Seq<char>, b: int, k: int)
    requires
        0 <= b <= k <= s.len(),
        segments_from(s, k) is Ok,
    ensures
        segments_from(insert_space(s, b), k + 1) is Ok,
        segment_texts(insert_space(s, b), segments_from(insert_space(s, b), k + 1)->Ok_0)
            == segment_texts(s, segments_from(s, k)->Ok_0),
    decreases s.len() - k,
{
    let y = insert_space(s, b);
    assert(y.len() == s.len() + 1);
    assert forall|j: int| b <= j < s.len() implies #[trigger] y[j + 1] == s[j] by {}
    lemma_scan_bounds(s, k);
    lemma_skip_whitespace_bounds(s, k);
    match scan(s, k) {
        Scan::End => {
            lemma_skip_agree(s, y, 1, k);
            assert(segment_texts(y, Seq::empty()) =~= segment_texts(s, Seq::empty()));
        },
        Scan::Run { kind, start, end } => {
            lemma_scan_run_agree(s, y, 1, k);
            lemma_shifted_segments(s, b, end);
            let r1 = segments_from(y, end + 1)->Ok_0;
            let r0 = segments_from(s, end)->Ok_0;
            assert(y.subrange(start + 1, end + 1) =~= s.subrange(start, end));
            assert(segment_texts(y, seq![(kind, start + 1, end + 1)] + r1) =~= seq![
                (kind, s.subrange(start, end)),
            ] + segment_texts(y, r1));
            assert(segment_texts(s, seq![(kind, start, end)] + r0) =~= seq![
                (kind, s.subrange(start, end)),
            ] + segment_texts(s, r0));
        },
        _ => {},
    }
}

proof fn lemma_inserted_segments(s: Seq<char>, b: int, i: int)
    requires
        0 <= i <= s.len(),
        reaches(s, i, b),
        segments_from(s, i) is Ok,
    ensures
        segments_from(insert_space(s, b), i) is Ok,
        segment_texts(insert_space(s, b), segments_from(insert_space(s, b), i)->Ok_0)
            == segment_texts(s, segments_from(s, i)->Ok_0),
    decreases s.len() - i,
{
    let y = insert_space(s, b);
    lemma_reaches_bounds(s, i, b);
    lemma_scan_bounds(s, i);
    assert(y.len() == s.len() + 1);
    if b == i {
        assert(y[i] == ' ');
        assert(skip_whitespace(y, i) == skip_whitespace(y, i + 1));
        assert(scan(y, i) == scan(y, i + 1));
        lemma_shifted_segments(s, b, i);
        assert(segments_from(y, i) == segments_from(y, i + 1));
    } else {
        let e = scan(s, i)->end;
        lemma_reaches_bounds(s, e, b);
        assert forall|j: int| 0 <= j < b implies #[trigger] y[j] == s[j] by {}
        assert(y[b] == ' ');
        lemma_scan_run_agree(s, y, 0, i);
        lemma_inserted_segments(s, b, e);
        let kind = scan(s, i)->kind;
        let start = scan(s, i)->Run_start;
        let r1 = segments_from(y, e)->Ok_0;
        let r0 = segments_from(s, e)->Ok_0;
        assert(y.subrange(start, e) =~= s.subrange(start, e));
        assert(segment_texts(y, seq![(kind, start, e)] + r1) =~= seq![(kind, s.subrange(start, e))]
            + segment_texts(y, r1));
        assert(segment_texts(s, seq![(kind, start, e)] + r0) =~= seq![(kind, s.subrange(start, e))]
            + segment_texts(s, r0));
    }
}

/// Whitespace between segments changes no segment: inserting a space where
/// scanning starts or right after any segment found leaves every scan call
/// successful and the kinds and texts of the segments unchanged (only their
/// positions move). So `a<=b` and `a <= b` scan alike.
pub proof fn law_whitespace_between_segments_changes_nothing(s: Seq<char>, i: int, b: int)
    requires
        0 <= i <= s.len(),
        segments_from(s, i) is Ok,
        b == i || exists|k: int|
            0 <= k < segments_from(s, i)->Ok_0.len() && #[trigger] segments_from(s, i)->Ok_0[k].2 == b,
    ensures
        segments_from(insert_space(s, b), i) is Ok,
        segment_texts(insert_space(s, b), segments_from(insert_space(s, b), i)->Ok_0)
            == segment_texts(s, segments_from(s, i)->Ok_0),
{
    if b != i {
        let k = choose|k: int|
            0 <= k < segments_from(s, i)->Ok_0.len() && #[trigger] segments_from(s, i)->Ok_0[k].2 == b;
        lemma_span_end_reached(s, i, k);
    }
    lemma_inserted_segments(s, b, i);
}

// ---------------------------------------------------------------------------
// The scanner.
// ---------------------------------------------------------------------------

/// A stateful, char-by-char iterator over an input string that emits
/// [`Segment`]s.
///
/// The scanner tracks the current byte offset and the line/column position.
/// It owns the *structural* rules of tokenization (whitespace, quoting, run
/// boundaries) and knows nothing about SQL meaning.
#[derive(Debug)]
pub struct Scanner<'a> {
    input: &'a str,
    pos: usize,
    line: u32,
    col: u32,
}

impl<'a> Scanner<'a> {
    #[verifier::type_invariant]
    spec fn inv(self) -> bool {
        &&& 0 <= self.offset() <= self.input@.len()
        &&& self.pos == byte_len(self.input@.take(self.offset()))
        &&& self.line == line_at(self.input@, self.offset())
        &&& self.col == col_at(self.input@, self.offset())
        &&& byte_len(self.input@) <= usize::MAX
    }

    /// The characters of the input being scanned.
    pub closed spec fn source(&self) -> Seq<char> {
        self.input@
    }

    /// How many characters of the input have been consumed.
    pub closed spec fn offset(&self) -> int {
        char_index_at_byte(self.input@, self.pos as int)
    }

    /// Creates a scanner positioned at the very start of `input`.
    pub fn new(input: &'a str) -> (scanner: Self)
        ensures
            scanner.source() == input@,
            scanner.offset() == 0,
    {
        // The input's byte length is a `usize`, so every byte offset the
        // scanner keeps fits in `pos`.
        let bytes = input.as_bytes();
        let _total: usize = bytes.len();
        proof {
            assert(input@.take(0) =~= Seq::<char>::empty());
            assert(encode_utf8(Seq::<char>::empty()) =~= Seq::<u8>::empty());
        }
        proof {
            lemma_char_index_at_byte(input@, 0, 0);
        }
        Scanner { input, pos: 0, line: 1, col: 1 }
    }

    /// The byte offset of the next unread character.
    pub fn pos(&self) -> (p: usize)
        ensures
            p == byte_len(self.source().take(self.offset())),
            0 <= self.offset() <= self.source().len(),
    {
        proof {
            use_type_invariant(self);
        }
        self.pos
    }

    /// The 1-based line of the next unread character.
    pub fn line(&self) -> (l: u32)
        ensures
            l == line_at(self.source(), self.offset()),
    {
        proof {
            use_type_invariant(self);
        }
        self.line
    }

    /// The 1-based column of the next unread character.
    pub fn col(&self) -> (c: u32)
        ensures
            c == col_at(self.source(), self.offset()),
    {
        proof {
            use_type_invariant(self);
        }
        self.col
    }

    /// Peeks the next character without consuming it.
    pub fn peek(&self) -> (c: Option<char>)
        ensures
            0 <= self.offset() <= self.source().len(),
            c == (if self.offset() < self.source().len() {
                Some(self.source()[self.offset()])
            } else {
                None::<char>
            }),
    {
        proof {
            use_type_invariant(self);
        }
        let (_, rest) = split_at_char(self.input, self.pos, Ghost(self.offset()));
        first_char(rest)
    }

    /// Consumes one character, tracking byte position, line, and column.
    pub fn advance(&mut self) -> (c: Option<char>)
        requires
            old(self).offset() < old(self).source().len() ==> position_fits(
                old(self).source(),
                old(self).offset() + 1,
            ),
        ensures
            final(self).source() == old(self).source(),
            0 <= old(self).offset() <= old(self).source().len(),
            old(self).offset() < old(self).source().len() ==> {
                &&& c == Some(old(self).source()[old(self).offset()])
                &&& final(self).offset() == old(self).offset() + 1
            },
            old(self).offset() == old(self).source().len() ==> {
                &&& c is None
                &&& final(self).offset() == old(self).offset()
            },
    {
        proof {
            use_type_invariant(&*self);
        }
        let ch = self.peek()?;
        let width = utf8_width(ch);
        proof {
            lemma_byte_len_step(self.input@, self.offset());
            lemma_line_col_step(self.input@, self.offset());
            lemma_char_index_at_byte(self.input@, self.pos + width, self.offset() + 1);
        }
        let (line, col) = if ch == '\n' {
            (self.line + 1, 1)
        } else {
            (self.line, self.col + 1)
        };
        *self = Scanner {
            input: self.input,
            pos: self.pos + width,
            line,
            col,
        };
        Some(ch)
    }

    /// Scans and returns the next meaningful segment, or `None` at end of input.
    ///
    /// Whitespace before the segment is skipped; the segment's kind is decided
    /// by its first character, and the scanner is left just after it.
    pub fn next_segment(&mut self) -> (res: Result<Option<Segment<'a>>, ScanError>)
        requires
            positions_fit_upto(old(self).source(), scan_stop(old(self).source(), old(self).offset())),
        ensures
            final(self).source() == old(self).source(),
            0 <= old(self).offset() <= old(self).source().len(),
            final(self).offset() == scan_stop(old(self).source(), old(self).offset()),
            next_segment_result(old(self).source(), old(self).offset(), res),
    {
        proof {
            use_type_invariant(&*self);
        }
        let ghost s = self.input@;
        let ghost i = self.offset();
        let ghost stop = scan_stop(s, i);
        proof {
            lemma_skip_whitespace_bounds(s, i);
            lemma_scan_bounds(s, i);
            assert(skip_whitespace(s, i) <= stop);
        }
        // Consume whitespace
        loop
            invariant_except_break
                self.source() == s,
                0 <= i <= self.offset() <= s.len(),
                skip_whitespace(s, self.offset()) == skip_whitespace(s, i),
                skip_whitespace(s, i) <= stop,
                positions_fit_upto(s, stop),
            ensures
                self.source() == s,
                self.offset() == skip_whitespace(s, i),
            decreases s.len() - self.offset(),
        {
            let ghost off = self.offset();
            proof {
                if off < s.len() && is_white_space(s[off]) {
                    lemma_skip_whitespace_bounds(s, off + 1);
                    assert(position_fits(s, off + 1));
                }
            }
            match self.peek() {
                Some(c) => {
                    if char_is_whitespace(c) {
                        self.advance();
                    } else {
                        break;
                    }
                },
                None => break,
            }
        }
        proof {
            use_type_invariant(&*self);
        }
        let start = self.pos;
        let start_line = self.line;
        let start_col = self.col;
        let ghost j = self.offset();

        // At the end of the input there is no segment left.
        let first = match self.peek() {
            Some(first) => first,
            None => {
                return Ok(None);
            },
        };

        // Decide the kind
        let kind = decide_kind(first, char_is_alphabetic(first));

        // Consume the characters of this segment according to its kind
        self.consume_segment(kind, start_line, start_col)?;

        // The segment's text is the input between its start and here.
        let ghost e = self.offset();
        proof {
            use_type_invariant(&*self);
            lemma_scan_bounds(s, i);
            lemma_byte_len_split(s, j, e);
            assert(s.skip(j).take(e - j) =~= s.subrange(j, e));
        }
        let (_, rest) = split_at_char(self.input, start, Ghost(j));
        let (text, _) = split_at_char(rest, self.pos - start, Ghost(e - j));
        let segment = Segment { text, start, line: start_line, col: start_col, kind };
        Ok(Some(segment))
    }

    /// Peeks the character after the next one without consuming anything.
    fn peek_second(&self) -> (c: Option<char>)
        ensures
            c == (if self.offset() + 1 < self.source().len() {
                Some(self.source()[self.offset() + 1])
            } else {
                None::<char>
            }),
    {
        proof {
            use_type_invariant(self);
        }
        match self.peek() {
            Some(c) => {
                let width = utf8_width(c);
                proof {
                    lemma_byte_len_step(self.input@, self.offset());
                }
                let (_, rest) = split_at_char(self.input, self.pos + width, Ghost(self.offset() + 1));
                first_char(rest)
            },
            None => None,
        }
    }

    /// Consumes the run of ASCII digits that starts at the next character.
    fn consume_digits(&mut self)
        requires
            positions_fit_upto(old(self).source(), digits_end(old(self).source(), old(self).offset())),
        ensures
            final(self).source() == old(self).source(),
            final(self).offset() == digits_end(old(self).source(), old(self).offset()),
    {
        proof {
            use_type_invariant(&*self);
        }
        let ghost s = self.source();
        let ghost i = self.offset();
        loop
            invariant_except_break
                self.source() == s,
                0 <= i <= self.offset() <= s.len(),
                digits_end(s, self.offset()) == digits_end(s, i),
                positions_fit_upto(s, digits_end(s, i)),
            ensures
                self.source() == s,
                self.offset() == digits_end(s, i),
            decreases s.len() - self.offset(),
        {
            let ghost off = self.offset();
            proof {
                if off < s.len() && is_ascii_digit(s[off]) {
                    lemma_digits_end_bounds(s, off + 1);
                    assert(position_fits(s, off + 1));
                }
            }
            match self.peek() {
                Some(val) => {
                    if char_is_ascii_digit(val) {
                        self.advance();
                    } else {
                        break;
                    }
                },
                None => break,
            }
        }
    }

    /// Consumes the characters of the segment whose first character is the
    /// next one, of the kind that character decides. An error carries the
    /// given `start_line` and `start_col`.
    fn consume_segment(&mut self, kind: RawKind, start_line: u32, start_col: u32) -> (res: Result<
        (),
        ScanError,
    >)
        requires
            0 <= old(self).offset() < old(self).source().len(),
            kind == raw_kind_of(old(self).source()[old(self).offset()]),
            positions_fit_upto(old(self).source(), scan_at_stop(old(self).source(), old(self).offset())),
        ensures
            final(self).source() == old(self).source(),
            final(self).offset() == scan_at_stop(old(self).source(), old(self).offset()),
            match scan_at(old(self).source(), old(self).offset()) {
                Scan::Run { .. } => res is Ok,
                Scan::Unterminated { .. } => res == Err::<(), ScanError>(
                    ScanError::UnterminatedStringLiteral { line: start_line, col: start_col },
                ),
                Scan::DigitLed { .. } => res == Err::<(), ScanError>(
                    ScanError::IdentifierStartsWithDigit { line: start_line, col: start_col },
                ),
                Scan::End => false,
            },
    {
        let ghost s = self.source();
        let ghost j = self.offset();
        let ghost stop = scan_at_stop(s, j);
        proof {
            lemma_word_end_bounds(s, j + 1);
            lemma_digits_end_bounds(s, j + 1);
            lemma_closing_quote_bounds(s, j + 1);
            lemma_number_end_bounds(s, j + 1);
            assert(position_fits(s, j + 1));
        }
        // Always consume the first (kind-deciding) character
        let first = self.advance();
        match kind {
            RawKind::Quoted => {
                loop
                    invariant_except_break
                        self.source() == s,
                        0 <= j < s.len(),
                        j + 1 <= self.offset() <= s.len(),
                        closing_quote_end(s, self.offset()) == closing_quote_end(s, j + 1),
                        s == old(self).source(),
                        j == old(self).offset(),
                        stop == scan_at_stop(s, j),
                        positions_fit_upto(s, stop),
                        raw_kind_of(s[j]) == RawKind::Quoted,
                    ensures
                        self.source() == s,
                        closing_quote_end(s, j + 1) == Some(self.offset()),
                    decreases s.len() - self.offset(),
                {
                    let ghost off = self.offset();
                    proof {
                        assert(j + 1 <= off <= s.len());
                        lemma_closing_quote_bounds(s, off);
                        if off < s.len() {
                            assert(position_fits(s, off + 1));
                        }
                    }
                    match self.peek() {
                        Some(c) => {
                            if c == '\'' {
                                // the closing quote
                                self.advance();
                                break;
                            } else {
                                // part of the literal body
                                self.advance();
                            }
                        },
                        None => {
                            return Err(
                                ScanError::UnterminatedStringLiteral { line: start_line, col: start_col },
                            );
                        },
                    }
                }
            },
            RawKind::Word => {
                loop
                    invariant_except_break
                        self.source() == s,
                        0 <= j < s.len(),
                        j + 1 <= self.offset() <= s.len(),
                        word_end(s, self.offset()) == word_end(s, j + 1),
                        stop == word_end(s, j + 1),
                        positions_fit_upto(s, stop),
                    ensures
                        self.source() == s,
                        self.offset() == word_end(s, j + 1),
                    decreases s.len() - self.offset(),
                {
                    proof {
                        lemma_word_end_bounds(s, self.offset());
                        if self.offset() < s.len() && is_word_char(s[self.offset()]) {
                            lemma_word_end_bounds(s, self.offset() + 1);
                            assert(position_fits(s, self.offset() + 1));
                        }
                    }
                    match self.peek() {
                        Some(val) => {
                            if val == '_' || char_is_alphanumeric(val) {
                                self.advance();
                            } else {
                                break;
                            }
                        },
                        None => break,
                    }
                }
            },
            RawKind::Number => {
                proof {
                    lemma_number_end_bounds(s, j + 1);
                }
                // Consume the digit run.
                self.consume_digits();
                // A decimal point followed by a digit continues the number
                // with its fractional digits.
                match self.peek() {
                    Some(point) => {
                        if point == '.' {
                            match self.peek_second() {
                                Some(digit) => {
                                    if char_is_ascii_digit(digit) {
                                        proof {
                                            let d1 = digits_end(s, j + 1);
                                            assert(has_fraction(s, d1));
                                            lemma_digits_end_bounds(s, d1 + 1);
                                            assert(position_fits(s, d1 + 1));
                                        }
                                        self.advance();
                                        self.consume_digits();
                                    }
                                },
                                None => {},
                            }
                        }
                    },
                    None => {},
                }
                // An identifier cannot start with a digit, so a letter or
                // underscore immediately after the digits is a malformed
                // token (e.g. `123abc`).
                match self.peek() {
                    Some(c) => {
                        if char_is_alphanumeric(c) || c == '_' {
                            return Err(
                                ScanError::IdentifierStartsWithDigit { line: start_line, col: start_col },
                            );
                        }
                    },
                    None => {},
                }
            },
            RawKind::Symbol => {
                // Maximal munch: `<` `>` `!` may take a second char to form a
                // two-char operator.
                let first = first.expect("symbol kind implies a first char");
                match self.peek() {
                    Some(second) => {
                        if fuses_exec(first, second) {
                            proof {
                                assert(position_fits(s, j + 2));
                            }
                            self.advance();
                        }
                    },
                    None => {},
                }
            },
        }
        Ok(())
    }
}

} // verus!

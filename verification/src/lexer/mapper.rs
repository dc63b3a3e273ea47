use crate::errors::errors::ScanError;
use crate::lexer::text::is_white_space;
use crate::lexer::scanner::{
    RawKind, Scan, Scanner, Segment, digit_led_at, lemma_scan_bounds, positions_fit_upto, scan,
    scan_stop, segments_from, segments_stop, skip_whitespace, unterminated_at,
};
use vstd::prelude::*;

verus! {

/// SQL reserved words recognized by the tokenizer.
///
/// Matching is case-insensitive, so `select`, `SELECT`, and `Select` all map
/// to the same variant.
#[derive(Debug, PartialEq, Eq, Clone, Copy, Structural)]
pub enum Keyword {
    Select,
    From,
    Insert,
    Into,
    Values,
    Where,
}

/// Structural punctuation, single- and multi-character operators.
#[derive(Debug, PartialEq, Eq, Clone, Copy, Structural)]
pub enum Punctuation {
    /// `*`
    Star,
    /// `,`
    Comma,
    /// `.`
    Dot,
    /// `(`
    Lparen,
    /// `)`
    Rparen,
    /// `=`
    Equals,
    /// `<`
    LessThan,
    /// `>`
    GreaterThan,
    /// `>=`
    GreaterThanEqual,
    /// `<>` (also written `!=`)
    NotEqual,
    /// `<=`
    LessThanEqual,
    /// `;`
    Semicolon,
}

/// A single classified token produced by the tokenizer.
///
/// Tokens borrow their payload text directly from the input string
/// (zero-copy); the `'a` lifetime ties the token to the source query it was
/// tokenized from.
#[derive(Debug, PartialEq)]
pub enum SQLToken<'a> {
    /// A reserved word, e.g. `SELECT` or `WHERE`.
    Keyword(Keyword),
    /// Structural syntax, e.g. `,`, `(`, or `=`.
    Punctuation(Punctuation),
    /// A table or column name, e.g. `user_id`.
    Identifier(&'a str),
    /// A single-quoted string value, quotes included, e.g. `'active'`.
    StringLiteral(&'a str),
    /// A numeric value, e.g. `42` or `3.14`.
    NumericLiteral(&'a str),
    /// A segment that was scanned but has no classification yet.
    Undefined(&'a str),
}

/// A token with its payload text taken as characters.
pub enum TokenSpec {
    Keyword(Keyword),
    Punctuation(Punctuation),
    Identifier(Seq<char>),
    StringLiteral(Seq<char>),
    NumericLiteral(Seq<char>),
    Undefined(Seq<char>),
}

impl<'a> View for SQLToken<'a> {
    type V = TokenSpec;

    open spec fn view(&self) -> TokenSpec {
        match self {
            SQLToken::Keyword(k) => TokenSpec::Keyword(*k),
            SQLToken::Punctuation(p) => TokenSpec::Punctuation(*p),
            SQLToken::Identifier(t) => TokenSpec::Identifier(t@),
            SQLToken::StringLiteral(t) => TokenSpec::StringLiteral(t@),
            SQLToken::NumericLiteral(t) => TokenSpec::NumericLiteral(t@),
            SQLToken::Undefined(t) => TokenSpec::Undefined(t@),
        }
    }
}

// ---------------------------------------------------------------------------
// The classification rules.
// ---------------------------------------------------------------------------

/// The code of `c` with ASCII upper-case letters folded to lower case.
pub open spec fn fold_ascii_case(c: char) -> int {
    if 'A' <= c && c <= 'Z' {
        c as int + 32
    } else {
        c as int
    }
}

/// `a` and `b` are equal up to the case of ASCII letters (what
/// `str::eq_ignore_ascii_case` decides).
pub open spec fn eq_ignoring_ascii_case(a: Seq<char>, b: Seq<char>) -> bool {
    &&& a.len() == b.len()
    &&& forall|k: int| 0 <= k < a.len() ==> fold_ascii_case(#[trigger] a[k]) == fold_ascii_case(b[k])
}

/// How each keyword is spelled (in upper case).
pub open spec fn keyword_spelling(k: Keyword) -> Seq<char> {
    match k {
        Keyword::Select => seq!['S', 'E', 'L', 'E', 'C', 'T'],
        Keyword::From => seq!['F', 'R', 'O', 'M'],
        Keyword::Insert => seq!['I', 'N', 'S', 'E', 'R', 'T'],
        Keyword::Into => seq!['I', 'N', 'T', 'O'],
        Keyword::Values => seq!['V', 'A', 'L', 'U', 'E', 'S'],
        Keyword::Where => seq!['W', 'H', 'E', 'R', 'E'],
    }
}

/// The keyword that the word `t` spells, in any ASCII case.
pub open spec fn keyword_of(t: Seq<char>) -> Option<Keyword> {
    if eq_ignoring_ascii_case(t, keyword_spelling(Keyword::Select)) {
        Some(Keyword::Select)
    } else if eq_ignoring_ascii_case(t, keyword_spelling(Keyword::From)) {
        Some(Keyword::From)
    } else if eq_ignoring_ascii_case(t, keyword_spelling(Keyword::Insert)) {
        Some(Keyword::Insert)
    } else if eq_ignoring_ascii_case(t, keyword_spelling(Keyword::Into)) {
        Some(Keyword::Into)
    } else if eq_ignoring_ascii_case(t, keyword_spelling(Keyword::Values)) {
        Some(Keyword::Values)
    } else if eq_ignoring_ascii_case(t, keyword_spelling(Keyword::Where)) {
        Some(Keyword::Where)
    } else {
        None
    }
}

/// The punctuation that the symbol text `t` denotes, if any.
pub open spec fn punctuation_of(t: Seq<char>) -> Option<Punctuation> {
    if t == seq!['*'] {
        Some(Punctuation::Star)
    } else if t == seq![','] {
        Some(Punctuation::Comma)
    } else if t == seq!['.'] {
        Some(Punctuation::Dot)
    } else if t == seq!['('] {
        Some(Punctuation::Lparen)
    } else if t == seq![')'] {
        Some(Punctuation::Rparen)
    } else if t == seq!['='] {
        Some(Punctuation::Equals)
    } else if t == seq![';'] {
        Some(Punctuation::Semicolon)
    } else if t == seq!['<'] {
        Some(Punctuation::LessThan)
    } else if t == seq!['>'] {
        Some(Punctuation::GreaterThan)
    } else if t == seq!['<', '>'] || t == seq!['!', '='] {
        Some(Punctuation::NotEqual)
    } else if t == seq!['>', '='] {
        Some(Punctuation::GreaterThanEqual)
    } else if t == seq!['<', '='] {
        Some(Punctuation::LessThanEqual)
    } else {
        None
    }
}

/// The token that a segment of `kind` with text `t` maps to.
pub open spec fn classify(kind: RawKind, t: Seq<char>) -> TokenSpec {
    match kind {
        RawKind::Word => match keyword_of(t) {
            Some(k) => TokenSpec::Keyword(k),
            None => TokenSpec::Identifier(t),
        },
        RawKind::Quoted => TokenSpec::StringLiteral(t),
        RawKind::Number => TokenSpec::NumericLiteral(t),
        RawKind::Symbol => match punctuation_of(t) {
            Some(p) => TokenSpec::Punctuation(p),
            None => TokenSpec::Undefined(t),
        },
    }
}

// ---------------------------------------------------------------------------
// Classification.
// ---------------------------------------------------------------------------

/// Executable form of [`fold_ascii_case`].
fn fold_case_exec(c: char) -> (v: u32)
    ensures
        v == fold_ascii_case(c),
{
    let code = c as u32;
    if 'A' <= c && c <= 'Z' {
        code + 32
    } else {
        code
    }
}

/// Whether `text` equals `word` up to the case of ASCII letters.
pub fn eq_ignore_ascii_case(text: &str, word: &[char]) -> (b: bool)
    ensures
        b == eq_ignoring_ascii_case(text@, word@),
{
    let n = text.unicode_len();
    if n != word.len() {
        return false;
    }
    let mut i: usize = 0;
    while i < n
        invariant
            n == text@.len(),
            n == word@.len(),
            i <= n,
            forall|k: int| 0 <= k < i ==> fold_ascii_case(#[trigger] text@[k]) == fold_ascii_case(
                word@[k],
            ),
        decreases n - i,
    {
        if fold_case_exec(text.get_char(i)) != fold_case_exec(word[i]) {
            return false;
        }
        i = i + 1;
    }
    true
}

/// Whether `text` spells keyword `k`, in any ASCII case.
fn spells_keyword(text: &str, k: Keyword) -> (b: bool)
    ensures
        b == eq_ignoring_ascii_case(text@, keyword_spelling(k)),
{
    match k {
        Keyword::Select => {
            let w = ['S', 'E', 'L', 'E', 'C', 'T'];
            proof {
                assert(w@ =~= keyword_spelling(k));
            }
            eq_ignore_ascii_case(text, w.as_slice())
        },
        Keyword::From => {
            let w = ['F', 'R', 'O', 'M'];
            proof {
                assert(w@ =~= keyword_spelling(k));
            }
            eq_ignore_ascii_case(text, w.as_slice())
        },
        Keyword::Insert => {
            let w = ['I', 'N', 'S', 'E', 'R', 'T'];
            proof {
                assert(w@ =~= keyword_spelling(k));
            }
            eq_ignore_ascii_case(text, w.as_slice())
        },
        Keyword::Into => {
            let w = ['I', 'N', 'T', 'O'];
            proof {
                assert(w@ =~= keyword_spelling(k));
            }
            eq_ignore_ascii_case(text, w.as_slice())
        },
        Keyword::Values => {
            let w = ['V', 'A', 'L', 'U', 'E', 'S'];
            proof {
                assert(w@ =~= keyword_spelling(k));
            }
            eq_ignore_ascii_case(text, w.as_slice())
        },
        Keyword::Where => {
            let w = ['W', 'H', 'E', 'R', 'E'];
            proof {
                assert(w@ =~= keyword_spelling(k));
            }
            eq_ignore_ascii_case(text, w.as_slice())
        },
    }
}

/// The punctuation that a symbol's text denotes, if any.
fn punctuation_exec(text: &str) -> (p: Option<Punctuation>)
    ensures
        p == punctuation_of(text@),
{
    let n = text.unicode_len();
    if n == 1 {
        let c = text.get_char(0);
        proof {
            assert(text@ =~= seq![c]);
        }
        if c == '*' {
            Some(Punctuation::Star)
        } else if c == ',' {
            Some(Punctuation::Comma)
        } else if c == '.' {
            Some(Punctuation::Dot)
        } else if c == '(' {
            Some(Punctuation::Lparen)
        } else if c == ')' {
            Some(Punctuation::Rparen)
        } else if c == '=' {
            Some(Punctuation::Equals)
        } else if c == ';' {
            Some(Punctuation::Semicolon)
        } else if c == '<' {
            Some(Punctuation::LessThan)
        } else if c == '>' {
            Some(Punctuation::GreaterThan)
        } else {
            None
        }
    } else if n == 2 {
        let c0 = text.get_char(0);
        let c1 = text.get_char(1);
        proof {
            assert(text@ =~= seq![c0, c1]);
        }
        if (c0 == '<' && c1 == '>') || (c0 == '!' && c1 == '=') {
            Some(Punctuation::NotEqual)
        } else if c0 == '>' && c1 == '=' {
            Some(Punctuation::GreaterThanEqual)
        } else if c0 == '<' && c1 == '=' {
            Some(Punctuation::LessThanEqual)
        } else {
            None
        }
    } else {
        None
    }
}

/// Classifies a raw [`Segment`] into a high-level [`SQLToken`].
///
/// The mapper is a pure function: the token depends on the segment's kind and
/// text only. Keyword detection is case-insensitive; anything unrecognized
/// stays an `Identifier` (words) or `Undefined` (symbols) rather than failing.
pub fn token_mapper<'a>(segment: &Segment<'a>) -> (token: SQLToken<'a>)
    ensures
        token@ == classify(segment.kind, segment.text@),
{
    match segment.kind {
        RawKind::Word => {
            if spells_keyword(segment.text, Keyword::Select) {
                SQLToken::Keyword(Keyword::Select)
            } else if spells_keyword(segment.text, Keyword::From) {
                SQLToken::Keyword(Keyword::From)
            } else if spells_keyword(segment.text, Keyword::Insert) {
                SQLToken::Keyword(Keyword::Insert)
            } else if spells_keyword(segment.text, Keyword::Into) {
                SQLToken::Keyword(Keyword::Into)
            } else if spells_keyword(segment.text, Keyword::Values) {
                SQLToken::Keyword(Keyword::Values)
            } else if spells_keyword(segment.text, Keyword::Where) {
                SQLToken::Keyword(Keyword::Where)
            } else {
                SQLToken::Identifier(segment.text)
            }
        },
        RawKind::Quoted => SQLToken::StringLiteral(segment.text),
        RawKind::Number => SQLToken::NumericLiteral(segment.text),
        RawKind::Symbol => match punctuation_exec(segment.text) {
            Some(p) => SQLToken::Punctuation(p),
            None => SQLToken::Undefined(segment.text),
        },
    }
}

// ---------------------------------------------------------------------------
// Tokenizing a whole input.
// ---------------------------------------------------------------------------

/// The tokens' views, in order.
pub open spec fn token_views<'a>(tokens: Seq<SQLToken<'a>>) -> Seq<TokenSpec> {
    tokens.map_values(|t: SQLToken<'a>| t@)
}

/// `r` with `front` put before its tokens (an error stays as it is).
pub open spec fn prepend(front: Seq<TokenSpec>, r: Result<Seq<TokenSpec>, ScanError>) -> Result<
    Seq<TokenSpec>,
    ScanError,
> {
    match r {
        Ok(rest) => Ok(front + rest),
        Err(e) => Err(e),
    }
}

/// What tokenizing the input `s` from character index `i` produces: the
/// tokens of all segments up to the end of the input, or the first scanning
/// error met on the way.
pub open spec fn tokenize_from(s: Seq<char>, i: int) -> Result<Seq<TokenSpec>, ScanError>
    decreases s.len() - i,
    when 0 <= i <= s.len()
{
    match scan(s, i) {
        Scan::End => Ok(Seq::empty()),
        Scan::Run { kind, start, end } => {
            proof {
                lemma_scan_bounds(s, i);
            }
            prepend(seq![classify(kind, s.subrange(start, end))], tokenize_from(s, end))
        },
        Scan::Unterminated { start } => Err(unterminated_at(s, start)),
        Scan::DigitLed { start, .. } => Err(digit_led_at(s, start)),
    }
}

/// Where the scanner stands after tokenizing `s` from character index `i`.
pub open spec fn tokenize_stop(s: Seq<char>, i: int) -> int
    decreases s.len() - i,
    when 0 <= i <= s.len()
{
    match scan(s, i) {
        Scan::Run { end, .. } => {
            proof {
                lemma_scan_bounds(s, i);
            }
            tokenize_stop(s, end)
        },
        _ => scan_stop(s, i),
    }
}

/// Keyword matching ignores ASCII case: two words equal up to the case of
/// ASCII letters spell the same keyword, or both none; so both map to the
/// same keyword token, or both to identifiers.
pub proof fn law_keywords_ignore_ascii_case(t1: Seq<char>, t2: Seq<char>)
    requires
        eq_ignoring_ascii_case(t1, t2),
    ensures
        keyword_of(t1) == keyword_of(t2),
        classify(RawKind::Word, t1) is Keyword <==> classify(RawKind::Word, t2) is Keyword,
        keyword_of(t1) is Some ==> classify(RawKind::Word, t1) == classify(RawKind::Word, t2),
{
    assert forall|w: Seq<char>| eq_ignoring_ascii_case(t1, w) <==> eq_ignoring_ascii_case(t2, w) by {
        if eq_ignoring_ascii_case(t1, w) {
            assert forall|k: int| 0 <= k < t2.len() implies fold_ascii_case(#[trigger] t2[k])
                == fold_ascii_case(w[k]) by {
                assert(fold_ascii_case(t1[k]) == fold_ascii_case(t2[k]));
            }
        }
        if eq_ignoring_ascii_case(t2, w) {
            assert forall|k: int| 0 <= k < t1.len() implies fold_ascii_case(#[trigger] t1[k])
                == fold_ascii_case(w[k]) by {
                assert(fold_ascii_case(t1[k]) == fold_ascii_case(t2[k]));
            }
        }
    }
}

/// Two characters are the same up to ASCII case: equal, or an ASCII
/// upper-case letter and the lower-case letter 32 code points above it.
pub open spec fn same_ignoring_ascii_case(c: char, d: char) -> bool {
    ||| c == d
    ||| 'A' <= c && c <= 'Z' && d as int == c as int + 32
    ||| 'A' <= d && d <= 'Z' && c as int == d as int + 32
}

/// Case folding identifies exactly the characters that are the same up to
/// ASCII case: every upper-case ASCII letter with its lower-case form, and
/// nothing else.
pub proof fn law_fold_ascii_case(c: char, d: char)
    ensures
        fold_ascii_case(c) == fold_ascii_case(d) <==> same_ignoring_ascii_case(c, d),
{
    broadcast use vstd::utf8::char_u32_cast;

    if c as u32 == d as u32 {
        assert(c == d);
    }
}

/// `eq_ignore_ascii_case` compares whole texts: they have the same length and
/// their characters are pairwise the same up to ASCII case.
pub proof fn law_eq_ignoring_ascii_case(a: Seq<char>, b: Seq<char>)
    ensures
        eq_ignoring_ascii_case(a, b) <==> (a.len() == b.len() && forall|k: int|
            0 <= k < a.len() ==> same_ignoring_ascii_case(#[trigger] a[k], b[k])),
{
    assert forall|k: int| 0 <= k < a.len() && a.len() == b.len() implies (fold_ascii_case(
        #[trigger] a[k],
    ) == fold_ascii_case(b[k]) <==> same_ignoring_ascii_case(a[k], b[k])) by {
        law_fold_ascii_case(a[k], b[k]);
    }
}

/// `t` spells, letter by letter, either the upper-case or the lower-case
/// form of a word.
pub open spec fn spelled_in_either_case(t: Seq<char>, upper: Seq<char>, lower: Seq<char>) -> bool {
    &&& t.len() == upper.len()
    &&& forall|k: int| 0 <= k < t.len() ==> #[trigger] t[k] == upper[k] || t[k] == lower[k]
}

proof fn lemma_fold_letter(c: char, u: char, l: char)
    requires
        'A' <= u && u <= 'Z',
        l as int == u as int + 32,
    ensures
        fold_ascii_case(c) == fold_ascii_case(u) <==> (c == u || c == l),
{
    broadcast use vstd::utf8::char_u32_cast;

    if c as u32 == u as u32 {
        assert(c == u);
    }
    if c as u32 == l as u32 {
        assert(c == l);
    }
}

proof fn lemma_spelled(t: Seq<char>, upper: Seq<char>, lower: Seq<char>)
    requires
        upper.len() == lower.len(),
        forall|k: int|
            0 <= k < upper.len() ==> 'A' <= #[trigger] upper[k] && upper[k] <= 'Z' && lower[k] as int
                == upper[k] as int + 32,
    ensures
        eq_ignoring_ascii_case(t, upper) <==> spelled_in_either_case(t, upper, lower),
{
    assert forall|k: int| 0 <= k < t.len() && t.len() == upper.len() implies (fold_ascii_case(
        #[trigger] t[k],
    ) == fold_ascii_case(upper[k]) <==> (t[k] == upper[k] || t[k] == lower[k])) by {
        lemma_fold_letter(t[k], upper[k], lower[k]);
    }
}

/// Keywords are recognized in any ASCII case and only so: a word maps to the
/// keyword `SELECT`, `FROM`, `INSERT`, `INTO`, `VALUES` or `WHERE` exactly
/// when each of its letters is that keyword's letter in upper or lower case;
/// every other word maps to an identifier carrying its text.
pub proof fn law_keywords_spelled_in_any_case(t: Seq<char>)
    ensures
        classify(RawKind::Word, t) == TokenSpec::Keyword(Keyword::Select) <==> spelled_in_either_case(
            t,
            seq!['S', 'E', 'L', 'E', 'C', 'T'],
            seq!['s', 'e', 'l', 'e', 'c', 't'],
        ),
        classify(RawKind::Word, t) == TokenSpec::Keyword(Keyword::From) <==> spelled_in_either_case(
            t,
            seq!['F', 'R', 'O', 'M'],
            seq!['f', 'r', 'o', 'm'],
        ),
        classify(RawKind::Word, t) == TokenSpec::Keyword(Keyword::Insert) <==> spelled_in_either_case(
            t,
            seq!['I', 'N', 'S', 'E', 'R', 'T'],
            seq!['i', 'n', 's', 'e', 'r', 't'],
        ),
        classify(RawKind::Word, t) == TokenSpec::Keyword(Keyword::Into) <==> spelled_in_either_case(
            t,
            seq!['I', 'N', 'T', 'O'],
            seq!['i', 'n', 't', 'o'],
        ),
        classify(RawKind::Word, t) == TokenSpec::Keyword(Keyword::Values) <==> spelled_in_either_case(
            t,
            seq!['V', 'A', 'L', 'U', 'E', 'S'],
            seq!['v', 'a', 'l', 'u', 'e', 's'],
        ),
        classify(RawKind::Word, t) == TokenSpec::Keyword(Keyword::Where) <==> spelled_in_either_case(
            t,
            seq!['W', 'H', 'E', 'R', 'E'],
            seq!['w', 'h', 'e', 'r', 'e'],
        ),
        classify(RawKind::Word, t) is Keyword || classify(RawKind::Word, t) == TokenSpec::Identifier(t),
{
    let su = seq!['S', 'E', 'L', 'E', 'C', 'T'];
    let sl = seq!['s', 'e', 'l', 'e', 'c', 't'];
    let fu = seq!['F', 'R', 'O', 'M'];
    let fl = seq!['f', 'r', 'o', 'm'];
    let iu = seq!['I', 'N', 'S', 'E', 'R', 'T'];
    let il = seq!['i', 'n', 's', 'e', 'r', 't'];
    let ou = seq!['I', 'N', 'T', 'O'];
    let ol = seq!['i', 'n', 't', 'o'];
    let vu = seq!['V', 'A', 'L', 'U', 'E', 'S'];
    let vl = seq!['v', 'a', 'l', 'u', 'e', 's'];
    let wu = seq!['W', 'H', 'E', 'R', 'E'];
    let wl = seq!['w', 'h', 'e', 'r', 'e'];
    assert(keyword_spelling(Keyword::Select) == su);
    assert(keyword_spelling(Keyword::From) == fu);
    assert(keyword_spelling(Keyword::Insert) == iu);
    assert(keyword_spelling(Keyword::Into) == ou);
    assert(keyword_spelling(Keyword::Values) == vu);
    assert(keyword_spelling(Keyword::Where) == wu);
    lemma_spelled(t, su, sl);
    lemma_spelled(t, fu, fl);
    lemma_spelled(t, iu, il);
    lemma_spelled(t, ou, ol);
    lemma_spelled(t, vu, vl);
    lemma_spelled(t, wu, wl);
    // The spellings are told apart by their length or by their first letter.
    assert(su[0] == 'S' && sl[0] == 's');
    assert(fu[0] == 'F' && fl[0] == 'f');
    assert(iu[0] == 'I' && il[0] == 'i');
    assert(ou[0] == 'I' && ol[0] == 'i');
    assert(vu[0] == 'V' && vl[0] == 'v');
    assert(wu[0] == 'W' && wl[0] == 'w');
    if t.len() > 0 {
        if spelled_in_either_case(t, su, sl) {
            assert(t[0] == su[0] || t[0] == sl[0]);
        }
        if spelled_in_either_case(t, fu, fl) {
            assert(t[0] == fu[0] || t[0] == fl[0]);
        }
        if spelled_in_either_case(t, iu, il) {
            assert(t[0] == iu[0] || t[0] == il[0]);
        }
        if spelled_in_either_case(t, ou, ol) {
            assert(t[0] == ou[0] || t[0] == ol[0]);
        }
        if spelled_in_either_case(t, vu, vl) {
            assert(t[0] == vu[0] || t[0] == vl[0]);
        }
    }
}

proof fn lemma_seq_of_one(t: Seq<char>, a: char)
    ensures
        (t == seq![a]) == (t.len() == 1 && t[0] == a),
{
    if t.len() == 1 && t[0] == a {
        assert(t =~= seq![a]);
    }
}

proof fn lemma_seq_of_two(t: Seq<char>, a: char, b: char)
    ensures
        (t == seq![a, b]) == (t.len() == 2 && t[0] == a && t[1] == b),
{
    if t.len() == 2 && t[0] == a && t[1] == b {
        assert(t =~= seq![a, b]);
    }
}

/// Each punctuation is denoted by its own spelling and by nothing else:
/// `*` `,` `.` `(` `)` `=` `;` `<` `>` `>=` `<=`, and both `<>` and `!=` for
/// not-equal; any other symbol text stays undefined, carrying its text.
pub proof fn law_punctuation_spellings(t: Seq<char>)
    ensures
        classify(RawKind::Symbol, t) == TokenSpec::Punctuation(Punctuation::Star) <==> t == seq!['*'],
        classify(RawKind::Symbol, t) == TokenSpec::Punctuation(Punctuation::Comma) <==> t == seq![','],
        classify(RawKind::Symbol, t) == TokenSpec::Punctuation(Punctuation::Dot) <==> t == seq!['.'],
        classify(RawKind::Symbol, t) == TokenSpec::Punctuation(Punctuation::Lparen) <==> t == seq!['('],
        classify(RawKind::Symbol, t) == TokenSpec::Punctuation(Punctuation::Rparen) <==> t == seq![')'],
        classify(RawKind::Symbol, t) == TokenSpec::Punctuation(Punctuation::Equals) <==> t == seq!['='],
        classify(RawKind::Symbol, t) == TokenSpec::Punctuation(Punctuation::Semicolon) <==> t
            == seq![';'],
        classify(RawKind::Symbol, t) == TokenSpec::Punctuation(Punctuation::LessThan) <==> t
            == seq!['<'],
        classify(RawKind::Symbol, t) == TokenSpec::Punctuation(Punctuation::GreaterThan) <==> t
            == seq!['>'],
        classify(RawKind::Symbol, t) == TokenSpec::Punctuation(Punctuation::GreaterThanEqual) <==> t
            == seq!['>', '='],
        classify(RawKind::Symbol, t) == TokenSpec::Punctuation(Punctuation::LessThanEqual) <==> t
            == seq!['<', '='],
        classify(RawKind::Symbol, t) == TokenSpec::Punctuation(Punctuation::NotEqual) <==> (t
            == seq!['<', '>'] || t == seq!['!', '=']),
        classify(RawKind::Symbol, t) is Punctuation || classify(RawKind::Symbol, t)
            == TokenSpec::Undefined(t),
{
    lemma_seq_of_one(t, '*');
    lemma_seq_of_one(t, ',');
    lemma_seq_of_one(t, '.');
    lemma_seq_of_one(t, '(');
    lemma_seq_of_one(t, ')');
    lemma_seq_of_one(t, '=');
    lemma_seq_of_one(t, ';');
    lemma_seq_of_one(t, '<');
    lemma_seq_of_one(t, '>');
    lemma_seq_of_two(t, '<', '>');
    lemma_seq_of_two(t, '!', '=');
    lemma_seq_of_two(t, '>', '=');
    lemma_seq_of_two(t, '<', '=');
}

/// Tokenizing from a point after which only whitespace is left (in
/// particular, from the end of the input) yields no tokens and leaves the
/// scanner at the end of the input.
pub proof fn law_drained_input_tokenizes_to_nothing(s: Seq<char>, i: int)
    requires
        0 <= i <= s.len(),
        forall|k: int| i <= k < s.len() ==> is_white_space(#[trigger] s[k]),
    ensures
        tokenize_from(s, i) == Ok::<Seq<TokenSpec>, ScanError>(Seq::empty()),
        tokenize_stop(s, i) == s.len(),
{
    lemma_skip_to_end(s, i);
}

proof fn lemma_skip_to_end(s: Seq<char>, i: int)
    requires
        0 <= i <= s.len(),
        forall|k: int| i <= k < s.len() ==> is_white_space(#[trigger] s[k]),
    ensures
        skip_whitespace(s, i) == s.len(),
    decreases s.len() - i,
{
    if i < s.len() {
        lemma_skip_to_end(s, i + 1);
    }
}

/// A tokenizing run that succeeds has consumed the whole input, so
/// tokenizing the same scanner again yields no tokens.
pub proof fn law_successful_tokenize_drains(s: Seq<char>, i: int)
    requires
        0 <= i <= s.len(),
        tokenize_from(s, i) is Ok,
    ensures
        tokenize_stop(s, i) == s.len(),
        tokenize_from(s, tokenize_stop(s, i)) == Ok::<Seq<TokenSpec>, ScanError>(Seq::empty()),
        tokenize_stop(s, tokenize_stop(s, i)) == tokenize_stop(s, i),
    decreases s.len() - i,
{
    lemma_scan_bounds(s, i);
    match scan(s, i) {
        Scan::Run { end, .. } => {
            law_successful_tokenize_drains(s, end);
        },
        _ => {},
    }
    law_drained_input_tokenizes_to_nothing(s, s.len() as int);
}

/// The mapper never fails: a word that spells no keyword becomes an
/// identifier carrying its text, and a symbol that denotes no punctuation
/// stays undefined, carrying its text; quoted and numeric segments keep
/// their text as literals.
pub proof fn law_classification_fallbacks(kind: RawKind, t: Seq<char>)
    ensures
        kind == RawKind::Word ==> classify(kind, t) is Keyword || classify(kind, t) == TokenSpec::Identifier(t),
        kind == RawKind::Symbol ==> classify(kind, t) is Punctuation || classify(kind, t) == TokenSpec::Undefined(t),
        kind == RawKind::Quoted ==> classify(kind, t) == TokenSpec::StringLiteral(t),
        kind == RawKind::Number ==> classify(kind, t) == TokenSpec::NumericLiteral(t),
{
}

/// Scanning errors are propagated, not swallowed: tokenizing fails with the
/// error of the first scanning step that fails, and a segment found before
/// it does not change that error.
pub proof fn law_scan_errors_propagate(s: Seq<char>, i: int)
    requires
        0 <= i <= s.len(),
    ensures
        scan(s, i) matches Scan::Unterminated { start } ==> tokenize_from(s, i) == Err::<
            Seq<TokenSpec>,
            ScanError,
        >(unterminated_at(s, start)),
        scan(s, i) matches Scan::DigitLed { start, .. } ==> tokenize_from(s, i) == Err::<
            Seq<TokenSpec>,
            ScanError,
        >(digit_led_at(s, start)),
        scan(s, i) matches Scan::Run { end, .. } ==> forall|e: ScanError|
            tokenize_from(s, i) == Err::<Seq<TokenSpec>, ScanError>(e) <==> #[trigger] tokenize_from(s, end)
                == Err::<Seq<TokenSpec>, ScanError>(e),
{
    lemma_scan_bounds(s, i);
}

/// Tokenizing stops no earlier than the first scanning step does, and
/// within the input.
pub proof fn lemma_tokenize_stop_bounds(s: Seq<char>, i: int)
    requires
        0 <= i <= s.len(),
    ensures
        i <= scan_stop(s, i) <= tokenize_stop(s, i) <= s.len(),
    decreases s.len() - i,
{
    lemma_scan_bounds(s, i);
    match scan(s, i) {
        Scan::Run { end, .. } => {
            lemma_tokenize_stop_bounds(s, end);
        },
        _ => {},
    }
}

/// The tokens of the given segment spans of `s`, in order.
pub open spec fn tokens_of_spans(s: Seq<char>, spans: Seq<(RawKind, int, int)>) -> Seq<TokenSpec> {
    spans.map_values(|sp: (RawKind, int, int)| classify(sp.0, s.subrange(sp.1, sp.2)))
}

/// Tokenizing is pulling segments with `next_segment` until it returns
/// `Ok(None)` and mapping each through the mapper: the tokens are the
/// segments of `segments_from` classified in order, a scanning error is the
/// first error of that sequence of calls, unchanged, and the scanner ends
/// where that sequence of calls leaves it.
pub proof fn law_tokenize_maps_segments(s: Seq<char>, i: int)
    requires
        0 <= i <= s.len(),
    ensures
        tokenize_from(s, i) == (match segments_from(s, i) {
            Ok(spans) => Ok::<Seq<TokenSpec>, ScanError>(tokens_of_spans(s, spans)),
            Err(e) => Err(e),
        }),
        tokenize_stop(s, i) == segments_stop(s, i),
    decreases s.len() - i,
{
    lemma_scan_bounds(s, i);
    match scan(s, i) {
        Scan::End => {
            assert(tokens_of_spans(s, Seq::empty()) =~= Seq::<TokenSpec>::empty());
        },
        Scan::Run { kind, start, end } => {
            law_tokenize_maps_segments(s, end);
            match segments_from(s, end) {
                Ok(rest) => {
                    let sp = seq![(kind, start, end)];
                    assert(tokens_of_spans(s, sp + rest) =~= seq![
                        classify(kind, s.subrange(start, end)),
                    ] + tokens_of_spans(s, rest));
                },
                Err(_) => {},
            }
        },
        _ => {},
    }
}

/// Tokenizing is deterministic: scanners over the same input that stand at
/// the same place give the same tokens (or the same error) and end at the
/// same place; in particular two fresh scanners over the same input do.
pub proof fn law_tokenize_deterministic(s1: Seq<char>, i1: int, s2: Seq<char>, i2: int)
    requires
        0 <= i1 <= s1.len(),
        s1 == s2,
        i1 == i2,
    ensures
        tokenize_from(s1, i1) == tokenize_from(s2, i2),
        tokenize_stop(s1, i1) == tokenize_stop(s2, i2),
{
}

/// Tokenizes an entire input by pulling segments from `scanner` and mapping
/// each one to a [`SQLToken`].
///
/// Stops cleanly at end of input; tokenizing an already-drained scanner
/// yields an empty vector. Any scanning error is propagated to the caller
/// rather than swallowed here.
pub fn tokenize<'a>(scanner: &mut Scanner<'a>) -> (res: Result<Vec<SQLToken<'a>>, ScanError>)
    requires
        positions_fit_upto(
            old(scanner).source(),
            tokenize_stop(old(scanner).source(), old(scanner).offset()),
        ),
    ensures
        final(scanner).source() == old(scanner).source(),
        0 <= old(scanner).offset() <= old(scanner).source().len(),
        final(scanner).offset() == tokenize_stop(old(scanner).source(), old(scanner).offset()),
        match res {
            Ok(tokens) => tokenize_from(old(scanner).source(), old(scanner).offset()) == Ok::<
                Seq<TokenSpec>,
                ScanError,
            >(token_views(tokens@)),
            Err(e) => tokenize_from(old(scanner).source(), old(scanner).offset()) == Err::<
                Seq<TokenSpec>,
                ScanError,
            >(e),
        },
{
    let ghost s = scanner.source();
    let ghost i = scanner.offset();
    let mut tokens: Vec<SQLToken<'a>> = Vec::new();
    let _ = scanner.pos();
    proof {
        assert(token_views(tokens@) =~= Seq::<TokenSpec>::empty());
        assert(prepend(Seq::empty(), tokenize_from(s, i)) =~= tokenize_from(s, i));
    }
    loop
        invariant_except_break
            scanner.source() == s,
            positions_fit_upto(s, tokenize_stop(s, i)),
            0 <= i <= scanner.offset() <= s.len(),
            tokenize_from(s, i) == prepend(token_views(tokens@), tokenize_from(s, scanner.offset())),
            tokenize_stop(s, i) == tokenize_stop(s, scanner.offset()),
            s == old(scanner).source(),
            i == old(scanner).offset(),
        ensures
            scanner.source() == s,
            tokenize_stop(s, i) == scanner.offset(),
            tokenize_from(s, i) == Ok::<Seq<TokenSpec>, ScanError>(token_views(tokens@)),
        decreases s.len() - scanner.offset(),
    {
        let ghost before = scanner.offset();
        let ghost old_views = token_views(tokens@);
        proof {
            lemma_scan_bounds(s, before);
            lemma_tokenize_stop_bounds(s, before);
        }
        match scanner.next_segment()? {
            Some(segment) => {
                let token = token_mapper(&segment);
                tokens.push(token);
                proof {
                    assert(token_views(tokens@) =~= old_views + seq![token@]);
                    let r = tokenize_from(s, scanner.offset());
                    match r {
                        Ok(rest) => {
                            assert(old_views + (seq![token@] + rest) =~= (old_views + seq![token@]) + rest);
                        },
                        Err(_) => {},
                    }
                }
            },
            None => {
                proof {
                    assert(old_views + Seq::<TokenSpec>::empty() =~= old_views);
                }
                break;
            },
        }
    }
    Ok(tokens)
}

} // verus!

use vstd::prelude::*;
use vstd::utf8::*;

verus! {

broadcast use vstd::string::group_string_axioms;

/// Number of bytes in the UTF-8 encoding of a character sequence.
pub open spec fn byte_len(s: Seq<char>) -> nat {
    encode_utf8(s).len()
}

/// UTF-8 encoding distributes over concatenation.
pub proof fn lemma_encode_concat(a: Seq<char>, b: Seq<char>)
    ensures
        encode_utf8(a + b) == encode_utf8(a) + encode_utf8(b),
    decreases a.len(),
{
    if a.len() == 0 {
        assert(a + b =~= b);
        assert(encode_utf8(a) + encode_utf8(b) =~= encode_utf8(b));
    } else {
        lemma_encode_concat(a.drop_first(), b);
        assert((a + b).drop_first() =~= a.drop_first() + b);
        assert((a + b)[0] == a[0]);
        assert(encode_utf8(a + b) =~= encode_utf8(a) + encode_utf8(b));
    }
}

/// The end of the encoding of a prefix is a character boundary of the whole encoding.
pub proof fn lemma_prefix_boundary(a: Seq<char>, b: Seq<char>)
    ensures
        is_char_boundary(encode_utf8(a + b), encode_utf8(a).len() as int),
    decreases a.len(),
{
    broadcast use encode_utf8_valid_utf8;

    let bytes = encode_utf8(a + b);
    lemma_encode_concat(a, b);
    if a.len() > 0 {
        let c = (a + b)[0];
        assert(c == a[0]);
        encode_utf8_first_scalar(a + b);
        let rest = (a + b).drop_first();
        assert(rest =~= a.drop_first() + b);
        assert(bytes =~= encode_scalar(c as u32) + encode_utf8(rest));
        assert(pop_first_scalar(bytes) =~= encode_utf8(rest));
        assert(encode_utf8(a) =~= encode_scalar(c as u32) + encode_utf8(a.drop_first()));
        lemma_prefix_boundary(a.drop_first(), b);
    }
}

/// Splits `s` after its first `k` characters; `mid` is the byte offset of that point.
pub(crate) fn split_at_char(s: &str, mid: usize, Ghost(k): Ghost<int>) -> (res: (&str, &str))
    requires
        0 <= k <= s@.len(),
        mid == byte_len(s@.take(k)),
    ensures
        res.0@ == s@.take(k),
        res.1@ == s@.skip(k),
{
    proof {
        assert(s@ =~= s@.take(k) + s@.skip(k));
        lemma_prefix_boundary(s@.take(k), s@.skip(k));
        lemma_encode_concat(s@.take(k), s@.skip(k));
    }
    let res = s.split_at(mid);
    proof {
        broadcast use encode_utf8_decode_utf8;

        assert(encode_utf8(res.0@) =~= encode_utf8(s@.take(k)));
        assert(encode_utf8(res.1@) =~= encode_utf8(s@.skip(k)));
        assert(decode_utf8(encode_utf8(res.0@)) == res.0@);
        assert(decode_utf8(encode_utf8(s@.take(k))) == s@.take(k));
        assert(decode_utf8(encode_utf8(res.1@)) == res.1@);
        assert(decode_utf8(encode_utf8(s@.skip(k))) == s@.skip(k));
    }
    res
}


/// Number of bytes in the UTF-8 encoding of one character.
pub open spec fn char_width(c: char) -> nat {
    encode_scalar(c as u32).len()
}

/// Appending one character grows the encoding by that character's width.
pub proof fn lemma_byte_len_step(s: Seq<char>, k: int)
    requires
        0 <= k < s.len(),
    ensures
        byte_len(s.take(k + 1)) == byte_len(s.take(k)) + char_width(s[k]),
        byte_len(s.take(k + 1)) <= byte_len(s),
{
    assert(s.take(k + 1) =~= s.take(k) + seq![s[k]]);
    lemma_encode_concat(s.take(k), seq![s[k]]);
    assert(seq![s[k]].drop_first() =~= Seq::<char>::empty());
    assert(encode_utf8(Seq::<char>::empty()) =~= Seq::<u8>::empty());
    assert(encode_utf8(seq![s[k]]) =~= encode_scalar(s[k] as u32));
    assert(s =~= s.take(k + 1) + s.skip(k + 1));
    lemma_encode_concat(s.take(k + 1), s.skip(k + 1));
}

/// The number of bytes that `c` takes in UTF-8 (what `char::len_utf8` returns).
pub fn utf8_width(c: char) -> (w: usize)
    ensures
        w == char_width(c),
        1 <= w <= 4,
{
    let v = c as u32;
    proof {
        char_is_scalar(c);
    }
    if v <= 0x7F {
        1
    } else if v <= 0x7FF {
        2
    } else if v <= 0xFFFF {
        3
    } else {
        4
    }
}

/// The first character of `s`, if any.
pub fn first_char(s: &str) -> (c: Option<char>)
    ensures
        c == (if s@.len() > 0 { Some(s@[0]) } else { None::<char> }),
{
    if s.is_empty() {
        None
    } else {
        Some(s.get_char(0))
    }
}


/// `c` has the Unicode `White_Space` property (what `char::is_whitespace`
/// returns): the ASCII controls U+0009..=U+000D and the space, U+0085,
/// U+00A0, U+1680, U+2000..=U+200A, U+2028, U+2029, U+202F, U+205F and
/// U+3000.
pub open spec fn is_white_space(c: char) -> bool {
    ||| '\u{9}' <= c && c <= '\u{d}'
    ||| c == ' '
    ||| c == '\u{85}'
    ||| c == '\u{a0}'
    ||| c == '\u{1680}'
    ||| '\u{2000}' <= c && c <= '\u{200a}'
    ||| c == '\u{2028}'
    ||| c == '\u{2029}'
    ||| c == '\u{202f}'
    ||| c == '\u{205f}'
    ||| c == '\u{3000}'
}

/// Whether `c` is whitespace, by the Unicode `White_Space` property (what
/// `char::is_whitespace` returns).
pub fn char_is_whitespace(c: char) -> (b: bool)
    ensures
        b == is_white_space(c),
{
    ('\u{9}' <= c && c <= '\u{d}') || c == ' ' || c == '\u{85}' || c == '\u{a0}' || c == '\u{1680}'
        || ('\u{2000}' <= c && c <= '\u{200a}') || c == '\u{2028}' || c == '\u{2029}' || c
        == '\u{202f}' || c == '\u{205f}' || c == '\u{3000}'
}

/// `c` is an ASCII letter.
pub open spec fn is_ascii_letter(c: char) -> bool {
    ('a' <= c && c <= 'z') || ('A' <= c && c <= 'Z')
}

/// What `char::is_alphabetic` returns for a non-ASCII `c`: whether `c` has the
/// Unicode `Alphabetic` property.
pub uninterp spec fn unicode_alphabetic(c: char) -> bool;

/// What `char::is_alphanumeric` returns for a non-ASCII `c`: whether `c` is
/// alphabetic or has one of the Unicode general categories for numbers.
pub uninterp spec fn unicode_alphanumeric(c: char) -> bool;

/// `c` has the Unicode `Alphabetic` property (what `char::is_alphabetic`
/// returns). Among ASCII characters these are exactly the letters; beyond
/// ASCII the property table is only named.
pub open spec fn is_alphabetic(c: char) -> bool {
    if c <= '\u{7f}' {
        is_ascii_letter(c)
    } else {
        unicode_alphabetic(c)
    }
}

/// `c` is alphabetic or numeric (what `char::is_alphanumeric` returns). Among
/// ASCII characters these are exactly the letters and the digits `0`..=`9`;
/// beyond ASCII every alphabetic character counts, and the tables of numeric
/// characters are only named.
pub open spec fn is_alphanumeric(c: char) -> bool {
    if c <= '\u{7f}' {
        is_ascii_letter(c) || is_ascii_digit(c)
    } else {
        unicode_alphabetic(c) || unicode_alphanumeric(c)
    }
}

/// Calls `char::is_alphabetic`. The contract claims that on ASCII characters
/// it holds exactly of the letters; on other characters its result is only
/// named `unicode_alphabetic(c)`, the Unicode `Alphabetic` table being left
/// unstated.
#[verifier::external_body]
pub(crate) fn char_is_alphabetic(c: char) -> (b: bool)
    ensures
        b == is_alphabetic(c),
        c > '\u{7f}' ==> b == unicode_alphabetic(c),
{
    c.is_alphabetic()
}

/// Calls `char::is_alphanumeric`, documented as `is_alphabetic() ||
/// is_numeric()`. The contract claims that on ASCII characters it holds
/// exactly of the letters and digits, and that beyond ASCII it holds of every
/// alphabetic character; otherwise its result is only named
/// `unicode_alphanumeric(c)`, the Unicode number categories being left
/// unstated.
#[verifier::external_body]
pub(crate) fn char_is_alphanumeric(c: char) -> (b: bool)
    ensures
        b == is_alphanumeric(c),
        c > '\u{7f}' ==> b == (unicode_alphabetic(c) || unicode_alphanumeric(c)),
{
    c.is_alphanumeric()
}

/// `c` is one of the ASCII decimal digits `0`..=`9`.
pub open spec fn is_ascii_digit(c: char) -> bool {
    '0' <= c && c <= '9'
}

/// Executable form of [`is_ascii_digit`] (what `char::is_ascii_digit` returns).
pub fn char_is_ascii_digit(c: char) -> (b: bool)
    ensures
        b == is_ascii_digit(c),
{
    '0' <= c && c <= '9'
}

} // verus!

//! Character classes and string building shared by the lexers.
use vstd::prelude::*;
use vstd::std_specs::iter::IteratorSpec;

verus! {

/// Whether a character has the Unicode `Alphabetic` property, as
/// `char::is_alphabetic` reports it.
pub uninterp spec fn alphabetic(c: char) -> bool;

/// Whether a character is numeric in Unicode's sense, as
/// `char::is_numeric` reports it.
pub uninterp spec fn numeric(c: char) -> bool;

/// Relies on `char::is_alphabetic`: its answer depends on the character alone.
#[verifier::external_body]
fn std_is_alphabetic(c: char) -> (r: bool)
    ensures
        r == alphabetic(c),
{
    c.is_alphabetic()
}

/// Relies on `char::is_numeric`: its answer depends on the character alone.
#[verifier::external_body]
fn std_is_numeric(c: char) -> (r: bool)
    ensures
        r == numeric(c),
{
    c.is_numeric()
}

/// Relies on `String::push`: appends one character.
#[verifier::external_body]
pub fn push_char(s: &mut String, c: char)
    ensures
        final(s)@ == old(s)@.push(c),
{
    s.push(c)
}

pub open spec fn is_ascii_char(c: char) -> bool {
    (c as u32) < 128
}

pub open spec fn is_ascii_letter(c: char) -> bool {
    ('a' <= c && c <= 'z') || ('A' <= c && c <= 'Z')
}

pub open spec fn is_ascii_digit(c: char) -> bool {
    '0' <= c && c <= '9'
}

/// The Unicode `Alphabetic` property. Among ASCII characters exactly the
/// Latin letters have it, so those are decided here and the rest is asked
/// of the standard library.
pub open spec fn is_alphabetic(c: char) -> bool {
    if is_ascii_char(c) {
        is_ascii_letter(c)
    } else {
        alphabetic(c)
    }
}

/// The Unicode `Numeric` property. Among ASCII characters exactly the
/// decimal digits have it.
pub open spec fn is_numeric(c: char) -> bool {
    if is_ascii_char(c) {
        is_ascii_digit(c)
    } else {
        numeric(c)
    }
}

pub fn char_is_alphabetic(c: char) -> (r: bool)
    ensures
        r == is_alphabetic(c),
{
    if (c as u32) < 128 {
        ('a' <= c && c <= 'z') || ('A' <= c && c <= 'Z')
    } else {
        std_is_alphabetic(c)
    }
}

pub fn char_is_numeric(c: char) -> (r: bool)
    ensures
        r == is_numeric(c),
{
    if (c as u32) < 128 {
        '0' <= c && c <= '9'
    } else {
        std_is_numeric(c)
    }
}

/// The characters of a string, in order.
pub fn chars_of(s: &str) -> (r: Vec<char>)
    ensures
        r@ == s@,
{
    let mut out: Vec<char> = Vec::new();
    for c in it: s.chars()
        invariant
            out@ == it.seq().take(it.index() as int),
    {
        out.push(c);
    }
    out
}

/// A string made of one character.
pub fn char_string(c: char) -> (r: String)
    ensures
        r@ == seq![c],
{
    let mut s = String::new();
    push_char(&mut s, c);
    s
}

/// Characters skipped between tokens.
pub open spec fn is_blank(c: char) -> bool {
    c == ' ' || c == '\t' || c == '\r' || c == '\n'
}

/// Characters that make up identifiers and keywords.
pub open spec fn is_letter(c: char) -> bool {
    is_alphabetic(c) || c == '_'
}

/// Characters that make up numbers.
pub open spec fn is_digit(c: char) -> bool {
    '0' <= c && c <= '9'
}

/// Characters that continue a word: alphanumeric, `_` or `$`.
pub open spec fn is_word_char(c: char) -> bool {
    is_alphabetic(c) || is_numeric(c) || c == '_' || c == '$'
}

/// The runs of characters that the scanner consumes greedily.
pub enum CharClass {
    Blank,
    Letter,
    Digit,
    Word,
}

pub open spec fn in_class(c: char, class: CharClass) -> bool {
    match class {
        CharClass::Blank => is_blank(c),
        CharClass::Letter => is_letter(c),
        CharClass::Digit => is_digit(c),
        CharClass::Word => is_word_char(c),
    }
}

/// The first index at or after `p` whose character is not in `class`
/// (or the end of `s`).
pub open spec fn run_end(s: Seq<char>, p: int, class: CharClass) -> int
    decreases s.len() - p,
{
    if 0 <= p < s.len() && in_class(s[p], class) {
        run_end(s, p + 1, class)
    } else {
        p
    }
}

pub proof fn lemma_run_end(s: Seq<char>, p: int, class: CharClass)
    requires
        0 <= p <= s.len(),
    ensures
        p <= run_end(s, p, class) <= s.len(),
        p < s.len() && in_class(s[p], class) ==> p < run_end(s, p, class),
        run_end(s, p, class) < s.len() ==> !in_class(s[run_end(s, p, class)], class),
        forall|i: int| p <= i < run_end(s, p, class) ==> in_class(#[trigger] s[i], class),
    decreases s.len() - p,
{
    if p < s.len() && in_class(s[p], class) {
        lemma_run_end(s, p + 1, class);
    }
}

/// The number of bytes that UTF-8 takes for a character.
pub open spec fn char_width(c: char) -> int {
    let v = c as u32;
    if v < 0x80 {
        1
    } else if v < 0x800 {
        2
    } else if v < 0x10000 {
        3
    } else {
        4
    }
}

/// The byte offset, in the UTF-8 encoding of `s`, of the character at
/// index `i`.
pub open spec fn byte_offset(s: Seq<char>, i: int) -> int
    decreases i,
{
    if i <= 0 {
        0
    } else {
        byte_offset(s, i - 1) + char_width(s[i - 1])
    }
}

/// The length in bytes of the UTF-8 encoding of `s`.
pub open spec fn byte_len(s: Seq<char>) -> int {
    byte_offset(s, s.len() as int)
}

pub proof fn lemma_byte_offset_grows(s: Seq<char>, i: int, j: int)
    requires
        0 <= i <= j,
    ensures
        0 <= byte_offset(s, i) <= byte_offset(s, j),
    decreases j,
{
    if j > 0 {
        if i < j {
            lemma_byte_offset_grows(s, i, j - 1);
        } else {
            lemma_byte_offset_grows(s, j - 1, j - 1);
        }
    }
}

proof fn lemma_byte_offset_first(s: Seq<char>, n: int)
    requires
        1 <= n <= s.len(),
    ensures
        byte_offset(s, n) == char_width(s[0]) + byte_offset(s.drop_first(), n - 1),
    decreases n,
{
    if n > 1 {
        lemma_byte_offset_first(s, n - 1);
        assert(s.drop_first()[n - 2] == s[n - 1]);
    } else {
        assert(byte_offset(s, 0) == 0);
        assert(byte_offset(s.drop_first(), 0) == 0);
    }
}

/// `byte_len` is the length of the UTF-8 encoding, the byte length of a
/// string with these characters.
pub proof fn lemma_byte_len_encoding(s: Seq<char>)
    ensures
        byte_len(s) == vstd::utf8::encode_utf8(s).len(),
    decreases s.len(),
{
    if s.len() > 0 {
        lemma_byte_offset_first(s, s.len() as int);
        lemma_byte_len_encoding(s.drop_first());
        vstd::utf8::char_is_scalar(s[0]);
    }
}

proof fn lemma_encode_concat(a: Seq<char>, b: Seq<char>)
    ensures
        vstd::utf8::encode_utf8(a + b) == vstd::utf8::encode_utf8(a) + vstd::utf8::encode_utf8(b),
    decreases a.len(),
{
    if a.len() > 0 {
        assert((a + b).drop_first() =~= a.drop_first() + b);
        assert((a + b)[0] == a[0]);
        lemma_encode_concat(a.drop_first(), b);
        let ea = vstd::utf8::encode_scalar(a[0] as u32);
        assert(ea + (vstd::utf8::encode_utf8(a.drop_first()) + vstd::utf8::encode_utf8(b)) =~= (ea
            + vstd::utf8::encode_utf8(a.drop_first())) + vstd::utf8::encode_utf8(b));
    } else {
        assert(a + b =~= b);
        assert(vstd::utf8::encode_utf8(a) + vstd::utf8::encode_utf8(b) =~= vstd::utf8::encode_utf8(b));
    }
}

proof fn lemma_byte_offset_take(s: Seq<char>, i: int, n: int)
    requires
        0 <= i <= n <= s.len(),
    ensures
        byte_offset(s, i) == byte_offset(s.take(n), i),
    decreases i,
{
    if i > 0 {
        lemma_byte_offset_take(s, i - 1, n);
    }
}

/// The characters `s[i..j]` are encoded at bytes `byte_offset(s, i)` up to
/// `byte_offset(s, j)` of the encoding of `s`.
pub proof fn lemma_encoding_slice(s: Seq<char>, i: int, j: int)
    requires
        0 <= i <= j <= s.len(),
    ensures
        vstd::utf8::encode_utf8(s).subrange(byte_offset(s, i), byte_offset(s, j))
            == vstd::utf8::encode_utf8(s.subrange(i, j)),
{
    let a = s.take(i);
    let m = s.subrange(i, j);
    let b = s.skip(j);
    assert(s =~= a + m + b);
    lemma_encode_concat(a + m, b);
    lemma_encode_concat(a, m);
    assert(a + m =~= s.take(j));
    lemma_byte_offset_take(s, i, i);
    lemma_byte_offset_take(s, j, j);
    lemma_byte_len_encoding(a);
    lemma_byte_len_encoding(s.take(j));
    let ea = vstd::utf8::encode_utf8(a);
    let em = vstd::utf8::encode_utf8(m);
    let eb = vstd::utf8::encode_utf8(b);
    assert((ea + em + eb).subrange(ea.len() as int, (ea.len() + em.len()) as int) =~= em);
}

/// The number of bytes that UTF-8 takes for a character.
pub fn utf8_width(c: char) -> (r: usize)
    ensures
        r == char_width(c),
{
    let v = c as u32;
    if v < 0x80 {
        1
    } else if v < 0x800 {
        2
    } else if v < 0x10000 {
        3
    } else {
        4
    }
}

} // verus!

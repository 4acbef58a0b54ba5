//! A lexer that hands out tokens borrowing their text from the source.
//! Its tokens carry values rather than owned lexemes, and iteration stops
//! after the first illegal character.
use vstd::prelude::*;
use crate::text::{
    CharClass, byte_len, byte_offset, char_is_alphabetic, char_is_numeric, chars_of, in_class,
    is_alphabetic, is_digit, lemma_byte_len_encoding, lemma_byte_offset_grows, lemma_encoding_slice,
    lemma_run_end, run_end, utf8_width,
};
use crate::token::TokenKind;

verus! {

/// A token's value: operators carry nothing, words and numbers carry
/// their text.
#[derive(Debug, PartialEq, Clone, Copy)]
pub enum TokenValue<'source> {
    EOF,
    Error,
    Plus,
    Minus,
    Multiply,
    Divide,
    Equals,
    LeftBrace,
    RightBrace,
    Number(&'source str),
    Keyword(&'source str),
    Identifier(&'source str),
}

/// A value's category, and its text where it carries one.
pub open spec fn value_view(v: TokenValue) -> (TokenKind, Seq<char>) {
    match v {
        TokenValue::EOF => (TokenKind::EOF, Seq::empty()),
        TokenValue::Error => (TokenKind::Error, Seq::empty()),
        TokenValue::Plus => (TokenKind::Plus, Seq::empty()),
        TokenValue::Minus => (TokenKind::Minus, Seq::empty()),
        TokenValue::Multiply => (TokenKind::Multiply, Seq::empty()),
        TokenValue::Divide => (TokenKind::Divide, Seq::empty()),
        TokenValue::Equals => (TokenKind::Equals, Seq::empty()),
        TokenValue::LeftBrace => (TokenKind::LeftBrace, Seq::empty()),
        TokenValue::RightBrace => (TokenKind::RightBrace, Seq::empty()),
        TokenValue::Number(t) => (TokenKind::Number, t@),
        TokenValue::Keyword(t) => (TokenKind::Keyword, t@),
        TokenValue::Identifier(t) => (TokenKind::Identifier, t@),
    }
}

/// A token and the byte offset of its first character in the source.
#[derive(Debug, PartialEq, Clone, Copy)]
pub struct Token<'source> {
    pub value: TokenValue<'source>,
    pub pos: usize,
}

impl<'source> View for Token<'source> {
    type V = (TokenKind, Seq<char>, int);

    open spec fn view(&self) -> (TokenKind, Seq<char>, int) {
        (value_view(self.value).0, value_view(self.value).1, self.pos as int)
    }
}

/// The category of a one-character operator; `Error` for any other
/// character.
pub open spec fn operator_kind(c: char) -> TokenKind {
    if c == '+' {
        TokenKind::Plus
    } else if c == '-' {
        TokenKind::Minus
    } else if c == '*' {
        TokenKind::Multiply
    } else if c == '/' {
        TokenKind::Divide
    } else if c == '=' {
        TokenKind::Equals
    } else if c == '{' {
        TokenKind::LeftBrace
    } else if c == '}' {
        TokenKind::RightBrace
    } else {
        TokenKind::Error
    }
}

/// Characters that start a word.
pub open spec fn is_word_start(c: char) -> bool {
    is_alphabetic(c) || c == '_' || c == '$'
}

/// The reserved words.
pub open spec fn is_keyword(word: Seq<char>) -> bool {
    word == "var"@ || word == "object"@
}

/// Whether values of this category carry their text.
pub open spec fn carries_text(kind: TokenKind) -> bool {
    kind == TokenKind::Number || kind == TokenKind::Keyword || kind == TokenKind::Identifier
}

/// One scanning step from cursor `p`: the category and the span
/// `[start, end)`; `end` is where the cursor goes next.
pub open spec fn word_scan(s: Seq<char>, p: int) -> (TokenKind, int, int) {
    let j = run_end(s, p, CharClass::Blank);
    if !(0 <= j < s.len()) {
        (TokenKind::EOF, j, j)
    } else if operator_kind(s[j]) != TokenKind::Error {
        (operator_kind(s[j]), j, j + 1)
    } else if is_word_start(s[j]) {
        let e = run_end(s, j, CharClass::Word);
        (
            if is_keyword(s.subrange(j, e)) {
                TokenKind::Keyword
            } else {
                TokenKind::Identifier
            },
            j,
            e,
        )
    } else if is_digit(s[j]) {
        (TokenKind::Number, j, run_end(s, j, CharClass::Digit))
    } else {
        (TokenKind::Error, j, j + 1)
    }
}

/// The token that a scanning step yields, with the byte offset of its
/// start.
pub open spec fn word_token(s: Seq<char>, p: int) -> (TokenKind, Seq<char>, int) {
    let (kind, start, end) = word_scan(s, p);
    (
        kind,
        if carries_text(kind) {
            s.subrange(start, end)
        } else {
            Seq::empty()
        },
        byte_offset(s, start),
    )
}

/// The tokens that iteration yields from cursor `p`: up to end-of-file,
/// which is not included, or up to and including the first illegal one.
pub open spec fn word_tokens_from(s: Seq<char>, p: int) -> Seq<(TokenKind, Seq<char>, int)>
    decreases s.len() - p,
{
    let (kind, start, end) = word_scan(s, p);
    if kind == TokenKind::EOF {
        Seq::empty()
    } else if kind == TokenKind::Error || !(0 <= p < end <= s.len()) {
        seq![word_token(s, p)]
    } else {
        seq![word_token(s, p)] + word_tokens_from(s, end)
    }
}

pub proof fn lemma_word_scan(s: Seq<char>, p: int)
    requires
        0 <= p <= s.len(),
    ensures
        p <= word_scan(s, p).1 <= word_scan(s, p).2 <= s.len(),
        word_scan(s, p).0 == TokenKind::EOF <==> word_scan(s, p).1 == s.len(),
        word_scan(s, p).0 != TokenKind::EOF ==> word_scan(s, p).1 < word_scan(s, p).2,
{
    lemma_run_end(s, p, CharClass::Blank);
    let j = run_end(s, p, CharClass::Blank);
    if j < s.len() {
        lemma_run_end(s, j, CharClass::Word);
        lemma_run_end(s, j, CharClass::Digit);
        assert(is_word_start(s[j]) ==> in_class(s[j], CharClass::Word));
    }
}

/// A token's position is where its text starts in the source's bytes: the
/// UTF-8 bytes from `pos` on spell the token's text.
pub proof fn lemma_token_text_at_pos(s: Seq<char>, p: int)
    requires
        0 <= p <= s.len(),
        carries_text(word_scan(s, p).0),
    ensures
        ({
            let (kind, text, pos) = word_token(s, p);
            vstd::utf8::encode_utf8(s).subrange(pos, pos + vstd::utf8::encode_utf8(text).len())
                == vstd::utf8::encode_utf8(text)
        }),
{
    lemma_word_scan(s, p);
    let (kind, start, end) = word_scan(s, p);
    lemma_encoding_slice(s, start, end);
    lemma_byte_offset_grows(s, start, end);
    lemma_byte_offset_grows(s, end, s.len() as int);
    lemma_byte_len_encoding(s);
}

/// Scans source text into tokens whose text borrows from it.
pub struct Lexer<'source> {
    input: &'source str,
    chars: Vec<char>,
    c: char,
    ci: usize,
    bi: usize,
    error: bool,
}

impl<'source> Lexer<'source> {
    /// The source text.
    pub closed spec fn source(&self) -> Seq<char> {
        self.input@
    }

    /// The index (in characters) of the character under scan.
    pub closed spec fn cursor(&self) -> int {
        self.ci as int
    }

    /// Whether an illegal character has been scanned.
    pub closed spec fn failed(&self) -> bool {
        self.error
    }

    pub closed spec fn wf(&self) -> bool {
        &&& self.chars@ == self.input@
        &&& self.ci <= self.chars@.len()
        &&& self.bi == byte_offset(self.chars@, self.ci as int)
        &&& byte_len(self.chars@) <= usize::MAX
        &&& self.c == if self.ci < self.chars@.len() {
            self.chars@[self.ci as int]
        } else {
            '\0'
        }
    }

    /// A lexer at the start of `input`, whose byte length must fit in a
    /// `usize`.
    pub fn new(input: &'source str) -> (r: Self)
        requires
            byte_len(input@) <= usize::MAX,
        ensures
            r.wf(),
            r.source() == input@,
            r.cursor() == 0,
            !r.failed(),
    {
        let mut lex = Lexer { input, chars: chars_of(input), c: '\0', ci: 0, bi: 0, error: false };
        if lex.chars.len() > 0 {
            lex.c = lex.chars[0];
        }
        lex
    }

    /// Scans the next token; at the end of the input, an end-of-file token
    /// every time. An illegal character gives an error token and is
    /// stepped over.
    pub fn next_token(&mut self) -> (t: Token<'source>)
        requires
            old(self).wf(),
        ensures
            final(self).wf(),
            final(self).source() == old(self).source(),
            t@ == word_token(old(self).source(), old(self).cursor()),
            final(self).cursor() == word_scan(old(self).source(), old(self).cursor()).2,
            final(self).failed() == (old(self).failed() || word_scan(
                old(self).source(),
                old(self).cursor(),
            ).0 == TokenKind::Error),
    {
        self.skip_nontokens();
        if self.is_at_end() {
            return Token { value: TokenValue::EOF, pos: self.bi };
        }
        let token_value = match self.c {
            '+' => TokenValue::Plus,
            '-' => TokenValue::Minus,
            '*' => TokenValue::Multiply,
            '/' => TokenValue::Divide,
            '=' => TokenValue::Equals,
            '{' => TokenValue::LeftBrace,
            '}' => TokenValue::RightBrace,
            _ => TokenValue::Error,
        };
        if !matches!(token_value, TokenValue::Error) {
            let token = Token { value: token_value, pos: self.bi };
            self.scan_char();
            token
        } else if char_is_alphabetic(self.c) || self.c == '_' || self.c == '$' {
            self.scan_identifier()
        } else if '0' <= self.c && self.c <= '9' {
            self.scan_number()
        } else {
            self.error_token()
        }
    }

    fn is_word_char(c: char) -> (r: bool)
        ensures
            r == in_class(c, CharClass::Word),
    {
        char_is_alphabetic(c) || char_is_numeric(c) || c == '_' || c == '$'
    }

    fn scan_identifier(&mut self) -> (t: Token<'source>)
        requires
            old(self).wf(),
            old(self).cursor() < old(self).source().len(),
            is_word_start(old(self).source()[old(self).cursor()]),
        ensures
            final(self).wf(),
            final(self).source() == old(self).source(),
            final(self).failed() == old(self).failed(),
            final(self).cursor() == run_end(old(self).source(), old(self).cursor(), CharClass::Word),
            ({
                let text = old(self).source().subrange(old(self).cursor(), final(self).cursor());
                t@ == (
                    if is_keyword(text) {
                        TokenKind::Keyword
                    } else {
                        TokenKind::Identifier
                    },
                    text,
                    byte_offset(old(self).source(), old(self).cursor()),
                )
            }),
    {
        let startpos = self.ci;
        let startbyte = self.bi;
        while Self::is_word_char(self.c)
            invariant
                self.wf(),
                self.input == old(self).input,
                self.error == old(self).error,
                startpos == old(self).cursor(),
                startpos <= self.ci,
                startbyte == byte_offset(self.chars@, startpos as int),
                run_end(self.source(), self.cursor(), CharClass::Word) == run_end(
                    self.source(),
                    startpos as int,
                    CharClass::Word,
                ),
            decreases self.chars@.len() - self.ci,
        {
            self.scan_char();
        }
        let token_text = self.input.substring_char(startpos, self.ci);
        let value = if Self::is_keyword(token_text) {
            TokenValue::Keyword(token_text)
        } else {
            TokenValue::Identifier(token_text)
        };
        Token { value, pos: startbyte }
    }

    fn is_keyword(word: &str) -> (r: bool)
        ensures
            r == is_keyword(word@),
    {
        crate::token::same_text(word, "var") || crate::token::same_text(word, "object")
    }

    fn scan_number(&mut self) -> (t: Token<'source>)
        requires
            old(self).wf(),
        ensures
            final(self).wf(),
            final(self).source() == old(self).source(),
            final(self).failed() == old(self).failed(),
            final(self).cursor() == run_end(old(self).source(), old(self).cursor(), CharClass::Digit),
            t@ == (
                TokenKind::Number,
                old(self).source().subrange(old(self).cursor(), final(self).cursor()),
                byte_offset(old(self).source(), old(self).cursor()),
            ),
    {
        let startpos = self.ci;
        let startbyte = self.bi;
        while '0' <= self.c && self.c <= '9'
            invariant
                self.wf(),
                self.input == old(self).input,
                self.error == old(self).error,
                startpos == old(self).cursor(),
                startpos <= self.ci,
                startbyte == byte_offset(self.chars@, startpos as int),
                run_end(self.source(), self.cursor(), CharClass::Digit) == run_end(
                    self.source(),
                    startpos as int,
                    CharClass::Digit,
                ),
            decreases self.chars@.len() - self.ci,
        {
            self.scan_char();
        }
        Token {
            value: TokenValue::Number(self.input.substring_char(startpos, self.ci)),
            pos: startbyte,
        }
    }

    /// Flags the illegal character under the cursor and steps over it.
    fn error_token(&mut self) -> (t: Token<'source>)
        requires
            old(self).wf(),
            old(self).cursor() < old(self).source().len(),
        ensures
            final(self).wf(),
            final(self).source() == old(self).source(),
            final(self).failed(),
            final(self).cursor() == old(self).cursor() + 1,
            t@ == (
                TokenKind::Error,
                Seq::<char>::empty(),
                byte_offset(old(self).source(), old(self).cursor()),
            ),
    {
        self.error = true;
        let token = Token { value: TokenValue::Error, pos: self.bi };
        self.scan_char();
        token
    }

    fn is_at_end(&self) -> (r: bool)
        requires
            self.wf(),
        ensures
            r == (self.cursor() >= self.source().len()),
    {
        self.ci >= self.chars.len()
    }

    fn skip_nontokens(&mut self)
        requires
            old(self).wf(),
        ensures
            final(self).wf(),
            final(self).source() == old(self).source(),
            final(self).failed() == old(self).failed(),
            final(self).cursor() == run_end(old(self).source(), old(self).cursor(), CharClass::Blank),
    {
        while self.c == ' ' || self.c == '\t' || self.c == '\r' || self.c == '\n'
            invariant
                self.wf(),
                self.input == old(self).input,
                self.error == old(self).error,
                run_end(self.source(), self.cursor(), CharClass::Blank) == run_end(
                    old(self).source(),
                    old(self).cursor(),
                    CharClass::Blank,
                ),
            decreases self.chars@.len() - self.ci,
        {
            self.scan_char();
        }
    }

    /// Moves the cursor one character on.
    fn scan_char(&mut self)
        requires
            old(self).wf(),
            old(self).cursor() < old(self).source().len(),
        ensures
            final(self).wf(),
            final(self).input == old(self).input,
            final(self).error == old(self).error,
            final(self).cursor() == old(self).cursor() + 1,
    {
        let n = self.chars.len();
        proof {
            lemma_byte_offset_grows(self.chars@, self.ci + 1, n as int);
        }
        self.bi = self.bi + utf8_width(self.c);
        self.ci = self.ci + 1;
        self.c = if self.ci < n {
            self.chars[self.ci]
        } else {
            '\0'
        };
    }

    /// The next token, as iteration yields them: nothing at the end of the
    /// input, and nothing more once an illegal character was returned.
    pub fn next(&mut self) -> (r: Option<Token<'source>>)
        requires
            old(self).wf(),
        ensures
            final(self).wf(),
            final(self).source() == old(self).source(),
            old(self).failed() ==> r is None && *final(self) == *old(self),
            !old(self).failed() ==> {
                let (kind, start, end) = word_scan(old(self).source(), old(self).cursor());
                &&& final(self).cursor() == end
                &&& final(self).failed() == (kind == TokenKind::Error)
                &&& kind == TokenKind::EOF ==> r is None
                &&& kind != TokenKind::EOF ==> r is Some && r->0@ == word_token(
                    old(self).source(),
                    old(self).cursor(),
                )
            },
    {
        if self.error {
            return None;
        }
        let tok = self.next_token();
        if matches!(tok.value, TokenValue::EOF) {
            None
        } else {
            Some(tok)
        }
    }
}

/// All tokens of a text, as iteration yields them.
pub fn tokenize_all_collect<'source>(data: &'source str) -> (r: Vec<Token<'source>>)
    requires
        byte_len(data@) <= usize::MAX,
    ensures
        r@.map_values(|t: Token<'source>| t@) == word_tokens_from(data@, 0),
{
    let mut lex = Lexer::new(data);
    let mut out: Vec<Token<'source>> = Vec::new();
    assert(out@.map_values(|t: Token<'source>| t@) + word_tokens_from(data@, 0) =~= word_tokens_from(
        data@,
        0,
    ));
    loop
        invariant
            lex.wf(),
            lex.source() == data@,
            0 <= lex.cursor() <= data@.len(),
            !lex.failed() ==> out@.map_values(|t: Token<'source>| t@) + word_tokens_from(
                data@,
                lex.cursor(),
            ) == word_tokens_from(data@, 0),
            lex.failed() ==> out@.map_values(|t: Token<'source>| t@) == word_tokens_from(data@, 0),
        decreases data@.len() - lex.cursor(), if lex.failed() {
            0int
        } else {
            1int
        },
    {
        let ghost p = lex.cursor();
        let ghost was_failed = lex.failed();
        proof {
            lemma_word_scan(data@, p);
        }
        match lex.next() {
            Some(t) => {
                let ghost prev = out@;
                out.push(t);
                proof {
                    assert(out@.map_values(|t: Token<'source>| t@) =~= prev.map_values(
                        |t: Token<'source>| t@,
                    ).push(t@));
                    let (kind, start, end) = word_scan(data@, p);
                    if kind == TokenKind::Error {
                        assert(word_tokens_from(data@, p) == seq![word_token(data@, p)]);
                        assert(prev.map_values(|t: Token<'source>| t@).push(t@) =~= prev.map_values(
                            |t: Token<'source>| t@,
                        ) + seq![word_token(data@, p)]);
                    } else {
                        assert(prev.map_values(|t: Token<'source>| t@).push(t@) + word_tokens_from(
                            data@,
                            end,
                        ) =~= prev.map_values(|t: Token<'source>| t@) + (seq![word_token(data@, p)]
                            + word_tokens_from(data@, end)));
                    }
                }
            },
            None => {
                proof {
                    if !was_failed {
                        assert(out@.map_values(|t: Token<'source>| t@) + Seq::empty() =~= out@.map_values(
                            |t: Token<'source>| t@,
                        ));
                    }
                }
                return out;
            },
        }
    }
}

} // verus!

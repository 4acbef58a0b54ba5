//! The lexer: a single-pass scanner that hands out one token per call.
use vstd::prelude::*;
use crate::text::{
    CharClass, char_is_alphabetic, chars_of, char_string, push_char, in_class, is_blank, is_digit,
    is_letter, lemma_run_end, run_end,
};
use crate::token::{Token, TokenKind, TokenView, keyword_kind, lookup_ident, eof_token};

verus! {

/// The kind of a one-character operator or punctuation token; `Error`
/// for any other character.
pub open spec fn single_kind(c: char) -> TokenKind {
    if c == '+' {
        TokenKind::Plus
    } else if c == '-' {
        TokenKind::Minus
    } else if c == '*' {
        TokenKind::Multiply
    } else if c == '/' {
        TokenKind::Divide
    } else if c == '=' {
        TokenKind::Assign
    } else if c == ':' {
        TokenKind::Colon
    } else if c == ';' {
        TokenKind::SemiColon
    } else if c == ',' {
        TokenKind::Comma
    } else if c == '(' {
        TokenKind::LeftParen
    } else if c == ')' {
        TokenKind::RightParen
    } else if c == '[' {
        TokenKind::LeftBracket
    } else if c == ']' {
        TokenKind::RightBracket
    } else if c == '{' {
        TokenKind::LeftBrace
    } else if c == '}' {
        TokenKind::RightBrace
    } else if c == '!' {
        TokenKind::Bang
    } else if c == '#' {
        TokenKind::Slash
    } else if c == '>' {
        TokenKind::GreaterThan
    } else if c == '<' {
        TokenKind::LessThan
    } else {
        TokenKind::Error
    }
}

/// One scanning step from cursor `p`: the token's kind and the span
/// `[start, end)` of its lexeme; `end` is where the cursor goes next.
pub struct Scan {
    pub kind: TokenKind,
    pub start: int,
    pub end: int,
}

pub open spec fn scan(s: Seq<char>, p: int) -> Scan {
    let j = run_end(s, p, CharClass::Blank);
    if !(0 <= j < s.len()) {
        Scan { kind: TokenKind::EOF, start: j, end: j }
    } else if single_kind(s[j]) != TokenKind::Error {
        Scan { kind: single_kind(s[j]), start: j, end: j + 1 }
    } else if is_letter(s[j]) {
        let e = run_end(s, j, CharClass::Letter);
        Scan { kind: keyword_kind(s.subrange(j, e)), start: j, end: e }
    } else if is_digit(s[j]) {
        Scan { kind: TokenKind::Number, start: j, end: run_end(s, j, CharClass::Digit) }
    } else {
        Scan { kind: TokenKind::Error, start: j, end: j + 1 }
    }
}

/// The token that a scanning step yields.
pub open spec fn scan_token(s: Seq<char>, p: int) -> TokenView {
    let sc = scan(s, p);
    TokenView { kind: sc.kind, literal: s.subrange(sc.start, sc.end) }
}

/// The tokens scanned from cursor `p` on, up to and including the first
/// end-of-file token.
pub open spec fn tokens_from(s: Seq<char>, p: int) -> Seq<TokenView>
    decreases s.len() - p,
{
    let sc = scan(s, p);
    if sc.kind != TokenKind::EOF && 0 <= p < sc.end <= s.len() {
        seq![scan_token(s, p)] + tokens_from(s, sc.end)
    } else {
        seq![scan_token(s, p)]
    }
}

/// The token sequence of a whole source text.
pub open spec fn lex(s: Seq<char>) -> Seq<TokenView> {
    tokens_from(s, 0)
}

/// A token stream as the lexer yields it: one end-of-file token, last.
pub open spec fn is_stream(toks: Seq<TokenView>) -> bool {
    &&& toks.len() > 0
    &&& toks.last() == eof_token()
    &&& forall|i: int| 0 <= i < toks.len() - 1 ==> (#[trigger] toks[i]).kind != TokenKind::EOF
}

/// A scanning step from a cursor inside the text stays inside it, and
/// moves on unless it reports the end.
pub proof fn lemma_scan(s: Seq<char>, p: int)
    requires
        0 <= p <= s.len(),
    ensures
        p <= scan(s, p).start <= scan(s, p).end <= s.len(),
        scan(s, p).kind == TokenKind::EOF <==> scan(s, p).start == s.len(),
        scan(s, p).kind == TokenKind::EOF ==> scan(s, p).end == s.len()
            && scan_token(s, p) == eof_token(),
        scan(s, p).kind != TokenKind::EOF ==> scan(s, p).start < scan(s, p).end,
{
    lemma_run_end(s, p, CharClass::Blank);
    let j = run_end(s, p, CharClass::Blank);
    if j < s.len() {
        lemma_run_end(s, j, CharClass::Letter);
        lemma_run_end(s, j, CharClass::Digit);
    } else {
        assert(s.subrange(j, j) =~= Seq::<char>::empty());
    }
}

/// Once the lexer has reported the end of the input it stays there and
/// reports it again on every later call.
pub proof fn lemma_eof_forever(s: Seq<char>, p: int)
    requires
        0 <= p <= s.len(),
        scan(s, p).kind == TokenKind::EOF,
    ensures
        scan(s, scan(s, p).end) == scan(s, p),
        scan_token(s, scan(s, p).end) == eof_token(),
{
    lemma_scan(s, p);
    lemma_scan(s, s.len() as int);
}

/// What the lexer yields from any cursor is a token stream.
pub proof fn lemma_tokens_stream(s: Seq<char>, p: int)
    requires
        0 <= p <= s.len(),
    ensures
        is_stream(tokens_from(s, p)),
    decreases s.len() - p,
{
    lemma_scan(s, p);
    let sc = scan(s, p);
    if sc.kind != TokenKind::EOF {
        lemma_tokens_stream(s, sc.end);
        let rest = tokens_from(s, sc.end);
        let all = tokens_from(s, p);
        assert(all == seq![scan_token(s, p)] + rest);
        assert forall|i: int| 0 <= i < all.len() - 1 implies (#[trigger] all[i]).kind
            != TokenKind::EOF by {
            if i > 0 {
                assert(all[i] == rest[i - 1]);
            }
        }
    }
}

/// The tokens of a text made only of one-character operators and
/// punctuation: one per character.
pub open spec fn single_tokens(s: Seq<char>) -> Seq<TokenView> {
    s.map_values(|c: char| TokenView { kind: single_kind(c), literal: seq![c] })
}

proof fn lemma_single_chars_from(s: Seq<char>, p: int)
    requires
        0 <= p <= s.len(),
        forall|i: int| 0 <= i < s.len() ==> single_kind(#[trigger] s[i]) != TokenKind::Error,
    ensures
        tokens_from(s, p) == single_tokens(s.subrange(p, s.len() as int)) + seq![eof_token()],
    decreases s.len() - p,
{
    lemma_scan(s, p);
    if p < s.len() {
        assert(single_kind(s[p]) != TokenKind::Error);
        assert(run_end(s, p, CharClass::Blank) == p);
        assert(s.subrange(p, p + 1) =~= seq![s[p]]);
        lemma_single_chars_from(s, p + 1);
        assert(single_tokens(s.subrange(p, s.len() as int)) =~= seq![scan_token(s, p)]
            + single_tokens(s.subrange(p + 1, s.len() as int)));
    } else {
        assert(single_tokens(s.subrange(p, s.len() as int)) =~= Seq::<TokenView>::empty());
    }
}

/// A text made only of one-character operators and punctuation lexes to
/// one token per character, left to right, each with that character as its
/// lexeme, and then end-of-file: nothing is skipped or merged.
pub proof fn lemma_single_char_tokens(s: Seq<char>)
    requires
        forall|i: int| 0 <= i < s.len() ==> single_kind(#[trigger] s[i]) != TokenKind::Error,
    ensures
        lex(s) == single_tokens(s) + seq![eof_token()],
{
    lemma_single_chars_from(s, 0);
    assert(s.subrange(0, s.len() as int) =~= s);
}

/// Whether index `i` of `s` lies between two tokens: not inside a run of
/// letters or a run of digits.
pub open spec fn is_boundary(s: Seq<char>, i: int) -> bool {
    &&& 0 <= i <= s.len()
    &&& !(0 < i < s.len() && ((is_letter(s[i - 1]) && is_letter(s[i])) || (is_digit(s[i - 1])
        && is_digit(s[i]))))
}

/// `s` with `w` inserted at index `i`.
pub open spec fn insert_at(s: Seq<char>, i: int, w: Seq<char>) -> Seq<char> {
    s.take(i) + w + s.skip(i)
}

proof fn lemma_run_end_skip(t: Seq<char>, p: int, m: int, class: CharClass)
    requires
        0 <= p <= m <= t.len(),
        forall|q: int| p <= q < m ==> in_class(#[trigger] t[q], class),
    ensures
        run_end(t, p, class) == run_end(t, m, class),
    decreases m - p,
{
    if p < m {
        lemma_run_end_skip(t, p + 1, m, class);
    }
}

proof fn lemma_run_end_shift(s: Seq<char>, t: Seq<char>, d: int, q: int, class: CharClass)
    requires
        0 <= d,
        0 <= q <= s.len(),
        t.len() == s.len() + d,
        forall|r: int| q <= r < s.len() ==> t[r + d] == #[trigger] s[r],
    ensures
        run_end(t, q + d, class) == run_end(s, q, class) + d,
    decreases s.len() - q,
{
    if q < s.len() {
        assert(t[q + d] == s[q]);
        lemma_run_end_shift(s, t, d, q + 1, class);
    }
}

proof fn lemma_scan_shift(s: Seq<char>, t: Seq<char>, d: int, q: int)
    requires
        0 <= d,
        0 <= q <= s.len(),
        t.len() == s.len() + d,
        forall|r: int| q <= r < s.len() ==> t[r + d] == #[trigger] s[r],
    ensures
        scan(t, q + d) == (Scan {
            kind: scan(s, q).kind,
            start: scan(s, q).start + d,
            end: scan(s, q).end + d,
        }),
        scan_token(t, q + d) == scan_token(s, q),
{
    lemma_run_end_shift(s, t, d, q, CharClass::Blank);
    lemma_scan(s, q);
    let j = run_end(s, q, CharClass::Blank);
    lemma_run_end(s, q, CharClass::Blank);
    if j < s.len() {
        assert(t[j + d] == s[j]);
        lemma_run_end_shift(s, t, d, j, CharClass::Letter);
        lemma_run_end_shift(s, t, d, j, CharClass::Digit);
        lemma_run_end(s, j, CharClass::Letter);
        lemma_run_end(s, j, CharClass::Digit);
    }
    let sc = scan(s, q);
    assert(t.subrange(sc.start + d, sc.end + d) =~= s.subrange(sc.start, sc.end));
}

/// Lexing depends only on the text from the cursor on.
proof fn lemma_tokens_shift(s: Seq<char>, t: Seq<char>, d: int, q: int)
    requires
        0 <= d,
        0 <= q <= s.len(),
        t.len() == s.len() + d,
        forall|r: int| q <= r < s.len() ==> t[r + d] == #[trigger] s[r],
    ensures
        tokens_from(t, q + d) == tokens_from(s, q),
    decreases s.len() - q,
{
    lemma_scan_shift(s, t, d, q);
    lemma_scan(s, q);
    let sc = scan(s, q);
    if sc.kind != TokenKind::EOF {
        lemma_tokens_shift(s, t, d, sc.end);
    }
}

/// Cursors that skip to the same place lex alike.
proof fn lemma_same_start(s: Seq<char>, p: int, q: int)
    requires
        0 <= p <= s.len(),
        0 <= q <= s.len(),
        run_end(s, p, CharClass::Blank) == run_end(s, q, CharClass::Blank),
    ensures
        tokens_from(s, p) == tokens_from(s, q),
{
    lemma_scan(s, p);
    lemma_scan(s, q);
}

proof fn lemma_insert_blank(s: Seq<char>, i: int, c: char, p: int)
    requires
        is_boundary(s, i),
        is_blank(c),
        0 <= p <= i,
    ensures
        tokens_from(insert_at(s, i, seq![c]), p) == tokens_from(s, p),
    decreases s.len() - p,
{
    let t = insert_at(s, i, seq![c]);
    assert(t.len() == s.len() + 1);
    assert forall|q: int| 0 <= q < i implies #[trigger] t[q] == s[q] by {}
    assert(t[i] == c);
    assert forall|q: int| i <= q < s.len() implies t[q + 1] == #[trigger] s[q] by {}
    lemma_run_end(s, p, CharClass::Blank);
    let j = run_end(s, p, CharClass::Blank);
    if j >= i {
        assert forall|q: int| p <= q < i + 1 implies in_class(#[trigger] t[q], CharClass::Blank) by {
            if q < i {
                assert(t[q] == s[q]);
            }
        }
        lemma_run_end_skip(t, p, i + 1, CharClass::Blank);
        lemma_run_end_skip(s, p, i, CharClass::Blank);
        lemma_run_end_shift(s, t, 1, i, CharClass::Blank);
        lemma_run_end(s, i, CharClass::Blank);
        lemma_same_start(t, p, i + 1);
        lemma_tokens_shift(s, t, 1, i);
        lemma_same_start(s, p, i);
    } else {
        assert forall|q: int| p <= q < j implies in_class(#[trigger] t[q], CharClass::Blank) by {
            assert(t[q] == s[q]);
        }
        lemma_run_end_skip(t, p, j, CharClass::Blank);
        assert(t[j] == s[j]);
        assert(run_end(t, j, CharClass::Blank) == j);
        let ch = s[j];
        if single_kind(ch) == TokenKind::Error && (is_letter(ch) || is_digit(ch)) {
            let class = if is_letter(ch) {
                CharClass::Letter
            } else {
                CharClass::Digit
            };
            lemma_run_end(s, j, class);
            let e = run_end(s, j, class);
            if e > i {
                assert(in_class(s[i - 1], class) && in_class(s[i], class));
            }
            assert forall|q: int| j <= q < e implies in_class(#[trigger] t[q], class) by {
                assert(t[q] == s[q]);
            }
            lemma_run_end_skip(t, j, e, class);
            if e < i {
                assert(t[e] == s[e]);
            }
            assert(run_end(t, e, class) == e);
            assert(t.subrange(j, e) =~= s.subrange(j, e));
        } else {
            assert(t.subrange(j, j + 1) =~= s.subrange(j, j + 1));
        }
        lemma_scan(s, p);
        lemma_scan(t, p);
        assert(scan(t, p) == scan(s, p));
        assert(scan_token(t, p) == scan_token(s, p));
        lemma_insert_blank(s, i, c, scan(s, p).end);
    }
}

/// Inserting a run of spaces, tabs and line breaks between two tokens
/// leaves the token sequence as it was; only positions shift.
pub proof fn lemma_whitespace_invariance(s: Seq<char>, i: int, w: Seq<char>)
    requires
        is_boundary(s, i),
        forall|j: int| 0 <= j < w.len() ==> is_blank(#[trigger] w[j]),
    ensures
        lex(insert_at(s, i, w)) == lex(s),
    decreases w.len(),
{
    if w.len() == 0 {
        assert(insert_at(s, i, w) =~= s);
    } else {
        let s1 = insert_at(s, i, seq![w[0]]);
        assert(is_blank(w[0]));
        lemma_insert_blank(s, i, w[0], 0);
        let rest = w.drop_first();
        assert forall|j: int| 0 <= j < rest.len() implies is_blank(#[trigger] rest[j]) by {
            assert(rest[j] == w[j + 1]);
        }
        assert(s1[i] == w[0]);
        lemma_whitespace_invariance(s1, i + 1, rest);
        assert(insert_at(s1, i + 1, rest) =~= insert_at(s, i, w));
    }
}

/// Scans source text into tokens, one per call of `next_token`.
pub struct Lexer {
    input: Vec<char>,
    position: usize,
    ch: char,
}

/// The character at `i`, or the sentinel `'\0'` past the end.
pub open spec fn char_at(s: Seq<char>, i: int) -> char {
    if 0 <= i < s.len() {
        s[i]
    } else {
        '\0'
    }
}

impl Lexer {
    /// The source text.
    pub closed spec fn source(&self) -> Seq<char> {
        self.input@
    }

    /// The read cursor: the index of the character under scan.
    pub closed spec fn cursor(&self) -> int {
        self.position as int
    }

    pub closed spec fn wf(&self) -> bool {
        &&& self.position <= self.input@.len()
        &&& self.ch == char_at(self.input@, self.position as int)
    }

    pub proof fn lemma_wf(&self)
        requires
            self.wf(),
        ensures
            0 <= self.cursor() <= self.source().len(),
    {
    }

    pub fn new(input: &str) -> (r: Lexer)
        ensures
            r.wf(),
            r.source() == input@,
            r.cursor() == 0,
    {
        let mut lex = Lexer { input: chars_of(input), position: 0, ch: '\0' };
        if lex.input.len() > 0 {
            lex.ch = lex.input[0];
        }
        lex
    }

    /// Moves the cursor one character on.
    fn read_char(&mut self)
        requires
            old(self).wf(),
            old(self).cursor() < old(self).source().len(),
        ensures
            final(self).wf(),
            final(self).source() == old(self).source(),
            final(self).cursor() == old(self).cursor() + 1,
    {
        let n = self.input.len();
        self.position = self.position + 1;
        self.ch = if self.position >= n {
            '\0'
        } else {
            self.input[self.position]
        };
    }

    /// Scans the next token. At the end of the input it returns an
    /// end-of-file token, and keeps doing so on every later call.
    pub fn next_token(&mut self) -> (t: Token)
        requires
            old(self).wf(),
        ensures
            final(self).wf(),
            final(self).source() == old(self).source(),
            t@ == scan_token(old(self).source(), old(self).cursor()),
            t.position == scan(old(self).source(), old(self).cursor()).start,
            final(self).cursor() == scan(old(self).source(), old(self).cursor()).end,
    {
        self.skip_whitespaces();
        if self.position >= self.input.len() {
            proof {
                let p = self.cursor();
                assert(self.source().subrange(p, p) =~= Seq::<char>::empty());
            }
            return Token { kind: TokenKind::EOF, literal: String::new(), position: self.position };
        }
        let start = self.position;
        let ch = self.ch;
        let kind = Lexer::match_token_kind(ch);
        if kind != TokenKind::Error {
            let t = Lexer::new_token(kind, ch, start);
            self.read_char();
            proof {
                assert(self.input@.subrange(start as int, start + 1) =~= seq![ch]);
            }
            t
        } else if Lexer::is_letter(ch) {
            let literal = self.read_identifier();
            let kind = lookup_ident(literal.as_str());
            Token { kind, literal, position: start }
        } else if Lexer::is_digit(ch) {
            let literal = self.read_number();
            Token { kind: TokenKind::Number, literal, position: start }
        } else {
            let t = Lexer::new_token(TokenKind::Error, ch, start);
            self.read_char();
            proof {
                assert(self.input@.subrange(start as int, start + 1) =~= seq![ch]);
            }
            t
        }
    }

    /// The kind of a one-character token.
    fn match_token_kind(ch: char) -> (r: TokenKind)
        ensures
            r == single_kind(ch),
    {
        match ch {
            '+' => TokenKind::Plus,
            '-' => TokenKind::Minus,
            '*' => TokenKind::Multiply,
            '/' => TokenKind::Divide,
            '=' => TokenKind::Assign,
            ':' => TokenKind::Colon,
            ';' => TokenKind::SemiColon,
            ',' => TokenKind::Comma,
            '(' => TokenKind::LeftParen,
            ')' => TokenKind::RightParen,
            '[' => TokenKind::LeftBracket,
            ']' => TokenKind::RightBracket,
            '{' => TokenKind::LeftBrace,
            '}' => TokenKind::RightBrace,
            '!' => TokenKind::Bang,
            '#' => TokenKind::Slash,
            '>' => TokenKind::GreaterThan,
            '<' => TokenKind::LessThan,
            _ => TokenKind::Error,
        }
    }

    fn is_letter(ch: char) -> (r: bool)
        ensures
            r == is_letter(ch),
    {
        char_is_alphabetic(ch) || ch == '_'
    }

    fn is_digit(ch: char) -> (r: bool)
        ensures
            r == is_digit(ch),
    {
        '0' <= ch && ch <= '9'
    }

    fn skip_whitespaces(&mut self)
        requires
            old(self).wf(),
        ensures
            final(self).wf(),
            final(self).source() == old(self).source(),
            final(self).cursor() == run_end(old(self).source(), old(self).cursor(), CharClass::Blank),
    {
        while self.ch == ' ' || self.ch == '\t' || self.ch == '\r' || self.ch == '\n'
            invariant
                self.wf(),
                self.source() == old(self).source(),
                run_end(self.source(), self.cursor(), CharClass::Blank)
                    == run_end(old(self).source(), old(self).cursor(), CharClass::Blank),
            decreases self.source().len() - self.cursor(),
        {
            self.read_char();
        }
    }

    fn new_token(kind: TokenKind, ch: char, position: usize) -> (t: Token)
        ensures
            t.kind == kind,
            t.literal@ == seq![ch],
            t.position == position,
    {
        Token { kind, literal: char_string(ch), position }
    }

    /// Consumes a run of letters and returns it.
    fn read_identifier(&mut self) -> (r: String)
        requires
            old(self).wf(),
        ensures
            final(self).wf(),
            final(self).source() == old(self).source(),
            final(self).cursor() == run_end(old(self).source(), old(self).cursor(), CharClass::Letter),
            r@ == old(self).source().subrange(old(self).cursor(), final(self).cursor()),
    {
        let mut identifier = String::new();
        while Lexer::is_letter(self.ch)
            invariant
                self.wf(),
                self.source() == old(self).source(),
                old(self).cursor() <= self.cursor(),
                run_end(self.source(), self.cursor(), CharClass::Letter)
                    == run_end(old(self).source(), old(self).cursor(), CharClass::Letter),
                identifier@ == self.source().subrange(old(self).cursor(), self.cursor()),
            decreases self.source().len() - self.cursor(),
        {
            push_char(&mut identifier, self.ch);
            proof {
                assert(self.source().subrange(old(self).cursor(), self.cursor() + 1)
                    =~= self.source().subrange(old(self).cursor(), self.cursor()).push(self.ch));
            }
            self.read_char();
        }
        identifier
    }

    /// Consumes a run of decimal digits and returns it.
    fn read_number(&mut self) -> (r: String)
        requires
            old(self).wf(),
        ensures
            final(self).wf(),
            final(self).source() == old(self).source(),
            final(self).cursor() == run_end(old(self).source(), old(self).cursor(), CharClass::Digit),
            r@ == old(self).source().subrange(old(self).cursor(), final(self).cursor()),
    {
        let mut num = String::new();
        while Lexer::is_digit(self.ch)
            invariant
                self.wf(),
                self.source() == old(self).source(),
                old(self).cursor() <= self.cursor(),
                run_end(self.source(), self.cursor(), CharClass::Digit)
                    == run_end(old(self).source(), old(self).cursor(), CharClass::Digit),
                num@ == self.source().subrange(old(self).cursor(), self.cursor()),
            decreases self.source().len() - self.cursor(),
        {
            push_char(&mut num, self.ch);
            proof {
                assert(self.source().subrange(old(self).cursor(), self.cursor() + 1)
                    =~= self.source().subrange(old(self).cursor(), self.cursor()).push(self.ch));
            }
            self.read_char();
        }
        num
    }
}

} // verus!

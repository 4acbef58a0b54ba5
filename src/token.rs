//! Token kinds, tokens and keyword classification.
use vstd::prelude::*;

verus! {

/// The closed set of lexical categories.
#[derive(Debug, PartialEq, Eq, Structural, Clone, Copy, Hash)]
pub enum TokenKind {
    EOF,
    Error,
    Plus,
    Minus,
    Multiply,
    Divide,
    Assign,
    Equals,
    Colon,
    SemiColon,
    Comma,
    LeftParen,
    RightParen,
    LeftBracket,
    RightBracket,
    LeftBrace,
    RightBrace,
    Number,
    Keyword,
    Identifier,
    Function,
    Var,
    Const,
    Bang,
    Asterisk,
    Slash,
    GreaterThan,
    LessThan,
    True,
    False,
    If,
    Else,
    Return,
    Eq,
    NotEq,
}

impl Default for TokenKind {
    fn default() -> (r: TokenKind)
        ensures
            r == TokenKind::Error,
    {
        TokenKind::Error
    }
}

/// The human-readable symbol of each kind, as used in diagnostics.
pub open spec fn kind_symbol(kind: TokenKind) -> Seq<char> {
    match kind {
        TokenKind::EOF => "EOF"@,
        TokenKind::Error => "illegal"@,
        TokenKind::Plus => "+"@,
        TokenKind::Minus => "-"@,
        TokenKind::Multiply => "*"@,
        TokenKind::Divide => "/"@,
        TokenKind::Assign => "="@,
        TokenKind::Equals => "=="@,
        TokenKind::Colon => ":"@,
        TokenKind::SemiColon => ";"@,
        TokenKind::Comma => ","@,
        TokenKind::LeftParen => "("@,
        TokenKind::RightParen => ")"@,
        TokenKind::LeftBracket => "["@,
        TokenKind::RightBracket => "]"@,
        TokenKind::LeftBrace => "{"@,
        TokenKind::RightBrace => "}"@,
        TokenKind::Function => "function"@,
        TokenKind::Var => "var"@,
        TokenKind::Const => "const"@,
        TokenKind::Bang => "!"@,
        TokenKind::Slash => "#"@,
        TokenKind::GreaterThan => ">"@,
        TokenKind::LessThan => "<"@,
        TokenKind::True => "true"@,
        TokenKind::False => "false"@,
        TokenKind::If => "if"@,
        TokenKind::Else => "else"@,
        TokenKind::Return => "return"@,
        TokenKind::Eq => "=="@,
        TokenKind::NotEq => "!="@,
        _ => "other"@,
    }
}

impl TokenKind {
    /// The symbol that diagnostics print for this kind.
    pub fn symbol(&self) -> (r: &'static str)
        ensures
            r@ == kind_symbol(*self),
    {
        match self {
            TokenKind::EOF => "EOF",
            TokenKind::Error => "illegal",
            TokenKind::Plus => "+",
            TokenKind::Minus => "-",
            TokenKind::Multiply => "*",
            TokenKind::Divide => "/",
            TokenKind::Assign => "=",
            TokenKind::Equals => "==",
            TokenKind::Colon => ":",
            TokenKind::SemiColon => ";",
            TokenKind::Comma => ",",
            TokenKind::LeftParen => "(",
            TokenKind::RightParen => ")",
            TokenKind::LeftBracket => "[",
            TokenKind::RightBracket => "]",
            TokenKind::LeftBrace => "{",
            TokenKind::RightBrace => "}",
            TokenKind::Function => "function",
            TokenKind::Var => "var",
            TokenKind::Const => "const",
            TokenKind::Bang => "!",
            TokenKind::Slash => "#",
            TokenKind::GreaterThan => ">",
            TokenKind::LessThan => "<",
            TokenKind::True => "true",
            TokenKind::False => "false",
            TokenKind::If => "if",
            TokenKind::Else => "else",
            TokenKind::Return => "return",
            TokenKind::Eq => "==",
            TokenKind::NotEq => "!=",
            _ => "other",
        }
    }
}

/// What identifies a token: its kind and its lexeme.
pub struct TokenView {
    pub kind: TokenKind,
    pub literal: Seq<char>,
}

/// The end-of-file token.
pub open spec fn eof_token() -> TokenView {
    TokenView { kind: TokenKind::EOF, literal: Seq::empty() }
}

/// A lexical unit: its kind, the text it was scanned from, and the
/// offset (in characters) of its first character in the source.
#[derive(Debug, Clone)]
pub struct Token {
    pub kind: TokenKind,
    pub literal: String,
    pub position: usize,
}

impl View for Token {
    type V = TokenView;

    open spec fn view(&self) -> TokenView {
        TokenView { kind: self.kind, literal: self.literal@ }
    }
}

impl Token {
    /// A copy of this token.
    pub fn duplicate(&self) -> (r: Token)
        ensures
            r@ == self@,
            r.position == self.position,
    {
        Token { kind: self.kind, literal: self.literal.clone(), position: self.position }
    }
}

/// Tokens are equal when their kinds and lexemes are; the position is
/// not part of a token's identity.
impl PartialEq for Token {
    fn eq(&self, other: &Token) -> (r: bool)
        ensures
            r == (self@ == other@),
    {
        self.kind == other.kind && self.literal == other.literal
    }
}

impl vstd::std_specs::cmp::PartialEqSpecImpl for Token {
    open spec fn obeys_eq_spec() -> bool {
        true
    }

    open spec fn eq_spec(&self, other: &Token) -> bool {
        self@ == other@
    }
}

impl Default for Token {
    fn default() -> (r: Token)
        ensures
            r.kind == TokenKind::Error,
            r.literal@ == Seq::<char>::empty(),
            r.position == 0,
    {
        Token { kind: TokenKind::Error, literal: String::new(), position: 0 }
    }
}

/// The kind of a word that starts with a letter: one of the seven
/// keywords, or an identifier.
pub open spec fn keyword_kind(word: Seq<char>) -> TokenKind {
    if word == "var"@ {
        TokenKind::Var
    } else if word == "const"@ {
        TokenKind::Const
    } else if word == "true"@ {
        TokenKind::True
    } else if word == "false"@ {
        TokenKind::False
    } else if word == "if"@ {
        TokenKind::If
    } else if word == "else"@ {
        TokenKind::Else
    } else if word == "return"@ {
        TokenKind::Return
    } else {
        TokenKind::Identifier
    }
}

/// Whether two strings hold the same characters.
pub fn same_text(a: &str, b: &str) -> (r: bool)
    ensures
        r == (a@ == b@),
{
    let n = a.unicode_len();
    if n != b.unicode_len() {
        return false;
    }
    let mut i: usize = 0;
    while i < n
        invariant
            n == a@.len(),
            n == b@.len(),
            i <= n,
            a@.subrange(0, i as int) == b@.subrange(0, i as int),
        decreases n - i,
    {
        if a.get_char(i) != b.get_char(i) {
            return false;
        }
        assert(a@.subrange(0, i + 1) == a@.subrange(0, i as int).push(a@[i as int]));
        assert(b@.subrange(0, i + 1) == b@.subrange(0, i as int).push(b@[i as int]));
        i = i + 1;
    }
    assert(a@ == a@.subrange(0, n as int));
    assert(b@ == b@.subrange(0, n as int));
    true
}

/// Classifies a word against the keyword table.
pub fn lookup_ident(identifier: &str) -> (r: TokenKind)
    ensures
        r == keyword_kind(identifier@),
{
    if same_text(identifier, "var") {
        TokenKind::Var
    } else if same_text(identifier, "const") {
        TokenKind::Const
    } else if same_text(identifier, "true") {
        TokenKind::True
    } else if same_text(identifier, "false") {
        TokenKind::False
    } else if same_text(identifier, "if") {
        TokenKind::If
    } else if same_text(identifier, "else") {
        TokenKind::Else
    } else if same_text(identifier, "return") {
        TokenKind::Return
    } else {
        TokenKind::Identifier
    }
}

} // verus!

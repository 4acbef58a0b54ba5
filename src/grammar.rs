//! The grammar: precedence, handler registries, and the parse of a token
//! stream stated as spec functions, with the laws it obeys.
use vstd::prelude::*;
use crate::ast::{ExprView, IdentView, StmtView};
use crate::lexer2::is_stream;
use crate::text::is_digit;
use crate::token::{TokenKind, TokenView, eof_token, kind_symbol};

verus! {

/// The precedence ladder, lowest first.
#[derive(Debug, PartialEq, Eq, Structural, Clone, Copy)]
pub enum PrecedenceLevel {
    Lowest,
    Equals,
    LessGreater,
    Sum,
    Product,
    Prefix,
    Call,
}

pub open spec fn level_rank(p: PrecedenceLevel) -> nat {
    match p {
        PrecedenceLevel::Lowest => 0,
        PrecedenceLevel::Equals => 1,
        PrecedenceLevel::LessGreater => 2,
        PrecedenceLevel::Sum => 3,
        PrecedenceLevel::Product => 4,
        PrecedenceLevel::Prefix => 5,
        PrecedenceLevel::Call => 6,
    }
}

/// How tightly an operator token binds its operands.
pub open spec fn precedence_of(kind: TokenKind) -> PrecedenceLevel {
    match kind {
        TokenKind::Eq | TokenKind::NotEq => PrecedenceLevel::Equals,
        TokenKind::LessThan | TokenKind::GreaterThan => PrecedenceLevel::LessGreater,
        TokenKind::Plus | TokenKind::Minus => PrecedenceLevel::Sum,
        TokenKind::Multiply | TokenKind::Divide => PrecedenceLevel::Product,
        _ => PrecedenceLevel::Lowest,
    }
}

/// Handlers for tokens that can start an expression.
#[derive(Debug, PartialEq, Eq, Structural, Clone, Copy)]
pub enum PrefixParseFn {
    Identifier,
    IntegerLiteral,
    PrefixOperator,
    Grouped,
}

/// Handlers for tokens that combine a left operand with what follows.
#[derive(Debug, PartialEq, Eq, Structural, Clone, Copy)]
pub enum InfixParseFn {
    BinaryOperator,
}

/// The prefix registry that every parser is built with.
pub open spec fn prefix_rule(kind: TokenKind) -> Option<PrefixParseFn> {
    match kind {
        TokenKind::Identifier => Some(PrefixParseFn::Identifier),
        TokenKind::Number => Some(PrefixParseFn::IntegerLiteral),
        TokenKind::Minus | TokenKind::Bang => Some(PrefixParseFn::PrefixOperator),
        TokenKind::LeftParen => Some(PrefixParseFn::Grouped),
        _ => None,
    }
}

/// The infix registry that every parser is built with.
pub open spec fn infix_rule(kind: TokenKind) -> Option<InfixParseFn> {
    match kind {
        TokenKind::Plus | TokenKind::Minus | TokenKind::Multiply | TokenKind::Divide
        | TokenKind::LessThan | TokenKind::GreaterThan | TokenKind::Eq | TokenKind::NotEq => Some(
            InfixParseFn::BinaryOperator,
        ),
        _ => None,
    }
}

/// A registry: the last entry for a kind wins.
pub open spec fn lookup_rule<H>(table: Seq<(TokenKind, H)>, kind: TokenKind) -> Option<H>
    decreases table.len(),
{
    if table.len() == 0 {
        None
    } else if table.last().0 == kind {
        Some(table.last().1)
    } else {
        lookup_rule(table.drop_last(), kind)
    }
}

/// The token at index `k` of a stream; end-of-file past its end.
pub open spec fn tok_at(toks: Seq<TokenView>, k: int) -> TokenView {
    if 0 <= k < toks.len() {
        toks[k]
    } else {
        eof_token()
    }
}

/// What the lexer has still to hand out once the tokens before `n` are
/// taken.
pub open spec fn rest_from(toks: Seq<TokenView>, n: int) -> Seq<TokenView> {
    if 0 <= n < toks.len() {
        toks.subrange(n, toks.len() as int)
    } else {
        seq![eof_token()]
    }
}

pub open spec fn peek_error_msg(expected: TokenKind, got: TokenKind) -> Seq<char> {
    "expected next token to be "@ + kind_symbol(expected) + ", got "@ + kind_symbol(got)
        + " instead"@
}

pub open spec fn int_error_msg(literal: Seq<char>) -> Seq<char> {
    "could not parse "@ + literal + " as integer"@
}

/// The value of a string of decimal digits.
pub open spec fn digits_value(s: Seq<char>) -> int
    decreases s.len(),
{
    if s.len() == 0 {
        0
    } else {
        digits_value(s.drop_last()) * 10 + (s.last() as int - '0' as int)
    }
}

/// A numeric lexeme as a 64-bit signed integer: absent when it is not a
/// non-empty run of decimal digits or when its value does not fit.
pub open spec fn parse_int(s: Seq<char>) -> Option<i64> {
    if s.len() > 0 && (forall|i: int| 0 <= i < s.len() ==> is_digit(#[trigger] s[i]))
        && digits_value(s) <= i64::MAX {
        Some(digits_value(s) as i64)
    } else {
        None
    }
}

/// The outcome of parsing one construct that starts at the current token:
/// the node (absent when none could be built), the diagnostics recorded,
/// and the index of the current token when the parse is done (the last
/// token it consumed).
pub struct Parsed<T> {
    pub node: Option<T>,
    pub errors: Seq<Seq<char>>,
    pub last: int,
}

/// Parses an expression whose first token is at `k`, binding operators
/// tighter than `prec`.
pub open spec fn parse_expr(toks: Seq<TokenView>, k: int, prec: PrecedenceLevel) -> Parsed<ExprView>
    decreases toks.len() - k, 2nat,
{
    match prefix_rule(tok_at(toks, k).kind) {
        None => Parsed { node: None, errors: Seq::empty(), last: k },
        Some(rule) => {
            let pre = parse_prefix(toks, k, rule);
            match pre.node {
                Some(left) => if k <= pre.last < toks.len() {
                    let c = climb(toks, pre.last, left, prec);
                    Parsed { node: c.node, errors: pre.errors + c.errors, last: c.last }
                } else {
                    pre
                },
                None => pre,
            }
        },
    }
}

/// What a prefix handler builds from the token at `k`.
pub open spec fn parse_prefix(toks: Seq<TokenView>, k: int, rule: PrefixParseFn) -> Parsed<ExprView>
    decreases toks.len() - k, 1nat,
{
    let t = tok_at(toks, k);
    if !(0 <= k < toks.len()) {
        Parsed { node: None, errors: Seq::empty(), last: k }
    } else {
        match rule {
            PrefixParseFn::Identifier => Parsed {
                node: Some(ExprView::Ident(IdentView { token: t, value: t.literal })),
                errors: Seq::empty(),
                last: k,
            },
            PrefixParseFn::IntegerLiteral => match parse_int(t.literal) {
                Some(v) => Parsed {
                    node: Some(ExprView::Int { token: t, value: v }),
                    errors: Seq::empty(),
                    last: k,
                },
                None => Parsed { node: None, errors: seq![int_error_msg(t.literal)], last: k },
            },
            PrefixParseFn::PrefixOperator => {
                let r = parse_expr(toks, k + 1, PrecedenceLevel::Prefix);
                match r.node {
                    Some(x) => Parsed {
                        node: Some(
                            ExprView::Prefix { token: t, operator: t.literal, right: Box::new(x) },
                        ),
                        errors: r.errors,
                        last: r.last,
                    },
                    None => r,
                }
            },
            PrefixParseFn::Grouped => {
                let r = parse_expr(toks, k + 1, PrecedenceLevel::Lowest);
                let close = tok_at(toks, r.last + 1).kind;
                if close == TokenKind::RightParen {
                    Parsed { node: r.node, errors: r.errors, last: r.last + 1 }
                } else {
                    Parsed {
                        node: None,
                        errors: r.errors.push(peek_error_msg(TokenKind::RightParen, close)),
                        last: r.last,
                    }
                }
            },
        }
    }
}

/// Whether the token after `k` continues an expression held at `prec`.
pub open spec fn continues(toks: Seq<TokenView>, k: int, prec: PrecedenceLevel) -> bool {
    let op = tok_at(toks, k + 1).kind;
    infix_rule(op) is Some && level_rank(precedence_of(op)) > level_rank(prec)
}

/// The precedence-climbing loop: with `left` parsed up to `k`, folds in
/// each following operator that binds tighter than `prec`.
pub open spec fn climb(toks: Seq<TokenView>, k: int, left: ExprView, prec: PrecedenceLevel) -> Parsed<
    ExprView,
>
    decreases toks.len() - k, 0nat,
{
    if continues(toks, k, prec) {
        let op = tok_at(toks, k + 1);
        let right = parse_expr(toks, k + 2, precedence_of(op.kind));
        match right.node {
            Some(r) => {
                let e = ExprView::Infix {
                    token: op,
                    left: Box::new(left),
                    operator: op.literal,
                    right: Box::new(r),
                };
                if k < right.last < toks.len() {
                    let rest = climb(toks, right.last, e, prec);
                    Parsed { node: rest.node, errors: right.errors + rest.errors, last: rest.last }
                } else {
                    Parsed { node: Some(e), errors: right.errors, last: right.last }
                }
            },
            None => Parsed { node: None, errors: right.errors, last: right.last },
        }
    } else {
        Parsed { node: Some(left), errors: Seq::empty(), last: k }
    }
}

pub proof fn lemma_expr_bounds(toks: Seq<TokenView>, k: int, prec: PrecedenceLevel)
    requires
        is_stream(toks),
        0 <= k < toks.len(),
    ensures
        k <= parse_expr(toks, k, prec).last < toks.len(),
    decreases toks.len() - k, 2nat,
{
    if let Some(rule) = prefix_rule(tok_at(toks, k).kind) {
        lemma_prefix_bounds(toks, k, rule);
        let pre = parse_prefix(toks, k, rule);
        if let Some(left) = pre.node {
            lemma_climb_bounds(toks, pre.last, left, prec);
        }
    }
}

pub proof fn lemma_prefix_bounds(toks: Seq<TokenView>, k: int, rule: PrefixParseFn)
    requires
        is_stream(toks),
        0 <= k < toks.len(),
        prefix_rule(tok_at(toks, k).kind) == Some(rule),
    ensures
        k <= parse_prefix(toks, k, rule).last < toks.len(),
    decreases toks.len() - k, 1nat,
{
    match rule {
        PrefixParseFn::PrefixOperator => {
            if k + 1 < toks.len() {
                lemma_expr_bounds(toks, k + 1, PrecedenceLevel::Prefix);
            }
        },
        PrefixParseFn::Grouped => {
            if k + 1 < toks.len() {
                lemma_expr_bounds(toks, k + 1, PrecedenceLevel::Lowest);
            }
        },
        _ => {},
    }
}

pub proof fn lemma_climb_bounds(toks: Seq<TokenView>, k: int, left: ExprView, prec: PrecedenceLevel)
    requires
        is_stream(toks),
        0 <= k < toks.len(),
    ensures
        k <= climb(toks, k, left, prec).last < toks.len(),
    decreases toks.len() - k, 0nat,
{
    if continues(toks, k, prec) {
        let op = tok_at(toks, k + 1);
        if k + 2 < toks.len() {
            lemma_expr_bounds(toks, k + 2, precedence_of(op.kind));
            let right = parse_expr(toks, k + 2, precedence_of(op.kind));
            if let Some(r) = right.node {
                let e = ExprView::Infix {
                    token: op,
                    left: Box::new(left),
                    operator: op.literal,
                    right: Box::new(r),
                };
                lemma_climb_bounds(toks, right.last, e, prec);
            }
        }
    }
}

/// Consumes an optional `;` that follows the token at `k`.
pub open spec fn skip_semicolon(toks: Seq<TokenView>, k: int) -> int {
    if tok_at(toks, k + 1).kind == TokenKind::SemiColon {
        k + 1
    } else {
        k
    }
}

/// Parses the statement whose first token is at `k`. A `var` or an
/// expression statement may end without `;`; a `return` statement must end
/// with one, or it is abandoned with a diagnostic.
pub open spec fn parse_stmt(toks: Seq<TokenView>, k: int) -> Parsed<StmtView> {
    let t = tok_at(toks, k);
    match t.kind {
        TokenKind::Var => {
            let name = tok_at(toks, k + 1);
            let assign = tok_at(toks, k + 2).kind;
            if name.kind != TokenKind::Identifier {
                Parsed {
                    node: None,
                    errors: seq![peek_error_msg(TokenKind::Identifier, name.kind)],
                    last: k,
                }
            } else if assign != TokenKind::Assign {
                Parsed {
                    node: None,
                    errors: seq![peek_error_msg(TokenKind::Assign, assign)],
                    last: k + 1,
                }
            } else {
                let v = parse_expr(toks, k + 3, PrecedenceLevel::Lowest);
                Parsed {
                    node: Some(
                        StmtView::Var {
                            token: t,
                            name: IdentView { token: name, value: name.literal },
                            value: v.node,
                        },
                    ),
                    errors: v.errors,
                    last: skip_semicolon(toks, v.last),
                }
            }
        },
        TokenKind::Return => {
            if tok_at(toks, k + 1).kind == TokenKind::SemiColon {
                Parsed {
                    node: Some(StmtView::Return { token: t, value: None }),
                    errors: Seq::empty(),
                    last: k + 1,
                }
            } else {
                let v = parse_expr(toks, k + 1, PrecedenceLevel::Lowest);
                let end = tok_at(toks, v.last + 1).kind;
                if end == TokenKind::SemiColon {
                    Parsed {
                        node: Some(StmtView::Return { token: t, value: v.node }),
                        errors: v.errors,
                        last: v.last + 1,
                    }
                } else {
                    Parsed {
                        node: None,
                        errors: v.errors.push(peek_error_msg(TokenKind::SemiColon, end)),
                        last: v.last,
                    }
                }
            }
        },
        _ => {
            let v = parse_expr(toks, k, PrecedenceLevel::Lowest);
            Parsed {
                node: Some(StmtView::Expr { token: t, expression: v.node }),
                errors: v.errors,
                last: skip_semicolon(toks, v.last),
            }
        },
    }
}

/// What a whole parse yields: the statements and the diagnostics.
pub struct ParsedProgram {
    pub statements: Seq<StmtView>,
    pub errors: Seq<Seq<char>>,
}

/// Parses statements from the one at `k` to the end of the stream; a
/// statement that could not be built is skipped, and parsing goes on
/// after its last token.
pub open spec fn program_from(toks: Seq<TokenView>, k: int) -> ParsedProgram
    decreases toks.len() - k,
{
    if tok_at(toks, k).kind == TokenKind::EOF {
        ParsedProgram { statements: Seq::empty(), errors: Seq::empty() }
    } else {
        let st = parse_stmt(toks, k);
        if k <= st.last < toks.len() {
            let rest = program_from(toks, st.last + 1);
            ParsedProgram {
                statements: match st.node {
                    Some(x) => seq![x] + rest.statements,
                    None => rest.statements,
                },
                errors: st.errors + rest.errors,
            }
        } else {
            ParsedProgram { statements: Seq::empty(), errors: st.errors }
        }
    }
}

/// The parse of a whole token stream.
pub open spec fn parse_tokens(toks: Seq<TokenView>) -> ParsedProgram {
    program_from(toks, 0)
}

pub proof fn lemma_stmt_bounds(toks: Seq<TokenView>, k: int)
    requires
        is_stream(toks),
        0 <= k < toks.len(),
        tok_at(toks, k).kind != TokenKind::EOF,
    ensures
        k <= parse_stmt(toks, k).last < toks.len(),
{
    let t = tok_at(toks, k);
    match t.kind {
        TokenKind::Var => {
            if tok_at(toks, k + 1).kind == TokenKind::Identifier && tok_at(toks, k + 2).kind
                == TokenKind::Assign {
                lemma_expr_bounds(toks, k + 3, PrecedenceLevel::Lowest);
            }
        },
        TokenKind::Return => {
            lemma_expr_bounds(toks, k + 1, PrecedenceLevel::Lowest);
        },
        _ => {
            lemma_expr_bounds(toks, k, PrecedenceLevel::Lowest);
        },
    }
}

/// The precedence of an operator token.
pub fn token_precedence(kind: TokenKind) -> (r: PrecedenceLevel)
    ensures
        r == precedence_of(kind),
{
    match kind {
        TokenKind::Eq | TokenKind::NotEq => PrecedenceLevel::Equals,
        TokenKind::LessThan | TokenKind::GreaterThan => PrecedenceLevel::LessGreater,
        TokenKind::Plus | TokenKind::Minus => PrecedenceLevel::Sum,
        TokenKind::Multiply | TokenKind::Divide => PrecedenceLevel::Product,
        _ => PrecedenceLevel::Lowest,
    }
}

impl PrecedenceLevel {
    /// The level's place on the ladder.
    pub fn rank(&self) -> (r: u8)
        ensures
            r == level_rank(*self),
    {
        match self {
            PrecedenceLevel::Lowest => 0,
            PrecedenceLevel::Equals => 1,
            PrecedenceLevel::LessGreater => 2,
            PrecedenceLevel::Sum => 3,
            PrecedenceLevel::Product => 4,
            PrecedenceLevel::Prefix => 5,
            PrecedenceLevel::Call => 6,
        }
    }
}

/// A token that is an expression by itself: an identifier, or a number
/// that fits in 64 bits.
pub open spec fn is_atom(t: TokenView) -> bool {
    t.kind == TokenKind::Identifier || (t.kind == TokenKind::Number && parse_int(t.literal) is Some)
}

/// The node that an atom token parses to.
pub open spec fn atom_view(t: TokenView) -> ExprView {
    if t.kind == TokenKind::Identifier {
        ExprView::Ident(IdentView { token: t, value: t.literal })
    } else {
        ExprView::Int { token: t, value: parse_int(t.literal)->0 }
    }
}

/// An infix operator node built from its operator token.
pub open spec fn infix_view(op: TokenView, left: ExprView, right: ExprView) -> ExprView {
    ExprView::Infix { token: op, left: Box::new(left), operator: op.literal, right: Box::new(right) }
}

proof fn lemma_atom(toks: Seq<TokenView>, k: int, prec: PrecedenceLevel)
    requires
        is_atom(tok_at(toks, k)),
        !continues(toks, k, prec),
    ensures
        parse_expr(toks, k, prec) == (Parsed {
            node: Some(atom_view(tok_at(toks, k))),
            errors: Seq::empty(),
            last: k,
        }),
{
    let t = tok_at(toks, k);
    let rule = prefix_rule(t.kind)->0;
    let pre = parse_prefix(toks, k, rule);
    assert(pre.node == Some(atom_view(t)));
    assert(pre.errors + Seq::<Seq<char>>::empty() =~= Seq::<Seq<char>>::empty());
}

/// Operators of equal precedence group to the left: `a - b - c` parses
/// as `(a - b) - c`, never as `a - (b - c)`.
pub proof fn lemma_left_associative(toks: Seq<TokenView>, k: int)
    requires
        is_atom(tok_at(toks, k)),
        infix_rule(tok_at(toks, k + 1).kind) is Some,
        is_atom(tok_at(toks, k + 2)),
        infix_rule(tok_at(toks, k + 3).kind) is Some,
        is_atom(tok_at(toks, k + 4)),
        precedence_of(tok_at(toks, k + 1).kind) == precedence_of(tok_at(toks, k + 3).kind),
        infix_rule(tok_at(toks, k + 5).kind) is None,
    ensures
        parse_expr(toks, k, PrecedenceLevel::Lowest) == (Parsed {
            node: Some(
                infix_view(
                    tok_at(toks, k + 3),
                    infix_view(
                        tok_at(toks, k + 1),
                        atom_view(tok_at(toks, k)),
                        atom_view(tok_at(toks, k + 2)),
                    ),
                    atom_view(tok_at(toks, k + 4)),
                ),
            ),
            errors: Seq::empty(),
            last: k + 4,
        }),
{
    let low = PrecedenceLevel::Lowest;
    let level = precedence_of(tok_at(toks, k + 1).kind);
    let a = atom_view(tok_at(toks, k));
    let b = atom_view(tok_at(toks, k + 2));
    let c = atom_view(tok_at(toks, k + 4));
    let e1 = infix_view(tok_at(toks, k + 1), a, b);
    let e2 = infix_view(tok_at(toks, k + 3), e1, c);
    let empty = Seq::<Seq<char>>::empty();
    assert(empty + empty =~= empty);
    lemma_atom(toks, k + 4, level);
    assert(climb(toks, k + 4, e2, low) == Parsed { node: Some(e2), errors: empty, last: k + 4 });
    assert(climb(toks, k + 2, e1, low) == Parsed { node: Some(e2), errors: empty, last: k + 4 });
    lemma_atom(toks, k + 2, level);
    assert(climb(toks, k, a, low) == Parsed { node: Some(e2), errors: empty, last: k + 4 });
    let t = tok_at(toks, k);
    let pre = parse_prefix(toks, k, prefix_rule(t.kind)->0);
    assert(pre == Parsed { node: Some(a), errors: empty, last: k });
}

/// As a statement, `a - b - c` is the expression statement `(a - b) - c`,
/// with no diagnostic.
pub proof fn lemma_left_associative_statement(toks: Seq<TokenView>, k: int)
    requires
        is_atom(tok_at(toks, k)),
        infix_rule(tok_at(toks, k + 1).kind) is Some,
        is_atom(tok_at(toks, k + 2)),
        infix_rule(tok_at(toks, k + 3).kind) is Some,
        is_atom(tok_at(toks, k + 4)),
        precedence_of(tok_at(toks, k + 1).kind) == precedence_of(tok_at(toks, k + 3).kind),
        infix_rule(tok_at(toks, k + 5).kind) is None,
    ensures
        parse_stmt(toks, k) == (Parsed {
            node: Some(
                StmtView::Expr {
                    token: tok_at(toks, k),
                    expression: Some(
                        infix_view(
                            tok_at(toks, k + 3),
                            infix_view(
                                tok_at(toks, k + 1),
                                atom_view(tok_at(toks, k)),
                                atom_view(tok_at(toks, k + 2)),
                            ),
                            atom_view(tok_at(toks, k + 4)),
                        ),
                    ),
                },
            ),
            errors: Seq::empty(),
            last: skip_semicolon(toks, k + 4),
        }),
{
    lemma_left_associative(toks, k);
}

/// A `var` statement whose name is not followed by `=` adds exactly one
/// diagnostic, and parsing goes on with the token after the name, so the
/// statements after it are parsed as if it were absent.
pub proof fn lemma_var_missing_assign(toks: Seq<TokenView>, k: int)
    requires
        is_stream(toks),
        0 <= k,
        tok_at(toks, k).kind == TokenKind::Var,
        tok_at(toks, k + 1).kind == TokenKind::Identifier,
        tok_at(toks, k + 2).kind != TokenKind::Assign,
    ensures
        parse_stmt(toks, k) == (Parsed::<StmtView> {
            node: None,
            errors: seq![peek_error_msg(TokenKind::Assign, tok_at(toks, k + 2).kind)],
            last: k + 1,
        }),
        program_from(toks, k) == (ParsedProgram {
            statements: program_from(toks, k + 2).statements,
            errors: seq![peek_error_msg(TokenKind::Assign, tok_at(toks, k + 2).kind)]
                + program_from(toks, k + 2).errors,
        }),
{
}

/// A numeric literal too large for a 64-bit signed integer yields one
/// conversion diagnostic and no node, wherever an expression may start.
pub proof fn lemma_integer_overflow(toks: Seq<TokenView>, k: int, prec: PrecedenceLevel)
    requires
        0 <= k,
        tok_at(toks, k).kind == TokenKind::Number,
        digits_value(tok_at(toks, k).literal) > i64::MAX,
    ensures
        parse_expr(toks, k, prec) == (Parsed::<ExprView> {
            node: None,
            errors: seq![int_error_msg(tok_at(toks, k).literal)],
            last: k,
        }),
{
}

/// Statements that follow one another up to the end of the stream, each
/// parsing to a node without diagnostics, give a program of exactly those
/// statements, in source order, and no diagnostics. `starts` holds the index
/// of each statement's first token, and last the index of end-of-file.
pub proof fn lemma_statement_count(toks: Seq<TokenView>, starts: Seq<int>)
    requires
        is_stream(toks),
        starts.len() >= 1,
        0 <= starts[0],
        tok_at(toks, starts.last()).kind == TokenKind::EOF,
        forall|i: int|
            0 <= i < starts.len() - 1 ==> {
                let st = #[trigger] parse_stmt(toks, starts[i]);
                &&& tok_at(toks, starts[i]).kind != TokenKind::EOF
                &&& st.node is Some
                &&& st.errors == Seq::<Seq<char>>::empty()
                &&& st.last + 1 == starts[i + 1]
            },
    ensures
        program_from(toks, starts[0]).statements.len() == starts.len() - 1,
        forall|i: int|
            0 <= i < starts.len() - 1 ==> program_from(toks, starts[0]).statements[i]
                == parse_stmt(toks, starts[i]).node->0,
        program_from(toks, starts[0]).errors == Seq::<Seq<char>>::empty(),
    decreases starts.len(),
{
    if starts.len() > 1 {
        let tail = starts.drop_first();
        assert forall|i: int| 0 <= i < tail.len() - 1 implies {
            let st = #[trigger] parse_stmt(toks, tail[i]);
            &&& tok_at(toks, tail[i]).kind != TokenKind::EOF
            &&& st.node is Some
            &&& st.errors == Seq::<Seq<char>>::empty()
            &&& st.last + 1 == tail[i + 1]
        } by {
            assert(tail[i] == starts[i + 1]);
            assert(parse_stmt(toks, starts[i + 1]).last + 1 == starts[i + 2]);
        }
        let st = parse_stmt(toks, starts[0]);
        assert(st.last + 1 == starts[1]);
        lemma_stmt_bounds(toks, starts[0]);
        lemma_statement_count(toks, tail);
        let rest = program_from(toks, starts[1]);
        let all = program_from(toks, starts[0]);
        assert(all.statements == seq![st.node->0] + rest.statements);
        assert(all.errors =~= rest.errors);
        assert forall|i: int| 0 <= i < starts.len() - 1 implies all.statements[i] == parse_stmt(
            toks,
            starts[i],
        ).node->0 by {
            if i > 0 {
                assert(all.statements[i] == rest.statements[i - 1]);
                assert(tail[i - 1] == starts[i]);
            }
        }
    }
}

/// The number of tokens of a simple statement starting at `k`, `;`
/// included: `var <name> = <atom>;`, `return <atom>;` or `<atom>;`. Zero
/// when no simple statement starts there.
pub open spec fn simple_stmt_len(toks: Seq<TokenView>, k: int) -> int {
    let t = tok_at(toks, k).kind;
    if t == TokenKind::Var && tok_at(toks, k + 1).kind == TokenKind::Identifier && tok_at(
        toks,
        k + 2,
    ).kind == TokenKind::Assign && is_atom(tok_at(toks, k + 3)) && tok_at(toks, k + 4).kind
        == TokenKind::SemiColon {
        5
    } else if t == TokenKind::Return && is_atom(tok_at(toks, k + 1)) && tok_at(toks, k + 2).kind
        == TokenKind::SemiColon {
        3
    } else if is_atom(tok_at(toks, k)) && tok_at(toks, k + 1).kind == TokenKind::SemiColon {
        2
    } else {
        0
    }
}

/// The node of the simple statement starting at `k`.
pub open spec fn simple_stmt_view(toks: Seq<TokenView>, k: int) -> StmtView {
    let t = tok_at(toks, k);
    let n = simple_stmt_len(toks, k);
    if n == 5 {
        StmtView::Var {
            token: t,
            name: IdentView { token: tok_at(toks, k + 1), value: tok_at(toks, k + 1).literal },
            value: Some(atom_view(tok_at(toks, k + 3))),
        }
    } else if n == 3 {
        StmtView::Return { token: t, value: Some(atom_view(tok_at(toks, k + 1))) }
    } else {
        StmtView::Expr { token: t, expression: Some(atom_view(t)) }
    }
}

/// A simple statement parses to its node, with no diagnostic, and ends at
/// its `;`.
pub proof fn lemma_simple_statement(toks: Seq<TokenView>, k: int)
    requires
        0 <= k,
        simple_stmt_len(toks, k) > 0,
    ensures
        parse_stmt(toks, k) == (Parsed {
            node: Some(simple_stmt_view(toks, k)),
            errors: Seq::empty(),
            last: k + simple_stmt_len(toks, k) - 1,
        }),
{
    let n = simple_stmt_len(toks, k);
    let low = PrecedenceLevel::Lowest;
    if n == 5 {
        lemma_atom(toks, k + 3, low);
    } else if n == 3 {
        lemma_atom(toks, k + 1, low);
    } else {
        lemma_atom(toks, k, low);
    }
}

/// A stream made of simple statements one after another, then end-of-file,
/// parses to exactly those statements, in source order, with no
/// diagnostics. `starts` holds the index of each statement's first token,
/// and last the index of end-of-file.
pub proof fn lemma_simple_statement_count(toks: Seq<TokenView>, starts: Seq<int>)
    requires
        is_stream(toks),
        starts.len() >= 1,
        0 <= starts[0],
        tok_at(toks, starts.last()).kind == TokenKind::EOF,
        forall|i: int|
            0 <= i < starts.len() - 1 ==> #[trigger] simple_stmt_len(toks, starts[i]) > 0
                && starts[i + 1] == starts[i] + simple_stmt_len(toks, starts[i]),
    ensures
        program_from(toks, starts[0]).statements.len() == starts.len() - 1,
        forall|i: int|
            0 <= i < starts.len() - 1 ==> program_from(toks, starts[0]).statements[i]
                == simple_stmt_view(toks, starts[i]),
        program_from(toks, starts[0]).errors == Seq::<Seq<char>>::empty(),
{
    assert forall|i: int| 0 <= i < starts.len() - 1 implies 0 <= starts[i] by {
        lemma_starts_grow(toks, starts, i);
    }
    assert forall|i: int| 0 <= i < starts.len() - 1 implies {
        let st = #[trigger] parse_stmt(toks, starts[i]);
        &&& tok_at(toks, starts[i]).kind != TokenKind::EOF
        &&& st.node is Some
        &&& st.errors == Seq::<Seq<char>>::empty()
        &&& st.last + 1 == starts[i + 1]
    } by {
        assert(simple_stmt_len(toks, starts[i]) > 0);
        lemma_simple_statement(toks, starts[i]);
    }
    lemma_statement_count(toks, starts);
    assert forall|i: int| 0 <= i < starts.len() - 1 implies program_from(toks, starts[0]).statements[i]
        == simple_stmt_view(toks, starts[i]) by {
        assert(simple_stmt_len(toks, starts[i]) > 0);
        lemma_simple_statement(toks, starts[i]);
    }
}

proof fn lemma_starts_grow(toks: Seq<TokenView>, starts: Seq<int>, i: int)
    requires
        starts.len() >= 1,
        0 <= starts[0],
        0 <= i < starts.len(),
        forall|j: int|
            0 <= j < starts.len() - 1 ==> #[trigger] simple_stmt_len(toks, starts[j]) > 0
                && starts[j + 1] == starts[j] + simple_stmt_len(toks, starts[j]),
    ensures
        0 <= starts[i],
    decreases i,
{
    if i > 0 {
        lemma_starts_grow(toks, starts, i - 1);
        assert(simple_stmt_len(toks, starts[i - 1]) > 0);
    }
}

} // verus!

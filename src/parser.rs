//! The parser: statements top-down, expressions by precedence climbing.
use vstd::prelude::*;
use vstd::string::*;
use crate::ast::{
    ExpressionNode, ExpressionStatement, Identifier, InfixExpression, IntegerLiteral,
    PrefixExpression, Program, ReturnStatement, StatementNode, VarStatement, opt_expr_view,
    opt_stmt_view,
};
use crate::grammar::{
    InfixParseFn, PrecedenceLevel, PrefixParseFn, climb, digits_value, infix_rule,
    lemma_expr_bounds, lemma_prefix_bounds, lemma_stmt_bounds, lookup_rule,
    parse_expr, parse_int, parse_prefix, parse_stmt, parse_tokens, peek_error_msg, prefix_rule,
    program_from, rest_from, tok_at, token_precedence,
};
use crate::lexer2::{Lexer, lex, tokens_from, is_stream, lemma_scan, lemma_tokens_stream, scan, scan_token};
use crate::text::{chars_of, is_digit};
use crate::token::{Token, TokenKind, TokenView};

verus! {

/// A registry with one more entry answers for that entry's kind with it.
proof fn lemma_lookup_push<H>(table: Seq<(TokenKind, H)>, entry: (TokenKind, H), kind: TokenKind)
    ensures
        lookup_rule(table.push(entry), kind) == if entry.0 == kind {
            Some(entry.1)
        } else {
            lookup_rule(table, kind)
        },
{
    assert(table.push(entry).drop_last() =~= table);
}

/// Taking one token from the lexer yields the stream's next token.
proof fn lemma_advance(s: Seq<char>, p: int, toks: Seq<TokenView>, n: int)
    requires
        0 <= p <= s.len(),
        is_stream(toks),
        0 <= n,
        tokens_from(s, p) == rest_from(toks, n),
    ensures
        scan_token(s, p) == tok_at(toks, n),
        0 <= scan(s, p).end <= s.len(),
        tokens_from(s, scan(s, p).end) == rest_from(toks, n + 1),
{
    lemma_scan(s, p);
    let sc = scan(s, p);
    let end = sc.end;
    if sc.kind != TokenKind::EOF {
        assert(tokens_from(s, p) == seq![scan_token(s, p)] + tokens_from(s, end));
        if n < toks.len() {
            assert(rest_from(toks, n)[0] == toks[n]);
            if n + 1 < toks.len() {
                assert(tokens_from(s, end) =~= rest_from(toks, n).drop_first());
                assert(rest_from(toks, n).drop_first() =~= rest_from(toks, n + 1));
            } else {
                assert(toks[n] == toks.last());
            }
        }
    } else {
        assert(tokens_from(s, p) == seq![scan_token(s, p)]);
        lemma_scan(s, end);
        assert(tokens_from(s, end) == seq![scan_token(s, end)]);
        if n + 1 < toks.len() {
            assert(rest_from(toks, n)[0] == toks[n]);
        }
    }
}

proof fn lemma_digits_grow(s: Seq<char>, m: int)
    requires
        0 <= m <= s.len(),
        forall|i: int| 0 <= i < s.len() ==> is_digit(#[trigger] s[i]),
    ensures
        0 <= digits_value(s.take(m)) <= digits_value(s),
    decreases s.len(),
{
    if m == s.len() {
        assert(s.take(m) =~= s);
        if s.len() > 0 {
            lemma_digits_grow(s.drop_last(), m - 1);
        }
    } else {
        let t = s.drop_last();
        assert(t.take(m) =~= s.take(m));
        lemma_digits_grow(t, m);
        lemma_digits_grow(t, t.len() as int);
        assert(t.take(t.len() as int) =~= t);
        assert(is_digit(s[s.len() - 1]));
    }
}

/// Reads a string of decimal digits as a 64-bit signed integer.
fn parse_decimal(s: &String) -> (r: Option<i64>)
    ensures
        r == parse_int(s@),
{
    let cs = chars_of(s.as_str());
    if cs.len() == 0 {
        return None;
    }
    let mut value: i64 = 0;
    let mut i: usize = 0;
    while i < cs.len()
        invariant
            cs@ == s@,
            0 <= i <= cs.len(),
            forall|j: int| 0 <= j < i ==> is_digit(#[trigger] cs@[j]),
            value == digits_value(cs@.take(i as int)),
            0 <= value,
        decreases cs.len() - i,
    {
        let c = cs[i];
        if !('0' <= c && c <= '9') {
            return None;
        }
        let d = (c as u32 - '0' as u32) as i64;
        assert(cs@.take(i + 1).drop_last() =~= cs@.take(i as int));
        if value > (i64::MAX - d) / 10 {
            proof {
                assert(value * 10 + d > i64::MAX) by (nonlinear_arith)
                    requires
                        value > (i64::MAX - d) / 10,
                        0 <= d <= 9,
                ;
                if forall|j: int| 0 <= j < cs@.len() ==> is_digit(#[trigger] cs@[j]) {
                    lemma_digits_grow(cs@, i + 1);
                }
            }
            return None;
        }
        assert(value * 10 + d <= i64::MAX) by (nonlinear_arith)
            requires
                value <= (i64::MAX - d) / 10,
                0 <= d <= 9,
                0 <= value,
        ;
        value = value * 10 + d;
        i = i + 1;
    }
    assert(cs@.take(i as int) =~= cs@);
    Some(value)
}

/// Looks a kind up in a registry; the last entry for it wins.
fn find_rule<H: Copy>(table: &Vec<(TokenKind, H)>, kind: TokenKind) -> (r: Option<H>)
    ensures
        r == lookup_rule(table@, kind),
{
    let mut i = table.len();
    assert(table@.take(i as int) =~= table@);
    while i > 0
        invariant
            i <= table.len(),
            lookup_rule(table@, kind) == lookup_rule(table@.take(i as int), kind),
        decreases i,
    {
        let entry = table[i - 1];
        assert(table@.take(i as int).drop_last() =~= table@.take(i - 1));
        if entry.0 == kind {
            return Some(entry.1);
        }
        i = i - 1;
    }
    None
}

/// The texts of a list of messages.
pub open spec fn texts(v: Seq<String>) -> Seq<Seq<char>> {
    v.map_values(|s: String| s@)
}

proof fn lemma_texts_push(v: Seq<String>, s: String)
    ensures
        texts(v.push(s)) == texts(v).push(s@),
{
    assert(texts(v.push(s)) =~= texts(v).push(s@));
}

/// Parses one unit of source: owns its lexer, the current and the next
/// token, the diagnostics recorded so far and the handler registries.
pub struct Parser {
    lexer: Lexer,
    current_token: Token,
    peek_token: Token,
    errors: Vec<String>,
    prefix_parse_fns: Vec<(TokenKind, PrefixParseFn)>,
    infix_parse_fns: Vec<(TokenKind, InfixParseFn)>,
    tokens: Ghost<Seq<TokenView>>,
    index: Ghost<int>,
}

impl Parser {
    /// The whole token stream this parser reads.
    pub closed spec fn tokens(&self) -> Seq<TokenView> {
        self.tokens@
    }

    /// The index of the current token in the stream.
    pub closed spec fn index(&self) -> int {
        self.index@
    }

    /// The diagnostics recorded so far, in order.
    pub closed spec fn diagnostics(&self) -> Seq<Seq<char>> {
        texts(self.errors@)
    }

    pub closed spec fn wf(&self) -> bool {
        &&& self.lexer.wf()
        &&& is_stream(self.tokens@)
        &&& 0 <= self.index@
        &&& self.current_token@ == tok_at(self.tokens@, self.index@)
        &&& self.peek_token@ == tok_at(self.tokens@, self.index@ + 1)
        &&& tokens_from(self.lexer.source(), self.lexer.cursor()) == rest_from(
            self.tokens@,
            self.index@ + 2,
        )
        &&& forall|k: TokenKind| #[trigger]
            lookup_rule(self.prefix_parse_fns@, k) == prefix_rule(k)
        &&& forall|k: TokenKind| #[trigger]
            lookup_rule(self.infix_parse_fns@, k) == infix_rule(k)
    }

    /// A parser over the tokens that `lexer` has still to give, with the
    /// first two of them loaded as current and next token.
    pub fn new(lexer: Lexer) -> (p: Parser)
        requires
            lexer.wf(),
        ensures
            p.wf(),
            p.tokens() == tokens_from(lexer.source(), lexer.cursor()),
            p.index() == 0,
            p.diagnostics() == Seq::<Seq<char>>::empty(),
    {
        let mut lexer = lexer;
        let ghost src = lexer.source();
        let ghost c0 = lexer.cursor();
        let ghost toks = tokens_from(src, c0);
        proof {
            lexer.lemma_wf();
            lemma_tokens_stream(src, c0);
            assert(rest_from(toks, 0) =~= toks);
            lemma_advance(src, c0, toks, 0);
        }
        let current_token = lexer.next_token();
        let ghost c1 = lexer.cursor();
        proof {
            lemma_advance(src, c1, toks, 1);
        }
        let peek_token = lexer.next_token();
        let mut parser = Parser {
            lexer,
            current_token,
            peek_token,
            errors: Vec::new(),
            prefix_parse_fns: Vec::new(),
            infix_parse_fns: Vec::new(),
            tokens: Ghost(toks),
            index: Ghost(0),
        };
        let ghost table0 = parser.prefix_parse_fns@;
        parser.register_prefix(TokenKind::Identifier, PrefixParseFn::Identifier);
        let ghost table1 = parser.prefix_parse_fns@;
        parser.register_prefix(TokenKind::Number, PrefixParseFn::IntegerLiteral);
        let ghost table2 = parser.prefix_parse_fns@;
        parser.register_prefix(TokenKind::Minus, PrefixParseFn::PrefixOperator);
        let ghost table3 = parser.prefix_parse_fns@;
        parser.register_prefix(TokenKind::Bang, PrefixParseFn::PrefixOperator);
        let ghost table4 = parser.prefix_parse_fns@;
        parser.register_prefix(TokenKind::LeftParen, PrefixParseFn::Grouped);
        let ghost i0 = parser.infix_parse_fns@;
        parser.register_infix(TokenKind::Plus, InfixParseFn::BinaryOperator);
        let ghost i1 = parser.infix_parse_fns@;
        parser.register_infix(TokenKind::Minus, InfixParseFn::BinaryOperator);
        let ghost i2 = parser.infix_parse_fns@;
        parser.register_infix(TokenKind::Multiply, InfixParseFn::BinaryOperator);
        let ghost i3 = parser.infix_parse_fns@;
        parser.register_infix(TokenKind::Divide, InfixParseFn::BinaryOperator);
        let ghost i4 = parser.infix_parse_fns@;
        parser.register_infix(TokenKind::LessThan, InfixParseFn::BinaryOperator);
        let ghost i5 = parser.infix_parse_fns@;
        parser.register_infix(TokenKind::GreaterThan, InfixParseFn::BinaryOperator);
        let ghost i6 = parser.infix_parse_fns@;
        parser.register_infix(TokenKind::Eq, InfixParseFn::BinaryOperator);
        let ghost i7 = parser.infix_parse_fns@;
        parser.register_infix(TokenKind::NotEq, InfixParseFn::BinaryOperator);
        proof {
            let pt = parser.prefix_parse_fns@;
            assert forall|k: TokenKind| #[trigger] lookup_rule(pt, k) == prefix_rule(k) by {
                lemma_lookup_push(table4, (TokenKind::LeftParen, PrefixParseFn::Grouped), k);
                lemma_lookup_push(table3, (TokenKind::Bang, PrefixParseFn::PrefixOperator), k);
                lemma_lookup_push(table2, (TokenKind::Minus, PrefixParseFn::PrefixOperator), k);
                lemma_lookup_push(table1, (TokenKind::Number, PrefixParseFn::IntegerLiteral), k);
                lemma_lookup_push(table0, (TokenKind::Identifier, PrefixParseFn::Identifier), k);
            }
            let it = parser.infix_parse_fns@;
            let b = InfixParseFn::BinaryOperator;
            assert forall|k: TokenKind| #[trigger] lookup_rule(it, k) == infix_rule(k) by {
                lemma_lookup_push(i7, (TokenKind::NotEq, b), k);
                lemma_lookup_push(i6, (TokenKind::Eq, b), k);
                lemma_lookup_push(i5, (TokenKind::GreaterThan, b), k);
                lemma_lookup_push(i4, (TokenKind::LessThan, b), k);
                lemma_lookup_push(i3, (TokenKind::Divide, b), k);
                lemma_lookup_push(i2, (TokenKind::Multiply, b), k);
                lemma_lookup_push(i1, (TokenKind::Minus, b), k);
                lemma_lookup_push(i0, (TokenKind::Plus, b), k);
            }
            assert(texts(parser.errors@) =~= Seq::<Seq<char>>::empty());
        }
        parser
    }

    /// Moves one token on: the next token becomes current, and the lexer
    /// supplies a new next token.
    fn next_token(&mut self)
        requires
            old(self).wf(),
        ensures
            final(self).wf(),
            final(self).tokens() == old(self).tokens(),
            final(self).index() == old(self).index() + 1,
            final(self).diagnostics() == old(self).diagnostics(),
    {
        proof {
            self.lexer.lemma_wf();
            lemma_advance(self.lexer.source(), self.lexer.cursor(), self.tokens@, self.index@ + 2);
        }
        let mut t = self.lexer.next_token();
        std::mem::swap(&mut self.peek_token, &mut t);
        self.current_token = t;
        self.index = Ghost(self.index@ + 1);
    }

    fn peek_token_is(&self, token_kind: TokenKind) -> (r: bool)
        requires
            self.wf(),
        ensures
            r == (tok_at(self.tokens(), self.index() + 1).kind == token_kind),
    {
        self.peek_token.kind == token_kind
    }

    fn current_token_is(&self, token_kind: TokenKind) -> (r: bool)
        requires
            self.wf(),
        ensures
            r == (tok_at(self.tokens(), self.index()).kind == token_kind),
    {
        self.current_token.kind == token_kind
    }

    /// The diagnostics recorded so far.
    pub fn errors(&self) -> (r: &Vec<String>)
        ensures
            texts(r@) == self.diagnostics(),
    {
        &self.errors
    }

    /// Records that the next token is not of the expected kind.
    fn peek_error(&mut self, token_kind: TokenKind)
        requires
            old(self).wf(),
        ensures
            final(self).wf(),
            final(self).tokens() == old(self).tokens(),
            final(self).index() == old(self).index(),
            final(self).diagnostics() == old(self).diagnostics().push(
                peek_error_msg(token_kind, tok_at(old(self).tokens(), old(self).index() + 1).kind),
            ),
    {
        let mut msg = String::from_str("expected next token to be ");
        msg.append(token_kind.symbol());
        msg.append(", got ");
        msg.append(self.peek_token.kind.symbol());
        msg.append(" instead");
        proof {
            lemma_texts_push(self.errors@, msg);
        }
        self.errors.push(msg);
    }

    /// Moves on if the next token is of the given kind; otherwise records
    /// a diagnostic and stays.
    fn expect_peek(&mut self, token_kind: TokenKind) -> (r: bool)
        requires
            old(self).wf(),
        ensures
            final(self).wf(),
            final(self).tokens() == old(self).tokens(),
            r == (tok_at(old(self).tokens(), old(self).index() + 1).kind == token_kind),
            r ==> final(self).index() == old(self).index() + 1 && final(self).diagnostics()
                == old(self).diagnostics(),
            !r ==> final(self).index() == old(self).index() && final(self).diagnostics()
                == old(self).diagnostics().push(
                peek_error_msg(token_kind, tok_at(old(self).tokens(), old(self).index() + 1).kind),
            ),
    {
        if self.peek_token_is(token_kind) {
            self.next_token();
            return true;
        }
        self.peek_error(token_kind);
        false
    }

    fn prefix_fn(&self, token_kind: TokenKind) -> (r: Option<PrefixParseFn>)
        requires
            self.wf(),
        ensures
            r == prefix_rule(token_kind),
    {
        find_rule(&self.prefix_parse_fns, token_kind)
    }

    fn infix_fn(&self, token_kind: TokenKind) -> (r: Option<InfixParseFn>)
        requires
            self.wf(),
        ensures
            r == infix_rule(token_kind),
    {
        find_rule(&self.infix_parse_fns, token_kind)
    }

    fn parse_identifier(&self) -> (r: Option<ExpressionNode>)
        requires
            self.wf(),
            tok_at(self.tokens(), self.index()).kind == TokenKind::Identifier,
        ensures
            opt_expr_view(r) == parse_prefix(
                self.tokens(),
                self.index(),
                PrefixParseFn::Identifier,
            ).node,
    {
        Some(
            ExpressionNode::IdentifierNode(
                Identifier {
                    token: self.current_token.duplicate(),
                    value: self.current_token.literal.clone(),
                },
            ),
        )
    }

    fn parse_integer_literal(&mut self) -> (r: Option<ExpressionNode>)
        requires
            old(self).wf(),
            tok_at(old(self).tokens(), old(self).index()).kind == TokenKind::Number,
        ensures
            final(self).wf(),
            final(self).tokens() == old(self).tokens(),
            final(self).index() == old(self).index(),
            ({
                let p = parse_prefix(
                    old(self).tokens(),
                    old(self).index(),
                    PrefixParseFn::IntegerLiteral,
                );
                &&& opt_expr_view(r) == p.node
                &&& final(self).diagnostics() == old(self).diagnostics() + p.errors
            }),
    {
        match parse_decimal(&self.current_token.literal) {
            Some(value) => {
                assert(self.diagnostics() + Seq::<Seq<char>>::empty() =~= self.diagnostics());
                Some(
                    ExpressionNode::Integer(
                        IntegerLiteral { token: self.current_token.duplicate(), value },
                    ),
                )
            },
            None => {
                let mut msg = String::from_str("could not parse ");
                msg.append(self.current_token.literal.as_str());
                msg.append(" as integer");
                proof {
                    lemma_texts_push(self.errors@, msg);
                    assert(self.diagnostics().push(msg@) =~= self.diagnostics() + seq![msg@]);
                }
                self.errors.push(msg);
                None
            },
        }
    }

    fn parse_prefix_expression(&mut self) -> (r: Option<ExpressionNode>)
        requires
            old(self).wf(),
            prefix_rule(tok_at(old(self).tokens(), old(self).index()).kind) == Some(
                PrefixParseFn::PrefixOperator,
            ),
        ensures
            final(self).wf(),
            final(self).tokens() == old(self).tokens(),
            ({
                let p = parse_prefix(
                    old(self).tokens(),
                    old(self).index(),
                    PrefixParseFn::PrefixOperator,
                );
                &&& opt_expr_view(r) == p.node
                &&& final(self).diagnostics() == old(self).diagnostics() + p.errors
                &&& final(self).index() == p.last
            }),
        decreases old(self).tokens().len() - old(self).index(), 0nat,
    {
        let token = self.current_token.duplicate();
        let operator = self.current_token.literal.clone();
        self.next_token();
        let right = self.parse_expression(PrecedenceLevel::Prefix);
        match right {
            Some(r) => Some(
                ExpressionNode::Prefix(PrefixExpression { token, operator, right: Box::new(r) }),
            ),
            None => None,
        }
    }

    fn parse_grouped_expression(&mut self) -> (r: Option<ExpressionNode>)
        requires
            old(self).wf(),
            tok_at(old(self).tokens(), old(self).index()).kind == TokenKind::LeftParen,
        ensures
            final(self).wf(),
            final(self).tokens() == old(self).tokens(),
            ({
                let p = parse_prefix(old(self).tokens(), old(self).index(), PrefixParseFn::Grouped);
                &&& opt_expr_view(r) == p.node
                &&& final(self).diagnostics() == old(self).diagnostics() + p.errors
                &&& final(self).index() == p.last
            }),
        decreases old(self).tokens().len() - old(self).index(), 0nat,
    {
        let ghost d0 = self.diagnostics();
        self.next_token();
        let expression = self.parse_expression(PrecedenceLevel::Lowest);
        let ghost d1 = self.diagnostics();
        if !self.expect_peek(TokenKind::RightParen) {
            assert(self.diagnostics() =~= d0 + (d1.subrange(d0.len() as int, d1.len() as int)).push(
                self.diagnostics().last(),
            ));
            return None;
        }
        expression
    }

    /// Runs a prefix handler on the current token.
    fn apply_prefix(&mut self, rule: PrefixParseFn) -> (r: Option<ExpressionNode>)
        requires
            old(self).wf(),
            prefix_rule(tok_at(old(self).tokens(), old(self).index()).kind) == Some(rule),
        ensures
            final(self).wf(),
            final(self).tokens() == old(self).tokens(),
            ({
                let p = parse_prefix(old(self).tokens(), old(self).index(), rule);
                &&& opt_expr_view(r) == p.node
                &&& final(self).diagnostics() == old(self).diagnostics() + p.errors
                &&& final(self).index() == p.last
            }),
        decreases old(self).tokens().len() - old(self).index(), 1nat,
    {
        match rule {
            PrefixParseFn::Identifier => {
                assert(self.diagnostics() + Seq::<Seq<char>>::empty() =~= self.diagnostics());
                self.parse_identifier()
            },
            PrefixParseFn::IntegerLiteral => self.parse_integer_literal(),
            PrefixParseFn::PrefixOperator => self.parse_prefix_expression(),
            PrefixParseFn::Grouped => self.parse_grouped_expression(),
        }
    }

    /// Parses an expression starting at the current token, folding in the
    /// operators that bind tighter than `precedence`.
    fn parse_expression(&mut self, precedence: PrecedenceLevel) -> (r: Option<ExpressionNode>)
        requires
            old(self).wf(),
        ensures
            final(self).wf(),
            final(self).tokens() == old(self).tokens(),
            ({
                let p = parse_expr(old(self).tokens(), old(self).index(), precedence);
                &&& opt_expr_view(r) == p.node
                &&& final(self).diagnostics() == old(self).diagnostics() + p.errors
                &&& final(self).index() == p.last
            }),
        decreases old(self).tokens().len() - old(self).index(), 2nat,
    {
        let ghost toks = self.tokens@;
        let ghost k = self.index@;
        let ghost d0 = self.diagnostics();
        let rule = match self.prefix_fn(self.current_token.kind) {
            Some(rule) => rule,
            None => {
                assert(d0 + Seq::<Seq<char>>::empty() =~= d0);
                return None;
            },
        };
        proof {
            lemma_prefix_bounds(toks, k, rule);
        }
        let ghost pre = parse_prefix(toks, k, rule);
        let first = self.apply_prefix(rule);
        let mut left = match first {
            Some(left) => left,
            None => {
                return None;
            },
        };
        let ghost mut acc = pre.errors;
        loop
            invariant
                self.wf(),
                self.tokens() == toks,
                toks == old(self).tokens(),
                k == old(self).index(),
                d0 == old(self).diagnostics(),
                0 <= k <= self.index() < toks.len(),
                self.diagnostics() == d0 + acc,
                ({
                    let c = climb(toks, self.index(), left@, precedence);
                    let target = parse_expr(toks, k, precedence);
                    &&& target.node == c.node
                    &&& target.last == c.last
                    &&& target.errors == acc + c.errors
                }),
            decreases toks.len() - self.index(),
        {
            let ghost i = self.index@;
            let peek_kind = self.peek_token.kind;
            let infix = self.infix_fn(peek_kind);
            let peek_precedence = token_precedence(peek_kind);
            if infix.is_none() || peek_precedence.rank() <= precedence.rank() {
                assert(acc + Seq::<Seq<char>>::empty() =~= acc);
                return Some(left);
            }
            self.next_token();
            let token = self.current_token.duplicate();
            let operator = self.current_token.literal.clone();
            self.next_token();
            proof {
                lemma_expr_bounds(toks, i + 2, peek_precedence);
            }
            let ghost right_parse = parse_expr(toks, i + 2, peek_precedence);
            let right = self.parse_expression(peek_precedence);
            match right {
                Some(r) => {
                    left = ExpressionNode::Infix(
                        InfixExpression {
                            token,
                            left: Box::new(left),
                            operator,
                            right: Box::new(r),
                        },
                    );
                    proof {
                        assert(d0 + acc + right_parse.errors =~= d0 + (acc + right_parse.errors));
                        let rest = climb(toks, right_parse.last, left@, precedence);
                        assert(acc + (right_parse.errors + rest.errors) =~= (acc
                            + right_parse.errors) + rest.errors);
                        acc = acc + right_parse.errors;
                    }
                },
                None => {
                    assert(d0 + acc + right_parse.errors =~= d0 + (acc + right_parse.errors));
                    return None;
                },
            }
        }
    }

    /// Parses the statement that starts at the current token.
    fn parse_statement(&mut self) -> (r: Option<StatementNode>)
        requires
            old(self).wf(),
        ensures
            final(self).wf(),
            final(self).tokens() == old(self).tokens(),
            ({
                let p = parse_stmt(old(self).tokens(), old(self).index());
                &&& opt_stmt_view(r) == p.node
                &&& final(self).diagnostics() == old(self).diagnostics() + p.errors
                &&& final(self).index() == p.last
            }),
    {
        match self.current_token.kind {
            TokenKind::Var => self.parse_var_statement(),
            TokenKind::Return => self.parse_return_statement(),
            _ => self.parse_expression_statement(),
        }
    }

    fn parse_expression_statement(&mut self) -> (r: Option<StatementNode>)
        requires
            old(self).wf(),
            tok_at(old(self).tokens(), old(self).index()).kind != TokenKind::Var,
            tok_at(old(self).tokens(), old(self).index()).kind != TokenKind::Return,
        ensures
            final(self).wf(),
            final(self).tokens() == old(self).tokens(),
            ({
                let p = parse_stmt(old(self).tokens(), old(self).index());
                &&& opt_stmt_view(r) == p.node
                &&& final(self).diagnostics() == old(self).diagnostics() + p.errors
                &&& final(self).index() == p.last
            }),
    {
        let token = self.current_token.duplicate();
        let expression = self.parse_expression(PrecedenceLevel::Lowest);
        if self.peek_token_is(TokenKind::SemiColon) {
            self.next_token();
        }
        Some(StatementNode::Expression(ExpressionStatement { token, expression }))
    }

    fn parse_return_statement(&mut self) -> (r: Option<StatementNode>)
        requires
            old(self).wf(),
            tok_at(old(self).tokens(), old(self).index()).kind == TokenKind::Return,
        ensures
            final(self).wf(),
            final(self).tokens() == old(self).tokens(),
            ({
                let p = parse_stmt(old(self).tokens(), old(self).index());
                &&& opt_stmt_view(r) == p.node
                &&& final(self).diagnostics() == old(self).diagnostics() + p.errors
                &&& final(self).index() == p.last
            }),
    {
        let token = self.current_token.duplicate();
        if self.peek_token_is(TokenKind::SemiColon) {
            self.next_token();
            assert(self.diagnostics() + Seq::<Seq<char>>::empty() =~= self.diagnostics());
            return Some(StatementNode::Return(ReturnStatement { token, ret_value: None }));
        }
        let ghost d0 = self.diagnostics();
        self.next_token();
        let ret_value = self.parse_expression(PrecedenceLevel::Lowest);
        let ghost d1 = self.diagnostics();
        if !self.expect_peek(TokenKind::SemiColon) {
            assert(self.diagnostics() =~= d0 + d1.subrange(d0.len() as int, d1.len() as int).push(
                self.diagnostics().last(),
            ));
            return None;
        }
        Some(StatementNode::Return(ReturnStatement { token, ret_value }))
    }

    fn parse_var_statement(&mut self) -> (r: Option<StatementNode>)
        requires
            old(self).wf(),
            tok_at(old(self).tokens(), old(self).index()).kind == TokenKind::Var,
        ensures
            final(self).wf(),
            final(self).tokens() == old(self).tokens(),
            ({
                let p = parse_stmt(old(self).tokens(), old(self).index());
                &&& opt_stmt_view(r) == p.node
                &&& final(self).diagnostics() == old(self).diagnostics() + p.errors
                &&& final(self).index() == p.last
            }),
    {
        let ghost d0 = self.diagnostics();
        let token = self.current_token.duplicate();
        if !self.expect_peek(TokenKind::Identifier) {
            assert(d0.push(self.diagnostics().last()) =~= d0 + seq![self.diagnostics().last()]);
            return None;
        }
        let name = Identifier {
            token: self.current_token.duplicate(),
            value: self.current_token.literal.clone(),
        };
        if !self.expect_peek(TokenKind::Assign) {
            assert(d0.push(self.diagnostics().last()) =~= d0 + seq![self.diagnostics().last()]);
            return None;
        }
        self.next_token();
        let value = self.parse_expression(PrecedenceLevel::Lowest);
        if self.peek_token_is(TokenKind::SemiColon) {
            self.next_token();
        }
        Some(StatementNode::Var(VarStatement { token, name, value }))
    }

    /// Parses statements up to the end of the input. A statement that
    /// cannot be built is skipped with its diagnostics recorded, and parsing
    /// goes on with the token after it; a program is always returned.
    pub fn parse_program(&mut self) -> (r: Option<Program>)
        requires
            old(self).wf(),
        ensures
            final(self).wf(),
            final(self).tokens() == old(self).tokens(),
            r is Some,
            r->0@ == program_from(old(self).tokens(), old(self).index()).statements,
            tok_at(final(self).tokens(), final(self).index()).kind == TokenKind::EOF,
            final(self).diagnostics() == old(self).diagnostics() + program_from(
                old(self).tokens(),
                old(self).index(),
            ).errors,
    {
        let ghost toks = self.tokens@;
        let ghost target = program_from(toks, self.index@);
        let ghost d0 = self.diagnostics();
        let ghost mut acc: Seq<Seq<char>> = Seq::empty();
        let mut program = Program { statements: Vec::new() };
        assert(program@ + target.statements =~= target.statements);
        assert(d0 + acc =~= d0);
        while !self.current_token_is(TokenKind::EOF)
            invariant
                self.wf(),
                self.tokens() == toks,
                toks == old(self).tokens(),
                target == program_from(toks, old(self).index()),
                d0 == old(self).diagnostics(),
                program@ + program_from(toks, self.index()).statements == target.statements,
                self.diagnostics() == d0 + acc,
                acc + program_from(toks, self.index()).errors == target.errors,
            decreases toks.len() - self.index(),
        {
            let ghost k = self.index@;
            proof {
                lemma_stmt_bounds(toks, k);
            }
            let ghost st = parse_stmt(toks, k);
            let ghost rest = program_from(toks, st.last + 1);
            let statement = self.parse_statement();
            match statement {
                Some(statement) => {
                    let ghost sv = statement@;
                    let ghost prev = program@;
                    program.statements.push(statement);
                    assert(program@ =~= prev.push(sv));
                    assert(prev.push(sv) + rest.statements =~= prev + (seq![sv]
                        + rest.statements));
                },
                None => {},
            }
            proof {
                assert(acc + (st.errors + rest.errors) =~= (acc + st.errors) + rest.errors);
                assert(d0 + acc + st.errors =~= d0 + (acc + st.errors));
                acc = acc + st.errors;
            }
            self.next_token();
        }
        Some(program)
    }

    fn register_prefix(&mut self, token_kind: TokenKind, prefix_fn: PrefixParseFn)
        ensures
            final(self).prefix_parse_fns@ == old(self).prefix_parse_fns@.push(
                (token_kind, prefix_fn),
            ),
            final(self).infix_parse_fns == old(self).infix_parse_fns,
            final(self).lexer == old(self).lexer,
            final(self).current_token == old(self).current_token,
            final(self).peek_token == old(self).peek_token,
            final(self).errors == old(self).errors,
            final(self).tokens == old(self).tokens,
            final(self).index == old(self).index,
    {
        self.prefix_parse_fns.push((token_kind, prefix_fn));
    }

    fn register_infix(&mut self, token_kind: TokenKind, infix_fn: InfixParseFn)
        ensures
            final(self).infix_parse_fns@ == old(self).infix_parse_fns@.push(
                (token_kind, infix_fn),
            ),
            final(self).prefix_parse_fns == old(self).prefix_parse_fns,
            final(self).lexer == old(self).lexer,
            final(self).current_token == old(self).current_token,
            final(self).peek_token == old(self).peek_token,
            final(self).errors == old(self).errors,
            final(self).tokens == old(self).tokens,
            final(self).index == old(self).index,
    {
        self.infix_parse_fns.push((token_kind, infix_fn));
    }
}

/// Parses one unit of source text: the program and the diagnostics
/// recorded while parsing it, in order.
pub fn parse_source(input: &str) -> (r: (Program, Vec<String>))
    ensures
        r.0@ == parse_tokens(lex(input@)).statements,
        texts(r.1@) == parse_tokens(lex(input@)).errors,
{
    let mut parser = Parser::new(Lexer::new(input));
    let program = parser.parse_program().unwrap();
    assert(Seq::<Seq<char>>::empty() + parse_tokens(lex(input@)).errors =~= parse_tokens(
        lex(input@),
    ).errors);
    (program, parser.errors)
}


} // verus!

//! The syntax tree and its canonical re-serialization.
use vstd::prelude::*;
use vstd::string::*;
use crate::token::{Token, TokenView};

verus! {

/// What the tree says of an identifier: its token and its name.
pub struct IdentView {
    pub token: TokenView,
    pub value: Seq<char>,
}

/// What the tree says of an expression.
pub enum ExprView {
    Ident(IdentView),
    Int { token: TokenView, value: i64 },
    Prefix { token: TokenView, operator: Seq<char>, right: Box<ExprView> },
    Infix { token: TokenView, left: Box<ExprView>, operator: Seq<char>, right: Box<ExprView> },
}

/// What the tree says of a statement.
pub enum StmtView {
    Var { token: TokenView, name: IdentView, value: Option<ExprView> },
    Return { token: TokenView, value: Option<ExprView> },
    Expr { token: TokenView, expression: Option<ExprView> },
}

/// Canonical text of an expression: operator applications are fully
/// parenthesized.
pub open spec fn print_expr(e: ExprView) -> Seq<char>
    decreases e,
{
    match e {
        ExprView::Ident(id) => id.value,
        ExprView::Int { token, .. } => token.literal,
        ExprView::Prefix { operator, right, .. } => "("@ + operator + print_expr(*right) + ")"@,
        ExprView::Infix { left, operator, right, .. } => "("@ + print_expr(*left) + " "@ + operator
            + " "@ + print_expr(*right) + ")"@,
    }
}

pub open spec fn print_opt_expr(e: Option<ExprView>) -> Seq<char> {
    match e {
        Some(x) => print_expr(x),
        None => Seq::empty(),
    }
}

/// Canonical text of a statement.
pub open spec fn print_stmt(s: StmtView) -> Seq<char> {
    match s {
        StmtView::Var { token, name, value } => token.literal + " "@ + name.value + " = "@
            + print_opt_expr(value) + ";"@,
        StmtView::Return { token, value } => token.literal + " "@ + print_opt_expr(value) + ";"@,
        StmtView::Expr { expression, .. } => print_opt_expr(expression),
    }
}

/// Canonical text of a program: its statements' texts, in order, with
/// nothing between them.
pub open spec fn print_program(ss: Seq<StmtView>) -> Seq<char>
    decreases ss.len(),
{
    if ss.len() == 0 {
        Seq::empty()
    } else {
        print_program(ss.drop_last()) + print_stmt(ss.last())
    }
}

/// The lexeme of the token a statement starts with.
pub open spec fn stmt_literal(s: StmtView) -> Seq<char> {
    match s {
        StmtView::Var { token, .. } => token.literal,
        StmtView::Return { token, .. } => token.literal,
        StmtView::Expr { token, .. } => token.literal,
    }
}

pub open spec fn expr_literal(e: ExprView) -> Seq<char> {
    match e {
        ExprView::Ident(id) => id.token.literal,
        ExprView::Int { token, .. } => token.literal,
        ExprView::Prefix { token, .. } => token.literal,
        ExprView::Infix { token, .. } => token.literal,
    }
}

/// A node of the tree: it knows the lexeme it started from and how to
/// print itself.
pub trait Node {
    spec fn literal_text(&self) -> Seq<char>;

    spec fn text(&self) -> Seq<char>;

    fn token_literal(&self) -> (r: String)
        ensures
            r@ == self.literal_text(),
    ;

    fn print_string(&self) -> (r: String)
        ensures
            r@ == self.text(),
    ;
}

#[derive(Debug)]
pub struct Identifier {
    pub token: Token,
    pub value: String,
}

impl View for Identifier {
    type V = IdentView;

    open spec fn view(&self) -> IdentView {
        IdentView { token: self.token@, value: self.value@ }
    }
}

impl Node for Identifier {
    open spec fn literal_text(&self) -> Seq<char> {
        self.token.literal@
    }

    open spec fn text(&self) -> Seq<char> {
        self.value@
    }

    fn token_literal(&self) -> (r: String) {
        self.token.literal.clone()
    }

    fn print_string(&self) -> (r: String) {
        self.value.clone()
    }
}

#[derive(Debug)]
pub struct IntegerLiteral {
    pub token: Token,
    pub value: i64,
}

impl Node for IntegerLiteral {
    open spec fn literal_text(&self) -> Seq<char> {
        self.token.literal@
    }

    open spec fn text(&self) -> Seq<char> {
        self.token.literal@
    }

    fn token_literal(&self) -> (r: String) {
        self.token.literal.clone()
    }

    fn print_string(&self) -> (r: String) {
        self.token.literal.clone()
    }
}

/// An operator applied to one operand that follows it: `-x`, `!x`.
#[derive(Debug)]
pub struct PrefixExpression {
    pub token: Token,
    pub operator: String,
    pub right: Box<ExpressionNode>,
}

/// An operator between two operands: `a - b`.
#[derive(Debug)]
pub struct InfixExpression {
    pub token: Token,
    pub left: Box<ExpressionNode>,
    pub operator: String,
    pub right: Box<ExpressionNode>,
}

#[derive(Debug)]
pub enum ExpressionNode {
    IdentifierNode(Identifier),
    Integer(IntegerLiteral),
    Prefix(PrefixExpression),
    Infix(InfixExpression),
}

pub open spec fn expr_view(e: ExpressionNode) -> ExprView
    decreases e,
{
    match e {
        ExpressionNode::IdentifierNode(id) => ExprView::Ident(id@),
        ExpressionNode::Integer(i) => ExprView::Int { token: i.token@, value: i.value },
        ExpressionNode::Prefix(p) => ExprView::Prefix {
            token: p.token@,
            operator: p.operator@,
            right: Box::new(expr_view(*p.right)),
        },
        ExpressionNode::Infix(i) => ExprView::Infix {
            token: i.token@,
            left: Box::new(expr_view(*i.left)),
            operator: i.operator@,
            right: Box::new(expr_view(*i.right)),
        },
    }
}

impl View for ExpressionNode {
    type V = ExprView;

    open spec fn view(&self) -> ExprView {
        expr_view(*self)
    }
}

pub open spec fn opt_expr_view(e: Option<ExpressionNode>) -> Option<ExprView> {
    match e {
        Some(x) => Some(x@),
        None => None,
    }
}

pub open spec fn opt_stmt_view(s: Option<StatementNode>) -> Option<StmtView> {
    match s {
        Some(x) => Some(x@),
        None => None,
    }
}

fn expr_literal_of(e: &ExpressionNode) -> (r: String)
    ensures
        r@ == expr_literal(e@),
{
    match e {
        ExpressionNode::IdentifierNode(id) => id.token.literal.clone(),
        ExpressionNode::Integer(i) => i.token.literal.clone(),
        ExpressionNode::Prefix(p) => p.token.literal.clone(),
        ExpressionNode::Infix(i) => i.token.literal.clone(),
    }
}

fn expr_text(e: &ExpressionNode) -> (r: String)
    ensures
        r@ == print_expr(e@),
    decreases e,
{
    match e {
        ExpressionNode::IdentifierNode(id) => id.value.clone(),
        ExpressionNode::Integer(i) => i.token.literal.clone(),
        ExpressionNode::Prefix(p) => {
            let mut out = String::from_str("(");
            out.append(p.operator.as_str());
            let right = expr_text(&p.right);
            out.append(right.as_str());
            out.append(")");
            out
        },
        ExpressionNode::Infix(i) => {
            let mut out = String::from_str("(");
            let left = expr_text(&i.left);
            out.append(left.as_str());
            out.append(" ");
            out.append(i.operator.as_str());
            out.append(" ");
            let right = expr_text(&i.right);
            out.append(right.as_str());
            out.append(")");
            out
        },
    }
}

fn opt_expr_text(e: &Option<ExpressionNode>) -> (r: String)
    ensures
        r@ == print_opt_expr(opt_expr_view(*e)),
{
    match e {
        Some(x) => expr_text(x),
        None => String::new(),
    }
}

impl Node for ExpressionNode {
    open spec fn literal_text(&self) -> Seq<char> {
        expr_literal(self@)
    }

    open spec fn text(&self) -> Seq<char> {
        print_expr(self@)
    }

    fn token_literal(&self) -> (r: String) {
        expr_literal_of(self)
    }

    fn print_string(&self) -> (r: String) {
        expr_text(self)
    }
}

impl Node for PrefixExpression {
    open spec fn literal_text(&self) -> Seq<char> {
        self.token.literal@
    }

    open spec fn text(&self) -> Seq<char> {
        "("@ + self.operator@ + print_expr(self.right@) + ")"@
    }

    fn token_literal(&self) -> (r: String) {
        self.token.literal.clone()
    }

    fn print_string(&self) -> (r: String) {
        let mut out = String::from_str("(");
        out.append(self.operator.as_str());
        let right = expr_text(&self.right);
        out.append(right.as_str());
        out.append(")");
        out
    }
}

impl Node for InfixExpression {
    open spec fn literal_text(&self) -> Seq<char> {
        self.token.literal@
    }

    open spec fn text(&self) -> Seq<char> {
        "("@ + print_expr(self.left@) + " "@ + self.operator@ + " "@ + print_expr(self.right@)
            + ")"@
    }

    fn token_literal(&self) -> (r: String) {
        self.token.literal.clone()
    }

    fn print_string(&self) -> (r: String) {
        let mut out = String::from_str("(");
        let left = expr_text(&self.left);
        out.append(left.as_str());
        out.append(" ");
        out.append(self.operator.as_str());
        out.append(" ");
        let right = expr_text(&self.right);
        out.append(right.as_str());
        out.append(")");
        out
    }
}

/// `var <name> = <value>;`
#[derive(Debug)]
pub struct VarStatement {
    pub token: Token,
    pub name: Identifier,
    pub value: Option<ExpressionNode>,
}

/// `return <value>;`
#[derive(Debug)]
pub struct ReturnStatement {
    pub token: Token,
    pub ret_value: Option<ExpressionNode>,
}

/// An expression standing as a statement.
#[derive(Debug)]
pub struct ExpressionStatement {
    pub token: Token,
    pub expression: Option<ExpressionNode>,
}

#[derive(Debug)]
pub enum StatementNode {
    Var(VarStatement),
    Return(ReturnStatement),
    Expression(ExpressionStatement),
}

impl View for StatementNode {
    type V = StmtView;

    open spec fn view(&self) -> StmtView {
        match self {
            StatementNode::Var(v) => StmtView::Var {
                token: v.token@,
                name: v.name@,
                value: opt_expr_view(v.value),
            },
            StatementNode::Return(r) => StmtView::Return {
                token: r.token@,
                value: opt_expr_view(r.ret_value),
            },
            StatementNode::Expression(e) => StmtView::Expr {
                token: e.token@,
                expression: opt_expr_view(e.expression),
            },
        }
    }
}

impl Node for VarStatement {
    open spec fn literal_text(&self) -> Seq<char> {
        self.token.literal@
    }

    open spec fn text(&self) -> Seq<char> {
        self.token.literal@ + " "@ + self.name.value@ + " = "@ + print_opt_expr(
            opt_expr_view(self.value),
        ) + ";"@
    }

    fn token_literal(&self) -> (r: String) {
        self.token.literal.clone()
    }

    fn print_string(&self) -> (r: String) {
        let mut out = self.token_literal();
        out.append(" ");
        let name = self.name.print_string();
        out.append(name.as_str());
        out.append(" = ");
        let value = opt_expr_text(&self.value);
        out.append(value.as_str());
        out.append(";");
        out
    }
}

impl Node for ReturnStatement {
    open spec fn literal_text(&self) -> Seq<char> {
        self.token.literal@
    }

    open spec fn text(&self) -> Seq<char> {
        self.token.literal@ + " "@ + print_opt_expr(opt_expr_view(self.ret_value)) + ";"@
    }

    fn token_literal(&self) -> (r: String) {
        self.token.literal.clone()
    }

    fn print_string(&self) -> (r: String) {
        let mut out = self.token_literal();
        out.append(" ");
        let value = opt_expr_text(&self.ret_value);
        out.append(value.as_str());
        out.append(";");
        out
    }
}

impl Node for ExpressionStatement {
    open spec fn literal_text(&self) -> Seq<char> {
        self.token.literal@
    }

    open spec fn text(&self) -> Seq<char> {
        print_opt_expr(opt_expr_view(self.expression))
    }

    fn token_literal(&self) -> (r: String) {
        self.token.literal.clone()
    }

    fn print_string(&self) -> (r: String) {
        opt_expr_text(&self.expression)
    }
}

impl Node for StatementNode {
    open spec fn literal_text(&self) -> Seq<char> {
        stmt_literal(self@)
    }

    open spec fn text(&self) -> Seq<char> {
        print_stmt(self@)
    }

    fn token_literal(&self) -> (r: String) {
        match self {
            StatementNode::Var(v) => v.token_literal(),
            StatementNode::Return(r) => r.token_literal(),
            StatementNode::Expression(e) => e.token_literal(),
        }
    }

    fn print_string(&self) -> (r: String) {
        match self {
            StatementNode::Var(v) => v.print_string(),
            StatementNode::Return(r) => r.print_string(),
            StatementNode::Expression(e) => e.print_string(),
        }
    }
}

/// A parsed unit: its statements in source order.
#[derive(Debug)]
pub struct Program {
    pub statements: Vec<StatementNode>,
}

impl View for Program {
    type V = Seq<StmtView>;

    open spec fn view(&self) -> Seq<StmtView> {
        self.statements@.map_values(|s: StatementNode| s@)
    }
}

impl Node for Program {
    open spec fn literal_text(&self) -> Seq<char> {
        if self@.len() > 0 {
            stmt_literal(self@[0])
        } else {
            Seq::empty()
        }
    }

    open spec fn text(&self) -> Seq<char> {
        print_program(self@)
    }

    fn token_literal(&self) -> (r: String) {
        if self.statements.len() > 0 {
            self.statements[0].token_literal()
        } else {
            String::new()
        }
    }

    fn print_string(&self) -> (r: String) {
        let mut output = String::new();
        let mut i: usize = 0;
        while i < self.statements.len()
            invariant
                i <= self.statements.len(),
                output@ == print_program(self@.take(i as int)),
            decreases self.statements.len() - i,
        {
            let text = self.statements[i].print_string();
            output.append(text.as_str());
            proof {
                assert(self@.take(i + 1).drop_last() =~= self@.take(i as int));
            }
            i = i + 1;
        }
        proof {
            assert(self@.take(i as int) =~= self@);
        }
        output
    }
}

} // verus!

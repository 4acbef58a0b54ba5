use rollok::ast::{
    ExpressionNode, ExpressionStatement, Identifier, Node, Program, ReturnStatement,
    StatementNode, VarStatement,
};
use rollok::token::{Token, TokenKind};

#[test]
fn test_print_string() {
    let program = Program {
        statements: vec![StatementNode::Var(VarStatement {
            token: Token {
                kind: TokenKind::Var,
                literal: String::from("var"),
                position: 0,
            },
            name: Identifier {
                token: Token {
                    kind: TokenKind::Identifier,
                    literal: String::from("myVar"),
                    position: 0,
                },
                value: String::from("myVar"),
            },
            value: Some(ExpressionNode::IdentifierNode(Identifier {
                token: Token {
                    kind: TokenKind::Identifier,
                    literal: String::from("anotherVar"),
                    position: 0,
                },
                value: String::from("anotherVar"),
            })),
        })],
    };

    assert_eq!(
        program.print_string(),
        String::from("var myVar = anotherVar;"),
        "print string wrong, got = {}",
        program.print_string()
    );
}

fn tok(kind: TokenKind, literal: &str) -> Token {
    Token {
        kind,
        literal: literal.to_string(),
        position: 0,
    }
}

#[test]
fn program_text_concatenates_statements() {
    let program = Program {
        statements: vec![
            StatementNode::Return(ReturnStatement {
                token: tok(TokenKind::Return, "return"),
                ret_value: None,
            }),
            StatementNode::Expression(ExpressionStatement {
                token: tok(TokenKind::Identifier, "x"),
                expression: Some(ExpressionNode::IdentifierNode(Identifier {
                    token: tok(TokenKind::Identifier, "x"),
                    value: "x".to_string(),
                })),
            }),
        ],
    };
    assert_eq!(program.print_string(), "return ;x");
    assert_eq!(program.token_literal(), "return");
}

#[test]
fn empty_program_prints_nothing() {
    let program = Program { statements: vec![] };
    assert_eq!(program.print_string(), "");
    assert_eq!(program.token_literal(), "");
}

#[test]
fn token_equality_ignores_position() {
    let a = Token {
        kind: TokenKind::Plus,
        literal: "+".to_string(),
        position: 3,
    };
    let b = Token {
        kind: TokenKind::Plus,
        literal: "+".to_string(),
        position: 9,
    };
    let c = Token {
        kind: TokenKind::Minus,
        literal: "+".to_string(),
        position: 3,
    };
    assert!(a == b);
    assert!(a != c);
}

#[test]
fn kind_symbols() {
    assert_eq!(TokenKind::LeftBrace.symbol(), "{");
    assert_eq!(TokenKind::Slash.symbol(), "#");
    assert_eq!(TokenKind::NotEq.symbol(), "!=");
    assert_eq!(TokenKind::EOF.symbol(), "EOF");
    assert_eq!(TokenKind::Error.symbol(), "illegal");
    assert_eq!(TokenKind::Identifier.symbol(), "other");
    assert_eq!(TokenKind::default(), TokenKind::Error);
}

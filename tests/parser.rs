use rollok::ast::{ExpressionNode, Node, Program, StatementNode};
use rollok::lexer2::Lexer;
use rollok::parser::{parse_source, Parser};

fn test_var_statement(stmt: &StatementNode, expected: &str) {
    assert_eq!(
        stmt.token_literal(),
        "var",
        "token literal not `var`. got={}",
        stmt.token_literal()
    );

    match stmt {
        StatementNode::Var(var_stmt) => {
            assert_eq!(
                var_stmt.name.value, expected,
                "VarStatement name value not {}. got={}",
                expected, var_stmt.name.value
            );
            assert_eq!(
                var_stmt.name.token_literal(),
                expected,
                "VarStatement name value not {}. got={}",
                expected,
                var_stmt.name.token_literal()
            );
        }
        other => panic!("stmt is not VarStatement. got={:?}", other),
    }
}

fn check_parser_errors(parser: Parser) {
    let errors = parser.errors();

    if errors.len() == 0 {
        return;
    }

    for error in errors {
        println!("parser error: {}", error);
    }

    panic!("parser error present!")
}

fn parse(input: &str) -> (Program, Vec<String>) {
    let lexer = Lexer::new(input);
    let mut parser = Parser::new(lexer);
    let program = parser.parse_program().unwrap();
    let errors = parser.errors().clone();
    (program, errors)
}

#[test]
fn test_var_statements() {
    let input = r#"
            var x = 4;
            var y = 10;
            var foobar = 83838;
        "#;

    let lexer = Lexer::new(input);
    let mut parser = Parser::new(lexer);
    let program = parser.parse_program();
    check_parser_errors(parser);

    match program {
        Some(program) => {
            assert_eq!(
                program.statements.len(),
                3,
                "statements does not contain 3 statements. got = {}",
                program.statements.len()
            );

            let expected = vec!["x", "y", "foobar"];

            for (idx, exp) in expected.into_iter().enumerate() {
                let stmt = &program.statements[idx];
                test_var_statement(stmt, exp);
            }
        }
        None => panic!("parse program should not be none"),
    }
}

#[test]
fn tests_return_statement() {
    let input = r#"
            return 5;
            return 10;
            return 156154;
        "#;

    let lexer = Lexer::new(input);
    let mut parser = Parser::new(lexer);
    let program = parser.parse_program();
    check_parser_errors(parser);

    match program {
        Some(program) => {
            assert_eq!(
                program.statements.len(),
                3,
                "statements does not contain 3 statements. got = {}",
                program.statements.len()
            );

            for stmt in program.statements {
                match stmt {
                    StatementNode::Return(ret_stmt) => {
                        assert_eq!(
                            ret_stmt.token_literal(),
                            "return",
                            "token literal not `return`. got={:?}",
                            ret_stmt.token_literal()
                        )
                    }
                    other => panic!("stmt is not ReturnStatement. got={:?}", other),
                }
            }
        }
        None => panic!("parse program should not be none"),
    }
}

#[test]
fn test_identifier_expression() {
    let input = "foobar;";

    let lexer = Lexer::new(input);
    let mut parser = Parser::new(lexer);

    let program = parser.parse_program().unwrap();
    check_parser_errors(parser);

    assert_eq!(
        program.statements.len(),
        1,
        "statements does not contain enough statements, got={}",
        program.statements.len()
    );

    match &program.statements[0] {
        StatementNode::Expression(exp_stmt) => {
            assert!(exp_stmt.expression.is_some());

            match exp_stmt.expression.as_ref().unwrap() {
                ExpressionNode::IdentifierNode(identifier) => {
                    assert_eq!(
                        identifier.value, "foobar",
                        "identifier value not `foobar`. got={}",
                        identifier.value
                    );
                    assert_eq!(
                        identifier.token_literal(),
                        "foobar",
                        "identifier.token_literal() is not `foobar`. got={}",
                        identifier.token_literal()
                    )
                }
                other => panic!("expression not identifier. got={:?}", other),
            }
        }
        other => panic!(
            "program.statements[0] is not ExpressionStatement. got={:?}",
            other
        ),
    }
}

#[test]
fn test_integer_literal_expression() {
    let input = "5;";

    let lexer = Lexer::new(input);
    let mut parser = Parser::new(lexer);

    let program = parser.parse_program().unwrap();

    check_parser_errors(parser);

    assert_eq!(
        program.statements.len(),
        1,
        "program.statement does not contain enough statements. got={}",
        program.statements.len()
    );

    match &program.statements[0] {
        StatementNode::Expression(exp_stmt) => {
            assert!(exp_stmt.expression.is_some());
            match exp_stmt.expression.as_ref().unwrap() {
                ExpressionNode::Integer(integer) => {
                    assert_eq!(
                        integer.value, 5,
                        "integer.value not `5`. got={}",
                        integer.value
                    );
                    assert_eq!(
                        integer.token_literal(),
                        "5",
                        "integer.value not `5`. got={}",
                        integer.token_literal()
                    );
                }
                other => panic!("Expression not an IntegerLiteral. got={:?}", other),
            }
        }
        other => panic!(
            "program.statements[0] is not ExpressionStatement. got={:?}",
            other
        ),
    }
}

#[test]
fn var_statement_keeps_its_value() {
    let (program, errors) = parse("var x = 4; var y = x;");
    assert!(errors.is_empty());
    assert_eq!(program.print_string(), "var x = 4;var y = x;");
}

#[test]
fn equal_precedence_groups_to_the_left() {
    let (program, errors) = parse("a - b - c");
    assert!(errors.is_empty());
    assert_eq!(program.statements.len(), 1);
    assert_eq!(program.print_string(), "((a - b) - c)");
    let (program, _) = parse("a * b / c;");
    assert_eq!(program.print_string(), "((a * b) / c)");
    let (program, _) = parse("1 < 2 > 3;");
    assert_eq!(program.print_string(), "((1 < 2) > 3)");
}

#[test]
fn tighter_operators_bind_first() {
    let cases = [
        ("a + b * c", "(a + (b * c))"),
        ("a * b + c", "((a * b) + c)"),
        ("-a * b", "((-a) * b)"),
        ("!-a", "(!(-a))"),
        ("a + b < c * d", "((a + b) < (c * d))"),
        ("(a + b) * c", "((a + b) * c)"),
        ("a - (b - c)", "(a - (b - c))"),
        ("var r = 1 + 2 * 3;", "var r = (1 + (2 * 3));"),
        ("return x - 1;", "return (x - 1);"),
    ];
    for (input, expected) in cases {
        let (program, errors) = parse(input);
        assert!(errors.is_empty(), "{input}: {errors:?}");
        assert_eq!(program.print_string(), expected, "{input}");
    }
}

#[test]
fn missing_assign_adds_one_error_and_parsing_goes_on() {
    let (program, errors) = parse("var x 5; var y = 10;");
    assert_eq!(
        errors,
        vec!["expected next token to be =, got other instead".to_string()]
    );
    assert_eq!(program.statements.len(), 2);
    assert!(matches!(program.statements[0], StatementNode::Expression(_)));
    test_var_statement(&program.statements[1], "y");
}

#[test]
fn missing_name_is_reported() {
    let (program, errors) = parse("var = 5;");
    assert_eq!(
        errors,
        vec!["expected next token to be other, got = instead".to_string()]
    );
    assert_eq!(program.print_string(), "5");
}

#[test]
fn missing_right_paren_is_reported() {
    let (program, errors) = parse("(a + b;");
    assert_eq!(
        errors,
        vec!["expected next token to be ), got ; instead".to_string()]
    );
    assert_eq!(program.statements.len(), 1);
    match &program.statements[0] {
        StatementNode::Expression(e) => assert!(e.expression.is_none()),
        other => panic!("not an expression statement: {:?}", other),
    }
}

#[test]
fn oversized_integer_gives_conversion_error() {
    let (program, errors) = parse("9223372036854775808;");
    assert_eq!(
        errors,
        vec!["could not parse 9223372036854775808 as integer".to_string()]
    );
    assert_eq!(program.statements.len(), 1);
    match &program.statements[0] {
        StatementNode::Expression(e) => assert!(e.expression.is_none()),
        other => panic!("not an expression statement: {:?}", other),
    }
}

#[test]
fn largest_integer_parses() {
    let (program, errors) = parse("9223372036854775807");
    assert!(errors.is_empty());
    match &program.statements[0] {
        StatementNode::Expression(e) => match e.expression.as_ref().unwrap() {
            ExpressionNode::Integer(i) => assert_eq!(i.value, i64::MAX),
            other => panic!("not an integer: {:?}", other),
        },
        other => panic!("not an expression statement: {:?}", other),
    }
    let (program, _) = parse("007");
    match &program.statements[0] {
        StatementNode::Expression(e) => match e.expression.as_ref().unwrap() {
            ExpressionNode::Integer(i) => assert_eq!(i.value, 7),
            other => panic!("not an integer: {:?}", other),
        },
        other => panic!("not an expression statement: {:?}", other),
    }
}

#[test]
fn bare_return_and_empty_input() {
    let (program, errors) = parse("return;");
    assert!(errors.is_empty());
    assert_eq!(program.print_string(), "return ;");
    let (program, errors) = parse("");
    assert!(errors.is_empty());
    assert!(program.statements.is_empty());
    let (program, errors) = parse("return");
    assert!(program.statements.is_empty());
    assert_eq!(
        errors,
        vec!["expected next token to be ;, got EOF instead".to_string()]
    );
}

#[test]
fn return_must_end_with_semicolon() {
    let (program, errors) = parse("return 5 6;");
    assert_eq!(
        errors,
        vec!["expected next token to be ;, got other instead".to_string()]
    );
    assert_eq!(program.statements.len(), 1);
    assert!(matches!(program.statements[0], StatementNode::Expression(_)));
    assert_eq!(program.print_string(), "6");
}

#[test]
fn parse_program_stops_at_end_of_file() {
    let lexer = Lexer::new("x; return @; var");
    let mut parser = Parser::new(lexer);
    let program = parser.parse_program().unwrap();
    assert!(!parser.errors().is_empty());
    assert!(!program.statements.is_empty());
}

#[test]
fn statements_without_expression_are_kept() {
    let (program, errors) = parse(";;x");
    assert!(errors.is_empty());
    assert_eq!(program.statements.len(), 2);
    assert_eq!(program.print_string(), "x");
}

#[test]
fn parse_source_returns_program_and_errors() {
    let (program, errors) = parse_source("var a = 1; var b 2; a + b");
    assert_eq!(errors.len(), 1);
    assert_eq!(program.print_string(), "var a = 1;2(a + b)");
}

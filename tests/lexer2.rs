use rollok::lexer2::Lexer;
use rollok::token::{lookup_ident, Token, TokenKind};

fn t(kind: TokenKind, literal: &str) -> Token {
    Token {
        kind,
        literal: literal.to_string(),
        position: 0,
    }
}

fn exec_assert(expected: Vec<Token>, lexer: &mut Lexer) {
    for (index, exp_token) in expected.into_iter().enumerate() {
        let receive_token = lexer.next_token();
        assert_eq!(
            exp_token.kind, receive_token.kind,
            "tests[{index}] - token type wrong. Expected={:?}, got={:?}",
            exp_token.kind, receive_token.kind
        );

        assert_eq!(
            exp_token.literal, receive_token.literal,
            "tests[{index}] - literal wrong. Expected={}, got={}",
            exp_token.literal, receive_token.literal
        );
    }
}

fn all_tokens(input: &str) -> Vec<Token> {
    let mut lexer = Lexer::new(input);
    let mut out = Vec::new();
    loop {
        let tok = lexer.next_token();
        let done = tok.kind == TokenKind::EOF;
        out.push(tok);
        if done {
            return out;
        }
    }
}

#[test]
fn test_program() {
    let input = r#"
            var five = 5;
            const six = 6;

            var add = {x, y => x + y};
            var result = add(five, six);

            !-/*5;
            5 < 10 > 5;
        "#;

    let expected: Vec<Token> = vec![
        t(TokenKind::Var, "var"),
        t(TokenKind::Identifier, "five"),
        t(TokenKind::Assign, "="),
        t(TokenKind::Number, "5"),
        t(TokenKind::SemiColon, ";"),
        t(TokenKind::Const, "const"),
        t(TokenKind::Identifier, "six"),
        t(TokenKind::Assign, "="),
        t(TokenKind::Number, "6"),
        t(TokenKind::SemiColon, ";"),
        t(TokenKind::Var, "var"),
        t(TokenKind::Identifier, "add"),
        t(TokenKind::Assign, "="),
        t(TokenKind::LeftBrace, "{"),
        t(TokenKind::Identifier, "x"),
        t(TokenKind::Comma, ","),
        t(TokenKind::Identifier, "y"),
        t(TokenKind::Assign, "="),
        t(TokenKind::GreaterThan, ">"),
        t(TokenKind::Identifier, "x"),
        t(TokenKind::Plus, "+"),
        t(TokenKind::Identifier, "y"),
        t(TokenKind::RightBrace, "}"),
        t(TokenKind::SemiColon, ";"),
        t(TokenKind::Var, "var"),
        t(TokenKind::Identifier, "result"),
        t(TokenKind::Assign, "="),
        t(TokenKind::Identifier, "add"),
        t(TokenKind::LeftParen, "("),
        t(TokenKind::Identifier, "five"),
        t(TokenKind::Comma, ","),
        t(TokenKind::Identifier, "six"),
        t(TokenKind::RightParen, ")"),
        t(TokenKind::SemiColon, ";"),
        t(TokenKind::Bang, "!"),
        t(TokenKind::Minus, "-"),
        t(TokenKind::Divide, "/"),
        t(TokenKind::Multiply, "*"),
        t(TokenKind::Number, "5"),
        t(TokenKind::SemiColon, ";"),
        t(TokenKind::Number, "5"),
        t(TokenKind::LessThan, "<"),
        t(TokenKind::Number, "10"),
        t(TokenKind::GreaterThan, ">"),
        t(TokenKind::Number, "5"),
        t(TokenKind::SemiColon, ";"),
        t(TokenKind::EOF, ""),
    ];

    let mut lexer = Lexer::new(input);
    exec_assert(expected, &mut lexer);
}

#[test]
fn test_next_token() {
    let input = "=+(){},;";
    let expected: Vec<Token> = vec![
        t(TokenKind::Assign, "="),
        t(TokenKind::Plus, "+"),
        t(TokenKind::LeftParen, "("),
        t(TokenKind::RightParen, ")"),
        t(TokenKind::LeftBrace, "{"),
        t(TokenKind::RightBrace, "}"),
        t(TokenKind::Comma, ","),
        t(TokenKind::SemiColon, ";"),
    ];

    let mut lexer = Lexer::new(input);
    exec_assert(expected, &mut lexer);
}

#[test]
fn single_characters_are_never_merged() {
    let input = "+-*/=:;,()[]{}!#><==!=";
    let tokens = all_tokens(input);
    let chars: Vec<char> = input.chars().collect();
    assert_eq!(tokens.len(), chars.len() + 1);
    for (i, c) in chars.iter().enumerate() {
        assert_eq!(tokens[i].literal, c.to_string());
        assert_eq!(tokens[i].position, i);
        assert_ne!(tokens[i].kind, TokenKind::Error);
    }
    assert_eq!(tokens[14].kind, TokenKind::Bang);
    assert_eq!(tokens[15].kind, TokenKind::Slash);
    assert_eq!(tokens[18].kind, TokenKind::Assign);
    assert_eq!(tokens[19].kind, TokenKind::Assign);
    assert_eq!(tokens[chars.len()].kind, TokenKind::EOF);
}

#[test]
fn keywords_and_identifiers() {
    assert_eq!(lookup_ident("var"), TokenKind::Var);
    assert_eq!(lookup_ident("const"), TokenKind::Const);
    assert_eq!(lookup_ident("true"), TokenKind::True);
    assert_eq!(lookup_ident("false"), TokenKind::False);
    assert_eq!(lookup_ident("if"), TokenKind::If);
    assert_eq!(lookup_ident("else"), TokenKind::Else);
    assert_eq!(lookup_ident("return"), TokenKind::Return);
    assert_eq!(lookup_ident("five"), TokenKind::Identifier);
    assert_eq!(lookup_ident("function"), TokenKind::Identifier);
    assert_eq!(lookup_ident("va"), TokenKind::Identifier);
    assert_eq!(lookup_ident("vars"), TokenKind::Identifier);
}

#[test]
fn whitespace_between_tokens_changes_nothing() {
    let tight = all_tokens("var x=5;y");
    let loose = all_tokens(" \tvar \n x\r\n=  5 ;\n\n y  ");
    assert_eq!(tight.len(), loose.len());
    for i in 0..tight.len() {
        assert!(tight[i] == loose[i]);
    }
    assert_eq!(tight[2].position, 5);
    assert_eq!(loose[2].position, 11);
}

#[test]
fn empty_input_is_end_of_file_forever() {
    let mut lexer = Lexer::new("");
    for _ in 0..3 {
        let tok = lexer.next_token();
        assert_eq!(tok.kind, TokenKind::EOF);
        assert_eq!(tok.literal, "");
    }
    let mut blank = Lexer::new(" \n\t ");
    assert_eq!(blank.next_token().kind, TokenKind::EOF);
}

#[test]
fn illegal_characters_are_reported_and_skipped() {
    let tokens = all_tokens("a @ b\u{0}c");
    let kinds: Vec<TokenKind> = tokens.iter().map(|t| t.kind).collect();
    assert_eq!(
        kinds,
        vec![
            TokenKind::Identifier,
            TokenKind::Error,
            TokenKind::Identifier,
            TokenKind::Error,
            TokenKind::Identifier,
            TokenKind::EOF
        ]
    );
    assert_eq!(tokens[1].literal, "@");
    assert_eq!(tokens[1].position, 2);
}

#[test]
fn identifiers_take_unicode_letters_and_stop_at_digits() {
    let tokens = all_tokens("héllo_wörld2 東京 ½");
    assert_eq!(tokens[0].kind, TokenKind::Identifier);
    assert_eq!(tokens[0].literal, "héllo_wörld");
    assert_eq!(tokens[1].kind, TokenKind::Number);
    assert_eq!(tokens[1].literal, "2");
    assert_eq!(tokens[2].kind, TokenKind::Identifier);
    assert_eq!(tokens[2].literal, "東京");
    assert_eq!(tokens[3].kind, TokenKind::Error);
    assert_eq!(tokens[4].kind, TokenKind::EOF);
}

#[test]
fn input_ending_inside_a_word_or_number() {
    let tokens = all_tokens("abc 123");
    assert_eq!(tokens[0].literal, "abc");
    assert_eq!(tokens[1].literal, "123");
    assert_eq!(tokens[1].position, 4);
    assert_eq!(tokens[2].kind, TokenKind::EOF);
    assert_eq!(tokens[2].position, 7);
}

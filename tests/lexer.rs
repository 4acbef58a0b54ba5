use rollok::lexer::{tokenize_all_collect, Lexer, Token, TokenValue};

#[test]
fn collects_words_numbers_and_operators() {
    let tokens = tokenize_all_collect("var x = 42 + y1 {}");
    let values: Vec<TokenValue> = tokens.iter().map(|t| t.value).collect();
    assert_eq!(
        values,
        vec![
            TokenValue::Keyword("var"),
            TokenValue::Identifier("x"),
            TokenValue::Equals,
            TokenValue::Number("42"),
            TokenValue::Plus,
            TokenValue::Identifier("y1"),
            TokenValue::LeftBrace,
            TokenValue::RightBrace,
        ]
    );
    assert_eq!(tokens[3].pos, 8);
}

#[test]
fn object_is_a_keyword_and_dollar_starts_words() {
    let tokens = tokenize_all_collect("object $a_b2 a²");
    assert_eq!(tokens[0].value, TokenValue::Keyword("object"));
    assert_eq!(tokens[1].value, TokenValue::Identifier("$a_b2"));
    assert_eq!(tokens[2].value, TokenValue::Identifier("a²"));
    assert_eq!(tokens.len(), 3);
}

#[test]
fn iteration_stops_after_the_first_error() {
    let tokens = tokenize_all_collect("a ? b - c");
    assert_eq!(
        tokens,
        vec![
            Token {
                value: TokenValue::Identifier("a"),
                pos: 0
            },
            Token {
                value: TokenValue::Error,
                pos: 2
            },
        ]
    );
}

#[test]
fn next_token_resumes_after_an_error() {
    let mut lexer = Lexer::new("? -");
    assert_eq!(lexer.next_token().value, TokenValue::Error);
    assert_eq!(lexer.next_token().value, TokenValue::Minus);
    assert_eq!(lexer.next_token().value, TokenValue::EOF);
    assert_eq!(lexer.next(), None);
}

#[test]
fn empty_text_has_no_tokens() {
    assert!(tokenize_all_collect("").is_empty());
    assert!(tokenize_all_collect(" \t\r\n").is_empty());
    let mut lexer = Lexer::new("*");
    assert_eq!(
        lexer.next(),
        Some(Token {
            value: TokenValue::Multiply,
            pos: 0
        })
    );
    assert_eq!(lexer.next(), None);
}

#[test]
fn positions_are_byte_offsets() {
    let source = "é+$a1";
    let tokens = tokenize_all_collect(source);
    assert_eq!(
        tokens,
        vec![
            Token {
                value: TokenValue::Identifier("é"),
                pos: 0
            },
            Token {
                value: TokenValue::Plus,
                pos: 2
            },
            Token {
                value: TokenValue::Identifier("$a1"),
                pos: 3
            },
        ]
    );
    assert_eq!(&source[3..6], "$a1");
    let mut lexer = Lexer::new("東 x");
    assert_eq!(lexer.next_token().pos, 0);
    let x = lexer.next_token();
    assert_eq!(x.value, TokenValue::Identifier("x"));
    assert_eq!(x.pos, 4);
    let end = lexer.next_token();
    assert_eq!(end.value, TokenValue::EOF);
    assert_eq!(end.pos, 5);
}

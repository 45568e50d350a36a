use monkey_lexer::lexer::Lexer;
use monkey_lexer::token::{Token, TokenType};

#[test]
fn test_next_token() {
    let input = "=+(){},;";
    let expected = vec![
        Token::new(TokenType::Assign, 1, 1),
        Token::new(TokenType::Plus, 1, 2),
        Token::new(TokenType::Lparen, 1, 3),
        Token::new(TokenType::Rparen, 1, 4),
        Token::new(TokenType::Lbrace, 1, 5),
        Token::new(TokenType::Rbrace, 1, 6),
        Token::new(TokenType::Comma, 1, 7),
        Token::new(TokenType::Semicolon, 1, 8),
    ];

    let mut lexed = Lexer::new(input);
    assert_eq!(lexed.collect_tokens(), expected);
}

#[test]
fn test_one_line_code() {
    let input = "let five = 5;";
    let expected = vec![
        Token::new(TokenType::Let, 1, 1),
        Token::new(TokenType::Identifier("five".to_string()), 1, 5),
        Token::new(TokenType::Assign, 1, 10),
        Token::new(TokenType::Int(5), 1, 12),
        Token::new(TokenType::Semicolon, 1, 13),
    ];

    let mut lexed = Lexer::new(input);
    assert_eq!(lexed.collect_tokens(), expected);
}

#[test]
fn test_two_line_code() {
    let input = "let five = 5;
let ten = 10;";
    let expected = vec![
        Token::new(TokenType::Let, 1, 1),
        Token::new(TokenType::Identifier("five".to_string()), 1, 5),
        Token::new(TokenType::Assign, 1, 10),
        Token::new(TokenType::Int(5), 1, 12),
        Token::new(TokenType::Semicolon, 1, 13),
        Token::new(TokenType::NewLine, 1, 14),
        Token::new(TokenType::Let, 2, 1),
        Token::new(TokenType::Identifier("ten".to_string()), 2, 5),
        Token::new(TokenType::Assign, 2, 9),
        Token::new(TokenType::Int(10), 2, 11),
        Token::new(TokenType::Semicolon, 2, 13),
    ];

    let mut lexed = Lexer::new(input);
    assert_eq!(lexed.collect_tokens(), expected);
}

#[test]
fn test_ident_with_underscore() {
    let input = "_my_var";
    let expected = vec![Token::new(
        TokenType::Identifier("_my_var".to_string()),
        1,
        1,
    )];

    let mut lexed = Lexer::new(input);
    assert_eq!(lexed.collect_tokens(), expected);
}

#[test]
fn test_monkey_function() {
    let input = "let add = fn(x, y) {
x + y
};";
    let expected = vec![
        Token::new(TokenType::Let, 1, 1),
        Token::new(TokenType::Identifier("add".to_string()), 1, 5),
        Token::new(TokenType::Assign, 1, 9),
        Token::new(TokenType::Function, 1, 11),
        Token::new(TokenType::Lparen, 1, 13),
        Token::new(TokenType::Identifier("x".to_string()), 1, 14),
        Token::new(TokenType::Comma, 1, 15),
        Token::new(TokenType::Identifier("y".to_string()), 1, 17),
        Token::new(TokenType::Rparen, 1, 18),
        Token::new(TokenType::Lbrace, 1, 20),
        Token::new(TokenType::NewLine, 1, 21),
        Token::new(TokenType::Identifier("x".to_string()), 2, 1),
        Token::new(TokenType::Plus, 2, 3),
        Token::new(TokenType::Identifier("y".to_string()), 2, 5),
        Token::new(TokenType::NewLine, 2, 6),
        Token::new(TokenType::Rbrace, 3, 1),
        Token::new(TokenType::Semicolon, 3, 2),
    ];

    let mut lexed = Lexer::new(input);
    assert_eq!(lexed.collect_tokens(), expected);
}

#[test]
fn test_more_tokens() {
    let input = "!-/*5;
5 < 10 > 5;";
    let expected = vec![
        Token::new(TokenType::Exclamation, 1, 1),
        Token::new(TokenType::Minus, 1, 2),
        Token::new(TokenType::FSlash, 1, 3),
        Token::new(TokenType::Asterisk, 1, 4),
        Token::new(TokenType::Int(5), 1, 5),
        Token::new(TokenType::Semicolon, 1, 6),
        Token::new(TokenType::NewLine, 1, 7),
        Token::new(TokenType::Int(5), 2, 1),
        Token::new(TokenType::LChevron, 2, 3),
        Token::new(TokenType::Int(10), 2, 5),
        Token::new(TokenType::RChevron, 2, 8),
        Token::new(TokenType::Int(5), 2, 10),
        Token::new(TokenType::Semicolon, 2, 11),
    ];

    let mut lexed = Lexer::new(input);
    assert_eq!(lexed.collect_tokens(), expected);
}

#[test]
fn test_new_keywords() {
    let input = "true false if else return";
    let expected = vec![
        Token::new(TokenType::True, 1, 1),
        Token::new(TokenType::False, 1, 6),
        Token::new(TokenType::If, 1, 12),
        Token::new(TokenType::Else, 1, 15),
        Token::new(TokenType::Return, 1, 20),
    ];

    let mut lexed = Lexer::new(input);
    assert_eq!(lexed.collect_tokens(), expected);
}

#[test]
fn test_two_char_tokens() {
    let input = "5 == 5, true != false";
    let expected = vec![
        Token::new(TokenType::Int(5), 1, 1),
        Token::new(TokenType::Eq, 1, 3),
        Token::new(TokenType::Int(5), 1, 6),
        Token::new(TokenType::Comma, 1, 7),
        Token::new(TokenType::True, 1, 9),
        Token::new(TokenType::NotEq, 1, 14),
        Token::new(TokenType::False, 1, 17),
    ];

    let mut lexed = Lexer::new(input);
    assert_eq!(lexed.collect_tokens(), expected);
}

#[test]
fn lexer_test_next_token() {
    let input = "=+(){},;";
    let expected = vec![
        Token::new(TokenType::Assign, 1, 1),
        Token::new(TokenType::Plus, 1, 2),
        Token::new(TokenType::Lparen, 1, 3),
        Token::new(TokenType::Rparen, 1, 4),
        Token::new(TokenType::Lbrace, 1, 5),
        Token::new(TokenType::Rbrace, 1, 6),
        Token::new(TokenType::Comma, 1, 7),
        Token::new(TokenType::Semicolon, 1, 8),
    ];

    let mut lexed = Lexer::new(input);
    assert_eq!(lexed.collect_tokens(), expected);
}

#[test]
fn lexer_test_one_line_code() {
    let input = "let five = 5;";
    let expected = vec![
        Token::new(TokenType::Let, 1, 1),
        Token::new(TokenType::Identifier("five".to_string()), 1, 5),
        Token::new(TokenType::Assign, 1, 10),
        Token::new(TokenType::Int(5), 1, 12),
        Token::new(TokenType::Semicolon, 1, 13),
    ];

    let mut lexed = Lexer::new(input);
    assert_eq!(lexed.collect_tokens(), expected);
}

#[test]
fn lexer_test_two_line_code() {
    let input = "let five = 5;
let ten = 10;";
    let expected = vec![
        Token::new(TokenType::Let, 1, 1),
        Token::new(TokenType::Identifier("five".to_string()), 1, 5),
        Token::new(TokenType::Assign, 1, 10),
        Token::new(TokenType::Int(5), 1, 12),
        Token::new(TokenType::Semicolon, 1, 13),
        Token::new(TokenType::NewLine, 1, 14),
        Token::new(TokenType::Let, 2, 1),
        Token::new(TokenType::Identifier("ten".to_string()), 2, 5),
        Token::new(TokenType::Assign, 2, 9),
        Token::new(TokenType::Int(10), 2, 11),
        Token::new(TokenType::Semicolon, 2, 13),
    ];

    let mut lexed = Lexer::new(input);
    assert_eq!(lexed.collect_tokens(), expected);
}

#[test]
fn lexer_test_ident_with_underscore() {
    let input = "_my_var";
    let expected = vec![Token::new(
        TokenType::Identifier("_my_var".to_string()),
        1,
        1,
    )];

    let mut lexed = Lexer::new(input);
    assert_eq!(lexed.collect_tokens(), expected);
}

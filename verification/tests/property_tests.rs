use monkey_lexer::lexer::Lexer;
use monkey_lexer::token::{Token, TokenType};

#[test]
fn operator_disambiguation_eq() {
    let mut lexed = Lexer::new("==");
    let expected = vec![Token::new(TokenType::Eq, 1, 1)];
    assert_eq!(lexed.collect_tokens(), expected);
}

#[test]
fn operator_disambiguation_assign_then_ident() {
    let mut lexed = Lexer::new("=x");
    let expected = vec![
        Token::new(TokenType::Assign, 1, 1),
        Token::new(TokenType::Identifier("x".to_string()), 1, 2),
    ];
    assert_eq!(lexed.collect_tokens(), expected);
}

#[test]
fn operator_disambiguation_not_eq() {
    let mut lexed = Lexer::new("!=");
    let expected = vec![Token::new(TokenType::NotEq, 1, 1)];
    assert_eq!(lexed.collect_tokens(), expected);
}

#[test]
fn operator_disambiguation_bang_then_ident() {
    let mut lexed = Lexer::new("!x");
    let expected = vec![
        Token::new(TokenType::Exclamation, 1, 1),
        Token::new(TokenType::Identifier("x".to_string()), 1, 2),
    ];
    assert_eq!(lexed.collect_tokens(), expected);
}

#[test]
fn keyword_identifier_boundary() {
    let mut keyword = Lexer::new("let");
    assert_eq!(
        keyword.collect_tokens(),
        vec![Token::new(TokenType::Let, 1, 1)]
    );

    let mut ident = Lexer::new("lets");
    assert_eq!(
        ident.collect_tokens(),
        vec![Token::new(TokenType::Identifier("lets".to_string()), 1, 1)]
    );
}

#[test]
fn illegal_character_then_exhaustion() {
    let mut lexed = Lexer::new("@");
    assert_eq!(
        lexed.next(),
        Some(Token::new(TokenType::Illegal('@'), 1, 1))
    );
    assert_eq!(lexed.next(), None);
    // Exhaustion is final: it never re-enters scanning.
    assert_eq!(lexed.next(), None);
}

#[test]
fn illegal_character_does_not_halt_the_pass() {
    let mut lexed = Lexer::new("a @ b");
    let expected = vec![
        Token::new(TokenType::Identifier("a".to_string()), 1, 1),
        Token::new(TokenType::Illegal('@'), 1, 3),
        Token::new(TokenType::Identifier("b".to_string()), 1, 5),
    ];
    assert_eq!(lexed.collect_tokens(), expected);
}

#[test]
fn line_resets_after_newline() {
    let mut lexed = Lexer::new("let a = 1;\nlet b = 2;");
    let tokens = lexed.collect_tokens();
    let second_let = &tokens[6];
    assert_eq!(second_let.tokentype, TokenType::Let);
    assert_eq!(second_let.line(), 2);
    assert_eq!(second_let.column(), 1);
}

#[test]
fn determinism_two_fresh_passes() {
    let input = "let five = 5; five == 5\n!ten";
    let mut first = Lexer::new(input);
    let mut second = Lexer::new(input);
    assert_eq!(first.collect_tokens(), second.collect_tokens());
}

#[test]
fn instance_isolation() {
    let input_a = "let a = 1;";
    let mut a = Lexer::new(input_a);
    let head = a.next();

    // Constructing and draining another instance over different text
    // does not disturb the first instance's pass.
    let mut b = Lexer::new("fn(x) != y");
    let from_b = b.collect_tokens();
    assert_eq!(from_b.len(), 6);

    let mut tail = a.collect_tokens();
    let mut whole = vec![head.unwrap()];
    whole.append(&mut tail);
    let mut fresh = Lexer::new(input_a);
    assert_eq!(whole, fresh.collect_tokens());
}

#[test]
fn numeric_overflow_is_recoverable() {
    let input = "99999999999999999999999999999999999999;";
    let mut lexed = Lexer::new(input);
    let expected = vec![
        Token::new(
            TokenType::NumericOverflow(
                "99999999999999999999999999999999999999".to_string(),
            ),
            1,
            1,
        ),
        Token::new(TokenType::Semicolon, 1, 39),
    ];
    assert_eq!(lexed.collect_tokens(), expected);
}

#[test]
fn empty_and_blank_inputs() {
    let mut empty = Lexer::new("");
    assert_eq!(empty.collect_tokens(), Vec::<Token>::new());

    let mut blank = Lexer::new("   ");
    assert_eq!(blank.next(), None);
}

#[test]
fn columns_count_skipped_spaces() {
    let mut lexed = Lexer::new("  +  +");
    let expected = vec![
        Token::new(TokenType::Plus, 1, 3),
        Token::new(TokenType::Plus, 1, 6),
    ];
    assert_eq!(lexed.collect_tokens(), expected);
}

#[test]
fn lazy_and_eager_draining_agree() {
    let input = "5 == 5, true != false";
    let mut lazy = Lexer::new(input);
    let mut pulled: Vec<Token> = Vec::new();
    while let Some(t) = lazy.next() {
        pulled.push(t);
    }
    let mut eager = Lexer::new(input);
    assert_eq!(pulled, eager.collect_tokens());
}

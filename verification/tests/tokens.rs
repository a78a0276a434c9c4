use minilang::tokenizer::{tokenize, Token, TokenizeError};

fn name(s: &str) -> Token {
    Token::Name(s.to_string())
}

fn number(s: &str) -> Token {
    Token::NumberLiteral(s.to_string())
}

#[test]
fn keywords_and_names() {
    assert_eq!(
        tokenize("Type Let Match Typed x_1 _a Z9").unwrap(),
        vec![Token::Type, Token::Let, Token::Match, name("Typed"), name("x_1"), name("_a"), name("Z9")]
    );
}

#[test]
fn every_punctuation_character() {
    assert_eq!(
        tokenize(";:|=->,{}()").unwrap(),
        vec![
            Token::SemiColon,
            Token::Colon,
            Token::Bar,
            Token::Equals,
            Token::Minus,
            Token::RAngle,
            Token::Comma,
            Token::LBrace,
            Token::RBrace,
            Token::LParens,
            Token::RParens,
        ]
    );
}

#[test]
fn words_end_at_punctuation() {
    assert_eq!(
        tokenize("f(x)->y;").unwrap(),
        vec![name("f"), Token::LParens, name("x"), Token::RParens, Token::Minus, Token::RAngle, name("y"), Token::SemiColon]
    );
}

#[test]
fn number_literals_keep_their_text() {
    assert_eq!(
        tokenize("12 1e5 3E07 007").unwrap(),
        vec![number("12"), number("1e5"), number("3E07"), number("007")]
    );
}

#[test]
fn blanks_only_give_no_tokens() {
    assert_eq!(tokenize("").unwrap(), vec![]);
    assert_eq!(tokenize(" \t\n  \n").unwrap(), vec![]);
}

#[test]
fn a_blank_only_separates() {
    let a = "Let x: () = f(1)";
    let b = "Type T = A () | B ();";
    let mut joined = tokenize(a).unwrap();
    joined.extend(tokenize(b).unwrap());
    assert_eq!(tokenize(&format!("{} {}", a, b)).unwrap(), joined);
    assert_eq!(tokenize(&format!("{}\n{}", a, b)).unwrap(), joined);
    assert_eq!(tokenize(&format!("{}\t{}", a, b)).unwrap(), joined);
    // Without the blank the last word of `a` and the first of `b` would merge.
    assert_eq!(tokenize("ab").unwrap(), vec![name("ab")]);
}

#[test]
fn malformed_number_literals() {
    assert_eq!(tokenize("12ab"), Err(TokenizeError::InvalidNumber(0)));
    assert_eq!(tokenize("x 1e"), Err(TokenizeError::InvalidNumber(2)));
    assert_eq!(tokenize("1e5e5"), Err(TokenizeError::InvalidNumber(0)));
    assert_eq!(tokenize("1_000"), Err(TokenizeError::InvalidNumber(0)));
    assert_eq!(tokenize("  9x"), Err(TokenizeError::InvalidNumber(2)));
}

#[test]
fn unexpected_characters() {
    assert_eq!(tokenize("a.b"), Err(TokenizeError::UnexpectedCharacter(1)));
    assert_eq!(tokenize("a + b"), Err(TokenizeError::UnexpectedCharacter(2)));
    assert_eq!(tokenize("\r"), Err(TokenizeError::UnexpectedCharacter(0)));
    // Positions count characters, not bytes.
    assert_eq!(tokenize("éa é"), Err(TokenizeError::UnexpectedCharacter(0)));
    assert_eq!(tokenize("ab é"), Err(TokenizeError::UnexpectedCharacter(3)));
}

#[test]
fn the_first_error_from_the_left_wins() {
    assert_eq!(tokenize("1x ."), Err(TokenizeError::InvalidNumber(0)));
    assert_eq!(tokenize(". 1x"), Err(TokenizeError::UnexpectedCharacter(0)));
    // A malformed literal is reported before the character that ends it.
    assert_eq!(tokenize("1x."), Err(TokenizeError::InvalidNumber(0)));
}

use plic::lexer::{tokens, Token, TokenSource};

#[test]
fn one_char_tokens() {
    let string = "()+-*/";
    let mut tokens = tokens(string);
    assert!(matches!(tokens.next(), Some(Token::ParenOpen)));
    assert!(matches!(tokens.next(), Some(Token::ParenClose)));
    assert!(matches!(tokens.next(), Some(Token::Plus)));
    assert!(matches!(tokens.next(), Some(Token::Minus)));
    assert!(matches!(tokens.next(), Some(Token::Multiply)));
    assert!(matches!(tokens.next(), Some(Token::Divide)));
    assert!(matches!(tokens.next(), None));
}

#[test]
fn recognise_numbers() {
    let string = "1239";
    let mut tokens = tokens(string);
    assert!(matches!(tokens.next(), Some(Token::Number(1239))));
    assert!(matches!(tokens.next(), None));
}

#[test]
fn recognise_one_char_followed_by_numbers() {
    let string = "(19 76";
    let mut tokens = tokens(string);
    assert!(matches!(tokens.next(), Some(Token::ParenOpen)));
    assert!(matches!(tokens.next(), Some(Token::Number(19))));
    assert!(matches!(tokens.next(), Some(Token::Number(76))));
    assert!(matches!(tokens.next(), None));
}

#[test]
fn recognise_various_blanks() {
    let string = " ( +  19\t76   \n)";
    let mut tokens = tokens(string);
    assert!(matches!(tokens.next(), Some(Token::ParenOpen)));
    assert!(matches!(tokens.next(), Some(Token::Plus)));
    assert!(matches!(tokens.next(), Some(Token::Number(19))));
    assert!(matches!(tokens.next(), Some(Token::Number(76))));
    assert!(matches!(tokens.next(), Some(Token::ParenClose)));
    assert!(matches!(tokens.next(), None));
}

#[test]
fn recognise_two_words() {
    let string = "(word_one Word_TWO )";
    let mut tokens = tokens(string);
    assert!(matches!(tokens.next(), Some(Token::ParenOpen)));
    assert!(match tokens.next() {
        Some(Token::Word(s)) => s == "word_one",
        _ => false,
    });
    assert!(match tokens.next() {
        Some(Token::Word(s)) => s == "Word_TWO",
        _ => false,
    });
    assert!(matches!(tokens.next(), Some(Token::ParenClose)));
    assert!(matches!(tokens.next(), None));
}

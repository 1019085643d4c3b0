use plic::eval::copy_expression;
use plic::lexer::{tokens, Token, TokenList, TokenSource};

fn lex(text: &str) -> Vec<Token> {
    let mut source = tokens(text);
    let mut all = Vec::new();
    while let Some(token) = source.next() {
        all.push(token);
    }
    all
}

fn capture(text: &str) -> String {
    match copy_expression(&mut tokens(text), String::new()) {
        Ok(captured) => captured,
        Err(_) => panic!(),
    }
}

fn round_trip(text: &str) {
    let captured = capture(text);
    assert_eq!(format!("{:?}", lex(&captured)), format!("{:?}", lex(text)));
    assert_eq!(capture(&captured), captured);
}

#[test]
fn captured_text_lexes_to_the_same_tokens() {
    round_trip("7");
    round_trip("0");
    round_trip("word_one");
    round_trip("+");
    round_trip("λ");
    round_trip("()");
    round_trip("( 1 ( 2 3 ) 3 )");
    round_trip("(+ (+ (+ 1 2)) (+ 10 20))");
    round_trip("(λ x\t(- x\n1))");
    round_trip("(((a)b)c)");
    round_trip(&format!("(+ {} 0012)", usize::MAX));
}

#[test]
fn captured_text_keeps_only_the_first_expression() {
    let captured = capture("(a b) c d");
    assert_eq!(captured, "( a b ) ");
    assert_eq!(format!("{:?}", lex(&captured)), format!("{:?}", lex("(a b)")));
}

#[test]
fn round_trip_from_tokens_at_hand() {
    let given = vec![
        Token::ParenOpen,
        Token::Lambda,
        Token::Word("abc".to_string()),
        Token::Number(12),
        Token::ParenClose,
    ];
    let captured = match copy_expression(&mut TokenList::new(given.clone()), String::new()) {
        Ok(text) => text,
        Err(_) => panic!(),
    };
    assert_eq!(format!("{:?}", lex(&captured)), format!("{:?}", given));
}

#[test]
fn list_that_is_cut_short_is_not_captured() {
    assert!(copy_expression(&mut tokens("( 1 * 2 )"), String::new()).is_err());
    assert!(copy_expression(&mut tokens("( 1 ( 2 3 )"), String::new()).is_err());
}

#[test]
fn blanks_of_any_kind_are_normalised_away() {
    let captured = capture("(\ta\r\n\u{a0}b\u{3000})");
    assert_eq!(captured, "( a b ) ");
    round_trip("(\ta\r\n\u{a0}b\u{3000})");
}

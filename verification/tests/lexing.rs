use plic::lexer::{tokens, Token, TokenList, TokenSource};

fn lex(text: &str) -> Vec<Token> {
    let mut source = tokens(text);
    let mut all = Vec::new();
    while let Some(token) = source.next() {
        all.push(token);
    }
    all
}

fn shown(tokens: &[Token]) -> String {
    format!("{:?}", tokens)
}

#[test]
fn blanks_between_tokens_yield_nothing() {
    let found = lex(" ( +  19\t76 \n)");
    let expected = vec![
        Token::ParenOpen,
        Token::Plus,
        Token::Number(19),
        Token::Number(76),
        Token::ParenClose,
    ];
    assert_eq!(shown(&found), shown(&expected));
}

#[test]
fn empty_text_has_no_token() {
    assert!(matches!(tokens("").next(), None));
    assert!(matches!(tokens(" \t\n ").next(), None));
}

#[test]
fn end_of_text_is_reported_again_and_again() {
    let mut source = tokens("+");
    assert!(matches!(source.next(), Some(Token::Plus)));
    assert!(matches!(source.next(), None));
    assert!(matches!(source.next(), None));
}

#[test]
fn lambda_sign_is_a_token() {
    let found = lex("(λ x x)");
    let expected = vec![
        Token::ParenOpen,
        Token::Lambda,
        Token::Word("x".to_string()),
        Token::Word("x".to_string()),
        Token::ParenClose,
    ];
    assert_eq!(shown(&found), shown(&expected));
}

#[test]
fn unknown_characters_are_illegal_one_by_one() {
    let found = lex("#?\u{0}");
    assert_eq!(found.len(), 3);
    assert!(found.iter().all(|t| matches!(t, Token::Illegal)));
}

#[test]
fn carriage_return_is_skipped() {
    let found = lex("1\r2");
    assert_eq!(shown(&found), shown(&[Token::Number(1), Token::Number(2)]));
}

#[test]
fn every_whitespace_character_is_skipped() {
    let blanks = [
        ' ', '\t', '\n', '\u{b}', '\u{c}', '\r', '\u{85}', '\u{a0}', '\u{1680}', '\u{2000}',
        '\u{2001}', '\u{2002}', '\u{2003}', '\u{2004}', '\u{2005}', '\u{2006}', '\u{2007}',
        '\u{2008}', '\u{2009}', '\u{200a}', '\u{2028}', '\u{2029}', '\u{202f}', '\u{205f}',
        '\u{3000}',
    ];
    for blank in blanks {
        assert!(blank.is_whitespace());
        let text = format!("a{}b{}", blank, blank);
        let found = lex(&text);
        let expected = [Token::Word("a".to_string()), Token::Word("b".to_string())];
        assert_eq!(shown(&found), shown(&expected));
    }
}

#[test]
fn neighbours_of_whitespace_are_not_skipped() {
    for other in ['\u{8}', '\u{e}', '\u{1f}', '\u{84}', '\u{86}', '\u{200b}', '\u{2060}', '\u{feff}'] {
        assert!(!other.is_whitespace());
        let found = lex(&other.to_string());
        assert_eq!(shown(&found), shown(&[Token::Illegal]));
    }
}

#[test]
fn blanks_agree_with_whitespace_across_the_basic_plane() {
    for code in 0..=0xffffu32 {
        if let Some(c) = char::from_u32(code) {
            let skipped = lex(&c.to_string()).is_empty();
            assert_eq!(skipped, c.is_whitespace());
        }
    }
}

#[test]
fn digits_and_letters_split_where_the_class_changes() {
    let found = lex("12ab_3+x");
    let expected = vec![
        Token::Number(12),
        Token::Word("ab_".to_string()),
        Token::Number(3),
        Token::Plus,
        Token::Word("x".to_string()),
    ];
    assert_eq!(shown(&found), shown(&expected));
}

#[test]
fn leading_zeros_count_for_nothing() {
    assert!(matches!(tokens("0").next(), Some(Token::Number(0))));
    assert!(matches!(tokens("007").next(), Some(Token::Number(7))));
}

#[test]
fn largest_number_is_lexed() {
    let text = usize::MAX.to_string();
    assert!(matches!(tokens(&text).next(), Some(Token::Number(usize::MAX))));
}

#[test]
fn number_beyond_a_machine_word_is_illegal() {
    let mut text = usize::MAX.to_string();
    text.push('0');
    text.push_str(" 5");
    let mut source = tokens(&text);
    assert!(matches!(source.next(), Some(Token::Illegal)));
    assert!(matches!(source.next(), Some(Token::Number(5))));
    assert!(matches!(source.next(), None));

    let next_up = format!("{}", usize::MAX as u128 + 1);
    assert!(matches!(tokens(&next_up).next(), Some(Token::Illegal)));
}

#[test]
fn token_list_hands_out_in_order() {
    let mut list = TokenList::new(vec![Token::Number(1), Token::Word("a".to_string()), Token::Minus]);
    assert!(matches!(list.next(), Some(Token::Number(1))));
    assert!(match list.next() {
        Some(Token::Word(w)) => w == "a",
        _ => false,
    });
    assert!(matches!(list.next(), Some(Token::Minus)));
    assert!(matches!(list.next(), None));
    assert!(matches!(list.next(), None));
}

#[test]
fn token_list_of_nothing_is_empty() {
    assert!(matches!(TokenList::new(Vec::new()).next(), None));
}

#[test]
fn cloned_token_is_the_same_token() {
    let word = Token::Word("abc".to_string());
    assert_eq!(format!("{:?}", word.clone()), format!("{:?}", word));
    assert!(matches!(Token::Number(7).clone(), Token::Number(7)));
    assert!(matches!(Token::Illegal.clone(), Token::Illegal));
}

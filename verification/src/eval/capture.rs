//! The body capturer: writes one expression back out as text, token by
//! token, without evaluating anything. The text of a lambda's body is made
//! this way.
use super::EvalError;
use crate::lexer::{SpecToken, Token, TokenSource};
use crate::text::{decimal, decimal_string};
use vstd::prelude::*;

verus! {

/// The text of a token that stands for itself, with the blank that follows
/// it. Parentheses and the tokens that no capture accepts have none.
pub open spec fn atom_text(t: SpecToken) -> Seq<char> {
    match t {
        SpecToken::Number(n) => decimal(n).push(' '),
        SpecToken::Plus => seq!['+', ' '],
        SpecToken::Minus => seq!['-', ' '],
        SpecToken::Lambda => seq!['λ', ' '],
        SpecToken::Word(w) => w.push(' '),
        _ => Seq::empty(),
    }
}

/// Capturing one expression at the head of `ts`: its text, or the error it
/// stops with, and the tokens left after it. A list is written as `( `, its
/// items, and `) `; it fails with `Other` where its items do.
pub open spec fn capture(ts: Seq<SpecToken>) -> (Result<Seq<char>, EvalError>, Seq<SpecToken>)
    decreases ts.len(), 0nat,
{
    if ts.len() == 0 {
        (Err(EvalError::Other), ts)
    } else {
        let rest = ts.drop_first();
        match ts[0] {
            SpecToken::Number(_)
            | SpecToken::Plus
            | SpecToken::Minus
            | SpecToken::Lambda
            | SpecToken::Word(_) => (Ok(atom_text(ts[0])), rest),
            SpecToken::ParenOpen => {
                let (items, after) = capture_list(rest);
                match items {
                    Ok(text) => (Ok(seq!['(', ' '] + text + seq![')', ' ']), after),
                    Err(_) => (Err(EvalError::Other), after),
                }
            },
            SpecToken::ParenClose => (Err(EvalError::Close), rest),
            _ => (Err(EvalError::Other), rest),
        }
    }
}

/// Capturing the items of a list whose opening parenthesis is consumed: the
/// texts of the expressions up to the closing parenthesis, which is consumed
/// too, and the tokens left after it. Where a capture fails with anything
/// but `Close`, the list is cut short or holds what cannot be captured: that
/// is `Other`, and the tokens left are those after the failure.
///
/// The test on the lengths always holds (`lemma_capture_consumes`); it is
/// there to make the definition well founded.
pub open spec fn capture_list(ts: Seq<SpecToken>) -> (Result<Seq<char>, EvalError>, Seq<SpecToken>)
    decreases ts.len(), 1nat,
{
    let (item, rest) = capture(ts);
    match item {
        Ok(text) => if rest.len() < ts.len() {
            let (more, after) = capture_list(rest);
            match more {
                Ok(others) => (Ok(text + others), after),
                Err(_) => (Err(EvalError::Other), after),
            }
        } else {
            (Err(EvalError::Other), rest)
        },
        Err(EvalError::Close) => (Ok(Seq::empty()), rest),
        Err(_) => (Err(EvalError::Other), rest),
    }
}

/// A capture leaves a tail of its tokens, and consumes at least one token
/// where there is one.
pub proof fn lemma_capture_consumes(ts: Seq<SpecToken>)
    ensures
        capture(ts).1.len() <= ts.len(),
        ts.len() > 0 ==> capture(ts).1.len() < ts.len(),
        capture(ts).1 == ts.skip(ts.len() - capture(ts).1.len()),
        capture(ts).0 is Ok ==> ts.len() > 0,
    decreases ts.len(), 0nat,
{
    if ts.len() > 0 {
        let rest = ts.drop_first();
        if ts[0] is ParenOpen {
            lemma_capture_list_consumes(rest);
            let after = capture_list(rest).1;
            assert(rest.skip(rest.len() - after.len()) =~= ts.skip(ts.len() - after.len()));
        } else {
            assert(rest =~= ts.skip(1));
        }
    } else {
        assert(ts =~= ts.skip(0));
    }
}

/// The capture of a list leaves a tail of its tokens, and succeeds only
/// where it consumes a token: the closing parenthesis.
pub proof fn lemma_capture_list_consumes(ts: Seq<SpecToken>)
    ensures
        capture_list(ts).1.len() <= ts.len(),
        capture_list(ts).1 == ts.skip(ts.len() - capture_list(ts).1.len()),
        capture_list(ts).0 is Ok ==> capture_list(ts).1.len() < ts.len(),
    decreases ts.len(), 1nat,
{
    lemma_capture_consumes(ts);
    let (item, rest) = capture(ts);
    if item is Ok && rest.len() < ts.len() {
        lemma_capture_list_consumes(rest);
        let after = capture_list(rest).1;
        assert(rest.skip(rest.len() - after.len()) =~= ts.skip(ts.len() - after.len()));
    }
}

/// Appends to `copy` the text of the next expression of `tokens`. Fails with
/// `Close` where the next token is a closing parenthesis, and with `Other`
/// where there is no token, where the token starts no expression, and where
/// a list ends at anything but its closing parenthesis.
///
/// The calls nest as deep as the parentheses do, and nothing guards the call
/// stack against a very deep input.
pub fn copy_expression<T: TokenSource>(tokens: &mut T, copy: String) -> (result: Result<
    String,
    EvalError,
>)
    ensures
        final(tokens).pending() == capture(old(tokens).pending()).1,
        match capture(old(tokens).pending()).0 {
            Ok(text) => result matches Ok(s) && s@ == copy@ + text,
            Err(e) => result matches Err(x) && x == e,
        },
    decreases old(tokens).pending().len(),
{
    proof {
        reveal_strlit(" ");
        reveal_strlit("+ ");
        reveal_strlit("- ");
        reveal_strlit("λ ");
        reveal_strlit("( ");
        reveal_strlit(") ");
    }
    match tokens.next() {
        Some(token) => match token {
            Token::Number(n) => {
                let text = copy.concat(decimal_string(n).as_str()).concat(" ");
                assert(text@ =~= copy@ + decimal(n as nat).push(' '));
                Ok(text)
            },
            Token::Plus => {
                let text = copy.concat("+ ");
                assert(text@ =~= copy@ + seq!['+', ' ']);
                Ok(text)
            },
            Token::Minus => {
                let text = copy.concat("- ");
                assert(text@ =~= copy@ + seq!['-', ' ']);
                Ok(text)
            },
            Token::Lambda => {
                let text = copy.concat("λ ");
                assert(text@ =~= copy@ + seq!['λ', ' ']);
                Ok(text)
            },
            Token::Word(w) => {
                let text = copy.concat(w.as_str()).concat(" ");
                assert(text@ =~= copy@ + w@.push(' '));
                Ok(text)
            },
            Token::ParenOpen => {
                let ghost items = tokens.pending();
                let ghost opened = copy@ + seq!['(', ' '];
                let mut string = copy.concat("( ");
                loop
                    invariant_except_break
                        opened == copy@ + seq!['(', ' '],
                        items == old(tokens).pending().drop_first(),
                        old(tokens).pending().len() > 0,
                        old(tokens).pending()[0] is ParenOpen,
                        tokens.pending().len() < old(tokens).pending().len(),
                        capture_list(tokens.pending()).1 == capture_list(items).1,
                        capture_list(tokens.pending()).0 is Ok <==> capture_list(items).0 is Ok,
                        capture_list(items).0 is Ok ==> string@ + capture_list(
                            tokens.pending(),
                        ).0->Ok_0 == opened + capture_list(items).0->Ok_0,
                    ensures
                        capture_list(items).0 is Ok,
                        string@ == opened + capture_list(items).0->Ok_0,
                        tokens.pending() == capture_list(items).1,
                    decreases tokens.pending().len(),
                {
                    let ghost here = tokens.pending();
                    proof {
                        lemma_capture_consumes(here);
                    }
                    match copy_expression(tokens, string.clone()) {
                        Ok(new_string) => {
                            proof {
                                if capture_list(items).0 is Ok {
                                    assert(string@ + (capture(here).0->Ok_0 + capture_list(
                                        tokens.pending(),
                                    ).0->Ok_0) =~= new_string@ + capture_list(
                                        tokens.pending(),
                                    ).0->Ok_0);
                                }
                            }
                            string = new_string;
                        },
                        Err(EvalError::Close) => {
                            assert(string@ + Seq::<char>::empty() =~= string@);
                            break ;
                        },
                        Err(_) => {
                            return Err(EvalError::Other);
                        },
                    }
                }
                let text = string.concat(") ");
                assert(text@ =~= copy@ + (seq!['(', ' '] + capture_list(items).0->Ok_0 + seq![
                    ')',
                    ' ',
                ]));
                Ok(text)
            },
            Token::ParenClose => Err(EvalError::Close),
            _ => Err(EvalError::Other),
        },
        None => Err(EvalError::Other),
    }
}

} // verus!

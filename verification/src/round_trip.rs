//! Captured text lexes back to the tokens it was captured from.
use crate::eval::capture::{
    atom_text, capture, capture_list, lemma_capture_consumes, lemma_capture_list_consumes,
};
use crate::lexer::{
    is_blank, is_letter, lemma_run_len_bound, lemma_run_len_is, lemma_tokenize_well_formed,
    skip_blanks, token_len, token_of, tokenize, CharClass, SpecToken,
};
use crate::text::{decimal, is_digit, lemma_decimal_digits, lemma_decimal_value};
use vstd::prelude::*;

verus! {

/// How many tokens the capture of one expression at the head of `ts`
/// consumes.
pub open spec fn captured_len(ts: Seq<SpecToken>) -> nat {
    (ts.len() - capture(ts).1.len()) as nat
}

/// How many tokens the capture of a list's items consumes, the token that
/// ends the list included.
pub open spec fn captured_list_len(ts: Seq<SpecToken>) -> nat {
    (ts.len() - capture_list(ts).1.len()) as nat
}

/// A blank at the head of a text changes nothing in its tokens.
pub proof fn lemma_tokenize_blank(s: Seq<char>)
    requires
        s.len() > 0,
        is_blank(s[0]),
    ensures
        tokenize(s) == tokenize(s.drop_first()),
{
    let rest = s.drop_first();
    lemma_run_len_bound(rest, CharClass::Blank);
    assert(skip_blanks(s) =~= skip_blanks(rest));
}

/// A text that starts with no blank starts with its first token.
pub proof fn lemma_tokenize_first(s: Seq<char>)
    requires
        s.len() > 0,
        !is_blank(s[0]),
    ensures
        tokenize(s) == seq![token_of(s)] + tokenize(s.skip(token_len(s) as int)),
{
    assert(skip_blanks(s) =~= s);
}

/// One of the signs that a capture writes, and the blank after it, lex to
/// that sign's token.
pub proof fn lemma_tokenize_sign(t: SpecToken, tail: Seq<char>)
    requires
        t is Plus || t is Minus || t is Lambda,
    ensures
        tokenize(atom_text(t) + tail) == seq![t] + tokenize(tail),
{
    let s = atom_text(t) + tail;
    lemma_tokenize_first(s);
    let after = s.skip(1);
    lemma_tokenize_blank(after);
    assert(after.drop_first() =~= tail);
}

/// A parenthesis and the blank after it lex to that parenthesis.
pub proof fn lemma_tokenize_paren(open: bool, tail: Seq<char>)
    ensures
        tokenize(
            seq![
                if open {
                    '('
                } else {
                    ')'
                },
                ' ',
            ] + tail,
        ) == seq![
            if open {
                SpecToken::ParenOpen
            } else {
                SpecToken::ParenClose
            },
        ] + tokenize(tail),
{
    let s = seq![
        if open {
            '('
        } else {
            ')'
        },
        ' ',
    ] + tail;
    lemma_tokenize_first(s);
    let after = s.skip(1);
    lemma_tokenize_blank(after);
    assert(after.drop_first() =~= tail);
}

/// A numeral and the blank after it lex to the number it was written for.
pub proof fn lemma_tokenize_number(n: nat, tail: Seq<char>)
    requires
        n <= usize::MAX,
    ensures
        tokenize(decimal(n).push(' ') + tail) == seq![SpecToken::Number(n)] + tokenize(tail),
{
    let d = decimal(n);
    let s = d.push(' ') + tail;
    lemma_decimal_digits(n);
    lemma_decimal_value(n);
    assert(is_digit(d[0]));
    assert(s[0] == d[0]);
    assert forall|i: int| 0 <= i < d.len() implies is_digit(#[trigger] s[i]) by {
        assert(s[i] == d[i]);
    }
    assert(s[d.len() as int] == ' ');
    lemma_run_len_is(s, CharClass::Digit, d.len());
    lemma_tokenize_first(s);
    assert(s.take(d.len() as int) =~= d);
    let after = s.skip(d.len() as int);
    lemma_tokenize_blank(after);
    assert(after.drop_first() =~= tail);
}

/// A word and the blank after it lex to that word.
pub proof fn lemma_tokenize_word(w: Seq<char>, tail: Seq<char>)
    requires
        SpecToken::Word(w).well_formed(),
    ensures
        tokenize(w.push(' ') + tail) == seq![SpecToken::Word(w)] + tokenize(tail),
{
    let s = w.push(' ') + tail;
    assert(is_letter(w[0]));
    assert(s[0] == w[0]);
    assert forall|i: int| 0 <= i < w.len() implies is_letter(#[trigger] s[i]) by {
        assert(s[i] == w[i]);
    }
    assert(s[w.len() as int] == ' ');
    lemma_run_len_is(s, CharClass::Letter, w.len());
    lemma_tokenize_first(s);
    assert(s.take(w.len() as int) =~= w);
    let after = s.skip(w.len() as int);
    lemma_tokenize_blank(after);
    assert(after.drop_first() =~= tail);
}

/// The text of one captured expression, followed by any text, lexes to the
/// tokens that the capture consumed, followed by the tokens of that text.
proof fn lemma_relex(ts: Seq<SpecToken>, tail: Seq<char>)
    requires
        capture(ts).0 is Ok,
        forall|i: int| 0 <= i < captured_len(ts) ==> (#[trigger] ts[i]).well_formed(),
    ensures
        tokenize(capture(ts).0->Ok_0 + tail) == ts.take(captured_len(ts) as int) + tokenize(tail),
    decreases ts.len(), 0nat,
{
    lemma_capture_consumes(ts);
    let rest = ts.drop_first();
    let first = ts[0];
    assert(first.well_formed());
    match first {
        SpecToken::Number(n) => {
            lemma_tokenize_number(n, tail);
            assert(ts.take(1) =~= seq![first]);
        },
        SpecToken::Word(w) => {
            lemma_tokenize_word(w, tail);
            assert(ts.take(1) =~= seq![first]);
        },
        SpecToken::ParenOpen => {
            lemma_capture_list_consumes(rest);
            let items = capture_list(rest).0->Ok_0;
            let k = captured_list_len(rest);
            assert forall|i: int| 0 <= i < k implies (#[trigger] rest[i]).well_formed() by {
                assert(rest[i] == ts[i + 1]);
            }
            lemma_relex_list(rest, tail);
            let inner = items + seq![')', ' '] + tail;
            lemma_tokenize_paren(true, inner);
            assert(capture(ts).0->Ok_0 + tail =~= seq!['(', ' '] + inner);
            assert(seq![SpecToken::ParenOpen] + rest.take(k as int) =~= ts.take(k as int + 1));
        },
        _ => {
            lemma_tokenize_sign(first, tail);
            assert(ts.take(1) =~= seq![first]);
        },
    }
}

/// The text of the items of a list, the closing parenthesis that a capture
/// writes after them, and any text, lex to the tokens that the capture of
/// the list consumed, followed by the tokens of that text.
proof fn lemma_relex_list(ts: Seq<SpecToken>, tail: Seq<char>)
    requires
        capture_list(ts).0 is Ok,
        forall|i: int| 0 <= i < captured_list_len(ts) ==> (#[trigger] ts[i]).well_formed(),
    ensures
        tokenize(capture_list(ts).0->Ok_0 + seq![')', ' '] + tail) == ts.take(
            captured_list_len(ts) as int,
        ) + tokenize(tail),
    decreases ts.len(), 1nat,
{
    lemma_capture_consumes(ts);
    lemma_capture_list_consumes(ts);
    let (item, rest) = capture(ts);
    match item {
        Ok(text) => {
            lemma_capture_list_consumes(rest);
            let more = capture_list(rest).0->Ok_0;
            let k = captured_len(ts);
            let m = captured_list_len(rest);
            assert forall|i: int| 0 <= i < m implies (#[trigger] rest[i]).well_formed() by {
                assert(rest[i] == ts[i + k]);
            }
            let closing = more + seq![')', ' '] + tail;
            lemma_relex(ts, closing);
            lemma_relex_list(rest, tail);
            assert(capture_list(ts).0->Ok_0 + seq![')', ' '] + tail =~= text + closing);
            assert(ts.take(k as int) + rest.take(m as int) =~= ts.take(k as int + m as int));
        },
        Err(_) => {
            lemma_tokenize_paren(false, tail);
            assert(capture_list(ts).0->Ok_0 + seq![')', ' '] + tail =~= seq![')', ' '] + tail);
            assert(ts.take(1) =~= seq![SpecToken::ParenClose]);
        },
    }
}

/// A capture that succeeds reads nothing beyond the tokens it consumes: with
/// any tokens `us` in place of those it left, it gives the same text and
/// leaves `us`.
proof fn lemma_capture_local(ts: Seq<SpecToken>, us: Seq<SpecToken>)
    requires
        capture(ts).0 is Ok,
    ensures
        capture(ts.take(captured_len(ts) as int) + us) == (capture(ts).0, us),
    decreases ts.len(), 0nat,
{
    lemma_capture_consumes(ts);
    let rest = ts.drop_first();
    let p = ts.take(captured_len(ts) as int) + us;
    assert(p[0] == ts[0]);
    if ts[0] is ParenOpen {
        lemma_capture_list_consumes(rest);
        lemma_capture_list_local(rest, us);
        assert(p.drop_first() =~= rest.take(captured_list_len(rest) as int) + us);
    } else {
        assert(p.drop_first() =~= us);
    }
}

/// The capture of a list that succeeds reads nothing beyond the tokens it
/// consumes.
proof fn lemma_capture_list_local(ts: Seq<SpecToken>, us: Seq<SpecToken>)
    requires
        capture_list(ts).0 is Ok,
    ensures
        capture_list(ts.take(captured_list_len(ts) as int) + us) == (capture_list(ts).0, us),
    decreases ts.len(), 1nat,
{
    lemma_capture_consumes(ts);
    lemma_capture_list_consumes(ts);
    let (item, rest) = capture(ts);
    let p = ts.take(captured_list_len(ts) as int) + us;
    match item {
        Ok(text) => {
            lemma_capture_list_consumes(rest);
            let k = captured_len(ts);
            let m = captured_list_len(rest);
            let q = rest.take(m as int) + us;
            lemma_capture_local(ts, q);
            lemma_capture_list_local(rest, us);
            assert(p =~= ts.take(k as int) + q);
        },
        Err(_) => {
            assert(p[0] == ts[0]);
            assert(p.drop_first() =~= us);
            assert(capture(p) == (item, us));
        },
    }
}

/// Round trip. Where capturing one expression at the head of `ts` succeeds
/// and the tokens it consumes are such as lexing produces, lexing the
/// captured text gives back exactly the tokens that were consumed.
pub proof fn lemma_capture_round_trip(ts: Seq<SpecToken>)
    requires
        capture(ts).0 is Ok,
        forall|i: int| 0 <= i < captured_len(ts) ==> (#[trigger] ts[i]).well_formed(),
    ensures
        tokenize(capture(ts).0->Ok_0) == ts.take(captured_len(ts) as int),
{
    let text = capture(ts).0->Ok_0;
    lemma_relex(ts, Seq::empty());
    assert(text + Seq::<char>::empty() =~= text);
    assert(skip_blanks(Seq::<char>::empty()) =~= Seq::<char>::empty());
    assert(ts.take(captured_len(ts) as int) + Seq::<SpecToken>::empty() =~= ts.take(
        captured_len(ts) as int,
    ));
}

/// Idempotence. Under the conditions of the round trip, lexing the captured
/// text and capturing again gives the same text, with no token left over.
pub proof fn lemma_capture_idempotent(ts: Seq<SpecToken>)
    requires
        capture(ts).0 is Ok,
        forall|i: int| 0 <= i < captured_len(ts) ==> (#[trigger] ts[i]).well_formed(),
    ensures
        capture(tokenize(capture(ts).0->Ok_0)) == (capture(ts).0, Seq::<SpecToken>::empty()),
{
    lemma_capture_round_trip(ts);
    lemma_capture_local(ts, Seq::empty());
    assert(ts.take(captured_len(ts) as int) + Seq::<SpecToken>::empty() =~= ts.take(
        captured_len(ts) as int,
    ));
}

/// The round trip for text. Where the tokens of `s` start with an expression
/// that can be captured, the captured text lexes to the tokens of that
/// expression, and capturing those gives the same text again.
pub proof fn lemma_text_round_trip(s: Seq<char>)
    requires
        capture(tokenize(s)).0 is Ok,
    ensures
        tokenize(capture(tokenize(s)).0->Ok_0) == tokenize(s).take(
            captured_len(tokenize(s)) as int,
        ),
        capture(tokenize(capture(tokenize(s)).0->Ok_0)) == (
            capture(tokenize(s)).0,
            Seq::<SpecToken>::empty(),
        ),
{
    let ts = tokenize(s);
    lemma_tokenize_well_formed(s);
    lemma_capture_consumes(ts);
    lemma_capture_round_trip(ts);
    lemma_capture_idempotent(ts);
}

} // verus!

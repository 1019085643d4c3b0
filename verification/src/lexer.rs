//! The lexer: from characters to tokens.
//!
//! [`tokenize`] is the mathematical account of lexing; [`CodeTokens`] is the
//! cursor that produces the same tokens one at a time.
use crate::text::{digit, digit_value, digits_value, is_digit};
use vstd::prelude::*;

verus! {

/// A token as a mathematical value: what contracts speak of.
pub enum SpecToken {
    ParenOpen,
    ParenClose,
    Plus,
    Minus,
    Multiply,
    Divide,
    Illegal,
    Number(nat),
    Word(Seq<char>),
    Lambda,
}

impl SpecToken {
    /// Holds of every token that lexing can produce: a number fits a machine
    /// word, and a word is a non-empty run of letters and underscores.
    pub open spec fn well_formed(self) -> bool {
        match self {
            SpecToken::Number(n) => n <= usize::MAX,
            SpecToken::Word(w) => w.len() > 0 && forall|i: int| 0 <= i < w.len() ==> is_letter(
                #[trigger] w[i],
            ),
            _ => true,
        }
    }
}

/// A lexical token.
#[derive(Debug)]
pub enum Token {
    ParenOpen,
    ParenClose,
    Plus,
    Minus,
    Multiply,
    Divide,
    Illegal,
    Number(usize),
    Word(String),
    Lambda,
}

impl View for Token {
    type V = SpecToken;

    open spec fn view(&self) -> SpecToken {
        match self {
            Token::ParenOpen => SpecToken::ParenOpen,
            Token::ParenClose => SpecToken::ParenClose,
            Token::Plus => SpecToken::Plus,
            Token::Minus => SpecToken::Minus,
            Token::Multiply => SpecToken::Multiply,
            Token::Divide => SpecToken::Divide,
            Token::Illegal => SpecToken::Illegal,
            Token::Number(n) => SpecToken::Number(*n as nat),
            Token::Word(w) => SpecToken::Word(w@),
            Token::Lambda => SpecToken::Lambda,
        }
    }
}

impl Clone for Token {
    fn clone(&self) -> (copy: Self)
        ensures
            copy@ == self@,
    {
        match self {
            Token::ParenOpen => Token::ParenOpen,
            Token::ParenClose => Token::ParenClose,
            Token::Plus => Token::Plus,
            Token::Minus => Token::Minus,
            Token::Multiply => Token::Multiply,
            Token::Divide => Token::Divide,
            Token::Illegal => Token::Illegal,
            Token::Number(n) => Token::Number(*n),
            Token::Word(w) => Token::Word(w.clone()),
            Token::Lambda => Token::Lambda,
        }
    }
}

/// The characters that separate tokens and yield none themselves: every
/// whitespace character. These are the blank, the controls from tab to
/// carriage return, the next-line control, and the spaces and separators
/// beyond ASCII.
pub open spec fn is_blank(c: char) -> bool {
    ||| c == ' '
    ||| '\u{9}' <= c <= '\u{d}'
    ||| c == '\u{85}'
    ||| c == '\u{a0}'
    ||| c == '\u{1680}'
    ||| '\u{2000}' <= c <= '\u{200a}'
    ||| c == '\u{2028}'
    ||| c == '\u{2029}'
    ||| c == '\u{202f}'
    ||| c == '\u{205f}'
    ||| c == '\u{3000}'
}

/// A character of a word: an ASCII letter or an underscore.
pub open spec fn is_letter(c: char) -> bool {
    'A' <= c <= 'Z' || 'a' <= c <= 'z' || c == '_'
}

/// The three kinds of character that come in runs.
pub enum CharClass {
    Blank,
    Digit,
    Letter,
}

/// Whether `c` is of the kind `class`.
pub open spec fn has_class(c: char, class: CharClass) -> bool {
    match class {
        CharClass::Blank => is_blank(c),
        CharClass::Digit => is_digit(c),
        CharClass::Letter => is_letter(c),
    }
}

/// The number of characters of the kind `class` that `s` begins with.
pub open spec fn run_len(s: Seq<char>, class: CharClass) -> nat
    decreases s.len(),
{
    if s.len() > 0 && has_class(s[0], class) {
        1 + run_len(s.drop_first(), class)
    } else {
        0
    }
}

/// The token that a single character stands for when it is neither a blank,
/// a digit nor a word character.
pub open spec fn sign_token(c: char) -> SpecToken {
    if c == '(' {
        SpecToken::ParenOpen
    } else if c == ')' {
        SpecToken::ParenClose
    } else if c == '+' {
        SpecToken::Plus
    } else if c == '-' {
        SpecToken::Minus
    } else if c == '*' {
        SpecToken::Multiply
    } else if c == '/' {
        SpecToken::Divide
    } else if c == 'λ' {
        SpecToken::Lambda
    } else {
        SpecToken::Illegal
    }
}

/// The token that a maximal run of digits makes: its value, or `Illegal`
/// where the value does not fit a machine word.
pub open spec fn number_token(digits: Seq<char>) -> SpecToken {
    if digits_value(digits) <= usize::MAX {
        SpecToken::Number(digits_value(digits))
    } else {
        SpecToken::Illegal
    }
}

/// How many characters the first token of `s` spans, for a non-empty `s`
/// that begins with no blank. Digits and word characters are taken greedily.
pub open spec fn token_len(s: Seq<char>) -> nat
    recommends
        s.len() > 0,
        !is_blank(s[0]),
{
    if is_digit(s[0]) {
        run_len(s, CharClass::Digit)
    } else if is_letter(s[0]) {
        run_len(s, CharClass::Letter)
    } else {
        1
    }
}

/// The first token of `s`, for a non-empty `s` that begins with no blank.
pub open spec fn token_of(s: Seq<char>) -> SpecToken
    recommends
        s.len() > 0,
        !is_blank(s[0]),
{
    if is_digit(s[0]) {
        number_token(s.take(run_len(s, CharClass::Digit) as int))
    } else if is_letter(s[0]) {
        SpecToken::Word(s.take(run_len(s, CharClass::Letter) as int))
    } else {
        sign_token(s[0])
    }
}

/// `s` without the blanks that it begins with.
pub open spec fn skip_blanks(s: Seq<char>) -> Seq<char> {
    s.skip(run_len(s, CharClass::Blank) as int)
}

/// All the tokens of `s`, in order.
pub open spec fn tokenize(s: Seq<char>) -> Seq<SpecToken>
    decreases s.len(),
{
    let t = skip_blanks(s);
    if t.len() == 0 {
        Seq::empty()
    } else {
        proof {
            lemma_run_len_bound(s, CharClass::Blank);
            lemma_token_len_bound(t);
        }
        seq![token_of(t)] + tokenize(t.skip(token_len(t) as int))
    }
}

/// A run is no longer than the text it begins.
pub proof fn lemma_run_len_bound(s: Seq<char>, class: CharClass)
    ensures
        run_len(s, class) <= s.len(),
    decreases s.len(),
{
    if s.len() > 0 && has_class(s[0], class) {
        lemma_run_len_bound(s.drop_first(), class);
    }
}

/// The first `n` characters of `s` are the run that `s` begins with where
/// they are of the kind `class` and what follows them, if anything, is not.
pub proof fn lemma_run_len_is(s: Seq<char>, class: CharClass, n: nat)
    requires
        n <= s.len(),
        forall|i: int| 0 <= i < n ==> has_class(#[trigger] s[i], class),
        n == s.len() || !has_class(s[n as int], class),
    ensures
        run_len(s, class) == n,
    decreases n,
{
    if n > 0 {
        lemma_run_len_is(s.drop_first(), class, (n - 1) as nat);
    }
}

/// The characters of the run that `s` begins with are of the run's kind.
pub proof fn lemma_run_members(s: Seq<char>, class: CharClass)
    ensures
        forall|i: int| 0 <= i < run_len(s, class) ==> has_class(#[trigger] s[i], class),
    decreases s.len(),
{
    if s.len() > 0 && has_class(s[0], class) {
        let rest = s.drop_first();
        lemma_run_members(rest, class);
        lemma_run_len_bound(rest, class);
        assert forall|i: int| 0 <= i < run_len(s, class) implies has_class(
            #[trigger] s[i],
            class,
        ) by {
            if i > 0 {
                assert(s[i] == rest[i - 1]);
            }
        }
    }
}

/// A token spans at least one character and no more than there are.
pub proof fn lemma_token_len_bound(s: Seq<char>)
    requires
        s.len() > 0,
    ensures
        1 <= token_len(s) <= s.len(),
{
    lemma_run_len_bound(s, CharClass::Digit);
    lemma_run_len_bound(s, CharClass::Letter);
}

/// A text has no more tokens than characters.
pub proof fn lemma_tokenize_len(s: Seq<char>)
    ensures
        tokenize(s).len() <= s.len(),
    decreases s.len(),
{
    let t = skip_blanks(s);
    if t.len() > 0 {
        lemma_run_len_bound(s, CharClass::Blank);
        lemma_token_len_bound(t);
        lemma_tokenize_len(t.skip(token_len(t) as int));
    }
}

/// Lexing produces well-formed tokens only.
pub proof fn lemma_tokenize_well_formed(s: Seq<char>)
    ensures
        forall|i: int| 0 <= i < tokenize(s).len() ==> (#[trigger] tokenize(s)[i]).well_formed(),
    decreases s.len(),
{
    let t = skip_blanks(s);
    if t.len() > 0 {
        lemma_run_len_bound(s, CharClass::Blank);
        lemma_token_len_bound(t);
        lemma_run_members(t, CharClass::Letter);
        let rest = t.skip(token_len(t) as int);
        lemma_tokenize_well_formed(rest);
        assert(token_of(t).well_formed());
        assert forall|i: int| 0 <= i < tokenize(s).len() implies (#[trigger] tokenize(
            s,
        )[i]).well_formed() by {
            if i > 0 {
                assert(tokenize(s)[i] == tokenize(rest)[i - 1]);
            }
        }
    }
}

/// Anything that hands out tokens one at a time.
pub trait TokenSource {
    /// The tokens that are still to come, in order.
    spec fn pending(&self) -> Seq<SpecToken>;

    /// Takes the next token, or reports that none is left.
    fn next(&mut self) -> (token: Option<Token>)
        ensures
            match token {
                Some(t) => {
                    &&& old(self).pending().len() > 0
                    &&& t@ == old(self).pending()[0]
                    &&& final(self).pending() == old(self).pending().drop_first()
                },
                None => old(self).pending().len() == 0 && final(self).pending().len() == 0,
            },
    ;
}

/// A cursor over the characters of one line of text. Each call of `next`
/// lexes one token; nothing is lexed ahead of need.
pub struct CodeTokens {
    chars: Vec<char>,
    at: usize,
}

impl View for CodeTokens {
    type V = Seq<char>;

    /// The characters that have not been consumed yet.
    closed spec fn view(&self) -> Seq<char> {
        if self.at <= self.chars@.len() {
            self.chars@.skip(self.at as int)
        } else {
            Seq::empty()
        }
    }
}

/// Starts lexing `code` at its first character.
pub fn tokens(code: &str) -> (source: CodeTokens)
    ensures
        source@ == code@,
{
    let mut chars: Vec<char> = Vec::new();
    for c in it: code.chars()
        invariant
            it.seq() == code@,
            chars@ == it.seq().take(it.index()),
    {
        chars.push(c);
        assert(it.seq().take(it.index() + 1) =~= it.seq().take(it.index()).push(c));
    }
    assert(chars@ =~= code@);
    CodeTokens { chars, at: 0 }
}

fn blank(c: char) -> (b: bool)
    ensures
        b == is_blank(c),
{
    c == ' ' || ('\u{9}' <= c && c <= '\u{d}') || c == '\u{85}' || c == '\u{a0}' || c
        == '\u{1680}' || ('\u{2000}' <= c && c <= '\u{200a}') || c == '\u{2028}' || c
        == '\u{2029}' || c == '\u{202f}' || c == '\u{205f}' || c == '\u{3000}'
}

fn letter(c: char) -> (b: bool)
    ensures
        b == is_letter(c),
{
    ('A' <= c && c <= 'Z') || ('a' <= c && c <= 'z') || c == '_'
}

impl TokenSource for CodeTokens {
    open spec fn pending(&self) -> Seq<SpecToken> {
        tokenize(self@)
    }

    /// Skips blanks, then lexes one token: a single sign, or the longest run
    /// of digits or of word characters that starts here.
    fn next(&mut self) -> (token: Option<Token>)
        ensures
            ({
                let t = skip_blanks(old(self)@);
                match token {
                    Some(tok) => {
                        &&& t.len() > 0
                        &&& tok@ == token_of(t)
                        &&& final(self)@ == t.skip(token_len(t) as int)
                    },
                    None => t.len() == 0 && final(self)@.len() == 0,
                }
            }),
    {
        let n = self.chars.len();
        if self.at >= n {
            return None;
        }
        let ghost text = self@;
        let ghost start = self.at;
        while self.at < n && blank(self.chars[self.at])
            invariant
                n == self.chars.len(),
                self.chars == old(self).chars,
                start <= self.at <= n,
                forall|i: int| start <= i < self.at ==> is_blank(self.chars@[i]),
            decreases n - self.at,
        {
            self.at = self.at + 1;
        }
        proof {
            lemma_run_len_is(text, CharClass::Blank, (self.at - start) as nat);
            assert(skip_blanks(text) =~= self@);
        }
        if self.at >= n {
            return None;
        }
        let ghost t = self@;
        let begin = self.at;
        let c = self.chars[begin];
        assert(c == t[0]);
        if digit(c) {
            let mut value: usize = 0;
            let mut fits = true;
            while self.at < n && digit(self.chars[self.at])
                invariant
                    n == self.chars.len(),
                    self.chars == old(self).chars,
                    begin <= self.at <= n,
                    forall|i: int| begin <= i < self.at ==> is_digit(self.chars@[i]),
                    fits ==> value == digits_value(self.chars@.subrange(begin as int, self.at as int)),
                    !fits ==> digits_value(self.chars@.subrange(begin as int, self.at as int))
                        > usize::MAX,
                decreases n - self.at,
            {
                let d = digit_value(self.chars[self.at]);
                proof {
                    let run = self.chars@.subrange(begin as int, self.at + 1);
                    assert(run.drop_last() =~= self.chars@.subrange(begin as int, self.at as int));
                    assert(run.last() == self.chars@[self.at as int]);
                }
                if fits {
                    match value.checked_mul(10) {
                        Some(tens) => match tens.checked_add(d) {
                            Some(v) => {
                                value = v;
                            },
                            None => {
                                fits = false;
                            },
                        },
                        None => {
                            fits = false;
                        },
                    }
                }
                self.at = self.at + 1;
            }
            proof {
                lemma_run_len_is(t, CharClass::Digit, (self.at - begin) as nat);
                assert(t.take(self.at - begin) =~= self.chars@.subrange(
                    begin as int,
                    self.at as int,
                ));
                assert(self@ =~= t.skip(self.at - begin));
            }
            if fits {
                Some(Token::Number(value))
            } else {
                Some(Token::Illegal)
            }
        } else if letter(c) {
            let mut word = String::new();
            while self.at < n && letter(self.chars[self.at])
                invariant
                    n == self.chars.len(),
                    self.chars == old(self).chars,
                    begin <= self.at <= n,
                    forall|i: int| begin <= i < self.at ==> is_letter(self.chars@[i]),
                    word@ == self.chars@.subrange(begin as int, self.at as int),
                decreases n - self.at,
            {
                word.push(self.chars[self.at]);
                self.at = self.at + 1;
            }
            proof {
                lemma_run_len_is(t, CharClass::Letter, (self.at - begin) as nat);
                assert(t.take(self.at - begin) =~= self.chars@.subrange(
                    begin as int,
                    self.at as int,
                ));
                assert(self@ =~= t.skip(self.at - begin));
            }
            Some(Token::Word(word))
        } else {
            self.at = self.at + 1;
            assert(self@ =~= t.skip(1));
            if c == '(' {
                Some(Token::ParenOpen)
            } else if c == ')' {
                Some(Token::ParenClose)
            } else if c == '+' {
                Some(Token::Plus)
            } else if c == '-' {
                Some(Token::Minus)
            } else if c == '*' {
                Some(Token::Multiply)
            } else if c == '/' {
                Some(Token::Divide)
            } else if c == 'λ' {
                Some(Token::Lambda)
            } else {
                Some(Token::Illegal)
            }
        }
    }
}

/// The mathematical values of a sequence of tokens.
pub open spec fn token_views(tokens: Seq<Token>) -> Seq<SpecToken> {
    tokens.map_values(|t: Token| t@)
}

/// Tokens that are already at hand, handed out in the order given.
pub struct TokenList {
    items: Vec<Token>,
    at: usize,
}

impl TokenList {
    /// A source that yields `items` from first to last.
    pub fn new(items: Vec<Token>) -> (source: TokenList)
        ensures
            source.pending() == token_views(items@),
    {
        let source = TokenList { items, at: 0 };
        assert(source.pending() =~= token_views(items@));
        source
    }
}

impl TokenSource for TokenList {
    closed spec fn pending(&self) -> Seq<SpecToken> {
        if self.at <= self.items@.len() {
            token_views(self.items@.skip(self.at as int))
        } else {
            Seq::empty()
        }
    }

    fn next(&mut self) -> (token: Option<Token>) {
        if self.at < self.items.len() {
            let token = self.items[self.at].clone();
            self.at = self.at + 1;
            assert(final(self).pending() =~= old(self).pending().drop_first());
            Some(token)
        } else {
            None
        }
    }
}

} // verus!

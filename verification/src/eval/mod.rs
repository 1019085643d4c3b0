//! The evaluator: values, errors, the environment, and the recursive descent
//! that reduces a stream of tokens to one value.
pub mod builtins;
pub mod capture;

use crate::lexer::{tokenize, tokens, SpecToken, Token, TokenSource};
use crate::text::{decimal, decimal_string};
use builtins::{minus, minus_spec, plus, plus_spec};
use capture::{capture, lemma_capture_consumes};
pub use capture::copy_expression;
use vstd::hash_map::StringHashMap;
use vstd::prelude::*;

verus! {

/// An index into a heap of pairs. Reserved: no pair is ever built.
pub type HeapIndex = usize;

/// The built-in operations.
#[derive(Clone, Copy, Debug, PartialEq, Eq, Structural)]
pub enum Builtin {
    Plus,
    Minus,
}

/// A value as a mathematical object: what contracts speak of.
pub enum SpecValue {
    Integer(nat),
    Operation(Builtin),
    Symbol(Seq<char>),
    Pair(nat, nat),
    Lambda { bound_var: Seq<char>, expression: Seq<char> },
    Keyword,
}

/// A value of the language.
#[derive(Debug)]
pub enum PlicType {
    /// An integer.
    Integer(usize),
    /// A built-in operation.
    Operation { function: Builtin },
    /// A name that is bound to nothing.
    Symbol(String),
    /// A pair, maybe the head of a list. Reserved.
    Pair(HeapIndex, HeapIndex),
    /// A parameter name and the source text of a body, kept unevaluated.
    Lambda { bound_var: String, expression: String },
    /// The marker that the lambda form has just been recognised.
    Keyword,
}

impl View for PlicType {
    type V = SpecValue;

    open spec fn view(&self) -> SpecValue {
        match self {
            PlicType::Integer(n) => SpecValue::Integer(*n as nat),
            PlicType::Operation { function } => SpecValue::Operation(*function),
            PlicType::Symbol(s) => SpecValue::Symbol(s@),
            PlicType::Pair(a, b) => SpecValue::Pair(*a as nat, *b as nat),
            PlicType::Lambda { bound_var, expression } => SpecValue::Lambda {
                bound_var: bound_var@,
                expression: expression@,
            },
            PlicType::Keyword => SpecValue::Keyword,
        }
    }
}

impl Clone for PlicType {
    fn clone(&self) -> (copy: Self)
        ensures
            copy@ == self@,
    {
        match self {
            PlicType::Integer(n) => PlicType::Integer(*n),
            PlicType::Operation { function } => PlicType::Operation { function: *function },
            PlicType::Symbol(s) => PlicType::Symbol(s.clone()),
            PlicType::Pair(a, b) => PlicType::Pair(*a, *b),
            PlicType::Lambda { bound_var, expression } => PlicType::Lambda {
                bound_var: bound_var.clone(),
                expression: expression.clone(),
            },
            PlicType::Keyword => PlicType::Keyword,
        }
    }
}

/// The ways an evaluation can stop without a value.
#[derive(Clone, Copy, Debug, PartialEq, Eq, Structural)]
pub enum EvalError {
    /// A closing parenthesis was met: the end of an operand list, not a
    /// fault.
    Close,
    /// The head of a combination is not an operation.
    NonApplicable,
    /// Any other malformed input.
    Other,
}

/// How a value is shown: an integer in decimal, an operation by a fixed
/// phrase, a symbol behind a quote mark, a lambda as its parameter, an arrow
/// and its body.
pub open spec fn value_text(v: SpecValue) -> Seq<char> {
    match v {
        SpecValue::Integer(n) => decimal(n),
        SpecValue::Operation(_) => "Built-in operation"@,
        SpecValue::Symbol(s) => seq!['\''] + s,
        SpecValue::Lambda { bound_var, expression } => bound_var + " => "@ + expression,
        _ => "Unknown"@,
    }
}

/// How an error is shown: a short fixed phrase.
pub open spec fn error_text(e: EvalError) -> Seq<char> {
    match e {
        EvalError::NonApplicable => "Operation not applicable"@,
        EvalError::Other => "Error"@,
        EvalError::Close => "Unknown"@,
    }
}

impl PlicType {
    /// The value as text.
    pub fn to_string(&self) -> (s: String)
        ensures
            s@ == value_text(self@),
    {
        match self {
            PlicType::Integer(n) => decimal_string(*n),
            PlicType::Operation { function: _ } => "Built-in operation".to_string(),
            PlicType::Symbol(s) => {
                let mut text = String::new();
                text.push('\'');
                text.append(s.as_str());
                text
            },
            PlicType::Lambda { bound_var, expression } => {
                let text = bound_var.clone().concat(" => ").concat(expression.as_str());
                assert(text@ =~= bound_var@ + " => "@ + expression@);
                text
            },
            _ => "Unknown".to_string(),
        }
    }
}

impl EvalError {
    /// The error as text.
    pub fn to_string(&self) -> (s: String)
        ensures
            s@ == error_text(*self),
    {
        match self {
            EvalError::NonApplicable => "Operation not applicable".to_string(),
            EvalError::Other => "Error".to_string(),
            _ => "Unknown".to_string(),
        }
    }
}

/// The mathematical values of a sequence of values.
pub open spec fn value_views(values: Seq<PlicType>) -> Seq<SpecValue> {
    values.map_values(|v: PlicType| v@)
}

/// The mathematical value of an outcome.
pub open spec fn outcome_view(outcome: Result<PlicType, EvalError>) -> Result<
    SpecValue,
    EvalError,
> {
    match outcome {
        Ok(v) => Ok(v@),
        Err(e) => Err(e),
    }
}

/// What names are bound to, as a mathematical map.
pub type Bindings = Map<Seq<char>, SpecValue>;

/// An environment: one flat table from names to values.
pub struct Environment {
    bindings: StringHashMap<PlicType>,
}

impl View for Environment {
    type V = Bindings;

    closed spec fn view(&self) -> Bindings {
        self.bindings@.map_values(|v: PlicType| v@)
    }
}

impl Environment {
    /// An environment that binds no name.
    pub fn new() -> (env: Environment)
        ensures
            env@ == Bindings::empty(),
    {
        let env = Environment { bindings: StringHashMap::new() };
        assert(env@ =~= Bindings::empty());
        env
    }

    /// Binds `name` to `value`, in place of what it was bound to before.
    pub fn bind(&mut self, name: String, value: PlicType)
        ensures
            final(self)@ == old(self)@.insert(name@, value@),
    {
        self.bindings.insert(name, value);
        assert(final(self)@ =~= old(self)@.insert(name@, value@));
    }

    /// A copy of the value that `name` is bound to, if it is bound.
    pub fn lookup(&self, name: &str) -> (value: Option<PlicType>)
        ensures
            match value {
                Some(v) => self@.contains_key(name@) && v@ == self@[name@],
                None => !self@.contains_key(name@),
            },
    {
        match self.bindings.get(name) {
            Some(v) => Some(v.clone()),
            None => None,
        }
    }
}

/// What applying `operation` to `operands` gives. The operands come in
/// source order.
pub open spec fn apply_spec(operation: SpecValue, operands: Seq<SpecValue>) -> Result<
    SpecValue,
    EvalError,
> {
    match operation {
        SpecValue::Operation(Builtin::Plus) => plus_spec(operands),
        SpecValue::Operation(Builtin::Minus) => minus_spec(operands),
        _ => Err(EvalError::NonApplicable),
    }
}

/// Applies `operation` to `operands`. Only an operation can be applied.
pub fn apply(operation: PlicType, operands: Vec<PlicType>) -> (result: Result<PlicType, EvalError>)
    ensures
        outcome_view(result) == apply_spec(operation@, value_views(operands@)),
{
    match operation {
        PlicType::Operation { function } => match function {
            Builtin::Plus => plus(operands),
            Builtin::Minus => minus(operands),
        },
        _ => Err(EvalError::NonApplicable),
    }
}

/// Evaluating one expression at the head of `ts`: its value or the error it
/// stops with, and the tokens left after it. Exactly one token is consumed
/// before anything else happens; an opening parenthesis starts a form.
pub open spec fn eval(ts: Seq<SpecToken>, env: Bindings) -> (
    Result<SpecValue, EvalError>,
    Seq<SpecToken>,
)
    decreases ts.len(), 0nat,
{
    if ts.len() == 0 {
        (Err(EvalError::Other), ts)
    } else {
        let rest = ts.drop_first();
        match ts[0] {
            SpecToken::Number(n) => (Ok(SpecValue::Integer(n)), rest),
            SpecToken::Plus => (Ok(SpecValue::Operation(Builtin::Plus)), rest),
            SpecToken::Minus => (Ok(SpecValue::Operation(Builtin::Minus)), rest),
            SpecToken::Lambda => (Ok(SpecValue::Keyword), rest),
            SpecToken::Word(w) => (
                Ok(
                    if env.contains_key(w) {
                        env[w]
                    } else {
                        SpecValue::Symbol(w)
                    },
                ),
                rest,
            ),
            SpecToken::ParenOpen => eval_form(rest, env),
            SpecToken::ParenClose => (Err(EvalError::Close), rest),
            _ => (Err(EvalError::Other), rest),
        }
    }
}

/// Evaluating a form whose opening parenthesis is consumed. The head is
/// evaluated first. Where it fails, so does the form, with `Other`. Where it
/// is the lambda keyword, the form is a lambda form. Otherwise the head is
/// applied to the operands that follow, in source order.
///
/// The test on the lengths always holds (`lemma_eval_consumes`); it is there
/// to make the definition well founded.
pub open spec fn eval_form(ts: Seq<SpecToken>, env: Bindings) -> (
    Result<SpecValue, EvalError>,
    Seq<SpecToken>,
)
    decreases ts.len(), 2nat,
{
    let (head, after_head) = eval(ts, env);
    match head {
        Ok(operation) => if after_head.len() <= ts.len() {
            if operation is Keyword {
                eval_lambda(after_head, env)
            } else {
                let (operands, rest) = eval_operands(after_head, env);
                (apply_spec(operation, operands), rest)
            }
        } else {
            (Err(EvalError::Other), after_head)
        },
        Err(_) => (Err(EvalError::Other), after_head),
    }
}

/// The rest of a lambda form, after the keyword: one expression that must
/// evaluate to a symbol, the parameter, then one expression that is captured
/// as text, the body. Anything else fails with `Other`.
pub open spec fn eval_lambda(ts: Seq<SpecToken>, env: Bindings) -> (
    Result<SpecValue, EvalError>,
    Seq<SpecToken>,
)
    decreases ts.len(), 1nat,
{
    let (parameter, after_parameter) = eval(ts, env);
    match parameter {
        Ok(SpecValue::Symbol(name)) => {
            let (body, rest) = capture(after_parameter);
            match body {
                Ok(text) => (Ok(SpecValue::Lambda { bound_var: name, expression: text }), rest),
                Err(_) => (Err(EvalError::Other), rest),
            }
        },
        _ => (Err(EvalError::Other), after_parameter),
    }
}

/// The operands of a combination: the values of the expressions up to the
/// first evaluation that fails, in source order, and the tokens left after
/// that failure. Whatever the failure is, it ends the list; the token that
/// fails is consumed, and is the closing parenthesis where the combination is
/// complete.
///
/// The test on the lengths always holds (`lemma_eval_consumes`); it is there
/// to make the definition well founded.
pub open spec fn eval_operands(ts: Seq<SpecToken>, env: Bindings) -> (
    Seq<SpecValue>,
    Seq<SpecToken>,
)
    decreases ts.len(), 1nat,
{
    let (operand, rest) = eval(ts, env);
    match operand {
        Ok(value) => if rest.len() < ts.len() {
            let (more, after) = eval_operands(rest, env);
            (seq![value] + more, after)
        } else {
            (seq![value], rest)
        },
        Err(_) => (Seq::empty(), rest),
    }
}

/// An evaluation leaves no more tokens than it found, fewer where it found
/// any, and yields a value only where it found one.
pub proof fn lemma_eval_consumes(ts: Seq<SpecToken>, env: Bindings)
    ensures
        eval(ts, env).1.len() <= ts.len(),
        ts.len() > 0 ==> eval(ts, env).1.len() < ts.len(),
        eval(ts, env).0 is Ok ==> ts.len() > 0,
    decreases ts.len(), 0nat,
{
    if ts.len() > 0 && ts[0] is ParenOpen {
        lemma_eval_form_consumes(ts.drop_first(), env);
    }
}

/// The evaluation of a form leaves no more tokens than it found.
pub proof fn lemma_eval_form_consumes(ts: Seq<SpecToken>, env: Bindings)
    ensures
        eval_form(ts, env).1.len() <= ts.len(),
    decreases ts.len(), 2nat,
{
    lemma_eval_consumes(ts, env);
    let (head, after_head) = eval(ts, env);
    if head is Ok {
        if head->Ok_0 is Keyword {
            lemma_eval_consumes(after_head, env);
            lemma_capture_consumes(eval(after_head, env).1);
        } else {
            lemma_eval_operands_consumes(after_head, env);
        }
    }
}

/// The evaluation of operands leaves no more tokens than it found.
pub proof fn lemma_eval_operands_consumes(ts: Seq<SpecToken>, env: Bindings)
    ensures
        eval_operands(ts, env).1.len() <= ts.len(),
    decreases ts.len(), 1nat,
{
    lemma_eval_consumes(ts, env);
    let (operand, rest) = eval(ts, env);
    if operand is Ok && rest.len() < ts.len() {
        lemma_eval_operands_consumes(rest, env);
    }
}

/// Evaluates the next expression of `tokens` in `env`, which it leaves as it
/// is.
///
/// A number is an integer, `+` and `-` are operations, the lambda sign is the
/// keyword, a word is what it is bound to or else a symbol of its own name.
/// An opening parenthesis starts a form; a closing one fails with `Close`;
/// any other token, or none, fails with `Other`.
///
/// The calls nest as deep as the parentheses do, and nothing guards the call
/// stack against a very deep input.
pub fn evaluate_expression<T: TokenSource>(tokens: &mut T, env: &mut Environment) -> (result:
    Result<PlicType, EvalError>)
    ensures
        *final(env) == *old(env),
        final(tokens).pending() == eval(old(tokens).pending(), old(env)@).1,
        outcome_view(result) == eval(old(tokens).pending(), old(env)@).0,
    decreases old(tokens).pending().len(),
{
    let ghost bindings = env@;
    match tokens.next() {
        Some(token) => match token {
            Token::Number(n) => Ok(PlicType::Integer(n)),
            Token::Plus => Ok(PlicType::Operation { function: Builtin::Plus }),
            Token::Minus => Ok(PlicType::Operation { function: Builtin::Minus }),
            Token::Lambda => Ok(PlicType::Keyword),
            Token::Word(w) => match env.lookup(w.as_str()) {
                Some(value) => Ok(value),
                None => Ok(PlicType::Symbol(w)),
            },
            Token::ParenOpen => {
                let ghost form = tokens.pending();
                proof {
                    lemma_eval_consumes(form, bindings);
                    assert(eval(old(tokens).pending(), bindings) == eval_form(form, bindings));
                }
                if let Ok(operation) = evaluate_expression(tokens, env) {
                    if let PlicType::Keyword = operation {
                        let ghost after_keyword = tokens.pending();
                        proof {
                            lemma_eval_consumes(after_keyword, bindings);
                            assert(eval_form(form, bindings) == eval_lambda(
                                after_keyword,
                                bindings,
                            ));
                        }
                        if let Ok(PlicType::Symbol(bound_sym)) = evaluate_expression(tokens, env) {
                            if let Ok(s) = copy_expression(tokens, String::new()) {
                                assert(s@ =~= capture(eval(after_keyword, bindings).1).0->Ok_0);
                                Ok(PlicType::Lambda { bound_var: bound_sym, expression: s })
                            } else {
                                Err(EvalError::Other)
                            }
                        } else {
                            Err(EvalError::Other)
                        }
                    } else {
                        let ghost first = tokens.pending();
                        let mut operands: Vec<PlicType> = Vec::new();
                        loop
                            invariant_except_break
                                *env == *old(env),
                                bindings == old(env)@,
                                tokens.pending().len() < old(tokens).pending().len(),
                                value_views(operands@) + eval_operands(tokens.pending(), bindings).0
                                    == eval_operands(first, bindings).0,
                                eval_operands(tokens.pending(), bindings).1 == eval_operands(
                                    first,
                                    bindings,
                                ).1,
                            ensures
                                *env == *old(env),
                                value_views(operands@) == eval_operands(first, bindings).0,
                                tokens.pending() == eval_operands(first, bindings).1,
                            decreases tokens.pending().len(),
                        {
                            let ghost here = tokens.pending();
                            let ghost so_far = value_views(operands@);
                            proof {
                                lemma_eval_consumes(here, bindings);
                            }
                            match evaluate_expression(tokens, env) {
                                Ok(operand) => {
                                    operands.push(operand);
                                    assert(value_views(operands@) =~= so_far.push(operand@));
                                    assert(so_far + (seq![operand@] + eval_operands(
                                        tokens.pending(),
                                        bindings,
                                    ).0) =~= so_far.push(operand@) + eval_operands(
                                        tokens.pending(),
                                        bindings,
                                    ).0);
                                },
                                Err(_) => {
                                    assert(so_far + Seq::<SpecValue>::empty() =~= so_far);
                                    break ;
                                },
                            }
                        }
                        apply(operation, operands)
                    }
                } else {
                    Err(EvalError::Other)
                }
            },
            Token::ParenClose => Err(EvalError::Close),
            _ => Err(EvalError::Other),
        },
        None => Err(EvalError::Other),
    }
}

/// The error that a line is answered with: `Close` never leaves the
/// evaluator, so a closing parenthesis with nothing to close is malformed
/// input like any other.
pub open spec fn surfaced(e: EvalError) -> EvalError {
    match e {
        EvalError::Close => EvalError::Other,
        _ => e,
    }
}

/// Parses and evaluates one line: the first expression of `line`, in an
/// environment of its own that binds nothing. The value comes back as text,
/// and so does the error; the sentinel `Close` comes back as `Other`.
pub fn evaluate_line(line: String) -> (result: Result<String, String>)
    ensures
        match eval(tokenize(line@), Bindings::empty()).0 {
            Ok(v) => result matches Ok(s) && s@ == value_text(v),
            Err(e) => result matches Err(s) && s@ == error_text(surfaced(e)),
        },
{
    let mut global_env = Environment::new();
    let mut source = tokens(line.as_str());
    match evaluate_expression(&mut source, &mut global_env) {
        Ok(r) => Ok(r.to_string()),
        Err(EvalError::Close) => Err(EvalError::Other.to_string()),
        Err(e) => Err(e.to_string()),
    }
}

} // verus!

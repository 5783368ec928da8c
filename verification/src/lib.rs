//! Arithmetic on text: an expression in infix notation is checked for
//! balanced parentheses, split into tokens, reordered into postfix form and
//! reduced on a value stack.
//!
//! Numbers travel through the library as the 64 bits of an IEEE 754 double.
//! The library never computes on them: reading a literal and applying an
//! operator are handed in by the caller, and every contract says what is
//! returned for whatever those two do.

use vstd::prelude::*;

pub mod paren_checker;
pub mod tokenizer;
pub mod postfix_converter;
pub mod conversion_laws;
pub mod paren_laws;
pub mod calculator;
pub mod expression;

pub use crate::calculator::calculate;
pub use crate::paren_checker::check_pairs;
pub use crate::postfix_converter::convert_to_postfix;
pub use crate::tokenizer::parse_expression;
use crate::calculator::{computes, is_postfix, reduces_to, value_of};
use crate::expression::{
    converted_infix_has_the_value,
    infix,
    infix_pairs_up,
    value,
    well_formed,
    Expr,
};
use crate::paren_checker::balanced;
use crate::paren_laws::tokens_pair_up_as_the_text;
use crate::conversion_laws::{repeated_kind_has_no_postfix, repeats_at};
use crate::postfix_converter::{is_operator, postfix_of};
use crate::tokenizer::{
    bad_unit_has_no_tokens,
    can_be_tokens_of,
    ends_unit,
    foreign_character_admits_no_tokens,
    foreign_character_has_no_tokens,
    reads,
    token_char,
    tokens_of,
    unit_between,
    unit_token,
};

verus! {

/// One token of an expression.
#[derive(Clone, Copy, Debug, PartialEq, Eq, Structural)]
pub enum Type {
    /// A number, as the bits of a double.
    Number(u64),
    /// An operator sign; `+ - * /` are the ones with a meaning.
    Operation(char),
    /// A parenthesis, `(` or `)`.
    Parentheses(char),
    /// Anything else.
    Illegal,
}

/// Why an expression has no value.
#[derive(Clone, Copy, Debug, PartialEq, Eq, Structural)]
pub enum ErrorKind {
    /// A parenthesis has no partner.
    UnbalancedParentheses,
    /// A unit of the text is neither a number, an operator nor a parenthesis.
    IllegalToken,
    /// Operands and operators do not alternate.
    MalformedExpression,
    /// An operator lacks an operand, or operands are left over.
    ArithmeticError,
}

impl ErrorKind {
    /// A sentence for the reader of the result.
    pub fn message(&self) -> (text: &'static str)
        ensures
            text@ == match *self {
                ErrorKind::UnbalancedParentheses => "not every parentheses has a pair"@,
                ErrorKind::IllegalToken => "the entered expression contains illegal characters"@,
                ErrorKind::MalformedExpression => "the entered expression has too many operands"@,
                ErrorKind::ArithmeticError => "math error (ex. 0 division error)"@,
            },
    {
        match self {
            ErrorKind::UnbalancedParentheses => "not every parentheses has a pair",
            ErrorKind::IllegalToken => "the entered expression contains illegal characters",
            ErrorKind::MalformedExpression => "the entered expression has too many operands",
            ErrorKind::ArithmeticError => "math error (ex. 0 division error)",
        }
    }
}

/// What an expression comes to: the first stage that fails names the error,
/// and the stages after it are not reached.
pub open spec fn outcome(
    expression: Seq<char>,
    g: spec_fn(Seq<char>) -> Option<u64>,
    f: spec_fn(char, u64, u64) -> u64,
) -> Result<u64, ErrorKind> {
    if !balanced(expression) {
        Err(ErrorKind::UnbalancedParentheses)
    } else {
        match tokens_of(expression, g) {
            None => Err(ErrorKind::IllegalToken),
            Some(infix) => match postfix_of(infix) {
                None => Err(ErrorKind::MalformedExpression),
                Some(postfix) => match value_of(postfix, f) {
                    None => Err(ErrorKind::ArithmeticError),
                    Some(v) => Ok(v),
                },
            },
        }
    }
}

/// `r` is what the expression can come to, with the numbers that `number`
/// can read and the values that `apply` can return.
pub open spec fn can_come_to<N: Fn(&str) -> Option<u64>, F: Fn(char, u64, u64) -> u64>(
    number: N,
    apply: F,
    expression: Seq<char>,
    r: Result<u64, ErrorKind>,
) -> bool {
    if !balanced(expression) {
        r == Err::<u64, ErrorKind>(ErrorKind::UnbalancedParentheses)
    } else {
        ||| r == Err::<u64, ErrorKind>(ErrorKind::IllegalToken) && can_be_tokens_of(
            number,
            expression,
            None,
        )
        ||| exists|infix: Seq<Type>| #[trigger]
            can_be_tokens_of(number, expression, Some(infix)) && match postfix_of(infix) {
                None => r == Err::<u64, ErrorKind>(ErrorKind::MalformedExpression),
                Some(postfix) => match r {
                    Ok(v) => reduces_to(apply, postfix, Seq::empty(), seq![v]),
                    Err(kind) => kind == ErrorKind::ArithmeticError && !is_postfix(postfix),
                },
            }
    }
}

/// Evaluates an expression in infix notation.
///
/// The parentheses are checked, the text is split into tokens, the tokens
/// are put in postfix order and the postfix sequence is reduced. `number`
/// reads a number from its text and `apply` computes one operation from the
/// sign, the left and the right operand.
///
/// The result is `UnbalancedParentheses` for the texts whose parentheses do
/// not pair up, and for no others. Whatever `number` and `apply` return, the
/// result is one that `can_come_to` admits. Where the two are functions, `g`
/// of the text and `f` of sign and operands, the result is the `outcome` of
/// the expression under `g` and `f`.
pub fn calculate_expression<N: Fn(&str) -> Option<u64>, F: Fn(char, u64, u64) -> u64>(
    expression: &str,
    number: N,
    apply: F,
) -> (r: Result<u64, ErrorKind>)
    requires
        forall|text: &str| call_requires(number, (text,)),
        forall|op: char, left: u64, right: u64|
            is_operator(op) ==> call_requires(apply, (op, left, right)),
    ensures
        r == Err::<u64, ErrorKind>(ErrorKind::UnbalancedParentheses) <==> !balanced(expression@),
        can_come_to(number, apply, expression@, r),
        forall|g: spec_fn(Seq<char>) -> Option<u64>, f: spec_fn(char, u64, u64) -> u64|
            reads(number, g) && computes(apply, f) ==> r == #[trigger] outcome(expression@, g, f),
{
    if !check_pairs(expression) {
        return Err(ErrorKind::UnbalancedParentheses);
    }
    let parsed_expression = match parse_expression(expression, number) {
        Some(pe) => pe,
        None => {
            return Err(ErrorKind::IllegalToken);
        },
    };
    let ghost infix = parsed_expression@;
    let calculation_tokens = match convert_to_postfix(parsed_expression) {
        Some(ct) => ct,
        None => {
            assert(can_be_tokens_of(number, expression@, Some(infix)));
            return Err(ErrorKind::MalformedExpression);
        },
    };
    assert(can_be_tokens_of(number, expression@, Some(infix)));
    match calculate(calculation_tokens, apply) {
        Some(final_result) => Ok(final_result),
        None => Err(ErrorKind::ArithmeticError),
    }
}

/// A text whose tokens are the infix form of a well-formed tree has balanced
/// parentheses and comes to the value of that tree.
pub proof fn outcome_is_the_value_of_the_tree(
    expression: Seq<char>,
    e: Expr,
    g: spec_fn(Seq<char>) -> Option<u64>,
    f: spec_fn(char, u64, u64) -> u64,
)
    requires
        tokens_of(expression, g) == Some(infix(e)),
        well_formed(e),
    ensures
        balanced(expression),
        outcome(expression, g, f) == Ok::<u64, ErrorKind>(value(e, f)),
{
    infix_pairs_up(e);
    tokens_pair_up_as_the_text(expression, infix(e), g);
    converted_infix_has_the_value(e, f);
}

/// Two evaluations of one text with one way of reading numbers and one
/// arithmetic return the same.
pub proof fn evaluation_repeats<N: Fn(&str) -> Option<u64>, F: Fn(char, u64, u64) -> u64>(
    expression: &str,
    number: N,
    apply: F,
    g: spec_fn(Seq<char>) -> Option<u64>,
    f: spec_fn(char, u64, u64) -> u64,
    first: Result<u64, ErrorKind>,
    second: Result<u64, ErrorKind>,
)
    requires
        reads(number, g),
        computes(apply, f),
        call_ensures(calculate_expression::<N, F>, (expression, number, apply), first),
        call_ensures(calculate_expression::<N, F>, (expression, number, apply), second),
    ensures
        first == second,
{
    assert(first == outcome(expression@, g, f));
    assert(second == outcome(expression@, g, f));
}

/// A balanced text with a unit that stands for no token is refused for that
/// token: neither the conversion nor the reduction is reached.
pub proof fn bad_unit_is_an_illegal_token(
    before: Seq<char>,
    unit: Seq<char>,
    after: Seq<char>,
    g: spec_fn(Seq<char>) -> Option<u64>,
    f: spec_fn(char, u64, u64) -> u64,
)
    requires
        balanced(before + unit + after),
        unit_between(before, unit, after),
        unit_token(unit, g) is None,
    ensures
        outcome(before + unit + after, g, f) == Err::<u64, ErrorKind>(ErrorKind::IllegalToken),
{
    bad_unit_has_no_tokens(before, unit, after, g);
}

/// A text whose tokens repeat a kind, number after number or operator after
/// operator, is refused as malformed.
pub proof fn repeated_kind_is_malformed(
    expression: Seq<char>,
    ts: Seq<Type>,
    i: int,
    g: spec_fn(Seq<char>) -> Option<u64>,
    f: spec_fn(char, u64, u64) -> u64,
)
    requires
        balanced(expression),
        tokens_of(expression, g) == Some(ts),
        repeats_at(ts, i),
    ensures
        outcome(expression, g, f) == Err::<u64, ErrorKind>(ErrorKind::MalformedExpression),
{
    repeated_kind_has_no_postfix(ts, i);
}

/// A balanced text with a character that is neither white space, nor a
/// parenthesis, nor a digit, nor one of `. e E + - * /` is refused for an
/// illegal token, whatever reads the numbers and whatever the arithmetic.
pub proof fn foreign_character_is_an_illegal_token<
    N: Fn(&str) -> Option<u64>,
    F: Fn(char, u64, u64) -> u64,
>(
    number: N,
    apply: F,
    expression: Seq<char>,
    i: int,
    r: Result<u64, ErrorKind>,
    g: spec_fn(Seq<char>) -> Option<u64>,
    f: spec_fn(char, u64, u64) -> u64,
)
    requires
        balanced(expression),
        0 <= i < expression.len(),
        !ends_unit(expression[i]),
        !token_char(expression[i]),
    ensures
        outcome(expression, g, f) == Err::<u64, ErrorKind>(ErrorKind::IllegalToken),
        can_come_to(number, apply, expression, r) ==> r == Err::<u64, ErrorKind>(
            ErrorKind::IllegalToken,
        ),
{
    foreign_character_has_no_tokens(expression, i, g);
    if can_come_to(number, apply, expression, r) && r != Err::<u64, ErrorKind>(
        ErrorKind::IllegalToken,
    ) {
        let infix = choose|infix: Seq<Type>| #[trigger]
            can_be_tokens_of(number, expression, Some(infix));
        foreign_character_admits_no_tokens(number, expression, i, Some(infix));
    }
}

} // verus!

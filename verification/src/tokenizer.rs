//! From text to tokens.
//!
//! A parenthesis is a token wherever it stands, with or without white space
//! beside it. What lies between parentheses and white space is a unit, and
//! each unit has to be a number or a single operator sign. So a number and
//! an operator have to be set apart: `1 + 1` is three tokens, `1+1` is one
//! unit that stands for no token, and `-1` is a number. A character that
//! neither a number nor an operator can hold ends the scan where it stands.

use vstd::prelude::*;
use vstd::string::StrSliceExecFns;
use regex::Regex;
use crate::Type;
use crate::postfix_converter::is_operator;

verus! {

/// The shape of a number: an optional sign, digits with an optional
/// fraction or a fraction alone, and an optional exponent.
pub const NUMBER_PATTERN: &'static str = r"^[-+]?(\d+(\.\d*)?|\.\d+)([eE][-+]?\d+)?$";

/// Whether the regular expression `pattern` has a match somewhere in
/// `text`; `None` where `pattern` does not compile.
pub uninterp spec fn pattern_found(pattern: Seq<char>, text: Seq<char>) -> Option<bool>;

/// The characters with the Unicode property White_Space.
pub open spec fn white_space(c: char) -> bool {
    let n = c as u32;
    ||| 0x09 <= n <= 0x0D
    ||| n == 0x20
    ||| n == 0x85
    ||| n == 0xA0
    ||| n == 0x1680
    ||| 0x2000 <= n <= 0x200A
    ||| n == 0x2028
    ||| n == 0x2029
    ||| n == 0x202F
    ||| n == 0x205F
    ||| n == 0x3000
}

/// `Regex::new` followed by `Regex::is_match` of the `regex` crate: the
/// pattern is compiled, and where that succeeds the text is searched for a
/// match. Both are functions of their arguments alone; the contract gives
/// the outcome a name and claims no more.
#[verifier::external_body]
fn search(pattern: &str, text: &str) -> (r: Option<bool>)
    ensures
        r == pattern_found(pattern@, text@),
{
    match Regex::new(pattern) {
        Ok(re) => Some(re.is_match(text)),
        Err(_) => None,
    }
}

/// `char::is_whitespace` of the standard library, which tells whether a
/// character has the Unicode property White_Space. The contract lists the
/// characters that have it: tab to carriage return, the space, next line,
/// the no-break space, the ogham space mark, en quad to hair space, the line
/// and the paragraph separator, the narrow no-break space, the medium
/// mathematical space and the ideographic space.
#[verifier::external_body]
fn is_space(c: char) -> (b: bool)
    ensures
        b == white_space(c),
{
    c.is_whitespace()
}

pub open spec fn is_paren(c: char) -> bool {
    c == '(' || c == ')'
}

/// A character that ends the unit before it.
pub open spec fn ends_unit(c: char) -> bool {
    is_paren(c) || white_space(c)
}

/// A character that a number or an operator can hold: a digit, `.`, `e`,
/// `E` or one of `+ - * /`.
pub open spec fn token_char(c: char) -> bool {
    let n = c as u32;
    ||| 0x30 <= n <= 0x39
    ||| c == '.'
    ||| c == 'e'
    ||| c == 'E'
    ||| is_operator(c)
}

/// The unit has the shape of a number.
pub open spec fn number_shaped(unit: Seq<char>) -> bool {
    pattern_found(NUMBER_PATTERN@, unit) == Some(true)
}

/// `number` returns what `g` says of the text, whenever it returns.
pub open spec fn reads<N: Fn(&str) -> Option<u64>>(
    number: N,
    g: spec_fn(Seq<char>) -> Option<u64>,
) -> bool {
    forall|text: &str, v: Option<u64>| call_ensures(number, (text,), v) ==> v == g(text@)
}

/// The token that a unit stands for, given whether it has the shape of a
/// number. That shape is tried first, and a unit of that shape which `g`
/// cannot read stands for nothing.
pub open spec fn token_given(
    unit: Seq<char>,
    shaped: bool,
    g: spec_fn(Seq<char>) -> Option<u64>,
) -> Option<Type> {
    if shaped {
        match g(unit) {
            Some(bits) => Some(Type::Number(bits)),
            None => None,
        }
    } else if unit.len() == 1 && is_operator(unit[0]) {
        Some(Type::Operation(unit[0]))
    } else {
        None
    }
}

/// The token that a unit stands for.
pub open spec fn unit_token(unit: Seq<char>, g: spec_fn(Seq<char>) -> Option<u64>) -> Option<Type> {
    token_given(unit, number_shaped(unit), g)
}

/// The tokens `out` with that of `unit` behind them; an empty unit adds
/// nothing.
pub open spec fn closed(out: Seq<Type>, unit: Seq<char>, g: spec_fn(Seq<char>) -> Option<u64>) -> Option<
    Seq<Type>,
> {
    if unit.len() == 0 {
        Some(out)
    } else {
        match unit_token(unit, g) {
            Some(t) => Some(out.push(t)),
            None => None,
        }
    }
}

/// The tokens of `unit` followed by `s`, behind the tokens `out`: `unit`
/// holds the characters of the unit that is being read.
pub open spec fn scan(
    s: Seq<char>,
    unit: Seq<char>,
    out: Seq<Type>,
    g: spec_fn(Seq<char>) -> Option<u64>,
) -> Option<Seq<Type>>
    decreases s.len(),
{
    if s.len() == 0 {
        closed(out, unit, g)
    } else if ends_unit(s[0]) {
        match closed(out, unit, g) {
            None => None,
            Some(o) => scan(
                s.skip(1),
                Seq::empty(),
                if is_paren(s[0]) {
                    o.push(Type::Parentheses(s[0]))
                } else {
                    o
                },
                g,
            ),
        }
    } else if token_char(s[0]) {
        scan(s.skip(1), unit.push(s[0]), out, g)
    } else {
        None
    }
}

/// The tokens of the text `s`; `None` where a character can stand in no
/// token, or a unit stands for no token.
pub open spec fn tokens_of(s: Seq<char>, g: spec_fn(Seq<char>) -> Option<u64>) -> Option<Seq<Type>> {
    scan(s, Seq::empty(), Seq::empty(), g)
}

/// `number` can return `v` for a text that reads `unit`.
pub open spec fn can_read<N: Fn(&str) -> Option<u64>>(
    number: N,
    unit: Seq<char>,
    v: Option<u64>,
) -> bool {
    exists|text: &str| text@ == unit && #[trigger] call_ensures(number, (text,), v)
}

/// `t` is what `unit` can stand for, given whether it has the shape of a
/// number: with that shape, what `number` can return for it decides.
pub open spec fn can_be_token<N: Fn(&str) -> Option<u64>>(
    number: N,
    unit: Seq<char>,
    shaped: bool,
    t: Option<Type>,
) -> bool {
    if shaped {
        match t {
            Some(token) => exists|bits: u64| #[trigger]
                can_read(number, unit, Some(bits)) && token == Type::Number(bits),
            None => can_read(number, unit, None),
        }
    } else if unit.len() == 1 && is_operator(unit[0]) {
        t == Some(Type::Operation(unit[0]))
    } else {
        t is None
    }
}

/// `result` is what closing `unit` behind the tokens `out` can give.
pub open spec fn can_close<N: Fn(&str) -> Option<u64>>(
    number: N,
    out: Seq<Type>,
    unit: Seq<char>,
    result: Option<Seq<Type>>,
) -> bool {
    if unit.len() == 0 {
        result == Some(out)
    } else {
        match result {
            Some(o) => exists|t: Type| #[trigger]
                can_be_token(number, unit, number_shaped(unit), Some(t)) && o == out.push(t),
            None => can_be_token(number, unit, number_shaped(unit), None),
        }
    }
}

/// `result` is what the scan of `unit` followed by `s` can give behind the
/// tokens `out`, with results that `number` can return for the units of the
/// shape of a number.
pub open spec fn can_scan<N: Fn(&str) -> Option<u64>>(
    number: N,
    s: Seq<char>,
    unit: Seq<char>,
    out: Seq<Type>,
    result: Option<Seq<Type>>,
) -> bool
    decreases s.len(),
{
    if s.len() == 0 {
        can_close(number, out, unit, result)
    } else if ends_unit(s[0]) {
        ||| result is None && can_close(number, out, unit, None)
        ||| exists|o: Seq<Type>| #[trigger]
            can_close(number, out, unit, Some(o)) && can_scan(
                number,
                s.skip(1),
                Seq::empty(),
                if is_paren(s[0]) {
                    o.push(Type::Parentheses(s[0]))
                } else {
                    o
                },
                result,
            )
    } else if token_char(s[0]) {
        can_scan(number, s.skip(1), unit.push(s[0]), out, result)
    } else {
        result is None
    }
}

/// The tokens that `number` can make of the text `s`: `result` is one of
/// them, or `None` where `number` can refuse a unit or a unit stands for no
/// token.
pub open spec fn can_be_tokens_of<N: Fn(&str) -> Option<u64>>(
    number: N,
    s: Seq<char>,
    result: Option<Seq<Type>>,
) -> bool {
    can_scan(number, s, Seq::empty(), Seq::empty(), result)
}

/// The tokens of a result, where it has any.
pub open spec fn as_tokens(r: Option<Vec<Type>>) -> Option<Seq<Type>> {
    match r {
        Some(v) => Some(v@),
        None => None,
    }
}

/// The token that a unit stands for, where `shaped` tells whether the unit
/// has the shape of a number.
///
/// A unit of that shape is handed to `number`, and is the number that comes
/// back, or nothing where none comes back. Any other unit is an operator if
/// it is one of `+ - * /`, and else nothing.
pub fn token_of_unit<N: Fn(&str) -> Option<u64>>(unit: &str, shaped: bool, number: &N) -> (t:
    Option<Type>)
    requires
        forall|text: &str| call_requires(*number, (text,)),
    ensures
        can_be_token(*number, unit@, shaped, t),
        forall|g: spec_fn(Seq<char>) -> Option<u64>|
            reads(*number, g) ==> t == #[trigger] token_given(unit@, shaped, g),
{
    if shaped {
        let read = number(unit);
        assert(can_read(*number, unit@, read)) by {
            assert(call_ensures(*number, (unit,), read));
        }
        match read {
            Some(bits) => Some(Type::Number(bits)),
            None => None,
        }
    } else if unit.unicode_len() == 1 {
        let c = unit.get_char(0);
        if c == '+' || c == '-' || c == '*' || c == '/' {
            Some(Type::Operation(c))
        } else {
            None
        }
    } else {
        None
    }
}

/// Classifies one unit and appends its token. Returns `false`, with
/// `tokens` as it was, where the unit stands for no token.
fn close_unit<N: Fn(&str) -> Option<u64>>(tokens: &mut Vec<Type>, unit: &str, number: &N) -> (ok:
    bool)
    requires
        forall|text: &str| call_requires(*number, (text,)),
    ensures
        can_close(
            *number,
            old(tokens)@,
            unit@,
            if ok {
                Some(final(tokens)@)
            } else {
                None
            },
        ),
        forall|g: spec_fn(Seq<char>) -> Option<u64>|
            reads(*number, g) ==> (match #[trigger] closed(old(tokens)@, unit@, g) {
                Some(o) => ok && final(tokens)@ == o,
                None => !ok,
            }),
        !ok ==> final(tokens)@ == old(tokens)@,
{
    if unit.unicode_len() == 0 {
        return true;
    }
    let shaped = match search(NUMBER_PATTERN, unit) {
        Some(found) => found,
        None => false,
    };
    match token_of_unit(unit, shaped, number) {
        Some(t) => {
            tokens.push(t);
            true
        },
        None => false,
    }
}

/// Whether a number or an operator can hold `c`.
fn is_token_char(c: char) -> (b: bool)
    ensures
        b == token_char(c),
{
    let n = c as u32;
    (0x30 <= n && n <= 0x39) || c == '.' || c == 'e' || c == 'E' || c == '+' || c == '-' || c
        == '*' || c == '/'
}

/// Splits an expression into tokens.
///
/// `(` and `)` are tokens by themselves, with or without white space round
/// them. Every other run of characters between white space and parentheses
/// has to be a number, which `number` then reads, or one of `+ - * /`. The
/// result is `None` as soon as a character is met that neither a number nor
/// an operator can hold, or a run is neither of the two, or is a number by
/// its shape that `number` does not read.
///
/// Whatever `number` returns, the result is one that `can_be_tokens_of`
/// admits. Where `number` is a function `g` of the text, the result is
/// `tokens_of` the expression under `g`.
pub fn parse_expression<N: Fn(&str) -> Option<u64>>(expression: &str, number: N) -> (r: Option<
    Vec<Type>,
>)
    requires
        forall|text: &str| call_requires(number, (text,)),
    ensures
        can_be_tokens_of(number, expression@, as_tokens(r)),
        forall|g: spec_fn(Seq<char>) -> Option<u64>|
            reads(number, g) ==> as_tokens(r) == #[trigger] tokens_of(expression@, g),
{
    let n = expression.unicode_len();
    let mut tokens: Vec<Type> = Vec::new();
    let mut from: usize = 0;
    let mut i: usize = 0;
    assert(expression@.subrange(0, n as int) =~= expression@);
    assert(expression@.subrange(0, 0) =~= Seq::empty());
    while i < n
        invariant
            from <= i <= n == expression@.len(),
            forall|text: &str| call_requires(number, (text,)),
            forall|result: Option<Seq<Type>>| #[trigger]
                can_scan(
                    number,
                    expression@.subrange(i as int, n as int),
                    expression@.subrange(from as int, i as int),
                    tokens@,
                    result,
                ) ==> can_be_tokens_of(number, expression@, result),
            forall|g: spec_fn(Seq<char>) -> Option<u64>|
                reads(number, g) ==> scan(
                    expression@.subrange(i as int, n as int),
                    expression@.subrange(from as int, i as int),
                    tokens@,
                    g,
                ) == #[trigger] tokens_of(expression@, g),
        decreases n - i,
    {
        let ghost rest = expression@.subrange(i as int, n as int);
        let ghost unit = expression@.subrange(from as int, i as int);
        let ghost before = tokens@;
        let c = expression.get_char(i);
        proof {
            assert(rest[0] == c);
            assert(rest.skip(1) =~= expression@.subrange(i + 1, n as int));
            assert(unit.push(c) =~= expression@.subrange(from as int, i + 1));
            assert(expression@.subrange(i + 1, i + 1) =~= Seq::empty());
        }
        let paren = c == '(' || c == ')';
        if paren || is_space(c) {
            if !close_unit(&mut tokens, expression.substring_char(from, i), &number) {
                proof {
                    assert(can_scan(number, rest, unit, before, None));
                    assert forall|g: spec_fn(Seq<char>) -> Option<u64>|
                        reads(number, g) implies #[trigger] tokens_of(expression@, g) is None by {
                        assert(closed(before, unit, g) is None);
                        assert(scan(rest, unit, before, g) is None);
                    }
                }
                return None;
            }
            let ghost shut = tokens@;
            if paren {
                tokens.push(Type::Parentheses(c));
            }
            from = i + 1;
            proof {
                assert forall|result: Option<Seq<Type>>| #[trigger]
                    can_scan(
                        number,
                        expression@.subrange(i + 1, n as int),
                        expression@.subrange(from as int, i + 1),
                        tokens@,
                        result,
                    ) implies can_be_tokens_of(number, expression@, result) by {
                    assert(can_close(number, before, unit, Some(shut)));
                    assert(can_scan(number, rest, unit, before, result));
                }
                assert forall|g: spec_fn(Seq<char>) -> Option<u64>| reads(number, g) implies scan(
                    expression@.subrange(i + 1, n as int),
                    expression@.subrange(from as int, i + 1),
                    tokens@,
                    g,
                ) == #[trigger] tokens_of(expression@, g) by {
                    assert(closed(before, unit, g) == Some(shut));
                    assert(scan(rest, unit, before, g) == scan(
                        rest.skip(1),
                        Seq::empty(),
                        tokens@,
                        g,
                    ));
                }
            }
        } else if !is_token_char(c) {
            proof {
                assert(can_scan(number, rest, unit, before, None));
                assert forall|g: spec_fn(Seq<char>) -> Option<u64>|
                    reads(number, g) implies #[trigger] tokens_of(expression@, g) is None by {
                    assert(scan(rest, unit, before, g) is None);
                }
            }
            return None;
        } else {
            proof {
                assert forall|result: Option<Seq<Type>>| #[trigger]
                    can_scan(
                        number,
                        expression@.subrange(i + 1, n as int),
                        expression@.subrange(from as int, i + 1),
                        tokens@,
                        result,
                    ) implies can_be_tokens_of(number, expression@, result) by {
                    assert(can_scan(number, rest, unit, before, result));
                }
                assert forall|g: spec_fn(Seq<char>) -> Option<u64>| reads(number, g) implies scan(
                    expression@.subrange(i + 1, n as int),
                    expression@.subrange(from as int, i + 1),
                    tokens@,
                    g,
                ) == #[trigger] tokens_of(expression@, g) by {
                    assert(scan(rest, unit, before, g) == scan(
                        rest.skip(1),
                        unit.push(c),
                        before,
                        g,
                    ));
                }
            }
        }
        i = i + 1;
    }
    let ghost unit = expression@.subrange(from as int, n as int);
    let ghost before = tokens@;
    let ok = close_unit(&mut tokens, expression.substring_char(from, n), &number);
    proof {
        assert(expression@.subrange(n as int, n as int).len() == 0);
        assert forall|g: spec_fn(Seq<char>) -> Option<u64>|
            reads(number, g) implies #[trigger] tokens_of(expression@, g) == closed(
            before,
            unit,
            g,
        ) by {
            assert(scan(expression@.subrange(n as int, n as int), unit, before, g) == closed(
                before,
                unit,
                g,
            ));
        }
    }
    proof {
        let result = if ok {
            Some(tokens@)
        } else {
            None
        };
        assert(can_scan(number, expression@.subrange(n as int, n as int), unit, before, result));
    }
    if ok {
        Some(tokens)
    } else {
        None
    }
}

/// No character of `unit` ends a unit.
pub open spec fn unbroken(unit: Seq<char>) -> bool {
    forall|i: int| 0 <= i < unit.len() ==> !ends_unit(#[trigger] unit[i])
}

/// `unit` is one of the units of `before + unit + after`: it is not empty,
/// nothing in it ends a unit, and it reaches on both sides to the end of the
/// text or to a character that ends a unit.
pub open spec fn unit_between(before: Seq<char>, unit: Seq<char>, after: Seq<char>) -> bool {
    &&& unit.len() > 0
    &&& unbroken(unit)
    &&& before.len() > 0 ==> ends_unit(before.last())
    &&& after.len() > 0 ==> ends_unit(after[0])
}

/// Characters that end no unit join the unit that is being read, unless
/// the scan fails on one of them.
proof fn lemma_scan_unit(
    unit: Seq<char>,
    after: Seq<char>,
    held: Seq<char>,
    out: Seq<Type>,
    g: spec_fn(Seq<char>) -> Option<u64>,
)
    requires
        unbroken(unit),
    ensures
        scan(unit + after, held, out, g) is None || scan(unit + after, held, out, g) == scan(
            after,
            held + unit,
            out,
            g,
        ),
    decreases unit.len(),
{
    if unit.len() == 0 {
        assert(unit + after =~= after);
        assert(held + unit =~= held);
    } else {
        let s = unit + after;
        assert(s[0] == unit[0]);
        assert(s.skip(1) =~= unit.skip(1) + after);
        assert forall|i: int| 0 <= i < unit.skip(1).len() implies !ends_unit(
            #[trigger] unit.skip(1)[i],
        ) by {
            assert(unit.skip(1)[i] == unit[i + 1]);
        }
        lemma_scan_unit(unit.skip(1), after, held.push(unit[0]), out, g);
        assert(held.push(unit[0]) + unit.skip(1) =~= held + unit);
    }
}

/// Behind text that ends a unit, the scan starts a unit afresh, unless it
/// has failed by then.
proof fn lemma_scan_before(
    before: Seq<char>,
    tail: Seq<char>,
    held: Seq<char>,
    out: Seq<Type>,
    g: spec_fn(Seq<char>) -> Option<u64>,
) -> (reached: Seq<Type>)
    requires
        before.len() > 0,
        ends_unit(before.last()),
    ensures
        scan(before + tail, held, out, g) is None || scan(before + tail, held, out, g) == scan(
            tail,
            Seq::empty(),
            reached,
            g,
        ),
    decreases before.len(),
{
    let s = before + tail;
    assert(s[0] == before[0]);
    assert(s.skip(1) =~= before.skip(1) + tail);
    if before.len() == 1 {
        assert(s.skip(1) =~= tail);
        match closed(out, held, g) {
            None => out,
            Some(o) => if is_paren(s[0]) {
                o.push(Type::Parentheses(s[0]))
            } else {
                o
            },
        }
    } else {
        assert(before.skip(1).last() == before.last());
        if ends_unit(s[0]) {
            match closed(out, held, g) {
                None => out,
                Some(o) => lemma_scan_before(
                    before.skip(1),
                    tail,
                    Seq::empty(),
                    if is_paren(s[0]) {
                        o.push(Type::Parentheses(s[0]))
                    } else {
                        o
                    },
                    g,
                ),
            }
        } else {
            lemma_scan_before(before.skip(1), tail, held.push(s[0]), out, g)
        }
    }
}

/// A text with a unit that stands for no token has no tokens.
pub proof fn bad_unit_has_no_tokens(
    before: Seq<char>,
    unit: Seq<char>,
    after: Seq<char>,
    g: spec_fn(Seq<char>) -> Option<u64>,
)
    requires
        unit_between(before, unit, after),
        unit_token(unit, g) is None,
    ensures
        tokens_of(before + unit + after, g) is None,
{
    let empty = Seq::<char>::empty();
    let text = before + unit + after;
    assert(text =~= before + (unit + after));
    let reached = if before.len() == 0 {
        assert(text =~= unit + after);
        Seq::<Type>::empty()
    } else {
        lemma_scan_before(before, unit + after, empty, Seq::empty(), g)
    };
    if tokens_of(text, g) is Some {
        assert(tokens_of(text, g) == scan(unit + after, empty, reached, g));
        lemma_scan_unit(unit, after, empty, reached, g);
        assert(empty + unit =~= unit);
        assert(closed(reached, unit, g) is None);
    }
}

/// The scan fails on a character that ends no unit and that neither a
/// number nor an operator can hold.
proof fn lemma_scan_foreign(
    s: Seq<char>,
    i: int,
    unit: Seq<char>,
    out: Seq<Type>,
    g: spec_fn(Seq<char>) -> Option<u64>,
)
    requires
        0 <= i < s.len(),
        !ends_unit(s[i]),
        !token_char(s[i]),
    ensures
        scan(s, unit, out, g) is None,
    decreases s.len(),
{
    if i > 0 {
        let rest = s.skip(1);
        assert(rest[i - 1] == s[i]);
        if ends_unit(s[0]) {
            match closed(out, unit, g) {
                None => {},
                Some(o) => {
                    lemma_scan_foreign(
                        rest,
                        i - 1,
                        Seq::empty(),
                        if is_paren(s[0]) {
                            o.push(Type::Parentheses(s[0]))
                        } else {
                            o
                        },
                        g,
                    );
                },
            }
        } else if token_char(s[0]) {
            lemma_scan_foreign(rest, i - 1, unit.push(s[0]), out, g);
        }
    }
}

/// A text has no tokens if it holds a character that is neither white
/// space, nor a parenthesis, nor a digit, nor one of `. e E + - * /`,
/// whatever the reader of numbers would make of it.
pub proof fn foreign_character_has_no_tokens(
    s: Seq<char>,
    i: int,
    g: spec_fn(Seq<char>) -> Option<u64>,
)
    requires
        0 <= i < s.len(),
        !ends_unit(s[i]),
        !token_char(s[i]),
    ensures
        tokens_of(s, g) is None,
{
    lemma_scan_foreign(s, i, Seq::empty(), Seq::empty(), g);
}

/// Whatever `number` returns, the scan fails on such a character.
proof fn lemma_can_scan_foreign<N: Fn(&str) -> Option<u64>>(
    number: N,
    s: Seq<char>,
    i: int,
    unit: Seq<char>,
    out: Seq<Type>,
    result: Option<Seq<Type>>,
)
    requires
        0 <= i < s.len(),
        !ends_unit(s[i]),
        !token_char(s[i]),
        can_scan(number, s, unit, out, result),
    ensures
        result is None,
    decreases s.len(),
{
    if i > 0 {
        let rest = s.skip(1);
        assert(rest[i - 1] == s[i]);
        if ends_unit(s[0]) {
            if result is Some {
                let o = choose|o: Seq<Type>| #[trigger]
                    can_close(number, out, unit, Some(o)) && can_scan(
                        number,
                        rest,
                        Seq::empty(),
                        if is_paren(s[0]) {
                            o.push(Type::Parentheses(s[0]))
                        } else {
                            o
                        },
                        result,
                    );
                lemma_can_scan_foreign(
                    number,
                    rest,
                    i - 1,
                    Seq::empty(),
                    if is_paren(s[0]) {
                        o.push(Type::Parentheses(s[0]))
                    } else {
                        o
                    },
                    result,
                );
            }
        } else if token_char(s[0]) {
            lemma_can_scan_foreign(number, rest, i - 1, unit.push(s[0]), out, result);
        }
    }
}

/// No reader of numbers can make tokens of a text with such a character.
pub proof fn foreign_character_admits_no_tokens<N: Fn(&str) -> Option<u64>>(
    number: N,
    s: Seq<char>,
    i: int,
    result: Option<Seq<Type>>,
)
    requires
        0 <= i < s.len(),
        !ends_unit(s[i]),
        !token_char(s[i]),
        can_be_tokens_of(number, s, result),
    ensures
        result is None,
{
    lemma_can_scan_foreign(number, s, i, Seq::empty(), Seq::empty(), result);
}

} // verus!

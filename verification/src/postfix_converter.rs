//! From infix to postfix order.
//!
//! The conversion keeps a stack of pending operators and an output. A
//! parenthesised group is converted on its own, with a stack of its own, and
//! its postfix form is appended to the output as if it were one operand.

use vstd::prelude::*;
use crate::Type;

verus! {

/// How an arriving operator stands to the one on top of the stack.
#[derive(Clone, Copy, Debug, PartialEq, Eq, Structural)]
pub enum PriorityOperation {
    /// The one on the stack binds tighter.
    InStack,
    /// The arriving one binds tighter.
    OutStack,
    /// Both bind alike.
    EqualPriority,
}

pub open spec fn is_additive(c: char) -> bool {
    c == '+' || c == '-'
}

pub open spec fn is_multiplicative(c: char) -> bool {
    c == '*' || c == '/'
}

/// One of the four signs that have a meaning.
pub open spec fn is_operator(c: char) -> bool {
    is_additive(c) || is_multiplicative(c)
}

pub open spec fn priority_spec(new: char, in_stack: char) -> PriorityOperation {
    if is_additive(new) == is_additive(in_stack) {
        PriorityOperation::EqualPriority
    } else if is_additive(new) {
        PriorityOperation::InStack
    } else {
        PriorityOperation::OutStack
    }
}

/// Compares the arriving operator `new` with `in_stack`: `*` and `/` bind
/// tighter than `+` and `-`.
pub fn priority_operation(new: char, in_stack: char) -> (p: PriorityOperation)
    requires
        is_operator(new),
        is_operator(in_stack),
    ensures
        p == priority_spec(new, in_stack),
{
    match new {
        '+' | '-' => match in_stack {
            '*' | '/' => PriorityOperation::InStack,
            _ => PriorityOperation::EqualPriority,
        },
        _ => match in_stack {
            '*' | '/' => PriorityOperation::EqualPriority,
            _ => PriorityOperation::OutStack,
        },
    }
}

fn is_operator_sign(c: char) -> (b: bool)
    ensures
        b == is_operator(c),
{
    c == '+' || c == '-' || c == '*' || c == '/'
}

/// What the conversion holds between two tokens.
pub struct Pending {
    /// The postfix sequence so far.
    pub output: Seq<Type>,
    /// The operators that wait, the latest last.
    pub stack: Seq<char>,
    /// The token just read was an operator.
    pub prev_op: bool,
    /// What was just read is an operand: a number, or a group in
    /// parentheses.
    pub prev_num: bool,
}

pub open spec fn start() -> Pending {
    Pending { output: Seq::empty(), stack: Seq::empty(), prev_op: false, prev_num: false }
}

/// The stack as tokens, in the order in which it is popped.
pub open spec fn drained(stack: Seq<char>) -> Seq<Type>
    decreases stack.len(),
{
    if stack.len() == 0 {
        Seq::empty()
    } else {
        seq![Type::Operation(stack.last())] + drained(stack.drop_last())
    }
}

/// The output once the operators that still wait have been popped to it.
pub open spec fn finished(st: Pending) -> Seq<Type> {
    st.output + drained(st.stack)
}

/// How the depth of nesting changes over one token.
pub open spec fn depth_after(t: Type, depth: nat) -> nat {
    match t {
        Type::Parentheses(c) => if c == '(' {
            depth + 1
        } else if c == ')' {
            (depth - 1) as nat
        } else {
            depth
        },
        _ => depth,
    }
}

/// The number of tokens of `ts` up to and with the `)` that brings `depth`
/// open groups down to none; `None` where `ts` ends before that.
pub open spec fn close_offset(ts: Seq<Type>, depth: nat) -> Option<int>
    decreases ts.len(),
{
    if depth == 0 {
        Some(0)
    } else if ts.len() == 0 {
        None
    } else {
        match close_offset(ts.skip(1), depth_after(ts[0], depth)) {
            Some(k) => Some(k + 1),
            None => None,
        }
    }
}

/// The end of a group lies within the sequence.
pub proof fn lemma_close_offset_bound(ts: Seq<Type>, depth: nat)
    ensures
        close_offset(ts, depth) matches Some(k) ==> k <= ts.len() && (depth > 0 ==> k >= 1),
    decreases ts.len(),
{
    if depth != 0 && ts.len() != 0 {
        lemma_close_offset_bound(ts.skip(1), depth_after(ts[0], depth));
    }
}

/// Pops to the output every waiting operator that binds at least as tightly
/// as `op`; `None` where a sign without a meaning is met.
pub open spec fn unstack(stack: Seq<char>, output: Seq<Type>, op: char) -> Option<
    (Seq<char>, Seq<Type>),
>
    decreases stack.len(),
{
    if stack.len() == 0 {
        Some((stack, output))
    } else if !is_operator(op) || !is_operator(stack.last()) {
        None
    } else if priority_spec(op, stack.last()) == PriorityOperation::OutStack {
        Some((stack, output))
    } else {
        unstack(stack.drop_last(), output.push(Type::Operation(stack.last())), op)
    }
}

/// The state after the tokens `ts`, read from the state `st`; `None` where
/// the conversion gives up.
pub open spec fn run(ts: Seq<Type>, st: Pending) -> Option<Pending>
    decreases ts.len(),
{
    if ts.len() == 0 {
        Some(st)
    } else {
        match ts[0] {
            Type::Number(_) => if st.prev_num {
                None
            } else {
                run(
                    ts.skip(1),
                    Pending {
                        output: st.output.push(ts[0]),
                        stack: st.stack,
                        prev_op: false,
                        prev_num: true,
                    },
                )
            },
            Type::Operation(op) => if st.prev_op {
                None
            } else {
                match unstack(st.stack, st.output, op) {
                    None => None,
                    Some((stack, output)) => run(
                        ts.skip(1),
                        Pending { output, stack: stack.push(op), prev_op: true, prev_num: false },
                    ),
                }
            },
            Type::Parentheses(c) => if c == '(' && !st.prev_num {
                match close_offset(ts.skip(1), 1) {
                    None => None,
                    Some(k) => {
                        proof {
                            lemma_close_offset_bound(ts.skip(1), 1);
                        }
                        match run(ts.subrange(1, k), start()) {
                            None => None,
                            Some(inner) => run(
                                ts.skip(k + 1),
                                Pending {
                                    output: st.output + finished(inner),
                                    stack: st.stack,
                                    prev_op: false,
                                    prev_num: true,
                                },
                            ),
                        }
                    },
                }
            } else {
                None
            },
            Type::Illegal => None,
        }
    }
}

/// The postfix form of the infix sequence `ts`, where it has one.
pub open spec fn postfix_of(ts: Seq<Type>) -> Option<Seq<Type>> {
    match run(ts, start()) {
        None => None,
        Some(st) => Some(finished(st)),
    }
}

/// The operator pushed last is the first to leave.
pub proof fn lemma_drained_push(stack: Seq<char>, op: char)
    ensures
        drained(stack.push(op)) =~= seq![Type::Operation(op)] + drained(stack),
{
    assert(stack.push(op).drop_last() =~= stack);
}

/// A token in front of `b` is a token behind `a`.
pub proof fn lemma_push_front(a: Seq<Type>, x: Type, b: Seq<Type>)
    ensures
        a + (seq![x] + b) =~= a.push(x) + b,
{
}

/// Pops the operators that give way to `op` from `stack` to `output`.
/// Returns `false`, with nothing promised of the two, where a sign without
/// a meaning is met.
fn unstack_into(stack: &mut Vec<char>, output: &mut Vec<Type>, op: char) -> (ok: bool)
    ensures
        match unstack(old(stack)@, old(output)@, op) {
            Some((s, o)) => ok && final(stack)@ == s && final(output)@ == o,
            None => !ok,
        },
{
    while stack.len() > 0
        invariant
            unstack(stack@, output@, op) == unstack(old(stack)@, old(output)@, op),
        decreases stack.len(),
    {
        let top = stack[stack.len() - 1];
        if !is_operator_sign(op) || !is_operator_sign(top) {
            return false;
        }
        if let PriorityOperation::OutStack = priority_operation(op, top) {
            return true;
        }
        stack.pop();
        output.push(Type::Operation(top));
    }
    true
}

/// Finds the `)` that closes a group whose `(` stands just before `from`.
fn find_close(tokens: &Vec<Type>, from: usize, end: usize) -> (r: Option<usize>)
    requires
        1 <= from <= end <= tokens.len(),
    ensures
        match r {
            Some(close) => from <= close < end && close_offset(
                tokens@.subrange(from as int, end as int),
                1,
            ) == Some(close - from + 1),
            None => close_offset(tokens@.subrange(from as int, end as int), 1) is None,
        },
{
    let mut counter: usize = 1;
    let mut j: usize = from;
    while j < end
        invariant
            1 <= from <= j <= end <= tokens.len(),
            1 <= counter <= 1 + (j - from),
            close_offset(tokens@.subrange(from as int, end as int), 1) == match close_offset(
                tokens@.subrange(j as int, end as int),
                counter as nat,
            ) {
                Some(k) => Some(k + (j - from)),
                None => None,
            },
        decreases end - j,
    {
        proof {
            let rest = tokens@.subrange(j as int, end as int);
            assert(rest[0] == tokens[j as int]);
            assert(rest.skip(1) =~= tokens@.subrange(j + 1, end as int));
        }
        match tokens[j] {
            Type::Parentheses(c) => {
                if c == '(' {
                    counter = counter + 1;
                } else if c == ')' {
                    counter = counter - 1;
                }
            },
            _ => {},
        }
        j = j + 1;
        if counter == 0 {
            return Some(j - 1);
        }
    }
    None
}

/// Pops what is left on `stack` to `output`.
fn drain_into(stack: &mut Vec<char>, output: &mut Vec<Type>)
    ensures
        final(output)@ == old(output)@ + drained(old(stack)@),
        final(stack)@.len() == 0,
{
    while stack.len() > 0
        invariant
            output@ + drained(stack@) == old(output)@ + drained(old(stack)@),
        decreases stack.len(),
    {
        let ghost before = stack@;
        let ghost out = output@;
        let top = stack[stack.len() - 1];
        stack.pop();
        output.push(Type::Operation(top));
        proof {
            assert(before =~= stack@.push(top));
            lemma_drained_push(stack@, top);
            lemma_push_front(out, Type::Operation(top), drained(stack@));
        }
    }
    assert(output@ + drained(stack@) =~= output@);
}

/// Converts the tokens from `start` up to `end`.
fn convert_range(tokens: &Vec<Type>, start: usize, end: usize) -> (r: Option<Vec<Type>>)
    requires
        start <= end <= tokens.len(),
    ensures
        match r {
            Some(v) => postfix_of(tokens@.subrange(start as int, end as int)) == Some(v@),
            None => postfix_of(tokens@.subrange(start as int, end as int)) is None,
        },
    decreases end - start,
{
    let ghost whole = tokens@.subrange(start as int, end as int);
    let mut postfix_sequence: Vec<Type> = Vec::new();
    let mut operation_stack: Vec<char> = Vec::new();
    let mut prev_op = false;
    let mut prev_num = false;
    let mut index: usize = start;
    while index < end
        invariant
            start <= index <= end <= tokens.len(),
            whole == tokens@.subrange(start as int, end as int),
            run(
                tokens@.subrange(index as int, end as int),
                Pending {
                    output: postfix_sequence@,
                    stack: operation_stack@,
                    prev_op,
                    prev_num,
                },
            ) == run(whole, self::start()),
        decreases end - index,
    {
        proof {
            let rest = tokens@.subrange(index as int, end as int);
            assert(rest[0] == tokens[index as int]);
            assert(rest.skip(1) =~= tokens@.subrange(index + 1, end as int));
        }
        let token = tokens[index];
        match token {
            Type::Number(_) => {
                if prev_num {
                    return None;
                }
                postfix_sequence.push(token);
                prev_op = false;
                prev_num = true;
                index = index + 1;
            },
            Type::Operation(oper) => {
                if prev_op {
                    return None;
                }
                if !unstack_into(&mut operation_stack, &mut postfix_sequence, oper) {
                    return None;
                }
                operation_stack.push(oper);
                prev_op = true;
                prev_num = false;
                index = index + 1;
            },
            Type::Parentheses(c) => {
                if c != '(' || prev_num {
                    return None;
                }
                let close = match find_close(tokens, index + 1, end) {
                    Some(close) => close,
                    None => {
                        return None;
                    },
                };
                proof {
                    let rest = tokens@.subrange(index as int, end as int);
                    assert(rest.subrange(1, close - index) =~= tokens@.subrange(
                        index + 1,
                        close as int,
                    ));
                    assert(rest.skip(close - index + 1) =~= tokens@.subrange(
                        close + 1,
                        end as int,
                    ));
                }
                let mut group = match convert_range(tokens, index + 1, close) {
                    Some(group) => group,
                    None => {
                        return None;
                    },
                };
                postfix_sequence.append(&mut group);
                prev_op = false;
                prev_num = true;
                index = close + 1;
            },
            Type::Illegal => {
                return None;
            },
        }
    }
    let ghost last = Pending {
        output: postfix_sequence@,
        stack: operation_stack@,
        prev_op,
        prev_num,
    };
    assert(tokens@.subrange(end as int, end as int).len() == 0);
    assert(run(whole, self::start()) == Some(last));
    drain_into(&mut operation_stack, &mut postfix_sequence);
    Some(postfix_sequence)
}

/// Reorders an infix token sequence into postfix order.
///
/// Operators of one rank leave the stack in the order in which they came;
/// `*` and `/` go before `+` and `-`. A group in parentheses is converted by
/// itself and stands for one operand. The result is `None` where an operand,
/// number or group, follows an operand, where an operator follows an
/// operator, where a parenthesis has no partner, where a token is no number,
/// operator or parenthesis, and where an operator meets a sign that is none
/// of `+ - * /`.
///
/// A group inside a group is converted by a call inside a call, so the
/// depth of the calls is the depth of the nesting.
pub fn convert_to_postfix(parsed_prefix: Vec<Type>) -> (r: Option<Vec<Type>>)
    ensures
        match r {
            Some(v) => postfix_of(parsed_prefix@) == Some(v@),
            None => postfix_of(parsed_prefix@) is None,
        },
{
    assert(parsed_prefix@.subrange(0, parsed_prefix@.len() as int) =~= parsed_prefix@);
    convert_range(&parsed_prefix, 0, parsed_prefix.len())
}

} // verus!

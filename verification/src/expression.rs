//! Expressions as trees, and what the conversion and the reduction make of
//! them.
//!
//! A tree says how an expression is meant: which operands belong to which
//! operator. Its infix form is the token sequence that a reader would write
//! for it, its postfix form the one that the value stack expects. The
//! theorems of this module say that the conversion turns the first into the
//! second, and that the reduction of the second gives the value of the tree.

use vstd::prelude::*;
use crate::Type;
use crate::calculator::{reduce, stack_after, value_of};
use crate::conversion_laws::{closes, pairs_up};
use crate::postfix_converter::{
    close_offset,
    depth_after,
    drained,
    finished,
    is_additive,
    is_multiplicative,
    is_operator,
    lemma_drained_push,
    postfix_of,
    run,
    start,
    unstack,
    Pending,
};

verus! {

/// An expression.
pub enum Expr {
    /// A number.
    Num(u64),
    /// An expression in parentheses.
    Group(Box<Expr>),
    /// An operator between its left and its right operand.
    Bin(char, Box<Expr>, Box<Expr>),
}

/// A number or a group: what no operator can take apart.
pub open spec fn is_factor(e: Expr) -> bool {
    e is Num || e is Group
}

/// A factor, or a product or quotient.
pub open spec fn is_term(e: Expr) -> bool {
    match e {
        Expr::Bin(op, _, _) => is_multiplicative(op),
        _ => true,
    }
}

/// The tree is the one that precedence and grouping from the left give to
/// its infix form: the operands of `*` and `/` hold no bare `+` or `-`, and
/// the right operand of an operator holds no bare operator of its own rank.
pub open spec fn well_formed(e: Expr) -> bool
    decreases e,
{
    match e {
        Expr::Num(_) => true,
        Expr::Group(inner) => well_formed(*inner),
        Expr::Bin(op, left, right) => {
            &&& is_operator(op)
            &&& well_formed(*left)
            &&& well_formed(*right)
            &&& if is_multiplicative(op) {
                is_term(*left) && is_factor(*right)
            } else {
                is_term(*right)
            }
        },
    }
}

/// The expression as it is written.
pub open spec fn infix(e: Expr) -> Seq<Type>
    decreases e,
{
    match e {
        Expr::Num(n) => seq![Type::Number(n)],
        Expr::Group(inner) => seq![Type::Parentheses('(')] + (infix(*inner) + seq![
            Type::Parentheses(')'),
        ]),
        Expr::Bin(op, left, right) => infix(*left) + (seq![Type::Operation(op)] + infix(*right)),
    }
}

/// The expression with each operator behind its operands.
pub open spec fn postfix(e: Expr) -> Seq<Type>
    decreases e,
{
    match e {
        Expr::Num(n) => seq![Type::Number(n)],
        Expr::Group(inner) => postfix(*inner),
        Expr::Bin(op, left, right) => postfix(*left) + postfix(*right) + seq![Type::Operation(op)],
    }
}

/// The value of the expression under the arithmetic `f`.
pub open spec fn value(e: Expr, f: spec_fn(char, u64, u64) -> u64) -> u64
    decreases e,
{
    match e {
        Expr::Num(n) => n,
        Expr::Group(inner) => value(*inner, f),
        Expr::Bin(op, left, right) => f(op, value(*left, f), value(*right, f)),
    }
}

/// Every operator of the tree is one of the four signs.
pub open spec fn signs_known(e: Expr) -> bool
    decreases e,
{
    match e {
        Expr::Num(_) => true,
        Expr::Group(inner) => signs_known(*inner),
        Expr::Bin(op, left, right) => is_operator(op) && signs_known(*left) && signs_known(*right),
    }
}

pub proof fn lemma_well_formed_signs(e: Expr)
    requires
        well_formed(e),
    ensures
        signs_known(e),
    decreases e,
{
    match e {
        Expr::Num(_) => {},
        Expr::Group(inner) => {
            lemma_well_formed_signs(*inner);
        },
        Expr::Bin(_, left, right) => {
            lemma_well_formed_signs(*left);
            lemma_well_formed_signs(*right);
        },
    }
}

/// The reduction of a postfix form pushes the value of its tree.
pub proof fn lemma_reduce_postfix(
    e: Expr,
    rest: Seq<Type>,
    stack: Seq<u64>,
    f: spec_fn(char, u64, u64) -> u64,
)
    requires
        signs_known(e),
    ensures
        reduce(postfix(e) + rest, stack, f) == reduce(rest, stack.push(value(e, f)), f),
    decreases e,
{
    match e {
        Expr::Num(n) => {
            let ts = postfix(e) + rest;
            assert(ts[0] == Type::Number(n));
            assert(ts.skip(1) =~= rest);
        },
        Expr::Group(inner) => {
            lemma_reduce_postfix(*inner, rest, stack, f);
        },
        Expr::Bin(op, left, right) => {
            let tail = seq![Type::Operation(op)] + rest;
            let after_left = stack.push(value(*left, f));
            let after_right = after_left.push(value(*right, f));
            assert(postfix(e) + rest =~= postfix(*left) + (postfix(*right) + tail));
            lemma_reduce_postfix(*left, postfix(*right) + tail, stack, f);
            lemma_reduce_postfix(*right, tail, after_left, f);
            assert(tail[0] == Type::Operation(op));
            assert(tail.skip(1) =~= rest);
            assert(after_right.take(after_right.len() - 2) =~= stack);
            assert(stack_after(after_right, tail[0], f) == Some(stack.push(value(e, f))));
        },
    }
}

/// The postfix form of a tree reduces to the value of the tree.
pub proof fn value_of_postfix(e: Expr, f: spec_fn(char, u64, u64) -> u64)
    requires
        signs_known(e),
    ensures
        value_of(postfix(e), f) == Some(value(e, f)),
{
    lemma_reduce_postfix(e, Seq::empty(), Seq::empty(), f);
    assert(postfix(e) + Seq::<Type>::empty() =~= postfix(e));
    let last = Seq::<u64>::empty().push(value(e, f));
    assert(reduce(Seq::<Type>::empty(), last, f) == Some(last));
}

/// Nothing waits on the stack that binds as tightly as `*` and `/`.
pub open spec fn low_top(stack: Seq<char>) -> bool {
    stack.len() == 0 || is_additive(stack.last())
}

/// Only the four signs wait on the stack.
pub open spec fn signs_only(stack: Seq<char>) -> bool {
    forall|i: int| 0 <= i < stack.len() ==> is_operator(#[trigger] stack[i])
}

/// `*` and `/` pop nothing from a stack with `+` or `-` on top.
proof fn lemma_unstack_none(stack: Seq<char>, output: Seq<Type>, op: char)
    requires
        is_multiplicative(op),
        low_top(stack),
    ensures
        unstack(stack, output, op) == Some((stack, output)),
{
}

/// `*` and `/` pop one of their own rank and stop at `+` and `-`.
proof fn lemma_unstack_one(stack: Seq<char>, output: Seq<Type>, top: char, op: char)
    requires
        is_multiplicative(op),
        is_multiplicative(top),
        low_top(stack),
    ensures
        unstack(stack.push(top), output, op) == Some((stack, output.push(Type::Operation(top)))),
{
    assert(stack.push(top).drop_last() =~= stack);
    lemma_unstack_none(stack, output.push(Type::Operation(top)), op);
}

/// `+` and `-` pop all that waits.
proof fn lemma_unstack_all(stack: Seq<char>, output: Seq<Type>, op: char)
    requires
        is_additive(op),
        signs_only(stack),
    ensures
        unstack(stack, output, op) == Some((Seq::<char>::empty(), output + drained(stack))),
    decreases stack.len(),
{
    if stack.len() == 0 {
        assert(output + drained(stack) =~= output);
        assert(stack =~= Seq::<char>::empty());
    } else {
        let top = Type::Operation(stack.last());
        lemma_unstack_all(stack.drop_last(), output.push(top), op);
        assert(output.push(top) + drained(stack.drop_last()) =~= output + drained(stack));
    }
}

/// One token that is no closing parenthesis of the group itself.
proof fn lemma_close_offset_token(t: Type, rest: Seq<Type>, depth: nat)
    requires
        depth >= 1,
    ensures
        close_offset(seq![t] + rest, depth) == match close_offset(rest, depth_after(t, depth)) {
            Some(k) => Some(k + 1),
            None => None,
        },
{
    let ts = seq![t] + rest;
    assert(ts[0] == t);
    assert(ts.skip(1) =~= rest);
}

/// The search for the end of a group passes over an expression: its
/// parentheses pair up among themselves.
proof fn lemma_close_offset_infix(e: Expr, rest: Seq<Type>, depth: nat)
    requires
        depth >= 1,
    ensures
        close_offset(infix(e) + rest, depth) == match close_offset(rest, depth) {
            Some(k) => Some(k + infix(e).len()),
            None => None,
        },
    decreases e,
{
    match e {
        Expr::Num(n) => {
            lemma_close_offset_token(Type::Number(n), rest, depth);
        },
        Expr::Group(inner) => {
            let open = Type::Parentheses('(');
            let close = Type::Parentheses(')');
            let tail = seq![close] + rest;
            assert(infix(e) + rest =~= seq![open] + (infix(*inner) + tail));
            lemma_close_offset_token(open, infix(*inner) + tail, depth);
            lemma_close_offset_infix(*inner, tail, depth + 1);
            lemma_close_offset_token(close, rest, depth + 1);
            assert(depth_after(close, depth + 1) == depth);
        },
        Expr::Bin(op, left, right) => {
            let sign = Type::Operation(op);
            assert(infix(e) + rest =~= infix(*left) + (seq![sign] + (infix(*right) + rest)));
            lemma_close_offset_infix(*left, seq![sign] + (infix(*right) + rest), depth);
            lemma_close_offset_token(sign, infix(*right) + rest, depth);
            lemma_close_offset_infix(*right, rest, depth);
        },
    }
}

/// The stack on which the conversion can take up the expression: a sum at
/// the bottom of a conversion, a product where no product waits.
pub open spec fn fits(e: Expr, stack: Seq<char>) -> bool {
    if is_factor(e) {
        true
    } else if is_term(e) {
        low_top(stack)
    } else {
        stack.len() == 0
    }
}

/// What the conversion holds after an expression that it took up in the
/// state `st`: a factor is in the output; of a product the last sign waits
/// on top of what waited before; of a sum the signs that wait are all that
/// the output lacks.
pub open spec fn lands(e: Expr, st: Pending, end: Pending) -> bool {
    match e {
        Expr::Bin(op, _, _) => if is_multiplicative(op) {
            &&& end.stack == st.stack.push(op)
            &&& end.output.push(Type::Operation(op)) == st.output + postfix(e)
        } else {
            &&& signs_only(end.stack)
            &&& finished(end) == st.output + postfix(e)
        },
        _ => {
            &&& end.stack == st.stack
            &&& end.output == st.output + postfix(e)
        },
    }
}

/// The conversion reads the infix form of a well-formed tree without giving
/// up, and arrives where `lands` says.
proof fn lemma_run_infix(e: Expr, rest: Seq<Type>, st: Pending) -> (end: Pending)
    requires
        well_formed(e),
        !st.prev_num,
        fits(e, st.stack),
    ensures
        run(infix(e) + rest, st) == run(rest, end),
        !end.prev_op,
        lands(e, st, end),
    decreases e,
{
    match e {
        Expr::Num(n) => {
            let ts = infix(e) + rest;
            assert(ts[0] == Type::Number(n));
            assert(ts.skip(1) =~= rest);
            let end = Pending {
                output: st.output.push(Type::Number(n)),
                stack: st.stack,
                prev_op: false,
                prev_num: true,
            };
            assert(end.output =~= st.output + postfix(e));
            end
        },
        Expr::Group(inner) => {
            let open = Type::Parentheses('(');
            let close = Type::Parentheses(')');
            let ts = infix(e) + rest;
            let k: int = infix(*inner).len() as int + 1;
            assert(ts[0] == open);
            assert(ts.skip(1) =~= infix(*inner) + (seq![close] + rest));
            lemma_close_offset_infix(*inner, seq![close] + rest, 1);
            lemma_close_offset_token(close, rest, 1);
            assert(close_offset(ts.skip(1), 1) == Some(k));
            assert(ts.subrange(1, k) =~= infix(*inner));
            assert(ts.skip(k + 1) =~= rest);
            let within = lemma_run_infix(*inner, Seq::empty(), start());
            assert(infix(*inner) + Seq::<Type>::empty() =~= infix(*inner));
            assert(run(infix(*inner), start()) == Some(within));
            lemma_finished(*inner, start(), within);
            assert(Seq::<Type>::empty() + postfix(*inner) =~= postfix(*inner));
            Pending {
                output: st.output + postfix(*inner),
                stack: st.stack,
                prev_op: false,
                prev_num: true,
            }
        },
        Expr::Bin(op, left, right) => {
            let sign = Type::Operation(op);
            let tail = infix(*right) + rest;
            assert(infix(e) + rest =~= infix(*left) + (seq![sign] + tail));
            let mid = lemma_run_infix(*left, seq![sign] + tail, st);
            let ts = seq![sign] + tail;
            assert(ts[0] == sign);
            assert(ts.skip(1) =~= tail);
            let settled = st.output + postfix(*left);
            if is_multiplicative(op) {
                match *left {
                    Expr::Bin(before, _, _) => {
                        lemma_unstack_one(st.stack, mid.output, before, op);
                    },
                    _ => {
                        lemma_unstack_none(st.stack, mid.output, op);
                    },
                }
                let taken = Pending {
                    output: settled,
                    stack: st.stack.push(op),
                    prev_op: true,
                    prev_num: false,
                };
                assert(run(ts, mid) == run(tail, taken));
                let end = lemma_run_infix(*right, rest, taken);
                assert(end.output.push(sign) =~= st.output + postfix(e));
                end
            } else {
                lemma_finished(*left, st, mid);
                lemma_unstack_all(mid.stack, mid.output, op);
                let taken = Pending {
                    output: settled,
                    stack: Seq::<char>::empty().push(op),
                    prev_op: true,
                    prev_num: false,
                };
                assert(run(ts, mid) == run(tail, taken));
                let end = lemma_run_infix(*right, rest, taken);
                lemma_drained_push(Seq::<char>::empty(), op);
                assert(drained(Seq::<char>::empty()) =~= Seq::<Type>::empty());
                match *right {
                    Expr::Bin(last, _, _) => {
                        lemma_drained_push(taken.stack, last);
                        assert(finished(end) =~= end.output.push(Type::Operation(last)) + seq![
                            sign,
                        ]);
                    },
                    _ => {},
                }
                assert(finished(end) =~= st.output + postfix(e));
                end
            }
        },
    }
}

/// Wherever an expression was taken up, popping what waits above the old
/// stack completes its postfix form.
proof fn lemma_finished(e: Expr, st: Pending, end: Pending)
    requires
        well_formed(e),
        st.stack.len() == 0,
        lands(e, st, end),
    ensures
        signs_only(end.stack),
        finished(end) == st.output + postfix(e),
{
    match e {
        Expr::Bin(op, _, _) => {
            if is_multiplicative(op) {
                lemma_drained_push(st.stack, op);
                assert(drained(st.stack) =~= Seq::<Type>::empty());
                assert(finished(end) =~= end.output.push(Type::Operation(op)));
            }
        },
        _ => {
            assert(drained(st.stack) =~= Seq::<Type>::empty());
            assert(finished(end) =~= end.output);
        },
    }
}

/// The conversion of the infix form of a well-formed tree is its postfix
/// form.
pub proof fn postfix_of_infix(e: Expr)
    requires
        well_formed(e),
    ensures
        postfix_of(infix(e)) == Some(postfix(e)),
{
    let end = lemma_run_infix(e, Seq::empty(), start());
    assert(infix(e) + Seq::<Type>::empty() =~= infix(e));
    assert(run(Seq::<Type>::empty(), end) == Some(end));
    lemma_finished(e, start(), end);
    assert(Seq::<Type>::empty() + postfix(e) =~= postfix(e));
}

/// Converting the infix form of a tree and reducing the result gives the
/// value of the tree: operators of one rank are applied from the left, `*`
/// and `/` before `+` and `-`, and a group before what stands round it.
pub proof fn converted_infix_has_the_value(e: Expr, f: spec_fn(char, u64, u64) -> u64)
    requires
        well_formed(e),
    ensures
        postfix_of(infix(e)) matches Some(p) && value_of(p, f) == Some(value(e, f)),
{
    postfix_of_infix(e);
    lemma_well_formed_signs(e);
    value_of_postfix(e, f);
}

/// A postfix sequence and the conversion of its infix form reduce to the
/// same value.
pub proof fn round_trip_keeps_the_value(e: Expr, f: spec_fn(char, u64, u64) -> u64)
    requires
        well_formed(e),
    ensures
        postfix_of(infix(e)) matches Some(p) && value_of(p, f) == value_of(postfix(e), f),
{
    postfix_of_infix(e);
}

/// An expression closes its own groups and no others.
proof fn lemma_closes_infix(e: Expr, rest: Seq<Type>, depth: nat)
    ensures
        closes(infix(e) + rest, depth) == closes(rest, depth),
    decreases e,
{
    match e {
        Expr::Num(n) => {
            let ts = infix(e) + rest;
            assert(ts[0] == Type::Number(n));
            assert(ts.skip(1) =~= rest);
        },
        Expr::Group(inner) => {
            let ts = infix(e) + rest;
            let tail = seq![Type::Parentheses(')')] + rest;
            assert(ts[0] == Type::Parentheses('('));
            assert(ts.skip(1) =~= infix(*inner) + tail);
            lemma_closes_infix(*inner, tail, depth + 1);
            assert(tail[0] == Type::Parentheses(')'));
            assert(tail.skip(1) =~= rest);
        },
        Expr::Bin(op, left, right) => {
            let tail = seq![Type::Operation(op)] + (infix(*right) + rest);
            assert(infix(e) + rest =~= infix(*left) + tail);
            lemma_closes_infix(*left, tail, depth);
            assert(tail[0] == Type::Operation(op));
            assert(tail.skip(1) =~= infix(*right) + rest);
            lemma_closes_infix(*right, rest, depth);
        },
    }
}

/// The parentheses of an infix form pair up.
pub proof fn infix_pairs_up(e: Expr)
    ensures
        pairs_up(infix(e)),
{
    lemma_closes_infix(e, Seq::empty(), 0);
    assert(infix(e) + Seq::<Type>::empty() =~= infix(e));
}

} // verus!

//! What holds of every conversion.
//!
//! The conversion gives up on a sequence that repeats a kind of token or
//! leaves a parenthesis without its partner. Where it goes through, the
//! postfix form holds the numbers and operators of the infix sequence and
//! nothing else, the numbers in their order.

use vstd::prelude::*;
use vstd::seq_lib::lemma_multiset_commutative;
use crate::Type;
use crate::postfix_converter::{
    close_offset,
    depth_after,
    drained,
    finished,
    is_operator,
    lemma_drained_push,
    lemma_push_front,
    postfix_of,
    priority_spec,
    run,
    start,
    unstack,
    Pending,
    PriorityOperation,
};

verus! {

/// An operand can end with this token: a number, or the `)` of a group.
pub open spec fn ends_operand(t: Type) -> bool {
    t is Number || t == Type::Parentheses(')')
}

/// An operand can begin with this token: a number, or the `(` of a group.
pub open spec fn begins_operand(t: Type) -> bool {
    t is Number || t == Type::Parentheses('(')
}

/// The tokens at `i` and behind it are of one kind: the end of an operand
/// and the beginning of the next, or two operators.
pub open spec fn repeats_at(ts: Seq<Type>, i: int) -> bool {
    &&& 0 <= i
    &&& i + 1 < ts.len()
    &&& (ends_operand(ts[i]) && begins_operand(ts[i + 1])) || (ts[i] is Operation && ts[i
        + 1] is Operation)
}

/// The search for the end of a group stops at a `)`.
proof fn lemma_close_offset_paren(ts: Seq<Type>, depth: nat)
    requires
        depth >= 1,
    ensures
        close_offset(ts, depth) matches Some(k) ==> 1 <= k <= ts.len() && ts[k - 1]
            == Type::Parentheses(')'),
    decreases ts.len(),
{
    if ts.len() > 0 {
        if depth_after(ts[0], depth) >= 1 {
            lemma_close_offset_paren(ts.skip(1), depth_after(ts[0], depth));
        }
    }
}

/// The conversion gives up on a sequence that repeats a kind of token,
/// whatever state it is in.
proof fn lemma_run_repeat(ts: Seq<Type>, i: int, st: Pending)
    requires
        repeats_at(ts, i),
    ensures
        run(ts, st) is None,
    decreases ts.len(),
{
    let tail = ts.skip(1);
    if i == 0 {
        match ts[0] {
            Type::Number(_) => {
                if !st.prev_num {
                    let next = Pending {
                        output: st.output.push(ts[0]),
                        stack: st.stack,
                        prev_op: false,
                        prev_num: true,
                    };
                    assert(tail[0] == ts[1]);
                    assert(run(tail, next) is None);
                }
            },
            Type::Operation(op) => {
                if !st.prev_op {
                    match unstack(st.stack, st.output, op) {
                        None => {},
                        Some((stack, output)) => {
                            let next = Pending {
                                output,
                                stack: stack.push(op),
                                prev_op: true,
                                prev_num: false,
                            };
                            assert(tail[0] == ts[1]);
                            assert(run(tail, next) is None);
                        },
                    }
                }
            },
            _ => {},
        }
    } else {
        assert(tail[i - 1] == ts[i] && tail[i] == ts[i + 1]);
        match ts[0] {
            Type::Number(_) => {
                if !st.prev_num {
                    lemma_run_repeat(
                        tail,
                        i - 1,
                        Pending {
                            output: st.output.push(ts[0]),
                            stack: st.stack,
                            prev_op: false,
                            prev_num: true,
                        },
                    );
                }
            },
            Type::Operation(op) => {
                if !st.prev_op {
                    match unstack(st.stack, st.output, op) {
                        None => {},
                        Some((stack, output)) => {
                            lemma_run_repeat(
                                tail,
                                i - 1,
                                Pending {
                                    output,
                                    stack: stack.push(op),
                                    prev_op: true,
                                    prev_num: false,
                                },
                            );
                        },
                    }
                }
            },
            Type::Parentheses(c) => {
                if c == '(' {
                    match close_offset(tail, 1) {
                        None => {},
                        Some(k) => {
                            lemma_close_offset_paren(tail, 1);
                            assert(ts[k] == tail[k - 1]);
                            let group = ts.subrange(1, k);
                            let after = ts.skip(k + 1);
                            if i + 1 < k {
                                assert(group[i - 1] == ts[i] && group[i] == ts[i + 1]);
                                lemma_run_repeat(group, i - 1, start());
                            } else if i == k {
                                assert(after[0] == ts[i + 1]);
                                match run(group, start()) {
                                    None => {},
                                    Some(inner) => {
                                        let next = Pending {
                                            output: st.output + finished(inner),
                                            stack: st.stack,
                                            prev_op: false,
                                            prev_num: true,
                                        };
                                        assert(run(after, next) is None);
                                    },
                                }
                            } else {
                                assert(after[i - k - 1] == ts[i] && after[i - k] == ts[i + 1]);
                                match run(group, start()) {
                                    None => {},
                                    Some(inner) => {
                                        lemma_run_repeat(
                                            after,
                                            i - k - 1,
                                            Pending {
                                                output: st.output + finished(inner),
                                                stack: st.stack,
                                                prev_op: false,
                                                prev_num: true,
                                            },
                                        );
                                    },
                                }
                            }
                        },
                    }
                }
            },
            Type::Illegal => {},
        }
    }
}

/// Two operands with nothing between them, be they numbers or groups, and
/// two operators with nothing between them, have no postfix form, wherever
/// in the sequence they stand.
pub proof fn repeated_kind_has_no_postfix(ts: Seq<Type>, i: int)
    requires
        repeats_at(ts, i),
    ensures
        postfix_of(ts) is None,
{
    lemma_run_repeat(ts, i, start());
}

/// The numbers and operators of `ts`, in their order.
pub open spec fn operands_and_operators(ts: Seq<Type>) -> Seq<Type> {
    ts.filter(|t: Type| !(t is Parentheses))
}

/// What is popped was waiting: the output with the stack behind it stays
/// what it was.
proof fn lemma_unstack_finished(stack: Seq<char>, output: Seq<Type>, op: char)
    ensures
        unstack(stack, output, op) matches Some((s, o)) ==> o + drained(s) == output + drained(
            stack,
        ),
    decreases stack.len(),
{
    if stack.len() > 0 && is_operator(op) && is_operator(stack.last()) && priority_spec(
        op,
        stack.last(),
    ) != PriorityOperation::OutStack {
        let top = Type::Operation(stack.last());
        lemma_unstack_finished(stack.drop_last(), output.push(top), op);
        lemma_push_front(output, top, drained(stack.drop_last()));
    }
}

/// A sequence falls into its first token and the rest.
proof fn lemma_kept_first(ts: Seq<Type>)
    requires
        ts.len() > 0,
    ensures
        operands_and_operators(ts) == if ts[0] is Parentheses {
            operands_and_operators(ts.skip(1))
        } else {
            seq![ts[0]] + operands_and_operators(ts.skip(1))
        },
{
    assert(ts =~= seq![ts[0]] + ts.skip(1));
    ts.skip(1).lemma_filter_prepend(ts[0], |t: Type| !(t is Parentheses));
}

/// Whatever the conversion reads it keeps, but for the parentheses: each
/// number and operator goes to the output or waits on the stack.
proof fn lemma_run_keeps(ts: Seq<Type>, st: Pending)
    ensures
        run(ts, st) matches Some(end) ==> finished(end).to_multiset() == finished(
            st,
        ).to_multiset().add(operands_and_operators(ts).to_multiset()),
    decreases ts.len(),
{
    broadcast use vstd::multiset::group_multiset_axioms;

    let kept = operands_and_operators(ts);
    let was = finished(st).to_multiset();
    if ts.len() == 0 {
        assert(kept =~= Seq::<Type>::empty());
        lemma_multiset_commutative(finished(st), kept);
        assert(finished(st) + kept =~= finished(st));
    } else if run(ts, st) is Some {
        let end = run(ts, st).unwrap();
        let tail = ts.skip(1);
        lemma_kept_first(ts);
        match ts[0] {
            Type::Number(_) => {
                let next = Pending {
                    output: st.output.push(ts[0]),
                    stack: st.stack,
                    prev_op: false,
                    prev_num: true,
                };
                lemma_run_keeps(tail, next);
                assert(finished(next) =~= st.output + (seq![ts[0]] + drained(st.stack)));
                lemma_multiset_commutative(st.output, seq![ts[0]] + drained(st.stack));
                lemma_multiset_commutative(seq![ts[0]], drained(st.stack));
                lemma_multiset_commutative(st.output, drained(st.stack));
                lemma_multiset_commutative(seq![ts[0]], operands_and_operators(tail));
                assert(finished(end).to_multiset() =~= was.add(kept.to_multiset()));
            },
            Type::Operation(op) => {
                let (stack, output) = unstack(st.stack, st.output, op).unwrap();
                let next = Pending { output, stack: stack.push(op), prev_op: true, prev_num: false };
                lemma_run_keeps(tail, next);
                lemma_unstack_finished(st.stack, st.output, op);
                lemma_drained_push(stack, op);
                assert(finished(next) =~= output + (seq![ts[0]] + drained(stack)));
                lemma_multiset_commutative(output, seq![ts[0]] + drained(stack));
                lemma_multiset_commutative(seq![ts[0]], drained(stack));
                lemma_multiset_commutative(output, drained(stack));
                lemma_multiset_commutative(seq![ts[0]], operands_and_operators(tail));
                assert(finished(end).to_multiset() =~= was.add(kept.to_multiset()));
            },
            Type::Parentheses(_) => {
                let k = close_offset(tail, 1).unwrap();
                lemma_close_offset_paren(tail, 1);
                let group = ts.subrange(1, k);
                let after = ts.skip(k + 1);
                let inner = run(group, start()).unwrap();
                let next = Pending {
                    output: st.output + finished(inner),
                    stack: st.stack,
                    prev_op: false,
                    prev_num: true,
                };
                lemma_run_keeps(group, start());
                lemma_run_keeps(after, next);
                assert(tail =~= group + (seq![ts[k]] + after));
                assert(ts[k] == tail[k - 1]);
                Seq::filter_distributes_over_add(
                    group,
                    seq![ts[k]] + after,
                    |t: Type| !(t is Parentheses),
                );
                after.lemma_filter_prepend(ts[k], |t: Type| !(t is Parentheses));
                assert(kept =~= operands_and_operators(group) + operands_and_operators(after));
                assert(finished(start()) =~= Seq::<Type>::empty());
                lemma_multiset_commutative(Seq::<Type>::empty(), operands_and_operators(group));
                assert(Seq::<Type>::empty() + operands_and_operators(group)
                    =~= operands_and_operators(group));
                assert(finished(inner).to_multiset() =~= operands_and_operators(
                    group,
                ).to_multiset());
                assert(finished(next) =~= st.output + (finished(inner) + drained(st.stack)));
                lemma_multiset_commutative(st.output, finished(inner) + drained(st.stack));
                lemma_multiset_commutative(finished(inner), drained(st.stack));
                lemma_multiset_commutative(st.output, drained(st.stack));
                lemma_multiset_commutative(
                    operands_and_operators(group),
                    operands_and_operators(after),
                );
                assert(finished(end).to_multiset() =~= was.add(kept.to_multiset()));
            },
            Type::Illegal => {},
        }
    }
}

/// The postfix form holds each number and each operator of the infix
/// sequence once, and nothing else.
pub proof fn postfix_keeps_operands_and_operators(ts: Seq<Type>)
    ensures
        postfix_of(ts) matches Some(p) ==> p.to_multiset() == operands_and_operators(
            ts,
        ).to_multiset(),
{
    lemma_run_keeps(ts, start());
    assert(finished(start()) =~= Seq::<Type>::empty());
    lemma_multiset_commutative(Seq::<Type>::empty(), operands_and_operators(ts));
    assert(Seq::<Type>::empty() + operands_and_operators(ts) =~= operands_and_operators(ts));
}

/// The numbers of `ts`, in their order.
pub open spec fn operands(ts: Seq<Type>) -> Seq<Type> {
    ts.filter(|t: Type| t is Number)
}

/// No number waits on the stack.
proof fn lemma_drained_operands(stack: Seq<char>)
    ensures
        operands(drained(stack)) == Seq::<Type>::empty(),
    decreases stack.len(),
{
    let number = |t: Type| t is Number;
    if stack.len() > 0 {
        let below = stack.drop_last();
        assert(stack =~= below.push(stack.last()));
        lemma_drained_push(below, stack.last());
        lemma_drained_operands(below);
        drained(below).lemma_filter_prepend(Type::Operation(stack.last()), number);
    } else {
        drained(stack).lemma_filter_len(number);
    }
    assert(operands(drained(stack)) =~= Seq::<Type>::empty());
}

/// Popping operators adds no number to the output.
proof fn lemma_unstack_operands(stack: Seq<char>, output: Seq<Type>, op: char)
    ensures
        unstack(stack, output, op) matches Some((_, o)) ==> operands(o) == operands(output),
    decreases stack.len(),
{
    if stack.len() > 0 && is_operator(op) && is_operator(stack.last()) && priority_spec(
        op,
        stack.last(),
    ) != PriorityOperation::OutStack {
        let top = Type::Operation(stack.last());
        lemma_unstack_operands(stack.drop_last(), output.push(top), op);
        output.lemma_filter_push(top, |t: Type| t is Number);
    }
}

/// The numbers reach the output as they are read.
proof fn lemma_run_operands(ts: Seq<Type>, st: Pending)
    ensures
        run(ts, st) matches Some(end) ==> operands(end.output) == operands(st.output) + operands(
            ts,
        ),
    decreases ts.len(),
{
    let number = |t: Type| t is Number;
    if ts.len() == 0 {
        assert(operands(ts) =~= Seq::<Type>::empty());
        assert(operands(st.output) + operands(ts) =~= operands(st.output));
    } else if run(ts, st) is Some {
        let end = run(ts, st).unwrap();
        let tail = ts.skip(1);
        assert(ts =~= seq![ts[0]] + tail);
        tail.lemma_filter_prepend(ts[0], number);
        match ts[0] {
            Type::Number(_) => {
                let next = Pending {
                    output: st.output.push(ts[0]),
                    stack: st.stack,
                    prev_op: false,
                    prev_num: true,
                };
                lemma_run_operands(tail, next);
                st.output.lemma_filter_push(ts[0], number);
                assert(operands(end.output) =~= operands(st.output) + operands(ts));
            },
            Type::Operation(op) => {
                let (stack, output) = unstack(st.stack, st.output, op).unwrap();
                let next = Pending { output, stack: stack.push(op), prev_op: true, prev_num: false };
                lemma_run_operands(tail, next);
                lemma_unstack_operands(st.stack, st.output, op);
                assert(operands(end.output) =~= operands(st.output) + operands(ts));
            },
            Type::Parentheses(_) => {
                let k = close_offset(tail, 1).unwrap();
                lemma_close_offset_paren(tail, 1);
                let group = ts.subrange(1, k);
                let after = ts.skip(k + 1);
                let inner = run(group, start()).unwrap();
                let next = Pending {
                    output: st.output + finished(inner),
                    stack: st.stack,
                    prev_op: false,
                    prev_num: true,
                };
                lemma_run_operands(group, start());
                lemma_run_operands(after, next);
                assert(tail =~= group + (seq![ts[k]] + after));
                assert(ts[k] == tail[k - 1]);
                Seq::filter_distributes_over_add(group, seq![ts[k]] + after, number);
                after.lemma_filter_prepend(ts[k], number);
                assert(operands(ts) =~= operands(group) + operands(after));
                lemma_drained_operands(inner.stack);
                Seq::filter_distributes_over_add(inner.output, drained(inner.stack), number);
                Seq::filter_distributes_over_add(st.output, finished(inner), number);
                assert(operands(start().output) =~= Seq::<Type>::empty());
                assert(operands(finished(inner)) =~= operands(group));
                assert(operands(end.output) =~= operands(st.output) + operands(ts));
            },
            Type::Illegal => {},
        }
    }
}

/// The numbers stand in the postfix form in the order in which they stand
/// in the infix sequence.
pub proof fn postfix_keeps_the_order_of_operands(ts: Seq<Type>)
    ensures
        postfix_of(ts) matches Some(p) ==> operands(p) == operands(ts),
{
    if postfix_of(ts) is Some {
        let end = run(ts, start()).unwrap();
        lemma_run_operands(ts, start());
        lemma_drained_operands(end.stack);
        Seq::filter_distributes_over_add(end.output, drained(end.stack), |t: Type| t is Number);
        assert(operands(start().output) =~= Seq::<Type>::empty());
        assert(operands(finished(end)) =~= operands(ts));
    }
}

/// The parentheses of `ts` close the `depth` groups that are open before
/// it, and their own: each `)` finds a group to close, and no group stays
/// open.
pub open spec fn closes(ts: Seq<Type>, depth: nat) -> bool
    decreases ts.len(),
{
    if ts.len() == 0 {
        depth == 0
    } else {
        match ts[0] {
            Type::Parentheses(c) => if c == '(' {
                closes(ts.skip(1), depth + 1)
            } else if c == ')' {
                depth > 0 && closes(ts.skip(1), (depth - 1) as nat)
            } else {
                closes(ts.skip(1), depth)
            },
            _ => closes(ts.skip(1), depth),
        }
    }
}

/// The parentheses of `ts` pair up.
pub open spec fn pairs_up(ts: Seq<Type>) -> bool {
    closes(ts, 0)
}

/// A sequence whose parentheses pair up does not change what the tokens
/// behind it have to close.
proof fn lemma_closes_through(group: Seq<Type>, rest: Seq<Type>, open: nat, depth: nat)
    requires
        closes(group, open),
    ensures
        closes(group + rest, open + depth) == closes(rest, depth),
    decreases group.len(),
{
    let ts = group + rest;
    if group.len() == 0 {
        assert(ts =~= rest);
    } else {
        assert(ts[0] == group[0]);
        assert(ts.skip(1) =~= group.skip(1) + rest);
        match group[0] {
            Type::Parentheses(c) => {
                if c == '(' {
                    lemma_closes_through(group.skip(1), rest, open + 1, depth);
                } else if c == ')' {
                    lemma_closes_through(group.skip(1), rest, (open - 1) as nat, depth);
                } else {
                    lemma_closes_through(group.skip(1), rest, open, depth);
                }
            },
            _ => {
                lemma_closes_through(group.skip(1), rest, open, depth);
            },
        }
    }
}

/// The conversion goes through only where the parentheses pair up.
proof fn lemma_run_pairs_up(ts: Seq<Type>, st: Pending)
    requires
        run(ts, st) is Some,
    ensures
        pairs_up(ts),
    decreases ts.len(),
{
    if ts.len() > 0 {
        let tail = ts.skip(1);
        match ts[0] {
            Type::Number(_) => {
                lemma_run_pairs_up(
                    tail,
                    Pending {
                        output: st.output.push(ts[0]),
                        stack: st.stack,
                        prev_op: false,
                        prev_num: true,
                    },
                );
            },
            Type::Operation(op) => {
                let (stack, output) = unstack(st.stack, st.output, op).unwrap();
                lemma_run_pairs_up(
                    tail,
                    Pending { output, stack: stack.push(op), prev_op: true, prev_num: false },
                );
            },
            Type::Parentheses(_) => {
                let k = close_offset(tail, 1).unwrap();
                lemma_close_offset_paren(tail, 1);
                let group = ts.subrange(1, k);
                let after = ts.skip(k + 1);
                let inner = run(group, start()).unwrap();
                lemma_run_pairs_up(group, start());
                lemma_run_pairs_up(
                    after,
                    Pending {
                        output: st.output + finished(inner),
                        stack: st.stack,
                        prev_op: false,
                        prev_num: true,
                    },
                );
                let closing = seq![ts[k]] + after;
                assert(tail =~= group + closing);
                assert(ts[k] == tail[k - 1]);
                assert(closing[0] == ts[k]);
                assert(closing.skip(1) =~= after);
                lemma_closes_through(group, closing, 0, 1);
            },
            Type::Illegal => {},
        }
    }
}

/// A sequence with a parenthesis that has no partner has no postfix form.
pub proof fn lone_parenthesis_has_no_postfix(ts: Seq<Type>)
    requires
        !pairs_up(ts),
    ensures
        postfix_of(ts) is None,
{
    if postfix_of(ts) is Some {
        lemma_run_pairs_up(ts, start());
    }
}

} // verus!

//! The value of a postfix sequence, on a stack of numbers.

use vstd::prelude::*;
use crate::Type;
use crate::postfix_converter::is_operator;

verus! {

/// `apply` returns what `f` says, whenever it returns.
pub open spec fn computes<F: Fn(char, u64, u64) -> u64>(
    apply: F,
    f: spec_fn(char, u64, u64) -> u64,
) -> bool {
    forall|op: char, left: u64, right: u64, v: u64|
        call_ensures(apply, (op, left, right), v) ==> v == f(op, left, right)
}

/// The stack after one token. An operator takes the two numbers pushed
/// last, the earlier one as its left operand, and leaves its result.
pub open spec fn stack_after(stack: Seq<u64>, t: Type, f: spec_fn(char, u64, u64) -> u64) -> Option<
    Seq<u64>,
> {
    match t {
        Type::Number(n) => Some(stack.push(n)),
        Type::Operation(op) => if is_operator(op) && stack.len() >= 2 {
            Some(
                stack.take(stack.len() - 2).push(
                    f(op, stack[stack.len() - 2], stack[stack.len() - 1]),
                ),
            )
        } else {
            None
        },
        _ => None,
    }
}

/// The stack after the tokens `ts`, begun with `stack`.
pub open spec fn reduce(ts: Seq<Type>, stack: Seq<u64>, f: spec_fn(char, u64, u64) -> u64) -> Option<
    Seq<u64>,
>
    decreases ts.len(),
{
    if ts.len() == 0 {
        Some(stack)
    } else {
        match stack_after(stack, ts[0], f) {
            None => None,
            Some(next) => reduce(ts.skip(1), next, f),
        }
    }
}

/// The value of the postfix sequence `ts`: the one number left at the end.
pub open spec fn value_of(ts: Seq<Type>, f: spec_fn(char, u64, u64) -> u64) -> Option<u64> {
    match reduce(ts, Seq::empty(), f) {
        Some(stack) => if stack.len() == 1 {
            Some(stack[0])
        } else {
            None
        },
        None => None,
    }
}

/// The height of the stack after the tokens `ts`, begun at `height`; `None`
/// where an operator finds fewer than two numbers, or a token is neither a
/// number nor one of the four operators.
pub open spec fn height_after(ts: Seq<Type>, height: nat) -> Option<nat>
    decreases ts.len(),
{
    if ts.len() == 0 {
        Some(height)
    } else {
        match ts[0] {
            Type::Number(_) => height_after(ts.skip(1), height + 1),
            Type::Operation(op) => if is_operator(op) && height >= 2 {
                height_after(ts.skip(1), (height - 1) as nat)
            } else {
                None
            },
            _ => None,
        }
    }
}

/// `ts` is in postfix order: it leaves one number and never lacks one.
pub open spec fn is_postfix(ts: Seq<Type>) -> bool {
    height_after(ts, 0) == Some(1nat)
}

/// Whether a sequence reduces, and to how many numbers, is the same for
/// every arithmetic.
pub proof fn lemma_reduce_height(ts: Seq<Type>, stack: Seq<u64>, f: spec_fn(char, u64, u64) -> u64)
    ensures
        match reduce(ts, stack, f) {
            Some(last) => height_after(ts, stack.len()) == Some(last.len()),
            None => height_after(ts, stack.len()) is None,
        },
    decreases ts.len(),
{
    if ts.len() > 0 {
        match stack_after(stack, ts[0], f) {
            None => {},
            Some(next) => {
                lemma_reduce_height(ts.skip(1), next, f);
            },
        }
    }
}

/// `last` is a stack that the tokens `ts` can leave, begun with `stack`: in
/// place of each operator and its two operands stands a value that `apply`
/// can return for them.
pub open spec fn reduces_to<F: Fn(char, u64, u64) -> u64>(
    apply: F,
    ts: Seq<Type>,
    stack: Seq<u64>,
    last: Seq<u64>,
) -> bool
    decreases ts.len(),
{
    if ts.len() == 0 {
        last == stack
    } else {
        match ts[0] {
            Type::Number(n) => reduces_to(apply, ts.skip(1), stack.push(n), last),
            Type::Operation(op) => {
                &&& is_operator(op)
                &&& stack.len() >= 2
                &&& exists|v: u64|
                    #[trigger] call_ensures(
                        apply,
                        (op, stack[stack.len() - 2], stack[stack.len() - 1]),
                        v,
                    ) && reduces_to(apply, ts.skip(1), stack.take(stack.len() - 2).push(v), last)
            },
            _ => false,
        }
    }
}

/// Reduces a postfix sequence to its value.
///
/// A number is pushed. An operator takes the two numbers pushed last and
/// hands them to `apply` with its sign, the earlier one first; what `apply`
/// returns is pushed. The result is `None` unless the sequence is in postfix
/// order, that is unless exactly one number is left at the end and no
/// operator lacked one on the way.
///
/// Whatever `apply` returns, the value is one that `reduces_to` admits.
/// Where `apply` is a function `f` of sign and operands, the result is
/// `value_of` the sequence under `f`.
pub fn calculate<F: Fn(char, u64, u64) -> u64>(type_expression: Vec<Type>, apply: F) -> (r: Option<
    u64,
>)
    requires
        forall|op: char, left: u64, right: u64|
            is_operator(op) ==> call_requires(apply, (op, left, right)),
    ensures
        r is Some <==> is_postfix(type_expression@),
        r matches Some(v) ==> reduces_to(apply, type_expression@, Seq::empty(), seq![v]),
        forall|f: spec_fn(char, u64, u64) -> u64|
            computes(apply, f) ==> r == #[trigger] value_of(type_expression@, f),
{
    let n = type_expression.len();
    let mut numbers_stack: Vec<u64> = Vec::new();
    let mut i: usize = 0;
    assert(type_expression@.subrange(0, n as int) =~= type_expression@);
    assert(numbers_stack@ =~= Seq::empty());
    while i < n
        invariant
            i <= n == type_expression.len(),
            forall|op: char, left: u64, right: u64|
                is_operator(op) ==> call_requires(apply, (op, left, right)),
            height_after(type_expression@.subrange(i as int, n as int), numbers_stack@.len())
                == height_after(type_expression@, 0),
            forall|last: Seq<u64>| #[trigger]
                reduces_to(
                    apply,
                    type_expression@.subrange(i as int, n as int),
                    numbers_stack@,
                    last,
                ) ==> reduces_to(apply, type_expression@, Seq::empty(), last),
            forall|f: spec_fn(char, u64, u64) -> u64|
                computes(apply, f) ==> reduce(
                    type_expression@.subrange(i as int, n as int),
                    numbers_stack@,
                    f,
                ) == #[trigger] reduce(type_expression@, Seq::empty(), f),
        decreases n - i,
    {
        let ghost rest = type_expression@.subrange(i as int, n as int);
        let ghost before = numbers_stack@;
        proof {
            assert(rest[0] == type_expression[i as int]);
            assert(rest.skip(1) =~= type_expression@.subrange(i + 1, n as int));
        }
        match type_expression[i] {
            Type::Number(num) => {
                numbers_stack.push(num);
                proof {
                    assert forall|last: Seq<u64>| #[trigger]
                        reduces_to(
                            apply,
                            type_expression@.subrange(i + 1, n as int),
                            numbers_stack@,
                            last,
                        ) implies reduces_to(apply, type_expression@, Seq::empty(), last) by {
                        assert(reduces_to(apply, rest, before, last));
                    }
                }
            },
            Type::Operation(op) => {
                if !(op == '+' || op == '-' || op == '*' || op == '/') || numbers_stack.len() < 2 {
                    proof {
                        assert forall|f: spec_fn(char, u64, u64) -> u64|
                            computes(apply, f) implies None::<u64> == #[trigger] value_of(
                            type_expression@,
                            f,
                        ) by {
                            assert(reduce(rest, before, f) is None);
                        }
                    }
                    return None;
                }
                let right = numbers_stack[numbers_stack.len() - 1];
                let left = numbers_stack[numbers_stack.len() - 2];
                numbers_stack.pop();
                numbers_stack.pop();
                let v = apply(op, left, right);
                numbers_stack.push(v);
                proof {
                    assert(numbers_stack@ =~= before.take(before.len() - 2).push(v));
                    assert forall|last: Seq<u64>| #[trigger]
                        reduces_to(
                            apply,
                            type_expression@.subrange(i + 1, n as int),
                            numbers_stack@,
                            last,
                        ) implies reduces_to(apply, type_expression@, Seq::empty(), last) by {
                        assert(call_ensures(apply, (op, left, right), v));
                        assert(reduces_to(apply, rest, before, last));
                    }
                    assert forall|f: spec_fn(char, u64, u64) -> u64|
                        computes(apply, f) implies reduce(
                        type_expression@.subrange(i + 1, n as int),
                        numbers_stack@,
                        f,
                    ) == #[trigger] reduce(type_expression@, Seq::empty(), f) by {
                        assert(v == f(op, left, right));
                        assert(stack_after(before, rest[0], f) == Some(numbers_stack@));
                        assert(reduce(rest, before, f) == reduce(rest.skip(1), numbers_stack@, f));
                    }
                }
            },
            _ => {
                proof {
                    assert forall|f: spec_fn(char, u64, u64) -> u64|
                        computes(apply, f) implies None::<u64> == #[trigger] value_of(
                        type_expression@,
                        f,
                    ) by {
                        assert(reduce(rest, before, f) is None);
                    }
                }
                return None;
            },
        }
        i = i + 1;
    }
    proof {
        assert(type_expression@.subrange(n as int, n as int).len() == 0);
        assert forall|f: spec_fn(char, u64, u64) -> u64| computes(apply, f) implies reduce(
            type_expression@,
            Seq::empty(),
            f,
        ) == Some(numbers_stack@) by {
            assert(reduce(type_expression@.subrange(n as int, n as int), numbers_stack@, f)
                == Some(numbers_stack@));
        }
    }
    if numbers_stack.len() == 1 {
        proof {
            assert(numbers_stack@ =~= seq![numbers_stack[0]]);
            assert(reduces_to(
                apply,
                type_expression@.subrange(n as int, n as int),
                numbers_stack@,
                numbers_stack@,
            ));
        }
        Some(numbers_stack[0])
    } else {
        None
    }
}

} // verus!

use rust_calc::calculator::calculate;
use rust_calc::paren_checker::check_pairs;
use rust_calc::postfix_converter::{convert_to_postfix, priority_operation, PriorityOperation};
use rust_calc::tokenizer::parse_expression;
use rust_calc::{calculate_expression, ErrorKind, Type};

fn number(text: &str) -> Option<u64> {
    text.parse::<f64>().ok().map(f64::to_bits)
}

fn apply(op: char, left: u64, right: u64) -> u64 {
    let earlier = f64::from_bits(left);
    let later = f64::from_bits(right);
    let result = match op {
        '+' => later + earlier,
        '*' => later * earlier,
        '-' => earlier - later,
        '/' => earlier / later,
        _ => f64::NAN,
    };
    result.to_bits()
}

fn evaluate(expression: &str) -> Result<f64, ErrorKind> {
    calculate_expression(expression, number, apply).map(f64::from_bits)
}

fn num(value: f64) -> Type {
    Type::Number(value.to_bits())
}

fn op(sign: char) -> Type {
    Type::Operation(sign)
}

fn paren(sign: char) -> Type {
    Type::Parentheses(sign)
}

#[test]
fn one_plus_one() {
    assert_eq!(evaluate("1 + 1"), Ok(2.0));
}

#[test]
fn mixed_ranks() {
    assert_eq!(evaluate("2 - 4 * 11 / 1 + 42.5"), Ok(0.5));
}

#[test]
fn nested_groups() {
    assert_eq!(evaluate("((18 / 6 + 15) / 9) - 2 + 13.7 / 2"), Ok(6.85));
}

#[test]
fn signed_numbers() {
    assert_eq!(evaluate("1 * -1 * -15.6"), Ok(15.6));
}

#[test]
fn division_from_the_left() {
    assert_eq!(evaluate("2 / 8 / 0.25"), Ok(1.0));
}

#[test]
fn group_is_divided_as_a_whole() {
    assert_eq!(evaluate("(1 + 2) / 2"), Ok(1.5));
    assert_eq!(evaluate("( 1 + 2 ) / 2"), Ok(1.5));
    assert_eq!(evaluate("1 + 2 / 2"), Ok(2.0));
}

#[test]
fn subtraction_and_division_group_from_the_left() {
    assert_eq!(evaluate("10 - 4 - 3"), Ok(3.0));
    assert_eq!(evaluate("10 - (4 - 3)"), Ok(9.0));
    assert_eq!(evaluate("64 / 4 / 2"), Ok(8.0));
    assert_eq!(evaluate("64 / (4 / 2)"), Ok(32.0));
    assert_eq!(evaluate("2 + 3 * 4 - 6 / 2"), Ok(11.0));
    assert_eq!(evaluate("(2 + 3) * (4 - 6) / 2"), Ok(-5.0));
}

#[test]
fn single_number_is_its_own_value() {
    assert_eq!(evaluate("42"), Ok(42.0));
    assert_eq!(evaluate("  ((42))  "), Ok(42.0));
    assert_eq!(evaluate("-1.5e2"), Ok(-150.0));
}

#[test]
fn division_by_zero_is_no_error() {
    assert_eq!(evaluate("1 / 0"), Ok(f64::INFINITY));
    assert_eq!(evaluate("-1 / 0"), Ok(f64::NEG_INFINITY));
    assert!(evaluate("0 / 0").unwrap().is_nan());
}

#[test]
fn unbalanced_parentheses_are_reported_first() {
    assert_eq!(evaluate("(1 + 2"), Err(ErrorKind::UnbalancedParentheses));
    assert_eq!(evaluate("1 + 2)"), Err(ErrorKind::UnbalancedParentheses));
    assert_eq!(evaluate(")1 + 2("), Err(ErrorKind::UnbalancedParentheses));
    assert_eq!(evaluate("(1 + a"), Err(ErrorKind::UnbalancedParentheses));
    assert_eq!(evaluate("(1 1"), Err(ErrorKind::UnbalancedParentheses));
}

#[test]
fn illegal_token_is_reported() {
    assert_eq!(evaluate("1 + a"), Err(ErrorKind::IllegalToken));
    assert_eq!(evaluate("1+1"), Err(ErrorKind::IllegalToken));
    assert_eq!(evaluate("1 1 x"), Err(ErrorKind::IllegalToken));
    assert_eq!(evaluate("2 ** 3"), Err(ErrorKind::IllegalToken));
    assert_eq!(evaluate("1 + 2 = 3"), Err(ErrorKind::IllegalToken));
    assert_eq!(evaluate("\u{661} + 1"), Err(ErrorKind::IllegalToken));
}

#[test]
fn repeated_kind_is_malformed() {
    assert_eq!(evaluate("1 - 2 - - 3"), Err(ErrorKind::MalformedExpression));
    assert_eq!(evaluate("1 2"), Err(ErrorKind::MalformedExpression));
    assert_eq!(evaluate("1 + 2 3"), Err(ErrorKind::MalformedExpression));
    assert_eq!(evaluate("(1 + + 2)"), Err(ErrorKind::MalformedExpression));
    assert_eq!(evaluate("2 * (3 3)"), Err(ErrorKind::MalformedExpression));
    assert_eq!(evaluate("(1) (2)"), Err(ErrorKind::MalformedExpression));
    assert_eq!(evaluate("(1) 2"), Err(ErrorKind::MalformedExpression));
    assert_eq!(evaluate("1 (2)"), Err(ErrorKind::MalformedExpression));
    assert_eq!(evaluate("1 (+ 2)"), Err(ErrorKind::MalformedExpression));
}

#[test]
fn missing_or_spare_operand_is_an_arithmetic_error() {
    assert_eq!(evaluate(""), Err(ErrorKind::ArithmeticError));
    assert_eq!(evaluate("()"), Err(ErrorKind::ArithmeticError));
    assert_eq!(evaluate("+"), Err(ErrorKind::ArithmeticError));
    assert_eq!(evaluate("1 +"), Err(ErrorKind::ArithmeticError));
    assert_eq!(evaluate("* 2"), Err(ErrorKind::ArithmeticError));
    assert_eq!(evaluate("(+ 1)"), Err(ErrorKind::ArithmeticError));
}

#[test]
fn each_error_has_its_message() {
    assert_eq!(ErrorKind::UnbalancedParentheses.message(), "not every parentheses has a pair");
    assert_eq!(
        ErrorKind::IllegalToken.message(),
        "the entered expression contains illegal characters"
    );
    assert_eq!(
        ErrorKind::MalformedExpression.message(),
        "the entered expression has too many operands"
    );
    assert_eq!(ErrorKind::ArithmeticError.message(), "math error (ex. 0 division error)");
}

#[test]
fn evaluation_repeats() {
    let text = "((18 / 6 + 15) / 9) - 2 + 13.7 / 3";
    let first = calculate_expression(text, number, apply);
    let second = calculate_expression(text, number, apply);

    assert!(first.is_ok());
    assert_eq!(first, second);
    assert_eq!(
        calculate_expression("1 +", number, apply),
        calculate_expression("1 +", number, apply)
    );
}

#[test]
fn postfix_and_converted_infix_have_one_value() {
    let infix = parse_expression("1 - 2 * 3 - 4 + 5 / 7", number).unwrap();
    let postfix = parse_expression("1 2 3 * - 4 - 5 7 / +", number).unwrap();
    let converted = convert_to_postfix(infix).unwrap();

    assert_eq!(converted, postfix);
    assert_eq!(calculate(converted, apply), calculate(postfix, apply));
}

#[test]
fn priority_of_every_pair() {
    for new in ['+', '-'] {
        for in_stack in ['+', '-'] {
            assert_eq!(priority_operation(new, in_stack), PriorityOperation::EqualPriority);
        }
        for in_stack in ['*', '/'] {
            assert_eq!(priority_operation(new, in_stack), PriorityOperation::InStack);
        }
    }
    for new in ['*', '/'] {
        for in_stack in ['+', '-'] {
            assert_eq!(priority_operation(new, in_stack), PriorityOperation::OutStack);
        }
        for in_stack in ['*', '/'] {
            assert_eq!(priority_operation(new, in_stack), PriorityOperation::EqualPriority);
        }
    }
}

#[test]
fn conversion_of_an_empty_sequence() {
    assert_eq!(convert_to_postfix(vec![]), Some(vec![]));
    assert_eq!(convert_to_postfix(vec![paren('('), paren(')')]), Some(vec![]));
}

#[test]
fn conversion_drains_in_pop_order() {
    let infix = vec![num(1.0), op('+'), num(2.0), op('*'), num(3.0)];
    let postfix = vec![num(1.0), num(2.0), num(3.0), op('*'), op('+')];

    assert_eq!(convert_to_postfix(infix), Some(postfix));
}

#[test]
fn conversion_refuses_lone_parentheses() {
    assert_eq!(convert_to_postfix(vec![paren('('), num(1.0)]), None);
    assert_eq!(convert_to_postfix(vec![num(1.0), paren(')')]), None);
    assert_eq!(convert_to_postfix(vec![paren(')'), paren('(')]), None);
    assert_eq!(convert_to_postfix(vec![paren('('), paren('('), num(1.0), paren(')')]), None);
}

#[test]
fn conversion_refuses_what_is_no_token() {
    assert_eq!(convert_to_postfix(vec![Type::Illegal]), None);
    assert_eq!(convert_to_postfix(vec![num(1.0), op('+'), Type::Illegal]), None);
    assert_eq!(convert_to_postfix(vec![paren('[')]), None);
    assert_eq!(convert_to_postfix(vec![paren('('), Type::Illegal, paren(')')]), None);
}

#[test]
fn conversion_meets_an_unknown_sign() {
    assert_eq!(convert_to_postfix(vec![op('x')]), Some(vec![op('x')]));
    assert_eq!(convert_to_postfix(vec![num(1.0), op('x'), num(2.0), op('+'), num(3.0)]), None);
    assert_eq!(convert_to_postfix(vec![num(1.0), op('+'), num(2.0), op('x'), num(3.0)]), None);
}

#[test]
fn conversion_counts_a_group_as_an_operand() {
    let number_behind = vec![paren('('), num(1.0), paren(')'), num(2.0)];
    let group_behind = vec![num(1.0), paren('('), num(2.0), paren(')')];
    let between = vec![num(1.0), paren('('), num(2.0), paren(')'), num(3.0)];
    let two_groups = vec![paren('('), num(1.0), paren(')'), paren('('), num(2.0), paren(')')];
    let apart = vec![paren('('), num(1.0), paren(')'), op('-'), paren('('), num(2.0), paren(')')];

    assert_eq!(convert_to_postfix(number_behind), None);
    assert_eq!(convert_to_postfix(group_behind), None);
    assert_eq!(convert_to_postfix(between), None);
    assert_eq!(convert_to_postfix(two_groups), None);
    assert_eq!(convert_to_postfix(apart), Some(vec![num(1.0), num(2.0), op('-')]));
}

#[test]
fn conversion_starts_afresh_in_a_group() {
    let infix = vec![num(1.0), op('*'), paren('('), op('+'), num(2.0), paren(')')];

    assert_eq!(convert_to_postfix(infix), Some(vec![num(1.0), num(2.0), op('+'), op('*')]));
}

#[test]
fn reduction_hands_the_earlier_number_first() {
    let seen = std::cell::RefCell::new(Vec::new());
    let recording = |sign: char, left: u64, right: u64| {
        seen.borrow_mut().push((sign, f64::from_bits(left), f64::from_bits(right)));
        apply(sign, left, right)
    };
    let postfix = vec![num(8.0), num(2.0), op('/'), num(1.0), op('-')];

    assert_eq!(calculate(postfix, recording).map(f64::from_bits), Some(3.0));
    assert_eq!(*seen.borrow(), vec![('/', 8.0, 2.0), ('-', 4.0, 1.0)]);
}

#[test]
fn reduction_wants_one_number_left() {
    assert_eq!(calculate(vec![], apply), None);
    assert_eq!(calculate(vec![num(1.0), num(2.0)], apply), None);
    assert_eq!(calculate(vec![num(1.0), op('+')], apply), None);
    assert_eq!(calculate(vec![op('+')], apply), None);
    assert_eq!(calculate(vec![num(1.0), num(2.0), op('+'), op('+')], apply), None);
    assert_eq!(calculate(vec![num(7.0)], apply).map(f64::from_bits), Some(7.0));
}

#[test]
fn reduction_refuses_what_is_no_operand_or_operator() {
    assert_eq!(calculate(vec![num(1.0), num(2.0), op('x')], apply), None);
    assert_eq!(calculate(vec![num(1.0), paren('(')], apply), None);
    assert_eq!(calculate(vec![num(1.0), Type::Illegal], apply), None);
    assert_eq!(calculate(vec![paren('('), num(1.0), paren(')')], apply), None);
}

#[test]
fn a_failed_stage_ends_the_evaluation() {
    let read = std::cell::RefCell::new(0);
    let applied = std::cell::RefCell::new(0);
    let counting_number = |text: &str| {
        *read.borrow_mut() += 1;
        number(text)
    };
    let counting_apply = |sign: char, left: u64, right: u64| {
        *applied.borrow_mut() += 1;
        apply(sign, left, right)
    };

    assert_eq!(
        calculate_expression("(1 + 2", &counting_number, &counting_apply),
        Err(ErrorKind::UnbalancedParentheses)
    );
    assert_eq!(*read.borrow(), 0);
    assert_eq!(
        calculate_expression("1 + 2 + a + 3", &counting_number, &counting_apply),
        Err(ErrorKind::IllegalToken)
    );
    assert_eq!(*read.borrow(), 2);
    assert_eq!(
        calculate_expression("1 + 2 3", &counting_number, &counting_apply),
        Err(ErrorKind::MalformedExpression)
    );
    assert_eq!(*applied.borrow(), 0);
    assert_eq!(
        calculate_expression("1 + 2 +", &counting_number, &counting_apply).map(f64::from_bits),
        Err(ErrorKind::ArithmeticError)
    );
    assert_eq!(*applied.borrow(), 1);
}

#[test]
fn conversion_keeps_numbers_and_operators() {
    let text = "1 + ( 25 * 4 - 14 / 7 ) + 72 / ( ( 44 + 11 ) / 5 ) + 5";
    let infix = parse_expression(text, number).unwrap();
    let postfix = convert_to_postfix(infix.clone()).unwrap();

    let mut kept: Vec<String> = infix
        .iter()
        .filter(|t| !matches!(t, Type::Parentheses(_)))
        .map(|t| format!("{:?}", t))
        .collect();
    let mut made: Vec<String> = postfix.iter().map(|t| format!("{:?}", t)).collect();
    kept.sort();
    made.sort();
    assert_eq!(made, kept);

    let numbers_in: Vec<&Type> = infix.iter().filter(|t| matches!(t, Type::Number(_))).collect();
    let numbers_out: Vec<&Type> = postfix.iter().filter(|t| matches!(t, Type::Number(_))).collect();
    assert_eq!(numbers_out, numbers_in);
}

#[test]
fn tokens_pair_up_as_the_text_does() {
    for text in ["(1 + 2) * 3", "((1)", "1 ) + ( 2", "( ( 4 / 5 ) )", ") (", "", "(()())("] {
        let tokens = parse_expression(text, number).unwrap();
        let mut open = 0;
        let mut paired = true;
        for token in tokens {
            match token {
                Type::Parentheses('(') => open += 1,
                Type::Parentheses(')') => {
                    if open == 0 {
                        paired = false;
                        break;
                    }
                    open -= 1;
                },
                _ => {},
            }
        }
        assert_eq!(paired && open == 0, check_pairs(text));
    }
}

use rust_calc::tokenizer::{parse_expression, token_of_unit};
use rust_calc::Type;

fn number(text: &str) -> Option<u64> {
    text.parse::<f64>().ok().map(f64::to_bits)
}

fn num(value: f64) -> Type {
    Type::Number(value.to_bits())
}

#[test]
fn parse_two() {
    let expression = "1 + 1";
    let result = vec![num(1.0), Type::Operation('+'), num(1.0)];

    assert_eq!(parse_expression(expression, number).unwrap(), result);
}

#[test]
fn parse_two_space() {
    let expression = "1 + 1 ";
    let result = vec![num(1.0), Type::Operation('+'), num(1.0)];

    assert_eq!(parse_expression(expression, number).unwrap(), result);
}

#[test]
fn parse_no_space() {
    let expression = "1+1";

    assert_eq!(parse_expression(expression, number), None);
}

#[test]
fn parse_runs_of_white_space() {
    let result = vec![num(1.0), Type::Operation('+'), num(1.0)];

    assert_eq!(parse_expression("  1 \t +\n\n1  ", number).unwrap(), result);
    assert_eq!(parse_expression("", number).unwrap(), vec![]);
    assert_eq!(parse_expression("   ", number).unwrap(), vec![]);
}

#[test]
fn parse_parentheses_without_space() {
    let result = vec![
        Type::Parentheses('('),
        Type::Parentheses('('),
        num(5.0),
        Type::Operation('*'),
        num(2.0),
        Type::Parentheses(')'),
        Type::Parentheses(')'),
        Type::Operation('/'),
        Type::Parentheses('('),
        num(4.0),
        Type::Parentheses(')'),
    ];

    assert_eq!(parse_expression("((5 * 2))/(4)", number).unwrap(), result);
    assert_eq!(parse_expression("( ( 5 * 2 ) ) / ( 4 )", number).unwrap(), result);
}

#[test]
fn parse_number_shapes() {
    let result = vec![
        num(-1.0),
        num(2.5),
        num(0.5),
        num(3.0),
        num(1500.0),
        num(-0.025),
        num(7.0),
    ];

    assert_eq!(parse_expression("-1 +2.5 .5 3. 1.5e3 -2.5E-2 +7", number).unwrap(), result);
}

#[test]
fn parse_operators() {
    let result = vec![
        Type::Operation('+'),
        Type::Operation('-'),
        Type::Operation('*'),
        Type::Operation('/'),
    ];

    assert_eq!(parse_expression("+ - * /", number).unwrap(), result);
}

#[test]
fn parse_rejects_units_of_no_shape() {
    assert_eq!(parse_expression("1 + a", number), None);
    assert_eq!(parse_expression("1+1", number), None);
    assert_eq!(parse_expression("5- 2", number), None);
    assert_eq!(parse_expression("1 ++ 2", number), None);
    assert_eq!(parse_expression("1e", number), None);
    assert_eq!(parse_expression(".", number), None);
    assert_eq!(parse_expression("inf", number), None);
    assert_eq!(parse_expression("1 ^ 2", number), None);
    assert_eq!(parse_expression("12a", number), None);
    assert_eq!(parse_expression("a12", number), None);
}

#[test]
fn parse_asks_the_reader_for_number_shapes_only() {
    let seen = std::cell::RefCell::new(Vec::new());
    let recording = |text: &str| {
        seen.borrow_mut().push(text.to_string());
        number(text)
    };

    assert!(parse_expression("( 12 + x", recording).is_none());
    assert_eq!(*seen.borrow(), vec!["12".to_string()]);
}

#[test]
fn parse_fails_where_the_reader_fails() {
    let refusing = |_: &str| None;

    assert_eq!(parse_expression("1 + 1", refusing), None);
    assert_eq!(parse_expression("+ ( )", refusing).unwrap().len(), 3);
}

#[test]
fn parse_rejects_digits_that_the_reader_does_not_read() {
    assert_eq!(parse_expression("\u{661} + 1", number), None);
    assert_eq!(parse_expression("1 + \u{ff12}", number), None);
}

#[test]
fn parse_takes_any_white_space_between_units() {
    let result = vec![num(2.0), Type::Operation('*'), num(3.0)];

    assert_eq!(parse_expression("2\u{a0}*\u{3000}3", number).unwrap(), result);
    assert_eq!(parse_expression("2\r\n*\t3", number).unwrap(), result);
}

#[test]
fn parse_knows_each_white_space_character() {
    let result = vec![num(1.0), Type::Operation('+'), num(1.0)];
    let blanks = [
        '\u{9}', '\u{a}', '\u{b}', '\u{c}', '\u{d}', '\u{20}', '\u{85}', '\u{a0}', '\u{1680}',
        '\u{2000}', '\u{2001}', '\u{2002}', '\u{2003}', '\u{2004}', '\u{2005}', '\u{2006}',
        '\u{2007}', '\u{2008}', '\u{2009}', '\u{200a}', '\u{2028}', '\u{2029}', '\u{202f}',
        '\u{205f}', '\u{3000}',
    ];

    for blank in blanks {
        let text = format!("{}1{}+{}1{}", blank, blank, blank, blank);
        assert_eq!(parse_expression(&text, number).unwrap(), result);
    }
    for other in ['\u{8}', '\u{e}', '\u{1f}', '\u{21}', '\u{84}', '\u{180e}', '\u{200b}', '\u{feff}'] {
        let text = format!("1{}+{}1", other, other);
        assert_eq!(parse_expression(&text, number), None);
    }
}

#[test]
fn parse_stops_at_a_foreign_character() {
    let seen = std::cell::RefCell::new(Vec::new());
    let accepting = |text: &str| {
        seen.borrow_mut().push(text.to_string());
        Some(0)
    };

    assert!(parse_expression("7 + 1x + 2", &accepting).is_none());
    assert!(parse_expression("\u{661}", &accepting).is_none());
    assert!(parse_expression("1 + \u{ff12}", &accepting).is_none());
    assert_eq!(*seen.borrow(), vec!["7".to_string(), "1".to_string()]);
}

#[test]
fn token_of_a_unit_with_the_shape_of_a_number() {
    assert_eq!(token_of_unit("12.5", true, &number), Some(num(12.5)));
    assert_eq!(token_of_unit("-3e2", true, &number), Some(num(-300.0)));
    assert_eq!(token_of_unit("+", true, &number), None);
    assert_eq!(token_of_unit("1e", true, &number), None);
    assert_eq!(token_of_unit("", true, &number), None);
}

#[test]
fn token_of_a_unit_without_the_shape_of_a_number() {
    for sign in ["+", "-", "*", "/"] {
        let c = sign.chars().next().unwrap();
        assert_eq!(token_of_unit(sign, false, &number), Some(Type::Operation(c)));
    }
    assert_eq!(token_of_unit("12.5", false, &number), None);
    assert_eq!(token_of_unit("++", false, &number), None);
    assert_eq!(token_of_unit("(", false, &number), None);
    assert_eq!(token_of_unit("x", false, &number), None);
    assert_eq!(token_of_unit("", false, &number), None);
}

#[test]
fn token_of_a_unit_asks_the_reader_only_for_a_number() {
    let asked = std::cell::RefCell::new(0);
    let counting = |text: &str| {
        *asked.borrow_mut() += 1;
        number(text)
    };

    assert_eq!(token_of_unit("+", false, &counting), Some(Type::Operation('+')));
    assert_eq!(token_of_unit("7", false, &counting), None);
    assert_eq!(*asked.borrow(), 0);
    assert_eq!(token_of_unit("7", true, &counting), Some(num(7.0)));
    assert_eq!(*asked.borrow(), 1);
}

use rust_calc::calculator::calculate;
use rust_calc::tokenizer::parse_expression;
use rust_calc::Type;

fn number(text: &str) -> Option<u64> {
    text.parse::<f64>().ok().map(f64::to_bits)
}

fn apply(op: char, left: u64, right: u64) -> u64 {
    let earlier = f64::from_bits(left);
    let later = f64::from_bits(right);
    let result = match op {
        '+' => later + earlier,
        '*' => later * earlier,
        '-' => earlier - later,
        '/' => earlier / later,
        _ => f64::NAN,
    };
    result.to_bits()
}

fn value(tokens: Option<Vec<Type>>) -> Option<f64> {
    calculate(tokens?, apply).map(f64::from_bits)
}

#[test]
fn calculator_calculate_addition() {
    let expression = "1 2 +";

    assert_eq!(value(parse_expression(expression, number)).unwrap(), 3.0);
}

#[test]
fn calculator_calculate_subtraction() {
    let expression = "1 2 -";

    assert_eq!(value(parse_expression(expression, number)).unwrap(), -1.0);
}

#[test]
fn calculator_calculate_division() {
    let expression = "3 4 /";

    assert_eq!(value(parse_expression(expression, number)).unwrap(), 0.75);
}

#[test]
fn calculator_calculate_multiplication() {
    let expression = "5 5 *";

    assert_eq!(value(parse_expression(expression, number)).unwrap(), 25.0);
}

#[test]
fn calculate_mix() {
    let expression = "12 12 + 24 - 700 +";

    assert_eq!(value(parse_expression(expression, number)).unwrap(), 700.0);
}

#[test]
fn calculate_mix_complex() {
    let expression = "1 2 3 4 / - 4 8 / + 1 + 1 2 / + + 17 12 5 10 / + 3 + * - 32 -";

    assert_eq!(value(parse_expression(expression, number)).unwrap(), -291.25);
}

use rust_calc::paren_checker::check_pairs;

#[test]
fn correct_paren() {
    let test_data = "()(())(()())";

    assert!(check_pairs(test_data));
}

#[test]
fn wrong_paren() {
    let test_data = "()(())(()()";

    assert!(!check_pairs(test_data))
}

#[test]
fn correct_paren_symbols() {
    let test_data = "(aa(aaaa))+ = 2 3()(ab(a)())";

    assert!(check_pairs(test_data));
}

#[test]
fn wrong_paren_symbols() {
    let test_data = "(aa(1 - 2))bbba((ab(a)())";

    assert!(!check_pairs(test_data));
}

#[test]
fn empty_text_is_balanced() {
    assert!(check_pairs(""));
    assert!(check_pairs("1 + 2"));
}

#[test]
fn close_before_open_is_unbalanced() {
    assert!(!check_pairs(")("));
    assert!(!check_pairs("1 + 2)"));
    assert!(!check_pairs("(1 + 2"));
    assert!(!check_pairs("())(()"));
}

use newyearseve_formula::postfix_to_infix::{
    is_operator, op_assoc, op_prec, op_right_assoc, to_infix, to_infix_with, Exp,
};

#[test]
fn postfix_to_infix_test_01() {
    assert_eq!(
        to_infix("12+34+56+^^"),
        Some(String::from("(1+2)^(3+4)^(5+6)"))
    );
    assert_eq!(
        to_infix("342*15-23^^/+"),
        Some(String::from("3+4*2/(1-5)^2^3"))
    );
    assert_eq!(
        to_infix("12+34+^56+^"),
        Some(String::from("((1+2)^(3+4))^(5+6)"))
    );
}

#[test]
fn postfix_to_infix_test_02() {
    assert_eq!(to_infix("98^7^"), Some(String::from("(9^8)^7")));
    assert_eq!(to_infix("987^^"), Some(String::from("9^8^7")));
    assert_eq!(to_infix("98+7+"), Some(String::from("9+8+7")));
    assert_eq!(to_infix("987++"), Some(String::from("9+8+7")));
    assert_eq!(to_infix("98+7^"), Some(String::from("(9+8)^7")));
}

#[test]
fn postfix_to_infix_test_04() {
    assert_eq!(to_infix("72-1-"), Some(String::from("7-2-1")));
    assert_eq!(to_infix("721--"), Some(String::from("7-(2-1)")));
}

#[test]
fn to_infix_single_operand() {
    assert_eq!(to_infix("7"), Some(String::from("7")));
}

#[test]
fn to_infix_rejects_malformed_input() {
    assert_eq!(to_infix(""), None);
    assert_eq!(to_infix("12"), None);
    assert_eq!(to_infix("+"), None);
    assert_eq!(to_infix("1+"), None);
    assert_eq!(to_infix("12++"), None);
    assert_eq!(to_infix("12+3"), None);
}

#[test]
fn to_infix_division_and_product() {
    assert_eq!(to_infix("84/2/"), Some(String::from("8/4/2")));
    assert_eq!(to_infix("842//"), Some(String::from("8/(4/2)")));
    assert_eq!(to_infix("84*2*"), Some(String::from("8*4*2")));
    assert_eq!(to_infix("842**"), Some(String::from("8*4*2")));
    assert_eq!(to_infix("842*/"), Some(String::from("8/(4*2)")));
    assert_eq!(to_infix("84/2*"), Some(String::from("8/4*2")));
    assert_eq!(to_infix("842/*"), Some(String::from("8*4/2")));
}

#[test]
fn to_infix_mixed_precedence() {
    assert_eq!(to_infix("12+3*"), Some(String::from("(1+2)*3")));
    assert_eq!(to_infix("123*+"), Some(String::from("1+2*3")));
    assert_eq!(to_infix("12*3+"), Some(String::from("1*2+3")));
    assert_eq!(to_infix("123+-"), Some(String::from("1-(2+3)")));
    assert_eq!(to_infix("123-+"), Some(String::from("1+2-3")));
    assert_eq!(to_infix("12^3*"), Some(String::from("1^2*3")));
    assert_eq!(to_infix("12*3^"), Some(String::from("(1*2)^3")));
    assert_eq!(to_infix("123*^"), Some(String::from("1^(2*3)")));
}

#[test]
fn to_infix_other_characters_are_operands() {
    assert_eq!(to_infix("ab+"), Some(String::from("a+b")));
    assert_eq!(to_infix("ab+c*"), Some(String::from("(a+b)*c")));
    assert_eq!(to_infix("98&"), None);
}

#[test]
fn to_infix_is_repeatable() {
    assert_eq!(to_infix("12+34+56+^^"), to_infix("12+34+56+^^"));
}

#[test]
fn operator_tables() {
    assert_eq!(op_prec('+'), 1);
    assert_eq!(op_prec('-'), 1);
    assert_eq!(op_prec('*'), 2);
    assert_eq!(op_prec('/'), 2);
    assert_eq!(op_prec('^'), 3);
    for c in ['0', '1', '2', '3', '4', '5', '6', '7', '8', '9'] {
        assert_eq!(op_prec(c), 10);
        assert!(!is_operator(c));
    }
    assert!(op_right_assoc('^'));
    for c in ['+', '-', '*', '/'] {
        assert!(!op_right_assoc(c));
        assert!(is_operator(c));
    }
    assert!(is_operator('^'));
    assert!(!is_operator('&'));
    assert!(op_assoc('+'));
    assert!(op_assoc('*'));
    assert!(!op_assoc('-'));
    assert!(!op_assoc('/'));
    assert!(!op_assoc('^'));
}

#[test]
fn exp_can_be_built_and_cloned() {
    let e = Exp::new(String::from("1+2"), 1);
    let copy = e.clone();
    assert_eq!(format!("{:?}", e), format!("{:?}", copy));
}

#[test]
fn to_infix_with_sets_the_policy() {
    assert_eq!(to_infix_with("987++", true), Some(String::from("9+8+7")));
    assert_eq!(to_infix_with("987++", false), Some(String::from("9+(8+7)")));
    assert_eq!(to_infix_with("842**", true), Some(String::from("8*4*2")));
    assert_eq!(to_infix_with("842**", false), Some(String::from("8*(4*2)")));
    assert_eq!(to_infix_with("842/*", false), Some(String::from("8*(4/2)")));
    assert_eq!(to_infix_with("123-+", false), Some(String::from("1+(2-3)")));
}

#[test]
fn to_infix_with_policies_agree_elsewhere() {
    for postfix in ["98+7+", "98^7^", "987^^", "721--", "72-1-", "12+34+56+^^", "842//", "12", ""] {
        if !postfix.contains("++") {
            assert_eq!(to_infix_with(postfix, true), to_infix_with(postfix, false));
        }
        assert_eq!(to_infix_with(postfix, true), to_infix(postfix));
    }
}

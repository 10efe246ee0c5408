use newyearseve_formula::formula::{
    Formula, FORMULA_NUM_OPERANDS, FORMULA_NUM_OPERATORS, FORMULA_OPERATORS, FORMULA_SIZE,
};

fn plus() -> Vec<char> {
    vec!['+', '+', '+', '+', '+', '+', '+', '+']
}

#[test]
fn it_works() {
    let f = Formula::new(
        vec![2, 4, 6, 8, 10, 12, 14, 16],
        vec!['+', '+', '+', '+', '+', '+', '+', '+'],
    );
    println!("{}", f.to_string());
    println!("{:?}", f.evaluate());
    assert!(true);
}

#[test]
fn constants_describe_the_formula() {
    assert_eq!(FORMULA_NUM_OPERANDS, 9);
    assert_eq!(FORMULA_NUM_OPERATORS, 8);
    assert_eq!(FORMULA_SIZE, 17);
    assert_eq!(FORMULA_OPERATORS, ['+', '-', '*', '/', '^', '&']);
}

#[test]
fn sum_of_all_digits() {
    let f = Formula::new(vec![2, 4, 6, 8, 10, 12, 14, 16], plus());
    assert_eq!(f.to_string(), "98+7+6+5+4+3+2+1+");
    assert_eq!(f.evaluate(), Some(45));
    assert_eq!(f.to_infix(), "9+8+7+6+5+4+3+2+1");
}

#[test]
fn operators_at_the_end() {
    let f = Formula::new(vec![9, 10, 11, 12, 13, 14, 15, 16], plus());
    assert_eq!(f.to_string(), "987654321++++++++");
    assert_eq!(f.evaluate(), Some(45));
}

#[test]
fn evaluation_is_repeatable() {
    let f = Formula::new(
        vec![2, 4, 6, 8, 10, 12, 14, 16],
        vec!['*', '*', '+', '-', '*', '+', '-', '*'],
    );
    let first = f.evaluate();
    let second = f.evaluate();
    assert_eq!(first, Some(2021));
    assert_eq!(first, second);
    let g = Formula::new(f.positions.clone(), f.operators.clone());
    assert_eq!(g.evaluate(), first);
}

#[test]
fn is_valid_checks_every_position() {
    assert!(Formula::is_valid(&vec![2, 4, 6, 8, 10, 12, 14, 16]));
    assert!(Formula::is_valid(&vec![9, 10, 11, 12, 13, 14, 15, 16]));
    assert!(Formula::is_valid(&vec![2, 5, 6, 9, 10, 12, 15, 16]));
    assert!(!Formula::is_valid(&vec![1, 4, 6, 8, 10, 12, 14, 16]));
    assert!(!Formula::is_valid(&vec![2, 3, 6, 8, 10, 12, 14, 16]));
    assert!(!Formula::is_valid(&vec![2, 4, 6, 8, 10, 12, 14, 15]));
    assert!(Formula::is_valid(&vec![]));
    assert!(Formula::is_valid(&vec![2]));
    assert!(!Formula::is_valid(&vec![0]));
}

#[test]
fn is_valid_on_long_input() {
    let mut v: Vec<u8> = Vec::new();
    for i in 0..127u32 {
        v.push((2 * (i + 1)) as u8);
    }
    assert!(Formula::is_valid(&v));
    v.push(255);
    assert!(!Formula::is_valid(&v));
}

#[test]
fn is_well_formed_checks_the_shape() {
    assert!(Formula::new(vec![2, 4, 6, 8, 10, 12, 14, 16], plus()).is_well_formed());
    assert!(Formula::new(vec![0, 1, 2, 3, 4, 5, 6, 7], plus()).is_well_formed());
    assert!(!Formula::new(vec![2, 4, 6, 8, 10, 12, 14], plus()).is_well_formed());
    assert!(!Formula::new(vec![2, 4, 6, 8, 10, 12, 14, 16], vec!['+']).is_well_formed());
    assert!(!Formula::new(vec![2, 4, 6, 8, 10, 12, 14, 17], plus()).is_well_formed());
    assert!(!Formula::new(vec![2, 4, 6, 8, 10, 12, 16, 14], plus()).is_well_formed());
    assert!(!Formula::new(vec![2, 4, 6, 8, 10, 12, 14, 14], plus()).is_well_formed());
}

#[test]
fn infeasible_positions_have_no_value() {
    let early = Formula::new(vec![1, 4, 6, 8, 10, 12, 14, 16], plus());
    assert!(early.is_well_formed());
    assert!(!Formula::is_valid(&early.positions));
    assert_eq!(early.evaluate(), None);
    let crowded = Formula::new(vec![2, 3, 6, 8, 10, 12, 14, 16], plus());
    assert_eq!(crowded.evaluate(), None);
    let short = Formula::new(vec![2, 4, 6, 8, 10, 12, 14, 15], plus());
    assert_eq!(short.evaluate(), None);
    let first = Formula::new(vec![0, 1, 2, 3, 4, 5, 6, 7], plus());
    assert_eq!(first.evaluate(), None);
}

#[test]
fn division_must_be_exact() {
    let inexact = Formula::new(
        vec![2, 4, 6, 8, 10, 12, 14, 16],
        vec!['/', '+', '+', '+', '+', '+', '+', '+'],
    );
    assert_eq!(inexact.to_string(), "98/7+6+5+4+3+2+1+");
    assert_eq!(inexact.evaluate(), None);
    let exact = Formula::new(
        vec![2, 5, 6, 8, 10, 12, 14, 16],
        vec!['+', '/', '+', '+', '+', '+', '+', '+'],
    );
    assert_eq!(exact.to_string(), "98+76/+5+4+3+2+1+");
    assert_eq!(exact.evaluate(), None);
    let halves = Formula::new(
        vec![3, 4, 6, 8, 10, 12, 14, 16],
        vec!['-', '/', '+', '+', '+', '+', '+', '+'],
    );
    assert_eq!(halves.to_string(), "987-/6+5+4+3+2+1+");
    assert_eq!(halves.evaluate(), Some(9 + 6 + 5 + 4 + 3 + 2 + 1));
}

#[test]
fn division_by_zero_fails() {
    let f = Formula::new(
        vec![8, 10, 11, 12, 13, 14, 15, 16],
        vec!['-', '-', '/', '+', '+', '+', '+', '+'],
    );
    assert!(Formula::is_valid(&f.positions));
    assert_eq!(f.to_string(), "98765432-1-/+++++");
    assert_eq!(f.evaluate(), None);
    let g = Formula::new(
        vec![8, 10, 11, 12, 13, 14, 15, 16],
        vec!['-', '-', '*', '+', '+', '+', '+', '+'],
    );
    assert_eq!(g.evaluate(), Some(9 + 8 + 7 + 6 + 5));
}

#[test]
fn powers_and_overflow() {
    let tower = Formula::new(
        vec![9, 10, 11, 12, 13, 14, 15, 16],
        vec!['^', '^', '^', '^', '^', '^', '^', '^'],
    );
    assert_eq!(tower.evaluate(), None);
    let small = Formula::new(
        vec![7, 8, 10, 11, 12, 14, 15, 16],
        vec!['-', '^', '^', '+', '+', '+', '+', '+'],
    );
    assert_eq!(small.to_string(), "9876543-^2^++1+++");
    assert_eq!(small.evaluate(), Some(9 + 8 + 7 + 6 + 25 + 1));
}

#[test]
fn unknown_operator_has_no_value() {
    let f = Formula::new(
        vec![2, 4, 6, 8, 10, 12, 14, 16],
        vec!['+', '+', '+', '%', '+', '+', '+', '+'],
    );
    assert_eq!(f.evaluate(), None);
    assert_eq!(f.to_string(), "98+7+6+5%4+3+2+1+");
}

#[test]
fn concatenation_joins_digits_only() {
    let joined = Formula::new(
        vec![2, 4, 6, 8, 10, 12, 14, 16],
        vec!['&', '+', '+', '+', '+', '+', '+', '+'],
    );
    assert_eq!(joined.evaluate(), Some(98 + 7 + 6 + 5 + 4 + 3 + 2 + 1));
    let computed = Formula::new(
        vec![2, 4, 6, 8, 10, 12, 14, 16],
        vec!['+', '&', '+', '+', '+', '+', '+', '+'],
    );
    assert_eq!(computed.evaluate(), None);
    let inner = Formula::new(
        vec![3, 4, 6, 8, 10, 12, 14, 16],
        vec!['&', '+', '+', '+', '+', '+', '+', '+'],
    );
    assert_eq!(inner.to_string(), "987&+6+5+4+3+2+1+");
    assert_eq!(inner.evaluate(), Some(9 + 87 + 6 + 5 + 4 + 3 + 2 + 1));
}

#[test]
fn missing_operators_give_no_value() {
    let f = Formula::new(vec![2, 4, 6, 8, 10, 12, 14, 16], vec!['+', '+']);
    assert_eq!(f.evaluate(), None);
    let none = Formula::new(vec![], vec![]);
    assert_eq!(none.evaluate(), None);
    let one = Formula::new(vec![16], vec!['+']);
    assert_eq!(one.evaluate(), None);
}

#[test]
fn to_infix_of_a_solution() {
    let f = Formula::new(
        vec![2, 4, 6, 8, 10, 12, 14, 16],
        vec!['*', '*', '+', '-', '*', '+', '-', '*'],
    );
    assert_eq!(f.to_string(), "98*7*6+5-4*3+2-1*");
    assert_eq!(f.to_infix(), "((9*8*7+6-5)*4+3-2)*1");
}

#[test]
fn value_of_needs_no_formula() {
    let positions = vec![2, 4, 6, 8, 10, 12, 14, 16];
    let operators = vec!['*', '*', '+', '-', '*', '+', '-', '*'];
    assert_eq!(Formula::value_of(&positions, &operators), Some(2021));
    assert_eq!(
        Formula::value_of(&positions, &operators),
        Formula::new(positions.clone(), operators.clone()).evaluate()
    );
}

#[test]
fn every_token_is_one_character() {
    for positions in [
        vec![2u8, 4, 6, 8, 10, 12, 14, 16],
        vec![9, 10, 11, 12, 13, 14, 15, 16],
        vec![0, 1, 2, 3, 4, 5, 6, 7],
        vec![3, 5, 6, 9, 11, 12, 13, 15],
    ] {
        let f = Formula::new(positions.clone(), vec!['a', 'b', 'c', 'd', 'e', 'f', 'g', 'h']);
        let text: Vec<char> = f.to_string().chars().collect();
        assert_eq!(text.len(), 17);
        let digits: String = text.iter().filter(|c| c.is_ascii_digit()).collect();
        assert_eq!(digits, "987654321");
        let letters: String = text.iter().filter(|c| c.is_ascii_lowercase()).collect();
        assert_eq!(letters, "abcdefgh");
        for (k, p) in positions.iter().enumerate() {
            assert_eq!(text[*p as usize], f.operators[k]);
        }
    }
}

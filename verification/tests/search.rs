use newyearseve_formula::algorithm::{available_operators, compute, search, work_size};
use newyearseve_formula::formula::Formula;
use newyearseve_formula::positions::valid_positions;

fn texts(found: &[Formula]) -> Vec<String> {
    let mut out: Vec<String> = found.iter().map(|f| f.to_string()).collect();
    out.sort();
    out
}

#[test]
fn alphabets() {
    assert_eq!(available_operators(true), vec!['+', '-', '*']);
    assert_eq!(available_operators(false), vec!['+', '-', '*', '/', '^', '&']);
}

#[test]
fn search_finds_2021() {
    let alphabet = vec!['+', '-', '*', '/', '^'];
    let position_sets = vec![vec![2u8, 4, 6, 8, 10, 12, 14, 16]];
    // '**+-*+-*' has the digits 2 2 0 1 2 0 1 2 in base five
    let index = 2 + 2 * 5 + 125 + 2 * 625 + 15625 + 2 * 78125;
    let parts = 200u8;
    let part = (0..parts)
        .find(|p| {
            let lo = (*p as usize) * 390625 / parts as usize;
            let hi = (*p as usize + 1) * 390625 / parts as usize;
            lo <= index && index < hi
        })
        .unwrap();
    let found = search(2021, &position_sets, &alphabet, part, parts);
    assert!(!found.is_empty());
    for f in &found {
        assert_eq!(f.evaluate(), Some(2021));
    }
    assert!(texts(&found).contains(&String::from("98*7*6+5-4*3+2-1*")));
    assert!(found.iter().any(|f| f.to_infix() == "((9*8*7+6-5)*4+3-2)*1"));
}

#[test]
fn search_keeps_the_order_of_the_candidates() {
    let alphabet = vec!['+', '-'];
    let position_sets = vec![
        vec![2u8, 4, 6, 8, 10, 12, 14, 16],
        vec![9u8, 10, 11, 12, 13, 14, 15, 16],
    ];
    let found = search(45, &position_sets, &alphabet, 0, 1);
    let got: Vec<String> = found.iter().map(|f| f.to_string()).collect();
    assert_eq!(got, vec!["98+7+6+5+4+3+2+1+", "987654321++++++++"]);
    let none = search(46, &position_sets, &alphabet, 0, 1);
    assert!(none.is_empty());
}

#[test]
fn search_in_parts_finds_the_same() {
    let alphabet = available_operators(true);
    let all = valid_positions();
    let position_sets: Vec<Vec<u8>> = vec![all[0].clone(), all[700].clone(), all[1429].clone()];
    for target in [0i64, 10, 45, 100, 2021] {
        let whole = search(target, &position_sets, &alphabet, 0, 1);
        for f in &whole {
            assert_eq!(f.evaluate(), Some(target));
        }
        let mut in_parts = Vec::new();
        for part in 0..8 {
            in_parts.extend(search(target, &position_sets, &alphabet, part, 8));
        }
        assert_eq!(in_parts.len(), whole.len());
        assert_eq!(texts(&in_parts), texts(&whole));
    }
}

#[test]
fn search_without_position_sets_finds_nothing() {
    let found = search(45, &Vec::new(), &vec!['+'], 0, 1);
    assert!(found.is_empty());
}

#[test]
fn compute_finds_every_simple_solution_once() {
    let found = compute(2021, true);
    assert!(!found.is_empty());
    for f in &found {
        assert_eq!(f.evaluate(), Some(2021));
        assert!(f.is_well_formed());
        assert!(Formula::is_valid(&f.positions));
        assert!(f.operators.iter().all(|c| "+-*".contains(*c)));
    }
    let all = texts(&found);
    assert!(all.windows(2).all(|w| w[0] != w[1]));
    assert!(all.contains(&String::from("98*7*6+5-4*3+2-1*")));
}

#[test]
fn work_size_is_the_product_of_the_lengths() {
    let all = valid_positions();
    assert_eq!(work_size(&all, &available_operators(true)), Some(1430 * 6561));
    assert_eq!(work_size(&Vec::new(), &available_operators(false)), Some(0));
    let one = vec![vec![2u8, 4, 6, 8, 10, 12, 14, 16]];
    assert_eq!(work_size(&one, &available_operators(false)), Some(1679616));
    assert_eq!(work_size(&one, &Vec::new()), Some(0));
    let wide: Vec<char> = (0..300u32).filter_map(char::from_u32).collect();
    if usize::BITS == 64 {
        assert_eq!(work_size(&one, &wide), None);
        assert_eq!(work_size(&Vec::new(), &wide), Some(0));
    }
}

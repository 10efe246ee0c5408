use newyearseve_formula::formula::Formula;
use newyearseve_formula::positions::valid_positions;

#[test]
fn valid_positions_are_counted() {
    let all = valid_positions();
    assert_eq!(all.len(), 1430);
}

#[test]
fn valid_positions_are_valid_combinations() {
    for p in valid_positions() {
        assert_eq!(p.len(), 8);
        assert!(Formula::is_valid(&p));
        assert!(p.windows(2).all(|w| w[0] < w[1]));
        assert!(p.iter().all(|x| *x < 17));
        assert_eq!(p[7], 16);
    }
}

#[test]
fn valid_positions_come_in_dictionary_order() {
    let all = valid_positions();
    assert_eq!(all[0], vec![2, 4, 6, 8, 10, 12, 14, 16]);
    assert_eq!(all[1], vec![2, 4, 6, 8, 10, 12, 15, 16]);
    assert_eq!(all[all.len() - 1], vec![9, 10, 11, 12, 13, 14, 15, 16]);
    assert!(all.windows(2).all(|w| w[0] < w[1]));
}

#[test]
fn valid_positions_miss_nothing() {
    let all = valid_positions();
    let mut count = 0;
    for mask in 0u32..(1 << 17) {
        if mask.count_ones() != 8 {
            continue;
        }
        let p: Vec<u8> = (0..17u8).filter(|i| mask & (1 << i) != 0).collect();
        if Formula::is_valid(&p) {
            count += 1;
            assert!(all.binary_search(&p).is_ok());
        }
    }
    assert_eq!(count, all.len());
}

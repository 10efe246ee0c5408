use newyearseve_formula::report::{rank, shortest, unique_by_length, Rank};

fn strings(texts: &[&str]) -> Vec<String> {
    texts.iter().map(|t| String::from(*t)).collect()
}

#[test]
fn rank_goes_by_length_first() {
    assert_eq!(rank("z".as_bytes(), "aa".as_bytes()), Rank::Before);
    assert_eq!(rank("aa".as_bytes(), "z".as_bytes()), Rank::After);
    assert_eq!(rank("".as_bytes(), "a".as_bytes()), Rank::Before);
    assert_eq!(rank("".as_bytes(), "".as_bytes()), Rank::Same);
}

#[test]
fn rank_goes_by_the_dictionary_next() {
    assert_eq!(rank("ab".as_bytes(), "ac".as_bytes()), Rank::Before);
    assert_eq!(rank("ac".as_bytes(), "ab".as_bytes()), Rank::After);
    assert_eq!(rank("ba".as_bytes(), "ab".as_bytes()), Rank::After);
    assert_eq!(rank("9+8".as_bytes(), "9+8".as_bytes()), Rank::Same);
    assert_eq!(rank("9*8".as_bytes(), "9+8".as_bytes()), Rank::Before);
}

#[test]
fn unique_by_length_orders_and_removes_duplicates() {
    let shown = unique_by_length(strings(&["bb", "a", "bb", "ab", "c", "a", "abc", ""]));
    assert_eq!(shown, strings(&["", "a", "c", "ab", "bb", "abc"]));
}

#[test]
fn unique_by_length_agrees_with_sorting() {
    let input = strings(&[
        "9+8+7", "(9+8)*7", "9*8", "9+8+7", "9-8", "9*8", "9^8", "(9-8)^7", "9/8", "9+8*7",
        "1", "22", "1", "333", "22", "4444",
    ]);
    let mut expected = input.clone();
    expected.sort();
    expected.dedup();
    expected.sort_by_key(|x| x.len());
    assert_eq!(unique_by_length(input), expected);
}

#[test]
fn unique_by_length_of_nothing() {
    assert_eq!(unique_by_length(Vec::new()), Vec::<String>::new());
}

#[test]
fn unique_by_length_twice_changes_nothing() {
    let once = unique_by_length(strings(&["bb", "a", "bb", "ab"]));
    let twice = unique_by_length(once.clone());
    assert_eq!(once, twice);
}

#[test]
fn shortest_keeps_the_minimal_length() {
    assert_eq!(shortest(&strings(&["ab", "c", "abc", "d"])), strings(&["c", "d"]));
    assert_eq!(shortest(&strings(&["ab", "cd"])), strings(&["ab", "cd"]));
    assert_eq!(shortest(&strings(&["abc"])), strings(&["abc"]));
    assert_eq!(shortest(&Vec::new()), Vec::<String>::new());
    assert_eq!(shortest(&strings(&["abc", "", "d"])), strings(&[""]));
}

#[test]
fn shortest_keeps_repeated_texts() {
    assert_eq!(shortest(&strings(&["c", "ab", "c"])), strings(&["c", "c"]));
}

use noil::sort::{code_key_of, key_before, sorted_order};

fn keys(values: &[&str]) -> Vec<Vec<u32>> {
    values
        .iter()
        .map(|v| v.chars().map(|c| c as u32).collect())
        .collect()
}

#[test]
fn keys_compare_lexicographically() {
    assert!(key_before(&[1, 2, 3], &[1, 2, 4]));
    assert!(!key_before(&[1, 2, 4], &[1, 2, 3]));
    assert!(key_before(&[1, 2], &[1, 2, 0]));
    assert!(!key_before(&[1, 2, 0], &[1, 2]));
    assert!(key_before(&[], &[0]));
    assert!(key_before(&[], &[]));
    assert!(key_before(&[7, 7], &[7, 7]));
    assert!(key_before(&[2], &[10, 0]));
}

#[test]
fn order_visits_smaller_keys_first() {
    assert_eq!(sorted_order(&keys(&["b", "a", "c"])), vec![1, 0, 2]);
    assert_eq!(
        sorted_order(&keys(&["delta", "alpha", "charlie", "bravo", "al"])),
        vec![4, 1, 3, 2, 0]
    );
    assert_eq!(sorted_order(&keys(&[])), Vec::<usize>::new());
    assert_eq!(sorted_order(&keys(&["only"])), vec![0]);
}

#[test]
fn equal_keys_keep_their_places() {
    assert_eq!(
        sorted_order(&keys(&["b", "a", "b", "a", "b", "a"])),
        vec![1, 3, 5, 0, 2, 4]
    );
}

#[test]
fn order_agrees_with_the_standard_sort() {
    let mut values: Vec<String> = Vec::new();
    let mut state: u32 = 12345;
    for _ in 0..200 {
        state = state.wrapping_mul(1103515245).wrapping_add(12345);
        let len = (state >> 16) % 4;
        let mut s = String::new();
        for k in 0..len {
            state = state.wrapping_mul(1103515245).wrapping_add(12345);
            s.push((b'a' + ((state >> (16 + k)) % 3) as u8) as char);
        }
        values.push(s);
    }
    let refs: Vec<&str> = values.iter().map(|s| s.as_str()).collect();
    let order = sorted_order(&keys(&refs));
    let mut expected: Vec<usize> = (0..values.len()).collect();
    expected.sort_by(|&i, &j| values[i].cmp(&values[j]));
    assert_eq!(order, expected);
}

#[test]
fn code_key_is_the_character_codes() {
    let chars: Vec<char> = "a0\u{e9}".chars().collect();
    assert_eq!(code_key_of(&chars), vec![97, 48, 233]);
}

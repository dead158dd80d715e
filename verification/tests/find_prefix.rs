use noil::find_prefix::{shared_prefix, shortest_unique_prefixes};

fn strings(values: &[&str]) -> Vec<String> {
    values.iter().map(|v| v.to_string()).collect()
}

#[test]
fn simple_shortest() {
    let mut input = vec!["1ab", "3ab", "1ca"];
    let expected_len: usize = 2;
    let expected_global: Vec<String> = vec!["1a".into(), "1c".into(), "3a".into()];
    let expected_individual: Vec<String> = vec!["1a".into(), "1c".into(), "3".into()];

    input.sort();

    let (len, global_prefixes, individual_prefixes) = shortest_unique_prefixes(&input);

    assert_eq!(expected_len, len);
    assert_eq!(expected_global, global_prefixes);
    assert_eq!(expected_individual, individual_prefixes);
}

#[test]
fn no_values_give_nothing() {
    let (len, global, individual) = shortest_unique_prefixes(&[]);
    assert_eq!(len, 0);
    assert_eq!(global, Vec::<String>::new());
    assert_eq!(individual, Vec::<String>::new());
}

#[test]
fn single_value_needs_no_global_prefix() {
    let (len, global, individual) = shortest_unique_prefixes(&["abc"]);
    assert_eq!(len, 0);
    assert_eq!(global, strings(&[""]));
    assert_eq!(individual, strings(&["a"]));

    let (len, global, individual) = shortest_unique_prefixes(&[""]);
    assert_eq!(len, 0);
    assert_eq!(global, strings(&[""]));
    assert_eq!(individual, strings(&[""]));
}

#[test]
fn individual_prefix_looks_at_both_neighbours() {
    let input = ["aaa1", "aab2", "abb3", "bbb4"];
    let (len, global, individual) = shortest_unique_prefixes(&input);
    assert_eq!(len, 3);
    assert_eq!(global, strings(&["aaa", "aab", "abb", "bbb"]));
    assert_eq!(individual, strings(&["aaa", "aab", "ab", "b"]));
}

#[test]
fn global_prefixes_of_sorted_values_are_unique() {
    let mut input = vec![
        "k3x9aa", "k3x9ab", "k3y000", "zz0000", "a00000", "a0000b", "m5m5m5", "m5m5m6", "b11111",
    ];
    input.sort();
    let (len, global, _) = shortest_unique_prefixes(&input);
    assert_eq!(len, 6);
    for i in 0..global.len() {
        assert_eq!(global[i].chars().count(), len);
        for j in 0..i {
            assert_ne!(global[i], global[j]);
        }
    }
    // one character less and two neighbours collide
    let shorter: Vec<&str> = input.iter().map(|v| &v[..len - 1]).collect();
    assert!(shorter.windows(2).any(|w| w[0] == w[1]));
}

#[test]
fn resolving_twice_gives_the_same() {
    let input = ["0aa", "0ab", "1zz", "9"];
    assert_eq!(
        shortest_unique_prefixes(&input),
        shortest_unique_prefixes(&input)
    );
}

#[test]
fn lengths_never_exceed_the_values() {
    // the global length is cut to the shortest value, the individual one to its own
    let input = ["a", "ab", "abc"];
    let (len, global, individual) = shortest_unique_prefixes(&input);
    assert_eq!(len, 1);
    assert_eq!(global, strings(&["a", "a", "a"]));
    assert_eq!(individual, strings(&["a", "ab", "abc"]));
}

#[test]
fn prefixes_are_cut_by_characters() {
    let input = ["\u{e9}a", "\u{e9}b"];
    let (len, global, individual) = shortest_unique_prefixes(&input);
    assert_eq!(len, 2);
    assert_eq!(global, strings(&["\u{e9}a", "\u{e9}b"]));
    assert_eq!(individual, strings(&["\u{e9}a", "\u{e9}b"]));
}

#[test]
fn shared_prefix_counts_common_characters() {
    let chars = |s: &str| s.chars().collect::<Vec<char>>();
    assert_eq!(shared_prefix(&chars("abcd"), &chars("abxd")), 2);
    assert_eq!(shared_prefix(&chars("abc"), &chars("abc")), 3);
    assert_eq!(shared_prefix(&chars("abc"), &chars("ab")), 2);
    assert_eq!(shared_prefix(&chars(""), &chars("ab")), 0);
    assert_eq!(shared_prefix(&chars("x"), &chars("y")), 0);
}

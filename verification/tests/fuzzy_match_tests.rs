use fuzzy::{fuzzy_match, fuzzy_score};

#[test]
fn teset_fuzzy_match() {
    // the score in this test doesn't actually matter, but the index matters.
    let choice_1 = "1111121";
    let query_1 = "21";
    assert_eq!(fuzzy_match(&choice_1, &query_1), Some((-4, vec![5, 6])));

    let choice_2 = "Ca";
    let query_2 = "ac";
    assert_eq!(fuzzy_match(&choice_2, &query_2), None);

    let choice_3 = ".";
    let query_3 = "s";
    assert_eq!(fuzzy_match(&choice_3, &query_3), None);

    let choice_4 = "AaBbCc";
    let query_4 = "abc";
    assert_eq!(fuzzy_match(&choice_4, &query_4), Some((28, vec![0, 2, 4])));
}

#[test]
fn empty_pattern_always_matches() {
    assert_eq!(fuzzy_match("", ""), Some((0, vec![])));
    assert_eq!(fuzzy_match("Choice did not matter", ""), Some((0, vec![])));
    assert_eq!(fuzzy_match("中国人", ""), Some((0, vec![])));
}

#[test]
fn no_match_when_no_subsequence_exists() {
    assert_eq!(fuzzy_match("", "a"), None);
    assert_eq!(fuzzy_match("abcdefg", "hi"), None);
    assert_eq!(fuzzy_match("Partial match did not count", "PP"), None);
    // the only `a` sits before the only `b`
    assert_eq!(fuzzy_match("ba", "ab"), None);
}

#[test]
fn matching_is_case_insensitive_both_ways() {
    // fails if case folding were the identity: 'A' != 'a' and so on
    assert_eq!(fuzzy_match("abc", "ABC"), Some((20, vec![0, 1, 2])));
    assert_eq!(fuzzy_match("ABC", "abc"), Some((20, vec![0, 1, 2])));
}

#[test]
fn camel_case_transition_gets_bonus() {
    // camel bonus 10, leading penalty -3
    assert_eq!(fuzzy_match("aB", "b"), Some((7, vec![1])));
}

#[test]
fn separator_gets_bonus() {
    // separator bonus 10, leading penalty -6
    assert_eq!(fuzzy_match("a_b", "b"), Some((4, vec![2])));
    assert_eq!(fuzzy_match("a/b", "b"), Some((4, vec![2])));
    assert_eq!(fuzzy_match("a b", "b"), Some((4, vec![2])));
}

#[test]
fn leading_penalty_is_capped() {
    // four characters before the match, but the penalty stays at -9
    assert_eq!(fuzzy_match("xxxxb", "b"), Some((-9, vec![4])));
}

#[test]
fn adjacency_beats_gap() {
    // adjacent picks earn +5, gaps cost -1 per skipped character
    assert_eq!(fuzzy_match("xab", "ab"), Some((2, vec![1, 2])));
    assert_eq!(fuzzy_match("axxb", "ab"), Some((8, vec![0, 3])));
}

#[test]
fn ties_resolve_to_first_maximum() {
    // both candidates of the single pattern character score 1; the earlier wins
    assert_eq!(fuzzy_match("xxx_axx_a", "a"), Some((1, vec![4])));
    // both predecessors of the final `b` combine to -4; the earlier `a` wins
    assert_eq!(fuzzy_match("axxxxxxxxxxxxxab", "ab"), Some((-4, vec![0, 15])));
}

#[test]
fn works_per_unicode_scalar() {
    assert_eq!(fuzzy_match("I am a 中国人.", "a人"), Some((-2, vec![2, 9])));
}

#[test]
fn fuzzy_score_values() {
    let plain: Vec<char> = "a_b".chars().collect();
    // position 0 always gets the separator bonus, nothing else
    assert_eq!(fuzzy_score(&plain, 0, true), 10);
    // after a separator, with two leading characters
    assert_eq!(fuzzy_score(&plain, 2, true), 4);
    // after a separator, not the first pattern character
    assert_eq!(fuzzy_score(&plain, 2, false), 10);

    let camel: Vec<char> = "aXc".chars().collect();
    assert_eq!(fuzzy_score(&camel, 1, false), 10);
    assert_eq!(fuzzy_score(&camel, 2, false), 0);

    let long: Vec<char> = "abcdef".chars().collect();
    // leading penalty: -3 per leading character, capped at -9
    assert_eq!(fuzzy_score(&long, 1, true), -3);
    assert_eq!(fuzzy_score(&long, 2, true), -6);
    assert_eq!(fuzzy_score(&long, 3, true), -9);
    assert_eq!(fuzzy_score(&long, 5, true), -9);
}

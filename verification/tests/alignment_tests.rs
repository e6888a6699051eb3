use riff::{lcs, LcsItem};

fn letters(word: &str) -> Vec<String> {
    word.chars().map(|c| c.to_string()).collect()
}

fn positions(items: &Vec<LcsItem>) -> Vec<(usize, usize)> {
    items.iter().map(|item| (item.index_a, item.index_b)).collect()
}

#[test]
pub fn small_lcs() {
    let seq_a = "science"
        .split("")
        .map(|str| String::from(str))
        .filter(|str| !str.is_empty())
        .collect::<Vec<String>>();
    let seq_b = "incentive"
        .split("")
        .map(|str| String::from(str))
        .filter(|str| !str.is_empty())
        .collect::<Vec<String>>();

    let lcs = lcs(&seq_a, &seq_b);
    assert_eq!(lcs.len(), 4);

    for lcs_item in lcs {
        assert_eq!(seq_a[lcs_item.index_a], seq_b[lcs_item.index_b]);
    }
}

#[test]
fn lcs_of_science_and_incentive_is_fixed() {
    let found = lcs(&letters("science"), &letters("incentive"));
    assert_eq!(positions(&found), vec![(1, 2), (3, 3), (4, 4), (6, 8)]);
}

#[test]
fn lcs_of_empty_inputs_is_empty() {
    let none: Vec<String> = Vec::new();
    let some = letters("abc");
    assert!(lcs(&none, &none).is_empty());
    assert!(lcs(&none, &some).is_empty());
    assert!(lcs(&some, &none).is_empty());
}

#[test]
fn lcs_prefers_dropping_from_the_first_sequence_on_a_tie() {
    let found = lcs(&letters("xy"), &letters("yx"));
    assert_eq!(positions(&found), vec![(0, 1)]);
}

#[test]
fn lcs_of_a_sequence_with_itself_matches_every_position() {
    let word = letters("banana");
    let found = lcs(&word, &word);
    assert_eq!(positions(&found), vec![(0, 0), (1, 1), (2, 2), (3, 3), (4, 4), (5, 5)]);
}

#[test]
fn lcs_of_disjoint_sequences_is_empty() {
    assert!(lcs(&letters("abc"), &letters("xyz")).is_empty());
}

#[test]
fn lcs_is_no_longer_than_the_shorter_input() {
    let short = letters("ab");
    let long = letters("aabbaabb");
    assert_eq!(lcs(&short, &long).len(), 2);
    assert_eq!(lcs(&long, &short).len(), 2);
}

#[test]
fn lcs_matches_equal_lines_in_rising_order() {
    let seq_a = letters("abcab");
    let seq_b = letters("bacba");
    let found = lcs(&seq_a, &seq_b);
    assert_eq!(positions(&found), vec![(0, 1), (1, 3), (3, 4)]);
    for item in &found {
        assert_eq!(seq_a[item.index_a], seq_b[item.index_b]);
    }
    for pair in found.windows(2) {
        assert!(pair[0].index_a < pair[1].index_a);
        assert!(pair[0].index_b < pair[1].index_b);
    }
}

#[test]
fn lcs_item_compares_by_its_indices() {
    let item = LcsItem { index_a: 1, index_b: 2 };
    assert_eq!(item, LcsItem { index_a: 1, index_b: 2 });
    assert_ne!(item, LcsItem { index_a: 2, index_b: 1 });
}

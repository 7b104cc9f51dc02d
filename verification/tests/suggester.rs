use std::collections::HashSet;
use transit_radar::suggester::Suggester;

fn suggester() -> Suggester {
    let mut suggester = Suggester::new();
    suggester.insert("Foo Bar", 1);
    suggester.insert("Foo Baz", 2);
    suggester.insert("Bar Baz", 3);
    suggester.insert("bar baz", 4);
    suggester
}

fn assert_search_results<'i>(query: &str, expected: impl IntoIterator<Item = &'i u64>) {
    let results: HashSet<_> = suggester().search(query).into_iter().collect();
    assert_eq!(results, expected.into_iter().copied().collect());
}

#[test]
fn word_count() {
    let suggester = suggester();
    assert_eq!(suggester.num_words(), 3);
}

#[test]
fn exact_match_case_sensitive() {
    assert_search_results("Bar Baz", &[3]);
    assert_search_results("bar baz", &[4]);
}

#[test]
fn one_word_matchcase() {
    assert_search_results("Foo", &[1, 2]);
}

#[test]
fn two_word_matchcase() {
    assert_search_results("Foo Bar", &[1]);
}

#[test]
fn one_word_offcase() {
    assert_search_results("foo", &[1, 2]);
}

#[test]
fn two_word_offcase() {
    assert_search_results("foo bar", &[1]);
}

#[test]
fn prefix_of_a_word_finds_its_names() {
    assert_search_results("ba", &[1, 2, 3, 4]);
    assert_search_results("baz", &[2, 3, 4]);
}

#[test]
fn unknown_word_finds_nothing() {
    assert_search_results("qux", &[]);
}

#[test]
fn empty_query_finds_nothing() {
    assert_search_results("", &[]);
    assert_search_results("   ", &[]);
}

#[test]
fn short_words_are_not_indexed() {
    let mut suggester = Suggester::new();
    suggester.insert("U2 Am Zoo", 7);
    assert_eq!(suggester.num_words(), 1);
    assert!(suggester.search("am").is_empty());
    assert_eq!(suggester.search("zoo"), [7].into_iter().collect());
    assert_eq!(suggester.search("U2 Am Zoo"), [7].into_iter().collect());
}

#[test]
fn prefix_iter_lists_matching_words() {
    let suggester = suggester();
    let mut words: Vec<String> = suggester.prefix_iter("BA").into_iter().map(|(w, _)| w).collect();
    words.sort();
    assert_eq!(words, vec!["bar".to_string(), "baz".to_string()]);
    assert!(suggester.prefix_iter("").is_empty());
}

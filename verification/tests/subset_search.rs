use subset_words::filter::{find_valid_subset_words, get_valid_words, sort_by_length_desc};
use subset_words::report::render_output;
use subset_words::subsets::generate_combinations;
use subset_words::trie::construct_tree;

fn corpus(words: &[&str]) -> Vec<String> {
    words.iter().map(|w| w.to_string()).collect()
}

#[test]
fn contains_exact_line_matches_only() {
    let c = corpus(&["cat", "car", "art", "at", "a"]);
    let tree = construct_tree(&c);
    assert!(tree.contains("cat"));
    assert!(tree.contains("car"));
    assert!(tree.contains("art"));
    assert!(tree.contains("at"));
    assert!(tree.contains("a"));
    assert!(!tree.contains("ca"));
    assert!(!tree.contains("c"));
    assert!(!tree.contains("cats"));
    assert!(!tree.contains("dog"));
    assert!(!tree.contains(""));
}

#[test]
fn contains_word_that_is_also_a_prefix() {
    let c = corpus(&["at", "art"]);
    let tree = construct_tree(&c);
    assert!(tree.contains("at"));
    assert!(tree.contains("art"));
    assert!(!tree.contains("a"));
    assert!(!tree.contains("ar"));
}

#[test]
fn empty_corpus_line_marks_empty_word() {
    let c = corpus(&["", "a"]);
    let tree = construct_tree(&c);
    assert!(tree.contains(""));
    assert!(tree.contains("a"));
}

#[test]
fn duplicate_corpus_lines_are_idempotent() {
    let c = corpus(&["cat", "cat", "cat"]);
    let tree = construct_tree(&c);
    assert!(tree.contains("cat"));
    assert!(!tree.contains("ca"));
}

#[test]
fn building_twice_answers_alike() {
    let c = corpus(&["cat", "car", "art", "at", "a"]);
    let t1 = construct_tree(&c);
    let t2 = construct_tree(&c);
    for probe in ["cat", "car", "art", "at", "a", "", "c", "ca", "cart", "z"] {
        assert_eq!(t1.contains(probe), t2.contains(probe));
    }
}

#[test]
fn combinations_of_three_distinct_letters() {
    let combos = generate_combinations("cat");
    assert_eq!(
        combos,
        vec!["c", "a", "ca", "t", "ct", "at", "cat"]
    );
}

#[test]
fn combinations_count_is_two_to_the_n_minus_one() {
    assert_eq!(generate_combinations("a").len(), 1);
    assert_eq!(generate_combinations("ab").len(), 3);
    assert_eq!(generate_combinations("abcd").len(), 15);
    assert_eq!(generate_combinations("abcdefghij").len(), 1023);
}

#[test]
fn combinations_keep_letter_order_and_duplicates() {
    let combos = generate_combinations("aa");
    assert_eq!(combos, vec!["a", "a", "aa"]);
}

#[test]
fn combinations_of_empty_word_is_empty() {
    let combos = generate_combinations("");
    assert!(combos.is_empty());
}

#[test]
fn filter_keeps_only_dictionary_words() {
    let c = corpus(&["cat", "car", "art", "at", "a"]);
    let tree = construct_tree(&c);
    let combos = generate_combinations("cat");
    let valid = get_valid_words(&tree, combos);
    assert_eq!(valid, vec!["cat", "at", "a"]);
}

#[test]
fn filter_deduplicates_equal_candidates() {
    let c = corpus(&["a", "aa"]);
    let tree = construct_tree(&c);
    let combos = generate_combinations("aa");
    let valid = get_valid_words(&tree, combos);
    assert_eq!(valid, vec!["aa", "a"]);
}

#[test]
fn sort_orders_by_descending_length_stably() {
    let words = corpus(&["a", "at", "b", "cat", "xy"]);
    let sorted = sort_by_length_desc(words);
    assert_eq!(sorted, vec!["cat", "at", "xy", "a", "b"]);
}

#[test]
fn scenario_cat_against_small_corpus() {
    let c = corpus(&["cat", "car", "art", "at", "a"]);
    let tree = construct_tree(&c);
    let result = find_valid_subset_words("cat", &tree);
    assert_eq!(result, vec!["cat", "at", "a"]);
}

#[test]
fn scenario_only_single_letters_match() {
    let c = corpus(&["x", "y", "q"]);
    let tree = construct_tree(&c);
    let result = find_valid_subset_words("xy", &tree);
    assert_eq!(result, vec!["x", "y"]);
}

#[test]
fn scenario_empty_target_yields_empty_result() {
    let c = corpus(&["a", "b"]);
    let tree = construct_tree(&c);
    let result = find_valid_subset_words("", &tree);
    assert!(result.is_empty());
}

#[test]
fn output_is_never_longer_than_the_input_word_allows() {
    let c = corpus(&["university", "unit", "uni", "verse"]);
    let tree = construct_tree(&c);
    let result = find_valid_subset_words("university", &tree);
    assert_eq!(result, vec!["university", "unit", "uni"]);
}

#[test]
fn adjacent_output_lengths_never_increase() {
    let c = corpus(&["a", "ab", "abc", "b", "bc", "c"]);
    let tree = construct_tree(&c);
    let result = find_valid_subset_words("abc", &tree);
    for pair in result.windows(2) {
        assert!(pair[0].chars().count() >= pair[1].chars().count());
    }
    for (i, w) in result.iter().enumerate() {
        for later in &result[i + 1..] {
            assert_ne!(w, later);
        }
    }
}

#[test]
fn rendered_output_joins_words_with_newlines() {
    let words = corpus(&["cat", "at", "a"]);
    assert_eq!(render_output(&words), "cat\nat\na\n");
    let none: Vec<String> = Vec::new();
    assert_eq!(render_output(&none), "");
}

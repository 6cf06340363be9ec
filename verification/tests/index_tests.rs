use kwic_gui::gerar_rotations;
use kwic_gui::stopwords::stopword_set;
use std::collections::HashSet;

fn strings(items: &[&str]) -> Vec<String> {
    items.iter().map(|s| s.to_string()).collect()
}

fn stop(items: &[&str]) -> HashSet<String> {
    items.iter().map(|s| s.to_string()).collect()
}

#[test]
fn stopword_and_window_of_two() {
    let phrases = strings(&["The car is blue"]);
    let result = gerar_rotations(&phrases, &stop(&["is"]), 2, false);
    assert_eq!(result, strings(&["blue The", "car is", "The car"]));
}

#[test]
fn uppercase_sorts_first_where_case_counts() {
    let phrases = strings(&["Apple apple"]);
    let result = gerar_rotations(&phrases, &stop(&[]), 1, true);
    assert_eq!(result, strings(&["Apple", "apple"]));
}

#[test]
fn window_beyond_the_phrase_keeps_full_rotations() {
    let phrases = strings(&["a b c"]);
    let sensitive = gerar_rotations(&phrases, &stop(&[]), 10, true);
    let insensitive = gerar_rotations(&phrases, &stop(&[]), 10, false);
    assert_eq!(sensitive, strings(&["a b c", "b c a", "c a b"]));
    assert_eq!(insensitive, strings(&["a b c", "b c a", "c a b"]));
}

#[test]
fn two_phrases_with_punctuation() {
    let phrases = strings(&["The rain in Spain", "In Hartford, Hereford, and Hampshire"]);
    let result = gerar_rotations(&phrases, &stop(&["in", "and"]), 2, false);
    assert!(result.contains(&"Spain The".to_string()));
    assert!(result.contains(&"Hereford, and".to_string()));
    for line in &result {
        let first = line.split(' ').next().unwrap().to_lowercase();
        assert_ne!(first, "in");
        assert_ne!(first, "and");
    }
    assert_eq!(
        result,
        strings(&[
            "Hampshire In",
            "Hartford, Hereford,",
            "Hereford, and",
            "rain in",
            "Spain The",
            "The rain",
        ])
    );
}

#[test]
fn no_phrases_no_index() {
    let phrases: Vec<String> = Vec::new();
    assert!(gerar_rotations(&phrases, &stop(&["is"]), 2, false).is_empty());
    assert!(gerar_rotations(&phrases, &stop(&[]), 1, true).is_empty());
}

#[test]
fn phrases_without_words_give_nothing() {
    let phrases = strings(&["", "   ", "\t\n"]);
    assert!(gerar_rotations(&phrases, &stop(&[]), 3, true).is_empty());
}

#[test]
fn full_flow_from_lines() {
    let phrases = strings(&["The rain in Spain", "In Hartford, Hereford, and Hampshire"]);
    let stopwords = stopword_set(&strings(&["in", "and"]));
    let results = gerar_rotations(&phrases, &stopwords, 2, false);
    assert!(results.contains(&"Spain The".to_string()));
    assert!(results.contains(&"Hereford, and".to_string()));
}

#[test]
fn case_sensitive_and_window_of_one_from_lines() {
    let phrases = strings(&["Apple Banana apple", "banana Apple Banana"]);
    let stopwords = stopword_set(&[]);
    let results = gerar_rotations(&phrases, &stopwords, 1, true);
    assert!(results[0].starts_with("Apple"));
    assert!(results.iter().any(|l| l.starts_with("Banana")));
    assert_eq!(results, strings(&["Apple", "Banana", "apple", "banana"]));
}

#[test]
fn repeated_runs_agree() {
    let phrases = strings(&[
        "the quick brown fox jumps over the lazy dog",
        "The Quick Brown Fox",
        "a stitch in time saves nine",
        "Time flies like an arrow",
    ]);
    let stopwords = stop(&["the", "a", "in", "an"]);
    let first = gerar_rotations(&phrases, &stopwords, 3, false);
    for _ in 0..20 {
        assert_eq!(gerar_rotations(&phrases, &stopwords, 3, false), first);
    }
    let sensitive = gerar_rotations(&phrases, &stopwords, 3, true);
    for _ in 0..20 {
        assert_eq!(gerar_rotations(&phrases, &stopwords, 3, true), sensitive);
    }
}

#[test]
fn order_of_phrases_does_not_matter() {
    let forward = strings(&["one two three", "Two One", "three three"]);
    let backward = strings(&["three three", "Two One", "one two three"]);
    for case_sensitive in [true, false] {
        assert_eq!(
            gerar_rotations(&forward, &stop(&["two"]), 2, case_sensitive),
            gerar_rotations(&backward, &stop(&["two"]), 2, case_sensitive)
        );
    }
}

#[test]
fn equal_snippets_are_listed_once() {
    let phrases = strings(&["a b a b", "b a", "a b"]);
    let result = gerar_rotations(&phrases, &stop(&[]), 2, true);
    assert_eq!(result, strings(&["a b", "b a"]));
}

#[test]
fn snippets_that_differ_in_case_are_both_kept() {
    let phrases = strings(&["Red red", "RED"]);
    let result = gerar_rotations(&phrases, &stop(&[]), 1, false);
    assert_eq!(result, strings(&["RED", "Red", "red"]));
}

#[test]
fn no_entry_occurs_twice() {
    let phrases = strings(&["to be or not to be", "To be", "be to be to"]);
    for window in [1usize, 2, 3, 10] {
        let result = gerar_rotations(&phrases, &stop(&["or"]), window, false);
        let distinct: HashSet<&String> = result.iter().collect();
        assert_eq!(distinct.len(), result.len());
    }
}

#[test]
fn entries_hold_as_many_words_as_the_window_admits() {
    let phrases = strings(&["alpha beta gamma delta"]);
    for (window, words) in [(1usize, 1usize), (2, 2), (3, 3), (4, 4), (5, 4), (1000, 4)] {
        let result = gerar_rotations(&phrases, &stop(&[]), window, true);
        assert_eq!(result.len(), 4);
        for line in &result {
            assert_eq!(line.split_whitespace().count(), words);
        }
    }
}

#[test]
fn entries_never_exceed_the_window() {
    let phrases = strings(&["a", "b c", "d e f", "g h i j"]);
    let result = gerar_rotations(&phrases, &stop(&[]), 2, true);
    for line in &result {
        assert!(line.split_whitespace().count() <= 2);
    }
    assert_eq!(
        result,
        strings(&["a", "b c", "c b", "d e", "e f", "f d", "g h", "h i", "i j", "j g"])
    );
}

#[test]
fn window_of_zero_cuts_every_snippet_to_nothing() {
    let phrases = strings(&["a b", "c"]);
    assert_eq!(gerar_rotations(&phrases, &stop(&[]), 0, true), strings(&[""]));
    assert!(gerar_rotations(&phrases, &stop(&["a", "b", "c"]), 0, true).is_empty());
}

#[test]
fn leading_words_are_no_stopwords() {
    let phrases = strings(&["The Cat and the Hat", "AND so it goes", "the end"]);
    let stopwords = stop(&["the", "and", "so"]);
    let result = gerar_rotations(&phrases, &stopwords, 3, false);
    assert!(!result.is_empty());
    for line in &result {
        let first = line.split_whitespace().next().unwrap().to_lowercase();
        assert!(!stopwords.contains(&first));
    }
    assert_eq!(
        result,
        strings(&["Cat and the", "end the", "goes AND so", "Hat The Cat", "it goes AND"])
    );
}

#[test]
fn stopwords_are_matched_in_lowercase_only() {
    let phrases = strings(&["Is is IS"]);
    assert!(gerar_rotations(&phrases, &stop(&["is"]), 1, true).is_empty());
    assert_eq!(
        gerar_rotations(&phrases, &stop(&["Is"]), 1, true),
        strings(&["IS", "Is", "is"])
    );
}

#[test]
fn stopwords_are_matched_whole() {
    let phrases = strings(&["Hereford, Hereford"]);
    let result = gerar_rotations(&phrases, &stop(&["hereford"]), 1, true);
    assert_eq!(result, strings(&["Hereford,"]));
}

#[test]
fn every_rotation_dropped() {
    let phrases = strings(&["in and In AND"]);
    assert!(gerar_rotations(&phrases, &stop(&["in", "and"]), 2, false).is_empty());
}

#[test]
fn ordinal_order_where_case_counts() {
    let phrases = strings(&["banana Apple cherry apple Banana Cherry"]);
    let result = gerar_rotations(&phrases, &stop(&[]), 1, true);
    assert_eq!(result, strings(&["Apple", "Banana", "Cherry", "apple", "banana", "cherry"]));
    let mut sorted = result.clone();
    sorted.sort();
    assert_eq!(result, sorted);
}

#[test]
fn lowercase_order_where_case_does_not_count() {
    let phrases = strings(&["banana Apple cherry apple Banana Cherry"]);
    let result = gerar_rotations(&phrases, &stop(&[]), 1, false);
    assert_eq!(result, strings(&["Apple", "apple", "Banana", "banana", "Cherry", "cherry"]));
    for pair in result.windows(2) {
        assert!(pair[0].to_lowercase() <= pair[1].to_lowercase());
    }
}

#[test]
fn accented_words() {
    let phrases = strings(&["Água mole em pedra dura", "ÁGUA Zebra"]);
    let stopwords = stopword_set(&strings(&["EM", "Água"]));
    let insensitive = gerar_rotations(&phrases, &stopwords, 1, false);
    assert_eq!(insensitive, strings(&["dura", "mole", "pedra", "Zebra"]));
    let free = gerar_rotations(&phrases, &stop(&[]), 1, true);
    assert_eq!(free, strings(&["Zebra", "dura", "em", "mole", "pedra", "ÁGUA", "Água"]));
}

#[test]
fn stopword_set_holds_lowercase_forms() {
    let set = stopword_set(&strings(&["In", "AND", "the", "THE", "Ébano"]));
    assert_eq!(set, stop(&["in", "and", "the", "ébano"]));
    assert!(stopword_set(&[]).is_empty());
}

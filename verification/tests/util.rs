use wordle_helper::letters::{LetterCounts, LetterSet};
use wordle_helper::util::{
    fits_pattern, get_letter_counts, has_letter_counts, invalid_format_msg,
    update_missing_letters, validate_input,
};

fn sorted_entries(counts: &LetterCounts) -> Vec<(char, isize)> {
    let mut entries = counts.entries();
    entries.sort();
    entries
}

#[test]
fn validate_input_accepts_letters_and_wildcards() {
    assert_eq!(validate_input("ab*de", "correct"), Ok(()));
    assert_eq!(validate_input("*****", "misplaced"), Ok(()));
    assert_eq!(validate_input("ABCDE", "incorrect"), Ok(()));
}

#[test]
fn validate_input_rejects_wrong_length() {
    assert_eq!(
        validate_input("ab*d", "correct"),
        Err(String::from("Input `correct` has incorrect format"))
    );
    assert_eq!(
        validate_input("", "misplaced"),
        Err(String::from("Input `misplaced` has incorrect format"))
    );
    assert_eq!(
        validate_input("ab*def", "incorrect"),
        Err(String::from("Input `incorrect` has incorrect format"))
    );
}

#[test]
fn validate_input_rejects_digit() {
    assert_eq!(
        validate_input("ab*d3", "correct"),
        Err(String::from("Input `correct` has incorrect format"))
    );
}

#[test]
fn validate_input_rejects_punctuation_and_space() {
    assert!(validate_input("ab-de", "correct").is_err());
    assert!(validate_input("ab de", "correct").is_err());
    assert!(validate_input(".exit", "correct").is_err());
}

#[test]
fn fits_pattern_takes_letters_and_the_wildcard() {
    assert!(fits_pattern('a', true));
    assert!(fits_pattern('*', false));
    assert!(fits_pattern('*', true));
    assert!(!fits_pattern('3', false));
    assert!(!fits_pattern(' ', false));
}

#[test]
fn validate_input_measures_characters() {
    // Four characters in five bytes.
    assert_eq!(
        validate_input("\u{e9}***", "correct"),
        Err(String::from("Input `correct` has incorrect format"))
    );
    // Three letters in five bytes.
    assert!(validate_input("\u{e9}\u{e9}a", "correct").is_err());
    // Five letters of two bytes each.
    assert_eq!(validate_input("\u{e9}\u{e9}\u{e9}\u{e9}\u{e9}", "correct"), Ok(()));
    assert_eq!(validate_input("\u{e9}*b*\u{df}", "misplaced"), Ok(()));
}

#[test]
fn invalid_format_msg_names_the_input() {
    assert_eq!(invalid_format_msg("misplaced"), "Input `misplaced` has incorrect format");
    assert_eq!(invalid_format_msg(""), "Input `` has incorrect format");
}

#[test]
fn get_letter_counts_adds_both_patterns() {
    let counts = get_letter_counts("s***s", "*s*a*");
    assert_eq!(sorted_entries(&counts), vec![('a', 1), ('s', 3)]);
    assert_eq!(counts.get('s'), Some(3));
    assert_eq!(counts.get('a'), Some(1));
    assert_eq!(counts.get('*'), None);
    assert_eq!(counts.get('b'), None);
}

#[test]
fn get_letter_counts_of_wildcards_is_empty() {
    let counts = get_letter_counts("*****", "*****");
    assert_eq!(counts.entries(), vec![]);
}

#[test]
fn get_letter_counts_takes_any_length() {
    let counts = get_letter_counts("", "aaaaaaa");
    assert_eq!(counts.entries(), vec![('a', 7)]);
}

#[test]
fn has_letter_counts_allows_more_than_the_minimum() {
    let mut counts = LetterCounts::new();
    counts.set('s', 2);
    assert!(has_letter_counts("sassy", &counts));
    assert!(has_letter_counts("class", &counts));
    assert!(!has_letter_counts("spicy", &counts));
    assert!(!has_letter_counts("", &counts));
}

#[test]
fn has_letter_counts_checks_every_letter() {
    let mut counts = LetterCounts::new();
    counts.set('a', 1);
    counts.set('e', 1);
    assert!(has_letter_counts("abide", &counts));
    assert!(!has_letter_counts("zebry", &counts));
    assert!(!has_letter_counts("salty", &counts));
}

#[test]
fn has_letter_counts_without_requirements() {
    let counts = LetterCounts::new();
    assert!(has_letter_counts("apple", &counts));
    assert!(has_letter_counts("", &counts));
}

#[test]
fn has_letter_counts_with_counts_below_one() {
    let mut counts = LetterCounts::new();
    counts.set('q', 0);
    counts.set('x', -3);
    assert!(has_letter_counts("apple", &counts));
}

#[test]
fn letter_counts_set_replaces() {
    let mut counts = LetterCounts::new();
    counts.set('a', 1);
    counts.set('b', 2);
    counts.set('a', 5);
    assert_eq!(sorted_entries(&counts), vec![('a', 5), ('b', 2)]);
}

#[test]
fn update_missing_letters_skips_wildcards() {
    let mut missing = LetterSet::new();
    update_missing_letters("*x*yx", &mut missing);
    assert!(missing.contains('x'));
    assert!(missing.contains('y'));
    assert!(!missing.contains('*'));
    assert!(!missing.contains('a'));
}

#[test]
fn update_missing_letters_accumulates() {
    let mut missing = LetterSet::new();
    update_missing_letters("q****", &mut missing);
    update_missing_letters("**z**", &mut missing);
    update_missing_letters("", &mut missing);
    assert!(missing.contains('q'));
    assert!(missing.contains('z'));
    assert!(!missing.contains('a'));
}

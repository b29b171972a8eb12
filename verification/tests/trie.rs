use std::collections::HashMap;

use wordle_helper::letters::{LetterCounts, LetterSet};
use wordle_helper::trie::Trie;
use wordle_helper::util::{
    get_letter_counts, invalid_format_msg, update_missing_letters, validate_input,
};

#[test]
fn test_insert() {
    let mut words = vec!["apple", "ape", "app", "candy", "return"];
    words.sort();
    let mut t = Trie::new();
    words.iter().for_each(|word| t.insert(word));
    let mut outputted_words = t.words();
    outputted_words.sort();
    assert_eq!(words, outputted_words);
}

#[test]
fn test_pruned_copy() {
    let words = vec!["apple", "atria", "atoms"];
    let mut t = Trie::new();
    words.iter().for_each(|word| t.insert(word));
    let correct_letters = "at***";
    let misplaced_letters = "*****";
    let incorrect_letters = "****s";
    let mut missing_letters = LetterSet::new();
    update_missing_letters(incorrect_letters, &mut missing_letters);
    let pruned = t
        .pruned_copy(
            correct_letters,
            misplaced_letters,
            &get_letter_counts(correct_letters, misplaced_letters),
            &missing_letters,
            String::from(""),
        )
        .unwrap();
    let pruned_words = pruned.words();
    assert_eq!(pruned_words, vec![String::from("atria")]);
}

#[test]
fn test_validate_input() {
    struct TestCase<'a> {
        name: &'a str,
        input: String,
        input_name: &'a str,
        expected: Result<(), String>,
    }

    let test_cases = vec![
        TestCase {
            name: "valid format",
            input: String::from("*f*f*"),
            input_name: "correct",
            expected: Ok(()),
        },
        TestCase {
            name: "invalid format with numbers",
            input: String::from("12345"),
            input_name: "correct",
            expected: Err(invalid_format_msg("correct")),
        },
        TestCase {
            name: "invalid format, input too long",
            input: String::from("asdfgh"),
            input_name: "correct",
            expected: Err(invalid_format_msg("correct")),
        },
        TestCase {
            name: "invalid format, input too short",
            input: String::from("asdf"),
            input_name: "correct",
            expected: Err(invalid_format_msg("correct")),
        },
    ];

    test_cases.iter().for_each(|tc| {
        println!("{}", tc.name);
        assert_eq!(validate_input(&tc.input, tc.input_name), tc.expected)
    })
}

#[test]
fn test_get_letter_counts() {
    let counts: LetterCounts = get_letter_counts("*abc*", "**def");
    assert_eq!(
        counts.entries().into_iter().collect::<HashMap<char, isize>>(),
        HashMap::from([('a', 1), ('b', 1), ('c', 1), ('d', 1), ('e', 1), ('f', 1),])
    )
}

#[test]
fn new_trie_has_no_words() {
    assert_eq!(Trie::new().words(), Vec::<String>::new());
}

#[test]
fn words_round_trip() {
    let words = vec![
        String::from("crane"),
        String::from("crate"),
        String::from("slate"),
        String::from("trace"),
        String::from("cr"),
        String::from(""),
    ];
    let mut listed = Trie::from(words.clone()).words();
    let mut expected = words;
    listed.sort();
    expected.sort();
    assert_eq!(listed, expected);
}

#[test]
fn words_come_depth_first_in_insertion_order() {
    let trie = Trie::from(vec![
        String::from("slate"),
        String::from("crane"),
        String::from("slant"),
        String::from("crate"),
        String::from("sl"),
    ]);
    assert_eq!(
        trie.words(),
        vec![
            String::from("sl"),
            String::from("slate"),
            String::from("slant"),
            String::from("crane"),
            String::from("crate"),
        ]
    );
}

#[test]
fn repeated_word_is_stored_once() {
    let mut trie = Trie::new();
    trie.insert("apple");
    trie.insert("apple");
    assert_eq!(trie.words(), vec![String::from("apple")]);
}

#[test]
fn insert_takes_any_characters() {
    let mut trie = Trie::new();
    trie.insert("na\u{ef}ve");
    trie.insert("");
    assert_eq!(trie.words(), vec![String::from(""), String::from("na\u{ef}ve")]);
}

#[test]
fn from_empty_list_is_empty() {
    assert_eq!(Trie::from(vec![]).words(), Vec::<String>::new());
}

#[test]
fn letter_set_holds_what_was_inserted() {
    let mut set = LetterSet::new();
    assert!(!set.contains('a'));
    set.insert('a');
    set.insert('a');
    set.insert('b');
    assert!(set.contains('a'));
    assert!(set.contains('b'));
    assert!(!set.contains('c'));
}

#[test]
fn default_trie_is_the_new_trie() {
    let mut trie = Trie::default();
    assert_eq!(trie.words(), Vec::<String>::new());
    trie.insert("apple");
    assert_eq!(trie.words(), vec![String::from("apple")]);
}

use wordle_helper::letters::{LetterCounts, LetterSet};
use wordle_helper::trie::Trie;
use wordle_helper::util::get_letter_counts;

fn trie_of(words: &[&str]) -> Trie {
    let mut trie = Trie::new();
    for word in words {
        trie.insert(word);
    }
    trie
}

fn set_of(letters: &str) -> LetterSet {
    let mut set = LetterSet::new();
    for letter in letters.chars() {
        set.insert(letter);
    }
    set
}

fn pruned(trie: &Trie, correct: &str, misplaced: &str, missing: &str) -> Option<Vec<String>> {
    trie.pruned_copy(
        correct,
        misplaced,
        &get_letter_counts(correct, misplaced),
        &set_of(missing),
        String::new(),
    )
    .map(|tree| {
        let mut words = tree.words();
        words.sort();
        words
    })
}

#[test]
fn wildcards_keep_every_word() {
    let trie = trie_of(&["apple", "atria", "atoms", "zebra"]);
    assert_eq!(
        pruned(&trie, "*****", "*****", ""),
        Some(vec![
            String::from("apple"),
            String::from("atoms"),
            String::from("atria"),
            String::from("zebra"),
        ])
    );
}

#[test]
fn wildcards_drop_a_word_with_the_wildcard_character() {
    let trie = trie_of(&["a*ple", "atria"]);
    assert_eq!(pruned(&trie, "*****", "*****", ""), Some(vec![String::from("atria")]));
}

#[test]
fn correct_letters_pin_positions() {
    let trie = trie_of(&["abcde", "axcde", "abfgh"]);
    assert_eq!(
        pruned(&trie, "ab***", "*****", ""),
        Some(vec![String::from("abcde"), String::from("abfgh")])
    );
}

#[test]
fn excluded_letter_removes_words_anywhere() {
    let trie = trie_of(&["zebra", "abide", "pizza", "fuzzy", "topaz"]);
    assert_eq!(pruned(&trie, "*****", "*****", "z"), Some(vec![String::from("abide")]));
}

#[test]
fn misplaced_letter_is_barred_from_its_position() {
    let trie = trie_of(&["zebra", "abide"]);
    assert_eq!(pruned(&trie, "*****", "*e***", ""), Some(vec![String::from("abide")]));
}

#[test]
fn misplaced_letter_must_occur() {
    let trie = trie_of(&["abide", "salty"]);
    assert_eq!(pruned(&trie, "*****", "*e***", ""), Some(vec![String::from("abide")]));
}

#[test]
fn counts_ask_for_repeated_letters() {
    let trie = trie_of(&["sassy", "spicy"]);
    assert_eq!(pruned(&trie, "*****", "*s**s", ""), Some(vec![String::from("sassy")]));
}

#[test]
fn counts_add_correct_and_misplaced() {
    let trie = trie_of(&["sassy", "spicy", "salsa"]);
    assert_eq!(
        pruned(&trie, "s****", "*s***", ""),
        Some(vec![String::from("salsa"), String::from("sassy")])
    );
}

#[test]
fn pinned_letter_is_kept_though_excluded() {
    let trie = trie_of(&["zebra", "abide", "zazen"]);
    assert_eq!(pruned(&trie, "z****", "*****", "z"), Some(vec![String::from("zebra")]));
}

#[test]
fn pinned_letter_is_kept_though_misplaced_there() {
    let trie = trie_of(&["zebra", "abide"]);
    assert_eq!(pruned(&trie, "z****", "z****", ""), Some(vec![]));
    let trie = trie_of(&["zazen", "abide"]);
    assert_eq!(pruned(&trie, "z****", "z****", ""), Some(vec![String::from("zazen")]));
}

#[test]
fn pinned_letter_without_child_keeps_an_empty_node() {
    let trie = trie_of(&["apple"]);
    let tree = trie
        .pruned_copy(
            "b****",
            "*****",
            &get_letter_counts("b****", "*****"),
            &LetterSet::new(),
            String::new(),
        )
        .unwrap();
    assert_eq!(tree.words(), Vec::<String>::new());
}

#[test]
fn rejected_word_leaves_its_branch_without_words() {
    let trie = trie_of(&["abcde", "abxyz"]);
    assert_eq!(pruned(&trie, "*****", "**c**", ""), Some(vec![]));
}

#[test]
fn exhausted_patterns_give_no_match() {
    let trie = trie_of(&["apple"]);
    assert_eq!(pruned(&trie, "", "", ""), None);
    assert_eq!(pruned(&trie, "*****", "", ""), None);
    assert_eq!(pruned(&trie, "", "*****", ""), None);
}

#[test]
fn short_patterns_keep_no_longer_word() {
    let trie = trie_of(&["apple", "ab"]);
    assert_eq!(pruned(&trie, "**", "**", ""), Some(vec![String::from("ab")]));
}

#[test]
fn empty_tree_is_kept_while_patterns_last() {
    let trie = Trie::new();
    assert_eq!(pruned(&trie, "*****", "*****", ""), Some(vec![]));
    assert_eq!(pruned(&trie, "", "", ""), None);
}

#[test]
fn rejected_root_word_gives_no_match() {
    let trie = trie_of(&[""]);
    let mut counts = LetterCounts::new();
    counts.set('a', 1);
    assert!(trie
        .pruned_copy("*****", "*****", &counts, &LetterSet::new(), String::new())
        .is_none());
    let kept = trie
        .pruned_copy("*****", "*****", &counts, &LetterSet::new(), String::from("a"))
        .unwrap();
    assert_eq!(kept.words(), vec![String::new()]);
}

#[test]
fn walk_stops_at_the_first_word() {
    let trie = trie_of(&["app", "apple", "ape"]);
    assert_eq!(
        pruned(&trie, "*****", "*****", ""),
        Some(vec![String::from("ape"), String::from("app")])
    );
}

#[test]
fn prefix_counts_towards_requirements() {
    let trie = trie_of(&["bcd"]);
    let mut counts = LetterCounts::new();
    counts.set('a', 2);
    let with_prefix = trie
        .pruned_copy("***", "***", &counts, &LetterSet::new(), String::from("aa"))
        .unwrap();
    assert_eq!(with_prefix.words(), vec![String::from("bcd")]);
    let without = trie
        .pruned_copy("***", "***", &counts, &LetterSet::new(), String::from("a"))
        .unwrap();
    assert_eq!(without.words(), Vec::<String>::new());
}

#[test]
fn pruning_leaves_the_source_as_it_was() {
    let trie = trie_of(&["apple", "atria", "atoms"]);
    let before = trie.words();
    let _ = pruned(&trie, "at***", "*****", "s");
    assert_eq!(trie.words(), before);
}

#[test]
fn pruning_twice_narrows_further() {
    let trie = trie_of(&["apple", "atria", "atoms", "adobe"]);
    let first = trie
        .pruned_copy(
            "a****",
            "*****",
            &get_letter_counts("a****", "*****"),
            &set_of("p"),
            String::new(),
        )
        .unwrap();
    assert_eq!(
        pruned(&first, "a****", "*o***", "p"),
        Some(vec![String::from("adobe"), String::from("atoms")])
    );
    assert_eq!(pruned(&first, "a****", "**o**", "p"), Some(vec![]));
}

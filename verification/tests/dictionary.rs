use wordle_helper::dictionary::Dictionary;
use wordle_helper::letters::LetterSet;

fn lines(text: &str) -> Vec<String> {
    text.split('\n').map(|line| line.to_owned()).collect()
}

#[test]
fn load_clean_dictionary() {
    let words = vec!["apple", "words", "catty"]
        .into_iter()
        .map(|s| s.to_owned())
        .collect::<Vec<String>>();
    let words_dump = words.join("\n");
    let dictionary = Dictionary::from_lines(lines(&words_dump)).unwrap();
    assert_eq!(dictionary.words(), words);
}

#[test]
fn load_unfiltered_dictionary() {
    let clean_words = vec!["apple", "words", "catty"]
        .into_iter()
        .map(|s| s.to_owned())
        .collect::<Vec<String>>();
    let unfiltered_words = vec!["cat", "dog", "arachnophobia"]
        .into_iter()
        .map(|s| s.to_owned())
        .collect::<Vec<String>>();
    let unnormalized_words = vec!["grApe", "dOGGY", "SPIce"]
        .into_iter()
        .map(|s| s.to_owned())
        .collect::<Vec<String>>();
    let words_dump = [
        clean_words.clone(),
        unnormalized_words.clone(),
        unfiltered_words,
    ]
    .concat()
    .join("\n");
    let dictionary = Dictionary::from_lines(lines(&words_dump)).unwrap();
    assert_eq!(
        dictionary.words(),
        [
            clean_words,
            // Dictionary should load words in lowercase
            unnormalized_words
                .into_iter()
                .map(|s| s.to_lowercase())
                .collect()
        ]
        .concat()
    );
}

#[test]
fn empty_source_gives_no_dictionary() {
    assert!(Dictionary::from_lines(vec![]).is_none());
    assert!(Dictionary::from_lines(vec![String::new()]).is_none());
}

#[test]
fn source_of_wrong_lengths_gives_no_dictionary() {
    assert!(Dictionary::from_lines(lines("cat\ndog\narachnophobia\nfour\nsixsix")).is_none());
}

#[test]
fn dictionary_from_words_lists_them() {
    let dictionary = Dictionary::from(vec![String::from("apple"), String::from("words")]);
    assert_eq!(dictionary.words(), vec![String::from("apple"), String::from("words")]);
}

#[test]
fn dictionary_from_no_words_is_present_and_empty() {
    let mut dictionary = Dictionary::from(vec![]);
    assert_eq!(dictionary.words(), Vec::<String>::new());
    dictionary.filter_words("*****", "*****", &LetterSet::new());
    assert_eq!(dictionary.words(), Vec::<String>::new());
}

#[test]
fn filter_words_narrows_the_dictionary() {
    let mut dictionary = Dictionary::from(vec![
        String::from("apple"),
        String::from("atria"),
        String::from("atoms"),
    ]);
    let mut missing = LetterSet::new();
    missing.insert('s');
    dictionary.filter_words("at***", "*****", &missing);
    assert_eq!(dictionary.words(), vec![String::from("atria")]);
}

#[test]
fn filter_words_derives_the_counts() {
    let mut dictionary = Dictionary::from(vec![String::from("sassy"), String::from("spicy")]);
    dictionary.filter_words("*****", "*s**s", &LetterSet::new());
    assert_eq!(dictionary.words(), vec![String::from("sassy")]);
}

#[test]
fn filter_words_with_wildcards_changes_nothing() {
    let words = vec![String::from("apple"), String::from("atria"), String::from("zebra")];
    let mut dictionary = Dictionary::from(words.clone());
    dictionary.filter_words("*****", "*****", &LetterSet::new());
    assert_eq!(dictionary.words(), words);
}

#[test]
fn absent_dictionary_has_no_words() {
    let mut dictionary = Dictionary::from(vec![String::from("apple")]);
    dictionary.filter_words("", "", &LetterSet::new());
    assert_eq!(dictionary.words(), Vec::<String>::new());
    dictionary.filter_words("*****", "*****", &LetterSet::new());
    assert_eq!(dictionary.words(), Vec::<String>::new());
}

#[test]
fn lines_are_measured_in_characters() {
    // Five letters in six bytes are a word; three letters in five bytes are not.
    let dictionary =
        Dictionary::from_lines(lines("cr\u{e8}me\n\u{e9}\u{e9}a\nApple")).unwrap();
    assert_eq!(
        dictionary.words(),
        vec![String::from("cr\u{e8}me"), String::from("apple")]
    );
    assert!(Dictionary::from_lines(lines("\u{e9}\u{e9}a")).is_none());
}

#[test]
fn absent_dictionary_stays_absent_whatever_the_patterns() {
    let mut dictionary = Dictionary::from(vec![String::from("apple")]);
    dictionary.filter_words("", "", &LetterSet::new());
    let mut missing = LetterSet::new();
    missing.insert('q');
    dictionary.filter_words("a****", "*p***", &missing);
    assert_eq!(dictionary.words(), Vec::<String>::new());
    dictionary.filter_words("not a pattern at all", "", &missing);
    assert_eq!(dictionary.words(), Vec::<String>::new());
}

use wordle_helper::dictionary::Dictionary;
use wordle_helper::session::{single_pass, Prompt, Repl, Reply};

fn vocabulary() -> Dictionary {
    Dictionary::from(vec![
        String::from("apple"),
        String::from("atria"),
        String::from("atoms"),
        String::from("zebra"),
    ])
}

fn words_of(reply: Reply) -> Vec<String> {
    match reply {
        Reply::Words(words) => words,
        _ => panic!("the round was not completed"),
    }
}

fn message_of(reply: Reply) -> String {
    match reply {
        Reply::Invalid(message) => message,
        _ => panic!("the round was not rejected"),
    }
}

#[test]
fn prompt_names() {
    assert_eq!(Prompt::Correct.name(), "correct");
    assert_eq!(Prompt::Misplaced.name(), "misplaced");
    assert_eq!(Prompt::Incorrect.name(), "incorrect");
}

#[test]
fn session_asks_for_three_inputs_in_turn() {
    let mut dictionary = vocabulary();
    let mut repl = Repl::new();
    assert_eq!(repl.awaiting(), Prompt::Correct);
    assert!(matches!(repl.feed(&mut dictionary, "at***"), Reply::Next));
    assert_eq!(repl.awaiting(), Prompt::Misplaced);
    assert!(matches!(repl.feed(&mut dictionary, "*****"), Reply::Next));
    assert_eq!(repl.awaiting(), Prompt::Incorrect);
    let words = words_of(repl.feed(&mut dictionary, "****s"));
    assert_eq!(words, vec![String::from("atria")]);
    assert_eq!(repl.awaiting(), Prompt::Correct);
    assert_eq!(dictionary.words(), vec![String::from("atria")]);
}

#[test]
fn session_ends_on_the_exit_command() {
    let mut dictionary = vocabulary();
    let mut repl = Repl::new();
    assert!(matches!(repl.feed(&mut dictionary, ".exit"), Reply::Quit));
    let mut repl = Repl::new();
    assert!(matches!(repl.feed(&mut dictionary, "*****"), Reply::Next));
    assert!(matches!(repl.feed(&mut dictionary, ".exit"), Reply::Quit));
    let mut repl = Repl::new();
    assert!(matches!(repl.feed(&mut dictionary, "*****"), Reply::Next));
    assert!(matches!(repl.feed(&mut dictionary, "*****"), Reply::Next));
    assert!(matches!(repl.feed(&mut dictionary, ".exit"), Reply::Quit));
    assert_eq!(dictionary.words().len(), 4);
}

#[test]
fn session_reports_the_first_malformed_input() {
    let mut dictionary = vocabulary();
    let mut repl = Repl::new();
    assert!(matches!(repl.feed(&mut dictionary, "at**"), Reply::Next));
    assert!(matches!(repl.feed(&mut dictionary, "12345"), Reply::Next));
    let message = message_of(repl.feed(&mut dictionary, ""));
    assert_eq!(message, "Input `correct` has incorrect format");
    assert_eq!(repl.awaiting(), Prompt::Correct);

    assert!(matches!(repl.feed(&mut dictionary, "at***"), Reply::Next));
    assert!(matches!(repl.feed(&mut dictionary, "12345"), Reply::Next));
    let message = message_of(repl.feed(&mut dictionary, ""));
    assert_eq!(message, "Input `misplaced` has incorrect format");

    assert!(matches!(repl.feed(&mut dictionary, "at***"), Reply::Next));
    assert!(matches!(repl.feed(&mut dictionary, "*****"), Reply::Next));
    let message = message_of(repl.feed(&mut dictionary, "s"));
    assert_eq!(message, "Input `incorrect` has incorrect format");
    assert_eq!(dictionary.words().len(), 4);
}

#[test]
fn session_keeps_excluded_letters_across_rounds() {
    let mut dictionary = vocabulary();
    let mut repl = Repl::new();
    repl.feed(&mut dictionary, "*****");
    repl.feed(&mut dictionary, "*****");
    let words = words_of(repl.feed(&mut dictionary, "z****"));
    assert_eq!(
        words,
        vec![String::from("apple"), String::from("atria"), String::from("atoms")]
    );
    repl.feed(&mut dictionary, "*****");
    repl.feed(&mut dictionary, "*****");
    let words = words_of(repl.feed(&mut dictionary, "****s"));
    assert_eq!(words, vec![String::from("apple"), String::from("atria")]);
}

#[test]
fn rejected_round_excludes_nothing() {
    let mut dictionary = vocabulary();
    let mut repl = Repl::new();
    repl.feed(&mut dictionary, "*****");
    repl.feed(&mut dictionary, "****");
    message_of(repl.feed(&mut dictionary, "a****"));
    repl.feed(&mut dictionary, "*****");
    repl.feed(&mut dictionary, "*****");
    let words = words_of(repl.feed(&mut dictionary, "z****"));
    assert_eq!(
        words,
        vec![String::from("apple"), String::from("atria"), String::from("atoms")]
    );
}

#[test]
fn single_pass_narrows_and_lists() {
    let mut dictionary = vocabulary();
    assert_eq!(
        single_pass(&mut dictionary, "at***", "*****", "s"),
        Ok(vec![String::from("atria")])
    );
}

#[test]
fn single_pass_with_the_defaults_lists_everything() {
    let mut dictionary = vocabulary();
    assert_eq!(
        single_pass(&mut dictionary, "*****", "*****", ""),
        Ok(vec![
            String::from("apple"),
            String::from("atria"),
            String::from("atoms"),
            String::from("zebra"),
        ])
    );
}

#[test]
fn single_pass_reports_the_first_malformed_pattern() {
    let mut dictionary = vocabulary();
    assert_eq!(
        single_pass(&mut dictionary, "******", "****", ""),
        Err(String::from("Input `correct` has incorrect format"))
    );
    assert_eq!(
        single_pass(&mut dictionary, "*****", "****", ""),
        Err(String::from("Input `misplaced` has incorrect format"))
    );
    assert_eq!(dictionary.words().len(), 4);
}

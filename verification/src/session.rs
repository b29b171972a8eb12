//! The two ways to use a dictionary: one pass over three patterns, and a
//! session of rounds that takes its patterns line by line.
//!
//! Neither reads or prints. A caller hands over what it has read and acts on
//! what comes back.
use crate::dictionary::Dictionary;
use crate::letters::LetterSet;
use crate::text::{same_text, views};
use crate::util::{
    invalid_format_text, is_pattern, pattern_letters, update_missing_letters, validate_input,
};
use vstd::prelude::*;
use vstd::string::StringExecFns;

verus! {

/// The line that ends a session.
pub open spec fn exit_command() -> Seq<char> {
    ".exit"@
}

/// One of the three inputs of a round.
#[derive(Clone, Copy, Debug, PartialEq, Eq)]
pub enum Prompt {
    Correct,
    Misplaced,
    Incorrect,
}

/// What an input is called in prompts and messages.
pub open spec fn input_name(prompt: Prompt) -> Seq<char> {
    match prompt {
        Prompt::Correct => "correct"@,
        Prompt::Misplaced => "misplaced"@,
        Prompt::Incorrect => "incorrect"@,
    }
}

/// The first of the three inputs of a round, in the order in which they were
/// asked for, that does not have the form of a pattern.
pub open spec fn first_malformed(
    correct: Seq<char>,
    misplaced: Seq<char>,
    incorrect: Seq<char>,
) -> Option<Prompt> {
    if !is_pattern(correct) {
        Some(Prompt::Correct)
    } else if !is_pattern(misplaced) {
        Some(Prompt::Misplaced)
    } else if !is_pattern(incorrect) {
        Some(Prompt::Incorrect)
    } else {
        None
    }
}

/// What the caller of a session does after it has handed over a line.
pub enum Reply {
    /// Ask for the next input.
    Next,
    /// End the session.
    Quit,
    /// Report the message, then ask for the first input of a new round.
    Invalid(String),
    /// Show the words, then ask for the first input of a new round.
    Words(Vec<String>),
}

/// The state of a session: the input it waits for, the inputs of the round
/// that it has, and the letters excluded so far.
pub struct Repl {
    awaiting: Prompt,
    correct: String,
    misplaced: String,
    missing: LetterSet,
}

/// The state of a session as contracts speak of it.
pub ghost struct ReplState {
    pub awaiting: Prompt,
    pub correct: Seq<char>,
    pub misplaced: Seq<char>,
    pub missing: Set<char>,
}

impl View for Repl {
    type V = ReplState;

    closed spec fn view(&self) -> ReplState {
        ReplState {
            awaiting: self.awaiting,
            correct: self.correct@,
            misplaced: self.misplaced@,
            missing: self.missing@,
        }
    }
}

/// Whether `line` completes a round with three well-formed patterns.
pub open spec fn completes_round(state: ReplState, line: Seq<char>) -> bool {
    &&& line != exit_command()
    &&& state.awaiting is Incorrect
    &&& first_malformed(state.correct, state.misplaced, line) is None
}

/// The state of a session after `line`. The exit command changes nothing. A
/// first or second input is kept, and the next one awaited. A third input
/// ends the round: where the three are well formed its letters join the
/// excluded ones, and in any case the first input of a new round is awaited.
pub open spec fn state_after(state: ReplState, line: Seq<char>) -> ReplState {
    if line == exit_command() {
        state
    } else {
        match state.awaiting {
            Prompt::Correct => ReplState { awaiting: Prompt::Misplaced, correct: line, ..state },
            Prompt::Misplaced => ReplState {
                awaiting: Prompt::Incorrect,
                misplaced: line,
                ..state
            },
            Prompt::Incorrect => ReplState {
                awaiting: Prompt::Correct,
                missing: if completes_round(state, line) {
                    state.missing.union(pattern_letters(line))
                } else {
                    state.missing
                },
                ..state
            },
        }
    }
}

impl Prompt {
    /// What the input is called in prompts and messages.
    pub fn name(self) -> (text: &'static str)
        ensures
            text@ == input_name(self),
    {
        match self {
            Prompt::Correct => "correct",
            Prompt::Misplaced => "misplaced",
            Prompt::Incorrect => "incorrect",
        }
    }
}

impl Repl {
    /// A session that waits for the first input of its first round, with no
    /// letter excluded.
    pub fn new() -> (repl: Repl)
        ensures
            repl@ == (ReplState {
                awaiting: Prompt::Correct,
                correct: Seq::empty(),
                misplaced: Seq::empty(),
                missing: Set::empty(),
            }),
    {
        Repl {
            awaiting: Prompt::Correct,
            correct: String::new(),
            misplaced: String::new(),
            missing: LetterSet::new(),
        }
    }

    /// The input that the session waits for.
    pub fn awaiting(&self) -> (prompt: Prompt)
        ensures
            prompt == self@.awaiting,
    {
        self.awaiting
    }

    /// Takes the next line of input, trimmed, and says what to do.
    ///
    /// The exit command ends the session whatever input is awaited. A round
    /// of three well-formed patterns narrows `dictionary` and yields its
    /// words; a round with a malformed input yields the message for the first
    /// such input and leaves `dictionary` as it was.
    pub fn feed(&mut self, dictionary: &mut Dictionary, line: &str) -> (reply: Reply)
        requires
            old(dictionary).wf(),
        ensures
            final(self)@ == state_after(old(self)@, line@),
            final(dictionary).wf(),
            if completes_round(old(self)@, line@) {
                final(dictionary).is_filtered(
                    *old(dictionary),
                    old(self)@.correct,
                    old(self)@.misplaced,
                    final(self)@.missing,
                )
            } else {
                *final(dictionary) == *old(dictionary)
            },
            match reply {
                Reply::Quit => line@ == exit_command(),
                Reply::Next => line@ != exit_command() && !(old(self)@.awaiting is Incorrect),
                Reply::Invalid(message) => {
                    &&& line@ != exit_command()
                    &&& old(self)@.awaiting is Incorrect
                    &&& first_malformed(old(self)@.correct, old(self)@.misplaced, line@)
                        matches Some(input)
                    &&& message@ == invalid_format_text(input_name(input))
                },
                Reply::Words(list) => {
                    &&& completes_round(old(self)@, line@)
                    &&& views(list@) == final(dictionary).enumeration()
                },
            },
    {
        proof {
            reveal_strlit(".exit");
        }
        if same_text(line, ".exit") {
            return Reply::Quit;
        }
        match self.awaiting {
            Prompt::Correct => {
                self.correct = String::from_str(line);
                self.awaiting = Prompt::Misplaced;
                Reply::Next
            },
            Prompt::Misplaced => {
                self.misplaced = String::from_str(line);
                self.awaiting = Prompt::Incorrect;
                Reply::Next
            },
            Prompt::Incorrect => {
                self.awaiting = Prompt::Correct;
                let correct = validate_input(self.correct.as_str(), Prompt::Correct.name());
                let misplaced = validate_input(self.misplaced.as_str(), Prompt::Misplaced.name());
                let incorrect = validate_input(line, Prompt::Incorrect.name());
                if let Err(message) = correct {
                    return Reply::Invalid(message);
                }
                if let Err(message) = misplaced {
                    return Reply::Invalid(message);
                }
                if let Err(message) = incorrect {
                    return Reply::Invalid(message);
                }
                update_missing_letters(line, &mut self.missing);
                dictionary.filter_words(
                    self.correct.as_str(),
                    self.misplaced.as_str(),
                    &self.missing,
                );
                Reply::Words(dictionary.words())
            },
        }
    }
}

/// One pass: checks `correct` and `misplaced`, narrows `dictionary` by them
/// and by the letters that `incorrect` names, and gives the words that are
/// left. Where a pattern is malformed, the message for the first such
/// pattern comes back and `dictionary` stays as it was.
pub fn single_pass(
    dictionary: &mut Dictionary,
    correct: &str,
    misplaced: &str,
    incorrect: &str,
) -> (outcome: Result<Vec<String>, String>)
    requires
        old(dictionary).wf(),
    ensures
        final(dictionary).wf(),
        outcome is Ok <==> is_pattern(correct@) && is_pattern(misplaced@),
        match outcome {
            Ok(list) => {
                &&& final(dictionary).is_filtered(
                    *old(dictionary),
                    correct@,
                    misplaced@,
                    pattern_letters(incorrect@),
                )
                &&& views(list@) == final(dictionary).enumeration()
            },
            Err(message) => {
                &&& *final(dictionary) == *old(dictionary)
                &&& message@ == invalid_format_text(
                    input_name(
                        if is_pattern(correct@) {
                            Prompt::Misplaced
                        } else {
                            Prompt::Correct
                        },
                    ),
                )
            },
        },
{
    let correct_checked = validate_input(correct, Prompt::Correct.name());
    let misplaced_checked = validate_input(misplaced, Prompt::Misplaced.name());
    if let Err(message) = correct_checked {
        return Err(message);
    }
    if let Err(message) = misplaced_checked {
        return Err(message);
    }
    let mut missing = LetterSet::new();
    update_missing_letters(incorrect, &mut missing);
    assert(missing@ =~= pattern_letters(incorrect@));
    dictionary.filter_words(correct, misplaced, &missing);
    Ok(dictionary.words())
}

} // verus!

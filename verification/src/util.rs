//! Pattern strings: their validation, and the constraints derived from them.
//!
//! A pattern has one character per position of the word. `*` leaves the
//! position open; any other character names a letter.
use crate::letters::{occurrences, satisfies, LetterCounts, LetterSet};
use crate::text::{is_alphabetic_char, to_chars};
use vstd::prelude::*;
use vstd::string::StringExecFns;

verus! {

/// The length of every word and pattern, in characters.
pub const WORD_LENGTH: usize = 5;

/// The character that leaves a position of a pattern open.
pub const WILDCARD: char = '*';

/// Whether `input` has the form of a pattern: `WORD_LENGTH` characters, each
/// alphabetic or the wildcard.
pub open spec fn is_pattern(input: Seq<char>) -> bool {
    &&& input.len() == WORD_LENGTH
    &&& forall|i: int|
        0 <= i < input.len() ==> is_alphabetic_char(#[trigger] input[i]) || input[i] == WILDCARD
}

/// The message that reports the input called `name` as malformed.
pub open spec fn invalid_format_text(name: Seq<char>) -> Seq<char> {
    "Input `"@ + name + "` has incorrect format"@
}

/// The letters that `pattern` names.
pub open spec fn pattern_letters(pattern: Seq<char>) -> Set<char> {
    Set::new(|c: char| c != WILDCARD && pattern.contains(c))
}

/// For each letter that `pattern` names, how often it names it.
pub open spec fn required_counts(pattern: Seq<char>) -> Map<char, int> {
    Map::new(
        |c: char| c != WILDCARD && pattern.contains(c),
        |c: char| occurrences(pattern, c) as int,
    )
}

/// The minimum counts that a word must meet when `correct` and `misplaced`
/// describe it: each letter as often as both patterns together name it.
pub open spec fn letter_requirements(correct: Seq<char>, misplaced: Seq<char>) -> Map<char, int> {
    required_counts(correct + misplaced)
}

/// Appending `c` to `s` adds one occurrence of `c` and none of any other
/// letter.
pub proof fn lemma_occurrences_push(s: Seq<char>, c: char)
    ensures
        occurrences(s.push(c), c) == occurrences(s, c) + 1,
        forall|x: char| x != c ==> occurrences(s.push(c), x) == occurrences(s, x),
        forall|x: char| s.push(c).contains(x) <==> s.contains(x) || x == c,
{
    s.to_multiset_ensures();
    assert(s.push(c).to_multiset() =~= s.to_multiset().insert(c));
    assert forall|x: char| s.push(c).contains(x) <==> s.contains(x) || x == c by {
        if s.contains(x) {
            let j = choose|j: int| 0 <= j < s.len() && s[j] == x;
            assert(s.push(c)[j] == x);
        }
        if x == c {
            assert(s.push(c)[s.len() as int] == c);
        }
    }
}

/// A letter occurs in a sequence exactly when its number of occurrences is
/// positive, and never more often than the sequence is long.
pub proof fn lemma_occurrences_bounds(s: Seq<char>, c: char)
    ensures
        s.contains(c) <==> occurrences(s, c) > 0,
        occurrences(s, c) <= s.len(),
{
    s.to_multiset_ensures();
}

/// Whether `c` may stand in a pattern, given whether it is alphabetic: a
/// letter may, and the wildcard.
pub fn fits_pattern(c: char, alphabetic: bool) -> (fits: bool)
    ensures
        fits == (alphabetic || c == WILDCARD),
{
    alphabetic || c == WILDCARD
}

/// Checks that `input` has the form of a pattern; `name` is what the error
/// message calls it.
pub fn validate_input(input: &str, name: &str) -> (r: Result<(), String>)
    ensures
        r is Ok <==> is_pattern(input@),
        r matches Err(msg) ==> msg@ == invalid_format_text(name@),
{
    let chars = to_chars(input);
    if chars.len() != WORD_LENGTH {
        return Err(invalid_format_msg(name));
    }
    let mut i: usize = 0;
    while i < chars.len()
        invariant
            i <= chars.len(),
            chars@ == input@,
            chars.len() == WORD_LENGTH,
            forall|j: int|
                0 <= j < i ==> is_alphabetic_char(#[trigger] input@[j]) || input@[j] == WILDCARD,
        decreases chars.len() - i,
    {
        let c = chars[i];
        if !fits_pattern(c, c.is_alphabetic()) {
            return Err(invalid_format_msg(name));
        }
        i += 1;
    }
    Ok(())
}

/// The message that reports the input called `name` as malformed.
pub fn invalid_format_msg(name: &str) -> (msg: String)
    ensures
        msg@ == invalid_format_text(name@),
{
    let mut msg = String::from_str("Input `");
    msg.append(name);
    msg.append("` has incorrect format");
    msg
}

/// How often `c` occurs in `chars`.
pub fn count_letter(chars: &Vec<char>, c: char) -> (n: usize)
    ensures
        n == occurrences(chars@, c),
{
    let mut n: usize = 0;
    let mut i: usize = 0;
    proof {
        lemma_occurrences_bounds(chars@.take(0), c);
    }
    while i < chars.len()
        invariant
            i <= chars.len(),
            n == occurrences(chars@.take(i as int), c),
            n <= i,
        decreases chars.len() - i,
    {
        proof {
            lemma_occurrences_push(chars@.take(i as int), chars@[i as int]);
            assert(chars@.take(i + 1) == chars@.take(i as int).push(chars@[i as int]));
        }
        if chars[i] == c {
            n += 1;
        }
        i += 1;
    }
    assert(chars@.take(chars.len() as int) == chars@);
    n
}

/// The minimum counts that `correct_letters` and `misplaced_letters` ask of a
/// word: each letter as often as the two patterns together name it.
pub fn get_letter_counts(correct_letters: &str, misplaced_letters: &str) -> (counts: LetterCounts)
    requires
        correct_letters@.len() + misplaced_letters@.len() <= isize::MAX,
    ensures
        counts@ == letter_requirements(correct_letters@, misplaced_letters@),
{
    let mut named = to_chars(correct_letters);
    let mut rest = to_chars(misplaced_letters);
    named.append(&mut rest);
    assert(named@ == correct_letters@ + misplaced_letters@);
    let mut counts = LetterCounts::new();
    let mut i: usize = 0;
    assert(counts@ =~= required_counts(named@.take(0)));
    while i < named.len()
        invariant
            i <= named.len(),
            named.len() <= isize::MAX,
            counts@ == required_counts(named@.take(i as int)),
        decreases named.len() - i,
    {
        let c = named[i];
        proof {
            lemma_occurrences_push(named@.take(i as int), c);
            lemma_occurrences_bounds(named@.take(i as int), c);
            assert(named@.take(i + 1) == named@.take(i as int).push(c));
        }
        if c != WILDCARD {
            let seen: isize = match counts.get(c) {
                Some(n) => n,
                None => 0,
            };
            counts.set(c, seen + 1);
        }
        i += 1;
        assert(counts@ =~= required_counts(named@.take(i as int)));
    }
    assert(named@.take(named.len() as int) == named@);
    counts
}

/// Whether the characters `word` meet every minimum count of
/// `letter_counts`.
pub fn chars_have_letter_counts(word: &Vec<char>, letter_counts: &LetterCounts) -> (met: bool)
    ensures
        met == satisfies(word@, letter_counts@),
{
    let entries = letter_counts.entries();
    let mut i: usize = 0;
    while i < entries.len()
        invariant
            i <= entries.len(),
            forall|k: int|
                0 <= k < entries@.len() ==> letter_counts@.contains_key(#[trigger] entries@[k].0)
                    && letter_counts@[entries@[k].0] == entries@[k].1,
            forall|k: int|
                0 <= k < i ==> (#[trigger] entries@[k]).1 <= occurrences(word@, entries@[k].0),
        decreases entries.len() - i,
    {
        let letter = entries[i].0;
        let wanted = entries[i].1;
        let found = count_letter(word, letter);
        if wanted > 0 && found <= isize::MAX as usize && (found as isize) < wanted {
            assert(letter_counts@.contains_key(entries@[i as int].0));
            return false;
        }
        i += 1;
    }
    assert forall|c: char| #[trigger] letter_counts@.contains_key(c) implies letter_counts@[c]
        <= occurrences(word@, c) by {
        let k = choose|k: int| 0 <= k < entries@.len() && entries@[k].0 == c;
        assert(entries@[k].1 <= occurrences(word@, entries@[k].0));
    }
    true
}

/// Whether `word` meets every minimum count of `letter_counts`.
pub fn has_letter_counts(word: &str, letter_counts: &LetterCounts) -> (met: bool)
    ensures
        met == satisfies(word@, letter_counts@),
{
    let chars = to_chars(word);
    chars_have_letter_counts(&chars, letter_counts)
}

/// Adds the letters that `incorrect` names to `missing`.
pub fn update_missing_letters(incorrect: &str, missing: &mut LetterSet)
    ensures
        final(missing)@ == old(missing)@.union(pattern_letters(incorrect@)),
{
    let chars = to_chars(incorrect);
    let mut i: usize = 0;
    assert(missing@ =~= old(missing)@.union(pattern_letters(chars@.take(0))));
    while i < chars.len()
        invariant
            i <= chars.len(),
            missing@ == old(missing)@.union(pattern_letters(chars@.take(i as int))),
        decreases chars.len() - i,
    {
        let c = chars[i];
        proof {
            lemma_occurrences_push(chars@.take(i as int), c);
            assert(chars@.take(i + 1) == chars@.take(i as int).push(c));
        }
        if c != WILDCARD {
            missing.insert(c);
        }
        i += 1;
        proof {
            let before = chars@.take(i - 1);
            let after = chars@.take(i as int);
            assert(after == before.push(c));
            assert forall|x: char|
                pattern_letters(after).contains(x) <==> pattern_letters(before).contains(x) || (x
                    == c && c != WILDCARD) by {
                assert(after.contains(x) <==> before.contains(x) || x == c);
            }
            assert(missing@ =~= old(missing)@.union(pattern_letters(after)));
        }
    }
    assert(chars@.take(chars.len() as int) == chars@);
}

} // verus!

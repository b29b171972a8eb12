//! The vocabulary that a session narrows round by round.
use crate::letters::LetterSet;
use crate::pruning::round_constraints;
use crate::text::{lowercase_of, views};
use crate::trie::Trie;
use crate::util::{get_letter_counts, WORD_LENGTH};
use vstd::prelude::*;
use vstd::string::StrSliceExecFns;

verus! {

/// A vocabulary, or nothing: a dictionary is absent once a round has dropped
/// the whole tree. The view of a dictionary is the set of its words, empty
/// where it is absent.
pub struct Dictionary {
    trie: Option<Trie>,
}

impl View for Dictionary {
    type V = Set<Seq<char>>;

    closed spec fn view(&self) -> Set<Seq<char>> {
        match self.trie {
            Some(trie) => trie@,
            None => Set::empty(),
        }
    }
}

/// Whether the loader takes `line` for a word: it is `WORD_LENGTH` characters
/// long.
pub open spec fn is_word_line(line: Seq<char>) -> bool {
    line.len() == WORD_LENGTH
}

/// The words that the loader makes of `lines`: the lowercase form of each
/// line that it takes for a word.
pub open spec fn loaded_words(lines: Seq<Seq<char>>) -> Set<Seq<char>> {
    Set::new(
        |word: Seq<char>|
            exists|i: int|
                0 <= i < lines.len() && is_word_line(#[trigger] lines[i]) && word == lowercase_of(
                    lines[i],
                ),
    )
}

impl Dictionary {
    /// The tree of the dictionary, where it has one, is well formed.
    pub closed spec fn wf(self) -> bool {
        self.trie matches Some(trie) ==> trie.wf()
    }

    /// Whether the dictionary holds a tree.
    pub closed spec fn is_present(self) -> bool {
        self.trie is Some
    }

    /// The words of the dictionary in the order in which `words` gives them.
    pub closed spec fn enumeration(self) -> Seq<Seq<char>> {
        match self.trie {
            Some(trie) => trie.enumeration(),
            None => Seq::empty(),
        }
    }

    /// Whether `self` is what a round with these constraints leaves of
    /// `before`: absent where `before` was absent or pruning drops its root,
    /// else the words of `before` that pruning keeps, in the order in which
    /// `before` lists them. The minimum counts are those that the two
    /// patterns ask for.
    pub open spec fn is_filtered(
        self,
        before: Dictionary,
        correct: Seq<char>,
        misplaced: Seq<char>,
        excluded: Set<char>,
    ) -> bool {
        let round = round_constraints(correct, misplaced, excluded);
        &&& self.wf()
        &&& self.is_present() <==> before.is_present() && round.keeps(before@, Seq::empty())
        &&& self@ == if self.is_present() {
            round.pruned_words(before@)
        } else {
            Set::empty()
        }
        &&& self.enumeration() == if self.is_present() {
            round.pruned_listing(before.enumeration(), before@)
        } else {
            Seq::empty()
        }
    }

    /// A round leaves an absent dictionary absent, whatever its constraints:
    /// what it leaves has no words and lists none.
    pub proof fn lemma_absent_stays_absent(
        self,
        before: Dictionary,
        correct: Seq<char>,
        misplaced: Seq<char>,
        excluded: Set<char>,
    )
        requires
            !before.is_present(),
            self.is_filtered(before, correct, misplaced, excluded),
        ensures
            !self.is_present(),
            self@ == Set::<Seq<char>>::empty(),
            self.enumeration() == Seq::<Seq<char>>::empty(),
    {
    }

    /// The enumeration of a dictionary holds each of its words once, and
    /// nothing else.
    pub proof fn lemma_enumeration(self)
        requires
            self.wf(),
        ensures
            self.enumeration().no_duplicates(),
            self.enumeration().to_set() == self@,
            !self.is_present() ==> self.enumeration().len() == 0,
    {
        match self.trie {
            Some(trie) => {
                trie.lemma_enumeration();
            },
            None => {
                assert(self.enumeration().to_set() =~= self@);
            },
        }
    }

    /// The dictionary that holds `words`.
    pub fn from(words: Vec<String>) -> (d: Dictionary)
        ensures
            d.wf(),
            d.is_present(),
            d@ == views(words@).to_set(),
    {
        Dictionary { trie: Some(Trie::from(words)) }
    }

    /// The dictionary of the lines of a word list: of each line that is
    /// `WORD_LENGTH` characters long, its lowercase form. Nothing, where no
    /// line is.
    pub fn from_lines(lines: Vec<String>) -> (loaded: Option<Dictionary>)
        ensures
            loaded is Some <==> exists|i: int|
                0 <= i < lines@.len() && is_word_line(#[trigger] views(lines@)[i]),
            loaded matches Some(d) ==> d.wf() && d.is_present() && d@ == loaded_words(
                views(lines@),
            ),
    {
        let mut words: Vec<String> = Vec::new();
        let mut i: usize = 0;
        let ghost all = views(lines@);
        assert(views(words@).to_set() =~= loaded_words(all.take(0)));
        while i < lines.len()
            invariant
                i <= lines@.len(),
                all == views(lines@),
                views(words@).to_set() == loaded_words(all.take(i as int)),
                words@.len() > 0 <==> exists|k: int| 0 <= k < i && is_word_line(#[trigger] all[k]),
            decreases lines@.len() - i,
        {
            let line = lines[i].as_str();
            let ghost before = views(words@);
            assert(line@ == all[i as int]);
            if line.unicode_len() == WORD_LENGTH {
                words.push(line.to_lowercase());
                assert(views(words@) =~= before.push(lowercase_of(line@)));
            }
            i += 1;
            proof {
                let seen = all.take(i - 1);
                let now = all.take(i as int);
                assert(now =~= seen.push(line@));
                assert forall|w: Seq<char>|
                    loaded_words(now).contains(w) <==> loaded_words(seen).contains(w) || (
                    is_word_line(line@) && w == lowercase_of(line@)) by {
                    if loaded_words(seen).contains(w) {
                        let k = choose|k: int|
                            0 <= k < seen.len() && is_word_line(#[trigger] seen[k]) && w
                                == lowercase_of(seen[k]);
                        assert(now[k] == seen[k]);
                    }
                    if is_word_line(line@) && w == lowercase_of(line@) {
                        assert(now[i - 1] == line@);
                    }
                    if loaded_words(now).contains(w) {
                        let k = choose|k: int|
                            0 <= k < now.len() && is_word_line(#[trigger] now[k]) && w
                                == lowercase_of(now[k]);
                        if k < i - 1 {
                            assert(seen[k] == now[k]);
                        }
                    }
                }
                assert forall|w: Seq<char>|
                    views(words@).contains(w) <==> before.contains(w) || (is_word_line(line@)
                        && w == lowercase_of(line@)) by {
                    if is_word_line(line@) {
                        if before.contains(w) {
                            let k = choose|k: int| 0 <= k < before.len() && before[k] == w;
                            assert(views(words@)[k] == w);
                        }
                        if w == lowercase_of(line@) {
                            assert(views(words@)[before.len() as int] == w);
                        }
                    }
                }
                assert(views(words@).to_set() =~= loaded_words(now));
                if exists|k: int| 0 <= k < i && is_word_line(#[trigger] all[k]) {
                    let k = choose|k: int| 0 <= k < i && is_word_line(#[trigger] all[k]);
                    if k < i - 1 {
                        assert(is_word_line(all[k]));
                    }
                }
            }
        }
        assert(all.take(lines@.len() as int) == all);
        if words.len() == 0 {
            return None;
        }
        Some(Dictionary::from(words))
    }

    /// The words of the dictionary, each once; none where it is absent.
    pub fn words(&self) -> (list: Vec<String>)
        requires
            self.wf(),
        ensures
            views(list@) == self.enumeration(),
            views(list@).no_duplicates(),
            views(list@).to_set() == self@,
            !self.is_present() ==> list@.len() == 0,
    {
        proof {
            self.lemma_enumeration();
        }
        match &self.trie {
            Some(trie) => trie.words(),
            None => {
                let list: Vec<String> = Vec::new();
                assert(views(list@) =~= self.enumeration());
                list
            },
        }
    }

    /// Narrows the dictionary to the words that are compatible with the
    /// constraints: `correct_letters` pins letters, `misplaced_letters` bars
    /// letters from positions, the two together set the minimum counts, and
    /// `missing_letters` are excluded from every position that is not pinned.
    /// An absent dictionary stays absent. The minimum counts of a present one
    /// must fit an `isize`.
    pub fn filter_words(
        &mut self,
        correct_letters: &str,
        misplaced_letters: &str,
        missing_letters: &LetterSet,
    )
        requires
            old(self).wf(),
            old(self).is_present() ==> correct_letters@.len() + misplaced_letters@.len()
                <= isize::MAX,
        ensures
            final(self).is_filtered(
                *old(self),
                correct_letters@,
                misplaced_letters@,
                missing_letters@,
            ),
    {
        let pruned = match &self.trie {
            Some(trie) => {
                let letter_counts = get_letter_counts(correct_letters, misplaced_letters);
                trie.pruned_copy(
                    correct_letters,
                    misplaced_letters,
                    &letter_counts,
                    missing_letters,
                    String::new(),
                )
            },
            None => None,
        };
        self.trie = pruned;
    }
}

} // verus!

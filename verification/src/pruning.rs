//! What pruning keeps, stated over sets of words.
//!
//! Pruning walks a tree from its root, one position of the patterns per
//! level, and stops at the first word on each path. These functions say which
//! paths the walk reaches and which of them it keeps, given only the words and
//! nodes of the tree.
use crate::letters::satisfies;
use crate::util::{letter_requirements, WILDCARD};
use vstd::prelude::*;

verus! {

/// What a walk goes by: the two patterns from the level of its root on, the
/// excluded letters, the minimum counts, and the letters that stand before
/// the root and count towards them.
pub ghost struct Constraints {
    pub correct: Seq<char>,
    pub misplaced: Seq<char>,
    pub excluded: Set<char>,
    pub requirements: Map<char, int>,
    pub prefix: Seq<char>,
}

/// The constraints of a round on a whole tree: the minimum counts are those
/// that the two patterns ask for, and nothing stands before the root.
pub open spec fn round_constraints(
    correct: Seq<char>,
    misplaced: Seq<char>,
    excluded: Set<char>,
) -> Constraints {
    Constraints {
        correct,
        misplaced,
        excluded,
        requirements: letter_requirements(correct, misplaced),
        prefix: Seq::empty(),
    }
}

impl Constraints {
    /// Whether both patterns have a position `i`.
    pub open spec fn has_position(self, i: int) -> bool {
        0 <= i < self.correct.len() && i < self.misplaced.len()
    }

    /// Whether the patterns let `letter` stand at position `i`. Where
    /// `correct` pins a letter, only that letter may stand there. Elsewhere
    /// any letter may that `misplaced` does not name at `i` and that is not
    /// excluded.
    pub open spec fn admits(self, i: int, letter: char) -> bool {
        if self.correct[i] == WILDCARD {
            letter != self.misplaced[i] && !self.excluded.contains(letter)
        } else {
            letter == self.correct[i]
        }
    }

    /// The constraints of the walk from the child under `letter`: the
    /// patterns without their first position, and `letter` at the end of the
    /// prefix.
    pub open spec fn below(self, letter: char) -> Constraints {
        Constraints {
            correct: self.correct.skip(1),
            misplaced: self.misplaced.skip(1),
            prefix: self.prefix.push(letter),
            ..self
        }
    }

    /// Whether the walk takes step `i` of `path`: both patterns have a
    /// position `i`, they admit the letter of `path` there, and no word ends
    /// where the step starts.
    pub open spec fn takes_step(self, words: Set<Seq<char>>, path: Seq<char>, i: int) -> bool {
        &&& self.has_position(i)
        &&& self.admits(i, path[i])
        &&& !words.contains(path.take(i))
    }

    /// Whether the walk takes every step of `path`.
    pub open spec fn reaches(self, words: Set<Seq<char>>, path: Seq<char>) -> bool {
        forall|i: int| 0 <= i < path.len() ==> #[trigger] self.takes_step(words, path, i)
    }

    /// Whether pruning keeps the node at `path`: the walk reaches it, and
    /// either it ends a word that, behind the prefix, meets the minimum
    /// counts, or it ends no word and both patterns go on.
    pub open spec fn keeps(self, words: Set<Seq<char>>, path: Seq<char>) -> bool {
        &&& self.reaches(words, path)
        &&& if words.contains(path) {
            satisfies(self.prefix + path, self.requirements)
        } else {
            self.has_position(path.len() as int)
        }
    }

    /// The test by which pruning keeps the node at a path.
    pub open spec fn keeper(self, words: Set<Seq<char>>) -> spec_fn(Seq<char>) -> bool {
        |path: Seq<char>| self.keeps(words, path)
    }

    /// The words that pruning keeps of a tree with these `words`.
    pub open spec fn pruned_words(self, words: Set<Seq<char>>) -> Set<Seq<char>> {
        Set::new(|word: Seq<char>| words.contains(word) && self.keeps(words, word))
    }

    /// The nodes that pruning keeps of a tree with these `nodes` and `words`.
    pub open spec fn pruned_nodes(
        self,
        nodes: Set<Seq<char>>,
        words: Set<Seq<char>>,
    ) -> Set<Seq<char>> {
        Set::new(|path: Seq<char>| nodes.contains(path) && self.keeps(words, path))
    }

    /// What pruning leaves of a list of paths of a tree with these `words`:
    /// those that it keeps, in their order.
    pub open spec fn pruned_listing(
        self,
        listing: Seq<Seq<char>>,
        words: Set<Seq<char>>,
    ) -> Seq<Seq<char>> {
        listing.filter(self.keeper(words))
    }

    /// Whether `word` is compatible with the constraints: the patterns admit
    /// each of its letters at its position, and the word, behind the prefix,
    /// meets the minimum counts.
    pub open spec fn is_compatible(self, word: Seq<char>) -> bool {
        &&& forall|i: int| 0 <= i < word.len() ==> #[trigger] self.admits(i, word[i])
        &&& satisfies(self.prefix + word, self.requirements)
    }

    /// The walk from a node that ends no word, seen from its child under
    /// `letter`: it keeps the path `letter` then `rest` exactly when the
    /// patterns admit `letter` at their first position and the walk from the
    /// child keeps `rest`.
    pub proof fn lemma_step(
        self,
        words: Set<Seq<char>>,
        below: Set<Seq<char>>,
        letter: char,
        rest: Seq<char>,
    )
        requires
            !words.contains(Seq::empty()),
            self.has_position(0),
            forall|w: Seq<char>| #[trigger] below.contains(w) <==> words.contains(seq![letter] + w),
        ensures
            self.keeps(words, seq![letter] + rest) <==> self.admits(0, letter) && self.below(
                letter,
            ).keeps(below, rest),
    {
        let path = seq![letter] + rest;
        let next = self.below(letter);
        assert(path.take(0) =~= Seq::empty());
        assert(path[0] == letter);
        assert(self.prefix + path =~= next.prefix + rest);
        assert(below.contains(rest) <==> words.contains(path));
        assert forall|i: int| 0 <= i < rest.len() implies (next.takes_step(below, rest, i)
            <==> self.takes_step(words, path, i + 1)) by {
            assert(path.take(i + 1) =~= seq![letter] + rest.take(i));
            assert(below.contains(rest.take(i)) <==> words.contains(path.take(i + 1)));
            assert(path[i + 1] == rest[i]);
        }
        if self.reaches(words, path) {
            assert(self.takes_step(words, path, 0));
            assert forall|i: int| 0 <= i < rest.len() implies #[trigger] next.takes_step(
                below,
                rest,
                i,
            ) by {
                assert(self.takes_step(words, path, i + 1));
            }
        }
        if self.admits(0, letter) && next.reaches(below, rest) {
            assert forall|i: int| 0 <= i < path.len() implies #[trigger] self.takes_step(
                words,
                path,
                i,
            ) by {
                if i > 0 {
                    assert(next.takes_step(below, rest, i - 1));
                }
            }
        }
    }

    /// Where pruning drops a node, it keeps nothing below it.
    pub proof fn lemma_dropped(self, words: Set<Seq<char>>, path: Seq<char>)
        requires
            !self.keeps(words, Seq::empty()),
        ensures
            !self.keeps(words, path),
    {
        if path.len() > 0 {
            assert(path.take(0) =~= Seq::empty());
            assert(self.prefix + Seq::<char>::empty() =~= self.prefix);
            if self.reaches(words, path) {
                assert(self.takes_step(words, path, 0));
                assert(self.reaches(words, Seq::empty()));
            }
        } else {
            assert(path =~= Seq::empty());
        }
    }

    /// The walk stops at a word: it reaches no path that goes on below one.
    pub proof fn lemma_stops_at_word(self, words: Set<Seq<char>>, path: Seq<char>)
        requires
            words.contains(Seq::empty()),
            path.len() > 0,
        ensures
            !self.reaches(words, path),
    {
        assert(path.take(0) =~= Seq::empty());
        if self.reaches(words, path) {
            assert(self.takes_step(words, path, 0));
        }
    }

    /// Every word that pruning keeps is no longer than either pattern, has
    /// each pinned letter at its position, has at no open position the letter
    /// that `misplaced` names there or an excluded letter, and, behind the
    /// prefix, meets the minimum counts.
    pub proof fn lemma_kept_words_meet_constraints(self, words: Set<Seq<char>>, word: Seq<char>)
        requires
            self.pruned_words(words).contains(word),
        ensures
            words.contains(word),
            word.len() <= self.correct.len(),
            word.len() <= self.misplaced.len(),
            forall|i: int|
                0 <= i < word.len() && self.correct[i] != WILDCARD ==> #[trigger] word[i]
                    == self.correct[i],
            forall|i: int|
                0 <= i < word.len() && self.correct[i] == WILDCARD ==> #[trigger] word[i]
                    != self.misplaced[i] && !self.excluded.contains(word[i]),
            satisfies(self.prefix + word, self.requirements),
    {
        assert forall|i: int| 0 <= i < word.len() implies self.has_position(i) && self.admits(
            i,
            #[trigger] word[i],
        ) by {
            assert(self.takes_step(words, word, i));
        }
        if word.len() > 0 {
            assert(self.takes_step(words, word, word.len() - 1));
        }
    }

    /// Pruning drops every word that holds an excluded letter, unless
    /// `correct` pins that letter somewhere.
    pub proof fn lemma_excluded_letter_dropped(
        self,
        words: Set<Seq<char>>,
        word: Seq<char>,
        letter: char,
    )
        requires
            self.excluded.contains(letter),
            !self.correct.contains(letter),
            word.contains(letter),
        ensures
            !self.pruned_words(words).contains(word),
    {
        let i = choose|i: int| 0 <= i < word.len() && word[i] == letter;
        if self.pruned_words(words).contains(word) {
            assert(self.takes_step(words, word, i));
            assert(self.correct[i] != letter);
        }
    }

    /// Of a vocabulary of words as long as the patterns, pruning keeps
    /// exactly the words that are compatible with the constraints.
    pub proof fn lemma_fixed_length_pruning(self, words: Set<Seq<char>>)
        requires
            self.correct.len() == self.misplaced.len(),
            forall|w: Seq<char>| #[trigger] words.contains(w) ==> w.len() == self.correct.len(),
        ensures
            self.pruned_words(words) == words.filter(|w: Seq<char>| self.is_compatible(w)),
    {
        let kept = self.pruned_words(words);
        let compatible = words.filter(|w: Seq<char>| self.is_compatible(w));
        assert forall|w: Seq<char>| kept.contains(w) <==> compatible.contains(w) by {
            if kept.contains(w) {
                assert forall|i: int| 0 <= i < w.len() implies #[trigger] self.admits(i, w[i]) by {
                    assert(self.takes_step(words, w, i));
                }
            }
            if compatible.contains(w) {
                assert forall|i: int| 0 <= i < w.len() implies #[trigger] self.takes_step(
                    words,
                    w,
                    i,
                ) by {
                    assert(self.admits(i, w[i]));
                    assert(w.take(i).len() == i);
                }
            }
        }
        assert(kept =~= compatible);
    }
}

/// A round with patterns of wildcards alone and nothing excluded keeps every
/// word of a vocabulary of words as long as the patterns, none of which holds
/// the wildcard character. It keeps the root too, unless the patterns are
/// empty and so is the vocabulary.
pub proof fn lemma_wildcards_keep_all(
    words: Set<Seq<char>>,
    correct: Seq<char>,
    misplaced: Seq<char>,
)
    requires
        correct.len() == misplaced.len(),
        forall|i: int| 0 <= i < correct.len() ==> correct[i] == WILDCARD,
        forall|i: int| 0 <= i < misplaced.len() ==> misplaced[i] == WILDCARD,
        forall|w: Seq<char>| #[trigger]
            words.contains(w) ==> w.len() == correct.len() && !w.contains(WILDCARD),
    ensures
        round_constraints(correct, misplaced, Set::empty()).pruned_words(words) == words,
        correct.len() > 0 || words.contains(Seq::empty()) ==> round_constraints(
            correct,
            misplaced,
            Set::empty(),
        ).keeps(words, Seq::empty()),
{
    let round = round_constraints(correct, misplaced, Set::empty());
    round.lemma_fixed_length_pruning(words);
    assert forall|c: char| !round.requirements.contains_key(c) by {
        let named = correct + misplaced;
        if c != WILDCARD && named.contains(c) {
            let i = choose|i: int| 0 <= i < named.len() && named[i] == c;
            if i < correct.len() {
                assert(named[i] == correct[i]);
            } else {
                assert(named[i] == misplaced[i - correct.len()]);
            }
        }
    }
    assert forall|w: Seq<char>| words.contains(w) implies round.is_compatible(w) by {
        assert forall|i: int| 0 <= i < w.len() implies #[trigger] round.admits(i, w[i]) by {
            assert(w.contains(w[i]));
        }
    }
    assert(words.filter(|w: Seq<char>| round.is_compatible(w)) =~= words);
}

} // verus!

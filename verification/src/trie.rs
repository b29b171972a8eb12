//! The prefix tree that stores the vocabulary, and its pruning by letter
//! constraints.
use crate::letters::{LetterCounts, LetterSet};
use crate::pruning::Constraints;
use crate::text::{from_chars, to_chars, views};
use crate::util::{chars_have_letter_counts, WILDCARD};
use vstd::prelude::*;

verus! {

/// A node of a prefix tree over `char`, with the nodes below it.
///
/// Each child hangs under a letter of its own. A path is the sequence of
/// letters that leads from this node down to another; a word of the tree is a
/// path that ends at a node marked as the end of a word. The view of a tree
/// is the set of its words.
#[derive(Debug)]
pub struct Trie {
    children: Vec<(char, Trie)>,
    is_end_of_word: bool,
}

impl View for Trie {
    type V = Set<Seq<char>>;

    open spec fn view(&self) -> Set<Seq<char>> {
        Set::new(|word: Seq<char>| self.has_word(word))
    }
}

impl Default for Trie {
    /// The tree with the empty path as its only node, and no word.
    fn default() -> (t: Trie)
        ensures
            t.wf(),
            t@ == Set::<Seq<char>>::empty(),
            t.nodes() == set![Seq::<char>::empty()],
            t.enumeration() == Seq::<Seq<char>>::empty(),
            !t.is_terminal(),
    {
        Trie::new()
    }
}

impl Trie {
    /// No two children of a node hang under the same letter, here and below.
    pub closed spec fn wf(self) -> bool
        decreases self,
    {
        &&& forall|i: int, j: int|
            0 <= i < j < self.children@.len() ==> self.children@[i].0 != self.children@[j].0
        &&& forall|i: int|
            0 <= i < self.children@.len() ==> (#[trigger] self.children@[i]).1.wf()
    }

    /// Whether a word ends at this node.
    pub closed spec fn is_terminal(self) -> bool {
        self.is_end_of_word
    }

    spec fn child_index(self, letter: char) -> Option<int> {
        if exists|i: int| 0 <= i < self.children@.len() && self.children@[i].0 == letter {
            Some(choose|i: int| 0 <= i < self.children@.len() && self.children@[i].0 == letter)
        } else {
            None
        }
    }

    /// The node that `path` leads to, if the tree has one there.
    pub closed spec fn descend(self, path: Seq<char>) -> Option<Trie>
        decreases path.len(),
    {
        if path.len() == 0 {
            Some(self)
        } else {
            match self.child_index(path[0]) {
                Some(i) => self.children@[i].1.descend(path.drop_first()),
                None => None,
            }
        }
    }

    /// Whether the tree has a node at the end of `path`.
    pub open spec fn has_node(self, path: Seq<char>) -> bool {
        self.descend(path) is Some
    }

    /// Whether `word` is a word of the tree.
    pub open spec fn has_word(self, word: Seq<char>) -> bool {
        self.descend(word) matches Some(node) && node.is_terminal()
    }

    /// The paths of the tree: one for each node, the empty path for this one.
    pub open spec fn nodes(self) -> Set<Seq<char>> {
        Set::new(|path: Seq<char>| self.has_node(path))
    }

    /// Child `k` is the one that hangs under its letter.
    proof fn lemma_child_index(self, k: int)
        requires
            self.wf(),
            0 <= k < self.children@.len(),
        ensures
            self.child_index(self.children@[k].0) == Some(k),
            self.children@[k].1.wf(),
    {
    }

    /// What a path that starts with the letter of child `k` leads to.
    proof fn lemma_descend_child(self, k: int, rest: Seq<char>)
        requires
            self.wf(),
            0 <= k < self.children@.len(),
        ensures
            self.descend(seq![self.children@[k].0] + rest) == self.children@[k].1.descend(rest),
    {
        let path = seq![self.children@[k].0] + rest;
        self.lemma_child_index(k);
        assert(path[0] == self.children@[k].0);
        assert(path.drop_first() == rest);
    }

    /// A path whose first letter no child hangs under leads nowhere.
    proof fn lemma_descend_missing(self, path: Seq<char>)
        requires
            path.len() > 0,
            forall|i: int| 0 <= i < self.children@.len() ==> self.children@[i].0 != path[0],
        ensures
            self.descend(path) is None,
    {
    }

    /// The tree with the empty path as its only node, and no word.
    pub fn new() -> (t: Trie)
        ensures
            t.wf(),
            t@ == Set::<Seq<char>>::empty(),
            t.nodes() == set![Seq::<char>::empty()],
            t.enumeration() == Seq::<Seq<char>>::empty(),
            !t.is_terminal(),
    {
        let t = Trie { children: Vec::new(), is_end_of_word: false };
        proof {
            assert(t.listing(0) =~= Seq::<Seq<char>>::empty());
            assert forall|path: Seq<char>| t.has_node(path) <==> path == Seq::<char>::empty() by {
                if path.len() > 0 {
                    t.lemma_descend_missing(path);
                } else {
                    assert(path =~= Seq::<char>::empty());
                }
            }
            assert(t.nodes() =~= set![Seq::<char>::empty()]);
            assert(t@ =~= Set::<Seq<char>>::empty());
        }
        t
    }

    /// The place of the child that hangs under `letter`, if there is one.
    fn find_child(&self, letter: char) -> (r: Option<usize>)
        ensures
            match r {
                Some(i) => i < self.children@.len() && self.children@[i as int].0 == letter,
                None => forall|i: int|
                    0 <= i < self.children@.len() ==> self.children@[i].0 != letter,
            },
    {
        let mut i: usize = 0;
        while i < self.children.len()
            invariant
                i <= self.children.len(),
                forall|j: int| 0 <= j < i ==> self.children@[j].0 != letter,
            decreases self.children.len() - i,
        {
            if self.children[i].0 == letter {
                return Some(i);
            }
            i += 1;
        }
        None
    }

    /// Marking a node as the end of a word adds the empty path to its words
    /// and changes nothing else.
    proof fn lemma_marked(a: Trie, b: Trie, path: Seq<char>)
        requires
            a.children == b.children,
            b.is_end_of_word,
        ensures
            b.has_word(path) <==> a.has_word(path) || path.len() == 0,
            b.has_node(path) <==> a.has_node(path),
    {
    }

    /// A new childless node under a letter that had none adds the path of
    /// that one letter, and no word.
    proof fn lemma_child_added(a: Trie, b: Trie, letter: char, path: Seq<char>)
        requires
            a.wf(),
            b.wf(),
            b.is_end_of_word == a.is_end_of_word,
            b.children@.len() == a.children@.len() + 1,
            forall|i: int| 0 <= i < a.children@.len() ==> b.children@[i] == a.children@[i],
            forall|i: int| 0 <= i < a.children@.len() ==> a.children@[i].0 != letter,
            b.children@[a.children@.len() as int].0 == letter,
            b.children@[a.children@.len() as int].1.nodes() == set![Seq::<char>::empty()],
            !b.children@[a.children@.len() as int].1.is_end_of_word,
        ensures
            b.has_word(path) <==> a.has_word(path),
            b.has_node(path) <==> a.has_node(path) || path == seq![letter],
    {
        let last = a.children@.len() as int;
        if path.len() > 0 {
            let rest = path.drop_first();
            assert(path == seq![path[0]] + rest);
            if path[0] == letter {
                a.lemma_descend_missing(path);
                b.lemma_descend_child(last, rest);
                assert(b.children@[last].1.nodes().contains(rest) == b.children@[last].1.has_node(
                    rest,
                ));
                if rest.len() > 0 {
                    assert(rest != Seq::<char>::empty());
                    assert(path != seq![letter]);
                } else {
                    assert(path == seq![letter]);
                }
            } else {
                assert(path != seq![letter]);
                if exists|k: int| 0 <= k < a.children@.len() && a.children@[k].0 == path[0] {
                    let k = choose|k: int| 0 <= k < a.children@.len() && a.children@[k].0 == path[0];
                    a.lemma_descend_child(k, rest);
                    b.lemma_descend_child(k, rest);
                } else {
                    a.lemma_descend_missing(path);
                    b.lemma_descend_missing(path);
                }
            }
        } else {
            assert(path != seq![letter]);
        }
    }

    /// What a tree gains when the child under one letter gains `target`.
    proof fn lemma_child_grown(a: Trie, b: Trie, idx: int, target: Seq<char>, path: Seq<char>)
        requires
            a.wf(),
            b.wf(),
            b.is_end_of_word == a.is_end_of_word,
            b.children@.len() == a.children@.len(),
            0 <= idx < a.children@.len(),
            forall|i: int| 0 <= i < a.children@.len() ==> b.children@[i].0 == a.children@[i].0,
            forall|i: int|
                0 <= i < a.children@.len() && i != idx ==> b.children@[i] == a.children@[i],
            forall|q: Seq<char>| #[trigger]
                b.children@[idx].1.has_word(q) <==> a.children@[idx].1.has_word(q) || q == target,
            forall|q: Seq<char>| #[trigger]
                b.children@[idx].1.has_node(q) <==> a.children@[idx].1.has_node(q)
                    || q.is_prefix_of(target),
        ensures
            b.has_word(path) <==> a.has_word(path) || path == seq![a.children@[idx].0] + target,
            b.has_node(path) <==> a.has_node(path) || path.is_prefix_of(
                seq![a.children@[idx].0] + target,
            ),
    {
        let letter = a.children@[idx].0;
        let grown = seq![letter] + target;
        if path.len() > 0 {
            let rest = path.drop_first();
            assert(path == seq![path[0]] + rest);
            assert(path.is_prefix_of(grown) <==> path[0] == letter && rest.is_prefix_of(target))
                by {
                if path[0] == letter && rest.is_prefix_of(target) {
                    assert(path =~= grown.subrange(0, path.len() as int));
                }
                if path.is_prefix_of(grown) {
                    assert(path[0] == grown[0]);
                    assert(rest =~= target.subrange(0, rest.len() as int)) by {
                        assert forall|n: int| 0 <= n < rest.len() implies rest[n]
                            == target.subrange(0, rest.len() as int)[n] by {
                            assert(path[n + 1] == grown.subrange(0, path.len() as int)[n + 1]);
                        }
                    }
                }
            }
            assert(path == grown <==> path[0] == letter && rest == target) by {
                if path == grown {
                    assert(rest =~= target);
                }
            }
            if path[0] == letter {
                a.lemma_descend_child(idx, rest);
                b.lemma_descend_child(idx, rest);
                assert(b.has_word(path) == b.children@[idx].1.has_word(rest));
                assert(b.has_node(path) == b.children@[idx].1.has_node(rest));
            } else if exists|k: int| 0 <= k < a.children@.len() && a.children@[k].0 == path[0] {
                let k = choose|k: int| 0 <= k < a.children@.len() && a.children@[k].0 == path[0];
                a.lemma_descend_child(k, rest);
                b.lemma_descend_child(k, rest);
            } else {
                a.lemma_descend_missing(path);
                b.lemma_descend_missing(path);
            }
        } else {
            assert(path.is_prefix_of(grown));
            assert(path != grown);
        }
    }

    /// Whether `after` is `before` with `word` put in at some place, or the
    /// same list where `present` says that the word was there.
    pub open spec fn lists_one_more(
        after: Seq<Seq<char>>,
        before: Seq<Seq<char>>,
        word: Seq<char>,
        present: bool,
    ) -> bool {
        if present {
            after == before
        } else {
            exists|at: int| 0 <= at <= before.len() && after == #[trigger] before.insert(at, word)
        }
    }

    /// Marking a node that ended no word puts the empty word in front of its
    /// listing.
    proof fn lemma_listing_marked(a: Trie, b: Trie, k: nat)
        requires
            a.children == b.children,
            !a.is_end_of_word,
            b.is_end_of_word,
            k <= a.children@.len(),
        ensures
            b.listing(k) == a.listing(k).insert(0, Seq::<char>::empty()),
        decreases k,
    {
        if k == 0 {
            assert(b.listing(0) =~= a.listing(0).insert(0, Seq::<char>::empty()));
        } else {
            Self::lemma_listing_marked(a, b, (k - 1) as nat);
            let below = a.children@[k - 1].1;
            let letter = a.children@[k - 1].0;
            let behind = below.enumeration().map_values(|w: Seq<char>| seq![letter] + w);
            let shorter = a.listing((k - 1) as nat);
            assert(shorter.insert(0, Seq::<char>::empty()) + behind =~= (shorter + behind).insert(
                0,
                Seq::<char>::empty(),
            ));
        }
    }

    /// The listing of the first `k` children is the same in two nodes that
    /// agree on whether they end a word, on the letters of these children
    /// and on what is listed below each.
    proof fn lemma_listing_same_blocks(a: Trie, b: Trie, k: nat)
        requires
            a.is_end_of_word == b.is_end_of_word,
            k <= a.children@.len(),
            k <= b.children@.len(),
            forall|i: int|
                0 <= i < k ==> a.children@[i].0 == b.children@[i].0 && a.children@[i].1.enumeration()
                    == b.children@[i].1.enumeration(),
        ensures
            a.listing(k) == b.listing(k),
        decreases k,
    {
        if k > 0 {
            Self::lemma_listing_same_blocks(a, b, (k - 1) as nat);
        }
    }

    /// Where the listing below child `idx` gains `target` at place `at`, the
    /// listing of the node gains `target` behind the child's letter, at the
    /// same place within what the child contributes.
    proof fn lemma_listing_grown(a: Trie, b: Trie, idx: int, at: int, target: Seq<char>, k: nat)
        requires
            a.is_end_of_word == b.is_end_of_word,
            a.children@.len() == b.children@.len(),
            0 <= idx < k <= a.children@.len(),
            forall|i: int| 0 <= i < a.children@.len() ==> a.children@[i].0 == b.children@[i].0,
            forall|i: int|
                0 <= i < a.children@.len() && i != idx ==> a.children@[i] == b.children@[i],
            0 <= at <= a.children@[idx].1.enumeration().len(),
            b.children@[idx].1.enumeration() == a.children@[idx].1.enumeration().insert(at, target),
        ensures
            a.listing(idx as nat).len() + at <= a.listing(k).len(),
            b.listing(k) == a.listing(k).insert(
                a.listing(idx as nat).len() + at,
                seq![a.children@[idx].0] + target,
            ),
        decreases k,
    {
        let letter = a.children@[k - 1].0;
        let place = a.listing(idx as nat).len() + at;
        let word = seq![a.children@[idx].0] + target;
        let before = a.listing((k - 1) as nat);
        let behind = a.children@[k - 1].1.enumeration().map_values(
            |w: Seq<char>| seq![letter] + w,
        );
        if k == idx + 1 {
            Self::lemma_listing_agrees(a, b, idx as nat);
            let grown = b.children@[idx].1.enumeration().map_values(
                |w: Seq<char>| seq![letter] + w,
            );
            assert(grown =~= behind.insert(at, word));
            assert(before + behind.insert(at, word) =~= (before + behind).insert(place, word));
        } else {
            Self::lemma_listing_grown(a, b, idx, at, target, (k - 1) as nat);
            assert(before.insert(place, word) + behind =~= (before + behind).insert(place, word));
        }
    }

    /// Adds the rest of `chars` from `pos` on as a word below this node.
    fn insert_from(&mut self, chars: &Vec<char>, pos: usize)
        requires
            old(self).wf(),
            pos <= chars@.len(),
        ensures
            final(self).wf(),
            forall|path: Seq<char>| #[trigger]
                final(self).has_word(path) <==> old(self).has_word(path) || path == chars@.skip(
                    pos as int,
                ),
            forall|path: Seq<char>| #[trigger]
                final(self).has_node(path) <==> old(self).has_node(path) || path.is_prefix_of(
                    chars@.skip(pos as int),
                ),
            Self::lists_one_more(
                final(self).enumeration(),
                old(self).enumeration(),
                chars@.skip(pos as int),
                old(self).has_word(chars@.skip(pos as int)),
            ),
        decreases chars@.len() - pos,
    {
        let ghost rest = chars@.skip(pos as int);
        if pos == chars.len() {
            self.is_end_of_word = true;
            proof {
                assert(rest =~= Seq::<char>::empty());
                assert(old(self).has_word(rest) == old(self).is_end_of_word);
                if old(self).is_end_of_word {
                    Self::lemma_listing_agrees(*old(self), *self, self.children@.len());
                } else {
                    Self::lemma_listing_marked(*old(self), *self, self.children@.len());
                    assert(self.enumeration() == old(self).enumeration().insert(0, rest));
                }
                assert forall|path: Seq<char>|
                    (#[trigger] self.has_word(path) <==> old(self).has_word(path) || path == rest)
                    by {
                    Self::lemma_marked(*old(self), *self, path);
                    if path.len() == 0 {
                        assert(path =~= rest);
                    }
                }
                assert forall|path: Seq<char>|
                    (#[trigger] self.has_node(path) <==> old(self).has_node(path)
                        || path.is_prefix_of(rest)) by {
                    Self::lemma_marked(*old(self), *self, path);
                    if path.is_prefix_of(rest) {
                        assert(path =~= rest);
                    }
                }
            }
        } else {
            let letter = chars[pos];
            let ghost tail = chars@.skip(pos + 1);
            assert(rest == seq![letter] + tail);
            let idx = match self.find_child(letter) {
                Some(i) => i,
                None => {
                    self.children.push((letter, Trie::new()));
                    self.children.len() - 1
                },
            };
            let ghost mid = *self;
            assert(mid.wf());
            self.children[idx].1.insert_from(chars, pos + 1);
            proof {
                let grown = mid.children@[idx as int].1;
                let count = mid.children@.len();
                mid.lemma_descend_child(idx as int, tail);
                assert(mid.has_word(rest) == grown.has_word(tail));
                if mid.children@.len() != old(self).children@.len() {
                    Self::lemma_child_added(*old(self), mid, letter, rest);
                    Self::lemma_listing_agrees(*old(self), mid, old(self).children@.len());
                    assert(mid.enumeration() =~= old(self).enumeration());
                } else {
                    assert(mid.children@ =~= old(self).children@);
                    Self::lemma_listing_agrees(*old(self), mid, count);
                }
                assert(mid.has_word(rest) == old(self).has_word(rest));
                assert(mid.enumeration() == old(self).enumeration());
                if grown.has_word(tail) {
                    Self::lemma_listing_same_blocks(mid, *self, count);
                } else {
                    let at = choose|at: int|
                        0 <= at <= grown.enumeration().len() && self.children@[idx as int].1.enumeration()
                            == #[trigger] grown.enumeration().insert(at, tail);
                    Self::lemma_listing_grown(mid, *self, idx as int, at, tail, count);
                    let place = mid.listing(idx as nat).len() + at;
                    assert(self.enumeration() == mid.enumeration().insert(place, rest));
                }
                assert(seq![letter].is_prefix_of(rest)) by {
                    assert(seq![letter] =~= rest.subrange(0, 1));
                }
                assert forall|path: Seq<char>|
                    (#[trigger] self.has_word(path) <==> old(self).has_word(path) || path == rest)
                    by {
                    Self::lemma_child_grown(mid, *self, idx as int, tail, path);
                    if mid.children@.len() != old(self).children@.len() {
                        Self::lemma_child_added(*old(self), mid, letter, path);
                    }
                }
                assert forall|path: Seq<char>|
                    (#[trigger] self.has_node(path) <==> old(self).has_node(path)
                        || path.is_prefix_of(rest)) by {
                    Self::lemma_child_grown(mid, *self, idx as int, tail, path);
                    if mid.children@.len() != old(self).children@.len() {
                        Self::lemma_child_added(*old(self), mid, letter, path);
                    }
                }
            }
        }
    }

    /// Adds `word` to the tree, with a node for each of its prefixes. The
    /// words that the tree had stay in their order.
    pub fn insert(&mut self, word: &str)
        requires
            old(self).wf(),
        ensures
            final(self).wf(),
            final(self)@ == old(self)@.insert(word@),
            final(self).nodes() == old(self).nodes().union(
                Set::new(|path: Seq<char>| path.is_prefix_of(word@)),
            ),
            Self::lists_one_more(
                final(self).enumeration(),
                old(self).enumeration(),
                word@,
                old(self)@.contains(word@),
            ),
    {
        let chars = to_chars(word);
        self.insert_from(&chars, 0);
        proof {
            assert(chars@.skip(0) == word@);
            assert(self@ =~= old(self)@.insert(word@));
            assert(self.nodes() =~= old(self).nodes().union(
                Set::new(|path: Seq<char>| path.is_prefix_of(word@)),
            ));
        }
    }

    /// The words of the node itself and of its first `k` children, in the
    /// order in which `words` gives them: the empty word if the node ends one,
    /// then the words below each child in turn, each behind the child's
    /// letter.
    pub closed spec fn listing(self, k: nat) -> Seq<Seq<char>>
        decreases self, k,
    {
        if k == 0 {
            if self.is_end_of_word {
                seq![Seq::<char>::empty()]
            } else {
                Seq::<Seq<char>>::empty()
            }
        } else if k <= self.children@.len() {
            let letter = self.children@[k - 1].0;
            let below = self.children@[k - 1].1;
            self.listing((k - 1) as nat) + below.listing(below.children@.len()).map_values(
                |w: Seq<char>| seq![letter] + w,
            )
        } else {
            self.listing((k - 1) as nat)
        }
    }

    /// The words of the tree in the order in which `words` gives them: depth
    /// first, the children of a node in the order in which they were added.
    pub closed spec fn enumeration(self) -> Seq<Seq<char>> {
        self.listing(self.children@.len())
    }

    /// What `listing` holds: nothing twice, and the words that end at the
    /// node or lead through one of its first `k` children.
    proof fn lemma_listing(self, k: nat)
        requires
            self.wf(),
            k <= self.children@.len(),
        ensures
            self.listing(k).no_duplicates(),
            forall|w: Seq<char>| #[trigger]
                self.listing(k).contains(w) <==> self.has_word(w) && (w.len() > 0
                    ==> Self::hangs_among(self.children@, k as int, w[0])),
        decreases self, k,
    {
        let here = self.listing(k);
        if k == 0 {
            assert forall|w: Seq<char>| #[trigger]
                here.contains(w) <==> self.has_word(w) && (w.len() > 0 ==> Self::hangs_among(
                    self.children@,
                    0,
                    w[0],
                )) by {
                if here.contains(w) {
                    assert(self.is_end_of_word);
                    assert(w =~= Seq::<char>::empty());
                }
                if self.has_word(w) && w.len() == 0 {
                    assert(w =~= Seq::<char>::empty());
                    assert(here[0] == w);
                }
            }
        } else {
            let letter = self.children@[k - 1].0;
            let below = self.children@[k - 1].1;
            let before = self.listing((k - 1) as nat);
            let under = below.listing(below.children@.len());
            let behind = under.map_values(|w: Seq<char>| seq![letter] + w);
            self.lemma_listing((k - 1) as nat);
            self.lemma_child_index(k - 1);
            below.lemma_listing(below.children@.len());
            assert(here == before + behind);
            assert forall|i: int| 0 <= i < behind.len() implies (#[trigger] behind[i]).len() > 0
                && behind[i][0] == letter && behind[i].drop_first() == under[i] by {
                assert(behind[i] == seq![letter] + under[i]);
                assert(behind[i].drop_first() =~= under[i]);
            }
            assert forall|i: int, j: int| 0 <= i < j < here.len() implies here[i] != here[j] by {
                if j < before.len() {
                } else if i >= before.len() {
                    let a = i - before.len();
                    let b = j - before.len();
                    assert(here[i] == behind[a]);
                    assert(here[j] == behind[b]);
                    assert(under[a] != under[b]);
                } else {
                    let b = j - before.len();
                    assert(here[j] == behind[b]);
                    assert(before.contains(here[i]));
                    if here[i] == here[j] {
                        assert(Self::hangs_among(self.children@, k - 1, letter));
                    }
                }
            }
            assert forall|w: Seq<char>| #[trigger]
                here.contains(w) <==> self.has_word(w) && (w.len() > 0 ==> Self::hangs_among(
                    self.children@,
                    k as int,
                    w[0],
                )) by {
                if here.contains(w) {
                    let i = choose|i: int| 0 <= i < here.len() && here[i] == w;
                    if i < before.len() {
                        assert(before.contains(w));
                        if w.len() > 0 {
                            assert(Self::hangs_among(self.children@, k - 1, w[0]));
                            let n = choose|n: int|
                                0 <= n < k - 1 && (#[trigger] self.children@[n]).0 == w[0];
                        }
                    } else {
                        let b = i - before.len();
                        assert(w == behind[b]);
                        assert(under.contains(under[b]));
                        self.lemma_descend_child(k - 1, under[b]);
                        assert(self.children@[k - 1].0 == w[0]);
                    }
                }
                if self.has_word(w) && (w.len() > 0 ==> Self::hangs_among(
                    self.children@,
                    k as int,
                    w[0],
                )) {
                    if w.len() > 0 && w[0] == letter {
                        let rest = w.drop_first();
                        assert(w == seq![letter] + rest);
                        self.lemma_descend_child(k - 1, rest);
                        assert(under.contains(rest));
                        let b = choose|b: int| 0 <= b < under.len() && under[b] == rest;
                        assert(behind[b] == w);
                        assert(here[before.len() + b] == w);
                    } else {
                        if w.len() > 0 {
                            let n = choose|n: int|
                                0 <= n < k && (#[trigger] self.children@[n]).0 == w[0];
                            assert(n < k - 1);
                        }
                        assert(before.contains(w));
                        let i = choose|i: int| 0 <= i < before.len() && before[i] == w;
                        assert(here[i] == w);
                    }
                }
            }
        }
    }

    /// The enumeration of a tree holds each of its words once, and nothing
    /// else.
    pub proof fn lemma_enumeration(self)
        requires
            self.wf(),
        ensures
            self.enumeration().no_duplicates(),
            self.enumeration().to_set() == self@,
    {
        self.lemma_listing(self.children@.len());
        assert forall|w: Seq<char>| self.enumeration().contains(w) <==> self.has_word(w) by {
            if self.has_word(w) && w.len() > 0 {
                if !Self::hangs_among(self.children@, self.children@.len() as int, w[0]) {
                    self.lemma_descend_missing(w);
                }
            }
        }
        assert(self.enumeration().to_set() =~= self@);
    }

    /// A tree that holds the words of a list without repetitions enumerates
    /// the multiset of the list.
    pub proof fn lemma_round_trip(self, words: Seq<Seq<char>>)
        requires
            self.wf(),
            self@ == words.to_set(),
            words.no_duplicates(),
        ensures
            self.enumeration().to_multiset() == words.to_multiset(),
    {
        let listed = self.enumeration();
        self.lemma_enumeration();
        listed.lemma_multiset_has_no_duplicates();
        words.lemma_multiset_has_no_duplicates();
        listed.to_multiset_ensures();
        words.to_multiset_ensures();
        assert forall|w: Seq<char>| listed.to_multiset().count(w) == words.to_multiset().count(
            w,
        ) by {
            assert(listed.contains(w) <==> words.contains(w)) by {
                assert(listed.to_set().contains(w) <==> words.to_set().contains(w));
            }
        }
        assert(listed.to_multiset() =~= words.to_multiset());
    }

    /// Appends the words of this node to `out`, each behind `prefix`.
    fn collect_words(&self, prefix: &mut Vec<char>, out: &mut Vec<String>)
        ensures
            final(prefix)@ == old(prefix)@,
            views(final(out)@) == views(old(out)@) + self.enumeration().map_values(
                |w: Seq<char>| old(prefix)@ + w,
            ),
        decreases self,
    {
        let ghost start = views(out@);
        let ghost stem = prefix@;
        if self.is_end_of_word {
            out.push(from_chars(prefix));
        }
        proof {
            assert(views(out@) =~= start + self.listing(0).map_values(
                |w: Seq<char>| stem + w,
            )) by {
                if self.is_end_of_word {
                    assert(stem + Seq::<char>::empty() =~= stem);
                }
            }
        }
        let mut i: usize = 0;
        while i < self.children.len()
            invariant
                i <= self.children@.len(),
                prefix@ == stem,
                views(out@) == start + self.listing(i as nat).map_values(
                    |w: Seq<char>| stem + w,
                ),
            decreases self.children@.len() - i,
        {
            let letter = self.children[i].0;
            let ghost done = views(out@);
            prefix.push(letter);
            self.children[i].1.collect_words(prefix, out);
            prefix.pop();
            i += 1;
            proof {
                let below = self.children@[i - 1].1;
                let under = below.enumeration();
                let behind = under.map_values(|w: Seq<char>| seq![letter] + w);
                assert(prefix@ =~= stem);
                assert(self.listing(i as nat) == self.listing((i - 1) as nat) + behind);
                assert(under.map_values(|w: Seq<char>| stem.push(letter) + w) =~= behind.map_values(
                    |w: Seq<char>| stem + w,
                )) by {
                    assert forall|n: int| 0 <= n < under.len() implies stem.push(letter) + under[n]
                        == stem + behind[n] by {
                        assert(stem.push(letter) + under[n] =~= stem + (seq![letter] + under[n]));
                    }
                }
                assert(views(out@) =~= start + self.listing(i as nat).map_values(
                    |w: Seq<char>| stem + w,
                ));
            }
        }
    }

    /// The words of the tree, each once: depth first, the children of a node
    /// in the order in which they were added.
    pub fn words(&self) -> (list: Vec<String>)
        requires
            self.wf(),
        ensures
            views(list@) == self.enumeration(),
            views(list@).no_duplicates(),
            views(list@).to_set() == self@,
    {
        let mut list: Vec<String> = Vec::new();
        let mut prefix: Vec<char> = Vec::new();
        self.collect_words(&mut prefix, &mut list);
        proof {
            assert(views(list@) =~= self.enumeration()) by {
                assert forall|n: int| 0 <= n < self.enumeration().len() implies Seq::<
                    char,
                >::empty() + self.enumeration()[n] == self.enumeration()[n] by {
                    assert(Seq::<char>::empty() + self.enumeration()[n]
                        =~= self.enumeration()[n]);
                }
            }
            self.lemma_enumeration();
        }
        list
    }

    /// The tree that holds `words`.
    pub fn from(words: Vec<String>) -> (t: Trie)
        ensures
            t.wf(),
            t@ == views(words@).to_set(),
            forall|path: Seq<char>| #[trigger]
                t.has_node(path) <==> path.len() == 0 || exists|i: int|
                    0 <= i < words@.len() && path.is_prefix_of(#[trigger] words@[i]@),
    {
        let mut t = Trie::new();
        let mut i: usize = 0;
        proof {
            assert(t@ =~= views(words@.take(0)).to_set());
            assert forall|path: Seq<char>| #[trigger] t.has_node(path) <==> path.len() == 0 by {
                assert(t.nodes().contains(path) == t.has_node(path));
                if path.len() == 0 {
                    assert(path =~= Seq::<char>::empty());
                }
            }
        }
        while i < words.len()
            invariant
                i <= words@.len(),
                t.wf(),
                t@ == views(words@.take(i as int)).to_set(),
                forall|path: Seq<char>| #[trigger]
                    t.has_node(path) <==> path.len() == 0 || exists|k: int|
                        0 <= k < i && path.is_prefix_of(#[trigger] words@[k]@),
            decreases words@.len() - i,
        {
            let ghost before = t;
            t.insert(words[i].as_str());
            i += 1;
            proof {
                let word = words@[i - 1]@;
                let seen = views(words@.take(i - 1));
                let now = views(words@.take(i as int));
                assert(now =~= seen.push(word));
                assert(now.to_set() =~= seen.to_set().insert(word)) by {
                    assert forall|w: Seq<char>| now.contains(w) <==> seen.contains(w) || w
                        == word by {
                        if seen.contains(w) {
                            let n = choose|n: int| 0 <= n < seen.len() && seen[n] == w;
                            assert(now[n] == w);
                        }
                        if w == word {
                            assert(now[seen.len() as int] == w);
                        }
                    }
                }
                assert forall|path: Seq<char>| #[trigger]
                    t.has_node(path) <==> path.len() == 0 || exists|k: int|
                        0 <= k < i && path.is_prefix_of(#[trigger] words@[k]@) by {
                    assert(t.nodes().contains(path) <==> before.nodes().contains(path)
                        || path.is_prefix_of(word));
                    assert(before.has_node(path) <==> path.len() == 0 || exists|k: int|
                        0 <= k < i - 1 && path.is_prefix_of(#[trigger] words@[k]@));
                }
            }
        }
        assert(words@.take(words@.len() as int) == words@);
        t
    }

    /// Whether `result` is what pruning by `constraints` makes of `source`:
    /// absent where the walk does not keep the root, else a tree with the
    /// nodes and the words of `source` that the walk keeps, the words in the
    /// order in which `source` lists them.
    pub open spec fn is_pruning_of(
        result: Option<Trie>,
        source: Trie,
        constraints: Constraints,
    ) -> bool {
        &&& result is Some <==> constraints.keeps(source@, Seq::empty())
        &&& result matches Some(tree) ==> {
            &&& tree.wf()
            &&& tree@ == constraints.pruned_words(source@)
            &&& tree.nodes() == constraints.pruned_nodes(source.nodes(), source@)
            &&& tree.enumeration() == constraints.pruned_listing(source.enumeration(), source@)
        }
    }

    /// `is_pruning_of`, path by path.
    spec fn prunes_to(result: Option<Trie>, source: Trie, constraints: Constraints) -> bool {
        &&& result is Some <==> constraints.keeps(source@, Seq::empty())
        &&& result matches Some(tree) ==> {
            &&& tree.wf()
            &&& forall|path: Seq<char>| #[trigger]
                tree.has_node(path) <==> source.has_node(path) && constraints.keeps(source@, path)
            &&& forall|path: Seq<char>| #[trigger]
                tree.has_word(path) <==> source.has_word(path) && constraints.keeps(source@, path)
            &&& tree.enumeration() == constraints.pruned_listing(source.enumeration(), source@)
        }
    }

    /// Whether `kept` holds what pruning makes of child `k` of `source`: the
    /// pruned child under the same letter where the patterns admit the letter
    /// and the walk keeps the child, and no child under that letter otherwise.
    spec fn child_pruned(
        source: Trie,
        kept: Seq<(char, Trie)>,
        k: int,
        constraints: Constraints,
    ) -> bool {
        let letter = source.children@[k].0;
        let below = source.children@[k].1;
        if constraints.admits(0, letter) && constraints.below(letter).keeps(below@, Seq::empty()) {
            exists|j: int|
                0 <= j < kept.len() && (#[trigger] kept[j]).0 == letter && Self::prunes_to(
                    Some(kept[j].1),
                    below,
                    constraints.below(letter),
                )
        } else {
            forall|j: int| 0 <= j < kept.len() ==> (#[trigger] kept[j]).0 != letter
        }
    }

    /// Whether one of the first `n` of `children` hangs under `letter`.
    spec fn hangs_among(children: Seq<(char, Trie)>, n: int, letter: char) -> bool {
        exists|k: int| 0 <= k < n && (#[trigger] children[k]).0 == letter
    }

    /// What the walk from a node that ends no word keeps below its child `k`.
    proof fn lemma_keeps_below(self, k: int, constraints: Constraints)
        requires
            self.wf(),
            !self.is_end_of_word,
            constraints.has_position(0),
            0 <= k < self.children@.len(),
        ensures
            forall|rest: Seq<char>|
                constraints.keeps(self@, #[trigger] (seq![self.children@[k].0] + rest))
                    <==> constraints.admits(0, self.children@[k].0) && constraints.below(
                    self.children@[k].0,
                ).keeps(self.children@[k].1@, rest),
            !constraints.admits(0, self.children@[k].0) || !constraints.below(
                self.children@[k].0,
            ).keeps(self.children@[k].1@, Seq::empty()) ==> forall|rest: Seq<char>|
                !constraints.keeps(self@, #[trigger] (seq![self.children@[k].0] + rest)),
    {
        let letter = self.children@[k].0;
        let below = self.children@[k].1;
        let next = constraints.below(letter);
        assert forall|w: Seq<char>| #[trigger]
            below@.contains(w) <==> self@.contains(seq![letter] + w) by {
            self.lemma_descend_child(k, w);
        }
        assert(!self@.contains(Seq::empty()));
        assert forall|rest: Seq<char>|
            constraints.keeps(self@, #[trigger] (seq![letter] + rest)) <==> constraints.admits(
                0,
                letter,
            ) && next.keeps(below@, rest) by {
            constraints.lemma_step(self@, below@, letter, rest);
        }
        if !next.keeps(below@, Seq::empty()) {
            assert forall|rest: Seq<char>|
                !constraints.keeps(self@, #[trigger] (seq![letter] + rest)) by {
                next.lemma_dropped(below@, rest);
            }
        }
    }

    /// A node that ends no word, pruned child by child, is pruned.
    proof fn lemma_pruned_node(source: Trie, tree: Trie, constraints: Constraints, path: Seq<char>)
        requires
            source.wf(),
            tree.wf(),
            !source.is_end_of_word,
            !tree.is_end_of_word,
            constraints.has_position(0),
            forall|k: int|
                0 <= k < source.children@.len() ==> #[trigger] Self::child_pruned(
                    source,
                    tree.children@,
                    k,
                    constraints,
                ),
            forall|j: int|
                0 <= j < tree.children@.len() ==> Self::hangs_among(
                    source.children@,
                    source.children@.len() as int,
                    (#[trigger] tree.children@[j]).0,
                ),
        ensures
            tree.has_node(path) <==> source.has_node(path) && constraints.keeps(source@, path),
            tree.has_word(path) <==> source.has_word(path) && constraints.keeps(source@, path),
    {
        if path.len() == 0 {
            assert(path =~= Seq::<char>::empty());
            assert(!source@.contains(path));
        } else {
            let letter = path[0];
            let rest = path.drop_first();
            assert(path == seq![letter] + rest);
            if Self::hangs_among(source.children@, source.children@.len() as int, letter) {
                let k = choose|k: int|
                    0 <= k < source.children@.len() && (#[trigger] source.children@[k]).0
                        == letter;
                let below = source.children@[k].1;
                let next = constraints.below(letter);
                source.lemma_descend_child(k, rest);
                source.lemma_keeps_below(k, constraints);
                assert(Self::child_pruned(source, tree.children@, k, constraints));
                if constraints.admits(0, letter) && next.keeps(below@, Seq::empty()) {
                    let j = choose|j: int|
                        0 <= j < tree.children@.len() && (#[trigger] tree.children@[j]).0 == letter
                            && Self::prunes_to(Some(tree.children@[j].1), below, next);
                    tree.lemma_descend_child(j, rest);
                    assert(tree.has_node(path) == tree.children@[j].1.has_node(rest));
                    assert(tree.has_word(path) == tree.children@[j].1.has_word(rest));
                } else {
                    tree.lemma_descend_missing(path);
                }
            } else {
                source.lemma_descend_missing(path);
                assert forall|j: int| 0 <= j < tree.children@.len() implies tree.children@[j].0
                    != letter by {
                    assert(Self::hangs_among(
                        source.children@,
                        source.children@.len() as int,
                        tree.children@[j].0,
                    ));
                }
                tree.lemma_descend_missing(path);
            }
        }
    }

    /// Filtering the words behind a letter is filtering the words, where the
    /// two tests agree.
    proof fn lemma_filter_behind(
        under: Seq<Seq<char>>,
        letter: char,
        outer: spec_fn(Seq<char>) -> bool,
        inner: spec_fn(Seq<char>) -> bool,
    )
        requires
            forall|w: Seq<char>| outer(#[trigger] (seq![letter] + w)) == inner(w),
        ensures
            under.map_values(|w: Seq<char>| seq![letter] + w).filter(outer) == under.filter(
                inner,
            ).map_values(|w: Seq<char>| seq![letter] + w),
        decreases under.len(),
    {
        reveal(Seq::filter);
        let behind = under.map_values(|w: Seq<char>| seq![letter] + w);
        if under.len() == 0 {
            assert(behind.filter(outer) =~= under.filter(inner).map_values(
                |w: Seq<char>| seq![letter] + w,
            ));
        } else {
            let fewer = under.drop_last();
            Self::lemma_filter_behind(fewer, letter, outer, inner);
            assert(behind.drop_last() =~= fewer.map_values(|w: Seq<char>| seq![letter] + w));
            assert(behind.last() == seq![letter] + under.last());
            assert(behind.filter(outer) =~= under.filter(inner).map_values(
                |w: Seq<char>| seq![letter] + w,
            ));
        }
    }

    /// The test that nothing passes leaves nothing.
    proof fn lemma_filter_nothing(list: Seq<Seq<char>>)
        ensures
            list.filter(|w: Seq<char>| false) == Seq::<Seq<char>>::empty(),
        decreases list.len(),
    {
        reveal(Seq::filter);
        if list.len() > 0 {
            Self::lemma_filter_nothing(list.drop_last());
        } else {
            assert(list =~= Seq::<Seq<char>>::empty());
        }
    }

    /// A test that no path behind a letter passes leaves nothing of the words
    /// behind that letter.
    proof fn lemma_filter_behind_none(
        under: Seq<Seq<char>>,
        letter: char,
        outer: spec_fn(Seq<char>) -> bool,
    )
        requires
            forall|w: Seq<char>| !outer(#[trigger] (seq![letter] + w)),
        ensures
            under.map_values(|w: Seq<char>| seq![letter] + w).filter(outer) == Seq::<
                Seq<char>,
            >::empty(),
    {
        Self::lemma_filter_behind(under, letter, outer, |w: Seq<char>| false);
        Self::lemma_filter_nothing(under);
        assert(under.filter(|w: Seq<char>| false).map_values(|w: Seq<char>| seq![letter] + w)
            =~= Seq::<Seq<char>>::empty());
    }

    /// The listing of the first `k` children is the same in two nodes that
    /// agree on whether they end a word and on these children.
    proof fn lemma_listing_agrees(a: Trie, b: Trie, k: nat)
        requires
            a.is_end_of_word == b.is_end_of_word,
            k <= a.children@.len(),
            k <= b.children@.len(),
            forall|i: int| 0 <= i < k ==> a.children@[i] == b.children@[i],
        ensures
            a.listing(k) == b.listing(k),
        decreases k,
    {
        if k > 0 {
            Self::lemma_listing_agrees(a, b, (k - 1) as nat);
        }
    }

    /// Of the listing of a node that ends a word, a test that the empty path
    /// passes and no other path does leaves the empty path.
    proof fn lemma_listing_below_word(self, k: nat, test: spec_fn(Seq<char>) -> bool)
        requires
            self.is_end_of_word,
            k <= self.children@.len(),
            test(Seq::<char>::empty()),
            forall|w: Seq<char>| w.len() > 0 ==> !#[trigger] test(w),
        ensures
            self.listing(k).filter(test) == seq![Seq::<char>::empty()],
        decreases k,
    {
        reveal(Seq::filter);
        if k == 0 {
            let only = seq![Seq::<char>::empty()];
            assert(only.drop_last() =~= Seq::<Seq<char>>::empty());
            assert(only.filter(test) =~= only);
        } else {
            let letter = self.children@[k - 1].0;
            let under = self.children@[k - 1].1.enumeration();
            let behind = under.map_values(|w: Seq<char>| seq![letter] + w);
            self.lemma_listing_below_word((k - 1) as nat, test);
            assert forall|w: Seq<char>| !test(#[trigger] (seq![letter] + w)) by {
                assert((seq![letter] + w).len() > 0);
            }
            Self::lemma_filter_behind_none(under, letter, test);
            Seq::filter_distributes_over_add(self.listing((k - 1) as nat), behind, test);
        }
    }

    /// Prunes this node, which stands `depth` levels below the root of the
    /// walk and at the end of `word`.
    fn prune_walk(
        &self,
        correct: &Vec<char>,
        misplaced: &Vec<char>,
        depth: usize,
        letter_counts: &LetterCounts,
        missing_letters: &LetterSet,
        word: &Vec<char>,
    ) -> (result: Option<Trie>)
        requires
            self.wf(),
            depth <= correct@.len(),
            depth <= misplaced@.len(),
        ensures
            Self::prunes_to(
                result,
                *self,
                (Constraints {
                    correct: correct@.skip(depth as int),
                    misplaced: misplaced@.skip(depth as int),
                    excluded: missing_letters@,
                    requirements: letter_counts@,
                    prefix: word@,
                }),
            ),
        decreases self,
    {
        let ghost constraints = Constraints {
            correct: correct@.skip(depth as int),
            misplaced: misplaced@.skip(depth as int),
            excluded: missing_letters@,
            requirements: letter_counts@,
            prefix: word@,
        };
        let ghost test = constraints.keeper(self@);
        proof {
            assert(word@ + Seq::<char>::empty() =~= word@);
            assert(self@.contains(Seq::empty()) == self.is_end_of_word);
        }
        if self.is_end_of_word {
            if !chars_have_letter_counts(word, letter_counts) {
                return None;
            }
            let leaf = Trie { children: Vec::new(), is_end_of_word: true };
            proof {
                assert(constraints.keeps(self@, Seq::empty()));
                assert forall|path: Seq<char>| path.len() > 0 implies !constraints.keeps(
                    self@,
                    path,
                ) && !#[trigger] leaf.has_node(path) by {
                    leaf.lemma_descend_missing(path);
                    constraints.lemma_stops_at_word(self@, path);
                }
                assert forall|path: Seq<char>| #[trigger]
                    leaf.has_node(path) <==> self.has_node(path) && constraints.keeps(
                        self@,
                        path,
                    ) by {
                    if path.len() == 0 {
                        assert(path =~= Seq::<char>::empty());
                    }
                }
                assert forall|path: Seq<char>| #[trigger]
                    leaf.has_word(path) <==> self.has_word(path) && constraints.keeps(
                        self@,
                        path,
                    ) by {
                    if path.len() == 0 {
                        assert(path =~= Seq::<char>::empty());
                    } else {
                        assert(!leaf.has_node(path));
                    }
                }
                assert forall|w: Seq<char>| w.len() > 0 implies !#[trigger] test(w) by {
                    constraints.lemma_stops_at_word(self@, w);
                }
                self.lemma_listing_below_word(self.children@.len(), test);
            }
            return Some(leaf);
        }
        if depth >= correct.len() || depth >= misplaced.len() {
            return None;
        }
        let correct_letter = correct[depth];
        let misplaced_letter = misplaced[depth];
        let mut kept: Vec<(char, Trie)> = Vec::new();
        let mut i: usize = 0;
        proof {
            reveal(Seq::filter);
            assert(self.listing(0) =~= Seq::<Seq<char>>::empty());
        }
        while i < self.children.len()
            invariant
                i <= self.children@.len(),
                self.wf(),
                !self.is_end_of_word,
                depth < correct.len(),
                depth < misplaced.len(),
                constraints == (Constraints {
                    correct: correct@.skip(depth as int),
                    misplaced: misplaced@.skip(depth as int),
                    excluded: missing_letters@,
                    requirements: letter_counts@,
                    prefix: word@,
                }),
                test == constraints.keeper(self@),
                correct_letter == constraints.correct[0],
                misplaced_letter == constraints.misplaced[0],
                forall|a: int, b: int| 0 <= a < b < kept@.len() ==> kept@[a].0 != kept@[b].0,
                forall|j: int| 0 <= j < kept@.len() ==> (#[trigger] kept@[j]).1.wf(),
                forall|j: int|
                    0 <= j < kept@.len() ==> Self::hangs_among(
                        self.children@,
                        i as int,
                        (#[trigger] kept@[j]).0,
                    ),
                forall|k: int|
                    0 <= k < i ==> #[trigger] Self::child_pruned(*self, kept@, k, constraints),
                (Trie { children: kept, is_end_of_word: false }).listing(kept@.len())
                    == self.listing(i as nat).filter(test),
            decreases self.children@.len() - i,
        {
            let letter = self.children[i].0;
            let ghost before = kept@;
            let ghost partial = Trie { children: kept, is_end_of_word: false };
            let ghost next = constraints.below(letter);
            let admitted = if correct_letter == WILDCARD {
                letter != misplaced_letter && !missing_letters.contains(letter)
            } else {
                letter == correct_letter
            };
            proof {
                assert(admitted == constraints.admits(0, letter));
                self.lemma_child_index(i as int);
                assert(correct@.skip(depth + 1) =~= next.correct);
                assert(misplaced@.skip(depth + 1) =~= next.misplaced);
            }
            if admitted {
                let mut longer = word.clone();
                longer.push(letter);
                assert(longer@ == next.prefix);
                match self.children[i].1.prune_walk(
                    correct,
                    misplaced,
                    depth + 1,
                    letter_counts,
                    missing_letters,
                    &longer,
                ) {
                    Some(child) => {
                        kept.push((letter, child));
                    },
                    None => {},
                }
            }
            proof {
                let below = self.children@[i as int].1;
                let under = below.enumeration();
                let behind = under.map_values(|w: Seq<char>| seq![letter] + w);
                let grown = Trie { children: kept, is_end_of_word: false };
                assert forall|j: int| 0 <= j < before.len() implies (#[trigger] before[j]).0
                    != letter by {
                    assert(Self::hangs_among(self.children@, i as int, before[j].0));
                }
                assert forall|j: int| 0 <= j < kept@.len() implies Self::hangs_among(
                    self.children@,
                    i + 1,
                    (#[trigger] kept@[j]).0,
                ) by {
                    if j < before.len() {
                        assert(Self::hangs_among(self.children@, i as int, before[j].0));
                        let k = choose|k: int|
                            0 <= k < i && (#[trigger] self.children@[k]).0 == before[j].0;
                        assert(self.children@[k].0 == kept@[j].0);
                    } else {
                        assert(self.children@[i as int].0 == kept@[j].0);
                    }
                }
                assert forall|k: int| 0 <= k < i implies #[trigger] Self::child_pruned(
                    *self,
                    kept@,
                    k,
                    constraints,
                ) by {
                    assert(Self::child_pruned(*self, before, k, constraints));
                    let l = self.children@[k].0;
                    if constraints.admits(0, l) && constraints.below(l).keeps(
                        self.children@[k].1@,
                        Seq::empty(),
                    ) {
                        let j = choose|j: int|
                            0 <= j < before.len() && (#[trigger] before[j]).0 == l
                                && Self::prunes_to(
                                Some(before[j].1),
                                self.children@[k].1,
                                constraints.below(l),
                            );
                        assert(kept@[j] == before[j]);
                    }
                }
                if kept@.len() > before.len() {
                    assert(kept@[before.len() as int].0 == letter);
                }
                assert(Self::child_pruned(*self, kept@, i as int, constraints));
                self.lemma_keeps_below(i as int, constraints);
                assert(self.listing((i + 1) as nat) == self.listing(i as nat) + behind);
                Seq::filter_distributes_over_add(self.listing(i as nat), behind, test);
                if kept@.len() > before.len() {
                    let child = kept@[before.len() as int].1;
                    let inner = next.keeper(below@);
                    assert(child.enumeration() == under.filter(inner));
                    assert forall|w: Seq<char>| test(#[trigger] (seq![letter] + w)) == inner(
                        w,
                    ) by {}
                    Self::lemma_filter_behind(under, letter, test, inner);
                    Self::lemma_listing_agrees(partial, grown, before.len());
                    assert(grown.listing(kept@.len()) == grown.listing(before.len())
                        + child.enumeration().map_values(|w: Seq<char>| seq![letter] + w));
                } else {
                    assert(kept@ == before);
                    assert forall|w: Seq<char>| !test(#[trigger] (seq![letter] + w)) by {}
                    Self::lemma_filter_behind_none(under, letter, test);
                    assert(self.listing(i as nat).filter(test) + Seq::<Seq<char>>::empty()
                        =~= self.listing(i as nat).filter(test));
                }
            }
            i += 1;
        }
        let tree = Trie { children: kept, is_end_of_word: false };
        proof {
            assert(constraints.keeps(self@, Seq::empty()));
            assert forall|path: Seq<char>| #[trigger]
                tree.has_node(path) <==> self.has_node(path) && constraints.keeps(self@, path) by {
                Self::lemma_pruned_node(*self, tree, constraints, path);
            }
            assert forall|path: Seq<char>| #[trigger]
                tree.has_word(path) <==> self.has_word(path) && constraints.keeps(self@, path) by {
                Self::lemma_pruned_node(*self, tree, constraints, path);
            }
        }
        Some(tree)
    }

    /// A pruned copy of the tree: a new tree with the words that are
    /// compatible with the constraints, or nothing where not even the root is
    /// kept.
    ///
    /// The walk takes one character of `correct` and one of `misplaced` per
    /// level. At a node that ends a word it keeps a leaf if `word` followed
    /// by the path to the node meets `letter_counts`, and it never looks
    /// below such a node. At any other node it goes on while both patterns
    /// have a character left, into the child under the pinned letter where
    /// `correct` pins one, else into each child whose letter `misplaced` does
    /// not name at this position and `missing_letters` does not hold. A pinned
    /// letter is checked against neither. A node that the walk goes on from is
    /// kept even if nothing is kept below it.
    pub fn pruned_copy(
        &self,
        correct: &str,
        misplaced: &str,
        letter_counts: &LetterCounts,
        missing_letters: &LetterSet,
        word: String,
    ) -> (result: Option<Trie>)
        requires
            self.wf(),
        ensures
            Self::is_pruning_of(
                result,
                *self,
                (Constraints {
                    correct: correct@,
                    misplaced: misplaced@,
                    excluded: missing_letters@,
                    requirements: letter_counts@,
                    prefix: word@,
                }),
            ),
    {
        let correct_chars = to_chars(correct);
        let misplaced_chars = to_chars(misplaced);
        let word_chars = to_chars(word.as_str());
        let result = self.prune_walk(
            &correct_chars,
            &misplaced_chars,
            0,
            letter_counts,
            missing_letters,
            &word_chars,
        );
        proof {
            let constraints = Constraints {
                correct: correct@,
                misplaced: misplaced@,
                excluded: missing_letters@,
                requirements: letter_counts@,
                prefix: word@,
            };
            assert(correct_chars@.skip(0) == correct@);
            assert(misplaced_chars@.skip(0) == misplaced@);
            if result is Some {
                let tree = result->0;
                assert(tree@ =~= constraints.pruned_words(self@));
                assert(tree.nodes() =~= constraints.pruned_nodes(self.nodes(), self@));
            }
        }
        result
    }
}

} // verus!

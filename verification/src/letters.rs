//! Letter constraints: a set of excluded letters and a table of minimum
//! occurrence counts.
use vstd::prelude::*;

verus! {

/// How often `c` occurs in `s`.
pub open spec fn occurrences(s: Seq<char>, c: char) -> nat {
    s.to_multiset().count(c)
}

/// Whether `word` holds every letter of `requirements` at least as often as
/// the table asks.
pub open spec fn satisfies(word: Seq<char>, requirements: Map<char, int>) -> bool {
    forall|c: char| #[trigger]
        requirements.contains_key(c) ==> requirements[c] <= occurrences(word, c)
}

/// A set of letters, viewed as a `Set<char>`. No letter is held twice.
pub struct LetterSet {
    letters: Vec<char>,
}

impl View for LetterSet {
    type V = Set<char>;

    closed spec fn view(&self) -> Set<char> {
        self.letters@.to_set()
    }
}

impl LetterSet {
    #[verifier::type_invariant]
    spec fn distinct(self) -> bool {
        self.letters@.no_duplicates()
    }

    /// The empty set.
    pub fn new() -> (s: LetterSet)
        ensures
            s@ == Set::<char>::empty(),
    {
        let s = LetterSet { letters: Vec::new() };
        assert(s.letters@.to_set() =~= Set::<char>::empty());
        s
    }

    /// Whether `c` is in the set.
    pub fn contains(&self, c: char) -> (found: bool)
        ensures
            found == self@.contains(c),
    {
        let mut i: usize = 0;
        while i < self.letters.len()
            invariant
                i <= self.letters.len(),
                forall|j: int| 0 <= j < i ==> self.letters@[j] != c,
            decreases self.letters.len() - i,
        {
            if self.letters[i] == c {
                assert(self.letters@.contains(c));
                return true;
            }
            i += 1;
        }
        assert(!self.letters@.contains(c));
        false
    }

    /// Adds `c` to the set.
    pub fn insert(&mut self, c: char)
        ensures
            final(self)@ == old(self)@.insert(c),
    {
        proof {
            use_type_invariant(&*self);
        }
        if !self.contains(c) {
            let mut letters: Vec<char> = Vec::new();
            std::mem::swap(&mut letters, &mut self.letters);
            letters.push(c);
            self.letters = letters;
            assert(self.letters@.to_set() =~= old(self).letters@.to_set().insert(c)) by {
                assert forall|x: char| self.letters@.contains(x) <==> old(self).letters@.contains(
                    x,
                ) || x == c by {
                    if old(self).letters@.contains(x) {
                        let j = choose|j: int|
                            0 <= j < old(self).letters@.len() && old(self).letters@[j] == x;
                        assert(self.letters@[j] == x);
                    }
                    if x == c {
                        assert(self.letters@[self.letters@.len() - 1] == c);
                    }
                }
            }
        } else {
            assert(self@ =~= old(self)@.insert(c));
        }
    }
}

/// A table of minimum occurrence counts by letter, viewed as a
/// `Map<char, int>`. No letter has two entries.
pub struct LetterCounts {
    entries: Vec<(char, isize)>,
}

impl View for LetterCounts {
    type V = Map<char, int>;

    closed spec fn view(&self) -> Map<char, int> {
        Map::new(
            |c: char| exists|i: int| 0 <= i < self.entries@.len() && self.entries@[i].0 == c,
            |c: char|
                {
                    let i = choose|i: int| 0 <= i < self.entries@.len() && self.entries@[i].0 == c;
                    self.entries@[i].1 as int
                },
        )
    }
}

impl LetterCounts {
    #[verifier::type_invariant]
    spec fn distinct_letters(self) -> bool {
        forall|i: int, j: int|
            0 <= i < j < self.entries@.len() ==> self.entries@[i].0 != self.entries@[j].0
    }

    /// The table without entries.
    pub fn new() -> (t: LetterCounts)
        ensures
            t@ == Map::<char, int>::empty(),
    {
        let t = LetterCounts { entries: Vec::new() };
        assert(t@ =~= Map::<char, int>::empty());
        t
    }

    fn position(&self, c: char) -> (r: Option<usize>)
        ensures
            match r {
                Some(i) => i < self.entries@.len() && self.entries@[i as int].0 == c
                    && self@.contains_key(c) && self@[c] == self.entries@[i as int].1,
                None => !self@.contains_key(c) && forall|j: int|
                    0 <= j < self.entries@.len() ==> self.entries@[j].0 != c,
            },
    {
        proof {
            use_type_invariant(self);
        }
        let mut i: usize = 0;
        while i < self.entries.len()
            invariant
                i <= self.entries.len(),
                self.distinct_letters(),
                forall|j: int| 0 <= j < i ==> self.entries@[j].0 != c,
            decreases self.entries.len() - i,
        {
            if self.entries[i].0 == c {
                assert(self@.contains_key(c));
                return Some(i);
            }
            i += 1;
        }
        None
    }

    /// The count that the table holds for `c`, if it holds one.
    pub fn get(&self, c: char) -> (r: Option<isize>)
        ensures
            r == (if self@.contains_key(c) {
                Some(self@[c] as isize)
            } else {
                None
            }),
            self@.contains_key(c) ==> isize::MIN <= self@[c] <= isize::MAX,
    {
        match self.position(c) {
            Some(i) => Some(self.entries[i].1),
            None => None,
        }
    }

    /// Sets the count of `c` to `n`.
    pub fn set(&mut self, c: char, n: isize)
        ensures
            final(self)@ == old(self)@.insert(c, n as int),
    {
        proof {
            use_type_invariant(&*self);
        }
        let found = self.position(c);
        let mut entries: Vec<(char, isize)> = Vec::new();
        std::mem::swap(&mut entries, &mut self.entries);
        match found {
            Some(i) => {
                entries[i] = (c, n);
            },
            None => {
                entries.push((c, n));
            },
        }
        self.entries = entries;
        proof {
            let before = old(self).entries@;
            let after = self.entries@;
            assert forall|x: char| #[trigger] self@.contains_key(x) <==> (x == c || old(
                self,
            )@.contains_key(x)) by {
                if old(self)@.contains_key(x) {
                    let j = choose|j: int| 0 <= j < before.len() && before[j].0 == x;
                    assert(after[j].0 == x);
                }
                if x == c {
                    let j = match found {
                        Some(i) => i as int,
                        None => after.len() - 1,
                    };
                    assert(after[j].0 == c);
                }
                if self@.contains_key(x) && x != c {
                    let j = choose|j: int| 0 <= j < after.len() && after[j].0 == x;
                    assert(before[j].0 == x);
                }
            }
            assert forall|x: char| #[trigger] self@.contains_key(x) implies self@[x] == old(
                self,
            )@.insert(c, n as int)[x] by {
                let j = choose|j: int| 0 <= j < after.len() && after[j].0 == x;
                if x != c {
                    let k = choose|k: int| 0 <= k < before.len() && before[k].0 == x;
                    assert(after[k].0 == x);
                    assert(j == k);
                }
            }
            assert(self@ =~= old(self)@.insert(c, n as int));
        }
    }

    /// The entries of the table: each letter that has a count, once, with it.
    pub fn entries(&self) -> (v: Vec<(char, isize)>)
        ensures
            forall|i: int, j: int| 0 <= i < j < v@.len() ==> v@[i].0 != v@[j].0,
            forall|i: int|
                0 <= i < v@.len() ==> self@.contains_key(#[trigger] v@[i].0) && self@[v@[i].0]
                    == v@[i].1,
            forall|c: char| #[trigger]
                self@.contains_key(c) ==> exists|i: int| 0 <= i < v@.len() && v@[i].0 == c,
    {
        proof {
            use_type_invariant(self);
        }
        let mut v: Vec<(char, isize)> = Vec::new();
        let mut i: usize = 0;
        while i < self.entries.len()
            invariant
                i <= self.entries.len(),
                v@ == self.entries@.take(i as int),
            decreases self.entries.len() - i,
        {
            v.push((self.entries[i].0, self.entries[i].1));
            i += 1;
            assert(self.entries@.take(i as int) == self.entries@.take(i - 1).push(
                self.entries@[i - 1],
            ));
        }
        assert(v@ == self.entries@);
        v
    }
}

} // verus!

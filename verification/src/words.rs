//! Sets of words, as used for the names of ignored functions and for the
//! words that a spelling check accepts.

use vstd::prelude::*;
use crate::text::str_eq;

verus! {

/// A set of words.
#[derive(Debug)]
pub struct WordSet {
    pub words: Vec<String>,
}

/// Whether one of `words` reads `word`.
pub open spec fn holds_word(words: Seq<String>, word: Seq<char>) -> bool {
    exists|i: int| 0 <= i < words.len() && (#[trigger] words[i])@ == word
}

impl View for WordSet {
    type V = Set<Seq<char>>;

    open spec fn view(&self) -> Set<Seq<char>> {
        Set::new(|word: Seq<char>| holds_word(self.words@, word))
    }
}

impl WordSet {
    /// The empty set.
    pub fn new() -> (set: WordSet)
        ensures
            set@ == Set::<Seq<char>>::empty(),
    {
        let set = WordSet { words: Vec::new() };
        assert(set@ =~= Set::<Seq<char>>::empty());
        set
    }

    /// Whether `word` is in the set.
    pub fn contains(&self, word: &str) -> (found: bool)
        ensures
            found == self@.contains(word@),
    {
        let mut i: usize = 0;
        while i < self.words.len()
            invariant
                0 <= i <= self.words@.len(),
                forall|j: int| 0 <= j < i ==> (#[trigger] self.words@[j])@ != word@,
            decreases self.words@.len() - i,
        {
            if str_eq(self.words[i].as_str(), word) {
                return true;
            }
            i += 1;
        }
        false
    }

    /// Adds `word` to the set.
    pub fn insert(&mut self, word: String)
        ensures
            final(self)@ == old(self)@.insert(word@),
    {
        if !self.contains(word.as_str()) {
            let ghost before = self.words@;
            self.words.push(word);
            assert forall|w: Seq<char>| holds_word(self.words@, w) <==> (holds_word(before, w)
                || w == word@) by {
                if holds_word(self.words@, w) {
                    let i = choose|i: int|
                        0 <= i < self.words@.len() && (#[trigger] self.words@[i])@ == w;
                    if i < before.len() {
                        assert(before[i]@ == w);
                    }
                }
                if holds_word(before, w) {
                    let i = choose|i: int| 0 <= i < before.len() && (#[trigger] before[i])@ == w;
                    assert(self.words@[i]@ == w);
                }
                if w == word@ {
                    assert(self.words@[before.len() as int]@ == w);
                }
            }
            assert(self@ =~= old(self)@.insert(word@));
        } else {
            assert(self@ =~= old(self)@.insert(word@));
        }
    }

    /// Adds every word of `other` to the set.
    pub fn extend(&mut self, other: WordSet)
        ensures
            final(self)@ == old(self)@.union(other@),
    {
        let ghost all = other.words@;
        let mut rest = other.words;
        while rest.len() > 0
            invariant
                rest@.len() <= all.len(),
                rest@ == all.take(rest@.len() as int),
                forall|w: Seq<char>|
                    self@.contains(w) <==> (old(self)@.contains(w) || exists|i: int|
                        rest@.len() <= i < all.len() && (#[trigger] all[i])@ == w),
            decreases rest@.len(),
        {
            let ghost before = self@;
            let ghost n = rest@.len() as int;
            let word = rest.pop().unwrap();
            assert(word == all[n - 1]);
            self.insert(word);
            assert forall|w: Seq<char>|
                self@.contains(w) <==> (old(self)@.contains(w) || exists|i: int|
                    n - 1 <= i < all.len() && (#[trigger] all[i])@ == w) by {
                if self@.contains(w) && !old(self)@.contains(w) {
                    if before.contains(w) {
                        let i = choose|i: int| n <= i < all.len() && (#[trigger] all[i])@ == w;
                        assert(n - 1 <= i < all.len() && all[i]@ == w);
                    } else {
                        assert(all[n - 1]@ == w);
                    }
                }
                if exists|i: int| n - 1 <= i < all.len() && (#[trigger] all[i])@ == w {
                    let i = choose|i: int| n - 1 <= i < all.len() && (#[trigger] all[i])@ == w;
                    if i >= n {
                        assert(before.contains(w));
                    }
                }
            }
        }
        assert forall|w: Seq<char>| self@.contains(w) <==> (old(self)@.contains(w) || holds_word(
            all,
            w,
        )) by {
            if holds_word(all, w) {
                let i = choose|i: int| 0 <= i < all.len() && (#[trigger] all[i])@ == w;
                assert(0 <= i < all.len() && all[i]@ == w);
            }
        }
        assert(self@ =~= old(self)@.union(other@));
    }
}

} // verus!

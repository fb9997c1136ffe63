//! A set of words, stored as a duplicate-free list of strings and viewed as
//! a mathematical set of character sequences.

use vstd::prelude::*;
use vstd::seq_lib::*;
use vstd::set_lib::*;

use crate::text::str_eq;

verus! {

/// A finite set of words. The order of the underlying list records first
/// insertion but carries no meaning for the set.
#[derive(Debug)]
pub struct WordSet {
    words: Vec<String>,
}

impl WordSet {
    /// The words, in first-insertion order.
    pub closed spec fn seq_view(self) -> Seq<Seq<char>> {
        self.words@.map_values(|w: String| w@)
    }

    /// The set of words.
    pub open spec fn set_view(self) -> Set<Seq<char>> {
        self.seq_view().to_set()
    }

    /// The underlying list holds no duplicates.
    pub open spec fn wf(self) -> bool {
        self.seq_view().no_duplicates()
    }

    pub fn new() -> (r: Self)
        ensures
            r.wf(),
            r.set_view() =~= Set::<Seq<char>>::empty(),
            r.seq_view() =~= Seq::<Seq<char>>::empty(),
    {
        let r = WordSet { words: Vec::new() };
        proof {
            r.seq_view().unique_seq_to_set();
        }
        r
    }

    pub fn contains(&self, w: &str) -> (r: bool)
        ensures
            r == self.set_view().contains(w@),
    {
        let n = self.words.len();
        for i in 0..n
            invariant
                n == self.words.len(),
                forall|j: int| 0 <= j < i ==> self.seq_view()[j] != w@,
        {
            if str_eq(self.words[i].as_str(), w) {
                proof {
                    assert(self.seq_view()[i as int] == w@);
                }
                return true;
            }
        }
        proof {
            if self.set_view().contains(w@) {
                let j = choose|j: int| 0 <= j < self.seq_view().len() && self.seq_view()[j] == w@;
                assert(self.seq_view()[j] == w@);
            }
        }
        false
    }

    /// Add `w` if it is not present yet.
    pub fn insert(&mut self, w: &str)
        requires
            old(self).wf(),
        ensures
            final(self).wf(),
            final(self).set_view() =~= old(self).set_view().insert(w@),
            final(self).seq_view() == (if old(self).set_view().contains(w@) {
                old(self).seq_view()
            } else {
                old(self).seq_view().push(w@)
            }),
    {
        if !self.contains(w) {
            let ghost old_seq = self.seq_view();
            self.words.push(w.to_owned());
            proof {
                assert(self.seq_view() =~= old_seq.push(w@));
                assert forall|j: int| 0 <= j < old_seq.len() implies old_seq[j] != w@ by {
                    assert(old_seq.to_set().contains(old_seq[j]));
                }
                assert(old_seq.push(w@) =~= old_seq + seq![w@]);
                Seq::<Seq<char>>::lemma_to_set_insert_commutes(old_seq, w@);
            }
        } else {
            proof {
                assert(self.set_view().insert(w@) =~= self.set_view());
            }
        }
    }

    /// The number of words in the set.
    pub fn len(&self) -> (r: usize)
        requires
            self.wf(),
        ensures
            r == self.set_view().len(),
    {
        proof {
            self.seq_view().unique_seq_to_set();
        }
        self.words.len()
    }

    /// The word at list position `i`.
    pub fn get(&self, i: usize) -> (r: &String)
        requires
            i < self.seq_view().len(),
        ensures
            r@ == self.seq_view()[i as int],
            self.set_view().contains(r@),
    {
        proof {
            assert(self.seq_view().to_set().contains(self.seq_view()[i as int]));
        }
        &self.words[i]
    }

    pub fn size(&self) -> (r: usize)
        ensures
            r == self.seq_view().len(),
    {
        self.words.len()
    }

    /// Set equality with another word set.
    pub fn set_eq(&self, other: &WordSet) -> (r: bool)
        requires
            self.wf(),
            other.wf(),
        ensures
            r == (self.set_view() =~= other.set_view()),
    {
        proof {
            self.seq_view().unique_seq_to_set();
            other.seq_view().unique_seq_to_set();
            broadcast use seq_to_set_is_finite;

        }
        if self.words.len() != other.words.len() {
            proof {
                if self.set_view() =~= other.set_view() {
                    assert(self.set_view().len() == other.set_view().len());
                }
            }
            return false;
        }
        let n = self.words.len();
        for i in 0..n
            invariant
                n == self.words.len(),
                forall|j: int| 0 <= j < i ==> other.set_view().contains(self.seq_view()[j]),
        {
            if !other.contains(self.words[i].as_str()) {
                proof {
                    assert(self.set_view().contains(self.seq_view()[i as int]));
                }
                return false;
            }
        }
        proof {
            assert forall|x: Seq<char>| self.set_view().contains(x) implies other.set_view()
                .contains(x) by {
                let j = choose|j: int|
                    0 <= j < self.seq_view().len() && self.seq_view()[j] == x;
                assert(other.set_view().contains(self.seq_view()[j]));
            }
            lemma_subset_equality(self.set_view(), other.set_view());
        }
        true
    }
}

impl Clone for WordSet {
    fn clone(&self) -> (r: Self)
        ensures
            r.seq_view() == self.seq_view(),
            r.set_view() == self.set_view(),
            r.wf() == self.wf(),
    {
        let mut words: Vec<String> = Vec::new();
        let n = self.words.len();
        for i in 0..n
            invariant
                n == self.words.len(),
                words@.map_values(|w: String| w@) =~= self.seq_view().take(i as int),
        {
            words.push(self.words[i].clone());
            proof {
                assert(words@.map_values(|w: String| w@) =~= self.seq_view().take(i as int).push(
                    self.seq_view()[i as int],
                ));
                assert(self.seq_view().take(i + 1) =~= self.seq_view().take(i as int).push(
                    self.seq_view()[i as int],
                ));
            }
        }
        let r = WordSet { words };
        proof {
            assert(self.seq_view().take(n as int) =~= self.seq_view());
            assert(r.seq_view() =~= self.seq_view());
        }
        r
    }
}

} // verus!

//! A lookup from term identifier to the term's primary label.

use vstd::prelude::*;

use crate::text::str_eq;

verus! {

/// Position of the first pair in `pairs` at or after `i` whose key is `key`,
/// or `pairs.len()`.
pub open spec fn key_index(pairs: Seq<(Seq<char>, Seq<char>)>, key: Seq<char>, i: int) -> int
    decreases pairs.len() - i,
{
    if i < 0 {
        key_index(pairs, key, 0)
    } else if i >= pairs.len() {
        pairs.len() as int
    } else if pairs[i].0 == key {
        i
    } else {
        key_index(pairs, key, i + 1)
    }
}

pub proof fn lemma_key_index(pairs: Seq<(Seq<char>, Seq<char>)>, key: Seq<char>, i: int)
    requires
        0 <= i <= pairs.len(),
    ensures
        i <= key_index(pairs, key, i) <= pairs.len(),
        key_index(pairs, key, i) < pairs.len() ==> pairs[key_index(pairs, key, i)].0 == key,
        forall|j: int| i <= j < key_index(pairs, key, i) ==> (#[trigger] pairs[j].0) != key,
    decreases pairs.len() - i,
{
    if i < pairs.len() && pairs[i].0 != key {
        lemma_key_index(pairs, key, i + 1);
    }
}

/// Maps the text of a term identifier to the term's primary label. Each
/// identifier occurs at most once; the first insertion of an identifier wins.
pub struct TermLabelMap {
    pairs: Vec<(String, String)>,
}

impl TermLabelMap {
    /// The `(identifier text, label)` pairs, in insertion order.
    pub closed spec fn pairs_view(self) -> Seq<(Seq<char>, Seq<char>)> {
        self.pairs@.map_values(|p: (String, String)| (p.0@, p.1@))
    }

    /// The label recorded for `key`, if any.
    pub open spec fn spec_get(self, key: Seq<char>) -> Option<Seq<char>> {
        let i = key_index(self.pairs_view(), key, 0);
        if i < self.pairs_view().len() {
            Some(self.pairs_view()[i].1)
        } else {
            None
        }
    }

    pub fn new() -> (r: Self)
        ensures
            r.pairs_view() =~= Seq::<(Seq<char>, Seq<char>)>::empty(),
    {
        TermLabelMap { pairs: Vec::new() }
    }

    /// Record `label` for `key` unless `key` is already present.
    #[verifier::loop_isolation(false)]
    pub fn insert(&mut self, key: &str, label: &str)
        ensures
            final(self).pairs_view() == (if old(self).spec_get(key@) is Some {
                old(self).pairs_view()
            } else {
                old(self).pairs_view().push((key@, label@))
            }),
    {
        proof {
            lemma_key_index(self.pairs_view(), key@, 0);
        }
        let n = self.pairs.len();
        for i in 0..n
            invariant
                n == self.pairs@.len(),
                forall|j: int| 0 <= j < i ==> (#[trigger] self.pairs_view()[j].0) != key@,
        {
            if str_eq(self.pairs[i].0.as_str(), key) {
                proof {
                    assert(self.pairs_view()[i as int].0 == key@);
                }
                return ;
            }
        }
        let ghost old_view = self.pairs_view();
        self.pairs.push((key.to_owned(), label.to_owned()));
        proof {
            assert(self.pairs_view() =~= old_view.push((key@, label@)));
        }
    }

    /// Look up the label for `key`.
    pub fn get(&self, key: &str) -> (r: Option<&String>)
        ensures
            r is Some <==> self.spec_get(key@) is Some,
            r is Some ==> r->0@ == self.spec_get(key@)->0,
    {
        proof {
            lemma_key_index(self.pairs_view(), key@, 0);
        }
        let n = self.pairs.len();
        for i in 0..n
            invariant
                n == self.pairs@.len(),
                forall|j: int| 0 <= j < i ==> (#[trigger] self.pairs_view()[j].0) != key@,
        {
            if str_eq(self.pairs[i].0.as_str(), key) {
                proof {
                    assert(self.pairs_view()[i as int].0 == key@);
                    lemma_key_index_eq(self.pairs_view(), key@, i as int);
                }
                return Some(&self.pairs[i].1);
            }
        }
        None
    }

    /// The number of recorded pairs.
    pub fn len(&self) -> (r: usize)
        ensures
            r == self.pairs_view().len(),
    {
        self.pairs.len()
    }
}

/// If the keys before `t` differ from `key` and the key at `t` is `key`,
/// then `t` is where the lookup lands.
pub proof fn lemma_key_index_eq(pairs: Seq<(Seq<char>, Seq<char>)>, key: Seq<char>, t: int)
    requires
        0 <= t <= pairs.len(),
        forall|j: int| 0 <= j < t ==> (#[trigger] pairs[j].0) != key,
        t == pairs.len() || pairs[t].0 == key,
    ensures
        key_index(pairs, key, 0) == t,
{
    lemma_key_index_eq_rec(pairs, key, 0, t);
}

proof fn lemma_key_index_eq_rec(pairs: Seq<(Seq<char>, Seq<char>)>, key: Seq<char>, i: int, t: int)
    requires
        0 <= i <= t <= pairs.len(),
        forall|j: int| i <= j < t ==> (#[trigger] pairs[j].0) != key,
        t == pairs.len() || pairs[t].0 == key,
    ensures
        key_index(pairs, key, i) == t,
    decreases t - i,
{
    if i < t {
        lemma_key_index_eq_rec(pairs, key, i + 1, t);
    }
}

} // verus!

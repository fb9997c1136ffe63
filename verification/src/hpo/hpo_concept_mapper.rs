//! An inverted index over concepts of one fixed word count.
//!
//! Every concept is listed under each word of its non-stop set, so a probe
//! needs to inspect only the bucket of one word of the query set. A probe
//! returns the earliest added concept whose word set equals the query set.

use vstd::prelude::*;
use vstd::std_specs::vec::spec_vec_len;

use crate::hpo::hpo_concept::{concept_like, HpoConcept};
use crate::text::str_eq;
use crate::word_set::WordSet;

verus! {

/// Index of the first concept in `cs` at or after `i` whose word set is `s`,
/// or `cs.len()` if there is none.
pub open spec fn first_match_index(cs: Seq<HpoConcept>, s: Set<Seq<char>>, i: int) -> int
    decreases cs.len() - i,
{
    if i < 0 {
        first_match_index(cs, s, 0)
    } else if i >= cs.len() {
        cs.len() as int
    } else if cs[i].word_set() == s {
        i
    } else {
        first_match_index(cs, s, i + 1)
    }
}

/// The first concept of `cs`, in insertion order, whose word set is `s`.
pub open spec fn first_concept_match(cs: Seq<HpoConcept>, s: Set<Seq<char>>) -> Option<
    HpoConcept,
> {
    let i = first_match_index(cs, s, 0);
    if i < cs.len() {
        Some(cs[i])
    } else {
        None
    }
}

pub proof fn lemma_first_match_index(cs: Seq<HpoConcept>, s: Set<Seq<char>>, i: int)
    requires
        0 <= i <= cs.len(),
    ensures
        i <= first_match_index(cs, s, i) <= cs.len(),
        first_match_index(cs, s, i) < cs.len() ==> cs[first_match_index(cs, s, i)].word_set() == s,
        forall|j: int| i <= j < first_match_index(cs, s, i) ==> (#[trigger] cs[j].word_set()) != s,
    decreases cs.len() - i,
{
    if i < cs.len() && cs[i].word_set() != s {
        lemma_first_match_index(cs, s, i + 1);
    }
}

/// Dictionary index for concepts whose non-stop word set has exactly
/// `n_words` words. Concepts are kept in insertion order; `buckets` maps
/// each word to the (ascending) positions of the concepts that contain it.
pub struct HpoConceptMapper {
    n_words: usize,
    concepts: Vec<HpoConcept>,
    buckets: Vec<(String, Vec<usize>)>,
}

impl HpoConceptMapper {
    /// The indexed concepts, in insertion order.
    pub closed spec fn concepts_view(self) -> Seq<HpoConcept> {
        self.concepts@
    }

    pub closed spec fn spec_n_words(self) -> nat {
        self.n_words as nat
    }

    /// Bucket `k` lists exactly the positions, in ascending order, of the
    /// concepts whose word set contains the bucket's word.
    spec fn bucket_ok(self, k: int) -> bool {
        let key = self.buckets@[k].0@;
        let idxs = self.buckets@[k].1@;
        &&& forall|t1: int, t2: int| 0 <= t1 < t2 < idxs.len() ==> idxs[t1] < idxs[t2]
        &&& forall|t: int| 0 <= t < idxs.len() ==> idxs[t] < self.concepts@.len()
        &&& forall|t: int|
            0 <= t < idxs.len() ==> #[trigger] self.concepts@[idxs[t] as int].word_set().contains(
                key,
            )
        &&& forall|i: int|
            0 <= i < self.concepts@.len() && #[trigger] self.concepts@[i].word_set().contains(key)
                ==> idxs.contains(i as usize)
    }

    pub closed spec fn wf(self) -> bool {
        &&& self.n_words >= 1
        &&& forall|i: int|
            0 <= i < self.concepts@.len() ==> (#[trigger] self.concepts@[i].wf()
                && self.concepts@[i].word_set().len() == self.spec_n_words())
        &&& forall|k1: int, k2: int|
            0 <= k1 < k2 < self.buckets@.len() ==> self.buckets@[k1].0@ != self.buckets@[k2].0@
        &&& forall|k: int| 0 <= k < self.buckets@.len() ==> self.bucket_ok(k)
        &&& forall|i: int, w: Seq<char>|
            0 <= i < self.concepts@.len() && #[trigger] self.concepts@[i].word_set().contains(w)
                ==> exists|k: int| 0 <= k < self.buckets@.len() && self.buckets@[k].0@ == w
    }

    /// An empty index for concepts of `n` words.
    pub fn new(n: usize) -> (r: Self)
        requires
            n >= 1,
        ensures
            r.wf(),
            r.spec_n_words() == n,
            r.concepts_view() =~= Seq::<HpoConcept>::empty(),
    {
        HpoConceptMapper { n_words: n, concepts: Vec::new(), buckets: Vec::new() }
    }

    /// Position of the bucket keyed by `w`, if any.
    fn find_bucket(&self, w: &str) -> (r: Option<usize>)
        ensures
            match r {
                Some(k) => k < self.buckets@.len() && self.buckets@[k as int].0@ == w@,
                None => forall|k: int| 0 <= k < self.buckets@.len() ==> self.buckets@[k].0@ != w@,
            },
    {
        let n = self.buckets.len();
        for k in 0..n
            invariant
                n == self.buckets.len(),
                forall|j: int| 0 <= j < k ==> self.buckets@[j].0@ != w@,
        {
            if str_eq(self.buckets[k].0.as_str(), w) {
                return Some(k);
            }
        }
        None
    }

    /// Probe the index with a query word set: return the earliest added
    /// concept whose word set equals it.
    #[verifier::loop_isolation(false)]
    pub fn get_match(&self, words: &WordSet) -> (r: Option<HpoConcept>)
        requires
            self.wf(),
            words.wf(),
        ensures
            r is Some <==> first_concept_match(self.concepts_view(), words.set_view()) is Some,
            r is Some ==> concept_like(
                r->0,
                first_concept_match(self.concepts_view(), words.set_view())->0,
            ),
    {
        let ghost cs = self.concepts@;
        let ghost s = words.set_view();
        proof {
            lemma_first_match_index(cs, s, 0);
        }
        if words.size() == 0 {
            proof {
                // every indexed concept has n_words >= 1 words, the query set is empty
                let fm = first_match_index(cs, s, 0);
                if fm < cs.len() {
                    assert(self.concepts@[fm].wf());
                    assert(cs[fm].word_set() == s);
                    assert(words.seq_view() =~= Seq::<Seq<char>>::empty());
                    assert(s =~= Set::<Seq<char>>::empty());
                    assert(s.len() == 0);
                    assert(cs[fm].word_set().len() >= 1);
                }
            }
            return None;
        }
        let w0 = words.get(0);
        proof {
            assert(words.seq_view().to_set().contains(words.seq_view()[0]));
        }
        match self.find_bucket(w0.as_str()) {
            None => {
                proof {
                    let fm = first_match_index(cs, s, 0);
                    if fm < cs.len() {
                        assert(cs[fm].word_set().contains(w0@));
                        let k = choose|k: int|
                            0 <= k < self.buckets@.len() && self.buckets@[k].0@ == w0@;
                        assert(false);
                    }
                }
                None
            },
            Some(k) => {
                let idxs_len = self.buckets[k].1.len();
                for t in 0..idxs_len
                    invariant
                        self.wf(),
                        words.wf(),
                        cs == self.concepts@,
                        s == words.set_view(),
                        k < self.buckets@.len(),
                        self.buckets@[k as int].0@ == w0@,
                        s.contains(w0@),
                        idxs_len == self.buckets@[k as int].1@.len(),
                        forall|t2: int|
                            0 <= t2 < t ==> self.concepts@[self.buckets@[k as int].1@[t2] as int]
                                .word_set() != s,
                {
                    let idx = self.buckets[k].1[t];
                    proof {
                        assert(self.bucket_ok(k as int));
                        assert(self.buckets@[k as int].1@[t as int] < self.concepts@.len());
                        assert(self.concepts@[idx as int].wf());
                    }
                    if self.concepts[idx].non_stop_set_equal(words) {
                        proof {
                            let idxs = self.buckets@[k as int].1@;
                            let fm = first_match_index(cs, s, 0);
                            assert(cs[idx as int].word_set() == s);
                            assert(fm <= idx);
                            if fm < idx {
                                assert(cs[fm].word_set() == s);
                                assert(self.concepts@[fm].word_set().contains(
                                    self.buckets@[k as int].0@,
                                ));
                                assert(idxs.contains(fm as usize));
                                let t2 = choose|t2: int|
                                    0 <= t2 < idxs.len() && idxs[t2] == fm as usize;
                                if t2 >= t {
                                    if t2 > t {
                                        assert(idxs[t as int] < idxs[t2]);
                                    }
                                    assert(false);
                                }
                                assert(false);
                            }
                            assert(fm == idx);
                        }
                        return Some(self.concepts[idx].clone());
                    }
                }
                proof {
                    let idxs = self.buckets@[k as int].1@;
                    let fm = first_match_index(cs, s, 0);
                    lemma_first_match_index(cs, s, 0);
                    if fm < cs.len() {
                        assert(cs[fm].word_set() == s);
                        assert(self.bucket_ok(k as int));
                        assert(self.concepts@[fm].word_set().contains(
                            self.buckets@[k as int].0@,
                        ));
                        assert(fm <= usize::MAX) by {
                            broadcast use vstd::std_specs::vec::axiom_spec_len;

                            assert(spec_vec_len(&self.concepts) == cs.len());
                        }
                        assert(idxs.contains(fm as usize));
                        let t2 = choose|t2: int| 0 <= t2 < idxs.len() && idxs[t2] == fm as usize;
                        assert(idxs[t2] as int == fm);
                        assert(cs[idxs[t2] as int].word_set() != s);
                        assert(false);
                    }
                }
                None
            },
        }
    }

    /// Insert `concept` into the bucket of every word of its non-stop set.
    #[verifier::loop_isolation(false)]
    pub fn add_concept(&mut self, concept: &HpoConcept)
        requires
            old(self).wf(),
            concept.wf(),
            concept.word_set().len() == old(self).spec_n_words(),
        ensures
            final(self).wf(),
            final(self).spec_n_words() == old(self).spec_n_words(),
            final(self).concepts_view().len() == old(self).concepts_view().len() + 1,
            final(self).concepts_view().take(old(self).concepts_view().len() as int) =~= old(
                self,
            ).concepts_view(),
            concept_like(final(self).concepts_view().last(), *concept),
    {
        let idx = self.concepts.len();
        let ghost old_cs = self.concepts@;
        self.concepts.push(concept.clone());
        let ws = concept.get_non_stop_words();
        let m = ws.size();
        let ghost wseq = ws.seq_view();
        proof {
            assert forall|k: int| 0 <= k < self.buckets@.len() implies bucket_mid(
                self.buckets@[k].0@,
                self.buckets@[k].1@,
                self.concepts@,
                idx,
                wseq.take(0).contains(self.buckets@[k].0@),
            ) by {
                assert(old(self).bucket_ok(k));
                assert(!wseq.take(0).contains(self.buckets@[k].0@));
            }
        }
        for wi in 0..m
            invariant
                m == wseq.len(),
                wseq == ws.seq_view(),
                ws.set_view() == concept.word_set(),
                ws.wf(),
                idx == old_cs.len(),
                self.concepts@.len() == idx + 1,
                self.concepts@ =~= old_cs.push(self.concepts@[idx as int]),
                concept_like(self.concepts@[idx as int], *concept),
                self.concepts@[idx as int].wf(),
                self.n_words == old(self).n_words,
                n_words_ok(self.concepts@, self.n_words as nat),
                self.n_words >= 1,
                keys_distinct(self.buckets@),
                forall|k: int|
                    0 <= k < self.buckets@.len() ==> bucket_mid(
                        self.buckets@[k].0@,
                        self.buckets@[k].1@,
                        self.concepts@,
                        idx,
                        wseq.take(wi as int).contains(#[trigger] self.buckets@[k].0@),
                    ),
                // all words processed so far have a bucket
                forall|j: int|
                    0 <= j < wi ==> exists|k: int|
                        0 <= k < self.buckets@.len() && self.buckets@[k].0@ == #[trigger] wseq[j],
                // every word of an old concept keeps a bucket
                forall|i: int, w: Seq<char>|
                    0 <= i < old_cs.len() && #[trigger] old_cs[i].word_set().contains(w)
                        ==> exists|k: int|
                        0 <= k < self.buckets@.len() && self.buckets@[k].0@ == w,
        {
            let w = ws.get(wi);
            proof {
                // the current word was not processed before: the list has no duplicates
                if wseq.take(wi as int).contains(w@) {
                    let j = choose|j: int| 0 <= j < wi && wseq.take(wi as int)[j] == w@;
                    assert(wseq[j] == wseq[wi as int]);
                    assert(false);
                }
                assert(wseq.take(wi + 1) =~= wseq.take(wi as int).push(w@));
            }
            match self.find_bucket(w.as_str()) {
                Some(k) => {
                    let ghost old_buckets = self.buckets@;
                    push_bucket_index(&mut self.buckets, k, idx);
                    proof {
                        let key = old_buckets[k as int].0@;
                        let old_idxs = old_buckets[k as int].1@;
                        let new_idxs = self.buckets@[k as int].1@;
                        assert(key == w@);
                        assert(bucket_mid(key, old_idxs, self.concepts@, idx, false));
                        assert(self.concepts@[idx as int].word_set().contains(w@)) by {
                            assert(wseq.to_set().contains(wseq[wi as int]));
                        }
                        assert forall|t1: int, t2: int|
                            0 <= t1 < t2 < new_idxs.len() implies new_idxs[t1]
                            < new_idxs[t2] by {
                            if t2 == new_idxs.len() - 1 {
                                assert(new_idxs[t1] == old_idxs[t1]);
                                assert(old_idxs[t1] < idx);
                            }
                        }
                        assert forall|i: int|
                            0 <= i < idx && #[trigger] self.concepts@[i].word_set().contains(
                                key,
                            ) implies new_idxs.contains(i as usize) by {
                            assert(old_idxs.contains(i as usize));
                            let tt = choose|tt: int|
                                0 <= tt < old_idxs.len() && old_idxs[tt] == i as usize;
                            assert(new_idxs[tt] == i as usize);
                        }
                        assert(new_idxs.last() == idx);
                        assert(bucket_mid(key, new_idxs, self.concepts@, idx, true));
                        assert forall|k2: int|
                            0 <= k2 < self.buckets@.len() implies bucket_mid(
                            self.buckets@[k2].0@,
                            self.buckets@[k2].1@,
                            self.concepts@,
                            idx,
                            wseq.take(wi + 1).contains(#[trigger] self.buckets@[k2].0@),
                        ) by {
                            if k2 != k as int {
                                assert(self.buckets@[k2] == old_buckets[k2]);
                                assert(self.buckets@[k2].0@ != w@);
                                assert(wseq.take(wi + 1).contains(self.buckets@[k2].0@)
                                    == wseq.take(wi as int).contains(self.buckets@[k2].0@));
                            } else {
                                assert(wseq.take(wi + 1).contains(w@)) by {
                                    assert(wseq.take(wi + 1).last() == w@);
                                }
                            }
                        }
                        assert forall|j: int| 0 <= j < wi + 1 implies exists|kk: int|
                            0 <= kk < self.buckets@.len() && self.buckets@[kk].0@
                                == #[trigger] wseq[j] by {
                            if j == wi {
                                assert(self.buckets@[k as int].0@ == wseq[j]);
                            } else {
                                let kk = choose|kk: int|
                                    0 <= kk < old_buckets.len() && old_buckets[kk].0@ == wseq[j];
                                assert(self.buckets@[kk].0@ == wseq[j]);
                            }
                        }
                        assert forall|i2: int, ww: Seq<char>|
                            0 <= i2 < old_cs.len() && #[trigger] old_cs[i2].word_set().contains(
                                ww,
                            ) implies exists|kk: int|
                            0 <= kk < self.buckets@.len() && self.buckets@[kk].0@ == ww by {
                            let kk = choose|kk: int|
                                0 <= kk < old_buckets.len() && old_buckets[kk].0@ == ww;
                            assert(self.buckets@[kk].0@ == ww);
                        }
                    }
                },
                None => {
                    let mut v: Vec<usize> = Vec::new();
                    v.push(idx);
                    let ghost old_buckets = self.buckets@;
                    self.buckets.push((w.clone(), v));
                    proof {
                        assert(self.concepts@[idx as int].word_set().contains(w@)) by {
                            assert(wseq.to_set().contains(wseq[wi as int]));
                        }
                        let kn = old_buckets.len() as int;
                        assert(self.buckets@[kn].0@ == w@);
                        assert(self.buckets@[kn].1@ =~= seq![idx]);
                        // no old concept holds this word, else a bucket would exist
                        assert forall|i: int|
                            0 <= i < idx implies !(#[trigger] self.concepts@[i].word_set()
                            .contains(w@)) by {
                            if self.concepts@[i].word_set().contains(w@) {
                                assert(old_cs[i].word_set().contains(w@));
                                let kx = choose|kx: int|
                                    0 <= kx < old_buckets.len() && old_buckets[kx].0@ == w@;
                                assert(false);
                            }
                        }
                        assert(bucket_mid(w@, self.buckets@[kn].1@, self.concepts@, idx, true));
                        assert(wseq.take(wi + 1).contains(w@)) by {
                            assert(wseq.take(wi + 1).last() == w@);
                        }
                        assert forall|k2: int|
                            0 <= k2 < self.buckets@.len() implies bucket_mid(
                            self.buckets@[k2].0@,
                            self.buckets@[k2].1@,
                            self.concepts@,
                            idx,
                            wseq.take(wi + 1).contains(#[trigger] self.buckets@[k2].0@),
                        ) by {
                            if k2 < kn {
                                assert(self.buckets@[k2] == old_buckets[k2]);
                                assert(self.buckets@[k2].0@ != w@);
                                assert(wseq.take(wi + 1).contains(self.buckets@[k2].0@)
                                    == wseq.take(wi as int).contains(self.buckets@[k2].0@));
                            }
                        }
                        assert(keys_distinct(self.buckets@)) by {
                            assert forall|k1: int, k2: int|
                                0 <= k1 < k2 < self.buckets@.len() implies self.buckets@[k1].0@
                                != self.buckets@[k2].0@ by {
                                if k2 == kn {
                                    assert(old_buckets[k1].0@ != w@);
                                }
                            }
                        }
                        assert forall|j: int| 0 <= j < wi + 1 implies exists|kk: int|
                            0 <= kk < self.buckets@.len() && self.buckets@[kk].0@
                                == #[trigger] wseq[j] by {
                            if j == wi {
                                assert(self.buckets@[kn].0@ == wseq[j]);
                            } else {
                                let kk = choose|kk: int|
                                    0 <= kk < old_buckets.len() && old_buckets[kk].0@ == wseq[j];
                                assert(self.buckets@[kk].0@ == wseq[j]);
                            }
                        }
                        assert forall|i2: int, ww: Seq<char>|
                            0 <= i2 < old_cs.len() && #[trigger] old_cs[i2].word_set().contains(
                                ww,
                            ) implies exists|kk: int|
                            0 <= kk < self.buckets@.len() && self.buckets@[kk].0@ == ww by {
                            let kk = choose|kk: int|
                                0 <= kk < old_buckets.len() && old_buckets[kk].0@ == ww;
                            assert(self.buckets@[kk].0@ == ww);
                        }
                    }
                },
            }
        }
        proof {
            assert(self.concepts@.take(old_cs.len() as int) =~= old_cs);
            assert(wseq.take(m as int) =~= wseq);
            assert forall|k: int| 0 <= k < self.buckets@.len() implies self.bucket_ok(k) by {
                let key = self.buckets@[k].0@;
                let idxs = self.buckets@[k].1@;
                assert(bucket_mid(key, idxs, self.concepts@, idx, wseq.contains(key)));
                assert forall|i: int|
                    0 <= i < self.concepts@.len() && #[trigger] self.concepts@[i].word_set()
                        .contains(key) implies idxs.contains(i as usize) by {
                    if i < idx {
                    } else {
                        assert(concept.word_set().contains(key));
                        assert(wseq.to_set().contains(key));
                        assert(wseq.contains(key));
                        assert(idxs.last() == idx);
                        assert(idxs[idxs.len() - 1] == i as usize);
                    }
                }
            }
            assert forall|i: int, w: Seq<char>|
                0 <= i < self.concepts@.len() && #[trigger] self.concepts@[i].word_set().contains(
                    w,
                ) implies exists|k: int|
                0 <= k < self.buckets@.len() && self.buckets@[k].0@ == w by {
                if i == idx {
                    assert(wseq.to_set().contains(w));
                    let j = choose|j: int| 0 <= j < wseq.len() && wseq[j] == w;
                } else {
                    assert(old_cs[i].word_set().contains(w));
                }
            }
        }
    }
}

/// Every concept a well-formed index holds is well formed and has the
/// index's word count.
pub proof fn lemma_mapper_wf_concepts(m: HpoConceptMapper)
    requires
        m.wf(),
    ensures
        forall|j: int|
            0 <= j < m.concepts_view().len() ==> ((#[trigger] m.concepts_view()[j]).wf()
                && m.concepts_view()[j].word_set().len() == m.spec_n_words()),
{
}

/// All concepts are well-formed and have exactly `n` words.
spec fn n_words_ok(cs: Seq<HpoConcept>, n: nat) -> bool {
    forall|i: int| 0 <= i < cs.len() ==> (#[trigger] cs[i].wf() && cs[i].word_set().len() == n)
}

/// Bucket keys are pairwise distinct.
spec fn keys_distinct(buckets: Seq<(String, Vec<usize>)>) -> bool {
    forall|k1: int, k2: int| 0 <= k1 < k2 < buckets.len() ==> buckets[k1].0@ != buckets[k2].0@
}

/// State of a bucket while one new concept (at position `idx`, the last of
/// `cs`) is being inserted: the bucket is correct for all older concepts, and
/// lists `idx` at its end exactly when its key was processed (`touched`).
spec fn bucket_mid(
    key: Seq<char>,
    idxs: Seq<usize>,
    cs: Seq<HpoConcept>,
    idx: usize,
    touched: bool,
) -> bool {
    &&& forall|t1: int, t2: int| 0 <= t1 < t2 < idxs.len() ==> idxs[t1] < idxs[t2]
    &&& forall|t: int|
        0 <= t < idxs.len() ==> (#[trigger] idxs[t] < idx || (touched && idxs[t] == idx && t
            == idxs.len() - 1))
    &&& idx < cs.len()
    &&& forall|t: int|
        0 <= t < idxs.len() ==> #[trigger] cs[idxs[t] as int].word_set().contains(key)
    &&& forall|i: int|
        0 <= i < idx && #[trigger] cs[i].word_set().contains(key) ==> idxs.contains(i as usize)
    &&& (touched ==> idxs.len() >= 1 && idxs.last() == idx)
}

/// Append `idx` to the index list of bucket `k`.
fn push_bucket_index(buckets: &mut Vec<(String, Vec<usize>)>, k: usize, idx: usize)
    requires
        k < old(buckets)@.len(),
    ensures
        final(buckets)@.len() == old(buckets)@.len(),
        final(buckets)@[k as int].0 == old(buckets)@[k as int].0,
        final(buckets)@[k as int].1@ == old(buckets)@[k as int].1@.push(idx),
        forall|j: int|
            0 <= j < old(buckets)@.len() && j != k ==> final(buckets)@[j] == old(buckets)@[j],
{
    let pair = &mut buckets[k];
    pair.1.push(idx);
}

} // verus!

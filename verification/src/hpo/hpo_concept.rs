//! One surface form of an ontology term (a label or a synonym), represented
//! as the set of its lowercased non-stop words together with its term
//! identifier.
//!
//! Matching against text is set equality over these words, so word order in
//! the surface form carries no meaning.

use vstd::prelude::*;
use vstd::seq_lib::*;

use crate::stopwords::{is_stop, spec_is_stop};
use crate::term_id::TermId;
use crate::text::{exec_is_space, is_space, lc_seq, lc_str};
use crate::word_set::WordSet;

verus! {

/// Length of the run of non-whitespace characters starting at `i`.
pub open spec fn word_run_len(s: Seq<char>, i: int) -> nat
    decreases s.len() - i,
{
    if i < s.len() && !is_space(s[i]) {
        (1 + word_run_len(s, i + 1)) as nat
    } else {
        0
    }
}

pub proof fn lemma_word_run_len(s: Seq<char>, i: int)
    requires
        0 <= i <= s.len(),
    ensures
        i + word_run_len(s, i) <= s.len(),
        forall|j: int| i <= j < i + word_run_len(s, i) ==> !is_space(s[j]),
        i + word_run_len(s, i) < s.len() ==> is_space(s[i + word_run_len(s, i)]),
        i < s.len() && !is_space(s[i]) ==> word_run_len(s, i) >= 1,
    decreases s.len() - i,
{
    if i < s.len() && !is_space(s[i]) {
        lemma_word_run_len(s, i + 1);
    }
}

pub proof fn lemma_word_run_len_eq(s: Seq<char>, i: int, e: int)
    requires
        0 <= i <= e <= s.len(),
        forall|j: int| i <= j < e ==> !is_space(s[j]),
        e == s.len() || is_space(s[e]),
    ensures
        word_run_len(s, i) == e - i,
    decreases e - i,
{
    if i < e {
        lemma_word_run_len_eq(s, i + 1, e);
    }
}

/// The whitespace-separated words of `s` from position `i` on.
pub open spec fn split_words_from(s: Seq<char>, i: int) -> Seq<Seq<char>>
    decreases s.len() - i,
    when 0 <= i
    via split_words_from_dec
{
    if i >= s.len() {
        Seq::empty()
    } else if is_space(s[i]) {
        split_words_from(s, i + 1)
    } else {
        let e = i + word_run_len(s, i);
        seq![s.subrange(i, e)] + split_words_from(s, e)
    }
}

#[via_fn]
proof fn split_words_from_dec(s: Seq<char>, i: int) {
    if 0 <= i < s.len() && !is_space(s[i]) {
        lemma_word_run_len(s, i);
    }
}

/// The whitespace-separated words of `s`.
pub open spec fn split_words(s: Seq<char>) -> Seq<Seq<char>> {
    split_words_from(s, 0)
}

/// The lowercased non-stop words of `s`, as a list in first-occurrence
/// order: each whitespace-separated word is lowercased, and the stop words
/// are dropped.
pub open spec fn non_stop_words_of(s: Seq<char>) -> Seq<Seq<char>> {
    split_words(s).map_values(|w: Seq<char>| lc_seq(w)).filter(|w: Seq<char>| !spec_is_stop(w))
}

/// The set of lowercased non-stop words of `s`. Two surface forms match
/// exactly when these sets are equal.
pub open spec fn concept_word_set(s: Seq<char>) -> Set<Seq<char>> {
    non_stop_words_of(s).to_set()
}

/// `a` carries the same information as `b`: same surface text, same term
/// identifier, same word set. Clones of a concept are alike in this sense.
pub open spec fn concept_like(a: HpoConcept, b: HpoConcept) -> bool {
    &&& a.spec_original_concept() == b.spec_original_concept()
    &&& a.spec_term_id() == b.spec_term_id()
    &&& a.word_set() == b.word_set()
    &&& (a.wf() <==> b.wf())
}

/// A well-formed concept's word set is exactly the non-stop word set of its
/// original surface text.
pub proof fn lemma_wf_word_set(c: HpoConcept)
    requires
        c.wf(),
    ensures
        c.word_set() == concept_word_set(c.spec_original_concept()),
{
    assert(c.word_set() =~= concept_word_set(c.spec_original_concept()));
}

/// Every word of a well-formed concept's word set is a non-stop word.
pub proof fn lemma_wf_words_non_stop(c: HpoConcept)
    requires
        c.wf(),
    ensures
        forall|w: Seq<char>| #[trigger] c.word_set().contains(w) ==> !spec_is_stop(w),
{
    lemma_wf_word_set(c);
    let ws = non_stop_words_of(c.spec_original_concept());
    assert forall|w: Seq<char>| #[trigger] c.word_set().contains(w) implies !spec_is_stop(w) by {
        assert(ws.to_set().contains(w));
        let i = choose|i: int| 0 <= i < ws.len() && ws[i] == w;
        split_words(c.spec_original_concept()).map_values(
            |x: Seq<char>| crate::text::lc_seq(x),
        ).lemma_filter_pred((|x: Seq<char>| !spec_is_stop(x)), i);
    }
}

/// One ontology surface form: the original text, the set of its lowercased
/// non-stop words, and the identifier of the term it names.
#[derive(Debug)]
pub struct HpoConcept {
    original_concept: String,
    non_stop_words: WordSet,
    term_id: TermId,
}

impl HpoConcept {
    pub closed spec fn spec_original_concept(self) -> Seq<char> {
        self.original_concept@
    }

    pub closed spec fn spec_term_id(self) -> Seq<char> {
        self.term_id.spec_value()
    }

    /// The set of lowercased non-stop words.
    pub closed spec fn word_set(self) -> Set<Seq<char>> {
        self.non_stop_words.set_view()
    }

    pub closed spec fn wf(self) -> bool {
        &&& self.non_stop_words.wf()
        &&& self.word_set() =~= concept_word_set(self.spec_original_concept())
    }

    /// Split `concept` on whitespace, lowercase each word, drop the stop
    /// words, and keep the rest as the concept's word set.
    pub fn new(concept: &str, tid: TermId) -> (r: Self)
        ensures
            r.wf(),
            r.spec_original_concept() == concept@,
            r.spec_term_id() == tid.spec_value(),
            r.word_set() =~= concept_word_set(concept@),
    {
        let len = concept.unicode_len();
        let mut ns = WordSet::new();
        let ghost mut processed: Seq<Seq<char>> = Seq::empty();
        let mut i: usize = 0;
        while i < len
            invariant
                0 <= i <= len,
                len == concept@.len(),
                ns.wf(),
                split_words(concept@) =~= processed + split_words_from(concept@, i as int),
                ns.set_view() =~= processed.map_values(|w: Seq<char>| lc_seq(w)).filter(
                    |w: Seq<char>| !spec_is_stop(w),
                ).to_set(),
            decreases len - i,
        {
            if exec_is_space(concept.get_char(i)) {
                i = i + 1;
            } else {
                let mut e = i + 1;
                while e < len && !exec_is_space(concept.get_char(e))
                    invariant
                        i < e <= len,
                        len == concept@.len(),
                        forall|j: int| i <= j < e ==> !is_space(concept@[j]),
                        !is_space(concept@[i as int]),
                    decreases len - e,
                {
                    e = e + 1;
                }
                proof {
                    lemma_word_run_len_eq(concept@, i as int, e as int);
                }
                let word = concept.substring_char(i, e);
                let lcw = lc_str(word);
                let ghost old_processed = processed;
                let ghost old_lc = old_processed.map_values(|w: Seq<char>| lc_seq(w));
                if !is_stop(word) {
                    ns.insert(lcw.as_str());
                }
                proof {
                    processed = processed.push(word@);
                    assert(processed.map_values(|w: Seq<char>| lc_seq(w)) =~= old_lc.push(
                        lc_seq(word@),
                    ));
                    old_lc.lemma_filter_push(
                        lc_seq(word@),
                        (|w: Seq<char>| !spec_is_stop(w)),
                    );
                    if !spec_is_stop(lc_seq(word@)) {
                        assert(processed.map_values(|w: Seq<char>| lc_seq(w)).filter(
                            |w: Seq<char>| !spec_is_stop(w),
                        ) =~= old_lc.filter(|w: Seq<char>| !spec_is_stop(w)) + seq![
                            lc_seq(word@),
                        ]);
                        Seq::<Seq<char>>::lemma_to_set_insert_commutes(
                            old_lc.filter(|w: Seq<char>| !spec_is_stop(w)),
                            lc_seq(word@),
                        );
                    } else {
                        assert(processed.map_values(|w: Seq<char>| lc_seq(w)).filter(
                            |w: Seq<char>| !spec_is_stop(w),
                        ) =~= old_lc.filter(|w: Seq<char>| !spec_is_stop(w)));
                    }
                }
                i = e;
            }
        }
        let r = HpoConcept { original_concept: concept.to_owned(), non_stop_words: ns, term_id: tid };
        proof {
            assert(split_words(concept@) =~= processed);
            assert(processed.map_values(|w: Seq<char>| lc_seq(w)) =~= split_words(
                concept@,
            ).map_values(|w: Seq<char>| lc_seq(w)));
        }
        r
    }

    pub fn get_original_concept(&self) -> (r: &str)
        ensures
            r@ == self.spec_original_concept(),
    {
        self.original_concept.as_str()
    }

    pub fn get_non_stop_words(&self) -> (r: &WordSet)
        ensures
            r.set_view() == self.word_set(),
            self.wf() ==> r.wf(),
    {
        &self.non_stop_words
    }

    /// Set equality of this concept's words with another word set.
    pub fn non_stop_set_equal(&self, other_non_stop_words: &WordSet) -> (r: bool)
        requires
            self.wf(),
            other_non_stop_words.wf(),
        ensures
            r == (self.word_set() =~= other_non_stop_words.set_view()),
    {
        self.non_stop_words.set_eq(other_non_stop_words)
    }

    pub fn get_hpo_id(&self) -> (r: TermId)
        ensures
            r.spec_value() == self.spec_term_id(),
    {
        self.term_id.clone()
    }

    pub fn hpo_id_equal(&self, other_tid: &TermId) -> (r: bool)
        ensures
            r == (self.spec_term_id() == other_tid.spec_value()),
    {
        self.term_id.matches(other_tid)
    }

    /// The number of non-stop words.
    pub fn word_count(&self) -> (r: usize)
        requires
            self.wf(),
        ensures
            r == self.word_set().len(),
    {
        self.non_stop_words.len()
    }

    /// Whether the original surface form contains a comma. Used to break
    /// ties between equally long matches: a form without a comma wins.
    pub fn has_comma(&self) -> (r: bool)
        ensures
            r == self.spec_original_concept().contains(','),
    {
        let s = self.original_concept.as_str();
        let len = s.unicode_len();
        for i in 0..len
            invariant
                len == self.spec_original_concept().len(),
                s@ == self.spec_original_concept(),
                forall|j: int| 0 <= j < i ==> s@[j] != ',',
        {
            if s.get_char(i) == ',' {
                return true;
            }
        }
        proof {
            assert(!self.spec_original_concept().contains(','));
        }
        false
    }
}

impl Clone for HpoConcept {
    fn clone(&self) -> (r: Self)
        ensures
            r.spec_original_concept() == self.spec_original_concept(),
            r.spec_term_id() == self.spec_term_id(),
            r.word_set() == self.word_set(),
            r.wf() == self.wf(),
            concept_like(r, *self),
    {
        HpoConcept {
            original_concept: self.original_concept.clone(),
            non_stop_words: self.non_stop_words.clone(),
            term_id: self.term_id.clone(),
        }
    }
}

} // verus!

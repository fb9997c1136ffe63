//! The dictionary: one inverted index per word count.
//!
//! A surface form with `n` non-stop words is indexed under size `n`; a query
//! of `k` tokens is dispatched to the index of size `k`. Surface forms whose
//! word set is empty (single stop words) are never indexed, and a form with
//! more than [`MAX_HPO_TERM_TOKEN_COUNT`] words is a fatal build error.

use vstd::prelude::*;
use vstd::seq_lib::*;

use crate::error::FenominalError;
use crate::hpo::hpo_concept::{concept_like, concept_word_set, HpoConcept};
use crate::hpo::hpo_concept_mapper::{first_concept_match, HpoConceptMapper};
use crate::term_id::TermId;
use crate::word_set::WordSet;

verus! {

/// The largest non-stop word count of any surface form in the ontology at
/// calibration time. The dictionary keeps one index per size up to this cap.
pub const MAX_HPO_TERM_TOKEN_COUNT: usize = 14;

/// The views of a list of `(surface form, term id)` dictionary entries.
pub open spec fn entry_views(entries: Seq<(String, TermId)>) -> Seq<(Seq<char>, Seq<char>)> {
    entries.map_values(|p: (String, TermId)| (p.0@, p.1.spec_value()))
}

/// The number of non-stop words of a surface form.
pub open spec fn entry_word_count(text: Seq<char>) -> nat {
    concept_word_set(text).len()
}

/// The entries whose surface form has exactly `n` non-stop words, in order.
pub open spec fn entries_of_size(es: Seq<(Seq<char>, Seq<char>)>, n: nat) -> Seq<
    (Seq<char>, Seq<char>),
> {
    es.filter(|e: (Seq<char>, Seq<char>)| entry_word_count(e.0) == n)
}

/// `c` is the concept built from entry `e`.
pub open spec fn concept_matches_entry(c: HpoConcept, e: (Seq<char>, Seq<char>)) -> bool {
    &&& c.wf()
    &&& c.spec_original_concept() == e.0
    &&& c.spec_term_id() == e.1
}

pub open spec fn concepts_match_entries(
    cs: Seq<HpoConcept>,
    es: Seq<(Seq<char>, Seq<char>)>,
) -> bool {
    &&& cs.len() == es.len()
    &&& forall|j: int| 0 <= j < cs.len() ==> #[trigger] concept_matches_entry(cs[j], es[j])
}

/// No entry exceeds the dictionary's size cap.
pub open spec fn all_entries_small(es: Seq<(Seq<char>, Seq<char>)>) -> bool {
    forall|i: int|
        0 <= i < es.len() ==> #[trigger] entry_word_count(es[i].0) <= MAX_HPO_TERM_TOKEN_COUNT
}

/// The set of (lowercased) token texts of a query.
pub open spec fn token_set(tokens: Seq<String>) -> Set<Seq<char>> {
    tokens.map_values(|t: String| t@).to_set()
}

/// The first `i` entries have been indexed: for every size, the concepts of
/// that size are exactly those of the entries of that size, in order.
pub open spec fn build_ok(m: DefaultHpoMapper, entries: Seq<(String, TermId)>, i: int) -> bool {
    forall|nn: int|
        1 <= nn <= MAX_HPO_TERM_TOKEN_COUNT ==> #[trigger] concepts_match_entries(
            m.concepts_of(nn),
            entries_of_size(entry_views(entries.take(i)), nn as nat),
        )
}

/// The dictionary: index `n - 1` of `mappers` holds the concepts of word
/// count `n`.
pub struct DefaultHpoMapper {
    mappers: Vec<HpoConceptMapper>,
}

impl DefaultHpoMapper {
    /// The concepts of word count `n`, in insertion order.
    pub closed spec fn concepts_of(self, n: int) -> Seq<HpoConcept> {
        self.mappers@[n - 1].concepts_view()
    }

    pub closed spec fn wf(self) -> bool {
        &&& self.mappers@.len() == MAX_HPO_TERM_TOKEN_COUNT
        &&& forall|j: int|
            0 <= j < MAX_HPO_TERM_TOKEN_COUNT ==> (#[trigger] self.mappers@[j].wf()
                && self.mappers@[j].spec_n_words() == j + 1)
    }

    /// The dictionary built from an ontology: its entries are the lowercased
    /// labels and synonyms of the phenotype subtree.
    pub fn new(parser: &crate::hpo::simple_hpo_parser::SimpleHpoParser) -> (r: Result<
        Self,
        FenominalError,
    >)
        ensures
            ({
                let entries = crate::hpo::simple_hpo_parser::apply_nodes(
                    Seq::<(Seq<char>, Seq<char>)>::empty(),
                    parser.spec_ontology().spec_nodes(),
                    crate::hpo::simple_hpo_parser::spec_descendants(
                        crate::hpo::simple_hpo_parser::edge_views(
                            parser.spec_ontology().spec_edges(),
                        ),
                        crate::hpo::simple_hpo_parser::spec_phenotype_root(),
                    ),
                    0,
                );
                &&& (r is Ok <==> all_entries_small(entries))
                &&& (r is Ok ==> r->Ok_0.wf())
                &&& (r is Ok ==> forall|n: int|
                    1 <= n <= MAX_HPO_TERM_TOKEN_COUNT ==> #[trigger] concepts_match_entries(
                        r->Ok_0.concepts_of(n),
                        entries_of_size(entries, n as nat),
                    ))
            }),
    {
        let entries = parser.get_text_to_term_map();
        Self::from_map(&entries)
    }

    /// The dictionary built from `entries`: entry by entry, each surface form
    /// indexed under its word count. Fails exactly when some surface form
    /// exceeds the size cap; forms with an empty word set are skipped.
    #[verifier::loop_isolation(false)]
    pub fn from_map(entries: &Vec<(String, TermId)>) -> (r: Result<Self, FenominalError>)
        ensures
            r is Ok <==> all_entries_small(entry_views(entries@)),
            r is Ok ==> ({
                let m = r->Ok_0;
                &&& m.wf()
                &&& forall|n: int|
                    1 <= n <= MAX_HPO_TERM_TOKEN_COUNT ==> #[trigger] concepts_match_entries(
                        m.concepts_of(n),
                        entries_of_size(entry_views(entries@), n as nat),
                    )
            }),
    {
        let mut mappers: Vec<HpoConceptMapper> = Vec::new();
        let mut n: usize = 1;
        while n <= MAX_HPO_TERM_TOKEN_COUNT
            invariant
                1 <= n <= MAX_HPO_TERM_TOKEN_COUNT + 1,
                mappers@.len() == n - 1,
                forall|j: int|
                    0 <= j < n - 1 ==> (#[trigger] mappers@[j].wf() && mappers@[j].spec_n_words()
                        == j + 1 && mappers@[j].concepts_view() =~= Seq::<HpoConcept>::empty()),
            decreases MAX_HPO_TERM_TOKEN_COUNT + 1 - n,
        {
            mappers.push(HpoConceptMapper::new(n));
            n = n + 1;
        }
        let mut result = DefaultHpoMapper { mappers };
        proof {
            assert(entries@.take(0) =~= Seq::<(String, TermId)>::empty());
            assert(entry_views(entries@.take(0)) =~= Seq::<(Seq<char>, Seq<char>)>::empty());
            assert forall|nn: int| 1 <= nn <= MAX_HPO_TERM_TOKEN_COUNT implies
                #[trigger] concepts_match_entries(
                result.concepts_of(nn),
                entries_of_size(entry_views(entries@.take(0)), nn as nat),
            ) by {
                assert(result.mappers@.len() == MAX_HPO_TERM_TOKEN_COUNT);
                assert(entries_of_size(entry_views(entries@.take(0)), nn as nat) =~= Seq::<
                    (Seq<char>, Seq<char>),
                >::empty());
                assert(result.mappers@[nn - 1].wf());
                assert(result.concepts_of(nn) =~= Seq::<HpoConcept>::empty());
            }
            assert(build_ok(result, entries@, 0));
        }
        let total = entries.len();
        for i in 0..total
            invariant
                total == entries@.len(),
                result.wf(),
                all_entries_small(entry_views(entries@.take(i as int))),
                build_ok(result, entries@, i as int),
        {
            let text = entries[i].0.as_str();
            let tid = entries[i].1.clone();
            let concept = HpoConcept::new(text, tid);
            let count = concept.word_count();
            let ghost evs = entry_views(entries@.take(i as int));
            let ghost ev = (entries@[i as int].0@, entries@[i as int].1.spec_value());
            proof {
                assert(entry_views(entries@.take(i + 1)) =~= evs.push(ev));
                assert(entry_word_count(ev.0) == count);
            }
            if count > MAX_HPO_TERM_TOKEN_COUNT {
                proof {
                    assert(entry_views(entries@)[i as int] == ev);
                }
                return Err(FenominalError::DictionaryEntryTooLong { surface: text.to_owned() });
            }
            let ghost pre = result;
            proof {
                assert(build_ok(pre, entries@, i as int));
            }
            if count >= 1 {
                proof {
                    assert(result.mappers@[count as int - 1].wf());
                }
                add_to_mapper(&mut result.mappers, count - 1, &concept);
            }
            proof {
                assert forall|nn: int| 1 <= nn <= MAX_HPO_TERM_TOKEN_COUNT implies
                    #[trigger] concepts_match_entries(
                    result.concepts_of(nn),
                    entries_of_size(entry_views(entries@.take(i + 1)), nn as nat),
                ) by {
                    assert(concepts_match_entries(
                        pre.concepts_of(nn),
                        entries_of_size(entry_views(entries@.take(i as int)), nn as nat),
                    ));
                    evs.lemma_filter_push(
                        ev,
                        (|e: (Seq<char>, Seq<char>)| entry_word_count(e.0) == nn as nat),
                    );
                    if nn == count {
                        assert(entries_of_size(evs.push(ev), nn as nat) =~= entries_of_size(
                            evs,
                            nn as nat,
                        ).push(ev));
                        let old_cs = pre.concepts_of(nn);
                        let new_cs = result.mappers@[nn - 1].concepts_view();
                        assert(new_cs.take(old_cs.len() as int) =~= old_cs);
                        assert(concept_matches_entry(new_cs.last(), ev));
                        assert forall|j: int| 0 <= j < new_cs.len() implies
                            #[trigger] concept_matches_entry(
                            new_cs[j],
                            entries_of_size(evs.push(ev), nn as nat)[j],
                        ) by {
                            if j < new_cs.len() - 1 {
                                assert(new_cs[j] == old_cs[j]);
                                assert(concept_matches_entry(
                                    old_cs[j],
                                    entries_of_size(evs, nn as nat)[j],
                                ));
                            }
                        }
                    } else {
                        assert(entries_of_size(evs.push(ev), nn as nat) =~= entries_of_size(
                            evs,
                            nn as nat,
                        ));
                        if count >= 1 {
                            assert(result.mappers@[nn - 1] == pre.mappers@[nn - 1]);
                        }
                        assert(result.concepts_of(nn) == pre.concepts_of(nn));
                    }
                }
                assert(all_entries_small(entry_views(entries@.take(i + 1))));
                assert(build_ok(result, entries@, i + 1));
            }
        }
        proof {
            assert(entries@.take(total as int) =~= entries@);
        }
        Ok(result)
    }

    /// Look up the first concept whose word set equals the set of `tokens`.
    /// Queries outside the size range `1..=MAX_HPO_TERM_TOKEN_COUNT` have no
    /// index and never match.
    #[verifier::loop_isolation(false)]
    pub fn get_match(&self, tokens: &Vec<String>) -> (r: Option<HpoConcept>)
        requires
            self.wf(),
        ensures
            (1 <= tokens@.len() <= MAX_HPO_TERM_TOKEN_COUNT) ==> {
                let fm = first_concept_match(
                    self.concepts_of(tokens@.len() as int),
                    token_set(tokens@),
                );
                &&& (r is Some <==> fm is Some)
                &&& (r is Some ==> concept_like(r->0, fm->0))
            },
            !(1 <= tokens@.len() <= MAX_HPO_TERM_TOKEN_COUNT) ==> r is None,
    {
        let k = tokens.len();
        if k == 0 || k > MAX_HPO_TERM_TOKEN_COUNT {
            return None;
        }
        let mut ws = WordSet::new();
        for i in 0..k
            invariant
                k == tokens@.len(),
                ws.wf(),
                ws.set_view() =~= tokens@.take(i as int).map_values(|t: String| t@).to_set(),
        {
            let ghost old_view = tokens@.take(i as int).map_values(|t: String| t@);
            ws.insert(tokens[i].as_str());
            proof {
                assert(tokens@.take(i + 1).map_values(|t: String| t@) =~= old_view.push(
                    tokens@[i as int]@,
                ));
                assert(old_view.push(tokens@[i as int]@) =~= old_view + seq![tokens@[i as int]@]);
                Seq::<Seq<char>>::lemma_to_set_insert_commutes(old_view, tokens@[i as int]@);
            }
        }
        proof {
            assert(tokens@.take(k as int) =~= tokens@);
            assert(self.mappers@[k as int - 1].wf());
        }
        self.mappers[k - 1].get_match(&ws)
    }
}

/// Every concept a well-formed dictionary indexes under size `n` is itself
/// well formed and has exactly `n` words.
pub proof fn lemma_wf_concepts(m: DefaultHpoMapper)
    requires
        m.wf(),
    ensures
        forall|n: int, j: int|
            1 <= n <= MAX_HPO_TERM_TOKEN_COUNT && 0 <= j < m.concepts_of(n).len() ==> ((
            #[trigger] m.concepts_of(n)[j]).wf() && m.concepts_of(n)[j].word_set().len()
                == n),
{
    assert forall|n: int, j: int|
        1 <= n <= MAX_HPO_TERM_TOKEN_COUNT && 0 <= j < m.concepts_of(n).len() implies ((
    #[trigger] m.concepts_of(n)[j]).wf() && m.concepts_of(n)[j].word_set().len() == n) by {
        assert(m.mappers@[n - 1].wf());
        crate::hpo::hpo_concept_mapper::lemma_mapper_wf_concepts(m.mappers@[n - 1]);
        let cs = m.mappers@[n - 1].concepts_view();
        assert(cs[j].wf() && cs[j].word_set().len() == m.mappers@[n - 1].spec_n_words());
    }
}

/// Add `concept` to the index at position `i` of `mappers`.
fn add_to_mapper(mappers: &mut Vec<HpoConceptMapper>, i: usize, concept: &HpoConcept)
    requires
        i < old(mappers)@.len(),
        old(mappers)@[i as int].wf(),
        concept.wf(),
        concept.word_set().len() == old(mappers)@[i as int].spec_n_words(),
    ensures
        final(mappers)@.len() == old(mappers)@.len(),
        forall|j: int|
            0 <= j < old(mappers)@.len() && j != i ==> final(mappers)@[j] == old(mappers)@[j],
        final(mappers)@[i as int].wf(),
        final(mappers)@[i as int].spec_n_words() == old(mappers)@[i as int].spec_n_words(),
        final(mappers)@[i as int].concepts_view().len() == old(mappers)@[i as int].concepts_view().len()
            + 1,
        final(mappers)@[i as int].concepts_view().take(
            old(mappers)@[i as int].concepts_view().len() as int,
        ) =~= old(mappers)@[i as int].concepts_view(),
        concept_like(final(mappers)@[i as int].concepts_view().last(), *concept),
{
    let m = &mut mappers[i];
    m.add_concept(concept);
}

} // verus!

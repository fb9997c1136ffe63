//! The text-mining facade and the public record for one recognized span.

use core::ops::Range;
use vstd::prelude::*;

use crate::core_document::{
    lemma_sentence_spans_from, lemma_trim_end_idx, sentence_matches, sentence_spans,
    sentences_match, CoreDocument,
};
use crate::error::FenominalError;
use crate::hpo::default_hpo_mapper::{
    all_entries_small, concepts_match_entries, entries_of_size, DefaultHpoMapper,
    MAX_HPO_TERM_TOKEN_COUNT,
};
use crate::hpo::sentence_mapper::{
    hit_matches, hits_match, spec_map_sentence, SentenceMapper, SpecHit,
};
use crate::hpo::simple_hpo_parser::{
    apply_nodes, edge_views, label_pairs_from, spec_descendants, spec_phenotype_root,
    SimpleHpoParser, SimpleOntology,
};
use crate::hpo::term_label_map::TermLabelMap;
use crate::simple_sentence::SimpleSentence;
use crate::term_id::TermId;
use crate::text::str_eq;

verus! {

/// The hits of a list of sentences, in sentence order.
pub open spec fn spec_doc_hits(sm: SentenceMapper, sents: Seq<SimpleSentence>) -> Seq<SpecHit>
    decreases sents.len(),
{
    if sents.len() == 0 {
        Seq::empty()
    } else {
        spec_map_sentence(sm, sents[0]) + spec_doc_hits(sm, sents.drop_first())
    }
}

/// Appending one sentence appends its hits.
pub proof fn lemma_doc_hits_push(sm: SentenceMapper, sents: Seq<SimpleSentence>, x: SimpleSentence)
    ensures
        spec_doc_hits(sm, sents.push(x)) =~= spec_doc_hits(sm, sents) + spec_map_sentence(sm, x),
    decreases sents.len(),
{
    reveal_with_fuel(spec_doc_hits, 2);
    if sents.len() == 0 {
        assert(sents.push(x).drop_first() =~= Seq::<SimpleSentence>::empty());
        assert(sents.push(x).drop_first() == Seq::<SimpleSentence>::empty());
        assert(sents.push(x)[0] == x);
        assert(spec_doc_hits(sm, Seq::<SimpleSentence>::empty()) =~= Seq::<SpecHit>::empty());
    } else {
        lemma_doc_hits_push(sm, sents.drop_first(), x);
        assert(sents.push(x).drop_first() =~= sents.drop_first().push(x));
        assert(sents.push(x).drop_first() == sents.drop_first().push(x));
        assert(sents.push(x)[0] == sents[0]);
    }
}

/// `hits` is the outcome of mining `text`: for the sentences of `text`, it
/// is the concatenation of each sentence's hits.
pub open spec fn document_result(
    sm: SentenceMapper,
    text: Seq<char>,
    hits: Seq<FenominalHit>,
) -> bool {
    exists|sents: Seq<SimpleSentence>|
        #[trigger] sentences_match(sents, text) && hits_match(hits, spec_doc_hits(sm, sents))
}

/// The term identifiers of a hit list.
pub open spec fn hit_tids(hs: Seq<SpecHit>) -> Seq<Seq<char>> {
    hs.map_values(|h: SpecHit| h.tid)
}

/// The first `i` elements with duplicates removed, first occurrence kept.
pub open spec fn dedup_rec(xs: Seq<Seq<char>>, i: int) -> Seq<Seq<char>>
    decreases i,
{
    if i <= 0 {
        Seq::empty()
    } else {
        let prev = dedup_rec(xs, i - 1);
        if prev.contains(xs[i - 1]) {
            prev
        } else {
            prev.push(xs[i - 1])
        }
    }
}

pub open spec fn dedup_first(xs: Seq<Seq<char>>) -> Seq<Seq<char>> {
    dedup_rec(xs, xs.len() as int)
}

/// `vals` is the deduplicated identifier list of mining `text`.
pub open spec fn term_id_document_result(
    sm: SentenceMapper,
    text: Seq<char>,
    vals: Seq<Seq<char>>,
) -> bool {
    exists|sents: Seq<SimpleSentence>|
        #[trigger] sentences_match(sents, text) && vals == dedup_first(
            hit_tids(spec_doc_hits(sm, sents)),
        )
}

/// A named entity identified by text mining: the term, its primary label,
/// the character span in the source text, and the observation status
/// (`true` = present, `false` = excluded by a negation cue).
#[derive(Debug)]
pub struct FenominalHit {
    /// The entity's term identifier, as `prefix:local` text.
    pub term_id: String,
    /// The term's primary label.
    pub label: String,
    /// The coordinates of the entity within the source text.
    pub span: Range<usize>,
    /// The observation status (present/excluded).
    pub is_observed: bool,
}

impl FenominalHit {
    pub fn new(term_id: String, label: &str, span: Range<usize>, is_observed: bool) -> (r: Self)
        ensures
            r.term_id@ == term_id@,
            r.label@ == label@,
            r.span == span,
            r.is_observed == is_observed,
    {
        FenominalHit { term_id, label: label.to_owned(), span, is_observed }
    }

    /// The start/end positions of the hit.
    pub fn get_span(&self) -> (r: Range<usize>)
        ensures
            r == self.span,
    {
        self.span.start..self.span.end
    }
}

/// The text-mining engine: a dictionary over the phenotype subtree of an
/// ontology, a label lookup, and the per-sentence matcher.
pub struct Fenominal {
    sentence_mapper: SentenceMapper,
}

impl Fenominal {
    pub closed spec fn spec_sm(self) -> SentenceMapper {
        self.sentence_mapper
    }

    pub open spec fn wf(self) -> bool {
        self.spec_sm().wf()
    }

    /// Build the miner from an ontology: index the lowercased labels and
    /// synonyms of the phenotype subtree, and record every term's primary
    /// label. Fails exactly when a surface form exceeds the dictionary's
    /// size cap.
    pub fn new(ontology: SimpleOntology) -> (r: Result<Fenominal, FenominalError>)
        ensures
            ({
                let entries = apply_nodes(
                    Seq::<(Seq<char>, Seq<char>)>::empty(),
                    ontology.spec_nodes(),
                    spec_descendants(edge_views(ontology.spec_edges()), spec_phenotype_root()),
                    0,
                );
                &&& (r is Ok <==> all_entries_small(entries))
                &&& (r is Ok ==> {
                    let f = r->Ok_0;
                    &&& f.wf()
                    &&& (forall|n: int|
                        1 <= n <= MAX_HPO_TERM_TOKEN_COUNT ==> #[trigger] concepts_match_entries(
                            f.spec_sm().spec_mapper().concepts_of(n),
                            entries_of_size(entries, n as nat),
                        ))
                    &&& f.spec_sm().spec_term_map().pairs_view() == label_pairs_from(
                        Seq::<(Seq<char>, Seq<char>)>::empty(),
                        ontology.spec_nodes(),
                        0,
                    )
                })
            }),
    {
        let parser = SimpleHpoParser::new(ontology);
        let term_map = parser.ontology().label_map();
        match DefaultHpoMapper::new(&parser) {
            Ok(mapper) => Ok(Fenominal { sentence_mapper: SentenceMapper::new(mapper, term_map) }),
            Err(e) => Err(e),
        }
    }

    /// Mine `text`: split it into sentences, mine each sentence, and return
    /// the hits in sentence order.
    #[verifier::loop_isolation(false)]
    pub fn map_text(&self, text: &str) -> (r: Vec<FenominalHit>)
        requires
            self.wf(),
        ensures
            document_result(self.spec_sm(), text@, r@),
    {
        let ghost sm = self.sentence_mapper;
        let core_document = CoreDocument::new(text);
        let sentences = core_document.get_sentences();
        let ghost sents = sentences@;
        let text_len = text.unicode_len();
        proof {
            lemma_sentence_spans_from(text@, 0);
        }
        let mut mapped_parts: Vec<FenominalHit> = Vec::new();
        let n = sentences.len();
        for i in 0..n
            invariant
                n == sentences@.len(),
                sents == sentences@,
                hits_match(mapped_parts@, spec_doc_hits(sm, sents.take(i as int))),
        {
            let ss = &sentences[i];
            proof {
                assert(sentence_matches(sents[i as int], text@, sentence_spans(text@)[i as int]));
                let span = sentence_spans(text@)[i as int];
                lemma_trim_end_idx(text@, span.0, span.1);
                assert(ss.spec_start_pos() + ss.spec_sentence().len() <= text@.len());
            }
            let mut sentence_parts = self.sentence_mapper.map_sentence(ss);
            let ghost old_mapped = mapped_parts@;
            let ghost parts = sentence_parts@;
            mapped_parts.append(&mut sentence_parts);
            proof {
                lemma_doc_hits_push(sm, sents.take(i as int), sents[i as int]);
                assert(sents.take(i + 1) =~= sents.take(i as int).push(sents[i as int]));
                let a = spec_doc_hits(sm, sents.take(i as int));
                let b = spec_map_sentence(sm, sents[i as int]);
                assert(spec_doc_hits(sm, sents.take(i + 1)) =~= a + b);
                assert forall|j: int| 0 <= j < mapped_parts@.len() implies #[trigger] hit_matches(
                    mapped_parts@[j],
                    (a + b)[j],
                ) by {
                    if j < old_mapped.len() {
                        assert(mapped_parts@[j] == old_mapped[j]);
                        assert(hit_matches(old_mapped[j], a[j]));
                    } else {
                        assert(mapped_parts@[j] == parts[j - old_mapped.len()]);
                        assert(hit_matches(parts[j - old_mapped.len()], b[j - old_mapped.len()]));
                    }
                }
            }
        }
        proof {
            assert(sents.take(n as int) =~= sents);
        }
        mapped_parts
    }

    /// Mine `text`. Stateless and idempotent: the same text gives the same
    /// hits.
    pub fn process(&self, text: &str) -> (r: Vec<FenominalHit>)
        requires
            self.wf(),
        ensures
            document_result(self.spec_sm(), text@, r@),
    {
        self.map_text(text)
    }

    /// Mine `text` and return only the term identifiers, in order of first
    /// occurrence, each identifier once.
    #[verifier::loop_isolation(false)]
    pub fn process_term_ids(&self, text: &str) -> (r: Vec<TermId>)
        requires
            self.wf(),
        ensures
            term_id_document_result(
                self.spec_sm(),
                text@,
                r@.map_values(|t: TermId| t.spec_value()),
            ),
    {
        let hits = self.map_text(text);
        let ghost sm = self.sentence_mapper;
        let ghost sents = choose|sents: Seq<SimpleSentence>|
            #[trigger] sentences_match(sents, text@) && hits_match(
                hits@,
                spec_doc_hits(sm, sents),
            );
        let ghost tids = hit_tids(spec_doc_hits(sm, sents));
        proof {
            assert forall|q: int| 0 <= q < tids.len() implies tids[q] == hits@.map_values(
                |h: FenominalHit| h.term_id@,
            )[q] by {
                assert(hit_matches(hits@[q], spec_doc_hits(sm, sents)[q]));
            }
            assert(tids =~= hits@.map_values(|h: FenominalHit| h.term_id@));
        }
        let mut result: Vec<TermId> = Vec::new();
        let n = hits.len();
        for i in 0..n
            invariant
                n == hits@.len(),
                tids == hit_tids(spec_doc_hits(sm, sents)),
                tids =~= hits@.map_values(|h: FenominalHit| h.term_id@),
                result@.map_values(|t: TermId| t.spec_value()) =~= dedup_rec(tids, i as int),
        {
            let mut seen = false;
            let m = result.len();
            let ghost vals = result@.map_values(|t: TermId| t.spec_value());
            for j in 0..m
                invariant
                    m == result@.len(),
                    vals == result@.map_values(|t: TermId| t.spec_value()),
                    seen ==> vals.contains(hits@[i as int].term_id@),
                    !seen ==> forall|q: int| 0 <= q < j ==> vals[q] != hits@[i as int].term_id@,
            {
                if !seen && str_eq(result[j].curie().as_str(), hits[i].term_id.as_str()) {
                    proof {
                        assert(vals[j as int] == hits@[i as int].term_id@);
                    }
                    seen = true;
                }
            }
            proof {
                if !seen {
                    if vals.contains(hits@[i as int].term_id@) {
                        let q = choose|q: int|
                            0 <= q < vals.len() && vals[q] == hits@[i as int].term_id@;
                        assert(false);
                    }
                }
                assert(tids[i as int] == hits@[i as int].term_id@);
            }
            if !seen {
                result.push(TermId::from_text(hits[i].term_id.as_str()));
                proof {
                    assert(result@.map_values(|t: TermId| t.spec_value()) =~= vals.push(
                        hits@[i as int].term_id@,
                    ));
                }
            }
        }
        proof {
            assert(dedup_rec(tids, n as int) == dedup_first(tids));
        }
        result
    }
}

impl Clone for FenominalHit {
    fn clone(&self) -> (r: Self)
        ensures
            r.term_id@ == self.term_id@,
            r.label@ == self.label@,
            r.span == self.span,
            r.is_observed == self.is_observed,
    {
        FenominalHit {
            term_id: self.term_id.clone(),
            label: self.label.clone(),
            span: self.span.start..self.span.end,
            is_observed: self.is_observed,
        }
    }
}

} // verus!

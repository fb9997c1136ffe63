//! Properties of the mining pipeline, stated and proved once and for all:
//! hit spans are in bounds, ordered and non-overlapping, confined to one
//! sentence; negated sentences yield only excluded hits; labels come from
//! the label map; mining is deterministic; empty input yields no hits.

use vstd::prelude::*;
use vstd::seq_lib::*;

use crate::core_document::{
    lemma_sentence_spans_from, sentence_content_end, sentence_matches, sentence_spans,
    sentences_match,
};
use crate::fenominal::{document_result, spec_doc_hits, FenominalHit};
use crate::hpo::default_hpo_mapper::DefaultHpoMapper;
use crate::hpo::hpo_concept_mapper::lemma_first_match_index;
use crate::hpo::sentence_mapper::{
    all_cands, best_at, best_at_rec, cands_for_size, cands_from_size, hit_matches, hits_match,
    hits_of_selected, lc_token, max_window, select_rec, sorted_starts, spec_has_negation,
    spec_map_sentence, spec_selected, window_match, window_words, SentenceMapper, SpecCand, SpecHit,
};
use crate::hpo::term_label_map::TermLabelMap;
use crate::simple_sentence::{
    lemma_token_spans_from, token_spans, token_spans_from, tokens_match, SimpleSentence,
};
use crate::simple_token::SimpleToken;

verus! {

/// Every candidate's span lies inside the sentence: at or after the
/// sentence's document offset, nonempty, and ending within the sentence
/// text.
pub open spec fn cand_in_sentence(c: SpecCand, st: int, text_len: int) -> bool {
    st <= c.start && c.start < c.end && c.end <= st + text_len
}

proof fn lemma_cands_for_size_bounds(
    dict: DefaultHpoMapper,
    toks: Seq<SimpleToken>,
    st: int,
    k: int,
    j: int,
    text: Seq<char>,
)
    requires
        tokens_match(toks, text),
        1 <= k,
        0 <= j,
    ensures
        forall|c: SpecCand|
            #[trigger] cands_for_size(dict, toks, st, k, j).contains(c) ==> cand_in_sentence(
                c,
                st,
                text.len() as int,
            ),
    decreases toks.len() + 1 - j,
{
    lemma_token_spans_from(text, 0);
    if (j + 1) * k > toks.len() {
    } else {
        assert(j + 1 <= (j + 1) * k) by (nonlinear_arith)
            requires
                0 <= j,
                1 <= k,
        ;
        lemma_cands_for_size_bounds(dict, toks, st, k, j + 1, text);
        assert(0 <= j * k && j * k + k <= toks.len()) by (nonlinear_arith)
            requires
                0 <= j,
                1 <= k,
                (j + 1) * k <= toks.len(),
        ;
        let lo = j * k;
        let cs = cands_for_size(dict, toks, st, k, j);
        let rest = cands_for_size(dict, toks, st, k, j + 1);
        assert forall|c: SpecCand| #[trigger] cs.contains(c) implies cand_in_sentence(
            c,
            st,
            text.len() as int,
        ) by {
            match window_match(dict, toks, lo, k) {
                Option::None => {
                    assert(rest.contains(c));
                },
                Option::Some(cc) => {
                    let i = choose|i: int| 0 <= i < cs.len() && cs[i] == c;
                    if i == 0 {
                        assert(crate::simple_sentence::token_matches(
                            toks[lo],
                            text,
                            token_spans(text)[lo],
                        ));
                        assert(crate::simple_sentence::token_matches(
                            toks[lo + k - 1],
                            text,
                            token_spans(text)[lo + k - 1],
                        ));
                        if lo < lo + k - 1 {
                            assert(token_spans(text)[lo].1 <= token_spans(text)[lo + k - 1].0);
                        }
                    } else {
                        assert(rest[i - 1] == c);
                        assert(rest.contains(c));
                    }
                },
            }
        }
    }
}

proof fn lemma_all_cands_bounds(
    dict: DefaultHpoMapper,
    toks: Seq<SimpleToken>,
    st: int,
    k: int,
    text: Seq<char>,
)
    requires
        tokens_match(toks, text),
        1 <= k,
    ensures
        forall|c: SpecCand|
            #[trigger] cands_from_size(dict, toks, st, k).contains(c) ==> cand_in_sentence(
                c,
                st,
                text.len() as int,
            ),
    decreases max_window(toks) + 1 - k,
{
    if k > max_window(toks) {
    } else {
        lemma_all_cands_bounds(dict, toks, st, k + 1, text);
        lemma_cands_for_size_bounds(dict, toks, st, k, 0, text);
        let cs = cands_from_size(dict, toks, st, k);
        let head = cands_for_size(dict, toks, st, k, 0);
        let rest = cands_from_size(dict, toks, st, k + 1);
        assert forall|c: SpecCand| #[trigger] cs.contains(c) implies cand_in_sentence(
            c,
            st,
            text.len() as int,
        ) by {
            let i = choose|i: int| 0 <= i < cs.len() && cs[i] == c;
            if i < head.len() {
                assert(head[i] == c);
                assert(head.contains(c));
            } else {
                assert(rest[i - head.len()] == c);
                assert(rest.contains(c));
            }
        }
    }
}

/// The best candidate at a start is a candidate and starts there.
proof fn lemma_best_at_props(cands: Seq<SpecCand>, s: int, i: int)
    requires
        0 <= i <= cands.len(),
    ensures
        best_at_rec(cands, s, i) is Some ==> (cands.contains(best_at_rec(cands, s, i)->0)
            && best_at_rec(cands, s, i)->0.start == s),
    decreases i,
{
    if i > 0 {
        lemma_best_at_props(cands, s, i - 1);
        if best_at_rec(cands, s, i) is Some {
            let b = best_at_rec(cands, s, i)->0;
            if b == cands[i - 1] {
                assert(cands.contains(cands[i - 1]));
            }
        }
    }
}

/// What the selection walk guarantees: emitted candidates come from the
/// candidate list, start at or after the cursor, are nonempty spans, and
/// are ordered without overlap.
proof fn lemma_select_ordered(
    cands: Seq<SpecCand>,
    starts: Seq<int>,
    i: int,
    cursor: int,
    st: int,
    text_len: int,
)
    requires
        forall|c: SpecCand| #[trigger] cands.contains(c) ==> cand_in_sentence(c, st, text_len),
        0 <= i,
    ensures
        forall|p: int|
            0 <= p < select_rec(cands, starts, i, cursor).len() ==> cands.contains(
                #[trigger] select_rec(cands, starts, i, cursor)[p],
            ),
        forall|p: int|
            0 <= p < select_rec(cands, starts, i, cursor).len() ==> (#[trigger] select_rec(
                cands,
                starts,
                i,
                cursor,
            )[p]).start >= cursor,
        forall|p: int, q: int|
            0 <= p < q < select_rec(cands, starts, i, cursor).len() ==> (#[trigger] select_rec(
                cands,
                starts,
                i,
                cursor,
            )[p]).end <= (#[trigger] select_rec(cands, starts, i, cursor)[q]).start,
    decreases starts.len() - i,
{
    if i >= starts.len() {
    } else if starts[i] < cursor {
        lemma_select_ordered(cands, starts, i + 1, cursor, st, text_len);
        let sel = select_rec(cands, starts, i, cursor);
        let tail = select_rec(cands, starts, i + 1, cursor);
        assert(sel == tail);
        assert forall|p: int| 0 <= p < sel.len() implies (cands.contains(#[trigger] sel[p])
            && sel[p].start >= cursor) by {
            assert(sel[p] == tail[p]);
        }
        assert forall|p: int, q: int| 0 <= p < q < sel.len() implies (#[trigger] sel[p]).end
            <= (#[trigger] sel[q]).start by {
            assert(sel[p] == tail[p] && sel[q] == tail[q]);
        }
    } else {
        match best_at(cands, starts[i]) {
            Option::None => {
                lemma_select_ordered(cands, starts, i + 1, cursor, st, text_len);
                let sel = select_rec(cands, starts, i, cursor);
                let tail = select_rec(cands, starts, i + 1, cursor);
                assert(sel == tail);
                assert forall|p: int| 0 <= p < sel.len() implies (cands.contains(
                    #[trigger] sel[p],
                ) && sel[p].start >= cursor) by {
                    assert(sel[p] == tail[p]);
                }
                assert forall|p: int, q: int| 0 <= p < q < sel.len() implies (#[trigger] sel[p]).end
                    <= (#[trigger] sel[q]).start by {
                    assert(sel[p] == tail[p] && sel[q] == tail[q]);
                }
            },
            Option::Some(b) => {
                lemma_best_at_props(cands, starts[i], cands.len() as int);
                lemma_select_ordered(cands, starts, i + 1, b.end, st, text_len);
                let sel = select_rec(cands, starts, i, cursor);
                let tail = select_rec(cands, starts, i + 1, b.end);
                assert(cand_in_sentence(b, st, text_len));
                assert forall|p: int| 0 <= p < sel.len() implies cands.contains(
                    #[trigger] sel[p],
                ) by {
                    if p >= 1 {
                        assert(sel[p] == tail[p - 1]);
                    }
                }
                assert forall|p: int| 0 <= p < sel.len() implies (#[trigger] sel[p]).start
                    >= cursor by {
                    if p >= 1 {
                        assert(sel[p] == tail[p - 1]);
                        assert(sel[p].start >= b.end);
                        assert(b.end > b.start);
                        assert(b.start == starts[i] >= cursor);
                    }
                }
                assert forall|p: int, q: int| 0 <= p < q < sel.len() implies (#[trigger] sel[p]).end
                    <= (#[trigger] sel[q]).start by {
                    assert(sel[q] == tail[q - 1]);
                    if p == 0 {
                        assert(sel[q].start >= b.end);
                    } else {
                        assert(sel[p] == tail[p - 1]);
                    }
                }
            },
        }
    }
}

/// The resolved hits inherit span and observation flag from the selected
/// candidates, their labels from the label map, and keep the candidates'
/// order: when the selection is ordered without overlap, so are the hits.
proof fn lemma_hits_of_selected_props(sel: Seq<SpecCand>, labels: TermLabelMap, obs: bool)
    requires
        forall|q1: int, q2: int|
            0 <= q1 < q2 < sel.len() ==> (#[trigger] sel[q1]).end <= (#[trigger] sel[q2]).start,
        forall|q: int| 0 <= q < sel.len() ==> (#[trigger] sel[q]).start < sel[q].end,
    ensures
        forall|p: int|
            0 <= p < hits_of_selected(sel, labels, obs).len() ==> exists|q: int|
                0 <= q < sel.len() && hit_from_cand(
                    #[trigger] hits_of_selected(sel, labels, obs)[p],
                    sel[q],
                    labels,
                    obs,
                ),
        forall|p1: int, p2: int|
            0 <= p1 < p2 < hits_of_selected(sel, labels, obs).len() ==> (#[trigger] hits_of_selected(
                sel,
                labels,
                obs,
            )[p1]).end <= (#[trigger] hits_of_selected(sel, labels, obs)[p2]).start,
    decreases sel.len(),
{
    if sel.len() == 0 {
    } else {
        let rest = sel.drop_first();
        assert forall|q1: int, q2: int| 0 <= q1 < q2 < rest.len() implies (#[trigger] rest[q1]).end
            <= (#[trigger] rest[q2]).start by {
            assert(rest[q1] == sel[q1 + 1] && rest[q2] == sel[q2 + 1]);
        }
        assert forall|q: int| 0 <= q < rest.len() implies (#[trigger] rest[q]).start
            < rest[q].end by {
            assert(rest[q] == sel[q + 1]);
        }
        lemma_hits_of_selected_props(rest, labels, obs);
        let hs = hits_of_selected(sel, labels, obs);
        let tail = hits_of_selected(rest, labels, obs);
        match labels.spec_get(sel[0].tid) {
            Option::None => {
                assert(hs == tail);
                assert forall|p: int| 0 <= p < hs.len() implies exists|q: int|
                    0 <= q < sel.len() && hit_from_cand(
                        #[trigger] hs[p],
                        sel[q],
                        labels,
                        obs,
                    ) by {
                    assert(hs[p] == tail[p]);
                    let q0 = choose|q0: int|
                        0 <= q0 < rest.len() && hit_from_cand(tail[p], rest[q0], labels, obs);
                    assert(rest[q0] == sel[q0 + 1]);
                    assert(hit_from_cand(hs[p], sel[q0 + 1], labels, obs));
                }
                assert forall|p1: int, p2: int| 0 <= p1 < p2 < hs.len() implies (
                #[trigger] hs[p1]).end <= (#[trigger] hs[p2]).start by {
                    assert(hs[p1] == tail[p1] && hs[p2] == tail[p2]);
                }
            },
            Option::Some(l) => {
                assert forall|p: int| 0 <= p < hs.len() implies exists|q: int|
                    0 <= q < sel.len() && hit_from_cand(
                        #[trigger] hs[p],
                        sel[q],
                        labels,
                        obs,
                    ) by {
                    if p == 0 {
                        assert(hit_from_cand(hs[0], sel[0], labels, obs));
                    } else {
                        assert(hs[p] == tail[p - 1]);
                        let q0 = choose|q0: int|
                            0 <= q0 < rest.len() && hit_from_cand(
                                tail[p - 1],
                                rest[q0],
                                labels,
                                obs,
                            );
                        assert(rest[q0] == sel[q0 + 1]);
                        assert(hit_from_cand(hs[p], sel[q0 + 1], labels, obs));
                    }
                }
                assert forall|p1: int, p2: int| 0 <= p1 < p2 < hs.len() implies (
                #[trigger] hs[p1]).end <= (#[trigger] hs[p2]).start by {
                    if p1 == 0 {
                        assert(hs[p2] == tail[p2 - 1]);
                        let q0 = choose|q0: int|
                            0 <= q0 < rest.len() && hit_from_cand(
                                tail[p2 - 1],
                                rest[q0],
                                labels,
                                obs,
                            );
                        assert(rest[q0] == sel[q0 + 1]);
                        assert(hs[p2].start == sel[q0 + 1].start);
                        assert(sel[0].end <= sel[q0 + 1].start);
                        assert(hs[p1].end == sel[0].end);
                    } else {
                        assert(hs[p1] == tail[p1 - 1] && hs[p2] == tail[p2 - 1]);
                    }
                }
            },
        }
    }
}

/// `h` is the resolution of candidate `c`: same span and identifier, the
/// label from the map, the sentence's observation flag.
pub open spec fn hit_from_cand(h: SpecHit, c: SpecCand, labels: TermLabelMap, obs: bool) -> bool {
    &&& h.tid == c.tid
    &&& h.start == c.start
    &&& h.end == c.end
    &&& h.observed == obs
    &&& labels.spec_get(c.tid) == Option::Some(h.label)
}

/// The hits of one sentence: spans in bounds within the sentence, ordered
/// and non-overlapping, every label from the label map, and all flags equal
/// to the absence of a negation cue.
pub proof fn lemma_sentence_hits_sound(sm: SentenceMapper, ss: SimpleSentence)
    requires
        tokens_match(ss.spec_tokens(), ss.spec_sentence()),
    ensures
        ({
            let hs = spec_map_sentence(sm, ss);
            let st = ss.spec_start_pos() as int;
            let text_len = ss.spec_sentence().len() as int;
            &&& forall|p: int|
                0 <= p < hs.len() ==> (st <= (#[trigger] hs[p]).start && hs[p].start < hs[p].end
                    && hs[p].end <= st + text_len)
            &&& forall|p1: int, p2: int|
                0 <= p1 < p2 < hs.len() ==> (#[trigger] hs[p1]).end <= (#[trigger] hs[p2]).start
            &&& forall|p: int|
                0 <= p < hs.len() ==> (#[trigger] hs[p]).observed == !spec_has_negation(
                    ss.spec_tokens(),
                )
            &&& forall|p: int|
                0 <= p < hs.len() ==> sm.spec_term_map().spec_get((#[trigger] hs[p]).tid)
                    == Option::Some(hs[p].label)
        }),
{
    let toks = ss.spec_tokens();
    let st = ss.spec_start_pos() as int;
    let text_len = ss.spec_sentence().len() as int;
    let cands = all_cands(sm.spec_mapper(), toks, st);
    let sel = spec_selected(cands);
    let obs = !spec_has_negation(toks);
    let labels = sm.spec_term_map();
    let hs = spec_map_sentence(sm, ss);
    lemma_all_cands_bounds(sm.spec_mapper(), toks, st, 1, ss.spec_sentence());
    lemma_select_ordered(cands, sorted_starts(cands), 0, 0, st, text_len);
    assert forall|q: int| 0 <= q < sel.len() implies (#[trigger] sel[q]).start < sel[q].end by {
        assert(cands.contains(sel[q]));
        assert(cand_in_sentence(sel[q], st, text_len));
    }
    lemma_hits_of_selected_props(sel, labels, obs);
    assert forall|p: int| 0 <= p < hs.len() implies (st <= (#[trigger] hs[p]).start && hs[p].start
        < hs[p].end && hs[p].end <= st + text_len && hs[p].observed == obs && labels.spec_get(
        hs[p].tid,
    ) == Option::Some(hs[p].label)) by {
        let q = choose|q: int| 0 <= q < sel.len() && hit_from_cand(hs[p], sel[q], labels, obs);
        assert(cands.contains(sel[q]));
        assert(cand_in_sentence(sel[q], st, text_len));
    }
    assert forall|p1: int, p2: int| 0 <= p1 < p2 < hs.len() implies (#[trigger] hs[p1]).end
        <= (#[trigger] hs[p2]).start by {
        let (q1, q2) = choose|q1: int, q2: int|
            0 <= q1 < q2 < sel.len() && hit_from_cand(hs[p1], sel[q1], labels, obs)
                && hit_from_cand(hs[p2], sel[q2], labels, obs);
        assert(sel[q1].end <= sel[q2].start);
    }
}

/// Earlier sentences end before later sentences begin.
proof fn lemma_spans_chain(s: Seq<char>, a: int, b: int)
    requires
        0 <= a < b < sentence_spans(s).len(),
    ensures
        sentence_spans(s)[a].1 <= sentence_spans(s)[b].0,
    decreases b - a,
{
    lemma_sentence_spans_from(s, 0);
    if a + 1 < b {
        lemma_spans_chain(s, a + 1, b);
    }
}

/// The hits of the first `m` sentences: each lies inside its sentence's
/// span, and they are ordered without overlap.
proof fn lemma_doc_hits_props(sm: SentenceMapper, sents: Seq<SimpleSentence>, text: Seq<char>, m: int)
    requires
        sentences_match(sents, text),
        0 <= m <= sents.len(),
    ensures
        forall|p: int|
            0 <= p < spec_doc_hits(sm, sents.take(m)).len() ==> exists|k: int|
                0 <= k < m && in_sentence_span(
                    #[trigger] spec_doc_hits(sm, sents.take(m))[p],
                    sentence_spans(text)[k],
                ),
        forall|p1: int, p2: int|
            0 <= p1 < p2 < spec_doc_hits(sm, sents.take(m)).len() ==> (#[trigger] spec_doc_hits(
                sm,
                sents.take(m),
            )[p1]).end <= (#[trigger] spec_doc_hits(sm, sents.take(m))[p2]).start,
    decreases m,
{
    lemma_sentence_spans_from(text, 0);
    if m == 0 {
        assert(sents.take(0) =~= Seq::<SimpleSentence>::empty());
        assert(sents.take(0) == Seq::<SimpleSentence>::empty());
        assert(spec_doc_hits(sm, Seq::<SimpleSentence>::empty()) =~= Seq::<SpecHit>::empty());
    } else {
        lemma_doc_hits_props(sm, sents, text, m - 1);
        let prev = sents.take(m - 1);
        let cur = sents.take(m);
        assert(cur =~= prev.push(sents[m - 1]));
        assert(cur == prev.push(sents[m - 1]));
        crate::fenominal::lemma_doc_hits_push(sm, prev, sents[m - 1]);
        let span = sentence_spans(text)[m - 1];
        assert(sentence_matches(sents[m - 1], text, span));
        lemma_sentence_hits_sound(sm, sents[m - 1]);
        crate::core_document::lemma_trim_end_idx(text, span.0, span.1);
        let a = spec_doc_hits(sm, prev);
        let b = spec_map_sentence(sm, sents[m - 1]);
        let hs = spec_doc_hits(sm, cur);
        assert(hs =~= a + b);
        let st = sents[m - 1].spec_start_pos() as int;
        let clen = sents[m - 1].spec_sentence().len() as int;
        assert(st == span.0);
        assert(st + clen <= span.1) by {
            assert(sents[m - 1].spec_sentence() == text.subrange(
                span.0,
                sentence_content_end(text, span),
            ));
        }
        assert forall|p: int| 0 <= p < hs.len() implies exists|k: int|
            0 <= k < m && in_sentence_span(#[trigger] hs[p], sentence_spans(text)[k]) by {
            if p < a.len() {
                assert(hs[p] == a[p]);
                let k = choose|k: int|
                    0 <= k < m - 1 && in_sentence_span(a[p], sentence_spans(text)[k]);
                assert(in_sentence_span(hs[p], sentence_spans(text)[k]));
            } else {
                assert(hs[p] == b[p - a.len()]);
                assert(in_sentence_span(hs[p], span));
            }
        }
        assert forall|p1: int, p2: int| 0 <= p1 < p2 < hs.len() implies (#[trigger] hs[p1]).end
            <= (#[trigger] hs[p2]).start by {
            if p2 < a.len() {
                assert(hs[p1] == a[p1] && hs[p2] == a[p2]);
            } else if p1 >= a.len() {
                assert(hs[p1] == b[p1 - a.len()] && hs[p2] == b[p2 - a.len()]);
            } else {
                assert(hs[p1] == a[p1] && hs[p2] == b[p2 - a.len()]);
                let k = choose|k: int|
                    0 <= k < m - 1 && in_sentence_span(a[p1], sentence_spans(text)[k]);
                if k + 1 < m - 1 + 1 && k < m - 1 {
                    if k < m - 1 {
                        if k + 1 <= m - 1 {
                            if k == m - 2 {
                                assert(sentence_spans(text)[k].1 <= span.0) by {
                                    lemma_sentence_spans_from(text, 0);
                                }
                            } else {
                                lemma_spans_chain(text, k, m - 1);
                            }
                        }
                    }
                }
                assert(hs[p1].end <= span.0);
                assert(hs[p2].start >= st);
            }
        }
    }
}

/// One hit lies inside one sentence span.
pub open spec fn in_sentence_span(h: SpecHit, span: (int, int)) -> bool {
    span.0 <= h.start && h.start < h.end && h.end <= span.1
}

/// Soundness of mining a document. For every hit: its span is nonempty and
/// within the text; hits are ordered by start and do not overlap; and every
/// hit lies inside one sentence of the text.
pub proof fn lemma_document_hits_sound(sm: SentenceMapper, text: Seq<char>, hits: Seq<FenominalHit>)
    requires
        document_result(sm, text, hits),
    ensures
        forall|i: int|
            0 <= i < hits.len() ==> (0 <= (#[trigger] hits[i]).span.start && hits[i].span.start
                < hits[i].span.end && hits[i].span.end <= text.len()),
        forall|i: int, j: int|
            0 <= i < j < hits.len() ==> (#[trigger] hits[i]).span.end
                <= (#[trigger] hits[j]).span.start,
        forall|i: int, j: int|
            0 <= i < j < hits.len() ==> (#[trigger] hits[i]).span.start
                < (#[trigger] hits[j]).span.start,
        forall|i: int|
            0 <= i < hits.len() ==> exists|k: int|
                0 <= k < sentence_spans(text).len() && sentence_spans(text)[k].0
                    <= (#[trigger] hits[i]).span.start && hits[i].span.end <= sentence_spans(
                    text,
                )[k].1,
{
    let sents = choose|sents: Seq<SimpleSentence>|
        #[trigger] sentences_match(sents, text) && hits_match(hits, spec_doc_hits(sm, sents));
    let m = sents.len() as int;
    lemma_doc_hits_props(sm, sents, text, m);
    lemma_sentence_spans_from(text, 0);
    assert(sents.take(m) =~= sents);
    assert(sents.take(m) == sents);
    let hs = spec_doc_hits(sm, sents);
    assert forall|i: int| 0 <= i < hits.len() implies (0 <= (#[trigger] hits[i]).span.start
        && hits[i].span.start < hits[i].span.end && hits[i].span.end <= text.len() && exists|
        k: int,
    |
        0 <= k < sentence_spans(text).len() && sentence_spans(text)[k].0 <= hits[i].span.start
            && hits[i].span.end <= sentence_spans(text)[k].1) by {
        assert(hit_matches(hits[i], hs[i]));
        let k = choose|k: int| 0 <= k < m && in_sentence_span(hs[i], sentence_spans(text)[k]);
        assert(sentence_spans(text)[k].0 <= hits[i].span.start && hits[i].span.end
            <= sentence_spans(text)[k].1);
    }
    assert forall|i: int, j: int| 0 <= i < j < hits.len() implies ((#[trigger] hits[i]).span.end
        <= (#[trigger] hits[j]).span.start && hits[i].span.start < hits[j].span.start) by {
        assert(hit_matches(hits[i], hs[i]));
        assert(hit_matches(hits[j], hs[j]));
        assert(hs[i].end <= hs[j].start);
        assert(hs[i].start < hs[i].end);
    }
}

/// The sentence containing a negation cue yields only excluded hits.
pub proof fn lemma_negated_sentence_hits_excluded(sm: SentenceMapper, ss: SimpleSentence)
    requires
        tokens_match(ss.spec_tokens(), ss.spec_sentence()),
        spec_has_negation(ss.spec_tokens()),
    ensures
        forall|p: int|
            0 <= p < spec_map_sentence(sm, ss).len() ==> !(#[trigger] spec_map_sentence(
                sm,
                ss,
            )[p]).observed,
{
    lemma_sentence_hits_sound(sm, ss);
}

/// A sentence without a negation cue yields only observed hits.
pub proof fn lemma_plain_sentence_hits_observed(sm: SentenceMapper, ss: SimpleSentence)
    requires
        tokens_match(ss.spec_tokens(), ss.spec_sentence()),
        !spec_has_negation(ss.spec_tokens()),
    ensures
        forall|p: int|
            0 <= p < spec_map_sentence(sm, ss).len() ==> (#[trigger] spec_map_sentence(
                sm,
                ss,
            )[p]).observed,
{
    lemma_sentence_hits_sound(sm, ss);
}

/// Every hit's label is the one the label map holds for its identifier.
pub proof fn lemma_hit_labels_resolved(sm: SentenceMapper, ss: SimpleSentence)
    requires
        tokens_match(ss.spec_tokens(), ss.spec_sentence()),
    ensures
        forall|p: int|
            0 <= p < spec_map_sentence(sm, ss).len() ==> sm.spec_term_map().spec_get(
                (#[trigger] spec_map_sentence(sm, ss)[p]).tid,
            ) == Option::Some(spec_map_sentence(sm, ss)[p].label),
{
    lemma_sentence_hits_sound(sm, ss);
}

/// Empty input yields an empty hit list.
pub proof fn lemma_empty_input(sm: SentenceMapper, text: Seq<char>, hits: Seq<FenominalHit>)
    requires
        document_result(sm, text, hits),
        text.len() == 0,
    ensures
        hits.len() == 0,
{
    let sents = choose|sents: Seq<SimpleSentence>|
        #[trigger] sentences_match(sents, text) && hits_match(hits, spec_doc_hits(sm, sents));
    assert(sentence_spans(text).len() == 0);
    assert(sents.len() == 0);
    assert(sents =~= Seq::<SimpleSentence>::empty());
    assert(spec_doc_hits(sm, sents).len() == 0);
}

/// Two tokens carrying the same data.
pub open spec fn token_like(a: SimpleToken, b: SimpleToken) -> bool {
    &&& a.spec_token() == b.spec_token()
    &&& a.spec_original_token() == b.spec_original_token()
    &&& a.spec_start_pos() == b.spec_start_pos()
    &&& a.spec_end_pos() == b.spec_end_pos()
}

pub open spec fn tokens_like(a: Seq<SimpleToken>, b: Seq<SimpleToken>) -> bool {
    a.len() == b.len() && forall|i: int| 0 <= i < a.len() ==> token_like(#[trigger] a[i], b[i])
}

/// Candidate generation depends only on the tokens' data.
proof fn lemma_cands_for_size_congruent(
    dict: DefaultHpoMapper,
    t1: Seq<SimpleToken>,
    t2: Seq<SimpleToken>,
    st: int,
    k: int,
    j: int,
)
    requires
        tokens_like(t1, t2),
        1 <= k,
        0 <= j,
    ensures
        cands_for_size(dict, t1, st, k, j) == cands_for_size(dict, t2, st, k, j),
    decreases t1.len() + 1 - j,
{
    if (j + 1) * k > t1.len() {
    } else {
        assert(j + 1 <= (j + 1) * k) by (nonlinear_arith)
            requires
                0 <= j,
                1 <= k,
        ;
        assert(0 <= j * k && j * k + k <= t1.len()) by (nonlinear_arith)
            requires
                0 <= j,
                1 <= k,
                (j + 1) * k <= t1.len(),
        ;
        lemma_cands_for_size_congruent(dict, t1, t2, st, k, j + 1);
        let lo = j * k;
        assert(window_words(t1, lo, k) =~= window_words(t2, lo, k));
        assert(window_words(t1, lo, k) == window_words(t2, lo, k));
        match window_match(dict, t1, lo, k) {
            Option::None => {
            },
            Option::Some(c) => {
                assert(crate::hpo::sentence_mapper::cand_of(c, t1, lo, k, st)
                    == crate::hpo::sentence_mapper::cand_of(c, t2, lo, k, st));
            },
        }
    }
}

proof fn lemma_cands_from_size_congruent(
    dict: DefaultHpoMapper,
    t1: Seq<SimpleToken>,
    t2: Seq<SimpleToken>,
    st: int,
    k: int,
)
    requires
        tokens_like(t1, t2),
        1 <= k,
    ensures
        cands_from_size(dict, t1, st, k) == cands_from_size(dict, t2, st, k),
    decreases max_window(t1) + 1 - k,
{
    assert(max_window(t1) == max_window(t2));
    if k > max_window(t1) {
    } else {
        lemma_cands_from_size_congruent(dict, t1, t2, st, k + 1);
        lemma_cands_for_size_congruent(dict, t1, t2, st, k, 0);
    }
}

/// Mining one sentence depends only on the sentence's data: offsets, text
/// and token data.
proof fn lemma_map_sentence_congruent(sm: SentenceMapper, s1: SimpleSentence, s2: SimpleSentence)
    requires
        s1.spec_start_pos() == s2.spec_start_pos(),
        tokens_like(s1.spec_tokens(), s2.spec_tokens()),
    ensures
        spec_map_sentence(sm, s1) == spec_map_sentence(sm, s2),
{
    let t1 = s1.spec_tokens();
    let t2 = s2.spec_tokens();
    let st = s1.spec_start_pos() as int;
    lemma_cands_from_size_congruent(sm.spec_mapper(), t1, t2, st, 1);
    assert(all_cands(sm.spec_mapper(), t1, st) == all_cands(sm.spec_mapper(), t2, st));
    assert(spec_has_negation(t1) == spec_has_negation(t2)) by {
        if spec_has_negation(t1) {
            let i = choose|i: int|
                0 <= i < t1.len() && crate::hpo::sentence_mapper::spec_is_negation_cue(
                    #[trigger] lc_token(t1[i]),
                );
            assert(crate::hpo::sentence_mapper::spec_is_negation_cue(lc_token(t2[i])));
        }
        if spec_has_negation(t2) {
            let i = choose|i: int|
                0 <= i < t2.len() && crate::hpo::sentence_mapper::spec_is_negation_cue(
                    #[trigger] lc_token(t2[i]),
                );
            assert(crate::hpo::sentence_mapper::spec_is_negation_cue(lc_token(t1[i])));
        }
    }
}

/// The hits of a document depend only on the text: two sentence lists that
/// both match the text give the same hits.
proof fn lemma_doc_hits_congruent(
    sm: SentenceMapper,
    text: Seq<char>,
    s1: Seq<SimpleSentence>,
    s2: Seq<SimpleSentence>,
    m: int,
)
    requires
        sentences_match(s1, text),
        sentences_match(s2, text),
        0 <= m <= s1.len(),
    ensures
        spec_doc_hits(sm, s1.take(m)) == spec_doc_hits(sm, s2.take(m)),
    decreases m,
{
    if m == 0 {
        assert(s1.take(0) =~= Seq::<SimpleSentence>::empty());
        assert(s1.take(0) == Seq::<SimpleSentence>::empty());
        assert(s2.take(0) =~= Seq::<SimpleSentence>::empty());
        assert(s2.take(0) == Seq::<SimpleSentence>::empty());
    } else {
        lemma_doc_hits_congruent(sm, text, s1, s2, m - 1);
        assert(s1.take(m) =~= s1.take(m - 1).push(s1[m - 1]));
        assert(s1.take(m) == s1.take(m - 1).push(s1[m - 1]));
        assert(s2.take(m) =~= s2.take(m - 1).push(s2[m - 1]));
        assert(s2.take(m) == s2.take(m - 1).push(s2[m - 1]));
        crate::fenominal::lemma_doc_hits_push(sm, s1.take(m - 1), s1[m - 1]);
        crate::fenominal::lemma_doc_hits_push(sm, s2.take(m - 1), s2[m - 1]);
        let span = sentence_spans(text)[m - 1];
        assert(sentence_matches(s1[m - 1], text, span));
        assert(sentence_matches(s2[m - 1], text, span));
        let content = text.subrange(span.0, sentence_content_end(text, span));
        assert(tokens_like(s1[m - 1].spec_tokens(), s2[m - 1].spec_tokens())) by {
            let t1 = s1[m - 1].spec_tokens();
            let t2 = s2[m - 1].spec_tokens();
            assert forall|i: int| 0 <= i < t1.len() implies token_like(
                #[trigger] t1[i],
                t2[i],
            ) by {
                assert(crate::simple_sentence::token_matches(
                    t1[i],
                    content,
                    token_spans(content)[i],
                ));
                assert(crate::simple_sentence::token_matches(
                    t2[i],
                    content,
                    token_spans(content)[i],
                ));
            }
        }
        lemma_map_sentence_congruent(sm, s1[m - 1], s2[m - 1]);
        assert(spec_doc_hits(sm, s1.take(m)) =~= spec_doc_hits(sm, s2.take(m)));
    }
}

/// Determinism: mining the same text with the same miner gives the same
/// hits, field by field, however often it is repeated.
pub proof fn lemma_process_deterministic(
    sm: SentenceMapper,
    text: Seq<char>,
    r1: Seq<FenominalHit>,
    r2: Seq<FenominalHit>,
)
    requires
        document_result(sm, text, r1),
        document_result(sm, text, r2),
    ensures
        r1.len() == r2.len(),
        forall|i: int|
            0 <= i < r1.len() ==> ((#[trigger] r1[i]).term_id@ == (#[trigger] r2[i]).term_id@
                && r1[i].label@ == r2[i].label@ && r1[i].span.start == r2[i].span.start
                && r1[i].span.end == r2[i].span.end && r1[i].is_observed == r2[i].is_observed),
{
    let s1 = choose|s1: Seq<SimpleSentence>|
        #[trigger] sentences_match(s1, text) && hits_match(r1, spec_doc_hits(sm, s1));
    let s2 = choose|s2: Seq<SimpleSentence>|
        #[trigger] sentences_match(s2, text) && hits_match(r2, spec_doc_hits(sm, s2));
    assert(s1.len() == s2.len());
    lemma_doc_hits_congruent(sm, text, s1, s2, s1.len() as int);
    assert(s1.take(s1.len() as int) =~= s1);
    assert(s1.take(s1.len() as int) == s1);
    assert(s2.take(s2.len() as int) =~= s2);
    assert(s2.take(s2.len() as int) == s2);
    let hs = spec_doc_hits(sm, s1);
    assert forall|i: int| 0 <= i < r1.len() implies ((#[trigger] r1[i]).term_id@ == (
    #[trigger] r2[i]).term_id@ && r1[i].label@ == r2[i].label@ && r1[i].span.start
        == r2[i].span.start && r1[i].span.end == r2[i].span.end && r1[i].is_observed
        == r2[i].is_observed) by {
        assert(hit_matches(r1[i], hs[i]));
        assert(hit_matches(r2[i], spec_doc_hits(sm, s2)[i]));
    }
}

/// Building the dictionary is idempotent: two dictionaries built from the
/// same entries index the same surface forms with the same identifiers and
/// the same word sets, size by size.
pub proof fn lemma_build_idempotent(
    m1: DefaultHpoMapper,
    m2: DefaultHpoMapper,
    entries: Seq<(Seq<char>, Seq<char>)>,
)
    requires
        forall|n: int|
            1 <= n <= crate::hpo::default_hpo_mapper::MAX_HPO_TERM_TOKEN_COUNT
                ==> #[trigger] crate::hpo::default_hpo_mapper::concepts_match_entries(
                m1.concepts_of(n),
                crate::hpo::default_hpo_mapper::entries_of_size(entries, n as nat),
            ),
        forall|n: int|
            1 <= n <= crate::hpo::default_hpo_mapper::MAX_HPO_TERM_TOKEN_COUNT
                ==> #[trigger] crate::hpo::default_hpo_mapper::concepts_match_entries(
                m2.concepts_of(n),
                crate::hpo::default_hpo_mapper::entries_of_size(entries, n as nat),
            ),
    ensures
        forall|n: int|
            1 <= n <= crate::hpo::default_hpo_mapper::MAX_HPO_TERM_TOKEN_COUNT
                ==> #[trigger] m1.concepts_of(n).len() == m2.concepts_of(n).len(),
        forall|n: int, j: int|
            1 <= n <= crate::hpo::default_hpo_mapper::MAX_HPO_TERM_TOKEN_COUNT && 0 <= j
                < m1.concepts_of(n).len() ==> ((#[trigger] m1.concepts_of(n)[j]).spec_term_id()
                == m2.concepts_of(n)[j].spec_term_id() && m1.concepts_of(n)[j].word_set()
                == m2.concepts_of(n)[j].word_set()),
{
    assert forall|n: int|
        1 <= n <= crate::hpo::default_hpo_mapper::MAX_HPO_TERM_TOKEN_COUNT implies
        #[trigger] m1.concepts_of(n).len() == m2.concepts_of(n).len() by {
        let es = crate::hpo::default_hpo_mapper::entries_of_size(entries, n as nat);
        assert(crate::hpo::default_hpo_mapper::concepts_match_entries(m1.concepts_of(n), es));
        assert(crate::hpo::default_hpo_mapper::concepts_match_entries(m2.concepts_of(n), es));
    }
    assert forall|n: int, j: int|
        1 <= n <= crate::hpo::default_hpo_mapper::MAX_HPO_TERM_TOKEN_COUNT && 0 <= j
            < m1.concepts_of(n).len() implies ((#[trigger] m1.concepts_of(n)[j]).spec_term_id()
        == m2.concepts_of(n)[j].spec_term_id() && m1.concepts_of(n)[j].word_set()
        == m2.concepts_of(n)[j].word_set()) by {
        let es = crate::hpo::default_hpo_mapper::entries_of_size(entries, n as nat);
        assert(crate::hpo::default_hpo_mapper::concepts_match_entries(m1.concepts_of(n), es));
        assert(crate::hpo::default_hpo_mapper::concepts_match_entries(m2.concepts_of(n), es));
        assert(crate::hpo::default_hpo_mapper::concept_matches_entry(
            m1.concepts_of(n)[j],
            es[j],
        ));
        assert(crate::hpo::default_hpo_mapper::concept_matches_entry(
            m2.concepts_of(n)[j],
            es[j],
        ));
        crate::hpo::hpo_concept::lemma_wf_word_set(m1.concepts_of(n)[j]);
        crate::hpo::hpo_concept::lemma_wf_word_set(m2.concepts_of(n)[j]);
    }
}

/// A surface form whose non-stop word set is empty, for instance a single
/// stop word, is never indexed: every indexed concept has a nonempty set.
pub proof fn lemma_empty_set_never_indexed(m: DefaultHpoMapper, entries: Seq<(Seq<char>, Seq<char>)>)
    requires
        forall|n: int|
            1 <= n <= crate::hpo::default_hpo_mapper::MAX_HPO_TERM_TOKEN_COUNT
                ==> #[trigger] crate::hpo::default_hpo_mapper::concepts_match_entries(
                m.concepts_of(n),
                crate::hpo::default_hpo_mapper::entries_of_size(entries, n as nat),
            ),
    ensures
        forall|n: int, j: int|
            1 <= n <= crate::hpo::default_hpo_mapper::MAX_HPO_TERM_TOKEN_COUNT && 0 <= j
                < m.concepts_of(n).len() ==> (#[trigger] m.concepts_of(n)[j]).word_set().len()
                >= 1,
{
    assert forall|n: int, j: int|
        1 <= n <= crate::hpo::default_hpo_mapper::MAX_HPO_TERM_TOKEN_COUNT && 0 <= j
            < m.concepts_of(n).len() implies (#[trigger] m.concepts_of(n)[j]).word_set().len()
        >= 1 by {
        let es = crate::hpo::default_hpo_mapper::entries_of_size(entries, n as nat);
        assert(crate::hpo::default_hpo_mapper::concepts_match_entries(m.concepts_of(n), es));
        assert(crate::hpo::default_hpo_mapper::concept_matches_entry(m.concepts_of(n)[j], es[j]));
        crate::hpo::hpo_concept::lemma_wf_word_set(m.concepts_of(n)[j]);
        entries.lemma_filter_pred(
            (|e: (Seq<char>, Seq<char>)| crate::hpo::default_hpo_mapper::entry_word_count(e.0)
                == n as nat),
            j,
        );
        assert(crate::hpo::default_hpo_mapper::entry_word_count(es[j].0) == n as nat);
    }
}

/// A dictionary probe that matches returns a concept whose non-stop word
/// set equals the window's token set.
pub proof fn lemma_match_sets_equal(
    dict: DefaultHpoMapper,
    toks: Seq<SimpleToken>,
    lo: int,
    k: int,
)
    ensures
        window_match(dict, toks, lo, k) is Some ==> window_match(dict, toks, lo, k)->0.word_set()
            == window_words(toks, lo, k).to_set(),
{
    lemma_first_match_index(dict.concepts_of(k), window_words(toks, lo, k).to_set(), 0);
}

/// Position of the first node at or after `i` whose identifier is `id`, or
/// the number of nodes.
pub open spec fn first_node_idx(
    nodes: Seq<crate::hpo::simple_hpo_parser::HpNode>,
    id: Seq<char>,
    i: int,
) -> int
    decreases nodes.len() - i,
{
    if i < 0 || i >= nodes.len() {
        nodes.len() as int
    } else if nodes[i].spec_term_id() == id {
        i
    } else {
        first_node_idx(nodes, id, i + 1)
    }
}

proof fn lemma_label_pairs_from_props(
    pairs: Seq<(Seq<char>, Seq<char>)>,
    nodes: Seq<crate::hpo::simple_hpo_parser::HpNode>,
    i: int,
    id: Seq<char>,
)
    requires
        0 <= i <= nodes.len(),
    ensures
        ({
            let res = crate::hpo::simple_hpo_parser::label_pairs_from(pairs, nodes, i);
            let ki = crate::hpo::term_label_map::key_index(pairs, id, 0);
            let kr = crate::hpo::term_label_map::key_index(res, id, 0);
            let fni = first_node_idx(nodes, id, i);
            &&& res.len() >= pairs.len()
            &&& res.take(pairs.len() as int) == pairs
            &&& (ki < pairs.len() ==> kr == ki)
            &&& (ki == pairs.len() && fni < nodes.len() ==> kr < res.len() && res[kr].1
                == nodes[fni].spec_term_label())
            &&& (ki == pairs.len() && fni == nodes.len() ==> kr == res.len())
        }),
    decreases nodes.len() - i,
{
    crate::hpo::term_label_map::lemma_key_index(pairs, id, 0);
    let res = crate::hpo::simple_hpo_parser::label_pairs_from(pairs, nodes, i);
    let ki = crate::hpo::term_label_map::key_index(pairs, id, 0);
    if i >= nodes.len() {
        assert(res == pairs);
        assert(res.take(pairs.len() as int) =~= pairs);
    } else {
        let k = nodes[i].spec_term_id();
        let kik = crate::hpo::term_label_map::key_index(pairs, k, 0);
        crate::hpo::term_label_map::lemma_key_index(pairs, k, 0);
        let next = if kik < pairs.len() {
            pairs
        } else {
            pairs.push((k, nodes[i].spec_term_label()))
        };
        assert(res == crate::hpo::simple_hpo_parser::label_pairs_from(next, nodes, i + 1));
        lemma_label_pairs_from_props(next, nodes, i + 1, id);
        assert(next.take(pairs.len() as int) =~= pairs);
        assert(res.take(pairs.len() as int) =~= pairs) by {
            assert(res.take(next.len() as int) == next);
            assert forall|q: int| 0 <= q < pairs.len() implies res.take(pairs.len() as int)[q]
                == pairs[q] by {
                assert(res.take(next.len() as int)[q] == next[q]);
            }
        }
        // how the lookup of `id` behaves in `next`
        if ki < pairs.len() {
            assert(crate::hpo::term_label_map::key_index(next, id, 0) == ki) by {
                assert forall|q: int| 0 <= q < ki implies (#[trigger] next[q]).0 != id by {
                    assert(next[q] == pairs[q]);
                }
                assert(next[ki].0 == id);
                crate::hpo::term_label_map::lemma_key_index_eq(next, id, ki);
            }
        } else {
            if k == id {
                assert(kik == ki == pairs.len());
                assert(next == pairs.push((id, nodes[i].spec_term_label())));
                assert(crate::hpo::term_label_map::key_index(next, id, 0) == pairs.len()) by {
                    assert forall|q: int| 0 <= q < pairs.len() implies (#[trigger] next[q]).0
                        != id by {
                        assert(next[q] == pairs[q]);
                    }
                    assert(next[pairs.len() as int].0 == id);
                    crate::hpo::term_label_map::lemma_key_index_eq(
                        next,
                        id,
                        pairs.len() as int,
                    );
                }
                assert(first_node_idx(nodes, id, i) == i);
                assert(res[crate::hpo::term_label_map::key_index(res, id, 0)].1
                    == nodes[i].spec_term_label()) by {
                    assert(crate::hpo::term_label_map::key_index(res, id, 0) == pairs.len());
                    assert(res.take(next.len() as int) == next);
                    assert(res.take(next.len() as int)[pairs.len() as int] == next[pairs.len() as int]);
                }
            } else {
                assert(crate::hpo::term_label_map::key_index(next, id, 0) == next.len()) by {
                    assert forall|q: int| 0 <= q < next.len() implies (#[trigger] next[q]).0
                        != id by {
                        if q < pairs.len() {
                            assert(next[q] == pairs[q]);
                        }
                    }
                    crate::hpo::term_label_map::lemma_key_index_eq(next, id, next.len() as int);
                }
                assert(first_node_idx(nodes, id, i) == first_node_idx(nodes, id, i + 1));
            }
        }
    }
}

/// The label map built from the ontology nodes answers every identifier
/// with the primary label of the first node carrying it, and knows no other
/// identifiers. Together with `lemma_hit_labels_resolved` this says that a
/// hit's label is always the ontology's primary label for its term.
pub proof fn lemma_label_map_is_primary_label(
    m: TermLabelMap,
    nodes: Seq<crate::hpo::simple_hpo_parser::HpNode>,
    id: Seq<char>,
)
    requires
        m.pairs_view() == crate::hpo::simple_hpo_parser::label_pairs_from(
            Seq::<(Seq<char>, Seq<char>)>::empty(),
            nodes,
            0,
        ),
    ensures
        m.spec_get(id) is Some <==> first_node_idx(nodes, id, 0) < nodes.len(),
        m.spec_get(id) is Some ==> m.spec_get(id)->0 == nodes[first_node_idx(
            nodes,
            id,
            0,
        )].spec_term_label(),
        first_node_idx(nodes, id, 0) < nodes.len() ==> nodes[first_node_idx(
            nodes,
            id,
            0,
        )].spec_term_id() == id,
{
    let empty_pairs = Seq::<(Seq<char>, Seq<char>)>::empty();
    lemma_label_pairs_from_props(empty_pairs, nodes, 0, id);
    crate::hpo::term_label_map::lemma_key_index(m.pairs_view(), id, 0);
    lemma_first_node_idx(nodes, id, 0);
}

proof fn lemma_first_node_idx(
    nodes: Seq<crate::hpo::simple_hpo_parser::HpNode>,
    id: Seq<char>,
    i: int,
)
    requires
        0 <= i <= nodes.len(),
    ensures
        i <= first_node_idx(nodes, id, i) <= nodes.len(),
        first_node_idx(nodes, id, i) < nodes.len() ==> nodes[first_node_idx(
            nodes,
            id,
            i,
        )].spec_term_id() == id,
    decreases nodes.len() - i,
{
    if i < nodes.len() && nodes[i].spec_term_id() != id {
        lemma_first_node_idx(nodes, id, i + 1);
    }
}

/// Letter runs are unaffected by a whitespace suffix.
proof fn lemma_run_len_space_suffix(s1: Seq<char>, s2: Seq<char>, i: int)
    requires
        s1.len() <= s2.len(),
        s2.take(s1.len() as int) == s1,
        forall|j: int| s1.len() <= j < s2.len() ==> crate::text::is_space(#[trigger] s2[j]),
        0 <= i <= s1.len(),
    ensures
        crate::simple_sentence::run_len(s2, i) == crate::simple_sentence::run_len(s1, i),
    decreases s1.len() - i,
{
    if i < s1.len() {
        assert(s1[i] == s2[i]);
        if crate::text::is_letter(s1[i]) {
            lemma_run_len_space_suffix(s1, s2, i + 1);
        }
    }
}

/// After the original text ends, the whitespace suffix holds no tokens.
proof fn lemma_token_spans_space_tail(s2: Seq<char>, j: int)
    requires
        0 <= j <= s2.len(),
        forall|q: int| j <= q < s2.len() ==> crate::text::is_space(#[trigger] s2[q]),
    ensures
        token_spans_from(s2, j) =~= Seq::<(int, int)>::empty(),
    decreases s2.len() - j,
{
    if j < s2.len() {
        lemma_token_spans_space_tail(s2, j + 1);
    }
}

/// Tokenization is unaffected by a whitespace suffix.
proof fn lemma_token_spans_space_suffix(s1: Seq<char>, s2: Seq<char>, i: int)
    requires
        s1.len() <= s2.len(),
        s2.take(s1.len() as int) == s1,
        forall|j: int| s1.len() <= j < s2.len() ==> crate::text::is_space(#[trigger] s2[j]),
        0 <= i <= s1.len(),
    ensures
        token_spans_from(s2, i) =~= token_spans_from(s1, i),
    decreases s1.len() - i,
{
    crate::simple_sentence::lemma_run_len(s1, i);
    if i >= s1.len() {
        lemma_token_spans_space_tail(s2, i);
    } else {
        assert(s1[i] == s2[i]);
        if crate::text::is_letter(s1[i]) {
            lemma_run_len_space_suffix(s1, s2, i);
            let e1 = i + crate::simple_sentence::run_len(s1, i);
            assert(e1 <= s1.len());
            let e = crate::simple_sentence::token_end(s1, i);
            assert(crate::simple_sentence::token_end(s2, i) == e) by {
                if e1 < s1.len() {
                    assert(s1[e1] == s2[e1]);
                    if crate::text::is_joiner(s1[e1]) && e1 + 1 < s1.len()
                        && crate::text::is_letter(s1[e1 + 1]) {
                        assert(s1[e1 + 1] == s2[e1 + 1]);
                        lemma_run_len_space_suffix(s1, s2, e1 + 1);
                    } else {
                        if e1 + 1 < s2.len() && crate::text::is_joiner(s2[e1]) {
                            if e1 + 1 < s1.len() {
                                assert(s1[e1 + 1] == s2[e1 + 1]);
                            } else {
                                assert(crate::text::is_space(s2[e1 + 1]));
                            }
                        }
                    }
                } else {
                    if e1 < s2.len() {
                        assert(crate::text::is_space(s2[e1]));
                    }
                }
            }
            crate::simple_sentence::lemma_token_end(s1, i);
            lemma_token_spans_space_suffix(s1, s2, e);
        } else {
            lemma_token_spans_space_suffix(s1, s2, i + 1);
        }
    }
}

/// Round trip: tokenizing the document substring over a sentence's full
/// span gives exactly the sentence's stored tokens. The stored sentence
/// text is trimmed at its end, but the trailing whitespace holds no tokens.
pub proof fn lemma_sentence_tokens_roundtrip(
    sents: Seq<SimpleSentence>,
    text: Seq<char>,
    k: int,
)
    requires
        sentences_match(sents, text),
        0 <= k < sents.len(),
    ensures
        ({
            let span = sentence_spans(text)[k];
            tokens_match(sents[k].spec_tokens(), text.subrange(span.0, span.1))
        }),
{
    lemma_sentence_spans_from(text, 0);
    let span = sentence_spans(text)[k];
    assert(sentence_matches(sents[k], text, span));
    crate::core_document::lemma_trim_end_idx(text, span.0, span.1);
    let ce = sentence_content_end(text, span);
    let content = text.subrange(span.0, ce);
    let full = text.subrange(span.0, span.1);
    assert(full.take(content.len() as int) =~= content);
    assert(full.take(content.len() as int) == content);
    assert forall|j: int| content.len() <= j < full.len() implies crate::text::is_space(
        #[trigger] full[j],
    ) by {
        assert(full[j] == text[span.0 + j]);
    }
    lemma_token_spans_space_suffix(content, full, 0);
    assert(token_spans(full) == token_spans(content)) by {
        assert(token_spans_from(full, 0) =~= token_spans_from(content, 0));
    }
    let ts = sents[k].spec_tokens();
    assert forall|p: int| 0 <= p < ts.len() implies #[trigger] crate::simple_sentence::token_matches(
        ts[p],
        full,
        token_spans(full)[p],
    ) by {
        assert(crate::simple_sentence::token_matches(ts[p], content, token_spans(content)[p]));
        let sp = token_spans(content)[p];
        crate::simple_sentence::lemma_token_spans_from(content, 0);
        assert(full.subrange(sp.0, sp.1) =~= content.subrange(sp.0, sp.1));
    }
}

/// A sentence whose tokens are all stop words yields no hits: a stop word
/// is never in any indexed concept's word set, so no window can match.
pub proof fn lemma_stop_words_only_sentence(sm: SentenceMapper, ss: SimpleSentence)
    requires
        sm.wf(),
        forall|i: int|
            0 <= i < ss.spec_tokens().len() ==> crate::stopwords::spec_is_stop(
                #[trigger] lc_token(ss.spec_tokens()[i]),
            ),
    ensures
        spec_map_sentence(sm, ss) =~= Seq::<SpecHit>::empty(),
{
    let toks = ss.spec_tokens();
    let st = ss.spec_start_pos() as int;
    let dict = sm.spec_mapper();
    lemma_stop_cands_from_size(dict, toks, st, 1);
    let cands = all_cands(dict, toks, st);
    assert(cands =~= Seq::<SpecCand>::empty());
    assert(sorted_starts(cands) =~= Seq::<int>::empty());
    assert(spec_selected(cands) =~= Seq::<SpecCand>::empty());
}

proof fn lemma_stop_cands_for_size(
    dict: DefaultHpoMapper,
    toks: Seq<SimpleToken>,
    st: int,
    k: int,
    j: int,
)
    requires
        dict.wf(),
        1 <= k <= crate::hpo::default_hpo_mapper::MAX_HPO_TERM_TOKEN_COUNT,
        0 <= j,
        forall|i: int|
            0 <= i < toks.len() ==> crate::stopwords::spec_is_stop(#[trigger] lc_token(toks[i])),
    ensures
        cands_for_size(dict, toks, st, k, j) =~= Seq::<SpecCand>::empty(),
    decreases toks.len() + 1 - j,
{
    if (j + 1) * k > toks.len() {
    } else {
        assert(j + 1 <= (j + 1) * k) by (nonlinear_arith)
            requires
                0 <= j,
                1 <= k,
        ;
        assert(0 <= j * k && j * k + k <= toks.len()) by (nonlinear_arith)
            requires
                0 <= j,
                1 <= k,
                (j + 1) * k <= toks.len(),
        ;
        lemma_stop_cands_for_size(dict, toks, st, k, j + 1);
        let lo = j * k;
        let ws = window_words(toks, lo, k);
        let s = ws.to_set();
        lemma_first_match_index(dict.concepts_of(k), s, 0);
        crate::hpo::default_hpo_mapper::lemma_wf_concepts(dict);
        if window_match(dict, toks, lo, k) is Some {
            let fm = crate::hpo::hpo_concept_mapper::first_match_index(dict.concepts_of(k), s, 0);
            let c = dict.concepts_of(k)[fm];
            assert(c.wf() && c.word_set().len() == k);
            crate::hpo::hpo_concept::lemma_wf_words_non_stop(c);
            assert(exists|w: Seq<char>| c.word_set().contains(w)) by {
                broadcast use vstd::set::group_set_axioms;

                if forall|w: Seq<char>| !(#[trigger] c.word_set().contains(w)) {
                    assert(c.word_set() =~= Set::<Seq<char>>::empty());
                    assert(c.word_set().len() == 0);
                }
            }
            let w = choose|w: Seq<char>| c.word_set().contains(w);
            assert(!crate::stopwords::spec_is_stop(w));
            assert(c.word_set() == s);
            assert(s.contains(w));
            assert(ws.contains(w));
            let q = choose|q: int| 0 <= q < ws.len() && ws[q] == w;
            assert(ws[q] == lc_token(toks[lo + q]));
            assert(crate::stopwords::spec_is_stop(lc_token(toks[lo + q])));
            assert(false);
        }
    }
}

proof fn lemma_stop_cands_from_size(
    dict: DefaultHpoMapper,
    toks: Seq<SimpleToken>,
    st: int,
    k: int,
)
    requires
        dict.wf(),
        1 <= k,
        forall|i: int|
            0 <= i < toks.len() ==> crate::stopwords::spec_is_stop(#[trigger] lc_token(toks[i])),
    ensures
        cands_from_size(dict, toks, st, k) =~= Seq::<SpecCand>::empty(),
    decreases max_window(toks) + 1 - k,
{
    if k > max_window(toks) {
    } else {
        lemma_stop_cands_from_size(dict, toks, st, k + 1);
        lemma_stop_cands_for_size(dict, toks, st, k, 0);
    }
}

/// The stored (end-trimmed) text of sentence `k` of `text`.
pub open spec fn sentence_content(text: Seq<char>, k: int) -> Seq<char> {
    let span = sentence_spans(text)[k];
    text.subrange(span.0, sentence_content_end(text, span))
}

/// Every token of every sentence of `text` is a stop word.
pub open spec fn only_stop_word_tokens(text: Seq<char>) -> bool {
    forall|k: int, p: int|
        0 <= k < sentence_spans(text).len() && 0 <= p < token_spans(
            sentence_content(text, k),
        ).len() ==> crate::stopwords::spec_is_stop(
            crate::text::lc_seq(
                sentence_content(text, k).subrange(
                    (#[trigger] token_spans(sentence_content(text, k))[p]).0,
                    token_spans(sentence_content(text, k))[p].1,
                ),
            ),
        )
}

/// A text whose tokens are all stop words yields no hits at all.
pub proof fn lemma_stop_words_text(sm: SentenceMapper, text: Seq<char>, hits: Seq<FenominalHit>)
    requires
        sm.wf(),
        document_result(sm, text, hits),
        only_stop_word_tokens(text),
    ensures
        hits.len() == 0,
{
    let sents = choose|sents: Seq<SimpleSentence>|
        #[trigger] sentences_match(sents, text) && hits_match(hits, spec_doc_hits(sm, sents));
    lemma_sentence_spans_from(text, 0);
    lemma_stop_doc_hits(sm, sents, text, sents.len() as int);
    assert(sents.take(sents.len() as int) =~= sents);
    assert(sents.take(sents.len() as int) == sents);
}

proof fn lemma_stop_doc_hits(
    sm: SentenceMapper,
    sents: Seq<SimpleSentence>,
    text: Seq<char>,
    m: int,
)
    requires
        sm.wf(),
        sentences_match(sents, text),
        only_stop_word_tokens(text),
        0 <= m <= sents.len(),
    ensures
        spec_doc_hits(sm, sents.take(m)) =~= Seq::<SpecHit>::empty(),
    decreases m,
{
    if m == 0 {
        assert(sents.take(0) =~= Seq::<SimpleSentence>::empty());
        assert(sents.take(0) == Seq::<SimpleSentence>::empty());
    } else {
        lemma_stop_doc_hits(sm, sents, text, m - 1);
        assert(sents.take(m) =~= sents.take(m - 1).push(sents[m - 1]));
        assert(sents.take(m) == sents.take(m - 1).push(sents[m - 1]));
        crate::fenominal::lemma_doc_hits_push(sm, sents.take(m - 1), sents[m - 1]);
        let span = sentence_spans(text)[m - 1];
        assert(sentence_matches(sents[m - 1], text, span));
        let content = sentence_content(text, m - 1);
        assert(sents[m - 1].spec_sentence() == content);
        let toks = sents[m - 1].spec_tokens();
        assert forall|i: int| 0 <= i < toks.len() implies crate::stopwords::spec_is_stop(
            #[trigger] lc_token(toks[i]),
        ) by {
            assert(crate::simple_sentence::token_matches(
                toks[i],
                content,
                token_spans(content)[i],
            ));
            assert(crate::stopwords::spec_is_stop(
                crate::text::lc_seq(
                    content.subrange(token_spans(content)[i].0, token_spans(content)[i].1),
                ),
            ));
        }
        lemma_stop_words_only_sentence(sm, sents[m - 1]);
    }
}

} // verus!

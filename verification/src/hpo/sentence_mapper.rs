//! Text mining of one sentence.
//!
//! Candidate token windows are enumerated as partitions of the sentence's
//! token list, one partition per window size; each window is probed against
//! the dictionary by word-set equality. Overlapping candidates are resolved
//! by walking start positions from the left and keeping, at each unclaimed
//! start, the candidate with the largest end (a form without a comma wins a
//! tie, then the earliest generated). A sentence that contains a negation
//! cue yields only excluded hits.

use vstd::math::min;
use vstd::prelude::*;
use vstd::slice::slice_index_get;

use crate::fenominal::FenominalHit;
use crate::hpo::default_hpo_mapper::{token_set, DefaultHpoMapper, MAX_HPO_TERM_TOKEN_COUNT};
use crate::hpo::hpo_concept::HpoConcept;
use crate::hpo::hpo_concept_mapper::first_concept_match;
use crate::hpo::partition::Partition;
use crate::hpo::term_label_map::TermLabelMap;
use crate::simple_sentence::SimpleSentence;
use crate::simple_token::SimpleToken;
use crate::text::{lc_seq, str_eq};

verus! {

/// The largest window size the matcher tries, a heuristic cap independent of
/// the dictionary's size cap.
pub const MAX_WINDOW_SIZE: usize = 10;

/// The word `w` marks the sentence as describing an excluded phenotype.
pub open spec fn spec_is_negation_cue(w: Seq<char>) -> bool {
    ||| w == "no"@
    ||| w == "nil"@
    ||| w == "denies"@
    ||| w == "not"@
    ||| w == "exclude"@
    ||| w == "excluded"@
    ||| w == "screen"@
    ||| w == "screening"@
    ||| w == "normal"@
}

/// Return true iff `token` is a negation cue.
pub fn is_negation_cue(token: &str) -> (r: bool)
    ensures
        r == spec_is_negation_cue(token@),
{
    str_eq(token, "no") || str_eq(token, "nil") || str_eq(token, "denies") || str_eq(token, "not")
        || str_eq(token, "exclude") || str_eq(token, "excluded") || str_eq(token, "screen")
        || str_eq(token, "screening") || str_eq(token, "normal")
}

/// The lowercased text of a token.
pub open spec fn lc_token(t: SimpleToken) -> Seq<char> {
    lc_seq(t.spec_original_token())
}

/// Some token of the sentence is a negation cue.
pub open spec fn spec_has_negation(tokens: Seq<SimpleToken>) -> bool {
    exists|i: int| 0 <= i < tokens.len() && spec_is_negation_cue(#[trigger] lc_token(tokens[i]))
}

/// Return true iff some token is a negation cue.
pub fn has_negation(tokens: &Vec<SimpleToken>) -> (r: bool)
    ensures
        r == spec_has_negation(tokens@),
{
    let n = tokens.len();
    for i in 0..n
        invariant
            n == tokens@.len(),
            forall|j: int| 0 <= j < i ==> !spec_is_negation_cue(#[trigger] lc_token(tokens@[j])),
    {
        let lc = tokens[i].get_lc_original_token();
        if is_negation_cue(lc.as_str()) {
            proof {
                assert(spec_is_negation_cue(lc_token(tokens@[i as int])));
            }
            return true;
        }
    }
    false
}

/// A candidate match before resolution: the term, the document span, and
/// whether the matched surface form contained a comma.
pub ghost struct SpecCand {
    pub tid: Seq<char>,
    pub start: int,
    pub end: int,
    pub comma: bool,
}

/// A resolved hit of one sentence.
pub ghost struct SpecHit {
    pub tid: Seq<char>,
    pub label: Seq<char>,
    pub start: int,
    pub end: int,
    pub observed: bool,
}

/// The lowercased texts of the window of `k` tokens starting at `lo`.
pub open spec fn window_words(tokens: Seq<SimpleToken>, lo: int, k: int) -> Seq<Seq<char>> {
    tokens.subrange(lo, lo + k).map_values(|t: SimpleToken| lc_token(t))
}

/// The dictionary's answer for one window.
pub open spec fn window_match(
    dict: DefaultHpoMapper,
    tokens: Seq<SimpleToken>,
    lo: int,
    k: int,
) -> Option<HpoConcept> {
    first_concept_match(dict.concepts_of(k), window_words(tokens, lo, k).to_set())
}

/// The candidate built from concept `c` matched on the window of `k` tokens
/// at `lo`, with spans shifted into the document by `st`.
pub open spec fn cand_of(
    c: HpoConcept,
    tokens: Seq<SimpleToken>,
    lo: int,
    k: int,
    st: int,
) -> SpecCand {
    SpecCand {
        tid: c.spec_term_id(),
        start: st + tokens[lo].spec_start_pos(),
        end: st + tokens[lo + k - 1].spec_end_pos(),
        comma: c.spec_original_concept().contains(','),
    }
}

/// The candidates of all windows of size `k` from window index `j` on.
pub open spec fn cands_for_size(
    dict: DefaultHpoMapper,
    tokens: Seq<SimpleToken>,
    st: int,
    k: int,
    j: int,
) -> Seq<SpecCand>
    decreases tokens.len() + 1 - j,
    when 0 <= j && 1 <= k
    via cands_for_size_dec
{
    if (j + 1) * k > tokens.len() {
        Seq::empty()
    } else {
        let rest = cands_for_size(dict, tokens, st, k, j + 1);
        match window_match(dict, tokens, j * k, k) {
            Option::None => rest,
            Option::Some(c) => seq![cand_of(c, tokens, j * k, k, st)] + rest,
        }
    }
}

#[via_fn]
proof fn cands_for_size_dec(
    dict: DefaultHpoMapper,
    tokens: Seq<SimpleToken>,
    st: int,
    k: int,
    j: int,
) {
    if 0 <= j && 1 <= k && (j + 1) * k <= tokens.len() {
        assert(j + 1 <= (j + 1) * k) by (nonlinear_arith)
            requires
                0 <= j,
                1 <= k,
        ;
    }
}

/// The largest window size tried on this token list.
pub open spec fn max_window(tokens: Seq<SimpleToken>) -> int {
    min(MAX_WINDOW_SIZE as int, tokens.len() as int)
}

/// The candidates of all window sizes from `k` up, in generation order.
pub open spec fn cands_from_size(
    dict: DefaultHpoMapper,
    tokens: Seq<SimpleToken>,
    st: int,
    k: int,
) -> Seq<SpecCand>
    decreases max_window(tokens) + 1 - k,
    when 1 <= k
{
    if k > max_window(tokens) {
        Seq::empty()
    } else {
        cands_for_size(dict, tokens, st, k, 0) + cands_from_size(dict, tokens, st, k + 1)
    }
}

/// All candidates of the sentence, in generation order: sizes ascending,
/// windows left to right within one size.
pub open spec fn all_cands(dict: DefaultHpoMapper, tokens: Seq<SimpleToken>, st: int) -> Seq<
    SpecCand,
> {
    cands_from_size(dict, tokens, st, 1)
}

/// Insert `x` into the ascending duplicate-free list `s`.
pub open spec fn ins_sorted(s: Seq<int>, x: int) -> Seq<int>
    decreases s.len(),
{
    if s.len() == 0 {
        seq![x]
    } else if x < s[0] {
        seq![x] + s
    } else if x == s[0] {
        s
    } else {
        seq![s[0]] + ins_sorted(s.drop_first(), x)
    }
}

/// The ascending duplicate-free list of the starts of `cands[0..i)`.
pub open spec fn sorted_starts_rec(cands: Seq<SpecCand>, i: int) -> Seq<int>
    decreases i,
{
    if i <= 0 {
        Seq::empty()
    } else {
        ins_sorted(sorted_starts_rec(cands, i - 1), cands[i - 1].start)
    }
}

/// The ascending duplicate-free list of all candidate starts.
pub open spec fn sorted_starts(cands: Seq<SpecCand>) -> Seq<int> {
    sorted_starts_rec(cands, cands.len() as int)
}

/// Strictly ascending.
pub open spec fn ascending(s: Seq<int>) -> bool {
    forall|i: int, j: int| 0 <= i < j < s.len() ==> s[i] < s[j]
}

/// `a` beats `b`: it ends later, or ends equally but has no comma while `b`
/// has one.
pub open spec fn better(a: SpecCand, b: SpecCand) -> bool {
    a.end > b.end || (a.end == b.end && !a.comma && b.comma)
}

/// The best candidate among `cands[0..i)` with start `s`: largest end, a
/// comma-free form preferred on ties, the earliest generated among equals.
pub open spec fn best_at_rec(cands: Seq<SpecCand>, s: int, i: int) -> Option<SpecCand>
    decreases i,
{
    if i <= 0 {
        Option::None
    } else {
        let prev = best_at_rec(cands, s, i - 1);
        let c = cands[i - 1];
        if c.start != s {
            prev
        } else {
            match prev {
                Option::None => Option::Some(c),
                Option::Some(b) => if better(c, b) {
                    Option::Some(c)
                } else {
                    Option::Some(b)
                },
            }
        }
    }
}

pub open spec fn best_at(cands: Seq<SpecCand>, s: int) -> Option<SpecCand> {
    best_at_rec(cands, s, cands.len() as int)
}

/// Walk the start positions from `i` on with the claimed region ending at
/// `cursor`: skip claimed starts, emit the best candidate at each unclaimed
/// start, and claim the text up to its end.
pub open spec fn select_rec(
    cands: Seq<SpecCand>,
    starts: Seq<int>,
    i: int,
    cursor: int,
) -> Seq<SpecCand>
    decreases starts.len() - i,
{
    if i < 0 || i >= starts.len() {
        Seq::empty()
    } else if starts[i] < cursor {
        select_rec(cands, starts, i + 1, cursor)
    } else {
        match best_at(cands, starts[i]) {
            Option::None => select_rec(cands, starts, i + 1, cursor),
            Option::Some(b) => seq![b] + select_rec(cands, starts, i + 1, b.end),
        }
    }
}

/// The candidates that survive the longest-non-overlapping selection.
pub open spec fn spec_selected(cands: Seq<SpecCand>) -> Seq<SpecCand> {
    select_rec(cands, sorted_starts(cands), 0, 0)
}

/// Resolve the selected candidates: each term with a known label becomes a
/// hit, the rest are dropped.
pub open spec fn hits_of_selected(
    sel: Seq<SpecCand>,
    labels: TermLabelMap,
    observed: bool,
) -> Seq<SpecHit>
    decreases sel.len(),
{
    if sel.len() == 0 {
        Seq::empty()
    } else {
        let rest = hits_of_selected(sel.drop_first(), labels, observed);
        match labels.spec_get(sel[0].tid) {
            Option::None => rest,
            Option::Some(l) => seq![
                SpecHit {
                    tid: sel[0].tid,
                    label: l,
                    start: sel[0].start,
                    end: sel[0].end,
                    observed: observed,
                },
            ] + rest,
        }
    }
}

/// `h` is the executable form of the abstract hit `s`.
pub open spec fn hit_matches(h: FenominalHit, s: SpecHit) -> bool {
    &&& h.term_id@ == s.tid
    &&& h.label@ == s.label
    &&& h.span.start == s.start
    &&& h.span.end == s.end
    &&& h.is_observed == s.observed
}

pub open spec fn hits_match(hs: Seq<FenominalHit>, sh: Seq<SpecHit>) -> bool {
    &&& hs.len() == sh.len()
    &&& forall|i: int| 0 <= i < hs.len() ==> #[trigger] hit_matches(hs[i], sh[i])
}

/// The hits of one sentence.
pub open spec fn spec_map_sentence(sm: SentenceMapper, ss: SimpleSentence) -> Seq<SpecHit> {
    let toks = ss.spec_tokens();
    let sel = spec_selected(all_cands(sm.spec_mapper(), toks, ss.spec_start_pos() as int));
    hits_of_selected(sel, sm.spec_term_map(), !spec_has_negation(toks))
}

/// Coordinates the text mining of one sentence: the dictionary and the term
/// label lookup.
pub struct SentenceMapper {
    hpo_mapper: DefaultHpoMapper,
    term_map: TermLabelMap,
}

/// An executable candidate match.
struct Candidate {
    term_id: String,
    start: usize,
    end: usize,
    has_comma: bool,
}

/// The abstract value of an executable candidate.
spec fn cand_model(c: Candidate) -> SpecCand {
    SpecCand { tid: c.term_id@, start: c.start as int, end: c.end as int, comma: c.has_comma }
}

impl SentenceMapper {
    pub closed spec fn spec_mapper(self) -> DefaultHpoMapper {
        self.hpo_mapper
    }

    pub closed spec fn spec_term_map(self) -> TermLabelMap {
        self.term_map
    }

    pub open spec fn wf(self) -> bool {
        self.spec_mapper().wf()
    }

    pub fn new(hpo_mapper: DefaultHpoMapper, term_map: TermLabelMap) -> (r: Self)
        requires
            hpo_mapper.wf(),
        ensures
            r.wf(),
            r.spec_mapper() == hpo_mapper,
            r.spec_term_map() == term_map,
    {
        SentenceMapper { hpo_mapper, term_map }
    }

    /// Probe the dictionary with one window of tokens.
    fn probe_window(&self, chunk: &[SimpleToken]) -> (r: Option<HpoConcept>)
        requires
            self.wf(),
            1 <= chunk@.len() <= MAX_WINDOW_SIZE,
        ensures
            r is Some <==> first_concept_match(
                self.spec_mapper().concepts_of(chunk@.len() as int),
                chunk@.map_values(|t: SimpleToken| lc_token(t)).to_set(),
            ) is Some,
            r is Some ==> crate::hpo::hpo_concept::concept_like(
                r->0,
                first_concept_match(
                    self.spec_mapper().concepts_of(chunk@.len() as int),
                    chunk@.map_values(|t: SimpleToken| lc_token(t)).to_set(),
                )->0,
            ),
    {
        let k = chunk.len();
        let mut words: Vec<String> = Vec::new();
        for t in 0..k
            invariant
                k == chunk@.len(),
                words@.map_values(|s: String| s@) =~= chunk@.take(t as int).map_values(
                    |tk: SimpleToken| lc_token(tk),
                ),
        {
            let tok = slice_index_get(chunk, t);
            words.push(tok.get_lc_original_token());
            proof {
                assert(words@.map_values(|s: String| s@) =~= chunk@.take(t as int).map_values(
                    |tk: SimpleToken| lc_token(tk),
                ).push(lc_token(chunk@[t as int])));
                assert(chunk@.take(t + 1).map_values(|tk: SimpleToken| lc_token(tk)) =~= chunk@
                    .take(t as int).map_values(|tk: SimpleToken| lc_token(tk)).push(
                    lc_token(chunk@[t as int]),
                ));
            }
        }
        proof {
            assert(chunk@.take(k as int) =~= chunk@);
            assert(token_set(words@) =~= chunk@.map_values(|t: SimpleToken| lc_token(t)).to_set());
        }
        self.hpo_mapper.get_match(&words)
    }

    /// Enumerate the candidate windows of every size and collect the
    /// dictionary matches, sizes ascending, windows left to right.
    #[verifier::loop_isolation(false)]
    fn generate_candidates(&self, ss: &SimpleSentence) -> (r: Vec<Candidate>)
        requires
            self.wf(),
            crate::simple_sentence::tokens_match(ss.spec_tokens(), ss.spec_sentence()),
            ss.spec_start_pos() + ss.spec_sentence().len() <= usize::MAX,
        ensures
            r@.map_values(|c: Candidate| cand_model(c)) =~= all_cands(
                self.spec_mapper(),
                ss.spec_tokens(),
                ss.spec_start_pos() as int,
            ),
    {
        let tokens = ss.get_tokens();
        let start_pos = ss.get_start_pos();
        let ghost toks = ss.spec_tokens();
        let ghost st = ss.spec_start_pos() as int;
        let ghost dict = self.hpo_mapper;
        let n_tokens = tokens.len();
        proof {
            crate::simple_sentence::lemma_token_spans_from(ss.spec_sentence(), 0);
        }
        let mut cands: Vec<Candidate> = Vec::new();
        let maxk = if n_tokens < MAX_WINDOW_SIZE {
            n_tokens
        } else {
            MAX_WINDOW_SIZE
        };
        proof {
            assert(maxk == max_window(toks));
        }
        let mut k: usize = 1;
        while k <= maxk
            invariant
                1 <= k <= maxk + 1,
                all_cands(dict, toks, st) =~= cands@.map_values(|c: Candidate| cand_model(c))
                    + cands_from_size(dict, toks, st, k as int),
            decreases maxk + 1 - k,
        {
            let partition = Partition::new(tokens.as_slice(), k);
            let mut j: usize = 0;
            proof {
                assert(cands_from_size(dict, toks, st, k as int) =~= cands_for_size(
                    dict,
                    toks,
                    st,
                    k as int,
                    0,
                ) + cands_from_size(dict, toks, st, k as int + 1));
            }
            while j < n_tokens
                invariant
                    0 <= j <= n_tokens,
                    all_cands(dict, toks, st) =~= cands@.map_values(|c: Candidate| cand_model(c))
                        + cands_for_size(dict, toks, st, k as int, j as int) + cands_from_size(
                        dict,
                        toks,
                        st,
                        k as int + 1,
                    ),
                    partition.spec_list() == toks,
                    partition.spec_chunk_size() == k,
                decreases n_tokens - j,
            {
                let ghost pre_j = j;
                match partition.get(j) {
                    None => {
                        proof {
                            assert((n_tokens + 1) * k as int > n_tokens) by (nonlinear_arith)
                                requires
                                    1 <= k,
                            ;
                            assert(cands_for_size(dict, toks, st, k as int, j as int) =~= Seq::<
                                SpecCand,
                            >::empty());
                            assert(cands_for_size(dict, toks, st, k as int, n_tokens as int)
                                =~= Seq::<SpecCand>::empty());
                        }
                        j = n_tokens;
                    },
                    Some(chunk) => {
                        let ghost lo = j as int * k as int;
                        proof {
                            vstd::arithmetic::mul::lemma_mul_is_distributive_add_other_way(
                                k as int,
                                j as int,
                                1,
                            );
                            assert(lo + k as int <= toks.len());
                            assert(chunk@ =~= toks.subrange(lo, lo + k as int));
                        }
                        let m = self.probe_window(chunk);
                        let ghost old_cands = cands@;
                        proof {
                            assert(chunk@.map_values(|t: SimpleToken| lc_token(t)) =~= window_words(
                                toks,
                                lo,
                                k as int,
                            ));
                        }
                        match m {
                            Some(concept) => {
                                proof {
                                    assert(toks[lo] == chunk@[0]);
                                    assert(toks[lo + k as int - 1] == chunk@[k as int - 1]);
                                    assert(crate::simple_sentence::token_matches(
                                        toks[lo],
                                        ss.spec_sentence(),
                                        crate::simple_sentence::token_spans(ss.spec_sentence())[lo],
                                    ));
                                    assert(crate::simple_sentence::token_matches(
                                        toks[lo + k as int - 1],
                                        ss.spec_sentence(),
                                        crate::simple_sentence::token_spans(ss.spec_sentence())[lo
                                            + k as int - 1],
                                    ));
                                    assert(toks[lo].spec_start_pos() <= ss.spec_sentence().len());
                                    assert(toks[lo + k as int - 1].spec_end_pos()
                                        <= ss.spec_sentence().len());
                                }
                                let first = slice_index_get(chunk, 0);
                                let last = slice_index_get(chunk, k - 1);
                                let startpos = first.get_start_pos() + start_pos;
                                let endpos = last.get_end_pos() + start_pos;
                                let comma = concept.has_comma();
                                let tid = concept.get_hpo_id();
                                let cand = Candidate {
                                    term_id: tid.curie(),
                                    start: startpos,
                                    end: endpos,
                                    has_comma: comma,
                                };
                                cands.push(cand);
                                proof {
                                    let c = window_match(dict, toks, lo, k as int)->0;
                                    assert(cand_model(cands@.last()) == cand_of(
                                        c,
                                        toks,
                                        lo,
                                        k as int,
                                        st,
                                    ));
                                    assert(cands@.map_values(|cc: Candidate| cand_model(cc))
                                        =~= old_cands.map_values(|cc: Candidate| cand_model(cc))
                                        .push(cand_model(cands@.last())));
                                    assert(cands_for_size(dict, toks, st, k as int, j as int)
                                        =~= seq![cand_of(c, toks, lo, k as int, st)]
                                        + cands_for_size(dict, toks, st, k as int, j as int + 1));
                                }
                            },
                            None => {
                                proof {
                                    assert(window_match(dict, toks, lo, k as int) is None);
                                    assert(cands_for_size(dict, toks, st, k as int, j as int)
                                        =~= cands_for_size(dict, toks, st, k as int, j as int + 1));
                                }
                            },
                        }
                        j = j + 1;
                    },
                }
            }
            proof {
                assert((n_tokens + 1) * k as int > n_tokens) by (nonlinear_arith)
                    requires
                        1 <= k,
                ;
                assert(cands_for_size(dict, toks, st, k as int, n_tokens as int) =~= Seq::<
                    SpecCand,
                >::empty());
            }
            k = k + 1;
        }
        proof {
            assert(cands_from_size(dict, toks, st, k as int) =~= Seq::<SpecCand>::empty());
        }
        cands
    }

    /// Mine one sentence: enumerate windows, probe the dictionary, select the
    /// longest non-overlapping candidates, resolve labels, and flag every hit
    /// excluded when the sentence holds a negation cue.
    #[verifier::loop_isolation(false)]
    pub fn map_sentence(&self, ss: &SimpleSentence) -> (r: Vec<FenominalHit>)
        requires
            self.wf(),
            crate::simple_sentence::tokens_match(ss.spec_tokens(), ss.spec_sentence()),
            ss.spec_start_pos() + ss.spec_sentence().len() <= usize::MAX,
        ensures
            hits_match(r@, spec_map_sentence(*self, *ss)),
    {
        let tokens = ss.get_tokens();
        let ghost toks = ss.spec_tokens();
        let is_excluded = has_negation(tokens);
        let cands = self.generate_candidates(ss);
        let ghost cmodel = cands@.map_values(|c: Candidate| cand_model(c));
        let starts = collect_starts(&cands);
        let ghost smodel = starts@.map_values(|x: usize| x as int);
        let n_cands = cands.len();
        let n_starts = starts.len();

        let mut result: Vec<FenominalHit> = Vec::new();
        let mut cursor: usize = 0;
        let ghost mut emitted: Seq<SpecCand> = Seq::empty();
        for idx in 0..n_starts
            invariant
                n_starts == starts@.len(),
                n_cands == cands@.len(),
                select_rec(cmodel, smodel, 0, 0) =~= emitted + select_rec(
                    cmodel,
                    smodel,
                    idx as int,
                    cursor as int,
                ),
                hits_match(
                    result@,
                    hits_of_selected(emitted, self.spec_term_map(), !spec_has_negation(toks)),
                ),
        {
            let s = starts[idx];
            if s >= cursor {
                match find_best_at(&cands, s) {
                    None => {
                        proof {
                            assert(smodel.contains(s as int)) by {
                                assert(smodel[idx as int] == s as int);
                            }
                            lemma_sorted_starts_membership(cmodel, cmodel.len() as int);
                            let wi = choose|wi: int|
                                0 <= wi < cmodel.len() && cmodel[wi].start == s as int;
                            lemma_best_at_some(cmodel, s as int, cmodel.len() as int, wi);
                            assert(false);
                        }
                    },
                    Some(bi) => {
                        let ghost b = best_at(cmodel, s as int)->0;
                        let ghost old_emitted = emitted;
                        let ghost old_result = result@;
                        proof {
                            assert(select_rec(cmodel, smodel, idx as int, cursor as int)
                                =~= seq![b] + select_rec(cmodel, smodel, idx as int + 1, b.end));
                            emitted = emitted.push(b);
                            assert(emitted =~= old_emitted + seq![b]);
                            lemma_hits_concat(
                                old_emitted,
                                seq![b],
                                self.spec_term_map(),
                                !spec_has_negation(toks),
                            );
                            assert(b == cand_model(cands@[bi as int]));
                            assert(b.tid == cands@[bi as int].term_id@);
                        }
                        let ghost obs = !spec_has_negation(toks);
                        let ghost labels = self.spec_term_map();
                        match self.term_map.get(cands[bi].term_id.as_str()) {
                            Some(label) => {
                                let hit = FenominalHit::new(
                                    cands[bi].term_id.clone(),
                                    label.as_str(),
                                    cands[bi].start..cands[bi].end,
                                    !is_excluded,
                                );
                                result.push(hit);
                                proof {
                                    assert(hits_of_selected(seq![b], labels, obs) =~= seq![
                                        SpecHit {
                                            tid: b.tid,
                                            label: labels.spec_get(b.tid)->0,
                                            start: b.start,
                                            end: b.end,
                                            observed: obs,
                                        },
                                    ]) by {
                                        reveal_with_fuel(hits_of_selected, 2);
                                        assert(seq![b].drop_first() =~= Seq::<SpecCand>::empty());
                                        assert(seq![b].drop_first() == Seq::<SpecCand>::empty());
                                    }
                                    let sh = hits_of_selected(emitted, labels, obs);
                                    assert(sh =~= hits_of_selected(old_emitted, labels, obs).push(
                                        (SpecHit {
                                            tid: b.tid,
                                            label: labels.spec_get(b.tid)->0,
                                            start: b.start,
                                            end: b.end,
                                            observed: obs,
                                        }),
                                    ));
                                    assert(hit_matches(result@.last(), sh.last()));
                                    assert forall|i: int| 0 <= i < result@.len() implies
                                        #[trigger] hit_matches(result@[i], sh[i]) by {
                                        if i < result@.len() - 1 {
                                            assert(result@[i] == old_result[i]);
                                            assert(hit_matches(
                                                old_result[i],
                                                hits_of_selected(old_emitted, labels, obs)[i],
                                            ));
                                        }
                                    }
                                }
                            },
                            None => {
                                proof {
                                    assert(hits_of_selected(seq![b], labels, obs) =~= Seq::<
                                        SpecHit,
                                    >::empty()) by {
                                        reveal_with_fuel(hits_of_selected, 2);
                                        assert(seq![b].drop_first() =~= Seq::<SpecCand>::empty());
                                        assert(seq![b].drop_first() == Seq::<SpecCand>::empty());
                                    }
                                    assert(hits_of_selected(emitted, labels, obs)
                                        =~= hits_of_selected(old_emitted, labels, obs));
                                }
                            },
                        }
                        cursor = cands[bi].end;
                    },
                }
            } else {
                proof {
                    assert(select_rec(cmodel, smodel, idx as int, cursor as int) =~= select_rec(
                        cmodel,
                        smodel,
                        idx as int + 1,
                        cursor as int,
                    ));
                }
            }
        }
        proof {
            assert(select_rec(cmodel, smodel, n_starts as int, cursor as int) =~= Seq::<
                SpecCand,
            >::empty());
            assert(spec_selected(cmodel) =~= emitted);
            lemma_hits_congruence(
                spec_selected(cmodel),
                emitted,
                self.spec_term_map(),
                !spec_has_negation(toks),
            );
            assert(all_cands(self.spec_mapper(), toks, ss.spec_start_pos() as int) == cmodel);
        }
        result
    }
}

/// Collect the distinct candidate start positions, ascending.
#[verifier::loop_isolation(false)]
fn collect_starts(cands: &Vec<Candidate>) -> (r: Vec<usize>)
    ensures
        r@.map_values(|x: usize| x as int) =~= sorted_starts(
            cands@.map_values(|c: Candidate| cand_model(c)),
        ),
        ascending(r@.map_values(|x: usize| x as int)),
{
    let ghost cmodel = cands@.map_values(|c: Candidate| cand_model(c));
    let mut starts: Vec<usize> = Vec::new();
    let n_cands = cands.len();
    for ci in 0..n_cands
        invariant
            n_cands == cands@.len(),
            starts@.map_values(|x: usize| x as int) =~= sorted_starts_rec(cmodel, ci as int),
            ascending(starts@.map_values(|x: usize| x as int)),
    {
        insert_start(&mut starts, cands[ci].start);
        proof {
            assert(cand_model(cands@[ci as int]).start == cands@[ci as int].start as int);
        }
    }
    starts
}

/// Scan for the best candidate starting at `s`: largest end, a comma-free
/// form preferred on ties, the earliest generated among equals.
#[verifier::loop_isolation(false)]
fn find_best_at(cands: &Vec<Candidate>, s: usize) -> (r: Option<usize>)
    ensures
        match r {
            Some(bi) => bi < cands@.len() && best_at(
                cands@.map_values(|c: Candidate| cand_model(c)),
                s as int,
            ) == Some(cand_model(cands@[bi as int])),
            None => best_at(cands@.map_values(|c: Candidate| cand_model(c)), s as int) is None,
        },
{
    let ghost cmodel = cands@.map_values(|c: Candidate| cand_model(c));
    let n_cands = cands.len();
    let mut best: Option<usize> = None;
    for ci in 0..n_cands
        invariant
            n_cands == cands@.len(),
            match best {
                Some(bi) => bi < cands@.len() && best_at_rec(cmodel, s as int, ci as int)
                    == Option::Some(cand_model(cands@[bi as int])),
                None => best_at_rec(cmodel, s as int, ci as int) is None,
            },
    {
        let is_better = match best {
            None => cands[ci].start == s,
            Some(bi) => cands[ci].start == s && (cands[ci].end > cands[bi].end || (cands[ci].end
                == cands[bi].end && !cands[ci].has_comma && cands[bi].has_comma)),
        };
        if is_better {
            best = Some(ci);
        }
    }
    best
}

/// Insert `x` into the ascending duplicate-free list `starts`, keeping it so.
#[verifier::loop_isolation(false)]
fn insert_start(starts: &mut Vec<usize>, x: usize)
    requires
        ascending(old(starts)@.map_values(|v: usize| v as int)),
    ensures
        final(starts)@.map_values(|v: usize| v as int) == ins_sorted(
            old(starts)@.map_values(|v: usize| v as int),
            x as int,
        ),
        ascending(final(starts)@.map_values(|v: usize| v as int)),
{
    let ghost s = starts@.map_values(|v: usize| v as int);
    let n = starts.len();
    let mut pos: usize = 0;
    while pos < n && starts[pos] < x
        invariant
            0 <= pos <= n,
            forall|j: int| 0 <= j < pos ==> s[j] < x,
        decreases n - pos,
    {
        pos = pos + 1;
    }
    proof {
        lemma_ins_sorted_at(s, x as int, pos as int);
        lemma_ins_sorted_ascending(s, x as int);
    }
    if pos < n && starts[pos] == x {
        return ;
    }
    starts.insert(pos, x);
    proof {
        assert(starts@.map_values(|v: usize| v as int) =~= s.insert(pos as int, x as int));
    }
}

/// Where the scan stops is where `ins_sorted` puts the element.
proof fn lemma_ins_sorted_at(s: Seq<int>, x: int, pos: int)
    requires
        0 <= pos <= s.len(),
        forall|j: int| 0 <= j < pos ==> s[j] < x,
        pos < s.len() ==> s[pos] >= x,
    ensures
        ins_sorted(s, x) == (if pos < s.len() && s[pos] == x {
            s
        } else {
            s.insert(pos, x)
        }),
    decreases pos,
{
    if s.len() == 0 {
        assert(ins_sorted(s, x) =~= s.insert(0, x));
    } else if pos == 0 {
        if s[0] == x {
        } else {
            assert(s[0] > x);
            assert(ins_sorted(s, x) =~= s.insert(0, x));
        }
    } else {
        assert(s[0] < x);
        lemma_ins_sorted_at(s.drop_first(), x, pos - 1);
        if pos < s.len() && s[pos] == x {
            assert(s.drop_first()[pos - 1] == x);
            assert(ins_sorted(s, x) =~= seq![s[0]] + s.drop_first());
            assert(seq![s[0]] + s.drop_first() =~= s);
        } else {
            assert(ins_sorted(s, x) =~= seq![s[0]] + s.drop_first().insert(pos - 1, x));
            assert(seq![s[0]] + s.drop_first().insert(pos - 1, x) =~= s.insert(pos, x));
        }
    }
}

/// Insertion keeps the list ascending and duplicate-free, and its contents
/// are the old contents plus the new element.
proof fn lemma_ins_sorted_ascending(s: Seq<int>, x: int)
    requires
        ascending(s),
    ensures
        ascending(ins_sorted(s, x)),
        forall|y: int| #[trigger] ins_sorted(s, x).contains(y) <==> (s.contains(y) || y == x),
    decreases s.len(),
{
    if s.len() == 0 {
        assert forall|y: int| #[trigger] ins_sorted(s, x).contains(y) implies (s.contains(y) || y
            == x) by {
            assert(ins_sorted(s, x)[0] == x);
        }
        assert(ins_sorted(s, x).contains(x)) by {
            assert(ins_sorted(s, x)[0] == x);
        }
    } else if x < s[0] {
        let r = seq![x] + s;
        assert forall|y: int| #[trigger] r.contains(y) implies (s.contains(y) || y == x) by {
            let i = choose|i: int| 0 <= i < r.len() && r[i] == y;
            if i > 0 {
                assert(s[i - 1] == y);
            }
        }
        assert(r.contains(x)) by {
            assert(r[0] == x);
        }
        assert forall|y: int| s.contains(y) implies r.contains(y) by {
            let i = choose|i: int| 0 <= i < s.len() && s[i] == y;
            assert(r[i + 1] == y);
        }
    } else if x == s[0] {
        assert(s.contains(x)) by {
            assert(s[0] == x);
        }
    } else {
        let tail = s.drop_first();
        assert(ascending(tail));
        lemma_ins_sorted_ascending(tail, x);
        let it = ins_sorted(tail, x);
        let r = seq![s[0]] + it;
        assert(ins_sorted(s, x) == r);
        assert forall|i: int, j: int| 0 <= i < j < r.len() implies r[i] < r[j] by {
            if i == 0 {
                assert(r[j] == it[j - 1]);
                assert(it.contains(it[j - 1]));
                if tail.contains(it[j - 1]) {
                    let t = choose|t: int| 0 <= t < tail.len() && tail[t] == it[j - 1];
                    assert(s[0] < s[t + 1]);
                } else {
                    assert(it[j - 1] == x);
                }
            } else {
                assert(r[i] == it[i - 1] && r[j] == it[j - 1]);
            }
        }
        assert forall|y: int| #[trigger] r.contains(y) implies (s.contains(y) || y == x) by {
            let i = choose|i: int| 0 <= i < r.len() && r[i] == y;
            if i == 0 {
                assert(s[0] == y);
            } else {
                assert(it.contains(it[i - 1]));
                if tail.contains(y) {
                    let t = choose|t: int| 0 <= t < tail.len() && tail[t] == y;
                    assert(s[t + 1] == y);
                }
            }
        }
        assert forall|y: int| (s.contains(y) || y == x) implies r.contains(y) by {
            if y == x {
                assert(it.contains(x));
                let t = choose|t: int| 0 <= t < it.len() && it[t] == x;
                assert(r[t + 1] == x);
            } else {
                let i = choose|i: int| 0 <= i < s.len() && s[i] == y;
                if i == 0 {
                    assert(r[0] == y);
                } else {
                    assert(tail[i - 1] == y);
                    assert(it.contains(y));
                    let t = choose|t: int| 0 <= t < it.len() && it[t] == y;
                    assert(r[t + 1] == y);
                }
            }
        }
    }
}

/// Every candidate start is in the sorted start list.
proof fn lemma_sorted_starts_membership(cands: Seq<SpecCand>, i: int)
    requires
        0 <= i <= cands.len(),
    ensures
        ascending(sorted_starts_rec(cands, i)),
        forall|y: int| #[trigger] sorted_starts_rec(cands, i).contains(y) <==> exists|w: int|
            0 <= w < i && cands[w].start == y,
    decreases i,
{
    if i <= 0 {
    } else {
        lemma_sorted_starts_membership(cands, i - 1);
        lemma_ins_sorted_ascending(sorted_starts_rec(cands, i - 1), cands[i - 1].start);
        assert forall|y: int| #[trigger] sorted_starts_rec(cands, i).contains(y) implies exists|
            w: int,
        | 0 <= w < i && cands[w].start == y by {
            if sorted_starts_rec(cands, i - 1).contains(y) {
                let w = choose|w: int| 0 <= w < i - 1 && cands[w].start == y;
                assert(cands[w].start == y);
            } else {
                assert(cands[i - 1].start == y);
            }
        }
        assert forall|y: int| (exists|w: int| 0 <= w < i && cands[w].start == y) implies
            #[trigger] sorted_starts_rec(cands, i).contains(y) by {
            let w = choose|w: int| 0 <= w < i && cands[w].start == y;
            if w < i - 1 {
                assert(sorted_starts_rec(cands, i - 1).contains(y));
            }
        }
    }
}

/// If some candidate among the first `i` starts at `s`, the best-at fold
/// yields a candidate.
proof fn lemma_best_at_some(cands: Seq<SpecCand>, s: int, i: int, w: int)
    requires
        0 <= w < i <= cands.len(),
        cands[w].start == s,
    ensures
        best_at_rec(cands, s, i) is Some,
    decreases i,
{
    if w < i - 1 {
        lemma_best_at_some(cands, s, i - 1, w);
    }
}

/// Resolution distributes over concatenation of selections.
proof fn lemma_hits_concat(a: Seq<SpecCand>, b: Seq<SpecCand>, labels: TermLabelMap, obs: bool)
    ensures
        hits_of_selected(a + b, labels, obs) =~= hits_of_selected(a, labels, obs)
            + hits_of_selected(b, labels, obs),
    decreases a.len(),
{
    if a.len() == 0 {
        assert(a + b =~= b);
        assert(hits_of_selected(a, labels, obs) =~= Seq::<SpecHit>::empty());
    } else {
        lemma_hits_concat(a.drop_first(), b, labels, obs);
        assert((a + b).drop_first() =~= a.drop_first() + b);
        assert((a + b)[0] == a[0]);
    }
}

/// Resolution respects sequence equality.
proof fn lemma_hits_congruence(a: Seq<SpecCand>, b: Seq<SpecCand>, labels: TermLabelMap, obs: bool)
    requires
        a =~= b,
    ensures
        hits_of_selected(a, labels, obs) == hits_of_selected(b, labels, obs),
{
}

} // verus!

//! Splitting a document into sentences.
//!
//! A sentence ends at a period, exclamation mark or question mark; the
//! boundary character and any whitespace that follows it belong to the
//! preceding sentence. A trailing fragment without a terminator forms a
//! final sentence unless it is empty or whitespace-only. The stored sentence
//! text is trimmed at its end, while the recorded span keeps the trailing
//! whitespace.

use vstd::prelude::*;

use crate::simple_sentence::{tokens_match, SimpleSentence};
use crate::text::{exec_is_space, exec_is_terminator, is_space, is_terminator};

verus! {

/// First terminator position at or after `i`, or the length of `s`.
pub open spec fn find_term(s: Seq<char>, i: int) -> int
    decreases s.len() - i,
{
    if i < 0 {
        find_term(s, 0)
    } else if i >= s.len() {
        s.len() as int
    } else if is_terminator(s[i]) {
        i
    } else {
        find_term(s, i + 1)
    }
}

/// End of the whitespace run starting at `i`.
pub open spec fn ws_end(s: Seq<char>, i: int) -> int
    decreases s.len() - i,
{
    if 0 <= i < s.len() && is_space(s[i]) {
        ws_end(s, i + 1)
    } else {
        i
    }
}

/// Position after the last non-whitespace character of `s[start..end)`;
/// `start` itself if the range is all whitespace.
pub open spec fn trim_end_idx(s: Seq<char>, start: int, end: int) -> int
    decreases end - start,
{
    if end <= start {
        start
    } else if is_space(s[end - 1]) {
        trim_end_idx(s, start, end - 1)
    } else {
        end
    }
}

pub proof fn lemma_find_term(s: Seq<char>, i: int)
    requires
        0 <= i <= s.len(),
    ensures
        i <= find_term(s, i) <= s.len(),
        forall|j: int| i <= j < find_term(s, i) ==> !is_terminator(s[j]),
        find_term(s, i) < s.len() ==> is_terminator(s[find_term(s, i)]),
    decreases s.len() - i,
{
    if i < s.len() && !is_terminator(s[i]) {
        lemma_find_term(s, i + 1);
    }
}

pub proof fn lemma_find_term_eq(s: Seq<char>, i: int, t: int)
    requires
        0 <= i <= t <= s.len(),
        forall|j: int| i <= j < t ==> !is_terminator(s[j]),
        t == s.len() || is_terminator(s[t]),
    ensures
        find_term(s, i) == t,
    decreases t - i,
{
    if i < t {
        lemma_find_term_eq(s, i + 1, t);
    }
}

pub proof fn lemma_ws_end(s: Seq<char>, i: int)
    requires
        0 <= i <= s.len(),
    ensures
        i <= ws_end(s, i) <= s.len(),
        forall|j: int| i <= j < ws_end(s, i) ==> is_space(s[j]),
        ws_end(s, i) < s.len() ==> !is_space(s[ws_end(s, i)]),
    decreases s.len() - i,
{
    if i < s.len() && is_space(s[i]) {
        lemma_ws_end(s, i + 1);
    }
}

pub proof fn lemma_ws_end_eq(s: Seq<char>, i: int, e: int)
    requires
        0 <= i <= e <= s.len(),
        forall|j: int| i <= j < e ==> is_space(s[j]),
        e == s.len() || !is_space(s[e]),
    ensures
        ws_end(s, i) == e,
    decreases e - i,
{
    if i < e {
        lemma_ws_end_eq(s, i + 1, e);
    }
}

pub proof fn lemma_trim_end_idx(s: Seq<char>, start: int, end: int)
    requires
        0 <= start <= end <= s.len(),
    ensures
        start <= trim_end_idx(s, start, end) <= end,
        forall|j: int| trim_end_idx(s, start, end) <= j < end ==> is_space(s[j]),
        trim_end_idx(s, start, end) > start ==> !is_space(s[trim_end_idx(s, start, end) - 1]),
    decreases end - start,
{
    if end > start && is_space(s[end - 1]) {
        lemma_trim_end_idx(s, start, end - 1);
    }
}

pub proof fn lemma_trim_end_idx_eq(s: Seq<char>, start: int, end: int, p: int)
    requires
        0 <= start <= p <= end <= s.len(),
        forall|j: int| p <= j < end ==> is_space(s[j]),
        p == start || !is_space(s[p - 1]),
    ensures
        trim_end_idx(s, start, end) == p,
    decreases end - p,
{
    if p < end {
        lemma_trim_end_idx_eq(s, start, end - 1, p);
    }
}

/// The sentence spans of `s` from position `start` on.
pub open spec fn sentence_spans_from(s: Seq<char>, start: int) -> Seq<(int, int)>
    decreases s.len() - start,
    when 0 <= start
    via sentence_spans_from_dec
{
    if start >= s.len() {
        Seq::empty()
    } else {
        let t = find_term(s, start);
        if t == s.len() {
            if trim_end_idx(s, start, s.len() as int) > start {
                seq![(start, s.len() as int)]
            } else {
                Seq::empty()
            }
        } else {
            let e = ws_end(s, t + 1);
            seq![(start, e)] + sentence_spans_from(s, e)
        }
    }
}

#[via_fn]
proof fn sentence_spans_from_dec(s: Seq<char>, start: int) {
    if 0 <= start < s.len() {
        lemma_find_term(s, start);
        let t = find_term(s, start);
        if t < s.len() {
            lemma_ws_end(s, t + 1);
        }
    }
}

/// The sentence spans of the whole document.
pub open spec fn sentence_spans(s: Seq<char>) -> Seq<(int, int)> {
    sentence_spans_from(s, 0)
}

/// Sentence spans are nonempty, within bounds, and consecutive spans are
/// adjacent; the first span starts where the scan started.
pub proof fn lemma_sentence_spans_from(s: Seq<char>, i: int)
    requires
        0 <= i <= s.len(),
    ensures
        forall|k: int|
            0 <= k < sentence_spans_from(s, i).len() ==> (i <= (#[trigger] sentence_spans_from(
                s,
                i,
            )[k]).0 && sentence_spans_from(s, i)[k].0 < sentence_spans_from(s, i)[k].1
                && sentence_spans_from(s, i)[k].1 <= s.len()),
        forall|k: int|
            0 <= k < sentence_spans_from(s, i).len() - 1 ==> (#[trigger] sentence_spans_from(
                s,
                i,
            )[k]).1 == sentence_spans_from(s, i)[k + 1].0,
        sentence_spans_from(s, i).len() > 0 ==> sentence_spans_from(s, i)[0].0 == i,
    decreases s.len() - i,
{
    if i >= s.len() {
    } else {
        lemma_find_term(s, i);
        let t = find_term(s, i);
        if t == s.len() {
            lemma_trim_end_idx(s, i, s.len() as int);
        } else {
            lemma_ws_end(s, t + 1);
            let e = ws_end(s, t + 1);
            lemma_sentence_spans_from(s, e);
            let sps = sentence_spans_from(s, i);
            let tail = sentence_spans_from(s, e);
            assert forall|k: int| 0 <= k < sps.len() implies (i <= (#[trigger] sps[k]).0 && sps[k].0
                < sps[k].1 && sps[k].1 <= s.len()) by {
                if k >= 1 {
                    assert(sps[k] == tail[k - 1]);
                }
            }
            assert forall|k: int| 0 <= k < sps.len() - 1 implies (#[trigger] sps[k]).1 == sps[k
                + 1].0 by {
                if k == 0 {
                    assert(sps[1] == tail[0]);
                } else {
                    assert(sps[k] == tail[k - 1] && sps[k + 1] == tail[k]);
                }
            }
        }
    }
}

/// End of the stored (end-trimmed) text of the sentence covering `span`.
pub open spec fn sentence_content_end(s: Seq<char>, span: (int, int)) -> int {
    trim_end_idx(s, span.0, span.1)
}

/// `sent` is the sentence of `text` covering `span`: its offsets are the
/// span, its text is the covered characters trimmed at the end, and its
/// tokens are the tokens of that text.
pub open spec fn sentence_matches(sent: SimpleSentence, text: Seq<char>, span: (int, int)) -> bool {
    &&& sent.spec_start_pos() == span.0
    &&& sent.spec_end_pos() == span.1
    &&& sent.spec_sentence() == text.subrange(span.0, sentence_content_end(text, span))
    &&& tokens_match(sent.spec_tokens(), sent.spec_sentence())
}

/// `sents` is exactly the sentence list of `text`.
pub open spec fn sentences_match(sents: Seq<SimpleSentence>, text: Seq<char>) -> bool {
    &&& sents.len() == sentence_spans(text).len()
    &&& forall|k: int|
        0 <= k < sents.len() ==> #[trigger] sentence_matches(sents[k], text, sentence_spans(text)[k])
}

/// A document: the original text and its sentences.
pub struct CoreDocument {
    original_text: String,
    sentences: Vec<SimpleSentence>,
}

impl CoreDocument {
    pub closed spec fn spec_original_text(self) -> Seq<char> {
        self.original_text@
    }

    pub closed spec fn spec_sentences(self) -> Seq<SimpleSentence> {
        self.sentences@
    }

    /// Divide `text` into sentences with boundaries on period, exclamation
    /// mark or question mark.
    pub fn new(text: &str) -> (r: Self)
        ensures
            r.spec_original_text() == text@,
            sentences_match(r.spec_sentences(), text@),
    {
        let len = text.unicode_len();
        let mut ssentences: Vec<SimpleSentence> = Vec::new();
        let mut start: usize = 0;
        while start < len
            invariant
                0 <= start <= len,
                len == text@.len(),
                sentence_spans(text@) =~= ssentences@.map_values(
                    |ss: SimpleSentence| (ss.spec_start_pos() as int, ss.spec_end_pos() as int),
                ) + sentence_spans_from(text@, start as int),
                forall|k: int|
                    0 <= k < ssentences@.len() ==> #[trigger] sentence_matches(
                        ssentences@[k],
                        text@,
                        sentence_spans(text@)[k],
                    ),
            decreases len - start,
        {
            let t = scan_term(text, start);
            let ghost old_sents = ssentences@;
            if t == len {
                let p = scan_trim(text, start, len);
                if p > start {
                    let content = text.substring_char(start, p);
                    let sent = SimpleSentence::new(content, start, len);
                    ssentences.push(sent);
                    proof {
                        assert(ssentences@.map_values(
                            |ss: SimpleSentence| (
                                ss.spec_start_pos() as int,
                                ss.spec_end_pos() as int,
                            ),
                        ) =~= old_sents.map_values(
                            |ss: SimpleSentence| (
                                ss.spec_start_pos() as int,
                                ss.spec_end_pos() as int,
                            ),
                        ).push((start as int, len as int)));
                    }
                }
                start = len;
            } else {
                let e = scan_ws(text, t + 1);
                proof {
                    lemma_ws_end(text@, t as int + 1);
                    lemma_trim_end_idx_eq(text@, start as int, e as int, t + 1);
                }
                let content = text.substring_char(start, t + 1);
                let sent = SimpleSentence::new(content, start, e);
                ssentences.push(sent);
                proof {
                    assert(ssentences@.map_values(
                        |ss: SimpleSentence| (ss.spec_start_pos() as int, ss.spec_end_pos() as int),
                    ) =~= old_sents.map_values(
                        |ss: SimpleSentence| (ss.spec_start_pos() as int, ss.spec_end_pos() as int),
                    ).push((start as int, e as int)));
                }
                start = e;
            }
        }
        CoreDocument { original_text: text.to_owned(), sentences: ssentences }
    }

    pub fn get_sentences(&self) -> (r: &Vec<SimpleSentence>)
        ensures
            r@ == self.spec_sentences(),
    {
        &self.sentences
    }

    pub fn original_text(&self) -> (r: &str)
        ensures
            r@ == self.spec_original_text(),
    {
        self.original_text.as_str()
    }
}

/// Scan for the first sentence terminator at or after `i`.
fn scan_term(text: &str, i: usize) -> (t: usize)
    requires
        i <= text@.len() <= usize::MAX,
    ensures
        t == find_term(text@, i as int),
        i <= t <= text@.len(),
        t < text@.len() ==> is_terminator(text@[t as int]),
{
    let len = text.unicode_len();
    let mut t = i;
    while t < len && !exec_is_terminator(text.get_char(t))
        invariant
            i <= t <= len,
            len == text@.len(),
            forall|j: int| i <= j < t ==> !is_terminator(text@[j]),
        decreases len - t,
    {
        t = t + 1;
    }
    proof {
        lemma_find_term_eq(text@, i as int, t as int);
    }
    t
}

/// Scan to the end of the whitespace run starting at `i`.
fn scan_ws(text: &str, i: usize) -> (e: usize)
    requires
        i <= text@.len() <= usize::MAX,
    ensures
        e == ws_end(text@, i as int),
        i <= e <= text@.len(),
{
    let len = text.unicode_len();
    let mut e = i;
    while e < len && exec_is_space(text.get_char(e))
        invariant
            i <= e <= len,
            len == text@.len(),
            forall|j: int| i <= j < e ==> is_space(text@[j]),
        decreases len - e,
    {
        e = e + 1;
    }
    proof {
        lemma_ws_end_eq(text@, i as int, e as int);
    }
    e
}

/// Scan backwards over trailing whitespace of `text[start..end)`.
fn scan_trim(text: &str, start: usize, end: usize) -> (p: usize)
    requires
        start <= end <= text@.len() <= usize::MAX,
    ensures
        p == trim_end_idx(text@, start as int, end as int),
        start <= p <= end,
{
    let mut p = end;
    while p > start && exec_is_space(text.get_char(p - 1))
        invariant
            start <= p <= end <= text@.len(),
            forall|j: int| p <= j < end ==> is_space(text@[j]),
        decreases p,
    {
        p = p - 1;
    }
    proof {
        lemma_trim_end_idx_eq(text@, start as int, end as int, p as int);
    }
    p
}

} // verus!

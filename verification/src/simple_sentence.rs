//! One sentence of the input document together with its word tokens.
//!
//! A token is a maximal run of ASCII letters, optionally joined to a second
//! letter run by a single apostrophe or hyphen. Numbers and punctuation are
//! not tokens.

use vstd::prelude::*;

use crate::simple_token::SimpleToken;
use crate::text::{exec_is_letter, is_joiner, is_letter};

verus! {

/// Length of the letter run starting at position `i`.
pub open spec fn run_len(s: Seq<char>, i: int) -> nat
    decreases s.len() - i,
{
    if i < s.len() && is_letter(s[i]) {
        (1 + run_len(s, i + 1)) as nat
    } else {
        0
    }
}

/// End position (exclusive) of the token that starts at letter position `i`:
/// the letter run, extended once over an apostrophe or hyphen if another
/// letter run follows immediately.
pub open spec fn token_end(s: Seq<char>, i: int) -> int {
    let e = i + run_len(s, i);
    if e < s.len() && is_joiner(s[e]) && e + 1 < s.len() && is_letter(s[e + 1]) {
        e + 1 + run_len(s, e + 1)
    } else {
        e
    }
}

pub proof fn lemma_run_len(s: Seq<char>, i: int)
    requires
        0 <= i <= s.len(),
    ensures
        i + run_len(s, i) <= s.len(),
        forall|j: int| i <= j < i + run_len(s, i) ==> is_letter(s[j]),
        i + run_len(s, i) < s.len() ==> !is_letter(s[i + run_len(s, i)]),
    decreases s.len() - i,
{
    if i < s.len() && is_letter(s[i]) {
        lemma_run_len(s, i + 1);
    }
}

/// The letter run is determined by its endpoints: if everything in `[i, e)`
/// is a letter and `e` is the end of the text or not a letter, the run from
/// `i` has length `e - i`.
pub proof fn lemma_run_len_eq(s: Seq<char>, i: int, e: int)
    requires
        0 <= i <= e <= s.len(),
        forall|j: int| i <= j < e ==> is_letter(s[j]),
        e == s.len() || !is_letter(s[e]),
    ensures
        run_len(s, i) == e - i,
    decreases e - i,
{
    if i < e {
        lemma_run_len_eq(s, i + 1, e);
    }
}

pub proof fn lemma_token_end(s: Seq<char>, i: int)
    requires
        0 <= i < s.len(),
        is_letter(s[i]),
    ensures
        i < token_end(s, i) <= s.len(),
{
    lemma_run_len(s, i);
    let e = i + run_len(s, i);
    if e < s.len() && is_joiner(s[e]) && e + 1 < s.len() && is_letter(s[e + 1]) {
        lemma_run_len(s, e + 1);
    }
}

/// The spans `(start, end)` of all tokens of `s` from position `i` on, in
/// ascending order.
pub open spec fn token_spans_from(s: Seq<char>, i: int) -> Seq<(int, int)>
    decreases s.len() - i,
    when 0 <= i
    via token_spans_from_dec
{
    if i >= s.len() {
        Seq::empty()
    } else if is_letter(s[i]) {
        seq![(i, token_end(s, i))] + token_spans_from(s, token_end(s, i))
    } else {
        token_spans_from(s, i + 1)
    }
}

#[via_fn]
proof fn token_spans_from_dec(s: Seq<char>, i: int) {
    if 0 <= i < s.len() && is_letter(s[i]) {
        lemma_token_end(s, i);
    }
}

/// The spans of all tokens of `s`.
pub open spec fn token_spans(s: Seq<char>) -> Seq<(int, int)> {
    token_spans_from(s, 0)
}

/// Token spans are within bounds, nonempty, and ascending without overlap.
pub proof fn lemma_token_spans_from(s: Seq<char>, i: int)
    requires
        0 <= i <= s.len(),
    ensures
        forall|k: int|
            0 <= k < token_spans_from(s, i).len() ==> (i <= (#[trigger] token_spans_from(s, i)[k]).0
                && token_spans_from(s, i)[k].0 < token_spans_from(s, i)[k].1 && token_spans_from(
                s,
                i,
            )[k].1 <= s.len()),
        forall|k1: int, k2: int|
            0 <= k1 < k2 < token_spans_from(s, i).len() ==> token_spans_from(s, i)[k1].1
                <= token_spans_from(s, i)[k2].0,
    decreases s.len() - i,
{
    if i >= s.len() {
    } else if is_letter(s[i]) {
        lemma_token_end(s, i);
        let e = token_end(s, i);
        lemma_token_spans_from(s, e);
        let sps = token_spans_from(s, i);
        let tail = token_spans_from(s, e);
        assert forall|k: int| 0 <= k < sps.len() implies (i <= (#[trigger] sps[k]).0 && sps[k].0
            < sps[k].1 && sps[k].1 <= s.len()) by {
            if k >= 1 {
                assert(sps[k] == tail[k - 1]);
            }
        }
        assert forall|k1: int, k2: int| 0 <= k1 < k2 < sps.len() implies sps[k1].1
            <= sps[k2].0 by {
            assert(sps[k2] == tail[k2 - 1]);
            if k1 >= 1 {
                assert(sps[k1] == tail[k1 - 1]);
            }
        }
    } else {
        lemma_token_spans_from(s, i + 1);
        let sps = token_spans_from(s, i);
        let nxt = token_spans_from(s, i + 1);
        assert(sps == nxt);
        assert forall|k: int| 0 <= k < sps.len() implies (i <= (#[trigger] sps[k]).0 && sps[k].0
            < sps[k].1 && sps[k].1 <= s.len()) by {
            assert(sps[k] == nxt[k]);
            assert(i + 1 <= nxt[k].0 && nxt[k].0 < nxt[k].1 && nxt[k].1 <= s.len());
        }
        assert forall|k1: int, k2: int| 0 <= k1 < k2 < sps.len() implies sps[k1].1
            <= sps[k2].0 by {
            assert(sps[k1] == nxt[k1] && sps[k2] == nxt[k2]);
            assert(nxt[k1].1 <= nxt[k2].0);
        }
    }
}

/// `t` is the token of `text` covering `span`: its offsets are the span and
/// both its surface fields hold the covered characters.
pub open spec fn token_matches(t: SimpleToken, text: Seq<char>, span: (int, int)) -> bool {
    &&& t.spec_start_pos() == span.0
    &&& t.spec_end_pos() == span.1
    &&& t.spec_original_token() == text.subrange(span.0, span.1)
    &&& t.spec_token() == text.subrange(span.0, span.1)
}

/// `ts` is exactly the token list of `text`.
pub open spec fn tokens_match(ts: Seq<SimpleToken>, text: Seq<char>) -> bool {
    &&& ts.len() == token_spans(text).len()
    &&& forall|k: int|
        0 <= k < ts.len() ==> #[trigger] token_matches(ts[k], text, token_spans(text)[k])
}

/// A sentence: its text, its offsets in the enclosing document (characters,
/// end exclusive), and its word tokens with offsets relative to the sentence
/// text.
#[derive(Debug, Clone)]
pub struct SimpleSentence {
    sentence: String,
    start_pos: usize,
    end_pos: usize,
    tokens: Vec<SimpleToken>,
}

impl SimpleSentence {
    /// Tokenize `text` and record the given document offsets.
    pub fn new(text: &str, start: usize, end: usize) -> (r: Self)
        ensures
            r.spec_sentence() == text@,
            r.spec_start_pos() == start,
            r.spec_end_pos() == end,
            tokens_match(r.spec_tokens(), text@),
    {
        let stokens = tokenize(text);
        SimpleSentence { sentence: text.to_owned(), start_pos: start, end_pos: end, tokens: stokens }
    }

    pub closed spec fn spec_sentence(self) -> Seq<char> {
        self.sentence@
    }

    pub closed spec fn spec_start_pos(self) -> usize {
        self.start_pos
    }

    pub closed spec fn spec_end_pos(self) -> usize {
        self.end_pos
    }

    pub closed spec fn spec_tokens(self) -> Seq<SimpleToken> {
        self.tokens@
    }

    pub fn get_start_pos(&self) -> (r: usize)
        ensures
            r == self.spec_start_pos(),
    {
        self.start_pos
    }

    pub fn get_end_pos(&self) -> (r: usize)
        ensures
            r == self.spec_end_pos(),
    {
        self.end_pos
    }

    pub fn get_sentence(&self) -> (r: &str)
        ensures
            r@ == self.spec_sentence(),
    {
        self.sentence.as_str()
    }

    pub fn get_tokens(&self) -> (r: &Vec<SimpleToken>)
        ensures
            r@ == self.spec_tokens(),
    {
        &self.tokens
    }
}

/// Scan to the end of the letter run starting at `i`.
fn scan_run(text: &str, i: usize) -> (e: usize)
    requires
        i <= text@.len() <= usize::MAX,
    ensures
        e == i + run_len(text@, i as int),
    decreases text@.len() - i,
{
    let len = text.unicode_len();
    let mut e = i;
    while e < len && exec_is_letter(text.get_char(e))
        invariant
            i <= e <= len,
            len == text@.len(),
            forall|j: int| i <= j < e ==> is_letter(text@[j]),
        decreases len - e,
    {
        e = e + 1;
    }
    proof {
        lemma_run_len_eq(text@, i as int, e as int);
    }
    e
}

/// Cut `text` into its word tokens.
pub fn tokenize(text: &str) -> (r: Vec<SimpleToken>)
    ensures
        tokens_match(r@, text@),
{
    let len = text.unicode_len();
    let mut r: Vec<SimpleToken> = Vec::new();
    let mut i: usize = 0;
    while i < len
        invariant
            0 <= i <= len,
            len == text@.len(),
            token_spans(text@) =~= r@.map_values(
                |t: SimpleToken| (t.spec_start_pos() as int, t.spec_end_pos() as int),
            ) + token_spans_from(text@, i as int),
            forall|k: int|
                0 <= k < r@.len() ==> #[trigger] token_matches(
                    r@[k],
                    text@,
                    token_spans(text@)[k],
                ),
        decreases len - i,
    {
        let c = text.get_char(i);
        if ('a' <= c && c <= 'z') || ('A' <= c && c <= 'Z') {
            let e1 = scan_run(text, i);
            let mut e = e1;
            if e1 < len {
                let j = text.get_char(e1);
                if (j == '\'' || j == '-') && e1 + 1 < len {
                    let c2 = text.get_char(e1 + 1);
                    if ('a' <= c2 && c2 <= 'z') || ('A' <= c2 && c2 <= 'Z') {
                        e = scan_run(text, e1 + 1);
                    }
                }
            }
            proof {
                assert(e == token_end(text@, i as int));
                lemma_token_end(text@, i as int);
            }
            let surface = text.substring_char(i, e);
            let tok = SimpleToken::new(surface, surface, i, e);
            let ghost old_r = r@;
            r.push(tok);
            proof {
                assert(r@.map_values(
                    |t: SimpleToken| (t.spec_start_pos() as int, t.spec_end_pos() as int),
                ) =~= old_r.map_values(
                    |t: SimpleToken| (t.spec_start_pos() as int, t.spec_end_pos() as int),
                ).push((i as int, e as int)));
            }
            i = e;
        } else {
            i = i + 1;
        }
    }
    proof {
        assert(token_spans(text@).len() == r@.len());
    }
    r
}

} // verus!

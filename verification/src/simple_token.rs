//! One word token: its surface, lowercased surface, and offsets.

use vstd::prelude::*;

use crate::text::{lc_seq, lc_str};

verus! {

/// A word token produced by the tokenizer. Offsets are character positions
/// into the text the token was cut from; `end_pos` is exclusive.
#[derive(Debug, Clone, PartialEq, Eq)]
pub struct SimpleToken {
    token: String,
    original_token: String,
    start_pos: usize,
    end_pos: usize,
}

impl SimpleToken {
    pub fn new(token: &str, orig_token: &str, start: usize, end: usize) -> (r: Self)
        ensures
            r.spec_token() == token@,
            r.spec_original_token() == orig_token@,
            r.spec_start_pos() == start,
            r.spec_end_pos() == end,
    {
        SimpleToken {
            token: token.to_owned(),
            original_token: orig_token.to_owned(),
            start_pos: start,
            end_pos: end,
        }
    }

    pub closed spec fn spec_token(self) -> Seq<char> {
        self.token@
    }

    pub closed spec fn spec_original_token(self) -> Seq<char> {
        self.original_token@
    }

    pub closed spec fn spec_start_pos(self) -> usize {
        self.start_pos
    }

    pub closed spec fn spec_end_pos(self) -> usize {
        self.end_pos
    }

    pub fn get_original_token(&self) -> (r: &str)
        ensures
            r@ == self.spec_original_token(),
    {
        self.original_token.as_str()
    }

    /// The lowercased surface of the token.
    pub fn get_lc_original_token(&self) -> (r: String)
        ensures
            r@ == lc_seq(self.spec_original_token()),
    {
        lc_str(self.original_token.as_str())
    }

    pub fn get_start_pos(&self) -> (r: usize)
        ensures
            r == self.spec_start_pos(),
    {
        self.start_pos
    }

    pub fn get_end_pos(&self) -> (r: usize)
        ensures
            r == self.spec_end_pos(),
    {
        self.end_pos
    }

    /// Number of character positions the token covers, counting both ends.
    pub fn length(&self) -> (r: usize)
        requires
            self.spec_start_pos() <= self.spec_end_pos(),
            self.spec_end_pos() < usize::MAX,
        ensures
            r == 1 + self.spec_end_pos() - self.spec_start_pos(),
    {
        1 + self.end_pos - self.start_pos
    }
}

} // verus!

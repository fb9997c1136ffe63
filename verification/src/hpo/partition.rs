//! Partitioning a list into consecutive chunks of one fixed size.
//!
//! Chunk `j` covers positions `[j * size, j * size + size)`. A trailing rest
//! shorter than the chunk size is not a chunk: the matcher probes every size
//! in turn, so shorter fragments are covered at the smaller sizes.

use vstd::prelude::*;
use vstd::slice::slice_subrange;

verus! {

/// A view of a list as consecutive chunks of exactly `chunk_size` elements.
pub struct Partition<'a, T> {
    original_list: &'a [T],
    chunk_size: usize,
}

impl<'a, T> Partition<'a, T> {
    pub closed spec fn spec_list(self) -> Seq<T> {
        self.original_list@
    }

    pub closed spec fn spec_chunk_size(self) -> usize {
        self.chunk_size
    }

    pub fn new(original: &'a [T], chunk_size: usize) -> (r: Self)
        requires
            chunk_size >= 1,
        ensures
            r.spec_list() == original@,
            r.spec_chunk_size() == chunk_size,
    {
        Self { original_list: original, chunk_size }
    }

    /// The chunk at `index`, or `None` where a full chunk no longer fits.
    pub fn get(&self, index: usize) -> (r: Option<&'a [T]>)
        requires
            self.spec_chunk_size() >= 1,
        ensures
            match r {
                Some(chunk) => {
                    &&& (index + 1) * self.spec_chunk_size() <= self.spec_list().len()
                    &&& chunk@ == self.spec_list().subrange(
                        index * self.spec_chunk_size(),
                        index * self.spec_chunk_size() + self.spec_chunk_size(),
                    )
                },
                None => (index + 1) * self.spec_chunk_size() > self.spec_list().len(),
            },
    {
        let len = self.original_list.len();
        let start = match index.checked_mul(self.chunk_size) {
            Some(s) => s,
            None => {
                proof {
                    vstd::arithmetic::mul::lemma_mul_is_distributive_add_other_way(
                        self.chunk_size as int,
                        index as int,
                        1,
                    );
                }
                return None;
            },
        };
        if start > len {
            proof {
                vstd::arithmetic::mul::lemma_mul_is_distributive_add_other_way(
                    self.chunk_size as int,
                    index as int,
                    1,
                );
            }
            return None;
        }
        let end = match start.checked_add(self.chunk_size) {
            Some(e) => e,
            None => {
                proof {
                    vstd::arithmetic::mul::lemma_mul_is_distributive_add_other_way(
                        self.chunk_size as int,
                        index as int,
                        1,
                    );
                }
                return None;
            },
        };
        proof {
            vstd::arithmetic::mul::lemma_mul_is_distributive_add_other_way(
                self.chunk_size as int,
                index as int,
                1,
            );
        }
        if end > len {
            return None;
        }
        Some(slice_subrange(self.original_list, start, end))
    }

    /// The number of full chunks: the list length divided by the chunk size,
    /// rounded down.
    pub fn count(&self) -> (r: usize)
        requires
            self.spec_chunk_size() >= 1,
        ensures
            r == self.spec_list().len() as int / self.spec_chunk_size() as int,
    {
        self.original_list.len() / self.chunk_size
    }
}

} // verus!

//! Learned positional embeddings: offset bookkeeping and position indices.
//!
//! The embedding table itself (a float matrix looked up by index) belongs to
//! the numeric engine; what is kept and verified here is the arithmetic the
//! layer performs around it: the table is over-allocated by a fixed offset,
//! and every lookup index is the running position shifted by that offset.

use vstd::prelude::*;

verus! {

/// Configuration of a positional embedding table with a fixed index offset.
pub struct LearnedPositionalEmbedding {
    pub num_embeddings: i64,
    pub embedding_dim: i64,
    pub padding_index: i64,
    pub offset: i64,
}

impl LearnedPositionalEmbedding {
    /// Sets up the table configuration: the table is grown by the fixed
    /// offset of two so that shifted indices stay in range.
    pub fn new(num_embeddings: i64, embedding_dim: i64, padding_index: i64) -> (e:
        LearnedPositionalEmbedding)
        requires
            num_embeddings <= i64::MAX - 2,
        ensures
            e.offset == 2,
            e.num_embeddings == num_embeddings + 2,
            e.embedding_dim == embedding_dim,
            e.padding_index == padding_index,
    {
        let offset: i64 = 2;
        LearnedPositionalEmbedding {
            num_embeddings: num_embeddings + offset,
            embedding_dim,
            padding_index,
            offset,
        }
    }

    /// The table indices for one forward pass: consecutive positions starting
    /// after the cached prefix, each shifted by the offset.
    pub fn position_ids(&self, sequence_length: usize, past_key_values_length: i64) -> (r: Vec<
        i64,
    >)
        requires
            0 <= past_key_values_length,
            0 <= self.offset,
            past_key_values_length + sequence_length + self.offset <= i64::MAX,
        ensures
            r@.len() == sequence_length,
            forall|n: int| 0 <= n < sequence_length ==> #[trigger] r@[n] == past_key_values_length
                + n + self.offset,
    {
        let mut r: Vec<i64> = Vec::new();
        let mut n: usize = 0;
        while n < sequence_length
            invariant
                n <= sequence_length,
                0 <= past_key_values_length,
                0 <= self.offset,
                past_key_values_length + sequence_length + self.offset <= i64::MAX,
                r@.len() == n,
                forall|m: int| 0 <= m < n ==> #[trigger] r@[m] == past_key_values_length + m
                    + self.offset,
            decreases sequence_length - n,
        {
            r.push(past_key_values_length + (n as i64) + self.offset);
            n = n + 1;
        }
        r
    }
}

} // verus!

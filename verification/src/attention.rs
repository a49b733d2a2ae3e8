//! Disentangled self-attention: configuration resolution and the
//! relative-position plumbing of the attention bias.
//!
//! The attention layer separates content and position contributions to the
//! attention score.  Which optional position projections exist, how large the
//! position embedding span is, and which bucket parameters feed the relative
//! position matrix are all decided once, from the raw model configuration;
//! those decisions are resolved and pinned down here.  The tensor projections
//! themselves belong to the numeric engine and are out of scope.

use vstd::prelude::*;

verus! {

use crate::tensor::IntTensor;
use crate::position::{
    build_relative_position, bucketing_enabled, relative_position_entry, valid_bucket_config,
};

/// A relative-position tensor had a rank other than 2, 3 or 4.
#[derive(Clone, Copy, Debug, PartialEq, Eq, Structural)]
pub struct ShapeError {
    pub rank: usize,
}

/// Brings an externally supplied relative-position tensor to the broadcast
/// rank 4, inserting singleton batch and head extents as needed; any rank
/// other than 2, 3 or 4 is a caller error reported as a `ShapeError`.
pub fn normalize_relative_position(rel: &IntTensor) -> (r: Result<IntTensor, ShapeError>)
    requires
        rel.wf(),
    ensures
        match r {
            Ok(t) => {
                &&& 2 <= rel.dims().len() <= 4
                &&& t.wf()
                &&& t.elems() == rel.elems()
                &&& t.dims().len() == 4
                &&& rel.dims().len() == 2 ==> t.dims() == seq![
                    1usize,
                    1usize,
                    rel.dims()[0],
                    rel.dims()[1],
                ]
                &&& rel.dims().len() == 3 ==> t.dims() == seq![
                    rel.dims()[0],
                    1usize,
                    rel.dims()[1],
                    rel.dims()[2],
                ]
                &&& rel.dims().len() == 4 ==> t.dims() == rel.dims()
            },
            Err(e) => {
                &&& !(2 <= rel.dims().len() <= 4)
                &&& e.rank == rel.dims().len()
            },
        },
{
    let rank: usize = rel.rank();
    if rank == 2 {
        let once = rel.unsqueeze(0);
        let twice = once.unsqueeze(0);
        proof {
            assert(twice.dims() =~= seq![1usize, 1usize, rel.dims()[0], rel.dims()[1]]);
        }
        Ok(twice)
    } else if rank == 3 {
        let t = rel.unsqueeze(1);
        proof {
            assert(t.dims() =~= seq![rel.dims()[0], 1usize, rel.dims()[1], rel.dims()[2]]);
        }
        Ok(t)
    } else if rank == 4 {
        Ok(rel.duplicate())
    } else {
        Err(ShapeError { rank })
    }
}

/// Which disentangled position biases a model uses: content-to-position,
/// position-to-content, position-to-position.
#[derive(Clone, Copy, Debug, PartialEq, Eq, Structural)]
pub struct PositionAttentionTypes {
    pub c2p: bool,
    pub p2c: bool,
    pub p2p: bool,
}

/// The raw configuration fields the attention layer reads; optional fields
/// mirror entries that a model description may leave out.
pub struct AttentionConfig {
    pub num_attention_heads: i64,
    pub hidden_size: i64,
    pub share_att_key: Option<bool>,
    pub pos_att_type: Option<PositionAttentionTypes>,
    pub relative_attention: Option<bool>,
    pub position_buckets: Option<i64>,
    pub max_relative_positions: Option<i64>,
    pub max_position_embeddings: i64,
    pub output_attentions: Option<bool>,
}

/// Whether relative attention is switched on.
pub open spec fn resolved_relative_attention(c: AttentionConfig) -> bool {
    match c.relative_attention {
        Some(b) => b,
        None => false,
    }
}

/// Whether query and key projections are shared with the position embeddings.
pub open spec fn resolved_share_attention_key(c: AttentionConfig) -> bool {
    match c.share_att_key {
        Some(b) => b,
        None => false,
    }
}

/// The enabled position bias kinds; none when the entry is left out.
pub open spec fn resolved_pos_att_type(c: AttentionConfig) -> PositionAttentionTypes {
    match c.pos_att_type {
        Some(t) => t,
        None => PositionAttentionTypes { c2p: false, p2c: false, p2p: false },
    }
}

/// The maximum relative distance: an absent or non-positive entry falls back
/// to the position embedding count.
pub open spec fn resolved_max_relative_positions(c: AttentionConfig) -> int {
    let given = match c.max_relative_positions {
        Some(m) => m as int,
        None => -1,
    };
    if given < 1 {
        c.max_position_embeddings as int
    } else {
        given
    }
}

/// The bucket count handed to the position encoder; -1 disables bucketing.
pub open spec fn resolved_position_buckets(c: AttentionConfig) -> int {
    match c.position_buckets {
        Some(b) => b as int,
        None => -1,
    }
}

/// The span of the position embedding table: the bucket count when bucketing
/// is on, the maximum relative distance otherwise.
pub open spec fn resolved_pos_embed_size(c: AttentionConfig) -> int {
    if resolved_position_buckets(c) > 0 {
        resolved_position_buckets(c)
    } else {
        resolved_max_relative_positions(c)
    }
}

/// The disentangled self-attention layer, reduced to the decisions resolved
/// at construction time.  The two `has_*` fields record whether the optional
/// position key and query projections exist; the projections' weights live
/// with the numeric engine.
pub struct DisentangledSelfAttention {
    pub num_attention_heads: i64,
    pub share_attention_key: bool,
    pub pos_att_type: PositionAttentionTypes,
    pub max_relative_positions: Option<i64>,
    pub position_buckets: Option<i64>,
    pub pos_embed_size: Option<i64>,
    pub has_pos_key_proj: bool,
    pub has_pos_query_proj: bool,
    pub output_attentions: bool,
}

impl DisentangledSelfAttention {
    /// Resolves the raw configuration into the layer's fixed decisions.
    pub fn new(config: &AttentionConfig) -> (s: DisentangledSelfAttention)
        ensures
            s.num_attention_heads == config.num_attention_heads,
            s.share_attention_key == resolved_share_attention_key(*config),
            s.pos_att_type == resolved_pos_att_type(*config),
            s.output_attentions == match config.output_attentions {
                Some(b) => b,
                None => false,
            },
            resolved_relative_attention(*config) ==> {
                &&& s.max_relative_positions == Some(
                    resolved_max_relative_positions(*config) as i64,
                )
                &&& s.position_buckets == Some(resolved_position_buckets(*config) as i64)
                &&& s.pos_embed_size == Some(resolved_pos_embed_size(*config) as i64)
                &&& s.has_pos_key_proj == (!resolved_share_attention_key(*config) && (
                resolved_pos_att_type(*config).c2p || resolved_pos_att_type(*config).p2p))
                &&& s.has_pos_query_proj == (!resolved_share_attention_key(*config) && (
                resolved_pos_att_type(*config).p2c || resolved_pos_att_type(*config).p2p))
            },
            !resolved_relative_attention(*config) ==> {
                &&& s.max_relative_positions == None::<i64>
                &&& s.position_buckets == None::<i64>
                &&& s.pos_embed_size == None::<i64>
                &&& !s.has_pos_key_proj
                &&& !s.has_pos_query_proj
            },
    {
        let share_attention_key: bool = match config.share_att_key {
            Some(b) => b,
            None => false,
        };
        let pos_att_type: PositionAttentionTypes = match config.pos_att_type {
            Some(t) => t,
            None => PositionAttentionTypes { c2p: false, p2c: false, p2p: false },
        };
        let relative_attention: bool = match config.relative_attention {
            Some(b) => b,
            None => false,
        };
        let output_attentions: bool = match config.output_attentions {
            Some(b) => b,
            None => false,
        };
        if relative_attention {
            let position_buckets: i64 = match config.position_buckets {
                Some(b) => b,
                None => -1,
            };
            let given: i64 = match config.max_relative_positions {
                Some(m) => m,
                None => -1,
            };
            let max_relative_positions: i64 = if given < 1 {
                config.max_position_embeddings
            } else {
                given
            };
            let pos_embed_size: i64 = if position_buckets > 0 {
                position_buckets
            } else {
                max_relative_positions
            };
            let has_pos_key_proj: bool = !share_attention_key && (pos_att_type.c2p
                || pos_att_type.p2p);
            let has_pos_query_proj: bool = !share_attention_key && (pos_att_type.p2c
                || pos_att_type.p2p);
            DisentangledSelfAttention {
                num_attention_heads: config.num_attention_heads,
                share_attention_key,
                pos_att_type,
                max_relative_positions: Some(max_relative_positions),
                position_buckets: Some(position_buckets),
                pos_embed_size: Some(pos_embed_size),
                has_pos_key_proj,
                has_pos_query_proj,
                output_attentions,
            }
        } else {
            DisentangledSelfAttention {
                num_attention_heads: config.num_attention_heads,
                share_attention_key,
                pos_att_type,
                max_relative_positions: None,
                position_buckets: None,
                pos_embed_size: None,
                has_pos_key_proj: false,
                has_pos_query_proj: false,
                output_attentions,
            }
        }
    }

    /// The relative position matrix this layer computes when none is supplied
    /// by the caller, from its resolved bucket parameters.
    pub fn relative_positions(&self, query_size: usize, key_size: usize) -> (r: IntTensor)
        requires
            1 <= query_size,
            1 <= key_size,
            query_size as int <= i64::MAX as int,
            key_size as int <= i64::MAX as int,
            (query_size as int) * (key_size as int) <= usize::MAX as int,
            bucketing_enabled(
                self.layer_bucket_size(),
                self.layer_max_position(),
            ) ==> valid_bucket_config(self.layer_bucket_size(), self.layer_max_position()),
        ensures
            r.wf(),
            r.dims() == seq![1usize, query_size, key_size],
            forall|i: int, j: int| 0 <= i < query_size && 0 <= j < key_size ==> r.index3(0, i, j)
                == relative_position_entry(
                i,
                j,
                self.layer_bucket_size(),
                self.layer_max_position(),
            ),
    {
        let bucket_size: i64 = match self.position_buckets {
            Some(b) => b,
            None => -1,
        };
        let max_position: i64 = match self.max_relative_positions {
            Some(m) => m,
            None => -1,
        };
        build_relative_position(query_size, key_size, bucket_size, max_position)
    }

    /// The bucket count handed to the position encoder; -1 when unset.
    pub open spec fn layer_bucket_size(self) -> int {
        match self.position_buckets {
            Some(b) => b as int,
            None => -1,
        }
    }

    /// The maximum relative distance handed to the position encoder; -1 when
    /// unset.
    pub open spec fn layer_max_position(self) -> int {
        match self.max_relative_positions {
            Some(m) => m as int,
            None => -1,
        }
    }
}

} // verus!

use relpos::attention::{
    AttentionConfig, DisentangledSelfAttention, PositionAttentionTypes, ShapeError,
    normalize_relative_position,
};
use relpos::tensor::IntTensor;

fn base_config() -> AttentionConfig {
    AttentionConfig {
        num_attention_heads: 12,
        hidden_size: 768,
        share_att_key: None,
        pos_att_type: None,
        relative_attention: None,
        position_buckets: None,
        max_relative_positions: None,
        max_position_embeddings: 512,
        output_attentions: None,
    }
}

#[test]
fn unsqueeze_adds_exactly_one_to_the_rank() {
    let t = IntTensor::from_parts(vec![2, 3], vec![0, 1, 2, 3, 4, 5]);
    assert_eq!(t.rank(), 2);
    let u = t.unsqueeze(0);
    assert_eq!(u.rank(), 3);
    let v = u.unsqueeze(1);
    assert_eq!(v.rank(), 4);
    assert_eq!(v.dim(0), 1);
    assert_eq!(v.dim(1), 1);
    assert_eq!(v.dim(2), 2);
    assert_eq!(v.dim(3), 3);
}

#[test]
fn rank_two_positions_are_lifted_to_rank_four() {
    let t = IntTensor::from_parts(vec![2, 3], vec![0, -1, -2, 1, 0, -1]);
    let r = normalize_relative_position(&t).unwrap();
    assert_eq!(r.rank(), 4);
    assert_eq!(r.dim(0), 1);
    assert_eq!(r.dim(1), 1);
    assert_eq!(r.dim(2), 2);
    assert_eq!(r.dim(3), 3);
    // the data is untouched by the lift
    assert_eq!(r.flat_len(), 6);
    assert_eq!(r.flat_at(1), -1);
    assert_eq!(r.flat_at(2), -2);
}

#[test]
fn rank_three_positions_get_a_head_extent() {
    let t = IntTensor::from_parts(vec![2, 2, 2], vec![0, -1, 1, 0, 0, -1, 1, 0]);
    let r = normalize_relative_position(&t).unwrap();
    assert_eq!(r.rank(), 4);
    assert_eq!(r.dim(0), 2);
    assert_eq!(r.dim(1), 1);
    assert_eq!(r.dim(2), 2);
    assert_eq!(r.dim(3), 2);
}

#[test]
fn rank_four_positions_pass_through() {
    let t = IntTensor::from_parts(vec![1, 1, 2, 2], vec![0, -1, 1, 0]);
    let r = normalize_relative_position(&t).unwrap();
    assert_eq!(r.rank(), 4);
    assert_eq!(r.dim(2), 2);
}

#[test]
fn rank_five_positions_are_a_shape_error() {
    let t = IntTensor::from_parts(vec![1, 1, 1, 2, 2], vec![0, -1, 1, 0]);
    let r = normalize_relative_position(&t);
    assert_eq!(r.unwrap_err(), ShapeError { rank: 5 });
    let one = IntTensor::from_parts(vec![3], vec![0, 1, 2]);
    assert_eq!(normalize_relative_position(&one).unwrap_err(), ShapeError { rank: 1 });
}

#[test]
fn relative_attention_resolves_spans_and_projections() {
    let mut c = base_config();
    c.relative_attention = Some(true);
    c.position_buckets = Some(256);
    c.max_relative_positions = Some(-1);
    c.pos_att_type = Some(PositionAttentionTypes { c2p: true, p2c: true, p2p: false });
    let s = DisentangledSelfAttention::new(&c);
    assert_eq!(s.num_attention_heads, 12);
    assert_eq!(s.max_relative_positions, Some(512));
    assert_eq!(s.position_buckets, Some(256));
    assert_eq!(s.pos_embed_size, Some(256));
    assert!(s.has_pos_key_proj);
    assert!(s.has_pos_query_proj);
    assert!(!s.share_attention_key);
}

#[test]
fn shared_keys_suppress_position_projections() {
    let mut c = base_config();
    c.relative_attention = Some(true);
    c.share_att_key = Some(true);
    c.max_relative_positions = Some(64);
    c.pos_att_type = Some(PositionAttentionTypes { c2p: true, p2c: true, p2p: true });
    let s = DisentangledSelfAttention::new(&c);
    assert_eq!(s.max_relative_positions, Some(64));
    assert_eq!(s.position_buckets, Some(-1));
    assert_eq!(s.pos_embed_size, Some(64));
    assert!(!s.has_pos_key_proj);
    assert!(!s.has_pos_query_proj);
    assert!(s.share_attention_key);
}

#[test]
fn no_relative_attention_leaves_spans_unset() {
    let s = DisentangledSelfAttention::new(&base_config());
    assert_eq!(s.max_relative_positions, None);
    assert_eq!(s.position_buckets, None);
    assert_eq!(s.pos_embed_size, None);
    assert!(!s.has_pos_key_proj);
    assert!(!s.has_pos_query_proj);
    assert!(!s.output_attentions);
}

#[test]
fn layer_builds_its_own_relative_positions() {
    let mut c = base_config();
    c.relative_attention = Some(true);
    c.position_buckets = Some(4);
    c.max_relative_positions = Some(8);
    let s = DisentangledSelfAttention::new(&c);
    let t = s.relative_positions(4, 4);
    assert_eq!(t.rank(), 3);
    assert_eq!(t.dim(1), 4);
    for i in 0..4 {
        for j in 0..4 {
            assert_eq!(t.at3(0, i, j), i as i64 - j as i64);
        }
    }
}

use relpos::embeddings::LearnedPositionalEmbedding;

#[test]
fn table_is_grown_by_the_offset() {
    let e = LearnedPositionalEmbedding::new(1024, 768, 1);
    assert_eq!(e.offset, 2);
    assert_eq!(e.num_embeddings, 1026);
    assert_eq!(e.embedding_dim, 768);
    assert_eq!(e.padding_index, 1);
}

#[test]
fn position_ids_start_after_the_cached_prefix() {
    let e = LearnedPositionalEmbedding::new(1024, 768, 1);
    let ids = e.position_ids(5, 0);
    assert_eq!(ids, vec![2, 3, 4, 5, 6]);
    let shifted = e.position_ids(4, 7);
    assert_eq!(shifted, vec![9, 10, 11, 12]);
    let empty = e.position_ids(0, 3);
    assert!(empty.is_empty());
}

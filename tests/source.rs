use quickwit_core::checkpoint::CheckpointDelta;
use quickwit_core::source::BatchBuilder;

#[test]
fn batch_builder_accumulates_docs_and_delta() {
    let mut builder = BatchBuilder::new();
    builder.add_doc(b"hello".to_vec());
    builder.add_doc(b"world!".to_vec());
    assert_eq!(builder.num_bytes, 11);
    assert!(builder.checkpoint_delta.record_partition_delta(3, 0, 2).is_ok());
    builder.force_commit();
    let batch = builder.build();
    assert_eq!(batch.docs, vec![b"hello".to_vec(), b"world!".to_vec()]);
    assert_eq!(batch.checkpoint_delta.get(3), Some((0, 2)));
    assert!(batch.force_commit);
}

#[test]
fn batch_builder_clear_keeps_commit_request() {
    let mut builder = BatchBuilder::new();
    builder.add_doc(b"doc".to_vec());
    builder.checkpoint_delta.record_partition_delta(1, 5, 6).unwrap();
    builder.force_commit();
    builder.clear();
    assert!(builder.docs.is_empty());
    assert_eq!(builder.num_bytes, 0);
    assert!(builder.checkpoint_delta.is_empty());
    assert!(builder.force_commit);
}

#[test]
fn record_partition_delta_chains_or_fails() {
    let mut delta = CheckpointDelta::new();
    delta.record_partition_delta(1, 0, 4).unwrap();
    delta.record_partition_delta(1, 4, 9).unwrap();
    assert_eq!(delta.get(1), Some((0, 9)));
    let err = delta.record_partition_delta(1, 3, 10).unwrap_err();
    assert_eq!(err.current_position, 9);
    assert_eq!(err.delta_from_position, 3);
    assert_eq!(delta.get(1), Some((0, 9)));
}

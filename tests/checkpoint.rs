use quickwit_core::checkpoint::CheckpointDelta;

#[test]
fn extend_chains_contiguous_ranges() {
    let mut delta = CheckpointDelta::from_range(4, 6);
    assert!(delta.extend(&CheckpointDelta::from_range(6, 8)).is_ok());
    assert_eq!(delta.get(0), Some((4, 8)));
    assert_eq!(delta.num_partitions(), 1);
}

#[test]
fn extend_rejects_backward_delta() {
    let mut delta = CheckpointDelta::from_range(4, 8);
    let err = delta.extend(&CheckpointDelta::from_range(6, 9)).unwrap_err();
    assert_eq!(err.partition_id, 0);
    assert_eq!(err.current_position, 8);
    assert_eq!(err.delta_from_position, 6);
    assert_eq!(delta.get(0), Some((4, 8)));
}

#[test]
fn extend_unions_disjoint_partitions() {
    let mut delta = CheckpointDelta::new();
    assert!(delta.is_empty());
    assert!(delta.extend(&CheckpointDelta::from_range(0, 3)).is_ok());
    let mut other = CheckpointDelta::new();
    other.per_partition.push(quickwit_core::checkpoint::PartitionDelta { partition_id: 7, from: 10, to: 12 });
    assert!(delta.extend(&other).is_ok());
    assert_eq!(delta.get(0), Some((0, 3)));
    assert_eq!(delta.get(7), Some((10, 12)));
    assert_eq!(delta.get(8), None);
    assert_eq!(delta.num_partitions(), 2);
    assert!(!delta.is_empty());
}

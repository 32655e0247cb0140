use quickwit_core::checkpoint::CheckpointDelta;
use quickwit_core::indexer::{
    record_timestamp, ActorExitStatus, CommitTrigger, Indexer, IndexerCounters, IndexerOutput,
    IndexingSettings, ProcessedDoc, ProcessedDocBatch, PublishLock, OTHER_PARTITION_ID,
};

const SECOND: u64 = 1_000_000;

fn settings_for_test() -> IndexingSettings {
    IndexingSettings {
        split_num_docs_target: 1_000,
        heap_size: 20_000_000,
        commit_timeout_micros: 60 * SECOND,
    }
}

fn doc(partition: u64, timestamp_opt: Option<i64>) -> ProcessedDoc {
    ProcessedDoc { timestamp_opt, partition, num_bytes: 30, mem_usage: 100 }
}

fn batch(docs: Vec<ProcessedDoc>, start: u64, end: u64, force_commit: bool) -> ProcessedDocBatch {
    ProcessedDocBatch { docs, checkpoint_delta: CheckpointDelta::from_range(start, end), force_commit }
}

fn split_batch(output: Option<IndexerOutput>) -> quickwit_core::indexer::IndexedSplitBatch {
    match output {
        Some(IndexerOutput::SplitBatch(b)) => b,
        other => panic!("expected a split batch, got {other:?}"),
    }
}

fn emitted_docs(output: &Option<IndexerOutput>) -> u64 {
    match output {
        Some(IndexerOutput::SplitBatch(b)) => b.splits.iter().map(|s| s.split_attrs.num_docs).sum(),
        _ => 0,
    }
}

#[test]
fn test_record_timestamp() {
    let mut time_range = None;
    record_timestamp(1628664679, &mut time_range);
    assert_eq!(time_range, Some((1628664679, 1628664679)));
    record_timestamp(1628664112, &mut time_range);
    assert_eq!(time_range, Some((1628664112, 1628664679)));
    record_timestamp(1628665112, &mut time_range);
    assert_eq!(time_range, Some((1628664112, 1628665112)));
}

#[test]
fn test_indexer_triggers_commit_on_target_num_docs() {
    let mut settings = settings_for_test();
    settings.split_num_docs_target = 3;
    let mut indexer = Indexer::new(settings, 100, false);
    let ts = Some(1_662_529_435);
    let first = indexer.index_batch(batch(vec![doc(1, ts), doc(1, ts)], 4, 6, false), 10, 0).unwrap();
    assert!(first.output.is_none());
    assert_eq!(first.commit_timeout_workbench_id, Some(0));
    let second = indexer.index_batch(batch(vec![doc(1, ts), doc(1, ts)], 6, 8, false), 10, 1).unwrap();
    let third = indexer.index_batch(batch(vec![doc(1, ts)], 8, 9, false), 10, 2).unwrap();
    assert!(third.output.is_none());
    assert_eq!(third.commit_timeout_workbench_id, Some(1));
    assert_eq!(
        indexer.observable_state(),
        IndexerCounters {
            num_splits_emitted: 1,
            num_split_batches_emitted: 1,
            num_docs_in_workbench: 1,
            pipeline_metrics_opt: None,
        }
    );
    let batch = split_batch(second.output);
    assert_eq!(batch.commit_trigger, CommitTrigger::NumDocsLimit);
    assert_eq!(batch.splits[0].split_attrs.num_docs, 4);
    for split in batch.splits.iter() {
        assert_eq!(split.split_attrs.delete_opstamp, 10);
        assert_eq!(split.split_attrs.split_id.len(), 26);
    }
    assert_eq!(batch.checkpoint_delta.get(0), Some((4, 8)));
}

#[test]
fn test_indexer_triggers_commit_on_memory_limit() {
    let mut settings = settings_for_test();
    settings.split_num_docs_target = 10_000_000;
    settings.heap_size = 5_000_000;
    let mut indexer = Indexer::new(settings, 100, false);
    let mut emitted_at = None;
    for i in 0..10_000u64 {
        let d = ProcessedDoc { timestamp_opt: None, partition: 0, num_bytes: 600, mem_usage: 2_000 };
        let outcome = indexer.index_batch(batch(vec![d], i, i + 1, false), 10, i).unwrap();
        if let Some(output) = outcome.output {
            let b = split_batch(Some(output));
            assert_eq!(b.commit_trigger, CommitTrigger::MemoryLimit);
            emitted_at = Some(i);
            break;
        }
    }
    let i = emitted_at.unwrap();
    assert!((500..3_000).contains(&i));
    assert_eq!(i, 2_499);
}

#[test]
fn test_indexer_triggers_commit_on_timeout() {
    let mut settings = settings_for_test();
    settings.commit_timeout_micros = SECOND;
    let mut indexer = Indexer::new(settings, 100, false);
    let mut timer: Option<(u64, u64)> = None;
    let mut accepted = 0u64;
    let mut emitted = 0u64;
    let mut timeouts = 0;
    let mut position = 0u64;
    let mut now = 0u64;
    while now < 3 * SECOND {
        if let Some((workbench_id, fire_at)) = timer {
            if fire_at <= now {
                timer = None;
                let output = indexer.handle_commit_timeout(workbench_id);
                if let Some(IndexerOutput::SplitBatch(b)) = &output {
                    assert_eq!(b.commit_trigger, CommitTrigger::Timeout);
                    timeouts += 1;
                }
                emitted += emitted_docs(&output);
            }
        }
        let outcome = indexer
            .index_batch(batch(vec![doc(1, Some(1_662_529_435))], position, position + 1, false), 10, now)
            .unwrap();
        if let Some(workbench_id) = outcome.commit_timeout_workbench_id {
            timer = Some((workbench_id, now + SECOND));
        }
        emitted += emitted_docs(&outcome.output);
        accepted += 1;
        position += 1;
        now += 10_000;
    }
    let counters = indexer.observable_state();
    assert!(counters.num_splits_emitted > 0);
    assert!(counters.num_split_batches_emitted > 0);
    assert!(timeouts > 0);
    let last = indexer.finalize(ActorExitStatus::Success);
    emitted += emitted_docs(&last);
    assert_eq!(emitted, accepted);
}

#[test]
fn stale_commit_timeout_is_ignored() {
    let mut settings = settings_for_test();
    settings.split_num_docs_target = 1;
    let mut indexer = Indexer::new(settings, 100, false);
    let first = indexer.index_batch(batch(vec![doc(0, None)], 0, 1, false), 10, 0).unwrap();
    assert!(first.output.is_some());
    let second = indexer.index_batch(batch(vec![], 1, 2, false), 10, 5).unwrap();
    assert_eq!(second.commit_timeout_workbench_id, Some(1));
    assert!(indexer.handle_commit_timeout(0).is_none());
    assert!(indexer.has_workbench());
    assert!(indexer.handle_commit_timeout(1).is_some());
    assert!(!indexer.has_workbench());
}

#[test]
fn test_indexer_triggers_commit_on_drained_mailbox() {
    let mut indexer = Indexer::new(settings_for_test(), 100, true);
    indexer.index_batch(batch(vec![doc(1, Some(1_662_529_435))], 8, 9, false), 10, 0).unwrap();
    let drained = indexer.on_drained_messages(15 * SECOND);
    let b = split_batch(drained.output);
    assert_eq!(b.commit_trigger, CommitTrigger::Drained);
    assert_eq!(b.splits[0].split_attrs.num_docs, 1);
    assert_eq!(drained.pause_micros, Some(45 * SECOND));
    let counters = indexer.observable_state();
    assert_eq!(counters.num_splits_emitted, 1);
    assert_eq!(counters.num_split_batches_emitted, 1);
    let metrics = counters.pipeline_metrics_opt.unwrap();
    assert_eq!(metrics.cpu_millis, 1000);
    assert_eq!(metrics.throughput_mb_per_sec, 0);
}

#[test]
fn drained_mailbox_without_cooperative_indexing_does_nothing() {
    let mut indexer = Indexer::new(settings_for_test(), 100, false);
    indexer.index_batch(batch(vec![doc(1, None)], 8, 9, false), 10, 0).unwrap();
    let drained = indexer.on_drained_messages(SECOND);
    assert!(drained.output.is_none());
    assert!(drained.pause_micros.is_none());
    assert!(indexer.has_workbench());
}

#[test]
fn pipeline_metrics_saturate_at_full_capacity() {
    let mut indexer = Indexer::new(settings_for_test(), 100, false);
    indexer.update_pipeline_metrics(120 * SECOND, 240_000_000);
    let metrics = indexer.observable_state().pipeline_metrics_opt.unwrap();
    assert_eq!(metrics.cpu_millis, 4000);
    assert_eq!(metrics.throughput_mb_per_sec, 1);
}

#[test]
fn test_indexer_triggers_commit_on_quit() {
    let mut indexer = Indexer::new(settings_for_test(), 100, false);
    indexer.index_batch(batch(vec![doc(1, Some(1_662_529_435))], 8, 9, false), 10, 0).unwrap();
    let b = split_batch(indexer.finalize(ActorExitStatus::Quit));
    assert_eq!(b.commit_trigger, CommitTrigger::NoMoreDocs);
    assert_eq!(b.splits[0].split_attrs.num_docs, 1);
    assert_eq!(b.checkpoint_delta.get(0), Some((8, 9)));
    assert_eq!(indexer.observable_state().num_docs_in_workbench, 0);
}

#[test]
fn killed_indexer_drops_its_workbench_unsent() {
    let mut indexer = Indexer::new(settings_for_test(), 100, false);
    indexer.index_batch(batch(vec![doc(1, None)], 8, 9, false), 10, 0).unwrap();
    assert!(indexer.finalize(ActorExitStatus::Killed).is_none());
    assert!(indexer.finalize(ActorExitStatus::Panicked).is_none());
    assert!(indexer.finalize(ActorExitStatus::Failure).is_none());
}

#[test]
fn test_indexer_partitioning() {
    let mut indexer = Indexer::new(settings_for_test(), 100, false);
    indexer.index_batch(batch(vec![doc(1, None), doc(3, None)], 8, 9, false), 10, 0).unwrap();
    assert_eq!(
        indexer.observable_state(),
        IndexerCounters {
            num_docs_in_workbench: 2,
            num_splits_emitted: 0,
            num_split_batches_emitted: 0,
            pipeline_metrics_opt: None,
        }
    );
    let b = split_batch(indexer.finalize(ActorExitStatus::Success));
    assert_eq!(b.splits.len(), 2);
    assert_eq!(
        indexer.observable_state(),
        IndexerCounters {
            num_docs_in_workbench: 0,
            num_splits_emitted: 2,
            num_split_batches_emitted: 1,
            pipeline_metrics_opt: None,
        }
    );
}

#[test]
fn test_indexer_exceeding_max_num_partitions() {
    let mut indexer = Indexer::new(settings_for_test(), 10, false);
    for partition in 0..100u64 {
        indexer
            .index_batch(batch(vec![doc(partition, None)], partition, partition + 1, false), 10, partition)
            .unwrap();
    }
    let b = split_batch(indexer.finalize(ActorExitStatus::Success));
    assert_eq!(b.splits.len(), 11);
    for split in b.splits.iter() {
        if split.split_attrs.partition_id == OTHER_PARTITION_ID {
            assert_eq!(split.split_attrs.num_docs, 90);
        } else {
            assert_eq!(split.split_attrs.num_docs, 1);
            assert!(split.split_attrs.partition_id < 10);
        }
    }
}

#[test]
fn test_indexer_propagates_publish_lock() {
    let mut settings = settings_for_test();
    settings.split_num_docs_target = 1;
    let mut indexer = Indexer::new(settings, 10, false);
    let first_lock = PublishLock::new(1);
    let second_lock = PublishLock::new(2);
    let mut messages = Vec::new();
    for lock in [first_lock, second_lock] {
        assert!(indexer.handle_new_publish_lock(lock).is_none());
        let outcome = indexer.index_batch(batch(vec![doc(0, None)], 0, 1, false), 10, 0).unwrap();
        messages.push(split_batch(outcome.output));
    }
    assert!(indexer.finalize(ActorExitStatus::Success).is_none());
    assert_eq!(messages.len(), 2);
    assert_eq!(messages[0].splits.len(), 1);
    assert_eq!(messages[0].publish_lock, first_lock);
    assert_eq!(messages[1].splits.len(), 1);
    assert_eq!(messages[1].publish_lock, second_lock);
}

#[test]
fn new_publish_lock_seals_the_current_workbench() {
    let mut indexer = Indexer::new(settings_for_test(), 10, false);
    indexer.index_batch(batch(vec![doc(0, None), doc(0, None)], 0, 2, false), 10, 0).unwrap();
    let b = split_batch(indexer.handle_new_publish_lock(PublishLock::new(7)));
    assert_eq!(b.splits[0].split_attrs.num_docs, 2);
    assert_eq!(b.publish_lock, PublishLock::new(0));
    assert!(!indexer.has_workbench());
    assert_eq!(indexer.publish_lock, PublishLock::new(7));
}

#[test]
fn test_indexer_ignores_messages_when_publish_lock_is_dead() {
    let mut settings = settings_for_test();
    settings.split_num_docs_target = 1;
    let mut indexer = Indexer::new(settings, 10, false);
    assert!(indexer.handle_new_publish_lock(PublishLock::new(1)).is_none());
    indexer.kill_publish_lock();
    let outcome = indexer.index_batch(batch(vec![doc(0, None)], 0, 1, false), 10, 0).unwrap();
    assert!(outcome.output.is_none());
    assert!(indexer.finalize(ActorExitStatus::Success).is_none());
    assert_eq!(indexer.observable_state().num_docs_in_workbench, 0);
    assert_eq!(indexer.observable_state().num_splits_emitted, 0);
}

#[test]
fn test_indexer_honors_batch_commit_request() {
    let mut indexer = Indexer::new(settings_for_test(), 10, false);
    let outcome = indexer.index_batch(batch(vec![doc(0, None)], 0, 1, true), 10, 0).unwrap();
    let b = split_batch(outcome.output);
    assert_eq!(b.commit_trigger, CommitTrigger::ForceCommit);
    assert_eq!(b.splits[0].split_attrs.num_docs, 1);
    assert!(indexer.finalize(ActorExitStatus::Success).is_none());
}

#[test]
fn test_indexer_checkpoint_on_all_failed_docs() {
    let mut indexer = Indexer::new(settings_for_test(), 10, false);
    let first = indexer.index_batch(batch(Vec::new(), 4, 6, false), 10, 0).unwrap();
    indexer.index_batch(batch(Vec::new(), 6, 8, false), 10, 1).unwrap();
    let output = indexer.handle_commit_timeout(first.commit_timeout_workbench_id.unwrap());
    assert_eq!(
        indexer.observable_state(),
        IndexerCounters {
            num_splits_emitted: 0,
            num_split_batches_emitted: 0,
            num_docs_in_workbench: 0,
            pipeline_metrics_opt: None,
        }
    );
    match output {
        Some(IndexerOutput::EmptySplit(update)) => {
            assert_eq!(update.checkpoint_delta.get(0), Some((4, 8)));
        }
        other => panic!("expected an empty split, got {other:?}"),
    }
}

#[test]
fn empty_workbench_with_empty_delta_sends_nothing() {
    let mut indexer = Indexer::new(settings_for_test(), 10, false);
    let outcome = indexer.index_batch(ProcessedDocBatch {
        docs: Vec::new(),
        checkpoint_delta: CheckpointDelta::new(),
        force_commit: true,
    }, 10, 0).unwrap();
    assert!(outcome.output.is_none());
    assert!(!indexer.has_workbench());
}

#[test]
fn batch_with_non_chaining_delta_is_rejected() {
    let mut indexer = Indexer::new(settings_for_test(), 10, false);
    indexer.index_batch(batch(vec![doc(0, None)], 4, 8, false), 10, 0).unwrap();
    assert!(indexer.index_batch(batch(vec![doc(0, None)], 6, 9, false), 10, 1).is_err());
    assert_eq!(indexer.observable_state().num_docs_in_workbench, 1);
    let b = split_batch(indexer.finalize(ActorExitStatus::Success));
    assert_eq!(b.checkpoint_delta.get(0), Some((4, 8)));
    assert_eq!(b.splits[0].split_attrs.num_docs, 1);
}

#[test]
fn split_attributes_accumulate_per_partition() {
    let mut indexer = Indexer::new(settings_for_test(), 10, false);
    indexer
        .index_batch(batch(vec![doc(5, Some(20)), doc(5, Some(10)), doc(6, None)], 0, 3, false), 42, 0)
        .unwrap();
    assert_eq!(indexer.memory_usage(), 300);
    let b = split_batch(indexer.finalize(ActorExitStatus::Success));
    assert_eq!(b.splits.len(), 2);
    let five = &b.splits[0].split_attrs;
    assert_eq!(five.partition_id, 5);
    assert_eq!(five.num_docs, 2);
    assert_eq!(five.uncompressed_docs_size_in_bytes, 60);
    assert_eq!(five.time_range, Some((10, 20)));
    assert_eq!(five.delete_opstamp, 42);
    let six = &b.splits[1].split_attrs;
    assert_eq!(six.partition_id, 6);
    assert_eq!(six.time_range, None);
    assert_ne!(five.split_id, six.split_id);
}

#[test]
fn zero_commit_timeout_reports_full_capacity() {
    let mut settings = settings_for_test();
    settings.commit_timeout_micros = 0;
    let mut indexer = Indexer::new(settings, 1, true);
    indexer.update_pipeline_metrics(0, 10);
    let metrics = indexer.observable_state().pipeline_metrics_opt.unwrap();
    assert_eq!(metrics.cpu_millis, 4000);
    assert_eq!(metrics.throughput_mb_per_sec, 10);
}

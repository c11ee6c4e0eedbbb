use diffly::diff::StatsCounters;
use diffly::driver::{run_keyed_to_sink_with_config, CancelCheck, EventSink, NeverCancel};
use diffly::error::EngineError;
use diffly::hash::{partition_for_key, stable_key_hash};
use diffly::options::{DiffOptions, EngineRunConfig, HeaderMode};
use diffly::plan::{diff_partitioned_from_manifest, partition_inputs_to_spill};
use diffly::records::Event;

struct CollectSink {
    events: Vec<Event>,
}

impl EventSink for CollectSink {
    fn on_event(&mut self, event: &Event) -> Result<(), String> {
        self.events.push(event.clone());
        Ok(())
    }
}

fn default_options() -> DiffOptions {
    DiffOptions {
        key_columns: vec![b"id".to_vec()],
        header_mode: HeaderMode::Strict,
        emit_unchanged: false,
    }
}

fn is_progress(event: &Event) -> bool {
    matches!(event, Event::Progress { .. })
}

#[test]
fn emits_progress_frames_when_enabled() {
    let a = b"id,name\n1,Alice\n";
    let b = b"id,name\n1,Alicia\n2,Bob\n";

    let mut sink = CollectSink { events: Vec::new() };
    let run_config = EngineRunConfig {
        emit_progress: true,
        progress_interval_events: 1,
        partition_count: None,
    };

    run_keyed_to_sink_with_config(a, b, &default_options(), &run_config, &NeverCancel, &mut sink)
        .expect("engine run should succeed");

    let progress_events = sink.events.iter().filter(|event| is_progress(event)).count();
    assert!(progress_events >= 2, "expected at least start/end progress events");
    assert!(is_progress(sink.events.first().expect("run should emit events")));
}

#[test]
fn stable_key_hash_is_deterministic() {
    let key = vec![b"123".to_vec(), b"eu".to_vec()];
    assert_eq!(stable_key_hash(&key), 9_476_362_503_708_207_610);
    assert_eq!(partition_for_key(&key, 256), 250);
}

#[test]
fn partitions_inputs_to_spill_with_counts() {
    let a = b"id,name\n1,Alice\n2,Bob\n";
    let b = b"id,name\n1,Alicia\n3,Cara\n";

    let manifest = partition_inputs_to_spill(a, b, &default_options(), 4)
        .expect("partitioning should succeed");

    assert_eq!(manifest.columns_a, vec![b"id".to_vec(), b"name".to_vec()]);
    assert_eq!(manifest.columns_b, vec![b"id".to_vec(), b"name".to_vec()]);
    assert_eq!(manifest.compare_columns, vec![b"id".to_vec(), b"name".to_vec()]);
    assert_eq!(manifest.row_count_a, 2);
    assert_eq!(manifest.row_count_b, 2);
    assert_eq!(manifest.partition_rows_a.iter().sum::<usize>(), 2);
    assert_eq!(manifest.partition_rows_b.iter().sum::<usize>(), 2);

    let mut observed_records = 0usize;
    for partition_id in 0..manifest.parts_a.len() {
        if manifest.partition_rows_a[partition_id] > 0 {
            let records = &manifest.parts_a[partition_id];
            observed_records += records.len();
            for record in records {
                assert!(!record.key.is_empty());
                assert!(record.row_index >= 2);
                assert!(record.row.iter().any(|(name, _)| name == b"id"));
            }
        }
    }
    assert_eq!(observed_records, 2);
}

#[test]
fn partitioned_diff_emits_data_and_stats() {
    let a = b"id,name\n1,Alice\n2,Bob\n";
    let b = b"id,name\n1,Alicia\n3,Cara\n";

    let manifest = partition_inputs_to_spill(a, b, &default_options(), 4)
        .expect("partitioning should succeed");
    let events = diff_partitioned_from_manifest(&manifest, &default_options())
        .expect("diff succeeds");

    let mut has_schema = false;
    let mut has_changed = false;
    let mut has_added = false;
    let mut has_removed = false;
    for event in &events {
        match event {
            Event::Schema { .. } => has_schema = true,
            Event::Changed { .. } => has_changed = true,
            Event::Added { .. } => has_added = true,
            Event::Removed { .. } => has_removed = true,
            _ => {},
        }
    }
    assert!(has_schema);
    assert!(has_changed);
    assert!(has_added);
    assert!(has_removed);

    match events.last().expect("stats should be present") {
        Event::Stats {
            rows_total_compared,
            rows_added,
            rows_removed,
            rows_changed,
            ..
        } => {
            assert_eq!(*rows_total_compared, 1);
            assert_eq!(*rows_added, 1);
            assert_eq!(*rows_removed, 1);
            assert_eq!(*rows_changed, 1);
        },
        other => panic!("expected stats event, got {other:?}"),
    }
}

#[test]
fn partitioned_diff_duplicate_key_preserves_row_indices() {
    let a = b"id,name\n1,Alice\n1,Alicia\n";
    let b = b"id,name\n1,Alice\n";

    let manifest = partition_inputs_to_spill(a, b, &default_options(), 4)
        .expect("partitioning should succeed");
    let err = diff_partitioned_from_manifest(&manifest, &default_options())
        .expect_err("duplicate key should fail");

    match err {
        EngineError::Diff(diff_err) => {
            assert_eq!(diff_err.code, "duplicate_key");
            assert!(diff_err.message.contains("rows 2 and 3"));
        },
        other => panic!("expected Diff error, got {other:?}"),
    }
}

#[test]
fn partitioning_missing_key_value_is_hard_error() {
    let a = b"id,name\n,Blank\n";
    let b = b"id,name\n1,Alice\n";

    let err = partition_inputs_to_spill(a, b, &default_options(), 4)
        .expect_err("expected missing_key_value");

    match err {
        EngineError::Diff(diff_err) => assert_eq!(diff_err.code, "missing_key_value"),
        other => panic!("expected Diff error, got {other:?}"),
    }
}

struct AlwaysCancel;

impl CancelCheck for AlwaysCancel {
    fn cancelled(&self) -> bool {
        true
    }
}

#[test]
fn cancellation_aborts_the_run() {
    let a = b"id,name\n1,Alice\n";
    let b = b"id,name\n1,Alicia\n";
    let mut sink = CollectSink { events: Vec::new() };
    let run_config = EngineRunConfig {
        emit_progress: false,
        progress_interval_events: 1000,
        partition_count: None,
    };

    let err =
        run_keyed_to_sink_with_config(a, b, &default_options(), &run_config, &AlwaysCancel, &mut sink)
            .expect_err("cancellation should abort");
    assert!(matches!(err, EngineError::Cancelled));
    assert!(sink.events.is_empty());
}

struct FailingSink;

impl EventSink for FailingSink {
    fn on_event(&mut self, _event: &Event) -> Result<(), String> {
        Err("downstream closed".to_string())
    }
}

#[test]
fn sink_failure_surfaces_as_sink_error() {
    let a = b"id,name\n1,Alice\n";
    let b = b"id,name\n1,Alicia\n";
    let mut sink = FailingSink;
    let run_config = EngineRunConfig {
        emit_progress: false,
        progress_interval_events: 1000,
        partition_count: None,
    };

    let err =
        run_keyed_to_sink_with_config(a, b, &default_options(), &run_config, &NeverCancel, &mut sink)
            .expect_err("sink failure should abort");
    match err {
        EngineError::Sink(message) => assert!(message.contains("downstream closed")),
        other => panic!("expected Sink error, got {other:?}"),
    }
}

#[test]
fn stats_counters_start_at_zero() {
    let stats = StatsCounters::new();
    assert_eq!(stats.rows_total_compared, 0);
    assert_eq!(stats.rows_added, 0);
    assert_eq!(stats.rows_removed, 0);
    assert_eq!(stats.rows_changed, 0);
    assert_eq!(stats.rows_unchanged, 0);
}

#[test]
fn partitioned_run_reaches_the_sink() {
    let a = b"id,name\n1,Alice\n2,Bob\n5,Eve\n";
    let b = b"id,name\n1,Alicia\n3,Cara\n5,Eve\n";
    let mut sink = CollectSink { events: Vec::new() };
    let run_config = EngineRunConfig {
        emit_progress: false,
        progress_interval_events: 1000,
        partition_count: Some(4),
    };

    run_keyed_to_sink_with_config(a, b, &default_options(), &run_config, &NeverCancel, &mut sink)
        .expect("partitioned run should succeed");
    assert!(matches!(sink.events.first(), Some(Event::Schema { .. })));
    assert!(matches!(sink.events.last(), Some(Event::Stats { .. })));
}

#[test]
fn partitioned_run_surfaces_data_errors() {
    let a = b"id,name\n1,Alice\n1,Alicia\n";
    let b = b"id,name\n1,Alice\n";
    let mut sink = CollectSink { events: Vec::new() };
    let run_config = EngineRunConfig {
        emit_progress: false,
        progress_interval_events: 1000,
        partition_count: Some(4),
    };

    let err =
        run_keyed_to_sink_with_config(a, b, &default_options(), &run_config, &NeverCancel, &mut sink)
            .expect_err("duplicate key should fail");
    match err {
        EngineError::Diff(diff_err) => {
            assert_eq!(diff_err.code, "duplicate_key");
            assert!(diff_err.message.contains("rows 2 and 3"));
        },
        other => panic!("expected Diff error, got {other:?}"),
    }
}

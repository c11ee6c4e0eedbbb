use diffly::diff::diff_csv_bytes;
use diffly::csv::read_csv_bytes;
use diffly::error::Side;
use diffly::options::{parse_partition_override, DiffOptions, HeaderMode};
use diffly::plan::{diff_partitioned_from_manifest, partition_inputs_to_spill};
use diffly::records::{Event, RowId, SpillRecord};
use diffly::spill::{encode_spill_record, parse_spill_content, parse_spill_line};
use diffly::text::{dec_u64, bytes_to_text};

fn keyed(emit_unchanged: bool, mode: HeaderMode) -> DiffOptions {
    DiffOptions { key_columns: vec![b"id".to_vec()], header_mode: mode, emit_unchanged }
}

fn positional() -> DiffOptions {
    DiffOptions { key_columns: Vec::new(), header_mode: HeaderMode::Strict, emit_unchanged: false }
}

#[test]
fn keyed_basic_strict_scenario() {
    let a = b"id,name\n1,Alice\n2,Bob\n";
    let b = b"id,name\n1,Alicia\n3,Cara\n";
    let events =
        diff_csv_bytes(a, b, &keyed(false, HeaderMode::Strict)).expect("diff should succeed");
    assert!(matches!(events[0], Event::Schema { .. }));
    assert!(matches!(events[1], Event::Changed { .. }));
    assert!(matches!(events[2], Event::Removed { .. }));
    assert!(matches!(events[3], Event::Added { .. }));
    match &events[4] {
        Event::Stats {
            rows_total_compared,
            rows_added,
            rows_removed,
            rows_changed,
            rows_unchanged,
        } => {
            assert_eq!(*rows_total_compared, 1);
            assert_eq!(*rows_added, 1);
            assert_eq!(*rows_removed, 1);
            assert_eq!(*rows_changed, 1);
            assert_eq!(*rows_unchanged, 0);
        },
        other => panic!("expected stats, got {other:?}"),
    }
    match &events[1] {
        Event::Changed { id, changed, delta, .. } => {
            match id {
                RowId::Key(pairs) => {
                    assert_eq!(pairs, &vec![(b"id".to_vec(), b"1".to_vec())]);
                },
                RowId::Position(_) => panic!("keyed event should carry a key"),
            }
            assert_eq!(changed, &vec![b"name".to_vec()]);
            assert_eq!(delta.len(), 1);
            assert_eq!(delta[0].column, b"name".to_vec());
            assert_eq!(delta[0].from, b"Alice".to_vec());
            assert_eq!(delta[0].to, b"Alicia".to_vec());
        },
        other => panic!("expected changed, got {other:?}"),
    }
}

#[test]
fn sorted_header_reordering_scenario() {
    let a = b"id,name\n1,Alice\n";
    let b = b"name,id\nAlice,1\n";
    let events =
        diff_csv_bytes(a, b, &keyed(false, HeaderMode::Sorted)).expect("diff should succeed");
    match &events[0] {
        Event::Schema { columns_a, columns_b } => {
            assert_eq!(columns_a, &vec![b"id".to_vec(), b"name".to_vec()]);
            assert_eq!(columns_b, &vec![b"name".to_vec(), b"id".to_vec()]);
        },
        other => panic!("expected schema, got {other:?}"),
    }
    match events.last().expect("stats last") {
        Event::Stats { rows_total_compared, rows_unchanged, .. } => {
            assert_eq!(*rows_total_compared, 1);
            assert_eq!(*rows_unchanged, 1);
        },
        other => panic!("expected stats, got {other:?}"),
    }
    assert_eq!(events.len(), 2, "unchanged rows are suppressed by default");
}

#[test]
fn duplicate_key_cites_rows_in_encounter_order() {
    let a = b"id,name\n1,Alice\n1,Alicia\n";
    let b = b"id,name\n1,Alice\n";
    let err = diff_csv_bytes(a, b, &keyed(false, HeaderMode::Strict))
        .expect_err("duplicate key should fail");
    assert_eq!(err.code, "duplicate_key");
    assert!(err.message.contains("rows 2 and 3"), "message was: {}", err.message);
}

#[test]
fn missing_key_value_cites_row_and_column() {
    let a = b"id,name\n,Blank\n";
    let b = b"id,name\n1,Alice\n";
    let err = diff_csv_bytes(a, b, &keyed(false, HeaderMode::Strict))
        .expect_err("missing key value should fail");
    assert_eq!(err.code, "missing_key_value");
    assert!(err.message.contains("A"), "message was: {}", err.message);
    assert!(err.message.contains("row 2"), "message was: {}", err.message);
    assert!(err.message.contains("'id'"), "message was: {}", err.message);
}

#[test]
fn empty_data_header_only_is_valid() {
    let a = b"id,name\n";
    let b = b"id,name\n";
    let events =
        diff_csv_bytes(a, b, &keyed(false, HeaderMode::Strict)).expect("diff should succeed");
    assert_eq!(events.len(), 2);
    match &events[1] {
        Event::Stats {
            rows_total_compared,
            rows_added,
            rows_removed,
            rows_changed,
            rows_unchanged,
        } => {
            assert_eq!(*rows_total_compared, 0);
            assert_eq!(*rows_added, 0);
            assert_eq!(*rows_removed, 0);
            assert_eq!(*rows_changed, 0);
            assert_eq!(*rows_unchanged, 0);
        },
        other => panic!("expected stats, got {other:?}"),
    }
}

#[test]
fn empty_file_is_rejected() {
    let err = diff_csv_bytes(b"", b"id\n1\n", &keyed(false, HeaderMode::Strict))
        .expect_err("empty input should fail");
    assert_eq!(err.code, "empty_file");
}

#[test]
fn bom_on_first_header_cell_is_stripped() {
    let a = b"\xef\xbb\xbfid,name\n1,Alice\n";
    let (header, rows) = read_csv_bytes(a, Side::A).expect("read should succeed");
    assert_eq!(header, vec![b"id".to_vec(), b"name".to_vec()]);
    assert_eq!(rows.len(), 1);
    assert_eq!(rows[0].row_index, 2);
}

#[test]
fn mixed_line_endings_are_tolerated() {
    let a = b"id,name\r\n1,Alice\r2,Bob\n";
    let b = b"id,name\n1,Alice\n2,Bob\n";
    let events =
        diff_csv_bytes(a, b, &keyed(false, HeaderMode::Strict)).expect("diff should succeed");
    match events.last().expect("stats last") {
        Event::Stats { rows_total_compared, rows_unchanged, .. } => {
            assert_eq!(*rows_total_compared, 2);
            assert_eq!(*rows_unchanged, 2);
        },
        other => panic!("expected stats, got {other:?}"),
    }
}

#[test]
fn quoted_fields_keep_commas_and_newlines() {
    let a = b"id,name\n1,\"Ada, \"\"the first\"\"\nline\"\n";
    let (_, rows) = read_csv_bytes(a, Side::A).expect("read should succeed");
    assert_eq!(rows[0].cells[1], b"Ada, \"the first\"\nline".to_vec());
}

#[test]
fn stray_quote_is_a_parse_error() {
    let err = diff_csv_bytes(b"id,na\"me\n", b"id\n", &keyed(false, HeaderMode::Strict))
        .expect_err("stray quote should fail");
    assert_eq!(err.code, "csv_parse_error");
}

#[test]
fn unterminated_quote_is_a_parse_error() {
    let err = diff_csv_bytes(b"id,name\n1,\"Alice\n", b"id,name\n1,Alice\n", &keyed(false, HeaderMode::Strict))
        .expect_err("unterminated quote should fail");
    assert_eq!(err.code, "csv_parse_error");
    assert!(err.message.contains("unterminated"), "message was: {}", err.message);
}

#[test]
fn row_width_mismatch_cites_the_row() {
    let err = diff_csv_bytes(b"id,name\n1\n", b"id,name\n1,Alice\n", &keyed(false, HeaderMode::Strict))
        .expect_err("narrow row should fail");
    assert_eq!(err.code, "row_width_mismatch");
    assert!(err.message.contains("row 2"), "message was: {}", err.message);
}

#[test]
fn header_mismatch_in_strict_mode() {
    let err = diff_csv_bytes(b"id,name\n", b"name,id\n", &keyed(false, HeaderMode::Strict))
        .expect_err("reordered header should fail strict mode");
    assert_eq!(err.code, "header_mismatch");
}

#[test]
fn missing_key_column_is_rejected() {
    let err = diff_csv_bytes(b"a,b\n1,2\n", b"a,b\n1,2\n", &keyed(false, HeaderMode::Strict))
        .expect_err("absent key column should fail");
    assert_eq!(err.code, "missing_key_column");
}

#[test]
fn header_mode_parse_accepts_the_two_modes() {
    assert_eq!(HeaderMode::parse("strict").expect("strict parses"), HeaderMode::Strict);
    assert_eq!(HeaderMode::parse("sorted").expect("sorted parses"), HeaderMode::Sorted);
    let err = HeaderMode::parse("loose").expect_err("unknown mode fails");
    assert_eq!(err.code, "invalid_header_mode");
    assert!(err.message.contains("loose"));
}

#[test]
fn empty_string_in_non_key_column_compares_as_empty() {
    let a = b"id,name\n1,\n";
    let b = b"id,name\n1,\n";
    let events =
        diff_csv_bytes(a, b, &keyed(false, HeaderMode::Strict)).expect("diff should succeed");
    match events.last().expect("stats last") {
        Event::Stats { rows_unchanged, rows_changed, .. } => {
            assert_eq!(*rows_unchanged, 1);
            assert_eq!(*rows_changed, 0);
        },
        other => panic!("expected stats, got {other:?}"),
    }
    let b2 = b"id,name\n1,x\n";
    let events2 =
        diff_csv_bytes(a, b2, &keyed(false, HeaderMode::Strict)).expect("diff should succeed");
    assert!(matches!(events2[1], Event::Changed { .. }));
}

#[test]
fn emit_unchanged_includes_unchanged_rows() {
    let a = b"id,name\n1,Alice\n";
    let b = b"id,name\n1,Alice\n";
    let events =
        diff_csv_bytes(a, b, &keyed(true, HeaderMode::Strict)).expect("diff should succeed");
    assert!(matches!(events[1], Event::Unchanged { .. }));
}

#[test]
fn two_runs_on_equal_inputs_agree() {
    let a = b"id,name\n2,Bob\n1,Alice\n";
    let b = b"id,name\n1,Alicia\n3,Cara\n";
    let first = diff_csv_bytes(a, b, &keyed(false, HeaderMode::Strict)).expect("first run");
    let second = diff_csv_bytes(a, b, &keyed(false, HeaderMode::Strict)).expect("second run");
    assert_eq!(format!("{first:?}"), format!("{second:?}"));
}

#[test]
fn partition_counts_do_not_change_the_body_events() {
    let a = b"id,name\n5,Eve\n1,Alice\n2,Bob\n9,Ida\n7,Gil\n";
    let b = b"id,name\n1,Alicia\n2,Bob\n3,Cara\n9,Ida\n8,Hal\n";
    let options = keyed(true, HeaderMode::Strict);

    let mut baseline: Vec<String> = Vec::new();
    for partitions in [1usize, 4, 256] {
        let manifest =
            partition_inputs_to_spill(a, b, &options, partitions).expect("plan should succeed");
        let events = diff_partitioned_from_manifest(&manifest, &options).expect("diff succeeds");
        let mut body: Vec<String> = events
            .iter()
            .filter(|event| {
                matches!(
                    event,
                    Event::Added { .. }
                        | Event::Removed { .. }
                        | Event::Changed { .. }
                        | Event::Unchanged { .. }
                )
            })
            .map(|event| format!("{event:?}"))
            .collect();
        body.sort();
        if baseline.is_empty() {
            baseline = body;
        } else {
            assert_eq!(body, baseline, "partition count {partitions} changed the body events");
        }
    }
    assert!(!baseline.is_empty());
}

#[test]
fn partitioned_run_matches_in_memory_stats() {
    let a = b"id,name\n5,Eve\n1,Alice\n2,Bob\n";
    let b = b"id,name\n1,Alicia\n2,Bob\n3,Cara\n";
    let options = keyed(false, HeaderMode::Strict);
    let in_memory = diff_csv_bytes(a, b, &options).expect("in-memory run");
    let manifest = partition_inputs_to_spill(a, b, &options, 7).expect("plan should succeed");
    let partitioned = diff_partitioned_from_manifest(&manifest, &options).expect("diff succeeds");
    assert_eq!(
        format!("{:?}", in_memory.last().expect("stats")),
        format!("{:?}", partitioned.last().expect("stats")),
    );
}

#[test]
fn spill_codec_round_trips() {
    let rec = SpillRecord {
        key: vec![b"1".to_vec(), b"eu\"west\\1".to_vec()],
        row_index: 7,
        row: vec![
            (b"id".to_vec(), b"1".to_vec()),
            (b"note".to_vec(), b"line\nbreak,\"q\"".to_vec()),
        ],
    };
    let line = encode_spill_record(&rec);
    let back = parse_spill_line(&line).expect("canonical line should parse");
    assert_eq!(back.key, rec.key);
    assert_eq!(back.row_index, rec.row_index);
    assert_eq!(back.row, rec.row);

    let mut content = line.clone();
    content.push(b'\n');
    let recs = parse_spill_content(&content).expect("canonical content should parse");
    assert_eq!(recs.len(), 1);
    assert_eq!(recs[0].key, rec.key);
}

#[test]
fn spill_codec_rejects_noncanonical_lines() {
    assert!(parse_spill_line(&b"{}".to_vec()).is_none());
    assert!(parse_spill_line(&b"{\"key\":[],\"row_index\":01,\"row\":{}}".to_vec()).is_none());
    let canonical = b"{\"key\":[\"1\"],\"row_index\":2,\"row\":{\"id\":\"1\"}}".to_vec();
    assert!(parse_spill_line(&canonical).is_some());
}

#[test]
fn decimal_rendering_is_exact() {
    assert_eq!(dec_u64(0), "0");
    assert_eq!(dec_u64(10), "10");
    assert_eq!(dec_u64(18_446_744_073_709_551_615), "18446744073709551615");
}

#[test]
fn lossy_text_of_valid_utf8_is_identity() {
    assert_eq!(bytes_to_text(&b"r\xc3\xa9gion".to_vec()), "r\u{e9}gion");
    assert_eq!(bytes_to_text(&Vec::new()), "");
}

#[test]
fn partition_override_parsing() {
    assert_eq!(parse_partition_override(&Vec::new()).expect("empty is none"), None);
    assert_eq!(parse_partition_override(&b"8".to_vec()).expect("digits parse"), Some(8));
    assert_eq!(parse_partition_override(&b"010".to_vec()).expect("digits parse"), Some(10));
    let err = parse_partition_override(&b"0".to_vec()).expect_err("zero is rejected");
    assert_eq!(err.code, "invalid_config");
    let err = parse_partition_override(&b"4x".to_vec()).expect_err("junk is rejected");
    assert_eq!(err.code, "invalid_config");
}

#[test]
fn swapping_sides_swaps_added_and_removed() {
    let a = b"id,name\n1,Alice\n2,Bob\n";
    let b = b"id,name\n1,Alicia\n3,Cara\n";
    let options = keyed(false, HeaderMode::Strict);
    let forward = diff_csv_bytes(a, b, &options).expect("forward run");
    let backward = diff_csv_bytes(b, a, &options).expect("backward run");

    let count = |events: &Vec<Event>, want_added: bool| -> usize {
        events
            .iter()
            .filter(|event| {
                if want_added {
                    matches!(event, Event::Added { .. })
                } else {
                    matches!(event, Event::Removed { .. })
                }
            })
            .count()
    };
    assert_eq!(count(&forward, true), count(&backward, false));
    assert_eq!(count(&forward, false), count(&backward, true));

    let changed_of = |events: &Vec<Event>| -> Vec<(Vec<(Vec<u8>, Vec<u8>)>, Vec<Vec<u8>>)> {
        events
            .iter()
            .filter_map(|event| match event {
                Event::Changed { id: RowId::Key(pairs), changed, .. } => {
                    Some((pairs.clone(), changed.clone()))
                },
                _ => None,
            })
            .collect()
    };
    assert_eq!(changed_of(&forward), changed_of(&backward));

    match (&forward[1], &backward[1]) {
        (
            Event::Changed { before: fb, after: fa, delta: fd, .. },
            Event::Changed { before: bb, after: ba, delta: bd, .. },
        ) => {
            assert_eq!(fb, ba);
            assert_eq!(fa, bb);
            assert_eq!(fd[0].from, bd[0].to);
            assert_eq!(fd[0].to, bd[0].from);
        },
        other => panic!("expected changed events first, got {other:?}"),
    }
}

#[test]
fn counters_account_for_every_key() {
    // keys(A) = {1,2,5}, keys(B) = {1,2,3,8}: union has 5 keys, the
    // intersection 2
    let a = b"id,name\n5,Eve\n1,Alice\n2,Bob\n";
    let b = b"id,name\n1,Alicia\n2,Bob\n3,Cara\n8,Hal\n";
    let events =
        diff_csv_bytes(a, b, &keyed(false, HeaderMode::Strict)).expect("diff should succeed");
    match events.last().expect("stats last") {
        Event::Stats {
            rows_total_compared,
            rows_added,
            rows_removed,
            rows_changed,
            rows_unchanged,
        } => {
            assert_eq!(rows_added + rows_removed + rows_changed + rows_unchanged, 5);
            assert_eq!(*rows_total_compared, 2);
        },
        other => panic!("expected stats, got {other:?}"),
    }
}

#[test]
fn positional_body_event_count_is_the_longer_side() {
    let a = b"id,name\n1,Alice\n2,Bob\n";
    let b = b"id,name\n1,Alice\n2,Bobby\n3,Cara\n4,Dan\n";
    let body_count = |events: &Vec<Event>| -> usize {
        events
            .iter()
            .filter(|event| {
                matches!(
                    event,
                    Event::Added { .. }
                        | Event::Removed { .. }
                        | Event::Changed { .. }
                        | Event::Unchanged { .. }
                )
            })
            .count()
    };
    let with_unchanged = diff_csv_bytes(a, b, &DiffOptions {
        key_columns: Vec::new(),
        header_mode: HeaderMode::Strict,
        emit_unchanged: true,
    })
    .expect("diff should succeed");
    assert_eq!(body_count(&with_unchanged), 4);
    let suppressed = diff_csv_bytes(a, b, &positional()).expect("diff should succeed");
    // one row compares equal, so one body event is suppressed
    assert_eq!(body_count(&suppressed), 3);
}

#[test]
fn diffing_an_input_against_itself_reports_no_differences() {
    let a = b"id,name\n2,Bob\n1,Alice\n3,Cara\n";
    let events =
        diff_csv_bytes(a, a, &keyed(false, HeaderMode::Strict)).expect("diff should succeed");
    assert_eq!(events.len(), 2, "only schema and stats");
    match events.last().expect("stats last") {
        Event::Stats {
            rows_total_compared,
            rows_added,
            rows_removed,
            rows_changed,
            rows_unchanged,
        } => {
            assert_eq!(*rows_total_compared, 3);
            assert_eq!(*rows_added, 0);
            assert_eq!(*rows_removed, 0);
            assert_eq!(*rows_changed, 0);
            assert_eq!(*rows_unchanged, 3);
        },
        other => panic!("expected stats, got {other:?}"),
    }
}

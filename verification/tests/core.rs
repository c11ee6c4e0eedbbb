use diffly::diff::diff_csv_bytes;
use diffly::options::{DiffOptions, HeaderMode};
use diffly::records::{Event, RowId};

fn default_options() -> DiffOptions {
    DiffOptions {
        key_columns: vec![b"id".to_vec()],
        header_mode: HeaderMode::Strict,
        emit_unchanged: false,
    }
}

fn positional_options() -> DiffOptions {
    DiffOptions {
        key_columns: Vec::new(),
        header_mode: HeaderMode::Strict,
        emit_unchanged: false,
    }
}

fn event_type(event: &Event) -> &'static str {
    match event {
        Event::Schema { .. } => "schema",
        Event::Added { .. } => "added",
        Event::Removed { .. } => "removed",
        Event::Changed { .. } => "changed",
        Event::Unchanged { .. } => "unchanged",
        Event::Progress { .. } => "progress",
        Event::Stats { .. } => "stats",
    }
}

#[test]
fn duplicate_column_name_is_hard_error() {
    let a = b"id,id,name\n1,1,Alice\n";
    let b = b"id,name\n1,Alice\n";

    let err = diff_csv_bytes(a, b, &default_options()).expect_err("expected duplicate_column_name");
    assert_eq!(err.code, "duplicate_column_name");
}

#[test]
fn missing_key_value_is_hard_error() {
    let a = b"id,name\n,Blank\n";
    let b = b"id,name\n1,Alice\n";

    let err = diff_csv_bytes(a, b, &default_options()).expect_err("expected missing_key_value");
    assert_eq!(err.code, "missing_key_value");
}

#[test]
fn events_are_emitted_in_sorted_key_order() {
    let a = b"id,name\n2,Bob\n1,Alice\n";
    let b = b"id,name\n1,Alicia\n3,Cara\n";

    let events = diff_csv_bytes(a, b, &default_options()).expect("diff should succeed");
    let types: Vec<&str> = events.iter().map(event_type).collect();
    assert_eq!(types, vec!["schema", "changed", "removed", "added", "stats"]);
}

#[test]
fn diff_csv_bytes_matches_file_mode() {
    let options = default_options();
    let a = b"id,name\n1,Alice\n2,Bob\n";
    let b = b"id,name\n1,Alicia\n3,Cara\n";

    let events = diff_csv_bytes(a, b, &options).expect("byte-mode diff should succeed");
    let types: Vec<&str> = events.iter().map(event_type).collect();
    assert_eq!(types, vec!["schema", "changed", "removed", "added", "stats"]);
}

#[test]
fn positional_mode_emits_row_indexed_events() {
    let a = b"id,name\n1,Alice\n2,Bob\n3,Cara\n";
    let b = b"id,name\n1,Alicia\n2,Bob\n4,Dan\n5,Eve\n";

    let events = diff_csv_bytes(a, b, &positional_options()).expect("diff should succeed");
    let changed = events
        .iter()
        .find(|event| matches!(event, Event::Changed { .. }))
        .expect("changed event should be present");
    match changed {
        Event::Changed { id, .. } => match id {
            RowId::Position(row_index) => assert_eq!(*row_index, 2),
            RowId::Key(_) => panic!("positional events should not emit keys"),
        },
        _ => unreachable!(),
    }

    let added = events
        .iter()
        .find(|event| match event {
            Event::Added { id: RowId::Position(5), .. } => true,
            _ => false,
        })
        .expect("added event for trailing row should be present");
    match added {
        Event::Added { row, .. } => assert!(!row.is_empty()),
        _ => unreachable!(),
    }
}

//! Records and events, with their mathematical views.
//!
//! A record pairs a key tuple, a CSV row index and the row itself (as
//! column/value pairs in header order).  Events are what a diff run
//! emits; their views (`EventV`) are what all contracts speak of.

use vstd::prelude::*;

verus! {

/// A per-row envelope: the key tuple, the 1-based CSV row index, and
/// the row as (column, value) pairs in header order.
#[derive(Clone, Debug)]
pub struct SpillRecord {
    pub key: Vec<Vec<u8>>,
    pub row_index: usize,
    pub row: Vec<(Vec<u8>, Vec<u8>)>,
}

/// The view of a row: (column, value) pairs over byte sequences.
pub open spec fn pairs_view(v: Seq<(Vec<u8>, Vec<u8>)>) -> Seq<(Seq<u8>, Seq<u8>)> {
    Seq::new(v.len(), |i: int| (v[i].0@, v[i].1@))
}

/// The view of a record.
pub struct RecV {
    pub key: Seq<Seq<u8>>,
    pub row_index: nat,
    pub row: Seq<(Seq<u8>, Seq<u8>)>,
}

/// The view of a `SpillRecord`.
pub open spec fn rec_view(r: SpillRecord) -> RecV {
    RecV { key: r.key.deep_view(), row_index: r.row_index as nat, row: pairs_view(r.row@) }
}

/// The views of a list of records.
pub open spec fn recs_view(v: Seq<SpillRecord>) -> Seq<RecV> {
    Seq::new(v.len(), |i: int| rec_view(v[i]))
}

/// How a body event identifies its row: by key object (column/value
/// pairs in key-column order) in keyed mode, by CSV row index in
/// positional mode.
#[derive(Clone, Debug)]
pub enum RowId {
    Key(Vec<(Vec<u8>, Vec<u8>)>),
    Position(usize),
}

/// The view of a `RowId`.
pub enum IdV {
    Key(Seq<(Seq<u8>, Seq<u8>)>),
    Position(nat),
}

pub open spec fn id_view(id: RowId) -> IdV {
    match id {
        RowId::Key(pairs) => IdV::Key(pairs_view(pairs@)),
        RowId::Position(i) => IdV::Position(i as nat),
    }
}

/// One changed column in a `changed` event: the column name, the value
/// before, and the value after.
#[derive(Clone, Debug)]
pub struct CellChange {
    pub column: Vec<u8>,
    pub from: Vec<u8>,
    pub to: Vec<u8>,
}

pub open spec fn delta_view(v: Seq<CellChange>) -> Seq<(Seq<u8>, Seq<u8>, Seq<u8>)> {
    Seq::new(v.len(), |i: int| (v[i].column@, v[i].from@, v[i].to@))
}

/// An event of the diff stream.
#[derive(Clone, Debug)]
pub enum Event {
    /// The two original headers, emitted first.
    Schema { columns_a: Vec<Vec<u8>>, columns_b: Vec<Vec<u8>> },
    /// A row present only in B.
    Added { id: RowId, row: Vec<(Vec<u8>, Vec<u8>)> },
    /// A row present only in A.
    Removed { id: RowId, row: Vec<(Vec<u8>, Vec<u8>)> },
    /// A row present in both sides with at least one differing
    /// comparison column.
    Changed {
        id: RowId,
        changed: Vec<Vec<u8>>,
        before: Vec<(Vec<u8>, Vec<u8>)>,
        after: Vec<(Vec<u8>, Vec<u8>)>,
        delta: Vec<CellChange>,
    },
    /// A row equal in all comparison columns, emitted only on request.
    Unchanged { id: RowId, row: Vec<(Vec<u8>, Vec<u8>)> },
    /// A progress frame.
    Progress { events_done: usize, events_total: usize },
    /// The final counters, emitted last.
    Stats {
        rows_total_compared: u64,
        rows_added: u64,
        rows_removed: u64,
        rows_changed: u64,
        rows_unchanged: u64,
    },
}

/// The view of an event.
pub enum EventV {
    Schema { columns_a: Seq<Seq<u8>>, columns_b: Seq<Seq<u8>> },
    Added { id: IdV, row: Seq<(Seq<u8>, Seq<u8>)> },
    Removed { id: IdV, row: Seq<(Seq<u8>, Seq<u8>)> },
    Changed {
        id: IdV,
        changed: Seq<Seq<u8>>,
        before: Seq<(Seq<u8>, Seq<u8>)>,
        after: Seq<(Seq<u8>, Seq<u8>)>,
        delta: Seq<(Seq<u8>, Seq<u8>, Seq<u8>)>,
    },
    Unchanged { id: IdV, row: Seq<(Seq<u8>, Seq<u8>)> },
    Progress { events_done: nat, events_total: nat },
    Stats {
        rows_total_compared: nat,
        rows_added: nat,
        rows_removed: nat,
        rows_changed: nat,
        rows_unchanged: nat,
    },
}

pub open spec fn event_view(e: Event) -> EventV {
    match e {
        Event::Schema { columns_a, columns_b } => EventV::Schema {
            columns_a: columns_a.deep_view(),
            columns_b: columns_b.deep_view(),
        },
        Event::Added { id, row } => EventV::Added { id: id_view(id), row: pairs_view(row@) },
        Event::Removed { id, row } => EventV::Removed { id: id_view(id), row: pairs_view(row@) },
        Event::Changed { id, changed, before, after, delta } => EventV::Changed {
            id: id_view(id),
            changed: changed.deep_view(),
            before: pairs_view(before@),
            after: pairs_view(after@),
            delta: delta_view(delta@),
        },
        Event::Unchanged { id, row } => EventV::Unchanged { id: id_view(id), row: pairs_view(row@) },
        Event::Progress { events_done, events_total } => EventV::Progress {
            events_done: events_done as nat,
            events_total: events_total as nat,
        },
        Event::Stats {
            rows_total_compared,
            rows_added,
            rows_removed,
            rows_changed,
            rows_unchanged,
        } => EventV::Stats {
            rows_total_compared: rows_total_compared as nat,
            rows_added: rows_added as nat,
            rows_removed: rows_removed as nat,
            rows_changed: rows_changed as nat,
            rows_unchanged: rows_unchanged as nat,
        },
    }
}

/// The views of a list of events.
pub open spec fn events_view(v: Seq<Event>) -> Seq<EventV> {
    Seq::new(v.len(), |i: int| event_view(v[i]))
}

/// Whether an event is a body event: `added`, `removed`, `changed` or
/// `unchanged`.
pub open spec fn is_body_event(e: EventV) -> bool {
    e is Added || e is Removed || e is Changed || e is Unchanged
}

} // verus!

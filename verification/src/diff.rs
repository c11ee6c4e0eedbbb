//! The in-core diff.
//!
//! Keyed mode matches rows by key tuple: both sides are indexed, the
//! union of keys is emitted in ascending `key_le` order, and each key
//! yields one `added`, `removed`, `changed` or `unchanged` event.
//! Positional mode matches rows by position.  Both modes carry exact
//! contracts over the spec functions below, which pin every emitted
//! event and every counter.

use vstd::prelude::*;
use crate::error::{DiffError, Side, err_duplicate_key, err_missing_key_value,
    msg_duplicate_key, msg_missing_key_value};
use crate::header::{col_idx, find_col, has_col, has_dup, lemma_col_idx, strip_bom,
    check_key_columns, comparison_columns};
use crate::options::{DiffOptions, HeaderMode};
use crate::order::{bytes_eq, bytes_order, key_eq, key_le, key_order, lemma_dv_bytes, lemma_dv_seq,
    sort_keys};
use crate::records::{SpillRecord, RecV, RowId, IdV, CellChange, Event, EventV, pairs_view,
    rec_view, recs_view, delta_view, event_view, events_view};
use crate::csv::{IndexedRow, csv_lex, read_csv_bytes, widths_ok, lemma_csv_lex_len};

verus! {

/// The value of column `name` in a row of (column, value) pairs: the
/// first matching pair's value, or the empty string when absent.
pub open spec fn row_val(row: Seq<(Seq<u8>, Seq<u8>)>, name: Seq<u8>) -> Seq<u8>
    decreases row.len(),
{
    if row.len() == 0 {
        Seq::empty()
    } else if row[0].0 == name {
        row[0].1
    } else {
        row_val(row.skip(1), name)
    }
}

proof fn lemma_row_val_at(row: Seq<(Seq<u8>, Seq<u8>)>, name: Seq<u8>, i: int)
    requires
        0 <= i < row.len(),
        row[i].0 == name,
        forall|j: int| 0 <= j < i ==> (#[trigger] row[j]).0 != name,
    ensures
        row_val(row, name) == row[i].1,
    decreases i,
{
    if i == 0 {
    } else {
        assert forall|j: int| 0 <= j < i - 1 implies (#[trigger] row.skip(1)[j]).0 != name by {
            assert(row.skip(1)[j] == row[j + 1]);
        }
        assert(row.skip(1)[i - 1] == row[i]);
        lemma_row_val_at(row.skip(1), name, i - 1);
    }
}

proof fn lemma_row_val_absent(row: Seq<(Seq<u8>, Seq<u8>)>, name: Seq<u8>)
    requires
        forall|j: int| 0 <= j < row.len() ==> (#[trigger] row[j]).0 != name,
    ensures
        row_val(row, name) == Seq::<u8>::empty(),
    decreases row.len(),
{
    if row.len() > 0 {
        assert forall|j: int| 0 <= j < row.len() - 1 implies (#[trigger] row.skip(1)[j]).0
            != name by {
            assert(row.skip(1)[j] == row[j + 1]);
        }
        lemma_row_val_absent(row.skip(1), name);
    }
}

/// Looks the value of column `name` up in a row of pairs.
pub fn pair_val(row: &Vec<(Vec<u8>, Vec<u8>)>, name: &Vec<u8>) -> (r: Vec<u8>)
    ensures
        r@ == row_val(pairs_view(row@), name@),
{
    let ghost rv = pairs_view(row@);
    let mut i: usize = 0;
    while i < row.len()
        invariant
            i <= row@.len(),
            rv == pairs_view(row@),
            rv.len() == row@.len(),
            forall|j: int| 0 <= j < i ==> (#[trigger] rv[j]).0 != name@,
        decreases row@.len() - i,
    {
        if bytes_eq(&row[i].0, name) {
            proof {
                lemma_row_val_at(rv, name@, i as int);
            }
            return row[i].1.clone();
        }
        i = i + 1;
    }
    proof {
        lemma_row_val_absent(rv, name@);
    }
    Vec::new()
}

/// The comparison columns whose values differ between two rows, in
/// comparison-column order.
pub open spec fn changed_cols(
    cols: Seq<Seq<u8>>,
    a: Seq<(Seq<u8>, Seq<u8>)>,
    b: Seq<(Seq<u8>, Seq<u8>)>,
) -> Seq<Seq<u8>>
    decreases cols.len(),
{
    if cols.len() == 0 {
        Seq::empty()
    } else {
        changed_cols(cols.drop_last(), a, b) + (if row_val(a, cols.last()) != row_val(
            b,
            cols.last(),
        ) {
            seq![cols.last()]
        } else {
            Seq::empty()
        })
    }
}

/// Computes the changed columns of two rows.
pub fn changed_cols_exec(
    cols: &Vec<Vec<u8>>,
    a: &Vec<(Vec<u8>, Vec<u8>)>,
    b: &Vec<(Vec<u8>, Vec<u8>)>,
) -> (r: Vec<Vec<u8>>)
    ensures
        r.deep_view() == changed_cols(cols.deep_view(), pairs_view(a@), pairs_view(b@)),
{
    let ghost cv = cols.deep_view();
    let mut r: Vec<Vec<u8>> = Vec::new();
    let mut i: usize = 0;
    proof {
        assert(cv.take(0) =~= Seq::<Seq<u8>>::empty());
        assert(r.deep_view() =~= changed_cols(cv.take(0), pairs_view(a@), pairs_view(b@)));
    }
    while i < cols.len()
        invariant
            i <= cols@.len(),
            cv == cols.deep_view(),
            cv.len() == cols@.len(),
            r.deep_view() == changed_cols(cv.take(i as int), pairs_view(a@), pairs_view(b@)),
        decreases cols@.len() - i,
    {
        proof {
            lemma_dv_bytes(cols, i as int);
        }
        let va = pair_val(a, &cols[i]);
        let vb = pair_val(b, &cols[i]);
        let ghost r_dv = r.deep_view();
        if !bytes_eq(&va, &vb) {
            let name = cols[i].clone();
            proof {
                broadcast use vstd::std_specs::vec::vec_clone_deep_view_proof;

                assert(name@ =~= name.deep_view());
            }
            r.push(name);
            proof {
                assert(r.deep_view() =~= r_dv.push(cv[i as int]));
            }
        }
        proof {
            assert(cv.take(i as int + 1).drop_last() =~= cv.take(i as int));
            assert(cv.take(i as int + 1).last() == cv[i as int]);
            if row_val(pairs_view(a@), cv[i as int]) != row_val(pairs_view(b@), cv[i as int]) {
                assert(r.deep_view() =~= r_dv + seq![cv[i as int]]);
            } else {
                assert(r.deep_view() =~= r_dv + Seq::<Seq<u8>>::empty());
            }
        }
        i = i + 1;
    }
    proof {
        assert(cv.take(cols@.len() as int) =~= cv);
    }
    r
}

/// The delta of a changed row: for each changed column, its name, the
/// value before, and the value after.
pub open spec fn delta_of(
    changed: Seq<Seq<u8>>,
    a: Seq<(Seq<u8>, Seq<u8>)>,
    b: Seq<(Seq<u8>, Seq<u8>)>,
) -> Seq<(Seq<u8>, Seq<u8>, Seq<u8>)> {
    Seq::new(changed.len(), |i: int| (changed[i], row_val(a, changed[i]), row_val(b, changed[i])))
}

/// Computes the delta of two rows over the changed columns.
pub fn delta_exec(
    changed: &Vec<Vec<u8>>,
    a: &Vec<(Vec<u8>, Vec<u8>)>,
    b: &Vec<(Vec<u8>, Vec<u8>)>,
) -> (r: Vec<CellChange>)
    ensures
        delta_view(r@) == delta_of(changed.deep_view(), pairs_view(a@), pairs_view(b@)),
{
    let ghost cv = changed.deep_view();
    let mut r: Vec<CellChange> = Vec::new();
    let mut i: usize = 0;
    while i < changed.len()
        invariant
            i <= changed@.len(),
            cv == changed.deep_view(),
            cv.len() == changed@.len(),
            r@.len() == i,
            forall|j: int|
                0 <= j < i ==> (#[trigger] r@[j]).column@ == cv[j] && r@[j].from@ == row_val(
                    pairs_view(a@),
                    cv[j],
                ) && r@[j].to@ == row_val(pairs_view(b@), cv[j]),
        decreases changed@.len() - i,
    {
        proof {
            lemma_dv_bytes(changed, i as int);
        }
        let from = pair_val(a, &changed[i]);
        let to = pair_val(b, &changed[i]);
        let column = changed[i].clone();
        proof {
            broadcast use vstd::std_specs::vec::vec_clone_deep_view_proof;

            assert(column@ =~= column.deep_view());
            assert(changed@[i as int]@ =~= changed@[i as int].deep_view());
            assert(column@ == cv[i as int]);
        }
        r.push(CellChange { column, from, to });
        i = i + 1;
    }
    proof {
        assert(delta_view(r@) =~= delta_of(cv, pairs_view(a@), pairs_view(b@)));
    }
    r
}

/// The key object of a key tuple: key column names paired with the
/// tuple's values, in declaration order; a missing value reads as
/// empty.
pub open spec fn key_pairs(key_cols: Seq<Seq<u8>>, key: Seq<Seq<u8>>) -> Seq<(Seq<u8>, Seq<u8>)> {
    Seq::new(
        key_cols.len(),
        |i: int|
            (
                key_cols[i],
                if 0 <= i < key.len() {
                    key[i]
                } else {
                    Seq::empty()
                },
            ),
    )
}

/// Builds the key object of a key tuple.
pub fn key_pairs_exec(key_cols: &Vec<Vec<u8>>, key: &Vec<Vec<u8>>) -> (r: Vec<(Vec<u8>, Vec<u8>)>)
    ensures
        pairs_view(r@) == key_pairs(key_cols.deep_view(), key.deep_view()),
{
    let mut r: Vec<(Vec<u8>, Vec<u8>)> = Vec::new();
    let mut i: usize = 0;
    while i < key_cols.len()
        invariant
            i <= key_cols@.len(),
            r@.len() == i,
            forall|j: int|
                0 <= j < i ==> (#[trigger] r@[j]).0@ == key_cols.deep_view()[j] && r@[j].1@ == (
                if 0 <= j < key.deep_view().len() {
                    key.deep_view()[j]
                } else {
                    Seq::<u8>::empty()
                }),
        decreases key_cols@.len() - i,
    {
        proof {
            lemma_dv_bytes(key_cols, i as int);
            if i < key@.len() {
                lemma_dv_bytes(key, i as int);
            }
        }
        let name = key_cols[i].clone();
        let value = if i < key.len() {
            key[i].clone()
        } else {
            Vec::new()
        };
        proof {
            broadcast use vstd::std_specs::vec::vec_clone_deep_view_proof;

            assert(name@ =~= name.deep_view());
            assert(key_cols@[i as int]@ =~= key_cols@[i as int].deep_view());
            assert(value@ =~= value.deep_view());
            if i < key@.len() {
                assert(key@[i as int]@ =~= key@[i as int].deep_view());
            }
        }
        r.push((name, value));
        i = i + 1;
    }
    proof {
        assert(pairs_view(r@) =~= key_pairs(key_cols.deep_view(), key.deep_view()));
    }
    r
}

/// The first record with the given key, if any.
pub open spec fn lookup(recs: Seq<RecV>, key: Seq<Seq<u8>>) -> Option<RecV>
    decreases recs.len(),
{
    if recs.len() == 0 {
        None
    } else if recs[0].key == key {
        Some(recs[0])
    } else {
        lookup(recs.skip(1), key)
    }
}

pub proof fn lemma_lookup_at(recs: Seq<RecV>, key: Seq<Seq<u8>>, i: int)
    requires
        0 <= i < recs.len(),
        recs[i].key == key,
        forall|j: int| 0 <= j < i ==> (#[trigger] recs[j]).key != key,
    ensures
        lookup(recs, key) == Some(recs[i]),
    decreases i,
{
    if i > 0 {
        assert forall|j: int| 0 <= j < i - 1 implies (#[trigger] recs.skip(1)[j]).key != key by {
            assert(recs.skip(1)[j] == recs[j + 1]);
        }
        assert(recs.skip(1)[i - 1] == recs[i]);
        lemma_lookup_at(recs.skip(1), key, i - 1);
    }
}

pub proof fn lemma_lookup_absent(recs: Seq<RecV>, key: Seq<Seq<u8>>)
    requires
        forall|j: int| 0 <= j < recs.len() ==> (#[trigger] recs[j]).key != key,
    ensures
        lookup(recs, key) is None,
    decreases recs.len(),
{
    if recs.len() > 0 {
        assert forall|j: int| 0 <= j < recs.len() - 1 implies (#[trigger] recs.skip(1)[j]).key
            != key by {
            assert(recs.skip(1)[j] == recs[j + 1]);
        }
        lemma_lookup_absent(recs.skip(1), key);
    }
}

/// Finds the first record with the given key.
pub fn lookup_exec<'a>(recs: &'a Vec<SpillRecord>, key: &Vec<Vec<u8>>) -> (r: Option<
    &'a SpillRecord,
>)
    ensures
        match r {
            Some(rec) => lookup(recs_view(recs@), key.deep_view()) == Some(rec_view(*rec)),
            None => lookup(recs_view(recs@), key.deep_view()) is None,
        },
{
    let ghost rv = recs_view(recs@);
    let mut i: usize = 0;
    while i < recs.len()
        invariant
            i <= recs@.len(),
            rv == recs_view(recs@),
            rv.len() == recs@.len(),
            forall|j: int| 0 <= j < i ==> (#[trigger] rv[j]).key != key.deep_view(),
        decreases recs@.len() - i,
    {
        if key_eq(&recs[i].key, key) {
            proof {
                lemma_lookup_at(rv, key.deep_view(), i as int);
            }
            return Some(&recs[i]);
        }
        i = i + 1;
    }
    proof {
        lemma_lookup_absent(rv, key.deep_view());
    }
    None
}

/// The key tuple a row yields: the values of the key columns in
/// declaration order; a key column absent from the header reads as
/// empty.
pub open spec fn key_of(header: Seq<Seq<u8>>, kc: Seq<Seq<u8>>, cells: Seq<Seq<u8>>) -> Seq<
    Seq<u8>,
> {
    Seq::new(
        kc.len(),
        |j: int|
            if col_idx(header, kc[j]) >= 0 && col_idx(header, kc[j]) < cells.len() {
                cells[col_idx(header, kc[j])]
            } else {
                Seq::empty()
            },
    )
}

/// A row as (column, value) pairs, pairing the header with the cells.
pub open spec fn zip_pairs(header: Seq<Seq<u8>>, cells: Seq<Seq<u8>>) -> Seq<(Seq<u8>, Seq<u8>)> {
    Seq::new(
        header.len(),
        |i: int|
            (
                header[i],
                if 0 <= i < cells.len() {
                    cells[i]
                } else {
                    Seq::empty()
                },
            ),
    )
}

/// The record a data row yields.
pub open spec fn row_rec(header: Seq<Seq<u8>>, kc: Seq<Seq<u8>>, row: IndexedRow) -> RecV {
    RecV {
        key: key_of(header, kc, row.cells.deep_view()),
        row_index: row.row_index as nat,
        row: zip_pairs(header, row.cells.deep_view()),
    }
}

/// The records of one side's data rows.
pub open spec fn side_recs(header: Seq<Seq<u8>>, kc: Seq<Seq<u8>>, rows: Seq<IndexedRow>) -> Seq<
    RecV,
> {
    Seq::new(rows.len(), |i: int| row_rec(header, kc, rows[i]))
}

/// Whether the row at `i` has an empty value in some key column.
pub open spec fn row_missing_key(
    header: Seq<Seq<u8>>,
    kc: Seq<Seq<u8>>,
    rows: Seq<IndexedRow>,
    i: int,
) -> bool {
    exists|j: int| 0 <= j < kc.len() && key_of(header, kc, rows[i].cells.deep_view())[j].len() == 0
}

/// Whether the row at `i` repeats an earlier row's key tuple.
pub open spec fn row_dup_key(
    header: Seq<Seq<u8>>,
    kc: Seq<Seq<u8>>,
    rows: Seq<IndexedRow>,
    i: int,
) -> bool {
    exists|p: int|
        0 <= p < i && key_of(header, kc, (#[trigger] rows[p]).cells.deep_view()) == key_of(
            header,
            kc,
            rows[i].cells.deep_view(),
        )
}

/// The first key position holding an empty value, or `-1`.
pub open spec fn first_empty_col(key: Seq<Seq<u8>>, j: int) -> int
    decreases key.len() - j,
{
    if j < 0 || j >= key.len() {
        -1
    } else if key[j].len() == 0 {
        j
    } else {
        first_empty_col(key, j + 1)
    }
}

pub proof fn lemma_first_empty_is(key: Seq<Seq<u8>>, w: int)
    requires
        0 <= w < key.len(),
        key[w].len() == 0,
        forall|q: int| 0 <= q < w ==> #[trigger] key[q].len() > 0,
    ensures
        first_empty_col(key, 0) == w,
{
    lemma_first_empty_from(key, 0, w);
}

proof fn lemma_first_empty_from(key: Seq<Seq<u8>>, j: int, w: int)
    requires
        0 <= j <= w < key.len(),
        key[w].len() == 0,
        forall|q: int| j <= q < w ==> #[trigger] key[q].len() > 0,
    ensures
        first_empty_col(key, j) == w,
    decreases w - j,
{
    if j < w {
        lemma_first_empty_from(key, j + 1, w);
    }
}

/// Whether the row at `i` is rejected in keyed mode.
pub open spec fn row_bad(
    header: Seq<Seq<u8>>,
    kc: Seq<Seq<u8>>,
    rows: Seq<IndexedRow>,
    i: int,
) -> bool {
    row_missing_key(header, kc, rows, i) || row_dup_key(header, kc, rows, i)
}

/// Builds one side's record index for keyed mode.
///
/// Row by row, an empty value in a key column is rejected first
/// (`missing_key_value`, citing the row and the first such column),
/// then a key tuple already seen on this side (`duplicate_key`, citing
/// the two rows in encounter order).
pub fn index_rows(
    rows: &Vec<IndexedRow>,
    header: &Vec<Vec<u8>>,
    key_columns: &Vec<Vec<u8>>,
    side: Side,
) -> (r: Result<Vec<SpillRecord>, DiffError>)
    requires
        forall|j: int|
            0 <= j < key_columns.deep_view().len() ==> has_col(
                header.deep_view(),
                #[trigger] key_columns.deep_view()[j],
            ),
    ensures
        ({
            let h = header.deep_view();
            let kc = key_columns.deep_view();
            &&& (r is Ok <==> forall|i: int| 0 <= i < rows@.len() ==> !row_bad(h, kc, rows@, i))
            &&& (r matches Ok(recs) ==> recs@.len() == rows@.len() && forall|i: int|
                0 <= i < rows@.len() ==> rec_view(#[trigger] recs@[i]) == row_rec(h, kc, rows@[i]))
            &&& (r matches Err(e) ==> exists|i: int|
                {
                    &&& 0 <= i < rows@.len()
                    &&& #[trigger] row_bad(h, kc, rows@, i)
                    &&& forall|p: int| 0 <= p < i ==> !row_bad(h, kc, rows@, p)
                    &&& if row_missing_key(h, kc, rows@, i) {
                        &&& e.code@ == "missing_key_value"@
                        &&& e.message@ == msg_missing_key_value(
                            side,
                            rows@[i].row_index as nat,
                            kc[first_empty_col(key_of(h, kc, rows@[i].cells.deep_view()), 0)],
                        )
                    } else {
                        &&& e.code@ == "duplicate_key"@
                        &&& e.message@ == msg_duplicate_key(
                            side,
                            lookup(
                                side_recs(h, kc, rows@).take(i),
                                key_of(h, kc, rows@[i].cells.deep_view()),
                            )->Some_0.row_index,
                            rows@[i].row_index as nat,
                        )
                    }
                })
        }),
{
    let ghost h = header.deep_view();
    let ghost kc = key_columns.deep_view();
    let mut recs: Vec<SpillRecord> = Vec::new();
    let mut i: usize = 0;
    while i < rows.len()
        invariant
            i <= rows@.len(),
            h == header.deep_view(),
            kc == key_columns.deep_view(),
            kc.len() == key_columns@.len(),
            h.len() == header@.len(),
            forall|j: int| 0 <= j < kc.len() ==> has_col(h, #[trigger] kc[j]),
            forall|p: int| 0 <= p < i ==> !row_bad(h, kc, rows@, p),
            recs@.len() == i,
            forall|p: int|
                0 <= p < i ==> rec_view(#[trigger] recs@[p]) == row_rec(h, kc, rows@[p]),
        decreases rows@.len() - i,
    {
        let row = &rows[i];
        let ghost cells = row.cells.deep_view();
        // build the key tuple, rejecting empty key values
        let mut key: Vec<Vec<u8>> = Vec::new();
        let mut j: usize = 0;
        while j < key_columns.len()
            invariant
                j <= key_columns@.len(),
                h == header.deep_view(),
                kc == key_columns.deep_view(),
                kc.len() == key_columns@.len(),
                h.len() == header@.len(),
                i < rows@.len(),
                row == &rows@[i as int],
                cells == row.cells.deep_view(),
                forall|q: int| 0 <= q < kc.len() ==> has_col(h, #[trigger] kc[q]),
                forall|p: int| 0 <= p < i ==> !row_bad(h, kc, rows@, p),
                key@.len() == j,
                forall|q: int|
                    0 <= q < j ==> (#[trigger] key.deep_view()[q]) == key_of(h, kc, cells)[q],
                forall|q: int| 0 <= q < j ==> key_of(h, kc, cells)[q].len() > 0,
            decreases key_columns@.len() - j,
        {
            proof {
                lemma_dv_bytes(key_columns, j as int);
            }
            let pos = match find_col(header, &key_columns[j]) {
                Some(pos) => pos,
                None => {
                    proof {
                        lemma_col_idx(h, kc[j as int]);
                    }
                    // unreachable: every key column is in the header
                    return Err(crate::error::err_missing_key_column(&key_columns[j]));
                },
            };
            proof {
                lemma_col_idx(h, kc[j as int]);
            }
            if pos >= row.cells.len() {
                // a key column beyond this row's width reads as empty
                proof {
                    assert(key_of(h, kc, cells)[j as int].len() == 0);
                    assert(row_missing_key(h, kc, rows@, i as int));
                    assert(row_bad(h, kc, rows@, i as int));
                    lemma_first_empty_is(key_of(h, kc, cells), j as int);
                }
                return Err(err_missing_key_value(
                    side,
                    row.row_index as u64,
                    &key_columns[j],
                ));
            }
            let value = row.cells[pos].clone();
            proof {
                broadcast use vstd::std_specs::vec::vec_clone_deep_view_proof;

                assert(value@ =~= value.deep_view());
                assert(row.cells@[pos as int]@ =~= row.cells@[pos as int].deep_view());
                assert(value@ == cells[pos as int]);
                assert(key_of(h, kc, cells)[j as int] == cells[pos as int]);
            }
            if value.len() == 0 {
                proof {
                    assert(row_missing_key(h, kc, rows@, i as int));
                    assert(row_bad(h, kc, rows@, i as int));
                    lemma_first_empty_is(key_of(h, kc, cells), j as int);
                }
                return Err(err_missing_key_value(
                    side,
                    row.row_index as u64,
                    &key_columns[j],
                ));
            }
            let ghost key_dv = key.deep_view();
            key.push(value);
            proof {
                assert(key.deep_view() =~= key_dv.push(cells[pos as int]));
            }
            j = j + 1;
        }
        proof {
            assert(key.deep_view() =~= key_of(h, kc, cells));
            assert(!row_missing_key(h, kc, rows@, i as int)) by {
                if row_missing_key(h, kc, rows@, i as int) {
                    let q = choose|q: int|
                        0 <= q < kc.len() && key_of(h, kc, cells)[q].len() == 0;
                    assert(key_of(h, kc, cells)[q].len() > 0);
                }
            }
        }
        // reject a key already seen on this side
        let prior = lookup_exec(&recs, &key);
        match prior {
            Some(p) => {
                let ghost rv = recs_view(recs@);
                proof {
                    lemma_lookup_some_witness(rv, key.deep_view());
                    let w = choose|pi: int|
                        0 <= pi < rv.len() && (#[trigger] rv[pi]).key == key.deep_view()
                            && lookup(rv, key.deep_view()) == Some(rv[pi]);
                    assert(rv[w] == rec_view(recs@[w]));
                    assert(rec_view(recs@[w]) == row_rec(h, kc, rows@[w]));
                    assert(key_of(h, kc, rows@[w].cells.deep_view()) == key_of(h, kc, cells));
                    assert(row_dup_key(h, kc, rows@, i as int));
                    assert(row_bad(h, kc, rows@, i as int));
                    assert(!row_missing_key(h, kc, rows@, i as int));
                    assert(rv =~= side_recs(h, kc, rows@).take(i as int)) by {
                        assert forall|q: int| 0 <= q < rv.len() implies rv[q] == side_recs(
                            h,
                            kc,
                            rows@,
                        ).take(i as int)[q] by {
                            assert(rv[q] == rec_view(recs@[q]));
                            assert(side_recs(h, kc, rows@)[q] == row_rec(h, kc, rows@[q]));
                        }
                    }
                    assert(lookup(
                        side_recs(h, kc, rows@).take(i as int),
                        key_of(h, kc, cells),
                    ) == Some(rec_view(*p)));
                }
                return Err(err_duplicate_key(side, p.row_index as u64, row.row_index as u64));
            },
            None => {},
        }
        proof {
            assert(!row_dup_key(h, kc, rows@, i as int)) by {
                if row_dup_key(h, kc, rows@, i as int) {
                    let p = choose|p: int|
                        0 <= p < i && key_of(
                            h,
                            kc,
                            (#[trigger] rows@[p]).cells.deep_view(),
                        ) == key_of(h, kc, cells);
                    assert(rec_view(recs@[p]).key == key.deep_view());
                    assert(recs_view(recs@)[p].key == key.deep_view());
                    lemma_lookup_at_exists(recs_view(recs@), key.deep_view());
                }
            }
        }
        // build the row pairs in header order
        let mut pairs: Vec<(Vec<u8>, Vec<u8>)> = Vec::new();
        let mut q: usize = 0;
        while q < header.len()
            invariant
                q <= header@.len(),
                h == header.deep_view(),
                h.len() == header@.len(),
                i < rows@.len(),
                row == &rows@[i as int],
                cells == row.cells.deep_view(),
                pairs@.len() == q,
                forall|t: int|
                    0 <= t < q ==> (#[trigger] pairs@[t]).0@ == h[t] && pairs@[t].1@ == (
                    if 0 <= t < cells.len() {
                        cells[t]
                    } else {
                        Seq::<u8>::empty()
                    }),
            decreases header@.len() - q,
        {
            proof {
                lemma_dv_bytes(header, q as int);
            }
            let name = header[q].clone();
            let value = if q < row.cells.len() {
                row.cells[q].clone()
            } else {
                Vec::new()
            };
            proof {
                broadcast use vstd::std_specs::vec::vec_clone_deep_view_proof;

                assert(name@ =~= name.deep_view());
                assert(header@[q as int]@ =~= header@[q as int].deep_view());
                assert(value@ =~= value.deep_view());
                if q < row.cells@.len() {
                    assert(row.cells@[q as int]@ =~= row.cells@[q as int].deep_view());
                }
            }
            pairs.push((name, value));
            q = q + 1;
        }
        proof {
            assert(pairs_view(pairs@) =~= zip_pairs(h, cells));
        }
        let rec = SpillRecord { key, row_index: row.row_index, row: pairs };
        let ghost recs_old = recs@;
        recs.push(rec);
        proof {
            assert(rec_view(recs@[i as int]) == row_rec(h, kc, rows@[i as int]));
        }
        i = i + 1;
    }
    Ok(recs)
}

pub proof fn lemma_lookup_some_witness(recs: Seq<RecV>, key: Seq<Seq<u8>>)
    requires
        lookup(recs, key) is Some,
    ensures
        exists|i: int| 0 <= i < recs.len() && (#[trigger] recs[i]).key == key && lookup(recs, key)
            == Some(recs[i]),
    decreases recs.len(),
{
    if recs.len() > 0 {
        if recs[0].key == key {
        } else {
            lemma_lookup_some_witness(recs.skip(1), key);
            let i = choose|i: int|
                0 <= i < recs.skip(1).len() && (#[trigger] recs.skip(1)[i]).key == key && lookup(
                    recs.skip(1),
                    key,
                ) == Some(recs.skip(1)[i]);
            assert(recs[i + 1] == recs.skip(1)[i]);
        }
    }
}

pub proof fn lemma_lookup_at_exists(recs: Seq<RecV>, key: Seq<Seq<u8>>)
    requires
        exists|i: int| 0 <= i < recs.len() && (#[trigger] recs[i]).key == key,
    ensures
        lookup(recs, key) is Some,
    decreases recs.len(),
{
    let i = choose|i: int| 0 <= i < recs.len() && (#[trigger] recs[i]).key == key;
    if i == 0 {
    } else {
        assert(recs.skip(1)[i - 1] == recs[i]);
        lemma_lookup_at_exists(recs.skip(1), key);
    }
}

/// Whether a key tuple repeats among the records before position `j`.
pub open spec fn rec_dup_before(recs: Seq<RecV>, j: int) -> bool {
    exists|i: int| 0 <= i < j && (#[trigger] recs[i]).key == recs[j].key
}

/// Whether all record keys are distinct.
pub open spec fn recs_unique(recs: Seq<RecV>) -> bool {
    forall|i: int, j: int| 0 <= i < j < recs.len() ==> (#[trigger] recs[i]).key != (
    #[trigger] recs[j]).key
}

/// The first record that repeats an earlier key, or `-1`.
pub open spec fn first_recdup_from(recs: Seq<RecV>, j: int) -> int
    decreases recs.len() - j,
{
    if j < 0 || j >= recs.len() {
        -1
    } else if rec_dup_before(recs, j) {
        j
    } else {
        first_recdup_from(recs, j + 1)
    }
}

pub proof fn lemma_first_recdup_is(recs: Seq<RecV>, w: int)
    requires
        0 <= w < recs.len(),
        rec_dup_before(recs, w),
        forall|q: int| 0 <= q < w ==> !rec_dup_before(recs, q),
    ensures
        first_recdup_from(recs, 0) == w,
{
    lemma_first_recdup_from(recs, 0, w);
}

proof fn lemma_first_recdup_from(recs: Seq<RecV>, j: int, w: int)
    requires
        0 <= j <= w < recs.len(),
        rec_dup_before(recs, w),
        forall|q: int| j <= q < w ==> !rec_dup_before(recs, q),
    ensures
        first_recdup_from(recs, j) == w,
    decreases w - j,
{
    if j < w {
        lemma_first_recdup_from(recs, j + 1, w);
    }
}

/// The message a duplicated key earns: the first repeated record and
/// its first earlier holder, cited in encounter order.
pub open spec fn dup_reject_msg(recs: Seq<RecV>, side: Side) -> Seq<char> {
    let j = first_recdup_from(recs, 0);
    msg_duplicate_key(
        side,
        lookup(recs.take(j), recs[j].key)->Some_0.row_index,
        recs[j].row_index,
    )
}

/// The message the first rejected record of a side earns in keyed
/// mode: an empty key value cites the row and the first such column;
/// a repeated key cites both rows, smaller first.
pub open spec fn keyed_reject_msg(recs: Seq<RecV>, kc: Seq<Seq<u8>>, side: Side) -> Seq<char> {
    let i = first_bad_from(recs, 0);
    if srec_missing(recs, i) {
        msg_missing_key_value(side, recs[i].row_index, kc[first_empty_col(recs[i].key, 0)])
    } else {
        msg_duplicate_key(
            side,
            lookup(recs.take(i), recs[i].key)->Some_0.row_index,
            recs[i].row_index,
        )
    }
}

/// Rejects a record list in which a key tuple repeats; the error cites
/// the first two records that share a key, in encounter order.
pub fn check_duplicates(recs: &Vec<SpillRecord>, side: Side) -> (r: Result<(), DiffError>)
    ensures
        r is Ok <==> recs_unique(recs_view(recs@)),
        r matches Err(e) ==> e.code@ == "duplicate_key"@ && !recs_unique(recs_view(recs@))
            && e.message@ == dup_reject_msg(recs_view(recs@), side),
{
    let ghost rv = recs_view(recs@);
    let mut j: usize = 0;
    while j < recs.len()
        invariant
            j <= recs@.len(),
            rv == recs_view(recs@),
            rv.len() == recs@.len(),
            forall|k: int| 0 <= k < j ==> !rec_dup_before(rv, k),
        decreases recs@.len() - j,
    {
        let mut i: usize = 0;
        while i < j
            invariant
                0 <= i <= j < recs@.len(),
                rv == recs_view(recs@),
                rv.len() == recs@.len(),
                forall|k: int| 0 <= k < j ==> !rec_dup_before(rv, k),
                forall|p: int| 0 <= p < i ==> (#[trigger] rv[p]).key != rv[j as int].key,
            decreases j - i,
        {
            if key_eq(&recs[i].key, &recs[j].key) {
                proof {
                    assert(rv[i as int].key == rv[j as int].key);
                    assert(rec_dup_before(rv, j as int));
                    lemma_first_recdup_is(rv, j as int);
                    assert forall|q: int| 0 <= q < rv.take(j as int).len() && q < i implies (
                    #[trigger] rv.take(j as int)[q]).key != rv[j as int].key by {
                        assert(rv[q].key != rv[j as int].key);
                    }
                    assert(rv.take(j as int)[i as int] == rv[i as int]);
                    lemma_lookup_at(rv.take(j as int), rv[j as int].key, i as int);
                    assert(!recs_unique(rv));
                }
                return Err(err_duplicate_key(
                    side,
                    recs[i].row_index as u64,
                    recs[j].row_index as u64,
                ));
            }
            i = i + 1;
        }
        proof {
            assert(!rec_dup_before(rv, j as int));
        }
        j = j + 1;
    }
    proof {
        assert forall|p: int, q: int| 0 <= p < q < rv.len() implies rv[p].key != rv[q].key by {
            assert(!rec_dup_before(rv, q));
            if rv[p].key == rv[q].key {
                assert(rec_dup_before(rv, q));
            }
        }
    }
    Ok(())
}

/// Copies a row of (column, value) pairs.
pub fn clone_pairs(v: &Vec<(Vec<u8>, Vec<u8>)>) -> (r: Vec<(Vec<u8>, Vec<u8>)>)
    ensures
        pairs_view(r@) == pairs_view(v@),
{
    let mut r: Vec<(Vec<u8>, Vec<u8>)> = Vec::new();
    let mut i: usize = 0;
    while i < v.len()
        invariant
            i <= v@.len(),
            r@.len() == i,
            forall|j: int|
                0 <= j < i ==> (#[trigger] r@[j]).0@ == v@[j].0@ && r@[j].1@ == v@[j].1@,
        decreases v@.len() - i,
    {
        let name = v[i].0.clone();
        let value = v[i].1.clone();
        proof {
            broadcast use vstd::std_specs::vec::vec_clone_deep_view_proof;

            assert(name@ =~= name.deep_view());
            assert(v@[i as int].0@ =~= v@[i as int].0.deep_view());
            assert(value@ =~= value.deep_view());
            assert(v@[i as int].1@ =~= v@[i as int].1.deep_view());
        }
        r.push((name, value));
        i = i + 1;
    }
    proof {
        assert(pairs_view(r@) =~= pairs_view(v@));
    }
    r
}

/// The event one key yields, given its record on each side: `added`
/// when only B has it, `removed` when only A has it, `changed` when
/// both have it and a comparison column differs, `unchanged` (only on
/// request) otherwise.
pub open spec fn keyed_event(
    key: Seq<Seq<u8>>,
    key_cols: Seq<Seq<u8>>,
    ra: Option<RecV>,
    rb: Option<RecV>,
    cols: Seq<Seq<u8>>,
    emit_unchanged: bool,
) -> Option<EventV> {
    match (ra, rb) {
        (Option::None, Option::None) => None,
        (Option::None, Option::Some(rb)) => Some(
            EventV::Added { id: IdV::Key(key_pairs(key_cols, key)), row: rb.row },
        ),
        (Option::Some(ra), Option::None) => Some(
            EventV::Removed { id: IdV::Key(key_pairs(key_cols, key)), row: ra.row },
        ),
        (Option::Some(ra), Option::Some(rb)) => {
            let ch = changed_cols(cols, ra.row, rb.row);
            if ch.len() == 0 {
                if emit_unchanged {
                    Some(EventV::Unchanged { id: IdV::Key(key_pairs(key_cols, key)), row: ra.row })
                } else {
                    None
                }
            } else {
                Some(
                    EventV::Changed {
                        id: IdV::Key(key_pairs(key_cols, key)),
                        changed: ch,
                        before: ra.row,
                        after: rb.row,
                        delta: delta_of(ch, ra.row, rb.row),
                    },
                )
            }
        },
    }
}

/// An optional event as a (possibly empty) event sequence.
pub open spec fn opt_event(o: Option<EventV>) -> Seq<EventV> {
    match o {
        Option::None => Seq::empty(),
        Option::Some(e) => seq![e],
    }
}

/// The body events of keyed mode, one key of `keys` at a time.
pub open spec fn keyed_events(
    keys: Seq<Seq<Seq<u8>>>,
    key_cols: Seq<Seq<u8>>,
    a: Seq<RecV>,
    b: Seq<RecV>,
    cols: Seq<Seq<u8>>,
    emit_unchanged: bool,
) -> Seq<EventV>
    decreases keys.len(),
{
    if keys.len() == 0 {
        Seq::empty()
    } else {
        keyed_events(keys.drop_last(), key_cols, a, b, cols, emit_unchanged) + opt_event(
            keyed_event(
                keys.last(),
                key_cols,
                lookup(a, keys.last()),
                lookup(b, keys.last()),
                cols,
                emit_unchanged,
            ),
        )
    }
}

/// The five counters of a run.
pub struct StatsV {
    pub compared: nat,
    pub added: nat,
    pub removed: nat,
    pub changed: nat,
    pub unchanged: nat,
}

pub open spec fn stats_zero() -> StatsV {
    StatsV { compared: 0, added: 0, removed: 0, changed: 0, unchanged: 0 }
}

/// How one key moves the counters.
pub open spec fn stats_bump(st: StatsV, ra: Option<RecV>, rb: Option<RecV>, cols: Seq<Seq<u8>>) -> StatsV {
    match (ra, rb) {
        (Option::None, Option::None) => st,
        (Option::None, Option::Some(_)) => StatsV { added: st.added + 1, ..st },
        (Option::Some(_), Option::None) => StatsV { removed: st.removed + 1, ..st },
        (Option::Some(ra), Option::Some(rb)) => {
            let st = StatsV { compared: st.compared + 1, ..st };
            if changed_cols(cols, ra.row, rb.row).len() == 0 {
                StatsV { unchanged: st.unchanged + 1, ..st }
            } else {
                StatsV { changed: st.changed + 1, ..st }
            }
        },
    }
}

/// The counters of keyed mode over `keys`.
pub open spec fn keyed_stats(
    keys: Seq<Seq<Seq<u8>>>,
    a: Seq<RecV>,
    b: Seq<RecV>,
    cols: Seq<Seq<u8>>,
) -> StatsV
    decreases keys.len(),
{
    if keys.len() == 0 {
        stats_zero()
    } else {
        stats_bump(
            keyed_stats(keys.drop_last(), a, b, cols),
            lookup(a, keys.last()),
            lookup(b, keys.last()),
            cols,
        )
    }
}

/// Componentwise sum of two counter sets.
pub open spec fn stats_plus(x: StatsV, y: StatsV) -> StatsV {
    StatsV {
        compared: x.compared + y.compared,
        added: x.added + y.added,
        removed: x.removed + y.removed,
        changed: x.changed + y.changed,
        unchanged: x.unchanged + y.unchanged,
    }
}

/// Every key moves exactly one of `added`, `removed`, `compared`, and
/// every compared key moves exactly one of `changed`, `unchanged`.
pub proof fn lemma_keyed_stats_sums(
    keys: Seq<Seq<Seq<u8>>>,
    a: Seq<RecV>,
    b: Seq<RecV>,
    cols: Seq<Seq<u8>>,
)
    ensures
        keyed_stats(keys, a, b, cols).compared + keyed_stats(keys, a, b, cols).added + keyed_stats(
            keys,
            a,
            b,
            cols,
        ).removed <= keys.len(),
        keyed_stats(keys, a, b, cols).changed + keyed_stats(keys, a, b, cols).unchanged
            == keyed_stats(keys, a, b, cols).compared,
        (forall|i: int|
            0 <= i < keys.len() ==> lookup(a, #[trigger] keys[i]) is Some || lookup(b, keys[i])
                is Some) ==> keyed_stats(keys, a, b, cols).compared + keyed_stats(
            keys,
            a,
            b,
            cols,
        ).added + keyed_stats(keys, a, b, cols).removed == keys.len(),
    decreases keys.len(),
{
    if keys.len() > 0 {
        lemma_keyed_stats_sums(keys.drop_last(), a, b, cols);
        assert(keys.last() == keys[keys.len() - 1]);
        assert forall|i: int| 0 <= i < keys.len() - 1 implies keys.drop_last()[i] == keys[i] by {}
    }
}

/// The executable counters.
pub struct StatsCounters {
    pub rows_total_compared: u64,
    pub rows_added: u64,
    pub rows_removed: u64,
    pub rows_changed: u64,
    pub rows_unchanged: u64,
}

pub open spec fn stats_view(s: StatsCounters) -> StatsV {
    StatsV {
        compared: s.rows_total_compared as nat,
        added: s.rows_added as nat,
        removed: s.rows_removed as nat,
        changed: s.rows_changed as nat,
        unchanged: s.rows_unchanged as nat,
    }
}

impl StatsCounters {
    /// Fresh counters, all zero.
    pub fn new() -> (r: StatsCounters)
        ensures
            stats_view(r) == stats_zero(),
    {
        StatsCounters {
            rows_total_compared: 0,
            rows_added: 0,
            rows_removed: 0,
            rows_changed: 0,
            rows_unchanged: 0,
        }
    }
}

/// The keys of a record list, in record order.
pub open spec fn keys_of(recs: Seq<RecV>) -> Seq<Seq<Seq<u8>>> {
    Seq::new(recs.len(), |i: int| recs[i].key)
}

/// The keys of B that A does not have, in B order.
pub open spec fn extra_keys(a: Seq<RecV>, bk: Seq<Seq<Seq<u8>>>) -> Seq<Seq<Seq<u8>>>
    decreases bk.len(),
{
    if bk.len() == 0 {
        Seq::empty()
    } else {
        extra_keys(a, bk.drop_last()) + (if lookup(a, bk.last()) is Some {
            Seq::empty()
        } else {
            seq![bk.last()]
        })
    }
}

/// The keys present on either side: all of A's, then B's extras.
pub open spec fn union_keys(a: Seq<RecV>, b: Seq<RecV>) -> Seq<Seq<Seq<u8>>> {
    keys_of(a) + extra_keys(a, keys_of(b))
}

/// The union of the two sides' keys, in ascending `key_le` order.
pub open spec fn sorted_union(a: Seq<RecV>, b: Seq<RecV>) -> Seq<Seq<Seq<u8>>> {
    union_keys(a, b).sort_by(key_order())
}

proof fn lemma_extra_keys_len(a: Seq<RecV>, bk: Seq<Seq<Seq<u8>>>)
    ensures
        extra_keys(a, bk).len() <= bk.len(),
    decreases bk.len(),
{
    if bk.len() > 0 {
        lemma_extra_keys_len(a, bk.drop_last());
    }
}

/// The sorted key union is no longer than the two sides together.
pub proof fn lemma_sorted_union_len(a: Seq<RecV>, b: Seq<RecV>)
    ensures
        sorted_union(a, b).len() <= a.len() + b.len(),
{
    crate::order::lemma_key_total_ordering();
    union_keys(a, b).lemma_sort_by_ensures(key_order());
    broadcast use vstd::seq_lib::group_to_multiset_ensures;

    assert(sorted_union(a, b).to_multiset().len() == sorted_union(a, b).len());
    assert(union_keys(a, b).to_multiset().len() == union_keys(a, b).len());
    lemma_extra_keys_len(a, keys_of(b));
}

/// Builds the sorted union of the two sides' keys.
fn sorted_union_exec(a: &Vec<SpillRecord>, b: &Vec<SpillRecord>) -> (r: Vec<Vec<Vec<u8>>>)
    ensures
        r.deep_view() == sorted_union(recs_view(a@), recs_view(b@)),
        r@.len() <= a@.len() + b@.len(),
{
    let ghost av = recs_view(a@);
    let ghost bv = recs_view(b@);
    let mut keys: Vec<Vec<Vec<u8>>> = Vec::new();
    let mut i: usize = 0;
    proof {
        assert(keys.deep_view() =~= Seq::<Seq<Seq<u8>>>::empty());
    }
    while i < a.len()
        invariant
            i <= a@.len(),
            av == recs_view(a@),
            av.len() == a@.len(),
            keys@.len() == i,
            forall|j: int| 0 <= j < i ==> keys.deep_view()[j] == (#[trigger] av[j]).key,
        decreases a@.len() - i,
    {
        let k = a[i].key.clone();
        proof {
            broadcast use vstd::std_specs::vec::vec_clone_deep_view_proof;

            crate::order::lemma_dv_seq(&keys);
        }
        keys.push(k);
        i = i + 1;
    }
    proof {
        crate::order::lemma_dv_seq(&keys);
        assert(keys.deep_view() =~= keys_of(av));
    }
    let ghost a_part = keys_of(av);
    let mut i: usize = 0;
    proof {
        assert(keys_of(bv).take(0) =~= Seq::<Seq<Seq<u8>>>::empty());
        assert(keys.deep_view() =~= a_part + extra_keys(av, keys_of(bv).take(0)));
    }
    while i < b.len()
        invariant
            i <= b@.len(),
            av == recs_view(a@),
            bv == recs_view(b@),
            av.len() == a@.len(),
            bv.len() == b@.len(),
            keys.deep_view() == a_part + extra_keys(av, keys_of(bv).take(i as int)),
            keys@.len() <= a@.len() + i,
            a_part == keys_of(av),
        decreases b@.len() - i,
    {
        let ghost pre = keys.deep_view();
        let found = lookup_exec(a, &b[i].key);
        proof {
            assert(b[i as int].key.deep_view() == bv[i as int].key);
            assert(keys_of(bv).take(i as int + 1).drop_last() =~= keys_of(bv).take(i as int));
            assert(keys_of(bv).take(i as int + 1).last() == bv[i as int].key);
        }
        if found.is_none() {
            let k = b[i].key.clone();
            proof {
                broadcast use vstd::std_specs::vec::vec_clone_deep_view_proof;

                crate::order::lemma_dv_seq(&keys);
            }
            keys.push(k);
            proof {
                assert(keys.deep_view() =~= pre.push(bv[i as int].key));
                assert(keys.deep_view() =~= a_part + extra_keys(av, keys_of(bv).take(i as int + 1)));
            }
        } else {
            proof {
                assert(extra_keys(av, keys_of(bv).take(i as int + 1)) =~= extra_keys(
                    av,
                    keys_of(bv).take(i as int),
                ));
            }
        }
        i = i + 1;
    }
    proof {
        assert(keys_of(bv).take(bv.len() as int) =~= keys_of(bv));
        assert(keys.deep_view() == union_keys(av, bv));
        lemma_extra_keys_len(av, keys_of(bv));
    }
    let sorted = sort_keys(&keys);
    proof {
        crate::order::lemma_key_total_ordering();
        union_keys(av, bv).lemma_sort_by_ensures(key_order());
        broadcast use vstd::seq_lib::group_to_multiset_ensures;

        crate::order::lemma_dv_seq(&sorted);
        assert(sorted@.len() == sorted.deep_view().len());
        assert(sorted.deep_view().to_multiset().len() == sorted.deep_view().len());
        assert(union_keys(av, bv).to_multiset().len() == union_keys(av, bv).len());
        assert(sorted.deep_view().to_multiset() == union_keys(av, bv).to_multiset());
    }
    sorted
}

/// Room left in the counters for `n` more keys.
pub open spec fn stats_headroom(s: StatsCounters, n: nat) -> bool {
    &&& s.rows_total_compared + n <= u64::MAX
    &&& s.rows_added + n <= u64::MAX
    &&& s.rows_removed + n <= u64::MAX
    &&& s.rows_changed + n <= u64::MAX
    &&& s.rows_unchanged + n <= u64::MAX
}

/// Diffs two indexed sides in keyed mode, appending one event per key
/// of the sorted key union (unchanged rows only on request) and moving
/// the counters accordingly.
pub fn diff_keyed_core(
    a: &Vec<SpillRecord>,
    b: &Vec<SpillRecord>,
    key_columns: &Vec<Vec<u8>>,
    compare_cols: &Vec<Vec<u8>>,
    emit_unchanged: bool,
    stats: &mut StatsCounters,
    out: &mut Vec<Event>,
)
    requires
        stats_headroom(*old(stats), a@.len() + b@.len()),
    ensures
        events_view(final(out)@) == events_view(old(out)@) + keyed_events(
            sorted_union(recs_view(a@), recs_view(b@)),
            key_columns.deep_view(),
            recs_view(a@),
            recs_view(b@),
            compare_cols.deep_view(),
            emit_unchanged,
        ),
        stats_view(*final(stats)) == stats_plus(
            stats_view(*old(stats)),
            keyed_stats(
                sorted_union(recs_view(a@), recs_view(b@)),
                recs_view(a@),
                recs_view(b@),
                compare_cols.deep_view(),
            ),
        ),
{
    let ghost av = recs_view(a@);
    let ghost bv = recs_view(b@);
    let ghost kcv = key_columns.deep_view();
    let ghost cv = compare_cols.deep_view();
    let keys = sorted_union_exec(a, b);
    let ghost kdv = keys.deep_view();
    let ghost stats0 = stats_view(*stats);
    let ghost out0 = out@;
    let mut i: usize = 0;
    proof {
        crate::order::lemma_dv_seq(&keys);
        assert(kdv.take(0) =~= Seq::<Seq<Seq<u8>>>::empty());
        assert(events_view(out@) =~= events_view(out0) + keyed_events(
            kdv.take(0),
            kcv,
            av,
            bv,
            cv,
            emit_unchanged,
        ));
        assert(stats_view(*stats) =~= stats_plus(stats0, keyed_stats(kdv.take(0), av, bv, cv)));
    }
    while i < keys.len()
        invariant
            i <= keys@.len(),
            kdv == keys.deep_view(),
            kdv.len() == keys@.len(),
            kdv.len() <= a@.len() + b@.len(),
            av == recs_view(a@),
            bv == recs_view(b@),
            kcv == key_columns.deep_view(),
            cv == compare_cols.deep_view(),
            stats_headroom(*old(stats), a@.len() + b@.len()),
            stats0 == stats_view(*old(stats)),
            out0 == old(out)@,
            events_view(out@) == events_view(out0) + keyed_events(
                kdv.take(i as int),
                kcv,
                av,
                bv,
                cv,
                emit_unchanged,
            ),
            stats_view(*stats) == stats_plus(stats0, keyed_stats(kdv.take(i as int), av, bv, cv)),
        decreases keys@.len() - i,
    {
        proof {
            assert(keys@[i as int].deep_view() == kdv[i as int]);
            lemma_keyed_stats_sums(kdv.take(i as int), av, bv, cv);
            assert(kdv.take(i as int + 1).drop_last() =~= kdv.take(i as int));
            assert(kdv.take(i as int + 1).last() == kdv[i as int]);
        }
        let ghost pre_events = events_view(out@);
        let ghost pre_stats = stats_view(*stats);
        let ghost ks = keyed_stats(kdv.take(i as int), av, bv, cv);
        let key = &keys[i];
        let oa = lookup_exec(a, key);
        let ob = lookup_exec(b, key);
        match (oa, ob) {
            (None, None) => {
                proof {
                    assert(keyed_event(
                        kdv[i as int],
                        kcv,
                        lookup(av, kdv[i as int]),
                        lookup(bv, kdv[i as int]),
                        cv,
                        emit_unchanged,
                    ) is None);
                    assert(events_view(out@) =~= events_view(out0) + keyed_events(
                        kdv.take(i as int + 1),
                        kcv,
                        av,
                        bv,
                        cv,
                        emit_unchanged,
                    ));
                }
            },
            (None, Some(rb)) => {
                let id = RowId::Key(key_pairs_exec(key_columns, key));
                let row = clone_pairs(&rb.row);
                let ev = Event::Added { id, row };
                out.push(ev);
                stats.rows_added = stats.rows_added + 1;
                proof {
                    assert(events_view(out@) =~= pre_events.push(
                        EventV::Added {
                            id: IdV::Key(key_pairs(kcv, kdv[i as int])),
                            row: rec_view(*rb).row,
                        },
                    ));
                    assert(events_view(out@) =~= events_view(out0) + keyed_events(
                        kdv.take(i as int + 1),
                        kcv,
                        av,
                        bv,
                        cv,
                        emit_unchanged,
                    ));
                    assert(stats_view(*stats) =~= stats_plus(
                        stats0,
                        keyed_stats(kdv.take(i as int + 1), av, bv, cv),
                    ));
                }
            },
            (Some(ra), None) => {
                let id = RowId::Key(key_pairs_exec(key_columns, key));
                let row = clone_pairs(&ra.row);
                let ev = Event::Removed { id, row };
                out.push(ev);
                stats.rows_removed = stats.rows_removed + 1;
                proof {
                    assert(events_view(out@) =~= pre_events.push(
                        EventV::Removed {
                            id: IdV::Key(key_pairs(kcv, kdv[i as int])),
                            row: rec_view(*ra).row,
                        },
                    ));
                    assert(events_view(out@) =~= events_view(out0) + keyed_events(
                        kdv.take(i as int + 1),
                        kcv,
                        av,
                        bv,
                        cv,
                        emit_unchanged,
                    ));
                    assert(stats_view(*stats) =~= stats_plus(
                        stats0,
                        keyed_stats(kdv.take(i as int + 1), av, bv, cv),
                    ));
                }
            },
            (Some(ra), Some(rb)) => {
                stats.rows_total_compared = stats.rows_total_compared + 1;
                let ch = changed_cols_exec(compare_cols, &ra.row, &rb.row);
                if ch.len() == 0 {
                    stats.rows_unchanged = stats.rows_unchanged + 1;
                    if emit_unchanged {
                        let id = RowId::Key(key_pairs_exec(key_columns, key));
                        let row = clone_pairs(&ra.row);
                        out.push(Event::Unchanged { id, row });
                        proof {
                            assert(events_view(out@) =~= pre_events.push(
                                EventV::Unchanged {
                                    id: IdV::Key(key_pairs(kcv, kdv[i as int])),
                                    row: rec_view(*ra).row,
                                },
                            ));
                        }
                    }
                    proof {
                        assert(changed_cols(cv, rec_view(*ra).row, rec_view(*rb).row).len() == 0);
                        if emit_unchanged {
                            assert(events_view(out@) =~= events_view(out0) + keyed_events(
                                kdv.take(i as int + 1),
                                kcv,
                                av,
                                bv,
                                cv,
                                emit_unchanged,
                            ));
                        } else {
                            assert(events_view(out@) =~= events_view(out0) + keyed_events(
                                kdv.take(i as int + 1),
                                kcv,
                                av,
                                bv,
                                cv,
                                emit_unchanged,
                            ));
                        }
                        assert(stats_view(*stats) =~= stats_plus(
                            stats0,
                            keyed_stats(kdv.take(i as int + 1), av, bv, cv),
                        ));
                    }
                } else {
                    stats.rows_changed = stats.rows_changed + 1;
                    let id = RowId::Key(key_pairs_exec(key_columns, key));
                    let before = clone_pairs(&ra.row);
                    let after = clone_pairs(&rb.row);
                    let delta = delta_exec(&ch, &ra.row, &rb.row);
                    out.push(Event::Changed { id, changed: ch, before, after, delta });
                    proof {
                        let chv = changed_cols(cv, rec_view(*ra).row, rec_view(*rb).row);
                        assert(chv.len() != 0);
                        assert(events_view(out@) =~= pre_events.push(
                            EventV::Changed {
                                id: IdV::Key(key_pairs(kcv, kdv[i as int])),
                                changed: chv,
                                before: rec_view(*ra).row,
                                after: rec_view(*rb).row,
                                delta: delta_of(chv, rec_view(*ra).row, rec_view(*rb).row),
                            },
                        ));
                        assert(events_view(out@) =~= events_view(out0) + keyed_events(
                            kdv.take(i as int + 1),
                            kcv,
                            av,
                            bv,
                            cv,
                            emit_unchanged,
                        ));
                        assert(stats_view(*stats) =~= stats_plus(
                            stats0,
                            keyed_stats(kdv.take(i as int + 1), av, bv, cv),
                        ));
                    }
                }
            },
        }
        i = i + 1;
    }
    proof {
        assert(kdv.take(keys@.len() as int) =~= kdv);
    }
}

/// The event position `i` yields in positional mode: rows are matched
/// by position, and the event cites CSV row `i + 2`.
pub open spec fn pos_event(
    i: int,
    a_header: Seq<Seq<u8>>,
    a_cells: Seq<Seq<Seq<u8>>>,
    b_header: Seq<Seq<u8>>,
    b_cells: Seq<Seq<Seq<u8>>>,
    cols: Seq<Seq<u8>>,
    emit_unchanged: bool,
) -> Option<EventV> {
    let id = IdV::Position((i + 2) as nat);
    if i < a_cells.len() && i < b_cells.len() {
        let ar = zip_pairs(a_header, a_cells[i]);
        let br = zip_pairs(b_header, b_cells[i]);
        let ch = changed_cols(cols, ar, br);
        if ch.len() == 0 {
            if emit_unchanged {
                Some(EventV::Unchanged { id, row: ar })
            } else {
                None
            }
        } else {
            Some(
                EventV::Changed {
                    id,
                    changed: ch,
                    before: ar,
                    after: br,
                    delta: delta_of(ch, ar, br),
                },
            )
        }
    } else if i < a_cells.len() {
        Some(EventV::Removed { id, row: zip_pairs(a_header, a_cells[i]) })
    } else if i < b_cells.len() {
        Some(EventV::Added { id, row: zip_pairs(b_header, b_cells[i]) })
    } else {
        None
    }
}

/// The body events of positional mode over the first `n` positions.
pub open spec fn pos_events(
    n: int,
    a_header: Seq<Seq<u8>>,
    a_cells: Seq<Seq<Seq<u8>>>,
    b_header: Seq<Seq<u8>>,
    b_cells: Seq<Seq<Seq<u8>>>,
    cols: Seq<Seq<u8>>,
    emit_unchanged: bool,
) -> Seq<EventV>
    decreases n,
{
    if n <= 0 {
        Seq::empty()
    } else {
        pos_events(n - 1, a_header, a_cells, b_header, b_cells, cols, emit_unchanged) + opt_event(
            pos_event(n - 1, a_header, a_cells, b_header, b_cells, cols, emit_unchanged),
        )
    }
}

/// How position `i` moves the counters in positional mode.
pub open spec fn pos_bump(
    st: StatsV,
    i: int,
    a_header: Seq<Seq<u8>>,
    a_cells: Seq<Seq<Seq<u8>>>,
    b_header: Seq<Seq<u8>>,
    b_cells: Seq<Seq<Seq<u8>>>,
    cols: Seq<Seq<u8>>,
) -> StatsV {
    if i < a_cells.len() && i < b_cells.len() {
        let st = StatsV { compared: st.compared + 1, ..st };
        if changed_cols(
            cols,
            zip_pairs(a_header, a_cells[i]),
            zip_pairs(b_header, b_cells[i]),
        ).len() == 0 {
            StatsV { unchanged: st.unchanged + 1, ..st }
        } else {
            StatsV { changed: st.changed + 1, ..st }
        }
    } else if i < a_cells.len() {
        StatsV { removed: st.removed + 1, ..st }
    } else if i < b_cells.len() {
        StatsV { added: st.added + 1, ..st }
    } else {
        st
    }
}

/// The counters of positional mode over the first `n` positions.
pub open spec fn pos_stats(
    n: int,
    a_header: Seq<Seq<u8>>,
    a_cells: Seq<Seq<Seq<u8>>>,
    b_header: Seq<Seq<u8>>,
    b_cells: Seq<Seq<Seq<u8>>>,
    cols: Seq<Seq<u8>>,
) -> StatsV
    decreases n,
{
    if n <= 0 {
        stats_zero()
    } else {
        pos_bump(
            pos_stats(n - 1, a_header, a_cells, b_header, b_cells, cols),
            n - 1,
            a_header,
            a_cells,
            b_header,
            b_cells,
            cols,
        )
    }
}

/// Each position moves each counter by at most one.
pub proof fn lemma_pos_stats_sums(
    n: int,
    a_header: Seq<Seq<u8>>,
    a_cells: Seq<Seq<Seq<u8>>>,
    b_header: Seq<Seq<u8>>,
    b_cells: Seq<Seq<Seq<u8>>>,
    cols: Seq<Seq<u8>>,
)
    requires
        n >= 0,
    ensures
        ({
            let st = pos_stats(n, a_header, a_cells, b_header, b_cells, cols);
            &&& st.compared + st.added + st.removed <= n
            &&& st.changed + st.unchanged == st.compared
        }),
    decreases n,
{
    if n > 0 {
        lemma_pos_stats_sums(n - 1, a_header, a_cells, b_header, b_cells, cols);
    }
}

/// The cell rows of a list of indexed rows.
pub open spec fn cells_of(rows: Seq<IndexedRow>) -> Seq<Seq<Seq<u8>>> {
    Seq::new(rows.len(), |i: int| rows[i].cells.deep_view())
}

/// Builds a row's (column, value) pairs in header order.
pub fn zip_pairs_exec(header: &Vec<Vec<u8>>, cells: &Vec<Vec<u8>>) -> (r: Vec<(Vec<u8>, Vec<u8>)>)
    ensures
        pairs_view(r@) == zip_pairs(header.deep_view(), cells.deep_view()),
{
    let mut r: Vec<(Vec<u8>, Vec<u8>)> = Vec::new();
    let mut q: usize = 0;
    while q < header.len()
        invariant
            q <= header@.len(),
            r@.len() == q,
            forall|t: int|
                0 <= t < q ==> (#[trigger] r@[t]).0@ == header.deep_view()[t] && r@[t].1@ == (
                if 0 <= t < cells.deep_view().len() {
                    cells.deep_view()[t]
                } else {
                    Seq::<u8>::empty()
                }),
        decreases header@.len() - q,
    {
        proof {
            lemma_dv_bytes(header, q as int);
            if q < cells@.len() {
                lemma_dv_bytes(cells, q as int);
            }
        }
        let name = header[q].clone();
        let value = if q < cells.len() {
            cells[q].clone()
        } else {
            Vec::new()
        };
        proof {
            broadcast use vstd::std_specs::vec::vec_clone_deep_view_proof;

            assert(name@ =~= name.deep_view());
            assert(header@[q as int]@ =~= header@[q as int].deep_view());
            assert(value@ =~= value.deep_view());
            if q < cells@.len() {
                assert(cells@[q as int]@ =~= cells@[q as int].deep_view());
            }
        }
        r.push((name, value));
        q = q + 1;
    }
    proof {
        assert(pairs_view(r@) =~= zip_pairs(header.deep_view(), cells.deep_view()));
    }
    r
}

/// Diffs two sides in positional mode, appending one event per
/// position up to the longer side's row count (unchanged rows only on
/// request) and moving the counters accordingly.
pub fn diff_positional_core(
    a_header: &Vec<Vec<u8>>,
    a_rows: &Vec<IndexedRow>,
    b_header: &Vec<Vec<u8>>,
    b_rows: &Vec<IndexedRow>,
    compare_cols: &Vec<Vec<u8>>,
    emit_unchanged: bool,
    stats: &mut StatsCounters,
    out: &mut Vec<Event>,
)
    requires
        stats_headroom(*old(stats), a_rows@.len() + b_rows@.len()),
        a_rows@.len() + 2 <= usize::MAX,
        b_rows@.len() + 2 <= usize::MAX,
    ensures
        ({
            let n = if a_rows@.len() >= b_rows@.len() {
                a_rows@.len() as int
            } else {
                b_rows@.len() as int
            };
            &&& events_view(final(out)@) == events_view(old(out)@) + pos_events(
                n,
                a_header.deep_view(),
                cells_of(a_rows@),
                b_header.deep_view(),
                cells_of(b_rows@),
                compare_cols.deep_view(),
                emit_unchanged,
            )
            &&& stats_view(*final(stats)) == stats_plus(
                stats_view(*old(stats)),
                pos_stats(
                    n,
                    a_header.deep_view(),
                    cells_of(a_rows@),
                    b_header.deep_view(),
                    cells_of(b_rows@),
                    compare_cols.deep_view(),
                ),
            )
        }),
{
    let ghost ah = a_header.deep_view();
    let ghost bh = b_header.deep_view();
    let ghost cv = compare_cols.deep_view();
    let ghost stats0 = stats_view(*stats);
    let ghost out0 = out@;
    let n = if a_rows.len() >= b_rows.len() {
        a_rows.len()
    } else {
        b_rows.len()
    };
    let mut i: usize = 0;
    proof {
        assert(events_view(out@) =~= events_view(out0) + pos_events(
            0,
            ah,
            cells_of(a_rows@),
            bh,
            cells_of(b_rows@),
            cv,
            emit_unchanged,
        ));
        assert(stats_view(*stats) =~= stats_plus(
            stats0,
            pos_stats(0, ah, cells_of(a_rows@), bh, cells_of(b_rows@), cv),
        ));
    }
    while i < n
        invariant
            i <= n,
            n == (if a_rows@.len() >= b_rows@.len() {
                a_rows@.len() as int
            } else {
                b_rows@.len() as int
            }),
            n <= a_rows@.len() + b_rows@.len(),
            a_rows@.len() + 2 <= usize::MAX,
            b_rows@.len() + 2 <= usize::MAX,
            ah == a_header.deep_view(),
            bh == b_header.deep_view(),
            cv == compare_cols.deep_view(),
            stats_headroom(*old(stats), a_rows@.len() + b_rows@.len()),
            stats0 == stats_view(*old(stats)),
            out0 == old(out)@,
            events_view(out@) == events_view(out0) + pos_events(
                i as int,
                ah,
                cells_of(a_rows@),
                bh,
                cells_of(b_rows@),
                cv,
                emit_unchanged,
            ),
            stats_view(*stats) == stats_plus(
                stats0,
                pos_stats(i as int, ah, cells_of(a_rows@), bh, cells_of(b_rows@), cv),
            ),
        decreases n - i,
    {
        proof {
            lemma_pos_stats_sums(i as int, ah, cells_of(a_rows@), bh, cells_of(b_rows@), cv);
        }
        let ghost pre_events = events_view(out@);
        let in_a = i < a_rows.len();
        let in_b = i < b_rows.len();
        if in_a && in_b {
            stats.rows_total_compared = stats.rows_total_compared + 1;
            let ar = zip_pairs_exec(a_header, &a_rows[i].cells);
            let br = zip_pairs_exec(b_header, &b_rows[i].cells);
            let ch = changed_cols_exec(compare_cols, &ar, &br);
            if ch.len() == 0 {
                stats.rows_unchanged = stats.rows_unchanged + 1;
                if emit_unchanged {
                    out.push(Event::Unchanged { id: RowId::Position(i + 2), row: ar });
                    proof {
                        assert(events_view(out@) =~= pre_events.push(
                            EventV::Unchanged {
                                id: IdV::Position((i + 2) as nat),
                                row: zip_pairs(ah, a_rows@[i as int].cells.deep_view()),
                            },
                        ));
                    }
                }
            } else {
                stats.rows_changed = stats.rows_changed + 1;
                let delta = delta_exec(&ch, &ar, &br);
                out.push(
                    Event::Changed {
                        id: RowId::Position(i + 2),
                        changed: ch,
                        before: ar,
                        after: br,
                        delta,
                    },
                );
                proof {
                    let arv = zip_pairs(ah, a_rows@[i as int].cells.deep_view());
                    let brv = zip_pairs(bh, b_rows@[i as int].cells.deep_view());
                    let chv = changed_cols(cv, arv, brv);
                    assert(events_view(out@) =~= pre_events.push(
                        EventV::Changed {
                            id: IdV::Position((i + 2) as nat),
                            changed: chv,
                            before: arv,
                            after: brv,
                            delta: delta_of(chv, arv, brv),
                        },
                    ));
                }
            }
        } else if in_a {
            stats.rows_removed = stats.rows_removed + 1;
            let ar = zip_pairs_exec(a_header, &a_rows[i].cells);
            out.push(Event::Removed { id: RowId::Position(i + 2), row: ar });
            proof {
                assert(events_view(out@) =~= pre_events.push(
                    EventV::Removed {
                        id: IdV::Position((i + 2) as nat),
                        row: zip_pairs(ah, a_rows@[i as int].cells.deep_view()),
                    },
                ));
            }
        } else {
            proof {
                assert(i < b_rows@.len());
            }
            stats.rows_added = stats.rows_added + 1;
            let br = zip_pairs_exec(b_header, &b_rows[i].cells);
            out.push(Event::Added { id: RowId::Position(i + 2), row: br });
            proof {
                assert(events_view(out@) =~= pre_events.push(
                    EventV::Added {
                        id: IdV::Position((i + 2) as nat),
                        row: zip_pairs(bh, b_rows@[i as int].cells.deep_view()),
                    },
                ));
            }
        }
        proof {
            assert(events_view(out@) =~= events_view(out0) + pos_events(
                i as int + 1,
                ah,
                cells_of(a_rows@),
                bh,
                cells_of(b_rows@),
                cv,
                emit_unchanged,
            ));
            assert(stats_view(*stats) =~= stats_plus(
                stats0,
                pos_stats(i as int + 1, ah, cells_of(a_rows@), bh, cells_of(b_rows@), cv),
            ));
        }
        i = i + 1;
    }
}

/// Whether one input reads cleanly: it lexes, has a header record, no
/// duplicate column name, and all data rows match the header's width.
pub open spec fn side_read_ok(bytes: Seq<u8>) -> bool {
    &&& csv_lex(bytes) is Ok
    &&& csv_lex(bytes)->Ok_0.len() > 0
    &&& !has_dup(strip_bom(csv_lex(bytes)->Ok_0[0]))
    &&& widths_ok(csv_lex(bytes)->Ok_0, strip_bom(csv_lex(bytes)->Ok_0[0]).len())
}

/// The error code a failed read yields, by the first failing check.
pub open spec fn side_err_code(bytes: Seq<u8>) -> Seq<char> {
    if csv_lex(bytes) is Err {
        "csv_parse_error"@
    } else if csv_lex(bytes)->Ok_0.len() == 0 {
        "empty_file"@
    } else if has_dup(strip_bom(csv_lex(bytes)->Ok_0[0])) {
        "duplicate_column_name"@
    } else {
        "row_width_mismatch"@
    }
}

/// One input's header, byte-order mark stripped.
pub open spec fn side_header(bytes: Seq<u8>) -> Seq<Seq<u8>> {
    strip_bom(csv_lex(bytes)->Ok_0[0])
}

/// One input's data rows, as cell lists.
pub open spec fn side_cells(bytes: Seq<u8>) -> Seq<Seq<Seq<u8>>> {
    let recs = csv_lex(bytes)->Ok_0;
    Seq::new((recs.len() - 1) as nat, |i: int| recs[i + 1])
}

/// One input's records in keyed mode: data row `i` is CSV row `i + 2`.
pub open spec fn side_recs_spec(bytes: Seq<u8>, kc: Seq<Seq<u8>>) -> Seq<RecV> {
    let h = side_header(bytes);
    let c = side_cells(bytes);
    Seq::new(
        c.len(),
        |i: int|
            RecV {
                key: key_of(h, kc, c[i]),
                row_index: (i + 2) as nat,
                row: zip_pairs(h, c[i]),
            },
    )
}

/// Whether the two headers reconcile under the given mode.
pub open spec fn headers_ok(ha: Seq<Seq<u8>>, hb: Seq<Seq<u8>>, sorted_mode: bool) -> bool {
    if sorted_mode {
        ha.to_multiset() == hb.to_multiset()
    } else {
        ha == hb
    }
}

/// The comparison-column list of a reconciled pair of headers.
pub open spec fn cols_spec(ha: Seq<Seq<u8>>, sorted_mode: bool) -> Seq<Seq<u8>> {
    if sorted_mode {
        ha.sort_by(bytes_order())
    } else {
        ha
    }
}

/// Whether every key column occurs in the header.
pub open spec fn keys_present(h: Seq<Seq<u8>>, kc: Seq<Seq<u8>>) -> bool {
    forall|j: int| 0 <= j < kc.len() ==> has_col(h, #[trigger] kc[j])
}

/// Whether record `i` has an empty key value.
pub open spec fn srec_missing(recs: Seq<RecV>, i: int) -> bool {
    exists|j: int| 0 <= j < recs[i].key.len() && recs[i].key[j].len() == 0
}

/// Whether record `i` repeats an earlier record's key.
pub open spec fn srec_dup(recs: Seq<RecV>, i: int) -> bool {
    exists|p: int| 0 <= p < i && (#[trigger] recs[p]).key == recs[i].key
}

/// Whether record `i` is rejected in keyed mode.
pub open spec fn srec_bad(recs: Seq<RecV>, i: int) -> bool {
    srec_missing(recs, i) || srec_dup(recs, i)
}

/// The first rejected record at or after `i`, or `-1`.
pub open spec fn first_bad_from(recs: Seq<RecV>, i: int) -> int
    decreases recs.len() - i,
{
    if i < 0 || i >= recs.len() {
        -1
    } else if srec_bad(recs, i) {
        i
    } else {
        first_bad_from(recs, i + 1)
    }
}

pub proof fn lemma_first_bad_is(recs: Seq<RecV>, w: int)
    requires
        0 <= w < recs.len(),
        srec_bad(recs, w),
        forall|p: int| 0 <= p < w ==> !srec_bad(recs, p),
    ensures
        first_bad_from(recs, 0) == w,
{
    lemma_first_bad_from(recs, 0);
    let fb = first_bad_from(recs, 0);
    if fb == -1 {
        assert(!srec_bad(recs, w));
    } else if fb < w {
        assert(!srec_bad(recs, fb));
    } else if fb > w {
        assert(!srec_bad(recs, w));
    }
}

pub proof fn lemma_first_bad_from(recs: Seq<RecV>, i: int)
    requires
        0 <= i <= recs.len(),
    ensures
        first_bad_from(recs, i) == -1 ==> forall|j: int| i <= j < recs.len() ==> !srec_bad(recs, j),
        first_bad_from(recs, i) != -1 ==> i <= first_bad_from(recs, i) < recs.len() && srec_bad(
            recs,
            first_bad_from(recs, i),
        ) && forall|j: int| i <= j < first_bad_from(recs, i) ==> !srec_bad(recs, j),
    decreases recs.len() - i,
{
    if i < recs.len() && !srec_bad(recs, i) {
        lemma_first_bad_from(recs, i + 1);
    }
}

/// The stats event of a counter set.
pub open spec fn stats_event(st: StatsV) -> EventV {
    EventV::Stats {
        rows_total_compared: st.compared,
        rows_added: st.added,
        rows_removed: st.removed,
        rows_changed: st.changed,
        rows_unchanged: st.unchanged,
    }
}

/// What diffing two byte buffers yields: the full event sequence
/// (schema first, body events, stats last), or the code of the first
/// failing check.
pub open spec fn diff_spec(
    a_bytes: Seq<u8>,
    b_bytes: Seq<u8>,
    kc: Seq<Seq<u8>>,
    sorted_mode: bool,
    emit_unchanged: bool,
) -> Result<Seq<EventV>, Seq<char>> {
    if !side_read_ok(a_bytes) {
        Err(side_err_code(a_bytes))
    } else if !side_read_ok(b_bytes) {
        Err(side_err_code(b_bytes))
    } else {
        let ha = side_header(a_bytes);
        let hb = side_header(b_bytes);
        if !headers_ok(ha, hb, sorted_mode) {
            Err("header_mismatch"@)
        } else {
            let cols = cols_spec(ha, sorted_mode);
            let schema = EventV::Schema { columns_a: ha, columns_b: hb };
            if kc.len() == 0 {
                let ac = side_cells(a_bytes);
                let bc = side_cells(b_bytes);
                let n = if ac.len() >= bc.len() {
                    ac.len() as int
                } else {
                    bc.len() as int
                };
                Ok(
                    seq![schema] + pos_events(n, ha, ac, hb, bc, cols, emit_unchanged) + seq![
                        stats_event(pos_stats(n, ha, ac, hb, bc, cols)),
                    ],
                )
            } else if !(keys_present(ha, kc) && keys_present(hb, kc)) {
                Err("missing_key_column"@)
            } else {
                let ra = side_recs_spec(a_bytes, kc);
                let rb = side_recs_spec(b_bytes, kc);
                if first_bad_from(ra, 0) >= 0 {
                    Err(
                        if srec_missing(ra, first_bad_from(ra, 0)) {
                            "missing_key_value"@
                        } else {
                            "duplicate_key"@
                        },
                    )
                } else if first_bad_from(rb, 0) >= 0 {
                    Err(
                        if srec_missing(rb, first_bad_from(rb, 0)) {
                            "missing_key_value"@
                        } else {
                            "duplicate_key"@
                        },
                    )
                } else {
                    Ok(
                        seq![schema] + keyed_events(
                            sorted_union(ra, rb),
                            kc,
                            ra,
                            rb,
                            cols,
                            emit_unchanged,
                        ) + seq![
                            stats_event(keyed_stats(sorted_union(ra, rb), ra, rb, cols)),
                        ],
                    )
                }
            }
        }
    }
}

/// Builds the stats event of the final counters.
pub fn stats_event_exec(stats: &StatsCounters) -> (e: Event)
    ensures
        event_view(e) == stats_event(stats_view(*stats)),
{
    Event::Stats {
        rows_total_compared: stats.rows_total_compared,
        rows_added: stats.rows_added,
        rows_removed: stats.rows_removed,
        rows_changed: stats.rows_changed,
        rows_unchanged: stats.rows_unchanged,
    }
}

/// Relates one read side's records to the spec pipeline.
pub proof fn lemma_side_recs_bridge(
    bytes: Seq<u8>,
    kc: Seq<Seq<u8>>,
    header_dv: Seq<Seq<u8>>,
    rows: Seq<IndexedRow>,
)
    requires
        side_read_ok(bytes),
        header_dv == side_header(bytes),
        rows.len() == side_cells(bytes).len(),
        forall|i: int|
            0 <= i < rows.len() ==> (#[trigger] rows[i]).row_index == i + 2
                && rows[i].cells.deep_view() == side_cells(bytes)[i],
    ensures
        side_recs(header_dv, kc, rows) =~= side_recs_spec(bytes, kc),
        cells_of(rows) =~= side_cells(bytes),
{
}

/// Diffs two CSV byte buffers under the given options, yielding the
/// full event sequence: one `schema` event, the body events in
/// deterministic order, and one `stats` event.  Every failing input is
/// rejected with the code of the first failing check, as `diff_spec`
/// lays them out.
pub fn diff_csv_bytes(a_bytes: &[u8], b_bytes: &[u8], options: &DiffOptions) -> (r: Result<
    Vec<Event>,
    DiffError,
>)
    ensures
        ({
            let spec_r = diff_spec(
                a_bytes@,
                b_bytes@,
                options.key_columns.deep_view(),
                options.header_mode is Sorted,
                options.emit_unchanged,
            );
            &&& spec_r matches Ok(evs) ==> (r matches Ok(v) && events_view(v@) == evs)
            &&& spec_r matches Err(code) ==> (r matches Err(e) && e.code@ == code)
            &&& (!side_read_ok(a_bytes@) ==> (r matches Err(e) && e.message@
                == crate::csv::side_err_msg(a_bytes@, Side::A)))
            &&& (side_read_ok(a_bytes@) && !side_read_ok(b_bytes@) ==> (r matches Err(e)
                && e.message@ == crate::csv::side_err_msg(b_bytes@, Side::B)))
            &&& ({
                let sorted_mode = options.header_mode is Sorted;
                side_read_ok(a_bytes@) && side_read_ok(b_bytes@) && !headers_ok(
                    side_header(a_bytes@),
                    side_header(b_bytes@),
                    sorted_mode,
                ) ==> (r matches Err(e) && e.message@ == crate::error::msg_header_mismatch(
                    sorted_mode,
                ))
            })
            &&& ({
                let kc = options.key_columns.deep_view();
                let sorted_mode = options.header_mode is Sorted;
                kc.len() > 0 && side_read_ok(a_bytes@) && side_read_ok(b_bytes@) && headers_ok(
                    side_header(a_bytes@),
                    side_header(b_bytes@),
                    sorted_mode,
                ) && !(keys_present(side_header(a_bytes@), kc) && keys_present(
                    side_header(b_bytes@),
                    kc,
                )) ==> (r matches Err(e) && e.message@ == crate::error::msg_missing_key_column(
                    kc[crate::header::first_absent_col(
                        side_header(a_bytes@),
                        side_header(b_bytes@),
                        kc,
                        0,
                    )],
                ))
            })
            &&& ({
                let kc = options.key_columns.deep_view();
                let sorted_mode = options.header_mode is Sorted;
                kc.len() > 0 && side_read_ok(a_bytes@) && side_read_ok(b_bytes@) && headers_ok(
                    side_header(a_bytes@),
                    side_header(b_bytes@),
                    sorted_mode,
                ) && keys_present(side_header(a_bytes@), kc) && keys_present(
                    side_header(b_bytes@),
                    kc,
                ) ==> {
                    let ra = side_recs_spec(a_bytes@, kc);
                    let rb = side_recs_spec(b_bytes@, kc);
                    &&& (first_bad_from(ra, 0) >= 0 ==> (r matches Err(e) && e.message@
                        == keyed_reject_msg(ra, kc, Side::A)))
                    &&& (first_bad_from(ra, 0) == -1 && first_bad_from(rb, 0) >= 0 ==> (
                    r matches Err(e) && e.message@ == keyed_reject_msg(rb, kc, Side::B)))
                }
            })
        }),
{
    let ghost kc = options.key_columns.deep_view();
    let ghost sorted_mode = options.header_mode is Sorted;
    let (a_header, a_rows) = match read_csv_bytes(a_bytes, Side::A) {
        Ok(x) => x,
        Err(e) => {
            proof {
                if side_read_ok(a_bytes@) {
                    let recs = csv_lex(a_bytes@)->Ok_0;
                    assert(recs.len() > 0 && !has_dup(strip_bom(recs[0])) && widths_ok(
                        recs,
                        strip_bom(recs[0]).len(),
                    ));
                    assert(false);
                }
            }
            return Err(e);
        },
    };
    let (b_header, b_rows) = match read_csv_bytes(b_bytes, Side::B) {
        Ok(x) => x,
        Err(e) => {
            proof {
                if side_read_ok(b_bytes@) {
                    let recs = csv_lex(b_bytes@)->Ok_0;
                    assert(recs.len() > 0 && !has_dup(strip_bom(recs[0])) && widths_ok(
                        recs,
                        strip_bom(recs[0]).len(),
                    ));
                    assert(false);
                }
            }
            return Err(e);
        },
    };
    let a_len = a_bytes.len();
    let b_len = b_bytes.len();
    proof {
        assert(side_read_ok(a_bytes@));
        assert(side_read_ok(b_bytes@));
        assert(a_header.deep_view() == side_header(a_bytes@));
        assert(b_header.deep_view() == side_header(b_bytes@));
        lemma_side_recs_bridge(a_bytes@, kc, a_header.deep_view(), a_rows@);
        lemma_side_recs_bridge(b_bytes@, kc, b_header.deep_view(), b_rows@);
        lemma_csv_lex_len(a_bytes@);
        lemma_csv_lex_len(b_bytes@);
        assert(2 * a_rows@.len() <= a_len);
        assert(2 * b_rows@.len() <= b_len);
    }
    let sorted_mode_exec = match options.header_mode {
        HeaderMode::Strict => false,
        HeaderMode::Sorted => true,
    };
    let cols = match comparison_columns(&a_header, &b_header, sorted_mode_exec) {
        Ok(c) => c,
        Err(e) => {
            return Err(e);
        },
    };
    proof {
        assert(cols.deep_view() == cols_spec(side_header(a_bytes@), sorted_mode));
        assert(headers_ok(side_header(a_bytes@), side_header(b_bytes@), sorted_mode));
    }
    let schema = Event::Schema { columns_a: a_header.clone(), columns_b: b_header.clone() };
    proof {
        broadcast use vstd::std_specs::vec::vec_clone_deep_view_proof;

        assert(event_view(schema) == EventV::Schema {
            columns_a: side_header(a_bytes@),
            columns_b: side_header(b_bytes@),
        });
    }
    let mut out: Vec<Event> = Vec::new();
    out.push(schema);
    let mut stats = StatsCounters::new();
    if options.key_columns.len() == 0 {
        proof {
            assert(events_view(out@) =~= seq![
                EventV::Schema {
                    columns_a: side_header(a_bytes@),
                    columns_b: side_header(b_bytes@),
                },
            ]);
        }
        diff_positional_core(
            &a_header,
            &a_rows,
            &b_header,
            &b_rows,
            &cols,
            options.emit_unchanged,
            &mut stats,
            &mut out,
        );
        let stats_ev = stats_event_exec(&stats);
        let ghost pre = events_view(out@);
        out.push(stats_ev);
        proof {
            assert(events_view(out@) =~= pre.push(event_view(stats_ev)));
            let spec_r = diff_spec(a_bytes@, b_bytes@, kc, sorted_mode, options.emit_unchanged);
            assert(events_view(out@) =~= spec_r->Ok_0);
        }
        Ok(out)
    } else {
        match check_key_columns(&options.key_columns, &a_header, &b_header) {
            Ok(_) => {},
            Err(e) => {
                return Err(e);
            },
        }
        let recs_a = match index_rows(&a_rows, &a_header, &options.key_columns, Side::A) {
            Ok(x) => x,
            Err(e) => {
                proof {
                    let ra = side_recs_spec(a_bytes@, kc);
                    assert forall|i: int| 0 <= i < a_rows@.len() implies (row_bad(
                        a_header.deep_view(),
                        kc,
                        a_rows@,
                        i,
                    ) == srec_bad(ra, i)) && (row_missing_key(
                        a_header.deep_view(),
                        kc,
                        a_rows@,
                        i,
                    ) == srec_missing(ra, i)) by {
                        lemma_srec_bridge(a_bytes@, kc, a_header.deep_view(), a_rows@, i);
                    }
                    lemma_first_bad_from(ra, 0);
                    let h = a_header.deep_view();
                    let w = choose|i: int|
                        {
                            &&& 0 <= i < a_rows@.len()
                            &&& #[trigger] row_bad(h, kc, a_rows@, i)
                            &&& forall|p: int| 0 <= p < i ==> !row_bad(h, kc, a_rows@, p)
                            &&& if row_missing_key(h, kc, a_rows@, i) {
                                &&& e.code@ == "missing_key_value"@
                                &&& e.message@ == msg_missing_key_value(
                                    Side::A,
                                    a_rows@[i].row_index as nat,
                                    kc[first_empty_col(
                                        key_of(h, kc, a_rows@[i].cells.deep_view()),
                                        0,
                                    )],
                                )
                            } else {
                                &&& e.code@ == "duplicate_key"@
                                &&& e.message@ == msg_duplicate_key(
                                    Side::A,
                                    lookup(
                                        side_recs(h, kc, a_rows@).take(i),
                                        key_of(h, kc, a_rows@[i].cells.deep_view()),
                                    )->Some_0.row_index,
                                    a_rows@[i].row_index as nat,
                                )
                            }
                        };
                    lemma_first_bad_is(ra, w);
                    assert(side_recs(h, kc, a_rows@) == ra);
                    assert(ra[w] == row_rec(h, kc, a_rows@[w]));
                    assert(e.message@ == keyed_reject_msg(ra, kc, Side::A));
                }
                return Err(e);
            },
        };
        let recs_b = match index_rows(&b_rows, &b_header, &options.key_columns, Side::B) {
            Ok(x) => x,
            Err(e) => {
                proof {
                    let ra = side_recs_spec(a_bytes@, kc);
                    let rb = side_recs_spec(b_bytes@, kc);
                    assert forall|i: int| 0 <= i < a_rows@.len() implies !srec_bad(ra, i) by {
                        lemma_srec_bridge(a_bytes@, kc, a_header.deep_view(), a_rows@, i);
                    }
                    lemma_first_bad_from(ra, 0);
                    assert(first_bad_from(ra, 0) == -1);
                    assert forall|i: int| 0 <= i < b_rows@.len() implies (row_bad(
                        b_header.deep_view(),
                        kc,
                        b_rows@,
                        i,
                    ) == srec_bad(rb, i)) && (row_missing_key(
                        b_header.deep_view(),
                        kc,
                        b_rows@,
                        i,
                    ) == srec_missing(rb, i)) by {
                        lemma_srec_bridge(b_bytes@, kc, b_header.deep_view(), b_rows@, i);
                    }
                    lemma_first_bad_from(rb, 0);
                    let h = b_header.deep_view();
                    let w = choose|i: int|
                        {
                            &&& 0 <= i < b_rows@.len()
                            &&& #[trigger] row_bad(h, kc, b_rows@, i)
                            &&& forall|p: int| 0 <= p < i ==> !row_bad(h, kc, b_rows@, p)
                            &&& if row_missing_key(h, kc, b_rows@, i) {
                                &&& e.code@ == "missing_key_value"@
                                &&& e.message@ == msg_missing_key_value(
                                    Side::B,
                                    b_rows@[i].row_index as nat,
                                    kc[first_empty_col(
                                        key_of(h, kc, b_rows@[i].cells.deep_view()),
                                        0,
                                    )],
                                )
                            } else {
                                &&& e.code@ == "duplicate_key"@
                                &&& e.message@ == msg_duplicate_key(
                                    Side::B,
                                    lookup(
                                        side_recs(h, kc, b_rows@).take(i),
                                        key_of(h, kc, b_rows@[i].cells.deep_view()),
                                    )->Some_0.row_index,
                                    b_rows@[i].row_index as nat,
                                )
                            }
                        };
                    lemma_first_bad_is(rb, w);
                    assert(side_recs(h, kc, b_rows@) == rb);
                    assert(rb[w] == row_rec(h, kc, b_rows@[w]));
                    assert(e.message@ == keyed_reject_msg(rb, kc, Side::B));
                }
                return Err(e);
            },
        };
        proof {
            let ra = side_recs_spec(a_bytes@, kc);
            let rb = side_recs_spec(b_bytes@, kc);
            assert forall|i: int| 0 <= i < a_rows@.len() implies !srec_bad(ra, i) by {
                lemma_srec_bridge(a_bytes@, kc, a_header.deep_view(), a_rows@, i);
            }
            assert forall|i: int| 0 <= i < b_rows@.len() implies !srec_bad(rb, i) by {
                lemma_srec_bridge(b_bytes@, kc, b_header.deep_view(), b_rows@, i);
            }
            lemma_first_bad_from(ra, 0);
            lemma_first_bad_from(rb, 0);
            assert(first_bad_from(ra, 0) == -1);
            assert(first_bad_from(rb, 0) == -1);
            assert(recs_view(recs_a@) =~= ra) by {
                assert forall|i: int| 0 <= i < recs_a@.len() implies recs_view(recs_a@)[i] == ra[i]
                    by {
                    assert(rec_view(recs_a@[i]) == row_rec(a_header.deep_view(), kc, a_rows@[i]));
                }
            }
            assert(recs_view(recs_b@) =~= rb) by {
                assert forall|i: int| 0 <= i < recs_b@.len() implies recs_view(recs_b@)[i] == rb[i]
                    by {
                    assert(rec_view(recs_b@[i]) == row_rec(b_header.deep_view(), kc, b_rows@[i]));
                }
            }
            assert(events_view(out@) =~= seq![
                EventV::Schema {
                    columns_a: side_header(a_bytes@),
                    columns_b: side_header(b_bytes@),
                },
            ]);
        }
        diff_keyed_core(
            &recs_a,
            &recs_b,
            &options.key_columns,
            &cols,
            options.emit_unchanged,
            &mut stats,
            &mut out,
        );
        let stats_ev = stats_event_exec(&stats);
        let ghost pre = events_view(out@);
        out.push(stats_ev);
        proof {
            assert(events_view(out@) =~= pre.push(event_view(stats_ev)));
            let spec_r = diff_spec(a_bytes@, b_bytes@, kc, sorted_mode, options.emit_unchanged);
            assert(events_view(out@) =~= spec_r->Ok_0);
        }
        Ok(out)
    }
}

/// Relates one row's badness under the exec pipeline to the spec
/// pipeline.
pub proof fn lemma_srec_bridge(
    bytes: Seq<u8>,
    kc: Seq<Seq<u8>>,
    header_dv: Seq<Seq<u8>>,
    rows: Seq<IndexedRow>,
    i: int,
)
    requires
        side_read_ok(bytes),
        header_dv == side_header(bytes),
        rows.len() == side_cells(bytes).len(),
        forall|p: int|
            0 <= p < rows.len() ==> (#[trigger] rows[p]).row_index == p + 2
                && rows[p].cells.deep_view() == side_cells(bytes)[p],
        0 <= i < rows.len(),
    ensures
        row_bad(header_dv, kc, rows, i) == srec_bad(side_recs_spec(bytes, kc), i),
        row_missing_key(header_dv, kc, rows, i) == srec_missing(side_recs_spec(bytes, kc), i),
        row_dup_key(header_dv, kc, rows, i) == srec_dup(side_recs_spec(bytes, kc), i),
{
    let ra = side_recs_spec(bytes, kc);
    assert forall|p: int| 0 <= p < rows.len() implies (#[trigger] ra[p]).key == key_of(
        header_dv,
        kc,
        rows[p].cells.deep_view(),
    ) by {}
    assert(row_missing_key(header_dv, kc, rows, i) == srec_missing(ra, i)) by {
        if row_missing_key(header_dv, kc, rows, i) {
            let j = choose|j: int|
                0 <= j < kc.len() && key_of(header_dv, kc, rows[i].cells.deep_view())[j].len()
                    == 0;
            assert(ra[i].key[j].len() == 0);
        }
        if srec_missing(ra, i) {
            let j = choose|j: int| 0 <= j < ra[i].key.len() && ra[i].key[j].len() == 0;
            assert(key_of(header_dv, kc, rows[i].cells.deep_view())[j].len() == 0);
        }
    }
    assert(row_dup_key(header_dv, kc, rows, i) == srec_dup(ra, i)) by {
        if row_dup_key(header_dv, kc, rows, i) {
            let p = choose|p: int|
                0 <= p < i && key_of(header_dv, kc, (#[trigger] rows[p]).cells.deep_view())
                    == key_of(header_dv, kc, rows[i].cells.deep_view());
            assert(ra[p].key == ra[i].key);
        }
        if srec_dup(ra, i) {
            let p = choose|p: int| 0 <= p < i && (#[trigger] ra[p]).key == ra[i].key;
            assert(key_of(header_dv, kc, rows[p].cells.deep_view()) == key_of(
                header_dv,
                kc,
                rows[i].cells.deep_view(),
            ));
        }
    }
}

} // verus!

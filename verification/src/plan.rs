//! The partition planner and the partitioned diff.
//!
//! In keyed mode a run may be split into partitions: every record is
//! routed to the partition its key hashes to, and each partition is
//! then diffed on its own, in ascending partition order, with keys
//! sorted within each partition.  Partitioning bounds the working set;
//! it never changes which body events are emitted, only their grouping.

use vstd::prelude::*;
use vstd::pervasive::VecAdditionalExecFns;
use crate::csv::{IndexedRow, read_csv_bytes, csv_lex, widths_ok};
use crate::diff::{check_duplicates, diff_keyed_core, keyed_events, keyed_stats, key_of,
    zip_pairs, row_rec, row_missing_key, lemma_keyed_stats_sums, sorted_union, stats_event,
    StatsCounters, StatsV, stats_view, stats_zero, stats_plus, side_read_ok, side_header,
    side_recs_spec, headers_ok, cols_spec, keys_present, recs_unique, srec_missing,
    lemma_srec_bridge};
use crate::error::{DiffError, EngineError, Side, err_missing_key_value};
use crate::hash::{key_hash, partition_for_key};
use crate::header::{check_key_columns, comparison_columns, has_col, has_dup, strip_bom, find_col};
use crate::options::DiffOptions;
use crate::order::lemma_dv_bytes;
use crate::records::{SpillRecord, RecV, Event, EventV, rec_view, recs_view, event_view,
    events_view};

verus! {

/// The partition a record's key routes to.
pub open spec fn part_of(r: RecV, partitions: nat) -> int {
    key_hash(r.key) as int % (if partitions == 0 {
        1int
    } else {
        partitions as int
    })
}

/// The records of one side that route to partition `p`, in encounter
/// order.
pub open spec fn part_filter(recs: Seq<RecV>, partitions: nat, p: int) -> Seq<RecV>
    decreases recs.len(),
{
    if recs.len() == 0 {
        Seq::empty()
    } else {
        part_filter(recs.drop_last(), partitions, p) + (if part_of(recs.last(), partitions) == p {
            seq![recs.last()]
        } else {
            Seq::empty()
        })
    }
}

/// The views of a list of partitions.
pub open spec fn parts_view(parts: Seq<Vec<SpillRecord>>) -> Seq<Seq<RecV>> {
    Seq::new(parts.len(), |p: int| recs_view(parts[p]@))
}

/// The in-memory plan of a partitioned run: headers, comparison
/// columns, per-side row counts, and each side's records grouped by
/// partition.
#[derive(Debug)]
pub struct PartitionManifest {
    pub columns_a: Vec<Vec<u8>>,
    pub columns_b: Vec<Vec<u8>>,
    pub compare_columns: Vec<Vec<u8>>,
    pub row_count_a: usize,
    pub row_count_b: usize,
    pub partition_rows_a: Vec<usize>,
    pub partition_rows_b: Vec<usize>,
    pub parts_a: Vec<Vec<SpillRecord>>,
    pub parts_b: Vec<Vec<SpillRecord>>,
}

/// Copies a record field by field.
fn clone_record(rec: &SpillRecord) -> (r: SpillRecord)
    ensures
        rec_view(r) == rec_view(*rec),
{
    let key = rec.key.clone();
    proof {
        broadcast use vstd::std_specs::vec::vec_clone_deep_view_proof;

    }
    let row = crate::diff::clone_pairs(&rec.row);
    SpillRecord { key, row_index: rec.row_index, row }
}

/// Routes one side's records into partitions, keeping encounter order
/// within each partition, and counts the rows per partition.
fn route_side(recs: &Vec<SpillRecord>, partitions: usize) -> (r: (
    Vec<Vec<SpillRecord>>,
    Vec<usize>,
))
    requires
        partitions >= 1,
    ensures
        r.0@.len() == partitions,
        r.1@.len() == partitions,
        forall|p: int|
            0 <= p < partitions ==> parts_view(r.0@)[p] == part_filter(
                recs_view(recs@),
                partitions as nat,
                p,
            ),
        forall|p: int|
            0 <= p < partitions ==> (#[trigger] r.1@[p]) as nat == part_filter(
                recs_view(recs@),
                partitions as nat,
                p,
            ).len(),
{
    let ghost rv = recs_view(recs@);
    let mut parts: Vec<Vec<SpillRecord>> = Vec::new();
    let mut counts: Vec<usize> = Vec::new();
    let mut p: usize = 0;
    while p < partitions
        invariant
            p <= partitions,
            parts@.len() == p,
            counts@.len() == p,
            forall|q: int| 0 <= q < p ==> (#[trigger] parts@[q])@.len() == 0,
            forall|q: int| 0 <= q < p ==> (#[trigger] counts@[q]) == 0,
        decreases partitions - p,
    {
        parts.push(Vec::new());
        counts.push(0);
        p = p + 1;
    }
    let mut i: usize = 0;
    proof {
        assert forall|q: int| 0 <= q < partitions implies parts_view(parts@)[q] =~= part_filter(
            rv.take(0),
            partitions as nat,
            q,
        ) by {
            assert(rv.take(0) =~= Seq::<RecV>::empty());
            assert(recs_view(parts@[q]@) =~= Seq::<RecV>::empty());
        }
    }
    while i < recs.len()
        invariant
            i <= recs@.len(),
            rv == recs_view(recs@),
            rv.len() == recs@.len(),
            parts@.len() == partitions,
            counts@.len() == partitions,
            partitions >= 1,
            forall|q: int|
                0 <= q < partitions ==> parts_view(parts@)[q] == part_filter(
                    rv.take(i as int),
                    partitions as nat,
                    q,
                ),
            forall|q: int|
                0 <= q < partitions ==> (#[trigger] counts@[q]) as nat == part_filter(
                    rv.take(i as int),
                    partitions as nat,
                    q,
                ).len(),
        decreases recs@.len() - i,
    {
        let rec = clone_record(&recs[i]);
        let pid = partition_for_key(&rec.key, partitions);
        proof {
            assert(rec.key.deep_view() == rec_view(recs@[i as int]).key);
            assert(pid as int == part_of(rv[i as int], partitions as nat));
            assert(rv.take(i as int + 1).drop_last() =~= rv.take(i as int));
            assert(rv.take(i as int + 1).last() == rv[i as int]);
        }
        let ghost parts_pre = parts@;
        let ghost counts_pre = counts@;
        let mut bucket: Vec<SpillRecord> = Vec::new();
        parts.set_and_swap(pid, &mut bucket);
        let ghost bucket_pre = bucket@;
        let ghost mid = parts@;
        bucket.push(rec);
        parts.set_and_swap(pid, &mut bucket);
        proof {
            assert(bucket_pre == parts_pre[pid as int]@);
            assert(mid =~= parts_pre.update(pid as int, mid[pid as int]));
            assert(parts@ =~= mid.update(pid as int, parts@[pid as int]));
            assert(parts@[pid as int]@ == bucket_pre.push(rec));
            assert forall|q: int| 0 <= q < partitions && q != pid implies parts@[q]
                == parts_pre[q] by {}
        }
        let c = counts[pid];
        proof {
            assert(counts_pre[pid as int] as nat == part_filter(
                rv.take(i as int),
                partitions as nat,
                pid as int,
            ).len());
            lemma_part_filter_len(rv.take(i as int), partitions as nat, pid as int);
        }
        counts.set(pid, c + 1);
        proof {
            assert forall|q: int| 0 <= q < partitions implies parts_view(parts@)[q] == part_filter(
                rv.take(i as int + 1),
                partitions as nat,
                q,
            ) by {
                assert(parts_view(parts_pre)[q] == part_filter(
                    rv.take(i as int),
                    partitions as nat,
                    q,
                ));
                assert(parts_view(parts_pre)[q] == recs_view(parts_pre[q]@));
                if q == pid {
                    assert(recs_view(parts@[q]@) =~= recs_view(parts_pre[q]@).push(rv[i as int]));
                    assert(parts_view(parts@)[q] =~= part_filter(
                        rv.take(i as int + 1),
                        partitions as nat,
                        q,
                    ));
                } else {
                    assert(parts@[q] == parts_pre[q]);
                    assert(parts_view(parts@)[q] =~= part_filter(
                        rv.take(i as int + 1),
                        partitions as nat,
                        q,
                    ));
                }
            }
        }
        i = i + 1;
    }
    proof {
        assert(rv.take(recs@.len() as int) =~= rv);
    }
    (parts, counts)
}

proof fn lemma_part_filter_len(recs: Seq<RecV>, partitions: nat, p: int)
    ensures
        part_filter(recs, partitions, p).len() <= recs.len(),
    decreases recs.len(),
{
    if recs.len() > 0 {
        lemma_part_filter_len(recs.drop_last(), partitions, p);
    }
}

/// The first record at or after `i` with an empty key value, or `-1`.
pub open spec fn first_missing_from(recs: Seq<RecV>, i: int) -> int
    decreases recs.len() - i,
{
    if i < 0 || i >= recs.len() {
        -1
    } else if srec_missing(recs, i) {
        i
    } else {
        first_missing_from(recs, i + 1)
    }
}

/// The message the planner's first rejected record earns: the row
/// with the first empty key value, and that column.
pub open spec fn missing_reject_msg(recs: Seq<RecV>, kc: Seq<Seq<u8>>, side: Side) -> Seq<char> {
    let i = first_missing_from(recs, 0);
    crate::error::msg_missing_key_value(
        side,
        recs[i].row_index,
        kc[crate::diff::first_empty_col(recs[i].key, 0)],
    )
}

pub proof fn lemma_first_missing_is(recs: Seq<RecV>, w: int)
    requires
        0 <= w < recs.len(),
        srec_missing(recs, w),
        forall|p: int| 0 <= p < w ==> !srec_missing(recs, p),
    ensures
        first_missing_from(recs, 0) == w,
{
    lemma_first_missing_from(recs, 0);
    let fb = first_missing_from(recs, 0);
    if fb == -1 {
        assert(!srec_missing(recs, w));
    } else if fb < w {
        assert(!srec_missing(recs, fb));
    } else if fb > w {
        assert(!srec_missing(recs, w));
    }
}

pub proof fn lemma_first_missing_from(recs: Seq<RecV>, i: int)
    requires
        0 <= i <= recs.len(),
    ensures
        first_missing_from(recs, i) == -1 ==> forall|j: int|
            i <= j < recs.len() ==> !srec_missing(recs, j),
        first_missing_from(recs, i) != -1 ==> i <= first_missing_from(recs, i) < recs.len()
            && srec_missing(recs, first_missing_from(recs, i)) && forall|j: int|
            i <= j < first_missing_from(recs, i) ==> !srec_missing(recs, j),
    decreases recs.len() - i,
{
    if i < recs.len() && !srec_missing(recs, i) {
        lemma_first_missing_from(recs, i + 1);
    }
}

/// Builds one side's records for the planner, rejecting only empty
/// key values (`missing_key_value`); duplicate keys are left for the
/// per-partition indexer, where alone they can collide.
pub fn build_side_records(
    rows: &Vec<IndexedRow>,
    header: &Vec<Vec<u8>>,
    key_columns: &Vec<Vec<u8>>,
    side: Side,
) -> (r: Result<Vec<SpillRecord>, DiffError>)
    requires
        forall|j: int|
            0 <= j < key_columns.deep_view().len() ==> has_col(
                header.deep_view(),
                #[trigger] key_columns.deep_view()[j],
            ),
    ensures
        ({
            let h = header.deep_view();
            let kc = key_columns.deep_view();
            &&& (r is Ok <==> forall|i: int|
                0 <= i < rows@.len() ==> !row_missing_key(h, kc, rows@, i))
            &&& (r matches Ok(recs) ==> recs@.len() == rows@.len() && forall|i: int|
                0 <= i < rows@.len() ==> rec_view(#[trigger] recs@[i]) == row_rec(h, kc, rows@[i]))
            &&& (r matches Err(e) ==> e.code@ == "missing_key_value"@ && exists|i: int|
                {
                    &&& 0 <= i < rows@.len()
                    &&& #[trigger] row_missing_key(h, kc, rows@, i)
                    &&& forall|p: int| 0 <= p < i ==> !row_missing_key(h, kc, rows@, p)
                    &&& e.message@ == crate::error::msg_missing_key_value(
                        side,
                        rows@[i].row_index as nat,
                        kc[crate::diff::first_empty_col(
                            key_of(h, kc, rows@[i].cells.deep_view()),
                            0,
                        )],
                    )
                })
        }),
{
    let ghost h = header.deep_view();
    let ghost kc = key_columns.deep_view();
    let mut recs: Vec<SpillRecord> = Vec::new();
    let mut i: usize = 0;
    while i < rows.len()
        invariant
            i <= rows@.len(),
            h == header.deep_view(),
            kc == key_columns.deep_view(),
            kc.len() == key_columns@.len(),
            h.len() == header@.len(),
            forall|j: int| 0 <= j < kc.len() ==> has_col(h, #[trigger] kc[j]),
            forall|p: int| 0 <= p < i ==> !row_missing_key(h, kc, rows@, p),
            recs@.len() == i,
            forall|p: int|
                0 <= p < i ==> rec_view(#[trigger] recs@[p]) == row_rec(h, kc, rows@[p]),
        decreases rows@.len() - i,
    {
        let row = &rows[i];
        let ghost cells = row.cells.deep_view();
        let mut key: Vec<Vec<u8>> = Vec::new();
        let mut j: usize = 0;
        while j < key_columns.len()
            invariant
                j <= key_columns@.len(),
                h == header.deep_view(),
                kc == key_columns.deep_view(),
                kc.len() == key_columns@.len(),
                h.len() == header@.len(),
                i < rows@.len(),
                row == &rows@[i as int],
                cells == row.cells.deep_view(),
                forall|q: int| 0 <= q < kc.len() ==> has_col(h, #[trigger] kc[q]),
                forall|p: int| 0 <= p < i ==> !row_missing_key(h, kc, rows@, p),
                key@.len() == j,
                forall|q: int|
                    0 <= q < j ==> (#[trigger] key.deep_view()[q]) == key_of(h, kc, cells)[q],
                forall|q: int| 0 <= q < j ==> key_of(h, kc, cells)[q].len() > 0,
            decreases key_columns@.len() - j,
        {
            proof {
                lemma_dv_bytes(key_columns, j as int);
            }
            let pos = match find_col(header, &key_columns[j]) {
                Some(pos) => pos,
                None => {
                    proof {
                        crate::header::lemma_col_idx(h, kc[j as int]);
                    }
                    // unreachable: every key column is in the header
                    return Err(crate::error::err_missing_key_column(&key_columns[j]));
                },
            };
            proof {
                crate::header::lemma_col_idx(h, kc[j as int]);
            }
            if pos >= row.cells.len() {
                proof {
                    assert(key_of(h, kc, cells)[j as int].len() == 0);
                    assert(row_missing_key(h, kc, rows@, i as int));
                    crate::diff::lemma_first_empty_is(key_of(h, kc, cells), j as int);
                }
                return Err(err_missing_key_value(side, row.row_index as u64, &key_columns[j]));
            }
            let value = row.cells[pos].clone();
            proof {
                broadcast use vstd::std_specs::vec::vec_clone_deep_view_proof;

                assert(value@ =~= value.deep_view());
                assert(row.cells@[pos as int]@ =~= row.cells@[pos as int].deep_view());
                assert(value@ == cells[pos as int]);
                assert(key_of(h, kc, cells)[j as int] == cells[pos as int]);
            }
            if value.len() == 0 {
                proof {
                    assert(row_missing_key(h, kc, rows@, i as int));
                    crate::diff::lemma_first_empty_is(key_of(h, kc, cells), j as int);
                }
                return Err(err_missing_key_value(side, row.row_index as u64, &key_columns[j]));
            }
            let ghost key_dv = key.deep_view();
            key.push(value);
            proof {
                assert(key.deep_view() =~= key_dv.push(cells[pos as int]));
            }
            j = j + 1;
        }
        proof {
            assert(key.deep_view() =~= key_of(h, kc, cells));
            assert(!row_missing_key(h, kc, rows@, i as int)) by {
                if row_missing_key(h, kc, rows@, i as int) {
                    let q = choose|q: int|
                        0 <= q < kc.len() && key_of(h, kc, cells)[q].len() == 0;
                    assert(key_of(h, kc, cells)[q].len() > 0);
                }
            }
        }
        let pairs = zip_pairs_exec_local(header, &row.cells);
        let rec = SpillRecord { key, row_index: row.row_index, row: pairs };
        recs.push(rec);
        proof {
            assert(rec_view(recs@[i as int]) == row_rec(h, kc, rows@[i as int]));
        }
        i = i + 1;
    }
    Ok(recs)
}

fn zip_pairs_exec_local(header: &Vec<Vec<u8>>, cells: &Vec<Vec<u8>>) -> (r: Vec<
    (Vec<u8>, Vec<u8>),
>)
    ensures
        crate::records::pairs_view(r@) == zip_pairs(header.deep_view(), cells.deep_view()),
{
    crate::diff::zip_pairs_exec(header, cells)
}

/// Whether the planner's validations all pass: both inputs read
/// cleanly, the headers reconcile, every key column is present, and
/// no key value is empty.  Duplicate keys are deliberately not here:
/// per the planner's contract they fail only in per-partition
/// indexing.
pub open spec fn plan_valid(
    a_bytes: Seq<u8>,
    b_bytes: Seq<u8>,
    kc: Seq<Seq<u8>>,
    sorted_mode: bool,
) -> bool {
    let ha = side_header(a_bytes);
    let hb = side_header(b_bytes);
    let ra = side_recs_spec(a_bytes, kc);
    let rb = side_recs_spec(b_bytes, kc);
    &&& side_read_ok(a_bytes) && side_read_ok(b_bytes)
    &&& headers_ok(ha, hb, sorted_mode)
    &&& keys_present(ha, kc) && keys_present(hb, kc)
    &&& forall|i: int| 0 <= i < ra.len() ==> !(#[trigger] srec_missing(ra, i))
    &&& forall|i: int| 0 <= i < rb.len() ==> !(#[trigger] srec_missing(rb, i))
}

/// Streams both inputs into an in-memory partition plan: each data row
/// is routed to its key's partition, and per-partition row counts are
/// recorded for both sides.  Validation mirrors the in-memory keyed
/// path up to, but not including, duplicate keys; the plan succeeds
/// exactly when the partition count is positive and every validation
/// passes, and each failure carries the first applicable code.
pub fn partition_inputs_to_spill(
    a_bytes: &[u8],
    b_bytes: &[u8],
    options: &DiffOptions,
    partitions: usize,
) -> (r: Result<PartitionManifest, EngineError>)
    ensures
        ({
            let kc = options.key_columns.deep_view();
            let sorted_mode = options.header_mode is Sorted;
            &&& (r is Ok <==> partitions >= 1 && plan_valid(a_bytes@, b_bytes@, kc, sorted_mode))
            &&& (partitions == 0 ==> (r matches Err(e) && e is Storage))
            &&& (r matches Err(e) ==> (e is Storage ==> partitions == 0))
            &&& (partitions >= 1 && !side_read_ok(a_bytes@) ==> (r matches Err(e) && e
                matches EngineError::Diff(d) && d.code@ == crate::diff::side_err_code(a_bytes@)
                && d.message@ == crate::csv::side_err_msg(a_bytes@, Side::A)))
            &&& (partitions >= 1 && side_read_ok(a_bytes@) && !side_read_ok(b_bytes@) ==> (
            r matches Err(e) && e matches EngineError::Diff(d) && d.code@
                == crate::diff::side_err_code(b_bytes@) && d.message@
                == crate::csv::side_err_msg(b_bytes@, Side::B)))
            &&& (partitions >= 1 && side_read_ok(a_bytes@) && side_read_ok(b_bytes@)
                && !headers_ok(side_header(a_bytes@), side_header(b_bytes@), sorted_mode) ==> (
            r matches Err(e) && e matches EngineError::Diff(d) && d.code@ == "header_mismatch"@))
            &&& (partitions >= 1 && side_read_ok(a_bytes@) && side_read_ok(b_bytes@)
                && headers_ok(side_header(a_bytes@), side_header(b_bytes@), sorted_mode) && !(
            keys_present(side_header(a_bytes@), kc) && keys_present(side_header(b_bytes@), kc))
                ==> (r matches Err(e) && e matches EngineError::Diff(d) && d.code@
                == "missing_key_column"@))
            &&& (partitions >= 1 && side_read_ok(a_bytes@) && side_read_ok(b_bytes@)
                && headers_ok(side_header(a_bytes@), side_header(b_bytes@), sorted_mode)
                && keys_present(side_header(a_bytes@), kc) && keys_present(
                side_header(b_bytes@),
                kc,
            ) && !plan_valid(a_bytes@, b_bytes@, kc, sorted_mode) ==> (r matches Err(e) && e
                matches EngineError::Diff(d) && d.code@ == "missing_key_value"@ && d.message@ == (
            if crate::plan::first_missing_from(side_recs_spec(a_bytes@, kc), 0) >= 0 {
                missing_reject_msg(side_recs_spec(a_bytes@, kc), kc, Side::A)
            } else {
                missing_reject_msg(side_recs_spec(b_bytes@, kc), kc, Side::B)
            })))
            &&& (r matches Ok(m) ==> {
                let ha = side_header(a_bytes@);
                let hb = side_header(b_bytes@);
                let ra = side_recs_spec(a_bytes@, kc);
                let rb = side_recs_spec(b_bytes@, kc);
                &&& partitions >= 1
                &&& side_read_ok(a_bytes@) && side_read_ok(b_bytes@)
                &&& headers_ok(ha, hb, sorted_mode)
                &&& keys_present(ha, kc) && keys_present(hb, kc)
                &&& forall|i: int| 0 <= i < ra.len() ==> !srec_missing(ra, i)
                &&& forall|i: int| 0 <= i < rb.len() ==> !srec_missing(rb, i)
                &&& m.columns_a.deep_view() == ha
                &&& m.columns_b.deep_view() == hb
                &&& m.compare_columns.deep_view() == cols_spec(ha, sorted_mode)
                &&& m.row_count_a == ra.len()
                &&& m.row_count_b == rb.len()
                &&& m.parts_a@.len() == partitions
                &&& m.parts_b@.len() == partitions
                &&& m.partition_rows_a@.len() == partitions
                &&& m.partition_rows_b@.len() == partitions
                &&& forall|p: int|
                    0 <= p < partitions ==> parts_view(m.parts_a@)[p] == part_filter(
                        ra,
                        partitions as nat,
                        p,
                    ) && parts_view(m.parts_b@)[p] == part_filter(rb, partitions as nat, p)
                &&& forall|p: int|
                    0 <= p < partitions ==> (#[trigger] m.partition_rows_a@[p]) as nat
                        == part_filter(ra, partitions as nat, p).len()
                        && m.partition_rows_b@[p] as nat == part_filter(
                        rb,
                        partitions as nat,
                        p,
                    ).len()
            })
            &&& (r matches Err(e) ==> (e matches EngineError::Diff(d) ==> ((!side_read_ok(
                a_bytes@,
            ) && d.code@ == crate::diff::side_err_code(a_bytes@)) || (side_read_ok(a_bytes@)
                && !side_read_ok(b_bytes@) && d.code@ == crate::diff::side_err_code(b_bytes@))
                || d.code@ == "header_mismatch"@ || d.code@ == "missing_key_column"@ || d.code@
                == "missing_key_value"@)))
        }),
{
    let ghost kc = options.key_columns.deep_view();
    if partitions == 0 {
        return Err(EngineError::Storage("partitions must be greater than zero".to_owned()));
    }
    let (a_header, a_rows) = match read_csv_bytes(a_bytes, Side::A) {
        Ok(x) => x,
        Err(e) => {
            proof {
                if side_read_ok(a_bytes@) {
                    let recs = csv_lex(a_bytes@)->Ok_0;
                    assert(recs.len() > 0 && !has_dup(strip_bom(recs[0])) && widths_ok(
                        recs,
                        strip_bom(recs[0]).len(),
                    ));
                    assert(false);
                }
            }
            return Err(EngineError::Diff(e));
        },
    };
    let (b_header, b_rows) = match read_csv_bytes(b_bytes, Side::B) {
        Ok(x) => x,
        Err(e) => {
            proof {
                assert(side_read_ok(a_bytes@));
                if side_read_ok(b_bytes@) {
                    let recs = csv_lex(b_bytes@)->Ok_0;
                    assert(recs.len() > 0 && !has_dup(strip_bom(recs[0])) && widths_ok(
                        recs,
                        strip_bom(recs[0]).len(),
                    ));
                    assert(false);
                }
            }
            return Err(EngineError::Diff(e));
        },
    };
    proof {
        crate::diff::lemma_side_recs_bridge(a_bytes@, kc, a_header.deep_view(), a_rows@);
        crate::diff::lemma_side_recs_bridge(b_bytes@, kc, b_header.deep_view(), b_rows@);
    }
    let sorted_mode_exec = match options.header_mode {
        crate::options::HeaderMode::Strict => false,
        crate::options::HeaderMode::Sorted => true,
    };
    let compare_columns = match comparison_columns(&a_header, &b_header, sorted_mode_exec) {
        Ok(c) => c,
        Err(e) => {
            return Err(EngineError::Diff(e));
        },
    };
    match check_key_columns(&options.key_columns, &a_header, &b_header) {
        Ok(_) => {},
        Err(e) => {
            return Err(EngineError::Diff(e));
        },
    }
    let recs_a = match build_side_records(&a_rows, &a_header, &options.key_columns, Side::A) {
        Ok(x) => x,
        Err(e) => {
            proof {
                let ra = side_recs_spec(a_bytes@, kc);
                let h = a_header.deep_view();
                let w = choose|i: int|
                    {
                        &&& 0 <= i < a_rows@.len()
                        &&& #[trigger] row_missing_key(h, kc, a_rows@, i)
                        &&& forall|p: int| 0 <= p < i ==> !row_missing_key(h, kc, a_rows@, p)
                        &&& e.message@ == crate::error::msg_missing_key_value(
                            Side::A,
                            a_rows@[i].row_index as nat,
                            kc[crate::diff::first_empty_col(
                                key_of(h, kc, a_rows@[i].cells.deep_view()),
                                0,
                            )],
                        )
                    };
                assert forall|p: int| 0 <= p < w implies !srec_missing(ra, p) by {
                    crate::diff::lemma_srec_bridge(a_bytes@, kc, h, a_rows@, p);
                }
                crate::diff::lemma_srec_bridge(a_bytes@, kc, h, a_rows@, w);
                assert(srec_missing(ra, w));
                lemma_first_missing_is(ra, w);
                assert(ra[w].key == key_of(h, kc, a_rows@[w].cells.deep_view()));
                assert(ra[w].row_index == a_rows@[w].row_index as nat);
                assert(e.message@ == missing_reject_msg(ra, kc, Side::A));
                assert(!plan_valid(a_bytes@, b_bytes@, kc, options.header_mode is Sorted));
            }
            return Err(EngineError::Diff(e));
        },
    };
    let recs_b = match build_side_records(&b_rows, &b_header, &options.key_columns, Side::B) {
        Ok(x) => x,
        Err(e) => {
            proof {
                let ra = side_recs_spec(a_bytes@, kc);
                let rb = side_recs_spec(b_bytes@, kc);
                let h = b_header.deep_view();
                let w = choose|i: int|
                    {
                        &&& 0 <= i < b_rows@.len()
                        &&& #[trigger] row_missing_key(h, kc, b_rows@, i)
                        &&& forall|p: int| 0 <= p < i ==> !row_missing_key(h, kc, b_rows@, p)
                        &&& e.message@ == crate::error::msg_missing_key_value(
                            Side::B,
                            b_rows@[i].row_index as nat,
                            kc[crate::diff::first_empty_col(
                                key_of(h, kc, b_rows@[i].cells.deep_view()),
                                0,
                            )],
                        )
                    };
                assert forall|p: int| 0 <= p < ra.len() implies !srec_missing(ra, p) by {
                    crate::diff::lemma_srec_bridge(a_bytes@, kc, a_header.deep_view(), a_rows@, p);
                }
                lemma_first_missing_from(ra, 0);
                assert(first_missing_from(ra, 0) == -1);
                assert forall|p: int| 0 <= p < w implies !srec_missing(rb, p) by {
                    crate::diff::lemma_srec_bridge(b_bytes@, kc, h, b_rows@, p);
                }
                crate::diff::lemma_srec_bridge(b_bytes@, kc, h, b_rows@, w);
                assert(srec_missing(rb, w));
                lemma_first_missing_is(rb, w);
                assert(rb[w].key == key_of(h, kc, b_rows@[w].cells.deep_view()));
                assert(rb[w].row_index == b_rows@[w].row_index as nat);
                assert(e.message@ == missing_reject_msg(rb, kc, Side::B));
                assert(!plan_valid(a_bytes@, b_bytes@, kc, options.header_mode is Sorted));
            }
            return Err(EngineError::Diff(e));
        },
    };
    proof {
        let ra = side_recs_spec(a_bytes@, kc);
        let rb = side_recs_spec(b_bytes@, kc);
        assert(recs_view(recs_a@) =~= ra) by {
            assert forall|i: int| 0 <= i < recs_a@.len() implies recs_view(recs_a@)[i] == ra[i] by {
                assert(rec_view(recs_a@[i]) == row_rec(a_header.deep_view(), kc, a_rows@[i]));
            }
        }
        assert(recs_view(recs_b@) =~= rb) by {
            assert forall|i: int| 0 <= i < recs_b@.len() implies recs_view(recs_b@)[i] == rb[i] by {
                assert(rec_view(recs_b@[i]) == row_rec(b_header.deep_view(), kc, b_rows@[i]));
            }
        }
        assert forall|i: int| 0 <= i < ra.len() implies !srec_missing(ra, i) by {
            crate::diff::lemma_srec_bridge(a_bytes@, kc, a_header.deep_view(), a_rows@, i);
        }
        assert forall|i: int| 0 <= i < rb.len() implies !srec_missing(rb, i) by {
            crate::diff::lemma_srec_bridge(b_bytes@, kc, b_header.deep_view(), b_rows@, i);
        }
    }
    let row_count_a = recs_a.len();
    let row_count_b = recs_b.len();
    let (parts_a, partition_rows_a) = route_side(&recs_a, partitions);
    let (parts_b, partition_rows_b) = route_side(&recs_b, partitions);
    Ok(PartitionManifest {
        columns_a: a_header,
        columns_b: b_header,
        compare_columns,
        row_count_a,
        row_count_b,
        partition_rows_a,
        partition_rows_b,
        parts_a,
        parts_b,
    })
}

/// The total record count of a partition list.
pub open spec fn total_len(parts: Seq<Seq<RecV>>) -> nat
    decreases parts.len(),
{
    if parts.len() == 0 {
        0
    } else {
        parts[0].len() + total_len(parts.skip(1))
    }
}

/// The body events of a partitioned run over the first `n` partitions:
/// ascending partition id, keys sorted within each partition.
pub open spec fn part_events(
    pa: Seq<Seq<RecV>>,
    pb: Seq<Seq<RecV>>,
    n: int,
    kc: Seq<Seq<u8>>,
    cols: Seq<Seq<u8>>,
    emit_unchanged: bool,
) -> Seq<EventV>
    decreases n,
{
    if n <= 0 {
        Seq::empty()
    } else {
        part_events(pa, pb, n - 1, kc, cols, emit_unchanged) + keyed_events(
            sorted_union(pa[n - 1], pb[n - 1]),
            kc,
            pa[n - 1],
            pb[n - 1],
            cols,
            emit_unchanged,
        )
    }
}

/// The counters of a partitioned run over the first `n` partitions.
pub open spec fn part_stats(
    pa: Seq<Seq<RecV>>,
    pb: Seq<Seq<RecV>>,
    n: int,
    cols: Seq<Seq<u8>>,
) -> StatsV
    decreases n,
{
    if n <= 0 {
        stats_zero()
    } else {
        stats_plus(
            part_stats(pa, pb, n - 1, cols),
            keyed_stats(sorted_union(pa[n - 1], pb[n - 1]), pa[n - 1], pb[n - 1], cols),
        )
    }
}

proof fn lemma_part_stats_bound(pa: Seq<Seq<RecV>>, pb: Seq<Seq<RecV>>, n: int, cols: Seq<Seq<u8>>)
    requires
        0 <= n <= pa.len(),
        n <= pb.len(),
    ensures
        ({
            let st = part_stats(pa, pb, n, cols);
            &&& st.compared <= total_len(pa.take(n)) + total_len(pb.take(n))
            &&& st.added <= total_len(pa.take(n)) + total_len(pb.take(n))
            &&& st.removed <= total_len(pa.take(n)) + total_len(pb.take(n))
            &&& st.changed <= total_len(pa.take(n)) + total_len(pb.take(n))
            &&& st.unchanged <= total_len(pa.take(n)) + total_len(pb.take(n))
        }),
    decreases n,
{
    if n > 0 {
        lemma_part_stats_bound(pa, pb, n - 1, cols);
        let keys = sorted_union(pa[n - 1], pb[n - 1]);
        lemma_keyed_stats_sums(keys, pa[n - 1], pb[n - 1], cols);
        crate::diff::lemma_sorted_union_len(pa[n - 1], pb[n - 1]);
        lemma_total_len_take(pa, n);
        lemma_total_len_take(pb, n);
    }
}

proof fn lemma_total_len_take(parts: Seq<Seq<RecV>>, n: int)
    requires
        0 < n <= parts.len(),
    ensures
        total_len(parts.take(n)) == total_len(parts.take(n - 1)) + parts[n - 1].len(),
    decreases n,
{
    if n == 1 {
        assert(parts.take(1)[0] == parts[0]);
        assert(parts.take(1).skip(1) =~= Seq::<Seq<RecV>>::empty());
        assert(parts.take(0) =~= Seq::<Seq<RecV>>::empty());
    } else {
        assert(parts.take(n)[0] == parts[0]);
        assert(parts.take(n - 1)[0] == parts[0]);
        assert(parts.take(n).skip(1) =~= parts.skip(1).take(n - 1));
        assert(parts.take(n - 1).skip(1) =~= parts.skip(1).take(n - 2));
        lemma_total_len_take(parts.skip(1), n - 1);
        assert(parts.skip(1)[n - 2] == parts[n - 1]);
    }
}

#[verifier::rlimit(50)]
proof fn lemma_unique_extend(pa: Seq<Seq<RecV>>, pb: Seq<Seq<RecV>>, p: int)
    requires
        0 <= p < pa.len(),
        p < pb.len(),
        forall|q: int| 0 <= q < p ==> ((#[trigger] recs_unique(pa[q])) && recs_unique(pb[q])),
        recs_unique(pa[p]),
        recs_unique(pb[p]),
    ensures
        forall|q: int| 0 <= q < p + 1 ==> #[trigger] recs_unique(pa[q]) && recs_unique(pb[q]),
{
    assert forall|q: int| 0 <= q < p + 1 implies recs_unique(pa[q]) by {
        if q == p {
            assert(recs_unique(pa[p]));
        } else {
            assert(0 <= q < p);
            assert(recs_unique(pa[q]));
        }
    }
    assert forall|q: int| 0 <= q < p + 1 implies recs_unique(pb[q]) by {
        if q == p {
            assert(recs_unique(pb[p]));
        } else {
            assert(0 <= q < p);
            assert(recs_unique(pa[q]));
            assert(recs_unique(pb[q]));
        }
    }
}

proof fn lemma_dup_witness(parts_a: Seq<Vec<SpillRecord>>, parts_b: Seq<Vec<SpillRecord>>, p: int)
    requires
        0 <= p < parts_view(parts_a).len(),
        !(recs_unique(parts_view(parts_a)[p]) && recs_unique(parts_view(parts_b)[p])),
    ensures
        exists|q: int|
            0 <= q < parts_view(parts_a).len() && !(recs_unique(
                #[trigger] parts_view(parts_a)[q],
            ) && recs_unique(parts_view(parts_b)[q])),
{
    assert(0 <= p < parts_view(parts_a).len() && !(recs_unique(
        parts_view(parts_a)[p],
    ) && recs_unique(parts_view(parts_b)[p])));
}

/// Diffs a partition plan: partitions in ascending id order, keys
/// sorted within each partition, one `schema` event first and one
/// `stats` event last.  A key repeated on one side within a partition
/// fails with `duplicate_key`.
#[verifier::rlimit(50)]
pub fn diff_partitioned_from_manifest(manifest: &PartitionManifest, options: &DiffOptions) -> (r:
    Result<Vec<Event>, EngineError>)
    requires
        manifest.parts_a@.len() == manifest.parts_b@.len(),
        total_len(parts_view(manifest.parts_a@)) + total_len(parts_view(manifest.parts_b@))
            <= u64::MAX,
    ensures
        ({
            let pa = parts_view(manifest.parts_a@);
            let pb = parts_view(manifest.parts_b@);
            let kc = options.key_columns.deep_view();
            let cols = manifest.compare_columns.deep_view();
            let n = pa.len() as int;
            &&& (r matches Ok(v) ==> events_view(v@) == seq![
                EventV::Schema {
                    columns_a: manifest.columns_a.deep_view(),
                    columns_b: manifest.columns_b.deep_view(),
                },
            ] + part_events(pa, pb, n, kc, cols, options.emit_unchanged) + seq![
                stats_event(part_stats(pa, pb, n, cols)),
            ])
            &&& (r is Ok ==> forall|p: int|
                0 <= p < n ==> recs_unique(#[trigger] pa[p]) && recs_unique(pb[p]))
            &&& (r is Err ==> exists|p: int|
                0 <= p < n && !(recs_unique(#[trigger] pa[p]) && recs_unique(pb[p])))
            &&& (r matches Err(e) ==> (e matches EngineError::Diff(d) && d.code@
                == "duplicate_key"@))
            &&& (r matches Err(e) ==> (e matches EngineError::Diff(d) ==> exists|p: int|
                {
                    &&& 0 <= p < n
                    &&& forall|q: int|
                        0 <= q < p ==> #[trigger] recs_unique(pa[q]) && recs_unique(pb[q])
                    &&& if !recs_unique(pa[p]) {
                        d.message@ == crate::diff::dup_reject_msg(#[trigger] pa[p], Side::A)
                    } else {
                        &&& !recs_unique(pb[p])
                        &&& d.message@ == crate::diff::dup_reject_msg(pb[p], Side::B)
                    }
                }))
        }),
{
    let ghost pa = parts_view(manifest.parts_a@);
    let ghost pb = parts_view(manifest.parts_b@);
    let ghost kc = options.key_columns.deep_view();
    let ghost cols = manifest.compare_columns.deep_view();
    let n = manifest.parts_a.len();
    let mut out: Vec<Event> = Vec::new();
    let schema = Event::Schema {
        columns_a: manifest.columns_a.clone(),
        columns_b: manifest.columns_b.clone(),
    };
    proof {
        broadcast use vstd::std_specs::vec::vec_clone_deep_view_proof;

    }
    out.push(schema);
    let ghost schema_v = EventV::Schema {
        columns_a: manifest.columns_a.deep_view(),
        columns_b: manifest.columns_b.deep_view(),
    };
    let mut stats = StatsCounters::new();
    let mut p: usize = 0;
    proof {
        assert(events_view(out@) =~= seq![schema_v] + part_events(
            pa,
            pb,
            0,
            kc,
            cols,
            options.emit_unchanged,
        ));
        assert(stats_view(stats) =~= stats_plus(stats_zero(), part_stats(pa, pb, 0, cols)));
        assert(stats_view(stats) =~= part_stats(pa, pb, 0, cols));
        assert(pa.take(0) =~= Seq::<Seq<RecV>>::empty());
        assert(pb.take(0) =~= Seq::<Seq<RecV>>::empty());
    }
    while p < n
        invariant
            p <= n,
            n == manifest.parts_a@.len(),
            n == manifest.parts_b@.len(),
            pa == parts_view(manifest.parts_a@),
            pb == parts_view(manifest.parts_b@),
            pa.len() == n,
            pb.len() == n,
            kc == options.key_columns.deep_view(),
            cols == manifest.compare_columns.deep_view(),
            total_len(pa) + total_len(pb) <= u64::MAX,
            forall|q: int| 0 <= q < p ==> #[trigger] recs_unique(pa[q]) && recs_unique(pb[q]),
            events_view(out@) == seq![schema_v] + part_events(
                pa,
                pb,
                p as int,
                kc,
                cols,
                options.emit_unchanged,
            ),
            stats_view(stats) == part_stats(pa, pb, p as int, cols),
        decreases n - p,
    {
        match check_duplicates(&manifest.parts_a[p], Side::A) {
            Ok(_) => {},
            Err(e) => {
                proof {
                    assert((p as int) < pa.len());
                    assert(!(recs_unique(parts_view(manifest.parts_a@)[p as int]) && recs_unique(
                        parts_view(manifest.parts_b@)[p as int],
                    )));
                    lemma_dup_witness(manifest.parts_a@, manifest.parts_b@, p as int);
                    assert(!recs_unique(pa[p as int]));
                    assert(e.message@ == crate::diff::dup_reject_msg(pa[p as int], Side::A));
                }
                return Err(EngineError::Diff(e));
            },
        }
        match check_duplicates(&manifest.parts_b[p], Side::B) {
            Ok(_) => {},
            Err(e) => {
                proof {
                    assert((p as int) < pa.len());
                    assert(!(recs_unique(parts_view(manifest.parts_a@)[p as int]) && recs_unique(
                        parts_view(manifest.parts_b@)[p as int],
                    )));
                    lemma_dup_witness(manifest.parts_a@, manifest.parts_b@, p as int);
                    assert(recs_unique(pa[p as int]));
                    assert(!recs_unique(pb[p as int]));
                    assert(e.message@ == crate::diff::dup_reject_msg(pb[p as int], Side::B));
                }
                return Err(EngineError::Diff(e));
            },
        }
        proof {
            assert(recs_unique(pa[p as int]));
            assert(recs_unique(pb[p as int]));
            lemma_part_stats_bound(pa, pb, p as int, cols);
            lemma_total_len_at(pa, p as int);
            lemma_total_len_at(pb, p as int);
        }
        diff_keyed_core(
            &manifest.parts_a[p],
            &manifest.parts_b[p],
            &options.key_columns,
            &manifest.compare_columns,
            options.emit_unchanged,
            &mut stats,
            &mut out,
        );
        proof {
            assert(events_view(out@) =~= seq![schema_v] + part_events(
                pa,
                pb,
                p as int + 1,
                kc,
                cols,
                options.emit_unchanged,
            ));
            assert(stats_view(stats) =~= part_stats(pa, pb, p as int + 1, cols));
            lemma_unique_extend(pa, pb, p as int);
        }
        p = p + 1;
    }
    let stats_ev = crate::diff::stats_event_exec(&stats);
    let ghost pre = events_view(out@);
    out.push(stats_ev);
    proof {
        assert(events_view(out@) =~= pre.push(event_view(stats_ev)));
    }
    Ok(out)
}

/// One partition's length is within the total after its prefix.
proof fn lemma_total_len_at(parts: Seq<Seq<RecV>>, p: int)
    requires
        0 <= p < parts.len(),
    ensures
        total_len(parts.take(p)) + parts[p].len() <= total_len(parts),
    decreases parts.len(),
{
    lemma_total_len_take(parts, p + 1);
    lemma_total_len_le_full(parts, p + 1);
}

proof fn lemma_total_len_zero(parts: Seq<Seq<RecV>>)
    requires
        forall|i: int| 0 <= i < parts.len() ==> (#[trigger] parts[i]).len() == 0,
    ensures
        total_len(parts) == 0,
    decreases parts.len(),
{
    if parts.len() > 0 {
        assert forall|i: int| 0 <= i < parts.skip(1).len() implies (#[trigger] parts.skip(
            1,
        )[i]).len() == 0 by {
            assert(parts.skip(1)[i] == parts[i + 1]);
        }
        lemma_total_len_zero(parts.skip(1));
    }
}

proof fn lemma_total_len_grow_one(s1: Seq<Seq<RecV>>, s2: Seq<Seq<RecV>>, q0: int)
    requires
        s1.len() == s2.len(),
        0 <= q0 < s1.len(),
        s2[q0].len() == s1[q0].len() + 1,
        forall|i: int| 0 <= i < s1.len() && i != q0 ==> (#[trigger] s2[i]).len() == s1[i].len(),
    ensures
        total_len(s2) == total_len(s1) + 1,
    decreases s1.len(),
{
    if q0 == 0 {
        assert forall|i: int| 0 <= i < s1.skip(1).len() implies (#[trigger] s2.skip(1)[i]).len()
            == s1.skip(1)[i].len() by {
            assert(s2.skip(1)[i] == s2[i + 1]);
            assert(s1.skip(1)[i] == s1[i + 1]);
        }
        lemma_total_len_same(s1.skip(1), s2.skip(1));
    } else {
        assert forall|i: int| 0 <= i < s1.skip(1).len() && i != q0 - 1 implies (#[trigger] s2.skip(
            1,
        )[i]).len() == s1.skip(1)[i].len() by {
            assert(s2.skip(1)[i] == s2[i + 1]);
            assert(s1.skip(1)[i] == s1[i + 1]);
        }
        assert(s2.skip(1)[q0 - 1] == s2[q0]);
        assert(s1.skip(1)[q0 - 1] == s1[q0]);
        lemma_total_len_grow_one(s1.skip(1), s2.skip(1), q0 - 1);
    }
}

proof fn lemma_total_len_same(s1: Seq<Seq<RecV>>, s2: Seq<Seq<RecV>>)
    requires
        s1.len() == s2.len(),
        forall|i: int| 0 <= i < s1.len() ==> (#[trigger] s2[i]).len() == s1[i].len(),
    ensures
        total_len(s2) == total_len(s1),
    decreases s1.len(),
{
    if s1.len() > 0 {
        assert forall|i: int| 0 <= i < s1.skip(1).len() implies (#[trigger] s2.skip(1)[i]).len()
            == s1.skip(1)[i].len() by {
            assert(s2.skip(1)[i] == s2[i + 1]);
            assert(s1.skip(1)[i] == s1[i + 1]);
        }
        lemma_total_len_same(s1.skip(1), s2.skip(1));
    }
}

/// Every record routes to exactly one partition: the partition sizes
/// sum to the record count.
pub proof fn lemma_partition_total(recs: Seq<RecV>, partitions: nat)
    requires
        partitions >= 1,
    ensures
        total_len(Seq::new(partitions, |p: int| part_filter(recs, partitions, p)))
            == recs.len(),
    decreases recs.len(),
{
    let full = Seq::new(partitions, |p: int| part_filter(recs, partitions, p));
    if recs.len() == 0 {
        assert forall|i: int| 0 <= i < full.len() implies (#[trigger] full[i]).len() == 0 by {}
        lemma_total_len_zero(full);
    } else {
        let prior = Seq::new(
            partitions,
            |p: int| part_filter(recs.drop_last(), partitions, p),
        );
        lemma_partition_total(recs.drop_last(), partitions);
        let q0 = part_of(recs.last(), partitions);
        assert(0 <= q0 < partitions);
        assert(full[q0].len() == prior[q0].len() + 1);
        assert forall|i: int| 0 <= i < partitions && i != q0 implies (#[trigger] full[i]).len()
            == prior[i].len() by {
            assert(full[i] =~= prior[i]);
        }
        lemma_total_len_grow_one(prior, full, q0);
    }
}

proof fn lemma_total_len_le_full(parts: Seq<Seq<RecV>>, p: int)
    requires
        0 <= p <= parts.len(),
    ensures
        total_len(parts.take(p)) <= total_len(parts),
    decreases parts.len() - p,
{
    if p < parts.len() {
        lemma_total_len_le_full(parts, p + 1);
        lemma_total_len_take(parts, p + 1);
    } else {
        assert(parts.take(p) =~= parts);
    }
}

} // verus!

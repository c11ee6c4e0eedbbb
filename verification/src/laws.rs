//! Laws of the diff stream.
//!
//! Each public proof function here states one property that holds of
//! every run, over the same spec functions the executable functions'
//! contracts use: the shape of the stream, the accounting identities
//! of the counters, the positional body-event count, and the behavior
//! of diffing an input against itself.

use vstd::prelude::*;
use vstd::multiset::Multiset;
use vstd::seq_lib::{group_to_multiset_ensures, lemma_multiset_commutative};
use crate::diff::{changed_cols, cols_spec, diff_spec, extra_keys, keyed_event, keyed_events,
    keyed_stats, keys_of, lookup, opt_event, pos_event, pos_events, pos_stats, side_cells,
    side_header, side_recs_spec, sorted_union, srec_bad, stats_event, union_keys, recs_unique,
    StatsV};
use crate::hash::key_hash;
use crate::order::{key_order, lemma_key_total_ordering};
use crate::plan::{part_events, part_filter, part_of};
use crate::records::{EventV, RecV, is_body_event};

verus! {

proof fn lemma_keyed_events_body(
    keys: Seq<Seq<Seq<u8>>>,
    kc: Seq<Seq<u8>>,
    a: Seq<RecV>,
    b: Seq<RecV>,
    cols: Seq<Seq<u8>>,
    emit_unchanged: bool,
)
    ensures
        forall|i: int|
            0 <= i < keyed_events(keys, kc, a, b, cols, emit_unchanged).len()
                ==> is_body_event(#[trigger] keyed_events(keys, kc, a, b, cols, emit_unchanged)[i]),
    decreases keys.len(),
{
    if keys.len() > 0 {
        lemma_keyed_events_body(keys.drop_last(), kc, a, b, cols, emit_unchanged);
        let pre = keyed_events(keys.drop_last(), kc, a, b, cols, emit_unchanged);
        let o = keyed_event(
            keys.last(),
            kc,
            lookup(a, keys.last()),
            lookup(b, keys.last()),
            cols,
            emit_unchanged,
        );
        let whole = keyed_events(keys, kc, a, b, cols, emit_unchanged);
        assert(whole == pre + opt_event(o));
        assert forall|i: int| 0 <= i < whole.len() implies is_body_event(#[trigger] whole[i]) by {
            if i < pre.len() {
                assert(whole[i] == pre[i]);
                assert(is_body_event(pre[i]));
            } else {
                assert(o matches Some(e) && whole[i] == e);
            }
        }
    }
}

proof fn lemma_pos_events_body(
    n: int,
    ah: Seq<Seq<u8>>,
    ac: Seq<Seq<Seq<u8>>>,
    bh: Seq<Seq<u8>>,
    bc: Seq<Seq<Seq<u8>>>,
    cols: Seq<Seq<u8>>,
    emit_unchanged: bool,
)
    ensures
        forall|i: int|
            0 <= i < pos_events(n, ah, ac, bh, bc, cols, emit_unchanged).len() ==> is_body_event(
                #[trigger] pos_events(n, ah, ac, bh, bc, cols, emit_unchanged)[i],
            ),
    decreases n,
{
    if n > 0 {
        lemma_pos_events_body(n - 1, ah, ac, bh, bc, cols, emit_unchanged);
        let pre = pos_events(n - 1, ah, ac, bh, bc, cols, emit_unchanged);
        let o = pos_event(n - 1, ah, ac, bh, bc, cols, emit_unchanged);
        let whole = pos_events(n, ah, ac, bh, bc, cols, emit_unchanged);
        assert(whole == pre + opt_event(o));
        assert forall|i: int| 0 <= i < whole.len() implies is_body_event(#[trigger] whole[i]) by {
            if i < pre.len() {
                assert(whole[i] == pre[i]);
                assert(is_body_event(pre[i]));
            } else {
                assert(o matches Some(e) && whole[i] == e);
            }
        }
    }
}

/// Stream shape: every accepted run's event sequence starts with
/// exactly one `schema` event, ends with exactly one `stats` event,
/// and holds only body events in between.
pub proof fn law_stream_shape(
    a_bytes: Seq<u8>,
    b_bytes: Seq<u8>,
    kc: Seq<Seq<u8>>,
    sorted_mode: bool,
    emit_unchanged: bool,
)
    requires
        diff_spec(a_bytes, b_bytes, kc, sorted_mode, emit_unchanged) is Ok,
    ensures
        ({
            let evs = diff_spec(a_bytes, b_bytes, kc, sorted_mode, emit_unchanged)->Ok_0;
            &&& evs.len() >= 2
            &&& evs[0] is Schema
            &&& evs.last() is Stats
            &&& forall|i: int| 0 < i < evs.len() - 1 ==> is_body_event(#[trigger] evs[i])
        }),
{
    let evs = diff_spec(a_bytes, b_bytes, kc, sorted_mode, emit_unchanged)->Ok_0;
    let ha = side_header(a_bytes);
    let hb = side_header(b_bytes);
    let cols = cols_spec(ha, sorted_mode);
    if kc.len() == 0 {
        let ac = side_cells(a_bytes);
        let bc = side_cells(b_bytes);
        let n = if ac.len() >= bc.len() {
            ac.len() as int
        } else {
            bc.len() as int
        };
        let body = pos_events(n, ha, ac, hb, bc, cols, emit_unchanged);
        lemma_pos_events_body(n, ha, ac, hb, bc, cols, emit_unchanged);
        assert(evs =~= seq![EventV::Schema { columns_a: ha, columns_b: hb }] + body + seq![
            stats_event(pos_stats(n, ha, ac, hb, bc, cols)),
        ]);
        assert forall|i: int| 0 < i < evs.len() - 1 implies is_body_event(#[trigger] evs[i]) by {
            assert(evs[i] == body[i - 1]);
        }
    } else {
        let ra = side_recs_spec(a_bytes, kc);
        let rb = side_recs_spec(b_bytes, kc);
        let keys = sorted_union(ra, rb);
        let body = keyed_events(keys, kc, ra, rb, cols, emit_unchanged);
        lemma_keyed_events_body(keys, kc, ra, rb, cols, emit_unchanged);
        assert(evs =~= seq![EventV::Schema { columns_a: ha, columns_b: hb }] + body + seq![
            stats_event(keyed_stats(keys, ra, rb, cols)),
        ]);
        assert forall|i: int| 0 < i < evs.len() - 1 implies is_body_event(#[trigger] evs[i]) by {
            assert(evs[i] == body[i - 1]);
        }
    }
}

proof fn lemma_pos_events_count(
    n: int,
    ah: Seq<Seq<u8>>,
    ac: Seq<Seq<Seq<u8>>>,
    bh: Seq<Seq<u8>>,
    bc: Seq<Seq<Seq<u8>>>,
    cols: Seq<Seq<u8>>,
    emit_unchanged: bool,
)
    requires
        0 <= n,
        n <= ac.len() || n <= bc.len(),
    ensures
        emit_unchanged ==> pos_events(n, ah, ac, bh, bc, cols, emit_unchanged).len() == n,
        !emit_unchanged ==> pos_events(n, ah, ac, bh, bc, cols, emit_unchanged).len() + pos_stats(
            n,
            ah,
            ac,
            bh,
            bc,
            cols,
        ).unchanged == n,
    decreases n,
{
    if n > 0 {
        lemma_pos_events_count(n - 1, ah, ac, bh, bc, cols, emit_unchanged);
    }
}

/// Positional body-event count: with row counts `nA` and `nB`, a
/// positional run emits `max(nA, nB)` body events, minus the
/// unchanged rows when their events are suppressed.
pub proof fn law_positional_count(
    a_bytes: Seq<u8>,
    b_bytes: Seq<u8>,
    sorted_mode: bool,
    emit_unchanged: bool,
)
    requires
        diff_spec(a_bytes, b_bytes, Seq::empty(), sorted_mode, emit_unchanged) is Ok,
    ensures
        ({
            let evs = diff_spec(a_bytes, b_bytes, Seq::empty(), sorted_mode, emit_unchanged)->Ok_0;
            let ac = side_cells(a_bytes);
            let bc = side_cells(b_bytes);
            let ha = side_header(a_bytes);
            let hb = side_header(b_bytes);
            let cols = cols_spec(ha, sorted_mode);
            let n = if ac.len() >= bc.len() {
                ac.len() as int
            } else {
                bc.len() as int
            };
            &&& emit_unchanged ==> evs.len() == n + 2
            &&& !emit_unchanged ==> evs.len() + pos_stats(n, ha, ac, hb, bc, cols).unchanged == n
                + 2
        }),
{
    let ac = side_cells(a_bytes);
    let bc = side_cells(b_bytes);
    let ha = side_header(a_bytes);
    let hb = side_header(b_bytes);
    let cols = cols_spec(ha, sorted_mode);
    let n = if ac.len() >= bc.len() {
        ac.len() as int
    } else {
        bc.len() as int
    };
    lemma_pos_events_count(n, ha, ac, hb, bc, cols, emit_unchanged);
}

/// Diffing equal rows changes nothing.
proof fn lemma_changed_cols_refl(cols: Seq<Seq<u8>>, row: Seq<(Seq<u8>, Seq<u8>)>)
    ensures
        changed_cols(cols, row, row).len() == 0,
    decreases cols.len(),
{
    if cols.len() > 0 {
        lemma_changed_cols_refl(cols.drop_last(), row);
    }
}

/// Every key of a side is found on that side.
proof fn lemma_keys_lookup(recs: Seq<RecV>, i: int)
    requires
        0 <= i < recs.len(),
    ensures
        lookup(recs, recs[i].key) is Some,
{
    assert(exists|j: int| 0 <= j < recs.len() && (#[trigger] recs[j]).key == recs[i].key) by {
        assert((recs[i]).key == recs[i].key);
    }
    crate::diff::lemma_lookup_at_exists(recs, recs[i].key);
}

proof fn lemma_extra_keys_self(a: Seq<RecV>, bk: Seq<Seq<Seq<u8>>>)
    requires
        forall|i: int| 0 <= i < bk.len() ==> lookup(a, #[trigger] bk[i]) is Some,
    ensures
        extra_keys(a, bk) =~= Seq::<Seq<Seq<u8>>>::empty(),
    decreases bk.len(),
{
    if bk.len() > 0 {
        assert forall|i: int| 0 <= i < bk.drop_last().len() implies lookup(
            a,
            #[trigger] bk.drop_last()[i],
        ) is Some by {
            assert(bk.drop_last()[i] == bk[i]);
        }
        lemma_extra_keys_self(a, bk.drop_last());
        assert(lookup(a, bk.last()) is Some) by {
            assert(bk[bk.len() - 1] == bk.last());
        }
    }
}

/// The number of keys in `keys` that `recs` has.
pub open spec fn keys_some_count(recs: Seq<RecV>, keys: Seq<Seq<Seq<u8>>>) -> nat
    decreases keys.len(),
{
    if keys.len() == 0 {
        0
    } else {
        keys_some_count(recs, keys.drop_last()) + (if lookup(recs, keys.last()) is Some {
            1nat
        } else {
            0nat
        })
    }
}

proof fn lemma_self_diff_counts(
    keys: Seq<Seq<Seq<u8>>>,
    kc: Seq<Seq<u8>>,
    a: Seq<RecV>,
    cols: Seq<Seq<u8>>,
    emit_unchanged: bool,
)
    ensures
        ({
            let st = keyed_stats(keys, a, a, cols);
            &&& st.added == 0
            &&& st.removed == 0
            &&& st.changed == 0
            &&& st.compared == keys_some_count(a, keys)
        }),
        forall|i: int|
            0 <= i < keyed_events(keys, kc, a, a, cols, emit_unchanged).len() ==> (
            #[trigger] keyed_events(keys, kc, a, a, cols, emit_unchanged)[i]) is Unchanged,
    decreases keys.len(),
{
    if keys.len() > 0 {
        lemma_self_diff_counts(keys.drop_last(), kc, a, cols, emit_unchanged);
        match lookup(a, keys.last()) {
            Option::Some(r) => {
                lemma_changed_cols_refl(cols, r.row);
            },
            Option::None => {},
        }
    }
}

proof fn lemma_all_some_count(recs: Seq<RecV>, keys: Seq<Seq<Seq<u8>>>)
    requires
        forall|i: int| 0 <= i < keys.len() ==> lookup(recs, #[trigger] keys[i]) is Some,
    ensures
        keys_some_count(recs, keys) == keys.len(),
    decreases keys.len(),
{
    if keys.len() > 0 {
        assert forall|i: int| 0 <= i < keys.drop_last().len() implies lookup(
            recs,
            #[trigger] keys.drop_last()[i],
        ) is Some by {
            assert(keys.drop_last()[i] == keys[i]);
        }
        lemma_all_some_count(recs, keys.drop_last());
        assert(keys[keys.len() - 1] == keys.last());
    }
}

/// Every element of the sorted key union is a key of one of the two
/// sides.
proof fn lemma_union_keys_member(a: Seq<RecV>, b: Seq<RecV>, i: int)
    requires
        0 <= i < union_keys(a, b).len(),
    ensures
        lookup(a, union_keys(a, b)[i]) is Some || lookup(b, union_keys(a, b)[i]) is Some,
{
    let u = union_keys(a, b);
    if i < keys_of(a).len() {
        assert(u[i] == keys_of(a)[i]);
        lemma_keys_lookup(a, i);
    } else {
        lemma_extra_keys_member(a, keys_of(b), b, i - keys_of(a).len());
    }
}

proof fn lemma_extra_keys_member(a: Seq<RecV>, bk: Seq<Seq<Seq<u8>>>, b: Seq<RecV>, j: int)
    requires
        0 <= j < extra_keys(a, bk).len(),
        forall|i: int| 0 <= i < bk.len() ==> exists|p: int|
            0 <= p < b.len() && (#[trigger] b[p]).key == #[trigger] bk[i],
    ensures
        lookup(b, extra_keys(a, bk)[j]) is Some,
    decreases bk.len(),
{
    if bk.len() > 0 {
        let pre = extra_keys(a, bk.drop_last());
        if j < pre.len() {
            assert forall|i: int| 0 <= i < bk.drop_last().len() implies exists|p: int|
                0 <= p < b.len() && (#[trigger] b[p]).key == #[trigger] bk.drop_last()[i] by {
                assert(bk.drop_last()[i] == bk[i]);
            }
            lemma_extra_keys_member(a, bk.drop_last(), b, j);
            assert(extra_keys(a, bk)[j] == pre[j]);
        } else {
            assert(lookup(a, bk.last()) is None);
            assert(extra_keys(a, bk)[j] == bk.last());
            assert(bk[bk.len() - 1] == bk.last());
            assert(exists|p: int| 0 <= p < b.len() && (#[trigger] b[p]).key == bk.last());
            crate::diff::lemma_lookup_at_exists(b, bk.last());
        }
    }
}

/// Every element of the sorted union is found on a side.
proof fn lemma_sorted_union_member(a: Seq<RecV>, b: Seq<RecV>, i: int)
    requires
        0 <= i < sorted_union(a, b).len(),
    ensures
        lookup(a, sorted_union(a, b)[i]) is Some || lookup(b, sorted_union(a, b)[i]) is Some,
{
    lemma_key_total_ordering();
    union_keys(a, b).lemma_sort_by_ensures(key_order());
    broadcast use group_to_multiset_ensures;

    let k = sorted_union(a, b)[i];
    assert(sorted_union(a, b).contains(k)) by {
        assert(sorted_union(a, b)[i] == k);
    }
    assert(union_keys(a, b).contains(k)) by {
        if !union_keys(a, b).contains(k) {
            assert(!sorted_union(a, b).contains(k));
        }
    }
    let j = choose|j: int| 0 <= j < union_keys(a, b).len() && union_keys(a, b)[j] == k;
    lemma_union_keys_member(a, b, j);
}

/// Self-diff: diffing an input against itself yields no `added`,
/// `removed` or `changed` events; every row compares equal, so the
/// compared count is the row count, and every body event (emitted
/// only on request) is `unchanged`.
pub proof fn law_self_diff(a_bytes: Seq<u8>, kc: Seq<Seq<u8>>, sorted_mode: bool, emit_unchanged: bool)
    requires
        kc.len() > 0,
        diff_spec(a_bytes, a_bytes, kc, sorted_mode, emit_unchanged) is Ok,
    ensures
        ({
            let ra = side_recs_spec(a_bytes, kc);
            let cols = cols_spec(side_header(a_bytes), sorted_mode);
            let keys = sorted_union(ra, ra);
            let st = keyed_stats(keys, ra, ra, cols);
            &&& st.added == 0
            &&& st.removed == 0
            &&& st.changed == 0
            &&& st.compared == ra.len()
            &&& forall|i: int|
                0 <= i < keyed_events(keys, kc, ra, ra, cols, emit_unchanged).len() ==> (
                #[trigger] keyed_events(keys, kc, ra, ra, cols, emit_unchanged)[i]) is Unchanged
        }),
{
    let ra = side_recs_spec(a_bytes, kc);
    let cols = cols_spec(side_header(a_bytes), sorted_mode);
    let keys = sorted_union(ra, ra);
    lemma_self_diff_counts(keys, kc, ra, cols, emit_unchanged);
    assert forall|i: int| 0 <= i < keys.len() implies lookup(ra, #[trigger] keys[i]) is Some by {
        lemma_sorted_union_member(ra, ra, i);
    }
    lemma_all_some_count(ra, keys);
    // the union of a side with itself has exactly the side's keys
    assert forall|i: int| 0 <= i < keys_of(ra).len() implies lookup(
        ra,
        #[trigger] keys_of(ra)[i],
    ) is Some by {
        lemma_keys_lookup(ra, i);
    }
    lemma_extra_keys_self(ra, keys_of(ra));
    assert(union_keys(ra, ra) =~= keys_of(ra));
    lemma_key_total_ordering();
    union_keys(ra, ra).lemma_sort_by_ensures(key_order());
    broadcast use group_to_multiset_ensures;

    assert(keys.to_multiset().len() == keys.len());
    assert(union_keys(ra, ra).to_multiset().len() == union_keys(ra, ra).len());
    assert(keys.len() == ra.len());
}

/// The key tuples a side holds, as a set.
pub open spec fn key_set(recs: Seq<RecV>) -> Set<Seq<Seq<u8>>> {
    keys_of(recs).to_set()
}

/// A key is found on a side exactly when the side's key set has it.
proof fn lemma_lookup_iff_member(recs: Seq<RecV>, k: Seq<Seq<u8>>)
    ensures
        lookup(recs, k) is Some <==> key_set(recs).contains(k),
{
    if lookup(recs, k) is Some {
        crate::diff::lemma_lookup_some_witness(recs, k);
        let i = choose|i: int|
            0 <= i < recs.len() && (#[trigger] recs[i]).key == k && lookup(recs, k) == Some(
                recs[i],
            );
        assert(keys_of(recs)[i] == k);
        assert(keys_of(recs).contains(k));
    }
    if key_set(recs).contains(k) {
        let i = choose|i: int| 0 <= i < keys_of(recs).len() && keys_of(recs)[i] == k;
        assert((recs[i]).key == k);
        crate::diff::lemma_lookup_at_exists(recs, k);
    }
}

proof fn lemma_extras_props(a: Seq<RecV>, bk: Seq<Seq<Seq<u8>>>)
    ensures
        forall|j: int| 0 <= j < extra_keys(a, bk).len() ==> lookup(
            a,
            #[trigger] extra_keys(a, bk)[j],
        ) is None,
        forall|j: int| 0 <= j < extra_keys(a, bk).len() ==> bk.contains(
            #[trigger] extra_keys(a, bk)[j],
        ),
        bk.no_duplicates() ==> extra_keys(a, bk).no_duplicates(),
        forall|i: int|
            0 <= i < bk.len() && lookup(a, #[trigger] bk[i]) is None ==> extra_keys(
                a,
                bk,
            ).contains(bk[i]),
    decreases bk.len(),
{
    if bk.len() > 0 {
        lemma_extras_props(a, bk.drop_last());
        let pre = extra_keys(a, bk.drop_last());
        let whole = extra_keys(a, bk);
        assert forall|j: int| 0 <= j < whole.len() implies lookup(a, #[trigger] whole[j]) is None
            && bk.contains(whole[j]) by {
            if j < pre.len() {
                assert(whole[j] == pre[j]);
                assert(bk.drop_last().contains(pre[j]));
                let w = choose|w: int| 0 <= w < bk.drop_last().len() && bk.drop_last()[w] == pre[j];
                assert(bk[w] == pre[j]);
            } else {
                assert(lookup(a, bk.last()) is None);
                assert(whole[j] == bk.last());
                assert(bk[bk.len() - 1] == bk.last());
            }
        }
        if bk.no_duplicates() {
            assert(bk.drop_last().no_duplicates()) by {
                assert forall|p: int, q: int|
                    0 <= p < q < bk.drop_last().len() implies bk.drop_last()[p]
                        != bk.drop_last()[q] by {
                    assert(bk[p] != bk[q]);
                }
            }
            assert forall|p: int, q: int| 0 <= p < q < whole.len() implies whole[p] != whole[q] by {
                if q < pre.len() {
                    assert(whole[p] == pre[p] && whole[q] == pre[q]);
                } else {
                    assert(whole[q] == bk.last());
                    assert(whole[p] == pre[p]);
                    assert(bk.drop_last().contains(pre[p]));
                    let w = choose|w: int|
                        0 <= w < bk.drop_last().len() && bk.drop_last()[w] == pre[p];
                    assert(bk[w] == pre[p]);
                    if pre[p] == bk.last() {
                        assert(bk[w] == bk[bk.len() - 1]);
                    }
                }
            }
        }
        assert forall|i: int|
            0 <= i < bk.len() && lookup(a, #[trigger] bk[i]) is None implies whole.contains(
            bk[i],
        ) by {
            if i < bk.len() - 1 {
                assert(bk.drop_last()[i] == bk[i]);
                assert(pre.contains(bk[i]));
                let w = choose|w: int| 0 <= w < pre.len() && pre[w] == bk[i];
                assert(whole[w] == bk[i]);
            } else {
                assert(bk[i] == bk.last());
                assert(whole[whole.len() - 1] == bk.last());
            }
        }
    }
}

/// The sorted key union has no duplicate keys and holds exactly the
/// union of the two sides' key sets.
proof fn lemma_sorted_union_props(a: Seq<RecV>, b: Seq<RecV>)
    requires
        recs_unique(a),
        recs_unique(b),
    ensures
        sorted_union(a, b).no_duplicates(),
        sorted_union(a, b).to_set() =~= key_set(a).union(key_set(b)),
{
    let u = union_keys(a, b);
    let s = sorted_union(a, b);
    let ak = keys_of(a);
    let ek = extra_keys(a, keys_of(b));
    lemma_extras_props(a, keys_of(b));
    assert(keys_of(b).no_duplicates()) by {
        assert forall|p: int, q: int|
            0 <= p < q < keys_of(b).len() implies keys_of(b)[p] != keys_of(b)[q] by {
            assert(b[p].key != b[q].key);
        }
    }
    assert(ak.no_duplicates()) by {
        assert forall|p: int, q: int| 0 <= p < q < ak.len() implies ak[p] != ak[q] by {
            assert(a[p].key != a[q].key);
        }
    }
    assert(u.no_duplicates()) by {
        assert forall|p: int, q: int| 0 <= p < q < u.len() implies u[p] != u[q] by {
            if p < ak.len() && q < ak.len() {
                assert(u[p] == ak[p] && u[q] == ak[q]);
            } else if p < ak.len() && q >= ak.len() {
                assert(u[p] == ak[p] && u[q] == ek[q - ak.len()]);
                lemma_keys_lookup(a, p);
                assert(lookup(a, ek[q - ak.len()]) is None);
            } else {
                assert(u[p] == ek[p - ak.len()] && u[q] == ek[q - ak.len()]);
            }
        }
    }
    // sorting keeps the multiset, hence duplicates and membership
    lemma_key_total_ordering();
    u.lemma_sort_by_ensures(key_order());
    u.lemma_multiset_has_no_duplicates();
    s.lemma_multiset_has_no_duplicates_conv();
    broadcast use group_to_multiset_ensures;

    assert forall|k: Seq<Seq<u8>>| s.to_set().contains(k) implies key_set(a).union(
        key_set(b),
    ).contains(k) by {
        assert(s.contains(k));
        assert(s.to_multiset().count(k) > 0);
        assert(u.contains(k));
        let j = choose|j: int| 0 <= j < u.len() && u[j] == k;
        if j < ak.len() {
            assert(ak[j] == k);
            assert(ak.contains(k));
        } else {
            assert(ek[j - ak.len()] == k);
            assert(keys_of(b).contains(k));
        }
    }
    assert forall|k: Seq<Seq<u8>>| key_set(a).union(key_set(b)).contains(k) implies s
        .to_set().contains(k) by {
        if key_set(a).contains(k) {
            let i = choose|i: int| 0 <= i < ak.len() && ak[i] == k;
            assert(u[i] == k);
            assert(u.contains(k));
        } else {
            assert(key_set(b).contains(k));
            let i = choose|i: int| 0 <= i < keys_of(b).len() && keys_of(b)[i] == k;
            lemma_lookup_iff_member(a, k);
            assert(lookup(a, keys_of(b)[i]) is None);
            assert(ek.contains(k));
            let w = choose|w: int| 0 <= w < ek.len() && ek[w] == k;
            assert(u[ak.len() + w] == k);
            assert(u.contains(k));
        }
        assert(u.to_multiset().count(k) > 0);
        assert(s.contains(k));
    }
}

/// The keys of `keys` that both sides have, counted.
pub open spec fn both_count(keys: Seq<Seq<Seq<u8>>>, a: Seq<RecV>, b: Seq<RecV>) -> nat
    decreases keys.len(),
{
    if keys.len() == 0 {
        0
    } else {
        both_count(keys.drop_last(), a, b) + (if lookup(a, keys.last()) is Some && lookup(
            b,
            keys.last(),
        ) is Some {
            1nat
        } else {
            0nat
        })
    }
}

proof fn lemma_compared_is_both(
    keys: Seq<Seq<Seq<u8>>>,
    a: Seq<RecV>,
    b: Seq<RecV>,
    cols: Seq<Seq<u8>>,
)
    ensures
        keyed_stats(keys, a, b, cols).compared == both_count(keys, a, b),
    decreases keys.len(),
{
    if keys.len() > 0 {
        lemma_compared_is_both(keys.drop_last(), a, b, cols);
    }
}

proof fn lemma_both_count_card(keys: Seq<Seq<Seq<u8>>>, a: Seq<RecV>, b: Seq<RecV>)
    requires
        keys.no_duplicates(),
    ensures
        both_count(keys, a, b) == keys.to_set().intersect(
            Set::new(|k: Seq<Seq<u8>>| lookup(a, k) is Some && lookup(b, k) is Some),
        ).len(),
    decreases keys.len(),
{
    broadcast use vstd::set::group_set_axioms;

    let ab = Set::new(|k: Seq<Seq<u8>>| lookup(a, k) is Some && lookup(b, k) is Some);
    if keys.len() == 0 {
        assert(keys.to_set() =~= Set::<Seq<Seq<u8>>>::empty());
        assert(keys.to_set().intersect(ab) =~= Set::<Seq<Seq<u8>>>::empty());
    } else {
        let pre = keys.drop_last();
        assert(pre.no_duplicates()) by {
            assert forall|p: int, q: int| 0 <= p < q < pre.len() implies pre[p] != pre[q] by {
                assert(keys[p] != keys[q]);
            }
        }
        lemma_both_count_card(pre, a, b);
        let last = keys.last();
        assert(keys =~= pre.push(last));
        assert(keys.to_set() =~= pre.to_set().insert(last)) by {
            assert forall|k: Seq<Seq<u8>>|
                keys.to_set().contains(k) implies pre.to_set().insert(last).contains(k) by {
                let i = choose|i: int| 0 <= i < keys.len() && keys[i] == k;
                if i < pre.len() {
                    assert(pre[i] == k);
                    assert(pre.contains(k));
                }
            }
            assert forall|k: Seq<Seq<u8>>|
                pre.to_set().insert(last).contains(k) implies keys.to_set().contains(k) by {
                if pre.to_set().contains(k) {
                    let i = choose|i: int| 0 <= i < pre.len() && pre[i] == k;
                    assert(keys[i] == k);
                    assert(keys.contains(k));
                } else {
                    assert(keys[keys.len() - 1] == k);
                    assert(keys.contains(k));
                }
            }
        }
        assert(!pre.to_set().contains(last)) by {
            if pre.to_set().contains(last) {
                let i = choose|i: int| 0 <= i < pre.len() && pre[i] == last;
                assert(keys[i] == keys[keys.len() - 1]);
            }
        }
        broadcast use vstd::seq_lib::seq_to_set_is_finite;

        assert(pre.to_set().finite());
        assert(pre.to_set().intersect(ab).finite());
        if ab.contains(last) {
            assert(keys.to_set().intersect(ab) =~= pre.to_set().intersect(ab).insert(last));
            assert(!pre.to_set().intersect(ab).contains(last));
            assert(pre.to_set().intersect(ab).insert(last).len() == pre.to_set().intersect(
                ab,
            ).len() + 1);
        } else {
            assert(keys.to_set().intersect(ab) =~= pre.to_set().intersect(ab));
        }
    }
}

/// Accounting: for a valid keyed run, the four outcome counters sum
/// to the number of distinct keys on either side, and the compared
/// count is the number of keys on both sides.
pub proof fn law_keyed_accounting(
    a_bytes: Seq<u8>,
    b_bytes: Seq<u8>,
    kc: Seq<Seq<u8>>,
    sorted_mode: bool,
    emit_unchanged: bool,
)
    requires
        kc.len() > 0,
        diff_spec(a_bytes, b_bytes, kc, sorted_mode, emit_unchanged) is Ok,
    ensures
        ({
            let ra = side_recs_spec(a_bytes, kc);
            let rb = side_recs_spec(b_bytes, kc);
            let cols = cols_spec(side_header(a_bytes), sorted_mode);
            let st = keyed_stats(sorted_union(ra, rb), ra, rb, cols);
            &&& st.added + st.removed + st.changed + st.unchanged == key_set(ra).union(
                key_set(rb),
            ).len()
            &&& st.compared == key_set(ra).intersect(key_set(rb)).len()
        }),
{
    broadcast use vstd::set::group_set_axioms;

    let ra = side_recs_spec(a_bytes, kc);
    let rb = side_recs_spec(b_bytes, kc);
    let cols = cols_spec(side_header(a_bytes), sorted_mode);
    let keys = sorted_union(ra, rb);
    let st = keyed_stats(keys, ra, rb, cols);
    // a valid run has no duplicate keys on either side
    crate::diff::lemma_first_bad_from(ra, 0);
    crate::diff::lemma_first_bad_from(rb, 0);
    assert(recs_unique(ra)) by {
        assert forall|i: int, j: int| 0 <= i < j < ra.len() implies (#[trigger] ra[i]).key != (
        #[trigger] ra[j]).key by {
            if ra[i].key == ra[j].key {
                assert(crate::diff::srec_dup(ra, j));
                assert(srec_bad(ra, j));
            }
        }
    }
    assert(recs_unique(rb)) by {
        assert forall|i: int, j: int| 0 <= i < j < rb.len() implies (#[trigger] rb[i]).key != (
        #[trigger] rb[j]).key by {
            if rb[i].key == rb[j].key {
                assert(crate::diff::srec_dup(rb, j));
                assert(srec_bad(rb, j));
            }
        }
    }
    lemma_sorted_union_props(ra, rb);
    // every union key is on a side, so the three outcome counters sum
    // to the union's size
    assert forall|i: int|
        0 <= i < keys.len() implies lookup(ra, #[trigger] keys[i]) is Some || lookup(
        rb,
        keys[i],
    ) is Some by {
        lemma_sorted_union_member(ra, rb, i);
    }
    crate::diff::lemma_keyed_stats_sums(keys, ra, rb, cols);
    keys.unique_seq_to_set();
    assert(st.compared + st.added + st.removed == keys.len());
    assert(st.changed + st.unchanged == st.compared);
    assert(keys.to_set().len() == keys.len());
    assert(st.added + st.removed + st.changed + st.unchanged == key_set(ra).union(
        key_set(rb),
    ).len());
    // the compared count is the intersection's size
    lemma_compared_is_both(keys, ra, rb, cols);
    lemma_both_count_card(keys, ra, rb);
    let ab = Set::new(|k: Seq<Seq<u8>>| lookup(ra, k) is Some && lookup(rb, k) is Some);
    assert(keys.to_set().intersect(ab) =~= key_set(ra).intersect(key_set(rb))) by {
        assert forall|k: Seq<Seq<u8>>|
            keys.to_set().intersect(ab).contains(k) implies key_set(ra).intersect(
            key_set(rb),
        ).contains(k) by {
            lemma_lookup_iff_member(ra, k);
            lemma_lookup_iff_member(rb, k);
        }
        assert forall|k: Seq<Seq<u8>>|
            key_set(ra).intersect(key_set(rb)).contains(k) implies keys.to_set().intersect(
            ab,
        ).contains(k) by {
            lemma_lookup_iff_member(ra, k);
            lemma_lookup_iff_member(rb, k);
            assert(key_set(ra).union(key_set(rb)).contains(k));
            assert(keys.to_set().contains(k));
        }
    }
}

/// The partition a key routes to.
pub open spec fn key_part(k: Seq<Seq<u8>>, partitions: nat) -> int {
    key_hash(k) as int % (if partitions == 0 {
        1int
    } else {
        partitions as int
    })
}

proof fn lemma_lookup_push(recs: Seq<RecV>, r: RecV, k: Seq<Seq<u8>>)
    ensures
        lookup(recs.push(r), k) == (if lookup(recs, k) is Some {
            lookup(recs, k)
        } else if r.key == k {
            Some(r)
        } else {
            None
        }),
    decreases recs.len(),
{
    if recs.len() == 0 {
        assert(recs.push(r)[0] == r);
        assert(recs.push(r).skip(1) =~= Seq::<RecV>::empty());
        assert(lookup(recs.push(r).skip(1), k) is None);
        assert(lookup(recs, k) is None);
    } else {
        assert(recs.push(r)[0] == recs[0]);
        assert(recs.push(r).skip(1) =~= recs.skip(1).push(r));
        lemma_lookup_push(recs.skip(1), r, k);
    }
}

/// Every record of a partition routes to it and occurs on its side.
proof fn lemma_filter_elems(a: Seq<RecV>, partitions: nat, p: int)
    ensures
        forall|j: int|
            0 <= j < part_filter(a, partitions, p).len() ==> part_of(
                #[trigger] part_filter(a, partitions, p)[j],
                partitions,
            ) == p,
        forall|j: int| 0 <= j < part_filter(a, partitions, p).len() ==> exists|i: int|
            0 <= i < a.len() && a[i] == #[trigger] part_filter(a, partitions, p)[j],
    decreases a.len(),
{
    if a.len() > 0 {
        lemma_filter_elems(a.drop_last(), partitions, p);
        let pre = part_filter(a.drop_last(), partitions, p);
        let whole = part_filter(a, partitions, p);
        assert forall|j: int| 0 <= j < whole.len() implies part_of(
            #[trigger] whole[j],
            partitions,
        ) == p && exists|i: int| 0 <= i < a.len() && a[i] == whole[j] by {
            if j < pre.len() {
                assert(whole[j] == pre[j]);
                let i = choose|i: int| 0 <= i < a.drop_last().len() && a.drop_last()[i] == pre[j];
                assert(a[i] == whole[j]);
            } else {
                assert(whole[j] == a.last());
                assert(a[a.len() - 1] == a.last());
            }
        }
    }
}

/// Looking a key up in its own partition is looking it up in the
/// whole side.
proof fn lemma_filter_lookup_same(a: Seq<RecV>, partitions: nat, p: int, k: Seq<Seq<u8>>)
    requires
        key_part(k, partitions) == p,
    ensures
        lookup(part_filter(a, partitions, p), k) == lookup(a, k),
    decreases a.len(),
{
    if a.len() > 0 {
        let d = a.drop_last();
        let r = a.last();
        lemma_filter_lookup_same(d, partitions, p, k);
        assert(a =~= d.push(r));
        lemma_lookup_push(d, r, k);
        if part_of(r, partitions) == p {
            assert(part_filter(a, partitions, p) =~= part_filter(d, partitions, p).push(r));
            lemma_lookup_push(part_filter(d, partitions, p), r, k);
        } else {
            assert(part_filter(a, partitions, p) =~= part_filter(d, partitions, p));
            if r.key == k {
                assert(part_of(r, partitions) == key_part(k, partitions));
            }
        }
    } else {
        assert(part_filter(a, partitions, p) =~= Seq::<RecV>::empty());
    }
}

/// Concatenating key lists concatenates their event lists.
proof fn lemma_keyed_events_concat(
    x: Seq<Seq<Seq<u8>>>,
    y: Seq<Seq<Seq<u8>>>,
    kc: Seq<Seq<u8>>,
    a: Seq<RecV>,
    b: Seq<RecV>,
    cols: Seq<Seq<u8>>,
    eu: bool,
)
    ensures
        keyed_events(x + y, kc, a, b, cols, eu) == keyed_events(x, kc, a, b, cols, eu)
            + keyed_events(y, kc, a, b, cols, eu),
    decreases y.len(),
{
    if y.len() == 0 {
        assert(x + y =~= x);
        assert(keyed_events(x + y, kc, a, b, cols, eu) =~= keyed_events(x, kc, a, b, cols, eu)
            + keyed_events(y, kc, a, b, cols, eu));
    } else {
        lemma_keyed_events_concat(x, y.drop_last(), kc, a, b, cols, eu);
        assert((x + y).drop_last() =~= x + y.drop_last());
        assert((x + y).last() == y.last());
        assert(keyed_events(x + y, kc, a, b, cols, eu) =~= keyed_events(x, kc, a, b, cols, eu)
            + keyed_events(y, kc, a, b, cols, eu));
    }
}

/// Diffing one partition against its counterpart yields the same
/// events as diffing the partition's keys against the whole sides.
proof fn lemma_partition_events_eq(
    keys: Seq<Seq<Seq<u8>>>,
    kc: Seq<Seq<u8>>,
    a: Seq<RecV>,
    b: Seq<RecV>,
    partitions: nat,
    p: int,
    cols: Seq<Seq<u8>>,
    eu: bool,
)
    requires
        forall|i: int| 0 <= i < keys.len() ==> key_part(#[trigger] keys[i], partitions) == p,
    ensures
        keyed_events(
            keys,
            kc,
            part_filter(a, partitions, p),
            part_filter(b, partitions, p),
            cols,
            eu,
        ) == keyed_events(keys, kc, a, b, cols, eu),
        keyed_stats(keys, part_filter(a, partitions, p), part_filter(b, partitions, p), cols)
            == keyed_stats(keys, a, b, cols),
    decreases keys.len(),
{
    if keys.len() > 0 {
        assert forall|i: int| 0 <= i < keys.drop_last().len() implies key_part(
            #[trigger] keys.drop_last()[i],
            partitions,
        ) == p by {
            assert(keys.drop_last()[i] == keys[i]);
        }
        lemma_partition_events_eq(keys.drop_last(), kc, a, b, partitions, p, cols, eu);
        assert(keys[keys.len() - 1] == keys.last());
        lemma_filter_lookup_same(a, partitions, p, keys.last());
        lemma_filter_lookup_same(b, partitions, p, keys.last());
    }
}

/// Every key of a partition's sorted union routes to that partition.
proof fn lemma_partition_union_routed(
    a: Seq<RecV>,
    b: Seq<RecV>,
    partitions: nat,
    p: int,
    i: int,
)
    requires
        0 <= i < sorted_union(part_filter(a, partitions, p), part_filter(b, partitions, p)).len(),
    ensures
        key_part(
            sorted_union(part_filter(a, partitions, p), part_filter(b, partitions, p))[i],
            partitions,
        ) == p,
{
    let fa = part_filter(a, partitions, p);
    let fb = part_filter(b, partitions, p);
    let k = sorted_union(fa, fb)[i];
    lemma_sorted_union_member(fa, fb, i);
    lemma_filter_elems(a, partitions, p);
    lemma_filter_elems(b, partitions, p);
    if lookup(fa, k) is Some {
        crate::diff::lemma_lookup_some_witness(fa, k);
        let w = choose|w: int|
            0 <= w < fa.len() && (#[trigger] fa[w]).key == k && lookup(fa, k) == Some(fa[w]);
        assert(part_of(fa[w], partitions) == p);
    } else {
        crate::diff::lemma_lookup_some_witness(fb, k);
        let w = choose|w: int|
            0 <= w < fb.len() && (#[trigger] fb[w]).key == k && lookup(fb, k) == Some(fb[w]);
        assert(part_of(fb[w], partitions) == p);
    }
}

/// The keys of the first `n` partitions, in partition order.
pub open spec fn cat_keys(a: Seq<RecV>, b: Seq<RecV>, partitions: nat, n: int) -> Seq<
    Seq<Seq<u8>>,
>
    decreases n,
{
    if n <= 0 {
        Seq::empty()
    } else {
        cat_keys(a, b, partitions, n - 1) + sorted_union(
            part_filter(a, partitions, n - 1),
            part_filter(b, partitions, n - 1),
        )
    }
}

/// The partitioned run's body events are the keyed events of the
/// partitions' keys, in partition order, against the whole sides.
proof fn lemma_part_events_cat(
    a: Seq<RecV>,
    b: Seq<RecV>,
    partitions: nat,
    n: int,
    kc: Seq<Seq<u8>>,
    cols: Seq<Seq<u8>>,
    eu: bool,
)
    requires
        0 <= n <= partitions,
    ensures
        part_events(
            Seq::new(partitions, |p: int| part_filter(a, partitions, p)),
            Seq::new(partitions, |p: int| part_filter(b, partitions, p)),
            n,
            kc,
            cols,
            eu,
        ) == keyed_events(cat_keys(a, b, partitions, n), kc, a, b, cols, eu),
    decreases n,
{
    let pa = Seq::new(partitions, |p: int| part_filter(a, partitions, p));
    let pb = Seq::new(partitions, |p: int| part_filter(b, partitions, p));
    if n == 0 {
        assert(keyed_events(cat_keys(a, b, partitions, 0), kc, a, b, cols, eu) =~= Seq::<
            EventV,
        >::empty());
    } else {
        lemma_part_events_cat(a, b, partitions, n - 1, kc, cols, eu);
        let kp = sorted_union(part_filter(a, partitions, n - 1), part_filter(b, partitions, n - 1));
        assert forall|i: int| 0 <= i < kp.len() implies key_part(
            #[trigger] kp[i],
            partitions,
        ) == n - 1 by {
            lemma_partition_union_routed(a, b, partitions, n - 1, i);
        }
        lemma_partition_events_eq(kp, kc, a, b, partitions, n - 1, cols, eu);
        lemma_keyed_events_concat(cat_keys(a, b, partitions, n - 1), kp, kc, a, b, cols, eu);
        assert(pa[n - 1] == part_filter(a, partitions, n - 1));
        assert(pb[n - 1] == part_filter(b, partitions, n - 1));
    }
}

/// A partition of a side with unique keys has unique keys.
proof fn lemma_filter_unique(a: Seq<RecV>, partitions: nat, p: int)
    requires
        recs_unique(a),
    ensures
        recs_unique(part_filter(a, partitions, p)),
    decreases a.len(),
{
    if a.len() > 0 {
        let d = a.drop_last();
        let r = a.last();
        assert(recs_unique(d)) by {
            assert forall|i: int, j: int| 0 <= i < j < d.len() implies (#[trigger] d[i]).key != (
            #[trigger] d[j]).key by {
                assert(a[i].key != a[j].key);
            }
        }
        lemma_filter_unique(d, partitions, p);
        lemma_filter_elems(d, partitions, p);
        let pre = part_filter(d, partitions, p);
        let whole = part_filter(a, partitions, p);
        if part_of(r, partitions) == p {
            assert(whole =~= pre.push(r));
            assert forall|i: int, j: int| 0 <= i < j < whole.len() implies (
            #[trigger] whole[i]).key != (#[trigger] whole[j]).key by {
                if j < pre.len() {
                    assert(whole[i] == pre[i] && whole[j] == pre[j]);
                } else {
                    assert(whole[j] == r);
                    assert(whole[i] == pre[i]);
                    let w = choose|w: int| 0 <= w < d.len() && d[w] == pre[i];
                    assert(a[w] == pre[i]);
                    assert(a[a.len() - 1] == r);
                    assert(a[w].key != a[a.len() - 1].key);
                }
            }
        } else {
            assert(whole =~= pre);
        }
    }
}

/// Adding one key to a plan adds its event (if any) to the events.
proof fn lemma_keyed_events_push_ms(
    keys: Seq<Seq<Seq<u8>>>,
    k: Seq<Seq<u8>>,
    kc: Seq<Seq<u8>>,
    a: Seq<RecV>,
    b: Seq<RecV>,
    cols: Seq<Seq<u8>>,
    eu: bool,
)
    ensures
        keyed_events(keys.push(k), kc, a, b, cols, eu).to_multiset() =~= keyed_events(
            keys,
            kc,
            a,
            b,
            cols,
            eu,
        ).to_multiset().add(
            opt_event(keyed_event(k, kc, lookup(a, k), lookup(b, k), cols, eu)).to_multiset(),
        ),
{
    assert(keys.push(k).drop_last() =~= keys);
    assert(keys.push(k).last() == k);
    lemma_multiset_commutative(
        keyed_events(keys, kc, a, b, cols, eu),
        opt_event(keyed_event(k, kc, lookup(a, k), lookup(b, k), cols, eu)),
    );
}

/// Two plans with the same key multiset yield the same event
/// multiset.
proof fn lemma_keyed_events_perm(
    k1: Seq<Seq<Seq<u8>>>,
    k2: Seq<Seq<Seq<u8>>>,
    kc: Seq<Seq<u8>>,
    a: Seq<RecV>,
    b: Seq<RecV>,
    cols: Seq<Seq<u8>>,
    eu: bool,
)
    requires
        k1.to_multiset() == k2.to_multiset(),
    ensures
        keyed_events(k1, kc, a, b, cols, eu).to_multiset() == keyed_events(
            k2,
            kc,
            a,
            b,
            cols,
            eu,
        ).to_multiset(),
    decreases k1.len(),
{
    broadcast use group_to_multiset_ensures;
    broadcast use vstd::multiset::group_multiset_axioms;

    if k1.len() == 0 {
        assert(k2.to_multiset().len() == 0);
        assert(k2.len() == 0);
        assert(k1 =~= k2);
    } else {
        let k = k1.last();
        let d1 = k1.drop_last();
        assert(k1 =~= d1.push(k));
        assert(k1.to_multiset().count(k) > 0) by {
            assert(k1.contains(k)) by {
                assert(k1[k1.len() - 1] == k);
            }
        }
        assert(k2.to_multiset().count(k) > 0);
        assert(k2.contains(k));
        let j = choose|j: int| 0 <= j < k2.len() && k2[j] == k;
        let x = k2.take(j);
        let y = k2.skip(j + 1);
        assert(k2 =~= x + (seq![k] + y));
        lemma_multiset_commutative(x, seq![k] + y);
        lemma_multiset_commutative(seq![k], y);
        assert(seq![k].to_multiset() =~= Multiset::empty().insert(k));
        let d2 = x + y;
        lemma_multiset_commutative(x, y);
        assert(d1.to_multiset() =~= d2.to_multiset()) by {
            assert(k1.to_multiset() =~= d1.to_multiset().insert(k));
            assert(k2.to_multiset() =~= d2.to_multiset().insert(k));
            assert forall|z: Seq<Seq<u8>>| true implies d1.to_multiset().count(z)
                == d2.to_multiset().count(z) by {
                assert(d1.to_multiset().insert(k).count(z) == d2.to_multiset().insert(k).count(z));
            }
        }
        lemma_keyed_events_perm(d1, d2, kc, a, b, cols, eu);
        lemma_keyed_events_concat(x, seq![k] + y, kc, a, b, cols, eu);
        lemma_keyed_events_concat(seq![k], y, kc, a, b, cols, eu);
        lemma_keyed_events_concat(x, y, kc, a, b, cols, eu);
        let ek = opt_event(keyed_event(k, kc, lookup(a, k), lookup(b, k), cols, eu));
        assert(keyed_events(seq![k], kc, a, b, cols, eu) =~= ek) by {
            assert(seq![k].drop_last() =~= Seq::<Seq<Seq<u8>>>::empty());
            assert(seq![k].last() == k);
            assert(keyed_events(seq![k].drop_last(), kc, a, b, cols, eu) =~= Seq::<
                EventV,
            >::empty());
        }
        lemma_keyed_events_push_ms(d1, k, kc, a, b, cols, eu);
        let ex = keyed_events(x, kc, a, b, cols, eu);
        let ey = keyed_events(y, kc, a, b, cols, eu);
        lemma_multiset_commutative(ex, ek + ey);
        lemma_multiset_commutative(ek, ey);
        lemma_multiset_commutative(ex, ey);
        assert(keyed_events(k2, kc, a, b, cols, eu).to_multiset() =~= keyed_events(
            d2,
            kc,
            a,
            b,
            cols,
            eu,
        ).to_multiset().add(ek.to_multiset()));
        assert(keyed_events(k1, kc, a, b, cols, eu).to_multiset() =~= keyed_events(
            d1,
            kc,
            a,
            b,
            cols,
            eu,
        ).to_multiset().add(ek.to_multiset()));
    }
}

proof fn lemma_filter_lookup_none(a: Seq<RecV>, partitions: nat, p: int, k: Seq<Seq<u8>>)
    requires
        key_part(k, partitions) != p,
    ensures
        lookup(part_filter(a, partitions, p), k) is None,
{
    let fa = part_filter(a, partitions, p);
    lemma_filter_elems(a, partitions, p);
    assert forall|j: int| 0 <= j < fa.len() implies (#[trigger] fa[j]).key != k by {
        if fa[j].key == k {
            assert(part_of(fa[j], partitions) == key_part(k, partitions));
        }
    }
    crate::diff::lemma_lookup_absent(fa, k);
}

/// How often a key occurs among one partition's keys: once when it
/// routes there and a side has it, never otherwise.
proof fn lemma_union_count(
    a: Seq<RecV>,
    b: Seq<RecV>,
    partitions: nat,
    p: int,
    x: Seq<Seq<u8>>,
)
    requires
        recs_unique(a),
        recs_unique(b),
    ensures
        sorted_union(part_filter(a, partitions, p), part_filter(b, partitions, p))
            .to_multiset().count(x) == (if key_part(x, partitions) == p && (lookup(a, x) is Some
            || lookup(b, x) is Some) {
            1nat
        } else {
            0nat
        }),
{
    broadcast use group_to_multiset_ensures;

    let fa = part_filter(a, partitions, p);
    let fb = part_filter(b, partitions, p);
    let s = sorted_union(fa, fb);
    lemma_filter_unique(a, partitions, p);
    lemma_filter_unique(b, partitions, p);
    lemma_sorted_union_props(fa, fb);
    s.lemma_multiset_has_no_duplicates();
    lemma_lookup_iff_member(fa, x);
    lemma_lookup_iff_member(fb, x);
    if key_part(x, partitions) == p {
        lemma_filter_lookup_same(a, partitions, p, x);
        lemma_filter_lookup_same(b, partitions, p, x);
    } else {
        lemma_filter_lookup_none(a, partitions, p, x);
        lemma_filter_lookup_none(b, partitions, p, x);
    }
    if lookup(fa, x) is Some || lookup(fb, x) is Some {
        assert(s.to_set().contains(x));
        assert(s.contains(x));
        assert(s.to_multiset().count(x) == 1);
    } else {
        assert(!s.to_set().contains(x));
        assert(!s.contains(x));
        assert(s.to_multiset().count(x) == 0);
    }
}

/// How often a key occurs among the keys of the whole run.
proof fn lemma_global_count(a: Seq<RecV>, b: Seq<RecV>, x: Seq<Seq<u8>>)
    requires
        recs_unique(a),
        recs_unique(b),
    ensures
        sorted_union(a, b).to_multiset().count(x) == (if lookup(a, x) is Some || lookup(
            b,
            x,
        ) is Some {
            1nat
        } else {
            0nat
        }),
{
    broadcast use group_to_multiset_ensures;

    let s = sorted_union(a, b);
    lemma_sorted_union_props(a, b);
    s.lemma_multiset_has_no_duplicates();
    lemma_lookup_iff_member(a, x);
    lemma_lookup_iff_member(b, x);
    if lookup(a, x) is Some || lookup(b, x) is Some {
        assert(s.to_set().contains(x));
        assert(s.contains(x));
        assert(s.to_multiset().count(x) == 1);
    } else {
        assert(!s.to_set().contains(x));
        assert(!s.contains(x));
        assert(s.to_multiset().count(x) == 0);
    }
}

proof fn lemma_cat_count(a: Seq<RecV>, b: Seq<RecV>, partitions: nat, n: int, x: Seq<Seq<u8>>)
    requires
        recs_unique(a),
        recs_unique(b),
        0 <= n <= partitions,
    ensures
        cat_keys(a, b, partitions, n).to_multiset().count(x) == (if (lookup(a, x) is Some
            || lookup(b, x) is Some) && 0 <= key_part(x, partitions) < n {
            1nat
        } else {
            0nat
        }),
    decreases n,
{
    broadcast use group_to_multiset_ensures;
    broadcast use vstd::multiset::group_multiset_axioms;

    if n == 0 {
        assert(cat_keys(a, b, partitions, 0).to_multiset() =~= Multiset::<Seq<Seq<u8>>>::empty());
    } else {
        lemma_cat_count(a, b, partitions, n - 1, x);
        lemma_union_count(a, b, partitions, n - 1, x);
        lemma_multiset_commutative(
            cat_keys(a, b, partitions, n - 1),
            sorted_union(part_filter(a, partitions, n - 1), part_filter(b, partitions, n - 1)),
        );
    }
}

/// Partition-invariance: for any partition count, the body events of
/// the partitioned run are, as a multiset, exactly the body events of
/// the unpartitioned run.  Partitioning regroups the global key order
/// into per-partition orders; it neither loses, invents nor changes
/// any event.
pub proof fn law_partition_invariance(
    a: Seq<RecV>,
    b: Seq<RecV>,
    partitions: nat,
    kc: Seq<Seq<u8>>,
    cols: Seq<Seq<u8>>,
    emit_unchanged: bool,
)
    requires
        partitions >= 1,
        recs_unique(a),
        recs_unique(b),
    ensures
        part_events(
            Seq::new(partitions, |p: int| part_filter(a, partitions, p)),
            Seq::new(partitions, |p: int| part_filter(b, partitions, p)),
            partitions as int,
            kc,
            cols,
            emit_unchanged,
        ).to_multiset() == keyed_events(
            sorted_union(a, b),
            kc,
            a,
            b,
            cols,
            emit_unchanged,
        ).to_multiset(),
{
    lemma_part_events_cat(a, b, partitions, partitions as int, kc, cols, emit_unchanged);
    let cat = cat_keys(a, b, partitions, partitions as int);
    assert(cat.to_multiset() =~= sorted_union(a, b).to_multiset()) by {
        assert forall|x: Seq<Seq<u8>>| true implies cat.to_multiset().count(x) == sorted_union(
            a,
            b,
        ).to_multiset().count(x) by {
            lemma_cat_count(a, b, partitions, partitions as int, x);
            lemma_global_count(a, b, x);
            assert(0 <= key_part(x, partitions) < partitions);
        }
    }
    lemma_keyed_events_perm(cat, sorted_union(a, b), kc, a, b, cols, emit_unchanged);
}

/// Difference detection is symmetric in its two rows.
proof fn lemma_changed_cols_sym(
    cols: Seq<Seq<u8>>,
    x: Seq<(Seq<u8>, Seq<u8>)>,
    y: Seq<(Seq<u8>, Seq<u8>)>,
)
    ensures
        changed_cols(cols, x, y) == changed_cols(cols, y, x),
    decreases cols.len(),
{
    if cols.len() > 0 {
        lemma_changed_cols_sym(cols.drop_last(), x, y);
    }
}

/// What an event becomes when the two sides swap roles: `added` and
/// `removed` trade places, a `changed` event swaps its before/after
/// rows and each delta entry's from/to values, everything else is
/// unchanged.
pub open spec fn swap_event(e: EventV) -> EventV {
    match e {
        EventV::Added { id, row } => EventV::Removed { id, row },
        EventV::Removed { id, row } => EventV::Added { id, row },
        EventV::Changed { id, changed, before, after, delta } => EventV::Changed {
            id,
            changed,
            before: after,
            after: before,
            delta: Seq::new(delta.len(), |i: int| (delta[i].0, delta[i].2, delta[i].1)),
        },
        _ => e,
    }
}

proof fn lemma_swap_events_pointwise(
    keys: Seq<Seq<Seq<u8>>>,
    kc: Seq<Seq<u8>>,
    a: Seq<RecV>,
    b: Seq<RecV>,
    cols: Seq<Seq<u8>>,
    eu: bool,
)
    requires
        !eu,
    ensures
        keyed_events(keys, kc, b, a, cols, eu) =~= Seq::new(
            keyed_events(keys, kc, a, b, cols, eu).len(),
            |i: int| swap_event(keyed_events(keys, kc, a, b, cols, eu)[i]),
        ),
        keyed_stats(keys, b, a, cols) == (StatsV {
            added: keyed_stats(keys, a, b, cols).removed,
            removed: keyed_stats(keys, a, b, cols).added,
            ..keyed_stats(keys, a, b, cols)
        }),
    decreases keys.len(),
{
    if keys.len() > 0 {
        lemma_swap_events_pointwise(keys.drop_last(), kc, a, b, cols, eu);
        let k = keys.last();
        let o_ab = keyed_event(k, kc, lookup(a, k), lookup(b, k), cols, eu);
        let o_ba = keyed_event(k, kc, lookup(b, k), lookup(a, k), cols, eu);
        match (lookup(a, k), lookup(b, k)) {
            (Option::Some(ra), Option::Some(rb)) => {
                lemma_changed_cols_sym(cols, ra.row, rb.row);
                let ch = changed_cols(cols, ra.row, rb.row);
                if ch.len() != 0 {
                    assert(crate::diff::delta_of(ch, rb.row, ra.row) =~= Seq::new(
                        crate::diff::delta_of(ch, ra.row, rb.row).len(),
                        |i: int|
                            (
                                crate::diff::delta_of(ch, ra.row, rb.row)[i].0,
                                crate::diff::delta_of(ch, ra.row, rb.row)[i].2,
                                crate::diff::delta_of(ch, ra.row, rb.row)[i].1,
                            ),
                    ));
                }
            },
            _ => {},
        }
        assert(opt_event(o_ba) =~= Seq::new(
            opt_event(o_ab).len(),
            |i: int| swap_event(opt_event(o_ab)[i]),
        ));
        let e_ab = keyed_events(keys, kc, a, b, cols, eu);
        let e_ba = keyed_events(keys, kc, b, a, cols, eu);
        let p_ab = keyed_events(keys.drop_last(), kc, a, b, cols, eu);
        let p_ba = keyed_events(keys.drop_last(), kc, b, a, cols, eu);
        assert(e_ab == p_ab + opt_event(o_ab));
        assert(e_ba == p_ba + opt_event(o_ba));
        assert(p_ba.len() == p_ab.len());
        assert forall|i: int| 0 <= i < e_ba.len() implies e_ba[i] == swap_event(e_ab[i]) by {
            if i < p_ab.len() {
                assert(e_ba[i] == p_ba[i]);
                assert(p_ba[i] == swap_event(p_ab[i]));
                assert(e_ab[i] == p_ab[i]);
            } else {
                assert(e_ba[i] == opt_event(o_ba)[i - p_ab.len()]);
                assert(e_ab[i] == opt_event(o_ab)[i - p_ab.len()]);
            }
        }
    }
}

/// Swapping the two inputs keeps the same key sequence.
proof fn lemma_sorted_union_sym(a: Seq<RecV>, b: Seq<RecV>)
    requires
        recs_unique(a),
        recs_unique(b),
    ensures
        sorted_union(b, a) == sorted_union(a, b),
{
    assert(sorted_union(b, a).to_multiset() =~= sorted_union(a, b).to_multiset()) by {
        assert forall|x: Seq<Seq<u8>>| true implies sorted_union(b, a).to_multiset().count(x)
            == sorted_union(a, b).to_multiset().count(x) by {
            lemma_global_count(a, b, x);
            lemma_global_count(b, a, x);
        }
    }
    lemma_key_total_ordering();
    union_keys(a, b).lemma_sort_by_ensures(key_order());
    union_keys(b, a).lemma_sort_by_ensures(key_order());
    broadcast use group_to_multiset_ensures;

    vstd::seq_lib::lemma_sorted_unique(sorted_union(b, a), sorted_union(a, b), key_order());
}

/// Symmetry under swap: exchanging the two inputs visits the same
/// keys in the same order, turns every `added` into a `removed` and
/// the reverse, swaps every `changed` event's before/after rows and
/// from/to values while keeping its changed-column list, and swaps
/// the added and removed counters.  Stated with unchanged events
/// suppressed: an emitted `unchanged` event carries the first side's
/// row, whose column order may differ between the sides.
pub proof fn law_swap_symmetry(
    a: Seq<RecV>,
    b: Seq<RecV>,
    kc: Seq<Seq<u8>>,
    cols: Seq<Seq<u8>>,
    emit_unchanged: bool,
)
    requires
        !emit_unchanged,
        recs_unique(a),
        recs_unique(b),
    ensures
        keyed_events(sorted_union(b, a), kc, b, a, cols, emit_unchanged) == Seq::new(
            keyed_events(sorted_union(a, b), kc, a, b, cols, emit_unchanged).len(),
            |i: int|
                swap_event(keyed_events(sorted_union(a, b), kc, a, b, cols, emit_unchanged)[i]),
        ),
        keyed_stats(sorted_union(b, a), b, a, cols) == (StatsV {
            added: keyed_stats(sorted_union(a, b), a, b, cols).removed,
            removed: keyed_stats(sorted_union(a, b), a, b, cols).added,
            ..keyed_stats(sorted_union(a, b), a, b, cols)
        }),
{
    lemma_sorted_union_sym(a, b);
    lemma_swap_events_pointwise(sorted_union(a, b), kc, a, b, cols, emit_unchanged);
}

/// Counters compose: the counters of two plans in sequence are the
/// sums of their counters.
proof fn lemma_keyed_stats_concat(
    x: Seq<Seq<Seq<u8>>>,
    y: Seq<Seq<Seq<u8>>>,
    a: Seq<RecV>,
    b: Seq<RecV>,
    cols: Seq<Seq<u8>>,
)
    ensures
        keyed_stats(x + y, a, b, cols) == crate::diff::stats_plus(
            keyed_stats(x, a, b, cols),
            keyed_stats(y, a, b, cols),
        ),
    decreases y.len(),
{
    if y.len() == 0 {
        assert(x + y =~= x);
    } else {
        lemma_keyed_stats_concat(x, y.drop_last(), a, b, cols);
        assert((x + y).drop_last() =~= x + y.drop_last());
        assert((x + y).last() == y.last());
    }
}

/// Two plans with the same key multiset have the same counters.
proof fn lemma_keyed_stats_perm(
    k1: Seq<Seq<Seq<u8>>>,
    k2: Seq<Seq<Seq<u8>>>,
    a: Seq<RecV>,
    b: Seq<RecV>,
    cols: Seq<Seq<u8>>,
)
    requires
        k1.to_multiset() == k2.to_multiset(),
    ensures
        keyed_stats(k1, a, b, cols) == keyed_stats(k2, a, b, cols),
    decreases k1.len(),
{
    broadcast use group_to_multiset_ensures;
    broadcast use vstd::multiset::group_multiset_axioms;

    if k1.len() == 0 {
        assert(k2.to_multiset().len() == 0);
        assert(k1 =~= k2);
    } else {
        let k = k1.last();
        let d1 = k1.drop_last();
        assert(k1 =~= d1.push(k));
        assert(k1.to_multiset().count(k) > 0) by {
            assert(k1.contains(k)) by {
                assert(k1[k1.len() - 1] == k);
            }
        }
        assert(k2.to_multiset().count(k) > 0);
        assert(k2.contains(k));
        let j = choose|j: int| 0 <= j < k2.len() && k2[j] == k;
        let x = k2.take(j);
        let y = k2.skip(j + 1);
        assert(k2 =~= x + (seq![k] + y));
        lemma_multiset_commutative(x, seq![k] + y);
        lemma_multiset_commutative(seq![k], y);
        assert(seq![k].to_multiset() =~= Multiset::empty().insert(k));
        let d2 = x + y;
        lemma_multiset_commutative(x, y);
        assert(d1.to_multiset() =~= d2.to_multiset()) by {
            assert(k1.to_multiset() =~= d1.to_multiset().insert(k));
            assert(k2.to_multiset() =~= d2.to_multiset().insert(k));
            assert forall|z: Seq<Seq<u8>>| true implies d1.to_multiset().count(z)
                == d2.to_multiset().count(z) by {
                assert(d1.to_multiset().insert(k).count(z) == d2.to_multiset().insert(k).count(z));
            }
        }
        lemma_keyed_stats_perm(d1, d2, a, b, cols);
        lemma_keyed_stats_concat(x, seq![k] + y, a, b, cols);
        lemma_keyed_stats_concat(seq![k], y, a, b, cols);
        lemma_keyed_stats_concat(x, y, a, b, cols);
        assert(seq![k].drop_last() =~= Seq::<Seq<Seq<u8>>>::empty());
        assert(seq![k].last() == k);
        let delta = crate::diff::stats_bump(
            crate::diff::stats_zero(),
            lookup(a, k),
            lookup(b, k),
            cols,
        );
        assert(keyed_stats(seq![k].drop_last(), a, b, cols) == crate::diff::stats_zero());
        assert(keyed_stats(seq![k], a, b, cols) == delta);
        lemma_stats_bump_as_plus(keyed_stats(d1, a, b, cols), lookup(a, k), lookup(b, k), cols);
        lemma_stats_bump_as_plus(keyed_stats(d2, a, b, cols), lookup(a, k), lookup(b, k), cols);
        assert(keyed_stats(k1, a, b, cols) == crate::diff::stats_bump(
            keyed_stats(d1, a, b, cols),
            lookup(a, k),
            lookup(b, k),
            cols,
        ));
        assert(keyed_stats(k2, a, b, cols) == crate::diff::stats_plus(
            keyed_stats(x, a, b, cols),
            crate::diff::stats_plus(delta, keyed_stats(y, a, b, cols)),
        ));
        assert(keyed_stats(k2, a, b, cols) == crate::diff::stats_plus(
            keyed_stats(d2, a, b, cols),
            delta,
        ));
    }
}

/// Moving the counters for one key adds that key's contribution.
proof fn lemma_stats_bump_as_plus(
    st: StatsV,
    ra: Option<RecV>,
    rb: Option<RecV>,
    cols: Seq<Seq<u8>>,
)
    ensures
        crate::diff::stats_bump(st, ra, rb, cols) == crate::diff::stats_plus(
            st,
            crate::diff::stats_bump(crate::diff::stats_zero(), ra, rb, cols),
        ),
{
}

proof fn lemma_part_stats_cat(
    a: Seq<RecV>,
    b: Seq<RecV>,
    partitions: nat,
    n: int,
    cols: Seq<Seq<u8>>,
)
    requires
        0 <= n <= partitions,
    ensures
        crate::plan::part_stats(
            Seq::new(partitions, |p: int| part_filter(a, partitions, p)),
            Seq::new(partitions, |p: int| part_filter(b, partitions, p)),
            n,
            cols,
        ) == keyed_stats(cat_keys(a, b, partitions, n), a, b, cols),
    decreases n,
{
    let pa = Seq::new(partitions, |p: int| part_filter(a, partitions, p));
    let pb = Seq::new(partitions, |p: int| part_filter(b, partitions, p));
    if n == 0 {
        assert(keyed_stats(cat_keys(a, b, partitions, 0), a, b, cols) =~= crate::diff::stats_zero());
    } else {
        lemma_part_stats_cat(a, b, partitions, n - 1, cols);
        let kp = sorted_union(part_filter(a, partitions, n - 1), part_filter(b, partitions, n - 1));
        assert forall|i: int| 0 <= i < kp.len() implies key_part(
            #[trigger] kp[i],
            partitions,
        ) == n - 1 by {
            lemma_partition_union_routed(a, b, partitions, n - 1, i);
        }
        // only the stats clause is needed; it does not involve the
        // key columns or the unchanged flag
        lemma_partition_events_eq(kp, Seq::empty(), a, b, partitions, n - 1, cols, false);
        lemma_keyed_stats_concat(cat_keys(a, b, partitions, n - 1), kp, a, b, cols);
        assert(pa[n - 1] == part_filter(a, partitions, n - 1));
        assert(pb[n - 1] == part_filter(b, partitions, n - 1));
    }
}

/// Partition-invariance of the counters: the partitioned run's final
/// counters equal the unpartitioned run's.
pub proof fn law_partition_invariant_stats(
    a: Seq<RecV>,
    b: Seq<RecV>,
    partitions: nat,
    cols: Seq<Seq<u8>>,
)
    requires
        partitions >= 1,
        recs_unique(a),
        recs_unique(b),
    ensures
        crate::plan::part_stats(
            Seq::new(partitions, |p: int| part_filter(a, partitions, p)),
            Seq::new(partitions, |p: int| part_filter(b, partitions, p)),
            partitions as int,
            cols,
        ) == keyed_stats(sorted_union(a, b), a, b, cols),
{
    lemma_part_stats_cat(a, b, partitions, partitions as int, cols);
    let cat = cat_keys(a, b, partitions, partitions as int);
    assert(cat.to_multiset() =~= sorted_union(a, b).to_multiset()) by {
        assert forall|x: Seq<Seq<u8>>| true implies cat.to_multiset().count(x) == sorted_union(
            a,
            b,
        ).to_multiset().count(x) by {
            lemma_cat_count(a, b, partitions, partitions as int, x);
            lemma_global_count(a, b, x);
            assert(0 <= key_part(x, partitions) < partitions);
        }
    }
    lemma_keyed_stats_perm(cat, sorted_union(a, b), a, b, cols);
}

} // verus!

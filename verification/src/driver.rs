//! The run driver.
//!
//! A run computes the full event sequence, optionally interleaves
//! progress frames, and hands each event to a sink, polling a
//! cancellation probe before every delivery.  The sink and the probe
//! are capabilities the caller implements; nothing is assumed of them,
//! so the contracts here classify outcomes rather than promise
//! delivery: a data error is surfaced exactly as the diff contracts
//! lay it out, and an `Ok` run is one that neither the probe nor the
//! sink interrupted.

use vstd::prelude::*;
use crate::diff::{diff_csv_bytes, diff_spec, side_read_ok, side_recs_spec};
use crate::error::EngineError;
use crate::options::{DiffOptions, EngineRunConfig};
use crate::plan::{parts_view, total_len, partition_inputs_to_spill,
    diff_partitioned_from_manifest, lemma_partition_total, part_filter, plan_valid};
use crate::records::{Event, EventV, event_view, events_view, is_body_event};

verus! {

/// A downstream consumer of events.  Implementations may write to
/// stdout, to a file, or collect in memory; delivery may fail with a
/// message.
pub trait EventSink {
    fn on_event(&mut self, event: &Event) -> Result<(), String>;
}

/// A cooperative cancellation probe, polled between deliveries.
pub trait CancelCheck {
    fn cancelled(&self) -> bool;
}

/// A probe that never trips.
pub struct NeverCancel;

impl CancelCheck for NeverCancel {
    fn cancelled(&self) -> bool {
        false
    }
}

/// A progress frame.
pub open spec fn progress_frame(done: nat, total: nat) -> EventV {
    EventV::Progress { events_done: done, events_total: total }
}

/// The planned events with progress frames woven in, starting after
/// `done0` delivered events of which `body0` were body events: each
/// event is followed by a frame when it completes a full interval of
/// body events.
pub open spec fn weave_progress(
    events: Seq<EventV>,
    interval: nat,
    done0: nat,
    body0: nat,
    total: nat,
) -> Seq<EventV>
    decreases events.len(),
{
    if events.len() == 0 {
        Seq::empty()
    } else {
        let e = events[0];
        let done = done0 + 1;
        let body = body0 + (if is_body_event(e) {
            1nat
        } else {
            0nat
        });
        seq![e] + (if is_body_event(e) && interval > 0 && body % interval == 0 {
            seq![progress_frame(done, total)]
        } else {
            Seq::empty()
        }) + weave_progress(events.skip(1), interval, done, body, total)
    }
}

/// The full outgoing sequence when progress is enabled: one frame
/// before anything else (zero events done), the planned events with
/// interval frames woven in, and one frame after the final event.
pub open spec fn with_progress(events: Seq<EventV>, interval: nat) -> Seq<EventV> {
    seq![progress_frame(0, events.len())] + weave_progress(events, interval, 0, 0, events.len())
        + seq![progress_frame(events.len(), events.len())]
}

/// The number of body events in a sequence.
pub open spec fn count_body(events: Seq<EventV>) -> nat
    decreases events.len(),
{
    if events.len() == 0 {
        0
    } else {
        count_body(events.drop_last()) + (if is_body_event(events.last()) {
            1nat
        } else {
            0nat
        })
    }
}

/// Appending one event to the plan appends it to the weave, with its
/// interval frame when it completes one.
proof fn lemma_weave_push(s: Seq<EventV>, e: EventV, interval: nat, d0: nat, b0: nat, total: nat)
    ensures
        weave_progress(s.push(e), interval, d0, b0, total) == weave_progress(
            s,
            interval,
            d0,
            b0,
            total,
        ) + (seq![e] + (
        if is_body_event(e) && interval > 0 && (b0 + count_body(s) + 1) % interval == 0 {
            seq![progress_frame(d0 + s.len() + 1, total)]
        } else {
            Seq::empty()
        })),
    decreases s.len(),
{
    assert(s.push(e).drop_last() =~= s);
    assert(s.push(e).last() == e);
    if s.len() == 0 {
        reveal_with_fuel(weave_progress, 3);
        assert(s.push(e)[0] == e);
        assert(s.push(e).skip(1) =~= Seq::<EventV>::empty());
        assert(weave_progress(s, interval, d0, b0, total) =~= Seq::<EventV>::empty());
        assert(count_body(s) == 0);
        if is_body_event(e) && interval > 0 && (b0 + 1) % interval == 0 {
            assert(weave_progress(s.push(e), interval, d0, b0, total) =~= seq![e] + seq![
                progress_frame(d0 + 1, total),
            ]);
            assert(weave_progress(s, interval, d0, b0, total) + (seq![e] + seq![
                progress_frame(d0 + s.len() + 1, total),
            ]) =~= seq![e] + seq![progress_frame(d0 + 1, total)]);
        } else {
            assert(weave_progress(s.push(e), interval, d0, b0, total) =~= seq![e]);
            assert(weave_progress(s, interval, d0, b0, total) + (seq![e]
                + Seq::<EventV>::empty()) =~= seq![e]);
        }
    } else {
        let h = s[0];
        assert(s.push(e)[0] == h);
        assert(s.push(e).skip(1) =~= s.skip(1).push(e));
        let d1 = (d0 + 1) as nat;
        let b1 = (b0 + (if is_body_event(h) {
            1nat
        } else {
            0nat
        })) as nat;
        lemma_weave_push(s.skip(1), e, interval, d1, b1, total);
        lemma_count_body_skip(s);
        assert(s.skip(1).len() == s.len() - 1);
    }
}

proof fn lemma_count_body_skip(s: Seq<EventV>)
    requires
        s.len() > 0,
    ensures
        count_body(s) == count_body(s.skip(1)) + (if is_body_event(s[0]) {
            1nat
        } else {
            0nat
        }),
    decreases s.len(),
{
    if s.len() == 1 {
        assert(s.skip(1) =~= Seq::<EventV>::empty());
        assert(s.drop_last() =~= Seq::<EventV>::empty());
        assert(s.last() == s[0]);
    } else {
        assert(s.drop_last().len() > 0);
        lemma_count_body_skip(s.drop_last());
        assert(s.skip(1).drop_last() =~= s.drop_last().skip(1));
        assert(s.drop_last()[0] == s[0]);
        assert(s.skip(1).last() == s.last());
    }
}

proof fn lemma_count_body_push(events: Seq<EventV>, e: EventV)
    ensures
        count_body(events.push(e)) == count_body(events) + (if is_body_event(e) {
            1nat
        } else {
            0nat
        }),
{
    assert(events.push(e).drop_last() =~= events);
    assert(events.push(e).last() == e);
}

/// Weaves progress frames into a planned event sequence: a frame with
/// zero done first, a frame after every full interval of body events,
/// and a frame after the final event.
pub fn with_progress_exec(events: Vec<Event>, interval: usize) -> (r: Vec<Event>)
    requires
        interval >= 1,
    ensures
        events_view(r@) == with_progress(events_view(events@), interval as nat),
{
    let ghost ev = events_view(events@);
    let total = events.len();
    let mut out: Vec<Event> = Vec::new();
    out.push(Event::Progress { events_done: 0, events_total: total });
    let mut body: usize = 0;
    proof {
        assert(ev.take(0) =~= Seq::<EventV>::empty());
        assert(count_body(ev.take(0)) == 0);
        assert(weave_progress(ev.take(0), interval as nat, 0, 0, ev.len()) =~= Seq::<
            EventV,
        >::empty());
        assert(events_view(out@) =~= seq![progress_frame(0, ev.len())] + weave_progress(
            ev.take(0),
            interval as nat,
            0,
            0,
            ev.len(),
        ));
    }
    let n = events.len();
    let mut i: usize = 0;
    let mut rest = events;
    while i < n
        invariant
            i <= n,
            interval >= 1,
            n == ev.len(),
            total == n,
            rest@.len() == n - i,
            events_view(rest@) == ev.skip(i as int),
            body <= i,
            body as nat == count_body(ev.take(i as int)),
            events_view(out@) == seq![progress_frame(0, ev.len())] + weave_progress(
                ev.take(i as int),
                interval as nat,
                0,
                0,
                ev.len(),
            ),
        decreases n - i,
    {
        let ghost rest_pre = rest@;
        let e = rest.remove(0);
        proof {
            assert(ev.skip(i as int)[0] == ev[i as int]);
            assert(events_view(rest_pre)[0] == event_view(rest_pre[0]));
            assert(event_view(e) == ev[i as int]);
            assert forall|j: int| 0 <= j < rest@.len() implies events_view(rest@)[j] == ev.skip(
                i as int + 1,
            )[j] by {
                assert(rest@[j] == rest_pre[j + 1]);
                assert(events_view(rest_pre)[j + 1] == ev.skip(i as int)[j + 1]);
                assert(ev.skip(i as int)[j + 1] == ev[i as int + 1 + j]);
                assert(ev.skip(i as int + 1)[j] == ev[i as int + 1 + j]);
            }
            assert(events_view(rest@) =~= ev.skip(i as int + 1));
        }
        let ghost out_pre = events_view(out@);
        let e_is_body = match &e {
            Event::Added { .. } => true,
            Event::Removed { .. } => true,
            Event::Changed { .. } => true,
            Event::Unchanged { .. } => true,
            _ => false,
        };
        out.push(e);
        let mut pushed_frame = false;
        if e_is_body {
            body = body + 1;
            if body % interval == 0 {
                out.push(Event::Progress { events_done: i + 1, events_total: total });
                pushed_frame = true;
            }
        }
        proof {
            assert(ev.take(i as int + 1) =~= ev.take(i as int).push(ev[i as int]));
            lemma_count_body_push(ev.take(i as int), ev[i as int]);
            lemma_weave_push(
                ev.take(i as int),
                ev[i as int],
                interval as nat,
                0,
                0,
                ev.len(),
            );
            if pushed_frame {
                assert(events_view(out@) =~= out_pre + (seq![ev[i as int]] + seq![
                    progress_frame((i + 1) as nat, ev.len()),
                ]));
            } else {
                assert(events_view(out@) =~= out_pre + (seq![ev[i as int]]
                    + Seq::<EventV>::empty()));
            }
            assert(events_view(out@) =~= seq![progress_frame(0, ev.len())] + weave_progress(
                ev.take(i as int + 1),
                interval as nat,
                0,
                0,
                ev.len(),
            ));
        }
        i = i + 1;
    }
    out.push(Event::Progress { events_done: total, events_total: total });
    proof {
        assert(ev.take(n as int) =~= ev);
        assert(events_view(out@) =~= with_progress(ev, interval as nat));
    }
    out
}

/// Delivers events to the sink in order, polling the cancellation
/// probe before each delivery.  The result only classifies: the data
/// was fine, delivery failed, or the run was cancelled.
fn send_all<C: CancelCheck, S: EventSink>(events: &Vec<Event>, cancel_check: &C, sink: &mut S) -> (r:
    Result<(), EngineError>)
    ensures
        r matches Err(e) ==> (e is Cancelled || e is Sink),
{
    let mut i: usize = 0;
    while i < events.len()
        invariant
            i <= events@.len(),
        decreases events@.len() - i,
    {
        if cancel_check.cancelled() {
            return Err(EngineError::Cancelled);
        }
        match sink.on_event(&events[i]) {
            Ok(_) => {},
            Err(message) => {
                return Err(EngineError::Sink(message));
            },
        }
        i = i + 1;
    }
    Ok(())
}

/// Runs a diff of two CSV byte buffers into a sink, with the default
/// run configuration: no progress frames, no partitioning.
pub fn run_keyed_to_sink<C: CancelCheck, S: EventSink>(
    a_bytes: &[u8],
    b_bytes: &[u8],
    options: &DiffOptions,
    cancel_check: &C,
    sink: &mut S,
) -> (r: Result<(), EngineError>)
    ensures
        ({
            let spec_r = diff_spec(
                a_bytes@,
                b_bytes@,
                options.key_columns.deep_view(),
                options.header_mode is Sorted,
                options.emit_unchanged,
            );
            &&& (spec_r matches Err(code) ==> (r matches Err(e) && e matches EngineError::Diff(d)
                && d.code@ == code))
            &&& (spec_r is Ok ==> (r is Ok || (r matches Err(e) && (e is Cancelled
                || e is Sink))))
        }),
{
    let run_config = EngineRunConfig::new_default();
    run_keyed_to_sink_with_config(a_bytes, b_bytes, options, &run_config, cancel_check, sink)
}

/// Runs a diff of two CSV byte buffers into a sink.  With a partition
/// count and key columns the partitioned path is taken; otherwise the
/// whole input is diffed in memory.  Progress frames are woven in on
/// request.  The diff's own contracts pin which events are planned;
/// here every data error surfaces with the code its cause dictates,
/// and on valid data only the probe or the sink can interrupt the
/// run.
pub fn run_keyed_to_sink_with_config<C: CancelCheck, S: EventSink>(
    a_bytes: &[u8],
    b_bytes: &[u8],
    options: &DiffOptions,
    run_config: &EngineRunConfig,
    cancel_check: &C,
    sink: &mut S,
) -> (r: Result<(), EngineError>)
    ensures
        ({
            let kc = options.key_columns.deep_view();
            let sorted_mode = options.header_mode is Sorted;
            let partitioned = run_config.partition_count is Some && kc.len() > 0;
            &&& (!partitioned ==> {
                let spec_r = diff_spec(a_bytes@, b_bytes@, kc, sorted_mode, options.emit_unchanged);
                &&& (spec_r matches Err(code) ==> (r matches Err(e) && e
                    matches EngineError::Diff(d) && d.code@ == code))
                &&& (spec_r is Ok ==> (r is Ok || (r matches Err(e) && (e is Cancelled
                    || e is Sink))))
            })
            &&& (partitioned ==> {
                let partitions = run_config.partition_count->Some_0;
                let ha = crate::diff::side_header(a_bytes@);
                let hb = crate::diff::side_header(b_bytes@);
                let ra = crate::diff::side_recs_spec(a_bytes@, kc);
                let rb = crate::diff::side_recs_spec(b_bytes@, kc);
                let valid = partitions >= 1 && plan_valid(a_bytes@, b_bytes@, kc, sorted_mode);
                let unique = forall|p: int|
                    0 <= p < partitions ==> #[trigger] crate::diff::recs_unique(
                        part_filter(ra, partitions as nat, p),
                    ) && crate::diff::recs_unique(part_filter(rb, partitions as nat, p));
                &&& (valid && unique ==> (r is Ok || (r matches Err(e) && (e is Cancelled
                    || e is Sink))))
                &&& (partitions == 0 ==> (r matches Err(e) && e is Storage))
                &&& (r matches Err(e) ==> (e is Storage ==> partitions == 0))
                &&& (partitions >= 1 && !side_read_ok(a_bytes@) ==> (r matches Err(e) && e
                    matches EngineError::Diff(d) && d.code@ == crate::diff::side_err_code(
                    a_bytes@,
                )))
                &&& (partitions >= 1 && side_read_ok(a_bytes@) && !side_read_ok(b_bytes@) ==> (
                r matches Err(e) && e matches EngineError::Diff(d) && d.code@
                    == crate::diff::side_err_code(b_bytes@)))
                &&& (partitions >= 1 && side_read_ok(a_bytes@) && side_read_ok(b_bytes@)
                    && !crate::diff::headers_ok(ha, hb, sorted_mode) ==> (r matches Err(e) && e
                    matches EngineError::Diff(d) && d.code@ == "header_mismatch"@))
                &&& (partitions >= 1 && side_read_ok(a_bytes@) && side_read_ok(b_bytes@)
                    && crate::diff::headers_ok(ha, hb, sorted_mode) && !(
                crate::diff::keys_present(ha, kc) && crate::diff::keys_present(hb, kc)) ==> (
                r matches Err(e) && e matches EngineError::Diff(d) && d.code@
                    == "missing_key_column"@))
                &&& (partitions >= 1 && side_read_ok(a_bytes@) && side_read_ok(b_bytes@)
                    && crate::diff::headers_ok(ha, hb, sorted_mode) && crate::diff::keys_present(
                    ha,
                    kc,
                ) && crate::diff::keys_present(hb, kc) && !plan_valid(
                    a_bytes@,
                    b_bytes@,
                    kc,
                    sorted_mode,
                ) ==> (r matches Err(e) && e matches EngineError::Diff(d) && d.code@
                    == "missing_key_value"@))
                &&& (valid && !unique ==> (r matches Err(e) && e matches EngineError::Diff(d)
                    && d.code@ == "duplicate_key"@))
            })
        }),
{
    let partitioned = match run_config.partition_count {
        Some(_) => options.key_columns.len() > 0,
        None => false,
    };
    let events = if partitioned {
        let partitions = match run_config.partition_count {
            Some(p) => p,
            None => 1,
        };
        let manifest = match partition_inputs_to_spill(a_bytes, b_bytes, options, partitions) {
            Ok(m) => m,
            Err(e) => {
                return Err(e);
            },
        };
        let a_len = a_bytes.len();
        let b_len = b_bytes.len();
        proof {
            let kc = options.key_columns.deep_view();
            let ra = side_recs_spec(a_bytes@, kc);
            let rb = side_recs_spec(b_bytes@, kc);
            crate::csv::lemma_csv_lex_len(a_bytes@);
            crate::csv::lemma_csv_lex_len(b_bytes@);
            assert(2 * ra.len() <= a_len);
            assert(2 * rb.len() <= b_len);
            assert(parts_view(manifest.parts_a@) =~= Seq::new(
                partitions as nat,
                |p: int| part_filter(ra, partitions as nat, p),
            ));
            assert(parts_view(manifest.parts_b@) =~= Seq::new(
                partitions as nat,
                |p: int| part_filter(rb, partitions as nat, p),
            ));
            lemma_partition_total(ra, partitions as nat);
            lemma_partition_total(rb, partitions as nat);
            assert(total_len(parts_view(manifest.parts_a@)) == ra.len());
            assert(total_len(parts_view(manifest.parts_b@)) == rb.len());
        }
        match diff_partitioned_from_manifest(&manifest, options) {
            Ok(v) => v,
            Err(e) => {
                return Err(e);
            },
        }
    } else {
        match diff_csv_bytes(a_bytes, b_bytes, options) {
            Ok(v) => v,
            Err(e) => {
                return Err(EngineError::Diff(e));
            },
        }
    };
    let full = if run_config.emit_progress {
        let interval = if run_config.progress_interval_events >= 1 {
            run_config.progress_interval_events
        } else {
            1
        };
        with_progress_exec(events, interval)
    } else {
        events
    };
    send_all(&full, cancel_check, sink)
}

} // verus!

//! What a replay publishes and hands out, and what an export or a round trip
//! finds.

use crate::alike::Alike;
use crate::event::CoordinatorRecord;
use crate::events::{EventId, EventModel, EventSource, Record, RunEvent};
use crate::events::derivation::blank_run;
use crate::events::export::{
    coordinator_failure, difference, execution_failure, export_failure, lines_stored, parting,
    replay_failure, CoordinatorExport, Difference, ExecutionExport, ExportError, SeqValue,
};
use crate::events::follow::{
    advanced, first_out_of_sequence, fold_one, followed, fresh_replay, refused, tail_folded,
    tail_published, tail_read, tail_step, tail_time, tails_read, ExecutionTail, FoldModel,
    FollowModel, ReplayModel, TailStep,
};
use crate::events::lossless::{
    lifecycle_apart, parts_at, records_apart, stored_externals, stream_failure, streams_part,
    times_after, told_by, LosslessError,
};
use crate::events::projector::{
    after_push, delivery_stalled, finish_stalled, is_receipt, label_of, ProjectionReceipt, PumpEnd,
    Queue, SendOutcome,
};
use crate::events::replay::{
    all_published, derive_all, held_times, id_after, is_past, lifecycle_stream, past_events,
    published, published_of, stream_from, time_of, AppliedEvent, LoadedExecution, PublishedModel,
};
use crate::events::same::same_event;
use crate::ids::ExecutionId;
use crate::json::same_value;
use crate::record::{EventOrigin, EventRecord};
use crate::run_state::StateError;
use crate::search::{lemma_place_is, lookup};
use crate::text::decimal;
use vstd::prelude::*;
use vstd::string::*;

verus! {

// ── Positions ──────────────────────────────────────────────────────────

/// Events are in order of their log, the coordinator's first and then the
/// executions' by id, and within a log of their record and their place in it.
pub proof fn law_the_order_of_events(a: EventId, b: EventId)
    ensures
        a.source == b.source ==> (id_after(a, b) <==> b.seq < a.seq || b.seq == a.seq && b.index
            < a.index),
        a.source is Execution && b.source is Coordinator ==> id_after(a, b) && !id_after(b, a),
        a.source matches EventSource::Execution { execution: x } ==> (b.source matches
            EventSource::Execution { execution: y } ==> (x.0 != y.0 ==> (id_after(a, b) <==> y.0
            < x.0))),
{
}

/// An event is past what is held when nothing is held of its log, or what is
/// held comes before it.
pub proof fn law_what_is_past(id: EventId, held: Seq<(EventSource, EventId)>)
    ensures
        lookup(held, id.source) is None ==> is_past(id, held),
        lookup(held, id.source) matches Some(last) ==> (is_past(id, held) <==> id_after(id, last)),
{
}

/// The events past what is held are kept in order, each once.
pub proof fn law_past_events_are_kept(
    events: Seq<RunEvent>,
    event: RunEvent,
    held: Seq<(EventSource, EventId)>,
)
    ensures
        past_events(Seq::empty(), held).len() == 0,
        is_past(event.id, held) ==> past_events(events.push(event), held) == past_events(
            events,
            held,
        ).push(event),
        !is_past(event.id, held) ==> past_events(events.push(event), held) == past_events(
            events,
            held,
        ),
{
    assert(events.push(event).drop_last() =~= events);
}

// ── What is published ──────────────────────────────────────────────────

/// A record of an apply is published when its log holds a time for it: with
/// that time, the state after the apply and its own reading. One past the
/// log's end is not.
pub proof fn law_what_an_apply_publishes(
    execution: ExecutionId,
    applied: AppliedEvent,
    recorded_at: Seq<u64>,
    k: nat,
)
    requires
        k < applied.records@.len(),
    ensures
        ({
            let record = applied.records@[k as int];
            let before = published_of(execution, applied, k, recorded_at);
            let after = published_of(execution, applied, k + 1, recorded_at);
            &&& published_of(execution, applied, 0, recorded_at).len() == 0
            &&& record.seq >= recorded_at.len() ==> after == before
            &&& record.seq < recorded_at.len() ==> after.len() == before.len() + 1
                && after.drop_last() == before && after.last().execution == execution
                && after.last().record == record && after.last().recorded_at
                == recorded_at[record.seq as int] && after.last().state == applied.state
                && after.last().readings == applied.readings@[k as int]
        }),
{
    let before = published_of(execution, applied, k, recorded_at);
    let after = published_of(execution, applied, k + 1, recorded_at);
    if applied.records@[k as int].seq < recorded_at.len() {
        assert(after.drop_last() =~= before);
    }
}

/// Applies are published one after another, all the records of each.
pub proof fn law_applies_are_published_in_order(
    execution: ExecutionId,
    applied: Seq<AppliedEvent>,
    next: AppliedEvent,
    recorded_at: Seq<u64>,
)
    ensures
        published(execution, Seq::empty(), recorded_at).len() == 0,
        published(execution, applied.push(next), recorded_at) == published(
            execution,
            applied,
            recorded_at,
        ) + published_of(execution, next, next.records@.len(), recorded_at),
{
    assert(applied.push(next).drop_last() =~= applied);
}

/// Executions are published one after another, each with the times its log
/// has records for.
pub proof fn law_executions_are_published_in_order(
    executions: Seq<LoadedExecution>,
    next: LoadedExecution,
    i: int,
)
    ensures
        ({
            let times = held_times(next.recorded_at@, next.records@.len());
            &&& all_published(Seq::empty()).len() == 0
            &&& all_published(executions.push(next)) == all_published(executions) + published(
                next.execution,
                next.applied@,
                times,
            )
            &&& times.len() <= next.recorded_at@.len() && times.len() <= next.records@.len()
            &&& times.len() == next.recorded_at@.len() || times.len() == next.records@.len()
            &&& 0 <= i < times.len() ==> times[i] == next.recorded_at@[i]
        }),
{
    assert(executions.push(next).drop_last() =~= executions);
}

/// A run's stream is the events of its coordinator log, one record after
/// another, and behind them those of what its executions publish.
pub proof fn law_the_coordinator_s_events_come_first(
    records: Seq<CoordinatorRecord>,
    published: Seq<PublishedModel>,
)
    ensures
        ({
            let run = blank_run();
            let first = lifecycle_stream(run, records);
            let rest = derive_all(first.0, published);
            &&& stream_from(records, published).len() == first.1.len() + rest.1.len()
            &&& stream_from(records, published).take(first.1.len() as int) == first.1
            &&& stream_from(records, published).skip(first.1.len() as int) == rest.1
        }),
        lifecycle_stream(blank_run(), Seq::empty()).1.len() == 0,
        derive_all(blank_run(), Seq::empty()).1.len() == 0,
{
    let first = lifecycle_stream(blank_run(), records);
    let rest = derive_all(first.0, published);
    let all = stream_from(records, published);
    assert(all.take(first.1.len() as int) =~= first.1);
    assert(all.skip(first.1.len() as int) =~= rest.1);
}

// ── Following ──────────────────────────────────────────────────────────

/// New coordinator records are refused at the first that is not the next in
/// the log, by its place and what it carries; and a run that never started
/// is refused when all are in place.
pub proof fn law_which_coordinator_records_follow(
    records: Seq<CoordinatorRecord>,
    consumed: int,
    started: bool,
    at: int,
)
    requires
        0 <= consumed,
        consumed + records.len() <= usize::MAX,
        0 <= at <= records.len(),
        forall|j: int| 0 <= j < at ==> (#[trigger] records[j]).seq == consumed + j,
        at < records.len() ==> records[at].seq != consumed + at,
    ensures
        at < records.len() ==> (refused(records, consumed, started) matches Some(
            StateError::Sequence { index, found },
        ) && index == consumed + at && found == records[at].seq),
        at == records.len() && !started ==> refused(records, consumed, started) == Some(
            StateError::MissingRunStart,
        ),
        at == records.len() && started ==> refused(records, consumed, started) is None,
{
    let wrong = |at: int, record: CoordinatorRecord| record.seq != consumed + at;
    assert forall|j: int| 0 <= j < at implies !wrong(j, #[trigger] records[j]) by {}
    lemma_place_is(records, wrong, at);
    assert(first_out_of_sequence(records, consumed) == at);
}

/// A stored record is passed over when its events were handed out, or when it
/// is the core's own and not regenerated yet; published when the engine holds
/// it already; applied when it is a host's and the engine does not.
pub proof fn law_what_a_stored_record_asks_for(
    seq: u64,
    origin: EventOrigin,
    next: nat,
    held: nat,
)
    ensures
        tail_step(seq, origin, next, held) == TailStep::Publish <==> next <= seq < held,
        tail_step(seq, origin, next, held) == TailStep::Apply <==> next <= seq && held <= seq
            && origin == EventOrigin::External,
        tail_step(seq, origin, next, held) == TailStep::Pass <==> seq < next || held <= seq
            && origin == EventOrigin::Core,
{
}

/// A record that is regenerated while a tail is read is published when the
/// tail holds it, with the tail's time for it.
pub proof fn law_what_a_tail_publishes(
    execution: ExecutionId,
    applied: AppliedEvent,
    from: nat,
    tail: Seq<(EventRecord, u64)>,
    k: nat,
)
    requires
        k < applied.records@.len(),
    ensures
        ({
            let record = applied.records@[k as int];
            let before = tail_published(execution, applied, k, from, tail);
            let after = tail_published(execution, applied, k + 1, from, tail);
            let within = from <= record.seq < from + tail.len();
            &&& tail_published(execution, applied, 0, from, tail).len() == 0
            &&& !within ==> after == before
            &&& within ==> after.len() == before.len() + 1 && after.drop_last() == before
                && after.last().execution == execution && after.last().record == record
                && after.last().recorded_at == tail[record.seq - from].1 && after.last().state
                == applied.state && after.last().readings == applied.readings@[k as int]
        }),
{
    let before = tail_published(execution, applied, k, from, tail);
    let after = tail_published(execution, applied, k + 1, from, tail);
    if tail_time(applied.records@[k as int].seq, from, tail) is Some {
        assert(after.drop_last() =~= before);
    }
}

/// One record of a tail: passed over it changes nothing; published it shows
/// the engine's record of its place, with its own time, in the engine's
/// state; applied it takes the next apply's records and readings behind the
/// log's and the apply's state, and uses that apply up.
pub proof fn law_what_one_record_folds(
    fold: FoldModel,
    execution: ExecutionId,
    tail: Seq<(EventRecord, u64)>,
    applies: Seq<AppliedEvent>,
    i: int,
)
    requires
        0 <= i < tail.len(),
        tail[i].0.seq < u64::MAX,
    ensures
        ({
            let seq = tail[i].0.seq;
            let held = fold.follow.log.len();
            let after = fold_one(fold, execution, tail, applies, i);
            &&& seq < fold.next ==> after == fold
            &&& fold.next <= seq < held ==> {
                &&& after.next == seq + 1
                &&& after.follow == fold.follow
                &&& after.used == fold.used
                &&& after.shown.len() == fold.shown.len() + 1
                &&& after.shown.drop_last() == fold.shown
                &&& after.shown.last().execution == execution
                &&& after.shown.last().record == fold.follow.log[seq as int]
                &&& after.shown.last().recorded_at == tail[i].1
                &&& after.shown.last().state == fold.follow.state
                &&& after.shown.last().readings == fold.follow.readings[seq as int]
            }
            &&& fold.next <= seq && held <= seq && tail[i].0.origin == EventOrigin::Core ==> after
                == fold
            &&& fold.next <= seq && held <= seq && tail[i].0.origin == EventOrigin::External
                && fold.used < applies.len() ==> {
                let applied = applies[fold.used as int];
                &&& after.used == fold.used + 1
                &&& after.follow.state == applied.state
                &&& after.follow.log == fold.follow.log + applied.records@
                &&& after.follow.readings == fold.follow.readings + applied.readings@
                &&& after.follow.published == fold.follow.published
                &&& after.shown == fold.shown + tail_published(
                    execution,
                    applied,
                    applied.records@.len(),
                    fold.follow.published,
                    tail,
                )
            }
        }),
{
    let after = fold_one(fold, execution, tail, applies, i);
    if fold.next <= tail[i].0.seq < fold.follow.log.len() {
        assert(after.shown.drop_last() =~= fold.shown);
    }
}

/// A read goes as far into an execution's log as the tail is long; an empty
/// one shows nothing and changes nothing.
pub proof fn law_how_far_a_read_goes(
    follow: FollowModel,
    execution: ExecutionId,
    tail: Seq<(EventRecord, u64)>,
    applies: Seq<AppliedEvent>,
)
    ensures
        tail_folded(follow, execution, tail, applies).0.published == follow.published + tail.len(),
        tail.len() == 0 ==> tail_folded(follow, execution, tail, applies).0 == follow
            && tail_folded(follow, execution, tail, applies).1.len() == 0,
{
}

/// A tail is read for the execution followed so far, or for one that starts
/// in the state it brings with nothing published; one that is neither tells
/// nothing. Only that execution's replay changes.
pub proof fn law_whose_tail_is_read(replay: ReplayModel, tail: ExecutionTail, other: u64)
    ensures
        replay.executions.contains_key(tail.execution.0) ==> followed(replay, tail) == Some(
            replay.executions[tail.execution.0],
        ),
        !replay.executions.contains_key(tail.execution.0) ==> (tail.start matches Some(state)
            ==> (followed(replay, tail) matches Some(fresh) && fresh.state == state
            && fresh.published == 0 && fresh.log.len() == 0 && fresh.readings.len() == 0)),
        !replay.executions.contains_key(tail.execution.0) && tail.start is None ==> tail_read(
            replay,
            tail,
        ).0 == replay && tail_read(replay, tail).1.len() == 0,
        tail_read(replay, tail).0.consumed == replay.consumed,
        other != tail.execution.0 ==> tail_read(replay, tail).0.executions.contains_key(other)
            == replay.executions.contains_key(other),
        other != tail.execution.0 && replay.executions.contains_key(other) ==> tail_read(
            replay,
            tail,
        ).0.executions[other] == replay.executions[other],
        followed(replay, tail) is Some ==> tail_read(replay, tail).0.executions.contains_key(
            tail.execution.0,
        ),
{
}

/// A read counts the coordinator records it took and hands their events out
/// first, before any tail's.
pub proof fn law_a_read_begins_with_the_coordinator(
    replay: ReplayModel,
    records: Seq<CoordinatorRecord>,
    tails: Seq<ExecutionTail>,
)
    ensures
        ({
            let first = lifecycle_stream(replay.run, records).1;
            let after = advanced(replay, records, tails);
            &&& after.0.consumed == replay.consumed + records.len()
            &&& first.len() <= after.1.len()
            &&& after.1.take(first.len() as int) == first
            &&& tails.len() == 0 ==> after.1 == first && after.0.executions == replay.executions
        }),
        fresh_replay().consumed == 0,
        fresh_replay().executions.dom().len() == 0,
{
    let lifecycle = lifecycle_stream(replay.run, records);
    let first = lifecycle.1;
    let after = advanced(replay, records, tails);
    let begun = ReplayModel {
        run: lifecycle.0,
        consumed: replay.consumed + records.len(),
        executions: replay.executions,
    };
    lemma_tails_keep_the_count(begun, tails);
    assert(after.1.take(first.len() as int) =~= first);
    if tails.len() == 0 {
        assert(after.1 =~= first);
    }
}

proof fn lemma_tails_keep_the_count(replay: ReplayModel, tails: Seq<ExecutionTail>)
    ensures
        tails_read(replay, tails).0.consumed == replay.consumed,
    decreases tails.len(),
{
    if tails.len() > 0 {
        lemma_tails_keep_the_count(replay, tails.drop_last());
    }
}

// ── Delivery ───────────────────────────────────────────────────────────

/// An event is counted once: past the close when the queue is closed, as an
/// overflow when it is full, else as sent.
pub proof fn law_every_push_is_counted(queue: Queue, outcome: SendOutcome)
    requires
        queue.sent + queue.overflowed + queue.after_close < u64::MAX,
    ensures
        ({
            let after = after_push(queue, outcome);
            &&& after.open == queue.open
            &&& after.sent + after.overflowed + after.after_close == queue.sent + queue.overflowed
                + queue.after_close + 1
            &&& after.sent == queue.sent + 1 <==> queue.open && outcome == SendOutcome::Sent
            &&& after.overflowed == queue.overflowed + 1 <==> queue.open && outcome
                == SendOutcome::Full
            &&& after.after_close == queue.after_close + 1 <==> !queue.open || outcome
                == SendOutcome::Closed
        }),
{
}

/// A receipt counts what the pump took and what never reached it; a failed
/// pump delivered nothing and says why; a second shutdown counts nothing and
/// says so.
pub proof fn law_what_a_receipt_counts(queue: Queue, pump: PumpEnd, receipt: ProjectionReceipt)
    requires
        is_receipt(queue, pump, receipt),
    ensures
        match pump {
            PumpEnd::Receipt(pumped) => {
                &&& receipt.delivered == pumped.delivered
                &&& receipt.overflowed == queue.overflowed
                &&& receipt.failure == pumped.failure
                &&& pumped.projected + queue.overflowed + queue.after_close <= u64::MAX
                    ==> receipt.projected == pumped.projected + queue.overflowed
                    + queue.after_close
                &&& pumped.undelivered + queue.overflowed + queue.after_close <= u64::MAX
                    ==> receipt.undelivered == pumped.undelivered + queue.overflowed
                    + queue.after_close
            },
            PumpEnd::Failed(error) => {
                &&& receipt.delivered == 0
                &&& receipt.projected == queue.overflowed + queue.after_close
                &&& receipt.overflowed == queue.overflowed
                &&& receipt.failure matches Some(message)
                &&& message@ == "the event pump failed: "@ + error@
            },
            PumpEnd::Taken => {
                &&& receipt.projected == 0 && receipt.delivered == 0 && receipt.undelivered == 0
                &&& receipt.failure matches Some(message)
                &&& message@ == "shutdown was called twice"@
            },
        },
{
}

/// An event is named in a receipt by its log, its record and its place, and a
/// stall by the event and the budget.
pub proof fn law_how_a_stall_is_told(id: EventId, stall_ms: u64)
    ensures
        id.source is Coordinator ==> label_of(id) == "coordinator record "@ + decimal(id.seq as nat)
            + " event "@ + decimal(id.index as nat),
        id.source matches EventSource::Execution { execution } ==> label_of(id) == "execution "@
            + decimal(execution.0 as nat) + " record "@ + decimal(id.seq as nat) + " event "@
            + decimal(id.index as nat),
        delivery_stalled(id, stall_ms) == "the sink stalled: "@ + label_of(id)
            + " was not accepted within "@ + decimal(stall_ms as nat)
            + "ms, and delivery stopped there"@,
        finish_stalled(stall_ms) == "the sink stalled: `finish` did not return within "@ + decimal(
            stall_ms as nat,
        ) + "ms"@,
{
}

// ── Exports ────────────────────────────────────────────────────────────

proof fn lemma_parting(a: Seq<SeqValue>, b: Seq<SeqValue>, from: int)
    requires
        0 <= from,
    ensures
        match parting(a, b, from) {
            Some(at) => from <= at < a.len() && at < b.len() && !same_value(
                a[at].value@,
                b[at].value@,
            ) && forall|j: int|
                from <= j < at ==> same_value((#[trigger] a[j]).value@, b[j].value@),
            None => forall|j: int|
                from <= j < a.len() && j < b.len() ==> same_value(
                    (#[trigger] a[j]).value@,
                    b[j].value@,
                ),
        },
    decreases a.len() - from,
{
    if from < a.len() && from < b.len() && same_value(a[from].value@, b[from].value@) {
        lemma_parting(a, b, from + 1);
    }
}

/// Two lists of records do not differ exactly when they are as long and
/// every record of one is the same value as that of the other; else they
/// differ at the second's record of the first place where the values do, or
/// in length.
pub proof fn law_where_records_differ(a: Seq<SeqValue>, b: Seq<SeqValue>)
    ensures
        match difference(a, b) {
            None => a.len() == b.len() && forall|j: int|
                0 <= j < a.len() ==> same_value((#[trigger] a[j]).value@, b[j].value@),
            Some(Difference::At(seq)) => exists|at: int|
                0 <= at < a.len() && at < b.len() && (#[trigger] b[at]).seq == seq && !same_value(
                    a[at].value@,
                    b[at].value@,
                ) && forall|j: int|
                    0 <= j < at ==> same_value((#[trigger] a[j]).value@, b[j].value@),
            Some(Difference::Length) => a.len() != b.len() && forall|j: int|
                0 <= j < a.len() && j < b.len() ==> same_value(
                    (#[trigger] a[j]).value@,
                    b[j].value@,
                ),
        },
{
    lemma_parting(a, b, 0);
    if let Some(at) = parting(a, b, 0) {
        assert(b[at].seq == b[at].seq);
    }
}

/// The coordinator log is exported when what the stream exports is the stored
/// log and reloads to it; else the failure says at which record, when there
/// is one, or that it does not reload.
pub proof fn law_when_the_coordinator_log_is_exported(log: CoordinatorExport)
    ensures
        coordinator_failure(log) is None <==> difference(log.exported@, log.stored@) is None && (
        log.reloaded matches Some(reloaded) && difference(reloaded@, log.stored@) is None),
        difference(log.exported@, log.stored@) matches Some(Difference::At(seq))
            ==> coordinator_failure(log) == Some(ExportError::Coordinator { seq: Some(seq) }),
        difference(log.exported@, log.stored@) == Some(Difference::Length) ==> coordinator_failure(
            log,
        ) == Some(ExportError::Coordinator { seq: None }),
        difference(log.exported@, log.stored@) is None && log.reloaded is None
            ==> coordinator_failure(log) == Some(ExportError::CoordinatorReload),
{
}

/// A log is what its external records replay to when every stored record is
/// the same value as the regenerated one of its place, and, once the
/// execution finished, nothing more was regenerated.
pub proof fn law_when_a_log_is_regenerated(log: ExecutionExport)
    ensures
        replay_failure(log) is None <==> log.records@.len() <= log.regenerated@.len() && (
        log.finished ==> log.records@.len() == log.regenerated@.len()) && forall|j: int|
            0 <= j < log.records@.len() ==> same_value(
                (#[trigger] log.records@[j]).value@,
                log.regenerated@[j].value@,
            ),
        replay_failure(log) matches Some(ExportError::Incomplete { execution, stored, regenerated })
            ==> execution == log.execution && log.finished && stored == log.records@.len()
            && regenerated == log.regenerated@.len(),
        replay_failure(log) matches Some(ExportError::Regenerated { execution, seq }) ==> execution
            == log.execution,
        replay_failure(log) matches Some(ExportError::Regenerated { execution, seq: Some(seq) })
            ==> exists|at: int|
            0 <= at < log.records@.len() && (#[trigger] log.records@[at]).seq == seq && !same_value(
                log.records@[at].value@,
                log.regenerated@[at].value@,
            ),
{
    lemma_parting(log.records@, log.regenerated@, 0);
    assert(log.records.len() == log.records@.len());
    assert(log.regenerated.len() == log.regenerated@.len());
    if let Some(at) = parting(log.records@, log.regenerated@, 0) {
        assert(!same_value(log.records@[at].value@, log.regenerated@[at].value@));
    }
}

/// The failure of a run's export is its coordinator log's, and else that of
/// the first execution that has one.
pub proof fn law_which_failure_is_told(
    log: CoordinatorExport,
    executions: Seq<ExecutionExport>,
    at: int,
)
    requires
        0 <= at <= executions.len(),
        forall|j: int| 0 <= j < at ==> execution_failure(#[trigger] executions[j]) is None,
        at < executions.len() ==> execution_failure(executions[at]) is Some,
    ensures
        coordinator_failure(log) is Some ==> export_failure(log, executions)
            == coordinator_failure(log),
        coordinator_failure(log) is None && at < executions.len() ==> export_failure(
            log,
            executions,
        ) == execution_failure(executions[at]),
        coordinator_failure(log) is None && at == executions.len() ==> export_failure(
            log,
            executions,
        ) is None,
    decreases executions.len(),
{
    if executions.len() > 0 {
        let rest = executions.drop_last();
        let n = executions.len() - 1;
        assert forall|j: int| 0 <= j < rest.len() implies rest[j] == #[trigger] executions[j] by {}
        assert(executions[n] == executions.last());
        if at < executions.len() {
            law_which_failure_is_told(log, rest, at);
        } else {
            law_which_failure_is_told(log, rest, n);
            assert(execution_failure(executions[n]) is None);
        }
    }
}

/// Stored lines are the records with their times, as far as both go.
pub proof fn law_lines_are_stored_with_their_times(
    records: Seq<EventRecord>,
    recorded_at: Seq<u64>,
    i: int,
)
    ensures
        ({
            let lines = lines_stored(records, recorded_at);
            &&& lines.len() <= records.len() && lines.len() <= recorded_at.len()
            &&& lines.len() == records.len() || lines.len() == recorded_at.len()
            &&& 0 <= i < lines.len() ==> lines[i].seq == records[i].seq && lines[i].origin
                == records[i].origin && lines[i].recorded_at == recorded_at[i] && lines[i].body
                == records[i].event
        }),
{
}

// ── Round trips ────────────────────────────────────────────────────────

proof fn lemma_parts_at<T: Alike>(a: Seq<T>, b: Seq<T>, from: int)
    requires
        0 <= from,
    ensures
        match parts_at(a, b, from) {
            Some(at) => from <= at < a.len() && at < b.len() && !a[at].alike(&b[at])
                && forall|j: int| from <= j < at ==> (#[trigger] a[j]).alike(&b[j]),
            None => forall|j: int|
                from <= j < a.len() && j < b.len() ==> (#[trigger] a[j]).alike(&b[j]),
        },
    decreases a.len() - from,
{
    if from < a.len() && from < b.len() && a[from].alike(&b[from]) {
        lemma_parts_at(a, b, from + 1);
    }
}

/// Rebuilt coordinator records are the stored ones exactly when they are as
/// many and each is like its counterpart; else the first that is not is
/// named, when there is one.
pub proof fn law_where_coordinator_records_part(
    a: Seq<CoordinatorRecord>,
    b: Seq<CoordinatorRecord>,
)
    ensures
        match lifecycle_apart(a, b) {
            None => a.len() == b.len() && forall|j: int|
                0 <= j < a.len() ==> (#[trigger] a[j]).alike(&b[j]),
            Some(Some(seq)) => exists|at: int|
                0 <= at < a.len() && at < b.len() && (#[trigger] a[at]).seq == seq && !a[at].alike(
                    &b[at],
                ),
            Some(None) => a.len() != b.len(),
        },
{
    lemma_parts_at(a, b, 0);
    if let Some(at) = parts_at(a, b, 0) {
        assert(!a[at].alike(&b[at]));
    }
}

/// Regenerated engine records are the stored ones exactly when they are as
/// many and each is like its counterpart; else the first that is not is
/// named, when there is one.
pub proof fn law_where_engine_records_part(a: Seq<EventRecord>, b: Seq<EventRecord>)
    ensures
        match records_apart(a, b) {
            None => a.len() == b.len() && forall|j: int|
                0 <= j < a.len() ==> (#[trigger] a[j]).alike(&b[j]),
            Some(Some(seq)) => exists|at: int|
                0 <= at < a.len() && at < b.len() && (#[trigger] a[at]).seq == seq && !a[at].alike(
                    &b[at],
                ),
            Some(None) => a.len() != b.len(),
        },
{
    lemma_parts_at(a, b, 0);
    if let Some(at) = parts_at(a, b, 0) {
        assert(!a[at].alike(&b[at]));
    }
}

proof fn lemma_streams_part(a: Seq<EventModel>, b: Seq<EventModel>, from: int)
    requires
        0 <= from,
    ensures
        match streams_part(a, b, from) {
            Some(at) => from <= at < a.len() && at < b.len() && !same_event(a[at], b[at])
                && forall|j: int| from <= j < at ==> same_event(#[trigger] a[j], b[j]),
            None => forall|j: int|
                from <= j < a.len() && j < b.len() ==> same_event(#[trigger] a[j], b[j]),
        },
    decreases a.len() - from,
{
    if from < a.len() && from < b.len() && same_event(a[from], b[from]) {
        lemma_streams_part(a, b, from + 1);
    }
}

/// Two streams are the same exactly when they are as long and every event of
/// one is the same as that of the other; a shorter re-projection is named by
/// the first event it lacks, a longer one by none.
pub proof fn law_where_streams_part(reprojected: Seq<EventModel>, events: Seq<EventModel>)
    ensures
        stream_failure(reprojected, events) is None <==> reprojected.len() == events.len()
            && forall|j: int|
            0 <= j < events.len() ==> same_event(#[trigger] reprojected[j], events[j]),
        stream_failure(reprojected, events) matches Some(error) ==> (error matches
            LosslessError::Reprojected { id } && (id matches Some(id) ==> ((exists|at: int|
            0 <= at < reprojected.len() && at < events.len() && (#[trigger] reprojected[at]).id
                == id && !same_event(reprojected[at], events[at])) || reprojected.len()
            < events.len() && events[reprojected.len() as int].id == id)) && (id is None
            ==> reprojected.len() > events.len())),
{
    lemma_streams_part(reprojected, events, 0);
    if let Some(at) = streams_part(reprojected, events, 0) {
        assert(!same_event(reprojected[at], events[at]));
        assert(reprojected[at].id == reprojected[at].id);
    }
}

/// The records a stream tells of are the coordinator's, and of an execution's
/// those that a host fed; the core's own are left out.
pub proof fn law_which_records_are_told(event: EventModel)
    ensures
        event.record matches Some(Record::Coordinator(record)) ==> told_by(event) == Some(
            Record::Coordinator(record),
        ),
        event.record matches Some(Record::Engine(line)) ==> (told_by(event) is Some <==> line.origin
            == EventOrigin::External && event.id.source is Execution),
        told_by(event) is Some ==> told_by(event) == event.record,
        event.record is None ==> told_by(event) is None,
{
}

/// The external records of a stored log are those a host fed, in order, each
/// with its stored time.
pub proof fn law_which_records_are_external(
    records: Seq<EventRecord>,
    record: EventRecord,
    recorded_at: Seq<u64>,
)
    ensures
        ({
            let before = stored_externals(records, recorded_at);
            let after = stored_externals(records.push(record), recorded_at);
            &&& stored_externals(Seq::empty(), recorded_at).len() == 0
            &&& record.origin == EventOrigin::Core ==> after == before
            &&& record.origin == EventOrigin::External ==> after.len() == before.len() + 1
                && after.drop_last() == before && after.last().record == record && (record.seq
                < recorded_at.len() ==> after.last().recorded_at == Some(
                recorded_at[record.seq as int],
            )) && (record.seq >= recorded_at.len() ==> after.last().recorded_at is None)
        }),
{
    assert(records.push(record).drop_last() =~= records);
    let before = stored_externals(records, recorded_at);
    let after = stored_externals(records.push(record), recorded_at);
    if record.origin == EventOrigin::External {
        assert(after.drop_last() =~= before);
    }
    assert(time_of(record.seq, recorded_at) is Some <==> record.seq < recorded_at.len());
}

/// The records an apply adds to a regenerated log carry the time of the
/// record it applied, and those before keep theirs.
pub proof fn law_when_regenerated_records_were_recorded(
    steps: Seq<(usize, Option<u64>)>,
    step: (usize, Option<u64>),
    i: int,
)
    requires
        0 <= i < step.0,
    ensures
        ({
            let before = times_after(steps);
            let after = times_after(steps.push(step));
            &&& times_after(Seq::empty()).len() == 0
            &&& after.len() == step.0
            &&& i < before.len() ==> after[i] == before[i]
            &&& i >= before.len() ==> (step.1 matches Some(at) ==> after[i] == at)
        }),
{
    assert(steps.push(step).drop_last() =~= steps);
}

} // verus!

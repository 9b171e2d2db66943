//! Replay of a run from its records: the whole run at once, or incrementally
//! between reads. The engine applies the records; what is published, when
//! and in what order is decided here.

use crate::event::CoordinatorRecord;
use crate::events::derivation::{
    after_lifecycle, blank_run, engine_derives, engine_step, lifecycle_events, track_of, ProjectionModel,
    Readings,
};
use crate::events::laws::{law_coordinator_record_unchanged, law_engine_record_unchanged};
use crate::events::projection::Projection;
use crate::events::{
    event_models, EventId, EventModel, EventSource, Record, RunEvent,
};
use crate::ids::ExecutionId;
use crate::record::{stored, EventRecord, StoredEngineRecord};

use crate::search::{lemma_lookup_absent, lemma_lookup_found, lookup, reversed};
use crate::state::EngineState;
use vstd::prelude::*;

verus! {

// ── The events a consumer does not hold ────────────────────────────────

/// Whether one source comes before another: the coordinator log first, then
/// the executions by id.
pub open spec fn source_before(a: EventSource, b: EventSource) -> bool {
    match (a, b) {
        (EventSource::Coordinator, EventSource::Execution { .. }) => true,
        (
            EventSource::Execution { execution: a },
            EventSource::Execution { execution: b },
        ) => a.0 < b.0,
        _ => false,
    }
}

/// Whether one identity comes after another: by log, then by record, then by
/// place.
pub open spec fn id_after(a: EventId, b: EventId) -> bool {
    ||| source_before(b.source, a.source)
    ||| (a.source == b.source && b.seq < a.seq)
    ||| (a.source == b.source && b.seq == a.seq && b.index < a.index)
}

/// Identities are totally ordered.
pub proof fn law_ids_are_ordered(a: EventId, b: EventId, c: EventId)
    ensures
        !id_after(a, a),
        id_after(a, b) ==> !id_after(b, a),
        a == b || id_after(a, b) || id_after(b, a),
        id_after(a, b) && id_after(b, c) ==> id_after(a, c),
{
}

/// Whether an event is past what a consumer holds of its log. A log nothing
/// is held of is past whole.
pub open spec fn is_past(id: EventId, held: Seq<(EventSource, EventId)>) -> bool {
    match lookup(held, id.source) {
        Some(last) => id_after(id, last),
        None => true,
    }
}

/// The events past each log's held position, in order.
pub open spec fn past_events(events: Seq<RunEvent>, held: Seq<(EventSource, EventId)>) -> Seq<
    RunEvent,
>
    decreases events.len(),
{
    if events.len() == 0 {
        Seq::empty()
    } else {
        let before = past_events(events.drop_last(), held);
        if is_past(events.last().id, held) {
            before.push(events.last())
        } else {
            before
        }
    }
}

fn comes_after(a: &EventId, b: &EventId) -> (after: bool)
    ensures
        after == id_after(*a, *b),
{
    match (a.source, b.source) {
        (EventSource::Coordinator, EventSource::Coordinator) => {
            b.seq < a.seq || (b.seq == a.seq && b.index < a.index)
        },
        (EventSource::Coordinator, EventSource::Execution { execution: _ }) => false,
        (EventSource::Execution { execution: _ }, EventSource::Coordinator) => true,
        (EventSource::Execution { execution: x }, EventSource::Execution { execution: y }) => {
            y.0 < x.0 || (x.0 == y.0 && (b.seq < a.seq || (b.seq == a.seq && b.index < a.index)))
        },
    }
}

fn past(id: &EventId, held: &Vec<(EventSource, EventId)>) -> (past: bool)
    ensures
        past == is_past(*id, held@),
{
    let mut i: usize = 0;
    while i < held.len()
        invariant
            i <= held.len(),
            forall|j: int| 0 <= j < i ==> (#[trigger] held@[j]).0 != id.source,
        decreases held.len() - i,
    {
        if held[i].0 == id.source {
            proof {
                lemma_lookup_found(held@, id.source, i as int);
            }
            return comes_after(id, &held[i].1);
        }
        i = i + 1;
    }
    proof {
        lemma_lookup_absent(held@, id.source);
    }
    true
}

/// Keep the events past each log's held position: the incremental form of a
/// replay, for a consumer that already holds a prefix of each log. `held`
/// names the last identity the consumer has from a log; a log it names
/// nothing for is kept whole.
pub fn events_after(events: Vec<RunEvent>, held: &Vec<(EventSource, EventId)>) -> (kept: Vec<
    RunEvent,
>)
    ensures
        kept@ == past_events(events@, held@),
{
    let ghost all = events@;
    let mut left = events;
    let mut turned: Vec<RunEvent> = Vec::new();
    assert(past_events(all, held@) =~= past_events(left@, held@) + turned@.reverse());
    while left.len() > 0
        invariant
            past_events(all, held@) == past_events(left@, held@) + turned@.reverse(),
        decreases left.len(),
    {
        let ghost before = left@;
        let ghost tail = turned@;
        match left.pop() {
            Some(event) => {
                assert(left@ =~= before.drop_last());
                assert(event == before.last());
                if past(&event.id, held) {
                    turned.push(event);
                    assert(past_events(left@, held@).push(event) + tail.reverse() =~= past_events(
                        left@,
                        held@,
                    ) + turned@.reverse());
                }
            },
            None => {},
        }
    }
    let kept = reversed(turned);
    assert(kept@ =~= past_events(all, held@));
    kept
}

/// A consumer that asks for what it lacks gets every event it lacks and none
/// it holds.
pub proof fn law_what_is_kept(
    events: Seq<RunEvent>,
    held: Seq<(EventSource, EventId)>,
    event: RunEvent,
)
    ensures
        past_events(events, held).contains(event) <==> events.contains(event) && is_past(
            event.id,
            held,
        ),
    decreases events.len(),
{
    if events.len() > 0 {
        let rest = events.drop_last();
        law_what_is_kept(rest, held, event);
        let before = past_events(rest, held);
        let kept = past_events(events, held);
        if events.contains(event) && is_past(event.id, held) {
            let i = choose|i: int| 0 <= i < events.len() && events[i] == event;
            if i == events.len() - 1 {
                assert(kept[kept.len() - 1] == event);
            } else {
                assert(rest[i] == event);
                let j = choose|j: int| 0 <= j < before.len() && before[j] == event;
                assert(kept[j] == event);
            }
        }
        if kept.contains(event) {
            let j = choose|j: int| 0 <= j < kept.len() && kept[j] == event;
            if j < before.len() {
                assert(before[j] == event);
                let i = choose|i: int| 0 <= i < rest.len() && rest[i] == event;
                assert(events[i] == event);
            } else {
                assert(events[events.len() - 1] == event);
            }
        }
    }
}

/// A consumer that holds nothing gets the whole stream.
pub proof fn law_nothing_held_keeps_all(events: Seq<RunEvent>)
    ensures
        past_events(events, Seq::empty()) == events,
    decreases events.len(),
{
    if events.len() > 0 {
        law_nothing_held_keeps_all(events.drop_last());
        assert(events.drop_last().push(events.last()) =~= events);
    } else {
        assert(past_events(events, Seq::empty()) =~= events);
    }
}

// ── A whole run ────────────────────────────────────────────────────────

/// What the engine did with one external event: the records the apply put on
/// its log, what they read as, and the state after it.
#[derive(Debug)]
pub struct AppliedEvent {
    pub records: Vec<EventRecord>,
    /// One reading for each record.
    pub readings: Vec<Readings>,
    pub state: EngineState,
}

/// One execution of a run as its store holds it: what replaying its external
/// events did, and the recording time of each stored record, by seq.
#[derive(Debug)]
pub struct LoadedExecution {
    pub execution: ExecutionId,
    /// The records of the stored log.
    pub records: Vec<EventRecord>,
    pub applied: Vec<AppliedEvent>,
    pub recorded_at: Vec<u64>,
    /// Whether the coordinator recorded the execution's exit: a finished
    /// execution's log is complete, or the crash that cut it is the error.
    pub finished: bool,
}

/// One run's durable logs: the coordinator log, and each execution that
/// started, in declaration order.
#[derive(Debug)]
pub struct LoadedRun {
    pub coordinator: Vec<CoordinatorRecord>,
    pub executions: Vec<LoadedExecution>,
}

/// Every apply has one reading per record.
pub open spec fn all_read(applied: Seq<AppliedEvent>) -> bool {
    forall|i: int|
        0 <= i < applied.len() ==> (#[trigger] applied[i]).readings@.len()
            == applied[i].records@.len()
}

/// A record that is published, with what its events derive from.
pub struct PublishedModel {
    pub execution: ExecutionId,
    pub record: EventRecord,
    pub recorded_at: u64,
    pub state: EngineState,
    pub readings: Readings,
}

/// When a record was stored: nothing for a record past the log's end.
pub open spec fn time_of(seq: u64, recorded_at: Seq<u64>) -> Option<u64> {
    if seq < recorded_at.len() {
        Some(recorded_at[seq as int])
    } else {
        None
    }
}

/// The recording times of the records of a log of `length`: a time past the
/// log's end is of no record.
pub open spec fn held_times(recorded_at: Seq<u64>, length: nat) -> Seq<u64> {
    if length < recorded_at.len() {
        recorded_at.take(length as int)
    } else {
        recorded_at
    }
}

/// The first `count` records of an apply that the log holds.
pub open spec fn published_of(
    execution: ExecutionId,
    applied: AppliedEvent,
    count: nat,
    recorded_at: Seq<u64>,
) -> Seq<PublishedModel>
    decreases count,
{
    if count == 0 {
        Seq::empty()
    } else {
        let before = published_of(execution, applied, (count - 1) as nat, recorded_at);
        let record = applied.records@[count - 1];
        match time_of(record.seq, recorded_at) {
            Some(at) => before.push(
                PublishedModel {
                    execution,
                    record,
                    recorded_at: at,
                    state: applied.state,
                    readings: applied.readings@[count - 1],
                },
            ),
            None => before,
        }
    }
}

/// The records of an execution that are published: those its log holds, in
/// the order the applies produced them.
pub open spec fn published(
    execution: ExecutionId,
    applied: Seq<AppliedEvent>,
    recorded_at: Seq<u64>,
) -> Seq<PublishedModel>
    decreases applied.len(),
{
    if applied.len() == 0 {
        Seq::empty()
    } else {
        published(execution, applied.drop_last(), recorded_at) + published_of(
            execution,
            applied.last(),
            applied.last().records@.len(),
            recorded_at,
        )
    }
}

/// The records of executions that are published, execution by execution.
pub open spec fn all_published(executions: Seq<LoadedExecution>) -> Seq<PublishedModel>
    decreases executions.len(),
{
    if executions.len() == 0 {
        Seq::empty()
    } else {
        let last = executions.last();
        all_published(executions.drop_last()) + published(
            last.execution,
            last.applied@,
            held_times(last.recorded_at@, last.records@.len()),
        )
    }
}

/// Lists joined, in order.
pub open spec fn joined(chunks: Seq<Seq<EventModel>>) -> Seq<EventModel>
    decreases chunks.len(),
{
    if chunks.len() == 0 {
        Seq::empty()
    } else {
        joined(chunks.drop_last()) + chunks.last()
    }
}

/// Whether published records derive events, through the runs between them.
pub open spec fn derived_through(
    published: Seq<PublishedModel>,
    runs: Seq<ProjectionModel>,
    chunks: Seq<Seq<EventModel>>,
) -> bool {
    &&& runs.len() == published.len() + 1
    &&& chunks.len() == published.len()
    &&& forall|i: int|
        0 <= i < published.len() ==> #[trigger] engine_derives(
            runs[i],
            published[i].execution,
            published[i].record,
            published[i].recorded_at,
            published[i].state,
            published[i].readings,
            runs[i + 1],
            chunks[i],
        )
}

/// Whether published records, one after another, take a run's derivation
/// from `before` to `after` and derive these events.
pub open spec fn all_derive(
    before: ProjectionModel,
    published: Seq<PublishedModel>,
    after: ProjectionModel,
    events: Seq<EventModel>,
) -> bool {
    exists|runs: Seq<ProjectionModel>, chunks: Seq<Seq<EventModel>>| #[trigger]
        derived_through(published, runs, chunks) && runs[0] == before && runs[published.len() as int]
            == after && events == joined(chunks)
}

proof fn lemma_nothing_derives(before: ProjectionModel)
    ensures
        all_derive(before, Seq::empty(), before, Seq::empty()),
{
    let runs = seq![before];
    let chunks = Seq::<Seq<EventModel>>::empty();
    let none = Seq::<PublishedModel>::empty();
    assert(derived_through(none, runs, chunks));
    assert(joined(chunks) =~= Seq::empty());
}

proof fn lemma_one_more_derives(
    before: ProjectionModel,
    published: Seq<PublishedModel>,
    middle: ProjectionModel,
    events: Seq<EventModel>,
    next: PublishedModel,
    after: ProjectionModel,
    more: Seq<EventModel>,
)
    requires
        all_derive(before, published, middle, events),
        engine_derives(
            middle,
            next.execution,
            next.record,
            next.recorded_at,
            next.state,
            next.readings,
            after,
            more,
        ),
    ensures
        all_derive(before, published.push(next), after, events + more),
{
    let (runs, chunks) = choose|runs: Seq<ProjectionModel>, chunks: Seq<Seq<EventModel>>| #[trigger]
        derived_through(published, runs, chunks) && runs[0] == before && runs[published.len() as int]
            == middle && events == joined(chunks);
    let all = published.push(next);
    let all_runs = runs.push(after);
    let all_chunks = chunks.push(more);
    assert forall|i: int| 0 <= i < all.len() implies #[trigger] engine_derives(
        all_runs[i],
        all[i].execution,
        all[i].record,
        all[i].recorded_at,
        all[i].state,
        all[i].readings,
        all_runs[i + 1],
        all_chunks[i],
    ) by {
        if i < published.len() {
            assert(engine_derives(
                runs[i],
                published[i].execution,
                published[i].record,
                published[i].recorded_at,
                published[i].state,
                published[i].readings,
                runs[i + 1],
                chunks[i],
            ));
        }
    }
    assert(derived_through(all, all_runs, all_chunks));
    assert(all_chunks.drop_last() =~= chunks);
}

/// The run after published records, and the events they derive, one after
/// another.
pub open spec fn derive_all(before: ProjectionModel, published: Seq<PublishedModel>) -> (
    ProjectionModel,
    Seq<EventModel>,
)
    decreases published.len(),
{
    if published.len() == 0 {
        (before, Seq::empty())
    } else {
        let (run, events) = derive_all(before, published.drop_last());
        let next = published.last();
        let step = engine_step(
            run,
            next.execution,
            next.record,
            next.recorded_at,
            next.state,
            next.readings,
        );
        (step.0, events + step.1)
    }
}

/// Records published in two pieces derive what they derive in one.
pub proof fn law_derived_in_pieces(
    before: ProjectionModel,
    a: Seq<PublishedModel>,
    b: Seq<PublishedModel>,
)
    ensures
        derive_all(before, a + b) == ({
            let first = derive_all(before, a);
            let second = derive_all(first.0, b);
            (second.0, first.1 + second.1)
        }),
    decreases b.len(),
{
    let first = derive_all(before, a);
    if b.len() == 0 {
        assert(a + b =~= a);
        assert(first.1 + Seq::<EventModel>::empty() =~= first.1);
    } else {
        law_derived_in_pieces(before, a, b.drop_last());
        assert((a + b).drop_last() =~= a + b.drop_last());
        assert((a + b).last() == b.last());
        let second = derive_all(first.0, b);
        assert(derive_all(before, a + b).1 =~= first.1 + second.1);
    }
}

/// What published records derive is all they derive.
pub proof fn lemma_derive_all_is(
    before: ProjectionModel,
    published: Seq<PublishedModel>,
    after: ProjectionModel,
    events: Seq<EventModel>,
)
    requires
        all_derive(before, published, after, events),
    ensures
        (after, events) == derive_all(before, published),
{
    let (runs, chunks) = choose|runs: Seq<ProjectionModel>, chunks: Seq<Seq<EventModel>>| #[trigger]
        derived_through(published, runs, chunks) && runs[0] == before && runs[published.len() as int]
            == after && events == joined(chunks);
    lemma_derived_through_is(published, runs, chunks, published.len() as int);
    assert(published.take(published.len() as int) =~= published);
    assert(chunks.take(published.len() as int) =~= chunks);
}

proof fn lemma_derived_through_is(
    published: Seq<PublishedModel>,
    runs: Seq<ProjectionModel>,
    chunks: Seq<Seq<EventModel>>,
    n: int,
)
    requires
        derived_through(published, runs, chunks),
        0 <= n <= published.len(),
    ensures
        derive_all(runs[0], published.take(n)) == (runs[n], joined(chunks.take(n))),
    decreases n,
{
    if n > 0 {
        lemma_derived_through_is(published, runs, chunks, n - 1);
        assert(published.take(n).drop_last() =~= published.take(n - 1));
        assert(chunks.take(n).drop_last() =~= chunks.take(n - 1));
        let at = n - 1;
        assert(engine_derives(
            runs[at],
            published[at].execution,
            published[at].record,
            published[at].recorded_at,
            published[at].state,
            published[at].readings,
            runs[at + 1],
            chunks[at],
        ));
    }
}

/// What an execution's records derive rests on its own track alone.
pub proof fn lemma_track_decides(
    a: ProjectionModel,
    b: ProjectionModel,
    published: Seq<PublishedModel>,
    execution: ExecutionId,
)
    requires
        track_of(a, execution) == track_of(b, execution),
        forall|i: int|
            0 <= i < published.len() ==> (#[trigger] published[i]).execution == execution,
    ensures
        derive_all(a, published).1 == derive_all(b, published).1,
        track_of(derive_all(a, published).0, execution) == track_of(
            derive_all(b, published).0,
            execution,
        ),
    decreases published.len(),
{
    if published.len() > 0 {
        let rest = published.drop_last();
        assert forall|i: int| 0 <= i < rest.len() implies (#[trigger] rest[i]).execution
            == execution by {
            assert(rest[i] == published[i]);
        }
        lemma_track_decides(a, b, rest, execution);
        assert(published[published.len() - 1].execution == execution);
    }
}

/// The events of coordinator records, one after another.
pub open spec fn lifecycle_stream(before: ProjectionModel, records: Seq<CoordinatorRecord>) -> (
    ProjectionModel,
    Seq<EventModel>,
)
    decreases records.len(),
{
    if records.len() == 0 {
        (before, Seq::empty())
    } else {
        let (run, events) = lifecycle_stream(before, records.drop_last());
        (
            after_lifecycle(run, *records.last().body),
            events + lifecycle_events(run, records.last()),
        )
    }
}

pub(crate) fn put_after(events: &mut Vec<RunEvent>, more: Vec<RunEvent>)
    ensures
        event_models(final(events)@) == event_models(old(events)@) + event_models(more@),
{
    let ghost before = events@;
    let ghost added = more@;
    let mut more = more;
    events.append(&mut more);
    assert(events@ =~= before + added);
    assert(event_models(events@) =~= event_models(before) + event_models(added));
}

/// Project one execution's log, apply by apply. Only the stored prefix is
/// published: a regenerated record past the log's end is applied, so the
/// state is right, and derives no event until a resume stores it. `stored`
/// is how many records the log holds.
pub fn replay_execution(
    projection: &mut Projection,
    execution: ExecutionId,
    applied: &Vec<AppliedEvent>,
    recorded_at: &Vec<u64>,
    stored: usize,
) -> (events: Vec<RunEvent>)
    requires
        all_read(applied@),
    ensures
        all_derive(
            old(projection)@,
            published(execution, applied@, held_times(recorded_at@, stored as nat)),
            final(projection)@,
            event_models(events@),
        ),
{
    let mut events: Vec<RunEvent> = Vec::new();
    let ghost times = held_times(recorded_at@, stored as nat);
    let ghost before = projection@;
    proof {
        lemma_nothing_derives(before);
        assert(event_models(events@) =~= Seq::empty());
        assert(applied@.take(0) =~= Seq::empty());
    }
    let mut i: usize = 0;
    while i < applied.len()
        invariant
            i <= applied.len(),
            all_read(applied@),
            times == held_times(recorded_at@, stored as nat),
            all_derive(
                before,
                published(execution, applied@.take(i as int), times),
                projection@,
                event_models(events@),
            ),
        decreases applied.len() - i,
    {
        let step = &applied[i];
        let ghost so_far = published(execution, applied@.take(i as int), times);
        let mut j: usize = 0;
        assert(so_far + published_of(execution, *step, 0, times) =~= so_far);
        while j < step.records.len()
            invariant
                j <= step.records.len(),
                times == held_times(recorded_at@, stored as nat),
                step.readings@.len() == step.records@.len(),
                all_derive(
                    before,
                    so_far + published_of(execution, *step, j as nat, times),
                    projection@,
                    event_models(events@),
                ),
            decreases step.records.len() - j,
        {
            let record = &step.records[j];
            let ghost done = so_far + published_of(execution, *step, j as nat, times);
            if record.seq < stored as u64 && record.seq < recorded_at.len() as u64 {
                let at = recorded_at[record.seq as usize];
                let ghost middle = projection@;
                let ghost shown = event_models(events@);
                let more = projection.engine(
                    execution,
                    record,
                    at,
                    &step.state,
                    &step.readings[j],
                );
                proof {
                    let next = PublishedModel {
                        execution,
                        record: *record,
                        recorded_at: at,
                        state: step.state,
                        readings: step.readings@[j as int],
                    };
                    lemma_one_more_derives(
                        before,
                        done,
                        middle,
                        shown,
                        next,
                        projection@,
                        event_models(more@),
                    );
                    assert(done.push(next) =~= so_far + published_of(
                        execution,
                        *step,
                        (j + 1) as nat,
                        times,
                    ));
                }
                put_after(&mut events, more);
            } else {
                assert(done =~= so_far + published_of(
                    execution,
                    *step,
                    (j + 1) as nat,
                    times,
                ));
            }
            j = j + 1;
        }
        proof {
            assert(applied@.take(i + 1).drop_last() =~= applied@.take(i as int));
            assert(applied@.take(i + 1).last() == *step);
        }
        i = i + 1;
    }
    assert(applied@.take(i as int) =~= applied@);
    events
}

proof fn lemma_joined_together(a: Seq<Seq<EventModel>>, b: Seq<Seq<EventModel>>)
    ensures
        joined(a + b) == joined(a) + joined(b),
    decreases b.len(),
{
    if b.len() == 0 {
        assert(a + b =~= a);
        assert(joined(a) + joined(b) =~= joined(a));
    } else {
        lemma_joined_together(a, b.drop_last());
        assert((a + b).drop_last() =~= a + b.drop_last());
        assert(joined(a + b) =~= joined(a) + joined(b));
    }
}

proof fn lemma_derive_together(
    before: ProjectionModel,
    p: Seq<PublishedModel>,
    middle: ProjectionModel,
    events: Seq<EventModel>,
    q: Seq<PublishedModel>,
    after: ProjectionModel,
    more: Seq<EventModel>,
)
    requires
        all_derive(before, p, middle, events),
        all_derive(middle, q, after, more),
    ensures
        all_derive(before, p + q, after, events + more),
{
    let (runs, chunks) = choose|runs: Seq<ProjectionModel>, chunks: Seq<Seq<EventModel>>| #[trigger]
        derived_through(p, runs, chunks) && runs[0] == before && runs[p.len() as int] == middle
            && events == joined(chunks);
    let (later, pieces) = choose|runs: Seq<ProjectionModel>, chunks: Seq<Seq<EventModel>>| #[trigger]
        derived_through(q, runs, chunks) && runs[0] == middle && runs[q.len() as int] == after
            && more == joined(chunks);
    let all = p + q;
    let all_runs = runs + later.drop_first();
    let all_chunks = chunks + pieces;
    assert forall|i: int| 0 <= i < all.len() implies #[trigger] engine_derives(
        all_runs[i],
        all[i].execution,
        all[i].record,
        all[i].recorded_at,
        all[i].state,
        all[i].readings,
        all_runs[i + 1],
        all_chunks[i],
    ) by {
        if i < p.len() {
            assert(engine_derives(
                runs[i],
                p[i].execution,
                p[i].record,
                p[i].recorded_at,
                p[i].state,
                p[i].readings,
                runs[i + 1],
                chunks[i],
            ));
        } else {
            let k = i - p.len();
            assert(engine_derives(
                later[k],
                q[k].execution,
                q[k].record,
                q[k].recorded_at,
                q[k].state,
                q[k].readings,
                later[k + 1],
                pieces[k],
            ));
            assert(all_runs[i + 1] == later[k + 1]);
        }
    }
    assert(derived_through(all, all_runs, all_chunks));
    lemma_joined_together(chunks, pieces);
}

/// Every execution's applies have one reading per record.
pub open spec fn run_read(executions: Seq<LoadedExecution>) -> bool {
    forall|i: int| 0 <= i < executions.len() ==> all_read((#[trigger] executions[i]).applied@)
}

/// The derivation of a whole run: the coordinator log first, then each
/// execution's engine log in declaration order.
pub open spec fn run_derives(
    before: ProjectionModel,
    run: LoadedRun,
    after: ProjectionModel,
    events: Seq<EventModel>,
) -> bool {
    let lifecycle = lifecycle_stream(before, run.coordinator@);
    exists|engine: Seq<EventModel>| #[trigger]
        all_derive(lifecycle.0, all_published(run.executions@), after, engine) && events
            == lifecycle.1 + engine
}

/// Project a loaded run: the coordinator log first, then each execution's
/// engine log in declaration order.
pub fn project_loaded(loaded: &LoadedRun, projection: &mut Projection) -> (events: Vec<RunEvent>)
    requires
        run_read(loaded.executions@),
    ensures
        run_derives(old(projection)@, *loaded, final(projection)@, event_models(events@)),
{
    let mut events: Vec<RunEvent> = Vec::new();
    let ghost before = projection@;
    let ghost records = loaded.coordinator@;
    proof {
        assert(event_models(events@) =~= Seq::empty());
        assert(records.take(0) =~= Seq::empty());
    }
    let mut i: usize = 0;
    while i < loaded.coordinator.len()
        invariant
            i <= loaded.coordinator.len(),
            records == loaded.coordinator@,
            lifecycle_stream(before, records.take(i as int)) == (
                projection@,
                event_models(events@),
            ),
        decreases loaded.coordinator.len() - i,
    {
        let more = projection.lifecycle(&loaded.coordinator[i]);
        proof {
            assert(records.take(i + 1).drop_last() =~= records.take(i as int));
            assert(records.take(i + 1).last() == records[i as int]);
        }
        put_after(&mut events, more);
        i = i + 1;
    }
    assert(records.take(i as int) =~= records);
    let ghost started = projection@;
    let ghost lifecycle = event_models(events@);
    let ghost mut engine: Seq<EventModel> = Seq::empty();
    proof {
        lemma_nothing_derives(started);
        assert(loaded.executions@.take(0) =~= Seq::empty());
        assert(lifecycle + engine =~= lifecycle);
    }
    let mut k: usize = 0;
    while k < loaded.executions.len()
        invariant
            k <= loaded.executions.len(),
            run_read(loaded.executions@),
            records == loaded.coordinator@,
            all_derive(
                started,
                all_published(loaded.executions@.take(k as int)),
                projection@,
                engine,
            ),
            event_models(events@) == lifecycle + engine,
        decreases loaded.executions.len() - k,
    {
        let execution = &loaded.executions[k];
        let ghost middle = projection@;
        let more = replay_execution(
            projection,
            execution.execution,
            &execution.applied,
            &execution.recorded_at,
            execution.records.len(),
        );
        proof {
            let taken = loaded.executions@.take(k + 1);
            assert(taken.drop_last() =~= loaded.executions@.take(k as int));
            assert(taken.last() == *execution);
            lemma_derive_together(
                started,
                all_published(loaded.executions@.take(k as int)),
                middle,
                engine,
                published(
                    execution.execution,
                    execution.applied@,
                    held_times(execution.recorded_at@, execution.records@.len()),
                ),
                projection@,
                event_models(more@),
            );
            assert(lifecycle + (engine + event_models(more@)) =~= (lifecycle + engine)
                + event_models(more@));
            engine = engine + event_models(more@);
        }
        put_after(&mut events, more);
        k = k + 1;
    }
    proof {
        assert(loaded.executions@.take(k as int) =~= loaded.executions@);
        assert(lifecycle_stream(before, records) == (started, lifecycle));
        assert(all_derive(
            lifecycle_stream(before, loaded.coordinator@).0,
            all_published(loaded.executions@),
            projection@,
            engine,
        ));
    }
    events
}

/// The public stream of a run.
pub open spec fn stream_of(run: LoadedRun) -> Seq<EventModel> {
    stream_from(run.coordinator@, all_published(run.executions@))
}

/// The public stream of coordinator records and published engine records.
pub open spec fn stream_from(records: Seq<CoordinatorRecord>, published: Seq<PublishedModel>) -> Seq<
    EventModel,
> {
    let lifecycle = lifecycle_stream(blank_run(), records);
    lifecycle.1 + derive_all(lifecycle.0, published).1
}

/// Projecting a run from the start derives its public stream.
pub proof fn law_projection_is_the_stream(
    run: LoadedRun,
    after: ProjectionModel,
    events: Seq<EventModel>,
)
    requires
        run_derives(blank_run(), run, after, events),
    ensures
        events == stream_of(run),
{
    let lifecycle = lifecycle_stream(blank_run(), run.coordinator@);
    let published = all_published(run.executions@);
    let engine = choose|engine: Seq<EventModel>| #[trigger]
        all_derive(lifecycle.0, published, after, engine) && events == lifecycle.1 + engine;
    lemma_derive_all_is(lifecycle.0, published, after, engine);
}

// ── The records a stream carries ───────────────────────────────────────

/// The coordinator records events carry, in order.
pub open spec fn carried_lifecycle(events: Seq<EventModel>) -> Seq<CoordinatorRecord>
    decreases events.len(),
{
    if events.len() == 0 {
        Seq::empty()
    } else {
        let before = carried_lifecycle(events.drop_last());
        match (events.last().id.source, events.last().record) {
            (EventSource::Coordinator, Some(Record::Coordinator(record))) => before.push(record),
            _ => before,
        }
    }
}

/// The stored lines of an execution that events carry, in order.
pub open spec fn carried_lines(events: Seq<EventModel>, execution: ExecutionId) -> Seq<
    StoredEngineRecord,
>
    decreases events.len(),
{
    if events.len() == 0 {
        Seq::empty()
    } else {
        let before = carried_lines(events.drop_last(), execution);
        match events.last().record {
            Some(Record::Engine(line)) => if events.last().id.source == (EventSource::Execution {
                execution,
            }) {
                before.push(line)
            } else {
                before
            },
            _ => before,
        }
    }
}

/// The lines of published records of an execution, in order.
pub open spec fn published_lines(published: Seq<PublishedModel>, execution: ExecutionId) -> Seq<
    StoredEngineRecord,
>
    decreases published.len(),
{
    if published.len() == 0 {
        Seq::empty()
    } else {
        let before = published_lines(published.drop_last(), execution);
        if published.last().execution == execution {
            before.push(stored(published.last().record, published.last().recorded_at))
        } else {
            before
        }
    }
}

proof fn lemma_carried_together(a: Seq<EventModel>, b: Seq<EventModel>, execution: ExecutionId)
    ensures
        carried_lifecycle(a + b) == carried_lifecycle(a) + carried_lifecycle(b),
        carried_lines(a + b, execution) == carried_lines(a, execution) + carried_lines(
            b,
            execution,
        ),
    decreases b.len(),
{
    if b.len() == 0 {
        assert(a + b =~= a);
        assert(carried_lifecycle(a) + carried_lifecycle(b) =~= carried_lifecycle(a));
        assert(carried_lines(a, execution) + carried_lines(b, execution) =~= carried_lines(
            a,
            execution,
        ));
    } else {
        lemma_carried_together(a, b.drop_last(), execution);
        assert((a + b).drop_last() =~= a + b.drop_last());
        assert(carried_lifecycle(a + b) =~= carried_lifecycle(a) + carried_lifecycle(b));
        assert(carried_lines(a + b, execution) =~= carried_lines(a, execution) + carried_lines(
            b,
            execution,
        ));
    }
}

proof fn lemma_bare_events_carry_nothing(events: Seq<EventModel>, execution: ExecutionId)
    requires
        forall|i: int| 0 <= i < events.len() ==> (#[trigger] events[i]).record is None,
    ensures
        carried_lifecycle(events) == Seq::<CoordinatorRecord>::empty(),
        carried_lines(events, execution) == Seq::<StoredEngineRecord>::empty(),
    decreases events.len(),
{
    if events.len() > 0 {
        lemma_bare_events_carry_nothing(events.drop_last(), execution);
        assert(events[events.len() - 1].record is None);
    }
}

proof fn lemma_carried_by_one(events: Seq<EventModel>, execution: ExecutionId)
    requires
        events.len() > 0,
        forall|i: int| 1 <= i < events.len() ==> (#[trigger] events[i]).record is None,
    ensures
        carried_lifecycle(events) == carried_lifecycle(seq![events[0]]),
        carried_lines(events, execution) == carried_lines(seq![events[0]], execution),
{
    let first = seq![events[0]];
    let rest = events.drop_first();
    assert(events =~= first + rest);
    assert forall|i: int| 0 <= i < rest.len() implies (#[trigger] rest[i]).record is None by {
        assert(rest[i] == events[i + 1]);
    }
    lemma_carried_together(first, rest, execution);
    lemma_bare_events_carry_nothing(rest, execution);
    assert(carried_lifecycle(first) + carried_lifecycle(rest) =~= carried_lifecycle(first));
    assert(carried_lines(first, execution) + carried_lines(rest, execution) =~= carried_lines(
        first,
        execution,
    ));
}

proof fn lemma_last_chunk_carries(
    published: Seq<PublishedModel>,
    runs: Seq<ProjectionModel>,
    chunks: Seq<Seq<EventModel>>,
    execution: ExecutionId,
)
    requires
        derived_through(published, runs, chunks),
        published.len() > 0,
    ensures
        carried_lines(chunks.last(), execution) == (if published.last().execution == execution {
            seq![stored(published.last().record, published.last().recorded_at)]
        } else {
            Seq::empty()
        }),
        carried_lifecycle(chunks.last()) == Seq::<CoordinatorRecord>::empty(),
{
    let n = published.len() - 1;
    let last = published[n];
    assert(engine_derives(
        runs[n],
        published[n].execution,
        published[n].record,
        published[n].recorded_at,
        published[n].state,
        published[n].readings,
        runs[n + 1],
        chunks[n],
    ));
    law_engine_record_unchanged(
        runs[n],
        last.execution,
        last.record,
        last.recorded_at,
        last.state,
        last.readings,
        runs[n + 1],
        chunks[n],
    );
    lemma_carried_by_one(chunks.last(), execution);
    let first = seq![chunks.last()[0]];
    reveal_with_fuel(carried_lines, 2);
    reveal_with_fuel(carried_lifecycle, 2);
    assert(first.drop_last() =~= Seq::empty());
    assert(first.last() == chunks.last()[0]);
    let line = stored(last.record, last.recorded_at);
    assert(chunks.last()[0].id.source == (EventSource::Execution { execution: last.execution }));
    if last.execution == execution {
        assert(carried_lines(first, execution) =~= seq![line]);
    } else {
        assert(carried_lines(first, execution) =~= Seq::empty());
    }
    assert(carried_lifecycle(first) =~= Seq::empty());
}

proof fn lemma_fewer_derived(
    published: Seq<PublishedModel>,
    runs: Seq<ProjectionModel>,
    chunks: Seq<Seq<EventModel>>,
)
    requires
        derived_through(published, runs, chunks),
        published.len() > 0,
    ensures
        derived_through(published.drop_last(), runs.drop_last(), chunks.drop_last()),
{
    let fewer = published.drop_last();
    assert forall|i: int| 0 <= i < fewer.len() implies #[trigger] engine_derives(
        runs.drop_last()[i],
        fewer[i].execution,
        fewer[i].record,
        fewer[i].recorded_at,
        fewer[i].state,
        fewer[i].readings,
        runs.drop_last()[i + 1],
        chunks.drop_last()[i],
    ) by {
        assert(engine_derives(
            runs[i],
            published[i].execution,
            published[i].record,
            published[i].recorded_at,
            published[i].state,
            published[i].readings,
            runs[i + 1],
            chunks[i],
        ));
    }
}

proof fn lemma_chunks_carry(
    published: Seq<PublishedModel>,
    runs: Seq<ProjectionModel>,
    chunks: Seq<Seq<EventModel>>,
    execution: ExecutionId,
)
    requires
        derived_through(published, runs, chunks),
    ensures
        carried_lines(joined(chunks), execution) == published_lines(published, execution),
        carried_lifecycle(joined(chunks)) == Seq::<CoordinatorRecord>::empty(),
    decreases published.len(),
{
    if published.len() > 0 {
        lemma_last_chunk_carries(published, runs, chunks, execution);
        lemma_fewer_derived(published, runs, chunks);
        lemma_chunks_carry(
            published.drop_last(),
            runs.drop_last(),
            chunks.drop_last(),
            execution,
        );
        lemma_carried_together(joined(chunks.drop_last()), chunks.last(), execution);
        assert(carried_lines(joined(chunks), execution) =~= published_lines(published, execution));
        assert(carried_lifecycle(joined(chunks)) =~= Seq::empty());
    }
}

proof fn lemma_lifecycle_carries(
    before: ProjectionModel,
    records: Seq<CoordinatorRecord>,
    execution: ExecutionId,
)
    ensures
        carried_lifecycle(lifecycle_stream(before, records).1) == records,
        carried_lines(lifecycle_stream(before, records).1, execution) == Seq::<
            StoredEngineRecord,
        >::empty(),
    decreases records.len(),
{
    if records.len() == 0 {
        assert(carried_lifecycle(lifecycle_stream(before, records).1) =~= records);
    } else {
        let rest = records.drop_last();
        lemma_lifecycle_carries(before, rest, execution);
        let (run, events) = lifecycle_stream(before, rest);
        let own = lifecycle_events(run, records.last());
        law_coordinator_record_unchanged(run, records.last());
        lemma_carried_together(events, own, execution);
        assert forall|i: int| 1 <= i < own.len() implies (#[trigger] own[i]).record is None by {}
        lemma_carried_by_one(own, execution);
        let first = seq![own[0]];
        reveal_with_fuel(carried_lines, 2);
        reveal_with_fuel(carried_lifecycle, 2);
        assert(first.drop_last() =~= Seq::empty());
        assert(first.last() == own[0]);
        assert(carried_lifecycle(first) =~= seq![records.last()]);
        assert(carried_lines(first, execution) =~= Seq::empty());
        assert(rest + seq![records.last()] =~= records);
        assert(Seq::<StoredEngineRecord>::empty() + Seq::<StoredEngineRecord>::empty()
            =~= Seq::<StoredEngineRecord>::empty());
    }
}

/// A host that keeps the records a stream carries keeps the logs: projecting
/// a run carries every coordinator record, once, in order and unchanged, and
/// of every execution exactly the records its log holds, with their recording
/// times.
pub proof fn law_stream_carries_the_logs(
    before: ProjectionModel,
    run: LoadedRun,
    after: ProjectionModel,
    events: Seq<EventModel>,
    execution: ExecutionId,
)
    requires
        run_derives(before, run, after, events),
    ensures
        carried_lifecycle(events) == run.coordinator@,
        carried_lines(events, execution) == published_lines(
            all_published(run.executions@),
            execution,
        ),
{
    let lifecycle = lifecycle_stream(before, run.coordinator@);
    let published = all_published(run.executions@);
    let engine = choose|engine: Seq<EventModel>| #[trigger]
        all_derive(lifecycle.0, published, after, engine) && events == lifecycle.1 + engine;
    let (runs, chunks) = choose|runs: Seq<ProjectionModel>, chunks: Seq<Seq<EventModel>>| #[trigger]
        derived_through(published, runs, chunks) && runs[0] == lifecycle.0 && runs[published.len() as int]
            == after && engine == joined(chunks);
    lemma_chunks_carry(published, runs, chunks, execution);
    lemma_lifecycle_carries(before, run.coordinator@, execution);
    lemma_carried_together(lifecycle.1, engine, execution);
    assert(carried_lifecycle(events) =~= run.coordinator@);
    assert(carried_lines(events, execution) =~= published_lines(published, execution));
}

} // verus!

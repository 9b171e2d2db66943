//! What a call leaves among live invocations, stopped executions and gates,
//! and what it makes of a whole run.

use crate::client::InvocationRequest;
use crate::coordinator::CoordinatorError;
use crate::coordinator::drive::{CompletedExecution, DriveLoop};
use crate::coordinator::gate::{ForkAdmission, ForkGates};
use crate::coordinator::live::{LiveInvocation, LiveInvocations};
use crate::coordinator::tree::SettlePlan;
use crate::event::{
    lifecycle_of, CallSite, CoordinatorEvent, CoordinatorRecord, ForkPosition, SandboxMode,
    SecretBindings,
};
use crate::events::{
    event_models, Context, EventId, EventModel, EventSource, Record, RecordOrigin, RunEvent,
    Subject,
};
use crate::events::export::{
    difference, execution_failure, first_execution_failure, lines_are, replay_failure,
    values_of_records, verify_export, CoordinatorExport, Difference, ExecutionExport, ExportError,
};
use crate::events::follow::{ExecutionReplay, ExecutionTail, RunReplay};
use crate::events::presented::{present_engine, present_lifecycle, PresentedEvent};
use crate::events::projection::Projection;
use crate::events::replay::{
    carried_lifecycle, carried_lines, events_after, law_nothing_held_keeps_all, past_events,
};
use crate::fork::{plan_fork, write_fork, ForkError, ForkOptions, ForkPlan};
use crate::host::HostRun;
use crate::id_set::IdSet;
use crate::ids::{Attempt, ExecutionId, FiringId, GraphDigest, InvocationId, NodeId};
use crate::inspect::{inspect_run, texts, ExecutionLog, InspectError, RunInspection};
use crate::laws::replaying::law_a_read_begins_with_the_coordinator;
use crate::middleware::MiddlewareEntry;
use crate::model::{Fields, Graph, RunStatus};
use crate::note::StepReading;
use crate::observe::values_decoded;
use crate::record::{event_of, EventOrigin, EventRecord, RouteApplied, StoredEngineRecord};
use crate::run_state::{check_format, CoordinatorState, StateError, StoreError};
use crate::state::EngineState;
use vstd::prelude::*;
use vstd::string::*;

verus! {

// ── Live invocations ───────────────────────────────────────────────────

/// A run invocation runs its execution, and holds leases of its own when it
/// is isolated; every other is as it was.
pub proof fn law_a_run_invocation_runs(
    live: &mut LiveInvocations,
    invocation: InvocationId,
    execution: ExecutionId,
    isolated: bool,
    other: u64,
)
    requires
        call_ensures(LiveInvocations::run, (live, invocation, execution, isolated), ()),
    ensures
        final(live)@.contains_key(invocation.0),
        final(live)@[invocation.0] matches LiveInvocation::Running { execution: e, leases } && e
            == execution && (leases is Some <==> isolated),
        other != invocation.0 ==> final(live)@.contains_key(other) == old(live)@.contains_key(other),
        other != invocation.0 && old(live)@.contains_key(other) ==> final(live)@[other] == old(
            live,
        )@[other],
{
    if other != invocation.0 {
        assert(final(live)@.dom().contains(other) == old(live)@.dom().insert(
            invocation.0,
        ).contains(other));
    }
    assert(final(live)@.dom().contains(invocation.0));
}

/// An invocation goes from queued over running to stopped, to releasing, and
/// is then live no more; each step changes that invocation alone.
pub proof fn law_how_an_invocation_lives(
    a: &mut LiveInvocations,
    b: &mut LiveInvocations,
    c: &mut LiveInvocations,
    d: &mut LiveInvocations,
    invocation: InvocationId,
    execution: ExecutionId,
    other: u64,
)
    requires
        call_ensures(LiveInvocations::queue, (a, invocation), ()),
        call_ensures(LiveInvocations::stop, (b, invocation, execution), ()),
        call_ensures(LiveInvocations::mark_releasing, (c, invocation), ()),
        call_ensures(LiveInvocations::remove, (d, invocation), ()),
    ensures
        final(a)@.contains_key(invocation.0) && final(a)@[invocation.0] is Queued,
        final(b)@.contains_key(invocation.0) && final(b)@[invocation.0] is Stopped,
        final(c)@.contains_key(invocation.0) && final(c)@[invocation.0] is Releasing,
        !final(d)@.contains_key(invocation.0),
        other != invocation.0 ==> final(a)@.contains_key(other) == old(a)@.contains_key(other)
            && final(b)@.contains_key(other) == old(b)@.contains_key(other)
            && final(c)@.contains_key(other) == old(c)@.contains_key(other)
            && final(d)@.contains_key(other) == old(d)@.contains_key(other),
{
}

/// The invocations that are live are listed in id order, each once.
pub proof fn law_who_is_listed(live: LiveInvocations, ids: Vec<InvocationId>, empty: bool, id: u64)
    requires
        call_ensures(LiveInvocations::invocations, (&live,), ids),
        call_ensures(LiveInvocations::is_empty, (&live,), empty),
    ensures
        live@.contains_key(id) <==> exists|i: int| 0 <= i < ids@.len() && (#[trigger] ids@[i]).0 == id,
        forall|i: int, j: int|
            0 <= i < j < ids@.len() ==> (#[trigger] ids@[i]).0 < (#[trigger] ids@[j]).0,
        empty ==> !live@.contains_key(id),
{
    if live@.contains_key(id) {
        let i = choose|i: int| 0 <= i < ids@.len() && ids@[i] == InvocationId(id);
        assert(ids@[i].0 == id);
    }
    if exists|i: int| 0 <= i < ids@.len() && (#[trigger] ids@[i]).0 == id {
        let i = choose|i: int| 0 <= i < ids@.len() && (#[trigger] ids@[i]).0 == id;
        assert(ids@[i] == InvocationId(id));
    }
}

// ── The drive loop ─────────────────────────────────────────────────────

/// A new loop has nothing live and nothing stopped.
pub proof fn law_a_new_loop_is_empty(drive: DriveLoop, id: u64)
    requires
        call_ensures(DriveLoop::new, (), drive),
    ensures
        !drive.live@.contains_key(id),
        !drive.stopped().contains_key(id),
{
}

/// An execution that is done stops its invocation; one whose log could not be
/// written fails with the first error, and settles nothing.
pub proof fn law_what_a_done_execution_leaves(
    drive: &mut DriveLoop,
    state: CoordinatorState,
    done: CompletedExecution,
    errors: Vec<String>,
    plan: Result<SettlePlan, CoordinatorError>,
)
    requires
        call_ensures(DriveLoop::on_execution_done, (drive, &state, &done, &errors), plan),
    ensures
        plan is Ok <==> errors@.len() == 0,
        plan matches Err(error) ==> (error matches CoordinatorError::EventWriter {
            execution,
            message,
        } && execution == done.execution && message == errors@[0]),
        final(drive).live@.contains_key(done.invocation.0),
        final(drive).live@[done.invocation.0] is Stopped,
        final(drive).stopped() == old(drive).stopped(),
{
}

/// A gate an attempt passes is as wide as it was made, or as declared when it
/// is new.
pub proof fn law_how_wide_an_attempt_s_gate_is(
    gates: &mut ForkGates,
    admission: ForkAdmission,
    slots: u32,
)
    requires
        call_ensures(ForkGates::attempt_slots, (gates, &admission), slots),
    ensures
        ({
            let key = (admission.parent.0, admission.gate@);
            let was = old(gates)@.contains_key(key);
            &&& was ==> slots == old(gates)@[key].slots
            &&& !was && admission.max_parallel > 0 ==> slots == admission.max_parallel
            &&& !was && admission.max_parallel == 0 ==> slots == 1
            &&& was ==> final(gates)@[key].queued == old(gates)@[key].queued
        }),
{
}

// ── Forks ──────────────────────────────────────────────────────────────

/// A fork's plan names its source and position, keeps its chain and its
/// root's graph, and cuts within the log.
pub proof fn law_what_a_fork_s_plan_names(
    records: Vec<CoordinatorRecord>,
    state: CoordinatorState,
    log: Vec<EventRecord>,
    finished: IdSet,
    position: ForkPosition,
    options: ForkOptions,
    plan: Result<ForkPlan, ForkError>,
)
    requires
        call_ensures(plan_fork, (&records, &state, &log, &finished, position, options), plan),
    ensures
        plan matches Ok(plan) ==> {
            &&& plan.origin.position == position
            &&& plan.origin.rerun_last == options.rerun_last
            &&& plan.middleware_chain == state.middleware_chain
            &&& plan.cut <= log@.len()
            &&& state.spec_invocation(InvocationId(0)) matches Some(root) ==> plan.root_graph
                == root.declaration.graph
            &&& records@.len() > 0
            &&& lifecycle_of(records@[0]) matches CoordinatorEvent::RunStarted { key, .. }
            &&& plan.origin.source == key
        },
        state.spec_execution(position.execution) is None ==> plan is Err,
{
}

/// A fork's log opens with its own declaration, under its own key and with
/// where it was forked from, and goes on with what its plan keeps.
pub proof fn law_how_a_fork_s_log_opens(
    plan: ForkPlan,
    key: String,
    now: u64,
    records: Vec<CoordinatorRecord>,
    i: int,
)
    requires
        call_ensures(write_fork, (&plan, &key, now), records),
        plan.records@.len() < u64::MAX,
    ensures
        records@.len() == plan.records@.len() + 1,
        lifecycle_of(records@[0]) matches CoordinatorEvent::RunStarted {
            key: k,
            root,
            middleware_chain,
            forked_from,
            format_version,
        } && format_version == 3 && k == key && root.0 == 0 && middleware_chain == plan.middleware_chain && forked_from
            == Some(plan.origin),
        records@[0].recorded_at == now && records@[0].seq == 0,
        0 < i < records@.len() ==> records@[i].seq == i && records@[i].body == plan.records@[i
            - 1].body && records@[i].recorded_at == plan.records@[i - 1].recorded_at,
{
}

// ── Documents ──────────────────────────────────────────────────────────

/// The document of a run shows its recorded status, or none; its notes, its
/// graphs, its chain and whether it is paused; and every invocation and
/// execution, in order.
pub proof fn law_what_a_run_s_document_shows(
    records: Vec<CoordinatorRecord>,
    state: CoordinatorState,
    graphs: Vec<(GraphDigest, Graph)>,
    logs: Vec<ExecutionLog>,
    locator: String,
    document: Result<RunInspection, InspectError>,
    i: int,
)
    requires
        call_ensures(inspect_run, (&records, &state, &graphs, &logs, locator), document),
    ensures
        document matches Ok(document) ==> {
            &&& document.locator == locator
            &&& document.inspect_format_version == 3 && document.coordinator_format_version == 3
            &&& document.status is Some <==> state.run_status is Some
            &&& state.run_status == Some(RunStatus::Success) ==> document.status->0@ == "success"@
            &&& state.run_status == Some(RunStatus::Failed) ==> document.status->0@ == "failed"@
            &&& state.run_status == Some(RunStatus::Cancelled) ==> document.status->0@
                == "cancelled"@
            &&& document.complete <==> document.incomplete@.len() == 0
            &&& document.complete ==> state.run_status is Some
            &&& document.paused == state.paused && document.notes == state.run_notes
                && document.graphs@ == state.graphs@ && document.middleware_chain
                == state.middleware_chain
            &&& Some(document.root.invocation) == state.root
            &&& document.invocations@.len() == state.invocations@.len()
            &&& document.executions@.len() == state.executions@.len()
            &&& 0 <= i < document.invocations@.len() ==> document.invocations@[i].invocation
                == state.invocations@[i].declaration.id
            &&& 0 <= i < document.executions@.len() ==> document.executions@[i].execution
                == state.executions@[i].declaration.id && document.executions@[i].invocation
                == state.executions@[i].declaration.invocation
            &&& document.interviews is None
        },
{
    if let Ok(shown) = document {
        assert(texts(shown.incomplete@).len() == shown.incomplete@.len());
    }
}

// ── Exports ────────────────────────────────────────────────────────────

/// An execution's log is exported when what the stream exports is the stored
/// log, reads back as it, and the log is what its external records replay to;
/// the first of these that fails is told.
pub proof fn law_when_an_execution_is_exported(log: ExecutionExport)
    ensures
        ({
            let apart = difference(log.exported@, log.stored@);
            let read = values_decoded(values_of_records(log.exported@), log.foreign@);
            let failure = execution_failure(log);
            &&& failure is None <==> apart is None && (read matches Ok(lines) && lines_are(
                lines,
                log.stored@,
            )) && replay_failure(log) is None
            &&& apart matches Some(Difference::At(seq)) ==> failure == Some(
                ExportError::Engine { execution: log.execution, seq: Some(seq) },
            )
            &&& apart == Some(Difference::Length) ==> failure == Some(
                ExportError::Engine { execution: log.execution, seq: None },
            )
            &&& apart is None ==> (read matches Err(source) ==> failure == Some(
                ExportError::EngineReload { execution: log.execution, source },
            ))
        }),
{
}

/// A run's export is verified when neither its coordinator log nor any of its
/// executions keeps it from being.
pub proof fn law_what_a_verified_export_means(
    log: CoordinatorExport,
    executions: Vec<ExecutionExport>,
    verified: Result<(), ExportError>,
    i: int,
)
    requires
        call_ensures(verify_export, (&log, &executions), verified),
        0 <= i < executions@.len(),
    ensures
        verified is Ok ==> execution_failure(executions@[i]) is None,
        verified is Ok ==> difference(log.exported@, log.stored@) is None,
{
    lemma_no_failure(executions@, i);
}

proof fn lemma_no_failure(executions: Seq<ExecutionExport>, i: int)
    requires
        0 <= i < executions.len(),
    ensures
        first_execution_failure(executions) is None ==> execution_failure(
            executions[i],
        ) is None,
    decreases executions.len(),
{
    if i < executions.len() - 1 {
        lemma_no_failure(executions.drop_last(), i);
    }
}

/// The records a stream carries are those of its logs' own events, in order:
/// the coordinator's, and each execution's under it.
pub proof fn law_what_a_stream_carries(
    events: Seq<EventModel>,
    event: EventModel,
    execution: ExecutionId,
)
    ensures
        carried_lifecycle(Seq::empty()).len() == 0,
        carried_lines(Seq::empty(), execution).len() == 0,
        event.record is None ==> carried_lifecycle(events.push(event)) == carried_lifecycle(events)
            && carried_lines(events.push(event), execution) == carried_lines(events, execution),
        event.record matches Some(Record::Coordinator(record)) ==> (event.id.source is Coordinator
            ==> carried_lifecycle(events.push(event)) == carried_lifecycle(events).push(record)),
        event.record matches Some(Record::Engine(line)) ==> (event.id.source
            == (EventSource::Execution { execution }) ==> carried_lines(
            events.push(event),
            execution,
        ) == carried_lines(events, execution).push(line)),
        event.record matches Some(Record::Engine(line)) ==> (event.id.source
            != (EventSource::Execution { execution }) ==> carried_lines(
            events.push(event),
            execution,
        ) == carried_lines(events, execution)),
{
    assert(events.push(event).drop_last() =~= events);
}

// ── Following and presenting ───────────────────────────────────────────

/// A new replay consumed and published nothing.
pub proof fn law_a_new_replay_is_empty(
    replay: RunReplay,
    state: EngineState,
    execution: ExecutionReplay,
    id: u64,
)
    requires
        call_ensures(RunReplay::new, (), replay),
        call_ensures(ExecutionReplay::new, (state,), execution),
    ensures
        replay@.consumed == 0,
        !replay@.executions.contains_key(id),
        execution@.published == 0,
        execution@.log.len() == 0,
        execution@.state == state,
{
}

/// A read without coordinator records is refused exactly when the run never
/// started.
pub proof fn law_when_an_empty_read_is_refused(
    replay: RunReplay,
    records: Vec<CoordinatorRecord>,
    started: bool,
    checked: Result<(), StateError>,
)
    requires
        call_ensures(RunReplay::check, (&replay, &records, started), checked),
        records@.len() == 0,
    ensures
        checked is Ok <==> started,
        checked matches Err(error) ==> error is MissingRunStart,
{
}

/// A refused read leaves a replay as it was; one that is taken consumes every
/// coordinator record it brought.
pub proof fn law_a_refused_read_changes_nothing(
    replay: &mut RunReplay,
    records: Vec<CoordinatorRecord>,
    started: bool,
    tails: Vec<ExecutionTail>,
    events: Result<Vec<RunEvent>, StateError>,
)
    requires
        call_ensures(RunReplay::advance, (replay, &records, started, tails), events),
    ensures
        events is Err ==> *final(replay) == *old(replay),
        events is Ok ==> started && final(replay)@.consumed == old(replay)@.consumed
            + records@.len(),
{
    law_a_read_begins_with_the_coordinator(old(replay)@, records@, tails@);
}

/// The events past each log's held position are handed out, in order; with
/// nothing held, all of them.
pub proof fn law_which_events_are_handed_out(
    events: Vec<RunEvent>,
    held: Vec<(EventSource, EventId)>,
    kept: Vec<RunEvent>,
)
    requires
        call_ensures(events_after, (events, &held), kept),
    ensures
        kept@.len() <= events@.len(),
        held@.len() == 0 ==> kept@ == events@,
        forall|i: int| 0 <= i < kept@.len() ==> events@.contains(#[trigger] kept@[i]),
{
    lemma_kept(events@, held@);
    if held@.len() == 0 {
        assert(held@ =~= Seq::empty());
        law_nothing_held_keeps_all(events@);
    }
}

proof fn lemma_kept(events: Seq<RunEvent>, held: Seq<(EventSource, EventId)>)
    ensures
        past_events(events, held).len() <= events.len(),
        forall|i: int|
            0 <= i < past_events(events, held).len() ==> events.contains(
                #[trigger] past_events(events, held)[i],
            ),
    decreases events.len(),
{
    if events.len() > 0 {
        let rest = events.drop_last();
        lemma_kept(rest, held);
        let before = past_events(rest, held);
        let all = past_events(events, held);
        assert forall|i: int| 0 <= i < all.len() implies events.contains(#[trigger] all[i]) by {
            if i < before.len() {
                assert(all[i] == before[i]);
                let k = choose|k: int| 0 <= k < rest.len() && rest[k] == before[i];
                assert(events[k] == all[i]);
            } else {
                assert(events[events.len() - 1] == all[i]);
            }
        }
    }
}

/// A coordinator record is presented under its seq, as the first event of it,
/// at the time it was recorded.
pub proof fn law_where_a_presented_record_stands(
    record: CoordinatorRecord,
    context: Context,
    event: PresentedEvent,
)
    requires
        call_ensures(present_lifecycle, (&record, &context), event),
    ensures
        event.id.source == EventSource::Coordinator && event.id.seq == record.seq && event.id.index
            == 0,
        event.recorded_at == Some(record.recorded_at),
        event.context.invocation == context.invocation && event.context.parent == context.parent,
        !(lifecycle_of(record) is RunNoteRecorded) ==> event.context.execution == context.execution,
        event.subject is None && event.observed_at is None,
        record.origin == EventOrigin::External <==> event.origin == RecordOrigin::External,
{
}

/// An engine record is presented under its execution and seq, in its context,
/// at the time it was recorded.
pub proof fn law_where_a_presented_engine_record_stands(
    execution: ExecutionId,
    record: EventRecord,
    recorded_at: Option<u64>,
    context: Context,
    about: Subject,
    graph: Graph,
    reading: StepReading,
    event: Option<PresentedEvent>,
)
    requires
        call_ensures(
            present_engine,
            (execution, &record, recorded_at, &context, &about, &graph, &reading),
            event,
        ),
    ensures
        event matches Some(event) ==> event.id.source == (EventSource::Execution { execution })
            && event.id.seq == record.seq && event.id.index == 0 && event.context == context
            && event.recorded_at == recorded_at && event.observed_at is None,
        event_of(record) is StepStarted || event_of(record) is StepFinished ==> event is Some,
        event_of(record) is TokenEmitted || event_of(record) is RouteApplied || event_of(
            record,
        ) is NodeExpanded ==> event is None,
{
}

/// A coordinator record's own event comes first, under its seq.
pub proof fn law_a_coordinator_record_s_own_event(
    projection: &mut Projection,
    record: CoordinatorRecord,
    events: Vec<RunEvent>,
)
    requires
        call_ensures(Projection::lifecycle, (projection, &record), events),
    ensures
        events@.len() >= 1,
        events@[0].id.source == EventSource::Coordinator && events@[0].id.seq == record.seq
            && events@[0].id.index == 0,
        events@[0].record == Some(Record::Coordinator(record)),
{
    let models = event_models(events@);
    assert(models.len() == events@.len());
    assert(models[0] == events@[0].model());
}

/// A run is read when it is of the one format there is, and else refused with
/// the format it has.
pub proof fn law_which_format_is_read(found: u32, checked: Result<(), StoreError>)
    requires
        call_ensures(check_format, (found,), checked),
    ensures
        checked is Ok <==> found == 3,
        checked matches Err(error) ==> (error matches StoreError::UnsupportedFormat {
            found: f,
            expected,
        } && f == found && expected == 3),
{
}

// ── Parts ──────────────────────────────────────────────────────────────

/// A request asks for what it was made with, and for no gate.
pub proof fn law_what_a_request_asks_for(
    site: CallSite,
    graph: GraphDigest,
    context: Fields,
    secrets: SecretBindings,
    sandbox: SandboxMode,
    request: InvocationRequest,
)
    requires
        call_ensures(InvocationRequest::new, (site, graph, context, secrets, sandbox), request),
    ensures
        request.site == site && request.graph == graph && request.context == context
            && request.secrets == secrets && request.sandbox == sandbox
            && request.admission is None,
{
}

/// A host's run is its graph, with the children and the middleware added to
/// it, in order.
pub proof fn law_what_a_host_s_run_holds(
    graph: Graph,
    children: Vec<Graph>,
    entry: MiddlewareEntry,
    run: HostRun,
    with: HostRun,
    more: HostRun,
)
    requires
        call_ensures(HostRun::new, (graph,), run),
        call_ensures(HostRun::with_children, (run, children), with),
        call_ensures(HostRun::with_middleware, (with, entry), more),
    ensures
        more.graph == graph,
        more.children == children,
        more.middleware@ == seq![entry],
{
    assert(run.middleware@.push(entry) =~= seq![entry]);
}

/// A stored line is its record with its time, and gives both back.
pub proof fn law_a_line_is_its_record(
    record: EventRecord,
    recorded_at: u64,
    line: StoredEngineRecord,
    parts: (EventRecord, u64),
)
    requires
        call_ensures(StoredEngineRecord::new, (&record, recorded_at), line),
        call_ensures(StoredEngineRecord::into_parts, (line,), parts),
    ensures
        line.seq == record.seq && line.origin == record.origin && line.body == record.event
            && line.recorded_at == recorded_at,
        parts.0.seq == record.seq && parts.0.origin == record.origin && parts.0.event
            == record.event && parts.1 == recorded_at,
{
}

/// A state knows whether a firing awaits admission, whether a node was
/// killed, and whether an attempt is a firing's final one.
pub proof fn law_what_a_state_knows(
    state: EngineState,
    firing: FiringId,
    attempt: Attempt,
    node: NodeId,
    awaits: bool,
    killed: bool,
    last: bool,
)
    requires
        call_ensures(EngineState::is_awaiting_admission, (&state, firing), awaits),
        call_ensures(EngineState::is_node_killed, (&state, node), killed),
        call_ensures(EngineState::is_final, (&state, firing, attempt), last),
    ensures
        awaits <==> state.awaiting_admission@.contains(firing),
        killed <==> state.killed@.contains(node),
        last <==> exists|i: int|
            0 <= i < state.history@.len() && (#[trigger] state.history@[i]).firing == firing
                && state.history@[i].attempt == attempt,
{
}

} // verus!

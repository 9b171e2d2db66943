//! What a call of an operation a host drives returns and leaves, whatever it
//! was given.

use crate::controls::{steered, ControlError, LiveStage, LiveStages, PauseState, UnpauseStep};
use crate::coordinator::CoordinatorError;
use crate::event::{CancelReason, CancelRequest, ScopeOutcome};
use crate::events::{event_models, DerivedModel, EventId, RunEvent, ViewModel};
use crate::events::derivation::Readings;
use crate::events::projection::Projection;
use crate::events::projector::{
    stamped, ProjectionReceipt, ProjectorOptions, Pump, Queue, SendOutcome, SinkOutcome,
};
use crate::hooks::HookPoint;
use crate::hooks::adapter::{
    before_attempt, firing_request, prepare_result, run_finished, scope_released, transition,
    AttemptStep, FiringView, HookPayload, HookRequest, Prepared, TransitionError, TransitionReport,
};
use crate::hooks::report::{HookDecision, HookReport};
use crate::host::{registered, stored_root_graph, HostError};
use crate::ids::{Attempt, ExecutionId, FiringId, GraphDigest, InvocationId, NodeId, ScopeId};
use crate::inspect::texts;
use crate::interview::{
    AnswerControl, Delivery, InterviewError, InterviewReceipt, InterviewRecord, InterviewReply,
    InterviewRequest, Interviews, ServeStep,
};
use crate::json::{member_at, Json, JsonView};
use crate::laws::telling::recorded_final;
use crate::middleware::{
    answered_admission, baseline_admission, enforce_restart_limit, group_decision,
    PipelineAdmission, PipelineRoute, RoutingProposal,
};
use crate::model::{Outcome, RunStatus};
use crate::record::{event_of, Admission, Event, EventRecord, GroupDecision, RouteDecision};
use crate::run_state::CoordinatorState;
use crate::state::EngineState;
use crate::steps::{Answer, Question};
use crate::writer::{Batch, ExecutionLogWriter, LogId, ObserveError, WriterState};
use std::sync::Arc;
use vstd::prelude::*;
use vstd::string::*;

verus! {

// ── Controls ───────────────────────────────────────────────────────────

/// A pause holds at once, and is recorded when the run can be reached and was
/// not paused.
pub proof fn law_a_pause_holds(state: &mut PauseState, record: bool)
    requires
        call_ensures(PauseState::pause, (state,), record),
    ensures
        final(state).paused,
        final(state).wired == old(state).wired,
        record <==> old(state).wired && !old(state).paused,
{
}

/// A pause taken before the run could be reached is recorded once it can be.
pub proof fn law_an_early_pause_is_recorded(state: &mut PauseState, record: bool)
    requires
        call_ensures(PauseState::wire, (state,), record),
    ensures
        final(state).wired,
        final(state).paused == old(state).paused,
        record <==> old(state).paused,
{
}

/// An unpause of a run that is not paused is nothing; of a paused one it is
/// recorded before admission is released, when the run can be reached.
pub proof fn law_how_a_run_is_unpaused(state: PauseState, step: UnpauseStep)
    requires
        call_ensures(PauseState::unpause, (&state,), step),
    ensures
        step == UnpauseStep::Nothing <==> !state.paused,
        step == UnpauseStep::Record <==> state.paused && state.wired,
        step == UnpauseStep::Release <==> state.paused && !state.wired,
{
}

/// A release ends the hold and tells whether there was one.
pub proof fn law_a_release_ends_the_hold(state: &mut PauseState, held: bool)
    requires
        call_ensures(PauseState::release, (state,), held),
    ensures
        !final(state).paused,
        final(state).wired == old(state).wired,
        held <==> old(state).paused,
{
}

/// An attempt is held while the run is paused and its service is there.
pub proof fn law_who_is_held(state: PauseState, service_gone: bool, admits: bool)
    requires
        call_ensures(PauseState::admits, (&state, service_gone), admits),
    ensures
        !admits <==> state.paused && !service_gone,
{
}

/// A cancel is of the whole run, for the control's reason, and reaches the
/// kill tier when asked again; a run that cannot be reached has finished.
pub proof fn law_a_run_is_cancelled_whole(
    state: PauseState,
    request: Result<CancelRequest, ControlError>,
)
    requires
        call_ensures(PauseState::cancel, (&state,), request),
    ensures
        state.wired <==> request is Ok,
        request matches Ok(request) ==> request.invocation.0 == 0 && request.reason == Some(
            CancelReason::Control,
        ) && request.escalate,
        request matches Err(error) ==> error is Finished,
{
}

/// A steer goes to the stage running under the name; when none does it says
/// so, and when the run cannot be reached it has finished.
pub proof fn law_where_a_steer_goes(
    state: PauseState,
    live: LiveStages,
    node: String,
    stage: Result<LiveStage, ControlError>,
    delivered: bool,
    answer: Result<(), ControlError>,
)
    requires
        call_ensures(PauseState::steer, (&state, &live, &node), stage),
        call_ensures(steered, (delivered,), answer),
    ensures
        live.stage_named(node@) is None ==> stage == Err::<LiveStage, ControlError>(
            ControlError::NoSuchStage(node),
        ),
        live.stage_named(node@) matches Some(found) ==> (state.wired ==> stage == Ok::<
            LiveStage,
            ControlError,
        >(found)) && (!state.wired ==> (stage matches Err(error) && error is Finished)),
        delivered <==> answer is Ok,
        answer matches Err(error) ==> error is NotLive,
{
}

// ── Interviews ─────────────────────────────────────────────────────────

/// A question that comes too early or too late is refused with an error; one
/// that is pending already is not asked twice.
pub proof fn law_which_questions_are_asked(
    interviews: &mut Interviews,
    wired: bool,
    execution: ExecutionId,
    firing: FiringId,
    question: Arc<Question>,
    engine: EngineState,
    request: Option<InterviewRequest>,
)
    requires
        call_ensures(
            Interviews::ask,
            (interviews, wired, execution, firing, question, &engine),
            request,
        ),
    ensures
        ({
            let pending = old(interviews)@.live.contains_key((execution.0, question.id@));
            &&& request is Some <==> wired && !old(interviews)@.closed && !pending
            &&& !wired || old(interviews)@.closed ==> final(interviews)@.errors.len() == old(
                interviews,
            )@.errors.len() + 1
            &&& wired && !old(interviews)@.closed ==> final(interviews)@.errors == old(
                interviews,
            )@.errors
            &&& request is Some ==> final(interviews)@.live.contains_key(
                (execution.0, question.id@),
            ) && final(interviews)@.live[(execution.0, question.id@)] == firing
            &&& request matches Some(request) ==> request.question == question && request.firing
                == firing && request.execution == execution
        }),
{
}

/// A reply is delivered only to a question that is pending while its firing
/// runs and the dispatcher is not shutting down; whatever came, it is pending
/// no more.
pub proof fn law_which_replies_are_delivered(
    interviews: &mut Interviews,
    request: InterviewRequest,
    reply: Option<InterviewReply>,
    finished: bool,
    shutdown: bool,
    step: ServeStep,
)
    requires
        call_ensures(
            Interviews::serve,
            (interviews, &request, reply, finished, shutdown),
            step,
        ),
    ensures
        ({
            let key = (request.execution.0, request.question.id@);
            let live = old(interviews)@.live.contains_key(key) && !finished && !shutdown;
            &&& !final(interviews)@.live.contains_key(key)
            &&& step is Done <==> reply is None || !live
            &&& step is Done ==> final(interviews)@.records.len() == old(
                interviews,
            )@.records.len() + 1
            &&& !(step is Done) ==> final(interviews)@.records == old(interviews)@.records
            &&& reply is None ==> final(interviews)@.errors == old(interviews)@.errors
            &&& reply is Some && !live ==> final(interviews)@.errors.len() == old(
                interviews,
            )@.errors.len() + 1
        }),
{
}

/// A registered secret is delivered by reference; one that could not be
/// registered is withheld, its question cancelled, and an error.
pub proof fn law_a_secret_goes_by_reference(
    interviews: &mut Interviews,
    record: InterviewRecord,
    answer: Answer,
    name: String,
    outcome: Result<(), String>,
    step: ServeStep,
)
    requires
        call_ensures(
            Interviews::registered,
            (interviews, record, answer, name, outcome),
            step,
        ),
    ensures
        outcome is Ok <==> step is Deliver,
        outcome is Err <==> step is CancelGate,
        outcome is Ok ==> final(interviews)@ == old(interviews)@,
        outcome is Err ==> final(interviews)@.errors.len() == old(interviews)@.errors.len() + 1,
        step matches ServeStep::Deliver { record: kept, control } ==> kept.question
            == record.question && (control matches AnswerControl::Answer(sent) && (
        sent.text matches Some(value) && value@ == JsonView::Object(
            seq![("$secret"@, JsonView::Text(name@))],
        ))),
        step matches ServeStep::CancelGate { record: kept } ==> kept.delivery == Delivery::Withheld
            && kept.question == record.question,
{
}

/// A delivery is recorded as what it came to.
pub proof fn law_a_delivery_is_recorded(
    interviews: &mut Interviews,
    record: InterviewRecord,
    reached: bool,
)
    requires
        call_ensures(Interviews::delivered, (interviews, record, reached), ()),
    ensures
        final(interviews)@.records.len() == old(interviews)@.records.len() + 1,
        final(interviews)@.records.last().question == record.question,
        final(interviews)@.records.last().reply == record.reply,
        reached ==> final(interviews)@.records.last().delivery == Delivery::Delivered,
        !reached ==> final(interviews)@.records.last().delivery == Delivery::NotLive,
        final(interviews)@.errors == old(interviews)@.errors,
{
}

/// A closed dispatcher stays as it was, but closed; a failed reply task and
/// one that ignored its token are one error each.
pub proof fn law_what_a_shutdown_leaves(
    closed: &mut Interviews,
    failed: &mut Interviews,
    error: &str,
    pending: &mut Interviews,
)
    requires
        call_ensures(Interviews::close, (closed,), ()),
        call_ensures(Interviews::task_failed, (failed, error), ()),
        call_ensures(Interviews::task_pending, (pending,), ()),
    ensures
        final(closed)@.closed && final(closed)@.live == old(closed)@.live
            && final(closed)@.records == old(closed)@.records && final(closed)@.errors == old(
            closed,
        )@.errors,
        final(failed)@.errors == old(failed)@.errors.push("a reply task failed: "@ + error@),
        final(failed)@.records == old(failed)@.records,
        final(pending)@.errors == old(pending)@.errors.push(
            "a reply task was still pending after shutdown"@,
        ),
{
}

/// A receipt holds every record, and what the interviewer's own finish
/// returned or failed with.
pub proof fn law_what_a_receipt_holds(
    interviews: Interviews,
    finish: Result<Option<Json>, InterviewError>,
    receipt: InterviewReceipt,
)
    requires
        call_ensures(Interviews::into_receipt, (interviews, finish), receipt),
    ensures
        receipt.version == 1,
        receipt.questions@ == interviews@.records,
        finish matches Ok(script) ==> receipt.script == script && receipt.errors@.len()
            == interviews@.errors.len(),
        finish is Err ==> receipt.script is None && receipt.errors@.len()
            == interviews@.errors.len() + 1,
        finish matches Err(error) ==> receipt.errors@.last()@ == error.spec_message(),
{
    assert(texts(receipt.errors@).len() == receipt.errors@.len());
    if finish is Err {
        assert(texts(receipt.errors@).last() == receipt.errors@.last()@);
    }
}

// ── Hooks and middleware ───────────────────────────────────────────────

/// An attempt is asked about until a report stops it or no point is left; it
/// is skipped or blocked as the last report decided, and else admitted.
pub proof fn law_how_an_attempt_is_decided(
    view: FiringView,
    key: &str,
    reports: Vec<HookReport>,
    step: AttemptStep,
)
    requires
        call_ensures(before_attempt, (&view, key, &reports), step),
    ensures
        ({
            let n = reports@.len();
            let last = reports@[n - 1].decision;
            let stopped = n > 0 && (last is Skip || last is Block);
            &&& stopped ==> step is Decided
            &&& step matches AttemptStep::Decided(decision) ==> {
                &&& !stopped ==> decision.admission is Admit
                &&& stopped && last is Skip ==> decision.admission is Skip
                &&& stopped && last is Block ==> decision.admission is Block
                &&& stopped ==> (last matches HookDecision::Block { reason } ==> (
                decision.admission matches Admission::Block { reason: why } && why == reason))
            }
            &&& step matches AttemptStep::Ask(point) ==> (n == 0 && view.attempt.0 == 1 ==> point
                == HookPoint::BeforeVisit) && (n == 0 && view.attempt.0 != 1 ==> point
                == HookPoint::Retrying) && (n == 1 ==> point == HookPoint::BeforeAttempt) && n < 2
        }),
{
}

/// Nothing is asked about a lowering artifact, and everything else is asked
/// at the point, with the view and the outcome it has.
pub proof fn law_what_is_asked_of_a_firing(
    point: HookPoint,
    view: Arc<FiringView>,
    outcome: Option<Arc<Outcome>>,
    request: Option<HookRequest>,
)
    requires
        call_ensures(firing_request, (point, &view, outcome), request),
    ensures
        request is None <==> member_at(view.meta, "synthetic"@) == Some(
            Json::Bool(true),
        ),
        request matches Some(request) ==> request.point == point && request.view == Some(view)
            && request.outcome == outcome && request.routes@.len() == 0,
{
}

/// A report adjusts an attempt's status only when it says so.
pub proof fn law_when_a_status_is_adjusted(report: Option<&HookReport>, prepared: Prepared)
    requires
        call_ensures(prepare_result, (report,), prepared),
    ensures
        prepared.status is Some <==> (report matches Some(report) && report.decision is Adjust),
        prepared.reason is Some <==> prepared.status is Some,
        report matches Some(report) ==> (report.decision matches HookDecision::Adjust {
            status,
            reason,
        } ==> prepared.status == Some(status.status) && prepared.reason == Some(reason)),
        report is None ==> prepared.notes@.len() == 0,
{
}

/// A transition is refused when its hook blocks it, for its reason; it is
/// overridden only when the hook says so, to the group and edge it names.
pub proof fn law_what_a_transition_comes_to(
    report: Option<&HookReport>,
    out: Result<TransitionReport, TransitionError>,
)
    requires
        call_ensures(transition, (report,), out),
    ensures
        out is Err <==> (report matches Some(report) && report.decision is Block),
        out matches Err(error) ==> (report matches Some(report) && (report.decision matches
            HookDecision::Block { reason } && error.reason == reason)),
        out matches Ok(done) ==> (done.overrides@.len() > 0 <==> (report matches Some(report)
            && report.decision is Override)),
        out matches Ok(done) ==> (report matches Some(report) ==> done.problems@
            == report.warnings@ && (report.decision matches HookDecision::Override { group, edge }
            ==> done.overrides@.len() == 1 && done.overrides@[0].group == group
            && done.overrides@[0].edge == edge)),
{
}

/// The end of a run is told with its status and failure, that of a scope with
/// the scope and how it ended.
pub proof fn law_how_ends_are_told(
    status: RunStatus,
    failure: Option<String>,
    scope: ScopeId,
    outcome: ScopeOutcome,
    run: HookRequest,
    released: HookRequest,
)
    requires
        call_ensures(run_finished, (status, failure), run),
        call_ensures(scope_released, (scope, outcome), released),
    ensures
        run.point == HookPoint::RunFinished && (run.payload matches HookPayload::RunFinished(told)
            && told.status == status && told.failure == failure),
        released.point == HookPoint::ScopeReleased && (released.payload matches
            HookPayload::ScopeReleased(told) && told.scope == scope && (outcome is Succeeded
            ==> told.outcome@ == "succeeded"@) && (outcome is Failed ==> told.outcome@
            == "failed"@)),
{
}

/// Without a middleware an attempt is admitted; one that answers is traced
/// unless it passed on what it was told.
pub proof fn law_how_an_admission_is_answered(
    key: String,
    decision: Admission,
    downstream: Option<PipelineAdmission>,
    base: PipelineAdmission,
    admission: PipelineAdmission,
)
    requires
        call_ensures(baseline_admission, (), base),
        call_ensures(answered_admission, (key, decision, downstream), admission),
    ensures
        base.decision is Admit && base.trace@.len() == 0,
        admission.decision == decision,
        downstream is None ==> admission.trace@ == seq![key],
        downstream matches Some(below) ==> (decision is Admit && below.decision is Admit
            ==> admission.trace@ == below.trace@),
        downstream matches Some(below) ==> ((decision is Admit) != (below.decision is Admit)
            ==> admission.trace@.len() == below.trace@.len() + 1 && admission.trace@[0] == key),
{
}

/// A restart past the limit is blocked for that reason; every other decision
/// stands, with its draw and its trace.
pub proof fn law_how_a_group_is_decided(
    restart_allowed: bool,
    proposal: RoutingProposal,
    draw: Json,
    resolved: PipelineRoute,
    group: GroupDecision,
    enforced: RouteDecision,
)
    requires
        call_ensures(group_decision, (restart_allowed, &proposal, draw, resolved), group),
        call_ensures(
            enforce_restart_limit,
            (restart_allowed, &proposal, resolved.decision),
            enforced,
        ),
    ensures
        group.group == proposal.group && group.draw == draw && group.trace@ == resolved.trace@,
        restart_allowed ==> group.decision == resolved.decision && enforced == resolved.decision,
        !(resolved.decision is Emit) ==> group.decision == resolved.decision && enforced
            == resolved.decision,
        group.decision != resolved.decision ==> (group.decision matches RouteDecision::Block {
            reason,
        } && reason@ == "maximum executions per invocation reached"@),
        group.decision == resolved.decision || enforced is Block,
{
}

// ── The public stream ──────────────────────────────────────────────────

/// An attempt that is not its firing's final one tells of its retry right
/// behind its own event, with the attempt and the delay that come next, when
/// the firing's node is known.
pub proof fn law_a_retry_is_told_for_a_returned_attempt(
    projection: &mut Projection,
    execution: ExecutionId,
    record: EventRecord,
    recorded_at: u64,
    state: EngineState,
    readings: Readings,
    events: Vec<RunEvent>,
    firing: FiringId,
    attempt: Attempt,
    node: NodeId,
)
    requires
        call_ensures(
            Projection::engine,
            (projection, execution, &record, recorded_at, &state, &readings),
            events,
        ),
        event_of(record) matches Event::StepFinished { firing: f, attempt: a, .. } && f == firing
            && a == attempt,
        state.spec_firing_node(firing) == Some(node),
        state.graph.spec_node(node) is Some,
        !recorded_final(state, firing, attempt),
    ensures
        events@.len() >= 3,
        events@[1].model().derived == Some(
            DerivedModel::View(
                ViewModel::RetryScheduled {
                    next_attempt: readings.retry.next_attempt,
                    base_delay_ms: readings.retry.base_delay_ms,
                },
            ),
        ),
{
    let models = event_models(events@);
    assert(models.len() == events@.len());
    assert(models[1] == events@[1].model());
}

/// An event is stamped with when it was seen, and nothing else of it changes.
pub proof fn law_a_stamp_changes_nothing_else(event: RunEvent, now: Option<u64>, seen: RunEvent)
    requires
        call_ensures(stamped, (event, now), seen),
    ensures
        seen.observed_at == now,
        seen.id == event.id && seen.origin == event.origin && seen.context == event.context
            && seen.subject == event.subject && seen.recorded_at == event.recorded_at
            && seen.record == event.record && seen.derived == event.derived,
{
}

/// The queue has room for as many as was asked for, and for one at least.
pub proof fn law_how_much_room_a_queue_has(options: ProjectorOptions, room: usize)
    requires
        call_ensures(ProjectorOptions::room, (&options,), room),
    ensures
        options.capacity > 0 ==> room == options.capacity,
        options.capacity == 0 ==> room == 1,
{
}

/// An overflow is warned of once; a closed queue counts what comes after.
pub proof fn law_an_overflow_is_warned_of_once(queue: &mut Queue, outcome: SendOutcome, warn: bool)
    requires
        call_ensures(Queue::push, (queue, outcome), warn),
        old(queue).sent + old(queue).overflowed + old(queue).after_close < u64::MAX,
    ensures
        warn ==> old(queue).overflowed == 0 && final(queue).overflowed == 1,
        old(queue).overflowed == 0 && final(queue).overflowed == 1 ==> warn,
        !old(queue).open ==> final(queue).after_close == old(queue).after_close + 1
            && final(queue).sent == old(queue).sent,
        final(queue).open == old(queue).open,
{
}

/// Delivery stops at the first event the sink refuses or stalls on, with why.
pub proof fn law_what_a_sink_s_answer_leaves(
    pump: &mut Pump,
    id: EventId,
    outcome: SinkOutcome,
    stall_ms: u64,
)
    requires
        call_ensures(Pump::handed, (pump, &id, outcome, stall_ms), ()),
    ensures
        final(pump).receipt.projected == old(pump).receipt.projected + 1,
        outcome is Accepted <==> final(pump).receipt.failure is None,
        outcome is Accepted ==> final(pump).receipt.delivered == old(pump).receipt.delivered + 1,
        !(outcome is Accepted) ==> final(pump).receipt.delivered == old(pump).receipt.delivered,
        outcome matches SinkOutcome::Refused(error) ==> final(pump).receipt.failure == Some(
            error.message,
        ),
{
}

/// A new pump has projected and delivered nothing, and nothing failed.
pub proof fn law_a_new_pump_is_empty(pump: Pump, delivers: bool)
    requires
        call_ensures(Pump::new, (), pump),
        call_ensures(Pump::delivers, (&pump,), delivers),
    ensures
        pump.receipt.version == 4,
        pump.receipt.projected == 0 && pump.receipt.delivered == 0 && pump.receipt.undelivered == 0
            && pump.receipt.overflowed == 0,
        delivers,
{
}

/// A pump that failed withholds what comes next, and counts it.
pub proof fn law_what_is_withheld_is_counted(pump: &mut Pump)
    requires
        call_ensures(Pump::withheld, (pump,), ()),
        old(pump).receipt.projected < u64::MAX,
        old(pump).receipt.undelivered < u64::MAX,
    ensures
        final(pump).receipt.projected == old(pump).receipt.projected + 1,
        final(pump).receipt.undelivered == old(pump).receipt.undelivered + 1,
        final(pump).receipt.delivered == old(pump).receipt.delivered,
        final(pump).receipt.failure == old(pump).receipt.failure,
{
}

/// A sink that fails at its finish fails the receipt, which counts what it
/// counted.
pub proof fn law_how_a_sink_finishes(pump: &mut Pump, outcome: SinkOutcome, stall_ms: u64)
    requires
        call_ensures(Pump::finished, (pump, outcome, stall_ms), ()),
    ensures
        outcome is Accepted <==> final(pump).receipt.failure is None,
        final(pump).receipt.projected == old(pump).receipt.projected,
        final(pump).receipt.delivered == old(pump).receipt.delivered,
        final(pump).receipt.undelivered == old(pump).receipt.undelivered,
{
}

/// A closed queue stays as it was, but closed.
pub proof fn law_a_closed_queue(queue: &mut Queue)
    requires
        call_ensures(Queue::close, (queue,), ()),
    ensures
        !final(queue).open,
        final(queue).sent == old(queue).sent && final(queue).overflowed == old(queue).overflowed
            && final(queue).after_close == old(queue).after_close,
{
}

/// A receipt is clean when nothing failed and nothing was left undelivered.
pub proof fn law_when_a_receipt_is_clean(receipt: ProjectionReceipt, clean: bool)
    requires
        call_ensures(ProjectionReceipt::is_clean, (&receipt,), clean),
    ensures
        clean <==> receipt.failure is None && receipt.undelivered == 0,
{
}

// ── The store ──────────────────────────────────────────────────────────

/// A record that is stored already is not written again; a new one goes to
/// its execution's log, alone.
pub proof fn law_stored_records_are_not_written_again(
    writer: ExecutionLogWriter,
    seq: u64,
    stored: Json,
    batch: Option<Batch>,
)
    requires
        call_ensures(ExecutionLogWriter::on_record, (&writer, seq, stored), batch),
    ensures
        batch is None <==> seq < writer.high_water,
        batch matches Some(batch) ==> batch.log == LogId::Execution(writer.execution)
            && batch.records@.len() == 1 && batch.records@[0] == stored,
{
}

/// A writer keeps the failure it stopped with, and writes nothing after it.
pub proof fn law_a_failed_writer_stays_failed(
    writer: &mut WriterState,
    log: &str,
    error: &str,
)
    requires
        call_ensures(WriterState::append_failed, (writer, log, error), ()),
    ensures
        final(writer).waiting().len() == 0,
        final(writer).failure is Some,
        old(writer).failure is Some ==> final(writer).failure == old(writer).failure,
        old(writer).failure is None ==> final(writer).failure->0@ == "could not append to the "@
            + log@ + " log: "@ + error@,
{
}

/// A secret in a graph is the graph's fault; every other error is the
/// coordinator's.
pub proof fn law_what_registering_a_graph_comes_to(
    digest: Result<GraphDigest, CoordinatorError>,
    done: Result<GraphDigest, HostError>,
)
    requires
        call_ensures(registered, (digest,), done),
    ensures
        digest matches Ok(found) ==> done == Ok::<GraphDigest, HostError>(found),
        digest matches Err(error) ==> (error is SecretInDurableData ==> (done matches Err(told)
            && told is SecretInGraph)) && (!(error is SecretInDurableData) ==> done == Err::<
            GraphDigest,
            HostError,
        >(HostError::Coordinator(error))),
{
}

/// What a writer answers is the failure it stopped with, and nothing is
/// wrong while it has none; a store that is gone stops it.
pub proof fn law_what_a_writer_answers(
    writer: WriterState,
    answer: Result<(), ObserveError>,
    gone: &mut WriterState,
)
    requires
        call_ensures(WriterState::answer, (&writer,), answer),
        call_ensures(WriterState::store_gone, (gone,), ()),
    ensures
        answer is Ok <==> writer.failure is None,
        answer matches Err(error) ==> error.observer@ == "run store"@ && Some(error.message)
            == writer.failure,
        final(gone).failure is Some && final(gone).waiting().len() == 0,
        old(gone).failure is Some ==> final(gone).failure == old(gone).failure,
        old(gone).failure is None ==> final(gone).failure->0@ == "the run's store handle is gone"@,
{
}

/// Records wait behind those taken before them, in order, and the oldest
/// leave first, all for one log.
pub proof fn law_how_records_wait(
    writer: &mut WriterState,
    log: LogId,
    records: Vec<Json>,
    other: &mut WriterState,
    batch: Option<Batch>,
)
    requires
        call_ensures(WriterState::take, (writer, log, records), ()),
        call_ensures(WriterState::next, (other,), batch),
        old(writer).failure is None,
    ensures
        final(writer).waiting().len() == old(writer).waiting().len() + records@.len(),
        final(writer).waiting().take(old(writer).waiting().len() as int) == old(writer).waiting(),
        forall|i: int|
            0 <= i < records@.len() ==> #[trigger] final(writer).waiting()[old(
                writer,
            ).waiting().len() + i] == (log, records@[i]),
        batch matches Some(batch) ==> old(other).waiting().skip(batch.records@.len() as int)
            == final(other).waiting(),
        batch matches Some(batch) ==> forall|i: int|
            0 <= i < batch.records@.len() ==> #[trigger] old(other).waiting()[i] == (
                batch.log,
                batch.records@[i],
            ),
        batch is None ==> old(other).waiting().len() == 0,
{
    assert(final(writer).waiting().take(old(writer).waiting().len() as int) =~= old(
        writer,
    ).waiting());
    if let Some(given) = batch {
        assert(old(other).waiting().skip(given.records@.len() as int) =~= final(other).waiting());
    }
}

/// The stored root graph is the one the root was declared with.
pub proof fn law_which_root_graph_is_stored(state: CoordinatorState, digest: Option<GraphDigest>)
    requires
        call_ensures(stored_root_graph, (&state,), digest),
    ensures
        state.spec_invocation(InvocationId(0)) is None ==> digest is None,
        state.spec_invocation(InvocationId(0)) matches Some(root) ==> digest == Some(
            root.declaration.graph,
        ),
{
}

} // verus!

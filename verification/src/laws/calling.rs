//! What a call of a coordinator's operation returns and leaves, whatever it
//! was given.

use crate::client::{finished_result, on_control, InvocationRequest, InvokeError, WaitStep};
use crate::coordinator::{CoordinatorError, CoordinatorOptions, ResourceError};
use crate::coordinator::drive::{
    cancel_request, check_report, complete_execution, current_execution, declare_first_execution,
    declare_root, finish_execution, finish_run, on_invocation_released, opening_step, pause_record,
    prepare_execution, record_result, recorded_exit, root_result, start_invocation,
    CompletedExecution, CompletionPlan, CompletionStep, OpeningStep, PreparedExecution, StartStep,
};
use crate::coordinator::gate::{ForkAdmission, ForkGate, ForkGates};
use crate::coordinator::leases::{
    plan_reservation, prepare_sandbox, record_of, reserved, scope_outcome, scope_released,
    LeaseRecord, Reservation, SandboxPlan, ScopeLease,
};
use crate::coordinator::live::{running, LiveInvocation, LiveInvocations};
use crate::coordinator::start::{
    accepts_start, after_attach, after_requeue, attached_status, resolve_start, AttachPlan,
    StartOutcome,
};
use crate::coordinator::tree::{handle_cancel, CancelPlan};
use crate::event::{
    CancelReason, CancelRequest, CoordinatorEvent, InvocationResult, InvocationStatus,
    MiddlewareState, SandboxBinding, ScopeIdentity, ScopeOutcome,
};
use crate::fork::{copied_records, keeps, ForkPlan};
use crate::id_set::IdSet;
use crate::ids::{ExecutionId, GraphDigest, InvocationId, SandboxLeaseId};
use crate::inspect::{inspect_invocation, texts, InvocationInspection};
use crate::laws::telling::lemma_first_where;
use crate::model::{Fields, Graph, RunStatus, RuntimeTarget};
use crate::record::{Control, EngineExit, EventRecord};
use crate::run_state::{CoordinatorState, InvocationState};
use crate::state::EngineState;
use std::sync::Arc;
use vstd::prelude::*;
use vstd::string::*;

verus! {

// ── Gates ──────────────────────────────────────────────────────────────

/// A new gate is as wide as it was declared, and one slot wide when it was
/// declared with none; nothing waits at it.
pub proof fn law_a_new_gate(max_parallel: u32, gate: ForkGate)
    requires
        call_ensures(ForkGate::new, (max_parallel,), gate),
    ensures
        max_parallel > 0 ==> gate.slots == max_parallel,
        max_parallel == 0 ==> gate.slots == 1,
        gate.queued@.len() == 0,
        !gate.waiting,
{
}

/// A wait for a slot begins when none is out and a child is queued; the queue
/// and the width stay.
pub proof fn law_when_a_wait_begins(gate: &mut ForkGate, begins: bool)
    requires
        call_ensures(ForkGate::wait_for_slot, (gate,), begins),
    ensures
        begins <==> !old(gate).waiting && old(gate).queued@.len() > 0,
        final(gate).waiting <==> old(gate).waiting || old(gate).queued@.len() > 0,
        final(gate).queued == old(gate).queued,
        final(gate).slots == old(gate).slots,
{
}

/// A queued child stands last at its gate, behind whoever waits there, and a
/// gate that was not there is as wide as the child's declaration says.
pub proof fn law_a_queued_child_stands_last(
    gates: &mut ForkGates,
    invocation: InvocationId,
    admission: ForkAdmission,
    begins: bool,
)
    requires
        call_ensures(ForkGates::queue_for_slot, (gates, invocation, &admission), begins),
    ensures
        ({
            let key = (admission.parent.0, admission.gate@);
            let was = old(gates)@.contains_key(key);
            &&& final(gates)@.contains_key(key)
            &&& final(gates)@[key].queued@.last() == invocation
            &&& was ==> final(gates)@[key].queued@ == old(gates)@[key].queued@.push(invocation)
            &&& !was ==> final(gates)@[key].queued@ == seq![invocation]
            &&& final(gates)@[key].waiting
            &&& begins <==> !(was && old(gates)@[key].waiting)
            &&& was ==> final(gates)@[key].slots == old(gates)@[key].slots
            &&& !was && admission.max_parallel > 0 ==> final(gates)@[key].slots
                == admission.max_parallel
            &&& !was && admission.max_parallel == 0 ==> final(gates)@[key].slots == 1
        }),
{
    let key = (admission.parent.0, admission.gate@);
    if !old(gates)@.contains_key(key) {
        assert(Seq::<InvocationId>::empty().push(invocation) =~= seq![invocation]);
    }
}

/// A free slot goes to the child that waited longest, and a further wait is
/// out while another child waits.
pub proof fn law_slots_go_in_order(
    gates: &mut ForkGates,
    parent: ExecutionId,
    gate: String,
    child: Option<(InvocationId, bool)>,
)
    requires
        call_ensures(ForkGates::admitted, (gates, parent, &gate), child),
        old(gates)@.contains_key((parent.0, gate@)),
    ensures
        ({
            let queue = old(gates)@[(parent.0, gate@)].queued@;
            let after = final(gates)@[(parent.0, gate@)];
            &&& child is Some <==> queue.len() > 0
            &&& child matches Some((id, begins)) ==> id == queue[0] && after.queued@
                == queue.drop_first() && (begins <==> queue.len() > 1) && (after.waiting
                <==> queue.len() > 1)
            &&& child is None ==> !after.waiting
            &&& after.slots == old(gates)@[(parent.0, gate@)].slots
        }),
{
    assert(final(gates)@.dom().contains((parent.0, gate@)));
}

// ── Starts ─────────────────────────────────────────────────────────────

/// A new child is declared with what its request asks for, under the id it
/// was given, and by the call that asked.
pub proof fn law_a_declared_child(
    state: CoordinatorState,
    options: CoordinatorOptions,
    live: LiveInvocations,
    records: Vec<LeaseRecord>,
    parent: ExecutionId,
    request: InvocationRequest,
    secret_found: bool,
    child: Result<Graph, String>,
    next: InvocationId,
    resolved: Result<StartOutcome, InvokeError>,
)
    requires
        call_ensures(
            resolve_start,
            (
                &state,
                &options,
                &live,
                &records,
                parent,
                &request,
                secret_found,
                &child,
                next,
            ),
            resolved,
        ),
    ensures
        resolved matches Ok(StartOutcome::Declare { invocation, event }) ==> {
            &&& invocation == next
            &&& event matches CoordinatorEvent::InvocationDeclared {
                invocation: id,
                call,
                graph,
                context,
                secret_bindings,
                admission,
                ..
            }
            &&& id == next && graph == request.graph && context == request.context
                && secret_bindings == request.secrets && admission == request.admission
            &&& call matches Some(key)
            &&& key.parent == parent && key.firing == request.site.firing && key.attempt
                == request.site.attempt && key.slot == request.site.slot
        },
        !state.graphs@.contains(request.graph) ==> resolved == Err::<StartOutcome, InvokeError>(
            InvokeError::UnknownGraph(request.graph),
        ),
        secret_found ==> resolved is Err,
        resolved is Ok ==> state.graphs@.contains(request.graph) && !secret_found,
{
}

/// A start is taken while its caller is there and its parent runs.
pub proof fn law_which_starts_are_taken(
    live: LiveInvocations,
    parent: ExecutionId,
    caller_gone: bool,
    accepts: bool,
)
    requires
        call_ensures(accepts_start, (&live, parent, caller_gone), accepts),
    ensures
        caller_gone ==> !accepts,
        accepts ==> exists|id: u64| #[trigger]
            live@.contains_key(id) && (live@[id] matches LiveInvocation::Running { execution, .. }
                && execution == parent),
        (exists|id: u64| #[trigger]
            live@.contains_key(id) && (live@[id] matches LiveInvocation::Running { execution, .. }
                && execution == parent)) && !caller_gone ==> accepts,
{
    lemma_running(live, parent);
}

proof fn lemma_running(live: LiveInvocations, parent: ExecutionId)
    ensures
        running(live@, parent) <==> exists|id: u64| #[trigger]
            live@.contains_key(id) && (live@[id] matches LiveInvocation::Running { execution, .. }
                && execution == parent),
{
    if running(live@, parent) {
        let id = choose|id: u64| #[trigger]
            crate::coordinator::live::runs(live@, id, parent);
        assert(live@.contains_key(id));
    }
    if exists|id: u64| #[trigger]
        live@.contains_key(id) && (live@[id] matches LiveInvocation::Running { execution, .. }
            && execution == parent) {
        let id = choose|id: u64| #[trigger]
            live@.contains_key(id) && (live@[id] matches LiveInvocation::Running { execution, .. }
                && execution == parent);
        assert(crate::coordinator::live::runs(live@, id, parent));
    }
}

/// An attached caller is told the result when there is one, and else that its
/// child is declared.
pub proof fn law_what_an_attached_caller_is_told(
    state: CoordinatorState,
    invocation: InvocationId,
    status: InvocationStatus,
    again: Option<Arc<InvocationResult>>,
)
    requires
        call_ensures(attached_status, (&state, invocation), status),
        call_ensures(finished_result, (&status,), again),
    ensures
        state.spec_invocation(invocation) matches Some(found) ==> again == found.result,
        state.spec_invocation(invocation) is None ==> again is None && status is Declared,
{
}

/// A superseded invocation is started again unless it is live already.
pub proof fn law_when_a_superseded_child_starts(
    live: LiveInvocations,
    previous: InvocationId,
    start: Option<InvocationId>,
)
    requires
        call_ensures(after_requeue, (&live, previous), start),
    ensures
        live@.contains_key(previous.0) ==> start is None,
        !live@.contains_key(previous.0) ==> start == Some(previous),
{
}

/// An attached child that is not live and not done is started when it is new
/// or somebody heard the answer.
pub proof fn law_when_an_attached_child_starts(
    state: CoordinatorState,
    live: LiveInvocations,
    parent: ExecutionId,
    invocation: InvocationId,
    is_new: bool,
    delivered: bool,
    plan: AttachPlan,
)
    requires
        call_ensures(
            after_attach,
            (&state, &live, parent, invocation, is_new, delivered),
            plan,
        ),
    ensures
        ({
            let waits = state.spec_invocation(invocation) matches Some(found)
                && found.result is None;
            &&& plan.start is Some <==> waits && !live@.contains_key(invocation.0) && (is_new
                || delivered)
            &&& plan.start matches Some(id) ==> id == invocation
            &&& plan.cancel.told@.len() == plan.cancel.records@.len()
            &&& plan.cancel.told@.len() > 0 ==> waits && plan.cancel.told@ == seq![invocation]
            &&& delivered && state.owner_of(parent) is None ==> plan.cancel.told@.len() == 0
            &&& !delivered && waits && !(state.spec_invocation(invocation)->0.cancelled)
                ==> plan.cancel.told@.len() == 1
        }),
{
}

/// A control that delivers nothing ends a wait, and so does a closed channel.
pub proof fn law_what_ends_a_wait(control: Option<&Control>, step: WaitStep)
    requires
        call_ensures(on_control, (control,), step),
    ensures
        step == WaitStep::Wait <==> (control matches Some(ctl) && *ctl is Deliver),
        step == WaitStep::Cancel <==> !(control matches Some(ctl) && *ctl is Deliver),
{
}

// ── Executions ─────────────────────────────────────────────────────────

/// An invocation that has its result or is live is not started again; one
/// under a gate is queued; any other is dispatched, and nothing changes.
pub proof fn law_how_an_invocation_starts(
    state: CoordinatorState,
    live: &mut LiveInvocations,
    gates: &mut ForkGates,
    invocation: InvocationId,
    step: StartStep,
)
    requires
        call_ensures(start_invocation, (&state, live, gates, invocation), step),
        state.spec_invocation(invocation) is Some,
    ensures
        ({
            let found = state.spec_invocation(invocation)->0;
            let done = found.result is Some || old(live)@.contains_key(invocation.0);
            let gated = found.declaration.admission is Some && found.declaration.call is Some;
            &&& step is Nothing <==> done
            &&& step is Dispatch <==> !done && !gated
            &&& step is Queued <==> !done && gated
            &&& step is Queued ==> final(live)@.contains_key(invocation.0)
                && final(live)@[invocation.0] is Queued
            &&& !(step is Queued) ==> final(live)@ == old(live)@ && final(gates)@ == old(gates)@
        }),
{
}

/// The exit an execution is driven to is recorded once; the same again
/// records nothing, and another is a conflict.
pub proof fn law_an_exit_is_recorded_once(
    state: CoordinatorState,
    execution: ExecutionId,
    exit: EngineExit,
    finished: Result<Option<CoordinatorEvent>, CoordinatorError>,
    read: Result<EngineExit, CoordinatorError>,
)
    requires
        call_ensures(finish_execution, (&state, execution, exit), finished),
        call_ensures(recorded_exit, (&state, execution), read),
        state.spec_execution(execution) is Some,
    ensures
        state.spec_execution(execution)->0.exit is None ==> (finished matches Ok(Some(event))
            && event == (CoordinatorEvent::ExecutionFinished { execution, exit })) && (
        read matches Err(error) && error == CoordinatorError::MissingExit(execution)),
        state.spec_execution(execution)->0.exit matches Some(recorded) ==> read == Ok::<
            EngineExit,
            CoordinatorError,
        >(recorded) && (recorded == exit ==> finished == Ok::<
            Option<CoordinatorEvent>,
            CoordinatorError,
        >(None)) && (recorded != exit ==> (finished matches Err(error) && error == (
        CoordinatorError::ConflictingExit { execution }))),
{
}

/// A run's end is recorded once, with its status.
pub proof fn law_a_run_finishes_once(
    state: CoordinatorState,
    status: RunStatus,
    event: Option<CoordinatorEvent>,
)
    requires
        call_ensures(finish_run, (&state, status), event),
    ensures
        state.run_status is Some <==> event is None,
        event matches Some(event) ==> event == (CoordinatorEvent::RunFinished { status }),
{
}

/// The root's result is there once nothing is live any more.
pub proof fn law_when_a_run_has_its_result(
    state: CoordinatorState,
    live: LiveInvocations,
    result: Option<Arc<InvocationResult>>,
)
    requires
        call_ensures(root_result, (&state, &live), result),
    ensures
        result is Some ==> (state.spec_invocation(InvocationId(0)) matches Some(root) && root.result
            == result),
        result is Some ==> forall|id: u64| !(#[trigger] live@.contains_key(id)),
        live@ == Map::<u64, LiveInvocation>::empty() ==> (state.spec_invocation(
            InvocationId(0),
        ) matches Some(root) ==> result == root.result),
{
}

/// An invocation's current execution is its last, and its first is declared
/// when it has none.
pub proof fn law_which_execution_is_current(
    state: CoordinatorState,
    options: CoordinatorOptions,
    invocation: InvocationId,
    next: ExecutionId,
    middleware: MiddlewareState,
    current: Result<ExecutionId, CoordinatorError>,
    event: Option<CoordinatorEvent>,
)
    requires
        call_ensures(current_execution, (&state, invocation), current),
        call_ensures(
            declare_first_execution,
            (&state, &options, invocation, next, &middleware),
            event,
        ),
        state.spec_invocation(invocation) is Some,
    ensures
        ({
            let executions = state.spec_invocation(invocation)->0.executions@;
            &&& executions.len() > 0 ==> current == Ok::<ExecutionId, CoordinatorError>(
                executions[executions.len() - 1],
            ) && event is None
            &&& executions.len() == 0 ==> (current matches Err(error) && error
                == CoordinatorError::MissingExecution(invocation)) && (event matches Some(
                CoordinatorEvent::ExecutionDeclared { execution, predecessor, .. },
            ) && execution == next && predecessor is None)
        }),
{
}

/// An execution with a log resumes behind all of it; a cancelled invocation's
/// is cancelled before it runs unless its log holds that already.
pub proof fn law_how_an_execution_is_prepared(
    state: CoordinatorState,
    invocation: InvocationId,
    log: Vec<EventRecord>,
    prepared: PreparedExecution,
)
    requires
        call_ensures(prepare_execution, (&state, invocation, &log), prepared),
        state.spec_invocation(invocation) is Some,
    ensures
        prepared.high_water == log@.len(),
        prepared.resumes <==> log@.len() > 0,
        prepared.cancel_before_run ==> state.spec_invocation(invocation)->0.cancelled,
        state.spec_invocation(invocation)->0.cancelled && log@.len() == 0
            ==> prepared.cancel_before_run,
{
}

/// A pause is recorded when the run is not paused, an unpause when it is.
pub proof fn law_when_a_pause_is_recorded(
    state: CoordinatorState,
    paused: bool,
    event: Option<CoordinatorEvent>,
)
    requires
        call_ensures(pause_record, (&state, paused), event),
    ensures
        event is None <==> state.paused == paused,
        event matches Some(event) ==> (event is RunPaused <==> paused) && (event is RunUnpaused
            <==> !paused),
{
}

/// A cancel that is asked for reaches the kill tier when asked again.
pub proof fn law_what_a_cancel_asks_for(
    invocation: InvocationId,
    reason: Option<CancelReason>,
    request: CancelRequest,
)
    requires
        call_ensures(cancel_request, (invocation, reason), request),
    ensures
        request.invocation == invocation && request.reason == reason && request.escalate,
{
}

/// A cancel of an unknown invocation records nothing and tells nobody.
pub proof fn law_an_unknown_invocation_is_not_cancelled(
    state: CoordinatorState,
    request: CancelRequest,
    plan: CancelPlan,
)
    requires
        call_ensures(handle_cancel, (&state, &request), plan),
        state.spec_invocation(request.invocation) is None,
    ensures
        plan.records@.len() == 0,
        plan.told@.len() == 0,
{
}

/// A result is recorded as it is, unless a secret was found in it.
pub proof fn law_a_result_is_recorded(
    invocation: InvocationId,
    result: InvocationResult,
    holds_secret: bool,
    event: Result<CoordinatorEvent, CoordinatorError>,
)
    requires
        call_ensures(record_result, (invocation, result, holds_secret), event),
    ensures
        holds_secret ==> event == Err::<CoordinatorEvent, CoordinatorError>(
            CoordinatorError::SecretInDurableData,
        ),
        !holds_secret ==> (event matches Ok(
            CoordinatorEvent::InvocationFinished { invocation: id, result: recorded },
        ) && id == invocation && *recorded == result),
{
}

/// A released invocation is live no more, and its caller gets its result.
pub proof fn law_a_released_invocation_answers(
    state: CoordinatorState,
    live: &mut LiveInvocations,
    invocation: InvocationId,
    result: Arc<InvocationResult>,
    other: u64,
)
    requires
        call_ensures(on_invocation_released, (&state, live, invocation), result),
        state.spec_invocation(invocation) matches Some(found) && found.result is Some,
    ensures
        state.spec_invocation(invocation)->0.result == Some(result),
        !final(live)@.contains_key(invocation.0),
        other != invocation.0 ==> final(live)@.contains_key(other) == old(live)@.contains_key(other),
        other != invocation.0 && old(live)@.contains_key(other) ==> final(live)@[other] == old(
            live,
        )@[other],
{
}

/// A run whose root has its result is settled, and any other started.
pub proof fn law_how_a_run_opens(state: CoordinatorState, step: OpeningStep)
    requires
        call_ensures(opening_step, (&state,), step),
        state.spec_invocation(InvocationId(0)) is Some,
    ensures
        step == OpeningStep::Settle <==> state.spec_invocation(InvocationId(0))->0.result is Some,
        step == OpeningStep::Start <==> state.spec_invocation(InvocationId(0))->0.result is None,
{
}

/// An execution whose log could not be written fails with the first error of
/// its observers.
pub proof fn law_a_report_is_checked(
    execution: ExecutionId,
    errors: Vec<String>,
    checked: Result<(), CoordinatorError>,
)
    requires
        call_ensures(check_report, (execution, &errors), checked),
    ensures
        checked is Ok <==> errors@.len() == 0,
        checked matches Err(error) ==> error == (CoordinatorError::EventWriter {
            execution,
            message: errors@[0],
        }),
{
}

/// A completed execution's exit is recorded unless it was; a terminal one
/// finishes its invocation, and a restart goes on, unless its limit is
/// reached.
pub proof fn law_how_an_execution_completes(
    state: CoordinatorState,
    options: CoordinatorOptions,
    done: CompletedExecution,
    next: ExecutionId,
    graph: Graph,
    engine: EngineState,
    plan: Result<CompletionPlan, CoordinatorError>,
)
    requires
        call_ensures(complete_execution, (&state, &options, &done, next, &graph, &engine), plan),
        state.spec_invocation(done.invocation) is Some,
        state.spec_execution(done.execution) is Some,
    ensures
        ({
            let recorded = state.spec_execution(done.execution)->0.exit;
            &&& plan is Err <==> (recorded matches Some(exit) && exit != done.exit)
            &&& plan matches Ok(plan) ==> {
                &&& recorded is Some <==> plan.recorded is None
                &&& plan.recorded matches Some(event) ==> event
                    == (CoordinatorEvent::ExecutionFinished {
                    execution: done.execution,
                    exit: done.exit,
                })
                &&& plan.step is Finish <==> done.exit is Terminal
                &&& plan.step matches CompletionStep::Finish(result) ==> result.final_execution
                    == done.execution && result.context == engine.kv
                &&& plan.step matches CompletionStep::Refused(error) ==> error
                    == (CoordinatorError::ExecutionLimit { invocation: done.invocation })
                    && state.spec_invocation(done.invocation)->0.executions@.len()
                    >= options.max_executions
                &&& plan.step matches CompletionStep::Restart { successor: Some(event) }
                    ==> state.spec_invocation(done.invocation)->0.executions@.len()
                    < options.max_executions && (event matches CoordinatorEvent::ExecutionDeclared {
                    execution,
                    invocation,
                    predecessor,
                    ..
                } && execution == next && invocation == done.invocation && predecessor == Some(
                    done.execution,
                ))
            }
        }),
{
}

/// The root of a run is declared once, with the graph and the context that
/// were asked for, no secret, no caller and a sandbox of its own.
pub proof fn law_a_root_is_declared_once(
    state: CoordinatorState,
    graph: GraphDigest,
    context: Fields,
    holds_secret: bool,
    declared: Result<Option<CoordinatorEvent>, CoordinatorError>,
)
    requires
        call_ensures(declare_root, (&state, graph, &context, holds_secret), declared),
    ensures
        declared matches Ok(Some(event)) ==> state.spec_invocation(InvocationId(0)) is None && (
        event matches CoordinatorEvent::InvocationDeclared {
            invocation,
            call,
            graph: g,
            context: c,
            secret_bindings,
            sandbox,
            admission,
        } && invocation.0 == 0 && call is None && g == graph && c == context
            && secret_bindings is NoSecrets && sandbox is Isolated && admission is None),
        declared matches Ok(None) ==> state.spec_invocation(InvocationId(0)) is Some,
        declared is Ok ==> state.graphs@.contains(graph) && !holds_secret,
        !state.graphs@.contains(graph) ==> declared == Err::<
            Option<CoordinatorEvent>,
            CoordinatorError,
        >(CoordinatorError::UnknownGraph(graph)),
{
}

// ── Leases ─────────────────────────────────────────────────────────────

/// A scope succeeded when its run did, and failed in every other case.
pub proof fn law_how_a_scope_ended(status: RunStatus, outcome: ScopeOutcome)
    requires
        call_ensures(scope_outcome, (status,), outcome),
    ensures
        outcome is Succeeded <==> status == RunStatus::Success,
        outcome is Failed <==> status != RunStatus::Success,
{
}

/// An invocation of its own sandbox owns its scopes' leases; one that
/// inherits shares the recorded lease with its workspace and runtime.
pub proof fn law_where_an_invocation_runs(
    records: Vec<LeaseRecord>,
    binding: SandboxBinding,
    plan: Result<SandboxPlan, CoordinatorError>,
)
    requires
        call_ensures(prepare_sandbox, (&records, binding), plan),
    ensures
        binding is Isolated ==> (plan matches Ok(plan) && plan is Owned),
        binding matches SandboxBinding::Inherited { lease } ==> match plan {
            Ok(plan) => plan matches SandboxPlan::Shared { lease: shared, workspace, runtime }
                && shared == lease && exists|i: int|
                0 <= i < records@.len() && (#[trigger] records@[i]).lease == lease
                    && !records@[i].deleted && records@[i].workspace == workspace
                    && records@[i].runtime == runtime,
            Err(CoordinatorError::InvalidResource { lease: bad }) => bad == lease && exists|i: int|
                0 <= i < records@.len() && (#[trigger] records@[i]).lease == lease
                    && records@[i].deleted,
            Err(error) => error == CoordinatorError::Resource(ResourceError::UnknownLease(lease))
                && forall|i: int|
                0 <= i < records@.len() ==> (#[trigger] records@[i]).lease != lease,
        },
{
    if let SandboxBinding::Inherited { lease } = binding {
        let p = |record: LeaseRecord| record.lease == lease;
        lemma_first_where(records@, p);
        if record_of(records@, lease) is None {
            assert forall|i: int| 0 <= i < records@.len() implies (#[trigger] records@[i]).lease
                != lease by {
                assert(!p(records@[i]));
            }
        }
    }
}

/// A reservation is for the invocation's scope; one of a spliced scope is
/// stored only after the execution that introduced it; and its provider is
/// the router's, or else its target's.
pub proof fn law_how_a_lease_is_reserved(
    invocation: InvocationId,
    scope: ScopeIdentity,
    execution: ExecutionId,
    target: RuntimeTarget,
    router: Option<&String>,
    host: &str,
    container: &str,
    reservation: Reservation,
)
    requires
        call_ensures(
            plan_reservation,
            (invocation, &scope, execution, &target, router, host, container),
            reservation,
        ),
    ensures
        reservation.allocation.invocation == invocation,
        reservation.allocation.scope == scope,
        scope is Spliced ==> reservation.introduced_by == Some(execution)
            && reservation.store_first,
        scope is Declared ==> reservation.introduced_by is None && !reservation.store_first,
        router matches Some(provider) ==> reservation.provider@ == provider@,
        router is None && target is HostProcess ==> reservation.provider@ == host@,
        router is None && target is Container ==> reservation.provider@ == container@,
{
}

/// A reserved lease is given with its workspace and provider, unless its
/// sandbox is gone.
pub proof fn law_what_a_reservation_gives(
    record: LeaseRecord,
    lease: Result<ScopeLease, ResourceError>,
)
    requires
        call_ensures(reserved, (&record,), lease),
    ensures
        record.deleted <==> lease is Err,
        lease matches Err(error) ==> error == ResourceError::DeletedLease(record.lease),
        lease matches Ok(given) ==> given.lease == record.lease && given.workspace
            == record.workspace && given.provider == record.provider,
{
}

/// A release is recorded with the lease's own scope, workspace, provider and
/// instance, and as retained while its sandbox is not gone.
pub proof fn law_how_a_release_is_recorded(
    records: Vec<LeaseRecord>,
    invocation: InvocationId,
    lease: SandboxLeaseId,
    outcome: ScopeOutcome,
    problems: Arc<Vec<String>>,
    event: Option<CoordinatorEvent>,
)
    requires
        call_ensures(scope_released, (&records, invocation, lease, outcome, &problems), event),
    ensures
        match event {
            Some(event) => event matches CoordinatorEvent::ScopeReleased {
                invocation: i,
                lease: l,
                scope,
                workspace,
                provider,
                instance,
                outcome: o,
                retained,
                problems: p,
            } && i == invocation && l == lease && o == outcome && p == problems && exists|k: int|
                0 <= k < records@.len() && (#[trigger] records@[k]).lease == lease
                    && records@[k].allocation.scope == scope && records@[k].workspace == workspace
                    && records@[k].provider == provider && records@[k].resource_id == instance
                    && retained == !records@[k].deleted,
            None => forall|k: int|
                0 <= k < records@.len() ==> (#[trigger] records@[k]).lease != lease,
        },
{
    let p = |record: LeaseRecord| record.lease == lease;
    lemma_first_where(records@, p);
    if event is None {
        assert forall|k: int| 0 <= k < records@.len() implies (#[trigger] records@[k]).lease
            != lease by {
            assert(!p(records@[k]));
        }
    }
}

// ── Forks and documents ────────────────────────────────────────────────

/// A fork keeps how its kept children ended, whatever they ended with.
pub proof fn law_a_kept_child_s_end_is_kept(
    event: CoordinatorEvent,
    invocations: IdSet,
    executions: IdSet,
    position: ExecutionId,
    kept: bool,
)
    requires
        call_ensures(keeps, (&event, &invocations, &executions, position), kept),
    ensures
        event matches CoordinatorEvent::InvocationFinished { invocation, .. } ==> (kept
            <==> invocations@.contains(invocation.0) && invocation.0 != 0),
        event matches CoordinatorEvent::InvocationDeclared { invocation, .. } ==> (kept
            <==> invocations@.contains(invocation.0)),
        event matches CoordinatorEvent::ExecutionDeclared { execution, .. } ==> (kept
            <==> executions@.contains(execution.0)),
        event matches CoordinatorEvent::ExecutionFinished { execution, .. } ==> (kept
            <==> executions@.contains(execution.0) && execution != position),
        event is GraphRegistered ==> kept,
        event is RunStarted || event is RunFinished || event is RunPaused || event is RunUnpaused
            || event is RunNoteRecorded || event is ScopeReleased ==> !kept,
{
}

/// A fork copies every record of a kept execution, and of the position's
/// those before its cut.
pub proof fn law_how_much_of_a_log_is_copied(
    plan: ForkPlan,
    execution: ExecutionId,
    stored: usize,
    count: usize,
)
    requires
        call_ensures(copied_records, (&plan, execution, stored), count),
    ensures
        count <= stored,
        execution != plan.origin.position.execution ==> count == stored,
        execution == plan.origin.position.execution && plan.cut <= stored ==> count == plan.cut,
{
}

/// The document shows an invocation's result with the status it ended in, and
/// no result while it has none.
pub proof fn law_an_invocation_s_result_is_shown(
    state: CoordinatorState,
    invocation: InvocationState,
    incomplete: &mut Vec<String>,
    row: InvocationInspection,
)
    requires
        call_ensures(inspect_invocation, (&state, &invocation, incomplete), row),
    ensures
        invocation.result is None <==> row.result is None,
        invocation.result matches Some(result) ==> (row.result matches Some(shown) && shown.failure
            == result.failure && shown.final_execution == result.final_execution && shown.output
            == result.output && shown.context == result.context && (result.status
            == RunStatus::Success ==> shown.status@ == "success"@) && (result.status
            == RunStatus::Failed ==> shown.status@ == "failed"@) && (result.status
            == RunStatus::Cancelled ==> shown.status@ == "cancelled"@)),
        row.invocation == invocation.declaration.id && row.graph == invocation.declaration.graph
            && row.context == invocation.declaration.context && row.cancel_requested
            == invocation.cancelled && row.executions@ == invocation.executions@,
        invocation.result is Some <==> final(incomplete)@.len() == old(incomplete)@.len(),
        invocation.result is None <==> final(incomplete)@.len() == old(incomplete)@.len() + 1,
{
    assert(texts(final(incomplete)@).len() == final(incomplete)@.len());
    assert(texts(old(incomplete)@).len() == old(incomplete)@.len());
}

} // verus!

//! Which record an event of the public stream comes from, and how records are
//! presented.

use crate::digest::{digest_named, digest_text, law_digest_reads_back};
use crate::event::{CoordinatorEvent, ParentCallKey};
use crate::events::{
    id_value, link_of, origin_of, view_name, EventId, EventSource, ParentLink, RecordOrigin,
    ViewEvent,
};
use crate::events::invert::{
    backend_value, coordinator_in, coordinator_view, engine_in, inverted, key_of_link, lifecycle_in,
    note_in_body, read_event, CoordinatorView, EngineView, InvertError, LifecycleView, NoteView,
    RunView,
};
use crate::events::lossless::names_firing;
use crate::events::presented::{
    noting_execution, presentable, presents_lifecycle, AgentActivity, DeliveredControl, EventBody,
    PresentedEvent,
};
use crate::hooks::{activity_value, HookActivity};
use crate::ids::{Attempt, FiringId};
use crate::json::{key_place, members_of, JsonView, NumberView};
use crate::model::Graph;
use crate::record::{CancelTarget, Control, DecisionId, Event, EventOrigin, StepEvent};
use vstd::prelude::*;
use vstd::string::*;

verus! {

// ── Engine records ─────────────────────────────────────────────────────

/// Whether an event names a firing, and an attempt of it.
pub open spec fn names(event: PresentedEvent, firing: FiringId, attempt: Attempt) -> bool {
    &&& event.subject matches Some(subject)
    &&& subject.firing == Some(firing)
    &&& subject.attempt == Some(attempt)
}

/// Whether an event names a firing.
pub open spec fn names_only(event: PresentedEvent, firing: FiringId) -> bool {
    &&& event.subject matches Some(subject)
    &&& subject.firing == Some(firing)
}

/// An event about an attempt comes from the record of that kind about that
/// firing and attempt, with what the event carries.
pub proof fn law_which_attempt_record_an_event_comes_from(
    event: PresentedEvent,
    firing: FiringId,
    attempt: Attempt,
)
    requires
        names(event, firing, attempt),
    ensures
        match event.body {
            EventBody::AttemptStarted => engine_in(event) == Ok::<EngineView, InvertError>(
                EngineView::Whole(Event::StepStarted { firing, attempt }),
            ),
            EventBody::AttemptFinished { outcome } => engine_in(event) == Ok::<
                EngineView,
                InvertError,
            >(EngineView::Whole(Event::StepFinished { firing, attempt, outcome })),
            EventBody::AttemptAdmitted { decision, trace } => engine_in(event) == Ok::<
                EngineView,
                InvertError,
            >(
                EngineView::Whole(
                    Event::AdmissionDecided {
                        decision_id: DecisionId::AttemptStart { firing, attempt },
                        decision,
                        trace,
                    },
                ),
            ),
            EventBody::RetryElapsed { next_attempt } => engine_in(event) == Ok::<
                EngineView,
                InvertError,
            >(EngineView::Whole(Event::RetryElapsed { firing, next_attempt })),
            EventBody::RoutesResolved { choices } => {
                &&& engine_in(event) matches Ok(EngineView::Routing { decision_id, groups })
                &&& decision_id == DecisionId::Route { firing, attempt }
                &&& groups.len() == choices@.len()
                &&& forall|i: int|
                    0 <= i < groups.len() ==> (#[trigger] groups[i]).group == choices@[i].group
                        && groups[i].draw == choices@[i].draw && groups[i].trace
                        == choices@[i].trace && groups[i].decision == choices@[i].decision
            },
            _ => true,
        },
{
}

/// An event about a firing's progress or a control comes from the record of
/// that progress or control of that firing.
pub proof fn law_which_firing_record_an_event_comes_from(event: PresentedEvent, firing: FiringId)
    requires
        names_only(event, firing),
    ensures
        match event.body {
            EventBody::OutputLine { stream, line } => engine_in(event) == Ok::<
                EngineView,
                InvertError,
            >(
                EngineView::Whole(
                    Event::StepProgressRecorded { firing, ev: StepEvent::Log { stream, line } },
                ),
            ),
            EventBody::ArtifactRecorded { name, uri } => engine_in(event) == Ok::<
                EngineView,
                InvertError,
            >(
                EngineView::Whole(
                    Event::StepProgressRecorded { firing, ev: StepEvent::Artifact { name, uri } },
                ),
            ),
            EventBody::StepCustom { value } => engine_in(event) == Ok::<EngineView, InvertError>(
                EngineView::Custom { firing, value: value@ },
            ),
            EventBody::QuestionAsked { question, payload } => engine_in(event) == Ok::<
                EngineView,
                InvertError,
            >(EngineView::Custom { firing, value: payload@ }),
            EventBody::QuestionExpired { expired, payload } => engine_in(event) == Ok::<
                EngineView,
                InvertError,
            >(EngineView::Custom { firing, value: payload@ }),
            EventBody::ControlDelivered { control } => {
                &&& engine_in(event) matches Ok(
                    EngineView::Whole(Event::ControlRequested { firing: of, ctl }),
                )
                &&& of == firing
                &&& match control {
                    DeliveredControl::Answer { answer, value } => ctl == Control::Deliver(value),
                    DeliveredControl::Deliver { value } => ctl == Control::Deliver(value),
                    DeliveredControl::Cancel => ctl is Cancel,
                    DeliveredControl::Kill => ctl is Kill,
                }
            },
            EventBody::HostNote { kind, payload } => {
                &&& engine_in(event) matches Ok(
                    EngineView::Custom { firing: of, value: JsonView::Object(outer) },
                )
                &&& of == firing
                &&& outer.len() == 1 && outer[0].0 == "$note"@
                &&& outer[0].1 matches JsonView::Object(inner)
                &&& inner.len() == 2
                &&& inner[0] == ("kind"@, JsonView::Text(kind@))
                &&& inner[1] == ("payload"@, payload@)
            },
            _ => true,
        },
{
}

/// An event about a scope, an execution or its start comes from the record of
/// that kind, with what the event carries.
pub proof fn law_which_execution_record_an_event_comes_from(event: PresentedEvent)
    ensures
        match event.body {
            EventBody::ExecutionStarted {
                entry,
                execution_index,
                context,
                prior_firings,
                max_executions,
            } => {
                &&& engine_in(event) matches Ok(EngineView::Whole(Event::ExecutionStarted { start }))
                &&& start.entry == entry && start.execution_index == execution_index
                    && start.context == context && start.prior_firings == prior_firings
                    && start.max_executions == max_executions
            },
            EventBody::ExecutionAdmitted { decision, trace } => engine_in(event) == Ok::<
                EngineView,
                InvertError,
            >(
                EngineView::Whole(
                    Event::AdmissionDecided {
                        decision_id: DecisionId::ExecutionStart,
                        decision,
                        trace,
                    },
                ),
            ),
            EventBody::KillRequested { scope } => engine_in(event) == Ok::<EngineView, InvertError>(
                EngineView::Whole(Event::KillRequested { scope }),
            ),
            EventBody::ScopeAcquired { scope, detail } => engine_in(event) == Ok::<
                EngineView,
                InvertError,
            >(EngineView::Whole(Event::ScopeAcquired { scope, detail })),
            EventBody::ScopeFailed { scope, detail } => engine_in(event) == Ok::<
                EngineView,
                InvertError,
            >(EngineView::Whole(Event::ScopeFailed { scope, detail })),
            EventBody::CancelRequested { scope, group } => match (scope, group) {
                (Some(scope), _) => engine_in(event) == Ok::<EngineView, InvertError>(
                    EngineView::Whole(Event::CancelRequested { target: CancelTarget::Scope(scope) }),
                ),
                (None, Some(group)) => engine_in(event) == Ok::<EngineView, InvertError>(
                    EngineView::Whole(
                        Event::CancelRequested { target: CancelTarget::Group(group.id) },
                    ),
                ),
                (None, None) => engine_in(event) == Err::<EngineView, InvertError>(
                    InvertError::CancelWithoutTarget { id: event.id },
                ),
            },
            _ => true,
        },
{
}

/// An event about an attempt that lacks its subject, its firing or its
/// attempt comes from no record, and is refused for the first of these that
/// it lacks.
pub proof fn law_what_an_event_must_name(event: PresentedEvent)
    requires
        event.body is AttemptStarted || event.body is AttemptFinished
            || event.body is AttemptAdmitted || event.body is RoutesResolved,
    ensures
        event.subject is None ==> engine_in(event) == Err::<EngineView, InvertError>(
            InvertError::MissingSubject { id: event.id },
        ),
        event.subject matches Some(subject) ==> (subject.firing is None ==> engine_in(event)
            == Err::<EngineView, InvertError>(InvertError::MissingFiring { id: event.id })),
        event.subject matches Some(subject) ==> (subject.firing is Some && subject.attempt is None
            ==> engine_in(event) == Err::<EngineView, InvertError>(
            InvertError::MissingAttempt { id: event.id },
        )),
{
}

/// A note's event restates the note: a host's with its kind and payload, a
/// budget's under its own kind with its attempt, an activity under its own.
pub proof fn law_which_note_a_body_restates(
    id: EventId,
    body: EventBody,
    attempt: Option<Attempt>,
)
    ensures
        match body {
            EventBody::HostNote { kind, payload } => note_in_body(id, body, attempt) matches Ok(
                Some(note),
            ) && note.kind == kind@ && note.payload == payload@,
            EventBody::HookActivity { hook, activity } => note_in_body(id, body, attempt) matches
                Ok(Some(note)) && note.kind == "hook.activity"@ && note.payload == activity_value(
                HookActivity { hook, backend: activity.backend, envelope: activity.envelope },
            ),
            EventBody::BudgetPaused { remaining_ms, pending_questions } => match attempt {
                None => note_in_body(id, body, attempt) == Err::<Option<NoteView>, InvertError>(
                    InvertError::MissingAttempt { id },
                ),
                Some(of) => {
                    &&& note_in_body(id, body, attempt) matches Ok(Some(note))
                    &&& note.kind == "budget_paused"@
                    &&& note.payload matches JsonView::Object(members)
                    &&& members.len() == 3
                    &&& members[0] == (
                        "attempt"@,
                        JsonView::Number(NumberView::Unsigned(of.0 as u64)),
                    )
                    &&& members[1] == (
                        "remaining_ms"@,
                        JsonView::Number(NumberView::Unsigned(remaining_ms)),
                    )
                    &&& members[2] == (
                        "pending_questions"@,
                        JsonView::Number(NumberView::Unsigned(pending_questions as u64)),
                    )
                },
            },
            EventBody::BudgetResumed { remaining_ms } => match attempt {
                None => note_in_body(id, body, attempt) == Err::<Option<NoteView>, InvertError>(
                    InvertError::MissingAttempt { id },
                ),
                Some(of) => {
                    &&& note_in_body(id, body, attempt) matches Ok(Some(note))
                    &&& note.kind == "budget_resumed"@
                    &&& note.payload matches JsonView::Object(members)
                    &&& members[0] == (
                        "attempt"@,
                        JsonView::Number(NumberView::Unsigned(of.0 as u64)),
                    )
                    &&& members[1] == (
                        "remaining_ms"@,
                        JsonView::Number(NumberView::Unsigned(remaining_ms)),
                    )
                    &&& members[2] == (
                        "pending_questions"@,
                        JsonView::Number(NumberView::Unsigned(0)),
                    )
                },
            },
            _ => note_in_body(id, body, attempt) == Ok::<Option<NoteView>, InvertError>(None),
        },
{
}

/// A backend's activity without attributes is its backend under `kind` and
/// its envelope under `event`.
pub proof fn law_how_a_backend_s_activity_is_stored(activity: AgentActivity)
    requires
        activity.attributes@.len() == 0,
    ensures
        backend_value(activity) matches JsonView::Object(members) && members.len() == 2
            && members[0] == ("kind"@, JsonView::Text(activity.backend@)) && members[1] == (
            "event"@,
            activity.envelope@,
        ),
{
    reveal_strlit("kind");
    reveal_strlit("event");
    assert("kind"@.len() == 4 && "event"@.len() == 5);
    assert(members_of(activity.attributes@).len() == 0);
    let first = seq![("kind"@, JsonView::Text(activity.backend@))];
    reveal_with_fuel(key_place, 2);
    assert(key_place(first, "event"@) == 1);
}

// ── Coordinator records ────────────────────────────────────────────────

/// A coordinator event's body presents every part of the record, and reading
/// it gives the record back.
pub proof fn law_a_presented_record_reads_back(event: PresentedEvent, record: CoordinatorEvent)
    requires
        presents_lifecycle(event.body, record),
        event.context.execution == noting_execution(record),
    ensures
        coordinator_in(event) == Ok::<CoordinatorView, InvertError>(coordinator_view(record)),
        match record {
            CoordinatorEvent::RunStarted { key, root, .. } => event.body matches
                EventBody::RunStarted { key: k, root: r, .. } && k == key && r == root,
            CoordinatorEvent::GraphRegistered { digest } => event.body matches
                EventBody::GraphRegistered { digest: text } && text@ == digest_text(digest),
            CoordinatorEvent::InvocationDeclared {
                invocation,
                call,
                graph,
                context,
                secret_bindings,
                sandbox,
                admission,
            } => event.body matches EventBody::InvocationDeclared {
                invocation: i,
                call: c,
                graph: g,
                sandbox: s,
                context: x,
                secret_bindings: b,
                admission: a,
            } && i == invocation && g@ == digest_text(graph) && s == sandbox && x == context && b
                == secret_bindings && a == admission && (c is Some <==> call is Some) && (
            call matches Some(key) ==> (c matches Some(link) && link.execution == key.parent
                && link.firing == key.firing && link.attempt == key.attempt && link.slot
                == key.slot)),
            CoordinatorEvent::ExecutionDeclared { execution, invocation, predecessor, start, .. } =>
            event.body matches EventBody::ExecutionDeclared {
                execution: e,
                invocation: i,
                predecessor: p,
                execution_index,
                entry,
                context,
                prior_firings,
                max_executions,
                ..
            } && e == execution && i == invocation && p == predecessor && execution_index
                == start.execution_index && entry == start.entry && context == start.context
                && prior_firings == start.prior_firings && max_executions == start.max_executions,
            CoordinatorEvent::ExecutionFinished { execution, exit } => event.body matches
                EventBody::ExecutionFinished { execution: e, exit: x } && e == execution && x
                == exit,
            CoordinatorEvent::InvocationFinished { invocation, result } => event.body matches
                EventBody::InvocationFinished { invocation: i, result: r } && i == invocation && r
                == result,
            CoordinatorEvent::InvocationCancelRequested { invocation, reason } =>
            event.body matches EventBody::InvocationCancelRequested {
                invocation: i,
                reason: r,
            } && i == invocation && r == reason,
            CoordinatorEvent::RunNoteRecorded { execution, kind, payload } => event.body matches
                EventBody::HostNote { kind: k, payload: p } && k == kind && p == payload
                && event.context.execution == execution,
            CoordinatorEvent::RunPaused => event.body is RunPaused,
            CoordinatorEvent::RunUnpaused => event.body is RunUnpaused,
            CoordinatorEvent::RunFinished { status } => event.body matches
                EventBody::RunFinished { status: s } && s == status,
            CoordinatorEvent::ScopeReleased { invocation, lease, outcome, retained, .. } =>
            event.body matches EventBody::ScopeReleased {
                invocation: i,
                lease: l,
                outcome: o,
                retained: r,
                ..
            } && i == invocation && l == lease && o == outcome && r == retained,
        },
{
    match record {
        CoordinatorEvent::GraphRegistered { digest } => {
            law_digest_reads_back(digest);
        },
        CoordinatorEvent::InvocationDeclared { graph, .. } => {
            law_digest_reads_back(graph);
        },
        _ => {},
    }
}

/// A coordinator event comes from the record of its seq, recorded when the
/// event says; one without a time comes from none. An event whose graph's
/// name is no digest is refused with that name.
pub proof fn law_when_a_coordinator_record_was_recorded(event: PresentedEvent)
    ensures
        event.recorded_at is None ==> lifecycle_in(event) == Err::<LifecycleView, InvertError>(
            InvertError::MissingRecordedAt { id: event.id },
        ),
        lifecycle_in(event) matches Ok(record) ==> event.recorded_at == Some(record.recorded_at)
            && record.seq == event.id.seq && record.origin == EventOrigin::External
            && coordinator_in(event) == Ok::<CoordinatorView, InvertError>(record.body),
        event.body matches EventBody::GraphRegistered { digest } ==> (digest_named(digest@) is None
            ==> coordinator_in(event) == Err::<CoordinatorView, InvertError>(
            InvertError::BadDigest { id: event.id, digest },
        )),
        event.body matches EventBody::InvocationDeclared { graph, .. } ==> (digest_named(
            graph@,
        ) is None ==> coordinator_in(event) == Err::<CoordinatorView, InvertError>(
            InvertError::BadDigest { id: event.id, digest: graph },
        )),
{
}

/// A link is a call key under other names, both ways.
pub proof fn law_links_are_call_keys(key: ParentCallKey, link: ParentLink)
    ensures
        key_of_link(None) is None,
        key_of_link(Some(link_of(key))) == Some(key),
        key_of_link(Some(link)) matches Some(key) && key.parent == link.execution && key.firing
            == link.firing && key.attempt == link.attempt && key.slot == link.slot,
{
}

// ── Streams ────────────────────────────────────────────────────────────

/// Only the first event of a record adds one: to the coordinator's under its
/// seq, or to its execution's unless it is the core's own; a record that is
/// there stays, and every other is as it was.
pub proof fn law_what_an_event_adds(run: RunView, event: PresentedEvent, seq: u64, other: u64)
    requires
        read_event(run, event) is Ok,
    ensures
        ({
            let after = read_event(run, event)->Ok_0;
            &&& event.id.index != 0 ==> after == run
            &&& event.id.index == 0 && event.id.source is Coordinator ==> {
                &&& after.executions == run.executions
                &&& after.coordinator.contains_key(event.id.seq)
                &&& run.coordinator.contains_key(event.id.seq) ==> after.coordinator
                    == run.coordinator
                &&& !run.coordinator.contains_key(event.id.seq) ==> Ok::<
                    LifecycleView,
                    InvertError,
                >(after.coordinator[event.id.seq]) == lifecycle_in(event)
                &&& seq != event.id.seq ==> after.coordinator.contains_key(seq)
                    == run.coordinator.contains_key(seq)
                &&& seq != event.id.seq && run.coordinator.contains_key(seq)
                    ==> after.coordinator[seq] == run.coordinator[seq]
            }
            &&& event.origin == RecordOrigin::Core && event.id.source is Execution ==> after == run
            &&& event.id.index == 0 && event.origin != RecordOrigin::Core ==> (event.id.source
                matches EventSource::Execution { execution } ==> {
                &&& after.coordinator == run.coordinator
                &&& after.executions.contains_key(execution.0)
                &&& after.executions[execution.0].contains_key(event.id.seq)
                &&& (!run.executions.contains_key(execution.0)
                    || !run.executions[execution.0].contains_key(event.id.seq)) ==> {
                    let record = after.executions[execution.0][event.id.seq];
                    &&& record.seq == event.id.seq
                    &&& record.origin == EventOrigin::External
                    &&& record.recorded_at == event.recorded_at
                    &&& Ok::<EngineView, InvertError>(record.event) == engine_in(event)
                }
                &&& run.executions.contains_key(execution.0)
                    && run.executions[execution.0].contains_key(event.id.seq)
                    ==> after.executions[execution.0] == run.executions[execution.0]
                &&& other != execution.0 ==> after.executions.contains_key(other)
                    == run.executions.contains_key(other)
                &&& other != execution.0 && run.executions.contains_key(other)
                    ==> after.executions[other] == run.executions[other]
            })
        }),
{
}

/// A stream is read event by event, and refused at its first event that comes
/// from no record, for that event's reason.
pub proof fn law_a_stream_is_read_in_order(events: Seq<PresentedEvent>, event: PresentedEvent)
    ensures
        inverted(Seq::empty()) matches Ok(run) && run.coordinator.dom().len() == 0
            && run.executions.dom().len() == 0,
        inverted(events) matches Ok(run) ==> inverted(events.push(event)) == read_event(run, event),
        inverted(events) is Err ==> inverted(events.push(event)) == inverted(events),
{
    assert(events.push(event).drop_last() =~= events);
}

/// Which engine records can be presented: a host's, under a decision of their
/// own kind, of a control that is named, and a cancel of a group only when
/// the graph has it. The core's own cannot.
pub proof fn law_which_records_can_be_presented(event: Event, graph: Graph)
    ensures
        event is RouteApplied || event is TokenEmitted || event is NodeExpanded ==> !presentable(
            event,
            graph,
        ),
        event is StepStarted || event is StepFinished || event is StepProgressRecorded
            || event is RetryElapsed || event is ExecutionStarted || event is ScopeAcquired
            || event is ScopeFailed || event is KillRequested ==> presentable(event, graph),
        event matches Event::RoutingResolved { decision_id, .. } ==> (presentable(event, graph)
            <==> decision_id is Route),
        event matches Event::AdmissionDecided { decision_id, .. } ==> (presentable(event, graph)
            <==> !(decision_id is Route)),
        event matches Event::ControlRequested { ctl, .. } ==> (presentable(event, graph) <==> !(
        ctl is Other)),
        event matches Event::CancelRequested { target: CancelTarget::Scope(_) } ==> presentable(
            event,
            graph,
        ),
        event matches Event::CancelRequested { target: CancelTarget::Group(node) } ==> (presentable(
            event,
            graph,
        ) <==> graph.spec_node(node) is Some),
{
}

/// Which engine records are about a firing.
pub proof fn law_which_records_name_a_firing(event: Event)
    ensures
        event is StepStarted || event is StepFinished || event is StepProgressRecorded
            || event is RetryElapsed || event is ControlRequested ==> names_firing(event),
        event matches Event::AdmissionDecided { decision_id, .. } ==> (names_firing(event)
            <==> decision_id is AttemptStart),
        event matches Event::RoutingResolved { decision_id, .. } ==> (names_firing(event)
            <==> decision_id is Route),
        event is ExecutionStarted || event is ScopeAcquired || event is ScopeFailed
            || event is KillRequested || event is CancelRequested || event is RouteApplied
            || event is TokenEmitted || event is NodeExpanded ==> !names_firing(event),
{
}

// ── Names ──────────────────────────────────────────────────────────────

/// An event's identity is written with its log's name, an execution's number
/// after it, and the two numbers.
pub proof fn law_how_an_identity_is_written(id: EventId)
    ensures
        id_value(id) matches JsonView::Object(members) && {
            let n = members.len() as int;
            &&& members[0].0 == "log"@
            &&& members[n - 2] == ("seq"@, JsonView::Number(NumberView::Unsigned(id.seq)))
            &&& members[n - 1] == ("index"@, JsonView::Number(NumberView::Unsigned(id.index as u64)))
            &&& id.source is Coordinator ==> n == 3 && members[0].1 == JsonView::Text(
                "coordinator"@,
            )
            &&& id.source matches EventSource::Execution { execution } ==> n == 4 && members[0].1
                == JsonView::Text("execution"@) && members[1] == (
                "execution"@,
                JsonView::Number(NumberView::Unsigned(execution.0)),
            )
        },
        origin_of(EventOrigin::External) == RecordOrigin::External,
        origin_of(EventOrigin::Core) == RecordOrigin::Core,
{
}

/// A view event is named by its kind.
pub proof fn law_how_a_view_is_named(view: ViewEvent)
    ensures
        view is VisitStarted ==> view_name(view) == "visit.started"@,
        view is VisitCompleted ==> view_name(view) == "visit.completed"@,
        view is RetryScheduled ==> view_name(view) == "retry.scheduled"@,
        view is WaitStateChanged ==> view_name(view) == "wait.state.changed"@,
        view is ForkStarted ==> view_name(view) == "fork.started"@,
        view is BranchCompleted ==> view_name(view) == "branch.completed"@,
        view is ForkCompleted ==> view_name(view) == "fork.completed"@,
        view is RunStalled ==> view_name(view) == "run.stalled"@,
{
}

} // verus!

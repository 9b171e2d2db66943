//! The inverse of a presentation: the durable records a presented stream
//! derives from.
//!
//! Inversion reads the first event derived from each record (`index` 0) and
//! rebuilds the record. The core's own records derive events too, but replay
//! regenerates them from the external records, so inversion skips them by
//! their origin and yields the external records alone.

use crate::digest::digest_named;
use crate::event::{copy_admission, CoordinatorEvent, CoordinatorRecord, ParentCallKey};
use crate::events::presented::{
    AgentActivity, DeliveredControl, EventBody, PresentedEvent, RouteChoice,
};
use crate::events::{EventId, EventSource, ParentLink, RecordOrigin};
use crate::hooks::{activity_value, HookActivity, HookOperation, HOOK_ACTIVITY_NOTE_KIND};
use crate::ids::{Attempt, ExecutionId, FiringId, GraphDigest};
use crate::json::{
    lemma_members, members_of, put_member, share, value_of, with_member, with_members, Json,
    JsonView,
};
use crate::model::copy_text;
use crate::note::{
    budget_value, note_value, BUDGET_PAUSED_KIND, BUDGET_RESUMED_KIND, NOTE_KEY, BudgetNote, Note,
};
use crate::record::{
    CancelTarget, Control, DecisionId, EngineStart, Event, EventOrigin, EventRecord, GroupDecision,
    StepEvent,
};
use crate::table::Table;
use std::sync::Arc;
use vstd::prelude::*;
use vstd::string::*;

verus! {

/// The key of a progress payload that names an agent backend.
pub const BACKEND_EVENT_KIND_KEY: &'static str = "kind";

/// The key of a progress payload a backend's own event is under.
pub const BACKEND_EVENT_KEY: &'static str = "event";

/// Why an event could not be turned back into its record.
#[allow(inconsistent_fields)]
#[derive(Debug)]
pub enum InvertError {
    /// The event names no subject, so its firing is unknown.
    MissingSubject { id: EventId },
    /// The event names no firing.
    MissingFiring { id: EventId },
    /// The event names no attempt.
    MissingAttempt { id: EventId },
    /// A coordinator event carries no recording time.
    MissingRecordedAt { id: EventId },
    /// The event cancels neither a scope nor a group.
    CancelWithoutTarget { id: EventId },
    /// The event names an invalid graph digest.
    BadDigest { id: EventId, digest: String },
    /// The event is not the first event of a record of its log.
    UnexpectedBody { id: EventId },
}

/// An external engine record rebuilt from the events it derived, with the
/// time it was recorded.
#[derive(Debug)]
pub struct InvertedRecord {
    pub record: EventRecord,
    /// Absent for a record that never reached a log.
    pub recorded_at: Option<u64>,
}

/// A note, apart from how its text and its payload are stored.
pub struct NoteView {
    pub kind: Seq<char>,
    pub payload: JsonView,
}

/// An engine event, apart from how the parts inversion builds are stored.
pub enum EngineView {
    Whole(Event),
    Custom { firing: FiringId, value: JsonView },
    Routing { decision_id: DecisionId, groups: Seq<GroupDecision> },
}

/// What an engine event is, apart from how it is stored.
pub open spec fn engine_view(event: Event) -> EngineView {
    match event {
        Event::StepProgressRecorded { firing, ev: StepEvent::Custom(value) } => EngineView::Custom {
            firing,
            value: value@,
        },
        Event::RoutingResolved { decision_id, groups } => EngineView::Routing {
            decision_id,
            groups: groups@,
        },
        _ => EngineView::Whole(event),
    }
}

/// A coordinator event, apart from how the parts inversion builds are
/// stored.
pub enum CoordinatorView {
    Whole(CoordinatorEvent),
    Note { execution: Option<ExecutionId>, note: NoteView },
}

/// What a coordinator event is, apart from how it is stored.
pub open spec fn coordinator_view(event: CoordinatorEvent) -> CoordinatorView {
    match event {
        CoordinatorEvent::RunNoteRecorded { execution, kind, payload } => CoordinatorView::Note {
            execution,
            note: NoteView { kind: kind@, payload: payload@ },
        },
        _ => CoordinatorView::Whole(event),
    }
}

/// The firing an event is about.
pub open spec fn subject_firing(event: PresentedEvent) -> Result<FiringId, InvertError> {
    match event.subject {
        Some(subject) => match subject.firing {
            Some(firing) => Ok(firing),
            None => Err(InvertError::MissingFiring { id: event.id }),
        },
        None => Err(InvertError::MissingSubject { id: event.id }),
    }
}

/// The attempt an event is about, if it names one.
pub open spec fn named_attempt(event: PresentedEvent) -> Option<Attempt> {
    match event.subject {
        Some(subject) => subject.attempt,
        None => None,
    }
}

/// The attempt an event is about.
pub open spec fn subject_attempt(event: PresentedEvent) -> Result<Attempt, InvertError> {
    match named_attempt(event) {
        Some(attempt) => Ok(attempt),
        None => Err(InvertError::MissingAttempt { id: event.id }),
    }
}

/// A note of an attempt budget's accounting.
pub open spec fn budget_note_of(
    id: EventId,
    kind: Seq<char>,
    attempt: Option<Attempt>,
    remaining_ms: u64,
    pending_questions: u32,
) -> Result<NoteView, InvertError> {
    match attempt {
        Some(attempt) => Ok(
            NoteView {
                kind,
                payload: budget_value(BudgetNote { attempt, remaining_ms, pending_questions }),
            },
        ),
        None => Err(InvertError::MissingAttempt { id }),
    }
}

/// The note a note-derived body restates, if the body is one.
pub open spec fn note_in_body(id: EventId, body: EventBody, attempt: Option<Attempt>) -> Result<
    Option<NoteView>,
    InvertError,
> {
    match body {
        EventBody::HostNote { kind, payload } => Ok(
            Some(NoteView { kind: kind@, payload: payload@ }),
        ),
        EventBody::HookActivity { hook, activity } => Ok(
            Some(
                NoteView {
                    kind: HOOK_ACTIVITY_NOTE_KIND@,
                    payload: activity_value(
                        HookActivity {
                            hook,
                            backend: activity.backend,
                            envelope: activity.envelope,
                        },
                    ),
                },
            ),
        ),
        EventBody::BudgetPaused { remaining_ms, pending_questions } => match budget_note_of(
            id,
            BUDGET_PAUSED_KIND@,
            attempt,
            remaining_ms,
            pending_questions,
        ) {
            Ok(note) => Ok(Some(note)),
            Err(error) => Err(error),
        },
        EventBody::BudgetResumed { remaining_ms } => match budget_note_of(
            id,
            BUDGET_RESUMED_KIND@,
            attempt,
            remaining_ms,
            0,
        ) {
            Ok(note) => Ok(Some(note)),
            Err(error) => Err(error),
        },
        _ => Ok(None),
    }
}

/// The progress payload that is a note.
pub open spec fn noted(note: NoteView) -> JsonView {
    JsonView::Object(
        seq![
            (
                NOTE_KEY@,
                JsonView::Object(
                    seq![("kind"@, JsonView::Text(note.kind)), ("payload"@, note.payload)],
                ),
            ),
        ],
    )
}

/// The custom payload a backend's activity was read from: the backend under
/// `kind`, the step's own attributes in their order, then the envelope under
/// `event`.
pub open spec fn backend_value(activity: AgentActivity) -> JsonView {
    JsonView::Object(
        with_member(
            with_members(
                seq![(BACKEND_EVENT_KIND_KEY@, JsonView::Text(activity.backend@))],
                members_of(activity.attributes@),
            ),
            BACKEND_EVENT_KEY@,
            activity.envelope@,
        ),
    )
}

/// A firing's custom progress.
pub open spec fn custom_progress(event: PresentedEvent, value: JsonView) -> Result<
    EngineView,
    InvertError,
> {
    match subject_firing(event) {
        Ok(firing) => Ok(EngineView::Custom { firing, value }),
        Err(error) => Err(error),
    }
}

/// A firing's progress.
pub open spec fn plain_progress(event: PresentedEvent, ev: StepEvent) -> Result<
    EngineView,
    InvertError,
> {
    match subject_firing(event) {
        Ok(firing) => Ok(EngineView::Whole(Event::StepProgressRecorded { firing, ev })),
        Err(error) => Err(error),
    }
}

/// The decision a routing choice records.
pub open spec fn decision_of(choice: RouteChoice) -> GroupDecision {
    GroupDecision {
        group: choice.group,
        draw: choice.draw,
        trace: choice.trace,
        decision: choice.decision,
    }
}

/// The control a delivered control is.
pub open spec fn control_of(control: DeliveredControl) -> Control {
    match control {
        DeliveredControl::Answer { answer, value } => Control::Deliver(value),
        DeliveredControl::Deliver { value } => Control::Deliver(value),
        DeliveredControl::Cancel => Control::Cancel,
        DeliveredControl::Kill => Control::Kill,
    }
}

/// The external engine event the first event of a record derives from.
pub open spec fn engine_in(event: PresentedEvent) -> Result<EngineView, InvertError> {
    match event.body {
        EventBody::ExecutionStarted {
            entry,
            execution_index,
            context,
            prior_firings,
            max_executions,
        } => Ok(
            EngineView::Whole(
                Event::ExecutionStarted {
                    start: EngineStart {
                        entry,
                        context,
                        prior_firings,
                        execution_index,
                        max_executions,
                    },
                },
            ),
        ),
        EventBody::ExecutionAdmitted { decision, trace } => Ok(
            EngineView::Whole(
                Event::AdmissionDecided {
                    decision_id: DecisionId::ExecutionStart,
                    decision,
                    trace,
                },
            ),
        ),
        EventBody::AttemptAdmitted { decision, trace } => match (
            subject_firing(event),
            subject_attempt(event),
        ) {
            (Ok(firing), Ok(attempt)) => Ok(
                EngineView::Whole(
                    Event::AdmissionDecided {
                        decision_id: DecisionId::AttemptStart { firing, attempt },
                        decision,
                        trace,
                    },
                ),
            ),
            (Err(error), _) => Err(error),
            (Ok(_), Err(error)) => Err(error),
        },
        EventBody::AttemptStarted => match (subject_firing(event), subject_attempt(event)) {
            (Ok(firing), Ok(attempt)) => Ok(
                EngineView::Whole(Event::StepStarted { firing, attempt }),
            ),
            (Err(error), _) => Err(error),
            (Ok(_), Err(error)) => Err(error),
        },
        EventBody::AttemptFinished { outcome } => match (
            subject_firing(event),
            subject_attempt(event),
        ) {
            (Ok(firing), Ok(attempt)) => Ok(
                EngineView::Whole(Event::StepFinished { firing, attempt, outcome }),
            ),
            (Err(error), _) => Err(error),
            (Ok(_), Err(error)) => Err(error),
        },
        EventBody::RetryElapsed { next_attempt } => match subject_firing(event) {
            Ok(firing) => Ok(EngineView::Whole(Event::RetryElapsed { firing, next_attempt })),
            Err(error) => Err(error),
        },
        EventBody::RoutesResolved { choices } => match (
            subject_firing(event),
            subject_attempt(event),
        ) {
            (Ok(firing), Ok(attempt)) => Ok(
                EngineView::Routing {
                    decision_id: DecisionId::Route { firing, attempt },
                    groups: choices@.map_values(|choice: RouteChoice| decision_of(choice)),
                },
            ),
            (Err(error), _) => Err(error),
            (Ok(_), Err(error)) => Err(error),
        },
        EventBody::CancelRequested { scope: Some(scope), group } => Ok(
            EngineView::Whole(Event::CancelRequested { target: CancelTarget::Scope(scope) }),
        ),
        EventBody::CancelRequested { scope: None, group: Some(group) } => Ok(
            EngineView::Whole(Event::CancelRequested { target: CancelTarget::Group(group.id) }),
        ),
        EventBody::CancelRequested { scope: None, group: None } => Err(
            InvertError::CancelWithoutTarget { id: event.id },
        ),
        EventBody::KillRequested { scope } => Ok(EngineView::Whole(Event::KillRequested { scope })),
        EventBody::ScopeAcquired { scope, detail } => Ok(
            EngineView::Whole(Event::ScopeAcquired { scope, detail }),
        ),
        EventBody::ScopeFailed { scope, detail } => Ok(
            EngineView::Whole(Event::ScopeFailed { scope, detail }),
        ),
        EventBody::ControlDelivered { control } => match subject_firing(event) {
            Ok(firing) => Ok(
                EngineView::Whole(Event::ControlRequested { firing, ctl: control_of(control) }),
            ),
            Err(error) => Err(error),
        },
        EventBody::OutputLine { stream, line } => plain_progress(
            event,
            StepEvent::Log { stream, line },
        ),
        EventBody::ArtifactRecorded { name, uri } => plain_progress(
            event,
            StepEvent::Artifact { name, uri },
        ),
        EventBody::QuestionAsked { question, payload } => custom_progress(event, payload@),
        EventBody::QuestionExpired { expired, payload } => custom_progress(event, payload@),
        EventBody::AgentActivity { activity } => custom_progress(event, backend_value(activity)),
        EventBody::StepCustom { value } => custom_progress(event, value@),
        EventBody::HostNote { .. }
        | EventBody::HookActivity { .. }
        | EventBody::BudgetPaused { .. }
        | EventBody::BudgetResumed { .. } => match note_in_body(
            event.id,
            event.body,
            named_attempt(event),
        ) {
            Ok(Some(note)) => custom_progress(event, noted(note)),
            Ok(None) => Err(InvertError::UnexpectedBody { id: event.id }),
            Err(error) => Err(error),
        },
        _ => Err(InvertError::UnexpectedBody { id: event.id }),
    }
}

/// The call key a link names.
pub open spec fn key_of_link(link: Option<ParentLink>) -> Option<ParentCallKey> {
    match link {
        Some(link) => Some(
            ParentCallKey {
                parent: link.execution,
                firing: link.firing,
                attempt: link.attempt,
                slot: link.slot,
            },
        ),
        None => None,
    }
}

/// The digest a presented text names.
pub open spec fn digest_in(id: EventId, digest: String) -> Result<GraphDigest, InvertError> {
    match digest_named(digest@) {
        Some(digest) => Ok(digest),
        None => Err(InvertError::BadDigest { id, digest }),
    }
}

/// The coordinator event the first event of a record derives from.
pub open spec fn coordinator_in(event: PresentedEvent) -> Result<CoordinatorView, InvertError> {
    match event.body {
        EventBody::RunStarted { format_version, key, root, middleware_chain, forked_from } => Ok(
            CoordinatorView::Whole(
                CoordinatorEvent::RunStarted {
                    format_version,
                    key,
                    root,
                    middleware_chain,
                    forked_from,
                },
            ),
        ),
        EventBody::GraphRegistered { digest } => match digest_in(event.id, digest) {
            Ok(digest) => Ok(CoordinatorView::Whole(CoordinatorEvent::GraphRegistered { digest })),
            Err(error) => Err(error),
        },
        EventBody::InvocationDeclared {
            invocation,
            call,
            graph,
            sandbox,
            context,
            secret_bindings,
            admission,
        } => match digest_in(event.id, graph) {
            Ok(graph) => Ok(
                CoordinatorView::Whole(
                    CoordinatorEvent::InvocationDeclared {
                        invocation,
                        call: key_of_link(call),
                        graph,
                        context,
                        secret_bindings,
                        sandbox,
                        admission,
                    },
                ),
            ),
            Err(error) => Err(error),
        },
        EventBody::ExecutionDeclared {
            execution,
            invocation,
            predecessor,
            execution_index,
            entry,
            context,
            prior_firings,
            max_executions,
            middleware_state,
        } => Ok(
            CoordinatorView::Whole(
                CoordinatorEvent::ExecutionDeclared {
                    execution,
                    invocation,
                    predecessor,
                    start: EngineStart {
                        entry,
                        context,
                        prior_firings,
                        execution_index,
                        max_executions,
                    },
                    middleware_state,
                },
            ),
        ),
        EventBody::ExecutionFinished { execution, exit } => Ok(
            CoordinatorView::Whole(CoordinatorEvent::ExecutionFinished { execution, exit }),
        ),
        EventBody::InvocationFinished { invocation, result } => Ok(
            CoordinatorView::Whole(CoordinatorEvent::InvocationFinished { invocation, result }),
        ),
        EventBody::InvocationCancelRequested { invocation, reason } => Ok(
            CoordinatorView::Whole(
                CoordinatorEvent::InvocationCancelRequested { invocation, reason },
            ),
        ),
        EventBody::RunPaused => Ok(CoordinatorView::Whole(CoordinatorEvent::RunPaused)),
        EventBody::RunUnpaused => Ok(CoordinatorView::Whole(CoordinatorEvent::RunUnpaused)),
        EventBody::RunFinished { status } => Ok(
            CoordinatorView::Whole(CoordinatorEvent::RunFinished { status }),
        ),
        EventBody::ScopeReleased {
            invocation,
            lease,
            scope,
            workspace,
            provider,
            instance,
            outcome,
            retained,
            problems,
        } => Ok(
            CoordinatorView::Whole(
                CoordinatorEvent::ScopeReleased {
                    invocation,
                    lease,
                    scope,
                    workspace,
                    provider,
                    instance,
                    outcome,
                    retained,
                    problems,
                },
            ),
        ),
        body => match note_in_body(event.id, body, None) {
            Ok(Some(note)) => Ok(
                CoordinatorView::Note { execution: event.context.execution, note },
            ),
            Ok(None) => Err(InvertError::UnexpectedBody { id: event.id }),
            Err(error) => Err(error),
        },
    }
}

// ── Rebuilding ─────────────────────────────────────────────────────────

fn firing_of(event: &PresentedEvent) -> (firing: Result<FiringId, InvertError>)
    ensures
        firing == subject_firing(*event),
{
    match &event.subject {
        Some(subject) => match subject.firing {
            Some(firing) => Ok(firing),
            None => Err(InvertError::MissingFiring { id: event.id }),
        },
        None => Err(InvertError::MissingSubject { id: event.id }),
    }
}

fn attempt_named(event: &PresentedEvent) -> (attempt: Option<Attempt>)
    ensures
        attempt == named_attempt(*event),
{
    match &event.subject {
        Some(subject) => subject.attempt,
        None => None,
    }
}

fn attempt_of(event: &PresentedEvent) -> (attempt: Result<Attempt, InvertError>)
    ensures
        attempt == subject_attempt(*event),
{
    match attempt_named(event) {
        Some(attempt) => Ok(attempt),
        None => Err(InvertError::MissingAttempt { id: event.id }),
    }
}

/// Whether a rebuilt event is what inversion says it is.
pub open spec fn rebuilt(event: Result<Event, InvertError>, view: Result<EngineView, InvertError>) -> bool {
    match (event, view) {
        (Ok(event), Ok(view)) => engine_view(event) == view,
        (Err(error), Err(other)) => error == other,
        _ => false,
    }
}

fn progress(event: &PresentedEvent, ev: StepEvent) -> (recorded: Result<Event, InvertError>)
    ensures
        match ev {
            StepEvent::Custom(value) => rebuilt(recorded, custom_progress(*event, value@)),
            _ => rebuilt(recorded, plain_progress(*event, ev)),
        },
{
    match firing_of(event) {
        Ok(firing) => Ok(Event::StepProgressRecorded { firing, ev }),
        Err(error) => Err(error),
    }
}

/// Whether a rebuilt note is what inversion says it is.
pub open spec fn rebuilt_note(note: Note, view: NoteView) -> bool {
    note.kind@ == view.kind && note.payload@ == view.payload
}

fn budget_note(
    id: EventId,
    kind: &str,
    attempt: Option<Attempt>,
    remaining_ms: u64,
    pending_questions: u32,
) -> (note: Result<Note, InvertError>)
    ensures
        match (note, budget_note_of(id, kind@, attempt, remaining_ms, pending_questions)) {
            (Ok(note), Ok(view)) => rebuilt_note(note, view),
            (Err(error), Err(other)) => error == other,
            _ => false,
        },
{
    match attempt {
        Some(attempt) => {
            let accounting = BudgetNote { attempt, remaining_ms, pending_questions };
            Ok(Note { kind: kind.to_owned(), payload: accounting.to_payload() })
        },
        None => Err(InvertError::MissingAttempt { id }),
    }
}

/// The note a note-derived body restates, if the body is one. `attempt` is
/// the subject's, which a budget note records.
fn note_of(id: EventId, body: &EventBody, attempt: Option<Attempt>) -> (note: Result<
    Option<Note>,
    InvertError,
>)
    ensures
        match (note, note_in_body(id, *body, attempt)) {
            (Ok(Some(note)), Ok(Some(view))) => rebuilt_note(note, view),
            (Ok(None), Ok(None)) => true,
            (Err(error), Err(other)) => error == other,
            _ => false,
        },
{
    match body {
        EventBody::HostNote { kind, payload } => Ok(
            Some(Note { kind: kind.clone(), payload: payload.clone() }),
        ),
        EventBody::HookActivity { hook, activity } => {
            let recorded = HookActivity {
                hook: HookOperation { point: hook.point, hook: hook.hook.clone() },
                backend: activity.backend.clone(),
                envelope: activity.envelope.clone(),
            };
            Ok(
                Some(
                    Note { kind: HOOK_ACTIVITY_NOTE_KIND.to_owned(), payload: recorded.to_payload() },
                ),
            )
        },
        EventBody::BudgetPaused { remaining_ms, pending_questions } => match budget_note(
            id,
            BUDGET_PAUSED_KIND,
            attempt,
            *remaining_ms,
            *pending_questions,
        ) {
            Ok(note) => Ok(Some(note)),
            Err(error) => Err(error),
        },
        EventBody::BudgetResumed { remaining_ms } => match budget_note(
            id,
            BUDGET_RESUMED_KIND,
            attempt,
            *remaining_ms,
            0,
        ) {
            Ok(note) => Ok(Some(note)),
            Err(error) => Err(error),
        },
        _ => Ok(None),
    }
}

/// The custom payload a backend's activity was read from.
fn backend_payload(activity: &AgentActivity) -> (payload: Json)
    ensures
        payload@ == backend_value(*activity),
{
    let mut members: Vec<(String, Json)> = Vec::new();
    members.push((BACKEND_EVENT_KIND_KEY.to_owned(), Json::Text(activity.backend.clone())));
    let ghost start = seq![(BACKEND_EVENT_KIND_KEY@, JsonView::Text(activity.backend@))];
    let ghost attributes = activity.attributes@;
    proof {
        lemma_members(members@);
        lemma_members(attributes);
        assert(members_of(members@) =~= start);
        assert(attributes.take(0) =~= Seq::empty());
    }
    let mut i: usize = 0;
    while i < activity.attributes.len()
        invariant
            i <= activity.attributes.len(),
            attributes == activity.attributes@,
            members_of(members@) == with_members(start, members_of(attributes.take(i as int))),
        decreases activity.attributes.len() - i,
    {
        let key = activity.attributes[i].0.clone();
        let value = activity.attributes[i].1.clone();
        put_member(&mut members, key, value);
        proof {
            let taken = attributes.take(i + 1);
            assert(taken.drop_last() =~= attributes.take(i as int));
            assert(members_of(taken) == members_of(attributes.take(i as int)).push(
                (taken.last().0@, value_of(taken.last().1)),
            ));
            assert(members_of(taken).drop_last() =~= members_of(attributes.take(i as int)));
        }
        i = i + 1;
    }
    assert(attributes.take(i as int) =~= attributes);
    put_member(&mut members, BACKEND_EVENT_KEY.to_owned(), activity.envelope.clone());
    Json::Object(Arc::new(members))
}

fn decisions(choices: &Vec<RouteChoice>) -> (groups: Vec<GroupDecision>)
    ensures
        groups@ == choices@.map_values(|choice: RouteChoice| decision_of(choice)),
{
    let mut groups: Vec<GroupDecision> = Vec::new();
    let mut i: usize = 0;
    while i < choices.len()
        invariant
            i <= choices.len(),
            groups@.len() == i,
            forall|j: int| 0 <= j < i ==> #[trigger] groups@[j] == decision_of(choices@[j]),
        decreases choices.len() - i,
    {
        let choice = &choices[i];
        groups.push(
            GroupDecision {
                group: choice.group,
                draw: choice.draw.clone(),
                trace: share(&choice.trace),
                decision: choice.decision.clone(),
            },
        );
        i = i + 1;
    }
    assert(groups@ =~= choices@.map_values(|choice: RouteChoice| decision_of(choice)));
    groups
}

fn undelivered(control: &DeliveredControl) -> (ctl: Control)
    ensures
        ctl == control_of(*control),
{
    match control {
        DeliveredControl::Answer { answer: _, value } => Control::Deliver(value.clone()),
        DeliveredControl::Deliver { value } => Control::Deliver(value.clone()),
        DeliveredControl::Cancel => Control::Cancel,
        DeliveredControl::Kill => Control::Kill,
    }
}

/// The external engine record the first event of one derives from.
pub fn engine_event(event: &PresentedEvent) -> (engine: Result<Event, InvertError>)
    ensures
        rebuilt(engine, engine_in(*event)),
{
    let id = event.id;
    match &event.body {
        EventBody::ExecutionStarted {
            entry,
            execution_index,
            context,
            prior_firings,
            max_executions,
        } => Ok(
            Event::ExecutionStarted {
                start: EngineStart {
                    entry: *entry,
                    context: share(context),
                    prior_firings: share(prior_firings),
                    execution_index: *execution_index,
                    max_executions: *max_executions,
                },
            },
        ),
        EventBody::ExecutionAdmitted { decision, trace } => Ok(
            Event::AdmissionDecided {
                decision_id: DecisionId::ExecutionStart,
                decision: decision.clone(),
                trace: share(trace),
            },
        ),
        EventBody::AttemptAdmitted { decision, trace } => match firing_of(event) {
            Ok(firing) => match attempt_of(event) {
                Ok(attempt) => Ok(
                    Event::AdmissionDecided {
                        decision_id: DecisionId::AttemptStart { firing, attempt },
                        decision: decision.clone(),
                        trace: share(trace),
                    },
                ),
                Err(error) => Err(error),
            },
            Err(error) => Err(error),
        },
        EventBody::AttemptStarted => match firing_of(event) {
            Ok(firing) => match attempt_of(event) {
                Ok(attempt) => Ok(Event::StepStarted { firing, attempt }),
                Err(error) => Err(error),
            },
            Err(error) => Err(error),
        },
        EventBody::AttemptFinished { outcome } => match firing_of(event) {
            Ok(firing) => match attempt_of(event) {
                Ok(attempt) => Ok(
                    Event::StepFinished { firing, attempt, outcome: share(outcome) },
                ),
                Err(error) => Err(error),
            },
            Err(error) => Err(error),
        },
        EventBody::RetryElapsed { next_attempt } => match firing_of(event) {
            Ok(firing) => Ok(Event::RetryElapsed { firing, next_attempt: *next_attempt }),
            Err(error) => Err(error),
        },
        EventBody::RoutesResolved { choices } => match firing_of(event) {
            Ok(firing) => match attempt_of(event) {
                Ok(attempt) => Ok(
                    Event::RoutingResolved {
                        decision_id: DecisionId::Route { firing, attempt },
                        groups: Arc::new(decisions(choices)),
                    },
                ),
                Err(error) => Err(error),
            },
            Err(error) => Err(error),
        },
        EventBody::CancelRequested { scope, group } => match (scope, group) {
            (Some(scope), _) => Ok(
                Event::CancelRequested { target: CancelTarget::Scope(*scope) },
            ),
            (None, Some(group)) => Ok(
                Event::CancelRequested { target: CancelTarget::Group(group.id) },
            ),
            (None, None) => Err(InvertError::CancelWithoutTarget { id }),
        },
        EventBody::KillRequested { scope } => Ok(Event::KillRequested { scope: *scope }),
        EventBody::ScopeAcquired { scope, detail } => Ok(
            Event::ScopeAcquired { scope: *scope, detail: detail.clone() },
        ),
        EventBody::ScopeFailed { scope, detail } => Ok(
            Event::ScopeFailed { scope: *scope, detail: detail.clone() },
        ),
        EventBody::ControlDelivered { control: delivered } => match firing_of(event) {
            Ok(firing) => Ok(Event::ControlRequested { firing, ctl: undelivered(delivered) }),
            Err(error) => Err(error),
        },
        EventBody::OutputLine { stream, line } => progress(
            event,
            StepEvent::Log { stream: *stream, line: line.clone() },
        ),
        EventBody::ArtifactRecorded { name, uri } => progress(
            event,
            StepEvent::Artifact { name: name.clone(), uri: uri.clone() },
        ),
        EventBody::QuestionAsked { question: _, payload } => progress(
            event,
            StepEvent::Custom(payload.clone()),
        ),
        EventBody::QuestionExpired { expired: _, payload } => progress(
            event,
            StepEvent::Custom(payload.clone()),
        ),
        EventBody::AgentActivity { activity } => progress(
            event,
            StepEvent::Custom(backend_payload(activity)),
        ),
        EventBody::StepCustom { value } => progress(event, StepEvent::Custom(value.clone())),
        EventBody::HostNote { kind: _, payload: _ }
        | EventBody::HookActivity { hook: _, activity: _ }
        | EventBody::BudgetPaused { remaining_ms: _, pending_questions: _ }
        | EventBody::BudgetResumed { remaining_ms: _ } => match note_of(
            id,
            &event.body,
            attempt_named(event),
        ) {
            Ok(Some(note)) => {
                let ev = note.to_step_event();
                assert(note_value(note) == noted(
                    NoteView { kind: note.kind@, payload: note.payload@ },
                ));
                progress(event, ev)
            },
            Ok(None) => Err(InvertError::UnexpectedBody { id }),
            Err(error) => Err(error),
        },
        // The first event of an external engine record is never one of
        // these: they derive from the core's own records, from the state
        // after a record, or from a coordinator record.
        _ => Err(InvertError::UnexpectedBody { id }),
    }
}

fn call_of(link: &Option<ParentLink>) -> (call: Option<ParentCallKey>)
    ensures
        call == key_of_link(*link),
{
    match link {
        Some(link) => Some(
            ParentCallKey {
                parent: link.execution,
                firing: link.firing,
                attempt: link.attempt,
                slot: link.slot.clone(),
            },
        ),
        None => None,
    }
}

fn parse_digest(id: EventId, digest: &String) -> (parsed: Result<GraphDigest, InvertError>)
    ensures
        parsed == digest_in(id, *digest),
{
    match GraphDigest::parse(digest.as_str()) {
        Some(digest) => Ok(digest),
        None => Err(InvertError::BadDigest { id, digest: digest.clone() }),
    }
}

/// Whether a rebuilt coordinator event is what inversion says it is.
pub open spec fn rebuilt_lifecycle(
    event: Result<CoordinatorEvent, InvertError>,
    view: Result<CoordinatorView, InvertError>,
) -> bool {
    match (event, view) {
        (Ok(event), Ok(view)) => coordinator_view(event) == view,
        (Err(error), Err(other)) => error == other,
        _ => false,
    }
}

/// The coordinator event the first event of a record derives from.
pub fn coordinator_event(event: &PresentedEvent) -> (lifecycle: Result<
    CoordinatorEvent,
    InvertError,
>)
    ensures
        rebuilt_lifecycle(lifecycle, coordinator_in(*event)),
{
    let id = event.id;
    match &event.body {
        EventBody::RunStarted { format_version, key, root, middleware_chain, forked_from } => Ok(
            CoordinatorEvent::RunStarted {
                format_version: *format_version,
                key: key.clone(),
                root: *root,
                middleware_chain: share(middleware_chain),
                forked_from: match forked_from {
                    Some(origin) => Some(origin.clone()),
                    None => None,
                },
            },
        ),
        EventBody::GraphRegistered { digest } => match parse_digest(id, digest) {
            Ok(digest) => Ok(CoordinatorEvent::GraphRegistered { digest }),
            Err(error) => Err(error),
        },
        EventBody::InvocationDeclared {
            invocation,
            call,
            graph,
            sandbox,
            context,
            secret_bindings,
            admission,
        } => match parse_digest(id, graph) {
            Ok(graph) => Ok(
                CoordinatorEvent::InvocationDeclared {
                    invocation: *invocation,
                    call: call_of(call),
                    graph,
                    context: share(context),
                    secret_bindings: secret_bindings.clone(),
                    sandbox: *sandbox,
                    admission: copy_admission(admission),
                },
            ),
            Err(error) => Err(error),
        },
        EventBody::ExecutionDeclared {
            execution,
            invocation,
            predecessor,
            execution_index,
            entry,
            context,
            prior_firings,
            max_executions,
            middleware_state,
        } => Ok(
            CoordinatorEvent::ExecutionDeclared {
                execution: *execution,
                invocation: *invocation,
                predecessor: *predecessor,
                start: EngineStart {
                    entry: *entry,
                    context: share(context),
                    prior_firings: share(prior_firings),
                    execution_index: *execution_index,
                    max_executions: *max_executions,
                },
                middleware_state: share(middleware_state),
            },
        ),
        EventBody::ExecutionFinished { execution, exit } => Ok(
            CoordinatorEvent::ExecutionFinished { execution: *execution, exit: *exit },
        ),
        EventBody::InvocationFinished { invocation, result } => Ok(
            CoordinatorEvent::InvocationFinished {
                invocation: *invocation,
                result: share(result),
            },
        ),
        EventBody::InvocationCancelRequested { invocation, reason } => Ok(
            CoordinatorEvent::InvocationCancelRequested {
                invocation: *invocation,
                reason: *reason,
            },
        ),
        EventBody::RunPaused => Ok(CoordinatorEvent::RunPaused),
        EventBody::RunUnpaused => Ok(CoordinatorEvent::RunUnpaused),
        EventBody::RunFinished { status } => Ok(CoordinatorEvent::RunFinished { status: *status }),
        EventBody::ScopeReleased {
            invocation,
            lease,
            scope,
            workspace,
            provider,
            instance,
            outcome,
            retained,
            problems,
        } => Ok(
            CoordinatorEvent::ScopeReleased {
                invocation: *invocation,
                lease: *lease,
                scope: scope.clone(),
                workspace: workspace.clone(),
                provider: provider.clone(),
                instance: copy_text(instance),
                outcome: *outcome,
                retained: *retained,
                problems: share(problems),
            },
        ),
        body => match note_of(id, body, None) {
            Ok(Some(note)) => Ok(
                CoordinatorEvent::RunNoteRecorded {
                    execution: event.context.execution,
                    kind: note.kind,
                    payload: note.payload,
                },
            ),
            Ok(None) => Err(InvertError::UnexpectedBody { id }),
            Err(error) => Err(error),
        },
    }
}

/// A coordinator record, apart from how its body is stored.
pub struct LifecycleView {
    pub seq: u64,
    pub origin: EventOrigin,
    pub recorded_at: u64,
    pub body: CoordinatorView,
}

/// What a coordinator record is, apart from how it is stored.
pub open spec fn lifecycle_view(record: CoordinatorRecord) -> LifecycleView {
    LifecycleView {
        seq: record.seq,
        origin: record.origin,
        recorded_at: record.recorded_at,
        body: coordinator_view(*record.body),
    }
}

/// The coordinator record the first event of one derives from. Every
/// coordinator record has a recording time.
pub open spec fn lifecycle_in(event: PresentedEvent) -> Result<LifecycleView, InvertError> {
    match (event.recorded_at, coordinator_in(event)) {
        (Some(recorded_at), Ok(body)) => Ok(
            LifecycleView { seq: event.id.seq, origin: EventOrigin::External, recorded_at, body },
        ),
        (Some(_), Err(error)) => Err(error),
        (None, _) => Err(InvertError::MissingRecordedAt { id: event.id }),
    }
}

/// The coordinator record the first event of one derives from.
pub fn coordinator_record(event: &PresentedEvent) -> (record: Result<
    CoordinatorRecord,
    InvertError,
>)
    ensures
        match (record, lifecycle_in(*event)) {
            (Ok(record), Ok(view)) => lifecycle_view(record) == view,
            (Err(error), Err(other)) => error == other,
            _ => false,
        },
{
    match event.recorded_at {
        Some(recorded_at) => match coordinator_event(event) {
            Ok(body) => Ok(CoordinatorRecord::external(event.id.seq, recorded_at, body)),
            Err(error) => Err(error),
        },
        None => Err(InvertError::MissingRecordedAt { id: event.id }),
    }
}

// ── A whole stream ─────────────────────────────────────────────────────

/// An inverted record, apart from how its event is stored.
pub struct InvertedView {
    pub seq: u64,
    pub origin: EventOrigin,
    pub recorded_at: Option<u64>,
    pub event: EngineView,
}

/// What an inverted record is, apart from how it is stored.
pub open spec fn inverted_view(inverted: InvertedRecord) -> InvertedView {
    InvertedView {
        seq: inverted.record.seq,
        origin: inverted.record.origin,
        recorded_at: inverted.recorded_at,
        event: engine_view(*inverted.record.event),
    }
}

/// The records a stream derives from, each log's in seq order.
#[derive(Debug)]
pub struct InvertedRun {
    /// The coordinator records, by seq.
    pub coordinator: Table<CoordinatorRecord>,
    /// Each execution's external engine records, by seq.
    pub executions: Table<Table<InvertedRecord>>,
}

/// The records a stream derives from, apart from how they are stored.
#[verifier::ext_equal]
pub struct RunView {
    pub coordinator: Map<u64, LifecycleView>,
    pub executions: Map<u64, Map<u64, InvertedView>>,
}

/// Inverted records by seq, apart from how they are stored.
pub open spec fn inverted_views(records: Map<u64, InvertedRecord>) -> Map<u64, InvertedView> {
    records.map_values(|record: InvertedRecord| inverted_view(record))
}

impl InvertedRun {
    /// The run, apart from how its records are stored.
    pub open spec fn model(&self) -> RunView {
        RunView {
            coordinator: self.coordinator@.map_values(
                |record: CoordinatorRecord| lifecycle_view(record),
            ),
            executions: self.executions@.map_values(
                |records: Table<InvertedRecord>| inverted_views(records@),
            ),
        }
    }
}

/// A run no event has been read of.
pub open spec fn empty_run() -> RunView {
    RunView { coordinator: Map::empty(), executions: Map::empty() }
}

/// An entry put under a key that had none; a key that had one keeps it.
pub open spec fn keep_first<V>(entries: Map<u64, V>, key: u64, value: V) -> Map<u64, V> {
    if entries.contains_key(key) {
        entries
    } else {
        entries.insert(key, value)
    }
}

/// An execution's records so far.
pub open spec fn records_of(run: RunView, execution: ExecutionId) -> Map<u64, InvertedView> {
    if run.executions.contains_key(execution.0) {
        run.executions[execution.0]
    } else {
        Map::empty()
    }
}

/// What one more event of a stream adds: the record it is the first event
/// of, unless a record with its seq is there already.
pub open spec fn read_event(run: RunView, event: PresentedEvent) -> Result<RunView, InvertError> {
    if event.id.index != 0 {
        Ok(run)
    } else {
        match event.id.source {
            EventSource::Coordinator => match lifecycle_in(event) {
                Ok(record) => Ok(
                    RunView {
                        coordinator: keep_first(run.coordinator, event.id.seq, record),
                        executions: run.executions,
                    },
                ),
                Err(error) => Err(error),
            },
            EventSource::Execution { execution } => if event.origin == RecordOrigin::Core {
                Ok(run)
            } else {
                match engine_in(event) {
                    Ok(engine) => Ok(
                        RunView {
                            coordinator: run.coordinator,
                            executions: run.executions.insert(
                                execution.0,
                                keep_first(
                                    records_of(run, execution),
                                    event.id.seq,
                                    InvertedView {
                                        seq: event.id.seq,
                                        origin: EventOrigin::External,
                                        recorded_at: event.recorded_at,
                                        event: engine,
                                    },
                                ),
                            ),
                        },
                    ),
                    Err(error) => Err(error),
                }
            },
        }
    }
}

/// The records a stream derives from, or why its first event that cannot be
/// turned back cannot.
pub open spec fn inverted(events: Seq<PresentedEvent>) -> Result<RunView, InvertError>
    decreases events.len(),
{
    if events.len() == 0 {
        Ok(empty_run())
    } else {
        match inverted(events.drop_last()) {
            Ok(run) => read_event(run, events.last()),
            Err(error) => Err(error),
        }
    }
}

proof fn lemma_error_stays(events: Seq<PresentedEvent>, i: int)
    requires
        0 <= i <= events.len(),
        inverted(events.take(i)) is Err,
    ensures
        inverted(events) == inverted(events.take(i)),
    decreases events.len() - i,
{
    if i == events.len() {
        assert(events.take(i) =~= events);
    } else {
        assert(events.take(i + 1).drop_last() =~= events.take(i));
        lemma_error_stays(events, i + 1);
    }
}

impl InvertedRun {
    fn keep_lifecycle(&mut self, record: CoordinatorRecord)
        ensures
            final(self).model() == (RunView {
                coordinator: keep_first(
                    old(self).model().coordinator,
                    record.seq,
                    lifecycle_view(record),
                ),
                executions: old(self).model().executions,
            }),
    {
        let ghost before = self.coordinator@;
        if !self.coordinator.contains_key(record.seq) {
            self.coordinator.insert(record.seq, record);
        }
        assert(self.model().coordinator =~= keep_first(
            old(self).model().coordinator,
            record.seq,
            lifecycle_view(record),
        ));
        assert(self.model().executions =~= old(self).model().executions);
    }

    fn keep_engine(&mut self, execution: ExecutionId, record: InvertedRecord)
        ensures
            final(self).model() == (RunView {
                coordinator: old(self).model().coordinator,
                executions: old(self).model().executions.insert(
                    execution.0,
                    keep_first(
                        records_of(old(self).model(), execution),
                        record.record.seq,
                        inverted_view(record),
                    ),
                ),
            }),
    {
        let ghost before = self.executions@;
        let mut records = match self.executions.remove(execution.0) {
            Some(records) => records,
            None => Table::new(),
        };
        let ghost held = records@;
        assert(inverted_views(held) =~= records_of(old(self).model(), execution));
        let seq = record.record.seq;
        let ghost view = inverted_view(record);
        if !records.contains_key(seq) {
            records.insert(seq, record);
        }
        assert(inverted_views(records@) =~= keep_first(inverted_views(held), seq, view));
        self.executions.insert(execution.0, records);
        assert(self.executions@ =~= before.insert(execution.0, records));
        assert(self.model().executions =~= old(self).model().executions.insert(
            execution.0,
            keep_first(records_of(old(self).model(), execution), seq, view),
        ));
        assert(self.model().coordinator =~= old(self).model().coordinator);
    }
}

/// Rebuild the records a stream derives from: every coordinator record, and
/// every execution's external engine records. Only the first event of each
/// record (`index` 0) is read; the rest restate it. An event of a core record
/// is skipped by its origin. Events are deduplicated by their identity, so an
/// at-least-once delivery inverts the same.
pub fn invert(events: &Vec<PresentedEvent>) -> (run: Result<InvertedRun, InvertError>)
    ensures
        match (run, inverted(events@)) {
            (Ok(run), Ok(model)) => run.model() == model,
            (Err(error), Err(other)) => error == other,
            _ => false,
        },
{
    let mut run = InvertedRun { coordinator: Table::new(), executions: Table::new() };
    let mut i: usize = 0;
    proof {
        assert(events@.take(0) =~= Seq::empty());
        assert(run.model() =~= empty_run());
    }
    while i < events.len()
        invariant
            i <= events.len(),
            inverted(events@.take(i as int)) == Ok::<RunView, InvertError>(run.model()),
        decreases events.len() - i,
    {
        let event = &events[i];
        proof {
            assert(events@.take(i + 1).drop_last() =~= events@.take(i as int));
            assert(events@.take(i + 1).last() == *event);
        }
        if event.id.index == 0 {
            match event.id.source {
                EventSource::Coordinator => match coordinator_record(event) {
                    Ok(record) => {
                        run.keep_lifecycle(record);
                    },
                    Err(error) => {
                        proof {
                            lemma_error_stays(events@, i + 1);
                        }
                        return Err(error);
                    },
                },
                EventSource::Execution { execution } => {
                    if event.origin != RecordOrigin::Core {
                        match engine_event(event) {
                            Ok(engine) => {
                                let record = InvertedRecord {
                                    record: EventRecord {
                                        seq: event.id.seq,
                                        origin: EventOrigin::External,
                                        event: Arc::new(engine),
                                    },
                                    recorded_at: event.recorded_at,
                                };
                                run.keep_engine(execution, record);
                            },
                            Err(error) => {
                                proof {
                                    lemma_error_stays(events@, i + 1);
                                }
                                return Err(error);
                            },
                        }
                    }
                },
            }
        }
        i = i + 1;
    }
    assert(events@.take(i as int) =~= events@);
    Ok(run)
}

// ── Laws ───────────────────────────────────────────────────────────────

/// Whether an event's record is in a run.
pub open spec fn holds(run: RunView, event: PresentedEvent) -> bool {
    event.id.index == 0 ==> match event.id.source {
        EventSource::Coordinator => run.coordinator.contains_key(event.id.seq),
        EventSource::Execution { execution } => event.origin != RecordOrigin::Core ==> {
            run.executions.contains_key(execution.0) && run.executions[execution.0].contains_key(
                event.id.seq,
            )
        },
    }
}

/// Every record a readable stream names is among the records it inverts to.
pub proof fn law_every_record_is_kept(events: Seq<PresentedEvent>, i: int)
    requires
        0 <= i < events.len(),
        inverted(events) is Ok,
    ensures
        holds(inverted(events)->Ok_0, events[i]),
    decreases events.len(),
{
    if i < events.len() - 1 {
        law_every_record_is_kept(events.drop_last(), i);
    }
}

/// An at-least-once delivery inverts the same: an event delivered again
/// changes nothing.
pub proof fn law_redelivery_changes_nothing(events: Seq<PresentedEvent>, i: int)
    requires
        0 <= i < events.len(),
        inverted(events) is Ok,
    ensures
        inverted(events.push(events[i])) == inverted(events),
    decreases events.len(),
{
    let again = events.push(events[i]);
    let run = inverted(events)->Ok_0;
    assert(again.drop_last() =~= events);
    law_every_record_is_kept(events, i);
    lemma_read_is_readable(events, i);
    let read = read_event(run, events[i]);
    assert(read->Ok_0 =~= run) by {
        match events[i].id.source {
            EventSource::Coordinator => {},
            EventSource::Execution { execution } => {
                if events[i].id.index == 0 && events[i].origin != RecordOrigin::Core {
                    assert(run.executions.insert(execution.0, run.executions[execution.0])
                        =~= run.executions);
                }
            },
        }
    }
}

proof fn lemma_read_is_readable(events: Seq<PresentedEvent>, i: int)
    requires
        0 <= i < events.len(),
        inverted(events) is Ok,
    ensures
        events[i].id.index == 0 && events[i].id.source is Coordinator ==> lifecycle_in(
            events[i],
        ) is Ok,
        events[i].id.index == 0 && events[i].id.source is Execution && events[i].origin
            != RecordOrigin::Core ==> engine_in(events[i]) is Ok,
    decreases events.len(),
{
    if i < events.len() - 1 {
        lemma_read_is_readable(events.drop_last(), i);
    }
}

/// The events after a record's first, and those of the core's own records,
/// add nothing: replay regenerates what they restate.
pub proof fn law_only_first_events_are_read(events: Seq<PresentedEvent>, event: PresentedEvent)
    requires
        event.id.index != 0 || (event.id.source is Execution && event.origin
            == RecordOrigin::Core),
    ensures
        inverted(events.push(event)) == inverted(events),
{
    assert(events.push(event).drop_last() =~= events);
}

/// Whether an event that is read tells of a record of a run as the run holds
/// it.
pub open spec fn tells(event: PresentedEvent, run: RunView) -> bool {
    event.id.index == 0 ==> match event.id.source {
        EventSource::Coordinator => run.coordinator.contains_key(event.id.seq) && lifecycle_in(
            event,
        ) == Ok::<LifecycleView, InvertError>(run.coordinator[event.id.seq]),
        EventSource::Execution { execution } => event.origin != RecordOrigin::Core ==> {
            let record = run.executions[execution.0][event.id.seq];
            &&& run.executions.contains_key(execution.0)
            &&& run.executions[execution.0].contains_key(event.id.seq)
            &&& record.seq == event.id.seq
            &&& record.origin == EventOrigin::External
            &&& record.recorded_at == event.recorded_at
            &&& engine_in(event) == Ok::<EngineView, InvertError>(record.event)
        },
    }
}

/// Whether a stream holds the first event of a record, and for an
/// execution's one that is not the core's own.
pub open spec fn told(events: Seq<PresentedEvent>, source: EventSource, seq: u64) -> bool {
    exists|i: int|
        0 <= i < events.len() && (#[trigger] events[i]).id == (EventId { source, seq, index: 0 })
            && (source is Execution ==> events[i].origin != RecordOrigin::Core)
}

/// Every record of a part of a run is in the run, as it is there.
spec fn part_of(part: RunView, run: RunView) -> bool {
    &&& forall|seq: u64| #[trigger]
        part.coordinator.contains_key(seq) ==> run.coordinator.contains_key(seq)
            && part.coordinator[seq] == run.coordinator[seq]
    &&& forall|execution: u64| #[trigger]
        part.executions.contains_key(execution) ==> run.executions.contains_key(execution)
    &&& forall|execution: u64, seq: u64|
        part.executions.contains_key(execution)
            && #[trigger] part.executions[execution].contains_key(seq)
            ==> run.executions[execution].contains_key(seq) && part.executions[execution][seq]
            == run.executions[execution][seq]
}

proof fn lemma_told_is_part(events: Seq<PresentedEvent>, run: RunView)
    requires
        forall|i: int| 0 <= i < events.len() ==> tells(#[trigger] events[i], run),
    ensures
        inverted(events) is Ok,
        part_of(inverted(events)->Ok_0, run),
    decreases events.len(),
{
    if events.len() > 0 {
        let rest = events.drop_last();
        assert forall|i: int| 0 <= i < rest.len() implies tells(#[trigger] rest[i], run) by {
            assert(rest[i] == events[i]);
        }
        lemma_told_is_part(rest, run);
        assert(tells(events[events.len() - 1], run));
    }
}

/// The presentation of a run loses nothing: a stream whose events tell of the
/// run's records as they are, of each at least once, inverts to exactly that
/// run, in whatever order and however often they are told.
pub proof fn law_presentation_is_lossless(events: Seq<PresentedEvent>, run: RunView)
    requires
        forall|i: int| 0 <= i < events.len() ==> tells(#[trigger] events[i], run),
        forall|seq: u64| #[trigger]
            run.coordinator.contains_key(seq) ==> told(events, EventSource::Coordinator, seq),
        forall|execution: u64, seq: u64|
            run.executions.contains_key(execution)
                && #[trigger] run.executions[execution].contains_key(seq) ==> told(
                events,
                EventSource::Execution { execution: ExecutionId(execution) },
                seq,
            ),
        forall|execution: u64| #[trigger]
            run.executions.contains_key(execution) ==> run.executions[execution].dom()
                != Set::<u64>::empty(),
    ensures
        inverted(events) == Ok::<RunView, InvertError>(run),
{
    lemma_told_is_part(events, run);
    let part = inverted(events)->Ok_0;
    assert forall|seq: u64| run.coordinator.contains_key(seq) implies #[trigger]
        part.coordinator.contains_key(seq) by {
        let i = choose|i: int|
            0 <= i < events.len() && (#[trigger] events[i]).id == (EventId {
                source: EventSource::Coordinator,
                seq,
                index: 0,
            });
        law_every_record_is_kept(events, i);
    }
    assert(part.coordinator =~= run.coordinator);
    assert forall|execution: u64, seq: u64|
        run.executions.contains_key(execution)
            && #[trigger] run.executions[execution].contains_key(seq) implies
        part.executions.contains_key(execution) && part.executions[execution].contains_key(
        seq,
    ) by {
        let source = EventSource::Execution { execution: ExecutionId(execution) };
        let i = choose|i: int|
            0 <= i < events.len() && (#[trigger] events[i]).id == (EventId {
                source,
                seq,
                index: 0,
            }) && events[i].origin != RecordOrigin::Core;
        law_every_record_is_kept(events, i);
    }
    assert forall|execution: u64| #[trigger] run.executions.contains_key(execution) implies
        part.executions.contains_key(execution) && part.executions[execution]
        == run.executions[execution] by {
        let records = run.executions[execution];
        assert(exists|seq: u64| #[trigger] records.contains_key(seq)) by {
            if forall|seq: u64| !(#[trigger] records.contains_key(seq)) {
                assert(records.dom() =~= Set::<u64>::empty());
            }
        }
        let seq = choose|seq: u64| #[trigger] records.contains_key(seq);
        assert(run.executions[execution].contains_key(seq));
        assert(part.executions[execution] =~= records);
    }
    assert(part.executions =~= run.executions);
    assert(part =~= run);
}

} // verus!

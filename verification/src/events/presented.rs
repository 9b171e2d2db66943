//! The presentation of a run's records: each record under a name a reader
//! knows, with everything the record holds, so that the record can be built
//! again from it.

use crate::digest::{digest_text, law_digest_reads_back};
use crate::event::{
    copy_admission, AttemptAdmission, CancelReason, CoordinatorEvent, CoordinatorRecord, ForkOrigin,
    InvocationResult, MiddlewareState, SandboxBinding, ScopeIdentity, ScopeOutcome, SecretBindings,
};
use crate::events::{
    link_of, node_ref, origin_of, BranchResult, Context, EventId, EventSource,
    ForkDisposition, ForkOccurrence, NodeRef, ParentLink, RecordOrigin, Subject, WaitState,
};
use crate::events::invert::{
    coordinator_view, decision_of, engine_in, engine_view, lifecycle_in, EngineView, InvertError,
    LifecycleView,
};
use crate::hooks::HookOperation;
use crate::ids::{
    Attempt, CancelScopeId, ExecutionId, FiringId, InvocationId, NodeId, SandboxLeaseId, ScopeId,
};
use crate::json::{share, Json};
use crate::model::{copy_text, Fields, Graph, Node, Outcome, RunStatus, Token};
use crate::note::StepReading;
use crate::record::{
    Admission, CancelTarget, Control, DecisionId, EngineExit, EntryPoint, Event, EventOrigin, EventRecord,
    GroupDecision, Intervention, LogStream, RouteApplied, RouteDecision, StepEvent,
};
use crate::search::first_where;
use crate::state::BranchRef;
use crate::steps::{Answer, Question, QuestionExpired};
use std::sync::Arc;
use vstd::prelude::*;

verus! {

/// What an agent backend reported: the backend's name, what the step put
/// beside its event, and the event.
#[derive(Debug)]
pub struct AgentActivity {
    pub backend: String,
    pub attributes: Fields,
    pub envelope: Json,
}

/// One routing group's choice, and the node it leads to.
#[derive(Debug)]
pub struct RouteChoice {
    pub group: u32,
    pub draw: Json,
    pub trace: Arc<Vec<Intervention>>,
    pub decision: RouteDecision,
    pub target: Option<NodeRef>,
}

/// A control as it reached its firing.
#[derive(Debug)]
pub enum DeliveredControl {
    /// A delivered value that reads as an answer.
    Answer { answer: Arc<Answer>, value: Json },
    Deliver { value: Json },
    Cancel,
    Kill,
}

/// What a presented event says.
#[allow(inconsistent_fields)]
#[derive(Debug)]
pub enum EventBody {
    RunStarted {
        format_version: u32,
        key: String,
        root: InvocationId,
        middleware_chain: Arc<Vec<String>>,
        forked_from: Option<ForkOrigin>,
    },
    GraphRegistered { digest: String },
    InvocationDeclared {
        invocation: InvocationId,
        call: Option<ParentLink>,
        graph: String,
        sandbox: SandboxBinding,
        context: Fields,
        secret_bindings: SecretBindings,
        admission: Option<AttemptAdmission>,
    },
    ExecutionDeclared {
        execution: ExecutionId,
        invocation: InvocationId,
        predecessor: Option<ExecutionId>,
        execution_index: u32,
        entry: EntryPoint,
        context: Fields,
        prior_firings: Arc<Vec<(NodeId, u32)>>,
        max_executions: u32,
        middleware_state: MiddlewareState,
    },
    ExecutionFinished { execution: ExecutionId, exit: EngineExit },
    InvocationFinished { invocation: InvocationId, result: Arc<InvocationResult> },
    InvocationCancelRequested { invocation: InvocationId, reason: Option<CancelReason> },
    RunPaused,
    RunUnpaused,
    RunFinished { status: RunStatus },
    ScopeReleased {
        invocation: InvocationId,
        lease: SandboxLeaseId,
        scope: ScopeIdentity,
        workspace: String,
        provider: String,
        instance: Option<String>,
        outcome: ScopeOutcome,
        retained: bool,
        problems: Arc<Vec<String>>,
    },
    ExecutionStarted {
        entry: EntryPoint,
        execution_index: u32,
        context: Fields,
        prior_firings: Arc<Vec<(NodeId, u32)>>,
        max_executions: u32,
    },
    ExecutionAdmitted { decision: Admission, trace: Arc<Vec<String>> },
    AttemptAdmitted { decision: Admission, trace: Arc<Vec<String>> },
    AttemptStarted,
    AttemptFinished { outcome: Arc<Outcome> },
    RetryElapsed { next_attempt: Attempt },
    RoutesResolved { choices: Arc<Vec<RouteChoice>> },
    CancelRequested { scope: Option<CancelScopeId>, group: Option<NodeRef> },
    KillRequested { scope: CancelScopeId },
    ScopeAcquired { scope: ScopeId, detail: Json },
    ScopeFailed { scope: ScopeId, detail: Json },
    ControlDelivered { control: DeliveredControl },
    OutputLine { stream: LogStream, line: String },
    ArtifactRecorded { name: String, uri: String },
    /// A question a step asked, with the payload it asked it by.
    QuestionAsked { question: Arc<Question>, payload: Json },
    /// A question that expired, with the payload that said so.
    QuestionExpired { expired: Arc<QuestionExpired>, payload: Json },
    AgentActivity { activity: AgentActivity },
    StepCustom { value: Json },
    HostNote { kind: String, payload: Json },
    HookActivity { hook: HookOperation, activity: AgentActivity },
    BudgetPaused { remaining_ms: u64, pending_questions: u32 },
    BudgetResumed { remaining_ms: u64 },
    RouteApplied { applied: RouteApplied },
    NodeExpanded { node: NodeId },
    VisitStarted { inputs: Arc<Vec<Token>> },
    VisitCompleted { outcome: Arc<Outcome>, executed: bool, attempts: u32 },
    RetryScheduled { next_attempt: Attempt, base_delay_ms: u64 },
    WaitStateChanged { state: WaitState },
    ForkStarted { occurrence: ForkOccurrence, branches: Arc<Vec<BranchRef>> },
    BranchCompleted { occurrence: ForkOccurrence, result: BranchResult },
    ForkCompleted { occurrence: ForkOccurrence, disposition: ForkDisposition },
    StallTimeout { stall_timeout_ms: u64, idle_ms: u64 },
}

/// One event of a presented stream.
#[derive(Debug)]
pub struct PresentedEvent {
    pub id: EventId,
    pub origin: RecordOrigin,
    pub context: Context,
    pub subject: Option<Subject>,
    pub observed_at: Option<u64>,
    /// When the record was appended to its log. Absent for a record that
    /// never reached one.
    pub recorded_at: Option<u64>,
    pub body: EventBody,
}

/// The body a coordinator record is presented by. A digest is shown as its
/// text, and a run-level note as the note it is.
pub fn lifecycle_body(event: &CoordinatorEvent) -> (body: EventBody)
    ensures
        presents_lifecycle(body, *event),
{
    match event {
        CoordinatorEvent::RunStarted { format_version, key, root, middleware_chain, forked_from } =>
        EventBody::RunStarted {
            format_version: *format_version,
            key: key.clone(),
            root: *root,
            middleware_chain: share(middleware_chain),
            forked_from: match forked_from {
                Some(origin) => Some(origin.clone()),
                None => None,
            },
        },
        CoordinatorEvent::GraphRegistered { digest } => EventBody::GraphRegistered {
            digest: digest.text(),
        },
        CoordinatorEvent::InvocationDeclared {
            invocation,
            call,
            graph,
            context,
            secret_bindings,
            sandbox,
            admission,
        } => EventBody::InvocationDeclared {
            invocation: *invocation,
            call: match call {
                Some(call) => Some(ParentLink::of(call)),
                None => None,
            },
            graph: graph.text(),
            sandbox: *sandbox,
            context: share(context),
            secret_bindings: secret_bindings.clone(),
            admission: copy_admission(admission),
        },
        CoordinatorEvent::ExecutionDeclared {
            execution,
            invocation,
            predecessor,
            start,
            middleware_state,
        } => EventBody::ExecutionDeclared {
            execution: *execution,
            invocation: *invocation,
            predecessor: *predecessor,
            execution_index: start.execution_index,
            entry: start.entry,
            context: share(&start.context),
            prior_firings: share(&start.prior_firings),
            max_executions: start.max_executions,
            middleware_state: share(middleware_state),
        },
        CoordinatorEvent::ExecutionFinished { execution, exit } => EventBody::ExecutionFinished {
            execution: *execution,
            exit: *exit,
        },
        CoordinatorEvent::InvocationFinished { invocation, result } =>
        EventBody::InvocationFinished { invocation: *invocation, result: share(result) },
        CoordinatorEvent::InvocationCancelRequested { invocation, reason } =>
        EventBody::InvocationCancelRequested { invocation: *invocation, reason: *reason },
        CoordinatorEvent::RunPaused => EventBody::RunPaused,
        CoordinatorEvent::RunUnpaused => EventBody::RunUnpaused,
        CoordinatorEvent::RunNoteRecorded { execution: _, kind, payload } => EventBody::HostNote {
            kind: kind.clone(),
            payload: payload.clone(),
        },
        CoordinatorEvent::ScopeReleased {
            invocation,
            lease,
            scope,
            workspace,
            provider,
            instance,
            outcome,
            retained,
            problems,
        } => EventBody::ScopeReleased {
            invocation: *invocation,
            lease: *lease,
            scope: scope.clone(),
            workspace: workspace.clone(),
            provider: provider.clone(),
            instance: copy_text(instance),
            outcome: *outcome,
            retained: *retained,
            problems: share(problems),
        },
        CoordinatorEvent::RunFinished { status } => EventBody::RunFinished { status: *status },
    }
}

/// Whether a body presents a coordinator event.
pub open spec fn presents_lifecycle(body: EventBody, event: CoordinatorEvent) -> bool {
    match event {
        CoordinatorEvent::GraphRegistered { digest } => {
            body is GraphRegistered && body->GraphRegistered_digest@ == digest_text(digest)
        },
        CoordinatorEvent::InvocationDeclared {
            invocation,
            call,
            graph,
            context,
            secret_bindings,
            sandbox,
            admission,
        } => {
            body matches EventBody::InvocationDeclared {
                invocation: shown,
                call: link,
                graph: text,
                sandbox: bound,
                context: fields,
                secret_bindings: secrets,
                admission: gate,
            } && shown == invocation && link == (match call {
                Some(call) => Some(link_of(call)),
                None => None,
            }) && text@ == digest_text(graph) && bound == sandbox && fields == context && secrets
                == secret_bindings && gate == admission
        },
        CoordinatorEvent::RunNoteRecorded { execution, kind, payload } => body
            == (EventBody::HostNote { kind, payload }),
        CoordinatorEvent::RunStarted { format_version, key, root, middleware_chain, forked_from } =>
        body == (EventBody::RunStarted {
            format_version,
            key,
            root,
            middleware_chain,
            forked_from,
        }),
        CoordinatorEvent::ExecutionDeclared {
            execution,
            invocation,
            predecessor,
            start,
            middleware_state,
        } => body == (EventBody::ExecutionDeclared {
            execution,
            invocation,
            predecessor,
            execution_index: start.execution_index,
            entry: start.entry,
            context: start.context,
            prior_firings: start.prior_firings,
            max_executions: start.max_executions,
            middleware_state,
        }),
        CoordinatorEvent::ExecutionFinished { execution, exit } => body
            == (EventBody::ExecutionFinished { execution, exit }),
        CoordinatorEvent::InvocationFinished { invocation, result } => body
            == (EventBody::InvocationFinished { invocation, result }),
        CoordinatorEvent::InvocationCancelRequested { invocation, reason } => body
            == (EventBody::InvocationCancelRequested { invocation, reason }),
        CoordinatorEvent::RunPaused => body == EventBody::RunPaused,
        CoordinatorEvent::RunUnpaused => body == EventBody::RunUnpaused,
        CoordinatorEvent::ScopeReleased {
            invocation,
            lease,
            scope,
            workspace,
            provider,
            instance,
            outcome,
            retained,
            problems,
        } => body == (EventBody::ScopeReleased {
            invocation,
            lease,
            scope,
            workspace,
            provider,
            instance,
            outcome,
            retained,
            problems,
        }),
        CoordinatorEvent::RunFinished { status } => body == (EventBody::RunFinished { status }),
    }
}

/// The execution a run-level note names.
pub open spec fn noting_execution(event: CoordinatorEvent) -> Option<ExecutionId> {
    match event {
        CoordinatorEvent::RunNoteRecorded { execution, kind, payload } => execution,
        _ => None,
    }
}

/// Present a coordinator record: the one event it derives. A run-level note
/// names its execution in the event's context.
pub fn present_lifecycle(record: &CoordinatorRecord, context: &Context) -> (event: PresentedEvent)
    ensures
        event.id == (EventId { source: EventSource::Coordinator, seq: record.seq, index: 0 }),
        event.origin == origin_of(record.origin),
        event.subject is None,
        event.observed_at is None,
        event.recorded_at == Some(record.recorded_at),
        presents_lifecycle(event.body, *record.body),
        event.context.invocation == context.invocation,
        event.context.parent == context.parent,
        event.context.execution == (if *record.body is RunNoteRecorded {
            noting_execution(*record.body)
        } else {
            context.execution
        }),
        lifecycle_in(event) == Ok::<LifecycleView, InvertError>(
            LifecycleView {
                seq: record.seq,
                origin: EventOrigin::External,
                recorded_at: record.recorded_at,
                body: coordinator_view(*record.body),
            },
        ),
{
    let mut context = context.clone();
    if let CoordinatorEvent::RunNoteRecorded { execution, kind: _, payload: _ } = &*record.body {
        context.execution = *execution;
    }
    let event = PresentedEvent {
        id: EventId { source: EventSource::Coordinator, seq: record.seq, index: 0 },
        origin: RecordOrigin::of(record.origin),
        context,
        subject: None,
        observed_at: None,
        recorded_at: Some(record.recorded_at),
        body: lifecycle_body(&record.body),
    };
    proof {
        law_lifecycle_round_trip(event, *record);
    }
    event
}

/// Inverting the event a coordinator record is presented by gives the record
/// back.
pub proof fn law_lifecycle_round_trip(event: PresentedEvent, record: CoordinatorRecord)
    requires
        event.id.seq == record.seq,
        event.recorded_at == Some(record.recorded_at),
        presents_lifecycle(event.body, *record.body),
        *record.body is RunNoteRecorded ==> event.context.execution == noting_execution(
            *record.body,
        ),
    ensures
        lifecycle_in(event) == Ok::<LifecycleView, InvertError>(
            LifecycleView {
                seq: record.seq,
                origin: EventOrigin::External,
                recorded_at: record.recorded_at,
                body: coordinator_view(*record.body),
            },
        ),
{
    match *record.body {
        CoordinatorEvent::GraphRegistered { digest } => {
            law_digest_reads_back(digest);
        },
        CoordinatorEvent::InvocationDeclared { graph, .. } => {
            law_digest_reads_back(graph);
        },
        _ => {},
    }
}

/// The subject of an event about a firing, and about one of its attempts
/// when the event names one.
pub open spec fn about_firing(about: Subject, firing: FiringId, attempt: Option<Attempt>) -> Subject {
    Subject {
        node: about.node,
        firing: Some(firing),
        visit: about.visit,
        attempt,
        generation: about.generation,
        branch: about.branch,
    }
}

fn subject_of(about: &Subject, firing: FiringId, attempt: Option<Attempt>) -> (subject: Option<
    Subject,
>)
    ensures
        subject == Some(about_firing(*about, firing, attempt)),
{
    Some(
        Subject {
            node: about.node.clone(),
            firing: Some(firing),
            visit: about.visit,
            attempt,
            generation: about.generation,
            branch: about.branch,
        },
    )
}

fn choices_of(groups: &Vec<GroupDecision>) -> (choices: Vec<RouteChoice>)
    ensures
        choices@.map_values(|choice: RouteChoice| decision_of(choice)) == groups@,
        forall|i: int| 0 <= i < choices@.len() ==> (#[trigger] choices@[i]).target is None,
{
    let mut choices: Vec<RouteChoice> = Vec::new();
    let mut i: usize = 0;
    while i < groups.len()
        invariant
            i <= groups.len(),
            choices@.len() == i,
            forall|j: int| 0 <= j < i ==> #[trigger] decision_of(choices@[j]) == groups@[j],
            forall|j: int| 0 <= j < i ==> (#[trigger] choices@[j]).target is None,
        decreases groups.len() - i,
    {
        let group = &groups[i];
        choices.push(
            RouteChoice {
                group: group.group,
                draw: group.draw.clone(),
                trace: share(&group.trace),
                decision: group.decision.clone(),
                target: None,
            },
        );
        i = i + 1;
    }
    assert(choices@.map_values(|choice: RouteChoice| decision_of(choice)) =~= groups@);
    choices
}

/// Whether an engine event is one a host feeds, in a form a presentation
/// names: the core's own events and a decision under another kind's id are
/// not, nor a cancel of a group the graph does not hold.
pub open spec fn presentable(event: Event, graph: Graph) -> bool {
    match event {
        Event::AdmissionDecided { decision_id, decision, trace } => !(decision_id is Route),
        Event::RoutingResolved { decision_id, groups } => decision_id is Route,
        Event::ControlRequested { firing, ctl } => !(ctl is Other),
        Event::CancelRequested { target: CancelTarget::Group(node) } => graph.spec_node(
            node,
        ) is Some,
        Event::RouteApplied { .. } | Event::TokenEmitted { .. } | Event::NodeExpanded { .. } => false,
        _ => true,
    }
}

/// Present an external engine record: the first event it derives, about the
/// firing `about` describes. `None` for a record no presentation names.
pub fn present_engine(
    execution: ExecutionId,
    record: &EventRecord,
    recorded_at: Option<u64>,
    context: &Context,
    about: &Subject,
    graph: &Graph,
    reading: &StepReading,
) -> (event: Option<PresentedEvent>)
    ensures
        event is Some <==> presentable(*record.event, *graph),
        event matches Some(event) ==> {
            &&& event.id == (EventId {
                source: EventSource::Execution { execution },
                seq: record.seq,
                index: 0,
            })
            &&& event.origin == origin_of(record.origin)
            &&& event.context == *context
            &&& event.observed_at is None
            &&& event.recorded_at == recorded_at
            &&& engine_in(event) == Ok::<EngineView, InvertError>(engine_view(*record.event))
        },
{
    let (subject, body) = match &*record.event {
        Event::ExecutionStarted { start } => (
            None,
            EventBody::ExecutionStarted {
                entry: start.entry,
                execution_index: start.execution_index,
                context: share(&start.context),
                prior_firings: share(&start.prior_firings),
                max_executions: start.max_executions,
            },
        ),
        Event::AdmissionDecided { decision_id, decision, trace } => match decision_id {
            DecisionId::ExecutionStart => (
                None,
                EventBody::ExecutionAdmitted { decision: decision.clone(), trace: share(trace) },
            ),
            DecisionId::AttemptStart { firing, attempt } => (
                subject_of(about, *firing, Some(*attempt)),
                EventBody::AttemptAdmitted { decision: decision.clone(), trace: share(trace) },
            ),
            DecisionId::Route { firing: _, attempt: _ } => return None,
        },
        Event::StepStarted { firing, attempt } => (
            subject_of(about, *firing, Some(*attempt)),
            EventBody::AttemptStarted,
        ),
        Event::StepFinished { firing, attempt, outcome } => (
            subject_of(about, *firing, Some(*attempt)),
            EventBody::AttemptFinished { outcome: share(outcome) },
        ),
        Event::RetryElapsed { firing, next_attempt } => (
            subject_of(about, *firing, about.attempt),
            EventBody::RetryElapsed { next_attempt: *next_attempt },
        ),
        Event::RoutingResolved { decision_id, groups } => match decision_id {
            DecisionId::Route { firing, attempt } => (
                subject_of(about, *firing, Some(*attempt)),
                EventBody::RoutesResolved { choices: Arc::new(choices_of(groups)) },
            ),
            _ => return None,
        },
        Event::CancelRequested { target } => match target {
            CancelTarget::Scope(scope) => (
                None,
                EventBody::CancelRequested { scope: Some(*scope), group: None },
            ),
            CancelTarget::Group(node) => match graph.node(*node) {
                Some(found) => {
                    proof {
                        lemma_found_node(*graph, *node);
                    }
                    (
                        None,
                        EventBody::CancelRequested { scope: None, group: Some(node_ref(found)) },
                    )
                },
                None => return None,
            },
        },
        Event::KillRequested { scope } => (None, EventBody::KillRequested { scope: *scope }),
        Event::ScopeAcquired { scope, detail } => (
            None,
            EventBody::ScopeAcquired { scope: *scope, detail: detail.clone() },
        ),
        Event::ScopeFailed { scope, detail } => (
            None,
            EventBody::ScopeFailed { scope: *scope, detail: detail.clone() },
        ),
        Event::ControlRequested { firing, ctl } => {
            let control = match ctl {
                Control::Deliver(value) => DeliveredControl::Deliver { value: value.clone() },
                Control::Cancel => DeliveredControl::Cancel,
                Control::Kill => DeliveredControl::Kill,
                Control::Other => return None,
            };
            (
                subject_of(about, *firing, about.attempt),
                EventBody::ControlDelivered { control },
            )
        },
        Event::StepProgressRecorded { firing, ev } => (
            subject_of(about, *firing, about.attempt),
            match ev {
                StepEvent::Log { stream, line } => EventBody::OutputLine {
                    stream: *stream,
                    line: line.clone(),
                },
                StepEvent::Artifact { name, uri } => EventBody::ArtifactRecorded {
                    name: name.clone(),
                    uri: uri.clone(),
                },
                StepEvent::Custom(value) => match (&reading.question, &reading.expired) {
                    (Some(question), _) => EventBody::QuestionAsked {
                        question: share(question),
                        payload: value.clone(),
                    },
                    (None, Some(expired)) => EventBody::QuestionExpired {
                        expired: share(expired),
                        payload: value.clone(),
                    },
                    (None, None) => EventBody::StepCustom { value: value.clone() },
                },
            },
        ),
        _ => return None,
    };
    Some(
        PresentedEvent {
            id: EventId {
                source: EventSource::Execution { execution },
                seq: record.seq,
                index: 0,
            },
            origin: RecordOrigin::of(record.origin),
            context: context.clone(),
            subject,
            observed_at: None,
            recorded_at,
            body,
        },
    )
}

proof fn lemma_found_node(graph: Graph, id: NodeId)
    ensures
        graph.spec_node(id) matches Some(node) ==> node.id == id,
{
    lemma_first_matches(graph.nodes@, |node: Node| node.id == id);
}

proof fn lemma_first_matches<T>(s: Seq<T>, p: spec_fn(T) -> bool)
    ensures
        first_where(s, p) matches Some(found) ==> p(found),
    decreases s.len(),
{
    if s.len() > 0 {
        lemma_first_matches(s.drop_first(), p);
    }
}

} // verus!

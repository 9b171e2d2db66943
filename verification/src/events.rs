//! The public event contract: one versioned stream a host projects a run
//! from, built only from durable records.
//!
//! A public event carries its record, unchanged, plus what was derived
//! beside it. Every [`RunEvent`] is either a record's own event (`index` 0)
//! or a view event attached to one (`index` 1 and up), which has no record
//! and is marked [`RecordOrigin::Derived`].
//!
//! [`EventId`] is `(log, seq, index)`: the log the record came from, the
//! record's `seq` in that log, and the ordinal of this event among the
//! events one record produced. Within one log the order is total.

pub mod advances;
pub mod derivation;
pub mod export;
pub mod follow;
pub mod invert;
pub mod laws;
pub mod lossless;
pub mod presented;
pub mod projection;
pub mod projector;
pub mod replay;
pub mod same;
pub mod series;

use crate::event::{CoordinatorEvent, CoordinatorRecord, ParentCallKey};
use crate::ids::{Attempt, ExecutionId, FiringId, Generation, InvocationId, NodeId};
use crate::json::{lemma_members, members_of, Json, JsonNumber, JsonView, NumberView};
use crate::model::{EdgeTransition, Node, Outcome, Status, Token};
use crate::note::{Note, Parsed};
use crate::record::{Event, EventOrigin, StepEvent, StoredEngineRecord};
use crate::state::{BranchRef, BranchRole};
use crate::steps::Answer;
use std::sync::Arc;
use vstd::prelude::*;
use vstd::string::*;

verus! {

/// The version of this contract. Bump when an existing field changes meaning
/// or a variant is removed; adding a variant or an optional field does not.
pub const EVENT_CONTRACT_VERSION: u32 = 4;

/// Which durable log an event was derived from.
#[derive(Clone, Copy, Debug, PartialEq, Eq, PartialOrd, Ord, Hash, Structural)]
pub enum EventSource {
    Coordinator,
    Execution { execution: ExecutionId },
}

/// Who appended the record an event derives from, copied from the record;
/// or that the event has no record.
#[derive(Clone, Copy, Debug, PartialEq, Eq, Hash, Structural)]
pub enum RecordOrigin {
    /// The host fed the record. Replay consumes these.
    External,
    /// The core produced the record while draining. Replay regenerates these
    /// from the external records.
    Core,
    /// A view event: derived from the state alone, with no record of its
    /// own.
    Derived,
}

/// The origin of a record's own event.
pub open spec fn origin_of(origin: EventOrigin) -> RecordOrigin {
    match origin {
        EventOrigin::External => RecordOrigin::External,
        EventOrigin::Core => RecordOrigin::Core,
    }
}

impl RecordOrigin {
    /// The origin of a record's own event.
    pub fn of(origin: EventOrigin) -> (copy: RecordOrigin)
        ensures
            copy == origin_of(origin),
    {
        match origin {
            EventOrigin::External => RecordOrigin::External,
            EventOrigin::Core => RecordOrigin::Core,
        }
    }
}

/// A stable identity for deduplication: the log, the record's `seq` in it,
/// and which of the events derived from that record this is.
#[derive(Clone, Copy, Debug, PartialEq, Eq, PartialOrd, Ord, Hash, Structural)]
pub struct EventId {
    pub source: EventSource,
    /// The record's position in its log.
    pub seq: u64,
    /// `0` is the record's own event; the view events attached to the record
    /// follow at `1` and up.
    pub index: u32,
}

/// An event id as the stream writes it: the log's name, the execution of an
/// engine log, and the two numbers.
pub open spec fn id_value(id: EventId) -> JsonView {
    let seq = JsonView::Number(NumberView::Unsigned(id.seq));
    let index = JsonView::Number(NumberView::Unsigned(id.index as u64));
    JsonView::Object(
        match id.source {
            EventSource::Coordinator => seq![
                ("log"@, JsonView::Text("coordinator"@)),
                ("seq"@, seq),
                ("index"@, index),
            ],
            EventSource::Execution { execution } => seq![
                ("log"@, JsonView::Text("execution"@)),
                ("execution"@, JsonView::Number(NumberView::Unsigned(execution.0))),
                ("seq"@, seq),
                ("index"@, index),
            ],
        },
    )
}

impl EventId {
    /// The id as the stream writes it.
    pub fn to_value(&self) -> (value: Json)
        ensures
            value@ == id_value(*self),
    {
        let mut members: Vec<(String, Json)> = Vec::new();
        match self.source {
            EventSource::Coordinator => {
                members.push(("log".to_owned(), Json::Text("coordinator".to_owned())));
            },
            EventSource::Execution { execution } => {
                members.push(("log".to_owned(), Json::Text("execution".to_owned())));
                members.push(
                    ("execution".to_owned(), Json::Number(JsonNumber::Unsigned(execution.0))),
                );
            },
        }
        members.push(("seq".to_owned(), Json::Number(JsonNumber::Unsigned(self.seq))));
        members.push(("index".to_owned(), Json::Number(JsonNumber::Unsigned(self.index as u64))));
        proof {
            lemma_members(members@);
            assert(members_of(members@) =~= id_value(*self)->Object_0);
        }
        Json::Object(Arc::new(members))
    }
}

/// No two ids are written alike.
pub proof fn law_ids_are_written_apart(a: EventId, b: EventId)
    requires
        id_value(a) == id_value(b),
    ensures
        a == b,
{
    let x = id_value(a)->Object_0;
    let y = id_value(b)->Object_0;
    assert(x.len() == y.len());
    assert(x[1] == y[1] && x[2] == y[2]);
    if x.len() == 4 {
        assert(x[3] == y[3]);
    }
}

/// The firing that called a nested invocation.
#[derive(Debug)]
pub struct ParentLink {
    pub execution: ExecutionId,
    pub firing: FiringId,
    pub attempt: Attempt,
    pub slot: String,
}

impl Clone for ParentLink {
    fn clone(&self) -> (copy: ParentLink)
        ensures
            copy == *self,
    {
        ParentLink {
            execution: self.execution,
            firing: self.firing,
            attempt: self.attempt,
            slot: self.slot.clone(),
        }
    }
}

/// The link a call key names.
pub open spec fn link_of(key: ParentCallKey) -> ParentLink {
    ParentLink { execution: key.parent, firing: key.firing, attempt: key.attempt, slot: key.slot }
}

impl ParentLink {
    /// The link a call key names.
    pub fn of(key: &ParentCallKey) -> (link: ParentLink)
        ensures
            link == link_of(*key),
    {
        ParentLink {
            execution: key.parent,
            firing: key.firing,
            attempt: key.attempt,
            slot: key.slot.clone(),
        }
    }
}

/// Copy an optional link.
pub fn copy_link(link: &Option<ParentLink>) -> (copy: Option<ParentLink>)
    ensures
        copy == *link,
{
    match link {
        Some(link) => Some(link.clone()),
        None => None,
    }
}

/// Where an event sits in the run: its invocation and execution, and the
/// parent call for an event of a nested invocation.
#[derive(Debug)]
pub struct Context {
    pub invocation: Option<InvocationId>,
    pub execution: Option<ExecutionId>,
    pub parent: Option<ParentLink>,
}

impl Clone for Context {
    fn clone(&self) -> (copy: Context)
        ensures
            copy == *self,
    {
        Context {
            invocation: self.invocation,
            execution: self.execution,
            parent: copy_link(&self.parent),
        }
    }
}

/// A node, with the frontend's metadata so a host can tell a logical stage
/// from a synthetic lowering node without knowing the frontend.
#[derive(Debug)]
pub struct NodeRef {
    pub id: NodeId,
    /// The instance name.
    pub name: String,
    /// The step kind the node runs.
    pub kind: String,
    pub meta: Json,
}

impl Clone for NodeRef {
    fn clone(&self) -> (copy: NodeRef)
        ensures
            copy == *self,
    {
        NodeRef {
            id: self.id,
            name: self.name.clone(),
            kind: self.kind.clone(),
            meta: self.meta.clone(),
        }
    }
}

/// How an event names a node.
pub open spec fn ref_of(node: Node) -> NodeRef {
    NodeRef { id: node.id, name: node.name, kind: node.kind, meta: node.meta }
}

/// How an event names a node.
pub fn node_ref(node: &Node) -> (reference: NodeRef)
    ensures
        reference == ref_of(*node),
{
    NodeRef {
        id: node.id,
        name: node.name.clone(),
        kind: node.kind.clone(),
        meta: node.meta.clone(),
    }
}

/// What an event is about: one firing of one node, or the node alone.
#[derive(Debug)]
pub struct Subject {
    pub node: NodeRef,
    pub firing: Option<FiringId>,
    /// Which firing of the node this is within its execution, 1-based.
    pub visit: Option<u32>,
    pub attempt: Option<Attempt>,
    pub generation: Option<Generation>,
    pub branch: BranchRole,
}

impl Clone for Subject {
    fn clone(&self) -> (copy: Subject)
        ensures
            copy == *self,
    {
        Subject {
            node: self.node.clone(),
            firing: self.firing,
            visit: self.visit,
            attempt: self.attempt,
            generation: self.generation,
            branch: self.branch,
        }
    }
}

/// Copy an optional subject.
pub fn copy_subject(subject: &Option<Subject>) -> (copy: Option<Subject>)
    ensures
        copy == *subject,
{
    match subject {
        Some(subject) => Some(subject.clone()),
        None => None,
    }
}

/// The stored line a record's own event carries. The log it came from is
/// the event's [`EventId::source`].
#[derive(Debug)]
pub enum Record {
    Coordinator(CoordinatorRecord),
    Engine(StoredEngineRecord),
}

impl Record {
    /// The engine event, for an engine record.
    pub fn engine(&self) -> (event: Option<&Arc<Event>>)
        ensures
            event == (match *self {
                Record::Engine(record) => Some(&record.body),
                Record::Coordinator(_) => None,
            }),
    {
        match self {
            Record::Engine(record) => Some(&record.body),
            Record::Coordinator(_) => None,
        }
    }

    /// The coordinator event, for a coordinator record.
    pub fn coordinator(&self) -> (event: Option<&Arc<CoordinatorEvent>>)
        ensures
            event == (match *self {
                Record::Coordinator(record) => Some(&record.body),
                Record::Engine(_) => None,
            }),
    {
        match self {
            Record::Coordinator(record) => Some(&record.body),
            Record::Engine(_) => None,
        }
    }
}

/// One routing group's resolved target.
#[derive(Debug)]
pub struct GroupTarget {
    pub group: u32,
    /// The node an `emit` or `jump` decision leads to.
    pub target: Option<NodeRef>,
}

/// One expansion clone's entry.
#[derive(Debug)]
pub struct CloneRef {
    pub index: u32,
    pub entry: NodeRef,
}

/// Where a firing stands between records.
#[derive(Clone, Copy, Debug, PartialEq, Eq, Structural)]
pub enum WaitState {
    /// The host is deciding whether the attempt may start.
    AwaitingAdmission,
    Running,
    /// A question is out and no answer has arrived.
    AwaitingAnswer,
    /// Between attempts, waiting out the backoff.
    AwaitingRetry,
    /// Told to stop; the outcome is on its way.
    Cancelling,
}

/// One branch's result: the record of the last node that ran on the branch.
#[derive(Debug)]
pub struct BranchResult {
    pub branch: BranchRef,
    /// The last node on the branch.
    pub node: NodeRef,
    pub firing: FiringId,
    pub status: Status,
    /// The token payload the branch handed to the join: `null` when the join
    /// never fired.
    pub payload: Json,
}

impl Clone for BranchResult {
    fn clone(&self) -> (copy: BranchResult)
        ensures
            copy == *self,
    {
        BranchResult {
            branch: self.branch,
            node: self.node.clone(),
            firing: self.firing,
            status: self.status.clone(),
            payload: self.payload.clone(),
        }
    }
}

/// One occurrence of a fork: the firing of the fork node that opened it, in
/// its execution.
#[derive(Clone, Copy, Debug, PartialEq, Eq, Structural)]
pub struct ForkOccurrence {
    pub execution: ExecutionId,
    pub fork: NodeId,
    pub firing: FiringId,
    /// Which firing of the fork node this is within the execution, 1-based.
    pub visit: u32,
    pub generation: Generation,
}

/// How a fork's branches were closed.
#[derive(Clone, Copy, Debug, PartialEq, Eq, Structural)]
pub enum ForkDisposition {
    /// Every branch's token reached the join and the join fired.
    Joined,
    /// The join completed without running: its scope was cancelled, or every
    /// branch reached it cancelled.
    Cancelled,
    /// The fork's scope was killed and the join never fired.
    Killed,
}

/// The view events: the projection's incremental reading of the state,
/// never stored. Each is attached to the record whose apply produced it.
#[derive(Debug)]
pub enum ViewEvent {
    /// A node's join was satisfied and a firing exists, awaiting admission.
    VisitStarted { inputs: Arc<Vec<Token>> },
    /// A firing's final record exists: the node completed this visit.
    /// `executed` is false for a completion the engine synthesized.
    VisitCompleted { outcome: Arc<Outcome>, executed: bool, attempts: u32 },
    /// A non-final attempt returned and the next one is waiting out the
    /// backoff.
    RetryScheduled { next_attempt: Attempt, base_delay_ms: u64 },
    /// A firing's wait state changed.
    WaitStateChanged { state: WaitState },
    /// The routes of a fork node applied: its branches are starting.
    ForkStarted { occurrence: ForkOccurrence, branches: Vec<BranchRef> },
    /// A branch reached its end.
    BranchCompleted { occurrence: ForkOccurrence, result: BranchResult },
    /// The fork's branches are all accounted for, in branch order.
    ForkCompleted {
        occurrence: ForkOccurrence,
        fork: NodeRef,
        results: Vec<BranchResult>,
        disposition: ForkDisposition,
    },
    /// The stall watchdog cancelled the run.
    RunStalled { stall_timeout_ms: u64, idle_ms: u64 },
}

/// A view event's name in the public stream.
pub open spec fn view_name(view: ViewEvent) -> Seq<char> {
    match view {
        ViewEvent::VisitStarted { .. } => "visit.started"@,
        ViewEvent::VisitCompleted { .. } => "visit.completed"@,
        ViewEvent::RetryScheduled { .. } => "retry.scheduled"@,
        ViewEvent::WaitStateChanged { .. } => "wait.state.changed"@,
        ViewEvent::ForkStarted { .. } => "fork.started"@,
        ViewEvent::BranchCompleted { .. } => "branch.completed"@,
        ViewEvent::ForkCompleted { .. } => "fork.completed"@,
        ViewEvent::RunStalled { .. } => "run.stalled"@,
    }
}

impl ViewEvent {
    /// The event's name in the public stream.
    pub fn name(&self) -> (name: &'static str)
        ensures
            name@ == view_name(*self),
    {
        match self {
            ViewEvent::VisitStarted { .. } => "visit.started",
            ViewEvent::VisitCompleted { .. } => "visit.completed",
            ViewEvent::RetryScheduled { .. } => "retry.scheduled",
            ViewEvent::WaitStateChanged { .. } => "wait.state.changed",
            ViewEvent::ForkStarted { .. } => "fork.started",
            ViewEvent::BranchCompleted { .. } => "branch.completed",
            ViewEvent::ForkCompleted { .. } => "fork.completed",
            ViewEvent::RunStalled { .. } => "run.stalled",
        }
    }
}

/// A view event's name says what it is: two of one name are of one kind.
pub proof fn law_view_names_tell_kinds_apart(a: ViewEvent, b: ViewEvent)
    requires
        view_name(a) == view_name(b),
    ensures
        (a is VisitStarted) == (b is VisitStarted),
        (a is VisitCompleted) == (b is VisitCompleted),
        (a is RetryScheduled) == (b is RetryScheduled),
        (a is WaitStateChanged) == (b is WaitStateChanged),
        (a is ForkStarted) == (b is ForkStarted),
        (a is BranchCompleted) == (b is BranchCompleted),
        (a is ForkCompleted) == (b is ForkCompleted),
        (a is RunStalled) == (b is RunStalled),
{
    reveal_strlit("visit.started");
    reveal_strlit("visit.completed");
    reveal_strlit("retry.scheduled");
    reveal_strlit("wait.state.changed");
    reveal_strlit("fork.started");
    reveal_strlit("branch.completed");
    reveal_strlit("fork.completed");
    reveal_strlit("run.stalled");
    assert("visit.started"@.len() == 13);
    assert("visit.completed"@.len() == 15);
    assert("retry.scheduled"@.len() == 15);
    assert("wait.state.changed"@.len() == 18);
    assert("fork.started"@.len() == 12);
    assert("branch.completed"@.len() == 16);
    assert("fork.completed"@.len() == 14);
    assert("run.stalled"@.len() == 11);
    assert("visit.completed"@[0] == 'v');
    assert("retry.scheduled"@[0] == 'r');
    assert(view_name(a).len() == view_name(b).len());
    assert(view_name(a)[0] == view_name(b)[0]);
}

/// What was derived beside a record, or the view event an event is.
#[derive(Debug)]
pub enum Derived {
    /// A view event, on an event with no record.
    View(ViewEvent),
    /// `step.finished`: whether the engine recorded the attempt as the
    /// firing's outcome, and whether the retry policy allowed no further
    /// attempt while the status was retryable.
    StepFinished { is_final: bool, exhausted: bool },
    /// `routing.resolved`: the node each group's decision resolved to.
    RoutingResolved { groups: Vec<GroupTarget> },
    /// `route.applied`: the node the route leads to, and for an edge its
    /// transition and whether it is a `back` edge.
    RouteApplied { target: NodeRef, transition: Option<EdgeTransition>, back: Option<bool> },
    /// `node.expanded`: each clone's entry node.
    NodeExpanded { clones: Vec<CloneRef> },
    /// `control.requested`: whether the firing could receive the control,
    /// and the decoding of a delivered value that reads as an answer.
    ControlRequested { deliverable: bool, answer: Option<Arc<Answer>> },
    /// `step.progress.recorded` and `run.note.recorded`: the reading of a
    /// step protocol the run owns.
    Parsed { parsed: Parsed },
}

/// One event of the public stream.
#[derive(Debug)]
pub struct RunEvent {
    pub id: EventId,
    /// Copied from the record: who appended it. `Derived` for a view event.
    pub origin: RecordOrigin,
    pub context: Context,
    pub subject: Option<Subject>,
    /// Milliseconds since the Unix epoch when the projector saw the record
    /// live. Absent on replay.
    pub observed_at: Option<u64>,
    /// Milliseconds since the Unix epoch when the record this event derives
    /// from was appended to its log. The same live and on replay.
    pub recorded_at: u64,
    /// The stored line, unchanged, on a record's own event (`index` 0).
    pub record: Option<Record>,
    /// What was derived beside the record, or the view event itself.
    pub derived: Option<Derived>,
}

/// [`ViewEvent`] with its lists as sequences.
pub enum ViewModel {
    VisitStarted { inputs: Arc<Vec<Token>> },
    VisitCompleted { outcome: Arc<Outcome>, executed: bool, attempts: u32 },
    RetryScheduled { next_attempt: Attempt, base_delay_ms: u64 },
    WaitStateChanged { state: WaitState },
    ForkStarted { occurrence: ForkOccurrence, branches: Seq<BranchRef> },
    BranchCompleted { occurrence: ForkOccurrence, result: BranchResult },
    ForkCompleted {
        occurrence: ForkOccurrence,
        fork: NodeRef,
        results: Seq<BranchResult>,
        disposition: ForkDisposition,
    },
    RunStalled { stall_timeout_ms: u64, idle_ms: u64 },
}

impl View for ViewEvent {
    type V = ViewModel;

    open spec fn view(&self) -> ViewModel {
        match *self {
            ViewEvent::VisitStarted { inputs } => ViewModel::VisitStarted { inputs },
            ViewEvent::VisitCompleted { outcome, executed, attempts } => ViewModel::VisitCompleted {
                outcome,
                executed,
                attempts,
            },
            ViewEvent::RetryScheduled { next_attempt, base_delay_ms } => ViewModel::RetryScheduled {
                next_attempt,
                base_delay_ms,
            },
            ViewEvent::WaitStateChanged { state } => ViewModel::WaitStateChanged { state },
            ViewEvent::ForkStarted { occurrence, branches } => ViewModel::ForkStarted {
                occurrence,
                branches: branches@,
            },
            ViewEvent::BranchCompleted { occurrence, result } => ViewModel::BranchCompleted {
                occurrence,
                result,
            },
            ViewEvent::ForkCompleted { occurrence, fork, results, disposition } =>
                ViewModel::ForkCompleted { occurrence, fork, results: results@, disposition },
            ViewEvent::RunStalled { stall_timeout_ms, idle_ms } => ViewModel::RunStalled {
                stall_timeout_ms,
                idle_ms,
            },
        }
    }
}

/// [`CloneRef`] with its texts as sequences.
pub struct CloneModel {
    pub index: u32,
    pub entry: NodeId,
    pub name: Seq<char>,
    pub kind: Seq<char>,
    pub meta: Json,
}

impl View for CloneRef {
    type V = CloneModel;

    open spec fn view(&self) -> CloneModel {
        CloneModel {
            index: self.index,
            entry: self.entry.id,
            name: self.entry.name@,
            kind: self.entry.kind@,
            meta: self.entry.meta,
        }
    }
}

/// [`Derived`] with its lists as sequences.
pub enum DerivedModel {
    View(ViewModel),
    StepFinished { is_final: bool, exhausted: bool },
    RoutingResolved { groups: Seq<GroupTarget> },
    RouteApplied { target: NodeRef, transition: Option<EdgeTransition>, back: Option<bool> },
    NodeExpanded { clones: Seq<CloneModel> },
    ControlRequested { deliverable: bool, answer: Option<Arc<Answer>> },
    Parsed { parsed: Parsed },
}

impl View for Derived {
    type V = DerivedModel;

    open spec fn view(&self) -> DerivedModel {
        match *self {
            Derived::View(view) => DerivedModel::View(view@),
            Derived::StepFinished { is_final, exhausted } => DerivedModel::StepFinished {
                is_final,
                exhausted,
            },
            Derived::RoutingResolved { groups } => DerivedModel::RoutingResolved {
                groups: groups@,
            },
            Derived::RouteApplied { target, transition, back } => DerivedModel::RouteApplied {
                target,
                transition,
                back,
            },
            Derived::NodeExpanded { clones } => DerivedModel::NodeExpanded {
                clones: clones@.map_values(|clone: CloneRef| clone@),
            },
            Derived::ControlRequested { deliverable, answer } => DerivedModel::ControlRequested {
                deliverable,
                answer,
            },
            Derived::Parsed { parsed } => DerivedModel::Parsed { parsed },
        }
    }
}

/// [`RunEvent`] with its lists as sequences.
pub struct EventModel {
    pub id: EventId,
    pub origin: RecordOrigin,
    pub context: Context,
    pub subject: Option<Subject>,
    pub observed_at: Option<u64>,
    pub recorded_at: u64,
    pub record: Option<Record>,
    pub derived: Option<DerivedModel>,
}

/// An optional derivation with its lists as sequences.
pub open spec fn derived_model(derived: Option<Derived>) -> Option<DerivedModel> {
    match derived {
        Some(derived) => Some(derived@),
        None => None,
    }
}

impl RunEvent {
    /// The event with its lists as sequences.
    pub open spec fn model(&self) -> EventModel {
        EventModel {
            id: self.id,
            origin: self.origin,
            context: self.context,
            subject: self.subject,
            observed_at: self.observed_at,
            recorded_at: self.recorded_at,
            record: self.record,
            derived: derived_model(self.derived),
        }
    }
}

/// The events of a list, each with its lists as sequences.
pub open spec fn event_models(events: Seq<RunEvent>) -> Seq<EventModel> {
    events.map_values(|event: RunEvent| event.model())
}

impl RunEvent {
    /// The engine event of an engine record's own event.
    pub open spec fn spec_engine(&self) -> Option<Arc<Event>> {
        match self.record {
            Some(Record::Engine(record)) => Some(record.body),
            _ => None,
        }
    }

    /// The reading of a step protocol the event carries.
    pub open spec fn spec_parsed(&self) -> Option<Parsed> {
        match self.derived {
            Some(Derived::Parsed { parsed }) => Some(parsed),
            _ => None,
        }
    }

    /// The engine event of an engine record's own event.
    pub fn engine(&self) -> (event: Option<&Arc<Event>>)
        ensures
            event == (match self.spec_engine() {
                Some(event) => Some(&event),
                None => None,
            }),
    {
        match &self.record {
            Some(record) => record.engine(),
            None => None,
        }
    }

    /// The coordinator event of a coordinator record's own event.
    pub fn coordinator(&self) -> (event: Option<&Arc<CoordinatorEvent>>)
        ensures
            event == (match self.record {
                Some(Record::Coordinator(record)) => Some(&record.body),
                _ => None,
            }),
    {
        match &self.record {
            Some(record) => record.coordinator(),
            None => None,
        }
    }

    /// The view event, for an event that is one.
    pub fn view(&self) -> (view: Option<&ViewEvent>)
        ensures
            view == (match self.derived {
                Some(Derived::View(view)) => Some(&view),
                _ => None,
            }),
    {
        match &self.derived {
            Some(Derived::View(view)) => Some(view),
            _ => None,
        }
    }

    /// The reading of a step protocol the run owns.
    pub fn parsed(&self) -> (parsed: Option<&Parsed>)
        ensures
            parsed == (match self.spec_parsed() {
                Some(parsed) => Some(&parsed),
                None => None,
            }),
    {
        match &self.derived {
            Some(Derived::Parsed { parsed }) => Some(parsed),
            _ => None,
        }
    }

    /// The step-defined payload of a `step.progress.recorded` event, as
    /// recorded.
    pub fn custom(&self) -> (value: Option<&Json>)
        ensures
            value == (match self.spec_engine() {
                Some(event) => match *event {
                    Event::StepProgressRecorded { firing, ev: StepEvent::Custom(value) } => Some(
                        &value,
                    ),
                    _ => None,
                },
                None => None,
            }),
    {
        match self.engine() {
            Some(event) => match &**event {
                Event::StepProgressRecorded { firing: _, ev: StepEvent::Custom(value) } => Some(
                    value,
                ),
                _ => None,
            },
            None => None,
        }
    }

    /// The note the event carries, when it is one.
    pub fn note(&self) -> (note: Option<&Note>)
        ensures
            note == (match self.spec_parsed() {
                Some(Parsed::Note { note, hook_activity, budget }) => Some(&note),
                _ => None,
            }),
    {
        match self.parsed() {
            Some(Parsed::Note { note, hook_activity: _, budget: _ }) => Some(note),
            _ => None,
        }
    }
}

} // verus!

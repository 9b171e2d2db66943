//! The records of an execution's engine log.

use crate::ids::{Attempt, CancelScopeId, EdgeId, FiringId, Generation, NodeId, ScopeId};
use crate::json::{share, Json};
use crate::model::{Fields, Node, Outcome, RunStatus, Token};
use std::sync::Arc;
use vstd::prelude::*;

verus! {

/// Who appended a record to an engine log.
#[derive(Clone, Copy, Debug, PartialEq, Eq, Structural)]
pub enum EventOrigin {
    /// The host fed it.
    External,
    /// The core produced it while draining.
    Core,
}

/// Where an execution enters its graph.
#[derive(Clone, Copy, Debug, PartialEq, Eq, Structural)]
pub enum EntryPoint {
    GraphEntries,
    Node(NodeId),
}

/// What an execution starts with.
#[derive(Debug)]
pub struct EngineStart {
    pub entry: EntryPoint,
    pub context: Fields,
    pub prior_firings: Arc<Vec<(NodeId, u32)>>,
    pub execution_index: u32,
    pub max_executions: u32,
}

impl Clone for EngineStart {
    fn clone(&self) -> (copy: EngineStart)
        ensures
            copy == *self,
    {
        EngineStart {
            entry: self.entry,
            context: share(&self.context),
            prior_firings: share(&self.prior_firings),
            execution_index: self.execution_index,
            max_executions: self.max_executions,
        }
    }
}

/// How an execution ended.
#[derive(Clone, Copy, Debug, PartialEq, Eq, Structural)]
pub enum EngineExit {
    Terminal { status: RunStatus },
    Restart { edge: EdgeId, target: NodeId, source: FiringId },
}

/// A decision the engine asks the host for.
#[derive(Clone, Copy, Debug, PartialEq, Eq, Structural)]
pub enum DecisionId {
    ExecutionStart,
    AttemptStart { firing: FiringId, attempt: Attempt },
    Route { firing: FiringId, attempt: Attempt },
}

/// Whether an attempt may start.
#[derive(Debug)]
pub enum Admission {
    Admit,
    Skip { outcome: Arc<Outcome> },
    Block { reason: String },
}

impl Clone for Admission {
    fn clone(&self) -> (copy: Admission)
        ensures
            copy == *self,
    {
        match self {
            Admission::Admit => Admission::Admit,
            Admission::Skip { outcome } => Admission::Skip { outcome: share(outcome) },
            Admission::Block { reason } => Admission::Block { reason: reason.clone() },
        }
    }
}

/// Where a routing group leads.
#[derive(Debug)]
pub enum RouteDecision {
    Emit(EdgeId),
    Jump(NodeId),
    Nothing,
    Block { reason: String },
}

impl Clone for RouteDecision {
    fn clone(&self) -> (copy: RouteDecision)
        ensures
            copy == *self,
    {
        match self {
            RouteDecision::Emit(edge) => RouteDecision::Emit(*edge),
            RouteDecision::Jump(node) => RouteDecision::Jump(*node),
            RouteDecision::Nothing => RouteDecision::Nothing,
            RouteDecision::Block { reason } => RouteDecision::Block { reason: reason.clone() },
        }
    }
}

/// What a middleware did to a routing group's decision.
#[derive(Debug)]
pub enum Intervention {
    Override { middleware: String, edge: EdgeId },
    Jump { middleware: String, target: NodeId },
    Block { middleware: String, reason: String },
}

impl Clone for Intervention {
    fn clone(&self) -> (copy: Intervention)
        ensures
            copy == *self,
    {
        match self {
            Intervention::Override { middleware, edge } => Intervention::Override {
                middleware: middleware.clone(),
                edge: *edge,
            },
            Intervention::Jump { middleware, target } => Intervention::Jump {
                middleware: middleware.clone(),
                target: *target,
            },
            Intervention::Block { middleware, reason } => Intervention::Block {
                middleware: middleware.clone(),
                reason: reason.clone(),
            },
        }
    }
}

/// One routing group's decision, with its draw and what middleware did.
#[derive(Debug)]
pub struct GroupDecision {
    pub group: u32,
    pub draw: Json,
    pub trace: Arc<Vec<Intervention>>,
    pub decision: RouteDecision,
}

/// A route the core applied.
#[derive(Clone, Copy, Debug, PartialEq, Eq, Structural)]
pub enum RouteApplied {
    Edge { firing: FiringId, edge: EdgeId, group: u32 },
    Jump { firing: FiringId, target: NodeId },
    Nothing { firing: FiringId, group: u32 },
}

impl RouteApplied {
    /// The firing whose route it is.
    #[verifier::allow_in_spec]
    pub fn firing(&self) -> FiringId
        returns
            (match *self {
                RouteApplied::Edge { firing, edge, group } => firing,
                RouteApplied::Jump { firing, target } => firing,
                RouteApplied::Nothing { firing, group } => firing,
            }),
    {
        match *self {
            RouteApplied::Edge { firing, edge: _, group: _ } => firing,
            RouteApplied::Jump { firing, target: _ } => firing,
            RouteApplied::Nothing { firing, group: _ } => firing,
        }
    }
}

/// A control delivered to a firing.
#[derive(Debug)]
pub enum Control {
    Deliver(Json),
    Cancel,
    Kill,
    Other,
}

impl Clone for Control {
    fn clone(&self) -> (copy: Control)
        ensures
            copy == *self,
    {
        match self {
            Control::Deliver(value) => Control::Deliver(value.clone()),
            Control::Cancel => Control::Cancel,
            Control::Kill => Control::Kill,
            Control::Other => Control::Other,
        }
    }
}

/// A step's output stream.
#[derive(Clone, Copy, Debug, PartialEq, Eq, Structural)]
pub enum LogStream {
    Stdout,
    Stderr,
}

/// What a step reports while it runs.
#[derive(Debug)]
pub enum StepEvent {
    Log { stream: LogStream, line: String },
    Artifact { name: String, uri: String },
    Custom(Json),
}

impl Clone for StepEvent {
    fn clone(&self) -> (copy: StepEvent)
        ensures
            copy == *self,
    {
        match self {
            StepEvent::Log { stream, line } => StepEvent::Log { stream: *stream, line: line.clone() },
            StepEvent::Artifact { name, uri } => StepEvent::Artifact {
                name: name.clone(),
                uri: uri.clone(),
            },
            StepEvent::Custom(value) => StepEvent::Custom(value.clone()),
        }
    }
}

/// One clone of an expanded template. `placeholder` is whether its item is
/// the one an empty list expands to.
#[derive(Debug)]
pub struct SpliceClone {
    pub index: u32,
    pub entry: NodeId,
    pub nodes: Vec<Node>,
    pub placeholder: bool,
}

/// The clones an expansion added to the graph.
#[derive(Debug)]
pub struct SubgraphSplice {
    pub generation: Generation,
    pub clones: Vec<SpliceClone>,
}

/// What a cancel is aimed at.
#[derive(Clone, Copy, Debug, PartialEq, Eq, Structural)]
pub enum CancelTarget {
    Scope(CancelScopeId),
    Group(NodeId),
}

/// An engine event.
#[allow(inconsistent_fields)]
#[derive(Debug)]
pub enum Event {
    ExecutionStarted { start: EngineStart },
    AdmissionDecided { decision_id: DecisionId, decision: Admission, trace: Arc<Vec<String>> },
    StepStarted { firing: FiringId, attempt: Attempt },
    StepProgressRecorded { firing: FiringId, ev: StepEvent },
    StepFinished { firing: FiringId, attempt: Attempt, outcome: Arc<Outcome> },
    RetryElapsed { firing: FiringId, next_attempt: Attempt },
    RoutingResolved { decision_id: DecisionId, groups: Arc<Vec<GroupDecision>> },
    RouteApplied { applied: RouteApplied },
    TokenEmitted { token: Arc<Token> },
    NodeExpanded { node: NodeId, splice: Arc<SubgraphSplice> },
    ControlRequested { firing: FiringId, ctl: Control },
    CancelRequested { target: CancelTarget },
    KillRequested { scope: CancelScopeId },
    ScopeAcquired { scope: ScopeId, detail: Json },
    ScopeFailed { scope: ScopeId, detail: Json },
}

/// One record of an engine log, before it is stored.
#[derive(Debug)]
pub struct EventRecord {
    pub seq: u64,
    pub origin: EventOrigin,
    pub event: Arc<Event>,
}

impl Clone for EventRecord {
    fn clone(&self) -> (copy: EventRecord)
        ensures
            copy == *self,
    {
        EventRecord { seq: self.seq, origin: self.origin, event: share(&self.event) }
    }
}

/// One stored engine record: the core's record with the recording time
/// beside it. The public event stream carries this same line, unchanged.
#[derive(Debug)]
pub struct StoredEngineRecord {
    pub seq: u64,
    pub origin: EventOrigin,
    /// Milliseconds since the Unix epoch when the record was appended.
    pub recorded_at: u64,
    pub body: Arc<Event>,
}

impl Clone for StoredEngineRecord {
    fn clone(&self) -> (copy: StoredEngineRecord)
        ensures
            copy == *self,
    {
        StoredEngineRecord {
            seq: self.seq,
            origin: self.origin,
            recorded_at: self.recorded_at,
            body: share(&self.body),
        }
    }
}

/// The event a record carries.
pub open spec fn event_of(record: EventRecord) -> Event {
    *record.event
}

/// The stored form of a record.
pub open spec fn stored(record: EventRecord, recorded_at: u64) -> StoredEngineRecord {
    StoredEngineRecord {
        seq: record.seq,
        origin: record.origin,
        recorded_at,
        body: record.event,
    }
}

impl StoredEngineRecord {
    /// The stored form of `record`, recorded at `recorded_at`.
    pub fn new(record: &EventRecord, recorded_at: u64) -> (line: StoredEngineRecord)
        ensures
            line == stored(*record, recorded_at),
    {
        StoredEngineRecord {
            seq: record.seq,
            origin: record.origin,
            recorded_at,
            body: share(&record.event),
        }
    }

    /// The record and its recording time.
    pub fn into_parts(self) -> (parts: (EventRecord, u64))
        ensures
            stored(parts.0, parts.1) == self,
    {
        (
            EventRecord { seq: self.seq, origin: self.origin, event: self.body },
            self.recorded_at,
        )
    }
}

/// Storing a record and taking it apart gives the record and its time back.
pub proof fn law_stored_parts(record: EventRecord, recorded_at: u64, other: EventRecord, at: u64)
    requires
        stored(other, at) == stored(record, recorded_at),
    ensures
        other == record,
        at == recorded_at,
{
}

} // verus!

//! Read-only reconstruction of a run: the inspection document.
//!
//! Nothing incomplete is presented as a final snapshot. `complete` is true
//! only when the run recorded its finish, every log decoded whole, and every
//! execution's replay reproduced its log byte for byte. Anything less is
//! listed under `incomplete`, and the document still says what the logs do
//! support.

use crate::event::{
    CancelReason, CoordinatorEvent, CoordinatorRecord, InvocationResult, SandboxBinding,
    SecretBinding, SecretBindings, COORDINATOR_FORMAT_VERSION,
};
use crate::ids::{ExecutionId, FiringId, GraphDigest, InvocationId, NodeId};
use crate::interview::InterviewReceipt;
use crate::json::{share, Json};
use crate::model::{copy_failure, FailureInfo, Fields, Graph, RunStatus};
use crate::record::{Control, EngineExit, EntryPoint, Event, EventRecord, RouteApplied};
use crate::run_state::{
    CoordinatorState, ExecutionState, InvocationState, RunNote, StateError,
};
use crate::search::{lemma_lookup_absent, lemma_lookup_found, lookup};
use crate::state::{EngineState, HistoryEntry, LiveFiring, NodeRecord};
use crate::table::Table;
use crate::text::{decimal, join, join3, number, same};
use std::sync::Arc;
use vstd::prelude::*;

verus! {

/// The version of the [`RunInspection`] document. Bumped whenever a field
/// changes shape or meaning.
pub const INSPECT_FORMAT_VERSION: u32 = 3;

/// A run status's name.
pub open spec fn status_name(status: RunStatus) -> &'static str {
    match status {
        RunStatus::Success => "success",
        RunStatus::Failed => "failed",
        RunStatus::Cancelled => "cancelled",
    }
}

/// A run status's name.
pub fn name_of_status(status: RunStatus) -> (name: &'static str)
    ensures
        name == status_name(status),
{
    match status {
        RunStatus::Success => "success",
        RunStatus::Failed => "failed",
        RunStatus::Cancelled => "cancelled",
    }
}

// ── The engine's part ──────────────────────────────────────────────────

/// How an execution ended.
#[derive(Debug)]
pub enum ExitInspection {
    Terminal {
        /// `success`, `failed` or `cancelled`.
        status: &'static str,
    },
    Restart { edge: u32, target: u32, target_name: Option<String>, source_firing: u64 },
}

/// The engine's node-instance record: what one instance left behind.
#[derive(Debug)]
pub struct NodeInspection {
    /// The final attempt's status tag.
    pub status: String,
    pub success_like: bool,
    pub failure: Option<FailureInfo>,
    pub output: Json,
    /// The latest generation to complete.
    pub generation: u32,
    /// How many attempts the final firing took.
    pub attempts: u32,
}

/// One final firing record.
#[derive(Debug)]
pub struct HistoryInspection {
    pub firing: u64,
    pub node: String,
    pub node_id: u32,
    pub generation: u32,
    pub attempt: u32,
    pub status: String,
    pub failure: Option<FailureInfo>,
    pub output: Json,
    pub context_updates: Fields,
}

/// One `StepFinished` record, whichever attempt it was.
#[derive(Debug)]
pub struct AttemptInspection {
    /// The record's position in the execution's log.
    pub seq: u64,
    pub firing: u64,
    pub node: Option<String>,
    pub generation: Option<u32>,
    pub attempt: u32,
    pub status: String,
    pub failure: Option<FailureInfo>,
    /// True when this outcome is the firing's routing-visible one.
    pub is_final: bool,
}

/// One applied route.
#[derive(Debug)]
pub struct RouteInspection {
    pub seq: u64,
    pub firing: u64,
    pub node: Option<String>,
    /// `edge`, `jump` or `none`.
    pub kind: &'static str,
    pub group: Option<u32>,
    pub edge: Option<u32>,
    /// The node the route led to.
    pub target: Option<String>,
}

/// One `ControlRequested` record.
#[derive(Debug)]
pub struct DeliveryInspection {
    pub seq: u64,
    pub firing: u64,
    pub node: Option<String>,
    /// `deliver`, `cancel`, `kill`, or `other` for a control with no name.
    pub kind: &'static str,
    /// The delivered value, for `deliver`.
    pub payload: Option<Json>,
}

/// A firing the log leaves live.
#[derive(Debug)]
pub struct LiveInspection {
    pub firing: u64,
    pub node: Option<String>,
    pub generation: u32,
    pub attempt: u32,
    pub started: bool,
    pub awaiting_retry: bool,
    pub cancelling: bool,
}

/// The run context expressions saw: `kv.*` and `nodes.*`.
#[derive(Debug)]
pub struct ContextInspection {
    pub kv: Fields,
    /// Keyed by node instance name.
    pub nodes: Vec<(String, NodeInspection)>,
}

/// What replaying one execution's log yields.
#[derive(Debug)]
pub struct EngineInspection {
    pub started: bool,
    pub finished: bool,
    /// The root cancel scope was cancelled.
    pub cancelled: bool,
    /// The exit replay derived. Compare with the coordinator's `exit`.
    pub exit: Option<ExitInspection>,
    /// The run status folded from node outcomes as the state stands.
    pub folded_status: &'static str,
    /// Engine errors, rendered.
    pub errors: Vec<String>,
    pub context: ContextInspection,
    /// Every final firing record in completion order.
    pub history: Vec<HistoryInspection>,
    /// Every `StepFinished` record, final or not, in log order. Retries show
    /// up here and nowhere else.
    pub attempts: Vec<AttemptInspection>,
    /// Every applied route, in log order.
    pub routes: Vec<RouteInspection>,
    /// Every control delivered into a firing, in log order.
    pub deliveries: Vec<DeliveryInspection>,
    /// Firings still live when the log ends.
    pub live: Vec<LiveInspection>,
}

/// A node's instance name.
pub open spec fn name_at(graph: Graph, node: NodeId) -> Option<String> {
    match graph.spec_node(node) {
        Some(node) => Some(node.name),
        None => None,
    }
}

/// How the document names an exit.
pub open spec fn exit_row(exit: EngineExit, graph: Graph) -> ExitInspection {
    match exit {
        EngineExit::Terminal { status } => ExitInspection::Terminal { status: status_name(status) },
        EngineExit::Restart { edge, target, source } => ExitInspection::Restart {
            edge: edge.0,
            target: target.0,
            target_name: name_at(graph, target),
            source_firing: source.0,
        },
    }
}

/// Where a firing stood: its final record when it has one, else its live
/// one.
pub open spec fn firing_at(state: EngineState, firing: FiringId) -> Option<(NodeId, u32)> {
    match state.spec_record(firing) {
        Some(entry) => Some((entry.node, entry.generation.0)),
        None => match state.spec_firing(firing) {
            Some(live) => Some((live.node, live.generation.0)),
            None => None,
        },
    }
}

/// The instance name of a firing's node.
pub open spec fn node_of(state: EngineState, firing: FiringId) -> Option<String> {
    match firing_at(state, firing) {
        Some(at) => name_at(state.graph, at.0),
        None => None,
    }
}

/// A node record as a row.
pub open spec fn node_row(record: NodeRecord) -> NodeInspection {
    NodeInspection {
        status: record.status.tag,
        success_like: record.status.success_like,
        failure: record.status.failure,
        output: record.output,
        generation: record.generation.0,
        attempts: record.attempts,
    }
}

/// A final firing record as a row.
pub open spec fn history_row(entry: HistoryEntry) -> HistoryInspection {
    HistoryInspection {
        firing: entry.firing.0,
        node: entry.name,
        node_id: entry.node.0,
        generation: entry.generation.0,
        attempt: entry.attempt.0,
        status: entry.outcome.status.tag,
        failure: entry.outcome.status.failure,
        output: entry.outcome.output,
        context_updates: entry.outcome.context_updates,
    }
}

/// A live firing as a row.
pub open spec fn live_row(state: EngineState, live: LiveFiring) -> LiveInspection {
    LiveInspection {
        firing: live.id.0,
        node: name_at(state.graph, live.node),
        generation: live.generation.0,
        attempt: live.attempt.0,
        started: live.started,
        awaiting_retry: live.awaiting_retry,
        cancelling: live.cancelling,
    }
}

/// The row of a `StepFinished` record.
pub open spec fn attempt_row(state: EngineState, record: EventRecord) -> Option<AttemptInspection> {
    match *record.event {
        Event::StepFinished { firing, attempt, outcome } => Some(
            AttemptInspection {
                seq: record.seq,
                firing: firing.0,
                node: node_of(state, firing),
                generation: match firing_at(state, firing) {
                    Some(at) => Some(at.1),
                    None => None,
                },
                attempt: attempt.0,
                status: outcome.status.tag,
                failure: outcome.status.failure,
                is_final: state.spec_is_final(firing, attempt),
            },
        ),
        _ => None,
    }
}

/// The row of a `RouteApplied` record.
pub open spec fn route_row(state: EngineState, record: EventRecord) -> Option<RouteInspection> {
    match *record.event {
        Event::RouteApplied { applied } => Some(
            match applied {
                RouteApplied::Edge { firing, edge, group } => RouteInspection {
                    seq: record.seq,
                    firing: firing.0,
                    node: node_of(state, firing),
                    kind: "edge",
                    group: Some(group),
                    edge: Some(edge.0),
                    target: match state.graph.spec_edge(edge) {
                        Some(edge) => name_at(state.graph, edge.to),
                        None => None,
                    },
                },
                RouteApplied::Jump { firing, target } => RouteInspection {
                    seq: record.seq,
                    firing: firing.0,
                    node: node_of(state, firing),
                    kind: "jump",
                    group: None,
                    edge: None,
                    target: name_at(state.graph, target),
                },
                RouteApplied::Nothing { firing, group } => RouteInspection {
                    seq: record.seq,
                    firing: firing.0,
                    node: node_of(state, firing),
                    kind: "none",
                    group: Some(group),
                    edge: None,
                    target: None,
                },
            },
        ),
        _ => None,
    }
}

/// The row of a `ControlRequested` record.
pub open spec fn delivery_row(state: EngineState, record: EventRecord) -> Option<
    DeliveryInspection,
> {
    match *record.event {
        Event::ControlRequested { firing, ctl } => Some(
            DeliveryInspection {
                seq: record.seq,
                firing: firing.0,
                node: node_of(state, firing),
                kind: match ctl {
                    Control::Deliver(_) => "deliver",
                    Control::Cancel => "cancel",
                    Control::Kill => "kill",
                    Control::Other => "other",
                },
                payload: match ctl {
                    Control::Deliver(value) => Some(value),
                    _ => None,
                },
            },
        ),
        _ => None,
    }
}

/// The attempts a log holds, in log order.
pub open spec fn attempt_rows(state: EngineState, log: Seq<EventRecord>) -> Seq<AttemptInspection>
    decreases log.len(),
{
    if log.len() == 0 {
        Seq::empty()
    } else {
        match attempt_row(state, log.last()) {
            Some(row) => attempt_rows(state, log.drop_last()).push(row),
            None => attempt_rows(state, log.drop_last()),
        }
    }
}

/// The applied routes a log holds, in log order.
pub open spec fn route_rows(state: EngineState, log: Seq<EventRecord>) -> Seq<RouteInspection>
    decreases log.len(),
{
    if log.len() == 0 {
        Seq::empty()
    } else {
        match route_row(state, log.last()) {
            Some(row) => route_rows(state, log.drop_last()).push(row),
            None => route_rows(state, log.drop_last()),
        }
    }
}

/// The deliveries a log holds, in log order.
pub open spec fn delivery_rows(state: EngineState, log: Seq<EventRecord>) -> Seq<DeliveryInspection>
    decreases log.len(),
{
    if log.len() == 0 {
        Seq::empty()
    } else {
        match delivery_row(state, log.last()) {
            Some(row) => delivery_rows(state, log.drop_last()).push(row),
            None => delivery_rows(state, log.drop_last()),
        }
    }
}

fn node_name(graph: &Graph, node: NodeId) -> (name: Option<String>)
    ensures
        name == name_at(*graph, node),
{
    match graph.node(node) {
        Some(node) => Some(node.name.clone()),
        None => None,
    }
}

/// How the document names an exit.
pub fn exit_inspection(exit: &EngineExit, graph: &Graph) -> (row: ExitInspection)
    ensures
        row == exit_row(*exit, *graph),
{
    match *exit {
        EngineExit::Terminal { status } => ExitInspection::Terminal {
            status: name_of_status(status),
        },
        EngineExit::Restart { edge, target, source } => ExitInspection::Restart {
            edge: edge.0,
            target: target.0,
            target_name: node_name(graph, target),
            source_firing: source.0,
        },
    }
}

fn place_of(state: &EngineState, firing: FiringId) -> (at: Option<(NodeId, u32)>)
    ensures
        at == firing_at(*state, firing),
{
    match state.record(firing) {
        Some(entry) => Some((entry.node, entry.generation.0)),
        None => match state.firing(firing) {
            Some(live) => Some((live.node, live.generation.0)),
            None => None,
        },
    }
}

fn name_of_firing(state: &EngineState, firing: FiringId) -> (name: Option<String>)
    ensures
        name == node_of(*state, firing),
{
    match place_of(state, firing) {
        Some(at) => node_name(&state.graph, at.0),
        None => None,
    }
}

fn route(state: &EngineState, seq: u64, applied: &RouteApplied) -> (row: RouteInspection)
    ensures
        forall|record: EventRecord|
            record.seq == seq && *record.event == (Event::RouteApplied { applied: *applied })
                ==> #[trigger] route_row(*state, record) == Some(row),
{
    let firing = applied.firing();
    let node = name_of_firing(state, firing);
    match *applied {
        RouteApplied::Edge { firing: _, edge, group } => RouteInspection {
            seq,
            firing: firing.0,
            node,
            kind: "edge",
            group: Some(group),
            edge: Some(edge.0),
            target: match state.graph.edge(edge) {
                Some(edge) => node_name(&state.graph, edge.to),
                None => None,
            },
        },
        RouteApplied::Jump { firing: _, target } => RouteInspection {
            seq,
            firing: firing.0,
            node,
            kind: "jump",
            group: None,
            edge: None,
            target: node_name(&state.graph, target),
        },
        RouteApplied::Nothing { firing: _, group } => RouteInspection {
            seq,
            firing: firing.0,
            node,
            kind: "none",
            group: Some(group),
            edge: None,
            target: None,
        },
    }
}

/// What replaying one execution's log yields.
pub fn inspect_engine(state: &EngineState, log: &Vec<EventRecord>) -> (engine: EngineInspection)
    ensures
        engine_row(*state, log@, engine),
{
    let mut attempts: Vec<AttemptInspection> = Vec::new();
    let mut routes: Vec<RouteInspection> = Vec::new();
    let mut deliveries: Vec<DeliveryInspection> = Vec::new();
    let mut i: usize = 0;
    while i < log.len()
        invariant
            i <= log.len(),
            attempts@ == attempt_rows(*state, log@.take(i as int)),
            routes@ == route_rows(*state, log@.take(i as int)),
            deliveries@ == delivery_rows(*state, log@.take(i as int)),
        decreases log.len() - i,
    {
        assert(log@.take(i + 1).drop_last() =~= log@.take(i as int));
        assert(log@.take(i + 1).last() == log@[i as int]);
        let record = &log[i];
        match &*record.event {
            Event::ControlRequested { firing, ctl } => {
                let (kind, payload) = match ctl {
                    Control::Deliver(value) => ("deliver", Some(value.clone())),
                    Control::Cancel => ("cancel", None),
                    Control::Kill => ("kill", None),
                    Control::Other => ("other", None),
                };
                let node = name_of_firing(state, *firing);
                deliveries.push(
                    DeliveryInspection { seq: record.seq, firing: firing.0, node, kind, payload },
                );
            },
            Event::StepFinished { firing, attempt, outcome } => {
                let generation = match place_of(state, *firing) {
                    Some(at) => Some(at.1),
                    None => None,
                };
                attempts.push(
                    AttemptInspection {
                        seq: record.seq,
                        firing: firing.0,
                        node: name_of_firing(state, *firing),
                        generation,
                        attempt: attempt.0,
                        status: outcome.status.tag.clone(),
                        failure: copy_failure(&outcome.status.failure),
                        is_final: state.is_final(*firing, *attempt),
                    },
                );
            },
            Event::RouteApplied { applied } => {
                let row = route(state, record.seq, applied);
                assert(route_row(*state, log@[i as int]) == Some(row));
                routes.push(row);
            },
            _ => {},
        }
        i = i + 1;
    }
    assert(log@.take(i as int) =~= log@);
    let mut errors: Vec<String> = Vec::new();
    let mut e: usize = 0;
    while e < state.errors.len()
        invariant
            e <= state.errors.len(),
            errors@ == state.errors@.take(e as int),
        decreases state.errors.len() - e,
    {
        errors.push(state.errors[e].clone());
        e = e + 1;
        assert(errors@ =~= state.errors@.take(e as int));
    }
    assert(errors@ =~= state.errors@);
    let mut nodes: Vec<(String, NodeInspection)> = Vec::new();
    let mut n: usize = 0;
    while n < state.nodes.len()
        invariant
            n <= state.nodes.len(),
            nodes@.len() == n,
            forall|j: int|
                0 <= j < n ==> #[trigger] nodes@[j] == (
                    state.nodes@[j].0,
                    node_row(state.nodes@[j].1),
                ),
        decreases state.nodes.len() - n,
    {
        let record = &state.nodes[n].1;
        nodes.push(
            (
                state.nodes[n].0.clone(),
                NodeInspection {
                    status: record.status.tag.clone(),
                    success_like: record.status.success_like,
                    failure: copy_failure(&record.status.failure),
                    output: record.output.clone(),
                    generation: record.generation.0,
                    attempts: record.attempts,
                },
            ),
        );
        n = n + 1;
    }
    let mut history: Vec<HistoryInspection> = Vec::new();
    let mut h: usize = 0;
    while h < state.history.len()
        invariant
            h <= state.history.len(),
            history@.len() == h,
            forall|j: int| 0 <= j < h ==> #[trigger] history@[j] == history_row(state.history@[j]),
        decreases state.history.len() - h,
    {
        let entry = &state.history[h];
        history.push(
            HistoryInspection {
                firing: entry.firing.0,
                node: entry.name.clone(),
                node_id: entry.node.0,
                generation: entry.generation.0,
                attempt: entry.attempt.0,
                status: entry.outcome.status.tag.clone(),
                failure: copy_failure(&entry.outcome.status.failure),
                output: entry.outcome.output.clone(),
                context_updates: share(&entry.outcome.context_updates),
            },
        );
        h = h + 1;
    }
    let mut live: Vec<LiveInspection> = Vec::new();
    let mut l: usize = 0;
    while l < state.live.len()
        invariant
            l <= state.live.len(),
            live@.len() == l,
            forall|j: int| 0 <= j < l ==> #[trigger] live@[j] == live_row(*state, state.live@[j]),
        decreases state.live.len() - l,
    {
        let firing = &state.live[l];
        live.push(
            LiveInspection {
                firing: firing.id.0,
                node: node_name(&state.graph, firing.node),
                generation: firing.generation.0,
                attempt: firing.attempt.0,
                started: firing.started,
                awaiting_retry: firing.awaiting_retry,
                cancelling: firing.cancelling,
            },
        );
        l = l + 1;
    }
    let exit = match &state.exit {
        Some(exit) => Some(exit_inspection(exit, &state.graph)),
        None => None,
    };
    assert(nodes@ =~= state.nodes@.map_values(
        |node: (String, NodeRecord)| (node.0, node_row(node.1)),
    ));
    assert(history@ =~= state.history@.map_values(|entry: HistoryEntry| history_row(entry)));
    assert(live@ =~= state.live@.map_values(|live: LiveFiring| live_row(*state, live)));
    EngineInspection {
        started: state.started,
        finished: state.finished,
        cancelled: state.cancelled,
        exit,
        folded_status: name_of_status(state.folded_status),
        errors,
        context: ContextInspection { kv: share(&state.kv), nodes },
        history,
        attempts,
        routes,
        deliveries,
        live,
    }
}

// ── Invocations ────────────────────────────────────────────────────────

/// The durable call key that declared a nested invocation.
#[derive(Debug)]
pub struct ParentCall {
    pub invocation: InvocationId,
    pub execution: ExecutionId,
    pub firing: u64,
    pub attempt: u32,
    pub slot: String,
}

/// A child's name-only secret bindings. No value is representable here.
#[derive(Debug)]
pub struct SecretsInspection {
    /// `none`, `inherit` or `explicit`.
    pub mode: &'static str,
    /// The names an `explicit` binding exposes to the child.
    pub names: Vec<String>,
}

/// An invocation's one durable result.
#[derive(Debug)]
pub struct ResultInspection {
    /// `success`, `failed` or `cancelled`.
    pub status: &'static str,
    pub failure: Option<FailureInfo>,
    pub final_execution: ExecutionId,
    pub output: Json,
    /// The final execution's `kv`, as the coordinator recorded it.
    pub context: Fields,
}

/// One invocation: its declaration, its place in the tree, and its result.
#[derive(Debug)]
pub struct InvocationInspection {
    pub invocation: InvocationId,
    /// `declared` (no execution yet), `running` (no result yet) or
    /// `finished`.
    pub status: &'static str,
    /// The call that declared this invocation; absent on the root.
    pub parent: Option<ParentCall>,
    /// Invocations whose call site lies in one of this invocation's
    /// executions, in id order.
    pub children: Vec<InvocationId>,
    pub graph: GraphDigest,
    /// The context the invocation was declared with.
    pub context: Fields,
    pub secrets: SecretsInspection,
    /// `isolated` or `inherited`.
    pub sandbox: &'static str,
    pub cancel_requested: bool,
    /// Why, when the requester said.
    pub cancel_reason: Option<CancelReason>,
    /// Every execution of this invocation in order.
    pub executions: Vec<ExecutionId>,
    /// The execution the result names. Absent until finished.
    pub final_execution: Option<ExecutionId>,
    pub result: Option<ResultInspection>,
}

/// Texts by what they read as.
pub open spec fn texts(list: Seq<String>) -> Seq<Seq<char>> {
    list.map_values(|text: String| text@)
}

fn push_text(list: &mut Vec<String>, text: String)
    ensures
        texts(final(list)@) == texts(old(list)@).push(text@),
{
    list.push(text);
    assert(texts(list@) =~= texts(old(list)@).push(text@));
}

/// The call that declared an invocation.
pub open spec fn parent_row(state: CoordinatorState, invocation: InvocationState) -> Option<
    ParentCall,
> {
    match invocation.declaration.call {
        Some(call) => Some(
            ParentCall {
                invocation: match state.owner_of(call.parent) {
                    Some(owner) => owner,
                    None => InvocationId::root(),
                },
                execution: call.parent,
                firing: call.firing.0,
                attempt: call.attempt.0,
                slot: call.slot,
            },
        ),
        None => None,
    }
}

/// Whether an invocation was called from an execution of `parent`.
pub open spec fn called_from(
    state: CoordinatorState,
    candidate: InvocationState,
    parent: InvocationId,
) -> bool {
    match candidate.declaration.call {
        Some(call) => state.owner_of(call.parent) == Some(parent),
        None => false,
    }
}

/// The invocations among these that were called from `parent`, in order.
pub open spec fn children_among(
    state: CoordinatorState,
    candidates: Seq<InvocationState>,
    parent: InvocationId,
) -> Seq<InvocationId>
    decreases candidates.len(),
{
    if candidates.len() == 0 {
        Seq::empty()
    } else {
        let before = children_among(state, candidates.drop_last(), parent);
        if called_from(state, candidates.last(), parent) {
            before.push(candidates.last().declaration.id)
        } else {
            before
        }
    }
}

/// The children an inspection lists are in id order, each once, when the
/// state is: those of an invocation and those of an execution.
pub proof fn law_children_are_in_id_order(
    state: CoordinatorState,
    parent: InvocationId,
    execution: ExecutionId,
)
    requires
        state.in_order(),
    ensures
        ids_ascend(children_among(state, state.invocations@, parent)),
        ids_ascend(called_among(state.invocations@, execution)),
{
    let count = state.invocations@.len() as int;
    assert(state.invocations@.take(count) =~= state.invocations@);
    lemma_children_ascend(state, parent, execution, count);
}

/// Ids in ascending order, each once.
pub open spec fn ids_ascend(ids: Seq<InvocationId>) -> bool {
    forall|i: int, j: int|
        0 <= i < j < ids.len() ==> (#[trigger] ids[i]).0 < (#[trigger] ids[j]).0
}

/// Every one of these ids is below a bound.
spec fn ids_below(ids: Seq<InvocationId>, bound: int) -> bool {
    forall|i: int| 0 <= i < ids.len() ==> (#[trigger] ids[i]).0 < bound
}

proof fn lemma_children_ascend(
    state: CoordinatorState,
    parent: InvocationId,
    execution: ExecutionId,
    count: int,
)
    requires
        state.in_order(),
        0 <= count <= state.invocations@.len(),
    ensures
        ({
            let some = state.invocations@.take(count);
            let children = children_among(state, some, parent);
            let called = called_among(some, execution);
            &&& ids_ascend(children)
            &&& ids_ascend(called)
            &&& count > 0 ==> ids_below(children, some.last().declaration.id.0 + 1)
            &&& count > 0 ==> ids_below(called, some.last().declaration.id.0 + 1)
            &&& count == 0 ==> children.len() == 0 && called.len() == 0
        }),
    decreases count,
{
    if count > 0 {
        lemma_children_ascend(state, parent, execution, count - 1);
        let some = state.invocations@.take(count);
        let fewer = state.invocations@.take(count - 1);
        assert(some.drop_last() =~= fewer);
        if count > 1 {
            assert(fewer.last() == state.invocations@[count - 2]);
            assert(some.last() == state.invocations@[count - 1]);
            assert(state.invocations@[count - 2].declaration.id.0
                < state.invocations@[count - 1].declaration.id.0);
        }
    }
}

/// Where an invocation stands.
pub open spec fn invocation_status(invocation: InvocationState) -> &'static str {
    if invocation.result is Some {
        "finished"
    } else if invocation.executions@.len() > 0 {
        "running"
    } else {
        "declared"
    }
}

/// Why an invocation keeps the document from being complete.
pub open spec fn invocation_problems(invocation: InvocationState) -> Seq<Seq<char>> {
    if invocation.result is Some {
        Seq::empty()
    } else if invocation.executions@.len() > 0 {
        seq![
            "invocation "@ + decimal(invocation.declaration.id.0 as nat)
                + " has not finished"@,
        ]
    } else {
        seq![
            "invocation "@ + decimal(invocation.declaration.id.0 as nat)
                + " is declared but never ran"@,
        ]
    }
}

/// The secret names a binding exposes.
pub open spec fn secret_row(bindings: SecretBindings, row: SecretsInspection) -> bool {
    match bindings {
        SecretBindings::NoSecrets => row.mode == "none" && row.names@.len() == 0,
        SecretBindings::Inherit => row.mode == "inherit" && row.names@.len() == 0,
        SecretBindings::Explicit(bindings) => {
            &&& row.mode == "explicit"
            &&& row.names@ == bindings@.map_values(|binding: (String, SecretBinding)| binding.0)
        },
    }
}

/// A result as the document gives it.
pub open spec fn result_row(result: InvocationResult) -> ResultInspection {
    ResultInspection {
        status: status_name(result.status),
        failure: result.failure,
        final_execution: result.final_execution,
        output: result.output,
        context: result.context,
    }
}

/// Whether `row` is what the document says of an invocation.
pub open spec fn invocation_row(
    state: CoordinatorState,
    invocation: InvocationState,
    row: InvocationInspection,
) -> bool {
    &&& row.invocation == invocation.declaration.id
    &&& row.status == invocation_status(invocation)
    &&& row.parent == parent_row(state, invocation)
    &&& row.children@ == children_among(state, state.invocations@, invocation.declaration.id)
    &&& row.graph == invocation.declaration.graph
    &&& row.context == invocation.declaration.context
    &&& secret_row(invocation.declaration.secret_bindings, row.secrets)
    &&& row.sandbox == (match invocation.declaration.sandbox {
        SandboxBinding::Isolated => "isolated",
        SandboxBinding::Inherited { lease } => "inherited",
    })
    &&& row.cancel_requested == invocation.cancelled
    &&& row.cancel_reason == invocation.cancel_reason
    &&& row.executions@ == invocation.executions@
    &&& row.final_execution == (match invocation.result {
        Some(result) => Some(result.final_execution),
        None => None,
    })
    &&& row.result == (match invocation.result {
        Some(result) => Some(result_row(*result)),
        None => None,
    })
}

fn secrets_inspection(bindings: &SecretBindings) -> (row: SecretsInspection)
    ensures
        secret_row(*bindings, row),
{
    match bindings {
        SecretBindings::NoSecrets => SecretsInspection { mode: "none", names: Vec::new() },
        SecretBindings::Inherit => SecretsInspection { mode: "inherit", names: Vec::new() },
        SecretBindings::Explicit(bindings) => {
            let mut names: Vec<String> = Vec::new();
            let mut i: usize = 0;
            while i < bindings.len()
                invariant
                    i <= bindings.len(),
                    names@.len() == i,
                    forall|j: int| 0 <= j < i ==> #[trigger] names@[j] == bindings@[j].0,
                decreases bindings.len() - i,
            {
                names.push(bindings[i].0.clone());
                i = i + 1;
            }
            assert(names@ =~= bindings@.map_values(
                |binding: (String, SecretBinding)| binding.0,
            ));
            SecretsInspection { mode: "explicit", names }
        },
    }
}

fn copy_executions(executions: &Vec<ExecutionId>) -> (copy: Vec<ExecutionId>)
    ensures
        copy@ == executions@,
{
    let mut copy: Vec<ExecutionId> = Vec::new();
    let mut i: usize = 0;
    while i < executions.len()
        invariant
            i <= executions.len(),
            copy@ == executions@.take(i as int),
        decreases executions.len() - i,
    {
        copy.push(executions[i]);
        i = i + 1;
        assert(copy@ =~= executions@.take(i as int));
    }
    assert(copy@ =~= executions@);
    copy
}

/// What the document says of an invocation; what keeps it incomplete is
/// appended to `incomplete`.
pub fn inspect_invocation(
    state: &CoordinatorState,
    invocation: &InvocationState,
    incomplete: &mut Vec<String>,
) -> (row: InvocationInspection)
    ensures
        invocation_row(*state, *invocation, row),
        texts(final(incomplete)@) == texts(old(incomplete)@) + invocation_problems(*invocation),
{
    let id = invocation.declaration.id;
    let parent = match &invocation.declaration.call {
        Some(call) => {
            let owner = match state.owner(call.parent) {
                Some(owner) => owner,
                None => InvocationId::root(),
            };
            Some(
                ParentCall {
                    invocation: owner,
                    execution: call.parent,
                    firing: call.firing.0,
                    attempt: call.attempt.0,
                    slot: call.slot.clone(),
                },
            )
        },
        None => None,
    };
    let mut children: Vec<InvocationId> = Vec::new();
    let mut i: usize = 0;
    while i < state.invocations.len()
        invariant
            i <= state.invocations.len(),
            children@ == children_among(*state, state.invocations@.take(i as int), id),
        decreases state.invocations.len() - i,
    {
        assert(state.invocations@.take(i + 1).drop_last() =~= state.invocations@.take(i as int));
        assert(state.invocations@.take(i + 1).last() == state.invocations@[i as int]);
        match &state.invocations[i].declaration.call {
            Some(call) => match state.owner(call.parent) {
                Some(owner) => {
                    if owner == id {
                        children.push(state.invocations[i].declaration.id);
                    }
                },
                None => {},
            },
            None => {},
        }
        i = i + 1;
    }
    assert(state.invocations@.take(i as int) =~= state.invocations@);
    let ghost before = texts(incomplete@);
    let status = match &invocation.result {
        Some(_) => "finished",
        None => if invocation.executions.len() > 0 {
            push_text(
                incomplete,
                join3("invocation ", number(id.0).as_str(), " has not finished"),
            );
            "running"
        } else {
            push_text(
                incomplete,
                join3("invocation ", number(id.0).as_str(), " is declared but never ran"),
            );
            "declared"
        },
    };
    assert(texts(incomplete@) =~= before + invocation_problems(*invocation));
    let secrets = secrets_inspection(&invocation.declaration.secret_bindings);
    let (final_execution, result) = match &invocation.result {
        Some(result) => (
            Some(result.final_execution),
            Some(
                ResultInspection {
                    status: name_of_status(result.status),
                    failure: copy_failure(&result.failure),
                    final_execution: result.final_execution,
                    output: result.output.clone(),
                    context: share(&result.context),
                },
            ),
        ),
        None => (None, None),
    };
    InvocationInspection {
        invocation: id,
        status,
        parent,
        children,
        graph: invocation.declaration.graph,
        context: share(&invocation.declaration.context),
        secrets,
        sandbox: match invocation.declaration.sandbox {
            SandboxBinding::Isolated => "isolated",
            SandboxBinding::Inherited { lease: _ } => "inherited",
        },
        cancel_requested: invocation.cancelled,
        cancel_reason: invocation.cancel_reason,
        executions: copy_executions(&invocation.executions),
        final_execution,
        result,
    }
}

// ── Executions ─────────────────────────────────────────────────────────

/// The invocations among these whose call site lies in an execution, in
/// order.
pub open spec fn called_among(candidates: Seq<InvocationState>, execution: ExecutionId) -> Seq<
    InvocationId,
>
    decreases candidates.len(),
{
    if candidates.len() == 0 {
        Seq::empty()
    } else {
        let before = called_among(candidates.drop_last(), execution);
        match candidates.last().declaration.call {
            Some(call) => if call.parent == execution {
                before.push(candidates.last().declaration.id)
            } else {
                before
            },
            None => before,
        }
    }
}

/// Nested invocations keyed by the execution their call site lies in.
pub fn children_by_execution(state: &CoordinatorState) -> (children: Table<Vec<InvocationId>>)
    ensures
        forall|execution: ExecutionId|
            #![trigger called_among(state.invocations@, execution)]
            children@.contains_key(execution.0) == (called_among(
                state.invocations@,
                execution,
            ).len() > 0),
        forall|execution: ExecutionId|
            #![trigger called_among(state.invocations@, execution)]
            children@.contains_key(execution.0) ==> children@[execution.0]@ == called_among(
                state.invocations@,
                execution,
            ),
{
    let mut children: Table<Vec<InvocationId>> = Table::new();
    let mut i: usize = 0;
    while i < state.invocations.len()
        invariant
            i <= state.invocations.len(),
            forall|execution: ExecutionId|
                #![trigger called_among(state.invocations@.take(i as int), execution)]
                children@.contains_key(execution.0) == (called_among(
                    state.invocations@.take(i as int),
                    execution,
                ).len() > 0),
            forall|execution: ExecutionId|
                #![trigger called_among(state.invocations@.take(i as int), execution)]
                children@.contains_key(execution.0) ==> children@[execution.0]@ == called_among(
                    state.invocations@.take(i as int),
                    execution,
                ),
        decreases state.invocations.len() - i,
    {
        let ghost before = state.invocations@.take(i as int);
        let ghost after = state.invocations@.take(i + 1);
        let ghost held = children@;
        assert(after.drop_last() =~= before);
        assert(after.last() == state.invocations@[i as int]);
        let declaration = &state.invocations[i].declaration;
        match &declaration.call {
            Some(call) => {
                let mut list = match children.remove(call.parent.0) {
                    Some(list) => list,
                    None => Vec::new(),
                };
                proof {
                    let known = called_among(before, call.parent);
                    assert(list@ =~= known);
                }
                list.push(declaration.id);
                let ghost listed = list@;
                children.insert(call.parent.0, list);
                proof {
                    assert forall|execution: ExecutionId| #[trigger]
                        called_among(after, execution) == called_among(after, execution) implies {
                        &&& children@.contains_key(execution.0) == (called_among(
                            after,
                            execution,
                        ).len() > 0)
                        &&& children@.contains_key(execution.0) ==> children@[execution.0]@
                            == called_among(after, execution)
                    } by {
                        let known = called_among(before, execution);
                        if execution == call.parent {
                            assert(listed == called_among(after, execution));
                        } else {
                            assert(execution.0 != call.parent.0);
                            assert(children@.contains_key(execution.0) == held.contains_key(
                                execution.0,
                            ));
                        }
                    }
                }
            },
            None => {
                proof {
                    assert forall|execution: ExecutionId| #[trigger]
                        called_among(after, execution) == called_among(before, execution) by {}
                }
            },
        }
        i = i + 1;
    }
    assert(state.invocations@.take(i as int) =~= state.invocations@);
    children
}

/// How much of a log its replay stood behind.
#[derive(Clone, Copy, Debug, PartialEq, Eq, Structural)]
pub enum Coverage {
    /// Replay regenerated exactly the log's records.
    Verified,
    /// The log is a byte-prefix of the regenerated one.
    Prefix,
}

/// Where a log and its replay part.
#[derive(Clone, Copy, Debug, PartialEq, Eq, Structural)]
pub struct ReplayMismatch {
    pub original_records: usize,
    pub replayed_records: usize,
    /// The first record that differs; absent when the replay is only short.
    pub first_divergence: Option<u64>,
}

/// One record of a log: its seq and its stored bytes.
#[derive(Debug)]
pub struct StoredLine {
    pub seq: u64,
    pub bytes: Vec<u8>,
}

/// The first place where a log and its replay differ, as far as both go.
pub open spec fn first_divergence(log: Seq<StoredLine>, rebuilt: Seq<Vec<u8>>, from: int) -> Option<
    int,
>
    decreases log.len() - from,
{
    if from >= log.len() || from >= rebuilt.len() || from < 0 {
        None
    } else if log[from].bytes@ != rebuilt[from]@ {
        Some(from)
    } else {
        first_divergence(log, rebuilt, from + 1)
    }
}

/// What replay says of a log: the loaded log must be a byte-prefix of the
/// regenerated one. Anything else is divergence.
pub open spec fn coverage_of(log: Seq<StoredLine>, rebuilt: Seq<Vec<u8>>) -> Result<
    Coverage,
    ReplayMismatch,
> {
    match first_divergence(log, rebuilt, 0) {
        Some(at) => Err(
            ReplayMismatch {
                original_records: log.len() as usize,
                replayed_records: rebuilt.len() as usize,
                first_divergence: Some(log[at].seq),
            },
        ),
        None => if rebuilt.len() < log.len() {
            Err(
                ReplayMismatch {
                    original_records: log.len() as usize,
                    replayed_records: rebuilt.len() as usize,
                    first_divergence: None,
                },
            )
        } else if rebuilt.len() == log.len() {
            Ok(Coverage::Verified)
        } else {
            Ok(Coverage::Prefix)
        },
    }
}

fn same_bytes(a: &Vec<u8>, b: &Vec<u8>) -> (same: bool)
    ensures
        same == (a@ == b@),
{
    if a.len() != b.len() {
        return false;
    }
    let mut i: usize = 0;
    while i < a.len()
        invariant
            i <= a.len(),
            a.len() == b.len(),
            forall|j: int| 0 <= j < i ==> a@[j] == b@[j],
        decreases a.len() - i,
    {
        if a[i] != b[i] {
            assert(a@[i as int] != b@[i as int]);
            return false;
        }
        i = i + 1;
    }
    assert(a@ =~= b@);
    true
}

/// Hold a log to the engine's own rule: the stored log must be a byte-prefix
/// of the one its replay regenerates.
pub fn replay_log(log: &Vec<StoredLine>, rebuilt: &Vec<Vec<u8>>) -> (coverage: Result<
    Coverage,
    ReplayMismatch,
>)
    ensures
        coverage == coverage_of(log@, rebuilt@),
{
    let mut i: usize = 0;
    while i < log.len() && i < rebuilt.len()
        invariant
            i <= log.len(),
            i <= rebuilt.len(),
            first_divergence(log@, rebuilt@, 0) == first_divergence(log@, rebuilt@, i as int),
        decreases log.len() - i,
    {
        if !same_bytes(&log[i].bytes, &rebuilt[i]) {
            return Err(
                ReplayMismatch {
                    original_records: log.len(),
                    replayed_records: rebuilt.len(),
                    first_divergence: Some(log[i].seq),
                },
            );
        }
        i = i + 1;
    }
    if rebuilt.len() < log.len() {
        return Err(
            ReplayMismatch {
                original_records: log.len(),
                replayed_records: rebuilt.len(),
                first_divergence: None,
            },
        );
    }
    if rebuilt.len() == log.len() {
        Ok(Coverage::Verified)
    } else {
        Ok(Coverage::Prefix)
    }
}

/// A log is covered exactly when its bytes are a prefix of the regenerated
/// ones, and verified exactly when they are all of them.
pub proof fn law_covered_iff_prefix(log: Seq<StoredLine>, rebuilt: Seq<Vec<u8>>)
    ensures
        coverage_of(log, rebuilt) is Ok <==> log.len() <= rebuilt.len() && forall|i: int|
            0 <= i < log.len() ==> (#[trigger] log[i]).bytes@ == rebuilt[i]@,
        coverage_of(log, rebuilt) == Ok::<Coverage, ReplayMismatch>(Coverage::Verified) <==> log.len()
            == rebuilt.len() && forall|i: int|
            0 <= i < log.len() ==> (#[trigger] log[i]).bytes@ == rebuilt[i]@,
{
    lemma_divergence(log, rebuilt, 0);
}

proof fn lemma_divergence(log: Seq<StoredLine>, rebuilt: Seq<Vec<u8>>, from: int)
    requires
        0 <= from,
    ensures
        match first_divergence(log, rebuilt, from) {
            Some(at) => from <= at < log.len() && at < rebuilt.len() && log[at].bytes@
                != rebuilt[at]@,
            None => forall|i: int|
                from <= i < log.len() && i < rebuilt.len() ==> (#[trigger] log[i]).bytes@
                    == rebuilt[i]@,
        },
    decreases log.len() - from,
{
    if from < log.len() && from < rebuilt.len() && log[from].bytes@ == rebuilt[from]@ {
        lemma_divergence(log, rebuilt, from + 1);
    }
}

/// Why a run could not be reconstructed. Every variant means the records do
/// not support a trustworthy document; an interrupted run is not an error.
#[derive(Clone, Copy, Debug, PartialEq, Eq, Structural)]
pub enum InspectError {
    /// The run's format is not the one this build reads.
    UnsupportedFormat { found: u32, expected: u32 },
    /// The coordinator log does not replay.
    State(StateError),
    /// An execution's log diverges from its replay.
    ReplayDiverged { execution: ExecutionId, mismatch: ReplayMismatch },
    /// An execution names a graph that is not registered.
    UnknownGraph { execution: ExecutionId, graph: GraphDigest },
}

/// The execution's engine log and how far replay trusted it.
#[derive(Clone, Copy, Debug)]
pub struct LogInspection {
    /// Records stored.
    pub records: usize,
    /// `verified` (replay reproduced the log exactly), `prefix` (the log is
    /// a byte-prefix of what replay regenerates) or `missing` (nothing
    /// stored for the execution).
    pub replay: &'static str,
}

/// What is stored of an execution: nothing, or its records, the bytes they
/// are stored as, the state its replay reaches and the bytes it regenerates.
/// A log without lines counts as nothing.
#[derive(Debug)]
pub enum ExecutionLog {
    Missing,
    Stored {
        records: Vec<EventRecord>,
        lines: Vec<StoredLine>,
        state: EngineState,
        rebuilt: Vec<Vec<u8>>,
    },
}

/// One execution: its declaration, its log, and the state replayed from it.
#[derive(Debug)]
pub struct ExecutionInspection {
    pub execution: ExecutionId,
    pub invocation: InvocationId,
    /// Position within the invocation, from 0.
    pub execution_index: u32,
    pub predecessor: Option<ExecutionId>,
    pub successor: Option<ExecutionId>,
    /// `finished` (a terminal exit is recorded), `restarted` (a restart exit
    /// is recorded and a successor follows) or `incomplete`.
    pub status: &'static str,
    /// The node a restart successor starts at. Absent for the graph's own
    /// entries.
    pub entry_node: Option<String>,
    /// The context the execution started with.
    pub start_context: Fields,
    /// The exit the coordinator recorded for this execution.
    pub exit: Option<ExitInspection>,
    pub log: LogInspection,
    /// The state replayed from the log. Absent when there is no log.
    pub engine: Option<EngineInspection>,
    /// Invocations whose call site is a firing of this execution.
    pub children: Vec<InvocationId>,
}

/// Whether `engine` is what the document says of a replayed state and log.
pub open spec fn engine_row(
    state: EngineState,
    log: Seq<EventRecord>,
    engine: EngineInspection,
) -> bool {
    &&& engine.started == state.started
    &&& engine.finished == state.finished
    &&& engine.cancelled == state.cancelled
    &&& engine.exit == (match state.exit {
        Some(exit) => Some(exit_row(exit, state.graph)),
        None => None,
    })
    &&& engine.folded_status == status_name(state.folded_status)
    &&& engine.errors@ == state.errors@
    &&& engine.context.kv == state.kv
    &&& engine.context.nodes@ == state.nodes@.map_values(
        |node: (String, NodeRecord)| (node.0, node_row(node.1)),
    )
    &&& engine.history@ == state.history@.map_values(|entry: HistoryEntry| history_row(entry))
    &&& engine.attempts@ == attempt_rows(state, log)
    &&& engine.routes@ == route_rows(state, log)
    &&& engine.deliveries@ == delivery_rows(state, log)
    &&& engine.live@ == state.live@.map_values(|live: LiveFiring| live_row(state, live))
}

/// The place of an execution among those of its invocation.
pub open spec fn place_among(executions: Seq<ExecutionId>, id: ExecutionId) -> Option<int>
    decreases executions.len(),
{
    if executions.len() == 0 {
        None
    } else if executions.first() == id {
        Some(0)
    } else {
        match place_among(executions.drop_first(), id) {
            Some(at) => Some(at + 1),
            None => None,
        }
    }
}

/// The execution before one.
pub open spec fn predecessor_of(executions: Seq<ExecutionId>, id: ExecutionId) -> Option<
    ExecutionId,
> {
    match place_among(executions, id) {
        Some(at) => if at > 0 {
            Some(executions[at - 1])
        } else {
            None
        },
        None => None,
    }
}

/// The execution after one.
pub open spec fn successor_of(executions: Seq<ExecutionId>, id: ExecutionId) -> Option<
    ExecutionId,
> {
    match place_among(executions, id) {
        Some(at) => if at + 1 < executions.len() {
            Some(executions[at + 1])
        } else {
            None
        },
        None => None,
    }
}

/// Whether two optional texts read alike.
pub open spec fn same_text(a: Option<String>, b: Option<String>) -> bool {
    match (a, b) {
        (Some(a), Some(b)) => a@ == b@,
        (None, None) => true,
        _ => false,
    }
}

/// Whether two exits are named alike.
pub open spec fn exits_agree(a: ExitInspection, b: ExitInspection) -> bool {
    match (a, b) {
        (
            ExitInspection::Terminal { status: a },
            ExitInspection::Terminal { status: b },
        ) => a@ == b@,
        (
            ExitInspection::Restart { edge: e1, target: t1, target_name: n1, source_firing: s1 },
            ExitInspection::Restart { edge: e2, target: t2, target_name: n2, source_firing: s2 },
        ) => e1 == e2 && t1 == t2 && same_text(n1, n2) && s1 == s2,
        _ => false,
    }
}

/// The graph an execution runs.
pub open spec fn graph_of(
    state: CoordinatorState,
    graphs: Seq<(GraphDigest, Graph)>,
    execution: ExecutionState,
) -> Option<Graph> {
    match state.spec_invocation(execution.declaration.invocation) {
        Some(invocation) => lookup(graphs, invocation.declaration.graph),
        None => None,
    }
}

/// Whether nothing is stored of an execution: no log, or one without lines.
pub open spec fn nothing_stored(log: ExecutionLog) -> bool {
    match log {
        ExecutionLog::Missing => true,
        ExecutionLog::Stored { records, lines, state, rebuilt } => lines@.len() == 0,
    }
}

/// What replay says of a stored log.
pub open spec fn log_coverage(log: ExecutionLog) -> Option<Result<Coverage, ReplayMismatch>> {
    match log {
        ExecutionLog::Stored { records, lines, state, rebuilt } if lines@.len() > 0 => Some(
            coverage_of(lines@, rebuilt@),
        ),
        _ => None,
    }
}

/// Why an execution cannot be reconstructed.
pub open spec fn execution_failure(
    state: CoordinatorState,
    graphs: Seq<(GraphDigest, Graph)>,
    execution: ExecutionState,
    log: ExecutionLog,
) -> Option<InspectError> {
    let id = execution.declaration.id;
    match state.spec_invocation(execution.declaration.invocation) {
        None => Some(
            InspectError::State(StateError::UnknownInvocation(execution.declaration.invocation)),
        ),
        Some(invocation) => if lookup(graphs, invocation.declaration.graph) is None {
            Some(
                InspectError::UnknownGraph { execution: id, graph: invocation.declaration.graph },
            )
        } else {
            match log_coverage(log) {
                Some(Err(mismatch)) => Some(
                    InspectError::ReplayDiverged { execution: id, mismatch },
                ),
                _ => None,
            }
        },
    }
}

/// A line about an execution.
pub open spec fn about_execution(id: ExecutionId, what: Seq<char>) -> Seq<char> {
    "execution "@ + decimal(id.0 as nat) + what
}

/// Whether the exit the coordinator recorded disagrees with the one replay
/// derived.
pub open spec fn exit_disputed(
    execution: ExecutionState,
    graph: Graph,
    log: ExecutionLog,
) -> bool {
    match (execution.exit, log) {
        (Some(recorded), ExecutionLog::Stored { records, lines, state, rebuilt }) => match state.exit {
            Some(replayed) => lines@.len() > 0 && !exits_agree(
                exit_row(recorded, graph),
                exit_row(replayed, state.graph),
            ),
            None => false,
        },
        _ => false,
    }
}

/// Why an execution keeps the document from being complete, in the order
/// found.
pub open spec fn execution_problems(
    execution: ExecutionState,
    graph: Graph,
    log: ExecutionLog,
) -> Seq<Seq<char>> {
    let id = execution.declaration.id;
    let stored = match log_coverage(log) {
        None => seq![about_execution(id, ": no engine log was stored"@)],
        Some(Ok(Coverage::Prefix)) => seq![
            about_execution(id, ": the log ends before the core's derived records"@),
        ],
        _ => Seq::empty(),
    };
    let ended = if execution.exit is None {
        seq![about_execution(id, ": no exit is recorded"@)]
    } else {
        Seq::empty()
    };
    let disputed = if exit_disputed(execution, graph, log) {
        seq![about_execution(id, ": the recorded exit disagrees with the replayed log"@)]
    } else {
        Seq::empty()
    };
    stored + ended + disputed
}

/// Whether `row` is what the document says of an execution.
pub open spec fn execution_row(
    state: CoordinatorState,
    graph: Graph,
    execution: ExecutionState,
    log: ExecutionLog,
    row: ExecutionInspection,
) -> bool {
    let id = execution.declaration.id;
    let siblings = state.spec_invocation(execution.declaration.invocation)->0.executions@;
    &&& row.execution == id
    &&& row.invocation == execution.declaration.invocation
    &&& row.execution_index == execution.declaration.start.execution_index
    &&& row.predecessor == predecessor_of(siblings, id)
    &&& row.successor == successor_of(siblings, id)
    &&& row.status == (match execution.exit {
        Some(EngineExit::Terminal { status }) => "finished",
        Some(EngineExit::Restart { edge, target, source }) => "restarted",
        None => "incomplete",
    })
    &&& match execution.declaration.start.entry {
        EntryPoint::GraphEntries => row.entry_node is None,
        EntryPoint::Node(node) => match name_at(graph, node) {
            Some(name) => row.entry_node == Some(name),
            None => row.entry_node is Some && row.entry_node->0@ == "#"@ + decimal(node.0 as nat),
        },
    }
    &&& row.start_context == execution.declaration.start.context
    &&& row.exit == (match execution.exit {
        Some(exit) => Some(exit_row(exit, graph)),
        None => None,
    })
    &&& nothing_stored(log) ==> row.log.records == 0 && row.log.replay == "missing"
        && row.engine is None
    &&& match log {
        ExecutionLog::Missing => true,
        ExecutionLog::Stored { records, lines, state: replayed, rebuilt } => lines@.len() > 0 ==> {
            &&& row.log.records == lines@.len()
            &&& row.log.replay == (if coverage_of(lines@, rebuilt@) == Ok::<
                Coverage,
                ReplayMismatch,
            >(Coverage::Verified) {
                "verified"
            } else {
                "prefix"
            })
            &&& row.engine matches Some(engine) && engine_row(replayed, records@, engine)
        },
    }
    &&& row.children@ == called_among(state.invocations@, id)
}

pub(crate) fn find_graph<'a>(graphs: &'a Vec<(GraphDigest, Graph)>, digest: GraphDigest) -> (found: Option<
    &'a Graph,
>)
    ensures
        found == (match lookup(graphs@, digest) {
            Some(graph) => Some(&graph),
            None => None,
        }),
{
    let mut i: usize = 0;
    while i < graphs.len()
        invariant
            i <= graphs.len(),
            forall|j: int| 0 <= j < i ==> (#[trigger] graphs@[j]).0 != digest,
        decreases graphs.len() - i,
    {
        if graphs[i].0 == digest {
            proof {
                lemma_lookup_found(graphs@, digest, i as int);
            }
            return Some(&graphs[i].1);
        }
        i = i + 1;
    }
    proof {
        lemma_lookup_absent(graphs@, digest);
    }
    None
}

proof fn lemma_place_found(executions: Seq<ExecutionId>, id: ExecutionId, i: int)
    requires
        0 <= i < executions.len(),
        executions[i] == id,
        forall|j: int| 0 <= j < i ==> (#[trigger] executions[j]) != id,
    ensures
        place_among(executions, id) == Some(i),
    decreases executions.len(),
{
    if i > 0 {
        assert(executions[0] != id);
        let rest = executions.drop_first();
        assert forall|j: int| 0 <= j < i - 1 implies (#[trigger] rest[j]) != id by {
            assert(rest[j] == executions[j + 1]);
        }
        lemma_place_found(rest, id, i - 1);
    }
}

proof fn lemma_place_absent(executions: Seq<ExecutionId>, id: ExecutionId)
    requires
        forall|j: int| 0 <= j < executions.len() ==> (#[trigger] executions[j]) != id,
    ensures
        place_among(executions, id) is None,
    decreases executions.len(),
{
    if executions.len() > 0 {
        assert(executions[0] != id);
        let rest = executions.drop_first();
        assert forall|j: int| 0 <= j < rest.len() implies (#[trigger] rest[j]) != id by {
            assert(rest[j] == executions[j + 1]);
        }
        lemma_place_absent(rest, id);
    }
}

/// The executions before and after one of an invocation's.
fn neighbours(executions: &Vec<ExecutionId>, id: ExecutionId) -> (pair: (
    Option<ExecutionId>,
    Option<ExecutionId>,
))
    ensures
        pair.0 == predecessor_of(executions@, id),
        pair.1 == successor_of(executions@, id),
{
    let mut i: usize = 0;
    while i < executions.len()
        invariant
            i <= executions.len(),
            forall|j: int| 0 <= j < i ==> (#[trigger] executions@[j]) != id,
        decreases executions.len() - i,
    {
        if executions[i] == id {
            proof {
                lemma_place_found(executions@, id, i as int);
            }
            let before = if i > 0 {
                Some(executions[i - 1])
            } else {
                None
            };
            let after = if i < executions.len() - 1 {
                Some(executions[i + 1])
            } else {
                None
            };
            return (before, after);
        }
        i = i + 1;
    }
    proof {
        lemma_place_absent(executions@, id);
    }
    (None, None)
}

fn same_name(a: &Option<String>, b: &Option<String>) -> (same: bool)
    ensures
        same == same_text(*a, *b),
{
    match (a, b) {
        (Some(a), Some(b)) => *a == *b,
        (None, None) => true,
        _ => false,
    }
}

fn agree(a: &ExitInspection, b: &ExitInspection) -> (same: bool)
    ensures
        same == exits_agree(*a, *b),
{
    match (a, b) {
        (
            ExitInspection::Terminal { status: a },
            ExitInspection::Terminal { status: b },
        ) => same(*a, *b),
        (
            ExitInspection::Restart { edge: e1, target: t1, target_name: n1, source_firing: s1 },
            ExitInspection::Restart { edge: e2, target: t2, target_name: n2, source_firing: s2 },
        ) => *e1 == *e2 && *t1 == *t2 && same_name(n1, n2) && *s1 == *s2,
        _ => false,
    }
}

fn note_execution(incomplete: &mut Vec<String>, id: ExecutionId, what: &str)
    ensures
        texts(final(incomplete)@) == texts(old(incomplete)@).push(about_execution(id, what@)),
{
    push_text(incomplete, join3("execution ", number(id.0).as_str(), what));
}

/// What the document says of an execution, given what is stored of it; what
/// keeps it incomplete is appended to `incomplete`.
pub fn inspect_execution(
    state: &CoordinatorState,
    graphs: &Vec<(GraphDigest, Graph)>,
    execution: &ExecutionState,
    log: &ExecutionLog,
    children: &Table<Vec<InvocationId>>,
    incomplete: &mut Vec<String>,
) -> (row: Result<ExecutionInspection, InspectError>)
    requires
        children@.contains_key(execution.declaration.id.0) == (called_among(
            state.invocations@,
            execution.declaration.id,
        ).len() > 0),
        children@.contains_key(execution.declaration.id.0)
            ==> children@[execution.declaration.id.0]@ == called_among(
            state.invocations@,
            execution.declaration.id,
        ),
    ensures
        match row {
            Ok(row) => {
                &&& execution_failure(*state, graphs@, *execution, *log) is None
                &&& graph_of(*state, graphs@, *execution) matches Some(graph) && execution_row(
                    *state,
                    graph,
                    *execution,
                    *log,
                    row,
                ) && texts(final(incomplete)@) == texts(old(incomplete)@) + execution_problems(
                    *execution,
                    graph,
                    *log,
                )
            },
            Err(error) => {
                &&& execution_failure(*state, graphs@, *execution, *log) == Some(error)
                &&& final(incomplete)@ == old(incomplete)@
            },
        },
{
    let id = execution.declaration.id;
    let invocation_id = execution.declaration.invocation;
    let invocation = match state.invocation(invocation_id) {
        Some(invocation) => invocation,
        None => {
            return Err(InspectError::State(StateError::UnknownInvocation(invocation_id)));
        },
    };
    let digest = invocation.declaration.graph;
    let graph = match find_graph(graphs, digest) {
        Some(graph) => graph,
        None => {
            return Err(InspectError::UnknownGraph { execution: id, graph: digest });
        },
    };
    let (predecessor, successor) = neighbours(&invocation.executions, id);
    let ghost before = texts(incomplete@);
    let (shown, engine) = match log {
        ExecutionLog::Stored {
            records,
            lines,
            state: replayed,
            rebuilt,
        } if lines.len() > 0 => {
            let coverage = match replay_log(lines, rebuilt) {
                Ok(coverage) => coverage,
                Err(mismatch) => {
                    return Err(InspectError::ReplayDiverged { execution: id, mismatch });
                },
            };
            let replay = match coverage {
                Coverage::Verified => "verified",
                Coverage::Prefix => {
                    note_execution(
                        incomplete,
                        id,
                        ": the log ends before the core's derived records",
                    );
                    "prefix"
                },
            };
            (
                LogInspection { records: lines.len(), replay },
                Some(inspect_engine(replayed, records)),
            )
        },
        _ => {
            note_execution(incomplete, id, ": no engine log was stored");
            (LogInspection { records: 0, replay: "missing" }, None)
        },
    };
    let ghost stored = match log_coverage(*log) {
        None => seq![about_execution(id, ": no engine log was stored"@)],
        Some(Ok(Coverage::Prefix)) => seq![
            about_execution(id, ": the log ends before the core's derived records"@),
        ],
        _ => Seq::empty(),
    };
    assert(texts(incomplete@) =~= before + stored);
    let status = match &execution.exit {
        Some(EngineExit::Terminal { status: _ }) => "finished",
        Some(EngineExit::Restart { edge: _, target: _, source: _ }) => "restarted",
        None => {
            note_execution(incomplete, id, ": no exit is recorded");
            "incomplete"
        },
    };
    let exit = match &execution.exit {
        Some(exit) => Some(exit_inspection(exit, graph)),
        None => None,
    };
    match (&exit, &engine) {
        (Some(recorded), Some(engine)) => match &engine.exit {
            Some(replayed) => {
                if !agree(recorded, replayed) {
                    note_execution(
                        incomplete,
                        id,
                        ": the recorded exit disagrees with the replayed log",
                    );
                }
            },
            None => {},
        },
        _ => {},
    }
    assert(texts(incomplete@) =~= before + execution_problems(*execution, *graph, *log));
    let entry_node = match execution.declaration.start.entry {
        EntryPoint::GraphEntries => None,
        EntryPoint::Node(node) => match node_name(graph, node) {
            Some(name) => Some(name),
            None => Some(join("#", number(node.0 as u64).as_str())),
        },
    };
    let called = match children.get(id.0) {
        Some(called) => copy_invocations(called),
        None => {
            let called: Vec<InvocationId> = Vec::new();
            assert(called@ =~= called_among(state.invocations@, id));
            called
        },
    };
    Ok(
        ExecutionInspection {
            execution: id,
            invocation: invocation_id,
            execution_index: execution.declaration.start.execution_index,
            predecessor,
            successor,
            status,
            entry_node,
            start_context: share(&execution.declaration.start.context),
            exit,
            log: shown,
            engine,
            children: called,
        },
    )
}

fn copy_invocations(list: &Vec<InvocationId>) -> (copy: Vec<InvocationId>)
    ensures
        copy@ == list@,
{
    let mut copy: Vec<InvocationId> = Vec::new();
    let mut i: usize = 0;
    while i < list.len()
        invariant
            i <= list.len(),
            copy@ == list@.take(i as int),
        decreases list.len() - i,
    {
        copy.push(list[i]);
        i = i + 1;
        assert(copy@ =~= list@.take(i as int));
    }
    assert(copy@ =~= list@);
    copy
}

// ── The run ────────────────────────────────────────────────────────────

/// Which execution speaks for the root invocation.
#[derive(Clone, Copy, Debug, PartialEq, Eq, Structural)]
pub struct RootInspection {
    pub invocation: InvocationId,
    /// The execution the root's recorded result names. Absent until the root
    /// invocation has finished.
    pub final_execution: Option<ExecutionId>,
    /// The root's most recently declared execution, finished or not.
    pub latest_execution: Option<ExecutionId>,
}

/// The whole document.
#[derive(Debug)]
pub struct RunInspection {
    pub inspect_format_version: u32,
    /// The run's own format.
    pub coordinator_format_version: u32,
    /// Where the run lives, as its store names it.
    pub locator: String,
    /// The run's identity in its store and on its sandbox providers.
    pub run_key: String,
    /// True only when `incomplete` is empty.
    pub complete: bool,
    /// The recorded run status. Absent until the run has recorded its
    /// finish.
    pub status: Option<&'static str>,
    /// Every reason `complete` is false, in the order found.
    pub incomplete: Vec<String>,
    /// Whether the last recorded run control was a pause.
    pub paused: bool,
    /// Every run-level note, in record order.
    pub notes: Arc<Vec<RunNote>>,
    pub root: RootInspection,
    pub middleware_chain: Arc<Vec<String>>,
    /// Every registered graph digest, in digest order.
    pub graphs: Vec<GraphDigest>,
    /// Every invocation, in id order.
    pub invocations: Vec<InvocationInspection>,
    /// Every execution, in id order.
    pub executions: Vec<ExecutionInspection>,
    /// The interview receipt the host wrote beside the run.
    pub interviews: Option<Arc<InterviewReceipt>>,
}

impl RunInspection {
    /// Attach the interview receipt a host kept beside the run.
    pub fn with_interviews(self, interviews: Option<Arc<InterviewReceipt>>) -> (document:
        RunInspection)
        ensures
            document == (RunInspection { interviews, ..self }),
    {
        let mut document = self;
        document.interviews = interviews;
        document
    }
}

/// The first execution from `from` on that cannot be reconstructed, and why.
pub open spec fn first_failure(
    state: CoordinatorState,
    graphs: Seq<(GraphDigest, Graph)>,
    logs: Seq<ExecutionLog>,
    from: int,
) -> Option<InspectError>
    decreases state.executions@.len() - from,
{
    if from < 0 || from >= state.executions@.len() {
        None
    } else {
        match execution_failure(state, graphs, state.executions@[from], logs[from]) {
            Some(error) => Some(error),
            None => first_failure(state, graphs, logs, from + 1),
        }
    }
}

/// Why the first executions keep the document from being complete.
pub open spec fn executions_problems(
    state: CoordinatorState,
    graphs: Seq<(GraphDigest, Graph)>,
    logs: Seq<ExecutionLog>,
    count: nat,
) -> Seq<Seq<char>>
    decreases count,
{
    if count == 0 {
        Seq::empty()
    } else {
        let last = state.executions@[count - 1];
        executions_problems(state, graphs, logs, (count - 1) as nat) + execution_problems(
            last,
            graph_of(state, graphs, last)->0,
            logs[count - 1],
        )
    }
}

/// Why invocations keep the document from being complete.
pub open spec fn invocations_problems(invocations: Seq<InvocationState>) -> Seq<Seq<char>>
    decreases invocations.len(),
{
    if invocations.len() == 0 {
        Seq::empty()
    } else {
        invocations_problems(invocations.drop_last()) + invocation_problems(invocations.last())
    }
}

/// Everything that keeps the document from being complete, in the order
/// found.
pub open spec fn run_problems(
    state: CoordinatorState,
    graphs: Seq<(GraphDigest, Graph)>,
    logs: Seq<ExecutionLog>,
) -> Seq<Seq<char>> {
    (if state.run_status is None {
        seq!["the run has not recorded its finish"@]
    } else {
        Seq::empty()
    }) + executions_problems(state, graphs, logs, state.executions@.len())
        + invocations_problems(state.invocations@)
}

/// The declaration a coordinator log opens with: the run's format and key.
pub open spec fn opening(records: Seq<CoordinatorRecord>) -> Option<(u32, String)> {
    if records.len() == 0 {
        None
    } else {
        match *records[0].body {
            CoordinatorEvent::RunStarted {
                format_version,
                key,
                root,
                middleware_chain,
                forked_from,
            } => Some((format_version, key)),
            _ => None,
        }
    }
}

/// Why a run cannot be reconstructed.
pub open spec fn run_failure(
    records: Seq<CoordinatorRecord>,
    state: CoordinatorState,
    graphs: Seq<(GraphDigest, Graph)>,
    logs: Seq<ExecutionLog>,
) -> Option<InspectError> {
    match opening(records) {
        None => Some(InspectError::State(StateError::MissingRunStart)),
        Some(declared) => if declared.0 != COORDINATOR_FORMAT_VERSION {
            Some(
                InspectError::UnsupportedFormat {
                    found: declared.0,
                    expected: COORDINATOR_FORMAT_VERSION,
                },
            )
        } else {
            match first_failure(state, graphs, logs, 0) {
                Some(error) => Some(error),
                None => match state.root {
                    None => Some(InspectError::State(StateError::MissingRunStart)),
                    Some(root) => if state.spec_invocation(root) is None {
                        Some(InspectError::State(StateError::UnknownInvocation(root)))
                    } else {
                        None
                    },
                },
            }
        },
    }
}

/// Reconstruct a run from its records: the coordinator log, the state it
/// replays to, the registered graphs, and what is stored of each execution,
/// in the order of the state's executions.
///
/// Fails when the records do not support a trustworthy reconstruction. An
/// interrupted run is not an error; see [`RunInspection::incomplete`].
pub fn inspect_run(
    records: &Vec<CoordinatorRecord>,
    state: &CoordinatorState,
    graphs: &Vec<(GraphDigest, Graph)>,
    logs: &Vec<ExecutionLog>,
    locator: String,
) -> (document: Result<RunInspection, InspectError>)
    requires
        logs@.len() == state.executions@.len(),
    ensures
        match document {
            Err(error) => run_failure(records@, *state, graphs@, logs@) == Some(error),
            Ok(document) => {
                &&& run_failure(records@, *state, graphs@, logs@) is None
                &&& document.inspect_format_version == INSPECT_FORMAT_VERSION
                &&& document.coordinator_format_version == COORDINATOR_FORMAT_VERSION
                &&& document.locator == locator
                &&& Some(document.run_key) == (match opening(records@) {
                    Some(declared) => Some(declared.1),
                    None => None,
                })
                &&& texts(document.incomplete@) == run_problems(*state, graphs@, logs@)
                &&& document.complete == (run_problems(*state, graphs@, logs@).len() == 0)
                &&& document.status == (match state.run_status {
                    Some(status) => Some(status_name(status)),
                    None => None,
                })
                &&& document.paused == state.paused
                &&& document.notes == state.run_notes
                &&& Some(document.root.invocation) == state.root
                &&& state.spec_invocation(document.root.invocation) matches Some(root)
                    && document.root.final_execution == (match root.result {
                    Some(result) => Some(result.final_execution),
                    None => None,
                }) && document.root.latest_execution == (if root.executions@.len() > 0 {
                    Some(root.executions@.last())
                } else {
                    None
                })
                &&& document.middleware_chain == state.middleware_chain
                &&& document.graphs@ == state.graphs@
                &&& document.invocations@.len() == state.invocations@.len()
                &&& forall|i: int|
                    0 <= i < document.invocations@.len() ==> invocation_row(
                        *state,
                        state.invocations@[i],
                        #[trigger] document.invocations@[i],
                    )
                &&& document.executions@.len() == state.executions@.len()
                &&& forall|i: int|
                    0 <= i < document.executions@.len() ==> execution_row(
                        *state,
                        graph_of(*state, graphs@, state.executions@[i])->0,
                        state.executions@[i],
                        logs@[i],
                        #[trigger] document.executions@[i],
                    )
                &&& document.interviews is None
            },
        },
{
    if records.len() == 0 {
        return Err(InspectError::State(StateError::MissingRunStart));
    }
    let (format_version, run_key) = match &*records[0].body {
        CoordinatorEvent::RunStarted { format_version, key, .. } => (*format_version, key.clone()),
        _ => {
            return Err(InspectError::State(StateError::MissingRunStart));
        },
    };
    if format_version != COORDINATOR_FORMAT_VERSION {
        return Err(
            InspectError::UnsupportedFormat {
                found: format_version,
                expected: COORDINATOR_FORMAT_VERSION,
            },
        );
    }
    let mut incomplete: Vec<String> = Vec::new();
    if state.run_status.is_none() {
        push_text(&mut incomplete, "the run has not recorded its finish".to_owned());
    }
    let ghost opened = if state.run_status is None {
        seq!["the run has not recorded its finish"@]
    } else {
        Seq::empty()
    };
    assert(texts(incomplete@) =~= opened);
    let children = children_by_execution(state);
    let mut executions: Vec<ExecutionInspection> = Vec::new();
    let mut i: usize = 0;
    while i < state.executions.len()
        invariant
            i <= state.executions.len(),
            logs@.len() == state.executions@.len(),
            forall|execution: ExecutionId|
                #![trigger called_among(state.invocations@, execution)]
                children@.contains_key(execution.0) == (called_among(
                    state.invocations@,
                    execution,
                ).len() > 0),
            forall|execution: ExecutionId|
                #![trigger called_among(state.invocations@, execution)]
                children@.contains_key(execution.0) ==> children@[execution.0]@ == called_among(
                    state.invocations@,
                    execution,
                ),
            first_failure(*state, graphs@, logs@, 0) == first_failure(
                *state,
                graphs@,
                logs@,
                i as int,
            ),
            texts(incomplete@) == opened + executions_problems(
                *state,
                graphs@,
                logs@,
                i as nat,
            ),
            executions@.len() == i,
            opening(records@) == Some((format_version, run_key)),
            format_version == COORDINATOR_FORMAT_VERSION,
            forall|j: int|
                0 <= j < i ==> execution_row(
                    *state,
                    graph_of(*state, graphs@, state.executions@[j])->0,
                    state.executions@[j],
                    logs@[j],
                    #[trigger] executions@[j],
                ),
        decreases state.executions.len() - i,
    {
        let ghost known = called_among(state.invocations@, state.executions@[i as int].declaration.id);
        match inspect_execution(
            state,
            graphs,
            &state.executions[i],
            &logs[i],
            &children,
            &mut incomplete,
        ) {
            Ok(row) => {
                executions.push(row);
            },
            Err(error) => {
                return Err(error);
            },
        }
        i = i + 1;
        assert(texts(incomplete@) =~= opened + executions_problems(
            *state,
            graphs@,
            logs@,
            i as nat,
        ));
    }
    let ghost ran = texts(incomplete@);
    let mut invocations: Vec<InvocationInspection> = Vec::new();
    let mut k: usize = 0;
    assert(ran + Seq::empty() =~= ran);
    while k < state.invocations.len()
        invariant
            k <= state.invocations.len(),
            texts(incomplete@) == ran + invocations_problems(state.invocations@.take(k as int)),
            invocations@.len() == k,
            forall|j: int|
                0 <= j < k ==> invocation_row(
                    *state,
                    state.invocations@[j],
                    #[trigger] invocations@[j],
                ),
        decreases state.invocations.len() - k,
    {
        assert(state.invocations@.take(k + 1).drop_last() =~= state.invocations@.take(k as int));
        assert(state.invocations@.take(k + 1).last() == state.invocations@[k as int]);
        let row = inspect_invocation(state, &state.invocations[k], &mut incomplete);
        invocations.push(row);
        k = k + 1;
        assert(texts(incomplete@) =~= ran + invocations_problems(
            state.invocations@.take(k as int),
        ));
    }
    assert(state.invocations@.take(k as int) =~= state.invocations@);
    assert(texts(incomplete@) =~= run_problems(*state, graphs@, logs@));
    let root_id = match state.root {
        Some(root) => root,
        None => {
            return Err(InspectError::State(StateError::MissingRunStart));
        },
    };
    let root = match state.invocation(root_id) {
        Some(root) => root,
        None => {
            return Err(InspectError::State(StateError::UnknownInvocation(root_id)));
        },
    };
    let final_execution = match &root.result {
        Some(result) => Some(result.final_execution),
        None => None,
    };
    let latest_execution = if root.executions.len() > 0 {
        Some(root.executions[root.executions.len() - 1])
    } else {
        None
    };
    let status = match state.run_status {
        Some(status) => Some(name_of_status(status)),
        None => None,
    };
    let mut digests: Vec<GraphDigest> = Vec::new();
    let mut g: usize = 0;
    while g < state.graphs.len()
        invariant
            g <= state.graphs.len(),
            digests@ == state.graphs@.take(g as int),
        decreases state.graphs.len() - g,
    {
        digests.push(state.graphs[g]);
        g = g + 1;
        assert(digests@ =~= state.graphs@.take(g as int));
    }
    assert(digests@ =~= state.graphs@);
    let complete = incomplete.len() == 0;
    Ok(
        RunInspection {
            inspect_format_version: INSPECT_FORMAT_VERSION,
            coordinator_format_version: format_version,
            locator,
            run_key,
            complete,
            status,
            incomplete,
            paused: state.paused,
            notes: share(&state.run_notes),
            root: RootInspection { invocation: root_id, final_execution, latest_execution },
            middleware_chain: share(&state.middleware_chain),
            graphs: digests,
            invocations,
            executions,
            interviews: None,
        },
    )
}

/// A document is complete only when the run recorded its finish, every
/// invocation has its result, and every execution has its exit and a log its
/// replay reproduced whole.
pub proof fn law_complete_means_whole(
    state: CoordinatorState,
    graphs: Seq<(GraphDigest, Graph)>,
    logs: Seq<ExecutionLog>,
)
    requires
        run_problems(state, graphs, logs).len() == 0,
        logs.len() == state.executions@.len(),
        first_failure(state, graphs, logs, 0) is None,
    ensures
        state.run_status is Some,
        forall|i: int|
            0 <= i < state.invocations@.len() ==> (#[trigger] state.invocations@[i]).result is Some,
        forall|i: int|
            0 <= i < state.executions@.len() ==> (#[trigger] state.executions@[i]).exit is Some
                && log_coverage(logs[i]) == Some(
                Ok::<Coverage, ReplayMismatch>(Coverage::Verified),
            ),
{
    lemma_invocations_whole(state.invocations@);
    lemma_executions_whole(state, graphs, logs, state.executions@.len());
}

proof fn lemma_invocations_whole(invocations: Seq<InvocationState>)
    requires
        invocations_problems(invocations).len() == 0,
    ensures
        forall|i: int| 0 <= i < invocations.len() ==> (#[trigger] invocations[i]).result is Some,
    decreases invocations.len(),
{
    if invocations.len() > 0 {
        let rest = invocations.drop_last();
        lemma_invocations_whole(rest);
        assert forall|i: int| 0 <= i < invocations.len() implies (
        #[trigger] invocations[i]).result is Some by {
            if i < rest.len() {
                assert(rest[i] == invocations[i]);
            }
        }
    }
}

proof fn lemma_none_failed(
    state: CoordinatorState,
    graphs: Seq<(GraphDigest, Graph)>,
    logs: Seq<ExecutionLog>,
    from: int,
)
    requires
        0 <= from,
        first_failure(state, graphs, logs, from) is None,
    ensures
        forall|i: int|
            from <= i < state.executions@.len() ==> execution_failure(
                state,
                graphs,
                #[trigger] state.executions@[i],
                logs[i],
            ) is None,
    decreases state.executions@.len() - from,
{
    if from < state.executions@.len() {
        lemma_none_failed(state, graphs, logs, from + 1);
    }
}

proof fn lemma_executions_whole(
    state: CoordinatorState,
    graphs: Seq<(GraphDigest, Graph)>,
    logs: Seq<ExecutionLog>,
    count: nat,
)
    requires
        count <= state.executions@.len(),
        logs.len() == state.executions@.len(),
        executions_problems(state, graphs, logs, count).len() == 0,
        first_failure(state, graphs, logs, 0) is None,
    ensures
        forall|i: int|
            0 <= i < count ==> (#[trigger] state.executions@[i]).exit is Some && log_coverage(
                logs[i],
            ) == Some(Ok::<Coverage, ReplayMismatch>(Coverage::Verified)),
    decreases count,
{
    if count > 0 {
        lemma_executions_whole(state, graphs, logs, (count - 1) as nat);
        lemma_none_failed(state, graphs, logs, 0);
        let last = state.executions@[count - 1];
        let graph = graph_of(state, graphs, last)->0;
        assert(execution_problems(last, graph, logs[count - 1]).len() == 0);
        assert(execution_failure(state, graphs, last, logs[count - 1]) is None);
    }
}

} // verus!

//! What a finished execution leaves behind: the invocation result, read from
//! its final state.

use crate::event::InvocationResult;
use crate::ids::{ExecutionId, NodeId};
use crate::json::{share, Json};
use crate::model::{
    FailureInfo, Fields, Graph, Outcome, ResultProjection, RunStatus,
};
use crate::search::{first_where, last_where, lemma_first_absent, lemma_first_found};
use crate::search::{lemma_last_absent, lemma_last_found};
use crate::state::{EngineState, HistoryEntry, NodeRecord};
use std::sync::Arc;
use vstd::prelude::*;
use vstd::string::*;

verus! {

/// What an outcome failed with.
pub open spec fn failure_of(outcome: Arc<Outcome>) -> Option<FailureInfo> {
    outcome.status.failure
}

/// What the last failing record of a history failed with.
pub open spec fn last_failure(history: Seq<HistoryEntry>) -> Option<FailureInfo> {
    match last_where(history, |entry: HistoryEntry| failure_of(entry.outcome) is Some) {
        Some(entry) => failure_of(entry.outcome),
        None => None,
    }
}

/// Whether a failure says exactly this, under no class.
pub open spec fn bare_failure(failure: Option<FailureInfo>, message: Seq<char>) -> bool {
    match failure {
        Some(failure) => failure.message@ == message && failure.class is None,
        None => false,
    }
}

/// The last engine error, or that the execution failed when there is none.
pub open spec fn failure_message(errors: Seq<String>) -> Seq<char> {
    if errors.len() > 0 {
        errors.last()@
    } else {
        "execution failed"@
    }
}

/// What a finished execution failed with: its last failing record, or the
/// engine's own last error when it failed and no record did.
pub open spec fn fails_with(
    state: EngineState,
    status: RunStatus,
    failure: Option<FailureInfo>,
) -> bool {
    match last_failure(state.history@) {
        Some(info) => failure == Some(info),
        None => if status == RunStatus::Failed {
            bare_failure(failure, failure_message(state.errors@))
        } else {
            failure is None
        },
    }
}

/// Whether an entry of the run context is the one under a name.
pub open spec fn under_name(name: Seq<char>) -> spec_fn((String, NodeRecord)) -> bool {
    |entry: (String, NodeRecord)| entry.0@ == name
}

/// What the run context holds of the node with a name.
pub open spec fn node_context(nodes: Seq<(String, NodeRecord)>, name: Seq<char>) -> Option<
    NodeRecord,
> {
    match first_where(nodes, under_name(name)) {
        Some(entry) => Some(entry.1),
        None => None,
    }
}

/// What the declared result node left behind.
pub open spec fn result_record(graph: Graph, state: EngineState, node: NodeId) -> Option<
    NodeRecord,
> {
    match graph.spec_node(node) {
        Some(node) => node_context(state.nodes@, node.name@),
        None => None,
    }
}

/// What an outcome wrote into the run context.
pub open spec fn updates_of(outcome: Arc<Outcome>) -> Fields {
    outcome.context_updates
}

/// What a node wrote, from its final record.
pub open spec fn node_updates(state: EngineState, node: NodeId) -> Seq<(String, Json)> {
    match state.spec_last_of(node) {
        Some(entry) => updates_of(entry.outcome)@,
        None => Seq::empty(),
    }
}

/// The class of a failure to produce the declared result.
pub const INVALID_RESULT_CLASS: &'static str = "invalid_invocation_result";

/// Whether a failure says that the declared result node did not run.
pub open spec fn result_missing(failure: Option<FailureInfo>) -> bool {
    match failure {
        Some(failure) => {
            &&& failure.message@ == "the declared invocation result node did not run"@
            &&& failure.class matches Some(class) && class@ == INVALID_RESULT_CLASS@
        },
        None => false,
    }
}

/// What a finished execution returns: the output of the graph's result node
/// and what that node wrote, with the run context. An execution that
/// succeeded without running its result node has failed.
pub open spec fn projects(
    execution: ExecutionId,
    status: RunStatus,
    graph: Graph,
    state: EngineState,
    result: InvocationResult,
) -> bool {
    &&& result.final_execution == execution
    &&& result.context == state.kv
    &&& match graph.result {
        ResultProjection::Nothing => {
            &&& result.status == status
            &&& fails_with(state, status, result.failure)
            &&& result.output is Null
            &&& result.updates@ == Seq::<(String, Json)>::empty()
        },
        ResultProjection::NodeOutput(node) => match result_record(graph, state, node) {
            Some(record) => {
                &&& result.status == status
                &&& fails_with(state, status, result.failure)
                &&& result.output == record.output
                &&& result.updates@ == node_updates(state, node)
            },
            None => {
                &&& result.output is Null
                &&& result.updates@ == Seq::<(String, Json)>::empty()
                &&& if status == RunStatus::Success {
                    result.status == RunStatus::Failed && result_missing(result.failure)
                } else {
                    result.status == status && fails_with(state, status, result.failure)
                }
            },
        },
    }
}

fn find_failure(history: &Vec<HistoryEntry>) -> (failure: Option<FailureInfo>)
    ensures
        failure == last_failure(history@),
{
    let ghost p = |entry: HistoryEntry| failure_of(entry.outcome) is Some;
    let mut i: usize = history.len();
    while i > 0
        invariant
            i <= history.len(),
            p == (|entry: HistoryEntry| failure_of(entry.outcome) is Some),
            forall|j: int| i <= j < history@.len() ==> !p(#[trigger] history@[j]),
        decreases i,
    {
        i = i - 1;
        if let Some(failure) = &history[i].outcome.status.failure {
            proof {
                assert(p(history@[i as int]));
                lemma_last_found(history@, p, i as int);
            }
            return Some(failure.clone());
        }
        assert(!p(history@[i as int]));
    }
    proof {
        lemma_last_absent(history@, p);
    }
    None
}

fn find_context<'a>(nodes: &'a Vec<(String, NodeRecord)>, name: &String) -> (found: Option<
    &'a NodeRecord,
>)
    ensures
        found == (match node_context(nodes@, name@) {
            Some(record) => Some(&record),
            None => None,
        }),
{
    let ghost p = under_name(name@);
    let mut i: usize = 0;
    while i < nodes.len()
        invariant
            i <= nodes.len(),
            p == under_name(name@),
            forall|j: int| 0 <= j < i ==> !p(#[trigger] nodes@[j]),
        decreases nodes.len() - i,
    {
        if nodes[i].0 == *name {
            proof {
                lemma_first_found(nodes@, p, i as int);
            }
            return Some(&nodes[i].1);
        }
        i = i + 1;
    }
    proof {
        lemma_first_absent(nodes@, p);
    }
    None
}

fn execution_failure(state: &EngineState, status: RunStatus) -> (failure: Option<FailureInfo>)
    ensures
        fails_with(*state, status, failure),
{
    match find_failure(&state.history) {
        Some(failure) => Some(failure),
        None => if status == RunStatus::Failed {
            let message = if state.errors.len() > 0 {
                state.errors[state.errors.len() - 1].clone()
            } else {
                "execution failed".to_owned()
            };
            Some(FailureInfo { message, class: None })
        } else {
            None
        },
    }
}

/// What a finished execution returns to its caller.
pub fn project_result(
    execution: ExecutionId,
    status: RunStatus,
    graph: &Graph,
    state: &EngineState,
) -> (result: InvocationResult)
    ensures
        projects(execution, status, *graph, *state, result),
{
    let failure = execution_failure(state, status);
    let nothing: Fields = Arc::new(Vec::new());
    let node = match graph.result {
        ResultProjection::Nothing => {
            return InvocationResult {
                status,
                failure,
                final_execution: execution,
                output: Json::Null,
                context: share(&state.kv),
                updates: nothing,
            };
        },
        ResultProjection::NodeOutput(node) => node,
    };
    let record = match graph.node(node) {
        Some(node) => find_context(&state.nodes, &node.name),
        None => None,
    };
    match record {
        Some(record) => {
            let updates = match state.last_of(node) {
                Some(entry) => share(&entry.outcome.context_updates),
                None => nothing,
            };
            InvocationResult {
                status,
                failure,
                final_execution: execution,
                output: record.output.clone(),
                context: share(&state.kv),
                updates,
            }
        },
        None => {
            let (status, failure) = if status == RunStatus::Success {
                (
                    RunStatus::Failed,
                    Some(
                        FailureInfo {
                            message: "the declared invocation result node did not run".to_owned(),
                            class: Some(INVALID_RESULT_CLASS.to_owned()),
                        },
                    ),
                )
            } else {
                (status, failure)
            };
            InvocationResult {
                status,
                failure,
                final_execution: execution,
                output: Json::Null,
                context: share(&state.kv),
                updates: nothing,
            }
        },
    }
}

/// A failed invocation always says why.
pub proof fn law_failed_result_says_why(
    execution: ExecutionId,
    status: RunStatus,
    graph: Graph,
    state: EngineState,
    result: InvocationResult,
)
    requires
        projects(execution, status, graph, state, result),
        result.status == RunStatus::Failed,
    ensures
        result.failure is Some,
{
    let p = |entry: HistoryEntry| failure_of(entry.outcome) is Some;
    lemma_last_satisfies(state.history@, p);
}

proof fn lemma_last_satisfies(history: Seq<HistoryEntry>, p: spec_fn(HistoryEntry) -> bool)
    ensures
        last_where(history, p) matches Some(entry) ==> p(entry),
    decreases history.len(),
{
    if history.len() > 0 && !p(history.last()) {
        lemma_last_satisfies(history.drop_last(), p);
    }
}

/// A successful invocation of a graph with a result node returns what that
/// node left behind.
pub proof fn law_success_returns_the_result_node(
    execution: ExecutionId,
    status: RunStatus,
    graph: Graph,
    state: EngineState,
    result: InvocationResult,
    node: NodeId,
)
    requires
        projects(execution, status, graph, state, result),
        graph.result == ResultProjection::NodeOutput(node),
        result.status == RunStatus::Success,
    ensures
        result_record(graph, state, node) matches Some(record) && result.output == record.output,
        result.updates@ == node_updates(state, node),
{
}

} // verus!

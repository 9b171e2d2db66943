//! What the coordinator does as a run goes on: cancels, results, successions
//! and resumes.

use crate::coordinator::{
    limit_refused, DEFAULT_MAX_INVOCATIONS, MAX_INVOCATIONS, CoordinatorError, CoordinatorOptions,
    InvocationLimitError,
};
use crate::coordinator::drive::{
    cancels_all, declares_first, declares_root, declares_successor, has_live_descendant,
    has_successor, is_next, leases_refused, note_records, parent_of, resume_refused, root_refused,
    secret_chain, surviving, CompletedExecution, ResumedRun, RunLevelNote,
};
use crate::coordinator::gate::{admission_of, in_use, ForkGate};
use crate::coordinator::leases::{resources_refused, LeaseRecord};
use crate::coordinator::live::{running, runs, with_lease, LiveInvocation};
use crate::coordinator::result::{failure_of, last_failure, projects, under_name};
use crate::coordinator::start::{attach_cancels, is_cancelled, is_incomplete};
use crate::coordinator::tree::{
    caller_of, cancel_records, cancel_told, descends, law_cancel_reaches_unfinished_descendants,
    uncancelled, unfinished_under, Affected,
};
use crate::event::{
    COORDINATOR_FORMAT_VERSION, CancelReason, CoordinatorEvent, InvocationResult, MiddlewareState,
    SandboxBinding,
};
use crate::ids::{ExecutionId, GraphDigest, InvocationId, NodeId, SandboxLeaseId, ScopeId};
use crate::json::same_fields;
use crate::laws::telling::lemma_first_where;
use crate::model::{Fields, Graph, ResultProjection, RunStatus};
use crate::record::{CancelTarget, EntryPoint, Event};
use crate::run_state::{CoordinatorState, ExecutionState, InvocationState, StoreError};
use crate::search::{
    lemma_first_absent, lemma_first_found, lemma_last_absent, lemma_last_found, lemma_lookup_found,
    lookup,
};
use crate::state::{EngineState, HistoryEntry};
use vstd::prelude::*;

verus! {

// ── The tree ───────────────────────────────────────────────────────────

/// An invocation descends from itself, from the invocation whose execution
/// called it, and from whatever that one descends from; and from nothing
/// else.
pub proof fn law_a_child_descends_from_its_caller(
    state: CoordinatorState,
    invocation: InvocationState,
    caller: ExecutionState,
    ancestor: InvocationId,
)
    requires
        state.spec_invocation(invocation.declaration.id) == Some(invocation),
    ensures
        descends(state, invocation.declaration.id, invocation.declaration.id),
        invocation.declaration.call is None && ancestor != invocation.declaration.id ==> !descends(
            state,
            invocation.declaration.id,
            ancestor,
        ),
        invocation.declaration.call matches Some(call) ==> (state.spec_execution(call.parent)
            == Some(caller) && caller.declaration.invocation.0 < invocation.declaration.id.0 ==> {
            &&& descends(state, invocation.declaration.id, caller.declaration.invocation)
            &&& ancestor != invocation.declaration.id ==> (descends(
                state,
                invocation.declaration.id,
                ancestor,
            ) <==> descends(state, caller.declaration.invocation, ancestor))
        }),
{
    reveal_with_fuel(descends, 2);
    if let Some(call) = invocation.declaration.call {
        if state.spec_execution(call.parent) == Some(caller) {
            assert(caller_of(state, invocation.declaration.id) == Some(
                caller.declaration.invocation,
            ));
            assert(descends(
                state,
                caller.declaration.invocation,
                caller.declaration.invocation,
            ));
        }
    }
}

/// A cancel records one request for each unfinished invocation at or below
/// the one it names that was not cancelled before, with the reason on the
/// named one alone; and it tells those, and when it escalates also the ones
/// that were cancelled before. Nothing else is recorded or told.
pub proof fn law_what_a_cancel_does(
    state: CoordinatorState,
    requested: InvocationId,
    reason: Option<CancelReason>,
    escalate: bool,
    invocation: InvocationState,
)
    requires
        state.in_order(),
        state.invocations@.contains(invocation),
    ensures
        ({
            let affected = unfinished_under(state, state.invocations@, requested, true);
            let records = cancel_records(affected, requested, reason);
            let told = cancel_told(affected, escalate);
            let id = invocation.declaration.id;
            let reached = invocation.result is None && descends(state, id, requested);
            &&& records.contains(
                CoordinatorEvent::InvocationCancelRequested {
                    invocation: id,
                    reason: if id == requested {
                        reason
                    } else {
                        None
                    },
                },
            ) <==> reached && !invocation.cancelled
            &&& told.contains(id) <==> reached && (escalate || !invocation.cancelled)
        }),
{
    let id = invocation.declaration.id;
    let affected = unfinished_under(state, state.invocations@, requested, true);
    law_cancel_reaches_unfinished_descendants(state, requested, id, true);
    law_cancel_reaches_unfinished_descendants(state, requested, id, false);
    let at = choose|i: int| 0 <= i < state.invocations@.len() && state.invocations@[i] == invocation;
    assert forall|i: int|
        0 <= i < state.invocations@.len() && (#[trigger] state.invocations@[i]).declaration.id
            == id implies i == at by {
        if i < at {
            assert(state.invocations@[i].declaration.id.0
                < state.invocations@[at].declaration.id.0);
        } else if at < i {
            assert(state.invocations@[at].declaration.id.0
                < state.invocations@[i].declaration.id.0);
        }
    }
    assert(state.invocations@[at].declaration.id == id);
    lemma_recorded(affected, requested, reason, id);
    lemma_told(affected, escalate, id);
}

proof fn lemma_recorded(
    affected: Seq<Affected>,
    requested: InvocationId,
    reason: Option<CancelReason>,
    id: InvocationId,
)
    ensures
        cancel_records(affected, requested, reason).contains(
            CoordinatorEvent::InvocationCancelRequested {
                invocation: id,
                reason: if id == requested {
                    reason
                } else {
                    None
                },
            },
        ) <==> affected.contains((id, false)),
        forall|i: int|
            0 <= i < cancel_records(affected, requested, reason).len() ==> (#[trigger] cancel_records(
                affected,
                requested,
                reason,
            )[i]) is InvocationCancelRequested,
    decreases affected.len(),
{
    let event = CoordinatorEvent::InvocationCancelRequested {
        invocation: id,
        reason: if id == requested {
            reason
        } else {
            None
        },
    };
    let all = cancel_records(affected, requested, reason);
    if affected.len() > 0 {
        let rest = affected.drop_last();
        lemma_recorded(rest, requested, reason, id);
        let before = cancel_records(rest, requested, reason);
        let n = affected.len() - 1;
        assert(affected[n] == affected.last());
        if all.contains(event) {
            let k = choose|k: int| 0 <= k < all.len() && all[k] == event;
            if k < before.len() {
                assert(before[k] == event);
                let i = choose|i: int| 0 <= i < rest.len() && rest[i] == (id, false);
                assert(affected[i] == (id, false));
            } else {
                assert(affected[n] == (id, false));
            }
        }
        if affected.contains((id, false)) {
            let i = choose|i: int| 0 <= i < affected.len() && affected[i] == (id, false);
            if i < n {
                assert(rest[i] == (id, false));
                let k = choose|k: int| 0 <= k < before.len() && before[k] == event;
                assert(all[k] == event);
            } else {
                assert(all[all.len() - 1] == event);
            }
        }
    }
}

proof fn lemma_told(affected: Seq<Affected>, escalate: bool, id: InvocationId)
    ensures
        cancel_told(affected, escalate).contains(id) <==> affected.contains((id, false)) || (escalate
            && affected.contains((id, true))),
    decreases affected.len(),
{
    let all = cancel_told(affected, escalate);
    if affected.len() > 0 {
        let rest = affected.drop_last();
        lemma_told(rest, escalate, id);
        let before = cancel_told(rest, escalate);
        let n = affected.len() - 1;
        assert(affected[n] == affected.last());
        assert forall|b: bool| #[trigger] affected.contains((id, b)) <==> rest.contains((id, b))
            || affected[n] == (id, b) by {
            if affected.contains((id, b)) {
                let i = choose|i: int| 0 <= i < affected.len() && affected[i] == (id, b);
                if i < n {
                    assert(rest[i] == (id, b));
                }
            }
            if rest.contains((id, b)) {
                let i = choose|i: int| 0 <= i < rest.len() && rest[i] == (id, b);
                assert(affected[i] == (id, b));
            }
        }
        assert(affected.contains((id, false)) == (rest.contains((id, false)) || affected[n] == (
            id,
            false,
        )));
        assert(affected.contains((id, true)) == (rest.contains((id, true)) || affected[n] == (
            id,
            true,
        )));
        assert(affected[n] == (affected[n].0, affected[n].1));
        if all.contains(id) {
            let k = choose|k: int| 0 <= k < all.len() && all[k] == id;
            if k < before.len() {
                assert(before[k] == id);
            }
        }
        if before.contains(id) {
            let k = choose|k: int| 0 <= k < before.len() && before[k] == id;
            assert(all[k] == id);
        }
        if affected[n].0 == id && (escalate || !affected[n].1) {
            assert(all[all.len() - 1] == id);
        }
    }
}

/// Settling cancels the descendants that were not cancelled, all of them and
/// no other.
pub proof fn law_settling_cancels_the_rest(affected: Seq<Affected>, id: InvocationId)
    ensures
        uncancelled(affected).contains((id, false)) <==> affected.contains((id, false)),
        !uncancelled(affected).contains((id, true)),
    decreases affected.len(),
{
    let all = uncancelled(affected);
    if affected.len() > 0 {
        let rest = affected.drop_last();
        law_settling_cancels_the_rest(rest, id);
        let before = uncancelled(rest);
        let n = affected.len() - 1;
        assert(affected[n] == affected.last());
        if all.contains((id, false)) {
            let k = choose|k: int| 0 <= k < all.len() && all[k] == (id, false);
            if k < before.len() {
                assert(before[k] == (id, false));
                let i = choose|i: int| 0 <= i < rest.len() && rest[i] == (id, false);
                assert(affected[i] == (id, false));
            }
        }
        if affected.contains((id, false)) {
            let i = choose|i: int| 0 <= i < affected.len() && affected[i] == (id, false);
            if i < n {
                assert(rest[i] == (id, false));
                let k = choose|k: int| 0 <= k < before.len() && before[k] == (id, false);
                assert(all[k] == (id, false));
            } else {
                assert(all[all.len() - 1] == (id, false));
            }
        }
        if all.contains((id, true)) {
            let k = choose|k: int| 0 <= k < all.len() && all[k] == (id, true);
            if k < before.len() {
                assert(before[k] == (id, true));
            }
        }
    }
}

/// An attach cancels a child that has neither a result nor a cancel, exactly
/// when nobody took the answer or the caller's own invocation is cancelled.
pub proof fn law_when_an_attach_cancels(
    state: CoordinatorState,
    parent: ExecutionId,
    child: InvocationState,
    delivered: bool,
    caller: ExecutionState,
    owner: InvocationState,
)
    requires
        state.spec_invocation(child.declaration.id) == Some(child),
        state.spec_execution(parent) == Some(caller),
        state.spec_invocation(caller.declaration.invocation) == Some(owner),
    ensures
        attach_cancels(state, parent, child.declaration.id, delivered) <==> child.result is None
            && !child.cancelled && (!delivered || owner.cancelled),
        is_incomplete(state, child.declaration.id) <==> child.result is None,
        is_cancelled(state, child.declaration.id) <==> child.cancelled,
{
}

// ── Results ────────────────────────────────────────────────────────────

/// What an invocation returns: its final execution, that execution's context,
/// and the output its result node left in it, with what that node's last
/// final record wrote. A graph without a result node returns nothing.
pub proof fn law_what_an_invocation_returns(
    execution: ExecutionId,
    status: RunStatus,
    graph: Graph,
    state: EngineState,
    result: InvocationResult,
)
    requires
        projects(execution, status, graph, state, result),
    ensures
        result.final_execution == execution,
        result.context == state.kv,
        graph.result is Nothing ==> result.status == status && result.output is Null
            && result.updates@.len() == 0,
        graph.result matches ResultProjection::NodeOutput(node) ==> (graph.spec_node(
            node,
        ) matches Some(found) ==> {
            &&& forall|i: int|
                #![trigger state.nodes@[i]]
                0 <= i < state.nodes@.len() && state.nodes@[i].0@ == found.name@ && (forall|j: int|
                    0 <= j < i ==> (#[trigger] state.nodes@[j]).0@ != found.name@)
                    ==> result.status == status && result.output == state.nodes@[i].1.output && (
                forall|k: int|
                    #![trigger state.history@[k]]
                    0 <= k < state.history@.len() && state.history@[k].node == node && (forall|
                        j: int,
                    |
                        k < j < state.history@.len() ==> (#[trigger] state.history@[j]).node != node)
                        ==> result.updates@ == state.history@[k].outcome.context_updates@)
            &&& (forall|i: int|
                0 <= i < state.nodes@.len() ==> (#[trigger] state.nodes@[i]).0@ != found.name@)
                ==> result.output is Null && result.updates@.len() == 0 && result.status == (
            if status is Success {
                RunStatus::Failed
            } else {
                status
            })
        }),
{
    if let ResultProjection::NodeOutput(node) = graph.result {
        if let Some(found) = graph.spec_node(node) {
            lemma_first_where(
                state.nodes@,
                under_name(found.name@),
            );
            let p = under_name(found.name@);
            assert forall|i: int|
                #![trigger state.nodes@[i]]
                0 <= i < state.nodes@.len() && state.nodes@[i].0@ == found.name@ && (forall|j: int|
                    0 <= j < i ==> (#[trigger] state.nodes@[j]).0@ != found.name@) implies
                result.status == status && result.output == state.nodes@[i].1.output && (forall|
                k: int,
            |
                #![trigger state.history@[k]]
                0 <= k < state.history@.len() && state.history@[k].node == node && (forall|j: int|
                    k < j < state.history@.len() ==> (#[trigger] state.history@[j]).node != node)
                    ==> result.updates@ == state.history@[k].outcome.context_updates@) by {
                assert forall|j: int| 0 <= j < i implies !p(#[trigger] state.nodes@[j]) by {
                    assert(state.nodes@[j].0@ != found.name@);
                }
                lemma_first_found(state.nodes@, p, i);
                let q = |entry: HistoryEntry| entry.node == node;
                assert forall|k: int|
                    #![trigger state.history@[k]]
                    0 <= k < state.history@.len() && state.history@[k].node == node && (forall|
                        j: int,
                    |
                        k < j < state.history@.len() ==> (#[trigger] state.history@[j]).node
                            != node) implies result.updates@
                    == state.history@[k].outcome.context_updates@ by {
                    assert forall|j: int| k < j < state.history@.len() implies !q(
                        #[trigger] state.history@[j],
                    ) by {
                        assert(state.history@[j].node != node);
                    }
                    lemma_last_found(state.history@, q, k);
                }
            }
            if forall|i: int|
                0 <= i < state.nodes@.len() ==> (#[trigger] state.nodes@[i]).0@ != found.name@ {
                assert forall|j: int| 0 <= j < state.nodes@.len() implies !p(
                    #[trigger] state.nodes@[j],
                ) by {
                    assert(state.nodes@[j].0@ != found.name@);
                }
                lemma_first_absent(state.nodes@, p);
            }
        }
    }
}

/// What an invocation failed with: the last of its final records that failed;
/// where none did, the engine's last error, or that the execution failed, for
/// a failed status, and nothing for another. An invocation that succeeded
/// without running its result node failed with just that.
pub proof fn law_what_an_invocation_failed_with(
    execution: ExecutionId,
    status: RunStatus,
    graph: Graph,
    state: EngineState,
    result: InvocationResult,
)
    requires
        projects(execution, status, graph, state, result),
    ensures
        result.status != status ==> status is Success && result.status is Failed && (
        result.failure matches Some(failure) && failure.message@
            == "the declared invocation result node did not run"@ && (
        failure.class matches Some(class) && class@ == "invalid_invocation_result"@)),
        result.status == status ==> {
            &&& forall|k: int|
                #![trigger state.history@[k]]
                0 <= k < state.history@.len() && state.history@[k].outcome.status.failure is Some && (
                forall|j: int|
                    k < j < state.history@.len() ==> (
                    #[trigger] state.history@[j]).outcome.status.failure is None)
                    ==> result.failure == state.history@[k].outcome.status.failure
            &&& (forall|j: int|
                0 <= j < state.history@.len() ==> (
                #[trigger] state.history@[j]).outcome.status.failure is None) ==> if status
                == RunStatus::Failed {
                result.failure matches Some(failure) && failure.class is None && failure.message@
                    == (if state.errors@.len() > 0 {
                    state.errors@[state.errors@.len() - 1]@
                } else {
                    "execution failed"@
                })
            } else {
                result.failure is None
            }
        },
{
    let p = |entry: HistoryEntry|
        failure_of(entry.outcome) is Some;
    assert forall|k: int|
        #![trigger state.history@[k]]
        0 <= k < state.history@.len() && state.history@[k].outcome.status.failure is Some && (forall|
            j: int,
        |
            k < j < state.history@.len() ==> (
            #[trigger] state.history@[j]).outcome.status.failure is None) implies last_failure(
        state.history@,
    ) == state.history@[k].outcome.status.failure by {
        assert(p(state.history@[k]));
        assert forall|j: int| k < j < state.history@.len() implies !p(
            #[trigger] state.history@[j],
        ) by {
            assert(state.history@[j].outcome.status.failure is None);
        }
        lemma_last_found(state.history@, p, k);
    }
    if forall|j: int|
        0 <= j < state.history@.len() ==> (
        #[trigger] state.history@[j]).outcome.status.failure is None {
        assert forall|j: int| 0 <= j < state.history@.len() implies !p(
            #[trigger] state.history@[j],
        ) by {
            assert(state.history@[j].outcome.status.failure is None);
        }
        lemma_last_absent(state.history@, p);
    }
}

// ── Successions ────────────────────────────────────────────────────────

/// The root of a run is declared for the requested graph and context, called
/// by nobody, in sandboxes of its own, unbounded.
pub proof fn law_the_root_is_what_was_asked_for(
    event: CoordinatorEvent,
    graph: GraphDigest,
    context: Fields,
)
    requires
        declares_root(event, graph, context),
    ensures
        event matches CoordinatorEvent::InvocationDeclared {
            invocation,
            call,
            graph: g,
            context: c,
            secret_bindings,
            sandbox,
            admission,
        } && invocation.0 == 0 && call is None && g == graph && c == context
            && secret_bindings is NoSecrets && sandbox is Isolated && admission is None,
{
}

/// A root request is taken for a registered graph and a context without
/// secrets, when the run has no root yet or one of that graph and context.
pub proof fn law_which_root_requests_are_taken(
    state: CoordinatorState,
    graph: GraphDigest,
    context: Fields,
    holds_secret: bool,
)
    ensures
        ({
            let refused = root_refused(state, graph, context, holds_secret);
            &&& refused is None <==> state.graphs@.contains(graph) && !holds_secret && (
            state.spec_invocation(InvocationId(0)) matches Some(root) ==> root.declaration.graph
                == graph && same_fields(root.declaration.context@, context@))
            &&& !state.graphs@.contains(graph) ==> refused == Some(
                CoordinatorError::UnknownGraph(graph),
            )
            &&& state.graphs@.contains(graph) && holds_secret ==> refused == Some(
                CoordinatorError::SecretInDurableData,
            )
            &&& state.graphs@.contains(graph) && !holds_secret ==> (refused matches Some(error)
                ==> error == CoordinatorError::RootRequestMismatch)
        }),
{
}

/// An invocation's first execution starts at the graph's entries with the
/// invocation's own context, as the first, with the chain's initial state;
/// the one after a restart starts at the restart's target with no context,
/// under the next number, with the state its predecessor left.
pub proof fn law_one_execution_after_another(
    first: CoordinatorEvent,
    invocation: InvocationState,
    execution: ExecutionId,
    max_executions: u32,
    middleware: MiddlewareState,
    second: CoordinatorEvent,
    done: CompletedExecution,
    next: ExecutionId,
    target: NodeId,
    prior: Seq<(NodeId, u32)>,
    index: nat,
)
    requires
        declares_first(first, invocation, execution, max_executions, middleware),
        declares_successor(second, done, next, target, prior, index, max_executions),
    ensures
        first matches CoordinatorEvent::ExecutionDeclared {
            execution: e,
            invocation: i,
            predecessor,
            start,
            middleware_state,
        } && e == execution && i == invocation.declaration.id && predecessor is None
            && start.entry is GraphEntries && start.context == invocation.declaration.context
            && start.prior_firings@.len() == 0 && start.execution_index == 0
            && start.max_executions == max_executions && middleware_state == middleware,
        second matches CoordinatorEvent::ExecutionDeclared {
            execution: e,
            invocation: i,
            predecessor,
            start,
            middleware_state,
        } && e == next && i == done.invocation && predecessor == Some(done.execution) && (
        start.entry matches EntryPoint::Node(node) && node == target) && start.context@.len() == 0
            && start.prior_firings@ == prior && start.execution_index == index
            && start.max_executions == max_executions && middleware_state == done.middleware_state,
{
}

/// A succession carries the firing counts of the nodes the graph still has,
/// each as it was, and drops the others.
pub proof fn law_counts_survive_with_their_nodes(
    prior: Seq<(NodeId, u32)>,
    graph: Graph,
    pair: (NodeId, u32),
)
    ensures
        surviving(prior, graph).contains(pair) <==> prior.contains(pair) && graph.spec_node(
            pair.0,
        ) is Some,
    decreases prior.len(),
{
    let all = surviving(prior, graph);
    if prior.len() > 0 {
        let rest = prior.drop_last();
        law_counts_survive_with_their_nodes(rest, graph, pair);
        let before = surviving(rest, graph);
        let n = prior.len() - 1;
        assert(prior[n] == prior.last());
        if all.contains(pair) {
            let k = choose|k: int| 0 <= k < all.len() && all[k] == pair;
            if k < before.len() {
                assert(before[k] == pair);
                let i = choose|i: int| 0 <= i < rest.len() && rest[i] == pair;
                assert(prior[i] == pair);
            } else {
                assert(prior[n] == pair);
            }
        }
        if prior.contains(pair) && graph.spec_node(pair.0) is Some {
            let i = choose|i: int| 0 <= i < prior.len() && prior[i] == pair;
            if i < n {
                assert(rest[i] == pair);
                let k = choose|k: int| 0 <= k < before.len() && before[k] == pair;
                assert(all[k] == pair);
            } else {
                assert(all[all.len() - 1] == pair);
            }
        }
    }
}

/// An execution is followed when one names it as its predecessor.
pub proof fn law_what_follows_an_execution(
    executions: Seq<ExecutionState>,
    execution: ExecutionId,
    i: int,
)
    ensures
        0 <= i < executions.len() && executions[i].declaration.predecessor == Some(execution)
            ==> has_successor(executions, execution),
        (forall|j: int|
            0 <= j < executions.len() ==> (#[trigger] executions[j]).declaration.predecessor
                != Some(execution)) ==> !has_successor(executions, execution),
{
}

/// A stopped execution completes next when no other live invocation stands
/// below its own, and every lower stopped one has such an invocation.
pub proof fn law_which_execution_completes_next(
    state: CoordinatorState,
    live: Map<u64, LiveInvocation>,
    completed: Map<u64, CompletedExecution>,
    id: u64,
    other: u64,
)
    requires
        is_next(state, live, completed, id),
        live.contains_key(other),
        other != id,
    ensures
        completed.contains_key(id),
        !descends(state, InvocationId(other), InvocationId(id)),
        forall|lower: u64| #[trigger]
            completed.contains_key(lower) && lower < id ==> exists|below: u64| #[trigger]
                live.contains_key(below) && below != lower && descends(
                    state,
                    InvocationId(below),
                    InvocationId(lower),
                ),
{
    assert forall|lower: u64| #[trigger]
        completed.contains_key(lower) && lower < id implies exists|below: u64| #[trigger]
        live.contains_key(below) && below != lower && descends(
            state,
            InvocationId(below),
            InvocationId(lower),
        ) by {
        assert(has_live_descendant(state, live, InvocationId(lower)));
    }
}

/// Only a cancel or a kill of the whole execution cancels all of it.
pub proof fn law_what_cancels_an_execution(event: Event)
    ensures
        cancels_all(event) <==> (event matches Event::CancelRequested {
            target: CancelTarget::Scope(scope),
        } && scope.0 == 0) || (event matches Event::KillRequested { scope } && scope.0 == 0),
{
}

/// An invocation's secrets go through its own bindings first and then its
/// caller's, up to the root's, which has none.
pub proof fn law_secrets_go_through_every_caller(
    state: CoordinatorState,
    invocation: InvocationState,
    caller: ExecutionState,
)
    requires
        state.spec_invocation(invocation.declaration.id) == Some(invocation),
        invocation.declaration.id.0 != 0,
        invocation.declaration.call matches Some(call) && state.spec_execution(call.parent) == Some(
            caller,
        ),
        caller.declaration.invocation.0 < invocation.declaration.id.0,
    ensures
        ({
            let own = secret_chain(state, invocation.declaration.id);
            let above = secret_chain(state, caller.declaration.invocation);
            &&& own.len() == above.len() + 1
            &&& own[0] == invocation.declaration.secret_bindings
            &&& forall|i: int| 0 <= i < above.len() ==> #[trigger] above[i] == own[i + 1]
        }),
        secret_chain(state, InvocationId(0)).len() == 0,
{
}

/// What the hooks are told of an execution's caller is its invocation's call.
pub proof fn law_hooks_know_the_caller(invocation: InvocationState)
    ensures
        parent_of(invocation) is Some <==> invocation.declaration.call is Some,
        invocation.declaration.call matches Some(call) ==> (parent_of(invocation) matches Some(link)
            && link.execution == call.parent && link.firing == call.firing && link.attempt
            == call.attempt && link.slot == call.slot),
{
}

/// The notes of run-level points are recorded in their order, each as it was
/// made, for the execution that made it.
pub proof fn law_run_notes_are_recorded_as_made(
    execution: ExecutionId,
    notes: Seq<RunLevelNote>,
    i: int,
)
    requires
        0 <= i < notes.len(),
    ensures
        note_records(execution, notes).len() == notes.len(),
        note_records(execution, notes)[i] matches CoordinatorEvent::RunNoteRecorded {
            execution: of,
            kind,
            payload,
        } && of == Some(execution) && kind == notes[i].kind && payload == notes[i].payload,
{
}

// ── Resumes ────────────────────────────────────────────────────────────

/// A run may be held to any limit from one to the ceiling, and to no other.
pub proof fn law_which_limits_are_allowed(limit: u32)
    ensures
        limit_refused(limit) is None <==> 1 <= limit <= MAX_INVOCATIONS,
        limit == 0 ==> limit_refused(limit) == Some(InvocationLimitError::Disabled),
        limit > MAX_INVOCATIONS ==> limit_refused(limit) == Some(
            InvocationLimitError::AboveCeiling { requested: limit, ceiling: MAX_INVOCATIONS },
        ),
        DEFAULT_MAX_INVOCATIONS == 1024,
        MAX_INVOCATIONS == 10_000,
{
}

/// A run resumes when its limit is allowed and holds what it declared, its
/// format is this build's, its middleware is the recorded chain, its leases
/// are its own, and every unfinished invocation that inherited a lease has it
/// on record.
pub proof fn law_which_runs_resume(
    options: CoordinatorOptions,
    state: CoordinatorState,
    run: ResumedRun,
    chain: Seq<String>,
)
    ensures
        resume_refused(options, state, run, chain) is None <==> {
            &&& 1 <= options.max_invocations <= MAX_INVOCATIONS
            &&& run.format_version == COORDINATOR_FORMAT_VERSION
            &&& state.middleware_chain@.len() == chain.len()
            &&& forall|i: int|
                0 <= i < chain.len() ==> (#[trigger] state.middleware_chain@[i])@ == chain[i]@
            &&& state.invocations@.len() <= options.max_invocations
            &&& resources_refused(state, run.graphs@, run.replayed@, run.leases@) is None
            &&& forall|i: int|
                0 <= i < state.invocations@.len() && (
                #[trigger] state.invocations@[i]).result is None ==> (
                state.invocations@[i].declaration.sandbox matches SandboxBinding::Inherited { lease }
                    ==> exists|k: int|
                    0 <= k < run.leases@.len() && (#[trigger] run.leases@[k]).lease == lease)
        },
        1 <= options.max_invocations <= MAX_INVOCATIONS && run.format_version
            != COORDINATOR_FORMAT_VERSION ==> resume_refused(options, state, run, chain) == Some(
            CoordinatorError::Store(
                StoreError::UnsupportedFormat {
                    found: run.format_version,
                    expected: COORDINATOR_FORMAT_VERSION,
                },
            ),
        ),
{
    lemma_inherited_on_record(state.invocations@, run.leases@);
}

proof fn lemma_inherited_on_record(invocations: Seq<InvocationState>, records: Seq<LeaseRecord>)
    ensures
        leases_refused(invocations, records) is None <==> forall|i: int|
            0 <= i < invocations.len() && (#[trigger] invocations[i]).result is None ==> (
            invocations[i].declaration.sandbox matches SandboxBinding::Inherited { lease }
                ==> exists|k: int|
                0 <= k < records.len() && (#[trigger] records[k]).lease == lease),
    decreases invocations.len(),
{
    if invocations.len() > 0 {
        let rest = invocations.drop_last();
        lemma_inherited_on_record(rest, records);
        assert forall|i: int| 0 <= i < rest.len() implies rest[i] == #[trigger] invocations[i] by {}
        let n = invocations.len() - 1;
        assert(invocations[n] == invocations.last());
        if let SandboxBinding::Inherited { lease } = invocations[n].declaration.sandbox {
            lemma_first_where(records, |record: LeaseRecord| record.lease == lease);
        }
    }
}

// ── Gates and live invocations ─────────────────────────────────────────

/// An invocation waits at a gate when its declaration bounds it and it was
/// called: at one of its caller's, under the declared name and of the declared
/// width.
pub proof fn law_which_gate_an_invocation_waits_at(
    state: CoordinatorState,
    invocation: InvocationState,
)
    requires
        state.spec_invocation(invocation.declaration.id) == Some(invocation),
    ensures
        ({
            let at = admission_of(state, invocation.declaration.id);
            &&& at is Some <==> invocation.declaration.admission is Some
                && invocation.declaration.call is Some
            &&& at matches Some(gate) ==> gate.parent == invocation.declaration.call->0.parent
                && gate.gate == invocation.declaration.admission->0.gate && gate.max_parallel
                == invocation.declaration.admission->0.max_parallel
        }),
{
}

/// A gate is kept while its caller runs, while a child is queued at it, and
/// while a live child was declared under it; else it goes.
pub proof fn law_when_a_gate_is_kept(
    state: CoordinatorState,
    live: Map<u64, LiveInvocation>,
    key: (u64, Seq<char>),
    gate: ForkGate,
    id: u64,
)
    ensures
        gate.queued@.len() > 0 ==> in_use(state, live, key, gate),
        live.contains_key(id) && (live[id] matches LiveInvocation::Running { execution, .. }
            && execution.0 == key.0) ==> in_use(state, live, key, gate),
        live.contains_key(id) && (admission_of(state, InvocationId(id)) matches Some(at)
            && at.parent.0 == key.0 && at.gate@ == key.1) ==> in_use(state, live, key, gate),
        live == Map::<u64, LiveInvocation>::empty() && gate.queued@.len() == 0 ==> !in_use(
            state,
            live,
            key,
            gate,
        ),
{
    if live.contains_key(id) {
        if let LiveInvocation::Running { execution, leases } = live[id] {
            if execution.0 == key.0 {
                assert(runs(live, id, ExecutionId(key.0)));
            }
        }
    }
}

/// The lease held for a scope is the one last put for it.
pub proof fn law_a_lease_is_held_for_its_scope(
    leases: Seq<(ScopeId, SandboxLeaseId)>,
    scope: ScopeId,
    lease: SandboxLeaseId,
    other: ScopeId,
)
    ensures
        lookup(with_lease(leases, scope, lease, 0), scope) == Some(lease),
        other != scope ==> lookup(with_lease(leases, scope, lease, 0), other)
            == lookup(leases, other),
{
    lemma_with_lease(leases, scope, lease, 0);
    let after = with_lease(leases, scope, lease, 0);
    let at = choose|at: int| put_at(leases, after, scope, lease, at);
    lemma_lookup_found(after, scope, at);
    if other != scope {
        lemma_lookup_same(leases, after, other);
    }
}

/// Whether leases have one put in place of the first of its scope, or else
/// at the end.
spec fn put_at(
    leases: Seq<(ScopeId, SandboxLeaseId)>,
    after: Seq<(ScopeId, SandboxLeaseId)>,
    scope: ScopeId,
    lease: SandboxLeaseId,
    at: int,
) -> bool {
    &&& 0 <= at <= leases.len()
    &&& forall|j: int| 0 <= j < at ==> (#[trigger] leases[j]).0 != scope
    &&& at < leases.len() ==> leases[at].0 == scope && after == leases.update(at, (scope, lease))
    &&& at == leases.len() ==> after == leases.push((scope, lease))
}

proof fn lemma_with_lease(
    leases: Seq<(ScopeId, SandboxLeaseId)>,
    scope: ScopeId,
    lease: SandboxLeaseId,
    from: int,
)
    requires
        0 <= from <= leases.len(),
        forall|j: int| 0 <= j < from ==> (#[trigger] leases[j]).0 != scope,
    ensures
        exists|at: int|
            put_at(leases, with_lease(leases, scope, lease, from), scope, lease, at),
    decreases leases.len() - from,
{
    let after = with_lease(leases, scope, lease, from);
    if from == leases.len() || leases[from].0 == scope {
        assert(put_at(leases, after, scope, lease, from));
    } else {
        lemma_with_lease(leases, scope, lease, from + 1);
    }
}

proof fn lemma_lookup_same(
    a: Seq<(ScopeId, SandboxLeaseId)>,
    b: Seq<(ScopeId, SandboxLeaseId)>,
    other: ScopeId,
)
    requires
        a.len() <= b.len() <= a.len() + 1,
        forall|j: int|
            0 <= j < a.len() ==> (#[trigger] a[j] == b[j] || (a[j].0 != other && b[j].0 != other)),
        b.len() == a.len() + 1 ==> b[a.len() as int].0 != other,
    ensures
        lookup(a, other) == lookup(b, other),
    decreases b.len(),
{
    if b.len() > 0 {
        if a.len() == 0 {
            assert(b[0].0 != other);
            assert(b.drop_first() =~= Seq::empty());
            reveal_with_fuel(lookup, 2);
        } else {
            let x = a.drop_first();
            let y = b.drop_first();
            assert(a[0] == b[0] || (a[0].0 != other && b[0].0 != other));
            assert forall|j: int| 0 <= j < x.len() implies (#[trigger] x[j] == y[j] || (x[j].0
                != other && y[j].0 != other)) by {
                assert(a[j + 1] == b[j + 1] || (a[j + 1].0 != other && b[j + 1].0 != other));
            }
            lemma_lookup_same(x, y, other);
        }
    }
}

} // verus!

//! What an inspection document says of a run.

use crate::event::{COORDINATOR_FORMAT_VERSION, CoordinatorEvent, CoordinatorRecord, SecretBindings};
use crate::ids::{Attempt, ExecutionId, FiringId, GraphDigest, InvocationId};
use crate::inspect::{
    attempt_row, attempt_rows, called_among, children_among, coverage_of, delivery_row,
    delivery_rows, engine_row, execution_failure, execution_problems, execution_row,
    executions_problems, first_failure, graph_of, invocation_row, invocations_problems,
    law_covered_iff_prefix, place_among, route_row, route_rows, run_failure, run_problems,
    status_name, Coverage, EngineInspection, ExecutionInspection, ExecutionLog, ExitInspection,
    InspectError, InvocationInspection, ReplayMismatch, StoredLine,
};
use crate::laws::telling::recorded_final;
use crate::model::{Graph, Node, RunStatus};
use crate::record::{event_of, Control, EngineExit, EntryPoint, Event, EventRecord, RouteApplied};
use crate::run_state::{CoordinatorState, ExecutionState, InvocationState};
use crate::search::{lemma_last_found, lookup};
use crate::state::{EngineState, HistoryEntry};
use vstd::prelude::*;
use vstd::string::*;

verus! {

// ── Invocations ────────────────────────────────────────────────────────

/// The names of the run statuses are apart.
proof fn lemma_status_names()
    ensures
        "success"@ != "failed"@,
        "success"@ != "cancelled"@,
        "failed"@ != "cancelled"@,
{
    reveal_strlit("success");
    reveal_strlit("failed");
    reveal_strlit("cancelled");
    assert("success"@.len() == 7);
    assert("failed"@.len() == 6);
    assert("cancelled"@.len() == 9);
}

/// An invocation's recorded result stands in the document: its status under
/// the name of that status and no other, with its failure, its final
/// execution, its output and its context. An invocation without a result has
/// none there.
pub proof fn law_a_result_is_shown_as_recorded(
    state: CoordinatorState,
    invocation: InvocationState,
    row: InvocationInspection,
)
    requires
        invocation_row(state, invocation, row),
    ensures
        row.result is Some <==> invocation.result is Some,
        invocation.result matches Some(result) ==> {
            let shown = row.result->0;
            &&& shown.status@ == "success"@ <==> result.status is Success
            &&& shown.status@ == "failed"@ <==> result.status is Failed
            &&& shown.status@ == "cancelled"@ <==> result.status is Cancelled
            &&& shown.failure == result.failure
            &&& shown.final_execution == result.final_execution
            &&& shown.output == result.output
            &&& shown.context == result.context
            &&& row.final_execution == Some(result.final_execution)
        },
        invocation.result is None ==> row.final_execution is None,
{
    lemma_status_names();
}

/// An invocation stands in the document as declared, running or finished:
/// finished with a result, running with an execution and no result, and else
/// declared.
pub proof fn law_where_an_invocation_stands(
    state: CoordinatorState,
    invocation: InvocationState,
    row: InvocationInspection,
)
    requires
        invocation_row(state, invocation, row),
    ensures
        row.status@ == "finished"@ <==> invocation.result is Some,
        row.status@ == "running"@ <==> invocation.result is None && invocation.executions@.len() > 0,
        row.status@ == "declared"@ <==> invocation.result is None && invocation.executions@.len()
            == 0,
        row.sandbox@ == "isolated"@ <==> invocation.declaration.sandbox is Isolated,
        row.sandbox@ == "inherited"@ <==> invocation.declaration.sandbox is Inherited,
        row.secrets.mode@ == "none"@ <==> invocation.declaration.secret_bindings is NoSecrets,
        row.secrets.mode@ == "inherit"@ <==> invocation.declaration.secret_bindings is Inherit,
        row.secrets.mode@ == "explicit"@ <==> invocation.declaration.secret_bindings is Explicit,
        invocation.declaration.secret_bindings matches SecretBindings::Explicit(bindings)
            ==> row.secrets.names@.len() == bindings@.len() && forall|i: int|
            0 <= i < bindings@.len() ==> #[trigger] row.secrets.names@[i] == bindings@[i].0,
        !(invocation.declaration.secret_bindings is Explicit) ==> row.secrets.names@.len() == 0,
        row.invocation == invocation.declaration.id,
        row.graph == invocation.declaration.graph,
        row.context == invocation.declaration.context,
        row.cancel_requested == invocation.cancelled,
        row.cancel_reason == invocation.cancel_reason,
        row.executions@ == invocation.executions@,
{
    reveal_strlit("finished");
    reveal_strlit("running");
    reveal_strlit("declared");
    assert("finished"@.len() == 8 && "running"@.len() == 7 && "declared"@.len() == 8);
    assert("finished"@[0] == 'f' && "declared"@[0] == 'd');
    reveal_strlit("isolated");
    reveal_strlit("inherited");
    assert("isolated"@.len() == 8 && "inherited"@.len() == 9);
    reveal_strlit("none");
    reveal_strlit("inherit");
    reveal_strlit("explicit");
    assert("none"@.len() == 4 && "inherit"@.len() == 7 && "explicit"@.len() == 8);
}

/// A nested invocation names the call that declared it, and the invocation
/// the calling execution belongs to; the root names none.
pub proof fn law_a_call_is_shown(
    state: CoordinatorState,
    invocation: InvocationState,
    row: InvocationInspection,
)
    requires
        invocation_row(state, invocation, row),
    ensures
        row.parent is Some <==> invocation.declaration.call is Some,
        invocation.declaration.call matches Some(call) ==> {
            let parent = row.parent->0;
            &&& parent.execution == call.parent
            &&& parent.firing == call.firing.0
            &&& parent.attempt == call.attempt.0
            &&& parent.slot == call.slot
            &&& state.spec_execution(call.parent) matches Some(execution) ==> parent.invocation
                == execution.declaration.invocation
        },
{
}

/// The children an invocation lists are those called from one of its own
/// executions; those an execution lists are those called from it.
pub proof fn law_children_are_listed_where_they_were_called(
    state: CoordinatorState,
    candidates: Seq<InvocationState>,
    parent: InvocationId,
    execution: ExecutionId,
    id: InvocationId,
)
    ensures
        children_among(state, candidates, parent).contains(id) <==> exists|i: int|
            0 <= i < candidates.len() && (#[trigger] candidates[i]).declaration.id == id && (
            candidates[i].declaration.call matches Some(call) && state.spec_execution(
                call.parent,
            ) matches Some(found) && found.declaration.invocation == parent),
        called_among(candidates, execution).contains(id) <==> exists|i: int|
            0 <= i < candidates.len() && (#[trigger] candidates[i]).declaration.id == id && (
            candidates[i].declaration.call matches Some(call) && call.parent == execution),
    decreases candidates.len(),
{
    if candidates.len() > 0 {
        let rest = candidates.drop_last();
        law_children_are_listed_where_they_were_called(state, rest, parent, execution, id);
        let n = candidates.len() - 1;
        assert forall|i: int| 0 <= i < rest.len() implies rest[i] == #[trigger] candidates[i] by {}
        assert(candidates[n] == candidates.last());
        let a = children_among(state, rest, parent);
        let b = children_among(state, candidates, parent);
        lemma_pushed_contains(a, b, candidates.last().declaration.id, id);
        let c = called_among(rest, execution);
        let d = called_among(candidates, execution);
        lemma_pushed_contains(c, d, candidates.last().declaration.id, id);
    }
}

proof fn lemma_pushed_contains<T>(a: Seq<T>, b: Seq<T>, last: T, item: T)
    requires
        b == a || b == a.push(last),
    ensures
        b.contains(item) <==> a.contains(item) || (b == a.push(last) && item == last),
{
    if b == a.push(last) {
        if a.contains(item) {
            let k = choose|k: int| 0 <= k < a.len() && a[k] == item;
            assert(b[k] == item);
        }
        if item == last {
            assert(b[a.len() as int] == item);
        }
        if b.contains(item) {
            let k = choose|k: int| 0 <= k < b.len() && b[k] == item;
            if k < a.len() {
                assert(a[k] == item);
            }
        }
    }
}

// ── Executions ─────────────────────────────────────────────────────────

/// How an execution ended stands in the document: a terminal exit under its
/// status's name, a restart with the edge, the target and the firing it came
/// from; and an execution without a recorded exit is incomplete.
pub proof fn law_an_exit_is_shown_as_recorded(
    state: CoordinatorState,
    graph: Graph,
    execution: ExecutionState,
    log: ExecutionLog,
    row: ExecutionInspection,
)
    requires
        execution_row(state, graph, execution, log, row),
    ensures
        row.execution == execution.declaration.id,
        row.invocation == execution.declaration.invocation,
        row.execution_index == execution.declaration.start.execution_index,
        row.start_context == execution.declaration.start.context,
        row.status@ == "incomplete"@ <==> execution.exit is None,
        row.status@ == "finished"@ <==> execution.exit matches Some(EngineExit::Terminal { .. }),
        row.status@ == "restarted"@ <==> execution.exit matches Some(EngineExit::Restart { .. }),
        row.exit is None <==> execution.exit is None,
        execution.exit matches Some(EngineExit::Terminal { status }) ==> (row.exit matches Some(
            ExitInspection::Terminal { status: shown },
        ) && (shown@ == "success"@ <==> status is Success) && (shown@ == "failed"@
            <==> status is Failed) && (shown@ == "cancelled"@ <==> status is Cancelled)),
        execution.exit matches Some(EngineExit::Restart { edge, target, source }) ==> (
        row.exit matches Some(
            ExitInspection::Restart {
                edge: shown,
                target: to,
                target_name: name,
                source_firing: from,
            },
        ) && shown == edge.0 && to == target.0 && from == source.0 && name == (
        match graph.spec_node(target) {
            Some(node) => Some(node.name),
            None => None,
        })),
        execution.declaration.start.entry is GraphEntries ==> row.entry_node is None,
        execution.declaration.start.entry matches EntryPoint::Node(node) ==> (graph.spec_node(
            node,
        ) matches Some(found) ==> row.entry_node == Some(found.name)),
{
    lemma_status_names();
    reveal_strlit("finished");
    reveal_strlit("restarted");
    reveal_strlit("incomplete");
    assert("finished"@.len() == 8 && "restarted"@.len() == 9 && "incomplete"@.len() == 10);
}

/// The executions before and after one are its neighbours in its
/// invocation's chain.
pub proof fn law_neighbours_in_the_chain(
    state: CoordinatorState,
    graph: Graph,
    execution: ExecutionState,
    log: ExecutionLog,
    row: ExecutionInspection,
    invocation: InvocationState,
    at: int,
)
    requires
        execution_row(state, graph, execution, log, row),
        state.spec_invocation(execution.declaration.invocation) == Some(invocation),
        0 <= at < invocation.executions@.len(),
        invocation.executions@[at] == execution.declaration.id,
        forall|j: int| 0 <= j < at ==> #[trigger] invocation.executions@[j]
            != execution.declaration.id,
    ensures
        at == 0 ==> row.predecessor is None,
        at > 0 ==> row.predecessor == Some(invocation.executions@[at - 1]),
        at + 1 == invocation.executions@.len() ==> row.successor is None,
        at + 1 < invocation.executions@.len() ==> row.successor == Some(
            invocation.executions@[at + 1],
        ),
{
    lemma_place(invocation.executions@, execution.declaration.id, at);
}

proof fn lemma_place(executions: Seq<ExecutionId>, id: ExecutionId, at: int)
    requires
        0 <= at < executions.len(),
        executions[at] == id,
        forall|j: int| 0 <= j < at ==> #[trigger] executions[j] != id,
    ensures
        place_among(executions, id) == Some(at),
    decreases executions.len(),
{
    if at > 0 {
        assert(executions[0] != id);
        let rest = executions.drop_first();
        assert forall|j: int| 0 <= j < at - 1 implies #[trigger] rest[j] != id by {
            assert(rest[j] == executions[j + 1]);
        }
        lemma_place(rest, id, at - 1);
    }
}

/// What is stored of an execution stands in the document: how many records,
/// and whether replay reproduced them all, or all but an end the core had
/// still to store. An execution with nothing stored is missing, with no
/// engine part.
pub proof fn law_a_log_is_shown_with_its_replay(
    state: CoordinatorState,
    graph: Graph,
    execution: ExecutionState,
    log: ExecutionLog,
    row: ExecutionInspection,
)
    requires
        execution_row(state, graph, execution, log, row),
    ensures
        match log {
            ExecutionLog::Missing => row.log.records == 0 && row.log.replay@ == "missing"@
                && row.engine is None,
            ExecutionLog::Stored { records, lines, state: replayed, rebuilt } => if lines@.len()
                == 0 {
                row.log.records == 0 && row.log.replay@ == "missing"@ && row.engine is None
            } else {
                &&& row.log.records == lines@.len()
                &&& row.engine is Some
                &&& row.log.replay@ == "verified"@ <==> lines@.len() == rebuilt@.len() && forall|
                    i: int,
                |
                    0 <= i < lines@.len() ==> (#[trigger] lines@[i]).bytes@ == rebuilt@[i]@
                &&& row.log.replay@ == "verified"@ || row.log.replay@ == "prefix"@
            },
        },
{
    reveal_strlit("missing");
    reveal_strlit("verified");
    reveal_strlit("prefix");
    assert("missing"@.len() == 7 && "verified"@.len() == 8 && "prefix"@.len() == 6);
    if let ExecutionLog::Stored { records, lines, state: replayed, rebuilt } = log {
        law_covered_iff_prefix(lines@, rebuilt@);
    }
}

/// A log that replay contradicts is refused with the first record that
/// differs and how many there are of each.
pub proof fn law_where_a_replay_parts(log: Seq<StoredLine>, rebuilt: Seq<Vec<u8>>, at: int)
    requires
        0 <= at <= log.len(),
        at <= rebuilt.len(),
        forall|i: int| 0 <= i < at ==> (#[trigger] log[i]).bytes@ == rebuilt[i]@,
        log.len() <= usize::MAX,
        rebuilt.len() <= usize::MAX,
    ensures
        at < log.len() && at < rebuilt.len() && log[at].bytes@ != rebuilt[at]@ ==> coverage_of(
            log,
            rebuilt,
        ) == Err::<Coverage, ReplayMismatch>(
            ReplayMismatch {
                original_records: log.len() as usize,
                replayed_records: rebuilt.len() as usize,
                first_divergence: Some(log[at].seq),
            },
        ),
        at == rebuilt.len() && at < log.len() ==> coverage_of(log, rebuilt) == Err::<
            Coverage,
            ReplayMismatch,
        >(
            ReplayMismatch {
                original_records: log.len() as usize,
                replayed_records: rebuilt.len() as usize,
                first_divergence: None,
            },
        ),
        at == log.len() && at < rebuilt.len() ==> coverage_of(log, rebuilt) == Ok::<
            Coverage,
            ReplayMismatch,
        >(Coverage::Prefix),
        at == log.len() && at == rebuilt.len() ==> coverage_of(log, rebuilt) == Ok::<
            Coverage,
            ReplayMismatch,
        >(Coverage::Verified),
{
    lemma_parts(log, rebuilt, 0, at);
}

proof fn lemma_parts(log: Seq<StoredLine>, rebuilt: Seq<Vec<u8>>, from: int, at: int)
    requires
        0 <= from <= at <= log.len(),
        at <= rebuilt.len(),
        forall|i: int| 0 <= i < at ==> (#[trigger] log[i]).bytes@ == rebuilt[i]@,
    ensures
        crate::inspect::first_divergence(log, rebuilt, from) == crate::inspect::first_divergence(
            log,
            rebuilt,
            at,
        ),
    decreases at - from,
{
    if from < at {
        lemma_parts(log, rebuilt, from + 1, at);
    }
}

// ── The engine's part ──────────────────────────────────────────────────

/// The engine part names the state's own flags, the status its outcomes fold
/// to, and how it exited.
pub proof fn law_the_engine_part_is_the_state(
    state: EngineState,
    log: Seq<EventRecord>,
    engine: EngineInspection,
    i: int,
)
    requires
        engine_row(state, log, engine),
    ensures
        engine.started == state.started,
        engine.finished == state.finished,
        engine.cancelled == state.cancelled,
        engine.exit is Some <==> state.exit is Some,
        engine.folded_status@ == "success"@ <==> state.folded_status is Success,
        engine.folded_status@ == "failed"@ <==> state.folded_status is Failed,
        engine.folded_status@ == "cancelled"@ <==> state.folded_status is Cancelled,
        engine.errors@ == state.errors@,
        engine.context.kv == state.kv,
        engine.history@.len() == state.history@.len(),
        0 <= i < state.history@.len() ==> {
            let shown = engine.history@[i];
            let entry = state.history@[i];
            &&& shown.firing == entry.firing.0
            &&& shown.node == entry.name
            &&& shown.node_id == entry.node.0
            &&& shown.generation == entry.generation.0
            &&& shown.attempt == entry.attempt.0
            &&& shown.status == entry.outcome.status.tag
            &&& shown.failure == entry.outcome.status.failure
            &&& shown.output == entry.outcome.output
            &&& shown.context_updates == entry.outcome.context_updates
        },
        engine.live@.len() == state.live@.len(),
        0 <= i < state.live@.len() ==> {
            let shown = engine.live@[i];
            let live = state.live@[i];
            &&& shown.firing == live.id.0
            &&& shown.generation == live.generation.0
            &&& shown.attempt == live.attempt.0
            &&& shown.started == live.started
            &&& shown.awaiting_retry == live.awaiting_retry
            &&& shown.cancelling == live.cancelling
            &&& shown.node == (match state.graph.spec_node(live.node) {
                Some(node) => Some(node.name),
                None => None,
            })
        },
        engine.context.nodes@.len() == state.nodes@.len(),
        0 <= i < state.nodes@.len() ==> {
            let shown = engine.context.nodes@[i];
            let node = state.nodes@[i];
            &&& shown.0 == node.0
            &&& shown.1.status == node.1.status.tag
            &&& shown.1.success_like == node.1.status.success_like
            &&& shown.1.failure == node.1.status.failure
            &&& shown.1.output == node.1.output
            &&& shown.1.generation == node.1.generation.0
            &&& shown.1.attempts == node.1.attempts
        },
{
    lemma_status_names();
}

/// Every attempt that returned stands in the document once per record, with
/// its status and whether it was the firing's final one; and nothing else
/// does.
pub proof fn law_attempts_are_shown(state: EngineState, log: Seq<EventRecord>, k: int, i: int)
    requires
        0 <= i < log.len(),
    ensures
        event_of(log[i]) matches Event::StepFinished { firing, attempt, outcome } ==> exists|n: int|
            0 <= n < attempt_rows(state, log).len() && {
                let row = #[trigger] attempt_rows(state, log)[n];
                &&& row.seq == log[i].seq
                &&& row.firing == firing.0
                &&& row.attempt == attempt.0
                &&& row.status == outcome.status.tag
                &&& row.failure == outcome.status.failure
                &&& row.is_final == recorded_final(state, firing, attempt)
            },
        0 <= k < attempt_rows(state, log).len() ==> exists|n: int|
            0 <= n < log.len() && (event_of(#[trigger] log[n]) is StepFinished) && log[n].seq
                == attempt_rows(state, log)[k].seq,
    decreases log.len(),
{
    let rest = log.drop_last();
    let before = attempt_rows(state, rest);
    let all = attempt_rows(state, log);
    let last = log.len() - 1;
    assert(log[last] == log.last());
    if i < last {
        law_attempts_are_shown(state, rest, k, i);
        assert(rest[i] == log[i]);
        if let Event::StepFinished { firing, attempt, outcome } = event_of(log[i]) {
            let n = choose|n: int|
                0 <= n < before.len() && {
                    let row = #[trigger] before[n];
                    &&& row.seq == log[i].seq
                    &&& row.firing == firing.0
                    &&& row.attempt == attempt.0
                    &&& row.status == outcome.status.tag
                    &&& row.failure == outcome.status.failure
                    &&& row.is_final == recorded_final(state, firing, attempt)
                };
            assert(all[n] == before[n]);
        }
    } else if let Some(row) = attempt_row(state, log.last()) {
        assert(all[all.len() - 1] == row);
    }
    if 0 <= k < all.len() {
        if k < before.len() {
            assert(all[k] == before[k]);
            if rest.len() > 0 {
                law_attempts_are_shown(state, rest, k, 0);
                let n = choose|n: int|
                    0 <= n < rest.len() && (event_of(#[trigger] rest[n]) is StepFinished)
                        && rest[n].seq == before[k].seq;
                assert(log[n] == rest[n]);
            }
        } else {
            assert(event_of(log[last]) is StepFinished);
        }
    }
}

/// The row of an applied route says what was applied and where it leads; the
/// row of a control says what was sent.
pub proof fn law_routes_and_controls_are_shown(state: EngineState, record: EventRecord)
    ensures
        match event_of(record) {
            Event::RouteApplied { applied } => {
                let row = route_row(state, record)->0;
                &&& route_row(state, record) is Some
                &&& row.seq == record.seq
                &&& match applied {
                    RouteApplied::Edge { firing, edge, group } => {
                        &&& row.kind@ == "edge"@
                        &&& row.firing == firing.0
                        &&& row.edge == Some(edge.0)
                        &&& row.group == Some(group)
                        &&& row.target == (match state.graph.spec_edge(edge) {
                            Some(found) => match state.graph.spec_node(found.to) {
                                Some(node) => Some(node.name),
                                None => None,
                            },
                            None => None,
                        })
                    },
                    RouteApplied::Jump { firing, target } => {
                        &&& row.kind@ == "jump"@
                        &&& row.firing == firing.0
                        &&& row.edge is None
                        &&& row.group is None
                        &&& row.target == (match state.graph.spec_node(target) {
                            Some(node) => Some(node.name),
                            None => None,
                        })
                    },
                    RouteApplied::Nothing { firing, group } => {
                        &&& row.kind@ == "none"@
                        &&& row.firing == firing.0
                        &&& row.edge is None
                        &&& row.group == Some(group)
                        &&& row.target is None
                    },
                }
            },
            Event::ControlRequested { firing, ctl } => {
                let row = delivery_row(state, record)->0;
                &&& delivery_row(state, record) is Some
                &&& row.seq == record.seq
                &&& row.firing == firing.0
                &&& match ctl {
                    Control::Deliver(value) => row.kind@ == "deliver"@ && row.payload == Some(value),
                    Control::Cancel => row.kind@ == "cancel"@ && row.payload is None,
                    Control::Kill => row.kind@ == "kill"@ && row.payload is None,
                    Control::Other => row.kind@ == "other"@ && row.payload is None,
                }
            },
            _ => route_row(state, record) is None && delivery_row(state, record) is None,
        },
{
}

/// The routes and controls a document lists are those of the log's records,
/// each record's once, in log order.
pub proof fn law_rows_follow_the_log(state: EngineState, log: Seq<EventRecord>, record: EventRecord)
    ensures
        route_rows(state, log.push(record)) == (match route_row(state, record) {
            Some(row) => route_rows(state, log).push(row),
            None => route_rows(state, log),
        }),
        delivery_rows(state, log.push(record)) == (match delivery_row(state, record) {
            Some(row) => delivery_rows(state, log).push(row),
            None => delivery_rows(state, log),
        }),
        attempt_rows(state, log.push(record)).len() == attempt_rows(state, log).len() + (if event_of(
            record,
        ) is StepFinished {
            1int
        } else {
            0
        }),
        route_rows(state, Seq::empty()).len() == 0,
        delivery_rows(state, Seq::empty()).len() == 0,
        attempt_rows(state, Seq::empty()).len() == 0,
{
    assert(log.push(record).drop_last() =~= log);
    assert(log.push(record).last() == record);
}

/// The node a firing's rows name is that of its last final record, and of
/// its live firing when it has none.
pub proof fn law_rows_name_the_firing_s_node(
    state: EngineState,
    record: EventRecord,
    firing: FiringId,
    attempt: Attempt,
    at: int,
    node: Node,
)
    requires
        event_of(record) matches Event::StepFinished { firing: f, attempt: a, .. } && f == firing && a
            == attempt,
        0 <= at < state.history@.len(),
        state.history@[at].firing == firing,
        forall|j: int| at < j < state.history@.len() ==> (#[trigger] state.history@[j]).firing
            != firing,
        state.graph.spec_node(state.history@[at].node) == Some(node),
    ensures
        attempt_row(state, record) matches Some(row) && row.node == Some(node.name)
            && row.generation == Some(state.history@[at].generation.0),
{
    lemma_last_found(
        state.history@,
        |entry: HistoryEntry| entry.firing == firing,
        at,
    );
}

// ── The whole ──────────────────────────────────────────────────────────

/// A run whose finish, results and exits are all recorded, whose logs replay
/// whole and whose recorded exits are the replayed ones, is complete: nothing
/// is held against it.
pub proof fn law_a_whole_run_is_complete(
    state: CoordinatorState,
    graphs: Seq<(GraphDigest, Graph)>,
    logs: Seq<ExecutionLog>,
)
    requires
        logs.len() == state.executions@.len(),
        state.run_status is Some,
        forall|i: int|
            0 <= i < state.invocations@.len() ==> (#[trigger] state.invocations@[i]).result is Some,
        forall|i: int|
            0 <= i < state.executions@.len() ==> (#[trigger] state.executions@[i]).exit is Some && (
            logs[i] matches ExecutionLog::Stored { lines, rebuilt, state: replayed, .. }
                && lines@.len() > 0 && lines@.len() == rebuilt@.len() && (forall|j: int|
                0 <= j < lines@.len() ==> (#[trigger] lines@[j]).bytes@ == rebuilt@[j]@)
                && replayed.exit is None),
    ensures
        run_problems(state, graphs, logs).len() == 0,
{
    lemma_no_invocation_problems(state.invocations@);
    lemma_no_execution_problems(state, graphs, logs, state.executions@.len());
}

proof fn lemma_no_invocation_problems(invocations: Seq<InvocationState>)
    requires
        forall|i: int| 0 <= i < invocations.len() ==> (#[trigger] invocations[i]).result is Some,
    ensures
        invocations_problems(invocations).len() == 0,
    decreases invocations.len(),
{
    if invocations.len() > 0 {
        let rest = invocations.drop_last();
        assert forall|i: int| 0 <= i < rest.len() implies (#[trigger] rest[i]).result is Some by {
            assert(rest[i] == invocations[i]);
        }
        assert(invocations[invocations.len() - 1].result is Some);
        lemma_no_invocation_problems(rest);
    }
}

proof fn lemma_no_execution_problems(
    state: CoordinatorState,
    graphs: Seq<(GraphDigest, Graph)>,
    logs: Seq<ExecutionLog>,
    count: nat,
)
    requires
        count <= state.executions@.len(),
        forall|i: int|
            0 <= i < state.executions@.len() ==> (#[trigger] state.executions@[i]).exit is Some && (
            logs[i] matches ExecutionLog::Stored { lines, rebuilt, state: replayed, .. }
                && lines@.len() > 0 && lines@.len() == rebuilt@.len() && (forall|j: int|
                0 <= j < lines@.len() ==> (#[trigger] lines@[j]).bytes@ == rebuilt@[j]@)
                && replayed.exit is None),
    ensures
        executions_problems(state, graphs, logs, count).len() == 0,
    decreases count,
{
    if count > 0 {
        lemma_no_execution_problems(state, graphs, logs, (count - 1) as nat);
        let last = state.executions@[count - 1];
        assert(last.exit is Some);
        if let ExecutionLog::Stored { records, lines, state: replayed, rebuilt } = logs[count - 1] {
            law_covered_iff_prefix(lines@, rebuilt@);
        }
    }
}

/// What keeps a run from being complete is said of each part it holds of: a
/// run without a finish, an invocation without a result, an execution without
/// an exit, without a log, or with a log that ends too soon.
pub proof fn law_what_is_missing_is_said(
    state: CoordinatorState,
    graphs: Seq<(GraphDigest, Graph)>,
    logs: Seq<ExecutionLog>,
    i: int,
)
    requires
        logs.len() == state.executions@.len(),
        state.run_status is None || (0 <= i < state.invocations@.len()
            && state.invocations@[i].result is None) || (0 <= i < state.executions@.len() && (
        state.executions@[i].exit is None || logs[i] is Missing || (logs[i] matches
            ExecutionLog::Stored { lines, rebuilt, .. } && (lines@.len() == 0 || (lines@.len()
            < rebuilt@.len() && forall|j: int|
            0 <= j < lines@.len() ==> (#[trigger] lines@[j]).bytes@ == rebuilt@[j]@))))),
    ensures
        run_problems(state, graphs, logs).len() > 0,
{
    if 0 <= i < state.invocations@.len() && state.invocations@[i].result is None {
        lemma_invocation_problem(state.invocations@, i);
    }
    if 0 <= i < state.executions@.len() && (state.executions@[i].exit is None || logs[i] is Missing
        || (logs[i] matches ExecutionLog::Stored { lines, rebuilt, .. } && (lines@.len() == 0 || (
    lines@.len() < rebuilt@.len() && forall|j: int|
        0 <= j < lines@.len() ==> (#[trigger] lines@[j]).bytes@ == rebuilt@[j]@)))) {
        if let ExecutionLog::Stored { records, lines, state: replayed, rebuilt } = logs[i] {
            law_covered_iff_prefix(lines@, rebuilt@);
        }
        lemma_execution_problem(state, graphs, logs, state.executions@.len(), i);
    }
}

proof fn lemma_invocation_problem(invocations: Seq<InvocationState>, i: int)
    requires
        0 <= i < invocations.len(),
        invocations[i].result is None,
    ensures
        invocations_problems(invocations).len() > 0,
    decreases invocations.len(),
{
    if i < invocations.len() - 1 {
        lemma_invocation_problem(invocations.drop_last(), i);
    }
}

proof fn lemma_execution_problem(
    state: CoordinatorState,
    graphs: Seq<(GraphDigest, Graph)>,
    logs: Seq<ExecutionLog>,
    count: nat,
    i: int,
)
    requires
        0 <= i < count <= state.executions@.len(),
        execution_problems(
            state.executions@[i],
            graph_of(state, graphs, state.executions@[i])->0,
            logs[i],
        ).len() > 0,
    ensures
        executions_problems(state, graphs, logs, count).len() > 0,
    decreases count,
{
    if i < count - 1 {
        lemma_execution_problem(state, graphs, logs, (count - 1) as nat, i);
    }
}

/// A recorded exit that is not the replayed one is said: two terminal exits
/// of different statuses, a terminal exit and a restart, or restarts over
/// different edges, to different targets or from different firings.
pub proof fn law_exits_that_differ_are_told_apart(
    execution: ExecutionState,
    graph: Graph,
    log: ExecutionLog,
    recorded: EngineExit,
    replayed: EngineExit,
)
    requires
        execution.exit == Some(recorded),
        log matches ExecutionLog::Stored { lines, state, .. } && lines@.len() > 0 && state.exit
            == Some(replayed),
        match (recorded, replayed) {
            (
                EngineExit::Terminal { status: a },
                EngineExit::Terminal { status: b },
            ) => a != b,
            (
                EngineExit::Restart { edge: e1, target: t1, source: s1 },
                EngineExit::Restart { edge: e2, target: t2, source: s2 },
            ) => e1 != e2 || t1 != t2 || s1 != s2,
            _ => true,
        },
    ensures
        execution_problems(execution, graph, log).len() > 0,
{
    lemma_status_names();
}

/// A run is reconstructed when its log opens with a start of this format, its
/// root is known, and each execution's invocation and graph are known and no
/// log is contradicted by its replay.
pub proof fn law_what_is_reconstructed(
    records: Seq<CoordinatorRecord>,
    state: CoordinatorState,
    graphs: Seq<(GraphDigest, Graph)>,
    logs: Seq<ExecutionLog>,
)
    requires
        logs.len() == state.executions@.len(),
    ensures
        run_failure(records, state, graphs, logs) is None <==> {
            &&& records.len() > 0
            &&& *records[0].body matches CoordinatorEvent::RunStarted { format_version, .. }
                && format_version == COORDINATOR_FORMAT_VERSION
            &&& state.root matches Some(root) && state.spec_invocation(root) is Some
            &&& forall|i: int|
                0 <= i < state.executions@.len() ==> (state.spec_invocation(
                    (#[trigger] state.executions@[i]).declaration.invocation,
                ) matches Some(invocation) && lookup(graphs, invocation.declaration.graph) is Some
                    && (logs[i] matches ExecutionLog::Stored { lines, rebuilt, .. } ==> lines@.len()
                    <= rebuilt@.len() && forall|j: int|
                    0 <= j < lines@.len() ==> (#[trigger] lines@[j]).bytes@ == rebuilt@[j]@))
        },
        records.len() > 0 && (*records[0].body matches CoordinatorEvent::RunStarted {
            format_version,
            ..
        } && format_version != COORDINATOR_FORMAT_VERSION) ==> (run_failure(
            records,
            state,
            graphs,
            logs,
        ) matches Some(InspectError::UnsupportedFormat { found, expected }) && expected
            == COORDINATOR_FORMAT_VERSION && found != expected),
{
    lemma_all_reconstructed(state, graphs, logs, 0);
    assert forall|i: int| 0 <= i < state.executions@.len() implies (execution_failure(
        state,
        graphs,
        #[trigger] state.executions@[i],
        logs[i],
    ) is None <==> (state.spec_invocation(
        state.executions@[i].declaration.invocation,
    ) matches Some(invocation) && lookup(graphs, invocation.declaration.graph) is Some && (
    logs[i] matches ExecutionLog::Stored { lines, rebuilt, .. } ==> lines@.len() <= rebuilt@.len()
        && forall|j: int|
        0 <= j < lines@.len() ==> (#[trigger] lines@[j]).bytes@ == rebuilt@[j]@))) by {
        if let ExecutionLog::Stored { records: r, lines, state: s, rebuilt } = logs[i] {
            law_covered_iff_prefix(lines@, rebuilt@);
        }
    }
}

proof fn lemma_all_reconstructed(
    state: CoordinatorState,
    graphs: Seq<(GraphDigest, Graph)>,
    logs: Seq<ExecutionLog>,
    from: int,
)
    requires
        0 <= from,
    ensures
        first_failure(state, graphs, logs, from) is None <==> forall|i: int|
            from <= i < state.executions@.len() ==> execution_failure(
                state,
                graphs,
                #[trigger] state.executions@[i],
                logs[i],
            ) is None,
    decreases state.executions@.len() - from,
{
    if from < state.executions@.len() {
        lemma_all_reconstructed(state, graphs, logs, from + 1);
        assert(execution_failure(state, graphs, state.executions@[from], logs[from])
            == execution_failure(state, graphs, state.executions@[from], logs[from]));
    }
}

/// A run's status stands in the document under its own name.
pub proof fn law_status_names_tell_statuses_apart(status: RunStatus)
    ensures
        status_name(status)@ == "success"@ <==> status is Success,
        status_name(status)@ == "failed"@ <==> status is Failed,
        status_name(status)@ == "cancelled"@ <==> status is Cancelled,
{
    lemma_status_names();
}

} // verus!

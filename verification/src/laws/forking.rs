//! What a fork keeps of the run it is made from.

use crate::event::{COORDINATOR_FORMAT_VERSION, CoordinatorEvent, CoordinatorRecord, ForkPosition};
use crate::fork::{
    fork_log, fork_refused, is_own, keeps_invocation, kept_among, kept_records, last_routing,
    law_cut, law_kept_children_have_kept_parents, law_kept_records_belong, place_in, plans,
    registered, with_executions, ForkError, ForkOptions, ForkPlan, KeptModel,
};
use crate::ids::{ExecutionId, FiringId, GraphDigest, InvocationId};
use crate::record::{event_of, DecisionId, Event, EventOrigin, EventRecord};
use crate::run_state::{CoordinatorState, ExecutionState, InvocationState, StateError};
use vstd::prelude::*;

verus! {

// ── The coordinator log ────────────────────────────────────────────────

/// A fork's log has the result of every kept child and the end of every kept
/// execution but the one it goes on with: each such record of the source is
/// among the fork's.
pub proof fn law_a_fork_keeps_how_its_parts_ended(
    records: Seq<CoordinatorRecord>,
    state: CoordinatorState,
    log: Seq<EventRecord>,
    finished: Set<u64>,
    position: ForkPosition,
    options: ForkOptions,
    plan: ForkPlan,
    i: int,
)
    requires
        plans(records, state, log, finished, position, options, plan),
        0 <= i < records.len(),
    ensures
        match *records[i].body {
            CoordinatorEvent::InvocationFinished { invocation, .. } => plan.records@.contains(
                records[i],
            ) <==> plan.invocations@.contains(invocation.0) && invocation.0 != 0,
            CoordinatorEvent::ExecutionFinished { execution, .. } => plan.records@.contains(
                records[i],
            ) <==> plan.executions@.contains(execution.0) && execution != position.execution,
            CoordinatorEvent::InvocationCancelRequested { invocation, .. } =>
            plan.records@.contains(records[i]) <==> plan.invocations@.contains(invocation.0)
                && invocation.0 != 0,
            _ => true,
        },
{
    let kept = KeptModel { invocations: plan.invocations@, executions: plan.executions@ };
    lemma_plan_records(records, state, log, finished, position, options, plan);
    law_kept_records_belong(records, kept, position.execution, records[i]);
    assert(records.contains(records[i]));
}

/// A fork's log declares every kept invocation and execution and registers
/// every graph the source registered, and declares nothing else; the
/// source's own start and end, its controls, notes and releases stay behind.
pub proof fn law_a_fork_keeps_its_declarations(
    records: Seq<CoordinatorRecord>,
    state: CoordinatorState,
    log: Seq<EventRecord>,
    finished: Set<u64>,
    position: ForkPosition,
    options: ForkOptions,
    plan: ForkPlan,
    i: int,
)
    requires
        plans(records, state, log, finished, position, options, plan),
        0 <= i < records.len(),
    ensures
        match *records[i].body {
            CoordinatorEvent::GraphRegistered { .. } => plan.records@.contains(records[i]),
            CoordinatorEvent::InvocationDeclared { invocation, .. } => plan.records@.contains(
                records[i],
            ) <==> plan.invocations@.contains(invocation.0),
            CoordinatorEvent::ExecutionDeclared { execution, .. } => plan.records@.contains(
                records[i],
            ) <==> plan.executions@.contains(execution.0),
            CoordinatorEvent::RunStarted { .. } => !plan.records@.contains(records[i]),
            CoordinatorEvent::RunFinished { .. } => !plan.records@.contains(records[i]),
            CoordinatorEvent::RunPaused => !plan.records@.contains(records[i]),
            CoordinatorEvent::RunUnpaused => !plan.records@.contains(records[i]),
            CoordinatorEvent::RunNoteRecorded { .. } => !plan.records@.contains(records[i]),
            CoordinatorEvent::ScopeReleased { .. } => !plan.records@.contains(records[i]),
            _ => true,
        },
{
    let kept = KeptModel { invocations: plan.invocations@, executions: plan.executions@ };
    lemma_plan_records(records, state, log, finished, position, options, plan);
    law_kept_records_belong(records, kept, position.execution, records[i]);
    assert(records.contains(records[i]));
}

proof fn lemma_plan_records(
    records: Seq<CoordinatorRecord>,
    state: CoordinatorState,
    log: Seq<EventRecord>,
    finished: Set<u64>,
    position: ForkPosition,
    options: ForkOptions,
    plan: ForkPlan,
)
    requires
        plans(records, state, log, finished, position, options, plan),
    ensures
        plan.records@ == kept_records(
            records,
            KeptModel { invocations: plan.invocations@, executions: plan.executions@ },
            position.execution,
        ),
{
}

/// What a fork keeps stands in the source's order, each record once.
pub proof fn law_a_fork_keeps_the_order(
    records: Seq<CoordinatorRecord>,
    state: CoordinatorState,
    log: Seq<EventRecord>,
    finished: Set<u64>,
    position: ForkPosition,
    options: ForkOptions,
    plan: ForkPlan,
)
    requires
        plans(records, state, log, finished, position, options, plan),
        forall|i: int, j: int|
            0 <= i < j < records.len() ==> (#[trigger] records[i]).seq < (#[trigger] records[j]).seq,
    ensures
        forall|i: int, j: int|
            0 <= i < j < plan.records@.len() ==> (#[trigger] plan.records@[i]).seq < (
            #[trigger] plan.records@[j]).seq,
        forall|i: int|
            0 <= i < plan.records@.len() ==> records.contains(#[trigger] plan.records@[i]),
{
    let kept = KeptModel { invocations: plan.invocations@, executions: plan.executions@ };
    lemma_plan_records(records, state, log, finished, position, options, plan);
    lemma_kept_in_order(records, kept, position.execution);
}

proof fn lemma_kept_in_order(
    records: Seq<CoordinatorRecord>,
    kept: KeptModel,
    position: ExecutionId,
)
    requires
        forall|i: int, j: int|
            0 <= i < j < records.len() ==> (#[trigger] records[i]).seq < (#[trigger] records[j]).seq,
    ensures
        ({
            let all = kept_records(records, kept, position);
            &&& forall|i: int, j: int|
                0 <= i < j < all.len() ==> (#[trigger] all[i]).seq < (#[trigger] all[j]).seq
            &&& forall|i: int| 0 <= i < all.len() ==> records.contains(#[trigger] all[i])
        }),
    decreases records.len(),
{
    if records.len() > 0 {
        let rest = records.drop_last();
        assert forall|i: int, j: int| 0 <= i < j < rest.len() implies (#[trigger] rest[i]).seq < (
        #[trigger] rest[j]).seq by {
            assert(records[i].seq < records[j].seq);
        }
        lemma_kept_in_order(rest, kept, position);
        let before = kept_records(rest, kept, position);
        let all = kept_records(records, kept, position);
        assert forall|i: int| 0 <= i < before.len() implies records.contains(#[trigger] before[i])
            && before[i].seq < records[records.len() - 1].seq by {
            assert(rest.contains(before[i]));
            let k = choose|k: int| 0 <= k < rest.len() && rest[k] == before[i];
            assert(records[k] == before[i]);
            assert(records[k].seq < records[records.len() - 1].seq);
        }
        assert forall|i: int| 0 <= i < all.len() implies records.contains(#[trigger] all[i]) by {
            if i < before.len() {
                assert(all[i] == before[i]);
            } else {
                assert(records[records.len() - 1] == all[i]);
            }
        }
        assert forall|i: int, j: int| 0 <= i < j < all.len() implies (#[trigger] all[i]).seq < (
        #[trigger] all[j]).seq by {
            assert(all[i] == before[i]);
            if j < before.len() {
                assert(all[j] == before[j]);
            }
        }
    }
}

/// A fork's log opens with its own start: the run's new key, the source's
/// middleware, and the source, position and choice it was forked with; what
/// follows is what the source recorded, when it recorded it.
pub proof fn law_a_fork_names_its_source(
    records: Seq<CoordinatorRecord>,
    state: CoordinatorState,
    log: Seq<EventRecord>,
    finished: Set<u64>,
    position: ForkPosition,
    options: ForkOptions,
    plan: ForkPlan,
    key: String,
    now: u64,
    i: int,
)
    requires
        plans(records, state, log, finished, position, options, plan),
        fork_refused(records, state, log, position, options) is None,
        0 <= i < plan.records@.len() < u64::MAX,
    ensures
        ({
            let written = fork_log(plan, key, now);
            &&& written.len() == plan.records@.len() + 1
            &&& written[0].seq == 0
            &&& written[0].origin == EventOrigin::External
            &&& written[0].recorded_at == now
            &&& *written[0].body matches CoordinatorEvent::RunStarted {
                format_version,
                key: named,
                root,
                middleware_chain,
                forked_from: Some(origin),
            } && format_version == COORDINATOR_FORMAT_VERSION && named == key && root.0 == 0
                && middleware_chain == state.middleware_chain && origin.position == position
                && origin.rerun_last == options.rerun_last && (*records[0].body matches
                CoordinatorEvent::RunStarted { key: source, .. } && origin.source == source)
            &&& written[i + 1].seq == i + 1
            &&& written[i + 1].origin == plan.records@[i].origin
            &&& written[i + 1].recorded_at == plan.records@[i].recorded_at
            &&& written[i + 1].body == plan.records@[i].body
        }),
{
}

/// The graphs a fork copies are those its log registers, each time one is.
pub proof fn law_registered_graphs_are_copied(records: Seq<CoordinatorRecord>, digest: GraphDigest)
    ensures
        registered(records).contains(digest) <==> exists|i: int|
            0 <= i < records.len() && (*(#[trigger] records[i]).body
                == CoordinatorEvent::GraphRegistered { digest }),
        registered(records).len() <= records.len(),
    decreases records.len(),
{
    if records.len() > 0 {
        let rest = records.drop_last();
        law_registered_graphs_are_copied(rest, digest);
        let before = registered(rest);
        let all = registered(records);
        if all.contains(digest) {
            let k = choose|k: int| 0 <= k < all.len() && all[k] == digest;
            if k < before.len() {
                assert(before[k] == digest);
                let i = choose|i: int|
                    0 <= i < rest.len() && (*(#[trigger] rest[i]).body
                        == CoordinatorEvent::GraphRegistered { digest });
                assert(records[i] == rest[i]);
            } else {
                assert(records[records.len() - 1] == records.last());
            }
        }
        if exists|i: int|
            0 <= i < records.len() && (*(#[trigger] records[i]).body
                == CoordinatorEvent::GraphRegistered { digest }) {
            let i = choose|i: int|
                0 <= i < records.len() && (*(#[trigger] records[i]).body
                    == CoordinatorEvent::GraphRegistered { digest });
            if i < rest.len() {
                assert(rest[i] == records[i]);
                let k = choose|k: int| 0 <= k < before.len() && before[k] == digest;
                assert(all[k] == digest);
            } else {
                assert(all[all.len() - 1] == digest);
            }
        }
    }
}

// ── The kept tree ──────────────────────────────────────────────────────

proof fn lemma_with_executions(set: Set<u64>, executions: Seq<ExecutionId>, id: u64)
    ensures
        with_executions(set, executions).contains(id) <==> set.contains(id) || exists|i: int|
            0 <= i < executions.len() && (#[trigger] executions[i]).0 == id,
    decreases executions.len(),
{
    if executions.len() > 0 {
        let rest = executions.drop_last();
        lemma_with_executions(set, rest, id);
        if exists|i: int| 0 <= i < rest.len() && (#[trigger] rest[i]).0 == id {
            let i = choose|i: int| 0 <= i < rest.len() && (#[trigger] rest[i]).0 == id;
            assert(executions[i].0 == id);
        }
        if exists|i: int| 0 <= i < executions.len() && (#[trigger] executions[i]).0 == id {
            let i = choose|i: int| 0 <= i < executions.len() && (#[trigger] executions[i]).0 == id;
            if i < rest.len() {
                assert(rest[i].0 == id);
            }
        }
        if executions.last().0 == id {
            assert(executions[executions.len() - 1].0 == id);
        }
    }
}

proof fn lemma_place(chain: Seq<ExecutionId>, execution: ExecutionId, from: int)
    requires
        0 <= from <= chain.len(),
    ensures
        match place_in(chain, execution, from) {
            Some(at) => from <= at < chain.len() && chain[at] == execution && forall|j: int|
                from <= j < at ==> #[trigger] chain[j] != execution,
            None => forall|j: int| from <= j < chain.len() ==> #[trigger] chain[j] != execution,
        },
    decreases chain.len() - from,
{
    if from < chain.len() && chain[from] != execution {
        lemma_place(chain, execution, from + 1);
    }
}

proof fn lemma_kept_grows(
    state: CoordinatorState,
    start: KeptModel,
    invocations: Seq<InvocationState>,
    position: ExecutionId,
    finished: Set<u64>,
    i: int,
)
    requires
        0 <= i <= invocations.len(),
    ensures
        kept_among(state, start, invocations.take(i), position, finished).invocations.subset_of(
            kept_among(state, start, invocations, position, finished).invocations,
        ),
        kept_among(state, start, invocations.take(i), position, finished).executions.subset_of(
            kept_among(state, start, invocations, position, finished).executions,
        ),
    decreases invocations.len() - i,
{
    if i == invocations.len() {
        assert(invocations.take(i) =~= invocations);
    } else {
        lemma_kept_grows(state, start, invocations, position, finished, i + 1);
        let more = invocations.take(i + 1);
        assert(more.drop_last() =~= invocations.take(i));
        let before = kept_among(state, start, invocations.take(i), position, finished);
        assert forall|id: u64| before.executions.contains(id) implies with_executions(
            before.executions,
            more.last().executions@,
        ).contains(id) by {
            lemma_with_executions(before.executions, more.last().executions@, id);
        }
    }
}

/// The root is kept with its executions up to the position's, which is kept
/// too; and a kept invocation keeps all its executions.
pub proof fn law_a_fork_keeps_the_root_s_way(
    records: Seq<CoordinatorRecord>,
    state: CoordinatorState,
    log: Seq<EventRecord>,
    finished: Set<u64>,
    position: ForkPosition,
    options: ForkOptions,
    plan: ForkPlan,
    root: InvocationState,
    k: int,
)
    requires
        plans(records, state, log, finished, position, options, plan),
        fork_refused(records, state, log, position, options) is None,
        state.spec_invocation(InvocationId(0)) == Some(root),
        0 <= k < root.executions@.len(),
        forall|j: int| 0 <= j < k ==> #[trigger] root.executions@[j] != position.execution,
    ensures
        plan.invocations@.contains(0),
        plan.executions@.contains(root.executions@[k].0),
        plan.executions@.contains(position.execution.0),
        plan.root_graph == root.declaration.graph,
{
    let chain = root.executions@;
    lemma_place(chain, position.execution, 0);
    let end = place_in(chain, position.execution, 0)->0;
    let part = chain.take(end + 1);
    let start = KeptModel {
        invocations: Set::empty().insert(InvocationId::root().0),
        executions: with_executions(Set::empty(), part),
    };
    let all = state.invocations@;
    lemma_kept_grows(state, start, all, position.execution, finished, 0);
    assert(all.take(0) =~= Seq::empty());
    lemma_with_executions(Set::empty(), part, chain[k].0);
    lemma_with_executions(Set::empty(), part, position.execution.0);
    assert(part[k] == chain[k]);
    assert(part[end] == position.execution);
}

/// Of the root's executions none past the position's is kept, when no other
/// invocation has it.
pub proof fn law_a_fork_drops_what_came_after(
    records: Seq<CoordinatorRecord>,
    state: CoordinatorState,
    log: Seq<EventRecord>,
    finished: Set<u64>,
    position: ForkPosition,
    options: ForkOptions,
    plan: ForkPlan,
    root: InvocationState,
    k: int,
    at: int,
)
    requires
        plans(records, state, log, finished, position, options, plan),
        fork_refused(records, state, log, position, options) is None,
        state.spec_invocation(InvocationId(0)) == Some(root),
        0 <= at < k < root.executions@.len(),
        root.executions@[at] == position.execution,
        forall|i: int, j: int|
            0 <= i < j < root.executions@.len() ==> (#[trigger] root.executions@[i]).0 != (
            #[trigger] root.executions@[j]).0,
        forall|i: int, j: int|
            0 <= i < state.invocations@.len() && state.invocations@[i].declaration.call is Some && 0
                <= j < state.invocations@[i].executions@.len() ==> (
            #[trigger] state.invocations@[i].executions@[j]).0 != root.executions@[k].0,
    ensures
        !plan.executions@.contains(root.executions@[k].0),
{
    let chain = root.executions@;
    let id = chain[k].0;
    lemma_place(chain, position.execution, 0);
    let end = place_in(chain, position.execution, 0)->0;
    if end != at {
        assert(chain[end].0 != chain[at].0);
    }
    let part = chain.take(end + 1);
    let start = KeptModel {
        invocations: Set::empty().insert(InvocationId::root().0),
        executions: with_executions(Set::empty(), part),
    };
    lemma_with_executions(Set::empty(), part, id);
    if start.executions.contains(id) {
        let i = choose|i: int| 0 <= i < part.len() && (#[trigger] part[i]).0 == id;
        assert(chain[i].0 != chain[k].0);
    }
    lemma_not_kept(state, start, state.invocations@, position.execution, finished, id);
}

proof fn lemma_not_kept(
    state: CoordinatorState,
    start: KeptModel,
    invocations: Seq<InvocationState>,
    position: ExecutionId,
    finished: Set<u64>,
    id: u64,
)
    requires
        !start.executions.contains(id),
        forall|i: int, j: int|
            0 <= i < invocations.len() && invocations[i].declaration.call is Some && 0 <= j
                < invocations[i].executions@.len() ==> (#[trigger] invocations[i].executions@[j]).0
                != id,
    ensures
        !kept_among(state, start, invocations, position, finished).executions.contains(id),
    decreases invocations.len(),
{
    if invocations.len() > 0 {
        let rest = invocations.drop_last();
        assert forall|i: int, j: int|
            0 <= i < rest.len() && rest[i].declaration.call is Some && 0 <= j
                < rest[i].executions@.len() implies (#[trigger] rest[i].executions@[j]).0 != id by {
            assert(invocations[i] == rest[i]);
            assert(invocations[i].executions@[j].0 != id);
        }
        lemma_not_kept(state, start, rest, position, finished, id);
        let before = kept_among(state, start, rest, position, finished);
        let last = invocations.last();
        lemma_with_executions(before.executions, last.executions@, id);
        if last.declaration.call is Some {
            assert(invocations[invocations.len() - 1] == last);
            assert forall|j: int| 0 <= j < last.executions@.len() implies (
            #[trigger] last.executions@[j]).0 != id by {
                assert(invocations[invocations.len() - 1].executions@[j].0 != id);
            }
        }
    }
}

/// A kept child is one that finished, called from a kept execution of a kept
/// invocation; one called from the position's execution was called by a
/// firing whose finish the fork keeps.
pub proof fn law_a_kept_child_finished(
    records: Seq<CoordinatorRecord>,
    state: CoordinatorState,
    log: Seq<EventRecord>,
    finished: Set<u64>,
    position: ForkPosition,
    options: ForkOptions,
    plan: ForkPlan,
    id: u64,
)
    requires
        plans(records, state, log, finished, position, options, plan),
        plan.invocations@.contains(id),
        id != 0,
    ensures
        exists|i: int|
            0 <= i < state.invocations@.len() && (
            #[trigger] state.invocations@[i]).declaration.id.0 == id
                && state.invocations@[i].result is Some && (state.invocations@[i].declaration.call
                matches Some(call) && plan.executions@.contains(call.parent.0) && (
            state.spec_execution(call.parent) matches Some(parent) && plan.invocations@.contains(
                parent.declaration.invocation.0,
            )) && (call.parent == position.execution ==> finished.contains(call.firing.0))),
{
    let root = state.spec_invocation(InvocationId::root())->0;
    let end = place_in(root.executions@, position.execution, 0)->0;
    let start = KeptModel {
        invocations: Set::empty().insert(InvocationId::root().0),
        executions: with_executions(Set::empty(), root.executions@.take(end + 1)),
    };
    law_kept_children_have_kept_parents(
        state,
        start,
        state.invocations@,
        position.execution,
        finished,
        id,
    );
    let i = choose|i: int|
        0 <= i < state.invocations@.len() && (#[trigger] state.invocations@[i]).declaration.id.0
            == id && keeps_invocation(
            state,
            kept_among(state, start, state.invocations@, position.execution, finished),
            state.invocations@[i],
            position.execution,
            finished,
        );
    assert(state.invocations@[i].declaration.id.0 == id);
}

/// Every finished child of what is kept is kept, with all its executions: a
/// child that stands after its caller and was called by a kept execution of
/// a kept invocation, at a firing whose finish is kept where the caller is
/// the position's execution.
pub proof fn law_a_finished_child_is_kept(
    records: Seq<CoordinatorRecord>,
    state: CoordinatorState,
    log: Seq<EventRecord>,
    finished: Set<u64>,
    position: ForkPosition,
    options: ForkOptions,
    plan: ForkPlan,
    i: int,
    parent: ExecutionState,
)
    requires
        plans(records, state, log, finished, position, options, plan),
        0 <= i < state.invocations@.len(),
        state.invocations@[i].result is Some,
        state.invocations@[i].declaration.call matches Some(call) && {
            &&& state.spec_execution(call.parent) == Some(parent)
            &&& plan.executions@.contains(call.parent.0)
            &&& plan.invocations@.contains(parent.declaration.invocation.0)
            &&& call.parent == position.execution ==> finished.contains(call.firing.0)
            &&& forall|j: int|
                i <= j < state.invocations@.len() ==> (
                #[trigger] state.invocations@[j]).declaration.id.0
                    != parent.declaration.invocation.0
            &&& forall|j: int, n: int|
                i <= j < state.invocations@.len() && 0 <= n
                    < state.invocations@[j].executions@.len() ==> (
                #[trigger] state.invocations@[j].executions@[n]).0 != call.parent.0
        },
    ensures
        plan.invocations@.contains(state.invocations@[i].declaration.id.0),
        forall|n: int|
            0 <= n < state.invocations@[i].executions@.len() ==> plan.executions@.contains(
                (#[trigger] state.invocations@[i].executions@[n]).0,
            ),
{
    let root = state.spec_invocation(InvocationId::root())->0;
    let end = place_in(root.executions@, position.execution, 0)->0;
    let start = KeptModel {
        invocations: Set::empty().insert(InvocationId::root().0),
        executions: with_executions(Set::empty(), root.executions@.take(end + 1)),
    };
    let all = state.invocations@;
    let child = all[i];
    let call = child.declaration.call->0;
    let at = position.execution;
    let before = kept_among(state, start, all.take(i), at, finished);
    lemma_kept_before(
        state,
        start,
        all,
        at,
        finished,
        i,
        all.len() as int,
        parent.declaration.invocation.0,
        call.parent.0,
    );
    assert(all.take(all.len() as int) =~= all);
    let more = all.take(i + 1);
    assert(more.drop_last() =~= all.take(i));
    assert(more.last() == child);
    lemma_kept_grows(state, start, all, at, finished, i + 1);
    let after = kept_among(state, start, more, at, finished);
    assert(after.invocations.contains(child.declaration.id.0));
    assert forall|n: int| 0 <= n < child.executions@.len() implies plan.executions@.contains(
        (#[trigger] child.executions@[n]).0,
    ) by {
        lemma_with_executions(before.executions, child.executions@, child.executions@[n].0);
    }
}

proof fn lemma_kept_before(
    state: CoordinatorState,
    start: KeptModel,
    all: Seq<InvocationState>,
    position: ExecutionId,
    finished: Set<u64>,
    i: int,
    n: int,
    invocation: u64,
    execution: u64,
)
    requires
        0 <= i <= n <= all.len(),
        kept_among(state, start, all.take(n), position, finished).invocations.contains(invocation),
        kept_among(state, start, all.take(n), position, finished).executions.contains(execution),
        forall|j: int|
            i <= j < all.len() ==> (#[trigger] all[j]).declaration.id.0 != invocation,
        forall|j: int, m: int|
            i <= j < all.len() && 0 <= m < all[j].executions@.len() ==> (
            #[trigger] all[j].executions@[m]).0 != execution,
    ensures
        kept_among(state, start, all.take(i), position, finished).invocations.contains(invocation),
        kept_among(state, start, all.take(i), position, finished).executions.contains(execution),
    decreases n - i,
{
    if i < n {
        let more = all.take(n);
        assert(more.drop_last() =~= all.take(n - 1));
        assert(more.last() == all[n - 1]);
        let before = kept_among(state, start, all.take(n - 1), position, finished);
        lemma_with_executions(before.executions, all[n - 1].executions@, execution);
        assert(all[n - 1].declaration.id.0 != invocation);
        assert forall|m: int| 0 <= m < all[n - 1].executions@.len() implies (
        #[trigger] all[n - 1].executions@[m]).0 != execution by {
            let j = n - 1;
            assert(all[j].executions@[m].0 != execution);
        }
        lemma_kept_before(
            state,
            start,
            all,
            position,
            finished,
            i,
            n - 1,
            invocation,
            execution,
        );
    }
}

// ── The cut ────────────────────────────────────────────────────────────

/// Whether a record is the host's routing of a firing.
pub open spec fn host_routed(record: EventRecord, firing: FiringId) -> bool {
    &&& record.origin == EventOrigin::External
    &&& event_of(record) matches Event::RoutingResolved {
        decision_id: DecisionId::Route { firing: f, .. },
        ..
    } && f == firing
}

/// A fork that keeps the firing's finish keeps its log through the firing's
/// last routing and the records the core made of it, and not a record more.
pub proof fn law_the_cut_keeps_the_routing(
    records: Seq<CoordinatorRecord>,
    state: CoordinatorState,
    log: Seq<EventRecord>,
    finished: Set<u64>,
    position: ForkPosition,
    options: ForkOptions,
    plan: ForkPlan,
)
    requires
        plans(records, state, log, finished, position, options, plan),
        !options.rerun_last,
    ensures
        exists|routed: int|
            0 <= routed < plan.cut && plan.cut <= log.len() && host_routed(
                #[trigger] log[routed],
                position.firing,
            ) && (forall|j: int|
                routed < j < log.len() ==> !host_routed(#[trigger] log[j], position.firing)) && (
            forall|j: int|
                routed < j < plan.cut ==> (#[trigger] log[j]).origin == EventOrigin::Core) && (
            plan.cut < log.len() ==> log[plan.cut as int].origin == EventOrigin::External),
{
    law_cut(log, position, options);
    lemma_last_routed(log, position.firing);
    let routed = last_routing(log, position.firing)->0;
    assert(host_routed(log[routed], position.firing));
}

proof fn lemma_last_routed(log: Seq<EventRecord>, firing: FiringId)
    ensures
        match last_routing(log, firing) {
            Some(at) => 0 <= at < log.len() && host_routed(log[at], firing) && forall|j: int|
                at < j < log.len() ==> !host_routed(#[trigger] log[j], firing),
            None => forall|j: int| 0 <= j < log.len() ==> !host_routed(#[trigger] log[j], firing),
        },
    decreases log.len(),
{
    if log.len() > 0 {
        let rest = log.drop_last();
        lemma_last_routed(rest, firing);
        assert forall|j: int| 0 <= j < rest.len() implies rest[j] == #[trigger] log[j] by {}
    }
}

/// A fork that runs the firing again keeps none of the firing's own records:
/// not its admission, its attempts' starts, reports and ends, its retries,
/// the controls it was sent, nor its routing and routes. What it cuts off
/// begins with the first of them.
pub proof fn law_a_firing_that_runs_again_left_nothing(
    records: Seq<CoordinatorRecord>,
    state: CoordinatorState,
    log: Seq<EventRecord>,
    finished: Set<u64>,
    position: ForkPosition,
    options: ForkOptions,
    plan: ForkPlan,
)
    requires
        plans(records, state, log, finished, position, options, plan),
        options.rerun_last,
    ensures
        plan.cut < log.len(),
        names(event_of(log[plan.cut as int]), position.firing),
        forall|j: int|
            0 <= j < plan.cut ==> !names(event_of(#[trigger] log[j]), position.firing),
{
    law_cut(log, position, options);
    let cut = plan.cut as int;
    lemma_names(event_of(log[cut]), position.firing);
    assert forall|j: int| 0 <= j < plan.cut implies !names(
        event_of(#[trigger] log[j]),
        position.firing,
    ) by {
        lemma_names(event_of(log[j]), position.firing);
    }
}

/// Whether an engine event says which firing it is of, and it is this one.
pub open spec fn names(event: Event, firing: FiringId) -> bool {
    ||| event matches Event::StepStarted { firing: f, .. } && f == firing
    ||| event matches Event::StepProgressRecorded { firing: f, .. } && f == firing
    ||| event matches Event::StepFinished { firing: f, .. } && f == firing
    ||| event matches Event::RetryElapsed { firing: f, .. } && f == firing
    ||| event matches Event::ControlRequested { firing: f, .. } && f == firing
    ||| event matches Event::RouteApplied { applied } && applied.firing() == firing
    ||| event matches Event::AdmissionDecided {
        decision_id: DecisionId::AttemptStart { firing: f, .. },
        ..
    } && f == firing
    ||| event matches Event::AdmissionDecided {
        decision_id: DecisionId::Route { firing: f, .. },
        ..
    } && f == firing
    ||| event matches Event::RoutingResolved {
        decision_id: DecisionId::AttemptStart { firing: f, .. },
        ..
    } && f == firing
    ||| event matches Event::RoutingResolved {
        decision_id: DecisionId::Route { firing: f, .. },
        ..
    } && f == firing
}

proof fn lemma_names(event: Event, firing: FiringId)
    ensures
        names(event, firing) <==> is_own(event, firing),
{
}

/// A position can be forked when the run started, the position's execution is
/// one of the root's own, in its chain, and the host routed the firing; and
/// what is missing is what the refusal names.
pub proof fn law_what_can_be_forked(
    records: Seq<CoordinatorRecord>,
    state: CoordinatorState,
    log: Seq<EventRecord>,
    position: ForkPosition,
    options: ForkOptions,
)
    ensures
        ({
            let refused = fork_refused(records, state, log, position, options);
            let started = records.len() > 0 && (*records[0].body is RunStarted);
            let routed = exists|i: int|
                0 <= i < log.len() && host_routed(#[trigger] log[i], position.firing);
            &&& !started ==> refused == Some(ForkError::State(StateError::MissingRunStart))
            &&& started ==> match state.spec_execution(position.execution) {
                None => refused == Some(ForkError::UnknownExecution(position.execution)),
                Some(execution) => {
                    &&& execution.declaration.invocation.0 != 0 ==> refused == Some(
                        ForkError::PositionInChild {
                            execution: position.execution,
                            invocation: execution.declaration.invocation,
                        },
                    )
                    &&& execution.declaration.invocation.0 == 0 ==> match state.spec_invocation(
                        InvocationId(0),
                    ) {
                        None => refused == Some(
                            ForkError::State(StateError::UnknownInvocation(InvocationId(0))),
                        ),
                        Some(root) => {
                            &&& !routed ==> refused == Some(
                                ForkError::UnroutedFiring {
                                    execution: position.execution,
                                    firing: position.firing,
                                },
                            )
                            &&& routed && root.executions@.contains(position.execution)
                                ==> refused is None
                            &&& routed && !root.executions@.contains(position.execution)
                                ==> refused == Some(
                                ForkError::State(StateError::UnknownExecution(position.execution)),
                            )
                        },
                    }
                },
            }
        }),
{
    lemma_last_routed(log, position.firing);
    if let Some(root) = state.spec_invocation(InvocationId::root()) {
        lemma_place(root.executions@, position.execution, 0);
        if let Some(at) = place_in(root.executions@, position.execution, 0) {
            assert(root.executions@[at] == position.execution);
        }
    }
}

} // verus!

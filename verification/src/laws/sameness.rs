//! When values, records and requests are the same, and what is found under an
//! id.

use crate::alike::Alike;
use crate::client::InvocationRequest;
use crate::coordinator::live::{running_of, LiveInvocation};
use crate::coordinator::result::{
    fails_with, failure_of, last_failure, node_context, node_updates, result_missing, under_name,
};
use crate::coordinator::start::{same_key, same_request, same_site};
use crate::event::{
    same_admission, same_bindings, AttemptAdmission, CoordinatorEvent, CoordinatorRecord,
    ParentCallKey, SecretBinding, SecretBindings,
};
use crate::events::{EventModel, Record, ViewModel};
use crate::events::same::{same_derived, same_event, same_view};
use crate::ids::{EdgeId, ExecutionId, FiringId, Generation, InvocationId, NodeId, ScopeId};
use crate::json::{key_place, same_fields, same_value, JsonView, NumberView};
use crate::laws::telling::{lemma_first_where, lemma_last_where};
use crate::model::{
    same_failure, same_outcome, same_runtime, same_status, Edge, FailureInfo, Graph, Node, Outcome,
    RunStatus, RuntimeTarget, Scope, ScopeRuntime,
};
use crate::record::{Event, EventRecord, StoredEngineRecord};
use crate::run_state::{CoordinatorState, ExecutionState, InvocationState};
use crate::state::{EngineState, HistoryEntry, LiveFiring, NodeRecord};
use vstd::prelude::*;
use vstd::string::*;

verus! {

// ── Values ─────────────────────────────────────────────────────────────

/// Values of different kinds are never the same; texts, truth values and
/// integers are the same when they are equal; lists when they are as long and
/// the same item by item.
pub proof fn law_when_values_are_the_same(a: JsonView, b: JsonView)
    ensures
        same_value(a, b) ==> (a is Null <==> b is Null) && (a is Bool <==> b is Bool) && (
        a is Number <==> b is Number) && (a is Text <==> b is Text) && (a is List <==> b is List)
            && (a is Object <==> b is Object),
        a is Null && b is Null ==> same_value(a, b),
        a matches JsonView::Bool(x) ==> (b matches JsonView::Bool(y) ==> (same_value(a, b) <==> x
            == y)),
        a matches JsonView::Text(x) ==> (b matches JsonView::Text(y) ==> (same_value(a, b) <==> x
            == y)),
        a matches JsonView::Number(NumberView::Unsigned(x)) ==> (b matches JsonView::Number(
            NumberView::Unsigned(y),
        ) ==> (same_value(a, b) <==> x == y)),
        a matches JsonView::Number(NumberView::Negative(x)) ==> (b matches JsonView::Number(
            NumberView::Negative(y),
        ) ==> (same_value(a, b) <==> x == y)),
        a matches JsonView::Number(NumberView::Decimal(x)) ==> (b matches JsonView::Number(
            NumberView::Decimal(y),
        ) ==> (same_value(a, b) <==> x == y || (x == "0.0"@ || x == "-0.0"@) && (y == "0.0"@ || y
            == "-0.0"@))),
        a matches JsonView::Number(x) ==> (b matches JsonView::Number(y) ==> (same_value(a, b)
            ==> (x is Unsigned <==> y is Unsigned) && (x is Negative <==> y is Negative))),
        a matches JsonView::List(x) ==> (b matches JsonView::List(y) ==> (same_value(a, b)
            <==> x.len() == y.len() && forall|i: int|
            0 <= i < x.len() ==> same_value(#[trigger] x[i], y[i]))),
{
}

/// The place of a key is the first that has it, or the members' count.
pub proof fn law_where_a_key_stands(members: Seq<(Seq<char>, JsonView)>, key: Seq<char>)
    ensures
        0 <= key_place(members, key) <= members.len(),
        key_place(members, key) < members.len() ==> members[key_place(members, key)].0 == key,
        forall|j: int| 0 <= j < key_place(members, key) ==> (#[trigger] members[j]).0 != key,
    decreases members.len(),
{
    if members.len() > 0 && members.first().0 != key {
        let rest = members.drop_first();
        law_where_a_key_stands(rest, key);
        assert forall|j: int| 0 <= j < key_place(members, key) implies (#[trigger] members[j]).0
            != key by {
            if j > 0 {
                assert(rest[j - 1] == members[j]);
            }
        }
        if key_place(rest, key) < rest.len() {
            assert(rest[key_place(rest, key)] == members[key_place(rest, key) + 1]);
        }
    }
}

/// Objects are the same when they have as many members and each member's key
/// is among the other's, with the same value, in whatever order.
pub proof fn law_when_objects_are_the_same(
    a: Seq<(Seq<char>, JsonView)>,
    b: Seq<(Seq<char>, JsonView)>,
    i: int,
)
    requires
        same_value(JsonView::Object(a), JsonView::Object(b)),
        0 <= i < a.len(),
    ensures
        a.len() == b.len(),
        exists|j: int|
            0 <= j < b.len() && (#[trigger] b[j]).0 == a[i].0 && same_value(a[i].1, b[j].1),
{
    law_where_a_key_stands(b, a[i].0);
    let j = key_place(b, a[i].0);
    assert(0 <= j < b.len() && b[j].0 == a[i].0);
}

/// Outcomes are the same when their statuses, outputs, context updates and
/// metrics are; statuses when their tags, kinds and failures are; failures
/// when their messages and classes are.
pub proof fn law_when_outcomes_are_the_same(a: Outcome, b: Outcome)
    ensures
        same_outcome(a, b) <==> {
            &&& a.status.tag@ == b.status.tag@
            &&& a.status.success_like == b.status.success_like
            &&& a.status.cancelled == b.status.cancelled
            &&& same_failure(a.status.failure, b.status.failure)
            &&& same_value(a.output@, b.output@)
            &&& same_fields(a.context_updates@, b.context_updates@)
            &&& a.metrics == b.metrics
        },
{
}

/// Failures are the same when both are none, or both say the same under the
/// same class.
pub proof fn law_when_failures_are_the_same(a: Option<FailureInfo>, b: Option<FailureInfo>)
    ensures
        same_failure(a, b) ==> (a is Some <==> b is Some),
        a is None && b is None ==> same_failure(a, b),
        a matches Some(x) ==> (b matches Some(y) ==> (same_failure(a, b) <==> x.message@
            == y.message@ && (x.class is Some <==> y.class is Some) && (x.class matches Some(c)
            ==> (y.class matches Some(d) ==> c@ == d@)))),
{
}

/// Runtimes are the same when their settings are and both run on the host, or
/// both in a container of the same image and options.
pub proof fn law_when_runtimes_are_the_same(a: ScopeRuntime, b: ScopeRuntime)
    ensures
        same_runtime(a, b) <==> a.settings@ == b.settings@ && match (a.target, b.target) {
            (RuntimeTarget::HostProcess, RuntimeTarget::HostProcess) => true,
            (
                RuntimeTarget::Container { image: x, options: s },
                RuntimeTarget::Container { image: y, options: t },
            ) => x@ == y@ && s@ == t@,
            _ => false,
        },
{
}

/// Secret bindings are the same when both are none, both inherit, or both
/// name the same secrets in the same way.
pub proof fn law_when_bindings_are_the_same(a: SecretBindings, b: SecretBindings, i: int)
    requires
        same_bindings(a, b),
    ensures
        a is NoSecrets <==> b is NoSecrets,
        a is Inherit <==> b is Inherit,
        a is Explicit <==> b is Explicit,
        a matches SecretBindings::Explicit(x) ==> (b matches SecretBindings::Explicit(y)
            ==> x@.len() == y@.len() && (0 <= i < x@.len() ==> x@[i].0@ == y@[i].0@ && (
        x@[i].1 is Empty <==> y@[i].1 is Empty) && (x@[i].1 matches SecretBinding::Parent(p)
            ==> (y@[i].1 matches SecretBinding::Parent(q) && p@ == q@)))),
{
}

/// Every set of bindings is the same as itself, and so is every admission.
pub proof fn law_bindings_are_their_own(a: SecretBindings, g: Option<AttemptAdmission>)
    ensures
        same_bindings(a, a),
        same_admission(g, g),
{
}

/// Admissions are the same when both are none, or both name one gate of one
/// width.
pub proof fn law_when_admissions_are_the_same(
    a: Option<AttemptAdmission>,
    b: Option<AttemptAdmission>,
)
    ensures
        same_admission(a, b) <==> (a is None && b is None || a is Some && b is Some && a->0.gate@
            == b->0.gate@ && a->0.max_parallel == b->0.max_parallel),
{
}

// ── Requests ───────────────────────────────────────────────────────────

/// A call is the same when its caller, firing, attempt and slot are; it is of
/// the same site whatever the attempt.
pub proof fn law_when_calls_are_the_same(a: ParentCallKey, b: ParentCallKey)
    ensures
        same_site(a, b) <==> a.parent == b.parent && a.firing == b.firing && a.slot@ == b.slot@,
        same_key(a, b) <==> same_site(a, b) && a.attempt == b.attempt,
{
}

/// A request is the one an invocation was declared with when it asks for the
/// same graph, context, secrets and admission, and for a sandbox of its kind.
pub proof fn law_when_requests_are_the_same(
    invocation: InvocationState,
    request: InvocationRequest,
)
    ensures
        same_request(invocation, request) ==> invocation.declaration.graph == request.graph
            && same_fields(invocation.declaration.context@, request.context@) && same_bindings(
            invocation.declaration.secret_bindings,
            request.secrets,
        ) && same_admission(invocation.declaration.admission, request.admission) && (
        request.sandbox is Isolated <==> invocation.declaration.sandbox is Isolated),
        invocation.declaration.graph == request.graph && same_fields(
            invocation.declaration.context@,
            request.context@,
        ) && same_bindings(invocation.declaration.secret_bindings, request.secrets)
            && same_admission(invocation.declaration.admission, request.admission) && (
        request.sandbox is Isolated <==> invocation.declaration.sandbox is Isolated)
            ==> same_request(invocation, request),
{
}

// ── Records ────────────────────────────────────────────────────────────

/// Lists are alike when they are as long and alike item by item; texts when
/// they read the same; pairs part by part.
pub proof fn law_when_lists_are_alike<T: Alike>(a: Vec<T>, b: Vec<T>, x: String, y: String)
    ensures
        a.alike(&b) <==> a@.len() == b@.len() && forall|i: int|
            0 <= i < a@.len() ==> (#[trigger] a@[i]).alike(&b@[i]),
        x.alike(&y) <==> x@ == y@,
        Some(x).alike(&None) == false,
        None::<String>.alike(&Some(x)) == false,
        None::<String>.alike(&None),
        Some(x).alike(&Some(y)) <==> x@ == y@,
{
}

/// Engine records are alike when their seqs and origins are equal and their
/// events alike; stored ones when their times are equal too.
pub proof fn law_when_engine_records_are_alike(
    a: EventRecord,
    b: EventRecord,
    s: StoredEngineRecord,
    t: StoredEngineRecord,
)
    ensures
        a.alike(&b) <==> a.seq == b.seq && a.origin == b.origin && (*a.event).alike(&*b.event),
        s.alike(&t) <==> s.seq == t.seq && s.origin == t.origin && s.recorded_at == t.recorded_at
            && (*s.body).alike(&*t.body),
{
}

/// Engine events that are alike are of one kind and about the same firing,
/// attempt, decision, node or scope, with outcomes and texts that are the
/// same.
pub proof fn law_when_engine_events_are_alike(a: Event, b: Event)
    ensures
        a.alike(&b) ==> match a {
            Event::ExecutionStarted { start } => b matches Event::ExecutionStarted { start: other }
                && start.entry == other.entry && start.execution_index == other.execution_index
                && start.max_executions == other.max_executions && same_fields(
                start.context@,
                other.context@,
            ),
            Event::AdmissionDecided { decision_id, decision, .. } => b matches
                Event::AdmissionDecided { decision_id: id, decision: other, .. } && decision_id
                == id && (decision is Admit <==> other is Admit) && (decision is Skip
                <==> other is Skip),
            Event::StepStarted { firing, attempt } => b matches Event::StepStarted {
                firing: f,
                attempt: t,
            } && firing == f && attempt == t,
            Event::StepProgressRecorded { firing, .. } => b matches Event::StepProgressRecorded {
                firing: f,
                ..
            } && firing == f,
            Event::StepFinished { firing, attempt, outcome } => b matches Event::StepFinished {
                firing: f,
                attempt: t,
                outcome: o,
            } && firing == f && attempt == t && same_outcome(*outcome, *o),
            Event::RetryElapsed { firing, next_attempt } => b matches Event::RetryElapsed {
                firing: f,
                next_attempt: n,
            } && firing == f && next_attempt == n,
            Event::RoutingResolved { decision_id, groups } => b matches Event::RoutingResolved {
                decision_id: id,
                groups: g,
            } && decision_id == id && groups@.len() == g@.len(),
            Event::RouteApplied { applied } => b matches Event::RouteApplied { applied: other }
                && applied == other,
            Event::TokenEmitted { .. } => b is TokenEmitted,
            Event::NodeExpanded { node, .. } => b matches Event::NodeExpanded { node: n, .. }
                && node == n,
            Event::ControlRequested { firing, ctl } => b matches Event::ControlRequested {
                firing: f,
                ctl: c,
            } && firing == f && (ctl is Deliver <==> c is Deliver) && (ctl is Cancel
                <==> c is Cancel) && (ctl is Kill <==> c is Kill),
            Event::CancelRequested { target } => b matches Event::CancelRequested { target: other }
                && target == other,
            Event::KillRequested { scope } => b matches Event::KillRequested { scope: other }
                && scope == other,
            Event::ScopeAcquired { scope, .. } => b matches Event::ScopeAcquired {
                scope: other,
                ..
            } && scope == other,
            Event::ScopeFailed { scope, .. } => b matches Event::ScopeFailed { scope: other, .. }
                && scope == other,
        },
{
}

/// Coordinator records are alike when their seqs, origins and times are equal
/// and their events alike; and events that are alike are of one kind and
/// about the same invocation, execution, graph or lease.
pub proof fn law_when_coordinator_records_are_alike(a: CoordinatorRecord, b: CoordinatorRecord)
    ensures
        a.alike(&b) <==> a.seq == b.seq && a.origin == b.origin && a.recorded_at == b.recorded_at
            && (*a.body).alike(&*b.body),
{
}

/// Coordinator events that are alike are of one kind and about the same run,
/// invocation, execution, graph or lease, with the same results.
pub proof fn law_when_coordinator_events_are_alike(a: CoordinatorEvent, b: CoordinatorEvent)
    ensures
        a.alike(&b) ==> match a {
            CoordinatorEvent::RunStarted { format_version, key, root, .. } => b matches
                CoordinatorEvent::RunStarted { format_version: v, key: k, root: r, .. }
                && format_version == v && key@ == k@ && root == r,
            CoordinatorEvent::GraphRegistered { digest } => b matches
                CoordinatorEvent::GraphRegistered { digest: d } && digest == d,
            CoordinatorEvent::InvocationDeclared {
                invocation,
                call,
                graph,
                context,
                secret_bindings,
                sandbox,
                admission,
            } => b matches CoordinatorEvent::InvocationDeclared {
                invocation: i,
                call: c,
                graph: g,
                context: x,
                secret_bindings: s,
                sandbox: y,
                admission: m,
            } && invocation == i && (call is Some <==> c is Some) && graph == g && same_fields(
                context@,
                x@,
            ) && same_bindings(secret_bindings, s) && sandbox == y && same_admission(admission, m),
            CoordinatorEvent::ExecutionDeclared { execution, invocation, predecessor, .. } =>
            b matches CoordinatorEvent::ExecutionDeclared {
                execution: e,
                invocation: i,
                predecessor: p,
                ..
            } && execution == e && invocation == i && predecessor == p,
            CoordinatorEvent::ExecutionFinished { execution, exit } => b matches
                CoordinatorEvent::ExecutionFinished { execution: e, exit: x } && execution == e
                && exit == x,
            CoordinatorEvent::InvocationFinished { invocation, result } => b matches
                CoordinatorEvent::InvocationFinished { invocation: i, result: r } && invocation
                == i && result.status == r.status && result.final_execution == r.final_execution
                && same_failure(result.failure, r.failure) && same_value(
                result.output@,
                r.output@,
            ) && same_fields(result.context@, r.context@) && same_fields(
                result.updates@,
                r.updates@,
            ),
            CoordinatorEvent::InvocationCancelRequested { invocation, reason } => b matches
                CoordinatorEvent::InvocationCancelRequested { invocation: i, reason: r }
                && invocation == i && reason == r,
            CoordinatorEvent::RunPaused => b is RunPaused,
            CoordinatorEvent::RunUnpaused => b is RunUnpaused,
            CoordinatorEvent::RunNoteRecorded { execution, kind, payload } => b matches
                CoordinatorEvent::RunNoteRecorded { execution: e, kind: k, payload: p }
                && execution == e && kind@ == k@ && same_value(payload@, p@),
            CoordinatorEvent::ScopeReleased {
                invocation,
                lease,
                workspace,
                outcome,
                retained,
                ..
            } => b matches CoordinatorEvent::ScopeReleased {
                invocation: i,
                lease: l,
                workspace: w,
                outcome: o,
                retained: r,
                ..
            } && invocation == i && lease == l && workspace@ == w@ && outcome == o && retained == r,
            CoordinatorEvent::RunFinished { status } => b matches CoordinatorEvent::RunFinished {
                status: s,
            } && status == s,
        },
{
}

/// Events of a stream are the same when they have one identity, origin, time
/// and place and carry alike records, subjects and derivations.
pub proof fn law_when_events_are_the_same(a: EventModel, b: EventModel)
    ensures
        same_event(a, b) ==> a.id == b.id && a.origin == b.origin && a.observed_at == b.observed_at
            && a.recorded_at == b.recorded_at && a.context.invocation == b.context.invocation
            && a.context.execution == b.context.execution && (a.subject is Some
            <==> b.subject is Some) && (a.record is Some <==> b.record is Some) && (
        a.derived is Some <==> b.derived is Some),
        same_event(a, b) ==> (a.subject matches Some(s) ==> (b.subject matches Some(t) ==> s.firing
            == t.firing && s.attempt == t.attempt && s.visit == t.visit && s.generation
            == t.generation && s.branch == t.branch && s.node.id == t.node.id)),
        same_event(a, b) ==> (a.record matches Some(Record::Engine(x)) ==> (b.record matches Some(
            Record::Engine(y),
        ) && x.alike(&y))),
        same_event(a, b) ==> (a.record matches Some(Record::Coordinator(x)) ==> (b.record matches
            Some(Record::Coordinator(y)) && x.alike(&y))),
        same_event(a, b) ==> same_derived(a.derived, b.derived),
{
}

/// View events that are the same are of one kind and tell the same of it.
pub proof fn law_when_views_are_the_same(a: ViewModel, b: ViewModel)
    ensures
        same_view(a, b) ==> match a {
            ViewModel::VisitStarted { .. } => b is VisitStarted,
            ViewModel::VisitCompleted { outcome, executed, attempts } => b matches
                ViewModel::VisitCompleted { outcome: o, executed: e, attempts: n }
                && same_outcome(*outcome, *o) && executed == e && attempts == n,
            ViewModel::RetryScheduled { next_attempt, base_delay_ms } => b matches
                ViewModel::RetryScheduled { next_attempt: n, base_delay_ms: d } && next_attempt
                == n && base_delay_ms == d,
            ViewModel::WaitStateChanged { state } => b matches ViewModel::WaitStateChanged {
                state: s,
            } && state == s,
            ViewModel::ForkStarted { occurrence, branches } => b matches ViewModel::ForkStarted {
                occurrence: o,
                branches: x,
            } && occurrence == o && branches.len() == x.len(),
            ViewModel::BranchCompleted { occurrence, result } => b matches
                ViewModel::BranchCompleted { occurrence: o, result: r } && occurrence == o
                && result.branch == r.branch && result.firing == r.firing && same_status(
                result.status,
                r.status,
            ),
            ViewModel::ForkCompleted { occurrence, results, disposition, .. } => b matches
                ViewModel::ForkCompleted { occurrence: o, results: r, disposition: d, .. }
                && occurrence == o && results.len() == r.len() && disposition == d,
            ViewModel::RunStalled { stall_timeout_ms, idle_ms } => b matches
                ViewModel::RunStalled { stall_timeout_ms: s, idle_ms: i } && stall_timeout_ms == s
                && idle_ms == i,
        },
{
}

// ── What is found ──────────────────────────────────────────────────────

/// The node, edge and scope under an id are the graph's first of that id.
pub proof fn law_what_a_graph_holds(graph: Graph, node: NodeId, edge: EdgeId, scope: ScopeId)
    ensures
        match graph.spec_node(node) {
            Some(found) => found.id == node && graph.nodes@.contains(found),
            None => forall|i: int|
                0 <= i < graph.nodes@.len() ==> (#[trigger] graph.nodes@[i]).id != node,
        },
        match graph.spec_edge(edge) {
            Some(found) => found.id == edge && graph.edges@.contains(found),
            None => forall|i: int|
                0 <= i < graph.edges@.len() ==> (#[trigger] graph.edges@[i]).id != edge,
        },
        match graph.spec_scope(scope) {
            Some(found) => found.id == scope && graph.scopes@.contains(found),
            None => forall|i: int|
                0 <= i < graph.scopes@.len() ==> (#[trigger] graph.scopes@[i]).id != scope,
        },
{
    let p = |n: Node| n.id == node;
    let q = |e: Edge| e.id == edge;
    let r = |s: Scope| s.id == scope;
    lemma_first_where(graph.nodes@, p);
    lemma_first_where(graph.edges@, q);
    lemma_first_where(graph.scopes@, r);
    assert forall|i: int| 0 <= i < graph.nodes@.len() && !p(graph.nodes@[i]) implies (
    #[trigger] graph.nodes@[i]).id != node by {}
    assert forall|i: int| 0 <= i < graph.edges@.len() && !q(graph.edges@[i]) implies (
    #[trigger] graph.edges@[i]).id != edge by {}
    assert forall|i: int| 0 <= i < graph.scopes@.len() && !r(graph.scopes@[i]) implies (
    #[trigger] graph.scopes@[i]).id != scope by {}
}

/// The firing under an id is live under it; its record is the last of it; and
/// its node is the live one's, or the record's when it is retired.
pub proof fn law_what_a_state_holds_of_a_firing(state: EngineState, firing: FiringId)
    ensures
        match state.spec_firing(firing) {
            Some(found) => found.id == firing && state.live@.contains(found)
                && state.spec_firing_node(firing) == Some(found.node),
            None => forall|i: int|
                0 <= i < state.live@.len() ==> (#[trigger] state.live@[i]).id != firing,
        },
        match state.spec_record(firing) {
            Some(found) => found.firing == firing && exists|i: int|
                0 <= i < state.history@.len() && #[trigger] state.history@[i] == found
                    && forall|j: int|
                    i < j < state.history@.len() ==> (#[trigger] state.history@[j]).firing
                        != firing,
            None => forall|i: int|
                0 <= i < state.history@.len() ==> (#[trigger] state.history@[i]).firing != firing,
        },
        state.spec_firing(firing) is None ==> (state.spec_record(firing) matches Some(found)
            ==> state.spec_firing_node(firing) == Some(found.node)),
        state.spec_firing(firing) is None && state.spec_record(firing) is None
            ==> state.spec_firing_node(firing) is None,
{
    let p = |live: LiveFiring| live.id == firing;
    let q = |entry: HistoryEntry| entry.firing == firing;
    lemma_first_where(state.live@, p);
    lemma_last_where(state.history@, q);
    assert forall|i: int| 0 <= i < state.live@.len() && !p(state.live@[i]) implies (
    #[trigger] state.live@[i]).id != firing by {}
    assert forall|i: int| 0 <= i < state.history@.len() && !q(state.history@[i]) implies (
    #[trigger] state.history@[i]).firing != firing by {}
    if let Some(found) = state.spec_record(firing) {
        let i = choose|i: int|
            0 <= i < state.history@.len() && #[trigger] state.history@[i] == found && q(found)
                && forall|j: int| i < j < state.history@.len() ==> !q(#[trigger] state.history@[j]);
        assert forall|j: int| i < j < state.history@.len() implies (
        #[trigger] state.history@[j]).firing != firing by {
            assert(!q(state.history@[j]));
        }
    }
}

/// A node's record is its last, and in a generation the last of that
/// generation.
pub proof fn law_what_a_state_holds_of_a_node(
    state: EngineState,
    node: NodeId,
    generation: Generation,
)
    ensures
        match state.spec_last_of(node) {
            Some(found) => found.node == node && exists|i: int|
                0 <= i < state.history@.len() && #[trigger] state.history@[i] == found
                    && forall|j: int|
                    i < j < state.history@.len() ==> (#[trigger] state.history@[j]).node != node,
            None => forall|i: int|
                0 <= i < state.history@.len() ==> (#[trigger] state.history@[i]).node != node,
        },
        match state.spec_node_record(node, generation) {
            Some(found) => found.node == node && found.generation == generation && exists|i: int|
                0 <= i < state.history@.len() && #[trigger] state.history@[i] == found
                    && forall|j: int|
                    i < j < state.history@.len() ==> (#[trigger] state.history@[j]).node != node
                        || state.history@[j].generation != generation,
            None => forall|i: int|
                0 <= i < state.history@.len() ==> (#[trigger] state.history@[i]).node != node
                    || state.history@[i].generation != generation,
        },
{
    let p = |entry: HistoryEntry| entry.node == node;
    let q = |entry: HistoryEntry| entry.node == node && entry.generation == generation;
    lemma_last_where(state.history@, p);
    lemma_last_where(state.history@, q);
    if let Some(found) = state.spec_last_of(node) {
        let i = choose|i: int|
            0 <= i < state.history@.len() && #[trigger] state.history@[i] == found && p(found)
                && forall|j: int| i < j < state.history@.len() ==> !p(#[trigger] state.history@[j]);
        assert forall|j: int| i < j < state.history@.len() implies (
        #[trigger] state.history@[j]).node != node by {
            assert(!p(state.history@[j]));
        }
    } else {
        assert forall|i: int| 0 <= i < state.history@.len() implies (
        #[trigger] state.history@[i]).node != node by {
            assert(!p(state.history@[i]));
        }
    }
    if let Some(found) = state.spec_node_record(node, generation) {
        let i = choose|i: int|
            0 <= i < state.history@.len() && #[trigger] state.history@[i] == found && q(found)
                && forall|j: int| i < j < state.history@.len() ==> !q(#[trigger] state.history@[j]);
        assert forall|j: int| i < j < state.history@.len() implies (
        #[trigger] state.history@[j]).node != node || state.history@[j].generation
            != generation by {
            assert(!q(state.history@[j]));
        }
    } else {
        assert forall|i: int| 0 <= i < state.history@.len() implies (
        #[trigger] state.history@[i]).node != node || state.history@[i].generation
            != generation by {
            assert(!q(state.history@[i]));
        }
    }
}

/// The invocation and the execution under an id are those declared under it,
/// and an execution's owner is the invocation it was declared for.
pub proof fn law_what_a_run_holds(
    state: CoordinatorState,
    invocation: InvocationId,
    execution: ExecutionId,
)
    ensures
        match state.spec_invocation(invocation) {
            Some(found) => found.declaration.id == invocation && state.invocations@.contains(found),
            None => forall|i: int|
                0 <= i < state.invocations@.len() ==> (
                #[trigger] state.invocations@[i]).declaration.id != invocation,
        },
        match state.spec_execution(execution) {
            Some(found) => found.declaration.id == execution && state.executions@.contains(found)
                && state.owner_of(execution) == Some(found.declaration.invocation),
            None => state.owner_of(execution) is None && forall|i: int|
                0 <= i < state.executions@.len() ==> (
                #[trigger] state.executions@[i]).declaration.id != execution,
        },
{
    let p = |found: InvocationState| found.declaration.id == invocation;
    let q = |found: ExecutionState| found.declaration.id == execution;
    lemma_first_where(state.invocations@, p);
    lemma_first_where(state.executions@, q);
    assert forall|i: int| 0 <= i < state.invocations@.len() && !p(state.invocations@[i]) implies (
    #[trigger] state.invocations@[i]).declaration.id != invocation by {}
    assert forall|i: int| 0 <= i < state.executions@.len() && !q(state.executions@[i]) implies (
    #[trigger] state.executions@[i]).declaration.id != execution by {}
}

// ── Results ────────────────────────────────────────────────────────────

/// An execution failed with what its last failing record failed with; with
/// its last error, under no class, when it failed and no record did; and with
/// nothing when neither.
pub proof fn law_what_an_execution_failed_with(
    state: EngineState,
    status: RunStatus,
    failure: Option<FailureInfo>,
    at: int,
)
    requires
        fails_with(state, status, failure),
        -1 <= at < state.history@.len(),
        at >= 0 ==> state.history@[at].outcome.status.failure is Some,
        forall|j: int|
            at < j < state.history@.len() ==> (
            #[trigger] state.history@[j]).outcome.status.failure is None,
    ensures
        at >= 0 ==> failure == state.history@[at].outcome.status.failure,
        at < 0 && status != RunStatus::Failed ==> failure is None,
        at < 0 && status == RunStatus::Failed ==> (failure matches Some(info) && info.class is None
            && (state.errors@.len() > 0 ==> info.message@ == state.errors@.last()@) && (
        state.errors@.len() == 0 ==> info.message@ == "execution failed"@)),
{
    let p = |entry: HistoryEntry| failure_of(entry.outcome) is Some;
    lemma_last_where(state.history@, p);
    if at >= 0 {
        assert(p(state.history@[at]));
    } else if let Some(found) = last_failure(state.history@) {
        let i = choose|i: int| 0 <= i < state.history@.len() && p(#[trigger] state.history@[i]);
        assert(state.history@[i].outcome.status.failure is None);
    }
}

/// What a node left in the run context is found under its name, and what it
/// wrote is what its last record did.
pub proof fn law_what_a_node_left(
    nodes: Seq<(String, NodeRecord)>,
    name: Seq<char>,
    state: EngineState,
    node: NodeId,
)
    ensures
        match node_context(nodes, name) {
            Some(record) => exists|i: int|
                0 <= i < nodes.len() && (#[trigger] nodes[i]).0@ == name && nodes[i].1 == record,
            None => forall|i: int| 0 <= i < nodes.len() ==> (#[trigger] nodes[i]).0@ != name,
        },
        match state.spec_last_of(node) {
            Some(entry) => node_updates(state, node) == entry.outcome.context_updates@,
            None => node_updates(state, node).len() == 0,
        },
{
    let p = under_name(name);
    lemma_first_where(nodes, p);
    if node_context(nodes, name) is None {
        assert forall|i: int| 0 <= i < nodes.len() implies (#[trigger] nodes[i]).0@ != name by {
            assert(!p(nodes[i]));
        }
    }
}

/// A result that is missing says so under its own class.
pub proof fn law_how_a_missing_result_is_told(failure: Option<FailureInfo>)
    requires
        result_missing(failure),
    ensures
        failure matches Some(info) && info.message@
            == "the declared invocation result node did not run"@ && (info.class matches Some(class)
            && class@ == "invalid_invocation_result"@),
{
}

/// The running ones among invocations are those that are live and run, in
/// order.
pub proof fn law_which_invocations_run(
    live: Map<u64, LiveInvocation>,
    invocations: Seq<InvocationId>,
    next: InvocationId,
)
    ensures
        running_of(live, Seq::empty()).len() == 0,
        live.contains_key(next.0) && live[next.0] is Running ==> running_of(
            live,
            invocations.push(next),
        ) == running_of(live, invocations).push(next),
        !live.contains_key(next.0) || !(live[next.0] is Running) ==> running_of(
            live,
            invocations.push(next),
        ) == running_of(live, invocations),
{
    assert(invocations.push(next).drop_last() =~= invocations);
}

} // verus!

//! What the public stream says of visits, forks, branches and routes, and
//! what each of its events is about.

use crate::event::{CoordinatorEvent, CoordinatorRecord};
use crate::events::{
    BranchResult, Context, DerivedModel, ForkDisposition, ForkOccurrence, Subject, ViewModel,
    WaitState,
};
use crate::events::derivation::{
    after_lifecycle, aftermath, all_killed_closed, branch_results, branches_completed, cancelling,
    clone_branches, clone_shown, completions, dead_firings, engine_step, group_target, is_dead,
    killed_closed, lifecycle_events, marked_cancelling, member_result, member_results,
    members_before, on_branch, own_step, place_covering, placed_branch, placed_result, refreshed,
    subject_of, take_open, token_result, track_of, visit_completed, visit_seen, visits_completed,
    visits_seen, OpenModel, ProjectionModel, Readings, TrackModel,
};
use crate::ids::{Attempt, EdgeId, ExecutionId, FiringId, Generation, InvocationId, NodeId};
use crate::laws::telling::{
    lemma_aftermath_follows, lemma_events, lemma_first_where, tells, tells_wait,
};
use crate::model::{node_in, Edge, Node, Token};
use crate::note::{read_note, Note};
use crate::record::{
    event_of, CancelTarget, DecisionId, Event, EventRecord, GroupDecision, RouteApplied,
    RouteDecision, SpliceClone,
};
use crate::search::{
    lemma_first_absent, lemma_first_found, lemma_last_absent, lemma_last_found, lookup,
};
use crate::state::{BranchModel, BranchRef, BranchRole, EngineState, HistoryEntry, LiveFiring};
use vstd::prelude::*;

verus! {

// ── Subjects ───────────────────────────────────────────────────────────

/// The branch map a record is read with: the one the execution was read with
/// so far, and the state's once the graph has outgrown that.
pub open spec fn map_in_use(
    before: ProjectionModel,
    execution: ExecutionId,
    state: EngineState,
) -> BranchModel {
    if track_of(before, execution).branches.covered >= state.graph.nodes@.len() {
        track_of(before, execution).branches
    } else {
        state.branches@
    }
}

/// A record's own event is about the firing the record names: the one whose
/// step started, reported, finished or waited out a retry, that was sent a
/// control, that emitted the token, or that was admitted, decided or routed.
/// A record of the whole execution is about nothing.
pub proof fn law_a_record_is_about_its_firing(
    before: ProjectionModel,
    execution: ExecutionId,
    record: EventRecord,
    recorded_at: u64,
    state: EngineState,
    readings: Readings,
)
    ensures
        ({
            let subject = engine_step(
                before,
                execution,
                record,
                recorded_at,
                state,
                readings,
            ).1[0].subject;
            let map = map_in_use(before, execution, state);
            match event_of(record) {
                Event::StepStarted { firing, .. } => subject == subject_of(map, state, firing),
                Event::StepProgressRecorded { firing, .. } => subject == subject_of(
                    map,
                    state,
                    firing,
                ),
                Event::StepFinished { firing, .. } => subject == subject_of(map, state, firing),
                Event::RetryElapsed { firing, .. } => subject == subject_of(map, state, firing),
                Event::ControlRequested { firing, .. } => subject == subject_of(
                    map,
                    state,
                    firing,
                ),
                Event::TokenEmitted { token } => subject == subject_of(map, state, token.from),
                Event::AdmissionDecided {
                    decision_id: DecisionId::AttemptStart { firing, .. },
                    ..
                } => subject == subject_of(map, state, firing),
                Event::RoutingResolved {
                    decision_id: DecisionId::Route { firing, .. },
                    ..
                } => subject == subject_of(map, state, firing),
                Event::RouteApplied { applied } => subject == subject_of(
                    map,
                    state,
                    applied.firing(),
                ),
                Event::ExecutionStarted { .. } => subject is None,
                Event::KillRequested { .. } => subject is None,
                Event::ScopeAcquired { .. } => subject is None,
                Event::ScopeFailed { .. } => subject is None,
                Event::CancelRequested { target: CancelTarget::Scope(_) } => subject is None,
                Event::CancelRequested { target: CancelTarget::Group(node) } => (
                state.graph.spec_node(node) is None ==> subject is None) && (
                state.graph.spec_node(node) matches Some(found) ==> is_node_subject(
                    map,
                    state,
                    found,
                    subject,
                )),
                Event::NodeExpanded { node, .. } => (state.graph.spec_node(node) is None
                    ==> subject is None) && (state.graph.spec_node(node) matches Some(found)
                    ==> is_node_subject(map, state, found, subject)),
                _ => true,
            }
        }),
{
    lemma_events(before, execution, record, recorded_at, state, readings);
    let map = map_in_use(before, execution, state);
    let about = match event_of(record) {
        Event::CancelRequested { target: CancelTarget::Group(node) } => Some(node),
        Event::NodeExpanded { node, splice } => Some(node),
        _ => None,
    };
    if let Some(node) = about {
        if let Some(found) = state.graph.spec_node(node) {
            lemma_node_found(state, node, found);
            lemma_role(map, node);
        }
    }
}

/// Whether a subject is a node alone, as often as it has fired.
pub open spec fn is_node_subject(
    map: BranchModel,
    state: EngineState,
    node: Node,
    subject: Option<Subject>,
) -> bool {
    &&& subject matches Some(about)
    &&& about.node.id == node.id
    &&& about.node.name == node.name
    &&& about.node.kind == node.kind
    &&& about.node.meta == node.meta
    &&& about.firing is None
    &&& about.attempt is None
    &&& about.generation is None
    &&& about.visit == Some(state.spec_firing_count(node.id))
    &&& has_role(map, node.id, about.branch)
}

/// Whether a node has this role in a map: that of its first entry, and none
/// when it has no entry.
pub open spec fn has_role(map: BranchModel, node: NodeId, role: BranchRole) -> bool {
    ||| exists|i: int|
        0 <= i < map.roles.len() && (#[trigger] map.roles[i]) == (node, role) && forall|j: int|
            0 <= j < i ==> (#[trigger] map.roles[j]).0 != node
    ||| role == BranchRole::Outside && forall|j: int|
        0 <= j < map.roles.len() ==> (#[trigger] map.roles[j]).0 != node
}

proof fn lemma_role(map: BranchModel, node: NodeId)
    ensures
        has_role(map, node, map.spec_role(node)),
{
    lemma_lookup(map.roles, node);
}

proof fn lemma_lookup<K, V>(s: Seq<(K, V)>, key: K)
    ensures
        match lookup(s, key) {
            Some(value) => exists|i: int|
                0 <= i < s.len() && (#[trigger] s[i]) == (key, value) && forall|j: int|
                    0 <= j < i ==> (#[trigger] s[j]).0 != key,
            None => forall|j: int| 0 <= j < s.len() ==> (#[trigger] s[j]).0 != key,
        },
    decreases s.len(),
{
    if s.len() > 0 {
        if s.first().0 == key {
            assert(s[0] == (key, s.first().1));
        } else {
            let t = s.drop_first();
            lemma_lookup(t, key);
            assert forall|j: int| 0 <= j < s.len() && j > 0 implies #[trigger] s[j] == t[j
                - 1] by {}
            if let Some(value) = lookup(t, key) {
                let i = choose|i: int|
                    0 <= i < t.len() && (#[trigger] t[i]) == (key, value) && forall|j: int|
                        0 <= j < i ==> (#[trigger] t[j]).0 != key;
                assert(s[i + 1] == (key, value));
                assert forall|j: int| 0 <= j < i + 1 implies (#[trigger] s[j]).0 != key by {
                    if j > 0 {
                        assert(t[j - 1].0 != key);
                    }
                }
            } else {
                assert forall|j: int| 0 <= j < s.len() implies (#[trigger] s[j]).0 != key by {
                    if j > 0 {
                        assert(t[j - 1].0 != key);
                    }
                }
            }
        }
    }
}

/// Whether a subject is one firing of a node, at an attempt and in a
/// generation.
pub open spec fn is_firing_subject(
    map: BranchModel,
    state: EngineState,
    node: Node,
    firing: FiringId,
    attempt: Attempt,
    generation: Generation,
    subject: Option<Subject>,
) -> bool {
    &&& subject matches Some(about)
    &&& about.node.id == node.id
    &&& about.node.name == node.name
    &&& about.node.kind == node.kind
    &&& about.node.meta == node.meta
    &&& about.firing == Some(firing)
    &&& about.attempt == Some(attempt)
    &&& about.generation == Some(generation)
    &&& about.visit == Some(state.spec_visit(node.id, firing))
    &&& has_role(map, node.id, about.branch)
}

/// A live firing's subject is the firing as it lives: its node, its attempt,
/// its generation, its place among the node's firings and the node's role.
pub proof fn law_a_live_firing_s_subject(
    map: BranchModel,
    state: EngineState,
    i: int,
    node: Node,
)
    requires
        0 <= i < state.live@.len(),
        forall|j: int| 0 <= j < i ==> (#[trigger] state.live@[j]).id != state.live@[i].id,
        state.graph.spec_node(state.live@[i].node) == Some(node),
    ensures
        is_firing_subject(
            map,
            state,
            node,
            state.live@[i].id,
            state.live@[i].attempt,
            state.live@[i].generation,
            subject_of(map, state, state.live@[i].id),
        ),
{
    let id = state.live@[i].id;
    lemma_first_found(state.live@, |live: LiveFiring| live.id == id, i);
    lemma_role(map, node.id);
}

/// The subject of a firing that is no longer live is its last final record.
pub proof fn law_a_retired_firing_s_subject(
    map: BranchModel,
    state: EngineState,
    i: int,
    node: Node,
)
    requires
        0 <= i < state.history@.len(),
        forall|j: int|
            i < j < state.history@.len() ==> (#[trigger] state.history@[j]).firing
                != state.history@[i].firing,
        forall|j: int|
            0 <= j < state.live@.len() ==> (#[trigger] state.live@[j]).id
                != state.history@[i].firing,
        state.graph.spec_node(state.history@[i].node) == Some(node),
    ensures
        is_firing_subject(
            map,
            state,
            node,
            state.history@[i].firing,
            state.history@[i].attempt,
            state.history@[i].generation,
            subject_of(map, state, state.history@[i].firing),
        ),
{
    let id = state.history@[i].firing;
    lemma_first_absent(state.live@, |live: LiveFiring| live.id == id);
    lemma_last_found(state.history@, |entry: HistoryEntry| entry.firing == id, i);
    lemma_role(map, node.id);
}

/// A firing nothing is known of has no subject.
pub proof fn law_an_unknown_firing_has_no_subject(
    map: BranchModel,
    state: EngineState,
    firing: FiringId,
)
    requires
        forall|j: int| 0 <= j < state.live@.len() ==> (#[trigger] state.live@[j]).id != firing,
        forall|j: int|
            0 <= j < state.history@.len() ==> (#[trigger] state.history@[j]).firing != firing,
    ensures
        subject_of(map, state, firing) is None,
{
    lemma_first_absent(state.live@, |live: LiveFiring| live.id == firing);
    lemma_last_absent(state.history@, |entry: HistoryEntry| entry.firing == firing);
}

// ── Contexts ───────────────────────────────────────────────────────────

/// Every event of an engine record stands in its execution, and in the
/// invocation and under the call that the coordinator declared it with.
pub proof fn law_events_stand_where_they_were_declared(
    run: ProjectionModel,
    invocation: CoordinatorEvent,
    declared: CoordinatorEvent,
    execution: ExecutionId,
    owner: InvocationId,
    record: EventRecord,
    recorded_at: u64,
    state: EngineState,
    readings: Readings,
    again: EventRecord,
    later: EngineState,
    more: Readings,
    i: int,
)
    requires
        invocation matches CoordinatorEvent::InvocationDeclared { invocation: id, .. } && id
            == owner,
        declared matches CoordinatorEvent::ExecutionDeclared { execution: e, invocation: id, .. } && e
            == execution && id == owner,
    ensures
        ({
            let placed = after_lifecycle(after_lifecycle(run, invocation), declared);
            let (next, events) = engine_step(
                placed,
                execution,
                record,
                recorded_at,
                state,
                readings,
            );
            let second = engine_step(next, execution, again, recorded_at, later, more).1;
            &&& 0 <= i < events.len() ==> stands_in(events[i].context, execution, invocation)
            &&& 0 <= i < second.len() ==> stands_in(second[i].context, execution, invocation)
        }),
{
    let placed = after_lifecycle(after_lifecycle(run, invocation), declared);
    lemma_declared(run, invocation, declared, execution, owner);
    lemma_context(placed, execution, record, recorded_at, state, readings);
    let next = engine_step(placed, execution, record, recorded_at, state, readings).0;
    lemma_context(next, execution, again, recorded_at, later, more);
}

proof fn lemma_declared(
    run: ProjectionModel,
    invocation: CoordinatorEvent,
    declared: CoordinatorEvent,
    execution: ExecutionId,
    owner: InvocationId,
)
    requires
        invocation matches CoordinatorEvent::InvocationDeclared { invocation: id, .. } && id
            == owner,
        declared matches CoordinatorEvent::ExecutionDeclared { execution: e, invocation: id, .. } && e
            == execution && id == owner,
    ensures
        ({
            let track = track_of(
                after_lifecycle(after_lifecycle(run, invocation), declared),
                execution,
            );
            stands_in(
                Context {
                    invocation: track.invocation,
                    execution: Some(execution),
                    parent: track.parent,
                },
                execution,
                invocation,
            )
        }),
{
}

proof fn lemma_context(
    before: ProjectionModel,
    execution: ExecutionId,
    record: EventRecord,
    recorded_at: u64,
    state: EngineState,
    readings: Readings,
)
    ensures
        ({
            let (after, events) = engine_step(
                before,
                execution,
                record,
                recorded_at,
                state,
                readings,
            );
            let track = track_of(before, execution);
            &&& forall|i: int|
                0 <= i < events.len() ==> (#[trigger] events[i]).context == (Context {
                    invocation: track.invocation,
                    execution: Some(execution),
                    parent: track.parent,
                })
            &&& track_of(after, execution).invocation == track.invocation
            &&& track_of(after, execution).parent == track.parent
        }),
{
    let track = refreshed(track_of(before, execution), state);
    lemma_own_stays(track, execution, event_of(record), state, readings);
    let step = own_step(track, execution, event_of(record), state, readings);
    lemma_aftermath_follows(step.track, execution, event_of(record), state);
}

proof fn lemma_own_stays(
    track: TrackModel,
    execution: ExecutionId,
    event: Event,
    state: EngineState,
    readings: Readings,
)
    ensures
        ({
            let step = own_step(track, execution, event, state, readings);
            &&& step.track.invocation == track.invocation
            &&& step.track.parent == track.parent
        }),
{
}

/// Whether a context is an execution of a declared invocation.
pub open spec fn stands_in(
    context: Context,
    execution: ExecutionId,
    declared: CoordinatorEvent,
) -> bool {
    &&& context.execution == Some(execution)
    &&& declared matches CoordinatorEvent::InvocationDeclared { invocation, call, .. } && {
        &&& context.invocation == Some(invocation)
        &&& context.parent is Some <==> call is Some
        &&& call matches Some(call) ==> (context.parent matches Some(parent) && parent.execution
            == call.parent && parent.firing == call.firing && parent.attempt == call.attempt
            && parent.slot == call.slot)
    }
}

/// A coordinator record's events stand where the record says: in the
/// invocation and the execution it names.
pub proof fn law_where_a_coordinator_record_stands(
    before: ProjectionModel,
    record: CoordinatorRecord,
    i: int,
)
    requires
        0 <= i < lifecycle_events(before, record).len(),
    ensures
        ({
            let event = lifecycle_events(before, record)[i];
            let context = event.context;
            &&& event.id.source is Coordinator
            &&& event.id.seq == record.seq
            &&& event.recorded_at == record.recorded_at
            &&& match *record.body {
                CoordinatorEvent::RunStarted { root, .. } => context.invocation == Some(root)
                    && context.execution is None,
                CoordinatorEvent::InvocationDeclared { invocation, call, .. } => context.invocation
                    == Some(invocation) && context.execution is None && (context.parent is Some
                    <==> call is Some) && (call matches Some(call) ==> (context.parent matches Some(
                    parent,
                ) && parent.execution == call.parent && parent.firing == call.firing
                    && parent.attempt == call.attempt && parent.slot == call.slot)),
                CoordinatorEvent::ExecutionDeclared { execution, invocation, .. } =>
                context.invocation == Some(invocation) && context.execution == Some(execution),
                CoordinatorEvent::ExecutionFinished { execution, .. } => context.execution == Some(
                    execution,
                ) && (before.executions.contains_key(execution.0) ==> context.invocation
                    == before.executions[execution.0].invocation),
                CoordinatorEvent::InvocationFinished { invocation, result } => context.invocation
                    == Some(invocation) && context.execution == Some(result.final_execution),
                CoordinatorEvent::InvocationCancelRequested { invocation, .. } =>
                context.invocation == Some(invocation) && context.execution is None,
                CoordinatorEvent::ScopeReleased { invocation, .. } => context.invocation == Some(
                    invocation,
                ) && context.execution is None,
                CoordinatorEvent::RunNoteRecorded { execution, .. } => context.invocation is None
                    && context.execution == execution,
                CoordinatorEvent::GraphRegistered { .. } => context.invocation is None
                    && context.execution is None,
                CoordinatorEvent::RunPaused => context.invocation is None
                    && context.execution is None,
                CoordinatorEvent::RunUnpaused => context.invocation is None
                    && context.execution is None,
                CoordinatorEvent::RunFinished { .. } => context.invocation is None
                    && context.execution is None,
            }
        }),
{
}

/// A run-level note's event carries the note as it reads, and other
/// coordinator records carry nothing beside them.
pub proof fn law_a_run_note_is_read(before: ProjectionModel, record: CoordinatorRecord)
    ensures
        ({
            let own = lifecycle_events(before, record)[0];
            match *record.body {
                CoordinatorEvent::RunNoteRecorded { kind, payload, .. } => own.derived == Some(
                    DerivedModel::Parsed { parsed: read_note(Note { kind, payload }) },
                ),
                _ => own.derived is None,
            }
        }),
{
}

// ── Visits ─────────────────────────────────────────────────────────────

/// The views that follow a record's own are among its events.
proof fn lemma_rest(
    before: ProjectionModel,
    execution: ExecutionId,
    record: EventRecord,
    recorded_at: u64,
    state: EngineState,
    readings: Readings,
    k: int,
)
    requires
        0 <= k < aftermath(
            own_step(
                refreshed(track_of(before, execution), state),
                execution,
                event_of(record),
                state,
                readings,
            ).track,
            execution,
            event_of(record),
            state,
        ).1.len(),
    ensures
        ({
            let step = own_step(
                refreshed(track_of(before, execution), state),
                execution,
                event_of(record),
                state,
                readings,
            );
            let rest = aftermath(step.track, execution, event_of(record), state).1;
            let events = engine_step(before, execution, record, recorded_at, state, readings).1;
            let n = 1 + step.views.len() + k;
            &&& 1 <= n < events.len()
            &&& events.len() == 1 + step.views.len() + rest.len()
            &&& events[n].subject == rest[k].0
            &&& events[n].derived == Some(DerivedModel::View(rest[k].1))
        }),
{
}

proof fn lemma_own_keeps(
    track: TrackModel,
    execution: ExecutionId,
    event: Event,
    state: EngineState,
    readings: Readings,
)
    ensures
        ({
            let step = own_step(track, execution, event, state, readings);
            &&& step.track.firings == track.firings
            &&& step.track.history == track.history
            &&& step.track.branches == track.branches
        }),
{
}

/// A firing that is live for the first time is told as a visit that starts
/// with the tokens it fired on, and then as waiting for its admission.
pub proof fn law_a_new_firing_starts_a_visit(
    before: ProjectionModel,
    execution: ExecutionId,
    record: EventRecord,
    recorded_at: u64,
    state: EngineState,
    readings: Readings,
    i: int,
)
    requires
        0 <= i < state.live@.len(),
        !track_of(before, execution).firings.contains(state.live@[i].id.0),
        forall|a: int, b: int|
            0 <= a < b < state.live@.len() ==> (#[trigger] state.live@[a]).id != (
            #[trigger] state.live@[b]).id,
    ensures
        ({
            let (after, events) = engine_step(
                before,
                execution,
                record,
                recorded_at,
                state,
                readings,
            );
            let subject = subject_of(
                map_in_use(before, execution, state),
                state,
                state.live@[i].id,
            );
            &&& exists|n: int|
                0 < n < events.len() - 1 && tells(
                    #[trigger] events[n],
                    ViewModel::VisitStarted { inputs: state.live@[i].inputs },
                ) && events[n].subject == subject && tells_wait(
                    events[n + 1],
                    WaitState::AwaitingAdmission,
                ) && events[n + 1].subject == subject
            &&& track_of(after, execution).firings.contains(state.live@[i].id.0)
        }),
{
    let track = refreshed(track_of(before, execution), state);
    let step = own_step(track, execution, event_of(record), state, readings);
    lemma_own_keeps(track, execution, event_of(record), state, readings);
    lemma_visit_follows(step.track, execution, event_of(record), state, i);
    let rest = aftermath(step.track, execution, event_of(record), state).1;
    let subject = subject_of(step.track.branches, state, state.live@[i].id);
    let k = choose|k: int|
        0 <= k < rest.len() - 1 && (#[trigger] rest[k]) == (
            subject,
            ViewModel::VisitStarted { inputs: state.live@[i].inputs },
        ) && rest[k + 1] == (
            subject,
            ViewModel::WaitStateChanged { state: WaitState::AwaitingAdmission },
        );
    lemma_rest(before, execution, record, recorded_at, state, readings, k);
    lemma_rest(before, execution, record, recorded_at, state, readings, k + 1);
    let events = engine_step(before, execution, record, recorded_at, state, readings).1;
    let n = 1 + step.views.len() + k;
    assert(tells(events[n], ViewModel::VisitStarted { inputs: state.live@[i].inputs }));
}

proof fn lemma_visit_follows(
    track: TrackModel,
    execution: ExecutionId,
    event: Event,
    state: EngineState,
    i: int,
)
    requires
        0 <= i < state.live@.len(),
        !track.firings.contains(state.live@[i].id.0),
        forall|a: int, b: int|
            0 <= a < b < state.live@.len() ==> (#[trigger] state.live@[a]).id != (
            #[trigger] state.live@[b]).id,
    ensures
        ({
            let rest = aftermath(track, execution, event, state);
            let subject = subject_of(track.branches, state, state.live@[i].id);
            &&& exists|k: int|
                0 <= k < rest.1.len() - 1 && (#[trigger] rest.1[k]) == (
                    subject,
                    ViewModel::VisitStarted { inputs: state.live@[i].inputs },
                ) && rest.1[k + 1] == (
                    subject,
                    ViewModel::WaitStateChanged { state: WaitState::AwaitingAdmission },
                )
            &&& rest.0.firings.contains(state.live@[i].id.0)
        }),
{
    lemma_visit_shown(track, execution, state, state.live@, i);
    let seen = visits_seen(track, execution, state, state.live@);
    let rest = aftermath(track, execution, event, state);
    let subject = subject_of(track.branches, state, state.live@[i].id);
    let k = choose|k: int|
        0 <= k < seen.1.len() - 1 && (#[trigger] seen.1[k]) == (
            subject,
            ViewModel::VisitStarted { inputs: state.live@[i].inputs },
        ) && seen.1[k + 1] == (
            subject,
            ViewModel::WaitStateChanged { state: WaitState::AwaitingAdmission },
        );
    assert(rest.1[k] == seen.1[k]);
    assert(rest.1[k + 1] == seen.1[k + 1]);
    lemma_later_keep_firings(track, execution, event, state);
}

proof fn lemma_visit_shown(
    track: TrackModel,
    execution: ExecutionId,
    state: EngineState,
    live: Seq<LiveFiring>,
    i: int,
)
    requires
        0 <= i < live.len(),
        !track.firings.contains(live[i].id.0),
        forall|a: int, b: int|
            0 <= a < b < live.len() ==> (#[trigger] live[a]).id != (#[trigger] live[b]).id,
        live.len() <= state.live@.len(),
        forall|a: int| 0 <= a < live.len() ==> #[trigger] live[a] == state.live@[a],
    ensures
        ({
            let seen = visits_seen(track, execution, state, live);
            let subject = subject_of(track.branches, state, live[i].id);
            &&& exists|k: int|
                0 <= k < seen.1.len() - 1 && (#[trigger] seen.1[k]) == (
                    subject,
                    ViewModel::VisitStarted { inputs: live[i].inputs },
                ) && seen.1[k + 1] == (
                    subject,
                    ViewModel::WaitStateChanged { state: WaitState::AwaitingAdmission },
                )
            &&& seen.0.firings.contains(live[i].id.0)
            &&& seen.0.branches == track.branches
            &&& seen.0.firings.subset_of(
                track.firings.union(Set::new(|id: u64| exists|a: int| 0 <= a < live.len() && (#[trigger] live[a]).id.0 == id)),
            )
        }),
    decreases live.len(),
{
    let rest = live.drop_last();
    let n = live.len() - 1;
    let before = visits_seen(track, execution, state, rest);
    let seen = visits_seen(track, execution, state, live);
    let subject = subject_of(track.branches, state, live[i].id);
    assert forall|a: int, b: int| 0 <= a < b < rest.len() implies (#[trigger] rest[a]).id != (
    #[trigger] rest[b]).id by {
        assert(live[a].id != live[b].id);
    }
    assert forall|a: int| 0 <= a < rest.len() implies #[trigger] rest[a] == state.live@[a] by {
        assert(live[a] == state.live@[a]);
    }
    lemma_known_from(track, execution, state, rest);
    lemma_known_from(track, execution, state, live);
    if i < n {
        lemma_visit_shown(track, execution, state, rest, i);
        let k = choose|k: int|
            0 <= k < before.1.len() - 1 && (#[trigger] before.1[k]) == (
                subject,
                ViewModel::VisitStarted { inputs: live[i].inputs },
            ) && before.1[k + 1] == (
                subject,
                ViewModel::WaitStateChanged { state: WaitState::AwaitingAdmission },
            );
        assert(seen.1[k] == before.1[k]);
        assert(seen.1[k + 1] == before.1[k + 1]);
    } else {
        assert(live.last() == live[n]);
        assert(!before.0.firings.contains(live[n].id.0)) by {
            if before.0.firings.contains(live[n].id.0) {
                let a = choose|a: int|
                    0 <= a < rest.len() && (#[trigger] rest[a]).id.0 == live[n].id.0;
                assert(live[a].id != live[n].id);
            }
        }
        let id = live[n].id;
        assert forall|j: int| 0 <= j < n implies (#[trigger] state.live@[j]).id != id by {
            assert(live[j] == state.live@[j]);
            assert(live[j].id != live[n].id);
        }
        assert(state.live@[n] == live[n]);
        lemma_first_found(state.live@, |l: LiveFiring| l.id == id, n);
        let last = visit_seen(before.0, execution, state, live.last());
        let m = last.1.len();
        assert(last.1[m - 2] == (subject, ViewModel::VisitStarted { inputs: live[n].inputs }));
        assert(last.1[m - 1] == (
            subject,
            ViewModel::WaitStateChanged { state: WaitState::AwaitingAdmission },
        ));
        assert(seen.1[before.1.len() + m - 2] == last.1[m - 2]);
        assert(seen.1[before.1.len() + m - 1] == last.1[m - 1]);
        let k = before.1.len() + m - 2;
        assert(seen.1[k + 1] == last.1[m - 1]);
    }
}

proof fn lemma_known_from(
    track: TrackModel,
    execution: ExecutionId,
    state: EngineState,
    live: Seq<LiveFiring>,
)
    ensures
        ({
            let seen = visits_seen(track, execution, state, live).0;
            &&& seen.branches == track.branches
            &&& forall|id: u64| #[trigger]
                seen.firings.contains(id) <==> track.firings.contains(id) || exists|a: int|
                    0 <= a < live.len() && (#[trigger] live[a]).id.0 == id
        }),
    decreases live.len(),
{
    if live.len() > 0 {
        let rest = live.drop_last();
        lemma_known_from(track, execution, state, rest);
        let n = live.len() - 1;
        assert(live[n] == live.last());
        assert forall|a: int| 0 <= a < rest.len() implies rest[a] == #[trigger] live[a] by {}
        let before = visits_seen(track, execution, state, rest).0;
        let seen = visits_seen(track, execution, state, live).0;
        assert forall|id: u64| #[trigger] seen.firings.contains(id) <==> track.firings.contains(id)
            || exists|a: int| 0 <= a < live.len() && (#[trigger] live[a]).id.0 == id by {
            assert(seen.firings.contains(id) == (before.firings.contains(id) || live[n].id.0
                == id));
            if exists|a: int| 0 <= a < rest.len() && (#[trigger] rest[a]).id.0 == id {
                let a = choose|a: int| 0 <= a < rest.len() && (#[trigger] rest[a]).id.0 == id;
                assert(live[a].id.0 == id);
            }
        }
    }
}

proof fn lemma_completed_keep_firings(
    track: TrackModel,
    state: EngineState,
    entries: Seq<HistoryEntry>,
)
    ensures
        visits_completed(track, state, entries).0.firings == track.firings,
        visits_completed(track, state, entries).0.branches == track.branches,
        visits_completed(track, state, entries).0.started == track.started,
    decreases entries.len(),
{
    if entries.len() > 0 {
        lemma_completed_keep_firings(track, state, entries.drop_last());
    }
}

proof fn lemma_killed_keep_firings(track: TrackModel, state: EngineState, firings: Seq<FiringId>)
    ensures
        all_killed_closed(track, state, firings).0.firings == track.firings,
        all_killed_closed(track, state, firings).0.history == track.history,
    decreases firings.len(),
{
    if firings.len() > 0 {
        lemma_killed_keep_firings(track, state, firings.drop_last());
    }
}

proof fn lemma_later_keep_firings(
    track: TrackModel,
    execution: ExecutionId,
    event: Event,
    state: EngineState,
)
    ensures
        aftermath(track, execution, event, state).0.firings == visits_seen(
            track,
            execution,
            state,
            state.live@,
        ).0.firings,
        aftermath(track, execution, event, state).0.history == (if state.history@.len()
            > visits_seen(track, execution, state, state.live@).0.history {
            state.history@.len()
        } else {
            visits_seen(track, execution, state, state.live@).0.history
        }),
{
    let seen = visits_seen(track, execution, state, state.live@).0;
    let history = state.history@;
    if history.len() > seen.history {
        lemma_completed_keep_firings(
            seen,
            state,
            history.subrange(seen.history as int, history.len() as int),
        );
    }
    let read = completions(seen, state).0;
    lemma_killed_keep_firings(read, state, dead_firings(read.branches, state, read.open));
}

/// A final record past the ones read is told as the visit's completion, on
/// the firing it is of: its outcome, its attempt, and whether an attempt of
/// it was ever dispatched. It is not told again.
pub proof fn law_a_final_record_completes_a_visit(
    before: ProjectionModel,
    execution: ExecutionId,
    record: EventRecord,
    recorded_at: u64,
    state: EngineState,
    readings: Readings,
    i: int,
    node: Node,
)
    requires
        track_of(before, execution).history <= i < state.history@.len(),
        state.graph.spec_node(state.history@[i].node) == Some(node),
        !(event_of(record) is StepStarted),
    ensures
        ({
            let (after, events) = engine_step(
                before,
                execution,
                record,
                recorded_at,
                state,
                readings,
            );
            let entry = state.history@[i];
            &&& exists|n: int|
                0 < n < events.len() && tells(
                    #[trigger] events[n],
                    ViewModel::VisitCompleted {
                        outcome: entry.outcome,
                        executed: track_of(before, execution).started.contains(entry.firing.0),
                        attempts: entry.attempt.0,
                    },
                ) && is_firing_subject(
                    map_in_use(before, execution, state),
                    state,
                    node,
                    entry.firing,
                    entry.attempt,
                    entry.generation,
                    events[n].subject,
                )
            &&& track_of(after, execution).history == state.history@.len()
        }),
{
    let track = refreshed(track_of(before, execution), state);
    let step = own_step(track, execution, event_of(record), state, readings);
    lemma_own_keeps(track, execution, event_of(record), state, readings);
    assert(step.track.started == track.started);
    lemma_known_from(step.track, execution, state, state.live@);
    lemma_seen_keeps(step.track, execution, state, state.live@);
    let seen = visits_seen(step.track, execution, state, state.live@);
    let from = seen.0.history as int;
    let entries = state.history@.subrange(from, state.history@.len() as int);
    lemma_completion_shown(seen.0, state, entries, i - from, node);
    assert(entries[i - from] == state.history@[i]);
    let read = visits_completed(seen.0, state, entries);
    let entry = state.history@[i];
    let view = ViewModel::VisitCompleted {
        outcome: entry.outcome,
        executed: track.started.contains(entry.firing.0),
        attempts: entry.attempt.0,
    };
    let k = choose|k: int|
        0 <= k < read.1.len() && (#[trigger] read.1[k]).1 == view && is_firing_subject(
            track.branches,
            state,
            node,
            entry.firing,
            entry.attempt,
            entry.generation,
            read.1[k].0,
        );
    let rest = aftermath(step.track, execution, event_of(record), state).1;
    let marked = marked_cancelling(
        seen.0.branches,
        event_of(record),
        state,
    );
    let at = seen.1.len() + marked.len() + k;
    assert(rest[at] == read.1[k]);
    lemma_rest(before, execution, record, recorded_at, state, readings, at as int);
    let events = engine_step(before, execution, record, recorded_at, state, readings).1;
    let n = 1 + step.views.len() + at;
    assert(tells(events[n as int], view));
    lemma_later_keep_firings(step.track, execution, event_of(record), state);
}

proof fn lemma_seen_keeps(
    track: TrackModel,
    execution: ExecutionId,
    state: EngineState,
    live: Seq<LiveFiring>,
)
    ensures
        visits_seen(track, execution, state, live).0.history == track.history,
        visits_seen(track, execution, state, live).0.started == track.started,
    decreases live.len(),
{
    if live.len() > 0 {
        lemma_seen_keeps(track, execution, state, live.drop_last());
    }
}

proof fn lemma_completion_shown(
    track: TrackModel,
    state: EngineState,
    entries: Seq<HistoryEntry>,
    i: int,
    node: Node,
)
    requires
        0 <= i < entries.len(),
        state.graph.spec_node(entries[i].node) == Some(node),
    ensures
        ({
            let read = visits_completed(track, state, entries);
            let entry = entries[i];
            exists|k: int|
                0 <= k < read.1.len() && (#[trigger] read.1[k]).1 == (ViewModel::VisitCompleted {
                    outcome: entry.outcome,
                    executed: track.started.contains(entry.firing.0),
                    attempts: entry.attempt.0,
                }) && is_firing_subject(
                    track.branches,
                    state,
                    node,
                    entry.firing,
                    entry.attempt,
                    entry.generation,
                    read.1[k].0,
                )
        }),
    decreases entries.len(),
{
    let rest = entries.drop_last();
    let before = visits_completed(track, state, rest);
    let read = visits_completed(track, state, entries);
    let entry = entries[i];
    let view = ViewModel::VisitCompleted {
        outcome: entry.outcome,
        executed: track.started.contains(entry.firing.0),
        attempts: entry.attempt.0,
    };
    lemma_completed_keep_firings(track, state, rest);
    if i < rest.len() {
        assert(rest[i] == entries[i]);
        lemma_completion_shown(track, state, rest, i, node);
        let k = choose|k: int|
            0 <= k < before.1.len() && (#[trigger] before.1[k]).1 == view && is_firing_subject(
                track.branches,
                state,
                node,
                entry.firing,
                entry.attempt,
                entry.generation,
                before.1[k].0,
            );
        assert(read.1[k] == before.1[k]);
    } else {
        assert(entries.last() == entry);
        let last = visit_completed(before.0, state, entry);
        let m = last.1.len() - 1;
        lemma_node_found(state, entry.node, node);
        lemma_role(track.branches, node.id);
        assert(last.1[m].1 == view);
        assert(is_firing_subject(
            track.branches,
            state,
            node,
            entry.firing,
            entry.attempt,
            entry.generation,
            last.1[m].0,
        ));
        assert(read.1[before.1.len() + m] == last.1[m]);
    }
}

proof fn lemma_node_found(state: EngineState, id: NodeId, node: Node)
    requires
        state.graph.spec_node(id) == Some(node),
    ensures
        node.id == id,
{
    lemma_first_where(state.graph.nodes@, |n: Node| n.id == id);
}

/// A dispatched attempt makes the firing's completion one that was executed,
/// whenever it comes; a firing none of whose attempts was dispatched is told
/// as completed without running.
pub proof fn law_dispatch_makes_a_visit_executed(
    before: ProjectionModel,
    execution: ExecutionId,
    record: EventRecord,
    recorded_at: u64,
    state: EngineState,
    readings: Readings,
    id: u64,
)
    ensures
        ({
            let after = engine_step(before, execution, record, recorded_at, state, readings).0;
            track_of(after, execution).started.contains(id) <==> track_of(
                before,
                execution,
            ).started.contains(id) || (event_of(record) matches Event::StepStarted { firing, .. }
                && firing.0 == id)
        }),
{
    lemma_events(before, execution, record, recorded_at, state, readings);
}

/// A cancel or a kill tells every firing that is told to stop, and tells it
/// of no other; no other record tells it.
pub proof fn law_who_is_told_to_stop(
    before: ProjectionModel,
    execution: ExecutionId,
    record: EventRecord,
    recorded_at: u64,
    state: EngineState,
    readings: Readings,
    i: int,
)
    requires
        event_of(record) is CancelRequested || event_of(record) is KillRequested,
        0 <= i < state.live@.len(),
        state.live@[i].cancelling,
    ensures
        ({
            let events = engine_step(before, execution, record, recorded_at, state, readings).1;
            exists|n: int|
                0 < n < events.len() && tells_wait(#[trigger] events[n], WaitState::Cancelling)
                    && events[n].subject == subject_of(
                    map_in_use(before, execution, state),
                    state,
                    state.live@[i].id,
                )
        }),
{
    let track = refreshed(track_of(before, execution), state);
    let step = own_step(track, execution, event_of(record), state, readings);
    lemma_own_keeps(track, execution, event_of(record), state, readings);
    lemma_known_from(step.track, execution, state, state.live@);
    let seen = visits_seen(step.track, execution, state, state.live@);
    let marked = cancelling(track.branches, state, state.live@);
    lemma_stopped_shown(track.branches, state, state.live@, i);
    let view = (
        subject_of(track.branches, state, state.live@[i].id),
        ViewModel::WaitStateChanged { state: WaitState::Cancelling },
    );
    let k = choose|k: int| 0 <= k < marked.len() && #[trigger] marked[k] == view;
    let rest = aftermath(step.track, execution, event_of(record), state).1;
    let at = seen.1.len() + k;
    assert(rest[at] == marked[k]);
    lemma_rest(before, execution, record, recorded_at, state, readings, at as int);
    let events = engine_step(before, execution, record, recorded_at, state, readings).1;
    let n = 1 + step.views.len() + at;
    assert(tells_wait(events[n as int], WaitState::Cancelling));
}

proof fn lemma_stopped_shown(
    map: BranchModel,
    state: EngineState,
    live: Seq<LiveFiring>,
    i: int,
)
    requires
        0 <= i < live.len(),
        live[i].cancelling,
    ensures
        exists|k: int|
            0 <= k < cancelling(map, state, live).len() && #[trigger] cancelling(
                map,
                state,
                live,
            )[k] == (
                subject_of(map, state, live[i].id),
                ViewModel::WaitStateChanged { state: WaitState::Cancelling },
            ),
    decreases live.len(),
{
    let rest = live.drop_last();
    let before = cancelling(map, state, rest);
    let all = cancelling(map, state, live);
    let view = (
        subject_of(map, state, live[i].id),
        ViewModel::WaitStateChanged { state: WaitState::Cancelling },
    );
    if i < rest.len() {
        lemma_stopped_shown(map, state, rest, i);
        let k = choose|k: int| 0 <= k < before.len() && #[trigger] before[k] == view;
        assert(all[k] == view);
    } else {
        assert(all[all.len() - 1] == view);
    }
}

// ── Routes ─────────────────────────────────────────────────────────────

/// A resolved routing names, group by group, the node its decision leads to:
/// an edge's end, a jump's target, and none where nothing is emitted.
pub proof fn law_where_a_routing_leads(state: EngineState, group: GroupDecision)
    ensures
        group_target(state, group).group == group.group,
        match group.decision {
            RouteDecision::Emit(edge) => forall|i: int, k: int|
                #![trigger state.graph.edges@[i], state.graph.nodes@[k]]
                0 <= i < state.graph.edges@.len() && state.graph.edges@[i].id == edge && (forall|
                    j: int,
                |
                    0 <= j < i ==> (#[trigger] state.graph.edges@[j]).id != edge) && 0 <= k
                    < state.graph.nodes@.len() && state.graph.nodes@[k].id
                    == state.graph.edges@[i].to && (forall|j: int|
                    0 <= j < k ==> (#[trigger] state.graph.nodes@[j]).id
                        != state.graph.edges@[i].to) ==> (group_target(
                    state,
                    group,
                ).target matches Some(target) && target.id == state.graph.nodes@[k].id
                    && target.name == state.graph.nodes@[k].name),
            RouteDecision::Jump(node) => group_target(state, group).target is Some
                <==> state.graph.spec_node(node) is Some,
            RouteDecision::Nothing => group_target(state, group).target is None,
            RouteDecision::Block { .. } => group_target(state, group).target is None,
        },
        group.decision matches RouteDecision::Jump(node) ==> (state.graph.spec_node(
            node,
        ) matches Some(found) ==> group_target(state, group).target->0.id == found.id
            && group_target(state, group).target->0.name == found.name),
{
    if let RouteDecision::Emit(edge) = group.decision {
        assert forall|i: int, k: int|
            #![trigger state.graph.edges@[i], state.graph.nodes@[k]]
            0 <= i < state.graph.edges@.len() && state.graph.edges@[i].id == edge && (forall|
                j: int,
            |
                0 <= j < i ==> (#[trigger] state.graph.edges@[j]).id != edge) && 0 <= k
                < state.graph.nodes@.len() && state.graph.nodes@[k].id == state.graph.edges@[i].to
                && (forall|j: int|
                0 <= j < k ==> (#[trigger] state.graph.nodes@[j]).id
                    != state.graph.edges@[i].to) implies (group_target(
            state,
            group,
        ).target matches Some(target) && target.id == state.graph.nodes@[k].id && target.name
            == state.graph.nodes@[k].name) by {
            let to = state.graph.edges@[i].to;
            lemma_first_found(state.graph.edges@, |e: Edge| e.id == edge, i);
            lemma_first_found(state.graph.nodes@, |n: Node| n.id == to, k);
        }
    }
}

/// An applied route's event names the node it leads to, and for an edge the
/// edge's own transition and whether it goes back.
pub proof fn law_where_a_route_leads(
    before: ProjectionModel,
    execution: ExecutionId,
    record: EventRecord,
    recorded_at: u64,
    state: EngineState,
    readings: Readings,
    applied: RouteApplied,
)
    requires
        event_of(record) == (Event::RouteApplied { applied }),
    ensures
        ({
            let derived = engine_step(
                before,
                execution,
                record,
                recorded_at,
                state,
                readings,
            ).1[0].derived;
            match applied {
                RouteApplied::Nothing { .. } => derived is None,
                RouteApplied::Jump { target, .. } => match state.graph.spec_node(target) {
                    Some(node) => derived matches Some(
                        DerivedModel::RouteApplied { target: to, transition, back },
                    ) && to.id == node.id && to.name == node.name && transition is None
                        && back is None,
                    None => derived is None,
                },
                RouteApplied::Edge { edge, .. } => match state.graph.spec_edge(edge) {
                    Some(arm) => match state.graph.spec_node(arm.to) {
                        Some(node) => derived matches Some(
                            DerivedModel::RouteApplied { target: to, transition, back },
                        ) && to.id == node.id && to.name == node.name && transition == Some(
                            arm.transition,
                        ) && back == Some(arm.back),
                        None => derived is None,
                    },
                    None => derived is None,
                },
            }
        }),
{
    lemma_events(before, execution, record, recorded_at, state, readings);
}

/// A routing's event names a target for each of its groups, in order.
pub proof fn law_a_routing_names_its_groups(
    before: ProjectionModel,
    execution: ExecutionId,
    record: EventRecord,
    recorded_at: u64,
    state: EngineState,
    readings: Readings,
    i: int,
)
    ensures
        event_of(record) matches Event::RoutingResolved {
            decision_id: DecisionId::Route { .. },
            groups,
        } ==> (engine_step(
            before,
            execution,
            record,
            recorded_at,
            state,
            readings,
        ).1[0].derived matches Some(DerivedModel::RoutingResolved { groups: shown }) && shown.len()
            == groups@.len() && (0 <= i < groups@.len() ==> shown[i] == group_target(
            state,
            groups@[i],
        ))),
{
    lemma_events(before, execution, record, recorded_at, state, readings);
}

// ── Forks ──────────────────────────────────────────────────────────────

/// The first edge a fork's firing routes over announces the fork: every
/// branch by its number, on the firing that opened it.
pub proof fn law_a_fork_is_announced_with_its_branches(
    before: ProjectionModel,
    execution: ExecutionId,
    record: EventRecord,
    recorded_at: u64,
    state: EngineState,
    readings: Readings,
    firing: FiringId,
    edge: EdgeId,
    group: u32,
    about: Subject,
    count: u32,
)
    requires
        event_of(record) == (Event::RouteApplied {
            applied: RouteApplied::Edge { firing, edge, group },
        }),
        subject_of(map_in_use(before, execution, state), state, firing) == Some(about),
        about.branch == (BranchRole::Fork { branches: count }),
        !track_of(before, execution).announced.contains(firing.0),
        about.firing is Some,
        about.visit is Some,
        about.generation is Some,
    ensures
        ({
            let events = engine_step(before, execution, record, recorded_at, state, readings).1;
            &&& events.len() >= 2
            &&& events[1].subject == Some(about)
            &&& events[1].derived matches Some(
                DerivedModel::View(ViewModel::ForkStarted { occurrence, branches }),
            ) && {
                &&& occurrence.execution == execution
                &&& occurrence.fork == about.node.id
                &&& Some(occurrence.firing) == about.firing
                &&& Some(occurrence.visit) == about.visit
                &&& Some(occurrence.generation) == about.generation
                &&& branches.len() == count
                &&& forall|i: int|
                    0 <= i < count ==> (#[trigger] branches[i]).fork == about.node.id
                        && branches[i].index == i
            }
        }),
{
    lemma_events(before, execution, record, recorded_at, state, readings);
}

/// An expansion's event shows its clones' entries in their order; and the
/// branches it opens are its clones but for placeholders, in index order.
pub proof fn law_an_expansion_opens_its_clones(
    fork: NodeId,
    clones: Seq<SpliceClone>,
    branch: BranchRef,
)
    ensures
        clone_branches(fork, clones).contains(branch) <==> branch.fork == fork && exists|i: int|
            0 <= i < clones.len() && (#[trigger] clones[i]).index == branch.index
                && !clones[i].placeholder,
        forall|i: int, j: int|
            0 <= i < j < clone_branches(fork, clones).len() ==> (#[trigger] clone_branches(
                fork,
                clones,
            )[i]).index <= (#[trigger] clone_branches(fork, clones)[j]).index,
    decreases clones.len(),
{
    let all = clone_branches(fork, clones);
    if clones.len() > 0 {
        let rest = clones.drop_last();
        law_an_expansion_opens_its_clones(fork, rest, branch);
        let before = clone_branches(fork, rest);
        let n = clones.len() - 1;
        assert(clones[n] == clones.last());
        assert forall|i: int| 0 <= i < rest.len() implies rest[i] == #[trigger] clones[i] by {}
        if !clones.last().placeholder {
            lemma_placed_branch(
                before,
                BranchRef { fork, index: clones.last().index },
                branch,
            );
        }
    }
}

proof fn lemma_placed_branch(branches: Seq<BranchRef>, new: BranchRef, branch: BranchRef)
    requires
        forall|i: int, j: int|
            0 <= i < j < branches.len() ==> (#[trigger] branches[i]).index <= (
            #[trigger] branches[j]).index,
    ensures
        placed_branch(branches, new).contains(branch) <==> branches.contains(branch) || branch
            == new,
        forall|i: int, j: int|
            0 <= i < j < placed_branch(branches, new).len() ==> (#[trigger] placed_branch(
                branches,
                new,
            )[i]).index <= (#[trigger] placed_branch(branches, new)[j]).index,
        forall|i: int|
            0 <= i < placed_branch(branches, new).len() ==> (#[trigger] placed_branch(
                branches,
                new,
            )[i]) == new || branches.contains(placed_branch(branches, new)[i]),
    decreases branches.len(),
{
    let all = placed_branch(branches, new);
    if branches.len() == 0 || branches.last().index <= new.index {
        assert forall|i: int| 0 <= i < all.len() implies (#[trigger] all[i]) == new
            || branches.contains(all[i]) by {
            if i < branches.len() {
                assert(branches[i] == all[i]);
            }
        }
        if branches.contains(branch) {
            let k = choose|k: int| 0 <= k < branches.len() && branches[k] == branch;
            assert(all[k] == branch);
        }
        assert(all[all.len() - 1] == new);
        assert forall|i: int, j: int| 0 <= i < j < all.len() implies (#[trigger] all[i]).index <= (
        #[trigger] all[j]).index by {
            assert(all[i] == branches[i]);
            if j < branches.len() {
                assert(all[j] == branches[j]);
            } else {
                assert(branches[i].index <= branches[branches.len() - 1].index);
            }
        }
    } else {
        let rest = branches.drop_last();
        let last = branches.last();
        assert forall|i: int, j: int| 0 <= i < j < rest.len() implies (#[trigger] rest[i]).index
            <= (#[trigger] rest[j]).index by {
            assert(branches[i].index <= branches[j].index);
        }
        lemma_placed_branch(rest, new, branch);
        let before = placed_branch(rest, new);
        assert(branches[branches.len() - 1] == last);
        assert forall|i: int| 0 <= i < before.len() implies (#[trigger] before[i]).index
            <= last.index && (before[i] == new || branches.contains(before[i])) by {
            if before[i] != new {
                let k = choose|k: int| 0 <= k < rest.len() && rest[k] == before[i];
                assert(branches[k].index <= branches[branches.len() - 1].index);
                assert(branches[k] == before[i]);
            }
        }
        assert forall|i: int| 0 <= i < all.len() implies (#[trigger] all[i]) == new
            || branches.contains(all[i]) by {
            if i < before.len() {
                assert(all[i] == before[i]);
            }
        }
        assert forall|i: int, j: int| 0 <= i < j < all.len() implies (#[trigger] all[i]).index <= (
        #[trigger] all[j]).index by {
            assert(all[i] == before[i]);
            if j < before.len() {
                assert(all[j] == before[j]);
            }
        }
        if before.contains(branch) {
            let k = choose|k: int| 0 <= k < before.len() && before[k] == branch;
            assert(all[k] == branch);
        }
        if branch == last {
            assert(all[all.len() - 1] == branch);
        }
        if branches.contains(branch) {
            let k = choose|k: int| 0 <= k < branches.len() && branches[k] == branch;
            if k < rest.len() {
                assert(rest[k] == branch);
            }
        }
        if all.contains(branch) {
            let k = choose|k: int| 0 <= k < all.len() && all[k] == branch;
            if k < before.len() {
                assert(before[k] == branch);
            }
        }
        if rest.contains(branch) {
            let k = choose|k: int| 0 <= k < rest.len() && rest[k] == branch;
            assert(branches[k] == branch);
        }
    }
}

/// How a clone's entry is shown: the clone's own node where it holds it.
pub proof fn law_how_a_clone_is_shown(clone: SpliceClone)
    ensures
        clone_shown(clone).index == clone.index,
        node_in(clone.nodes@, clone.entry) matches Some(node) ==> clone_shown(
            clone,
        ).entry == node.id && clone_shown(clone).name == node.name@ && clone_shown(clone).kind
            == node.kind@ && clone_shown(clone).meta == node.meta,
        node_in(clone.nodes@, clone.entry) is None ==> clone_shown(clone).entry
            == clone.entry && clone_shown(clone).name.len() == 0 && clone_shown(clone).kind.len()
            == 0,
{
}

/// What a join's token says of its branch: the branch of the node that
/// emitted it last, with that firing's final status and the token's payload.
/// A token of another fork's branch says nothing.
pub proof fn law_what_a_token_brings(
    map: BranchModel,
    state: EngineState,
    fork: NodeId,
    token: Token,
    at: int,
    node: Node,
)
    requires
        0 <= at < state.history@.len(),
        state.history@[at].firing == token.from,
        forall|j: int|
            at < j < state.history@.len() ==> (#[trigger] state.history@[j]).firing != token.from,
        state.graph.spec_node(state.history@[at].node) == Some(node),
    ensures
        ({
            let entry = state.history@[at];
            let role = map.spec_role(entry.node);
            let brought = token_result(map, state, fork, token);
            &&& brought is Some <==> (role matches BranchRole::Member(branch) && branch.fork
                == fork) || (role is Fork && entry.node == fork)
            &&& brought matches Some(result) ==> {
                &&& result.firing == token.from
                &&& result.payload == token.payload
                &&& result.status == entry.outcome.status
                &&& result.node.id == node.id
                &&& result.node.name == node.name
                &&& role matches BranchRole::Member(branch) ==> result.branch == branch
                &&& role is Fork ==> result.branch == (BranchRef { fork, index: 0 })
            }
        }),
{
    lemma_last_found(
        state.history@,
        |entry: HistoryEntry| entry.firing == token.from,
        at,
    );
}

/// A join's results are what its tokens bring, one for each token that
/// brings one.
pub proof fn law_a_join_s_results_are_its_tokens(
    map: BranchModel,
    state: EngineState,
    fork: NodeId,
    inputs: Seq<Token>,
    result: BranchResult,
)
    ensures
        branch_results(map, state, fork, inputs).contains(result) <==> exists|i: int|
            0 <= i < inputs.len() && token_result(map, state, fork, #[trigger] inputs[i]) == Some(
                result,
            ),
        branch_results(map, state, fork, inputs).len() <= inputs.len(),
        (forall|i: int|
            0 <= i < inputs.len() ==> token_result(
                map,
                state,
                fork,
                #[trigger] inputs[i],
            ) is Some) ==> branch_results(map, state, fork, inputs).len() == inputs.len(),
    decreases inputs.len(),
{
    if inputs.len() > 0 {
        let rest = inputs.drop_last();
        law_a_join_s_results_are_its_tokens(map, state, fork, rest, result);
        let before = branch_results(map, state, fork, rest);
        let n = inputs.len() - 1;
        assert(inputs[n] == inputs.last());
        assert forall|i: int| 0 <= i < rest.len() implies rest[i] == #[trigger] inputs[i] by {}
        if let Some(new) = token_result(map, state, fork, inputs.last()) {
            lemma_placed_result(before, new, result);
        }
    }
}

proof fn lemma_placed_result(results: Seq<BranchResult>, new: BranchResult, result: BranchResult)
    ensures
        placed_result(results, new).contains(result) <==> results.contains(result) || result == new,
        placed_result(results, new).len() == results.len() + 1,
    decreases results.len(),
{
    let all = placed_result(results, new);
    if results.len() == 0 || results.last().branch.index <= new.branch.index {
        assert(all[all.len() - 1] == new);
        if results.contains(result) {
            let k = choose|k: int| 0 <= k < results.len() && results[k] == result;
            assert(all[k] == result);
        }
        if all.contains(result) {
            let k = choose|k: int| 0 <= k < all.len() && all[k] == result;
            if k < results.len() {
                assert(results[k] == result);
            }
        }
    } else {
        let rest = results.drop_last();
        lemma_placed_result(rest, new, result);
        let before = placed_result(rest, new);
        assert(results[results.len() - 1] == results.last());
        if all.contains(result) {
            let k = choose|k: int| 0 <= k < all.len() && all[k] == result;
            if k < before.len() {
                assert(before[k] == result);
            }
        }
        if before.contains(result) {
            let k = choose|k: int| 0 <= k < before.len() && before[k] == result;
            assert(all[k] == result);
        }
        if results.last() == result {
            assert(all[all.len() - 1] == result);
        }
        if rest.contains(result) {
            let k = choose|k: int| 0 <= k < rest.len() && rest[k] == result;
            assert(results[k] == result);
        }
        if results.contains(result) {
            let k = choose|k: int| 0 <= k < results.len() && results[k] == result;
            if k < rest.len() {
                assert(rest[k] == result);
            }
        }
    }
}

/// What a fork that never joined gives of its branches: of each, the last
/// final record of a node on it in the fork's generation, with no payload,
/// and of no branch two.
pub proof fn law_a_closed_fork_s_results_are_last_records(
    map: BranchModel,
    state: EngineState,
    open: OpenModel,
    k: int,
)
    requires
        0 <= k < member_results(map, state, open).len(),
    ensures
        ({
            let result = member_results(map, state, open)[k];
            exists|i: int|
                0 <= i < state.history@.len() && {
                    let entry = #[trigger] state.history@[i];
                    &&& result.firing == entry.firing
                    &&& result.status == entry.outcome.status
                    &&& result.payload is Null
                    &&& result.node.id == entry.node
                    &&& entry.generation == open.occurrence.generation
                    &&& map.spec_role(entry.node) == BranchRole::Member(result.branch)
                    &&& open.branches.contains(result.branch)
                }
        }),
{
    lemma_members(map, state, open, state.history@.len() as int, Seq::empty());
    assert(state.history@.take(state.history@.len() as int) =~= state.history@);
}

spec fn from_record(
    map: BranchModel,
    state: EngineState,
    open: OpenModel,
    result: BranchResult,
) -> bool {
    exists|i: int|
        0 <= i < state.history@.len() && {
            let entry = #[trigger] state.history@[i];
            &&& result.firing == entry.firing
            &&& result.status == entry.outcome.status
            &&& result.payload is Null
            &&& result.node.id == entry.node
            &&& entry.generation == open.occurrence.generation
            &&& map.spec_role(entry.node) == BranchRole::Member(result.branch)
            &&& open.branches.contains(result.branch)
        }
}

proof fn lemma_members(
    map: BranchModel,
    state: EngineState,
    open: OpenModel,
    count: int,
    results: Seq<BranchResult>,
)
    requires
        0 <= count <= state.history@.len(),
        forall|i: int| 0 <= i < results.len() ==> from_record(map, state, open, #[trigger] results[i]),
    ensures
        ({
            let all = members_before(map, state, open, state.history@.take(count), results);
            forall|i: int| 0 <= i < all.len() ==> from_record(map, state, open, #[trigger] all[i])
        }),
    decreases count,
{
    if count > 0 {
        let history = state.history@.take(count);
        let entry = history.last();
        assert(entry == state.history@[count - 1]);
        assert(history.drop_last() =~= state.history@.take(count - 1));
        let next = match member_result(
            map,
            state,
            open,
            entry,
            results,
        ) {
            Some(result) => placed_result(results, result),
            None => results,
        };
        if let Some(result) = member_result(
            map,
            state,
            open,
            entry,
            results,
        ) {
            if let Some(node) = state.graph.spec_node(entry.node) {
                lemma_node_found(state, entry.node, node);
            }
            assert(from_record(map, state, open, result));
            assert forall|i: int| 0 <= i < next.len() implies from_record(
                map,
                state,
                open,
                #[trigger] next[i],
            ) by {
                lemma_placed_result(results, result, next[i]);
                assert(next.contains(next[i]));
                if next[i] != result {
                    let j = choose|j: int| 0 <= j < results.len() && results[j] == next[i];
                    assert(from_record(map, state, open, results[j]));
                }
            }
        }
        lemma_members(map, state, open, count - 1, next);
        assert(members_before(map, state, open, history, results) == members_before(
            map,
            state,
            open,
            history.drop_last(),
            next,
        ));
    }
}

/// How a fork closes is told: as joined when its join is seen live, as
/// cancelled when the join it was given was cancelled and as joined else, and
/// as killed when its scope was killed.
pub proof fn law_how_a_fork_closed(
    track: TrackModel,
    execution: ExecutionId,
    state: EngineState,
    seen: LiveFiring,
    entry: HistoryEntry,
    firing: FiringId,
    i: int,
)
    ensures
        0 <= i < visit_seen(track, execution, state, seen).1.len() ==> (visit_seen(
            track,
            execution,
            state,
            seen,
        ).1[i].1 matches ViewModel::ForkCompleted { disposition, .. } ==> disposition
            == ForkDisposition::Joined),
        0 <= i < visit_completed(track, state, entry).1.len() ==> (visit_completed(
            track,
            state,
            entry,
        ).1[i].1 matches ViewModel::ForkCompleted { disposition, .. } ==> disposition == (
        if entry.outcome.status.cancelled {
            ForkDisposition::Cancelled
        } else {
            ForkDisposition::Joined
        })),
        0 <= i < killed_closed(track, state, firing).1.len() ==> (killed_closed(
            track,
            state,
            firing,
        ).1[i].1 matches ViewModel::ForkCompleted { disposition, .. } ==> disposition
            == ForkDisposition::Killed),
{
    assert forall|
        occurrence: ForkOccurrence,
        results: Seq<BranchResult>,
        k: int,
    |
        0 <= k < branches_completed(
            track.branches,
            state,
            occurrence,
            results,
        ).len() implies (#[trigger] branches_completed(
        track.branches,
        state,
        occurrence,
        results,
    )[k]).1 is BranchCompleted by {
        lemma_branches_only(track.branches, state, occurrence, results);
    }
}

proof fn lemma_branches_only(
    map: BranchModel,
    state: EngineState,
    occurrence: ForkOccurrence,
    results: Seq<BranchResult>,
)
    ensures
        forall|k: int|
            0 <= k < branches_completed(
                map,
                state,
                occurrence,
                results,
            ).len() ==> (#[trigger] branches_completed(
                map,
                state,
                occurrence,
                results,
            )[k]).1 is BranchCompleted,
    decreases results.len(),
{
    if results.len() > 0 {
        lemma_branches_only(map, state, occurrence, results.drop_last());
    }
}

/// A killed fork is over when its scope was killed and no live firing of its
/// generation is on one of its branches.
pub proof fn law_when_a_killed_fork_is_over(
    map: BranchModel,
    state: EngineState,
    open: OpenModel,
)
    ensures
        is_dead(map, state, open) <==> state.killed@.contains(open.occurrence.fork) && forall|i: int|
            0 <= i < state.live@.len() ==> !((#[trigger] state.live@[i]).generation
                == open.occurrence.generation && (map.spec_role(
                state.live@[i].node,
            ) matches BranchRole::Member(branch) && branch.fork == open.occurrence.fork)),
{
    assert forall|i: int| 0 <= i < state.live@.len() implies on_branch(
        map,
        open,
        #[trigger] state.live@[i],
    ) == (state.live@[i].generation == open.occurrence.generation && (map.spec_role(
        state.live@[i].node,
    ) matches BranchRole::Member(branch) && branch.fork == open.occurrence.fork)) by {}
}

/// A join closes the first open fork of its fork node in its generation, and
/// leaves the others open.
pub proof fn law_which_fork_a_join_closes(
    open: Seq<OpenModel>,
    fork: NodeId,
    generation: Generation,
    at: int,
)
    requires
        0 <= at < open.len(),
        open[at].occurrence.fork == fork,
        open[at].occurrence.generation == generation,
        forall|j: int|
            0 <= j < at ==> !((#[trigger] open[j]).occurrence.fork == fork
                && open[j].occurrence.generation == generation),
    ensures
        take_open(open, fork, Some(generation)) == (Some(open[at]), open.remove(at)),
{
    lemma_covering(open, fork, generation, at);
}

proof fn lemma_covering(open: Seq<OpenModel>, fork: NodeId, generation: Generation, at: int)
    requires
        0 <= at < open.len(),
        open[at].occurrence.fork == fork,
        open[at].occurrence.generation == generation,
        forall|j: int|
            0 <= j < at ==> !((#[trigger] open[j]).occurrence.fork == fork
                && open[j].occurrence.generation == generation),
    ensures
        place_covering(open, fork, generation) == at,
    decreases open.len(),
{
    if at > 0 {
        assert(!(open[0].occurrence.fork == fork && open[0].occurrence.generation == generation));
        let rest = open.drop_first();
        assert forall|j: int| 0 <= j < at - 1 implies !((#[trigger] rest[j]).occurrence.fork == fork
            && rest[j].occurrence.generation == generation) by {
            assert(rest[j] == open[j + 1]);
        }
        lemma_covering(rest, fork, generation, at - 1);
    }
}

} // verus!

//! The derivation as functions: what one record and the state after it
//! derive, given the little state kept across records.

use crate::event::{CancelReason, CoordinatorEvent, CoordinatorRecord};
use crate::events::{
    link_of, origin_of, ref_of, BranchResult, CloneModel, Context, DerivedModel, EventId, EventModel,
    EventSource, ForkDisposition, ForkOccurrence, GroupTarget, NodeRef, ParentLink, Record,
    RecordOrigin, Subject, ViewModel, WaitState,
};
use crate::ids::{Attempt, ExecutionId, FiringId, Generation, InvocationId, NodeId};
use crate::json::Json;
use crate::model::{node_in, Node, Token};
use crate::note::{progress_in, read_note, Note, Parsed, StepReading};
use crate::record::{
    event_of, stored, CancelTarget, Control, DecisionId, Event, EventRecord, GroupDecision, RouteApplied,
    RouteDecision, SpliceClone, SubgraphSplice,
};

use crate::state::{blank_map, BranchModel, BranchRef, BranchRole, EngineState, HistoryEntry, LiveFiring};
use crate::steps::Answer;
use std::sync::Arc;
use vstd::prelude::*;

verus! {

/// What a node's retry policy says of an attempt that returned.
#[derive(Clone, Copy, Debug, PartialEq, Eq, Structural)]
pub struct RetryReading {
    /// Whether the policy retries the returned status.
    pub retryable: bool,
    /// Whether the policy has an attempt after this one.
    pub another_attempt: bool,
    pub next_attempt: Attempt,
    pub base_delay_ms: u64,
}

/// What the step protocols and the retry policy say of a record.
#[derive(Debug)]
pub struct Readings {
    pub steps: StepReading,
    /// What a delivered value decodes to, when it carries an answer.
    pub answer: Option<Arc<Answer>>,
    pub retry: RetryReading,
}

/// A fork between its `fork.started` and its `fork.completed`. The
/// generation ties the branches and the join to this occurrence of the fork.
pub struct OpenModel {
    pub occurrence: ForkOccurrence,
    pub branches: Seq<BranchRef>,
}

/// What the derivation remembers of an execution beyond its engine state.
pub struct TrackModel {
    pub invocation: Option<InvocationId>,
    pub parent: Option<ParentLink>,
    /// Firings seen live, so a new one is a visit start.
    pub firings: Set<u64>,
    /// Firings whose attempt was dispatched at least once.
    pub started: Set<u64>,
    /// Firings with a question out.
    pub asking: Set<u64>,
    /// How many history entries were read.
    pub history: nat,
    pub branches: BranchModel,
    /// Fork firings whose `fork.started` was emitted.
    pub announced: Set<u64>,
    /// Forks whose `fork.completed` is still to come, in firing order.
    pub open: Seq<OpenModel>,
}

/// The view events one record produced, in order, each with its subject.
pub type Views = Seq<(Option<Subject>, ViewModel)>;

// ── Subjects ───────────────────────────────────────────────────────────

/// The subject for a node: one of its firings when there is one, else the
/// node alone, as often as it has fired.
pub open spec fn subject_at(
    map: BranchModel,
    state: EngineState,
    node: Node,
    firing: Option<(FiringId, Attempt, Generation)>,
) -> Subject {
    Subject {
        node: ref_of(node),
        firing: match firing {
            Some(firing) => Some(firing.0),
            None => None,
        },
        visit: match firing {
            Some(firing) => Some(state.spec_visit(node.id, firing.0)),
            None => Some(state.spec_firing_count(node.id)),
        },
        attempt: match firing {
            Some(firing) => Some(firing.1),
            None => None,
        },
        generation: match firing {
            Some(firing) => Some(firing.2),
            None => None,
        },
        branch: map.spec_role(node.id),
    }
}

/// The subject for a node alone.
pub open spec fn node_subject(map: BranchModel, state: EngineState, node: NodeId) -> Option<Subject> {
    match state.graph.spec_node(node) {
        Some(node) => Some(subject_at(map, state, node, None)),
        None => None,
    }
}

/// Where a firing stands, live or retired.
pub open spec fn placed(state: EngineState, firing: FiringId) -> Option<
    (NodeId, Attempt, Generation),
> {
    match state.spec_firing(firing) {
        Some(live) => Some((live.node, live.attempt, live.generation)),
        None => match state.spec_record(firing) {
            Some(entry) => Some((entry.node, entry.attempt, entry.generation)),
            None => None,
        },
    }
}

/// The subject for a firing, live or retired.
pub open spec fn subject_of(map: BranchModel, state: EngineState, firing: FiringId) -> Option<
    Subject,
> {
    match placed(state, firing) {
        Some(at) => match state.graph.spec_node(at.0) {
            Some(node) => Some(subject_at(map, state, node, Some((firing, at.1, at.2)))),
            None => None,
        },
        None => None,
    }
}

/// The occurrence a fork firing's subject names.
pub open spec fn occurrence_of(execution: ExecutionId, subject: Subject) -> Option<ForkOccurrence> {
    match (subject.firing, subject.visit, subject.generation) {
        (Some(firing), Some(visit), Some(generation)) => Some(
            ForkOccurrence { execution, fork: subject.node.id, firing, visit, generation },
        ),
        _ => None,
    }
}

// ── Routes ─────────────────────────────────────────────────────────────

/// A node by reference, when the graph has it.
pub open spec fn target_node(state: EngineState, node: NodeId) -> Option<NodeRef> {
    match state.graph.spec_node(node) {
        Some(node) => Some(ref_of(node)),
        None => None,
    }
}

/// The node one routing group's decision leads to.
pub open spec fn group_target(state: EngineState, group: GroupDecision) -> GroupTarget {
    GroupTarget {
        group: group.group,
        target: match group.decision {
            RouteDecision::Emit(edge) => match state.graph.spec_edge(edge) {
                Some(edge) => target_node(state, edge.to),
                None => None,
            },
            RouteDecision::Jump(node) => target_node(state, node),
            RouteDecision::Nothing => None,
            RouteDecision::Block { reason } => None,
        },
    }
}

/// What an applied route derives: the node it leads to, and for an edge the
/// edge's transition and `back`. Nothing for a route that applied nothing or
/// one whose target the graph no longer names.
pub open spec fn applied_target(state: EngineState, applied: RouteApplied) -> Option<DerivedModel> {
    match applied {
        RouteApplied::Edge { firing, edge, group } => match state.graph.spec_edge(edge) {
            Some(arm) => match target_node(state, arm.to) {
                Some(target) => Some(
                    DerivedModel::RouteApplied {
                        target,
                        transition: Some(arm.transition),
                        back: Some(arm.back),
                    },
                ),
                None => None,
            },
            None => None,
        },
        RouteApplied::Jump { firing, target } => match target_node(state, target) {
            Some(target) => Some(
                DerivedModel::RouteApplied { target, transition: None, back: None },
            ),
            None => None,
        },
        RouteApplied::Nothing { firing, group } => None,
    }
}

// ── Open forks ─────────────────────────────────────────────────────────

/// Whether a join of `fork` in `generation` closes this occurrence.
pub open spec fn covers(open: OpenModel, fork: NodeId, generation: Generation) -> bool {
    open.occurrence.fork == fork && open.occurrence.generation == generation
}

/// Open forks stand in firing order, one per firing.
pub open spec fn in_firing_order(open: Seq<OpenModel>) -> bool {
    forall|i: int, j: int|
        0 <= i < j < open.len() ==> open[i].occurrence.firing.0 < open[j].occurrence.firing.0
}

/// The open forks with one more, in place of the one of the same firing.
pub open spec fn with_open(open: Seq<OpenModel>, fork: OpenModel) -> Seq<OpenModel>
    decreases open.len(),
{
    if open.len() == 0 {
        seq![fork]
    } else if fork.occurrence.firing.0 < open.first().occurrence.firing.0 {
        seq![fork] + open
    } else if fork.occurrence.firing.0 == open.first().occurrence.firing.0 {
        seq![fork] + open.drop_first()
    } else {
        seq![open.first()] + with_open(open.drop_first(), fork)
    }
}

/// The place of the first open fork a join closes: the count of open forks
/// when there is none.
pub open spec fn place_covering(open: Seq<OpenModel>, fork: NodeId, generation: Generation) -> int
    decreases open.len(),
{
    if open.len() == 0 || covers(open.first(), fork, generation) {
        0
    } else {
        1 + place_covering(open.drop_first(), fork, generation)
    }
}

/// The place of the open fork a firing opened: the count of open forks when
/// there is none.
pub open spec fn place_opened(open: Seq<OpenModel>, firing: FiringId) -> int
    decreases open.len(),
{
    if open.len() == 0 || open.first().occurrence.firing == firing {
        0
    } else {
        1 + place_opened(open.drop_first(), firing)
    }
}

/// The open fork a join of `fork` in `generation` closes, and the rest.
pub open spec fn take_open(
    open: Seq<OpenModel>,
    fork: NodeId,
    generation: Option<Generation>,
) -> (Option<OpenModel>, Seq<OpenModel>) {
    match generation {
        Some(generation) => {
            let at = place_covering(open, fork, generation);
            if at < open.len() {
                (Some(open[at]), open.remove(at))
            } else {
                (None, open)
            }
        },
        None => (None, open),
    }
}

/// Announce the fork `firing` opened, once.
pub open spec fn announce(
    track: TrackModel,
    execution: ExecutionId,
    state: EngineState,
    firing: FiringId,
    branches: Seq<BranchRef>,
) -> (TrackModel, Views) {
    if track.announced.contains(firing.0) {
        (track, Seq::empty())
    } else {
        let told = TrackModel { announced: track.announced.insert(firing.0), ..track };
        match subject_of(track.branches, state, firing) {
            Some(subject) => match occurrence_of(execution, subject) {
                Some(occurrence) => (
                    TrackModel {
                        open: with_open(track.open, OpenModel { occurrence, branches }),
                        ..told
                    },
                    seq![(Some(subject), ViewModel::ForkStarted { occurrence, branches })],
                ),
                None => (told, Seq::empty()),
            },
            None => (told, Seq::empty()),
        }
    }
}

/// `branch.completed` per result, each on its branch's last firing.
pub open spec fn branches_completed(
    map: BranchModel,
    state: EngineState,
    occurrence: ForkOccurrence,
    results: Seq<BranchResult>,
) -> Views
    decreases results.len(),
{
    if results.len() == 0 {
        Seq::empty()
    } else {
        branches_completed(map, state, occurrence, results.drop_last()).push(
            (
                subject_of(map, state, results.last().firing),
                ViewModel::BranchCompleted { occurrence, result: results.last() },
            ),
        )
    }
}

/// `branch.completed` per result, then `fork.completed` on `subject`: the
/// join's firing when there is one, else the fork's own.
pub open spec fn closing(
    map: BranchModel,
    state: EngineState,
    subject: Subject,
    occurrence: ForkOccurrence,
    results: Seq<BranchResult>,
    disposition: ForkDisposition,
) -> Views {
    let completed = branches_completed(map, state, occurrence, results);
    match target_node(state, occurrence.fork) {
        Some(fork) => completed.push(
            (Some(subject), ViewModel::ForkCompleted { occurrence, fork, results, disposition }),
        ),
        None => completed,
    }
}

// ── Branch results ─────────────────────────────────────────────────────

/// A result put behind every result of its branch index or a lower one.
pub open spec fn placed_result(results: Seq<BranchResult>, result: BranchResult) -> Seq<
    BranchResult,
>
    decreases results.len(),
{
    if results.len() == 0 || results.last().branch.index <= result.branch.index {
        results.push(result)
    } else {
        placed_result(results.drop_last(), result).push(results.last())
    }
}

/// A branch put behind every branch of its index or a lower one.
pub open spec fn placed_branch(branches: Seq<BranchRef>, branch: BranchRef) -> Seq<BranchRef>
    decreases branches.len(),
{
    if branches.len() == 0 || branches.last().index <= branch.index {
        branches.push(branch)
    } else {
        placed_branch(branches.drop_last(), branch).push(branches.last())
    }
}

/// The branch result one of a join's input tokens carries.
pub open spec fn token_result(
    map: BranchModel,
    state: EngineState,
    fork: NodeId,
    token: Token,
) -> Option<BranchResult> {
    match state.spec_record(token.from) {
        Some(entry) => match state.graph.spec_node(entry.node) {
            Some(node) => {
                let branch = match map.spec_role(entry.node) {
                    BranchRole::Member(branch) => if branch.fork == fork {
                        Some(branch)
                    } else {
                        None
                    },
                    BranchRole::Fork { branches } => if entry.node == fork {
                        Some(BranchRef { fork, index: 0 })
                    } else {
                        None
                    },
                    _ => None,
                };
                match branch {
                    Some(branch) => Some(
                        BranchResult {
                            branch,
                            node: ref_of(node),
                            firing: token.from,
                            status: entry.outcome.status,
                            payload: token.payload,
                        },
                    ),
                    None => None,
                }
            },
            None => None,
        },
        None => None,
    }
}

/// The branch results a join's inputs carry, in branch order; tokens of one
/// branch keep their order.
pub open spec fn branch_results(
    map: BranchModel,
    state: EngineState,
    fork: NodeId,
    inputs: Seq<Token>,
) -> Seq<BranchResult>
    decreases inputs.len(),
{
    if inputs.len() == 0 {
        Seq::empty()
    } else {
        let earlier = branch_results(map, state, fork, inputs.drop_last());
        match token_result(map, state, fork, inputs.last()) {
            Some(result) => placed_result(earlier, result),
            None => earlier,
        }
    }
}

/// Whether a result of this branch index is held.
pub open spec fn has_index(results: Seq<BranchResult>, index: u32) -> bool {
    exists|i: int| 0 <= i < results.len() && (#[trigger] results[i]).branch.index == index
}

/// The result of an open fork's branch a final record gives, when the branch
/// has none yet.
pub open spec fn member_result(
    map: BranchModel,
    state: EngineState,
    open: OpenModel,
    entry: HistoryEntry,
    results: Seq<BranchResult>,
) -> Option<BranchResult> {
    if entry.generation != open.occurrence.generation {
        None
    } else {
        match map.spec_role(entry.node) {
            BranchRole::Member(branch) => if open.branches.contains(branch) && !has_index(
                results,
                branch.index,
            ) {
                match state.graph.spec_node(entry.node) {
                    Some(node) => Some(
                        BranchResult {
                            branch,
                            node: ref_of(node),
                            firing: entry.firing,
                            status: entry.outcome.status,
                            payload: Json::Null,
                        },
                    ),
                    None => None,
                }
            } else {
                None
            },
            _ => None,
        }
    }
}

/// The branches' final records, read from the latest back onto `results`.
pub open spec fn members_before(
    map: BranchModel,
    state: EngineState,
    open: OpenModel,
    history: Seq<HistoryEntry>,
    results: Seq<BranchResult>,
) -> Seq<BranchResult>
    decreases history.len(),
{
    if history.len() == 0 {
        results
    } else {
        members_before(
            map,
            state,
            open,
            history.drop_last(),
            match member_result(map, state, open, history.last(), results) {
                Some(result) => placed_result(results, result),
                None => results,
            },
        )
    }
}

/// The branches' final records for a fork that was cancelled or killed: the
/// latest record of a member of each branch in the fork's generation, in
/// branch order.
pub open spec fn member_results(map: BranchModel, state: EngineState, open: OpenModel) -> Seq<
    BranchResult,
> {
    members_before(map, state, open, state.history@, Seq::empty())
}

/// The occurrence of `fork` in `generation` from the fork's own record, for
/// a join whose fork was never seen announced.
pub open spec fn recovered_occurrence(
    map: BranchModel,
    state: EngineState,
    execution: ExecutionId,
    fork: NodeId,
    generation: Option<Generation>,
) -> Option<ForkOccurrence> {
    let entry = match generation {
        Some(generation) => state.spec_node_record(fork, generation),
        None => state.spec_last_of(fork),
    };
    match entry {
        Some(entry) => match subject_of(map, state, entry.firing) {
            Some(subject) => occurrence_of(execution, subject),
            None => None,
        },
        None => None,
    }
}

// ── One record's own derivation ────────────────────────────────────────

/// What a record derives: its subject, what stands beside it, the view
/// events its apply produced, and the track after it.
pub struct Step {
    pub track: TrackModel,
    pub subject: Option<Subject>,
    pub derived: Option<DerivedModel>,
    pub views: Views,
}

/// A derivation that leaves the track as it was and produces no view event.
pub open spec fn bare(
    track: TrackModel,
    subject: Option<Subject>,
    derived: Option<DerivedModel>,
) -> Step {
    Step { track, subject, derived, views: Seq::empty() }
}

/// A wait-state change.
pub open spec fn waiting(subject: Option<Subject>, state: WaitState) -> (Option<Subject>, ViewModel) {
    (subject, ViewModel::WaitStateChanged { state })
}

/// The attempt was dispatched: the firing runs.
pub open spec fn step_started(track: TrackModel, state: EngineState, firing: FiringId) -> Step {
    let subject = subject_of(track.branches, state, firing);
    Step {
        track: TrackModel { started: track.started.insert(firing.0), ..track },
        subject,
        derived: None,
        views: seq![waiting(subject, WaitState::Running)],
    }
}

/// A progress payload: a question puts the firing on hold, and the step's
/// own expiry of it lifts the hold.
pub open spec fn step_progress(
    track: TrackModel,
    state: EngineState,
    firing: FiringId,
    parsed: Option<Parsed>,
) -> Step {
    let subject = subject_of(track.branches, state, firing);
    let derived = match parsed {
        Some(parsed) => Some(DerivedModel::Parsed { parsed }),
        None => None,
    };
    match parsed {
        Some(Parsed::Question { question }) => Step {
            track: TrackModel { asking: track.asking.insert(firing.0), ..track },
            subject,
            derived,
            views: seq![waiting(subject, WaitState::AwaitingAnswer)],
        },
        Some(Parsed::QuestionExpired { expired }) => Step {
            track: TrackModel { asking: track.asking.remove(firing.0), ..track },
            subject,
            derived,
            views: if track.asking.contains(firing.0) {
                seq![waiting(subject, WaitState::Running)]
            } else {
                Seq::empty()
            },
        },
        _ => bare(track, subject, derived),
    }
}

/// An attempt returned: final, or followed by a retry.
pub open spec fn step_finished(
    track: TrackModel,
    state: EngineState,
    firing: FiringId,
    attempt: Attempt,
    retry: RetryReading,
) -> Step {
    let is_final = state.spec_is_final(firing, attempt);
    let node = match state.spec_firing_node(firing) {
        Some(node) => state.graph.spec_node(node),
        None => None,
    };
    let subject = subject_of(track.branches, state, firing);
    Step {
        track: TrackModel { asking: track.asking.remove(firing.0), ..track },
        subject,
        derived: Some(
            DerivedModel::StepFinished {
                is_final,
                exhausted: node is Some && retry.retryable && !retry.another_attempt,
            },
        ),
        views: if !is_final && node is Some {
            seq![
                (
                    subject,
                    ViewModel::RetryScheduled {
                        next_attempt: retry.next_attempt,
                        base_delay_ms: retry.base_delay_ms,
                    },
                ),
                waiting(subject, WaitState::AwaitingRetry),
            ]
        } else {
            Seq::empty()
        },
    }
}

/// The branches of a fork, in order.
pub open spec fn branches_of(fork: NodeId, count: u32) -> Seq<BranchRef> {
    Seq::new(count as nat, |i: int| BranchRef { fork, index: i as u32 })
}

/// A route applied: the first edge of a fork's routing announces the fork.
pub open spec fn route_applied(
    track: TrackModel,
    execution: ExecutionId,
    state: EngineState,
    applied: RouteApplied,
) -> Step {
    let firing = applied.firing();
    let subject = subject_of(track.branches, state, firing);
    let derived = applied_target(state, applied);
    match (subject, applied) {
        (Some(about), RouteApplied::Edge { firing: _, edge, group }) => match about.branch {
            BranchRole::Fork { branches } => {
                let told = announce(
                    track,
                    execution,
                    state,
                    firing,
                    branches_of(about.node.id, branches),
                );
                Step { track: told.0, subject, derived, views: told.1 }
            },
            _ => bare(track, subject, derived),
        },
        _ => bare(track, subject, derived),
    }
}

/// How an event names a clone's entry: the clone's own node, or its id alone
/// when the clone does not hold it. The name and kind of the latter are
/// empty.
pub open spec fn clone_shown(clone: SpliceClone) -> CloneModel {
    match node_in(clone.nodes@, clone.entry) {
        Some(node) => CloneModel {
            index: clone.index,
            entry: node.id,
            name: node.name@,
            kind: node.kind@,
            meta: node.meta,
        },
        None => CloneModel {
            index: clone.index,
            entry: clone.entry,
            name: Seq::empty(),
            kind: Seq::empty(),
            meta: Json::Null,
        },
    }
}

/// The branches an expansion opens: every clone but a placeholder, in index
/// order.
pub open spec fn clone_branches(fork: NodeId, clones: Seq<SpliceClone>) -> Seq<BranchRef>
    decreases clones.len(),
{
    if clones.len() == 0 {
        Seq::empty()
    } else {
        let earlier = clone_branches(fork, clones.drop_last());
        if clones.last().placeholder {
            earlier
        } else {
            placed_branch(earlier, BranchRef { fork, index: clones.last().index })
        }
    }
}

/// A template expanded: an expansion is a fork whose clones are the branches,
/// in item order, and the node that fanned out into the template announces
/// them once.
pub open spec fn expansion_announced(
    track: TrackModel,
    execution: ExecutionId,
    state: EngineState,
    node: NodeId,
    splice: SubgraphSplice,
) -> (TrackModel, Views) {
    match track.branches.spec_expansion_fork(node) {
        Some(fork) => match state.spec_node_record(fork, splice.generation) {
            Some(entry) => announce(
                track,
                execution,
                state,
                entry.firing,
                clone_branches(fork, splice.clones@),
            ),
            None => (track, Seq::empty()),
        },
        None => (track, Seq::empty()),
    }
}

/// Whether a firing could receive a control.
pub open spec fn deliverable(state: EngineState, firing: FiringId) -> bool {
    match state.spec_firing(firing) {
        Some(live) => !live.cancelling && !live.awaiting_retry
            && !state.awaiting_admission@.contains(firing),
        None => false,
    }
}

/// The answer a control carries.
pub open spec fn answer_in(ctl: Control, answer: Option<Arc<Answer>>) -> Option<Arc<Answer>> {
    match ctl {
        Control::Deliver(_) => answer,
        _ => None,
    }
}

/// A control reached the firing: an answer to its question lifts the hold.
pub open spec fn control_requested(
    track: TrackModel,
    state: EngineState,
    firing: FiringId,
    ctl: Control,
    answer: Option<Arc<Answer>>,
) -> Step {
    let subject = subject_of(track.branches, state, firing);
    let reaches = deliverable(state, firing);
    let answer = answer_in(ctl, answer);
    let derived = Some(DerivedModel::ControlRequested { deliverable: reaches, answer });
    if answer is Some && reaches {
        Step {
            track: TrackModel { asking: track.asking.remove(firing.0), ..track },
            subject,
            derived,
            views: if track.asking.contains(firing.0) {
                seq![waiting(subject, WaitState::Running)]
            } else {
                Seq::empty()
            },
        }
    } else {
        bare(track, subject, derived)
    }
}

/// What a record derives on its own.
pub open spec fn own_step(
    track: TrackModel,
    execution: ExecutionId,
    event: Event,
    state: EngineState,
    readings: Readings,
) -> Step {
    let map = track.branches;
    match event {
        Event::ExecutionStarted { start } => bare(track, None, None),
        Event::KillRequested { scope } => bare(track, None, None),
        Event::ScopeAcquired { scope, detail } => bare(track, None, None),
        Event::ScopeFailed { scope, detail } => bare(track, None, None),
        Event::CancelRequested { target } => match target {
            CancelTarget::Scope(_) => bare(track, None, None),
            CancelTarget::Group(node) => bare(track, node_subject(map, state, node), None),
        },
        Event::TokenEmitted { token } => bare(
            track,
            subject_of(map, state, token.from),
            None,
        ),
        Event::StepStarted { firing, attempt } => step_started(track, state, firing),
        Event::StepProgressRecorded { firing, ev } => step_progress(
            track,
            state,
            firing,
            progress_in(ev, readings.steps),
        ),
        Event::StepFinished { firing, attempt, outcome } => step_finished(
            track,
            state,
            firing,
            attempt,
            readings.retry,
        ),
        Event::AdmissionDecided { decision_id, decision, trace } => bare(
            track,
            match decision_id {
                DecisionId::AttemptStart { firing, attempt } => subject_of(map, state, firing),
                _ => None,
            },
            None,
        ),
        Event::RoutingResolved { decision_id, groups } => match decision_id {
            DecisionId::Route { firing, attempt } => bare(
                track,
                subject_of(map, state, firing),
                Some(
                    DerivedModel::RoutingResolved {
                        groups: groups@.map_values(
                            |group: GroupDecision| group_target(state, group),
                        ),
                    },
                ),
            ),
            _ => bare(track, None, None),
        },
        Event::RouteApplied { applied } => route_applied(track, execution, state, applied),
        Event::RetryElapsed { firing, next_attempt } => bare(
            track,
            subject_of(map, state, firing),
            None,
        ),
        Event::NodeExpanded { node, splice } => {
            let told = expansion_announced(track, execution, state, node, *splice);
            Step {
                track: told.0,
                subject: node_subject(map, state, node),
                derived: Some(
                    DerivedModel::NodeExpanded {
                        clones: splice.clones@.map_values(
                            |clone: SpliceClone| clone_shown(clone),
                        ),
                    },
                ),
                views: told.1,
            }
        },
        Event::ControlRequested { firing, ctl } => control_requested(
            track,
            state,
            firing,
            ctl,
            readings.answer,
        ),
    }
}

/// Whether `step` is what a record derives on its own.
pub open spec fn derives(
    track: TrackModel,
    execution: ExecutionId,
    event: Event,
    state: EngineState,
    readings: Readings,
    step: Step,
) -> bool {
    step == own_step(track, execution, event, state, readings)
}

// ── What every record may carry ────────────────────────────────────────

/// A live firing seen: a new one is a visit start, and a join's first sight
/// closes the fork it joins.
pub open spec fn visit_seen(
    track: TrackModel,
    execution: ExecutionId,
    state: EngineState,
    seen: LiveFiring,
) -> (TrackModel, Views) {
    if track.firings.contains(seen.id.0) {
        (track, Seq::empty())
    } else {
        let known = TrackModel { firings: track.firings.insert(seen.id.0), ..track };
        let map = track.branches;
        let inputs = state.spec_firing(seen.id)->0.inputs;
        let subject = subject_of(map, state, seen.id);
        let starting = seq![
            (subject, ViewModel::VisitStarted { inputs }),
            waiting(subject, WaitState::AwaitingAdmission),
        ];
        match subject {
            Some(about) => match about.branch {
                BranchRole::Join { fork } => {
                    let taken = take_open(track.open, fork, about.generation);
                    let occurrence = match taken.0 {
                        Some(open) => Some(open.occurrence),
                        None => recovered_occurrence(map, state, execution, fork, about.generation),
                    };
                    let after = TrackModel { open: taken.1, ..known };
                    match occurrence {
                        Some(occurrence) => (
                            after,
                            closing(
                                map,
                                state,
                                about,
                                occurrence,
                                branch_results(map, state, fork, inputs@),
                                ForkDisposition::Joined,
                            ) + starting,
                        ),
                        None => (after, starting),
                    }
                },
                _ => (known, starting),
            },
            None => (known, starting),
        }
    }
}

/// The live firings seen, in order.
pub open spec fn visits_seen(
    track: TrackModel,
    execution: ExecutionId,
    state: EngineState,
    live: Seq<LiveFiring>,
) -> (TrackModel, Views)
    decreases live.len(),
{
    if live.len() == 0 {
        (track, Seq::empty())
    } else {
        let before = visits_seen(track, execution, state, live.drop_last());
        let last = visit_seen(before.0, execution, state, live.last());
        (last.0, before.1 + last.1)
    }
}

/// The firings among these that were told to stop.
pub open spec fn cancelling(map: BranchModel, state: EngineState, live: Seq<LiveFiring>) -> Views
    decreases live.len(),
{
    if live.len() == 0 {
        Seq::empty()
    } else {
        let before = cancelling(map, state, live.drop_last());
        if live.last().cancelling {
            before.push(waiting(subject_of(map, state, live.last().id), WaitState::Cancelling))
        } else {
            before
        }
    }
}

/// The firings a cancel or a kill told to stop.
pub open spec fn marked_cancelling(map: BranchModel, event: Event, state: EngineState) -> Views {
    if event is CancelRequested || event is KillRequested {
        cancelling(map, state, state.live@)
    } else {
        Seq::empty()
    }
}

/// A final record read: the visit completed. A join that completed without
/// ever being live was synthesized; its record closes the fork from the
/// branches' own final records.
pub open spec fn visit_completed(
    track: TrackModel,
    state: EngineState,
    entry: HistoryEntry,
) -> (TrackModel, Views) {
    let map = track.branches;
    let subject = match state.graph.spec_node(entry.node) {
        Some(node) => Some(
            subject_at(map, state, node, Some((entry.firing, entry.attempt, entry.generation))),
        ),
        None => None,
    };
    let completed = seq![
        (
            subject,
            ViewModel::VisitCompleted {
                outcome: entry.outcome,
                executed: track.started.contains(entry.firing.0),
                attempts: entry.attempt.0,
            },
        ),
    ];
    match subject {
        Some(about) => match about.branch {
            BranchRole::Join { fork } => if track.firings.contains(entry.firing.0) {
                (track, completed)
            } else {
                let taken = take_open(track.open, fork, Some(entry.generation));
                match taken.0 {
                    Some(open) => (
                        TrackModel { open: taken.1, ..track },
                        closing(
                            map,
                            state,
                            about,
                            open.occurrence,
                            member_results(map, state, open),
                            if entry.outcome.status.cancelled {
                                ForkDisposition::Cancelled
                            } else {
                                ForkDisposition::Joined
                            },
                        ) + completed,
                    ),
                    None => (track, completed),
                }
            },
            _ => (track, completed),
        },
        None => (track, completed),
    }
}

/// The final records read, in order.
pub open spec fn visits_completed(
    track: TrackModel,
    state: EngineState,
    entries: Seq<HistoryEntry>,
) -> (TrackModel, Views)
    decreases entries.len(),
{
    if entries.len() == 0 {
        (track, Seq::empty())
    } else {
        let before = visits_completed(track, state, entries.drop_last());
        let last = visit_completed(before.0, state, entries.last());
        (last.0, before.1 + last.1)
    }
}

/// The history entries past the ones read.
pub open spec fn completions(track: TrackModel, state: EngineState) -> (TrackModel, Views) {
    if state.history@.len() <= track.history {
        (track, Seq::empty())
    } else {
        let read = visits_completed(
            track,
            state,
            state.history@.subrange(track.history as int, state.history@.len() as int),
        );
        (TrackModel { history: state.history@.len(), ..read.0 }, read.1)
    }
}

/// Whether a live firing runs on a branch of an open fork.
pub open spec fn on_branch(map: BranchModel, open: OpenModel, live: LiveFiring) -> bool {
    &&& live.generation == open.occurrence.generation
    &&& match map.spec_role(live.node) {
        BranchRole::Member(branch) => branch.fork == open.occurrence.fork,
        _ => false,
    }
}

/// A killed fork with no branch left running.
pub open spec fn is_dead(map: BranchModel, state: EngineState, open: OpenModel) -> bool {
    &&& state.killed@.contains(open.occurrence.fork)
    &&& forall|i: int| 0 <= i < state.live@.len() ==> !on_branch(map, open, #[trigger] state.live@[i])
}

/// The firings of the dead forks among these, in order.
pub open spec fn dead_firings(map: BranchModel, state: EngineState, open: Seq<OpenModel>) -> Seq<
    FiringId,
>
    decreases open.len(),
{
    if open.len() == 0 {
        Seq::empty()
    } else {
        let before = dead_firings(map, state, open.drop_last());
        if is_dead(map, state, open.last()) {
            before.push(open.last().occurrence.firing)
        } else {
            before
        }
    }
}

/// A killed fork closed from the branches' final records.
pub open spec fn killed_closed(track: TrackModel, state: EngineState, firing: FiringId) -> (
    TrackModel,
    Views,
) {
    let at = place_opened(track.open, firing);
    if at < track.open.len() {
        let open = track.open[at];
        let after = TrackModel { open: track.open.remove(at), ..track };
        match subject_of(track.branches, state, firing) {
            Some(subject) => (
                after,
                closing(
                    track.branches,
                    state,
                    subject,
                    open.occurrence,
                    member_results(track.branches, state, open),
                    ForkDisposition::Killed,
                ),
            ),
            None => (after, Seq::empty()),
        }
    } else {
        (track, Seq::empty())
    }
}

/// Killed forks closed, in order.
pub open spec fn all_killed_closed(track: TrackModel, state: EngineState, firings: Seq<FiringId>) -> (
    TrackModel,
    Views,
)
    decreases firings.len(),
{
    if firings.len() == 0 {
        (track, Seq::empty())
    } else {
        let before = all_killed_closed(track, state, firings.drop_last());
        let last = killed_closed(before.0, state, firings.last());
        (last.0, before.1 + last.1)
    }
}

/// The branch map in use: the state's once the graph outgrew the old one.
pub open spec fn refreshed(track: TrackModel, state: EngineState) -> TrackModel {
    if track.branches.spec_covers(state.graph) {
        track
    } else {
        TrackModel { branches: state.branches@, ..track }
    }
}

/// What follows a record's own derivation: visits starting, firings told to
/// stop, visits completing, and killed forks closing, in that order.
pub open spec fn aftermath(
    track: TrackModel,
    execution: ExecutionId,
    event: Event,
    state: EngineState,
) -> (TrackModel, Views) {
    let seen = visits_seen(track, execution, state, state.live@);
    let marked = marked_cancelling(seen.0.branches, event, state);
    let read = completions(seen.0, state);
    let dead = all_killed_closed(
        read.0,
        state,
        dead_firings(read.0.branches, state, read.0.open),
    );
    (dead.0, seen.1 + marked + read.1 + dead.1)
}

// ── Events ─────────────────────────────────────────────────────────────

/// What every event derived from one record shares.
pub struct EnvelopeModel {
    pub source: EventSource,
    pub seq: u64,
    pub origin: RecordOrigin,
    pub context: Context,
    pub recorded_at: u64,
}

/// The place of an event among those of its record, as its id holds it.
pub open spec fn event_index(i: int) -> u32 {
    if i <= u32::MAX {
        i as u32
    } else {
        u32::MAX
    }
}

/// The record's own event at index `0`, then its view events at `1` and up.
pub open spec fn enveloped(
    envelope: EnvelopeModel,
    subject: Option<Subject>,
    record: Record,
    derived: Option<DerivedModel>,
    views: Views,
) -> Seq<EventModel> {
    Seq::new(
        1 + views.len(),
        |i: int|
            if i == 0 {
                EventModel {
                    id: EventId { source: envelope.source, seq: envelope.seq, index: 0 },
                    origin: envelope.origin,
                    context: envelope.context,
                    subject,
                    observed_at: None,
                    recorded_at: envelope.recorded_at,
                    record: Some(record),
                    derived,
                }
            } else {
                EventModel {
                    id: EventId {
                        source: envelope.source,
                        seq: envelope.seq,
                        index: event_index(i),
                    },
                    origin: RecordOrigin::Derived,
                    context: envelope.context,
                    subject: views[i - 1].0,
                    observed_at: None,
                    recorded_at: envelope.recorded_at,
                    record: None,
                    derived: Some(DerivedModel::View(views[i - 1].1)),
                }
            },
    )
}

// ── The run ────────────────────────────────────────────────────────────

/// What the derivation remembers of a run: each execution's track, each
/// invocation's parent call, and the branch map an execution starts with.
pub struct ProjectionModel {
    pub executions: Map<u64, TrackModel>,
    pub invocations: Map<u64, Option<ParentLink>>,
    pub blank: BranchModel,
}

/// A track nothing was read into.
pub open spec fn fresh_track(blank: BranchModel) -> TrackModel {
    TrackModel {
        invocation: None,
        parent: None,
        firings: Set::empty(),
        started: Set::empty(),
        asking: Set::empty(),
        history: 0,
        branches: blank,
        announced: Set::empty(),
        open: Seq::empty(),
    }
}

/// The track of an execution: a fresh one when nothing was read of it.
pub open spec fn track_of(run: ProjectionModel, execution: ExecutionId) -> TrackModel {
    if run.executions.contains_key(execution.0) {
        run.executions[execution.0]
    } else {
        fresh_track(run.blank)
    }
}

/// The parent call of an invocation.
pub open spec fn parent_of(run: ProjectionModel, invocation: InvocationId) -> Option<ParentLink> {
    if run.invocations.contains_key(invocation.0) {
        run.invocations[invocation.0]
    } else {
        None
    }
}

/// A run nothing was read of.
pub open spec fn blank_run() -> ProjectionModel {
    ProjectionModel {
        executions: Map::empty(),
        invocations: Map::empty(),
        blank: blank_map(),
    }
}

/// The derivation of one engine record: the run after it and its events.
pub open spec fn engine_step(
    before: ProjectionModel,
    execution: ExecutionId,
    record: EventRecord,
    recorded_at: u64,
    state: EngineState,
    readings: Readings,
) -> (ProjectionModel, Seq<EventModel>) {
    let step = own_step(
        refreshed(track_of(before, execution), state),
        execution,
        event_of(record),
        state,
        readings,
    );
    let rest = aftermath(step.track, execution, event_of(record), state);
    (
        ProjectionModel { executions: before.executions.insert(execution.0, rest.0), ..before },
        enveloped(
            EnvelopeModel {
                source: EventSource::Execution { execution },
                seq: record.seq,
                origin: origin_of(record.origin),
                context: Context {
                    invocation: rest.0.invocation,
                    execution: Some(execution),
                    parent: rest.0.parent,
                },
                recorded_at,
            },
            step.subject,
            Record::Engine(stored(record, recorded_at)),
            step.derived,
            step.views + rest.1,
        ),
    )
}

/// Whether an engine record takes a run's derivation from `before` to `after`
/// and derives these events.
pub open spec fn engine_derives(
    before: ProjectionModel,
    execution: ExecutionId,
    record: EventRecord,
    recorded_at: u64,
    state: EngineState,
    readings: Readings,
    after: ProjectionModel,
    events: Seq<EventModel>,
) -> bool {
    (after, events) == engine_step(before, execution, record, recorded_at, state, readings)
}

/// The run after a coordinator record: a declared invocation's call and a
/// declared execution's place are remembered.
pub open spec fn after_lifecycle(before: ProjectionModel, event: CoordinatorEvent) -> ProjectionModel {
    match event {
        CoordinatorEvent::InvocationDeclared {
            invocation,
            call,
            graph,
            context,
            secret_bindings,
            sandbox,
            admission,
        } => ProjectionModel {
            invocations: before.invocations.insert(
                invocation.0,
                match call {
                    Some(call) => Some(link_of(call)),
                    None => None,
                },
            ),
            ..before
        },
        CoordinatorEvent::ExecutionDeclared {
            execution,
            invocation,
            predecessor,
            start,
            middleware_state,
        } => ProjectionModel {
            executions: before.executions.insert(
                execution.0,
                TrackModel {
                    invocation: Some(invocation),
                    parent: parent_of(before, invocation),
                    ..track_of(before, execution)
                },
            ),
            ..before
        },
        _ => before,
    }
}

/// The invocation and execution a coordinator record is about.
pub open spec fn lifecycle_place(before: ProjectionModel, event: CoordinatorEvent) -> (
    Option<InvocationId>,
    Option<ExecutionId>,
) {
    match event {
        CoordinatorEvent::RunStarted { root, .. } => (Some(root), None),
        CoordinatorEvent::InvocationDeclared { invocation, .. } => (Some(invocation), None),
        CoordinatorEvent::ExecutionDeclared { execution, invocation, .. } => (
            Some(invocation),
            Some(execution),
        ),
        CoordinatorEvent::ExecutionFinished { execution, .. } => (
            if before.executions.contains_key(execution.0) {
                before.executions[execution.0].invocation
            } else {
                None
            },
            Some(execution),
        ),
        CoordinatorEvent::InvocationFinished { invocation, result } => (
            Some(invocation),
            Some(result.final_execution),
        ),
        CoordinatorEvent::ScopeReleased { invocation, .. } => (Some(invocation), None),
        CoordinatorEvent::InvocationCancelRequested { invocation, .. } => (Some(invocation), None),
        CoordinatorEvent::RunNoteRecorded { execution, .. } => (None, execution),
        _ => (None, None),
    }
}

/// The view event a coordinator record carries: a stall names its budget.
pub open spec fn lifecycle_views(event: CoordinatorEvent) -> Views {
    match event {
        CoordinatorEvent::InvocationCancelRequested {
            invocation,
            reason: Some(CancelReason::StallTimeout { stall_timeout_ms, idle_ms }),
        } => seq![(None::<Subject>, ViewModel::RunStalled { stall_timeout_ms, idle_ms })],
        _ => Seq::empty(),
    }
}

/// What stands beside a coordinator record: a run-level note reads the way a
/// firing's note does.
pub open spec fn lifecycle_derived(event: CoordinatorEvent) -> Option<DerivedModel> {
    match event {
        CoordinatorEvent::RunNoteRecorded { execution, kind, payload } => Some(
            DerivedModel::Parsed { parsed: read_note(Note { kind, payload }) },
        ),
        _ => None,
    }
}

/// The events of one coordinator record.
pub open spec fn lifecycle_events(before: ProjectionModel, record: CoordinatorRecord) -> Seq<
    EventModel,
> {
    let place = lifecycle_place(before, *record.body);
    enveloped(
        EnvelopeModel {
            source: EventSource::Coordinator,
            seq: record.seq,
            origin: origin_of(record.origin),
            context: Context {
                invocation: place.0,
                execution: place.1,
                parent: match place.0 {
                    Some(invocation) => parent_of(
                        after_lifecycle(before, *record.body),
                        invocation,
                    ),
                    None => None,
                },
            },
            recorded_at: record.recorded_at,
        },
        None,
        Record::Coordinator(record),
        lifecycle_derived(*record.body),
        lifecycle_views(*record.body),
    )
}

} // verus!

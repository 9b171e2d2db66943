//! The derivation: one [`Projection`] per run turns each record and the
//! state after it into the record's own event and the view events attached
//! to it.

use crate::search::first_where;
use crate::event::{CancelReason, CoordinatorEvent, CoordinatorRecord};
use crate::events::derivation::{
    after_lifecycle, aftermath, all_killed_closed, announce, applied_target, bare, blank_run,
    branch_results, branches_completed, branches_of, cancelling, clone_branches, clone_shown,
    closing, completions, control_requested, covers, dead_firings, deliverable, derives,
    engine_derives, enveloped, expansion_announced, fresh_track, group_target, has_index, is_dead,
    killed_closed, lifecycle_derived, lifecycle_events, lifecycle_place, lifecycle_views,
    marked_cancelling, member_result, member_results, members_before, node_subject, occurrence_of,
    on_branch, parent_of, place_covering, place_opened, placed, placed_branch, placed_result,
    recovered_occurrence, refreshed, route_applied, step_finished, step_progress, step_started,
    subject_at, subject_of, take_open, target_node, token_result, track_of, visit_completed,
    visit_seen, visits_completed, visits_seen, waiting, with_open, EnvelopeModel, OpenModel,
    ProjectionModel, Readings, RetryReading, Step, TrackModel, Views,
};
use crate::events::{
    copy_link, copy_subject, derived_model, event_models, node_ref, BranchResult, CloneRef, Context,
    Derived, DerivedModel, EventId, EventSource, ForkDisposition, ForkOccurrence, GroupTarget,
    NodeRef, ParentLink, Record, RecordOrigin, RunEvent, Subject, ViewEvent, ViewModel, WaitState,
};
use crate::id_set::IdSet;
use crate::ids::{Attempt, ExecutionId, FiringId, Generation, InvocationId, NodeId};
use crate::json::{share, Json};
use crate::model::{find_node, share_option, Node, Token};
use crate::note::{note_parsed, parse_progress, Note, Parsed};
use crate::record::{
    CancelTarget, Control, DecisionId, Event, EventRecord, GroupDecision, RouteApplied,
    RouteDecision, SpliceClone, StoredEngineRecord, SubgraphSplice,
};
use crate::state::{BranchMap, BranchRef, BranchRole, EngineState, HistoryEntry, LiveFiring};
use crate::steps::Answer;
use crate::table::Table;
use std::sync::Arc;
use vstd::prelude::*;

verus! {

/// A fork between its `fork.started` and its `fork.completed`.
#[derive(Debug)]
pub struct OpenFork {
    pub occurrence: ForkOccurrence,
    pub branches: Vec<BranchRef>,
}

impl View for OpenFork {
    type V = OpenModel;

    open spec fn view(&self) -> OpenModel {
        OpenModel { occurrence: self.occurrence, branches: self.branches@ }
    }
}

/// Open forks with their branches as sequences.
pub open spec fn open_models(open: Seq<OpenFork>) -> Seq<OpenModel> {
    open.map_values(|fork: OpenFork| fork@)
}

/// Per-execution bookkeeping the derivation needs beyond the engine state.
#[derive(Debug)]
pub struct ExecutionTrack {
    invocation: Option<InvocationId>,
    parent: Option<ParentLink>,
    firings: IdSet,
    started: IdSet,
    asking: IdSet,
    history: usize,
    branches: Arc<BranchMap>,
    announced: IdSet,
    open: Vec<OpenFork>,
}

impl View for ExecutionTrack {
    type V = TrackModel;

    closed spec fn view(&self) -> TrackModel {
        TrackModel {
            invocation: self.invocation,
            parent: self.parent,
            firings: self.firings@,
            started: self.started@,
            asking: self.asking@,
            history: self.history as nat,
            branches: self.branches@,
            announced: self.announced@,
            open: open_models(self.open@),
        }
    }
}

/// View events with their subjects, before they are given ids.
pub open spec fn view_models(views: Seq<(Option<Subject>, ViewEvent)>) -> Views {
    views.map_values(|view: (Option<Subject>, ViewEvent)| (view.0, view.1@))
}

fn push_view(
    views: &mut Vec<(Option<Subject>, ViewEvent)>,
    subject: Option<Subject>,
    view: ViewEvent,
)
    ensures
        view_models(final(views)@) == view_models(old(views)@).push((subject, view@)),
{
    views.push((subject, view));
    assert(view_models(views@) =~= view_models(old(views)@).push((subject, view@)));
}

// ── Subjects ───────────────────────────────────────────────────────────

fn subject(
    map: &BranchMap,
    state: &EngineState,
    node: &Node,
    firing: Option<(FiringId, Attempt, Generation)>,
) -> (about: Subject)
    ensures
        about == subject_at(map@, *state, *node, firing),
{
    let (of, attempt, generation) = match firing {
        Some((of, attempt, generation)) => (Some(of), Some(attempt), Some(generation)),
        None => (None, None, None),
    };
    let visit = match firing {
        Some((of, _, _)) => Some(state.visit(node.id, of)),
        None => Some(state.firing_count(node.id)),
    };
    Subject {
        node: node_ref(node),
        firing: of,
        visit,
        attempt,
        generation,
        branch: map.role(node.id),
    }
}

fn subject_of_node(map: &BranchMap, state: &EngineState, node: NodeId) -> (about: Option<Subject>)
    ensures
        about == node_subject(map@, *state, node),
{
    match state.graph.node(node) {
        Some(node) => Some(subject(map, state, node, None)),
        None => None,
    }
}

/// The subject for a firing, live or retired.
fn subject_of_firing(map: &BranchMap, state: &EngineState, firing: FiringId) -> (about: Option<
    Subject,
>)
    ensures
        about == subject_of(map@, *state, firing),
{
    let (node, attempt, generation) = match state.firing(firing) {
        Some(live) => (live.node, live.attempt, live.generation),
        None => match state.record(firing) {
            Some(entry) => (entry.node, entry.attempt, entry.generation),
            None => return None,
        },
    };
    assert(placed(*state, firing) == Some((node, attempt, generation)));
    match state.graph.node(node) {
        Some(node) => Some(subject(map, state, node, Some((firing, attempt, generation)))),
        None => None,
    }
}

/// The occurrence a fork firing's subject names.
fn occurrence(execution: ExecutionId, about: &Subject) -> (found: Option<ForkOccurrence>)
    ensures
        found == occurrence_of(execution, *about),
{
    match (about.firing, about.visit, about.generation) {
        (Some(firing), Some(visit), Some(generation)) => Some(
            ForkOccurrence { execution, fork: about.node.id, firing, visit, generation },
        ),
        _ => None,
    }
}

fn target(state: &EngineState, node: NodeId) -> (reference: Option<NodeRef>)
    ensures
        reference == target_node(*state, node),
{
    match state.graph.node(node) {
        Some(node) => Some(node_ref(node)),
        None => None,
    }
}

/// The node one routing group's decision leads to.
fn target_of_group(state: &EngineState, group: &GroupDecision) -> (found: GroupTarget)
    ensures
        found == group_target(*state, *group),
{
    let target = match &group.decision {
        RouteDecision::Emit(edge) => match state.graph.edge(*edge) {
            Some(edge) => target(state, edge.to),
            None => None,
        },
        RouteDecision::Jump(node) => target(state, *node),
        RouteDecision::Nothing => None,
        RouteDecision::Block { reason: _ } => None,
    };
    GroupTarget { group: group.group, target }
}

/// What an applied route derives.
fn target_of_route(state: &EngineState, applied: &RouteApplied) -> (derived: Option<Derived>)
    ensures
        derived_model(derived) == applied_target(*state, *applied),
{
    match *applied {
        RouteApplied::Edge { firing: _, edge, group: _ } => match state.graph.edge(edge) {
            Some(arm) => match target(state, arm.to) {
                Some(target) => Some(
                    Derived::RouteApplied {
                        target,
                        transition: Some(arm.transition),
                        back: Some(arm.back),
                    },
                ),
                None => None,
            },
            None => None,
        },
        RouteApplied::Jump { firing: _, target: node } => match target(state, node) {
            Some(target) => Some(Derived::RouteApplied { target, transition: None, back: None }),
            None => None,
        },
        RouteApplied::Nothing { firing: _, group: _ } => None,
    }
}

// ── Open forks ─────────────────────────────────────────────────────────

proof fn lemma_with_open(open: Seq<OpenModel>, fork: OpenModel, i: int)
    requires
        0 <= i <= open.len(),
        forall|j: int| 0 <= j < i ==> (#[trigger] open[j]).occurrence.firing.0
            < fork.occurrence.firing.0,
        i < open.len() ==> fork.occurrence.firing.0 <= open[i].occurrence.firing.0,
    ensures
        with_open(open, fork) == (if i < open.len() && open[i].occurrence.firing.0
            == fork.occurrence.firing.0 {
            open.update(i, fork)
        } else {
            open.insert(i, fork)
        }),
    decreases open.len(),
{
    if open.len() == 0 {
        assert(with_open(open, fork) =~= open.insert(i, fork));
    } else if i == 0 {
        if open[0].occurrence.firing.0 == fork.occurrence.firing.0 {
            assert(with_open(open, fork) =~= open.update(0, fork));
        } else {
            assert(with_open(open, fork) =~= open.insert(0, fork));
        }
    } else {
        assert(open[0].occurrence.firing.0 < fork.occurrence.firing.0);
        let rest = open.drop_first();
        assert forall|j: int| 0 <= j < i - 1 implies (#[trigger] rest[j]).occurrence.firing.0
            < fork.occurrence.firing.0 by {
            assert(rest[j] == open[j + 1]);
        }
        lemma_with_open(rest, fork, i - 1);
        if i < open.len() && open[i].occurrence.firing.0 == fork.occurrence.firing.0 {
            assert(seq![open.first()] + rest.update(i - 1, fork) =~= open.update(i, fork));
        } else {
            assert(seq![open.first()] + rest.insert(i - 1, fork) =~= open.insert(i, fork));
        }
    }
}

proof fn lemma_place_covering(open: Seq<OpenModel>, fork: NodeId, generation: Generation, i: int)
    requires
        0 <= i <= open.len(),
        forall|j: int| 0 <= j < i ==> !covers(#[trigger] open[j], fork, generation),
        i < open.len() ==> covers(open[i], fork, generation),
    ensures
        place_covering(open, fork, generation) == i,
    decreases open.len(),
{
    if open.len() > 0 && i > 0 {
        assert(!covers(open[0], fork, generation));
        let rest = open.drop_first();
        assert forall|j: int| 0 <= j < i - 1 implies !covers(
            #[trigger] rest[j],
            fork,
            generation,
        ) by {
            assert(rest[j] == open[j + 1]);
        }
        lemma_place_covering(rest, fork, generation, i - 1);
    }
}

proof fn lemma_place_opened(open: Seq<OpenModel>, firing: FiringId, i: int)
    requires
        0 <= i <= open.len(),
        forall|j: int| 0 <= j < i ==> (#[trigger] open[j]).occurrence.firing != firing,
        i < open.len() ==> open[i].occurrence.firing == firing,
    ensures
        place_opened(open, firing) == i,
    decreases open.len(),
{
    if open.len() > 0 && i > 0 {
        assert(open[0].occurrence.firing != firing);
        let rest = open.drop_first();
        assert forall|j: int| 0 <= j < i - 1 implies (#[trigger] rest[j]).occurrence.firing
            != firing by {
            assert(rest[j] == open[j + 1]);
        }
        lemma_place_opened(rest, firing, i - 1);
    }
}

/// Remember an announced fork until its join closes it.
fn insert_open(open: &mut Vec<OpenFork>, fork: OpenFork)
    ensures
        open_models(final(open)@) == with_open(open_models(old(open)@), fork@),
{
    let firing = fork.occurrence.firing;
    let mut i: usize = 0;
    while i < open.len() && open[i].occurrence.firing.0 < firing.0
        invariant
            i <= open.len(),
            firing == fork.occurrence.firing,
            forall|j: int| 0 <= j < i ==> (#[trigger] open@[j]).occurrence.firing.0 < firing.0,
        decreases open.len() - i,
    {
        i = i + 1;
    }
    let ghost before = open_models(open@);
    proof {
        assert forall|j: int| 0 <= j < i implies (#[trigger] before[j]).occurrence.firing.0
            < fork@.occurrence.firing.0 by {
            assert(before[j] == open@[j]@);
        }
        if i < open@.len() {
            assert(before[i as int] == open@[i as int]@);
        }
        lemma_with_open(before, fork@, i as int);
    }
    let ghost model = fork@;
    if i < open.len() && open[i].occurrence.firing.0 == firing.0 {
        open.set(i, fork);
        assert(open_models(open@) =~= before.update(i as int, model));
    } else {
        open.insert(i, fork);
        assert(open_models(open@) =~= before.insert(i as int, model));
    }
}

/// Take the open fork a join of `fork` in `generation` closes, if any.
fn take_covering(open: &mut Vec<OpenFork>, fork: NodeId, generation: Option<Generation>) -> (taken:
    Option<OpenFork>)
    ensures
        open_models(final(open)@) == take_open(open_models(old(open)@), fork, generation).1,
        (match taken {
            Some(taken) => Some(taken@),
            None => None,
        }) == take_open(open_models(old(open)@), fork, generation).0,
{
    let generation = match generation {
        Some(generation) => generation,
        None => return None,
    };
    let mut i: usize = 0;
    while i < open.len() && !(open[i].occurrence.fork == fork && open[i].occurrence.generation
        == generation)
        invariant
            i <= open.len(),
            forall|j: int| 0 <= j < i ==> !covers((#[trigger] open@[j])@, fork, generation),
        decreases open.len() - i,
    {
        i = i + 1;
    }
    let ghost before = open_models(open@);
    proof {
        assert forall|j: int| 0 <= j < i implies !covers(#[trigger] before[j], fork, generation) by {
            assert(before[j] == open@[j]@);
        }
        if i < open@.len() {
            assert(before[i as int] == open@[i as int]@);
        }
        lemma_place_covering(before, fork, generation, i as int);
    }
    if i < open.len() {
        let taken = open.remove(i);
        assert(open_models(open@) =~= before.remove(i as int));
        Some(taken)
    } else {
        None
    }
}

/// Take the open fork a firing opened, if any.
fn take_opened(open: &mut Vec<OpenFork>, firing: FiringId) -> (taken: Option<OpenFork>)
    ensures
        match taken {
            Some(taken) => {
                let at = place_opened(open_models(old(open)@), firing);
                &&& at < open_models(old(open)@).len()
                &&& taken@ == open_models(old(open)@)[at]
                &&& open_models(final(open)@) == open_models(old(open)@).remove(at)
            },
            None => {
                &&& place_opened(open_models(old(open)@), firing) == open_models(old(open)@).len()
                &&& open_models(final(open)@) == open_models(old(open)@)
            },
        },
{
    let mut i: usize = 0;
    while i < open.len() && open[i].occurrence.firing.0 != firing.0
        invariant
            i <= open.len(),
            forall|j: int| 0 <= j < i ==> (#[trigger] open@[j]).occurrence.firing.0 != firing.0,
        decreases open.len() - i,
    {
        i = i + 1;
    }
    let ghost before = open_models(open@);
    proof {
        assert forall|j: int| 0 <= j < i implies (#[trigger] before[j]).occurrence.firing
            != firing by {
            assert(before[j] == open@[j]@);
        }
        if i < open@.len() {
            assert(before[i as int] == open@[i as int]@);
        }
        lemma_place_opened(before, firing, i as int);
    }
    if i < open.len() {
        let taken = open.remove(i);
        assert(open_models(open@) =~= before.remove(i as int));
        Some(taken)
    } else {
        None
    }
}

// ── Branch results ─────────────────────────────────────────────────────

proof fn lemma_placed_result(results: Seq<BranchResult>, result: BranchResult, i: int)
    requires
        0 <= i <= results.len(),
        forall|j: int| i <= j < results.len() ==> (#[trigger] results[j]).branch.index
            > result.branch.index,
        i > 0 ==> results[i - 1].branch.index <= result.branch.index,
    ensures
        placed_result(results, result) == results.insert(i, result),
    decreases results.len(),
{
    if i == results.len() {
        assert(placed_result(results, result) =~= results.insert(i, result));
    } else {
        let rest = results.drop_last();
        assert(results.last() == results[results.len() - 1]);
        lemma_placed_result(rest, result, i);
        assert(rest.insert(i, result).push(results.last()) =~= results.insert(i, result));
    }
}

proof fn lemma_placed_branch(branches: Seq<BranchRef>, branch: BranchRef, i: int)
    requires
        0 <= i <= branches.len(),
        forall|j: int| i <= j < branches.len() ==> (#[trigger] branches[j]).index > branch.index,
        i > 0 ==> branches[i - 1].index <= branch.index,
    ensures
        placed_branch(branches, branch) == branches.insert(i, branch),
    decreases branches.len(),
{
    if i == branches.len() {
        assert(placed_branch(branches, branch) =~= branches.insert(i, branch));
    } else {
        let rest = branches.drop_last();
        assert(branches.last() == branches[branches.len() - 1]);
        lemma_placed_branch(rest, branch, i);
        assert(rest.insert(i, branch).push(branches.last()) =~= branches.insert(i, branch));
    }
}

fn place_result(results: &mut Vec<BranchResult>, result: BranchResult)
    ensures
        final(results)@ == placed_result(old(results)@, result),
{
    let index = result.branch.index;
    let mut i: usize = results.len();
    while i > 0 && results[i - 1].branch.index > index
        invariant
            i <= results.len(),
            index == result.branch.index,
            forall|j: int| i <= j < results@.len() ==> (#[trigger] results@[j]).branch.index
                > index,
        decreases i,
    {
        i = i - 1;
    }
    proof {
        lemma_placed_result(results@, result, i as int);
    }
    results.insert(i, result);
}

fn place_branch(branches: &mut Vec<BranchRef>, branch: BranchRef)
    ensures
        final(branches)@ == placed_branch(old(branches)@, branch),
{
    let mut i: usize = branches.len();
    while i > 0 && branches[i - 1].index > branch.index
        invariant
            i <= branches.len(),
            forall|j: int| i <= j < branches@.len() ==> (#[trigger] branches@[j]).index
                > branch.index,
        decreases i,
    {
        i = i - 1;
    }
    proof {
        lemma_placed_branch(branches@, branch, i as int);
    }
    branches.insert(i, branch);
}

fn result_of_token(map: &BranchMap, state: &EngineState, fork: NodeId, token: &Token) -> (result:
    Option<BranchResult>)
    ensures
        result == token_result(map@, *state, fork, *token),
{
    let entry = match state.record(token.from) {
        Some(entry) => entry,
        None => return None,
    };
    let node = match state.graph.node(entry.node) {
        Some(node) => node,
        None => return None,
    };
    let branch = match map.role(entry.node) {
        BranchRole::Member(branch) => if branch.fork == fork {
            branch
        } else {
            return None;
        },
        BranchRole::Fork { branches: _ } => if entry.node == fork {
            BranchRef { fork, index: 0 }
        } else {
            return None;
        },
        _ => return None,
    };
    Some(
        BranchResult {
            branch,
            node: node_ref(node),
            firing: token.from,
            status: entry.outcome.status.clone(),
            payload: token.payload.clone(),
        },
    )
}

/// The branch results a join's inputs carry, in branch order.
fn results_of_inputs(map: &BranchMap, state: &EngineState, fork: NodeId, inputs: &Vec<Token>) -> (
results: Vec<BranchResult>)
    ensures
        results@ == branch_results(map@, *state, fork, inputs@),
{
    let mut results: Vec<BranchResult> = Vec::new();
    let mut i: usize = 0;
    while i < inputs.len()
        invariant
            i <= inputs.len(),
            results@ == branch_results(map@, *state, fork, inputs@.take(i as int)),
        decreases inputs.len() - i,
    {
        assert(inputs@.take(i + 1).drop_last() =~= inputs@.take(i as int));
        match result_of_token(map, state, fork, &inputs[i]) {
            Some(result) => place_result(&mut results, result),
            None => {},
        }
        i = i + 1;
    }
    assert(inputs@.take(i as int) =~= inputs@);
    results
}

fn holds_index(results: &Vec<BranchResult>, index: u32) -> (held: bool)
    ensures
        held == has_index(results@, index),
{
    let mut i: usize = 0;
    while i < results.len()
        invariant
            i <= results.len(),
            forall|j: int| 0 <= j < i ==> (#[trigger] results@[j]).branch.index != index,
        decreases results.len() - i,
    {
        if results[i].branch.index == index {
            return true;
        }
        i = i + 1;
    }
    false
}

fn holds_branch(branches: &Vec<BranchRef>, branch: BranchRef) -> (held: bool)
    ensures
        held == branches@.contains(branch),
{
    let mut i: usize = 0;
    while i < branches.len()
        invariant
            i <= branches.len(),
            forall|j: int| 0 <= j < i ==> (#[trigger] branches@[j]) != branch,
        decreases branches.len() - i,
    {
        if branches[i] == branch {
            assert(branches@[i as int] == branch);
            return true;
        }
        i = i + 1;
    }
    false
}

fn result_of_member(
    map: &BranchMap,
    state: &EngineState,
    open: &OpenFork,
    entry: &HistoryEntry,
    results: &Vec<BranchResult>,
) -> (result: Option<BranchResult>)
    ensures
        result == member_result(map@, *state, open@, *entry, results@),
{
    if entry.generation != open.occurrence.generation {
        return None;
    }
    match map.role(entry.node) {
        BranchRole::Member(branch) => {
            if !holds_branch(&open.branches, branch) || holds_index(results, branch.index) {
                return None;
            }
            match state.graph.node(entry.node) {
                Some(node) => Some(
                    BranchResult {
                        branch,
                        node: node_ref(node),
                        firing: entry.firing,
                        status: entry.outcome.status.clone(),
                        payload: Json::Null,
                    },
                ),
                None => None,
            }
        },
        _ => None,
    }
}

/// The branches' final records for a fork that was cancelled or killed.
fn results_of_members(map: &BranchMap, state: &EngineState, open: &OpenFork) -> (results: Vec<
    BranchResult,
>)
    ensures
        results@ == member_results(map@, *state, open@),
{
    let mut results: Vec<BranchResult> = Vec::new();
    let mut i: usize = state.history.len();
    assert(state.history@.take(i as int) =~= state.history@);
    while i > 0
        invariant
            i <= state.history.len(),
            members_before(map@, *state, open@, state.history@.take(i as int), results@)
                == member_results(map@, *state, open@),
        decreases i,
    {
        i = i - 1;
        assert(state.history@.take(i + 1).drop_last() =~= state.history@.take(i as int));
        assert(state.history@.take(i + 1).last() == state.history@[i as int]);
        match result_of_member(map, state, open, &state.history[i], &results) {
            Some(result) => place_result(&mut results, result),
            None => {},
        }
    }
    results
}

/// The occurrence of `fork` in `generation` from the fork's own record.
fn recover_occurrence(
    map: &BranchMap,
    state: &EngineState,
    execution: ExecutionId,
    fork: NodeId,
    generation: Option<Generation>,
) -> (found: Option<ForkOccurrence>)
    ensures
        found == recovered_occurrence(map@, *state, execution, fork, generation),
{
    let entry = match generation {
        Some(generation) => state.node_record(fork, generation),
        None => state.last_of(fork),
    };
    match entry {
        Some(entry) => match subject_of_firing(map, state, entry.firing) {
            Some(about) => occurrence(execution, &about),
            None => None,
        },
        None => None,
    }
}

/// Emit `branch.completed` per result, then `fork.completed` on `about`.
fn close_fork(
    map: &BranchMap,
    state: &EngineState,
    about: &Subject,
    occurrence: ForkOccurrence,
    results: Vec<BranchResult>,
    disposition: ForkDisposition,
    views: &mut Vec<(Option<Subject>, ViewEvent)>,
)
    ensures
        view_models(final(views)@) == view_models(old(views)@) + closing(
            map@,
            *state,
            *about,
            occurrence,
            results@,
            disposition,
        ),
{
    let ghost before = view_models(views@);
    let mut i: usize = 0;
    assert(before + Seq::empty() =~= before);
    while i < results.len()
        invariant
            i <= results.len(),
            view_models(views@) == before + branches_completed(
                map@,
                *state,
                occurrence,
                results@.take(i as int),
            ),
        decreases results.len() - i,
    {
        assert(results@.take(i + 1).drop_last() =~= results@.take(i as int));
        let branch = subject_of_firing(map, state, results[i].firing);
        push_view(
            views,
            branch,
            ViewEvent::BranchCompleted { occurrence, result: results[i].clone() },
        );
        i = i + 1;
        assert(view_models(views@) =~= before + branches_completed(
            map@,
            *state,
            occurrence,
            results@.take(i as int),
        ));
    }
    assert(results@.take(i as int) =~= results@);
    match target(state, occurrence.fork) {
        Some(fork) => {
            push_view(
                views,
                Some(about.clone()),
                ViewEvent::ForkCompleted { occurrence, fork, results, disposition },
            );
        },
        None => {},
    }
    assert(view_models(views@) =~= before + closing(
        map@,
        *state,
        *about,
        occurrence,
        results@,
        disposition,
    ));
}

// ── One execution ──────────────────────────────────────────────────────

impl ExecutionTrack {
    fn new(blank: Arc<BranchMap>) -> (track: ExecutionTrack)
        ensures
            track@ == fresh_track(blank@),
    {
        let track = ExecutionTrack {
            invocation: None,
            parent: None,
            firings: IdSet::new(),
            started: IdSet::new(),
            asking: IdSet::new(),
            history: 0,
            branches: blank,
            announced: IdSet::new(),
            open: Vec::new(),
        };
        assert(open_models(track.open@) =~= Seq::<OpenModel>::empty());
        track
    }

    /// Use the state's branch map once the graph outgrew the old one.
    fn refresh_branches(&mut self, state: &EngineState)
        ensures
            final(self)@ == refreshed(old(self)@, *state),
    {
        if !self.branches.covers(&state.graph) {
            self.branches = share(&state.branches);
        }
    }

    fn context(&self, execution: ExecutionId) -> (context: Context)
        ensures
            context == (Context {
                invocation: self@.invocation,
                execution: Some(execution),
                parent: self@.parent,
            }),
    {
        Context {
            invocation: self.invocation,
            execution: Some(execution),
            parent: copy_link(&self.parent),
        }
    }

    /// Announce the fork `firing` opened, once.
    fn announce_fork(
        &mut self,
        execution: ExecutionId,
        state: &EngineState,
        firing: FiringId,
        branches: Vec<BranchRef>,
        views: &mut Vec<(Option<Subject>, ViewEvent)>,
    )
        ensures
            final(self)@ == announce(old(self)@, execution, *state, firing, branches@).0,
            view_models(final(views)@) == view_models(old(views)@) + announce(
                old(self)@,
                execution,
                *state,
                firing,
                branches@,
            ).1,
    {
        let ghost before = view_models(views@);
        assert(before + Seq::empty() =~= before);
        if !self.announced.insert(firing.0) {
            assert(old(self)@.announced.insert(firing.0) =~= old(self)@.announced);
            return;
        }
        let about = match subject_of_firing(&self.branches, state, firing) {
            Some(about) => about,
            None => return,
        };
        let occurrence = match occurrence(execution, &about) {
            Some(occurrence) => occurrence,
            None => return,
        };
        let mut listed: Vec<BranchRef> = Vec::new();
        let mut i: usize = 0;
        while i < branches.len()
            invariant
                i <= branches.len(),
                listed@ == branches@.take(i as int),
            decreases branches.len() - i,
        {
            listed.push(branches[i]);
            i = i + 1;
            assert(listed@ =~= branches@.take(i as int));
        }
        assert(listed@ =~= branches@);
        insert_open(&mut self.open, OpenFork { occurrence, branches: listed });
        push_view(views, Some(about), ViewEvent::ForkStarted { occurrence, branches });
        assert(view_models(views@) =~= before + announce(
            old(self)@,
            execution,
            *state,
            firing,
            branches@,
        ).1);
    }
}

/// What a record derives on its own, before it is given ids.
struct Drawn {
    subject: Option<Subject>,
    derived: Option<Derived>,
    views: Vec<(Option<Subject>, ViewEvent)>,
}

impl Drawn {
    /// The derivation, with the track it leaves.
    spec fn step(&self, track: TrackModel) -> Step {
        Step {
            track,
            subject: self.subject,
            derived: derived_model(self.derived),
            views: view_models(self.views@),
        }
    }
}

fn plain(subject: Option<Subject>, derived: Option<Derived>) -> (drawn: Drawn)
    ensures
        forall|track: TrackModel| #[trigger]
            drawn.step(track) == bare(track, subject, derived_model(derived)),
{
    let drawn = Drawn { subject, derived, views: Vec::new() };
    assert(view_models(drawn.views@) =~= Seq::empty());
    drawn
}

fn one_wait(about: &Option<Subject>, state: WaitState) -> (views: Vec<
    (Option<Subject>, ViewEvent),
>)
    ensures
        view_models(views@) == seq![waiting(*about, state)],
{
    let mut views: Vec<(Option<Subject>, ViewEvent)> = Vec::new();
    push_view(&mut views, copy_subject(about), ViewEvent::WaitStateChanged { state });
    assert(view_models(views@) =~= seq![waiting(*about, state)]);
    views
}

fn no_views() -> (views: Vec<(Option<Subject>, ViewEvent)>)
    ensures
        view_models(views@) == Seq::<(Option<Subject>, ViewModel)>::empty(),
{
    let views: Vec<(Option<Subject>, ViewEvent)> = Vec::new();
    assert(view_models(views@) =~= Seq::<(Option<Subject>, ViewModel)>::empty());
    views
}

/// How an event names a clone's entry.
fn clone_ref(clone: &SpliceClone) -> (reference: CloneRef)
    ensures
        reference@ == clone_shown(*clone),
{
    let entry = match find_node(&clone.nodes, clone.entry) {
        Some(node) => node_ref(node),
        None => NodeRef {
            id: clone.entry,
            name: String::new(),
            kind: String::new(),
            meta: Json::Null,
        },
    };
    CloneRef { index: clone.index, entry }
}

/// The branches an expansion opens.
fn branches_of_clones(fork: NodeId, clones: &Vec<SpliceClone>) -> (branches: Vec<BranchRef>)
    ensures
        branches@ == clone_branches(fork, clones@),
{
    let mut branches: Vec<BranchRef> = Vec::new();
    let mut i: usize = 0;
    while i < clones.len()
        invariant
            i <= clones.len(),
            branches@ == clone_branches(fork, clones@.take(i as int)),
        decreases clones.len() - i,
    {
        assert(clones@.take(i + 1).drop_last() =~= clones@.take(i as int));
        if !clones[i].placeholder {
            place_branch(&mut branches, BranchRef { fork, index: clones[i].index });
        }
        i = i + 1;
    }
    assert(clones@.take(i as int) =~= clones@);
    branches
}

/// The branches of a fork, in order.
fn branches_of_fork(fork: NodeId, count: u32) -> (branches: Vec<BranchRef>)
    ensures
        branches@ == branches_of(fork, count),
{
    let mut branches: Vec<BranchRef> = Vec::new();
    let mut index: u32 = 0;
    while index < count
        invariant
            index <= count,
            branches@ == branches_of(fork, index),
        decreases count - index,
    {
        branches.push(BranchRef { fork, index });
        index = index + 1;
        assert(branches@ =~= branches_of(fork, index));
    }
    assert(branches@ =~= branches_of(fork, count));
    branches
}

impl ExecutionTrack {
    /// The attempt was dispatched: the firing runs.
    fn on_step_started(&mut self, state: &EngineState, firing: FiringId) -> (drawn: Drawn)
        ensures
            drawn.step(final(self)@) == step_started(old(self)@, *state, firing),
    {
        let _ = self.started.insert(firing.0);
        let subject = subject_of_firing(&self.branches, state, firing);
        let views = one_wait(&subject, WaitState::Running);
        Drawn { subject, derived: None, views }
    }

    /// A progress payload: a question puts the firing on hold, and the
    /// step's own expiry of it lifts the hold.
    fn on_step_progress(&mut self, state: &EngineState, firing: FiringId, parsed: Option<Parsed>) -> (
    drawn: Drawn)
        ensures
            drawn.step(final(self)@) == step_progress(old(self)@, *state, firing, parsed),
    {
        let subject = subject_of_firing(&self.branches, state, firing);
        let views = match &parsed {
            Some(Parsed::Question { question: _ }) => {
                let _ = self.asking.insert(firing.0);
                one_wait(&subject, WaitState::AwaitingAnswer)
            },
            Some(Parsed::QuestionExpired { expired: _ }) => {
                // The step ended its own wait: the question is no longer
                // out, as after an answer.
                if self.asking.remove(firing.0) {
                    one_wait(&subject, WaitState::Running)
                } else {
                    no_views()
                }
            },
            _ => no_views(),
        };
        let derived = match parsed {
            Some(parsed) => Some(Derived::Parsed { parsed }),
            None => None,
        };
        Drawn { subject, derived, views }
    }

    /// An attempt returned: final, or followed by a retry.
    fn on_step_finished(
        &mut self,
        state: &EngineState,
        firing: FiringId,
        attempt: Attempt,
        retry: RetryReading,
    ) -> (drawn: Drawn)
        ensures
            drawn.step(final(self)@) == step_finished(old(self)@, *state, firing, attempt, retry),
    {
        let is_final = state.is_final(firing, attempt);
        let has_node = match state.firing_node(firing) {
            Some(node) => match state.graph.node(node) {
                Some(_) => true,
                None => false,
            },
            None => false,
        };
        let exhausted = has_node && retry.retryable && !retry.another_attempt;
        let _ = self.asking.remove(firing.0);
        let subject = subject_of_firing(&self.branches, state, firing);
        let mut views: Vec<(Option<Subject>, ViewEvent)> = no_views();
        if !is_final && has_node {
            push_view(
                &mut views,
                copy_subject(&subject),
                ViewEvent::RetryScheduled {
                    next_attempt: retry.next_attempt,
                    base_delay_ms: retry.base_delay_ms,
                },
            );
            push_view(
                &mut views,
                copy_subject(&subject),
                ViewEvent::WaitStateChanged { state: WaitState::AwaitingRetry },
            );
        }
        assert(view_models(views@) =~= step_finished(
            old(self)@,
            *state,
            firing,
            attempt,
            retry,
        ).views);
        Drawn { subject, derived: Some(Derived::StepFinished { is_final, exhausted }), views }
    }

    /// A route applied: the first edge of a fork's routing announces the
    /// fork.
    fn on_route_applied(
        &mut self,
        execution: ExecutionId,
        state: &EngineState,
        applied: &RouteApplied,
    ) -> (drawn: Drawn)
        ensures
            drawn.step(final(self)@) == route_applied(old(self)@, execution, *state, *applied),
    {
        let firing = applied.firing();
        let subject = subject_of_firing(&self.branches, state, firing);
        let derived = target_of_route(state, applied);
        let mut views: Vec<(Option<Subject>, ViewEvent)> = no_views();
        match (&subject, *applied) {
            (Some(about), RouteApplied::Edge { firing: _, edge: _, group: _ }) => match about.branch {
                BranchRole::Fork { branches } => {
                    let listed = branches_of_fork(about.node.id, branches);
                    self.announce_fork(execution, state, firing, listed, &mut views);
                },
                _ => {},
            },
            _ => {},
        }
        assert(view_models(views@) =~= route_applied(
            old(self)@,
            execution,
            *state,
            *applied,
        ).views);
        Drawn { subject, derived, views }
    }

    /// A template expanded: the node that fanned out into it announces its
    /// clones once.
    fn on_node_expanded(
        &mut self,
        execution: ExecutionId,
        state: &EngineState,
        node: NodeId,
        splice: &SubgraphSplice,
    ) -> (drawn: Drawn)
        ensures
            final(self)@ == expansion_announced(old(self)@, execution, *state, node, *splice).0,
            view_models(drawn.views@) == expansion_announced(
                old(self)@,
                execution,
                *state,
                node,
                *splice,
            ).1,
            drawn.subject == node_subject(old(self)@.branches, *state, node),
            derived_model(drawn.derived) == Some(
                DerivedModel::NodeExpanded {
                    clones: splice.clones@.map_values(|clone: SpliceClone| clone_shown(clone)),
                },
            ),
    {
        let subject = subject_of_node(&self.branches, state, node);
        let mut clones: Vec<CloneRef> = Vec::new();
        let mut i: usize = 0;
        while i < splice.clones.len()
            invariant
                i <= splice.clones.len(),
                clones@.len() == i,
                forall|j: int|
                    0 <= j < i ==> (#[trigger] clones@[j])@ == clone_shown(splice.clones@[j]),
            decreases splice.clones.len() - i,
        {
            clones.push(clone_ref(&splice.clones[i]));
            i = i + 1;
        }
        assert(clones@.map_values(|clone: CloneRef| clone@) =~= splice.clones@.map_values(
            |clone: SpliceClone| clone_shown(clone),
        ));
        let mut views: Vec<(Option<Subject>, ViewEvent)> = no_views();
        match self.branches.expansion_fork(node) {
            Some(fork) => match state.node_record(fork, splice.generation) {
                Some(entry) => {
                    let branches = branches_of_clones(fork, &splice.clones);
                    self.announce_fork(execution, state, entry.firing, branches, &mut views);
                },
                None => {},
            },
            None => {},
        }
        assert(view_models(views@) =~= expansion_announced(
            old(self)@,
            execution,
            *state,
            node,
            *splice,
        ).1);
        Drawn { subject, derived: Some(Derived::NodeExpanded { clones }), views }
    }

    /// A control reached the firing: an answer to its question lifts the
    /// hold.
    fn on_control_requested(
        &mut self,
        state: &EngineState,
        firing: FiringId,
        ctl: &Control,
        answer: &Option<Arc<Answer>>,
    ) -> (drawn: Drawn)
        ensures
            drawn.step(final(self)@) == control_requested(
                old(self)@,
                *state,
                firing,
                *ctl,
                *answer,
            ),
    {
        let reaches = match state.firing(firing) {
            Some(live) => !live.cancelling && !live.awaiting_retry && !state.is_awaiting_admission(
                firing,
            ),
            None => false,
        };
        let answer = match ctl {
            Control::Deliver(_) => share_option(answer),
            _ => None,
        };
        let subject = subject_of_firing(&self.branches, state, firing);
        let answered = answer.is_some() && reaches && self.asking.remove(firing.0);
        let views = if answered {
            one_wait(&subject, WaitState::Running)
        } else {
            no_views()
        };
        Drawn {
            subject,
            derived: Some(Derived::ControlRequested { deliverable: reaches, answer }),
            views,
        }
    }

    /// The record's own derivation: its subject and what it derived, with
    /// the view events its apply produced.
    fn derive(
        &mut self,
        execution: ExecutionId,
        event: &Event,
        state: &EngineState,
        readings: &Readings,
    ) -> (drawn: Drawn)
        ensures
            derives(old(self)@, execution, *event, *state, *readings, drawn.step(final(self)@)),
    {
        match event {
            // A scope is not a node: its records carry their scope and have
            // no subject.
            Event::ExecutionStarted { start: _ } => plain(None, None),
            Event::KillRequested { scope: _ } => plain(None, None),
            Event::ScopeAcquired { scope: _, detail: _ } => plain(None, None),
            Event::ScopeFailed { scope: _, detail: _ } => plain(None, None),
            Event::CancelRequested { target } => match *target {
                CancelTarget::Scope(_) => plain(None, None),
                CancelTarget::Group(node) => plain(
                    subject_of_node(&self.branches, state, node),
                    None,
                ),
            },
            Event::TokenEmitted { token } => plain(
                subject_of_firing(&self.branches, state, token.from),
                None,
            ),
            Event::StepStarted { firing, attempt: _ } => self.on_step_started(state, *firing),
            Event::StepProgressRecorded { firing, ev } => {
                let parsed = parse_progress(ev, &readings.steps);
                self.on_step_progress(state, *firing, parsed)
            },
            Event::StepFinished { firing, attempt, outcome: _ } => self.on_step_finished(
                state,
                *firing,
                *attempt,
                readings.retry,
            ),
            Event::AdmissionDecided { decision_id, decision: _, trace: _ } => match *decision_id {
                DecisionId::AttemptStart { firing, attempt: _ } => plain(
                    subject_of_firing(&self.branches, state, firing),
                    None,
                ),
                _ => plain(None, None),
            },
            Event::RoutingResolved { decision_id, groups } => match *decision_id {
                DecisionId::Route { firing, attempt: _ } => {
                    let mut targets: Vec<GroupTarget> = Vec::new();
                    let mut i: usize = 0;
                    while i < groups.len()
                        invariant
                            i <= groups.len(),
                            targets@.len() == i,
                            forall|j: int|
                                0 <= j < i ==> #[trigger] targets@[j] == group_target(
                                    *state,
                                    groups@[j],
                                ),
                        decreases groups.len() - i,
                    {
                        targets.push(target_of_group(state, &groups[i]));
                        i = i + 1;
                    }
                    assert(targets@ =~= groups@.map_values(
                        |group: GroupDecision| group_target(*state, group),
                    ));
                    plain(
                        subject_of_firing(&self.branches, state, firing),
                        Some(Derived::RoutingResolved { groups: targets }),
                    )
                },
                _ => plain(None, None),
            },
            Event::RouteApplied { applied } => self.on_route_applied(execution, state, applied),
            Event::RetryElapsed { firing, next_attempt: _ } => plain(
                subject_of_firing(&self.branches, state, *firing),
                None,
            ),
            Event::NodeExpanded { node, splice } => self.on_node_expanded(
                execution,
                state,
                *node,
                splice,
            ),
            Event::ControlRequested { firing, ctl } => self.on_control_requested(
                state,
                *firing,
                ctl,
                &readings.answer,
            ),
        }
    }
}

impl ExecutionTrack {
    /// A live firing seen: a new one is a visit start, and a join's first
    /// sight closes the fork it joins.
    fn see_visit(
        &mut self,
        execution: ExecutionId,
        state: &EngineState,
        at: usize,
        views: &mut Vec<(Option<Subject>, ViewEvent)>,
    )
        requires
            at < state.live@.len(),
        ensures
            final(self)@ == visit_seen(old(self)@, execution, *state, state.live@[at as int]).0,
            view_models(final(views)@) == view_models(old(views)@) + visit_seen(
                old(self)@,
                execution,
                *state,
                state.live@[at as int],
            ).1,
    {
        let ghost before = view_models(views@);
        let firing = state.live[at].id;
        assert(before + Seq::empty() =~= before);
        if !self.firings.insert(firing.0) {
            assert(old(self)@.firings.insert(firing.0) =~= old(self)@.firings);
            return;
        }
        proof {
            lemma_live_found(*state, at as int);
        }
        let inputs = match state.firing(firing) {
            Some(live) => share(&live.inputs),
            None => share(&state.live[at].inputs),
        };
        let about = subject_of_firing(&self.branches, state, firing);
        match &about {
            Some(join) => match join.branch {
                BranchRole::Join { fork } => {
                    // The join fired: every branch is in, and its inputs are
                    // the branches' final tokens.
                    let results = results_of_inputs(&self.branches, state, fork, &inputs);
                    let occurrence = match take_covering(&mut self.open, fork, join.generation) {
                        Some(open) => Some(open.occurrence),
                        None => recover_occurrence(
                            &self.branches,
                            state,
                            execution,
                            fork,
                            join.generation,
                        ),
                    };
                    match occurrence {
                        Some(occurrence) => close_fork(
                            &self.branches,
                            state,
                            join,
                            occurrence,
                            results,
                            ForkDisposition::Joined,
                            views,
                        ),
                        None => {},
                    }
                },
                _ => {},
            },
            None => {},
        }
        push_view(views, copy_subject(&about), ViewEvent::VisitStarted { inputs });
        push_view(
            views,
            about,
            ViewEvent::WaitStateChanged { state: WaitState::AwaitingAdmission },
        );
        assert(view_models(views@) =~= before + visit_seen(
            old(self)@,
            execution,
            *state,
            state.live@[at as int],
        ).1);
    }

    /// Visits that started: every firing seen for the first time.
    fn start_new_visits(
        &mut self,
        execution: ExecutionId,
        state: &EngineState,
        views: &mut Vec<(Option<Subject>, ViewEvent)>,
    )
        ensures
            final(self)@ == visits_seen(old(self)@, execution, *state, state.live@).0,
            view_models(final(views)@) == view_models(old(views)@) + visits_seen(
                old(self)@,
                execution,
                *state,
                state.live@,
            ).1,
    {
        let ghost start = self@;
        let ghost before = view_models(views@);
        let mut i: usize = 0;
        assert(before + Seq::empty() =~= before);
        while i < state.live.len()
            invariant
                i <= state.live.len(),
                self@ == visits_seen(start, execution, *state, state.live@.take(i as int)).0,
                view_models(views@) == before + visits_seen(
                    start,
                    execution,
                    *state,
                    state.live@.take(i as int),
                ).1,
            decreases state.live.len() - i,
        {
            assert(state.live@.take(i + 1).drop_last() =~= state.live@.take(i as int));
            self.see_visit(execution, state, i, views);
            i = i + 1;
            assert(view_models(views@) =~= before + visits_seen(
                start,
                execution,
                *state,
                state.live@.take(i as int),
            ).1);
        }
        assert(state.live@.take(i as int) =~= state.live@);
    }

    /// Firings a cancel or a kill told to stop.
    fn mark_cancelling(
        &self,
        event: &Event,
        state: &EngineState,
        views: &mut Vec<(Option<Subject>, ViewEvent)>,
    )
        ensures
            view_models(final(views)@) == view_models(old(views)@) + marked_cancelling(
                self@.branches,
                *event,
                *state,
            ),
    {
        let ghost before = view_models(views@);
        assert(before + Seq::empty() =~= before);
        let told = match event {
            Event::CancelRequested { target: _ } => true,
            Event::KillRequested { scope: _ } => true,
            _ => false,
        };
        if !told {
            return;
        }
        let mut i: usize = 0;
        while i < state.live.len()
            invariant
                i <= state.live.len(),
                view_models(views@) == before + cancelling(
                    self.branches@,
                    *state,
                    state.live@.take(i as int),
                ),
            decreases state.live.len() - i,
        {
            assert(state.live@.take(i + 1).drop_last() =~= state.live@.take(i as int));
            if state.live[i].cancelling {
                let about = subject_of_firing(&self.branches, state, state.live[i].id);
                push_view(
                    views,
                    about,
                    ViewEvent::WaitStateChanged { state: WaitState::Cancelling },
                );
            }
            i = i + 1;
            assert(view_models(views@) =~= before + cancelling(
                self.branches@,
                *state,
                state.live@.take(i as int),
            ));
        }
        assert(state.live@.take(i as int) =~= state.live@);
    }

    /// A final record read: the visit completed.
    fn complete_visit(
        &mut self,
        state: &EngineState,
        entry: &HistoryEntry,
        views: &mut Vec<(Option<Subject>, ViewEvent)>,
    )
        ensures
            final(self)@ == visit_completed(old(self)@, *state, *entry).0,
            view_models(final(views)@) == view_models(old(views)@) + visit_completed(
                old(self)@,
                *state,
                *entry,
            ).1,
    {
        let ghost before = view_models(views@);
        let executed = self.started.contains(entry.firing.0);
        let attempts = entry.attempt.0;
        let about = match state.graph.node(entry.node) {
            Some(node) => Some(
                subject(
                    &self.branches,
                    state,
                    node,
                    Some((entry.firing, entry.attempt, entry.generation)),
                ),
            ),
            None => None,
        };
        match &about {
            Some(join) => match join.branch {
                BranchRole::Join { fork } => {
                    if !self.firings.contains(entry.firing.0) {
                        match take_covering(&mut self.open, fork, Some(entry.generation)) {
                            Some(open) => {
                                let results = results_of_members(&self.branches, state, &open);
                                let disposition = if entry.outcome.status.cancelled {
                                    ForkDisposition::Cancelled
                                } else {
                                    ForkDisposition::Joined
                                };
                                close_fork(
                                    &self.branches,
                                    state,
                                    join,
                                    open.occurrence,
                                    results,
                                    disposition,
                                    views,
                                );
                            },
                            None => {},
                        }
                    }
                },
                _ => {},
            },
            None => {},
        }
        push_view(
            views,
            about,
            ViewEvent::VisitCompleted { outcome: share(&entry.outcome), executed, attempts },
        );
        assert(view_models(views@) =~= before + visit_completed(
            old(self)@,
            *state,
            *entry,
        ).1);
    }

    /// Visits that completed: the history entries past the ones read.
    fn complete_visits(
        &mut self,
        state: &EngineState,
        views: &mut Vec<(Option<Subject>, ViewEvent)>,
    )
        ensures
            final(self)@ == completions(old(self)@, *state).0,
            view_models(final(views)@) == view_models(old(views)@) + completions(
                old(self)@,
                *state,
            ).1,
    {
        let ghost start = self@;
        let ghost before = view_models(views@);
        assert(before + Seq::empty() =~= before);
        let from = self.history;
        let to = state.history.len();
        if to <= from {
            return;
        }
        let ghost entries = state.history@.subrange(from as int, to as int);
        let mut i: usize = from;
        assert(entries.take(0) =~= Seq::empty());
        while i < to
            invariant
                from <= i <= to,
                to == state.history@.len(),
                entries == state.history@.subrange(from as int, to as int),
                self@ == visits_completed(start, *state, entries.take(i - from)).0,
                view_models(views@) == before + visits_completed(
                    start,
                    *state,
                    entries.take(i - from),
                ).1,
            decreases to - i,
        {
            assert(entries.take(i + 1 - from).drop_last() =~= entries.take(i - from));
            assert(entries.take(i + 1 - from).last() == state.history@[i as int]);
            self.complete_visit(state, &state.history[i], views);
            i = i + 1;
            assert(view_models(views@) =~= before + visits_completed(
                start,
                *state,
                entries.take(i - from),
            ).1);
        }
        assert(entries.take(i - from) =~= entries);
        self.history = to;
    }

    /// Whether an open fork was killed and has no branch left running.
    fn dead(&self, state: &EngineState, open: &OpenFork) -> (dead: bool)
        ensures
            dead == is_dead(self@.branches, *state, open@),
    {
        if !state.is_node_killed(open.occurrence.fork) {
            return false;
        }
        let mut i: usize = 0;
        while i < state.live.len()
            invariant
                i <= state.live.len(),
                forall|j: int|
                    0 <= j < i ==> !on_branch(self.branches@, open@, #[trigger] state.live@[j]),
            decreases state.live.len() - i,
        {
            let live = &state.live[i];
            if live.generation == open.occurrence.generation {
                match self.branches.role(live.node) {
                    BranchRole::Member(branch) => {
                        if branch.fork == open.occurrence.fork {
                            assert(on_branch(self.branches@, open@, state.live@[i as int]));
                            return false;
                        }
                    },
                    _ => {},
                }
            }
            i = i + 1;
        }
        true
    }

    /// Close a killed fork from the branches' final records.
    fn close_killed(
        &mut self,
        state: &EngineState,
        firing: FiringId,
        views: &mut Vec<(Option<Subject>, ViewEvent)>,
    )
        ensures
            final(self)@ == killed_closed(old(self)@, *state, firing).0,
            view_models(final(views)@) == view_models(old(views)@) + killed_closed(
                old(self)@,
                *state,
                firing,
            ).1,
    {
        let ghost before = view_models(views@);
        assert(before + Seq::empty() =~= before);
        match take_opened(&mut self.open, firing) {
            Some(open) => {
                let about = match subject_of_firing(&self.branches, state, firing) {
                    Some(about) => about,
                    None => return,
                };
                let results = results_of_members(&self.branches, state, &open);
                close_fork(
                    &self.branches,
                    state,
                    &about,
                    open.occurrence,
                    results,
                    ForkDisposition::Killed,
                    views,
                );
            },
            None => {},
        }
    }

    /// A killed fork's join never fires: its tokens were dropped. Once no
    /// branch of the fork has a live firing left, the fork is closed.
    fn close_killed_forks(
        &mut self,
        state: &EngineState,
        views: &mut Vec<(Option<Subject>, ViewEvent)>,
    )
        ensures
            ({
                let dead = all_killed_closed(
                    old(self)@,
                    *state,
                    dead_firings(old(self)@.branches, *state, old(self)@.open),
                );
                &&& final(self)@ == dead.0
                &&& view_models(final(views)@) == view_models(old(views)@) + dead.1
            }),
    {
        let ghost start = self@;
        let ghost before = view_models(views@);
        assert(before + Seq::empty() =~= before);
        let mut killed: Vec<FiringId> = Vec::new();
        let mut i: usize = 0;
        while i < self.open.len()
            invariant
                i <= self.open.len(),
                self@ == start,
                killed@ == dead_firings(start.branches, *state, start.open.take(i as int)),
            decreases self.open.len() - i,
        {
            assert(start.open.take(i + 1).drop_last() =~= start.open.take(i as int));
            assert(start.open.take(i + 1).last() == self.open@[i as int]@);
            if self.dead(state, &self.open[i]) {
                killed.push(self.open[i].occurrence.firing);
            }
            i = i + 1;
        }
        assert(start.open.take(i as int) =~= start.open);
        let mut k: usize = 0;
        while k < killed.len()
            invariant
                k <= killed.len(),
                self@ == all_killed_closed(start, *state, killed@.take(k as int)).0,
                view_models(views@) == before + all_killed_closed(
                    start,
                    *state,
                    killed@.take(k as int),
                ).1,
            decreases killed.len() - k,
        {
            assert(killed@.take(k + 1).drop_last() =~= killed@.take(k as int));
            self.close_killed(state, killed[k], views);
            k = k + 1;
            assert(view_models(views@) =~= before + all_killed_closed(
                start,
                *state,
                killed@.take(k as int),
            ).1);
        }
        assert(killed@.take(k as int) =~= killed@);
    }
}

/// A firing among the live ones is found among them.
proof fn lemma_live_found(state: EngineState, at: int)
    requires
        0 <= at < state.live@.len(),
    ensures
        state.spec_firing(state.live@[at].id) is Some,
{
    lemma_some_live(state.live@, state.live@[at].id, at);
}

proof fn lemma_some_live(live: Seq<LiveFiring>, id: FiringId, at: int)
    requires
        0 <= at < live.len(),
        live[at].id == id,
    ensures
        first_where(live, |firing: LiveFiring| firing.id == id) is Some,
    decreases live.len(),
{
    if live[0].id != id {
        assert(live.drop_first()[at - 1] == live[at]);
        lemma_some_live(live.drop_first(), id, at - 1);
    }
}

// ── The run ────────────────────────────────────────────────────────────

/// Give the derivation of one record its ids.
fn events_of(
    source: EventSource,
    seq: u64,
    origin: RecordOrigin,
    context: Context,
    recorded_at: u64,
    record: Record,
    drawn: Drawn,
) -> (events: Vec<RunEvent>)
    ensures
        event_models(events@) == enveloped(
            EnvelopeModel { source, seq, origin, context, recorded_at },
            drawn.subject,
            record,
            derived_model(drawn.derived),
            view_models(drawn.views@),
        ),
{
    let Drawn { subject, derived, mut views } = drawn;
    let ghost all = views@;
    let ghost expected = enveloped(
        EnvelopeModel { source, seq, origin, context, recorded_at },
        subject,
        record,
        derived_model(derived),
        view_models(all),
    );
    let mut events: Vec<RunEvent> = Vec::new();
    events.push(
        RunEvent {
            id: EventId { source, seq, index: 0 },
            origin,
            context: context.clone(),
            subject,
            observed_at: None,
            recorded_at,
            record: Some(record),
            derived,
        },
    );
    let count = views.len();
    let mut next: usize = 0;
    assert(event_models(events@) =~= expected.take(1));
    while next < count
        invariant
            next <= count,
            count == all.len(),
            views@ == all.skip(next as int),
            expected == enveloped(
                EnvelopeModel { source, seq, origin, context, recorded_at },
                subject,
                record,
                derived_model(derived),
                view_models(all),
            ),
            event_models(events@) == expected.take(next + 1),
        decreases count - next,
    {
        let (about, view) = views.remove(0);
        assert(all.skip(next as int)[0] == all[next as int]);
        assert(views@ =~= all.skip(next + 1));
        next = next + 1;
        let index: u32 = if next <= 0xffff_ffff {
            next as u32
        } else {
            0xffff_ffff
        };
        let ghost shown = (about, view);
        let ghost prior = events@;
        events.push(
            RunEvent {
                id: EventId { source, seq, index },
                origin: RecordOrigin::Derived,
                context: context.clone(),
                subject: about,
                observed_at: None,
                recorded_at,
                record: None,
                derived: Some(Derived::View(view)),
            },
        );
        proof {
            assert(view_models(all)[next - 1] == (shown.0, shown.1@));
            assert(events@.last().model() == expected[next as int]);
            assert(event_models(events@) =~= event_models(prior).push(events@.last().model()));
            assert(expected.take(next + 1) =~= expected.take(next as int).push(
                expected[next as int],
            ));
        }
    }
    assert(expected.take(next + 1) =~= expected);
    events
}

/// The stateless-by-record derivation, with the little state it needs across
/// records. One per run; fed both logs. The fold is pure: it reads records
/// and the state after them, does no I/O, and hands back owned events.
#[derive(Debug)]
pub struct Projection {
    executions: Table<ExecutionTrack>,
    invocations: Table<Option<ParentLink>>,
    blank: Arc<BranchMap>,
}

impl View for Projection {
    type V = ProjectionModel;

    closed spec fn view(&self) -> ProjectionModel {
        ProjectionModel {
            executions: self.executions@.map_values(|track: ExecutionTrack| track@),
            invocations: self.invocations@,
            blank: self.blank@,
        }
    }
}

impl Projection {
    /// A projection nothing was fed to.
    pub fn new() -> (projection: Projection)
        ensures
            projection@ == blank_run(),
    {
        let projection = Projection {
            executions: Table::new(),
            invocations: Table::new(),
            blank: Arc::new(BranchMap { covered: 0, roles: Vec::new(), expansions: Vec::new() }),
        };
        assert(projection@.executions =~= Map::<u64, TrackModel>::empty());
        assert(projection@.blank.roles =~= Seq::<(NodeId, BranchRole)>::empty());
        assert(projection@.blank.expansions =~= Seq::<(NodeId, NodeId)>::empty());
        projection
    }

    /// Take an execution's track out: a fresh one when there is none.
    fn take_track(&mut self, execution: ExecutionId) -> (track: ExecutionTrack)
        ensures
            track@ == track_of(old(self)@, execution),
            final(self)@ == (ProjectionModel {
                executions: old(self)@.executions.remove(execution.0),
                ..old(self)@
            }),
    {
        let taken = self.executions.remove(execution.0);
        assert(self@.executions =~= old(self)@.executions.remove(execution.0));
        match taken {
            Some(track) => track,
            None => ExecutionTrack::new(share(&self.blank)),
        }
    }

    /// Put an execution's track back.
    fn put_track(&mut self, execution: ExecutionId, track: ExecutionTrack)
        ensures
            final(self)@ == (ProjectionModel {
                executions: old(self)@.executions.insert(execution.0, track@),
                ..old(self)@
            }),
    {
        self.executions.insert(execution.0, track);
        assert(self@.executions =~= old(self)@.executions.insert(execution.0, track@));
    }

    fn parent(&self, invocation: InvocationId) -> (parent: Option<ParentLink>)
        ensures
            parent == parent_of(self@, invocation),
    {
        match self.invocations.get(invocation.0) {
            Some(link) => copy_link(link),
            None => None,
        }
    }

    /// Derive the events of one engine record, given its recording time
    /// (when the record reached its log), the state after it and what the
    /// step protocols say of it: the record's own event, then the view
    /// events attached to it.
    pub fn engine(
        &mut self,
        execution: ExecutionId,
        record: &EventRecord,
        recorded_at: u64,
        state: &EngineState,
        readings: &Readings,
    ) -> (events: Vec<RunEvent>)
        ensures
            engine_derives(
                old(self)@,
                execution,
                *record,
                recorded_at,
                *state,
                *readings,
                final(self)@,
                event_models(events@),
            ),
    {
        let mut track = self.take_track(execution);
        track.refresh_branches(state);
        let mut drawn = track.derive(execution, &record.event, state, readings);
        let ghost step = drawn.step(track@);
        let ghost own = view_models(drawn.views@);
        // State-derived facts every record may carry. The order is the order
        // of the view events.
        track.start_new_visits(execution, state, &mut drawn.views);
        track.mark_cancelling(&record.event, state, &mut drawn.views);
        track.complete_visits(state, &mut drawn.views);
        track.close_killed_forks(state, &mut drawn.views);
        proof {
            assert(track@ == aftermath(step.track, execution, *record.event, *state).0);
            assert(view_models(drawn.views@) =~= own + aftermath(
                step.track,
                execution,
                *record.event,
                *state,
            ).1);
        }
        let context = track.context(execution);
        let ghost told = track@;
        self.put_track(execution, track);
        assert(self@.executions =~= old(self)@.executions.insert(execution.0, told));
        let events = events_of(
            EventSource::Execution { execution },
            record.seq,
            RecordOrigin::of(record.origin),
            context,
            recorded_at,
            Record::Engine(StoredEngineRecord::new(record, recorded_at)),
            drawn,
        );
        assert(derives(
            refreshed(track_of(old(self)@, execution), *state),
            execution,
            *record.event,
            *state,
            *readings,
            step,
        ));
        events
    }

    /// Derive the events of one coordinator record: the record's own event,
    /// then any view event attached to it.
    pub fn lifecycle(&mut self, record: &CoordinatorRecord) -> (events: Vec<RunEvent>)
        ensures
            final(self)@ == after_lifecycle(old(self)@, *record.body),
            event_models(events@) == lifecycle_events(old(self)@, *record),
    {
        let mut views: Vec<(Option<Subject>, ViewEvent)> = no_views();
        let mut derived: Option<Derived> = None;
        let (invocation, execution): (Option<InvocationId>, Option<ExecutionId>) =
            match &*record.body {
            CoordinatorEvent::RunStarted { root, .. } => (Some(*root), None),
            CoordinatorEvent::GraphRegistered { digest: _ } => (None, None),
            CoordinatorEvent::RunPaused => (None, None),
            CoordinatorEvent::RunUnpaused => (None, None),
            CoordinatorEvent::RunFinished { status: _ } => (None, None),
            CoordinatorEvent::InvocationDeclared { invocation, call, .. } => {
                let link = match call {
                    Some(call) => Some(ParentLink::of(call)),
                    None => None,
                };
                self.invocations.insert(invocation.0, link);
                (Some(*invocation), None)
            },
            CoordinatorEvent::ExecutionDeclared { execution, invocation, .. } => {
                let parent = self.parent(*invocation);
                let mut track = self.take_track(*execution);
                track.invocation = Some(*invocation);
                track.parent = parent;
                let ghost told = track@;
                self.put_track(*execution, track);
                assert(self@.executions =~= old(self)@.executions.insert(execution.0, told));
                (Some(*invocation), Some(*execution))
            },
            CoordinatorEvent::ExecutionFinished { execution, .. } => {
                let invocation = match self.executions.get(execution.0) {
                    Some(track) => track.invocation,
                    None => None,
                };
                (invocation, Some(*execution))
            },
            CoordinatorEvent::InvocationFinished { invocation, result } => (
                Some(*invocation),
                Some(result.final_execution),
            ),
            // The lease's owner; the execution that acquired it is the
            // `scope.acquired` record's.
            CoordinatorEvent::ScopeReleased { invocation, .. } => (Some(*invocation), None),
            CoordinatorEvent::InvocationCancelRequested { invocation, reason } => {
                match *reason {
                    Some(CancelReason::StallTimeout { stall_timeout_ms, idle_ms }) => push_view(
                        &mut views,
                        None,
                        ViewEvent::RunStalled { stall_timeout_ms, idle_ms },
                    ),
                    _ => {},
                }
                (Some(*invocation), None)
            },
            // A run-level note reads the way a firing's note does, with no
            // subject, since no firing owns it.
            CoordinatorEvent::RunNoteRecorded { execution, kind, payload } => {
                let note = Note { kind: kind.clone(), payload: payload.clone() };
                derived = Some(Derived::Parsed { parsed: note_parsed(note) });
                (None, *execution)
            },
        };
        assert(self@ == after_lifecycle(old(self)@, *record.body));
        assert((invocation, execution) == lifecycle_place(old(self)@, *record.body));
        let parent = match invocation {
            Some(invocation) => self.parent(invocation),
            None => None,
        };
        let context = Context { invocation, execution, parent };
        assert(view_models(views@) =~= lifecycle_views(*record.body));
        assert(derived_model(derived) == lifecycle_derived(*record.body));
        events_of(
            EventSource::Coordinator,
            record.seq,
            RecordOrigin::of(record.origin),
            context,
            record.recorded_at,
            Record::Coordinator(record.clone()),
            Drawn { subject: None, derived, views },
        )
    }
}

} // verus!

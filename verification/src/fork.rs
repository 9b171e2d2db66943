//! Fork: seed a new run from a stored run's records up to a position.
//!
//! The position's execution keeps a prefix of its engine log, cut after the
//! position firing's routing (or, when the firing runs again, before its
//! first record); every other kept execution's log is copied whole; the
//! fork's coordinator log is written fresh from the source's records for the
//! kept part of the invocation tree, under a run declaration that names the
//! source and the position; nothing of the source's sandbox leases is
//! carried over.

use crate::event::{
    lifecycle_of, CoordinatorEvent, CoordinatorRecord, ForkOrigin, ForkPosition, COORDINATOR_FORMAT_VERSION,
};
use crate::id_set::IdSet;
use crate::ids::{ExecutionId, FiringId, GraphDigest, InvocationId};
use crate::json::share;
use crate::record::{event_of, DecisionId, Event, EventOrigin, EventRecord};
use crate::run_state::{CoordinatorState, InvocationState, StateError};
use std::sync::Arc;
use vstd::prelude::*;

verus! {

/// How a fork treats the position's firing.
#[derive(Clone, Copy, Debug, PartialEq, Eq, Structural)]
pub struct ForkOptions {
    /// Run the position's firing again instead of keeping its finish: the
    /// engine log is cut before the firing's first record.
    pub rerun_last: bool,
}

/// Why a position cannot be forked.
#[allow(inconsistent_fields)]
#[derive(Clone, Copy, Debug, PartialEq, Eq, Structural)]
pub enum ForkError {
    /// The source run has no such execution.
    UnknownExecution(ExecutionId),
    /// The execution belongs to an invocation that is not the root.
    PositionInChild { execution: ExecutionId, invocation: InvocationId },
    /// The execution records no routing for the firing.
    UnroutedFiring { execution: ExecutionId, firing: FiringId },
    /// The source's coordinator log does not replay.
    State(StateError),
}

// ── The cut ────────────────────────────────────────────────────────────

/// Whether a record is one of a firing's own. A token the firing emitted is
/// not: it follows the firing's routing, never precedes its first record,
/// and a seed token names firing 0.
pub open spec fn is_own(event: Event, firing: FiringId) -> bool {
    match event {
        Event::StepStarted { firing: own, .. } => own == firing,
        Event::StepProgressRecorded { firing: own, .. } => own == firing,
        Event::StepFinished { firing: own, .. } => own == firing,
        Event::RetryElapsed { firing: own, .. } => own == firing,
        Event::ControlRequested { firing: own, .. } => own == firing,
        Event::AdmissionDecided { decision_id, .. } => decided_for(decision_id, firing),
        Event::RoutingResolved { decision_id, .. } => decided_for(decision_id, firing),
        Event::RouteApplied { applied } => applied.firing() == firing,
        _ => false,
    }
}

/// Whether a decision is about a firing.
pub open spec fn decided_for(decision: DecisionId, firing: FiringId) -> bool {
    match decision {
        DecisionId::AttemptStart { firing: own, .. } => own == firing,
        DecisionId::Route { firing: own, .. } => own == firing,
        DecisionId::ExecutionStart => false,
    }
}

fn decides(decision: &DecisionId, firing: FiringId) -> (about: bool)
    ensures
        about == decided_for(*decision, firing),
{
    match decision {
        DecisionId::AttemptStart { firing: own, attempt: _ } => *own == firing,
        DecisionId::Route { firing: own, attempt: _ } => *own == firing,
        DecisionId::ExecutionStart => false,
    }
}

/// Whether an engine record is one of `firing`'s own.
pub fn names_firing(event: &Event, firing: FiringId) -> (names: bool)
    ensures
        names == is_own(*event, firing),
{
    match event {
        Event::StepStarted { firing: own, attempt: _ } => *own == firing,
        Event::StepProgressRecorded { firing: own, ev: _ } => *own == firing,
        Event::StepFinished { firing: own, attempt: _, outcome: _ } => *own == firing,
        Event::RetryElapsed { firing: own, next_attempt: _ } => *own == firing,
        Event::ControlRequested { firing: own, ctl: _ } => *own == firing,
        Event::AdmissionDecided { decision_id, decision: _, trace: _ } => decides(
            decision_id,
            firing,
        ),
        Event::RoutingResolved { decision_id, groups: _ } => decides(decision_id, firing),
        Event::RouteApplied { applied } => applied.firing() == firing,
        _ => false,
    }
}

/// Whether a record is the host's routing decision for a firing.
pub open spec fn routes(record: EventRecord, firing: FiringId) -> bool {
    record.origin == EventOrigin::External && (match *record.event {
        Event::RoutingResolved { decision_id: DecisionId::Route { firing: own, .. }, .. } => own
            == firing,
        _ => false,
    })
}

fn is_routing(record: &EventRecord, firing: FiringId) -> (found: bool)
    ensures
        found == routes(*record, firing),
{
    if record.origin != EventOrigin::External {
        return false;
    }
    match &*record.event {
        Event::RoutingResolved { decision_id, groups: _ } => match decision_id {
            DecisionId::Route { firing: own, attempt: _ } => *own == firing,
            _ => false,
        },
        _ => false,
    }
}

/// The last routing of a firing in a log.
pub open spec fn last_routing(log: Seq<EventRecord>, firing: FiringId) -> Option<int>
    decreases log.len(),
{
    if log.len() == 0 {
        None
    } else if routes(log.last(), firing) {
        Some(log.len() - 1)
    } else {
        last_routing(log.drop_last(), firing)
    }
}

/// The first of a firing's own records from `from` on: the log's end when it
/// has none.
pub open spec fn first_own(log: Seq<EventRecord>, firing: FiringId, from: int) -> int
    decreases log.len() - from,
{
    if from < 0 || from >= log.len() || is_own(*log[from].event, firing) {
        from
    } else {
        first_own(log, firing, from + 1)
    }
}

/// The end of the core's records from `from` on.
pub open spec fn core_end(log: Seq<EventRecord>, from: int) -> int
    decreases log.len() - from,
{
    if from < 0 || from >= log.len() || log[from].origin != EventOrigin::Core {
        from
    } else {
        core_end(log, from + 1)
    }
}

/// Where the position execution's log is cut: after the core records the
/// position firing's routing produced, or before the firing's first record
/// when it runs again.
pub open spec fn cut_of(log: Seq<EventRecord>, position: ForkPosition, options: ForkOptions) -> Result<
    int,
    ForkError,
> {
    match last_routing(log, position.firing) {
        Some(routed) => if options.rerun_last {
            Ok(first_own(log, position.firing, 0))
        } else {
            Ok(core_end(log, routed + 1))
        },
        None => Err(
            ForkError::UnroutedFiring { execution: position.execution, firing: position.firing },
        ),
    }
}

proof fn lemma_last_routing(log: Seq<EventRecord>, firing: FiringId, at: int)
    requires
        0 <= at < log.len(),
        routes(log[at], firing),
        forall|j: int| at < j < log.len() ==> !routes(#[trigger] log[j], firing),
    ensures
        last_routing(log, firing) == Some(at),
    decreases log.len(),
{
    if at < log.len() - 1 {
        assert(!routes(log[log.len() - 1], firing));
        lemma_last_routing(log.drop_last(), firing, at);
    }
}

proof fn lemma_no_routing(log: Seq<EventRecord>, firing: FiringId)
    requires
        forall|j: int| 0 <= j < log.len() ==> !routes(#[trigger] log[j], firing),
    ensures
        last_routing(log, firing) is None,
    decreases log.len(),
{
    if log.len() > 0 {
        assert(!routes(log[log.len() - 1], firing));
        lemma_no_routing(log.drop_last(), firing);
    }
}

proof fn lemma_last_routing_is(log: Seq<EventRecord>, firing: FiringId)
    ensures
        last_routing(log, firing) matches Some(at) ==> 0 <= at < log.len() && routes(
            log[at],
            firing,
        ) && forall|j: int| at < j < log.len() ==> !routes(#[trigger] log[j], firing),
    decreases log.len(),
{
    if log.len() > 0 && !routes(log.last(), firing) {
        let rest = log.drop_last();
        lemma_last_routing_is(rest, firing);
        if let Some(at) = last_routing(log, firing) {
            assert forall|j: int| at < j < log.len() implies !routes(#[trigger] log[j], firing) by {
                if j < rest.len() {
                    assert(rest[j] == log[j]);
                }
            }
        }
    }
}

proof fn lemma_first_own(log: Seq<EventRecord>, firing: FiringId, from: int)
    requires
        0 <= from <= log.len(),
    ensures
        from <= first_own(log, firing, from) <= log.len(),
        forall|j: int|
            from <= j < first_own(log, firing, from) ==> !is_own(
                *(#[trigger] log[j]).event,
                firing,
            ),
        first_own(log, firing, from) < log.len() ==> is_own(
            *log[first_own(log, firing, from)].event,
            firing,
        ),
    decreases log.len() - from,
{
    if from < log.len() && !is_own(event_of(log[from]), firing) {
        lemma_first_own(log, firing, from + 1);
    }
}

proof fn lemma_core_end(log: Seq<EventRecord>, from: int)
    requires
        0 <= from <= log.len(),
    ensures
        from <= core_end(log, from) <= log.len(),
        forall|j: int|
            from <= j < core_end(log, from) ==> (#[trigger] log[j]).origin == EventOrigin::Core,
        core_end(log, from) < log.len() ==> log[core_end(log, from)].origin
            != EventOrigin::Core,
    decreases log.len() - from,
{
    if from < log.len() && log[from].origin == EventOrigin::Core {
        lemma_core_end(log, from + 1);
    }
}

/// Where a fork's log is cut. A kept firing's last routing is kept with every
/// core record its apply produced, and nothing after them: the record after
/// the cut, if there is one, is one the host fed. A firing that runs again
/// has none of its own records kept, and the cut drops no record before its
/// first.
pub proof fn law_cut(log: Seq<EventRecord>, position: ForkPosition, options: ForkOptions)
    requires
        cut_of(log, position, options) is Ok,
    ensures
        ({
            let cut = cut_of(log, position, options)->Ok_0;
            let firing = position.firing;
            &&& 0 <= cut <= log.len()
            &&& options.rerun_last ==> {
                &&& cut < log.len()
                &&& is_own(*log[cut].event, firing)
                &&& forall|j: int| 0 <= j < cut ==> !is_own(*(#[trigger] log[j]).event, firing)
            }
            &&& !options.rerun_last ==> {
                let routed = last_routing(log, firing)->0;
                &&& 0 <= routed < cut
                &&& routes(log[routed], firing)
                &&& forall|j: int| routed < j < cut ==> (#[trigger] log[j]).origin == EventOrigin::Core
                &&& cut < log.len() ==> log[cut].origin != EventOrigin::Core
            }
        }),
{
    lemma_last_routing_is(log, position.firing);
    let routed = last_routing(log, position.firing)->0;
    lemma_first_own(log, position.firing, 0);
    lemma_core_end(log, routed + 1);
    if options.rerun_last {
        let cut = first_own(log, position.firing, 0);
        if cut == log.len() {
            assert(!is_own(*log[routed].event, position.firing));
        }
    }
}

/// Where the position execution's log is cut.
pub fn cut_index(log: &Vec<EventRecord>, position: ForkPosition, options: ForkOptions) -> (cut:
    Result<usize, ForkError>)
    ensures
        match (cut, cut_of(log@, position, options)) {
            (Ok(cut), Ok(at)) => cut == at && cut <= log@.len(),
            (Err(error), Err(other)) => error == other,
            _ => false,
        },
{
    let firing = position.firing;
    let mut after: usize = log.len();
    while after > 0 && !is_routing(&log[after - 1], firing)
        invariant
            after <= log.len(),
            forall|j: int| after <= j < log@.len() ==> !routes(#[trigger] log@[j], firing),
        decreases after,
    {
        after = after - 1;
    }
    if after == 0 {
        proof {
            lemma_no_routing(log@, firing);
        }
        return Err(ForkError::UnroutedFiring { execution: position.execution, firing });
    }
    proof {
        lemma_last_routing(log@, firing, after - 1);
    }
    if options.rerun_last {
        let mut cut: usize = 0;
        while cut < log.len() && !names_firing(&log[cut].event, firing)
            invariant
                cut <= log.len(),
                first_own(log@, firing, 0) == first_own(log@, firing, cut as int),
            decreases log.len() - cut,
        {
            cut = cut + 1;
        }
        return Ok(cut);
    }
    let mut cut: usize = after;
    while cut < log.len() && log[cut].origin == EventOrigin::Core
        invariant
            after <= cut <= log.len(),
            core_end(log@, after as int) == core_end(log@, cut as int),
        decreases log.len() - cut,
    {
        cut = cut + 1;
    }
    Ok(cut)
}

// ── The kept tree ──────────────────────────────────────────────────────

/// The invocations and executions a fork keeps.
#[verifier::ext_equal]
pub struct KeptModel {
    pub invocations: Set<u64>,
    pub executions: Set<u64>,
}

/// Executions put into a set.
pub open spec fn with_executions(set: Set<u64>, executions: Seq<ExecutionId>) -> Set<u64>
    decreases executions.len(),
{
    if executions.len() == 0 {
        set
    } else {
        with_executions(set, executions.drop_last()).insert(executions.last().0)
    }
}

/// Whether an invocation is kept: a finished child called from a kept
/// execution by a kept finish.
pub open spec fn keeps_invocation(
    state: CoordinatorState,
    kept: KeptModel,
    invocation: InvocationState,
    position: ExecutionId,
    finished: Set<u64>,
) -> bool {
    match invocation.declaration.call {
        Some(call) => match state.spec_execution(call.parent) {
            Some(parent) => {
                &&& invocation.result is Some
                &&& kept.invocations.contains(parent.declaration.invocation.0)
                &&& kept.executions.contains(call.parent.0)
                &&& call.parent != position || finished.contains(call.firing.0)
            },
            None => false,
        },
        None => false,
    }
}

/// What a fork keeps of the invocations read so far. A child's id is above
/// its parent invocation's, so one pass in id order sees each parent before
/// its children.
pub open spec fn kept_among(
    state: CoordinatorState,
    start: KeptModel,
    invocations: Seq<InvocationState>,
    position: ExecutionId,
    finished: Set<u64>,
) -> KeptModel
    decreases invocations.len(),
{
    if invocations.len() == 0 {
        start
    } else {
        let kept = kept_among(state, start, invocations.drop_last(), position, finished);
        let last = invocations.last();
        if keeps_invocation(state, kept, last, position, finished) {
            KeptModel {
                invocations: kept.invocations.insert(last.declaration.id.0),
                executions: with_executions(kept.executions, last.executions@),
            }
        } else {
            kept
        }
    }
}

/// The place of an execution in a chain.
pub open spec fn place_in(chain: Seq<ExecutionId>, execution: ExecutionId, from: int) -> Option<int>
    decreases chain.len() - from,
{
    if from < 0 || from >= chain.len() {
        None
    } else if chain[from] == execution {
        Some(from)
    } else {
        place_in(chain, execution, from + 1)
    }
}

/// The kept tree: the root up to the position's execution, and what is kept
/// below it.
pub open spec fn kept_tree(
    state: CoordinatorState,
    root: InvocationState,
    end: int,
    position: ExecutionId,
    finished: Set<u64>,
) -> KeptModel {
    kept_among(
        state,
        KeptModel {
            invocations: Set::empty().insert(InvocationId::root().0),
            executions: with_executions(Set::empty(), root.executions@.take(end + 1)),
        },
        state.invocations@,
        position,
        finished,
    )
}

/// Whether a source coordinator record belongs in the fork's log. The
/// position's execution is the one the fork continues, so its end is not
/// kept; the fork writes its own declaration, and the source's controls,
/// run-level notes, sandbox releases and end describe the source.
pub open spec fn keeps_record(event: CoordinatorEvent, kept: KeptModel, position: ExecutionId) -> bool {
    match event {
        CoordinatorEvent::GraphRegistered { .. } => true,
        CoordinatorEvent::InvocationDeclared { invocation, .. } => kept.invocations.contains(
            invocation.0,
        ),
        CoordinatorEvent::ExecutionDeclared { execution, .. } => kept.executions.contains(
            execution.0,
        ),
        CoordinatorEvent::ExecutionFinished { execution, .. } => kept.executions.contains(
            execution.0,
        ) && execution != position,
        CoordinatorEvent::InvocationFinished { invocation, .. } => kept.invocations.contains(
            invocation.0,
        ) && invocation != InvocationId::root(),
        CoordinatorEvent::InvocationCancelRequested { invocation, .. } => kept.invocations.contains(
            invocation.0,
        ) && invocation != InvocationId::root(),
        _ => false,
    }
}

/// The source's records the fork keeps, in order.
pub open spec fn kept_records(
    records: Seq<CoordinatorRecord>,
    kept: KeptModel,
    position: ExecutionId,
) -> Seq<CoordinatorRecord>
    decreases records.len(),
{
    if records.len() == 0 {
        Seq::empty()
    } else {
        let before = kept_records(records.drop_last(), kept, position);
        if keeps_record(*records.last().body, kept, position) {
            before.push(records.last())
        } else {
            before
        }
    }
}

/// Whether a source coordinator record belongs in the fork's log.
pub fn keeps(
    event: &CoordinatorEvent,
    invocations: &IdSet,
    executions: &IdSet,
    position: ExecutionId,
) -> (kept: bool)
    ensures
        kept == keeps_record(
            *event,
            KeptModel { invocations: invocations@, executions: executions@ },
            position,
        ),
{
    match event {
        CoordinatorEvent::GraphRegistered { digest: _ } => true,
        CoordinatorEvent::InvocationDeclared { invocation, .. } => invocations.contains(
            invocation.0,
        ),
        CoordinatorEvent::ExecutionDeclared { execution, .. } => executions.contains(execution.0),
        CoordinatorEvent::ExecutionFinished { execution, exit: _ } => executions.contains(
            execution.0,
        ) && *execution != position,
        CoordinatorEvent::InvocationFinished { invocation, result: _ } => invocations.contains(
            invocation.0,
        ) && *invocation != InvocationId::root(),
        CoordinatorEvent::InvocationCancelRequested { invocation, reason: _ } =>
        invocations.contains(invocation.0) && *invocation != InvocationId::root(),
        _ => false,
    }
}

fn put_executions(set: &mut IdSet, executions: &Vec<ExecutionId>, count: usize)
    requires
        count <= executions@.len(),
    ensures
        final(set)@ == with_executions(old(set)@, executions@.take(count as int)),
{
    let ghost before = set@;
    let mut i: usize = 0;
    assert(executions@.take(0) =~= Seq::empty());
    while i < count
        invariant
            i <= count,
            count <= executions@.len(),
            set@ == with_executions(before, executions@.take(i as int)),
        decreases count - i,
    {
        set.insert(executions[i].0);
        assert(executions@.take(i + 1).drop_last() =~= executions@.take(i as int));
        i = i + 1;
    }
}

fn is_kept(
    state: &CoordinatorState,
    invocations: &IdSet,
    executions: &IdSet,
    invocation: &InvocationState,
    position: ExecutionId,
    finished: &IdSet,
) -> (kept: bool)
    ensures
        kept == keeps_invocation(
            *state,
            KeptModel { invocations: invocations@, executions: executions@ },
            *invocation,
            position,
            finished@,
        ),
{
    match &invocation.declaration.call {
        Some(call) => match state.execution(call.parent) {
            Some(parent) => {
                invocation.result.is_some() && invocations.contains(
                    parent.declaration.invocation.0,
                ) && executions.contains(call.parent.0) && (call.parent != position
                    || finished.contains(call.firing.0))
            },
            None => false,
        },
        None => false,
    }
}

/// Everything the fork copies, decided before the new run is created.
#[derive(Debug)]
pub struct ForkPlan {
    pub origin: ForkOrigin,
    pub middleware_chain: Arc<Vec<String>>,
    pub root_graph: GraphDigest,
    /// The source's coordinator records the fork keeps, in order, without
    /// the source's own declaration.
    pub records: Vec<CoordinatorRecord>,
    /// Every kept invocation and execution.
    pub invocations: IdSet,
    pub executions: IdSet,
    /// How many of the position execution's stored records are kept.
    pub cut: usize,
}

/// The source run's key, from its declaration.
pub open spec fn key_of(records: Seq<CoordinatorRecord>) -> Option<String> {
    if records.len() == 0 {
        None
    } else {
        match *records[0].body {
            CoordinatorEvent::RunStarted { key, .. } => Some(key),
            _ => None,
        }
    }
}

/// Why a position cannot be forked, before its log is cut.
pub open spec fn position_refused(
    records: Seq<CoordinatorRecord>,
    state: CoordinatorState,
    position: ForkPosition,
) -> Option<ForkError> {
    if key_of(records) is None {
        Some(ForkError::State(StateError::MissingRunStart))
    } else {
        match state.spec_execution(position.execution) {
            None => Some(ForkError::UnknownExecution(position.execution)),
            Some(execution) => if execution.declaration.invocation != InvocationId::root() {
                Some(
                    ForkError::PositionInChild {
                        execution: position.execution,
                        invocation: execution.declaration.invocation,
                    },
                )
            } else if state.spec_invocation(InvocationId::root()) is None {
                Some(
                    ForkError::State(StateError::UnknownInvocation(InvocationId::root())),
                )
            } else {
                None
            },
        }
    }
}

/// Why a position cannot be forked.
pub open spec fn fork_refused(
    records: Seq<CoordinatorRecord>,
    state: CoordinatorState,
    log: Seq<EventRecord>,
    position: ForkPosition,
    options: ForkOptions,
) -> Option<ForkError> {
    match position_refused(records, state, position) {
        Some(error) => Some(error),
        None => match cut_of(log, position, options) {
            Err(error) => Some(error),
            Ok(_) => {
                let root = state.spec_invocation(InvocationId::root())->0;
                if place_in(root.executions@, position.execution, 0) is None {
                    Some(ForkError::State(StateError::UnknownExecution(position.execution)))
                } else {
                    None
                }
            },
        },
    }
}

/// Whether a plan is the fork of a run at a position.
pub open spec fn plans(
    records: Seq<CoordinatorRecord>,
    state: CoordinatorState,
    log: Seq<EventRecord>,
    finished: Set<u64>,
    position: ForkPosition,
    options: ForkOptions,
    plan: ForkPlan,
) -> bool {
    let root = state.spec_invocation(InvocationId::root())->0;
    let end = place_in(root.executions@, position.execution, 0)->0;
    let kept = kept_tree(state, root, end, position.execution, finished);
    &&& plan.origin == (ForkOrigin {
        source: key_of(records)->0,
        position,
        rerun_last: options.rerun_last,
    })
    &&& plan.middleware_chain == state.middleware_chain
    &&& plan.root_graph == root.declaration.graph
    &&& plan.records@ == kept_records(records, kept, position.execution)
    &&& plan.invocations@ == kept.invocations
    &&& plan.executions@ == kept.executions
    &&& cut_of(log, position, options) == Ok::<int, ForkError>(plan.cut as int)
}

/// Plan a fork: what is kept of the invocation tree, of the coordinator log
/// and of the position execution's log. `finished` is the firings whose
/// finish the position execution's log records up to the cut.
pub fn plan_fork(
    records: &Vec<CoordinatorRecord>,
    state: &CoordinatorState,
    log: &Vec<EventRecord>,
    finished: &IdSet,
    position: ForkPosition,
    options: ForkOptions,
) -> (plan: Result<ForkPlan, ForkError>)
    ensures
        match plan {
            Ok(plan) => fork_refused(records@, *state, log@, position, options) is None && plans(
                records@,
                *state,
                log@,
                finished@,
                position,
                options,
                plan,
            ) && plan.cut <= log@.len(),
            Err(error) => fork_refused(records@, *state, log@, position, options) == Some(error),
        },
{
    let source = if records.len() == 0 {
        return Err(ForkError::State(StateError::MissingRunStart));
    } else {
        match &*records[0].body {
            CoordinatorEvent::RunStarted { key, .. } => key.clone(),
            _ => return Err(ForkError::State(StateError::MissingRunStart)),
        }
    };
    match state.execution(position.execution) {
        None => return Err(ForkError::UnknownExecution(position.execution)),
        Some(execution) => {
            if execution.declaration.invocation != InvocationId::root() {
                return Err(
                    ForkError::PositionInChild {
                        execution: position.execution,
                        invocation: execution.declaration.invocation,
                    },
                );
            }
        },
    }
    let root = match state.invocation(InvocationId::root()) {
        Some(root) => root,
        None => return Err(
            ForkError::State(StateError::UnknownInvocation(InvocationId::root())),
        ),
    };
    let cut = match cut_index(log, position, options) {
        Ok(cut) => cut,
        Err(error) => return Err(error),
    };
    let mut end: usize = 0;
    while end < root.executions.len() && root.executions[end] != position.execution
        invariant
            end <= root.executions.len(),
            place_in(root.executions@, position.execution, 0) == place_in(
                root.executions@,
                position.execution,
                end as int,
            ),
        decreases root.executions.len() - end,
    {
        end = end + 1;
    }
    if end == root.executions.len() {
        return Err(ForkError::State(StateError::UnknownExecution(position.execution)));
    }
    let mut invocations = IdSet::new();
    invocations.insert(InvocationId::root().0);
    let mut executions = IdSet::new();
    put_executions(&mut executions, &root.executions, end + 1);
    let ghost start = KeptModel { invocations: invocations@, executions: executions@ };
    let mut i: usize = 0;
    assert(state.invocations@.take(0) =~= Seq::empty());
    while i < state.invocations.len()
        invariant
            i <= state.invocations.len(),
            kept_among(
                *state,
                start,
                state.invocations@.take(i as int),
                position.execution,
                finished@,
            ) == (KeptModel { invocations: invocations@, executions: executions@ }),
        decreases state.invocations.len() - i,
    {
        let invocation = &state.invocations[i];
        proof {
            assert(state.invocations@.take(i + 1).drop_last() =~= state.invocations@.take(i as int));
            assert(state.invocations@.take(i + 1).last() == *invocation);
        }
        if is_kept(state, &invocations, &executions, invocation, position.execution, finished) {
            invocations.insert(invocation.declaration.id.0);
            put_executions(&mut executions, &invocation.executions, invocation.executions.len());
            assert(invocation.executions@.take(invocation.executions@.len() as int)
                =~= invocation.executions@);
        }
        i = i + 1;
    }
    assert(state.invocations@.take(i as int) =~= state.invocations@);
    let ghost kept = KeptModel { invocations: invocations@, executions: executions@ };
    let mut kept_log: Vec<CoordinatorRecord> = Vec::new();
    let mut k: usize = 0;
    assert(records@.take(0) =~= Seq::empty());
    while k < records.len()
        invariant
            k <= records.len(),
            kept == (KeptModel { invocations: invocations@, executions: executions@ }),
            kept_log@ == kept_records(records@.take(k as int), kept, position.execution),
        decreases records.len() - k,
    {
        proof {
            assert(records@.take(k + 1).drop_last() =~= records@.take(k as int));
            assert(records@.take(k + 1).last() == records@[k as int]);
        }
        if keeps(&records[k].body, &invocations, &executions, position.execution) {
            kept_log.push(records[k].clone());
        }
        k = k + 1;
    }
    assert(records@.take(k as int) =~= records@);
    Ok(
        ForkPlan {
            origin: ForkOrigin { source, position, rerun_last: options.rerun_last },
            middleware_chain: share(&state.middleware_chain),
            root_graph: root.declaration.graph,
            records: kept_log,
            invocations,
            executions,
            cut,
        },
    )
}

// ── The fork's own log ─────────────────────────────────────────────────

/// A seeded fork: the new run, not yet resumed.
#[derive(Debug)]
pub struct ForkedRun {
    /// The new run's key.
    pub key: String,
    /// The source and position, as recorded on the new run's declaration.
    pub origin: ForkOrigin,
    /// The root graph's digest, the same as the source's.
    pub graph: GraphDigest,
}

/// The fork's declaration.
pub open spec fn fork_started(plan: ForkPlan, key: String) -> CoordinatorEvent {
    CoordinatorEvent::RunStarted {
        format_version: COORDINATOR_FORMAT_VERSION,
        key,
        root: InvocationId::root(),
        middleware_chain: plan.middleware_chain,
        forked_from: Some(plan.origin),
    }
}

/// The fork's coordinator log: its own declaration, then the kept records
/// under new seqs, with their origins and recording times.
pub open spec fn fork_log(plan: ForkPlan, key: String, now: u64) -> Seq<CoordinatorRecord> {
    Seq::new(
        plan.records@.len() + 1,
        |i: int|
            if i == 0 {
                CoordinatorRecord {
                    seq: 0,
                    origin: EventOrigin::External,
                    recorded_at: now,
                    body: Arc::new(fork_started(plan, key)),
                }
            } else {
                CoordinatorRecord { seq: i as u64, ..plan.records@[i - 1] }
            },
    )
}

/// The coordinator log of the planned fork, declared at `now`.
pub fn write_fork(plan: &ForkPlan, key: &String, now: u64) -> (records: Vec<CoordinatorRecord>)
    ensures
        records@ == fork_log(*plan, *key, now),
{
    let mut records: Vec<CoordinatorRecord> = Vec::new();
    records.push(
        CoordinatorRecord::external(
            0,
            now,
            CoordinatorEvent::RunStarted {
                format_version: COORDINATOR_FORMAT_VERSION,
                key: key.clone(),
                root: InvocationId::root(),
                middleware_chain: share(&plan.middleware_chain),
                forked_from: Some(plan.origin.clone()),
            },
        ),
    );
    let mut i: usize = 0;
    while i < plan.records.len()
        invariant
            i <= plan.records.len(),
            records@.len() == i + 1,
            forall|j: int| 0 <= j <= i ==> #[trigger] records@[j] == fork_log(*plan, *key, now)[j],
        decreases plan.records.len() - i,
    {
        let record = &plan.records[i];
        records.push(
            CoordinatorRecord {
                seq: i as u64 + 1,
                origin: record.origin,
                recorded_at: record.recorded_at,
                body: share(&record.body),
            },
        );
        i = i + 1;
    }
    assert(records@ =~= fork_log(*plan, *key, now));
    records
}

/// The graphs a fork's log registers, in order: each is copied before the
/// log is written, so no registration names a missing one.
pub open spec fn registered(records: Seq<CoordinatorRecord>) -> Seq<GraphDigest>
    decreases records.len(),
{
    if records.len() == 0 {
        Seq::empty()
    } else {
        let before = registered(records.drop_last());
        match *records.last().body {
            CoordinatorEvent::GraphRegistered { digest } => before.push(digest),
            _ => before,
        }
    }
}

/// The graphs a fork's log registers, in order.
pub fn graphs_to_copy(records: &Vec<CoordinatorRecord>) -> (graphs: Vec<GraphDigest>)
    ensures
        graphs@ == registered(records@),
{
    let mut graphs: Vec<GraphDigest> = Vec::new();
    let mut i: usize = 0;
    assert(records@.take(0) =~= Seq::empty());
    while i < records.len()
        invariant
            i <= records.len(),
            graphs@ == registered(records@.take(i as int)),
        decreases records.len() - i,
    {
        proof {
            assert(records@.take(i + 1).drop_last() =~= records@.take(i as int));
            assert(records@.take(i + 1).last() == records@[i as int]);
        }
        match &*records[i].body {
            CoordinatorEvent::GraphRegistered { digest } => graphs.push(*digest),
            _ => {},
        }
        i = i + 1;
    }
    assert(records@.take(i as int) =~= records@);
    graphs
}

/// How much of an execution's stored log the fork copies: all of it, but of
/// the position's execution the records up to the cut.
pub fn copied_records(plan: &ForkPlan, execution: ExecutionId, stored: usize) -> (count: usize)
    ensures
        count == (if execution != plan.origin.position.execution || plan.cut > stored {
            stored
        } else {
            plan.cut
        }),
{
    if execution != plan.origin.position.execution || plan.cut > stored {
        stored
    } else {
        plan.cut
    }
}

// ── Laws ───────────────────────────────────────────────────────────────

/// The fork's log is contiguous from its own declaration, which names the
/// source and the position; every other record is one the source held, under
/// a new seq.
pub proof fn law_fork_log_is_contiguous(plan: ForkPlan, key: String, now: u64, i: int)
    requires
        0 <= i <= plan.records@.len(),
        plan.records@.len() < u64::MAX,
    ensures
        fork_log(plan, key, now).len() == plan.records@.len() + 1,
        fork_log(plan, key, now)[i].seq == i,
        i > 0 ==> fork_log(plan, key, now)[i].body == plan.records@[i - 1].body && fork_log(
            plan,
            key,
            now,
        )[i].recorded_at == plan.records@[i - 1].recorded_at && fork_log(plan, key, now)[i].origin
            == plan.records@[i - 1].origin,
        fork_log(plan, key, now)[0].body == Arc::new(fork_started(plan, key)),
{
}

proof fn lemma_with_executions(set: Set<u64>, executions: Seq<ExecutionId>)
    ensures
        set.subset_of(with_executions(set, executions)),
    decreases executions.len(),
{
    if executions.len() > 0 {
        lemma_with_executions(set, executions.drop_last());
    }
}

/// A kept child has its caller kept: every kept invocation but those kept
/// from the start is a finished call from a kept execution of a kept
/// invocation, and one the position's execution called is a call of a firing
/// whose finish is kept.
pub proof fn law_kept_children_have_kept_parents(
    state: CoordinatorState,
    start: KeptModel,
    invocations: Seq<InvocationState>,
    position: ExecutionId,
    finished: Set<u64>,
    id: u64,
)
    requires
        kept_among(state, start, invocations, position, finished).invocations.contains(id),
        !start.invocations.contains(id),
    ensures
        exists|i: int|
            0 <= i < invocations.len() && (#[trigger] invocations[i]).declaration.id.0 == id
                && keeps_invocation(
                state,
                kept_among(state, start, invocations, position, finished),
                invocations[i],
                position,
                finished,
            ),
    decreases invocations.len(),
{
    let all = kept_among(state, start, invocations, position, finished);
    if invocations.len() > 0 {
        let rest = invocations.drop_last();
        let kept = kept_among(state, start, rest, position, finished);
        let last = invocations.last();
        lemma_with_executions(kept.executions, last.executions@);
        if kept.invocations.contains(id) {
            law_kept_children_have_kept_parents(state, start, rest, position, finished, id);
            let i = choose|i: int|
                0 <= i < rest.len() && (#[trigger] rest[i]).declaration.id.0 == id
                    && keeps_invocation(state, kept, rest[i], position, finished);
            assert(invocations[i] == rest[i]);
        } else {
            assert(invocations[invocations.len() - 1] == last);
        }
    }
}

/// A fork keeps records in their order and none it should not: each kept
/// record is one of the source's that belongs in the fork's log.
pub proof fn law_kept_records_belong(
    records: Seq<CoordinatorRecord>,
    kept: KeptModel,
    position: ExecutionId,
    record: CoordinatorRecord,
)
    ensures
        kept_records(records, kept, position).contains(record) <==> records.contains(record)
            && keeps_record(*record.body, kept, position),
    decreases records.len(),
{
    if records.len() > 0 {
        let rest = records.drop_last();
        law_kept_records_belong(rest, kept, position, record);
        let before = kept_records(rest, kept, position);
        let all = kept_records(records, kept, position);
        if records.contains(record) && keeps_record(lifecycle_of(record), kept, position) {
            let i = choose|i: int| 0 <= i < records.len() && records[i] == record;
            if i == records.len() - 1 {
                assert(all[all.len() - 1] == record);
            } else {
                assert(rest[i] == record);
                let j = choose|j: int| 0 <= j < before.len() && before[j] == record;
                assert(all[j] == record);
            }
        }
        if all.contains(record) {
            let j = choose|j: int| 0 <= j < all.len() && all[j] == record;
            if j < before.len() {
                assert(before[j] == record);
                let i = choose|i: int| 0 <= i < rest.len() && rest[i] == record;
                assert(records[i] == record);
            } else {
                assert(records[records.len() - 1] == record);
            }
        }
    }
}

/// A fork's log ends nothing of what it continues: it records no end of the
/// run, of the root invocation or of the position's execution.
pub proof fn law_fork_is_unfinished(
    records: Seq<CoordinatorRecord>,
    kept: KeptModel,
    position: ExecutionId,
    record: CoordinatorRecord,
)
    requires
        kept_records(records, kept, position).contains(record),
    ensures
        match *record.body {
            CoordinatorEvent::RunFinished { .. } => false,
            CoordinatorEvent::RunStarted { .. } => false,
            CoordinatorEvent::InvocationFinished { invocation, .. } => invocation
                != InvocationId::root(),
            CoordinatorEvent::ExecutionFinished { execution, .. } => execution != position,
            _ => true,
        },
{
    law_kept_records_belong(records, kept, position, record);
}

} // verus!

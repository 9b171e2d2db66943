//! One run's lifecycle: what is checked before it resumes, which invocation
//! starts and which completes next, and what is recorded of each.

use crate::coordinator::gate::{
    admission_of, fork_admission, in_use, queued_at, slots_of, waits_at, ForkGates,
};
use crate::coordinator::leases::{
    record_of, resolve, resources_refused, validate_resources, LeaseRecord, ReplayedScopes,
};
use crate::coordinator::live::{runs, LiveInvocation, LiveInvocations};
use crate::coordinator::result::{project_result, projects};
use crate::coordinator::tree::{
    affected_ids, caller_of, cancel_records, cancel_told, descends, is_descendant_or_same,
    law_descent, settle_descendants, uncancelled, unfinished_under, SettlePlan,
};
use crate::coordinator::{
    limit_refused, CoordinatorError, CoordinatorOptions, ResourceError, MAX_INVOCATIONS,
};
use crate::event::{
    CancelReason, CancelRequest, CoordinatorEvent, InvocationResult, MiddlewareState, SandboxBinding,
    SecretBindings, COORDINATOR_FORMAT_VERSION,
};
use crate::events::{link_of, ParentLink};
use crate::ids::{CancelScopeId, ExecutionId, GraphDigest, InvocationId, NodeId};
use crate::json::{fields_match, same_fields, share, Json};
use crate::model::{share_option, Fields, Graph, RunStatus};
use crate::record::{
    event_of, CancelTarget, EngineExit, EngineStart, EntryPoint, Event, EventRecord,
};
use crate::run_state::{
    check_format, CoordinatorState, ExecutionState, InvocationState, StateError, StoreError,
};
use crate::search::{first_where, lemma_first_absent, lemma_first_found};
use crate::state::EngineState;
use crate::table::{by_id, lemma_entry, Table};
use std::sync::Arc;
use vstd::prelude::*;

verus! {

// ── Resuming ───────────────────────────────────────────────────────────

/// Whether two lists of texts read alike.
pub open spec fn same_texts(a: Seq<String>, b: Seq<String>) -> bool {
    a.len() == b.len() && forall|i: int| 0 <= i < a.len() ==> (#[trigger] a[i])@ == b[i]@
}

fn texts_match(a: &Vec<String>, b: &Vec<String>) -> (same: bool)
    ensures
        same == same_texts(a@, b@),
{
    if a.len() != b.len() {
        return false;
    }
    let mut i: usize = 0;
    while i < a.len()
        invariant
            i <= a.len(),
            a.len() == b.len(),
            forall|j: int| 0 <= j < i ==> (#[trigger] a@[j])@ == b@[j]@,
        decreases a.len() - i,
    {
        if a[i] != b[i] {
            assert(a@[i as int]@ != b@[i as int]@);
            return false;
        }
        i = i + 1;
    }
    true
}

/// Why an unfinished invocation's inherited lease is not in the run's
/// records.
pub open spec fn inherited_refused(invocation: InvocationState, records: Seq<LeaseRecord>) -> Option<
    ResourceError,
> {
    match invocation.declaration.sandbox {
        SandboxBinding::Inherited { lease } => if invocation.result is None && record_of(
            records,
            lease,
        ) is None {
            Some(ResourceError::UnknownLease(lease))
        } else {
            None
        },
        SandboxBinding::Isolated => None,
    }
}

/// The first of a run's invocations whose inherited lease is not recorded.
/// A finished invocation is never dispatched again, so its lease need not
/// be: a forked run carries the source's finished children, whose leases
/// were the source's.
pub open spec fn leases_refused(invocations: Seq<InvocationState>, records: Seq<LeaseRecord>) -> Option<
    ResourceError,
>
    decreases invocations.len(),
{
    if invocations.len() == 0 {
        None
    } else {
        match leases_refused(invocations.drop_last(), records) {
            Some(error) => Some(error),
            None => inherited_refused(invocations.last(), records),
        }
    }
}

proof fn lemma_refusal_stays(
    invocations: Seq<InvocationState>,
    records: Seq<LeaseRecord>,
    i: int,
)
    requires
        0 <= i <= invocations.len(),
        leases_refused(invocations.take(i), records) is Some,
    ensures
        leases_refused(invocations, records) == leases_refused(invocations.take(i), records),
    decreases invocations.len() - i,
{
    if i == invocations.len() {
        assert(invocations.take(i) =~= invocations);
    } else {
        assert(invocations.take(i + 1).drop_last() =~= invocations.take(i));
        lemma_refusal_stays(invocations, records, i + 1);
    }
}

fn check_inherited(invocations: &Vec<InvocationState>, records: &Vec<LeaseRecord>) -> (refused:
    Option<ResourceError>)
    ensures
        refused == leases_refused(invocations@, records@),
{
    let mut i: usize = 0;
    while i < invocations.len()
        invariant
            i <= invocations.len(),
            leases_refused(invocations@.take(i as int), records@) is None,
        decreases invocations.len() - i,
    {
        proof {
            assert(invocations@.take(i + 1).drop_last() =~= invocations@.take(i as int));
            assert(invocations@.take(i + 1).last() == invocations@[i as int]);
        }
        let invocation = &invocations[i];
        if let SandboxBinding::Inherited { lease } = invocation.declaration.sandbox {
            if invocation.result.is_none() {
                match resolve(records, lease) {
                    Ok(_) => {},
                    Err(error) => {
                        proof {
                            lemma_refusal_stays(invocations@, records@, i + 1);
                        }
                        return Some(error);
                    },
                }
            }
        }
        i = i + 1;
    }
    assert(invocations@.take(i as int) =~= invocations@);
    None
}

/// What a resumed run is checked against: the format and the middleware
/// chain it was declared with, its graphs, the scopes its executions'
/// splices introduced, and its lease records.
#[derive(Debug)]
pub struct ResumedRun {
    pub format_version: u32,
    pub graphs: Vec<(GraphDigest, Graph)>,
    pub replayed: Vec<ReplayedScopes>,
    pub leases: Vec<LeaseRecord>,
}

/// Why a run cannot resume: the first check that fails, in their order.
pub open spec fn resume_refused(
    options: CoordinatorOptions,
    state: CoordinatorState,
    run: ResumedRun,
    chain: Seq<String>,
) -> Option<CoordinatorError> {
    match limit_refused(options.max_invocations) {
        Some(error) => Some(CoordinatorError::InvalidInvocationLimit(error)),
        None => if run.format_version != COORDINATOR_FORMAT_VERSION {
            Some(
                CoordinatorError::Store(
                    StoreError::UnsupportedFormat {
                        found: run.format_version,
                        expected: COORDINATOR_FORMAT_VERSION,
                    },
                ),
            )
        } else if !same_texts(state.middleware_chain@, chain) {
            Some(CoordinatorError::Store(StoreError::State(StateError::MiddlewareChain)))
        } else if state.invocations@.len() > options.max_invocations {
            Some(
                CoordinatorError::InvocationLimit {
                    total: state.invocations@.len() as u64,
                    limit: options.max_invocations,
                },
            )
        } else {
            match resources_refused(state, run.graphs@, run.replayed@, run.leases@) {
                Some(error) => Some(error),
                None => match leases_refused(state.invocations@, run.leases@) {
                    Some(error) => Some(CoordinatorError::Resource(error)),
                    None => None,
                },
            }
        },
    }
}

/// Whether a run can resume under its options and the configured middleware
/// chain, which must be the recorded one.
pub fn open_resumed(
    options: &CoordinatorOptions,
    state: &CoordinatorState,
    run: &ResumedRun,
    chain: &Vec<String>,
) -> (opened: Result<(), CoordinatorError>)
    ensures
        match opened {
            Ok(()) => resume_refused(*options, *state, *run, chain@) is None,
            Err(error) => resume_refused(*options, *state, *run, chain@) == Some(error),
        },
{
    match CoordinatorOptions::check_limit(options.max_invocations) {
        Ok(()) => {},
        Err(error) => return Err(CoordinatorError::InvalidInvocationLimit(error)),
    }
    match check_format(run.format_version) {
        Ok(()) => {},
        Err(error) => return Err(CoordinatorError::Store(error)),
    }
    if !texts_match(&state.middleware_chain, chain) {
        return Err(CoordinatorError::Store(StoreError::State(StateError::MiddlewareChain)));
    }
    let total: u64 = state.invocations.len() as u64;
    if total > options.max_invocations as u64 {
        return Err(
            CoordinatorError::InvocationLimit { total, limit: options.max_invocations },
        );
    }
    match validate_resources(state, &run.graphs, &run.replayed, &run.leases) {
        Ok(()) => {},
        Err(error) => return Err(error),
    }
    match check_inherited(&state.invocations, &run.leases) {
        Some(error) => Err(CoordinatorError::Resource(error)),
        None => Ok(()),
    }
}

/// A run that resumes is within its limit, and within the hard ceiling.
pub proof fn law_resumed_run_is_bounded(
    options: CoordinatorOptions,
    state: CoordinatorState,
    run: ResumedRun,
    chain: Seq<String>,
)
    requires
        resume_refused(options, state, run, chain) is None,
    ensures
        state.invocations@.len() <= options.max_invocations <= MAX_INVOCATIONS,
        run.format_version == COORDINATOR_FORMAT_VERSION,
{
}

// ── The root invocation ────────────────────────────────────────────────

/// Whether an event declares the root invocation of a graph.
pub open spec fn declares_root(event: CoordinatorEvent, graph: GraphDigest, context: Fields) -> bool {
    event == (CoordinatorEvent::InvocationDeclared {
        invocation: InvocationId::root(),
        call: None,
        graph,
        context,
        secret_bindings: SecretBindings::NoSecrets,
        sandbox: SandboxBinding::Isolated,
        admission: None,
    })
}

/// Why a root request is refused.
pub open spec fn root_refused(
    state: CoordinatorState,
    graph: GraphDigest,
    context: Fields,
    holds_secret: bool,
) -> Option<CoordinatorError> {
    if !state.graphs@.contains(graph) {
        Some(CoordinatorError::UnknownGraph(graph))
    } else if holds_secret {
        Some(CoordinatorError::SecretInDurableData)
    } else {
        match state.spec_invocation(InvocationId::root()) {
            Some(root) => if root.declaration.graph != graph || !same_fields(
                root.declaration.context@,
                context@,
            ) {
                Some(CoordinatorError::RootRequestMismatch)
            } else {
                None
            },
            None => None,
        }
    }
}

/// What a root request records: the root's declaration, unless the run has
/// it already. `holds_secret` is whether a resolved secret appears in the
/// context.
pub fn declare_root(
    state: &CoordinatorState,
    graph: GraphDigest,
    context: &Fields,
    holds_secret: bool,
) -> (declared: Result<Option<CoordinatorEvent>, CoordinatorError>)
    ensures
        match declared {
            Ok(None) => root_refused(*state, graph, *context, holds_secret) is None
                && state.spec_invocation(InvocationId::root()) is Some,
            Ok(Some(event)) => root_refused(*state, graph, *context, holds_secret) is None
                && state.spec_invocation(InvocationId::root()) is None && declares_root(
                event,
                graph,
                *context,
            ),
            Err(error) => root_refused(*state, graph, *context, holds_secret) == Some(error),
        },
{
    if !state.has_graph(graph) {
        return Err(CoordinatorError::UnknownGraph(graph));
    }
    if holds_secret {
        return Err(CoordinatorError::SecretInDurableData);
    }
    match state.invocation(InvocationId::root()) {
        Some(root) => {
            if root.declaration.graph != graph || !fields_match(&root.declaration.context, context) {
                return Err(CoordinatorError::RootRequestMismatch);
            }
            Ok(None)
        },
        None => Ok(
            Some(
                CoordinatorEvent::InvocationDeclared {
                    invocation: InvocationId::root(),
                    call: None,
                    graph,
                    context: share(context),
                    secret_bindings: SecretBindings::NoSecrets,
                    sandbox: SandboxBinding::Isolated,
                    admission: None,
                },
            ),
        ),
    }
}

/// The exit recorded of an execution, as a finished root's replay needs it.
pub fn recorded_exit(state: &CoordinatorState, execution: ExecutionId) -> (exit: Result<
    EngineExit,
    CoordinatorError,
>)
    requires
        state.spec_execution(execution) is Some,
    ensures
        match (exit, state.spec_execution(execution)->0.exit) {
            (Ok(exit), Some(recorded)) => exit == recorded,
            (Err(error), None) => error == CoordinatorError::MissingExit(execution),
            _ => false,
        },
{
    match state.execution(execution) {
        Some(found) => match found.exit {
            Some(exit) => Ok(exit),
            None => Err(CoordinatorError::MissingExit(execution)),
        },
        None => Err(CoordinatorError::MissingExit(execution)),
    }
}

/// Check what a finished execution reported against what is recorded of it:
/// the record of its end when there is none yet.
pub fn finish_execution(state: &CoordinatorState, execution: ExecutionId, exit: EngineExit) -> (
finished: Result<Option<CoordinatorEvent>, CoordinatorError>)
    requires
        state.spec_execution(execution) is Some,
    ensures
        match state.spec_execution(execution)->0.exit {
            Some(recorded) => if recorded == exit {
                finished == Ok::<Option<CoordinatorEvent>, CoordinatorError>(None)
            } else {
                finished == Err::<Option<CoordinatorEvent>, CoordinatorError>(
                    CoordinatorError::ConflictingExit { execution },
                )
            },
            None => finished == Ok::<Option<CoordinatorEvent>, CoordinatorError>(
                Some(CoordinatorEvent::ExecutionFinished { execution, exit }),
            ),
        },
{
    match state.execution(execution) {
        Some(found) => match found.exit {
            Some(recorded) => if recorded == exit {
                Ok(None)
            } else {
                Err(CoordinatorError::ConflictingExit { execution })
            },
            None => Ok(Some(CoordinatorEvent::ExecutionFinished { execution, exit })),
        },
        None => Ok(None),
    }
}

/// The record that ends the run, unless its end is recorded.
pub fn finish_run(state: &CoordinatorState, status: RunStatus) -> (event: Option<CoordinatorEvent>)
    ensures
        event == (if state.run_status is None {
            Some(CoordinatorEvent::RunFinished { status })
        } else {
            None
        }),
{
    if state.run_status.is_none() {
        Some(CoordinatorEvent::RunFinished { status })
    } else {
        None
    }
}

/// The root's result once nothing is live: the run's own.
pub fn root_result(state: &CoordinatorState, live: &LiveInvocations) -> (result: Option<
    Arc<InvocationResult>,
>)
    ensures
        result == (match state.spec_invocation(InvocationId::root()) {
            Some(root) => if live@ == Map::<u64, LiveInvocation>::empty() {
                root.result
            } else {
                None
            },
            None => None,
        }),
{
    if !live.is_empty() {
        return None;
    }
    match state.invocation(InvocationId::root()) {
        Some(root) => share_option(&root.result),
        None => None,
    }
}

// ── Starting ───────────────────────────────────────────────────────────

/// What starting an invocation leads to.
#[derive(Clone, Copy, Debug, PartialEq, Eq, Structural)]
pub enum StartStep {
    /// It is finished or live already.
    Nothing,
    /// It is queued at its fork's gate; `begins` is whether it is the first
    /// to wait there.
    Queued { begins: bool },
    /// Its driver starts.
    Dispatch,
}

/// Start an unfinished invocation that is not already live. A fork's child
/// is queued for a slot instead, so the fork has at most as many live
/// children as its gate has slots; its declaration is durable already, and
/// only its driver waits.
pub fn start_invocation(
    state: &CoordinatorState,
    live: &mut LiveInvocations,
    gates: &mut ForkGates,
    invocation: InvocationId,
) -> (step: StartStep)
    requires
        old(gates).wf(),
        state.spec_invocation(invocation) is Some,
    ensures
        final(gates).wf(),
        ({
            let done = state.spec_invocation(invocation)->0.result is Some || old(
                live,
            )@.contains_key(invocation.0);
            let admission = admission_of(*state, invocation);
            match step {
                StartStep::Nothing => done && final(live)@ == old(live)@ && final(gates)@ == old(
                    gates,
                )@,
                StartStep::Queued { begins } => {
                    let key = (admission->0.parent.0, admission->0.gate@);
                    &&& !done
                    &&& admission is Some
                    &&& final(live)@ == old(live)@.insert(invocation.0, LiveInvocation::Queued)
                    &&& final(gates)@.dom() == old(gates)@.dom().insert(key)
                    &&& queued_at(final(gates)@, key) == queued_at(old(gates)@, key).push(
                        invocation,
                    )
                    &&& waits_at(final(gates)@, key)
                    &&& begins == !waits_at(old(gates)@, key)
                    &&& final(gates)@[key].slots == (if old(gates)@.contains_key(key) {
                        old(gates)@[key].slots
                    } else {
                        slots_of(admission->0.max_parallel)
                    })
                    &&& forall|other: (u64, Seq<char>)|
                        other != key && #[trigger] old(gates)@.contains_key(other) ==> final(
                            gates)@[other] == old(gates)@[other]
                },
                StartStep::Dispatch => !done && admission is None && final(live)@ == old(live)@
                    && final(gates)@ == old(gates)@,
            }
        }),
{
    match state.invocation(invocation) {
        Some(found) => {
            if found.result.is_some() || live.contains(invocation) {
                return StartStep::Nothing;
            }
        },
        None => return StartStep::Nothing,
    }
    match fork_admission(state, invocation) {
        Some(admission) => {
            live.queue(invocation);
            let begins = gates.queue_for_slot(invocation, &admission);
            StartStep::Queued { begins }
        },
        None => StartStep::Dispatch,
    }
}

/// The latest execution of an invocation.
pub fn current_execution(state: &CoordinatorState, invocation: InvocationId) -> (execution: Result<
    ExecutionId,
    CoordinatorError,
>)
    requires
        state.spec_invocation(invocation) is Some,
    ensures
        ({
            let executions = state.spec_invocation(invocation)->0.executions@;
            execution == (if executions.len() > 0 {
                Ok::<ExecutionId, CoordinatorError>(executions.last())
            } else {
                Err(CoordinatorError::MissingExecution(invocation))
            })
        }),
{
    match state.invocation(invocation) {
        Some(found) => if found.executions.len() > 0 {
            Ok(found.executions[found.executions.len() - 1])
        } else {
            Err(CoordinatorError::MissingExecution(invocation))
        },
        None => Err(CoordinatorError::MissingExecution(invocation)),
    }
}

/// Whether an event declares an invocation's first execution.
pub open spec fn declares_first(
    event: CoordinatorEvent,
    invocation: InvocationState,
    execution: ExecutionId,
    max_executions: u32,
    middleware: MiddlewareState,
) -> bool {
    &&& event matches CoordinatorEvent::ExecutionDeclared {
        execution: declared,
        invocation: owner,
        predecessor,
        start,
        middleware_state,
    }
    &&& declared == execution
    &&& owner == invocation.declaration.id
    &&& predecessor is None
    &&& start.entry == EntryPoint::GraphEntries
    &&& start.context == invocation.declaration.context
    &&& start.prior_firings@ == Seq::<(NodeId, u32)>::empty()
    &&& start.execution_index == 0
    &&& start.max_executions == max_executions
    &&& middleware_state == middleware
}

/// Declare the invocation's first execution when it has none: it enters its
/// graph at the entries, with the context the invocation was declared with.
/// `execution` is the next execution id, `middleware` the configured chain's
/// initial state.
pub fn declare_first_execution(
    state: &CoordinatorState,
    options: &CoordinatorOptions,
    invocation: InvocationId,
    execution: ExecutionId,
    middleware: &MiddlewareState,
) -> (event: Option<CoordinatorEvent>)
    requires
        state.spec_invocation(invocation) is Some,
    ensures
        ({
            let found = state.spec_invocation(invocation)->0;
            match event {
                Some(event) => found.executions@.len() == 0 && declares_first(
                    event,
                    found,
                    execution,
                    options.max_executions,
                    *middleware,
                ),
                None => found.executions@.len() > 0,
            }
        }),
{
    match state.invocation(invocation) {
        Some(found) => {
            if found.executions.len() > 0 {
                return None;
            }
            let start = EngineStart {
                entry: EntryPoint::GraphEntries,
                context: share(&found.declaration.context),
                prior_firings: Arc::new(Vec::new()),
                execution_index: 0,
                max_executions: options.max_executions,
            };
            Some(
                CoordinatorEvent::ExecutionDeclared {
                    execution,
                    invocation: found.declaration.id,
                    predecessor: None,
                    start,
                    middleware_state: share(middleware),
                },
            )
        },
        None => None,
    }
}

// ── Running ────────────────────────────────────────────────────────────

/// Whether an event asks a whole execution to cancel or kills it.
pub open spec fn cancels_all(event: Event) -> bool {
    match event {
        Event::CancelRequested { target } => target == CancelTarget::Scope(CancelScopeId::root()),
        Event::KillRequested { scope } => scope == CancelScopeId::root(),
        _ => false,
    }
}

/// How an execution's driver is prepared: whether it resumes a log, how much
/// of that log is stored, and whether it is told to cancel before it runs.
#[derive(Clone, Copy, Debug, PartialEq, Eq, Structural)]
pub struct PreparedExecution {
    pub resumes: bool,
    pub high_water: u64,
    pub cancel_before_run: bool,
}

/// Prepare an execution's driver from its stored log. Replaying an existing
/// root cancellation already restores it; sending it again would ask the
/// driver to escalate to a kill.
pub fn prepare_execution(
    state: &CoordinatorState,
    invocation: InvocationId,
    log: &Vec<EventRecord>,
) -> (prepared: PreparedExecution)
    requires
        state.spec_invocation(invocation) is Some,
    ensures
        prepared.resumes == (log@.len() > 0),
        prepared.high_water == log@.len(),
        prepared.cancel_before_run == (state.spec_invocation(invocation)->0.cancelled && !(exists|
            i: int,
        |
            0 <= i < log@.len() && cancels_all(event_of(#[trigger] log@[i])))),
{
    let cancelled = match state.invocation(invocation) {
        Some(found) => found.cancelled,
        None => false,
    };
    let mut told = false;
    let mut i: usize = 0;
    while i < log.len()
        invariant
            i <= log.len(),
            told == (exists|j: int| 0 <= j < i && cancels_all(event_of(#[trigger] log@[j]))),
        decreases log.len() - i,
    {
        let cancels = match &*log[i].event {
            Event::CancelRequested { target } => match target {
                CancelTarget::Scope(scope) => *scope == CancelScopeId::root(),
                CancelTarget::Group(_) => false,
            },
            Event::KillRequested { scope } => *scope == CancelScopeId::root(),
            _ => false,
        };
        assert(cancels == cancels_all(event_of(log@[i as int])));
        if cancels {
            told = true;
        }
        i = i + 1;
    }
    PreparedExecution {
        resumes: log.len() > 0,
        high_water: log.len() as u64,
        cancel_before_run: cancelled && !told,
    }
}

/// What the hooks are told about an execution: the run, the invocation, the
/// execution, and the call that started a nested invocation.
#[derive(Debug)]
pub struct HookContext {
    pub run: String,
    pub invocation: InvocationId,
    pub execution: ExecutionId,
    pub parent: Option<ParentLink>,
}

/// The link to the call that started an invocation.
pub open spec fn parent_of(invocation: InvocationState) -> Option<ParentLink> {
    match invocation.declaration.call {
        Some(call) => Some(link_of(call)),
        None => None,
    }
}

/// What the hooks are told about an execution.
pub fn hook_context(
    state: &CoordinatorState,
    run: &String,
    invocation: InvocationId,
    execution: ExecutionId,
) -> (context: HookContext)
    requires
        state.spec_invocation(invocation) is Some,
    ensures
        context == (HookContext {
            run: *run,
            invocation,
            execution,
            parent: parent_of(state.spec_invocation(invocation)->0),
        }),
{
    let parent = match state.invocation(invocation) {
        Some(found) => match &found.declaration.call {
            Some(call) => Some(ParentLink::of(call)),
            None => None,
        },
        None => None,
    };
    HookContext { run: run.clone(), invocation, execution, parent }
}

/// The bindings between an invocation's secrets and the run's, innermost
/// first: its own, its caller's, up to the root, whose secrets are the
/// run's.
pub open spec fn secret_chain(state: CoordinatorState, invocation: InvocationId) -> Seq<
    SecretBindings,
>
    decreases invocation.0,
{
    match (state.spec_invocation(invocation), caller_of(state, invocation)) {
        (Some(found), Some(caller)) => if invocation == InvocationId::root() || caller.0
            >= invocation.0 {
            Seq::empty()
        } else {
            seq![found.declaration.secret_bindings] + secret_chain(state, caller)
        },
        _ => Seq::empty(),
    }
}

/// The bindings an invocation's secrets go through, innermost first.
pub fn invocation_secrets(state: &CoordinatorState, invocation: InvocationId) -> (chain: Vec<
    SecretBindings,
>)
    requires
        descends(*state, invocation, InvocationId::root()),
    ensures
        chain@ == secret_chain(*state, invocation),
{
    let mut chain: Vec<SecretBindings> = Vec::new();
    let mut current = invocation;
    assert(chain@ + secret_chain(*state, current) =~= secret_chain(*state, invocation));
    while current != InvocationId::root()
        invariant
            descends(*state, current, InvocationId::root()),
            chain@ + secret_chain(*state, current) == secret_chain(*state, invocation),
        decreases current.0,
    {
        let ghost before = chain@;
        let ghost rest = secret_chain(*state, current);
        match state.invocation(current) {
            Some(found) => {
                chain.push(found.declaration.secret_bindings.clone());
                match &found.declaration.call {
                    Some(call) => match state.owner(call.parent) {
                        Some(caller) => {
                            proof {
                                assert(caller_of(*state, current) == Some(caller));
                                assert(chain@ + secret_chain(*state, caller) =~= before + rest);
                            }
                            current = caller;
                        },
                        None => {
                            return chain;
                        },
                    },
                    None => {
                        return chain;
                    },
                }
            },
            None => {
                return chain;
            },
        }
    }
    assert(secret_chain(*state, current) =~= Seq::empty());
    assert(chain@ =~= chain@ + secret_chain(*state, current));
    chain
}

/// The root's secrets are the run's own: no bindings stand between them.
pub proof fn law_root_has_the_run_secrets(state: CoordinatorState)
    ensures
        secret_chain(state, InvocationId::root()).len() == 0,
{
}

/// What is recorded of a pause or an unpause: nothing when the run is in
/// that state already.
pub fn pause_record(state: &CoordinatorState, paused: bool) -> (event: Option<CoordinatorEvent>)
    ensures
        event == (if state.paused == paused {
            None
        } else if paused {
            Some(CoordinatorEvent::RunPaused)
        } else {
            Some(CoordinatorEvent::RunUnpaused)
        }),
{
    if state.paused == paused {
        None
    } else if paused {
        Some(CoordinatorEvent::RunPaused)
    } else {
        Some(CoordinatorEvent::RunUnpaused)
    }
}

/// A cancel as the run's handle sends it: it reaches a driver that was
/// cancelled before, which escalates it.
pub fn cancel_request(
    invocation: InvocationId,
    reason: Option<CancelReason>,
) -> (request: CancelRequest)
    ensures
        request == (CancelRequest { invocation, reason, escalate: true }),
{
    CancelRequest { invocation, reason, escalate: true }
}

// ── Completing ─────────────────────────────────────────────────────────

/// Whether a live invocation other than this one descends from it.
pub open spec fn has_live_descendant(
    state: CoordinatorState,
    live: Map<u64, LiveInvocation>,
    invocation: InvocationId,
) -> bool {
    exists|id: u64| #[trigger]
        live.contains_key(id) && id != invocation.0 && descends(
            state,
            InvocationId(id),
            invocation,
        )
}

fn waits(state: &CoordinatorState, ids: &Vec<InvocationId>, invocation: InvocationId) -> (found:
    bool)
    ensures
        found == (exists|i: int|
            0 <= i < ids@.len() && (#[trigger] ids@[i]) != invocation && descends(
                *state,
                ids@[i],
                invocation,
            )),
{
    let mut i: usize = 0;
    while i < ids.len()
        invariant
            i <= ids.len(),
            forall|j: int|
                0 <= j < i ==> !((#[trigger] ids@[j]) != invocation && descends(
                    *state,
                    ids@[j],
                    invocation,
                )),
        decreases ids.len() - i,
    {
        if ids[i] != invocation && is_descendant_or_same(state, ids[i], invocation) {
            return true;
        }
        i = i + 1;
    }
    false
}

/// Whether a stopped invocation may complete.
pub open spec fn may_complete(state: CoordinatorState, live: Map<u64, LiveInvocation>) -> spec_fn(
    InvocationId,
) -> bool {
    |invocation: InvocationId| !has_live_descendant(state, live, invocation)
}

/// The next stopped invocation to complete: the first without a live
/// descendant. Finishing a descendant can make a waiting parent ready too.
pub fn ready_invocation(
    state: &CoordinatorState,
    live: &LiveInvocations,
    completed: &Vec<InvocationId>,
) -> (ready: Option<InvocationId>)
    ensures
        ready == first_where(completed@, may_complete(*state, live@)),
{
    let ids = live.invocations();
    let ghost p = may_complete(*state, live@);
    let mut i: usize = 0;
    while i < completed.len()
        invariant
            i <= completed.len(),
            p == may_complete(*state, live@),
            forall|id: u64| #[trigger] live@.contains_key(id) <==> ids@.contains(InvocationId(id)),
            forall|j: int| 0 <= j < i ==> !p(#[trigger] completed@[j]),
        decreases completed.len() - i,
    {
        let invocation = completed[i];
        let blocked = waits(state, &ids, invocation);
        proof {
            if blocked {
                let k = choose|k: int|
                    0 <= k < ids@.len() && (#[trigger] ids@[k]) != invocation && descends(
                        *state,
                        ids@[k],
                        invocation,
                    );
                assert(ids@.contains(ids@[k]));
                assert(live@.contains_key(ids@[k].0));
                assert(ids@[k] == InvocationId(ids@[k].0));
            } else if has_live_descendant(*state, live@, invocation) {
                let id = choose|id: u64| #[trigger]
                    live@.contains_key(id) && id != invocation.0 && descends(
                        *state,
                        InvocationId(id),
                        invocation,
                    );
                assert(ids@.contains(InvocationId(id)));
                let k = choose|k: int| 0 <= k < ids@.len() && ids@[k] == InvocationId(id);
                assert(ids@[k] != invocation);
            }
            assert(blocked == !p(completed@[i as int]));
        }
        if !blocked {
            proof {
                lemma_first_found(completed@, p, i as int);
            }
            return Some(invocation);
        }
        i = i + 1;
    }
    proof {
        lemma_first_absent(completed@, p);
    }
    None
}

/// An invocation completes only once no live invocation descends from it.
pub proof fn law_children_complete_first(
    state: CoordinatorState,
    live: Map<u64, LiveInvocation>,
    completed: Seq<InvocationId>,
    child: InvocationId,
)
    requires
        first_where(completed, may_complete(state, live)) matches Some(ready) && descends(
            state,
            child,
            ready,
        ) && child != ready,
    ensures
        !live.contains_key(child.0),
{
    let p = may_complete(state, live);
    lemma_first_satisfies(completed, p);
    let ready = first_where(completed, p)->0;
    if live.contains_key(child.0) {
        assert(child == InvocationId(child.0));
        assert(has_live_descendant(state, live, ready));
    }
}

proof fn lemma_first_satisfies(s: Seq<InvocationId>, p: spec_fn(InvocationId) -> bool)
    ensures
        first_where(s, p) matches Some(found) ==> p(found),
        first_where(s, p) is None ==> forall|i: int| 0 <= i < s.len() ==> !p(#[trigger] s[i]),
    decreases s.len(),
{
    if s.len() > 0 && !p(s.first()) {
        lemma_first_satisfies(s.drop_first(), p);
        assert forall|i: int| first_where(s, p) is None && 0 <= i < s.len() implies !p(
            #[trigger] s[i],
        ) by {
            if i > 0 {
                assert(s.drop_first()[i - 1] == s[i]);
            }
        }
    }
}

proof fn lemma_highest(s: Seq<InvocationId>) -> (at: int)
    requires
        s.len() > 0,
    ensures
        0 <= at < s.len(),
        forall|i: int| 0 <= i < s.len() ==> (#[trigger] s[i]).0 <= s[at].0,
    decreases s.len(),
{
    if s.len() == 1 {
        0
    } else {
        let rest = s.drop_last();
        let at = lemma_highest(rest);
        let last = s.len() - 1;
        let best = if s[at].0 >= s[last].0 {
            at
        } else {
            last
        };
        assert forall|i: int| 0 <= i < s.len() implies (#[trigger] s[i]).0 <= s[best].0 by {
            if i < last {
                assert(rest[i] == s[i]);
            }
        }
        best
    }
}

/// The drive loop does not get stuck: once every live invocation has
/// stopped, one of them may complete.
pub proof fn law_something_completes(
    state: CoordinatorState,
    live: Map<u64, LiveInvocation>,
    completed: Seq<InvocationId>,
)
    requires
        completed.len() > 0,
        forall|id: u64| #[trigger] live.contains_key(id) ==> completed.contains(InvocationId(id)),
    ensures
        first_where(completed, may_complete(state, live)) is Some,
{
    let p = may_complete(state, live);
    let at = lemma_highest(completed);
    let highest = completed[at];
    if has_live_descendant(state, live, highest) {
        let id = choose|id: u64| #[trigger]
            live.contains_key(id) && id != highest.0 && descends(
                state,
                InvocationId(id),
                highest,
            );
        assert(completed.contains(InvocationId(id)));
        let k = choose|k: int| 0 <= k < completed.len() && completed[k] == InvocationId(id);
        assert(completed[k].0 <= highest.0);
        law_descent(state, InvocationId(id), highest, highest);
    }
    lemma_first_satisfies(completed, p);
    assert(p(completed[at]));
}

/// The firings of nodes the registered graph has. Only that graph survives a
/// restart: dynamic node ids can be reused by different splices.
pub open spec fn surviving(prior: Seq<(NodeId, u32)>, graph: Graph) -> Seq<(NodeId, u32)>
    decreases prior.len(),
{
    if prior.len() == 0 {
        Seq::empty()
    } else {
        let before = surviving(prior.drop_last(), graph);
        if graph.spec_node(prior.last().0) is Some {
            before.push(prior.last())
        } else {
            before
        }
    }
}

fn surviving_firings(prior: &Vec<(NodeId, u32)>, graph: &Graph) -> (kept: Vec<(NodeId, u32)>)
    ensures
        kept@ == surviving(prior@, *graph),
{
    let mut kept: Vec<(NodeId, u32)> = Vec::new();
    let mut i: usize = 0;
    while i < prior.len()
        invariant
            i <= prior.len(),
            kept@ == surviving(prior@.take(i as int), *graph),
        decreases prior.len() - i,
    {
        assert(prior@.take(i + 1).drop_last() =~= prior@.take(i as int));
        assert(prior@.take(i + 1).last() == prior@[i as int]);
        if graph.node(prior[i].0).is_some() {
            kept.push(prior[i]);
        }
        i = i + 1;
    }
    assert(prior@.take(i as int) =~= prior@);
    kept
}

/// Whether an execution has a successor.
pub open spec fn has_successor(executions: Seq<ExecutionState>, execution: ExecutionId) -> bool {
    exists|i: int|
        0 <= i < executions.len() && (#[trigger] executions[i]).declaration.predecessor == Some(
            execution,
        )
}

fn find_successor(executions: &Vec<ExecutionState>, execution: ExecutionId) -> (found: bool)
    ensures
        found == has_successor(executions@, execution),
{
    let mut i: usize = 0;
    while i < executions.len()
        invariant
            i <= executions.len(),
            forall|j: int|
                0 <= j < i ==> (#[trigger] executions@[j]).declaration.predecessor != Some(
                    execution,
                ),
        decreases executions.len() - i,
    {
        if let Some(predecessor) = executions[i].declaration.predecessor {
            if predecessor == execution {
                assert(executions@[i as int].declaration.predecessor == Some(execution));
                return true;
            }
        }
        i = i + 1;
    }
    false
}

/// A driver has stopped; its invocation can finish after its descendants
/// settle.
#[derive(Debug)]
pub struct CompletedExecution {
    pub invocation: InvocationId,
    pub execution: ExecutionId,
    pub exit: EngineExit,
    pub middleware_state: MiddlewareState,
}

/// Whether an event declares the execution that follows a restarted one.
pub open spec fn declares_successor(
    event: CoordinatorEvent,
    done: CompletedExecution,
    next: ExecutionId,
    target: NodeId,
    prior: Seq<(NodeId, u32)>,
    index: nat,
    max_executions: u32,
) -> bool {
    &&& event matches CoordinatorEvent::ExecutionDeclared {
        execution,
        invocation,
        predecessor,
        start,
        middleware_state,
    }
    &&& execution == next
    &&& invocation == done.invocation
    &&& predecessor == Some(done.execution)
    &&& start.entry == EntryPoint::Node(target)
    &&& start.context@ == Seq::<(String, Json)>::empty()
    &&& start.prior_firings@ == prior
    &&& start.execution_index == index
    &&& start.max_executions == max_executions
    &&& middleware_state == done.middleware_state
}

/// Declare the execution that follows a restarted one, unless it is declared
/// already. An invocation at its execution limit restarts no more. `next` is
/// the next execution id.
pub fn declare_successor(
    state: &CoordinatorState,
    options: &CoordinatorOptions,
    done: &CompletedExecution,
    next: ExecutionId,
    target: NodeId,
    graph: &Graph,
    engine: &EngineState,
) -> (declared: Result<Option<CoordinatorEvent>, CoordinatorError>)
    requires
        state.spec_invocation(done.invocation) is Some,
    ensures
        ({
            let count = state.spec_invocation(done.invocation)->0.executions@.len();
            let follows = has_successor(state.executions@, done.execution);
            match declared {
                Ok(None) => follows,
                Ok(Some(event)) => !follows && count < options.max_executions
                    && declares_successor(
                    event,
                    *done,
                    next,
                    target,
                    surviving(engine.prior_firings@, *graph),
                    count,
                    options.max_executions,
                ),
                Err(error) => !follows && count >= options.max_executions && error
                    == (CoordinatorError::ExecutionLimit { invocation: done.invocation }),
            }
        }),
{
    if find_successor(&state.executions, done.execution) {
        return Ok(None);
    }
    let count: u64 = match state.invocation(done.invocation) {
        Some(found) => found.executions.len() as u64,
        None => 0,
    };
    if count >= options.max_executions as u64 {
        return Err(CoordinatorError::ExecutionLimit { invocation: done.invocation });
    }
    let prior = surviving_firings(&engine.prior_firings, graph);
    Ok(
        Some(
            CoordinatorEvent::ExecutionDeclared {
                execution: next,
                invocation: done.invocation,
                predecessor: Some(done.execution),
                start: EngineStart {
                    entry: EntryPoint::Node(target),
                    context: Arc::new(Vec::new()),
                    prior_firings: Arc::new(prior),
                    execution_index: count as u32,
                    max_executions: options.max_executions,
                },
                middleware_state: share(&done.middleware_state),
            },
        ),
    )
}

/// What a completed execution leads to, once its own end is recorded.
#[derive(Debug)]
pub enum CompletionStep {
    /// The invocation restarts: it leaves the live table, its successor is
    /// declared when it is not yet, and it is started again.
    Restart { successor: Option<CoordinatorEvent> },
    /// The invocation may not restart.
    Refused(CoordinatorError),
    /// The invocation has its result; its leases are released.
    Finish(InvocationResult),
}

/// What completing an execution does: the record of its end, when there is
/// none yet, and what follows.
#[derive(Debug)]
pub struct CompletionPlan {
    pub recorded: Option<CoordinatorEvent>,
    pub step: CompletionStep,
}

/// Complete a stopped execution whose descendants have settled. What it
/// reports must agree with what is recorded of it.
pub fn complete_execution(
    state: &CoordinatorState,
    options: &CoordinatorOptions,
    done: &CompletedExecution,
    next: ExecutionId,
    graph: &Graph,
    engine: &EngineState,
) -> (plan: Result<CompletionPlan, CoordinatorError>)
    requires
        state.spec_invocation(done.invocation) is Some,
        state.spec_execution(done.execution) is Some,
    ensures
        ({
            let recorded = state.spec_execution(done.execution)->0.exit;
            let count = state.spec_invocation(done.invocation)->0.executions@.len();
            let follows = has_successor(state.executions@, done.execution);
            match plan {
                Err(error) => recorded is Some && recorded->0 != done.exit && error
                    == (CoordinatorError::ConflictingExit { execution: done.execution }),
                Ok(plan) => {
                    &&& recorded is Some ==> recorded->0 == done.exit
                    &&& plan.recorded == (if recorded is Some {
                        None
                    } else {
                        Some(
                            CoordinatorEvent::ExecutionFinished {
                                execution: done.execution,
                                exit: done.exit,
                            },
                        )
                    })
                    &&& match done.exit {
                        EngineExit::Restart { edge, target, source } => match plan.step {
                            CompletionStep::Restart { successor: None } => follows,
                            CompletionStep::Restart { successor: Some(event) } => !follows && count
                                < options.max_executions && declares_successor(
                                event,
                                *done,
                                next,
                                target,
                                surviving(engine.prior_firings@, *graph),
                                count,
                                options.max_executions,
                            ),
                            CompletionStep::Refused(error) => !follows && count
                                >= options.max_executions && error
                                == (CoordinatorError::ExecutionLimit {
                                invocation: done.invocation,
                            }),
                            CompletionStep::Finish(_) => false,
                        },
                        EngineExit::Terminal { status } => match plan.step {
                            CompletionStep::Finish(result) => projects(
                                done.execution,
                                status,
                                *graph,
                                *engine,
                                result,
                            ),
                            _ => false,
                        },
                    }
                },
            }
        }),
{
    let recorded = match finish_execution(state, done.execution, done.exit) {
        Ok(recorded) => recorded,
        Err(error) => return Err(error),
    };
    let step = match done.exit {
        EngineExit::Restart { edge: _, target, source: _ } => {
            match declare_successor(state, options, done, next, target, graph, engine) {
                Ok(successor) => CompletionStep::Restart { successor },
                Err(error) => CompletionStep::Refused(error),
            }
        },
        EngineExit::Terminal { status } => CompletionStep::Finish(
            project_result(done.execution, status, graph, engine),
        ),
    };
    Ok(CompletionPlan { recorded, step })
}

/// An invocation never has more executions than its limit: the successor
/// that is declared is numbered below it.
pub proof fn law_executions_are_bounded(
    event: CoordinatorEvent,
    done: CompletedExecution,
    next: ExecutionId,
    target: NodeId,
    prior: Seq<(NodeId, u32)>,
    index: nat,
    max_executions: u32,
)
    requires
        index < max_executions,
        declares_successor(event, done, next, target, prior, index, max_executions),
    ensures
        event matches CoordinatorEvent::ExecutionDeclared {
            execution,
            invocation,
            predecessor,
            start,
            middleware_state,
        } && start.execution_index < start.max_executions,
{
}

/// The record of an invocation's result. One in which a resolved secret
/// appears is refused.
pub fn record_result(invocation: InvocationId, result: InvocationResult, holds_secret: bool) -> (
event: Result<CoordinatorEvent, CoordinatorError>)
    ensures
        match event {
            Ok(event) => !holds_secret && event == (CoordinatorEvent::InvocationFinished {
                invocation,
                result: Arc::new(result),
            }),
            Err(error) => holds_secret && error == CoordinatorError::SecretInDurableData,
        },
{
    if holds_secret {
        return Err(CoordinatorError::SecretInDurableData);
    }
    Ok(CoordinatorEvent::InvocationFinished { invocation, result: Arc::new(result) })
}

/// An invocation's releases are recorded: it is no longer live, and whoever
/// waits for it is told its result.
pub fn on_invocation_released(
    state: &CoordinatorState,
    live: &mut LiveInvocations,
    invocation: InvocationId,
) -> (result: Arc<InvocationResult>)
    requires
        state.spec_invocation(invocation) matches Some(found) && found.result is Some,
    ensures
        final(live)@ == old(live)@.remove(invocation.0),
        Some(result) == state.spec_invocation(invocation)->0.result,
{
    live.remove(invocation);
    let found = match state.invocation(invocation) {
        Some(found) => share_option(&found.result),
        None => None,
    };
    found.unwrap()
}

// ── The loop ───────────────────────────────────────────────────────────

/// What a run does first.
#[derive(Clone, Copy, Debug, PartialEq, Eq, Structural)]
pub enum OpeningStep {
    /// The root has its result: its unfinished descendants are settled.
    Settle,
    Start,
}

/// What a run does first: start its root, or settle what a finished root
/// left behind.
pub fn opening_step(state: &CoordinatorState) -> (step: OpeningStep)
    requires
        state.spec_invocation(InvocationId::root()) is Some,
    ensures
        step == (if state.spec_invocation(InvocationId::root())->0.result is Some {
            OpeningStep::Settle
        } else {
            OpeningStep::Start
        }),
{
    match state.invocation(InvocationId::root()) {
        Some(root) => if root.result.is_some() {
            OpeningStep::Settle
        } else {
            OpeningStep::Start
        },
        None => OpeningStep::Start,
    }
}

/// What the drive loop keeps between events: the live invocations, the fork
/// gates, and the stopped executions that wait for their descendants.
#[derive(Debug)]
pub struct DriveLoop {
    pub live: LiveInvocations,
    pub gates: ForkGates,
    pub completed: Table<CompletedExecution>,
}

/// Whether a stopped execution is the next to complete: its invocation is
/// the lowest without a live descendant.
pub open spec fn is_next(
    state: CoordinatorState,
    live: Map<u64, LiveInvocation>,
    completed: Map<u64, CompletedExecution>,
    id: u64,
) -> bool {
    &&& completed.contains_key(id)
    &&& !has_live_descendant(state, live, InvocationId(id))
    &&& forall|other: u64| #[trigger]
        completed.contains_key(other) && other < id ==> has_live_descendant(
            state,
            live,
            InvocationId(other),
        )
}

impl DriveLoop {
    /// The stopped executions by their invocation.
    pub open spec fn stopped(&self) -> Map<u64, CompletedExecution> {
        self.completed@
    }

    pub open spec fn wf(&self) -> bool {
        &&& self.gates.wf()
        &&& forall|id: u64| #[trigger]
            self.completed@.contains_key(id) ==> self.completed@[id].invocation.0 == id
    }

    pub fn new() -> (drive: DriveLoop)
        ensures
            drive.wf(),
            drive.gates.wf(),
            drive.live@ == Map::<u64, LiveInvocation>::empty(),
            drive.stopped() == Map::<u64, CompletedExecution>::empty(),
    {
        DriveLoop {
            live: LiveInvocations::new(),
            gates: ForkGates::new(),
            completed: Table::new(),
        }
    }

    /// A driver stopped: its invocation no longer runs, its report is
    /// checked, and its unfinished descendants are to be settled. A failed
    /// report ends the run.
    pub fn on_execution_done(
        &mut self,
        state: &CoordinatorState,
        done: &CompletedExecution,
        observer_errors: &Vec<String>,
    ) -> (plan: Result<SettlePlan, CoordinatorError>)
        requires
            old(self).wf(),
            runs(old(self).live@, done.invocation.0, done.execution),
        ensures
            final(self).wf(),
            final(self).live@ == old(self).live@.insert(
                done.invocation.0,
                LiveInvocation::Stopped,
            ),
            final(self).gates@ == old(self).gates@,
            final(self).stopped() == old(self).stopped(),
            match plan {
                Ok(plan) => {
                    let descendants = unfinished_under(
                        *state,
                        state.invocations@,
                        done.invocation,
                        false,
                    );
                    &&& observer_errors@.len() == 0
                    &&& plan.cancel.records@ == cancel_records(
                        uncancelled(descendants),
                        InvocationId::root(),
                        None,
                    )
                    &&& plan.cancel.told@ == cancel_told(uncancelled(descendants), false)
                    &&& plan.started@ == affected_ids(descendants)
                },
                Err(error) => observer_errors@.len() > 0 && error
                    == (CoordinatorError::EventWriter {
                    execution: done.execution,
                    message: observer_errors@[0],
                }),
            },
    {
        self.live.stop(done.invocation, done.execution);
        match check_report(done.execution, observer_errors) {
            Ok(()) => Ok(settle_descendants(state, done.invocation)),
            Err(error) => Err(error),
        }
    }

    /// A stopped execution's descendants are settled: the fork gates nothing
    /// uses any more are dropped, and it waits to complete.
    pub fn settled(&mut self, state: &CoordinatorState, done: CompletedExecution)
        requires
            old(self).wf(),
        ensures
            final(self).wf(),
            final(self).live@ == old(self).live@,
            forall|key: (u64, Seq<char>)| #[trigger]
                final(self).gates@.contains_key(key) <==> old(self).gates@.contains_key(key)
                    && in_use(*state, old(self).live@, key, old(self).gates@[key]),
            forall|key: (u64, Seq<char>)| #[trigger]
                final(self).gates@.contains_key(key) ==> final(self).gates@[key] == old(
                    self,
                ).gates@[key],
            final(self).stopped() == old(self).stopped().insert(done.invocation.0, done),
    {
        self.gates.drop_idle(state, &self.live);
        self.completed.insert(done.invocation.0, done);
    }

    /// Take the next stopped execution to complete: the one of the lowest
    /// invocation without a live descendant. Completing it can make its
    /// caller's ready too.
    pub fn take_ready(&mut self, state: &CoordinatorState) -> (ready: Option<CompletedExecution>)
        requires
            old(self).wf(),
        ensures
            final(self).wf(),
            final(self).live@ == old(self).live@,
            final(self).gates@ == old(self).gates@,
            match ready {
                Some(done) => {
                    let id = done.invocation.0;
                    &&& is_next(*state, old(self).live@, old(self).stopped(), id)
                    &&& old(self).stopped()[id] == done
                    &&& final(self).stopped() == old(self).stopped().remove(id)
                },
                None => {
                    &&& forall|id: u64| #[trigger]
                        old(self).stopped().contains_key(id) ==> has_live_descendant(
                            *state,
                            old(self).live@,
                            InvocationId(id),
                        )
                    &&& final(self).stopped() == old(self).stopped()
                },
            },
    {
        let ghost stopped = self.completed@;
        let entries = self.completed.entries();
        let mut ids: Vec<InvocationId> = Vec::new();
        let mut i: usize = 0;
        while i < entries.len()
            invariant
                i <= entries.len(),
                ids@.len() == i,
                forall|j: int| 0 <= j < i ==> (#[trigger] ids@[j]).0 == entries@[j].0,
            decreases entries.len() - i,
        {
            ids.push(InvocationId(entries[i].0));
            i = i + 1;
        }
        let ghost all = by_id(stopped);
        let ready = ready_invocation(state, &self.live, &ids);
        let ghost p = may_complete(*state, self.live@);
        proof {
            lemma_first_satisfies(ids@, p);
            lemma_first_is_lowest(ids@, p);
            assert forall|id: u64| #[trigger] stopped.contains_key(id) implies exists|k: int|
                0 <= k < ids@.len() && #[trigger] ids@[k] == InvocationId(id) by {
                let k = choose|k: int| 0 <= k < all.len() && (#[trigger] all[k]).0 == id;
                assert(entries@[k].0 == id);
                assert(ids@[k] == InvocationId(id));
            }
        }
        match ready {
            Some(invocation) => {
                proof {
                    let k = choose|k: int| 0 <= k < ids@.len() && ids@[k] == invocation;
                    assert(entries@[k].0 == invocation.0);
                    lemma_entry(all, k);
                    assert(stopped.contains_key(invocation.0));
                    assert(invocation == InvocationId(invocation.0));
                    assert(p(invocation));
                    assert forall|other: u64| #[trigger]
                        stopped.contains_key(other) && other < invocation.0 implies has_live_descendant(
                        *state,
                        self.live@,
                        InvocationId(other),
                    ) by {
                        let m = choose|m: int|
                            0 <= m < ids@.len() && #[trigger] ids@[m] == InvocationId(other);
                        assert(!p(ids@[m]));
                    }
                }
                self.completed.remove(invocation.0)
            },
            None => {
                proof {
                    assert forall|id: u64| #[trigger]
                        stopped.contains_key(id) implies has_live_descendant(
                        *state,
                        self.live@,
                        InvocationId(id),
                    ) by {
                        let k = choose|k: int|
                            0 <= k < ids@.len() && #[trigger] ids@[k] == InvocationId(id);
                        assert(!p(ids@[k]));
                    }
                }
                None
            },
        }
    }
}

proof fn lemma_first_is_lowest(s: Seq<InvocationId>, p: spec_fn(InvocationId) -> bool)
    requires
        forall|i: int, j: int| 0 <= i < j < s.len() ==> (#[trigger] s[i]).0 < (#[trigger] s[j]).0,
    ensures
        first_where(s, p) matches Some(found) ==> s.contains(found) && forall|i: int|
            0 <= i < s.len() && (#[trigger] s[i]).0 < found.0 ==> !p(s[i]),
    decreases s.len(),
{
    if s.len() > 0 {
        if p(s.first()) {
            assert(s[0] == s.first());
            assert forall|i: int| 0 <= i < s.len() && (#[trigger] s[i]).0 < s[0].0 implies !p(
                s[i],
            ) by {
                if i > 0 {
                    assert(s[0].0 < s[i].0);
                }
            }
        } else {
            let rest = s.drop_first();
            assert forall|i: int, j: int| 0 <= i < j < rest.len() implies (#[trigger] rest[i]).0 < (
            #[trigger] rest[j]).0 by {
                assert(s[i + 1].0 < s[j + 1].0);
            }
            lemma_first_is_lowest(rest, p);
            if let Some(found) = first_where(s, p) {
                assert(rest.contains(found));
                let k = choose|k: int| 0 <= k < rest.len() && rest[k] == found;
                assert(s[k + 1] == found);
                assert forall|i: int| 0 <= i < s.len() && (#[trigger] s[i]).0 < found.0 implies !p(
                    s[i],
                ) by {
                    if i > 0 {
                        assert(rest[i - 1] == s[i]);
                    }
                }
            }
        }
    }
}

/// A note from a run-level hook point.
#[derive(Debug)]
pub struct RunLevelNote {
    pub kind: String,
    pub payload: Json,
}

/// The records of an execution's run-level notes.
pub open spec fn note_records(execution: ExecutionId, notes: Seq<RunLevelNote>) -> Seq<
    CoordinatorEvent,
> {
    notes.map_values(
        |note: RunLevelNote|
            CoordinatorEvent::RunNoteRecorded {
                execution: Some(execution),
                kind: note.kind,
                payload: note.payload,
            },
    )
}

/// The records of what an execution's run-level hook points noted, in their
/// order.
pub fn run_note_records(execution: ExecutionId, notes: Vec<RunLevelNote>) -> (records: Vec<
    CoordinatorEvent,
>)
    ensures
        records@ == note_records(execution, notes@),
{
    let mut records: Vec<CoordinatorEvent> = Vec::new();
    let mut i: usize = 0;
    while i < notes.len()
        invariant
            i <= notes.len(),
            records@ == note_records(execution, notes@).take(i as int),
        decreases notes.len() - i,
    {
        records.push(
            CoordinatorEvent::RunNoteRecorded {
                execution: Some(execution),
                kind: notes[i].kind.clone(),
                payload: notes[i].payload.clone(),
            },
        );
        assert(records@ =~= note_records(execution, notes@).take(i + 1));
        i = i + 1;
    }
    assert(records@ =~= note_records(execution, notes@));
    records
}

/// Whether an execution's observers stored what they were handed: the first
/// error one of them reported otherwise.
pub fn check_report(execution: ExecutionId, observer_errors: &Vec<String>) -> (checked: Result<
    (),
    CoordinatorError,
>)
    ensures
        checked == (if observer_errors@.len() > 0 {
            Err::<(), CoordinatorError>(
                CoordinatorError::EventWriter { execution, message: observer_errors@[0] },
            )
        } else {
            Ok(())
        }),
{
    if observer_errors.len() > 0 {
        return Err(
            CoordinatorError::EventWriter { execution, message: observer_errors[0].clone() },
        );
    }
    Ok(())
}

} // verus!

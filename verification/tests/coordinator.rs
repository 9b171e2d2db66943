use std::sync::Arc;

use execution::client::{finished_result, on_control, InvocationRequest, InvokeError, WaitStep};
use execution::coordinator::drive::{
    cancel_request, check_report, complete_execution, current_execution, declare_first_execution,
    declare_root, finish_execution, finish_run, hook_context, invocation_secrets,
    on_invocation_released, open_resumed, opening_step, pause_record, prepare_execution,
    ready_invocation, record_result, recorded_exit, root_result, run_note_records,
    start_invocation, CompletedExecution, CompletionStep, DriveLoop, OpeningStep, ResumedRun,
    RunLevelNote, StartStep,
};
use execution::coordinator::gate::{fork_admission, ForkGates};
use execution::coordinator::leases::{
    leases_to_reconcile, RecordedLease, owned_leases, plan_reservation, prepare_sandbox, remaining_leases,
    reserved, scope_outcome, scope_released, validate_resources, LeaseRecord,
    SandboxAllocationKey, SandboxPlan,
};
use execution::coordinator::live::LiveInvocations;
use execution::coordinator::result::project_result;
use execution::coordinator::start::{
    accepts_start, after_attach, after_requeue, attached_status, resolve_start, StartOutcome,
};
use execution::coordinator::tree::{handle_cancel, is_descendant_or_same, settle_descendants};
use execution::coordinator::{
    CoordinatorError, CoordinatorOptions, InvocationLimitError, ResourceError,
    DEFAULT_MAX_INVOCATIONS, MAX_INVOCATIONS,
};
use execution::event::{
    AttemptAdmission, CallSite, CancelReason, CancelRequest, CoordinatorEvent, InvocationResult,
    InvocationStatus, ParentCallKey, SandboxBinding, SandboxMode, ScopeIdentity, ScopeOutcome,
    SecretBindings, COORDINATOR_FORMAT_VERSION,
};
use execution::ids::{
    Attempt, CancelScopeId, EdgeId, ExecutionId, FiringId, Generation, GraphDigest, InvocationId,
    NodeId, SandboxLeaseId, ScopeId,
};
use execution::json::Json;
use execution::model::{
    FailureInfo, Graph, Metrics, Node, Outcome, ResultProjection, RunPolicy, RunStatus,
    RuntimeTarget, Scope, ScopeRuntime, Status,
};
use execution::record::{
    CancelTarget, Control, EngineExit, EngineStart, EntryPoint, Event, EventOrigin, EventRecord,
};
use execution::run_state::{
    CoordinatorState, ExecutionDeclaration, ExecutionState, InvocationDeclaration, InvocationState,
    StateError, StoreError,
};
use execution::state::{BranchMap, EngineState, HistoryEntry, NodeRecord};
use execution::wire::read_json;

fn json(text: &str) -> Json {
    read_json(text.as_bytes()).expect("a JSON text")
}

fn shown<T: std::fmt::Debug>(value: &T) -> String {
    format!("{value:?}")
}

const GRAPH: GraphDigest = GraphDigest { high: 1, low: 2 };

fn key(parent: u64, firing: u64, attempt: u32, slot: &str) -> ParentCallKey {
    ParentCallKey {
        parent: ExecutionId(parent),
        firing: FiringId(firing),
        attempt: Attempt(attempt),
        slot: slot.into(),
    }
}

fn invocation(id: u64, call: Option<ParentCallKey>, executions: Vec<u64>) -> InvocationState {
    InvocationState {
        declaration: InvocationDeclaration {
            id: InvocationId(id),
            call,
            graph: GRAPH,
            context: Arc::new(Vec::new()),
            secret_bindings: SecretBindings::NoSecrets,
            sandbox: SandboxBinding::Isolated,
            admission: None,
        },
        executions: executions.into_iter().map(ExecutionId).collect(),
        result: None,
        cancelled: false,
        cancel_reason: None,
    }
}

fn execution(id: u64, owner: u64, predecessor: Option<u64>) -> ExecutionState {
    ExecutionState {
        declaration: ExecutionDeclaration {
            id: ExecutionId(id),
            invocation: InvocationId(owner),
            predecessor: predecessor.map(ExecutionId),
            start: EngineStart {
                entry: EntryPoint::GraphEntries,
                context: Arc::new(Vec::new()),
                prior_firings: Arc::new(Vec::new()),
                execution_index: 0,
                max_executions: 3,
            },
            middleware_state: Arc::new(Vec::new()),
        },
        exit: None,
    }
}

/// A root with two children, and a grandchild under the first.
fn tree() -> CoordinatorState {
    CoordinatorState {
        root: Some(InvocationId(0)),
        graphs: vec![GRAPH],
        middleware_chain: Arc::new(vec!["breaker".into()]),
        invocations: vec![
            invocation(0, None, vec![0]),
            invocation(1, Some(key(0, 5, 1, "a")), vec![1]),
            invocation(2, Some(key(0, 6, 1, "b")), vec![2]),
            invocation(3, Some(key(1, 7, 1, "c")), vec![3]),
        ],
        executions: vec![
            execution(0, 0, None),
            execution(1, 1, None),
            execution(2, 2, None),
            execution(3, 3, None),
        ],
        run_status: None,
        paused: false,
        run_notes: Arc::new(Vec::new()),
    }
}

fn options() -> CoordinatorOptions {
    CoordinatorOptions {
        max_invocations: 8,
        max_executions: 3,
    }
}

fn result(status: RunStatus) -> Arc<InvocationResult> {
    Arc::new(InvocationResult {
        status,
        failure: None,
        final_execution: ExecutionId(0),
        output: Json::Null,
        context: Arc::new(Vec::new()),
        updates: Arc::new(Vec::new()),
    })
}

fn graph(result: ResultProjection) -> Graph {
    Graph {
        nodes: vec![Node {
            id: NodeId(0),
            name: "answer".into(),
            kind: "noop".into(),
            meta: Json::Null,
        }],
        edges: Vec::new(),
        scopes: vec![Scope {
            id: ScopeId(0),
            runtime: host_runtime(),
        }],
        result,
        policy: RunPolicy {
            max_invocations: None,
            loop_restart_signature_limit: None,
        },
    }
}

fn host_runtime() -> ScopeRuntime {
    ScopeRuntime {
        target: RuntimeTarget::HostProcess,
        settings: String::new(),
    }
}

fn engine_state(projection: ResultProjection) -> EngineState {
    EngineState {
        graph: graph(projection),
        branches: Arc::new(BranchMap {
            covered: 1,
            roles: Vec::new(),
            expansions: Vec::new(),
        }),
        history: Vec::new(),
        live: Vec::new(),
        awaiting_admission: Vec::new(),
        killed: Vec::new(),
        firing_counts: Vec::new(),
        started: true,
        finished: true,
        cancelled: false,
        exit: None,
        folded_status: RunStatus::Success,
        errors: Vec::new(),
        kv: Arc::new(vec![("k".into(), json("1"))]),
        nodes: Vec::new(),
        prior_firings: vec![(NodeId(0), 2), (NodeId(9), 4)],
    }
}

fn outcome(failure: Option<&str>, updates: Vec<(String, Json)>) -> Arc<Outcome> {
    Arc::new(Outcome {
        status: Status {
            tag: if failure.is_some() { "failed" } else { "success" }.into(),
            success_like: failure.is_none(),
            cancelled: false,
            failure: failure.map(|message| FailureInfo {
                message: message.into(),
                class: None,
            }),
        },
        output: Json::Null,
        context_updates: Arc::new(updates),
        metrics: Metrics { duration_ms: None },
    })
}

fn history(node: u32, outcome: Arc<Outcome>) -> HistoryEntry {
    HistoryEntry {
        firing: FiringId(1),
        node: NodeId(node),
        name: "answer".into(),
        generation: Generation(0),
        attempt: Attempt(1),
        outcome,
    }
}

// ── Options ────────────────────────────────────────────────────────────

#[test]
fn an_invocation_limit_is_lowered_and_never_disabled_or_raised() {
    let options = CoordinatorOptions::new(3);
    assert_eq!(options.max_invocations, DEFAULT_MAX_INVOCATIONS);
    assert_eq!(options.with_max_invocations(5).map(|o| o.max_invocations), Ok(5));
    assert_eq!(
        options.with_max_invocations(MAX_INVOCATIONS).map(|o| o.max_invocations),
        Ok(10_000)
    );
    let disabled = options.with_max_invocations(0).expect_err("refused");
    assert_eq!(disabled, InvocationLimitError::Disabled);
    assert_eq!(
        disabled.message(),
        "the invocation limit cannot be disabled; it must be at least 1"
    );
    let above = options.with_max_invocations(10_001).expect_err("refused");
    assert_eq!(
        above,
        InvocationLimitError::AboveCeiling { requested: 10_001, ceiling: 10_000 }
    );
    assert_eq!(
        above.message(),
        "the invocation limit 10001 is above the hard ceiling of 10000"
    );
    assert!(CoordinatorOptions::check_limit(1).is_ok());
}

// ── Resuming ───────────────────────────────────────────────────────────

fn resumed() -> ResumedRun {
    ResumedRun {
        format_version: COORDINATOR_FORMAT_VERSION,
        graphs: vec![(GRAPH, graph(ResultProjection::Nothing))],
        replayed: Vec::new(),
        leases: Vec::new(),
    }
}

/// A run of another format is refused at resume by its run declaration: the
/// no-migration policy.
#[test]
fn a_run_of_another_format_is_refused_at_resume() {
    let run = ResumedRun {
        format_version: 1,
        ..resumed()
    };
    let error = open_resumed(&options(), &tree(), &run, &vec!["breaker".into()])
        .err()
        .expect("an old format is refused");
    assert!(
        matches!(
            error,
            CoordinatorError::Store(StoreError::UnsupportedFormat {
                found: 1,
                expected: COORDINATOR_FORMAT_VERSION,
            })
        ),
        "{error:?}"
    );
}

#[test]
fn a_resume_checks_the_limit_the_chain_and_the_leases() {
    let chain = vec!["breaker".to_string()];
    assert!(open_resumed(&options(), &tree(), &resumed(), &chain).is_ok());
    assert!(matches!(
        open_resumed(
            &CoordinatorOptions { max_invocations: 0, ..options() },
            &tree(),
            &resumed(),
            &chain
        ),
        Err(CoordinatorError::InvalidInvocationLimit(InvocationLimitError::Disabled))
    ));
    assert!(matches!(
        open_resumed(&options(), &tree(), &resumed(), &Vec::new()),
        Err(CoordinatorError::Store(StoreError::State(StateError::MiddlewareChain)))
    ));
    assert!(matches!(
        open_resumed(
            &CoordinatorOptions { max_invocations: 3, ..options() },
            &tree(),
            &resumed(),
            &chain
        ),
        Err(CoordinatorError::InvocationLimit { total: 4, limit: 3 })
    ));
    let mut state = tree();
    state.invocations[2].declaration.sandbox = SandboxBinding::Inherited {
        lease: SandboxLeaseId(9),
    };
    assert!(matches!(
        open_resumed(&options(), &state, &resumed(), &chain),
        Err(CoordinatorError::Resource(ResourceError::UnknownLease(SandboxLeaseId(9))))
    ));
    state.invocations[2].result = Some(result(RunStatus::Success));
    assert!(open_resumed(&options(), &state, &resumed(), &chain).is_ok());
}

// ── The root ───────────────────────────────────────────────────────────

#[test]
fn a_root_request_is_declared_once() {
    let context = Arc::new(vec![("goal".to_string(), json("\"ship\""))]);
    let mut state = tree();
    state.invocations.clear();
    let event = declare_root(&state, GRAPH, &context, false)
        .expect("accepted")
        .expect("declared");
    assert!(matches!(
        event,
        CoordinatorEvent::InvocationDeclared {
            invocation: InvocationId(0),
            call: None,
            sandbox: SandboxBinding::Isolated,
            secret_bindings: SecretBindings::NoSecrets,
            ..
        }
    ));
    state.invocations.push(invocation(0, None, Vec::new()));
    state.invocations[0].declaration.context = context.clone();
    assert!(matches!(declare_root(&state, GRAPH, &context, false), Ok(None)));
    assert!(matches!(
        declare_root(&state, GRAPH, &Arc::new(Vec::new()), false),
        Err(CoordinatorError::RootRequestMismatch)
    ));
    assert!(matches!(
        declare_root(&state, GRAPH, &context, true),
        Err(CoordinatorError::SecretInDurableData)
    ));
    assert!(matches!(
        declare_root(&state, GraphDigest { high: 0, low: 0 }, &context, false),
        Err(CoordinatorError::UnknownGraph(_))
    ));
}

#[test]
fn the_run_ends_once_with_its_root_s_result() {
    let mut state = tree();
    let mut live = LiveInvocations::new();
    assert!(root_result(&state, &live).is_none());
    assert_eq!(opening_step(&state), OpeningStep::Start);
    state.invocations[0].result = Some(result(RunStatus::Failed));
    assert_eq!(opening_step(&state), OpeningStep::Settle);
    live.queue(InvocationId(2));
    assert!(root_result(&state, &live).is_none(), "a child is live");
    live.remove(InvocationId(2));
    assert_eq!(
        root_result(&state, &live).map(|result| result.status),
        Some(RunStatus::Failed)
    );
    assert!(matches!(
        finish_run(&state, RunStatus::Failed),
        Some(CoordinatorEvent::RunFinished { status: RunStatus::Failed })
    ));
    state.run_status = Some(RunStatus::Failed);
    assert!(finish_run(&state, RunStatus::Failed).is_none());
}

#[test]
fn an_exit_is_recorded_once_and_must_agree() {
    let mut state = tree();
    let exit = EngineExit::Terminal { status: RunStatus::Success };
    assert!(matches!(
        recorded_exit(&state, ExecutionId(1)),
        Err(CoordinatorError::MissingExit(ExecutionId(1)))
    ));
    assert!(matches!(
        finish_execution(&state, ExecutionId(1), exit),
        Ok(Some(CoordinatorEvent::ExecutionFinished { execution: ExecutionId(1), .. }))
    ));
    state.executions[1].exit = Some(exit);
    assert_eq!(recorded_exit(&state, ExecutionId(1)).ok(), Some(exit));
    assert!(matches!(finish_execution(&state, ExecutionId(1), exit), Ok(None)));
    assert!(matches!(
        finish_execution(
            &state,
            ExecutionId(1),
            EngineExit::Terminal { status: RunStatus::Failed }
        ),
        Err(CoordinatorError::ConflictingExit { execution: ExecutionId(1) })
    ));
}

// ── The tree ───────────────────────────────────────────────────────────

#[test]
fn a_cancel_reaches_unfinished_descendants_once() {
    let mut state = tree();
    state.invocations[1].cancelled = true;
    let plan = handle_cancel(
        &state,
        &CancelRequest {
            invocation: InvocationId(0),
            reason: Some(CancelReason::Interrupt),
            escalate: false,
        },
    );
    let recorded: Vec<String> = plan.records.iter().map(shown).collect();
    let expected: Vec<String> = [
        (0, Some(CancelReason::Interrupt)),
        (2, None),
        (3, None),
    ]
    .into_iter()
    .map(|(id, reason)| {
        shown(&CoordinatorEvent::InvocationCancelRequested {
            invocation: InvocationId(id),
            reason,
        })
    })
    .collect();
    assert_eq!(recorded, expected);
    assert_eq!(
        plan.told,
        vec![InvocationId(0), InvocationId(2), InvocationId(3)]
    );
    let again = handle_cancel(&state, &cancel_request(InvocationId(1), None));
    assert_eq!(again.told, vec![InvocationId(1), InvocationId(3)], "it escalates");
    assert_eq!(again.records.len(), 1);
    state.invocations[3].result = Some(result(RunStatus::Success));
    let plan = handle_cancel(&state, &cancel_request(InvocationId(1), None));
    assert_eq!(plan.told, vec![InvocationId(1)]);
    let unknown = handle_cancel(&state, &cancel_request(InvocationId(77), None));
    assert!(unknown.records.is_empty() && unknown.told.is_empty());
}

#[test]
fn descent_follows_the_calls() {
    let state = tree();
    assert!(is_descendant_or_same(&state, InvocationId(3), InvocationId(0)));
    assert!(is_descendant_or_same(&state, InvocationId(3), InvocationId(1)));
    assert!(is_descendant_or_same(&state, InvocationId(3), InvocationId(3)));
    assert!(!is_descendant_or_same(&state, InvocationId(3), InvocationId(2)));
    assert!(!is_descendant_or_same(&state, InvocationId(0), InvocationId(3)));
}

#[test]
fn settling_cancels_and_starts_the_unfinished_descendants() {
    let mut state = tree();
    state.invocations[3].cancelled = true;
    let plan = settle_descendants(&state, InvocationId(0));
    assert_eq!(plan.started, vec![InvocationId(1), InvocationId(2), InvocationId(3)]);
    assert_eq!(plan.cancel.told, vec![InvocationId(1), InvocationId(2)]);
    assert_eq!(plan.cancel.records.len(), 2);
}

// ── Starting ───────────────────────────────────────────────────────────

fn request(firing: u64, attempt: u32, slot: &str) -> InvocationRequest {
    InvocationRequest::new(
        CallSite {
            firing: FiringId(firing),
            attempt: Attempt(attempt),
            slot: slot.into(),
        },
        GRAPH,
        Arc::new(Vec::new()),
        SecretBindings::NoSecrets,
        SandboxMode::Isolated,
    )
}

fn start(
    state: &CoordinatorState,
    live: &LiveInvocations,
    request: &InvocationRequest,
) -> Result<StartOutcome, InvokeError> {
    resolve_start(
        state,
        &options(),
        live,
        &Vec::new(),
        ExecutionId(0),
        request,
        false,
        &Ok(graph(ResultProjection::Nothing)),
        InvocationId(4),
    )
}

#[test]
fn the_same_call_attaches_and_a_new_one_is_declared() {
    let state = tree();
    let live = LiveInvocations::new();
    assert!(matches!(
        start(&state, &live, &request(5, 1, "a")),
        Ok(StartOutcome::Attach { invocation: InvocationId(1) })
    ));
    let Ok(StartOutcome::Declare { invocation, event }) = start(&state, &live, &request(5, 1, "z"))
    else {
        panic!("a new child");
    };
    assert_eq!(invocation, InvocationId(4));
    assert!(matches!(
        event,
        CoordinatorEvent::InvocationDeclared { invocation: InvocationId(4), call: Some(call), .. }
            if call.slot == "z" && call.parent == ExecutionId(0)
    ));
}

#[test]
fn a_retried_call_waits_for_the_attempt_it_supersedes() {
    let mut state = tree();
    let live = LiveInvocations::new();
    let Ok(StartOutcome::Requeue { previous, cancel }) = start(&state, &live, &request(5, 2, "a"))
    else {
        panic!("a superseded attempt");
    };
    assert_eq!(previous, InvocationId(1));
    assert_eq!(cancel.told, vec![InvocationId(1), InvocationId(3)]);
    assert_eq!(after_requeue(&live, previous), Some(InvocationId(1)));
    state.invocations[1].result = Some(result(RunStatus::Cancelled));
    assert!(matches!(
        start(&state, &live, &request(5, 2, "a")),
        Ok(StartOutcome::Declare { .. })
    ));
}

#[test]
fn a_start_is_refused_for_what_the_run_cannot_give() {
    let state = tree();
    let live = LiveInvocations::new();
    let mut changed = request(5, 1, "a");
    changed.context = Arc::new(vec![("x".into(), json("1"))]);
    assert!(matches!(
        start(&state, &live, &changed),
        Err(InvokeError::RequestMismatch)
    ));
    let mut unknown = request(5, 1, "q");
    unknown.graph = GraphDigest { high: 0, low: 9 };
    let error = start(&state, &live, &unknown).expect_err("unknown");
    assert!(error.message().starts_with("unknown invocation graph "));
    let full = resolve_start(
        &state,
        &CoordinatorOptions { max_invocations: 4, ..options() },
        &live,
        &Vec::new(),
        ExecutionId(0),
        &request(5, 1, "q"),
        false,
        &Ok(graph(ResultProjection::Nothing)),
        InvocationId(4),
    )
    .expect_err("full");
    assert_eq!(
        full.message(),
        "the run-wide invocation limit is reached: 4 of 4 invocations are declared, so execution 0 firing 5 cannot start `q`"
    );
    let mut inherits = request(5, 1, "q");
    inherits.sandbox = SandboxMode::Inherit { scope: ScopeId(0) };
    assert!(matches!(
        start(&state, &live, &inherits),
        Err(InvokeError::NoInheritableSandbox)
    ));
}

fn lease(id: u64, owner: u64) -> LeaseRecord {
    LeaseRecord {
        lease: SandboxLeaseId(id),
        allocation: SandboxAllocationKey {
            invocation: InvocationId(owner),
            scope: ScopeIdentity::Declared(ScopeId(0)),
        },
        provider: "host".into(),
        workspace: format!("ws-{id}"),
        runtime: host_runtime(),
        introduced_by: None,
        resource_id: Some("r".into()),
        deleted: false,
        needs_release: true,
    }
}

#[test]
fn a_child_inherits_the_lease_its_caller_acquired() {
    let state = tree();
    let mut live = LiveInvocations::new();
    live.run(InvocationId(0), ExecutionId(0), true);
    live.acquired(InvocationId(0), ScopeId(0), SandboxLeaseId(4));
    let mut inherits = request(5, 1, "q");
    inherits.sandbox = SandboxMode::Inherit { scope: ScopeId(0) };
    let resolve = |records: &Vec<LeaseRecord>, child: Graph| {
        resolve_start(
            &state,
            &options(),
            &live,
            records,
            ExecutionId(0),
            &inherits,
            false,
            &Ok(child),
            InvocationId(4),
        )
    };
    let records = vec![lease(4, 0)];
    assert!(matches!(
        resolve(&records, graph(ResultProjection::Nothing)),
        Ok(StartOutcome::Declare {
            event: CoordinatorEvent::InvocationDeclared {
                sandbox: SandboxBinding::Inherited { lease: SandboxLeaseId(4) },
                ..
            },
            ..
        })
    ));
    let mut other = graph(ResultProjection::Nothing);
    other.scopes[0].runtime.target = RuntimeTarget::Container {
        image: "debian".into(),
        options: String::new(),
    };
    assert!(matches!(
        resolve(&records, other),
        Err(InvokeError::InheritedContainerMismatch { scope: ScopeId(0) })
    ));
    let mut gone = lease(4, 0);
    gone.deleted = true;
    assert!(matches!(
        resolve(&vec![gone], graph(ResultProjection::Nothing)),
        Err(InvokeError::Coordinator(text)) if text == "deleted sandbox lease 4"
    ));
    assert!(accepts_start(&live, ExecutionId(0), false));
    assert!(!accepts_start(&live, ExecutionId(0), true));
    assert!(!accepts_start(&live, ExecutionId(1), false));
}

#[test]
fn an_undelivered_attach_cancels_the_child() {
    let state = tree();
    let live = LiveInvocations::new();
    let plan = after_attach(&state, &live, ExecutionId(0), InvocationId(1), false, true);
    assert!(plan.cancel.records.is_empty());
    assert_eq!(plan.start, Some(InvocationId(1)));
    let plan = after_attach(&state, &live, ExecutionId(0), InvocationId(1), false, false);
    assert_eq!(plan.cancel.told, vec![InvocationId(1)]);
    assert_eq!(plan.start, None);
    let plan = after_attach(&state, &live, ExecutionId(0), InvocationId(1), true, false);
    assert_eq!(plan.start, Some(InvocationId(1)), "a new child is started to settle");
    assert!(matches!(
        attached_status(&state, InvocationId(1)),
        InvocationStatus::Declared
    ));
}

// ── Gates ──────────────────────────────────────────────────────────────

#[test]
fn a_fork_s_children_are_admitted_in_order() {
    let mut state = tree();
    for id in [1, 2] {
        state.invocations[id].declaration.admission = Some(AttemptAdmission {
            gate: "fork".into(),
            max_parallel: 0,
        });
    }
    let mut live = LiveInvocations::new();
    let mut gates = ForkGates::new();
    assert_eq!(
        start_invocation(&state, &mut live, &mut gates, InvocationId(0)),
        StartStep::Dispatch
    );
    assert_eq!(
        start_invocation(&state, &mut live, &mut gates, InvocationId(1)),
        StartStep::Queued { begins: true }
    );
    assert_eq!(
        start_invocation(&state, &mut live, &mut gates, InvocationId(2)),
        StartStep::Queued { begins: false }
    );
    assert_eq!(
        start_invocation(&state, &mut live, &mut gates, InvocationId(2)),
        StartStep::Nothing
    );
    let admission = fork_admission(&state, InvocationId(1)).expect("gated");
    assert_eq!(gates.attempt_slots(&admission), 1, "a fork has a slot");
    assert_eq!(
        gates.admitted(ExecutionId(0), &"fork".to_string()),
        Some((InvocationId(1), true))
    );
    assert_eq!(
        gates.admitted(ExecutionId(0), &"fork".to_string()),
        Some((InvocationId(2), false))
    );
    assert_eq!(gates.admitted(ExecutionId(0), &"fork".to_string()), None);
    assert_eq!(gates.admitted(ExecutionId(0), &"other".to_string()), None);
}

// ── Completing ─────────────────────────────────────────────────────────

#[test]
fn children_complete_before_their_callers() {
    let state = tree();
    let mut live = LiveInvocations::new();
    live.run(InvocationId(0), ExecutionId(0), true);
    live.run(InvocationId(1), ExecutionId(1), true);
    live.run(InvocationId(3), ExecutionId(3), true);
    let stopped = vec![InvocationId(0), InvocationId(1), InvocationId(3)];
    assert_eq!(ready_invocation(&state, &live, &stopped), Some(InvocationId(3)));
    live.remove(InvocationId(3));
    assert_eq!(
        ready_invocation(&state, &live, &vec![InvocationId(0), InvocationId(1)]),
        Some(InvocationId(1))
    );
    assert_eq!(ready_invocation(&state, &live, &vec![InvocationId(0)]), None);
}

fn completed(invocation: u64, execution: u64, exit: EngineExit) -> CompletedExecution {
    CompletedExecution {
        invocation: InvocationId(invocation),
        execution: ExecutionId(execution),
        exit,
        middleware_state: Arc::new(Vec::new()),
    }
}

#[test]
fn the_drive_loop_completes_stopped_executions_bottom_up() {
    let state = tree();
    let mut drive = DriveLoop::new();
    let exit = EngineExit::Terminal { status: RunStatus::Success };
    for (invocation, execution) in [(0, 0), (1, 1), (3, 3)] {
        drive.live.run(InvocationId(invocation), ExecutionId(execution), true);
    }
    let parent = completed(1, 1, exit);
    let plan = drive
        .on_execution_done(&state, &parent, &Vec::new())
        .expect("a clean report");
    assert_eq!(plan.started, vec![InvocationId(3)]);
    drive.settled(&state, parent);
    assert!(drive.take_ready(&state).is_none(), "its child is live");
    let child = completed(3, 3, exit);
    drive
        .on_execution_done(&state, &child, &Vec::new())
        .expect("a clean report");
    drive.settled(&state, child);
    let first = drive.take_ready(&state).expect("the child");
    assert_eq!(first.invocation, InvocationId(3));
    drive.live.mark_releasing(InvocationId(3));
    assert!(drive.take_ready(&state).is_none(), "its leases are being released");
    drive.live.remove(InvocationId(3));
    let second = drive.take_ready(&state).expect("the parent");
    assert_eq!(second.invocation, InvocationId(1));
    assert!(matches!(
        drive.on_execution_done(&state, &completed(0, 0, exit), &vec!["disk full".into()]),
        Err(CoordinatorError::EventWriter { execution: ExecutionId(0), message })
            if message == "disk full"
    ));
}

#[test]
fn a_restart_declares_its_successor_from_the_registered_graph() {
    let mut state = tree();
    let exit = EngineExit::Restart {
        edge: EdgeId(0),
        target: NodeId(0),
        source: FiringId(1),
    };
    let done = completed(1, 1, exit);
    let engine = engine_state(ResultProjection::Nothing);
    let plan = complete_execution(
        &state,
        &options(),
        &done,
        ExecutionId(4),
        &engine.graph,
        &engine,
    )
    .expect("completes");
    assert!(matches!(
        plan.recorded,
        Some(CoordinatorEvent::ExecutionFinished { execution: ExecutionId(1), .. })
    ));
    let CompletionStep::Restart {
        successor:
            Some(CoordinatorEvent::ExecutionDeclared {
                execution,
                invocation,
                predecessor,
                start,
                ..
            }),
    } = plan.step
    else {
        panic!("a successor");
    };
    assert_eq!(execution, ExecutionId(4));
    assert_eq!(invocation, InvocationId(1));
    assert_eq!(predecessor, Some(ExecutionId(1)));
    assert_eq!(start.entry, EntryPoint::Node(NodeId(0)));
    assert_eq!(*start.prior_firings, vec![(NodeId(0), 2)], "a splice's node is dropped");
    assert_eq!(start.execution_index, 1);
    assert_eq!(start.max_executions, 3);

    state.executions[1].exit = Some(exit);
    state.executions.push(execution_after(4, 1, 1));
    let plan = complete_execution(
        &state,
        &options(),
        &done,
        ExecutionId(5),
        &engine.graph,
        &engine,
    )
    .expect("completes");
    assert!(plan.recorded.is_none());
    assert!(matches!(plan.step, CompletionStep::Restart { successor: None }));

    state.executions.pop();
    state.invocations[1].executions = vec![ExecutionId(8), ExecutionId(9), ExecutionId(1)];
    let plan = complete_execution(
        &state,
        &options(),
        &done,
        ExecutionId(5),
        &engine.graph,
        &engine,
    )
    .expect("completes");
    assert!(matches!(
        plan.step,
        CompletionStep::Refused(CoordinatorError::ExecutionLimit { invocation: InvocationId(1) })
    ));
}

fn execution_after(id: u64, owner: u64, predecessor: u64) -> ExecutionState {
    execution(id, owner, Some(predecessor))
}

#[test]
fn a_terminal_exit_finishes_the_invocation() {
    let state = tree();
    let engine = engine_state(ResultProjection::Nothing);
    let done = completed(1, 1, EngineExit::Terminal { status: RunStatus::Success });
    let plan = complete_execution(
        &state,
        &options(),
        &done,
        ExecutionId(4),
        &engine.graph,
        &engine,
    )
    .expect("completes");
    let CompletionStep::Finish(result) = plan.step else {
        panic!("a result");
    };
    assert_eq!(result.status, RunStatus::Success);
    assert_eq!(result.final_execution, ExecutionId(1));
    assert!(matches!(
        record_result(InvocationId(1), result, false),
        Ok(CoordinatorEvent::InvocationFinished { invocation: InvocationId(1), .. })
    ));
    let again = project_result(ExecutionId(1), RunStatus::Success, &engine.graph, &engine);
    assert!(matches!(
        record_result(InvocationId(1), again, true),
        Err(CoordinatorError::SecretInDurableData)
    ));
}

#[test]
fn a_released_invocation_is_no_longer_live_and_has_its_result() {
    let mut state = tree();
    state.invocations[1].result = Some(result(RunStatus::Success));
    let mut live = LiveInvocations::new();
    live.run(InvocationId(1), ExecutionId(1), true);
    live.stop(InvocationId(1), ExecutionId(1));
    live.mark_releasing(InvocationId(1));
    let finished = on_invocation_released(&state, &mut live, InvocationId(1));
    assert_eq!(finished.status, RunStatus::Success);
    assert!(live.is_empty());
    assert_eq!(
        finished_result(&InvocationStatus::Finished(finished)).map(|r| r.status),
        Some(RunStatus::Success)
    );
    assert!(finished_result(&InvocationStatus::Declared).is_none());
}

// ── Results ────────────────────────────────────────────────────────────

#[test]
fn a_result_is_the_declared_node_s_output() {
    let mut state = engine_state(ResultProjection::NodeOutput(NodeId(0)));
    state.nodes.push((
        "answer".into(),
        NodeRecord {
            status: outcome(None, Vec::new()).status.clone(),
            output: json("42"),
            generation: Generation(0),
            attempts: 1,
        },
    ));
    state
        .history
        .push(history(0, outcome(None, vec![("k".into(), json("0"))])));
    state
        .history
        .push(history(0, outcome(None, vec![("k".into(), json("1"))])));
    let result = project_result(ExecutionId(3), RunStatus::Success, &state.graph, &state);
    assert_eq!(result.status, RunStatus::Success);
    assert!(result.output.same(&json("42")));
    assert_eq!(result.updates.len(), 1);
    assert!(result.updates[0].1.same(&json("1")), "the final record's writes");
    assert!(result.context[0].1.same(&json("1")));
    assert!(result.failure.is_none());
}

#[test]
fn a_success_without_its_result_node_has_failed() {
    let state = engine_state(ResultProjection::NodeOutput(NodeId(0)));
    let result = project_result(ExecutionId(3), RunStatus::Success, &state.graph, &state);
    assert_eq!(result.status, RunStatus::Failed);
    let failure = result.failure.expect("says why");
    assert_eq!(failure.message, "the declared invocation result node did not run");
    assert_eq!(failure.class.as_deref(), Some("invalid_invocation_result"));
    let cancelled = project_result(ExecutionId(3), RunStatus::Cancelled, &state.graph, &state);
    assert_eq!(cancelled.status, RunStatus::Cancelled);
    assert!(cancelled.failure.is_none());
}

#[test]
fn a_failed_execution_says_why() {
    let mut state = engine_state(ResultProjection::Nothing);
    let bare = project_result(ExecutionId(3), RunStatus::Failed, &state.graph, &state);
    assert_eq!(bare.failure.expect("says why").message, "execution failed");
    state.errors.push("no route".into());
    let error = project_result(ExecutionId(3), RunStatus::Failed, &state.graph, &state);
    assert_eq!(error.failure.expect("says why").message, "no route");
    state.history.push(history(0, outcome(Some("first"), Vec::new())));
    state.history.push(history(0, outcome(Some("second"), Vec::new())));
    state.history.push(history(0, outcome(None, Vec::new())));
    let step = project_result(ExecutionId(3), RunStatus::Failed, &state.graph, &state);
    assert_eq!(step.failure.expect("says why").message, "second");
}

// ── Preparing ──────────────────────────────────────────────────────────

#[test]
fn a_first_execution_enters_at_the_graph_s_entries() {
    let mut state = tree();
    assert_eq!(
        current_execution(&state, InvocationId(1)).ok(),
        Some(ExecutionId(1))
    );
    state.invocations[1].executions.clear();
    assert!(matches!(
        current_execution(&state, InvocationId(1)),
        Err(CoordinatorError::MissingExecution(InvocationId(1)))
    ));
    let middleware = Arc::new(vec![("breaker".to_string(), (1, Json::Null))]);
    let Some(CoordinatorEvent::ExecutionDeclared { execution, start, middleware_state, .. }) =
        declare_first_execution(&state, &options(), InvocationId(1), ExecutionId(9), &middleware)
    else {
        panic!("declared");
    };
    assert_eq!(execution, ExecutionId(9));
    assert_eq!(start.entry, EntryPoint::GraphEntries);
    assert_eq!(start.execution_index, 0);
    assert_eq!(start.max_executions, 3);
    assert_eq!(middleware_state.len(), 1);
    assert!(declare_first_execution(
        &tree(),
        &options(),
        InvocationId(1),
        ExecutionId(9),
        &middleware
    )
    .is_none());
}

fn logged(event: Event) -> EventRecord {
    EventRecord {
        seq: 0,
        origin: EventOrigin::External,
        event: Arc::new(event),
    }
}

#[test]
fn a_cancelled_execution_is_told_once() {
    let mut state = tree();
    state.invocations[1].cancelled = true;
    let fresh = prepare_execution(&state, InvocationId(1), &Vec::new());
    assert!(fresh.cancel_before_run && !fresh.resumes);
    assert_eq!(fresh.high_water, 0);
    let group = vec![logged(Event::CancelRequested {
        target: CancelTarget::Group(NodeId(0)),
    })];
    let resumed = prepare_execution(&state, InvocationId(1), &group);
    assert!(resumed.cancel_before_run && resumed.resumes);
    assert_eq!(resumed.high_water, 1);
    for event in [
        Event::CancelRequested {
            target: CancelTarget::Scope(CancelScopeId::root()),
        },
        Event::KillRequested {
            scope: CancelScopeId::root(),
        },
    ] {
        let told = prepare_execution(&state, InvocationId(1), &vec![logged(event)]);
        assert!(!told.cancel_before_run, "the log restores it");
    }
}

#[test]
fn hooks_are_told_the_call_and_secrets_go_through_every_binding() {
    let mut state = tree();
    state.invocations[1].declaration.secret_bindings = SecretBindings::Inherit;
    let context = hook_context(&state, &"run".to_string(), InvocationId(3), ExecutionId(3));
    let parent = context.parent.expect("a nested call");
    assert_eq!(parent.execution, ExecutionId(1));
    assert_eq!(parent.slot, "c");
    assert!(hook_context(&state, &"run".to_string(), InvocationId(0), ExecutionId(0))
        .parent
        .is_none());
    let chain = invocation_secrets(&state, InvocationId(3));
    assert_eq!(chain.len(), 2);
    assert!(matches!(chain[0], SecretBindings::NoSecrets));
    assert!(matches!(chain[1], SecretBindings::Inherit));
    assert!(invocation_secrets(&state, InvocationId(0)).is_empty());
}

#[test]
fn a_pause_is_recorded_when_it_changes_the_run() {
    let mut state = tree();
    assert!(pause_record(&state, false).is_none());
    assert!(matches!(pause_record(&state, true), Some(CoordinatorEvent::RunPaused)));
    state.paused = true;
    assert!(pause_record(&state, true).is_none());
    assert!(matches!(pause_record(&state, false), Some(CoordinatorEvent::RunUnpaused)));
}

#[test]
fn reports_are_checked_and_their_notes_recorded_in_order() {
    assert!(check_report(ExecutionId(1), &Vec::new()).is_ok());
    let records = run_note_records(
        ExecutionId(1),
        vec![
            RunLevelNote {
                kind: "hook".into(),
                payload: json("1"),
            },
            RunLevelNote {
                kind: "other".into(),
                payload: json("2"),
            },
        ],
    );
    let kinds: Vec<&str> = records
        .iter()
        .map(|record| match record {
            CoordinatorEvent::RunNoteRecorded { kind, execution, .. } => {
                assert_eq!(*execution, Some(ExecutionId(1)));
                kind.as_str()
            }
            _ => panic!("a note"),
        })
        .collect();
    assert_eq!(kinds, vec!["hook", "other"]);
}

// ── Leases ─────────────────────────────────────────────────────────────

#[test]
fn a_sandbox_is_owned_or_shared() {
    let records = vec![lease(4, 0)];
    assert!(matches!(
        prepare_sandbox(&records, SandboxBinding::Isolated),
        Ok(SandboxPlan::Owned)
    ));
    assert!(matches!(
        prepare_sandbox(&records, SandboxBinding::Inherited { lease: SandboxLeaseId(4) }),
        Ok(SandboxPlan::Shared { workspace, .. }) if workspace == "ws-4"
    ));
    assert!(matches!(
        prepare_sandbox(&records, SandboxBinding::Inherited { lease: SandboxLeaseId(5) }),
        Err(CoordinatorError::Resource(ResourceError::UnknownLease(_)))
    ));
    let mut gone = lease(4, 0);
    gone.deleted = true;
    assert!(matches!(reserved(&gone), Err(ResourceError::DeletedLease(SandboxLeaseId(4)))));
    assert!(matches!(
        prepare_sandbox(&vec![gone], SandboxBinding::Inherited { lease: SandboxLeaseId(4) }),
        Err(CoordinatorError::InvalidResource { lease: SandboxLeaseId(4) })
    ));
    assert_eq!(reserved(&records[0]).expect("usable").workspace, "ws-4");
}

#[test]
fn a_spliced_scope_s_lease_waits_for_its_execution_s_records() {
    let declared = plan_reservation(
        InvocationId(3),
        &ScopeIdentity::Declared(ScopeId(0)),
        ExecutionId(1),
        &RuntimeTarget::HostProcess,
        None,
        "host",
        "docker",
    );
    assert_eq!(declared.allocation.invocation, InvocationId(3));
    assert!(!declared.store_first);
    assert_eq!(declared.provider, "host");
    let container = RuntimeTarget::Container {
        image: "debian".into(),
        options: String::new(),
    };
    let spliced = plan_reservation(
        InvocationId(3),
        &ScopeIdentity::Spliced("a/b".into()),
        ExecutionId(1),
        &container,
        None,
        "host",
        "docker",
    );
    assert!(spliced.store_first);
    assert_eq!(spliced.introduced_by, Some(ExecutionId(1)));
    assert_eq!(spliced.provider, "docker");
    let routed = plan_reservation(
        InvocationId(3),
        &ScopeIdentity::Declared(ScopeId(0)),
        ExecutionId(1),
        &container,
        Some(&"cloud".to_string()),
        "host",
        "docker",
    );
    assert_eq!(routed.provider, "cloud");
}

#[test]
fn remaining_leases_go_by_the_run_s_status() {
    let mut state = tree();
    state.invocations[1].result = Some(result(RunStatus::Failed));
    let mut done = lease(6, 2);
    done.needs_release = false;
    let records = vec![lease(4, 1), lease(5, 2), done];
    assert_eq!(owned_leases(&records, InvocationId(2)), vec![SandboxLeaseId(5)]);
    assert_eq!(
        remaining_leases(&state, &records),
        vec![
            (SandboxLeaseId(4), RunStatus::Cancelled),
            (SandboxLeaseId(5), RunStatus::Cancelled)
        ]
    );
    state.run_status = Some(RunStatus::Success);
    let finished = remaining_leases(&state, &records);
    assert_eq!(
        finished,
        vec![
            (SandboxLeaseId(4), RunStatus::Success),
            (SandboxLeaseId(5), RunStatus::Success)
        ]
    );
    assert_eq!(scope_outcome(finished[0].1), ScopeOutcome::Succeeded);
    assert_eq!(scope_outcome(RunStatus::Success), ScopeOutcome::Succeeded);
    assert_eq!(scope_outcome(RunStatus::Cancelled), ScopeOutcome::Failed);
    let problems = Arc::new(vec!["slow".to_string()]);
    let event = scope_released(
        &records,
        InvocationId(1),
        SandboxLeaseId(4),
        ScopeOutcome::Succeeded,
        &problems,
    )
    .expect("recorded");
    assert!(matches!(
        event,
        CoordinatorEvent::ScopeReleased { retained: true, workspace, .. } if workspace == "ws-4"
    ));
    assert!(scope_released(
        &records,
        InvocationId(1),
        SandboxLeaseId(9),
        ScopeOutcome::Failed,
        &problems
    )
    .is_none());
}

#[test]
fn a_state_is_in_id_order() {
    let mut state = tree();
    assert!(state.is_in_order());
    let ids: Vec<u64> = state
        .invocations
        .iter()
        .map(|invocation| invocation.declaration.id.0)
        .collect();
    for (place, id) in ids.iter().enumerate() {
        let found = state.invocation(InvocationId(*id)).expect("declared");
        assert!(std::ptr::eq(found, &state.invocations[place]));
    }
    state.invocations.swap(0, 1);
    assert!(!state.is_in_order());
}

#[test]
fn a_resume_reconciles_and_validates_its_leases() {
    let mut remote = lease(5, 0);
    remote.provider = "docker".into();
    let mut gone = lease(6, 0);
    gone.deleted = true;
    let records = vec![lease(4, 0), remote, gone];
    assert_eq!(
        leases_to_reconcile(&records, "host"),
        (
            vec![RecordedLease {
                lease: SandboxLeaseId(4),
                workspace_id: "ws-4".into()
            }],
            vec![RecordedLease {
                lease: SandboxLeaseId(5),
                workspace_id: "ws-5".into()
            }]
        )
    );
    let graphs = vec![(GRAPH, graph(ResultProjection::Nothing))];
    assert!(validate_resources(&tree(), &graphs, &Vec::new(), &vec![lease(4, 0)]).is_ok());
    let mut other = lease(4, 0);
    other.allocation.scope = ScopeIdentity::Declared(ScopeId(8));
    assert!(matches!(
        validate_resources(&tree(), &graphs, &Vec::new(), &vec![other]),
        Err(CoordinatorError::InvalidResource { lease: SandboxLeaseId(4) })
    ));
    assert!(matches!(
        validate_resources(&tree(), &graphs, &Vec::new(), &vec![lease(4, 44)]),
        Err(CoordinatorError::InvalidResource { lease: SandboxLeaseId(4) })
    ));
}

/// Controls and a cancel are decided while a child's leases are released:
/// the child is live only as releasing, and its caller still runs.
#[test]
fn child_lease_release_does_not_block_parent_control_or_cancellation() {
    let mut state = tree();
    state.invocations[1].result = Some(result(RunStatus::Success));
    let mut live = LiveInvocations::new();
    live.run(InvocationId(0), ExecutionId(0), true);
    live.run(InvocationId(1), ExecutionId(1), true);
    live.stop(InvocationId(1), ExecutionId(1));
    live.mark_releasing(InvocationId(1));
    assert_eq!(live.runner(ExecutionId(0)), Some(InvocationId(0)), "a control is delivered");
    assert_eq!(live.runner(ExecutionId(1)), None, "the child takes none");
    let plan = handle_cancel(&state, &cancel_request(InvocationId(0), None));
    assert_eq!(
        live.running_among(&plan.told),
        vec![InvocationId(0)],
        "the root is cancelled at once"
    );
    assert_eq!(on_control(Some(&Control::Cancel)), WaitStep::Cancel);
    assert_eq!(on_control(Some(&Control::Deliver(Json::Null))), WaitStep::Wait);
    assert_eq!(on_control(None), WaitStep::Cancel);
}

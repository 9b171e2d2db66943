use std::sync::Arc;

use execution::controls::{steered, ControlError, LiveStages, PauseState, UnpauseStep};
use execution::coordinator::leases::{LeaseRecord, SandboxAllocationKey};
use execution::coordinator::{CoordinatorError, CoordinatorOptions, ResourceError};
use execution::event::{
    CancelReason, CoordinatorEvent, MiddlewareState, ScopeIdentity, ScopeOutcome,
};
use execution::hooks::adapter::{
    after_record, before_attempt, firing_request, prepare_result, run_finished, scope_released,
    transition, transition_request, AttemptStep, FiringView, HookPayload, NoHooks,
};
use execution::hooks::report::{
    HookDecision, HookReport, HookRun, HookUsage, RecordedStatus,
};
use execution::hooks::{HookActivity, HookOperation, HookPoint};
use execution::host::{
    coordinator_options, policy_middleware, registered, resume_options, root_report,
    stored_root_graph, HostError, HostRun, PolicyMiddleware,
};
use execution::ids::{
    Attempt, EdgeId, ExecutionId, FiringId, Generation, GraphDigest, InvocationId, NodeId,
    SandboxLeaseId, ScopeId,
};
use execution::json::Json;
use execution::middleware::{
    answered_admission, answered_route, baseline_admission, derive_fold_event,
    enforce_restart_limit, fold_event, group_decision, initial_middleware_state, intervention,
    rebuild_middleware, validate_middleware_state, FoldEvent, MiddlewareEntry, MiddlewareError,
    MiddlewareFoldObserver, MiddlewarePipeline, PipelineRoute, RouteCandidate, RoutingProposal,
};
use execution::model::{
    EdgeTransition, Graph, Metrics, Node, Outcome, ResultProjection, RunPolicy, RunStatus,
    RuntimeTarget, ScopeRuntime, Status,
};
use execution::ordered::{comes_before, find, put, take_out};
use execution::prune::{candidates, prune_report, PruneError, PruneReport};
use execution::record::{
    Admission, DecisionId, EngineStart, EntryPoint, Event, EventOrigin, EventRecord,
    GroupDecision, Intervention, RouteApplied, RouteDecision,
};
use execution::run_state::{
    CoordinatorState, ExecutionDeclaration, ExecutionState,
};
use execution::state::{BranchMap, EngineState, HistoryEntry, LiveFiring};
use execution::wire::{read_json, write_json};

fn json(text: &str) -> Json {
    read_json(text.as_bytes()).expect("a JSON text")
}

fn text(value: &Json) -> String {
    String::from_utf8(write_json(value).expect("writes")).expect("utf-8")
}

fn shown<T: std::fmt::Debug>(value: &T) -> String {
    format!("{value:?}")
}

fn status(tag: &str) -> Status {
    Status {
        tag: tag.into(),
        success_like: tag == "success",
        cancelled: false,
        failure: None,
    }
}

fn recorded_status(tag: &str) -> RecordedStatus {
    RecordedStatus {
        status: status(tag),
        value: json(&format!("\"{tag}\"")),
    }
}

fn report(point: HookPoint, decision: HookDecision) -> HookReport {
    HookReport {
        point,
        decision,
        hooks: Vec::new(),
        warnings: Vec::new(),
        activity: Vec::new(),
    }
}

fn view(attempt: u32, meta: &str) -> FiringView {
    FiringView {
        node: NodeId(0),
        firing: FiringId(1),
        attempt: Attempt(attempt),
        scope: None,
        meta: json(meta),
        config: Json::Null,
    }
}

fn outcome(tag: &str) -> Arc<Outcome> {
    Arc::new(Outcome {
        status: status(tag),
        output: Json::Null,
        context_updates: Arc::new(Vec::new()),
        metrics: Metrics { duration_ms: None },
    })
}

// ── Reports ────────────────────────────────────────────────────────────

#[test]
fn a_report_is_written_without_what_it_does_not_have() {
    let quiet = HookReport::proceed(HookPoint::RunStarted);
    assert!(quiet.is_silent());
    assert!(quiet.notes().is_empty());
    assert_eq!(
        text(&quiet.to_value()),
        r#"{"point":"run_started","decision":{"decision":"proceed"}}"#
    );
    let mut full = report(
        HookPoint::RouteSelected,
        HookDecision::Override { group: 2, edge: EdgeId(7) },
    );
    full.hooks.push(HookRun {
        name: "lint".into(),
        state: "executed".into(),
        duration_ms: Some(5),
        message: None,
        usage: Some(HookUsage {
            requests: 1,
            cost_usd_micros: Some(30),
            ..HookUsage::default()
        }),
    });
    full.warnings.push("slow".into());
    assert_eq!(
        text(&full.to_value()),
        r#"{"point":"route_selected","decision":{"decision":"override","group":2,"edge":7},"hooks":[{"name":"lint","state":"executed","duration_ms":5,"usage":{"requests":1,"tool_calls":0,"cost_usd_micros":30}}],"warnings":["slow"]}"#
    );
    let adjust = HookDecision::Adjust {
        status: recorded_status("failed"),
        reason: "no tests".into(),
    };
    assert_eq!(
        text(&adjust.to_value()),
        r#"{"decision":"adjust","status":"failed","reason":"no tests"}"#
    );
}

#[test]
fn a_report_s_activity_is_noted_before_it() {
    let mut full = report(HookPoint::AfterVisit, HookDecision::Block { reason: "no".into() });
    full.activity.push(HookActivity {
        hook: HookOperation {
            point: HookPoint::AfterVisit,
            hook: "review".into(),
        },
        backend: "pebble".into(),
        envelope: json("1"),
    });
    let notes = full.notes();
    assert_eq!(notes.len(), 2);
    assert_eq!(notes[0].kind, "hook.activity");
    assert_eq!(notes[1].kind, "hook");
    assert!(notes[1].payload.same(&full.to_value()));
    let mut silent = HookReport::proceed(HookPoint::AfterVisit);
    silent.activity = full.activity;
    assert_eq!(silent.notes().len(), 1, "a silent report is not noted itself");
}

// ── The adapter ────────────────────────────────────────────────────────

const KEY: &str = "admission_hooks";

#[test]
fn the_points_before_an_attempt_are_asked_in_order() {
    let first = view(1, "null");
    let AttemptStep::Ask(point) = before_attempt(&first, KEY, &Vec::new()) else {
        panic!("asks");
    };
    assert_eq!(point, HookPoint::BeforeVisit);
    let one = vec![HookReport::proceed(HookPoint::BeforeVisit)];
    let AttemptStep::Ask(point) = before_attempt(&first, KEY, &one) else {
        panic!("asks");
    };
    assert_eq!(point, HookPoint::BeforeAttempt);
    let two = vec![
        HookReport::proceed(HookPoint::BeforeVisit),
        report(
            HookPoint::BeforeAttempt,
            HookDecision::Override { group: 0, edge: EdgeId(0) },
        ),
    ];
    let AttemptStep::Decided(decision) = before_attempt(&first, KEY, &two) else {
        panic!("decides");
    };
    assert!(matches!(decision.admission, Admission::Admit), "an override is not taken here");
    assert_eq!(decision.notes.len(), 1);
    let AttemptStep::Ask(point) = before_attempt(&view(2, "null"), KEY, &Vec::new()) else {
        panic!("asks");
    };
    assert_eq!(point, HookPoint::Retrying);
}

#[test]
fn a_skip_or_a_block_ends_the_asking() {
    let first = view(1, "null");
    let skip = vec![report(
        HookPoint::BeforeVisit,
        HookDecision::Skip { status: recorded_status("skipped") },
    )];
    let AttemptStep::Decided(decision) = before_attempt(&first, KEY, &skip) else {
        panic!("decides");
    };
    let Admission::Skip { outcome } = decision.admission else {
        panic!("skipped");
    };
    assert_eq!(outcome.status.tag, "skipped");
    assert!(matches!(outcome.output, Json::Null));
    assert_eq!(decision.notes.len(), 1);
    let block = vec![
        HookReport::proceed(HookPoint::BeforeVisit),
        report(HookPoint::BeforeAttempt, HookDecision::Block { reason: "quota".into() }),
    ];
    let AttemptStep::Decided(decision) = before_attempt(&first, KEY, &block) else {
        panic!("decides");
    };
    assert!(matches!(decision.admission, Admission::Block { reason } if reason == "quota"));
}

#[test]
fn lowering_artifacts_and_self_admitting_nodes_are_not_asked_about() {
    for meta in [r#"{"synthetic":true}"#, r#"{"admission_hooks":"step"}"#] {
        let AttemptStep::Decided(decision) = before_attempt(&view(1, meta), KEY, &Vec::new())
        else {
            panic!("admitted");
        };
        assert!(matches!(decision.admission, Admission::Admit));
        assert!(decision.notes.is_empty());
    }
    for meta in [r#"{"synthetic":false}"#, r#"{"admission_hooks":"driver"}"#] {
        assert!(matches!(
            before_attempt(&view(1, meta), KEY, &Vec::new()),
            AttemptStep::Ask(HookPoint::BeforeVisit)
        ));
    }
    let artifact = Arc::new(view(1, r#"{"synthetic":true}"#));
    assert!(firing_request(HookPoint::AfterAttempt, &artifact, None).is_none());
    assert!(transition_request(&artifact, outcome("success"), &Vec::new()).is_none());
    let own = Arc::new(view(1, r#"{"admission_hooks":"step"}"#));
    assert!(
        firing_request(HookPoint::AfterAttempt, &own, Some(outcome("success"))).is_some(),
        "only its admission points are its own"
    );
}

#[test]
fn a_hook_adjusts_a_result_and_overrides_or_blocks_a_route() {
    let adjusted = prepare_result(Some(&report(
        HookPoint::AfterAttempt,
        HookDecision::Adjust {
            status: recorded_status("failed"),
            reason: "no tests".into(),
        },
    )));
    assert_eq!(adjusted.status.expect("adjusted").tag, "failed");
    assert_eq!(adjusted.reason.as_deref(), Some("no tests"));
    assert_eq!(adjusted.notes.len(), 1);
    let unchanged = prepare_result(None);
    assert!(unchanged.status.is_none() && unchanged.notes.is_empty());
    assert!(after_record(None).is_empty());
    assert!(after_record(Some(&HookReport::proceed(HookPoint::AfterVisit))).is_empty());

    let mut overriding = report(
        HookPoint::RouteSelected,
        HookDecision::Override { group: 1, edge: EdgeId(3) },
    );
    overriding.warnings.push("late".into());
    let out = transition(Some(&overriding)).expect("allowed");
    assert_eq!(out.overrides.len(), 1);
    assert_eq!((out.overrides[0].group, out.overrides[0].edge), (1, EdgeId(3)));
    assert_eq!(out.problems, vec!["late".to_string()]);
    let refused = transition(Some(&report(
        HookPoint::RouteSelected,
        HookDecision::Block { reason: "held".into() },
    )))
    .expect_err("refused");
    assert_eq!(refused.reason, "held");
    assert!(transition(None).expect("as it is").overrides.is_empty());
}

#[test]
fn a_transition_asks_about_every_group() {
    let groups = vec![
        GroupDecision {
            group: 0,
            draw: Json::Null,
            trace: Arc::new(Vec::new()),
            decision: RouteDecision::Emit(EdgeId(1)),
        },
        GroupDecision {
            group: 1,
            draw: Json::Null,
            trace: Arc::new(Vec::new()),
            decision: RouteDecision::Nothing,
        },
    ];
    let request = transition_request(&Arc::new(view(1, "null")), outcome("success"), &groups)
        .expect("asked");
    assert_eq!(request.point, HookPoint::RouteSelected);
    assert_eq!(request.routes.len(), 2);
    assert!(matches!(request.routes[0], (0, RouteDecision::Emit(EdgeId(1)))));
    assert!(matches!(request.routes[1], (1, RouteDecision::Nothing)));
}

#[test]
fn the_run_level_points_have_no_firing() {
    let finished = run_finished(RunStatus::Failed, Some("boom".into()));
    assert_eq!(finished.point, HookPoint::RunFinished);
    assert!(finished.view.is_none());
    assert!(matches!(
        &finished.payload,
        HookPayload::RunFinished(payload)
            if payload.status == RunStatus::Failed && payload.failure.as_deref() == Some("boom")
    ));
    for (outcome, name) in [
        (ScopeOutcome::Succeeded, "succeeded"),
        (ScopeOutcome::Failed, "failed"),
    ] {
        let released = scope_released(ScopeId(3), outcome);
        assert!(matches!(
            &released.payload,
            HookPayload::ScopeReleased(payload)
                if payload.scope == ScopeId(3) && payload.outcome == name
        ));
    }
    let answer = NoHooks.run(&finished);
    assert_eq!(answer.point, HookPoint::RunFinished);
    assert!(answer.is_silent());
    assert!(NoHooks.configured_hooks(HookPoint::BeforeToolUse).is_empty());
}

#[test]
fn every_point_is_read_by_its_name() {
    for point in [
        HookPoint::BeforeVisit,
        HookPoint::BeforeAttempt,
        HookPoint::AfterAttempt,
        HookPoint::AfterVisit,
        HookPoint::RouteSelected,
        HookPoint::Retrying,
        HookPoint::ForkStarted,
        HookPoint::ForkCompleted,
        HookPoint::ScopeReady,
        HookPoint::RunStarted,
        HookPoint::RunFinished,
        HookPoint::ScopeReleased,
        HookPoint::BeforeToolUse,
        HookPoint::AfterToolUse,
        HookPoint::AfterToolFailure,
    ] {
        assert_eq!(HookPoint::named(&point.name().to_string()), Some(point));
    }
    assert_eq!(HookPoint::named(&"BeforeVisit".to_string()), None);
}

// ── Middleware ─────────────────────────────────────────────────────────

fn entry(key: &str, version: u32) -> MiddlewareEntry {
    MiddlewareEntry {
        key: key.into(),
        state_version: version,
        initial_state: json("0"),
    }
}

fn middleware_state(entries: &[(&str, u32)]) -> MiddlewareState {
    Arc::new(
        entries
            .iter()
            .map(|(key, version)| (key.to_string(), (*version, json("0"))))
            .collect(),
    )
}

#[test]
fn a_chain_starts_with_every_middleware_s_state_in_key_order() {
    let chain = vec![entry("gate", 2), entry("breaker", 1)];
    let state = initial_middleware_state(&chain);
    let keys: Vec<(&str, u32)> = state
        .iter()
        .map(|(key, (version, _))| (key.as_str(), *version))
        .collect();
    assert_eq!(keys, vec![("breaker", 1), ("gate", 2)]);
    assert!(validate_middleware_state(&chain, &state).is_ok());
}

#[test]
fn a_chain_with_a_repeated_key_refuses_its_own_state() {
    let says = |chain: Vec<MiddlewareEntry>| {
        let state = initial_middleware_state(&chain);
        validate_middleware_state(&chain, &state)
            .expect_err("refused")
            .message()
            .clone()
    };
    assert_eq!(
        says(vec![entry("gate", 1), entry("gate", 1)]),
        "middleware state contains an unconfigured key"
    );
    assert_eq!(
        says(vec![entry("gate", 1), entry("breaker", 1), entry("gate", 2)]),
        "middleware `gate` state version is 2; expected 1"
    );
}

#[test]
fn a_state_that_does_not_fit_its_chain_is_refused() {
    let chain = vec![entry("a", 1), entry("b", 2)];
    let says = |state: MiddlewareState| {
        validate_middleware_state(&chain, &state)
            .expect_err("refused")
            .message()
            .clone()
    };
    assert_eq!(
        says(middleware_state(&[("b", 2)])),
        "middleware state for `a` is missing"
    );
    assert_eq!(
        says(middleware_state(&[("a", 1), ("b", 3)])),
        "middleware `b` state version is 3; expected 2"
    );
    assert_eq!(
        says(middleware_state(&[("a", 1), ("b", 2), ("c", 1)])),
        "middleware state contains an unconfigured key"
    );
}

#[test]
fn a_pipeline_keeps_each_middleware_s_state() {
    let chain = vec![entry("a", 1), entry("b", 2)];
    let mut pipeline = MiddlewarePipeline::new(
        InvocationId(1),
        ExecutionId(2),
        chain,
        middleware_state(&[("a", 1), ("b", 2)]),
    )
    .expect("fits");
    assert_eq!(pipeline.len(), 2);
    pipeline.keep_state(1, json("[7]"));
    assert!(pipeline.read_state(1).same(&json("[7]")));
    assert!(pipeline.read_state(0).same(&json("0")));
    let checkpoint = pipeline.checkpoint();
    assert_eq!(checkpoint.len(), 2);
    assert_eq!(checkpoint[1].1 .0, 2, "the version stays");
    let address = pipeline.address(DecisionId::ExecutionStart);
    assert_eq!(address.execution, ExecutionId(2));
    assert_eq!(address.invocation, InvocationId(1));
    assert!(MiddlewarePipeline::new(
        InvocationId(1),
        ExecutionId(2),
        vec![entry("a", 1)],
        middleware_state(&[])
    )
    .is_err());
}

#[test]
fn a_trace_names_the_middlewares_that_changed_the_decision() {
    let inner = answered_admission(
        "inner".into(),
        Admission::Block { reason: "no".into() },
        Some(baseline_admission()),
    );
    assert_eq!(inner.trace, vec!["inner".to_string()]);
    let passed = answered_admission(
        "middle".into(),
        Admission::Block { reason: "no".into() },
        Some(inner),
    );
    assert_eq!(passed.trace, vec!["inner".to_string()]);
    let outer = answered_admission("outer".into(), Admission::Admit, Some(passed));
    assert_eq!(outer.trace, vec!["outer".to_string(), "inner".to_string()]);
    let alone = answered_admission("alone".into(), Admission::Admit, None);
    assert_eq!(alone.trace, vec!["alone".to_string()], "it never asked the rest");
    let same_skip = answered_admission(
        "skip".into(),
        Admission::Skip { outcome: outcome("skipped") },
        Some(answered_admission(
            "below".into(),
            Admission::Skip { outcome: outcome("skipped") },
            None,
        )),
    );
    assert_eq!(same_skip.trace, vec!["below".to_string()]);
}

#[test]
fn an_intervention_says_what_the_middleware_did() {
    let baseline = PipelineRoute {
        decision: RouteDecision::Emit(EdgeId(0)),
        trace: Vec::new(),
    };
    let kept = answered_route("a".into(), RouteDecision::Emit(EdgeId(0)), Some(baseline));
    assert!(kept.trace.is_empty());
    let jumped = answered_route("b".into(), RouteDecision::Jump(NodeId(4)), Some(kept));
    assert!(matches!(
        &jumped.trace[0],
        Intervention::Jump { middleware, target: NodeId(4) } if middleware == "b"
    ));
    let moved = answered_route("c".into(), RouteDecision::Emit(EdgeId(9)), Some(jumped));
    assert_eq!(moved.trace.len(), 2);
    assert!(matches!(
        &moved.trace[0],
        Intervention::Override { middleware, edge: EdgeId(9) } if middleware == "c"
    ));
    assert!(matches!(
        intervention("d".into(), &RouteDecision::Nothing),
        Intervention::Block { reason, .. } if reason == "middleware selected no route"
    ));
    assert!(matches!(
        intervention("d".into(), &RouteDecision::Block { reason: "held".into() }),
        Intervention::Block { reason, .. } if reason == "held"
    ));
}

#[test]
fn a_restart_past_the_limit_is_blocked() {
    let proposal = RoutingProposal {
        group: 3,
        candidates: vec![
            RouteCandidate { edge: EdgeId(0), transition: EdgeTransition::Continue },
            RouteCandidate { edge: EdgeId(1), transition: EdgeTransition::Restart },
        ],
    };
    assert!(matches!(
        enforce_restart_limit(false, &proposal, RouteDecision::Emit(EdgeId(1))),
        RouteDecision::Block { reason } if reason == "maximum executions per invocation reached"
    ));
    assert!(matches!(
        enforce_restart_limit(true, &proposal, RouteDecision::Emit(EdgeId(1))),
        RouteDecision::Emit(EdgeId(1))
    ));
    assert!(matches!(
        enforce_restart_limit(false, &proposal, RouteDecision::Emit(EdgeId(0))),
        RouteDecision::Emit(EdgeId(0))
    ));
    let group = group_decision(
        false,
        &proposal,
        json("3"),
        PipelineRoute {
            decision: RouteDecision::Jump(NodeId(1)),
            trace: Vec::new(),
        },
    );
    assert_eq!(group.group, 3);
    assert!(matches!(group.decision, RouteDecision::Jump(NodeId(1))));
}

fn node(id: u32, name: &str) -> Node {
    Node {
        id: NodeId(id),
        name: name.into(),
        kind: "noop".into(),
        meta: Json::Null,
    }
}

fn graph(policy: RunPolicy) -> Graph {
    Graph {
        nodes: vec![node(0, "plan"), node(1, "build")],
        edges: Vec::new(),
        scopes: Vec::new(),
        result: ResultProjection::Nothing,
        policy,
    }
}

fn no_policy() -> RunPolicy {
    RunPolicy {
        max_invocations: None,
        loop_restart_signature_limit: None,
    }
}

fn engine_state() -> EngineState {
    EngineState {
        graph: graph(no_policy()),
        branches: Arc::new(BranchMap {
            covered: 2,
            roles: Vec::new(),
            expansions: Vec::new(),
        }),
        history: Vec::new(),
        live: Vec::new(),
        awaiting_admission: Vec::new(),
        killed: Vec::new(),
        firing_counts: Vec::new(),
        started: true,
        finished: false,
        cancelled: false,
        exit: None,
        folded_status: RunStatus::Success,
        errors: Vec::new(),
        kv: Arc::new(Vec::new()),
        nodes: Vec::new(),
        prior_firings: Vec::new(),
    }
}

fn record(seq: u64, event: Event) -> EventRecord {
    EventRecord {
        seq,
        origin: EventOrigin::External,
        event: Arc::new(event),
    }
}

fn finished(firing: u64, attempt: u32) -> Event {
    Event::StepFinished {
        firing: FiringId(firing),
        attempt: Attempt(attempt),
        outcome: outcome("success"),
    }
}

#[test]
fn only_final_outcomes_and_applied_routes_are_folded() {
    let mut state = engine_state();
    state.history.push(HistoryEntry {
        firing: FiringId(1),
        node: NodeId(1),
        name: "build".into(),
        generation: Generation(0),
        attempt: Attempt(2),
        outcome: outcome("success"),
    });
    assert!(fold_event(&finished(1, 1), &state).is_none());
    assert!(matches!(
        fold_event(&finished(1, 2), &state),
        Some(FoldEvent::FinalOutcome { firing: FiringId(1), node: NodeId(1), .. })
    ));
    let applied = Event::RouteApplied {
        applied: RouteApplied::Jump { firing: FiringId(1), target: NodeId(0) },
    };
    assert!(matches!(
        fold_event(&applied, &state),
        Some(FoldEvent::RouteApplied { decision: RouteDecision::Jump(NodeId(0)), .. })
    ));
    let log = vec![
        record(
            0,
            Event::ExecutionStarted {
                start: EngineStart {
                    entry: EntryPoint::GraphEntries,
                    context: Arc::new(Vec::new()),
                    prior_firings: Arc::new(Vec::new()),
                    execution_index: 0,
                    max_executions: 1,
                },
            },
        ),
        record(1, finished(1, 1)),
        record(2, finished(1, 2)),
        record(3, applied),
    ];
    let rebuilt: Vec<String> = rebuild_middleware(&log, &state).iter().map(shown).collect();
    let live: Vec<String> = log
        .iter()
        .filter_map(|record| fold_event(&record.event, &state))
        .map(|event| shown(&event))
        .collect();
    assert_eq!(rebuilt, live);
    assert_eq!(rebuilt.len(), 3);
    assert!(derive_fold_event(&finished(9, 1), &state).is_none());
}

#[test]
fn a_failed_fold_is_reported_at_the_end() {
    let mut observer = MiddlewareFoldObserver::new();
    assert!(observer.finish().is_ok());
    observer.failed(MiddlewareError::new("first".into()));
    observer.failed(MiddlewareError::new("second".into()));
    let error = observer.finish().expect_err("reported");
    assert_eq!(error.observer, "middleware fold");
    assert_eq!(error.message, "second");
}

#[test]
fn names_are_kept_in_order() {
    let mut entries: Vec<(String, u32)> = Vec::new();
    for (name, value) in [("b", 1), ("a", 2), ("ab", 3), ("b", 4), ("", 5)] {
        put(&mut entries, name.to_string(), value);
    }
    let seen: Vec<(&str, u32)> = entries.iter().map(|(name, v)| (name.as_str(), *v)).collect();
    assert_eq!(seen, vec![("", 5), ("a", 2), ("ab", 3), ("b", 4)]);
    assert_eq!(find(&entries, &"ab".to_string()), Some(&3));
    take_out(&mut entries, &"ab".to_string());
    take_out(&mut entries, &"zz".to_string());
    assert_eq!(find(&entries, &"ab".to_string()), None);
    assert_eq!(entries.len(), 3);
    assert!(comes_before(&"a".to_string(), &"é".to_string()));
    assert!(!comes_before(&"a".to_string(), &"a".to_string()));
}

// ── Controls ───────────────────────────────────────────────────────────

fn live_state(firing: u64, node: u32) -> EngineState {
    let mut state = engine_state();
    state.live.push(LiveFiring {
        id: FiringId(firing),
        node: NodeId(node),
        generation: Generation(0),
        attempt: Attempt(1),
        inputs: Arc::new(Vec::new()),
        started: true,
        awaiting_retry: false,
        cancelling: false,
    });
    state
}

#[test]
fn a_stage_is_live_between_its_start_and_its_finish() {
    let mut live = LiveStages::new();
    live.on_lifecycle(&CoordinatorEvent::ExecutionDeclared {
        execution: ExecutionId(5),
        invocation: InvocationId(3),
        predecessor: None,
        start: EngineStart {
            entry: EntryPoint::GraphEntries,
            context: Arc::new(Vec::new()),
            prior_firings: Arc::new(Vec::new()),
            execution_index: 0,
            max_executions: 1,
        },
        middleware_state: Arc::new(Vec::new()),
    });
    let started = Event::StepStarted { firing: FiringId(1), attempt: Attempt(1) };
    live.on_engine_record(ExecutionId(5), &started, &live_state(1, 1));
    let stage = live.stage(&"build".to_string()).expect("live");
    assert_eq!(stage.invocation, InvocationId(3));
    assert_eq!(stage.execution, ExecutionId(5));
    live.on_engine_record(ExecutionId(6), &started, &live_state(1, 1));
    let latest = live.stage(&"build".to_string()).expect("live");
    assert_eq!(latest.execution, ExecutionId(6), "the latest keeps the name");
    assert_eq!(latest.invocation, InvocationId(0), "an unknown execution is the root's");
    live.on_engine_record(ExecutionId(5), &finished(1, 1), &live_state(1, 1));
    assert!(live.stage(&"build".to_string()).is_some(), "the other still runs");
    live.on_engine_record(ExecutionId(6), &finished(1, 1), &live_state(1, 1));
    assert!(live.stage(&"build".to_string()).is_none());
    assert!(live.stages().is_empty());
}

fn run_state(paused: bool) -> CoordinatorState {
    CoordinatorState {
        root: Some(InvocationId(0)),
        graphs: Vec::new(),
        middleware_chain: Arc::new(Vec::new()),
        invocations: Vec::new(),
        executions: vec![ExecutionState {
            declaration: ExecutionDeclaration {
                id: ExecutionId(8),
                invocation: InvocationId(2),
                predecessor: None,
                start: EngineStart {
                    entry: EntryPoint::GraphEntries,
                    context: Arc::new(Vec::new()),
                    prior_firings: Arc::new(Vec::new()),
                    execution_index: 0,
                    max_executions: 1,
                },
                middleware_state: Arc::new(Vec::new()),
            },
            exit: None,
        }],
        run_status: None,
        paused,
        run_notes: Arc::new(Vec::new()),
    }
}

#[test]
fn a_pause_holds_at_once_and_an_unpause_after_its_record() {
    let mut pause = PauseState::new();
    assert!(pause.admits(false));
    assert!(!pause.pause(), "nothing to record against yet");
    assert!(!pause.admits(false));
    assert!(pause.admits(true), "a dropped controller holds nothing");
    assert!(pause.wire(), "recorded once the run is there");
    assert!(!pause.pause(), "already held");
    assert_eq!(pause.unpause(), UnpauseStep::Record);
    assert!(!pause.admits(false), "held until the record is durable");
    assert!(pause.release());
    assert!(pause.admits(false));
    assert_eq!(pause.unpause(), UnpauseStep::Nothing);
    assert!(pause.pause());
    let mut fresh = PauseState::new();
    fresh.pause();
    assert_eq!(fresh.unpause(), UnpauseStep::Release);
    let mut resumed = PauseState::new();
    resumed.on_resumed(&run_state(true));
    assert!(!resumed.admits(false));
    let mut running = PauseState::new();
    running.on_resumed(&run_state(false));
    assert!(running.admits(false));
}

#[test]
fn a_steer_names_a_live_stage() {
    let mut live = LiveStages::new();
    live.on_resumed(&run_state(false));
    live.on_engine_record(
        ExecutionId(8),
        &Event::StepStarted { firing: FiringId(1), attempt: Attempt(1) },
        &live_state(1, 0),
    );
    let mut pause = PauseState::new();
    assert!(matches!(
        pause.steer(&live, &"plan".to_string()),
        Err(ControlError::Finished)
    ));
    assert!(matches!(pause.cancel(), Err(ControlError::Finished)));
    pause.wire();
    let stage = pause.steer(&live, &"plan".to_string()).expect("live");
    assert_eq!(stage.invocation, InvocationId(2));
    let error = pause.steer(&live, &"build".to_string()).expect_err("not running");
    assert_eq!(error.message(), "no stage named `build` is running");
    assert!(steered(true).is_ok());
    assert_eq!(steered(false).expect_err("gone").message(), "the stage is no longer live");
    assert_eq!(ControlError::Finished.message(), "the run has finished");
    let request = pause.cancel().expect("wired");
    assert_eq!(request.invocation, InvocationId(0));
    assert_eq!(request.reason, Some(CancelReason::Control));
    assert!(request.escalate);
}

// ── The host ───────────────────────────────────────────────────────────

#[test]
fn a_graph_s_policy_decides_its_run_s_options() {
    let plain = graph(no_policy());
    assert_eq!(
        coordinator_options(&plain, 7).ok(),
        Some(CoordinatorOptions { max_invocations: 1024, max_executions: 7 })
    );
    assert!(policy_middleware(&plain).is_empty());
    let bounded = graph(RunPolicy {
        max_invocations: Some(12),
        loop_restart_signature_limit: Some(3),
    });
    assert_eq!(
        coordinator_options(&bounded, 7).ok(),
        Some(CoordinatorOptions { max_invocations: 12, max_executions: 7 })
    );
    assert_eq!(
        policy_middleware(&bounded),
        vec![PolicyMiddleware::CircuitBreaker { limit: 3 }]
    );
    assert_eq!(
        resume_options(Some(&bounded), 7).ok(),
        coordinator_options(&bounded, 7).ok()
    );
    assert_eq!(resume_options(None, 7).ok(), coordinator_options(&plain, 7).ok());
    let over = graph(RunPolicy {
        max_invocations: Some(20_000),
        loop_restart_signature_limit: None,
    });
    assert!(matches!(
        coordinator_options(&over, 7),
        Err(HostError::Coordinator(CoordinatorError::InvalidInvocationLimit(_)))
    ));
}

#[test]
fn a_host_run_is_built_up() {
    let run = HostRun::new(graph(no_policy()))
        .with_children(vec![graph(no_policy())])
        .with_middleware(entry("pause", 1));
    assert_eq!(run.children.len(), 1);
    assert_eq!(run.middleware.len(), 1);
    let digest = GraphDigest { high: 0, low: 1 };
    assert_eq!(registered(Ok(digest)).ok(), Some(digest));
    assert!(matches!(
        registered(Err(CoordinatorError::SecretInDurableData)),
        Err(HostError::SecretInGraph)
    ));
    assert!(matches!(
        registered(Err(CoordinatorError::RootRequestMismatch)),
        Err(HostError::Coordinator(CoordinatorError::RootRequestMismatch))
    ));
    assert!(stored_root_graph(&run_state(false)).is_none());
    assert_eq!(root_report(Some(3)).ok(), Some(3));
    assert!(matches!(
        root_report::<u8>(None),
        Err(HostError::MissingExecutionReport)
    ));
}

// ── Pruning ────────────────────────────────────────────────────────────

#[test]
fn a_prune_tells_of_every_lease() {
    let report = prune_report(vec![
        (SandboxLeaseId(1), Ok(vec!["box".into()])),
        (SandboxLeaseId(2), Ok(Vec::new())),
        (SandboxLeaseId(3), Err("gone away".into())),
        (SandboxLeaseId(4), Ok(vec!["x".into(), "y".into()])),
    ]);
    assert!(!report.is_clean());
    assert_eq!(
        report.deleted,
        vec![
            (SandboxLeaseId(1), vec!["box".to_string()]),
            (SandboxLeaseId(4), vec!["x".to_string(), "y".to_string()])
        ]
    );
    assert_eq!(report.clean, vec![SandboxLeaseId(2)]);
    assert_eq!(report.problems, vec![(SandboxLeaseId(3), "gone away".to_string())]);
    assert!(PruneReport::default().is_clean());
    let records = vec![LeaseRecord {
        lease: SandboxLeaseId(1),
        allocation: SandboxAllocationKey {
            invocation: InvocationId(0),
            scope: ScopeIdentity::Declared(ScopeId(0)),
        },
        provider: "host".into(),
        workspace: "ws".into(),
        runtime: ScopeRuntime {
            target: RuntimeTarget::HostProcess,
            settings: String::new(),
        },
        introduced_by: None,
        resource_id: None,
        deleted: true,
        needs_release: false,
    }];
    assert_eq!(candidates(&records), vec![(SandboxLeaseId(1), "ws".to_string())]);
}

#[test]
fn a_prune_error_says_why() {
    assert_eq!(
        PruneError::RunHeld("r1".into()).message(),
        "run r1 is held by a live process; stop it first"
    );
    assert_eq!(
        PruneError::NoRouter.message(),
        "this runtime's executor is not the standard router; nothing to prune through"
    );
    assert_eq!(
        PruneError::Resource(ResourceError::UnknownLease(SandboxLeaseId(9))).message(),
        "unknown sandbox lease 9"
    );
}

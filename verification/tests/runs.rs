use std::sync::Arc;

use execution::event::{
    CoordinatorEvent, CoordinatorRecord, ForkPosition, InvocationResult, ParentCallKey,
    SandboxBinding, SecretBindings, COORDINATOR_FORMAT_VERSION,
};
use execution::fork::{
    copied_records, cut_index, graphs_to_copy, names_firing, plan_fork, write_fork, ForkError,
    ForkOptions,
};
use execution::id_set::IdSet;
use execution::ids::{
    Attempt, ExecutionId, FiringId, Generation, GraphDigest, InvocationId, NodeId,
};
use execution::inspect::{
    inspect_engine, inspect_run, replay_log, Coverage, ExecutionLog, InspectError, ReplayMismatch,
    StoredLine,
};
use execution::interview::{
    chain, describe, AnswerControl, Delivery, InterviewError, InterviewReply, InterviewRequest,
    Interviews, ReplyRecord, ServeStep,
};
use execution::json::Json;
use execution::model::{
    Graph, Metrics, Node, Outcome, ResultProjection, RunPolicy, RunStatus, Status,
};
use execution::record::{
    Control, DecisionId, EngineExit, EngineStart, EntryPoint, Event, EventOrigin, EventRecord,
    RouteApplied,
};
use execution::run_state::{
    CoordinatorState, ExecutionDeclaration, ExecutionState, InvocationDeclaration, InvocationState,
    StateError,
};
use execution::state::{BranchMap, EngineState, HistoryEntry, LiveFiring};
use execution::steps::{Answer, Question};
use execution::wire::read_json;

fn json(text: &str) -> Json {
    read_json(text.as_bytes()).expect("a JSON text")
}

const GRAPH: GraphDigest = GraphDigest { high: 3, low: 4 };

fn graph() -> Graph {
    let node = |id: u32, name: &str| Node {
        id: NodeId(id),
        name: name.into(),
        kind: "noop".into(),
        meta: Json::Null,
    };
    Graph {
        nodes: vec![node(0, "plan"), node(1, "ask")],
        edges: Vec::new(),
        scopes: Vec::new(),
        result: ResultProjection::Nothing,
        policy: RunPolicy {
            max_invocations: None,
            loop_restart_signature_limit: None,
        },
    }
}

fn engine_state() -> EngineState {
    EngineState {
        graph: graph(),
        branches: Arc::new(BranchMap {
            covered: 2,
            roles: Vec::new(),
            expansions: Vec::new(),
        }),
        history: Vec::new(),
        live: vec![LiveFiring {
            id: FiringId(4),
            node: NodeId(1),
            generation: Generation(0),
            attempt: Attempt(2),
            inputs: Arc::new(Vec::new()),
            started: true,
            awaiting_retry: false,
            cancelling: false,
        }],
        awaiting_admission: Vec::new(),
        killed: Vec::new(),
        firing_counts: Vec::new(),
        started: true,
        finished: false,
        cancelled: false,
        exit: None,
        folded_status: RunStatus::Success,
        errors: Vec::new(),
        kv: Arc::new(Vec::new()),
        nodes: Vec::new(),
        prior_firings: Vec::new(),
    }
}

// ── Interviews ─────────────────────────────────────────────────────────

fn question(id: &str, sensitive: bool) -> Arc<Question> {
    Arc::new(Question {
        id: id.into(),
        kind: None,
        text: "go on?".into(),
        options: Vec::new(),
        sensitive,
    })
}

fn asked(interviews: &mut Interviews, id: &str, sensitive: bool) -> InterviewRequest {
    interviews
        .ask(true, ExecutionId(2), FiringId(4), question(id, sensitive), &engine_state())
        .expect("a request")
}

fn answer(text: &str) -> InterviewReply {
    InterviewReply::Answered(Answer {
        question: None,
        choice: None,
        choices: Vec::new(),
        text: Some(json(&format!("\"{text}\""))),
    })
}

fn started() -> Interviews {
    let mut interviews = Interviews::new();
    interviews.on_lifecycle(&CoordinatorEvent::ExecutionDeclared {
        execution: ExecutionId(1),
        invocation: InvocationId(0),
        predecessor: None,
        start: start(),
        middleware_state: Arc::new(Vec::new()),
    });
    interviews.on_lifecycle(&declared(5, Some(key(1, "outer"))));
    interviews.on_lifecycle(&CoordinatorEvent::ExecutionDeclared {
        execution: ExecutionId(2),
        invocation: InvocationId(5),
        predecessor: None,
        start: start(),
        middleware_state: Arc::new(Vec::new()),
    });
    interviews
}

fn start() -> EngineStart {
    EngineStart {
        entry: EntryPoint::GraphEntries,
        context: Arc::new(Vec::new()),
        prior_firings: Arc::new(Vec::new()),
        execution_index: 0,
        max_executions: 3,
    }
}

fn key(parent: u64, slot: &str) -> ParentCallKey {
    ParentCallKey {
        parent: ExecutionId(parent),
        firing: FiringId(1),
        attempt: Attempt(1),
        slot: slot.into(),
    }
}

fn declared(id: u64, call: Option<ParentCallKey>) -> CoordinatorEvent {
    CoordinatorEvent::InvocationDeclared {
        invocation: InvocationId(id),
        call,
        graph: GRAPH,
        context: Arc::new(Vec::new()),
        secret_bindings: SecretBindings::NoSecrets,
        sandbox: SandboxBinding::Isolated,
        admission: None,
    }
}

#[test]
fn a_question_is_told_apart_by_where_it_is_asked() {
    let mut interviews = started();
    let first = asked(&mut interviews, "q1", false);
    assert_eq!(first.invocation, InvocationId(5));
    assert_eq!(first.invocation_path, "/outer");
    assert_eq!(first.node, "ask");
    assert_eq!(first.attempt, Attempt(2));
    assert_eq!((first.occurrence, first.ask), (1, 1));
    assert!(
        interviews
            .ask(true, ExecutionId(2), FiringId(4), question("q1", false), &engine_state())
            .is_none(),
        "its reply is pending"
    );
    let second = asked(&mut interviews, "q2", false);
    assert_eq!((second.occurrence, second.ask), (2, 1));
    assert!(matches!(
        interviews.serve(&first, Some(InterviewReply::Cancelled), false, false),
        ServeStep::Deliver { control: AnswerControl::Cancel, .. }
    ));
    let again = asked(&mut interviews, "q1", false);
    assert_eq!(
        (again.occurrence, again.ask),
        (1, 2),
        "the same question, asked again after another one"
    );
    assert!(interviews.can_ask(
        ExecutionId(2),
        FiringId(4),
        &question("q3", false),
        &engine_state()
    ));
    let third = asked(&mut interviews, "q3", false);
    assert_eq!((third.occurrence, third.ask), (3, 1));
}

#[test]
fn an_answer_is_bound_and_delivered() {
    let mut interviews = started();
    let request = asked(&mut interviews, "q1", false);
    let ServeStep::Deliver { record, control: AnswerControl::Answer(bound) } =
        interviews.serve(&request, Some(answer("yes")), false, false)
    else {
        panic!("an answer");
    };
    assert_eq!(bound.question.as_deref(), Some("q1"));
    interviews.delivered(record, true);
    let receipt = interviews.into_receipt(Ok(None));
    assert!(receipt.is_clean());
    assert_eq!(receipt.questions[0].delivery, Delivery::Delivered);
}

#[test]
fn a_sensitive_answer_is_only_ever_shown_as_its_secret() {
    let mut interviews = started();
    let request = asked(&mut interviews, "q1", true);
    let ServeStep::Register { record, answer, name, secret } =
        interviews.serve(&request, Some(answer("hunter2")), false, false)
    else {
        panic!("registers");
    };
    assert_eq!(name, "answer:q1");
    assert_eq!(secret, "hunter2");
    let ServeStep::Deliver { record, control: AnswerControl::Answer(bound) } =
        interviews.registered(record, answer, name, Ok(()))
    else {
        panic!("delivers");
    };
    assert!(bound
        .text
        .expect("a reference")
        .same(&json(r#"{"$secret":"answer:q1"}"#)));
    interviews.delivered(record, false);
    let receipt = interviews.into_receipt(Ok(None));
    let shown = format!("{receipt:?}");
    assert!(!shown.contains("hunter2"));
    assert_eq!(receipt.questions[0].delivery, Delivery::NotLive);
}

#[test]
fn an_unregistered_secret_is_withheld() {
    let mut interviews = started();
    let request = asked(&mut interviews, "q1", true);
    let ServeStep::Register { record, answer, name, .. } =
        interviews.serve(&request, Some(answer("hunter2")), false, false)
    else {
        panic!("registers");
    };
    let ServeStep::CancelGate { record } =
        interviews.registered(record, answer, name, Err("vault is sealed".into()))
    else {
        panic!("cancels");
    };
    assert_eq!(record.delivery, Delivery::Withheld);
    interviews.keep(record);
    let receipt = interviews.into_receipt(Ok(None));
    assert!(!receipt.is_clean());
    assert!(!format!("{receipt:?}").contains("hunter2"));
}

#[test]
fn a_late_reply_is_recorded_and_never_delivered() {
    let mut interviews = started();
    let request = asked(&mut interviews, "q1", true);
    assert!(interviews
        .on_step_finished(ExecutionId(2), FiringId(4))
        .contains(&"q1".to_string()));
    assert!(interviews.on_step_finished(ExecutionId(3), FiringId(4)).is_empty());
    assert!(matches!(
        interviews.serve(&request, Some(answer("hunter2")), true, false),
        ServeStep::Done
    ));
    let unanswered = asked(&mut interviews, "q2", false);
    assert!(matches!(interviews.serve(&unanswered, None, false, true), ServeStep::Done));
    interviews.close();
    assert!(interviews
        .ask(true, ExecutionId(2), FiringId(4), question("q3", false), &engine_state())
        .is_none());
    interviews.task_failed("panicked");
    interviews.task_pending();
    let receipt = interviews.into_receipt(Err(InterviewError::new("two answers unused".into())));
    assert_eq!(receipt.questions[0].delivery, Delivery::Late);
    assert_eq!(receipt.questions[1].delivery, Delivery::Shutdown);
    assert!(!format!("{receipt:?}").contains("hunter2"));
    assert_eq!(receipt.errors[0], "a reply to `q1` arrived after its firing finished");
    assert!(receipt.errors.contains(&"a reply task failed: panicked".to_string()));
    assert!(receipt
        .errors
        .contains(&"a reply task was still pending after shutdown".to_string()));
    assert_eq!(receipt.errors.last().map(String::as_str), Some("two answers unused"));
    assert!(receipt.script.is_none());
}

#[test]
fn a_failed_interviewer_cancels_its_question() {
    let mut interviews = started();
    let request = asked(&mut interviews, "q1", false);
    let error = InterviewError::with_source(
        "the terminal is gone".into(),
        vec!["write".into(), "broken pipe".into()],
    );
    assert_eq!(error.message(), "the terminal is gone");
    assert_eq!(chain(&error), "the terminal is gone: write: broken pipe");
    assert!(matches!(
        interviews.serve(&request, Some(InterviewReply::Failed(error)), false, false),
        ServeStep::Deliver { control: AnswerControl::Cancel, .. }
    ));
    let receipt = interviews.into_receipt(Ok(Some(json("1"))));
    assert_eq!(
        receipt.errors,
        vec!["the interviewer failed on `q1`: the terminal is gone: write: broken pipe".to_string()]
    );
    assert!(receipt.script.is_some());
}

#[test]
fn a_question_before_the_run_is_wired_is_an_error() {
    let mut interviews = started();
    assert!(interviews
        .ask(false, ExecutionId(2), FiringId(4), question("q1", false), &engine_state())
        .is_none());
    let receipt = interviews.into_receipt(Ok(None));
    assert_eq!(
        receipt.errors,
        vec!["question `q1` arrived before the dispatcher was wired".to_string()]
    );
    assert!(matches!(
        describe(&question("q1", true), &answer("hunter2")),
        ReplyRecord::Answered { text: Some(shown), .. }
            if shown.same(&json(r#"{"$secret":"answer:q1"}"#))
    ));
    assert!(matches!(
        describe(&question("q1", false), &InterviewReply::Cancelled),
        ReplyRecord::Cancelled
    ));
}

// ── Forks ──────────────────────────────────────────────────────────────

fn engine_record(seq: u64, origin: EventOrigin, event: Event) -> EventRecord {
    EventRecord {
        seq,
        origin,
        event: Arc::new(event),
    }
}

fn outcome() -> Arc<Outcome> {
    Arc::new(Outcome {
        status: Status {
            tag: "success".into(),
            success_like: true,
            cancelled: false,
            failure: None,
        },
        output: json("7"),
        context_updates: Arc::new(Vec::new()),
        metrics: Metrics { duration_ms: None },
    })
}

fn firing_log() -> Vec<EventRecord> {
    let external = EventOrigin::External;
    vec![
        engine_record(0, external, Event::ExecutionStarted { start: start() }),
        engine_record(
            1,
            external,
            Event::StepStarted { firing: FiringId(1), attempt: Attempt(1) },
        ),
        engine_record(
            2,
            external,
            Event::StepFinished {
                firing: FiringId(1),
                attempt: Attempt(1),
                outcome: outcome(),
            },
        ),
        engine_record(
            3,
            external,
            Event::RoutingResolved {
                decision_id: DecisionId::Route { firing: FiringId(1), attempt: Attempt(1) },
                groups: Arc::new(Vec::new()),
            },
        ),
        engine_record(
            4,
            EventOrigin::Core,
            Event::RouteApplied {
                applied: RouteApplied::Nothing { firing: FiringId(1), group: 0 },
            },
        ),
        engine_record(
            5,
            external,
            Event::StepStarted { firing: FiringId(2), attempt: Attempt(1) },
        ),
    ]
}

const AT: ForkPosition = ForkPosition {
    execution: ExecutionId(0),
    firing: FiringId(1),
};

#[test]
fn a_fork_cuts_after_a_firing_s_routing_or_before_its_first_record() {
    let log = firing_log();
    assert_eq!(cut_index(&log, AT, ForkOptions { rerun_last: false }), Ok(5));
    assert_eq!(cut_index(&log, AT, ForkOptions { rerun_last: true }), Ok(1));
    let unrouted = ForkPosition { firing: FiringId(2), ..AT };
    assert_eq!(
        cut_index(&log, unrouted, ForkOptions { rerun_last: false }),
        Err(ForkError::UnroutedFiring { execution: ExecutionId(0), firing: FiringId(2) })
    );
    assert_eq!(AT.text(), "execution 0 firing 1");
    assert!(names_firing(&log[2].event, FiringId(1)));
    assert!(!names_firing(&log[2].event, FiringId(2)));
    assert!(!names_firing(&log[0].event, FiringId(1)));
}

fn invocation_state(id: u64, call: Option<ParentCallKey>, executions: Vec<u64>) -> InvocationState {
    InvocationState {
        declaration: InvocationDeclaration {
            id: InvocationId(id),
            call,
            graph: GRAPH,
            context: Arc::new(Vec::new()),
            secret_bindings: SecretBindings::NoSecrets,
            sandbox: SandboxBinding::Isolated,
            admission: None,
        },
        executions: executions.into_iter().map(ExecutionId).collect(),
        result: None,
        cancelled: false,
        cancel_reason: None,
    }
}

fn execution_state(id: u64, owner: u64) -> ExecutionState {
    ExecutionState {
        declaration: ExecutionDeclaration {
            id: ExecutionId(id),
            invocation: InvocationId(owner),
            predecessor: None,
            start: start(),
            middleware_state: Arc::new(Vec::new()),
        },
        exit: None,
    }
}

fn run() -> (Vec<CoordinatorRecord>, CoordinatorState) {
    let events = vec![
        CoordinatorEvent::RunStarted {
            format_version: COORDINATOR_FORMAT_VERSION,
            key: "source".into(),
            root: InvocationId(0),
            middleware_chain: Arc::new(Vec::new()),
            forked_from: None,
        },
        CoordinatorEvent::GraphRegistered { digest: GRAPH },
        declared(0, None),
        CoordinatorEvent::ExecutionDeclared {
            execution: ExecutionId(0),
            invocation: InvocationId(0),
            predecessor: None,
            start: start(),
            middleware_state: Arc::new(Vec::new()),
        },
        declared(1, Some(key(0, "child"))),
        CoordinatorEvent::ExecutionDeclared {
            execution: ExecutionId(1),
            invocation: InvocationId(1),
            predecessor: None,
            start: start(),
            middleware_state: Arc::new(Vec::new()),
        },
        CoordinatorEvent::RunFinished { status: RunStatus::Success },
    ];
    let records = events
        .into_iter()
        .enumerate()
        .map(|(seq, event)| CoordinatorRecord::external(seq as u64, 10 + seq as u64, event))
        .collect();
    let state = CoordinatorState {
        root: Some(InvocationId(0)),
        graphs: vec![GRAPH],
        middleware_chain: Arc::new(Vec::new()),
        invocations: vec![
            invocation_state(0, None, vec![0]),
            invocation_state(1, Some(key(0, "child")), vec![1]),
        ],
        executions: vec![execution_state(0, 0), execution_state(1, 1)],
        run_status: Some(RunStatus::Success),
        paused: false,
        run_notes: Arc::new(Vec::new()),
    };
    (records, state)
}

#[test]
fn a_fork_keeps_finished_children_and_drops_the_run_s_end() {
    let (records, mut state) = run();
    state.invocations[1].result = Some(Arc::new(InvocationResult {
        status: RunStatus::Success,
        failure: None,
        final_execution: ExecutionId(1),
        output: Json::Null,
        context: Arc::new(Vec::new()),
        updates: Arc::new(Vec::new()),
    }));
    let mut finished = IdSet::new();
    finished.insert(1);
    let options = ForkOptions { rerun_last: false };
    let plan = plan_fork(&records, &state, &firing_log(), &finished, AT, options).expect("plans");
    assert_eq!(plan.cut, 5);
    assert!(plan.invocations.contains(1), "its call's firing is kept");
    assert_eq!(plan.origin.source, "source");
    let written = write_fork(&plan, &"copy".to_string(), 99);
    assert!(matches!(
        &*written[0].body,
        CoordinatorEvent::RunStarted { key, forked_from: Some(origin), .. }
            if key == "copy" && origin.position == AT && !origin.rerun_last
    ));
    for (seq, record) in written.iter().enumerate() {
        assert_eq!(record.seq, seq as u64);
        assert!(!matches!(&*record.body, CoordinatorEvent::RunFinished { .. }));
    }
    assert_eq!(written[1].recorded_at, 11, "a kept record keeps its time");
    assert_eq!(graphs_to_copy(&written), vec![GRAPH]);
    assert_eq!(copied_records(&plan, ExecutionId(0), 6), 5);
    assert_eq!(copied_records(&plan, ExecutionId(1), 6), 6);

    let dropped = plan_fork(&records, &state, &firing_log(), &IdSet::new(), AT, options)
        .expect("plans");
    assert!(!dropped.invocations.contains(1), "its call runs again");
}

#[test]
fn a_position_that_cannot_be_forked_is_refused() {
    let (records, state) = run();
    let options = ForkOptions { rerun_last: false };
    let plan = |position: ForkPosition, records: &Vec<CoordinatorRecord>| {
        plan_fork(records, &state, &firing_log(), &IdSet::new(), position, options).err()
    };
    assert_eq!(
        plan(ForkPosition { execution: ExecutionId(9), ..AT }, &records),
        Some(ForkError::UnknownExecution(ExecutionId(9)))
    );
    assert_eq!(
        plan(ForkPosition { execution: ExecutionId(1), ..AT }, &records),
        Some(ForkError::PositionInChild {
            execution: ExecutionId(1),
            invocation: InvocationId(1)
        })
    );
    assert_eq!(
        plan(ForkPosition { firing: FiringId(2), ..AT }, &records),
        Some(ForkError::UnroutedFiring { execution: ExecutionId(0), firing: FiringId(2) })
    );
    assert_eq!(
        plan(AT, &Vec::new()),
        Some(ForkError::State(StateError::MissingRunStart))
    );
}

// ── Inspection ─────────────────────────────────────────────────────────

fn line(seq: u64, bytes: &str) -> StoredLine {
    StoredLine {
        seq,
        bytes: bytes.as_bytes().to_vec(),
    }
}

#[test]
fn a_log_is_a_prefix_of_what_its_replay_regenerates() {
    let log = vec![line(0, "a"), line(1, "b")];
    let bytes = |texts: &[&str]| -> Vec<Vec<u8>> {
        texts.iter().map(|text| text.as_bytes().to_vec()).collect()
    };
    assert_eq!(replay_log(&log, &bytes(&["a", "b"])), Ok(Coverage::Verified));
    assert_eq!(replay_log(&log, &bytes(&["a", "b", "c"])), Ok(Coverage::Prefix));
    assert_eq!(
        replay_log(&log, &bytes(&["a", "x", "c"])),
        Err(ReplayMismatch {
            original_records: 2,
            replayed_records: 3,
            first_divergence: Some(1)
        })
    );
    assert_eq!(
        replay_log(&log, &bytes(&["a"])),
        Err(ReplayMismatch {
            original_records: 2,
            replayed_records: 1,
            first_divergence: None
        })
    );
}

#[test]
fn an_engine_s_log_is_laid_out() {
    let mut state = engine_state();
    state.history.push(HistoryEntry {
        firing: FiringId(1),
        node: NodeId(0),
        name: "plan".into(),
        generation: Generation(0),
        attempt: Attempt(1),
        outcome: outcome(),
    });
    let mut log = firing_log();
    log.push(engine_record(
        6,
        EventOrigin::External,
        Event::ControlRequested {
            firing: FiringId(4),
            ctl: Control::Deliver(json("\"hi\"")),
        },
    ));
    let engine = inspect_engine(&state, &log);
    assert_eq!(engine.history.len(), 1);
    assert_eq!(engine.history[0].node, "plan");
    assert!(engine.history[0].output.same(&json("7")));
    assert_eq!(engine.attempts.len(), 1);
    assert!(engine.attempts[0].is_final);
    assert_eq!(engine.attempts[0].seq, 2);
    assert_eq!(engine.routes[0].kind, "none");
    assert_eq!(engine.deliveries[0].kind, "deliver");
    assert_eq!(engine.deliveries[0].node.as_deref(), Some("ask"));
    assert_eq!(engine.live.len(), 1);
    assert_eq!(engine.live[0].firing, 4);
    assert_eq!(engine.folded_status, "success");
    assert!(engine.context.kv.is_empty());
    assert!(engine.context.nodes.is_empty());
}

#[test]
fn a_run_is_reconstructed_with_what_keeps_it_incomplete() {
    let (records, state) = run();
    let graphs = vec![(GRAPH, graph())];
    let logs = || {
        vec![
            ExecutionLog::Stored {
                records: Vec::new(),
                lines: Vec::new(),
                state: engine_state(),
                rebuilt: Vec::new(),
            },
            ExecutionLog::Missing,
        ]
    };
    let document =
        inspect_run(&records, &state, &graphs, &logs(), "runs/1".into()).expect("reconstructs");
    assert_eq!(document.run_key, "source");
    assert_eq!(document.locator, "runs/1");
    assert_eq!(document.status, Some("success"));
    assert!(!document.complete);
    assert!(!document.incomplete.is_empty());
    assert_eq!(document.invocations.len(), 2);
    assert_eq!(document.invocations[0].children, vec![InvocationId(1)]);
    assert_eq!(document.executions[0].children, vec![InvocationId(1)]);
    assert_eq!(document.executions[0].log.replay, "missing", "a log without lines is none");
    assert_eq!(document.executions[0].log.records, 0);
    assert!(document.executions[0].engine.is_none());
    assert!(document
        .incomplete
        .contains(&"execution 0: no engine log was stored".to_string()));
    assert_eq!(document.executions[1].log.replay, "missing");
    assert_eq!(document.root.latest_execution, Some(ExecutionId(0)));
    let with = document.with_interviews(None);
    assert!(with.interviews.is_none());

    assert!(matches!(
        inspect_run(&records, &state, &Vec::new(), &logs(), "runs/1".into()),
        Err(InspectError::UnknownGraph { execution: ExecutionId(0), .. })
    ));
    assert!(matches!(
        inspect_run(&Vec::new(), &state, &graphs, &logs(), "runs/1".into()),
        Err(InspectError::State(StateError::MissingRunStart))
    ));
    let old = vec![CoordinatorRecord::external(
        0,
        1,
        CoordinatorEvent::RunStarted {
            format_version: 2,
            key: "source".into(),
            root: InvocationId(0),
            middleware_chain: Arc::new(Vec::new()),
            forked_from: None,
        },
    )];
    assert!(matches!(
        inspect_run(&old, &state, &graphs, &logs(), "runs/1".into()),
        Err(InspectError::UnsupportedFormat { found: 2, .. })
    ));
    let diverged = vec![
        ExecutionLog::Stored {
            records: firing_log(),
            lines: vec![line(0, "a")],
            state: engine_state(),
            rebuilt: vec![b"b".to_vec()],
        },
        ExecutionLog::Missing,
    ];
    assert!(matches!(
        inspect_run(&records, &state, &graphs, &diverged, "runs/1".into()),
        Err(InspectError::ReplayDiverged { execution: ExecutionId(0), mismatch })
            if mismatch.first_divergence == Some(0)
    ));
}

#[test]
fn a_finished_run_is_complete() {
    let (records, mut state) = run();
    let finished = Arc::new(InvocationResult {
        status: RunStatus::Success,
        failure: None,
        final_execution: ExecutionId(0),
        output: json("1"),
        context: Arc::new(Vec::new()),
        updates: Arc::new(Vec::new()),
    });
    state.invocations.pop();
    state.executions.pop();
    state.invocations[0].result = Some(finished);
    let exit = EngineExit::Terminal { status: RunStatus::Success };
    state.executions[0].exit = Some(exit);
    let mut replayed = engine_state();
    replayed.live.clear();
    replayed.finished = true;
    replayed.exit = Some(exit);
    let logs = vec![ExecutionLog::Stored {
        records: firing_log(),
        lines: vec![line(0, "a")],
        state: replayed,
        rebuilt: vec![b"a".to_vec()],
    }];
    let document = inspect_run(
        &records,
        &state,
        &vec![(GRAPH, graph())],
        &logs,
        "runs/1".into(),
    )
    .expect("reconstructs");
    assert!(document.complete, "{:?}", document.incomplete);
    assert_eq!(document.root.final_execution, Some(ExecutionId(0)));
    assert_eq!(document.executions[0].status, "finished");
    assert_eq!(document.executions[0].log.replay, "verified");
    assert_eq!(document.invocations[0].status, "finished");
}

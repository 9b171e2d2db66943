use std::sync::Arc;

use execution::event::{
    CancelReason, CoordinatorEvent, CoordinatorRecord, ParentCallKey, SandboxBinding,
    SecretBindings, COORDINATOR_FORMAT_VERSION,
};
use execution::events::derivation::{Readings, RetryReading};
use execution::events::invert::{invert, InvertError};
use execution::events::presented::{
    present_engine, present_lifecycle, EventBody, PresentedEvent,
};
use execution::events::projection::Projection;
use execution::events::{
    Context, Derived, EventId, EventSource, NodeRef, Record, RecordOrigin, Subject, ViewEvent,
    WaitState,
};
use execution::hooks::{HookActivity, HookOperation, HookPoint, HOOK_ACTIVITY_NOTE_KIND};
use execution::ids::{
    Attempt, EdgeId, ExecutionId, FiringId, Generation, GraphDigest, InvocationId, NodeId,
};
use execution::json::Json;
use execution::model::{
    Edge, EdgeTransition, Graph, Metrics, Node, Outcome, ResultProjection, RunPolicy, RunStatus,
    Status, Token,
};
use execution::note::{
    note_parsed, parse_progress, BudgetNote, BudgetReading, BudgetState, Note, Parsed,
    StepReading, BUDGET_PAUSED_KIND, BUDGET_RESUMED_KIND,
};
use execution::record::{
    Control, EngineStart, EntryPoint, Event, EventOrigin, EventRecord, LogStream, RouteApplied,
    StepEvent,
};
use execution::state::{
    BranchMap, BranchRef, BranchRole, EngineState, HistoryEntry, LiveFiring,
};
use execution::wire::{read_json, write_json};

fn json(text: &str) -> Json {
    read_json(text.as_bytes()).expect("a JSON text")
}

fn text(value: &Json) -> String {
    String::from_utf8(write_json(value).expect("writes")).expect("utf-8")
}

fn shown<T: std::fmt::Debug>(value: &T) -> String {
    format!("{value:?}")
}

fn note(kind: &str, payload: &str) -> Note {
    Note {
        kind: kind.to_owned(),
        payload: json(payload),
    }
}

fn silent() -> StepReading {
    StepReading {
        question: None,
        expired: None,
    }
}

fn check_budget_notes() {
    let paused = note(
        BUDGET_PAUSED_KIND,
        r#"{ "attempt": 1, "remaining_ms": 4000, "pending_questions": 1 }"#,
    );
    let Parsed::Note { budget, .. } = note_parsed(paused.clone()) else {
        panic!("a note");
    };
    assert_eq!(
        budget,
        Some(BudgetReading {
            state: BudgetState::Paused,
            note: BudgetNote {
                attempt: Attempt(1),
                remaining_ms: 4000,
                pending_questions: 1,
            },
        })
    );
    let resumed = note(
        BUDGET_RESUMED_KIND,
        r#"{ "attempt": 1, "remaining_ms": 4000, "pending_questions": 0 }"#,
    );
    let Parsed::Note { budget, .. } = note_parsed(resumed) else {
        panic!("a note");
    };
    assert_eq!(
        budget.map(|budget| budget.state),
        Some(BudgetState::Resumed)
    );
    let hook = note("hook", r#"{ "point": "before_attempt" }"#);
    assert_eq!(
        shown(&note_parsed(hook.clone())),
        shown(&Parsed::Note {
            note: hook,
            hook_activity: None,
            budget: None,
        })
    );
    let malformed = note(BUDGET_PAUSED_KIND, r#""not a budget""#);
    assert!(matches!(
        note_parsed(malformed),
        Parsed::Note { budget: None, .. }
    ));
}

#[test]
fn events_budget_notes_and_hook_activity_read_beside_the_note_and_other_notes_stay_bare() {
    check_budget_notes();
}

#[test]
fn projection_budget_notes_and_hook_activity_read_beside_the_note_and_other_notes_stay_bare() {
    check_budget_notes();
}

fn check_protocols() {
    let backend = StepEvent::Custom(json(
        r#"{ "kind": "pebble", "event": { "session_id": "ses_1", "seq": 3, "event": { "TurnStarted": {} } } }"#,
    ));
    assert!(parse_progress(&backend, &silent()).is_none());
    assert!(parse_progress(
        &StepEvent::Log {
            stream: LogStream::Stdout,
            line: "x".into(),
        },
        &silent()
    )
    .is_none());
    let note = StepEvent::Custom(json(
        r#"{ "$note": { "kind": "transition", "payload": 1 } }"#,
    ));
    assert!(matches!(
        parse_progress(&note, &silent()),
        Some(Parsed::Note { .. })
    ));
}

#[test]
fn events_only_petri_s_own_protocols_parse() {
    check_protocols();
}

#[test]
fn projection_only_petri_s_own_protocols_parse() {
    check_protocols();
}

fn check_record_event() {
    let record = CoordinatorRecord::external(
        3,
        1_789,
        CoordinatorEvent::RunNoteRecorded {
            execution: Some(ExecutionId(1)),
            kind: "hook".into(),
            payload: json(r#"{ "point": "run_finished" }"#),
        },
    );
    let events = Projection::new().lifecycle(&record);
    assert_eq!(events.len(), 1);
    let event = &events[0];
    assert_eq!(event.origin, RecordOrigin::External);
    assert_eq!(event.recorded_at, 1_789);
    assert_eq!(event.context.execution, Some(ExecutionId(1)));
    assert!(event
        .id
        .to_value()
        .same(&json(r#"{ "log": "coordinator", "seq": 3, "index": 0 }"#)));
    let Some(Record::Coordinator(carried)) = &event.record else {
        panic!("the record is the stored line");
    };
    assert_eq!(shown(carried), shown(&record), "the record is the stored line");
    assert!(matches!(
        event.coordinator().map(|body| &**body),
        Some(CoordinatorEvent::RunNoteRecorded { .. })
    ));
    assert!(matches!(event.parsed(), Some(Parsed::Note { .. })));
    assert_eq!(event.parsed().map(Parsed::tag), Some("note"));
    assert_eq!(event.note().map(|note| note.kind.as_str()), Some("hook"));
    assert!(event.custom().is_none());
    assert!(event.engine().is_none());
    assert!(event.view().is_none());
}

#[test]
fn events_a_record_event_carries_its_line_and_derived_values_apart() {
    check_record_event();
}

#[test]
fn projection_a_record_event_carries_its_line_and_derived_values_apart() {
    check_record_event();
}

fn lifecycle_record(seq: u64, event: CoordinatorEvent) -> CoordinatorRecord {
    CoordinatorRecord::external(seq, 1_000 + seq, event)
}

fn start(index: u32) -> EngineStart {
    EngineStart {
        entry: EntryPoint::GraphEntries,
        context: Arc::new(Vec::new()),
        prior_firings: Arc::new(Vec::new()),
        execution_index: index,
        max_executions: 4,
    }
}

#[test]
fn coordinator_records_round_trip_through_their_events() {
    let digest = GraphDigest::parse(&"ab".repeat(32)).expect("a digest");
    let records = vec![
        lifecycle_record(
            0,
            CoordinatorEvent::RunStarted {
                format_version: COORDINATOR_FORMAT_VERSION,
                key: "run".into(),
                root: InvocationId::root(),
                middleware_chain: Arc::new(Vec::new()),
                forked_from: None,
            },
        ),
        lifecycle_record(1, CoordinatorEvent::GraphRegistered { digest }),
        lifecycle_record(
            2,
            CoordinatorEvent::InvocationDeclared {
                invocation: InvocationId::root(),
                call: None,
                graph: digest,
                context: Arc::new(Vec::new()),
                secret_bindings: SecretBindings::NoSecrets,
                sandbox: SandboxBinding::Isolated,
                admission: None,
            },
        ),
        lifecycle_record(
            3,
            CoordinatorEvent::ExecutionDeclared {
                execution: ExecutionId(1),
                invocation: InvocationId::root(),
                predecessor: None,
                start: start(1),
                middleware_state: Arc::new(Vec::new()),
            },
        ),
        lifecycle_record(
            4,
            CoordinatorEvent::RunNoteRecorded {
                execution: Some(ExecutionId(1)),
                kind: "hook".into(),
                payload: json(r#"{ "point": "run_finished" }"#),
            },
        ),
        lifecycle_record(5, CoordinatorEvent::RunPaused),
        lifecycle_record(6, CoordinatorEvent::RunUnpaused),
        lifecycle_record(
            7,
            CoordinatorEvent::RunFinished {
                status: RunStatus::Success,
            },
        ),
    ];
    let mut projection = Projection::new();
    let mut count = 0;
    let mut events: Vec<PresentedEvent> = Vec::new();
    for record in &records {
        let derived = projection.lifecycle(record);
        count += derived.len();
        events.push(present_lifecycle(record, &derived[0].context));
    }
    assert_eq!(
        count,
        records.len(),
        "every coordinator record derives exactly one event"
    );
    let inverted = invert(&events).expect("the events invert");
    let rebuilt: Vec<String> = inverted
        .coordinator
        .entries()
        .iter()
        .map(|(_, record)| shown(record))
        .collect();
    let stored: Vec<String> = records.iter().map(shown).collect();
    assert_eq!(rebuilt, stored);
    assert!(inverted.executions.is_empty());
}

#[test]
fn an_engine_event_without_a_subject_is_refused() {
    let event = PresentedEvent {
        id: EventId {
            source: EventSource::Execution {
                execution: ExecutionId(1),
            },
            seq: 3,
            index: 0,
        },
        origin: RecordOrigin::External,
        context: Context {
            invocation: None,
            execution: Some(ExecutionId(1)),
            parent: None,
        },
        subject: None,
        observed_at: None,
        recorded_at: Some(7),
        body: EventBody::AttemptStarted,
    };
    let id = event.id;
    let error = invert(&vec![event]).expect_err("no subject, no firing");
    assert!(matches!(error, InvertError::MissingSubject { id: found } if found == id));
}

#[test]
fn redelivered_events_invert_the_same() {
    let record = lifecycle_record(5, CoordinatorEvent::RunPaused);
    let context = Context {
        invocation: None,
        execution: None,
        parent: None,
    };
    let once = vec![present_lifecycle(&record, &context)];
    let twice = vec![
        present_lifecycle(&record, &context),
        present_lifecycle(&record, &context),
    ];
    assert_eq!(
        shown(&invert(&once).expect("inverts")),
        shown(&invert(&twice).expect("inverts"))
    );
}

#[test]
fn a_stream_told_in_another_order_inverts_to_its_log() {
    let records = [
        lifecycle_record(0, CoordinatorEvent::RunPaused),
        lifecycle_record(1, CoordinatorEvent::RunUnpaused),
    ];
    let context = Context {
        invocation: None,
        execution: None,
        parent: None,
    };
    let told: Vec<PresentedEvent> = [1, 0, 1]
        .iter()
        .map(|place: &usize| present_lifecycle(&records[*place], &context))
        .collect();
    let rebuilt: Vec<String> = invert(&told)
        .expect("inverts")
        .coordinator
        .entries()
        .iter()
        .map(|(_, record)| shown(record))
        .collect();
    let stored: Vec<String> = records.iter().map(shown).collect();
    assert_eq!(rebuilt, stored);
}

#[test]
fn a_coordinator_event_without_a_time_is_refused() {
    let record = lifecycle_record(5, CoordinatorEvent::RunPaused);
    let context = Context {
        invocation: None,
        execution: None,
        parent: None,
    };
    let mut event = present_lifecycle(&record, &context);
    event.recorded_at = None;
    assert!(matches!(
        invert(&vec![event]),
        Err(InvertError::MissingRecordedAt { .. })
    ));
}

#[test]
fn an_invalid_digest_is_refused() {
    let context = Context {
        invocation: None,
        execution: None,
        parent: None,
    };
    let mut event = present_lifecycle(&lifecycle_record(1, CoordinatorEvent::RunPaused), &context);
    event.body = EventBody::GraphRegistered {
        digest: "not a digest".into(),
    };
    assert!(matches!(
        invert(&vec![event]),
        Err(InvertError::BadDigest { digest, .. }) if digest == "not a digest"
    ));
}

fn node(id: u32, name: &str) -> Node {
    Node {
        id: NodeId(id),
        name: name.into(),
        kind: "noop".into(),
        meta: Json::Null,
    }
}

fn graph() -> Graph {
    Graph {
        nodes: vec![node(0, "plan"), node(1, "build")],
        edges: vec![Edge {
            id: EdgeId(0),
            to: NodeId(1),
            transition: EdgeTransition::Continue,
            back: false,
        }],
        scopes: Vec::new(),
        result: ResultProjection::Nothing,
        policy: RunPolicy {
            max_invocations: None,
            loop_restart_signature_limit: None,
        },
    }
}

fn state() -> EngineState {
    EngineState {
        graph: graph(),
        branches: Arc::new(BranchMap {
            covered: 2,
            roles: Vec::new(),
            expansions: Vec::new(),
        }),
        history: Vec::new(),
        live: Vec::new(),
        awaiting_admission: Vec::new(),
        killed: Vec::new(),
        firing_counts: Vec::new(),
        started: true,
        finished: false,
        cancelled: false,
        exit: None,
        folded_status: RunStatus::Success,
        errors: Vec::new(),
        kv: Arc::new(Vec::new()),
        nodes: Vec::new(),
        prior_firings: Vec::new(),
    }
}

fn live(id: u64, node: u32, started: bool) -> LiveFiring {
    LiveFiring {
        id: FiringId(id),
        node: NodeId(node),
        generation: Generation(0),
        attempt: Attempt(1),
        inputs: Arc::new(Vec::new()),
        started,
        awaiting_retry: false,
        cancelling: false,
    }
}

fn succeeded() -> Arc<Outcome> {
    Arc::new(Outcome {
        status: Status {
            tag: "success".into(),
            success_like: true,
            cancelled: false,
            failure: None,
        },
        output: Json::Null,
        context_updates: Arc::new(Vec::new()),
        metrics: Metrics {
            duration_ms: Some(12),
        },
    })
}

fn readings() -> Readings {
    Readings {
        steps: silent(),
        answer: None,
        retry: RetryReading {
            retryable: false,
            another_attempt: false,
            next_attempt: Attempt(2),
            base_delay_ms: 0,
        },
    }
}

fn engine_record(seq: u64, event: Event) -> EventRecord {
    EventRecord {
        seq,
        origin: EventOrigin::External,
        event: Arc::new(event),
    }
}

#[test]
fn a_firing_s_records_derive_its_visit() {
    let mut projection = Projection::new();
    let execution = ExecutionId(7);
    let mut now = state();
    now.live.push(live(1, 0, false));
    now.firing_counts.push((NodeId(0), 1));
    now.awaiting_admission.push(FiringId(1));
    let events = projection.engine(
        execution,
        &engine_record(0, Event::ExecutionStarted { start: start(0) }),
        100,
        &now,
        &readings(),
    );
    assert_eq!(events[0].id.index, 0);
    assert_eq!(events[0].recorded_at, 100);
    assert!(matches!(events[0].record, Some(Record::Engine(_))));
    assert!(matches!(
        events[1].view(),
        Some(ViewEvent::VisitStarted { .. })
    ));
    assert_eq!(events[1].origin, RecordOrigin::Derived);
    assert_eq!(
        events[1].subject.as_ref().map(|subject| subject.node.name.as_str()),
        Some("plan")
    );
    assert_eq!(events[1].subject.as_ref().and_then(|subject| subject.visit), Some(1));
    assert!(events.iter().any(|event| matches!(
        event.view(),
        Some(ViewEvent::WaitStateChanged {
            state: WaitState::AwaitingAdmission
        })
    )));
    for (index, event) in events.iter().enumerate() {
        assert_eq!(event.id.seq, 0);
        assert_eq!(event.id.index as usize, index);
    }

    now.awaiting_admission.clear();
    now.live[0].started = true;
    let events = projection.engine(
        execution,
        &engine_record(
            1,
            Event::StepStarted {
                firing: FiringId(1),
                attempt: Attempt(1),
            },
        ),
        101,
        &now,
        &readings(),
    );
    assert!(events.iter().any(|event| matches!(
        event.view(),
        Some(ViewEvent::WaitStateChanged {
            state: WaitState::Running
        })
    )));

    now.live.clear();
    now.history.push(HistoryEntry {
        firing: FiringId(1),
        node: NodeId(0),
        name: "plan".into(),
        generation: Generation(0),
        attempt: Attempt(1),
        outcome: succeeded(),
    });
    let events = projection.engine(
        execution,
        &engine_record(
            2,
            Event::StepFinished {
                firing: FiringId(1),
                attempt: Attempt(1),
                outcome: succeeded(),
            },
        ),
        102,
        &now,
        &readings(),
    );
    assert!(matches!(
        events[0].derived,
        Some(Derived::StepFinished { is_final: true, exhausted: false })
    ));
    assert!(events.iter().any(|event| matches!(
        event.view(),
        Some(ViewEvent::VisitCompleted { executed: true, attempts: 1, .. })
    )));
}

fn retired(id: u64) -> HistoryEntry {
    HistoryEntry {
        firing: FiringId(id),
        node: NodeId(0),
        name: "plan".into(),
        generation: Generation(0),
        attempt: Attempt(1),
        outcome: succeeded(),
    }
}

/// A visit says which firing of its node it is, whatever fired after it.
#[test]
fn a_retired_firing_keeps_its_visit() {
    let mut now = state();
    now.history.push(retired(3));
    now.live.push(live(8, 0, false));
    now.live.push(live(9, 1, false));
    now.firing_counts.push((NodeId(0), 2));
    assert_eq!(now.visit(NodeId(0), FiringId(3)), 1);
    assert_eq!(now.visit(NodeId(0), FiringId(8)), 2);
    assert_eq!(now.visit(NodeId(1), FiringId(9)), 1);
    let events = Projection::new().engine(
        ExecutionId(7),
        &engine_record(
            5,
            Event::RetryElapsed {
                firing: FiringId(3),
                next_attempt: Attempt(2),
            },
        ),
        5,
        &now,
        &readings(),
    );
    assert_eq!(events[0].subject.as_ref().and_then(|subject| subject.visit), Some(1));
    let visits: Vec<Option<u32>> = events
        .iter()
        .filter(|event| matches!(event.view(), Some(ViewEvent::VisitStarted { .. })))
        .map(|event| event.subject.as_ref().and_then(|subject| subject.visit))
        .collect();
    assert_eq!(visits, vec![Some(2), Some(1)]);
}

/// Over a series of records, each firing starts one visit and each history
/// entry completes one, and two projections fed alike answer alike.
#[test]
fn a_series_starts_and_completes_each_visit_once() {
    let mut now = state();
    now.live.push(live(1, 0, false));
    let mut later = state();
    later.live.push(live(2, 0, false));
    later.history.push(retired(1));
    let records = [
        (Event::ExecutionStarted { start: start(0) }, &now),
        (
            Event::StepStarted {
                firing: FiringId(1),
                attempt: Attempt(1),
            },
            &now,
        ),
        (
            Event::StepFinished {
                firing: FiringId(1),
                attempt: Attempt(1),
                outcome: succeeded(),
            },
            &later,
        ),
        (
            Event::RetryElapsed {
                firing: FiringId(2),
                next_attempt: Attempt(2),
            },
            &later,
        ),
    ];
    let mut live = Projection::new();
    let mut replayed = Projection::new();
    let mut all = Vec::new();
    for (seq, (event, state)) in records.into_iter().enumerate() {
        let record = engine_record(seq as u64, event);
        let events = live.engine(ExecutionId(7), &record, 5, state, &readings());
        let again = replayed.engine(ExecutionId(7), &record, 5, state, &readings());
        assert_eq!(shown(&events), shown(&again));
        all.extend(events);
    }
    let started: Vec<u64> = all
        .iter()
        .filter(|event| matches!(event.view(), Some(ViewEvent::VisitStarted { .. })))
        .filter_map(|event| event.subject.as_ref()?.firing)
        .map(|firing| firing.0)
        .collect();
    assert_eq!(started, vec![1, 2]);
    let completed = all
        .iter()
        .filter(|event| {
            matches!(event.view(), Some(ViewEvent::VisitCompleted { executed: true, .. }))
        })
        .count();
    assert_eq!(completed, 1);
}

/// A fork starts and completes once, its branches told before it in order.
#[test]
fn a_fork_completes_once_and_branch_by_branch() {
    let branch = |index| BranchRef {
        fork: NodeId(0),
        index,
    };
    let roles = || {
        Arc::new(BranchMap {
            covered: 2,
            roles: vec![
                (NodeId(0), BranchRole::Fork { branches: 2 }),
                (NodeId(1), BranchRole::Join { fork: NodeId(0) }),
                (NodeId(2), BranchRole::Member(branch(0))),
                (NodeId(3), BranchRole::Member(branch(1))),
            ],
            expansions: Vec::new(),
        })
    };
    let node = |id: u32| Node {
        id: NodeId(id),
        name: format!("n{id}"),
        kind: "noop".into(),
        meta: Json::Null,
    };
    let on = |id: u64, node: u32| HistoryEntry {
        node: NodeId(node),
        ..retired(id)
    };
    let mut forked = state();
    forked.graph.nodes.push(node(2));
    forked.graph.nodes.push(node(3));
    forked.branches = roles();
    forked.history.push(on(1, 0));
    let mut joined = state();
    joined.graph.nodes.push(node(2));
    joined.graph.nodes.push(node(3));
    joined.branches = roles();
    joined.history = vec![on(1, 0), on(3, 3), on(2, 2)];
    let mut join = live(4, 1, false);
    join.inputs = Arc::new(vec![
        Token {
            from: FiringId(3),
            payload: Json::Null,
        },
        Token {
            from: FiringId(2),
            payload: Json::Null,
        },
    ]);
    joined.live.push(join);
    let route = || Event::RouteApplied {
        applied: RouteApplied::Edge {
            firing: FiringId(1),
            edge: EdgeId(0),
            group: 0,
        },
    };
    let mut projection = Projection::new();
    let mut all = Vec::new();
    for (seq, state) in [(0, &forked), (1, &forked), (2, &joined), (3, &joined)] {
        all.push(projection.engine(
            ExecutionId(7),
            &engine_record(seq, route()),
            5,
            state,
            &readings(),
        ));
    }
    let count = |name: &str| {
        all.iter()
            .flatten()
            .filter(|event| event.view().map(ViewEvent::name) == Some(name))
            .count()
    };
    assert_eq!(count("fork.started"), 1);
    assert_eq!(count("fork.completed"), 1);
    assert_eq!(count("branch.completed"), 2);
    let closing = &all[2];
    let at = closing
        .iter()
        .position(|event| matches!(event.view(), Some(ViewEvent::ForkCompleted { .. })))
        .expect("the join closes the fork");
    let Some(ViewEvent::ForkCompleted { occurrence, results, .. }) = closing[at].view() else {
        panic!("a completion");
    };
    assert_eq!(occurrence.visit, 1);
    let order: Vec<u32> = results.iter().map(|result| result.branch.index).collect();
    assert_eq!(order, vec![0, 1]);
    for (index, event) in closing[at - 2..at].iter().enumerate() {
        assert!(matches!(
            event.view(),
            Some(ViewEvent::BranchCompleted { result, .. }) if result.branch.index as usize == index
        ));
    }
}

#[test]
fn an_applied_route_names_its_target() {
    let mut projection = Projection::new();
    let events = projection.engine(
        ExecutionId(7),
        &engine_record(
            4,
            Event::RouteApplied {
                applied: RouteApplied::Edge {
                    firing: FiringId(1),
                    edge: EdgeId(0),
                    group: 0,
                },
            },
        ),
        5,
        &state(),
        &readings(),
    );
    let Some(Derived::RouteApplied { target, transition, back }) = &events[0].derived else {
        panic!("a target");
    };
    assert_eq!(target.name, "build");
    assert_eq!(*transition, Some(EdgeTransition::Continue));
    assert_eq!(*back, Some(false));
}

#[test]
fn a_stalled_run_is_a_view_of_its_cancel() {
    let record = lifecycle_record(
        9,
        CoordinatorEvent::InvocationCancelRequested {
            invocation: InvocationId::root(),
            reason: Some(CancelReason::StallTimeout {
                stall_timeout_ms: 60_000,
                idle_ms: 61_500,
            }),
        },
    );
    let events = Projection::new().lifecycle(&record);
    assert_eq!(events.len(), 2);
    assert!(matches!(
        events[1].view(),
        Some(ViewEvent::RunStalled {
            stall_timeout_ms: 60_000,
            idle_ms: 61_500
        })
    ));
    assert_eq!(events[1].view().map(ViewEvent::name), Some("run.stalled"));
    assert_eq!(events[1].id.index, 1);
}

#[test]
fn a_child_s_events_carry_the_call_that_started_it() {
    let mut projection = Projection::new();
    let child = InvocationId(4);
    projection.lifecycle(&lifecycle_record(
        0,
        CoordinatorEvent::InvocationDeclared {
            invocation: child,
            call: Some(ParentCallKey {
                parent: ExecutionId(1),
                firing: FiringId(3),
                attempt: Attempt(2),
                slot: "child".into(),
            }),
            graph: GraphDigest { high: 0, low: 0 },
            context: Arc::new(Vec::new()),
            secret_bindings: SecretBindings::Inherit,
            sandbox: SandboxBinding::Isolated,
            admission: None,
        },
    ));
    projection.lifecycle(&lifecycle_record(
        1,
        CoordinatorEvent::ExecutionDeclared {
            execution: ExecutionId(2),
            invocation: child,
            predecessor: None,
            start: start(0),
            middleware_state: Arc::new(Vec::new()),
        },
    ));
    let events = projection.engine(
        ExecutionId(2),
        &engine_record(0, Event::ExecutionStarted { start: start(0) }),
        1,
        &state(),
        &readings(),
    );
    assert_eq!(events[0].context.invocation, Some(child));
    let parent = events[0].context.parent.as_ref().expect("a parent");
    assert_eq!(parent.execution, ExecutionId(1));
    assert_eq!(parent.firing, FiringId(3));
    assert_eq!(parent.attempt, Attempt(2));
    assert_eq!(parent.slot, "child");
}

#[test]
fn an_external_engine_record_is_presented_and_inverts() {
    let about = Subject {
        node: NodeRef {
            id: NodeId(0),
            name: "plan".into(),
            kind: "noop".into(),
            meta: Json::Null,
        },
        firing: Some(FiringId(1)),
        visit: Some(1),
        attempt: Some(Attempt(1)),
        generation: Some(Generation(0)),
        branch: BranchRole::Outside,
    };
    let context = Context {
        invocation: Some(InvocationId::root()),
        execution: Some(ExecutionId(7)),
        parent: None,
    };
    let record = engine_record(
        6,
        Event::ControlRequested {
            firing: FiringId(1),
            ctl: Control::Deliver(json("[1, 2.50, \"x\"]")),
        },
    );
    let event = present_engine(
        ExecutionId(7),
        &record,
        Some(44),
        &context,
        &about,
        &graph(),
        &silent(),
    )
    .expect("presentable");
    let inverted = invert(&vec![event]).expect("inverts");
    let listed = inverted.executions.entries();
    let (execution, records) = &listed[0];
    assert_eq!(*execution, 7);
    let held = records.entries();
    let (seq, found) = &held[0];
    assert_eq!(*seq, 6);
    assert_eq!(found.recorded_at, Some(44));
    assert_eq!(shown(&found.record), shown(&record));
    let core = engine_record(
        7,
        Event::RouteApplied {
            applied: RouteApplied::Nothing {
                firing: FiringId(1),
                group: 0,
            },
        },
    );
    assert!(present_engine(
        ExecutionId(7),
        &core,
        None,
        &context,
        &about,
        &graph(),
        &silent()
    )
    .is_none());
}

#[test]
fn notes_and_hook_activity_are_written_as_they_are_read() {
    let activity = HookActivity {
        hook: HookOperation {
            point: HookPoint::AfterVisit,
            hook: "review".into(),
        },
        backend: "pebble".into(),
        envelope: json(r#"{ "seq": 3 }"#),
    };
    let payload = activity.to_payload();
    assert_eq!(
        text(&payload),
        r#"{"hook":{"point":"after_visit","hook":"review"},"backend":"pebble","envelope":{"seq":3}}"#
    );
    let read = HookActivity::from_payload(&payload).expect("reads back");
    assert_eq!(shown(&read), shown(&activity));
    let recorded = Note {
        kind: HOOK_ACTIVITY_NOTE_KIND.to_owned(),
        payload,
    };
    let Parsed::Note { hook_activity, .. } = note_parsed(recorded.clone()) else {
        panic!("a note");
    };
    assert_eq!(shown(&hook_activity.expect("an activity")), shown(&activity));
    let event = recorded.to_step_event();
    let back = Note::from_step_event(&event).expect("a note");
    assert_eq!(shown(&back), shown(&recorded));
}

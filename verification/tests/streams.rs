use std::sync::Arc;

use execution::event::{CoordinatorEvent, CoordinatorRecord};
use execution::events::derivation::{Readings, RetryReading};
use execution::events::export::{
    at_seq, exported_lifecycle, exported_lines, first_difference, stored_records, verify_export,
    CoordinatorExport, Difference, ExecutionExport, ExportError, SeqValue,
};
use execution::events::follow::{asks_apply, ExecutionTail, RunReplay};
use execution::events::invert::InvertError;
use execution::events::lossless::{
    invert_loaded, regenerated_times, verify_lossless, LosslessError,
};
use execution::events::projection::Projection;
use execution::events::projector::{
    event_label, shutdown, stamped, ProjectionReceipt, ProjectorOptions, Pump, PumpEnd, Queue,
    SendOutcome, SinkError, SinkOutcome, DEFAULT_QUEUE_CAPACITY,
};
use execution::events::replay::{
    events_after, project_loaded, replay_execution, AppliedEvent, LoadedExecution, LoadedRun,
};
use execution::events::{EventId, EventSource, RunEvent};
use execution::ids::{Attempt, CancelScopeId, ExecutionId, FiringId, GraphDigest, InvocationId};
use execution::json::Json;
use execution::model::{Graph, ResultProjection, RunPolicy, RunStatus};
use execution::note::StepReading;
use execution::observe::{
    decode_engine_tail, encode_engine_record, EngineLogDecodeError, LogLine,
};
use execution::record::{
    CancelTarget, EngineStart, EntryPoint, Event, EventOrigin, EventRecord, StepEvent,
    StoredEngineRecord,
};
use execution::run_state::StateError;
use execution::state::{BranchMap, EngineState};
use execution::wire::read_json;

fn json(text: &str) -> Json {
    read_json(text.as_bytes()).expect("a JSON text")
}

fn shown<T: std::fmt::Debug>(value: &T) -> String {
    format!("{value:?}")
}

fn start() -> EngineStart {
    EngineStart {
        entry: EntryPoint::GraphEntries,
        context: Arc::new(Vec::new()),
        prior_firings: Arc::new(Vec::new()),
        execution_index: 0,
        max_executions: 3,
    }
}

fn state() -> EngineState {
    EngineState {
        graph: Graph {
            nodes: Vec::new(),
            edges: Vec::new(),
            scopes: Vec::new(),
            result: ResultProjection::Nothing,
            policy: RunPolicy {
                max_invocations: None,
                loop_restart_signature_limit: None,
            },
        },
        branches: Arc::new(BranchMap {
            covered: 0,
            roles: Vec::new(),
            expansions: Vec::new(),
        }),
        history: Vec::new(),
        live: Vec::new(),
        awaiting_admission: Vec::new(),
        killed: Vec::new(),
        firing_counts: Vec::new(),
        started: true,
        finished: false,
        cancelled: false,
        exit: None,
        folded_status: RunStatus::Success,
        errors: Vec::new(),
        kv: Arc::new(Vec::new()),
        nodes: Vec::new(),
        prior_firings: Vec::new(),
    }
}

fn readings() -> Readings {
    Readings {
        steps: StepReading {
            question: None,
            expired: None,
        },
        answer: None,
        retry: RetryReading {
            retryable: false,
            another_attempt: false,
            next_attempt: Attempt(2),
            base_delay_ms: 0,
        },
    }
}

fn cancel(seq: u64, origin: EventOrigin) -> EventRecord {
    EventRecord {
        seq,
        origin,
        event: Arc::new(Event::CancelRequested {
            target: CancelTarget::Scope(CancelScopeId::root()),
        }),
    }
}

fn coordinator() -> Vec<CoordinatorRecord> {
    [
        CoordinatorEvent::GraphRegistered {
            digest: GraphDigest { high: 0, low: 0 },
        },
        CoordinatorEvent::ExecutionDeclared {
            execution: ExecutionId(1),
            invocation: InvocationId(0),
            predecessor: None,
            start: start(),
            middleware_state: Arc::new(Vec::new()),
        },
        CoordinatorEvent::RunPaused,
    ]
    .into_iter()
    .enumerate()
    .map(|(seq, event)| CoordinatorRecord::external(seq as u64, 100 + seq as u64, event))
    .collect()
}

fn loaded() -> LoadedRun {
    LoadedRun {
        coordinator: coordinator(),
        executions: vec![LoadedExecution {
            execution: ExecutionId(1),
            records: vec![cancel(0, EventOrigin::External), cancel(1, EventOrigin::Core)],
            applied: vec![AppliedEvent {
                records: vec![cancel(0, EventOrigin::External), cancel(1, EventOrigin::Core)],
                readings: vec![readings(), readings()],
                state: state(),
            }],
            recorded_at: vec![7, 8],
            finished: true,
        }],
    }
}

fn stream() -> Vec<RunEvent> {
    project_loaded(&loaded(), &mut Projection::new())
}

// ── Replay ─────────────────────────────────────────────────────────────

#[test]
fn a_stream_carries_its_logs() {
    let events = stream();
    assert_eq!(
        shown(&exported_lifecycle(&events)),
        shown(&coordinator())
    );
    let lines = exported_lines(&events, ExecutionId(1));
    let stored = stored_records(
        &vec![cancel(0, EventOrigin::External), cancel(1, EventOrigin::Core)],
        &vec![7, 8],
    );
    assert_eq!(shown(&lines), shown(&stored));
    assert!(exported_lines(&events, ExecutionId(2)).is_empty());
}

#[test]
fn a_stored_record_is_taken_apart_as_it_was_stored() {
    let record = cancel(4, EventOrigin::Core);
    let (taken, at) = StoredEngineRecord::new(&record, 9).into_parts();
    assert_eq!(shown(&taken), shown(&record));
    assert_eq!(at, 9);
}

#[test]
fn a_step_s_own_payload_is_carried_as_recorded() {
    let record = EventRecord {
        seq: 0,
        origin: EventOrigin::External,
        event: Arc::new(Event::StepProgressRecorded {
            firing: FiringId(1),
            ev: StepEvent::Custom(json(r#"{ "kind": "backend" }"#)),
        }),
    };
    let events = Projection::new().engine(ExecutionId(1), &record, 3, &state(), &readings());
    assert!(events[0]
        .custom()
        .is_some_and(|value| value.same(&json(r#"{ "kind": "backend" }"#))));
    assert!(stream()[0].custom().is_none());
}

#[test]
fn a_consumer_is_given_what_it_does_not_hold() {
    let all = stream().len();
    assert_eq!(events_after(stream(), &Vec::new()).len(), all);
    let held = vec![(
        EventSource::Coordinator,
        EventId {
            source: EventSource::Coordinator,
            seq: 1,
            index: 0,
        },
    )];
    let rest = events_after(stream(), &held);
    assert_eq!(
        rest.iter()
            .filter(|event| event.id.source == EventSource::Coordinator)
            .count(),
        1
    );
    assert_eq!(rest.len(), all - 2);
}

#[test]
fn a_replay_consumes_each_record_once() {
    let records = coordinator();
    let mut whole = RunReplay::new();
    let all = whole.advance(&records, true, Vec::new()).expect("follows");
    let mut parts = RunReplay::new();
    let mut read = coordinator();
    let tail = read.split_off(1);
    let mut pieces = parts.advance(&read, true, Vec::new()).expect("follows");
    pieces.extend(parts.advance(&tail, true, Vec::new()).expect("follows"));
    assert_eq!(shown(&all), shown(&pieces));
    assert_eq!(parts.consumed(), 3);
    assert!(matches!(
        parts.advance(&tail, true, Vec::new()),
        Err(StateError::Sequence { index: 3, found: 1 })
    ));
    assert_eq!(parts.consumed(), 3, "a failed advance changes nothing");
    assert!(matches!(
        RunReplay::new().advance(&Vec::new(), false, Vec::new()),
        Err(StateError::MissingRunStart)
    ));
    let nothing = parts.advance(&Vec::new(), true, Vec::new()).expect("follows");
    assert!(nothing.is_empty());
}

fn applied() -> AppliedEvent {
    AppliedEvent {
        records: vec![cancel(0, EventOrigin::External), cancel(1, EventOrigin::Core)],
        readings: vec![readings(), readings()],
        state: state(),
    }
}

fn tail(records: Vec<(EventRecord, u64)>, applies: Vec<AppliedEvent>) -> ExecutionTail {
    ExecutionTail {
        execution: ExecutionId(1),
        start: Some(state()),
        records,
        applies,
    }
}

/// Read by read, an execution's events are those of the full replay: a record
/// the log does not hold yet waits, and none is published twice.
#[test]
fn a_followed_execution_publishes_each_record_once() {
    let external = cancel(0, EventOrigin::External);
    let core = cancel(1, EventOrigin::Core);
    assert!(asks_apply(&external, 0));
    assert!(!asks_apply(&external, 1));
    assert!(!asks_apply(&core, 0));
    let mut replay = RunReplay::new();
    assert_eq!(replay.published(ExecutionId(1)), None);
    let mut pieces = replay
        .advance(
            &coordinator(),
            true,
            vec![tail(vec![(external.clone(), 7)], vec![applied()])],
        )
        .expect("follows");
    assert_eq!(replay.published(ExecutionId(1)), Some(1));
    assert_eq!(
        pieces.last().map(|event| event.id.seq),
        Some(0),
        "the log holds only the first record yet"
    );
    assert!(matches!(
        replay.advance(
            &coordinator(),
            true,
            vec![tail(vec![(core.clone(), 8)], Vec::new())]
        ),
        Err(StateError::Sequence { index: 3, found: 0 })
    ));
    assert_eq!(
        replay.published(ExecutionId(1)),
        Some(1),
        "a failed advance leaves the executions' replays"
    );
    let more = replay
        .advance(&Vec::new(), true, vec![tail(vec![(core, 8)], Vec::new())])
        .expect("follows");
    assert_eq!(more.len(), 1);
    assert_eq!(more[0].id.seq, 1);
    assert_eq!(more[0].recorded_at, 8);
    pieces.extend(more);
    assert_eq!(shown(&pieces), shown(&stream()));
}

/// A record that has a recording time but is past the log's end is applied
/// and not published.
#[test]
fn a_record_past_the_log_s_end_is_not_published() {
    let published = |stored: usize| -> Vec<u64> {
        replay_execution(
            &mut Projection::new(),
            ExecutionId(1),
            &vec![applied()],
            &vec![7, 8],
            stored,
        )
        .iter()
        .map(|event| event.id.seq)
        .collect()
    };
    assert_eq!(published(0), Vec::<u64>::new());
    assert_eq!(published(1), vec![0]);
    assert_eq!(published(2), vec![0, 1]);
    assert_eq!(published(9), vec![0, 1]);
    let mut short = loaded();
    short.executions[0].records.pop();
    let told: Vec<EventId> = project_loaded(&short, &mut Projection::new())
        .iter()
        .filter(|event| event.id.source == EventSource::Execution { execution: ExecutionId(1) })
        .map(|event| event.id)
        .collect();
    assert_eq!(told.len(), 1);
    assert_eq!(told[0].seq, 0);
}

/// Two executions followed in four reads: log by log, the events are those of
/// one replay of the whole store.
#[test]
fn reads_of_a_run_tell_its_replay_log_by_log() {
    let external = || cancel(0, EventOrigin::External);
    let core = || cancel(1, EventOrigin::Core);
    let mut records = coordinator();
    records.push(CoordinatorRecord::external(
        3,
        103,
        CoordinatorEvent::ExecutionDeclared {
            execution: ExecutionId(2),
            invocation: InvocationId(0),
            predecessor: Some(ExecutionId(1)),
            start: start(),
            middleware_state: Arc::new(Vec::new()),
        },
    ));
    let log = |execution: u64| LoadedExecution {
        execution: ExecutionId(execution),
        records: vec![external(), core()],
        applied: vec![applied()],
        recorded_at: vec![7, 8],
        finished: true,
    };
    let of = |execution: u64, records: Vec<(EventRecord, u64)>, applies: Vec<AppliedEvent>| {
        ExecutionTail {
            execution: ExecutionId(execution),
            start: Some(state()),
            records,
            applies,
        }
    };
    let whole = project_loaded(
        &LoadedRun {
            coordinator: records.clone(),
            executions: vec![log(1), log(2)],
        },
        &mut Projection::new(),
    );
    let reads = vec![
        (records[..2].to_vec(), vec![of(1, vec![(external(), 7)], vec![applied()])]),
        (records[2..3].to_vec(), Vec::new()),
        (
            records[3..].to_vec(),
            vec![
                of(1, vec![(core(), 8)], Vec::new()),
                of(2, vec![(external(), 7)], vec![applied()]),
            ],
        ),
        (Vec::new(), vec![of(2, vec![(core(), 8)], Vec::new())]),
    ];
    let mut replay = RunReplay::new();
    let mut told: Vec<RunEvent> = Vec::new();
    for (records, tails) in reads {
        told.extend(replay.advance(&records, true, tails).expect("follows"));
    }
    for source in [
        EventSource::Coordinator,
        EventSource::Execution { execution: ExecutionId(1) },
        EventSource::Execution { execution: ExecutionId(2) },
    ] {
        let of_log = |events: &Vec<RunEvent>| -> Vec<String> {
            events
                .iter()
                .filter(|event| event.id.source == source)
                .map(shown)
                .collect()
        };
        assert!(!of_log(&told).is_empty());
        assert_eq!(of_log(&told), of_log(&whole));
    }
    let idle = replay
        .advance(&Vec::new(), true, vec![of(1, Vec::new(), Vec::new())])
        .expect("follows");
    assert!(idle.is_empty());
}

#[test]
fn a_tail_is_decoded_at_its_own_lines() {
    let line = |seq: u64| {
        encode_engine_record(&LogLine {
            seq,
            origin: EventOrigin::External,
            recorded_at: 1,
            body: json("{}"),
        })
    };
    let tail = decode_engine_tail(3, &vec![line(3), line(4)], &Vec::new()).expect("decodes");
    assert_eq!(tail.lines.len(), 2);
    assert!(matches!(
        decode_engine_tail(3, &vec![line(3), line(5)], &Vec::new()),
        Err(EngineLogDecodeError::SeqMismatch { index: 4, found: 5 })
    ));
    assert!(
        matches!(
            decode_engine_tail(3, &vec![line(4), json("1")], &Vec::new()),
            Err(EngineLogDecodeError::BadRecord { line: 5 })
        ),
        "a line that does not decode is named before a gap"
    );
    assert!(matches!(
        decode_engine_tail(3, &vec![line(4), line(4)], &vec![1]),
        Err(EngineLogDecodeError::BadRecord { line: 5 })
    ));
    assert!(matches!(
        decode_engine_tail(3, &vec![json("1")], &Vec::new()),
        Err(EngineLogDecodeError::BadRecord { line: 4 })
    ));
}

// ── Export ─────────────────────────────────────────────────────────────

fn value(seq: u64, text: &str) -> SeqValue {
    SeqValue {
        seq,
        value: json(text),
    }
}

#[test]
fn the_first_difference_is_named() {
    let a = vec![value(0, "1"), value(1, "2")];
    assert_eq!(first_difference(&a, &vec![value(0, "1"), value(1, "2")]), None);
    assert_eq!(
        first_difference(&a, &vec![value(0, "1"), value(1, "3")]),
        Some(Difference::At(1))
    );
    assert_eq!(first_difference(&a, &vec![value(0, "1")]), Some(Difference::Length));
    assert_eq!(Difference::At(4).seq(), Some(4));
    assert_eq!(Difference::Length.seq(), None);
    assert_eq!(at_seq(Some(4)), " at seq 4");
    assert_eq!(at_seq(None), "");
}

fn line_text(seq: u64) -> String {
    format!(r#"{{"seq":{seq},"origin":"external","recorded_at":1,"body":{{}}}}"#)
}

fn execution_export() -> ExecutionExport {
    ExecutionExport {
        execution: ExecutionId(1),
        exported: vec![value(0, &line_text(0))],
        stored: vec![value(0, &line_text(0))],
        records: vec![value(0, "1")],
        regenerated: vec![value(0, "1")],
        foreign: Vec::new(),
        finished: true,
    }
}

fn coordinator_export() -> CoordinatorExport {
    CoordinatorExport {
        exported: vec![value(0, "1")],
        stored: vec![value(0, "1")],
        reloaded: Some(vec![value(0, "1")]),
    }
}

#[test]
fn an_export_is_verified_against_its_logs() {
    assert_eq!(
        verify_export(&coordinator_export(), &vec![execution_export()]),
        Ok(())
    );
    let changed = CoordinatorExport {
        exported: vec![value(0, "2")],
        ..coordinator_export()
    };
    assert_eq!(
        verify_export(&changed, &Vec::new()),
        Err(ExportError::Coordinator { seq: Some(0) })
    );
    let unread = CoordinatorExport {
        reloaded: None,
        ..coordinator_export()
    };
    assert_eq!(
        verify_export(&unread, &Vec::new()),
        Err(ExportError::CoordinatorReload)
    );
    let engine = ExecutionExport {
        exported: Vec::new(),
        ..execution_export()
    };
    assert_eq!(
        verify_export(&coordinator_export(), &vec![engine]),
        Err(ExportError::Engine { execution: ExecutionId(1), seq: None })
    );
    let bad = ExecutionExport {
        exported: vec![value(0, "1")],
        stored: vec![value(0, "1")],
        ..execution_export()
    };
    assert_eq!(
        verify_export(&coordinator_export(), &vec![bad]),
        Err(ExportError::EngineReload {
            execution: ExecutionId(1),
            source: EngineLogDecodeError::BadRecord { line: 1 }
        })
    );
    let other = ExecutionExport {
        regenerated: vec![value(0, "2")],
        ..execution_export()
    };
    assert_eq!(
        verify_export(&coordinator_export(), &vec![other]),
        Err(ExportError::Regenerated { execution: ExecutionId(1), seq: Some(0) })
    );
    let longer = || ExecutionExport {
        regenerated: vec![value(0, "1"), value(1, "2")],
        ..execution_export()
    };
    assert_eq!(
        verify_export(&coordinator_export(), &vec![longer()]),
        Err(ExportError::Incomplete {
            execution: ExecutionId(1),
            stored: 1,
            regenerated: 2
        })
    );
    let running = ExecutionExport {
        finished: false,
        ..longer()
    };
    assert_eq!(verify_export(&coordinator_export(), &vec![running]), Ok(()));
}

fn regenerated() -> Vec<Vec<AppliedEvent>> {
    loaded()
        .executions
        .into_iter()
        .map(|execution| execution.applied)
        .collect()
}

fn pause(seq: u64) -> CoordinatorRecord {
    CoordinatorRecord::external(seq, 9, CoordinatorEvent::RunPaused)
}

#[test]
fn a_stream_that_loses_nothing_gives_the_inverted_run() {
    let mut run = loaded();
    run.executions[0].recorded_at = vec![7, 7];
    let inverted = verify_lossless(&run, regenerated()).expect("lossless");
    let lifecycle: Vec<String> = inverted
        .coordinator
        .entries()
        .iter()
        .map(|(_, record)| format!("{record:?}"))
        .collect();
    let stored: Vec<String> = coordinator().iter().map(|record| format!("{record:?}")).collect();
    assert_eq!(lifecycle, stored);
    let externals = inverted.executions.get(1).expect("the stream names it").entries();
    assert_eq!(externals.len(), 1, "the core's own record is regenerated");
    assert_eq!(externals[0].1.record.seq, 0);
    assert_eq!(externals[0].1.recorded_at, Some(7));
    assert!(invert_loaded(&run).is_ok());
}

#[test]
fn a_stream_that_loses_something_is_named() {
    let mut twice = loaded();
    twice.coordinator.push(pause(2));
    assert!(matches!(
        verify_lossless(&twice, regenerated()),
        Err(LosslessError::Coordinator { seq: None })
    ));
    let mut core = loaded();
    core.coordinator[0].origin = EventOrigin::Core;
    assert!(matches!(
        verify_lossless(&core, regenerated()),
        Err(LosslessError::Coordinator { seq: Some(0) })
    ));
    let mut external = loaded();
    external.executions[0].records[0].event = Arc::new(Event::KillRequested {
        scope: CancelScopeId::root(),
    });
    assert!(matches!(
        verify_lossless(&external, regenerated()),
        Err(LosslessError::External { execution: ExecutionId(1), seq: Some(0) })
    ));
    let mut other = regenerated();
    other[0][0].records[1] = cancel(1, EventOrigin::External);
    assert!(matches!(
        verify_lossless(&loaded(), other),
        Err(LosslessError::Regenerated { execution: ExecutionId(1), seq: Some(1) })
    ));
    let mut short = regenerated();
    short[0][0].records.pop();
    short[0][0].readings.pop();
    assert!(matches!(
        verify_lossless(&loaded(), short),
        Err(LosslessError::Regenerated { execution: ExecutionId(1), seq: None })
    ));
    assert!(
        matches!(
            verify_lossless(&loaded(), regenerated()),
            Err(LosslessError::Reprojected { id: Some(id) }) if id.seq == 1
        ),
        "the core's record is stamped with its external record's time"
    );
    let mut unpresentable = loaded();
    unpresentable.executions[0].applied[0].records[0].event = Arc::new(Event::StepStarted {
        firing: FiringId(9),
        attempt: Attempt(1),
    });
    assert!(matches!(
        verify_lossless(&unpresentable, regenerated()),
        Err(LosslessError::Invert(InvertError::MissingSubject { .. }))
    ));
    assert_eq!(regenerated_times(&vec![(1, Some(5)), (3, None), (4, Some(9))]), vec![5, 0, 0, 9]);
}

// ── The projector ──────────────────────────────────────────────────────

fn id(seq: u64) -> EventId {
    EventId {
        source: EventSource::Execution {
            execution: ExecutionId(2),
        },
        seq,
        index: 1,
    }
}

#[test]
fn an_event_that_finds_the_queue_full_is_left_to_the_log() {
    assert_eq!(ProjectorOptions::default().capacity, DEFAULT_QUEUE_CAPACITY);
    let none = ProjectorOptions {
        capacity: 0,
        ..ProjectorOptions::default()
    };
    assert_eq!(none.room(), 1);
    let mut queue = Queue::new();
    assert!(!queue.push(SendOutcome::Sent));
    assert!(queue.push(SendOutcome::Full), "the first is worth a warning");
    assert!(!queue.push(SendOutcome::Full));
    queue.close();
    queue.push(SendOutcome::Sent);
    let mut pump = Pump::new();
    assert!(pump.delivers());
    pump.handed(&id(0), SinkOutcome::Accepted, 50);
    pump.finished(SinkOutcome::Accepted, 50);
    let receipt = shutdown(&queue, PumpEnd::Receipt(pump.receipt));
    assert_eq!(receipt.projected, 4);
    assert_eq!(receipt.delivered, 1);
    assert_eq!(receipt.undelivered, 3);
    assert_eq!(receipt.overflowed, 2);
    assert!(!receipt.is_clean());
}

#[test]
fn a_clean_receipt_means_every_event_was_delivered() {
    let mut queue = Queue::new();
    let mut pump = Pump::new();
    for seq in 0..3 {
        queue.push(SendOutcome::Sent);
        pump.handed(&id(seq), SinkOutcome::Accepted, 50);
    }
    let receipt = shutdown(&queue, PumpEnd::Receipt(pump.receipt));
    assert!(receipt.is_clean());
    assert_eq!(receipt.delivered, receipt.projected);
}

#[test]
fn delivery_stops_at_the_first_failure() {
    let mut pump = Pump::new();
    pump.handed(&id(7), SinkOutcome::Stalled, 50);
    assert!(!pump.delivers());
    pump.withheld();
    assert_eq!(pump.receipt.undelivered, 2);
    assert_eq!(
        pump.receipt.failure,
        Some(format!(
            "the sink stalled: {} was not accepted within 50ms, and delivery stopped there",
            event_label(&id(7))
        ))
    );
    let mut refused = Pump::new();
    refused.handed(&id(0), SinkOutcome::Refused(SinkError::new("full".into())), 50);
    assert_eq!(refused.receipt.failure.as_deref(), Some("full"));
    let mut stalled = Pump::new();
    stalled.finished(SinkOutcome::Stalled, 50);
    assert_eq!(
        stalled.receipt.failure.as_deref(),
        Some("the sink stalled: `finish` did not return within 50ms")
    );
}

#[test]
fn a_lost_pump_is_the_receipt_s_failure() {
    let queue = Queue::new();
    let failed: ProjectionReceipt = shutdown(&queue, PumpEnd::Failed("panicked".into()));
    assert_eq!(failed.failure.as_deref(), Some("the event pump failed: panicked"));
    let twice = shutdown(&queue, PumpEnd::Taken);
    assert_eq!((twice.projected, twice.delivered, twice.undelivered), (0, 0, 0));
    assert_eq!(twice.failure.as_deref(), Some("shutdown was called twice"));
}

#[test]
fn a_live_event_is_stamped_when_it_is_seen() {
    let event = stream().swap_remove(0);
    assert_eq!(event.observed_at, None);
    let seen = stamped(event, Some(12));
    assert_eq!(seen.observed_at, Some(12));
    assert_eq!(event_label(&id(3)), event_label(&id(3)));
    assert_ne!(event_label(&id(3)), event_label(&id(4)));
}

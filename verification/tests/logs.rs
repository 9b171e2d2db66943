use std::sync::Arc;

use execution::host::{decode_events, encode_events, read_events, HostError};
use execution::ids::{ExecutionId, GraphDigest};
use execution::json::{fields_match, Json, JsonNumber};
use execution::observe::{
    decode_engine_log, decode_engine_records, encode_engine_log, engine_file_values, encode_engine_record,
    EngineLogDecodeError, LogLine,
};
use execution::record::EventOrigin;
use execution::wire::{read_json, write_json};
use execution::writer::{writer_stopped, ExecutionLogWriter, LogId, WriterState, STORE_OBSERVER};

fn json(text: &str) -> Json {
    read_json(text.as_bytes()).expect("a JSON text")
}

fn text(value: &Json) -> String {
    String::from_utf8(write_json(value).expect("writes")).expect("utf-8")
}

fn shown<T: std::fmt::Debug>(value: &T) -> String {
    format!("{value:?}")
}

fn cancel_body() -> Json {
    json(r#"{"event":"cancel.requested","target":{"scope":0}}"#)
}

fn line(seq: u64, recorded_at: u64) -> LogLine {
    LogLine {
        seq,
        origin: EventOrigin::External,
        recorded_at,
        body: cancel_body(),
    }
}

/// The file framing writes the same lines the store keeps, times included,
/// and reads them back.
#[test]
fn encoding_a_log_round_trips_its_recording_times() {
    let log = vec![line(0, 7), line(1, 9)];
    let bytes = encode_engine_log(&log).expect("a valid log");
    let decoded = decode_engine_log(&bytes, &Vec::new()).expect("decodes");
    assert_eq!(shown(&decoded.lines), shown(&log));
    let recorded_at: Vec<u64> = decoded.lines.iter().map(|line| line.recorded_at).collect();
    assert_eq!(recorded_at, vec![7, 9]);
    assert!(!decoded.torn);
}

#[test]
fn the_framing_is_one_object_per_line() {
    let bytes = encode_engine_log(&vec![line(0, 7), line(1, 9)]).expect("writes");
    let written = String::from_utf8(bytes).expect("utf-8");
    assert_eq!(
        written,
        "{\"seq\":0,\"origin\":\"external\",\"recorded_at\":7,\"body\":{\"event\":\"cancel.requested\",\"target\":{\"scope\":0}}}\n\
         {\"seq\":1,\"origin\":\"external\",\"recorded_at\":9,\"body\":{\"event\":\"cancel.requested\",\"target\":{\"scope\":0}}}\n"
    );
}

#[test]
fn a_torn_last_line_is_dropped() {
    let mut bytes = encode_engine_log(&vec![line(0, 7)]).expect("writes");
    let clean = bytes.len();
    bytes.extend_from_slice(b"{\"seq\":1,\"ori");
    let decoded = decode_engine_log(&bytes, &Vec::new()).expect("decodes");
    assert_eq!(decoded.lines.len(), 1);
    assert_eq!(decoded.clean_len, clean);
    assert!(decoded.torn);
}

#[test]
fn a_complete_bad_line_refuses_the_load() {
    let mut bytes = encode_engine_log(&vec![line(0, 7)]).expect("writes");
    bytes.extend_from_slice(b"{\"seq\":1,\"ori\n");
    assert_eq!(
        decode_engine_log(&bytes, &Vec::new()).err(),
        Some(EngineLogDecodeError::BadRecord { line: 2 })
    );
    assert_eq!(
        decode_events(b"[]\n", &Vec::new()).err(),
        Some(EngineLogDecodeError::BadRecord { line: 1 })
    );
    assert!(matches!(
        read_events(b"[]\n", &Vec::new()),
        Err(HostError::Events(EngineLogDecodeError::BadRecord { line: 1 }))
    ));
}

/// A line whose body is no engine event is bad, also before a record out of
/// its place.
#[test]
fn a_line_of_no_engine_event_refuses_the_load() {
    let stored = vec![
        encode_engine_record(&line(1, 7)),
        encode_engine_record(&line(1, 9)),
    ];
    assert!(matches!(
        decode_engine_records(&stored, &vec![1]),
        Err(EngineLogDecodeError::BadRecord { line: 2 })
    ));
    let bytes = encode_events(&vec![line(0, 7), line(1, 9)]).expect("writes");
    assert_eq!(
        decode_events(&bytes, &vec![0]).err(),
        Some(EngineLogDecodeError::BadRecord { line: 1 })
    );
    let values = engine_file_values(&bytes).expect("parses");
    assert_eq!(values.values.len(), 2);
    assert_eq!(values.clean_len, bytes.len());
}

/// A torn tail behind a whole file changes nothing but that the file is torn.
#[test]
fn a_torn_event_file_keeps_its_log() {
    let log = vec![line(0, 1), line(1, 2)];
    let mut bytes = encode_events(&log).expect("writes");
    let whole = decode_events(&bytes, &Vec::new()).expect("decodes");
    assert_eq!(whole.clean_len, bytes.len());
    assert!(!whole.torn);
    let clean = bytes.len();
    bytes.extend_from_slice(b"{\"seq\":2");
    let cut = decode_events(&bytes, &Vec::new()).expect("decodes");
    assert_eq!(shown(&cut.lines), shown(&log));
    assert_eq!(cut.clean_len, clean);
    assert!(cut.torn);
}

#[test]
fn a_record_out_of_its_place_refuses_the_load() {
    let stored = vec![
        encode_engine_record(&line(0, 7)),
        encode_engine_record(&line(2, 9)),
    ];
    assert!(matches!(
        decode_engine_records(&stored, &Vec::new()),
        Err(EngineLogDecodeError::SeqMismatch { index: 1, found: 2 })
    ));
}

#[test]
fn the_host_reads_what_it_writes() {
    let log = vec![line(0, 1), line(1, 2), line(2, 3)];
    let bytes = encode_events(&log).expect("writes");
    let decoded = read_events(&bytes, &Vec::new()).expect("decodes");
    assert_eq!(shown(&decoded.lines), shown(&log));
    assert_eq!(decoded.clean_len, bytes.len());
}

/// What was handed to the store before a marker is stored when the marker is
/// answered, each record with its own time.
#[test]
fn durable_answers_once_the_record_is_in_the_store() {
    let mut store: Vec<Json> = Vec::new();
    let mut writer = WriterState::new();
    let log = ExecutionLogWriter::new(ExecutionId(0), 0);
    for (seq, recorded_at) in [(0, 1_000), (1, 1_250)] {
        let stored = encode_engine_record(&line(seq, recorded_at));
        let batch = log.on_record(seq, stored).expect("not stored yet");
        writer.take(batch.log, batch.records);
    }
    let batch = writer.next().expect("one batch");
    assert_eq!(batch.log, LogId::Execution(ExecutionId(0)));
    store.extend(batch.records);
    assert!(writer.next().is_none());
    assert!(writer.answer().is_ok(), "both records stored");

    let decoded = decode_engine_records(&store, &Vec::new()).expect("decodes");
    assert_eq!(shown(&decoded.lines), shown(&vec![line(0, 1_000), line(1, 1_250)]));
    let recorded_at: Vec<u64> = decoded.lines.iter().map(|line| line.recorded_at).collect();
    assert_eq!(
        recorded_at,
        vec![1_000, 1_250],
        "each record's recording time is read back beside it"
    );
}

/// An append that fails is the acknowledgement's error and every later
/// marker reports it again.
#[test]
fn a_failed_append_is_the_durable_answer_and_the_finish_report() {
    let mut writer = WriterState::new();
    let log = ExecutionLogWriter::new(ExecutionId(0), 0);
    let batch = log
        .on_record(0, encode_engine_record(&line(0, 1_000)))
        .expect("not stored yet");
    writer.take(batch.log, batch.records);
    assert!(writer.next().is_some());
    writer.append_failed("execution 0", "another owner holds the run");
    let error = writer.answer().expect_err("the append failed");
    assert_eq!(error.observer, "run store");
    assert_eq!(
        error.message,
        "could not append to the execution 0 log: another owner holds the run"
    );
    let batch = log
        .on_record(1, encode_engine_record(&line(1, 1_001)))
        .expect("not stored yet");
    writer.take(batch.log, batch.records);
    assert!(writer.next().is_none(), "nothing reached the store");
    let error = writer.answer().expect_err("reported again at finish");
    assert_eq!(error.observer, "run store");
    writer.store_gone();
    assert!(writer
        .answer()
        .expect_err("the first failure stays")
        .message
        .starts_with("could not append"));
}

/// Records below the high-water mark are already stored and are skipped on
/// redelivery.
#[test]
fn a_resumed_writer_skips_the_stored_prefix() {
    let mut store = vec![encode_engine_record(&line(0, 1))];
    let resumed = ExecutionLogWriter::new(ExecutionId(0), 1);
    assert!(resumed
        .on_record(0, encode_engine_record(&line(0, 5)))
        .is_none());
    let batch = resumed
        .on_record(1, encode_engine_record(&line(1, 6)))
        .expect("new");
    store.extend(batch.records);
    let decoded = decode_engine_records(&store, &Vec::new()).expect("decodes");
    let recorded_at: Vec<u64> = decoded.lines.iter().map(|line| line.recorded_at).collect();
    assert_eq!(recorded_at, vec![1, 6]);
}

#[test]
fn records_of_one_log_are_appended_together_and_in_order() {
    let mut writer = WriterState::new();
    writer.take(LogId::Execution(ExecutionId(1)), vec![json("1")]);
    writer.take(LogId::Execution(ExecutionId(1)), vec![json("2"), json("3")]);
    writer.take(LogId::Execution(ExecutionId(2)), vec![json("4")]);
    writer.take(LogId::Execution(ExecutionId(1)), vec![json("5")]);
    let mut seen = Vec::new();
    while let Some(batch) = writer.next() {
        let records: Vec<String> = batch.records.iter().map(text).collect();
        seen.push((batch.log, records));
    }
    assert_eq!(
        seen,
        vec![
            (LogId::Execution(ExecutionId(1)), vec!["1".into(), "2".into(), "3".into()]),
            (LogId::Execution(ExecutionId(2)), vec!["4".into()]),
            (LogId::Execution(ExecutionId(1)), vec!["5".to_string()]),
        ]
    );
}

#[test]
fn a_stopped_writer_says_whose_it_was() {
    let error = writer_stopped("run 7");
    assert_eq!(error.observer, STORE_OBSERVER);
    assert_eq!(error.message, "the writer for run 7 stopped");
}

#[test]
fn json_text_is_read_and_written() {
    let value = json(r#" { "b" : [ 1 , -2 , 0.50 , true , null ] , "a" : "x\n" } "#);
    assert_eq!(text(&value), r#"{"b":[1,-2,0.5,true,null],"a":"x\n"}"#);
    let Json::Object(members) = &value else {
        panic!("an object");
    };
    assert_eq!(members[0].0, "b", "the order is kept");
    let Json::List(items) = &members[0].1 else {
        panic!("a list");
    };
    assert!(matches!(items[0], Json::Number(JsonNumber::Unsigned(1))));
    assert!(matches!(items[1], Json::Number(JsonNumber::Negative(-2))));
    assert!(matches!(&items[2], Json::Number(JsonNumber::Decimal(held)) if held == "0.5"));
    assert!(read_json(b"{").is_none());
    assert!(read_json(b"").is_none());
    assert!(read_json(b"1 2").is_none());
    assert!(read_json(&[b'"', 0xff, b'"']).is_none());
}

#[test]
fn the_widest_integers_are_kept() {
    assert!(matches!(
        json("18446744073709551615"),
        Json::Number(JsonNumber::Unsigned(u64::MAX))
    ));
    assert!(matches!(
        json("-9223372036854775808"),
        Json::Number(JsonNumber::Negative(i64::MIN))
    ));
    assert_eq!(
        text(&Json::Number(JsonNumber::Negative(i64::MIN))),
        "-9223372036854775808"
    );
    assert_eq!(text(&Json::Number(JsonNumber::Unsigned(u64::MAX))), "18446744073709551615");
}

#[test]
fn nesting_is_read_up_to_its_limit() {
    let deep = |n: usize| format!("{}{}", "[".repeat(n), "]".repeat(n));
    assert!(read_json(deep(127).as_bytes()).is_some());
    assert!(read_json(deep(128).as_bytes()).is_none());
}

#[test]
fn a_decimal_that_is_no_number_is_not_written() {
    let bad = Json::List(Arc::new(vec![Json::Number(JsonNumber::Decimal("x".into()))]));
    assert!(write_json(&bad).is_none());
    assert!(encode_engine_log(&vec![LogLine {
        seq: 0,
        origin: EventOrigin::Core,
        recorded_at: 0,
        body: bad,
    }])
    .is_none());
}

#[test]
fn of_members_under_one_key_the_last_is_written() {
    let twice = Json::Object(Arc::new(vec![
        ("a".into(), json("1")),
        ("b".into(), json("2")),
        ("a".into(), json("3")),
    ]));
    assert_eq!(text(&twice), r#"{"a":3,"b":2}"#);
}

#[test]
fn objects_are_equal_in_whatever_order() {
    assert!(json(r#"{"a":1,"b":[2]}"#).same(&json(r#"{"b":[2],"a":1}"#)));
    assert!(!json(r#"{"a":1}"#).same(&json(r#"{"a":2}"#)));
    assert!(!json("[1,2]").same(&json("[2,1]")));
    assert!(!json("1").same(&json("-1")));
}

#[test]
fn a_digest_is_read_as_it_is_written() {
    let written = "0123456789abcdef".repeat(4);
    let digest = GraphDigest::parse(&written).expect("a digest");
    assert_eq!(digest.text(), written);
    assert!(GraphDigest::parse("ab").is_none());
    assert!(GraphDigest::parse(&"g".repeat(64)).is_none());
    assert!(GraphDigest::parse(&"a".repeat(65)).is_none());
}

#[test]
fn the_two_zeros_are_equal() {
    assert!(json("0.0").same(&json("-0.0")));
    assert!(json("-0").same(&json("0.0")));
    assert!(json(r#"{"a":[0.0]}"#).same(&json(r#"{"a":[-0.0]}"#)));
    assert!(!json("0").same(&json("0.0")));
    assert!(!json("0.5").same(&json("-0.5")));
    assert!(json("0.5").same(&json("0.50")));
    let fields = |text: &str| Arc::new(vec![("a".to_string(), json(text))]);
    assert!(fields_match(&fields("0.0"), &fields("-0.0")));
    assert!(!fields_match(&fields("0.0"), &fields("0.1")));
}

#[test]
fn a_decimal_that_prints_as_it_parses_is_read_back() {
    let log: Vec<LogLine> = ["1.5", "-0.0", "0.1", "1e+300", "123456789.125"]
        .iter()
        .enumerate()
        .map(|(seq, number)| LogLine {
            seq: seq as u64,
            origin: EventOrigin::External,
            recorded_at: 7,
            body: Json::List(Arc::new(vec![Json::Number(JsonNumber::Decimal(
                number.to_string(),
            ))])),
        })
        .collect();
    let bytes = encode_events(&log).expect("writes");
    let decoded = decode_events(&bytes, &Vec::new()).expect("decodes");
    assert_eq!(shown(&decoded.lines), shown(&log));
    assert_eq!(decoded.clean_len, bytes.len());
    assert!(!decoded.torn);
    assert_eq!(text(&Json::Number(JsonNumber::Decimal("1.50".into()))), "1.5");
}

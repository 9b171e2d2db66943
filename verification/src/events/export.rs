//! The export check: the public stream's records are the stored logs.
//!
//! A record's own event carries the stored line unchanged, so a host that
//! keeps the records keeps the logs. The check proves it over a run: the
//! records taken out of the stream equal the stored ones as JSON values,
//! reload through the log reader into the same logs, and the external
//! records replay to the stored logs, a complete log exactly and a crash
//! prefix as a prefix.

use crate::event::CoordinatorRecord;
use crate::events::replay::{carried_lifecycle, carried_lines};
use crate::events::{event_models, EventSource, Record, RunEvent};
use crate::ids::ExecutionId;
use crate::json::{same_value, Json, JsonView};
use crate::observe::{
    decode_engine_records, encode_engine_record, line_value, line_view, line_views, stored_views,
    values_decoded, EngineLogDecodeError, LineView, LogLine,
};
use crate::record::{stored, EventRecord, StoredEngineRecord};
use crate::text::{decimal, join, number};
use vstd::prelude::*;
use vstd::string::*;

verus! {

/// A record as a JSON value, under its seq.
#[derive(Debug)]
pub struct SeqValue {
    pub seq: u64,
    pub value: Json,
}

/// Where two record sequences part.
#[derive(Clone, Copy, Debug, PartialEq, Eq, Structural)]
pub enum Difference {
    /// At the record with this seq.
    At(u64),
    /// Past a common prefix: one is longer.
    Length,
}

impl Difference {
    /// The seq the records part at, when they part at one.
    pub fn seq(&self) -> (seq: Option<u64>)
        ensures
            seq == (match *self {
                Difference::At(seq) => Some(seq),
                Difference::Length => None,
            }),
    {
        match self {
            Difference::At(seq) => Some(*seq),
            Difference::Length => None,
        }
    }
}

/// The end of a message that names a record: nothing when it names none.
pub fn at_seq(seq: Option<u64>) -> (text: String)
    ensures
        text@ == (match seq {
            Some(seq) => " at seq "@ + decimal(seq as nat),
            None => Seq::empty(),
        }),
{
    match seq {
        Some(seq) => join(" at seq ", number(seq).as_str()),
        None => String::new(),
    }
}

/// The first place from `from` on where both sequences have a value and the
/// values differ.
pub open spec fn parting(a: Seq<SeqValue>, b: Seq<SeqValue>, from: int) -> Option<int>
    decreases a.len() - from,
{
    if from < 0 || from >= a.len() || from >= b.len() {
        None
    } else if !same_value(a[from].value@, b[from].value@) {
        Some(from)
    } else {
        parting(a, b, from + 1)
    }
}

/// Where two record sequences first differ as JSON values, if they do: at a
/// record of the second.
pub open spec fn difference(a: Seq<SeqValue>, b: Seq<SeqValue>) -> Option<Difference> {
    match parting(a, b, 0) {
        Some(at) => Some(Difference::At(b[at].seq)),
        None => if a.len() != b.len() {
            Some(Difference::Length)
        } else {
            None
        },
    }
}

/// Where two record sequences first differ: the place.
pub fn first_parting(a: &Vec<SeqValue>, b: &Vec<SeqValue>) -> (place: Option<usize>)
    ensures
        match place {
            Some(at) => parting(a@, b@, 0) == Some(at as int) && at < a@.len() && at < b@.len(),
            None => parting(a@, b@, 0) is None,
        },
{
    let mut i: usize = 0;
    while i < a.len() && i < b.len()
        invariant
            i <= a.len(),
            i <= b.len(),
            parting(a@, b@, 0) == parting(a@, b@, i as int),
        decreases a.len() - i,
    {
        if !a[i].value.same(&b[i].value) {
            return Some(i);
        }
        i = i + 1;
    }
    None
}

/// Where two record sequences first differ as JSON values, if they do.
pub fn first_difference(exported: &Vec<SeqValue>, stored: &Vec<SeqValue>) -> (found: Option<
    Difference,
>)
    ensures
        found == difference(exported@, stored@),
{
    match first_parting(exported, stored) {
        Some(at) => Some(Difference::At(stored[at].seq)),
        None => if exported.len() != stored.len() {
            Some(Difference::Length)
        } else {
            None
        },
    }
}

proof fn lemma_parting(a: Seq<SeqValue>, b: Seq<SeqValue>, from: int)
    requires
        0 <= from,
    ensures
        match parting(a, b, from) {
            Some(at) => from <= at < a.len() && at < b.len() && !same_value(
                a[at].value@,
                b[at].value@,
            ) && forall|i: int|
                from <= i < at ==> same_value((#[trigger] a[i]).value@, b[i].value@),
            None => forall|i: int|
                from <= i < a.len() && i < b.len() ==> same_value(
                    (#[trigger] a[i]).value@,
                    b[i].value@,
                ),
        },
    decreases a.len() - from,
{
    if from < a.len() && from < b.len() && same_value(a[from].value@, b[from].value@) {
        lemma_parting(a, b, from + 1);
    }
}

/// Two record sequences do not differ exactly when they are equal value by
/// value.
pub proof fn law_no_difference_means_equal(a: Seq<SeqValue>, b: Seq<SeqValue>)
    ensures
        difference(a, b) is None <==> a.len() == b.len() && forall|i: int|
            0 <= i < a.len() ==> same_value((#[trigger] a[i]).value@, b[i].value@),
{
    lemma_parting(a, b, 0);
}

// ── Taking the records out of a stream ─────────────────────────────────

/// The coordinator records a stream carries, in order.
pub fn exported_lifecycle(events: &Vec<RunEvent>) -> (records: Vec<CoordinatorRecord>)
    ensures
        records@ == carried_lifecycle(event_models(events@)),
{
    let ghost models = event_models(events@);
    let mut records: Vec<CoordinatorRecord> = Vec::new();
    let mut i: usize = 0;
    assert(models.take(0) =~= Seq::empty());
    while i < events.len()
        invariant
            i <= events.len(),
            models == event_models(events@),
            records@ == carried_lifecycle(models.take(i as int)),
        decreases events.len() - i,
    {
        let event = &events[i];
        proof {
            assert(models.take(i + 1).drop_last() =~= models.take(i as int));
            assert(models.take(i + 1).last() == event.model());
        }
        match (event.id.source, &event.record) {
            (EventSource::Coordinator, Some(Record::Coordinator(record))) => {
                records.push(record.clone());
            },
            _ => {},
        }
        i = i + 1;
    }
    assert(models.take(i as int) =~= models);
    records
}

/// The stored lines of an execution a stream carries, in order.
pub fn exported_lines(events: &Vec<RunEvent>, execution: ExecutionId) -> (lines: Vec<
    StoredEngineRecord,
>)
    ensures
        lines@ == carried_lines(event_models(events@), execution),
{
    let ghost models = event_models(events@);
    let mut lines: Vec<StoredEngineRecord> = Vec::new();
    let mut i: usize = 0;
    assert(models.take(0) =~= Seq::empty());
    while i < events.len()
        invariant
            i <= events.len(),
            models == event_models(events@),
            lines@ == carried_lines(models.take(i as int), execution),
        decreases events.len() - i,
    {
        let event = &events[i];
        proof {
            assert(models.take(i + 1).drop_last() =~= models.take(i as int));
            assert(models.take(i + 1).last() == event.model());
        }
        match &event.record {
            Some(Record::Engine(line)) => {
                if event.id.source == (EventSource::Execution { execution }) {
                    lines.push(line.clone());
                }
            },
            _ => {},
        }
        i = i + 1;
    }
    assert(models.take(i as int) =~= models);
    lines
}

/// The stored lines of one engine log, as far as each record has a time.
pub open spec fn lines_stored(records: Seq<EventRecord>, recorded_at: Seq<u64>) -> Seq<
    StoredEngineRecord,
> {
    let count = if records.len() < recorded_at.len() {
        records.len()
    } else {
        recorded_at.len()
    };
    Seq::new(count, |i: int| stored(records[i], recorded_at[i]))
}

/// The stored lines of one engine log, as the stream carries them.
pub fn stored_records(records: &Vec<EventRecord>, recorded_at: &Vec<u64>) -> (lines: Vec<
    StoredEngineRecord,
>)
    ensures
        lines@ == lines_stored(records@, recorded_at@),
{
    let mut lines: Vec<StoredEngineRecord> = Vec::new();
    let mut i: usize = 0;
    while i < records.len() && i < recorded_at.len()
        invariant
            i <= records.len(),
            i <= recorded_at.len(),
            lines@.len() == i,
            forall|j: int| 0 <= j < i ==> #[trigger] lines@[j] == stored(records@[j], recorded_at@[j]),
        decreases records.len() - i,
    {
        lines.push(StoredEngineRecord::new(&records[i], recorded_at[i]));
        i = i + 1;
    }
    assert(lines@ =~= lines_stored(records@, recorded_at@));
    lines
}

// ── The check ──────────────────────────────────────────────────────────

/// Why a run's public stream does not export its logs.
#[allow(inconsistent_fields)]
#[derive(Clone, Copy, Debug, PartialEq, Eq, Structural)]
pub enum ExportError {
    /// The exported coordinator records differ from the stored log.
    Coordinator { seq: Option<u64> },
    /// The exported records of an execution differ from the stored log.
    Engine { execution: ExecutionId, seq: Option<u64> },
    /// The exported coordinator records do not reload.
    CoordinatorReload,
    /// The exported records of an execution do not reload.
    EngineReload { execution: ExecutionId, source: EngineLogDecodeError },
    /// Replaying the stored external records of an execution does not
    /// regenerate the stored log.
    Regenerated { execution: ExecutionId, seq: Option<u64> },
    /// An execution finished, but its stored log is a prefix of the
    /// regenerated one.
    Incomplete { execution: ExecutionId, stored: usize, regenerated: usize },
}

/// The coordinator log of a run and what its stream exports of it, as JSON
/// values, with what the exported records reload to through the log reader.
#[derive(Debug)]
pub struct CoordinatorExport {
    pub exported: Vec<SeqValue>,
    pub stored: Vec<SeqValue>,
    pub reloaded: Option<Vec<SeqValue>>,
}

/// One execution's log and what the stream exports of it, as JSON values:
/// the exported lines, the stored lines, the stored records without their
/// times, and those replaying the external records regenerates.
#[derive(Debug)]
pub struct ExecutionExport {
    pub execution: ExecutionId,
    pub exported: Vec<SeqValue>,
    pub stored: Vec<SeqValue>,
    pub records: Vec<SeqValue>,
    pub regenerated: Vec<SeqValue>,
    /// The places of the exported lines whose body is no engine event.
    pub foreign: Vec<usize>,
    pub finished: bool,
}

/// What keeps the coordinator log from being exported.
pub open spec fn coordinator_failure(log: CoordinatorExport) -> Option<ExportError> {
    match difference(log.exported@, log.stored@) {
        Some(Difference::At(seq)) => Some(ExportError::Coordinator { seq: Some(seq) }),
        Some(Difference::Length) => Some(ExportError::Coordinator { seq: None }),
        None => match log.reloaded {
            Some(reloaded) => if difference(reloaded@, log.stored@) is Some {
                Some(ExportError::Coordinator { seq: None })
            } else {
                None
            },
            None => Some(ExportError::CoordinatorReload),
        },
    }
}

/// The values of records.
pub open spec fn values_of_records(records: Seq<SeqValue>) -> Seq<JsonView> {
    records.map_values(|record: SeqValue| record.value@)
}

/// Whether decoded lines are the stored ones.
pub open spec fn lines_are(lines: Seq<LineView>, stored: Seq<SeqValue>) -> bool {
    &&& lines.len() == stored.len()
    &&& forall|i: int|
        0 <= i < lines.len() ==> same_value(line_value(#[trigger] lines[i]), stored[i].value@)
}

/// What keeps an execution's log from being exported.
pub open spec fn execution_failure(log: ExecutionExport) -> Option<ExportError> {
    let execution = log.execution;
    match difference(log.exported@, log.stored@) {
        Some(Difference::At(seq)) => Some(ExportError::Engine { execution, seq: Some(seq) }),
        Some(Difference::Length) => Some(ExportError::Engine { execution, seq: None }),
        None => match values_decoded(values_of_records(log.exported@), log.foreign@) {
            Err(source) => Some(ExportError::EngineReload { execution, source }),
            Ok(lines) => if !lines_are(lines, log.stored@) {
                Some(ExportError::Engine { execution, seq: None })
            } else {
                replay_failure(log)
            },
        },
    }
}

/// What keeps a stored log from being what its external records replay to:
/// whole when the execution finished, else a prefix.
pub open spec fn replay_failure(log: ExecutionExport) -> Option<ExportError> {
    let execution = log.execution;
    match parting(log.records@, log.regenerated@, 0) {
        Some(at) => Some(
            ExportError::Regenerated { execution, seq: Some(log.records@[at].seq) },
        ),
        None => if log.regenerated@.len() < log.records@.len() {
            Some(ExportError::Regenerated { execution, seq: None })
        } else if log.finished && log.regenerated@.len() != log.records@.len() {
            Some(
                ExportError::Incomplete {
                    execution,
                    stored: log.records@.len() as usize,
                    regenerated: log.regenerated@.len() as usize,
                },
            )
        } else {
            None
        },
    }
}

/// What keeps a run's stream from exporting its logs: the coordinator log
/// first, then the executions in order.
pub open spec fn export_failure(log: CoordinatorExport, executions: Seq<ExecutionExport>) -> Option<
    ExportError,
> {
    match coordinator_failure(log) {
        Some(error) => Some(error),
        None => first_execution_failure(executions),
    }
}

/// The failure of the first execution that fails.
pub open spec fn first_execution_failure(executions: Seq<ExecutionExport>) -> Option<ExportError>
    decreases executions.len(),
{
    if executions.len() == 0 {
        None
    } else {
        match first_execution_failure(executions.drop_last()) {
            Some(error) => Some(error),
            None => execution_failure(executions.last()),
        }
    }
}

fn check_coordinator(log: &CoordinatorExport) -> (failure: Option<ExportError>)
    ensures
        failure == coordinator_failure(*log),
{
    match first_difference(&log.exported, &log.stored) {
        Some(difference) => Some(ExportError::Coordinator { seq: difference.seq() }),
        None => match &log.reloaded {
            Some(reloaded) => match first_difference(reloaded, &log.stored) {
                Some(_) => Some(ExportError::Coordinator { seq: None }),
                None => None,
            },
            None => Some(ExportError::CoordinatorReload),
        },
    }
}

fn values(records: &Vec<SeqValue>) -> (values: Vec<Json>)
    ensures
        stored_views(values@) == values_of_records(records@),
{
    let mut values: Vec<Json> = Vec::new();
    let mut i: usize = 0;
    while i < records.len()
        invariant
            i <= records.len(),
            values@.len() == i,
            forall|j: int| 0 <= j < i ==> #[trigger] values@[j] == records@[j].value,
        decreases records.len() - i,
    {
        values.push(records[i].value.clone());
        i = i + 1;
    }
    assert(stored_views(values@) =~= values_of_records(records@));
    values
}

fn same_lines(lines: &Vec<LogLine>, stored: &Vec<SeqValue>) -> (same: bool)
    ensures
        same == lines_are(line_views(lines@), stored@),
{
    if lines.len() != stored.len() {
        return false;
    }
    let mut i: usize = 0;
    while i < lines.len()
        invariant
            i <= lines.len(),
            lines.len() == stored.len(),
            forall|j: int|
                0 <= j < i ==> same_value(
                    line_value(#[trigger] line_views(lines@)[j]),
                    stored@[j].value@,
                ),
        decreases lines.len() - i,
    {
        let value = encode_engine_record(&lines[i]);
        assert(line_views(lines@)[i as int] == line_view(lines@[i as int]));
        if !value.same(&stored[i].value) {
            return false;
        }
        i = i + 1;
    }
    true
}

fn check_replay(log: &ExecutionExport) -> (failure: Option<ExportError>)
    ensures
        failure == replay_failure(*log),
{
    let execution = log.execution;
    match first_parting(&log.records, &log.regenerated) {
        Some(at) => Some(ExportError::Regenerated { execution, seq: Some(log.records[at].seq) }),
        None => if log.regenerated.len() < log.records.len() {
            Some(ExportError::Regenerated { execution, seq: None })
        } else if log.finished && log.regenerated.len() != log.records.len() {
            Some(
                ExportError::Incomplete {
                    execution,
                    stored: log.records.len(),
                    regenerated: log.regenerated.len(),
                },
            )
        } else {
            None
        },
    }
}

fn check_execution(log: &ExecutionExport) -> (failure: Option<ExportError>)
    ensures
        failure == execution_failure(*log),
{
    let execution = log.execution;
    match first_difference(&log.exported, &log.stored) {
        Some(difference) => {
            return Some(ExportError::Engine { execution, seq: difference.seq() });
        },
        None => {},
    }
    let exported = values(&log.exported);
    match decode_engine_records(&exported, &log.foreign) {
        Err(source) => Some(ExportError::EngineReload { execution, source }),
        Ok(reloaded) => if !same_lines(&reloaded.lines, &log.stored) {
            Some(ExportError::Engine { execution, seq: None })
        } else {
            check_replay(log)
        },
    }
}

/// Prove that a run's public stream exports its logs.
pub fn verify_export(log: &CoordinatorExport, executions: &Vec<ExecutionExport>) -> (verified:
    Result<(), ExportError>)
    ensures
        match verified {
            Ok(()) => export_failure(*log, executions@) is None,
            Err(error) => export_failure(*log, executions@) == Some(error),
        },
{
    match check_coordinator(log) {
        Some(error) => return Err(error),
        None => {},
    }
    let mut i: usize = 0;
    assert(executions@.take(0) =~= Seq::empty());
    while i < executions.len()
        invariant
            i <= executions.len(),
            coordinator_failure(*log) is None,
            first_execution_failure(executions@.take(i as int)) is None,
        decreases executions.len() - i,
    {
        proof {
            assert(executions@.take(i + 1).drop_last() =~= executions@.take(i as int));
            assert(executions@.take(i + 1).last() == executions@[i as int]);
        }
        match check_execution(&executions[i]) {
            Some(error) => {
                proof {
                    lemma_failure_stays(executions@, i + 1);
                }
                return Err(error);
            },
            None => {},
        }
        i = i + 1;
    }
    assert(executions@.take(i as int) =~= executions@);
    Ok(())
}

proof fn lemma_failure_stays(executions: Seq<ExecutionExport>, i: int)
    requires
        0 <= i <= executions.len(),
        first_execution_failure(executions.take(i)) is Some,
    ensures
        first_execution_failure(executions) == first_execution_failure(executions.take(i)),
    decreases executions.len() - i,
{
    if i == executions.len() {
        assert(executions.take(i) =~= executions);
    } else {
        assert(executions.take(i + 1).drop_last() =~= executions.take(i));
        lemma_failure_stays(executions, i + 1);
    }
}

/// A run whose export is verified exports every stored line, and each stored
/// log is what its external records replay to: a prefix, and all of it for an
/// execution that finished.
pub proof fn law_verified_export(
    log: CoordinatorExport,
    executions: Seq<ExecutionExport>,
    i: int,
)
    requires
        export_failure(log, executions) is None,
        0 <= i < executions.len(),
    ensures
        difference(log.exported@, log.stored@) is None,
        ({
            let execution = executions[i];
            let records = execution.records@;
            let regenerated = execution.regenerated@;
            &&& difference(execution.exported@, execution.stored@) is None
            &&& records.len() <= regenerated.len()
            &&& execution.finished ==> records.len() == regenerated.len()
            &&& forall|j: int|
                0 <= j < records.len() ==> same_value(
                    (#[trigger] records[j]).value@,
                    regenerated[j].value@,
                )
        }),
    decreases executions.len(),
{
    if i < executions.len() - 1 {
        law_verified_export(log, executions.drop_last(), i);
    } else {
        lemma_parting(executions[i].records@, executions[i].regenerated@, 0);
    }
}

} // verus!

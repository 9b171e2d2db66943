//! The proof that a run's public stream loses nothing: the records it inverts
//! to are the stored ones, they replay to the stored logs, and the replayed
//! logs project to the same stream.

use crate::alike::{alike_lists, Alike};
use crate::event::CoordinatorRecord;
use crate::events::follow::{held_after, records_after};
use crate::events::invert::{
    coordinator_view, empty_run, engine_in, engine_view, invert, inverted, keep_first,
    lifecycle_in, records_of, EngineView, InvertError, InvertedRecord, InvertedRun, InvertedView,
    LifecycleView, RunView,
};
use crate::events::presented::{present_engine, present_lifecycle, presentable, PresentedEvent};
use crate::events::projection::Projection;
use crate::events::replay::{
    all_published, all_read, held_times, law_projection_is_the_stream, project_loaded, published,
    run_read, stream_from, stream_of, time_of, AppliedEvent, LoadedExecution, LoadedRun,
    PublishedModel,
};
use crate::events::same::{events_match, same_event};
use crate::events::{
    event_models, Derived, EventId, EventModel, EventSource, NodeRef, Record, RecordOrigin,
    RunEvent, Subject,
};
use crate::ids::{ExecutionId, NodeId};
use crate::json::{share, Json};
use crate::model::Graph;
use crate::note::{Parsed, StepReading};
use crate::record::{DecisionId, Event, EventOrigin, EventRecord};
use crate::search::{first_where, lemma_first_absent, lemma_first_found, reversed};
use crate::state::BranchRole;
use crate::table::by_id;
use vstd::prelude::*;

verus! {

/// Why a stream did not round-trip to its logs.
#[allow(inconsistent_fields)]
#[derive(Debug)]
pub enum LosslessError {
    Invert(InvertError),
    /// The inverted coordinator log differs from the stored one.
    Coordinator { seq: Option<u64> },
    /// The inverted external records differ from the stored ones.
    External { execution: ExecutionId, seq: Option<u64> },
    /// Replaying the inverted records regenerated a log that differs from
    /// the stored one.
    Regenerated { execution: ExecutionId, seq: Option<u64> },
    /// Re-projecting the inverted run derived a stream that differs from the
    /// original.
    Reprojected { id: Option<EventId> },
}

// ── Presenting a run's stream ──────────────────────────────────────────

/// Whether an engine event is about a firing.
pub open spec fn names_firing(event: Event) -> bool {
    match event {
        Event::AdmissionDecided { decision_id, decision, trace } =>
            decision_id is AttemptStart,
        Event::RoutingResolved { decision_id, groups } => decision_id is Route,
        Event::StepStarted { .. } | Event::StepProgressRecorded { .. } | Event::StepFinished {
            ..
        } | Event::RetryElapsed { .. } | Event::ControlRequested { .. } => true,
        _ => false,
    }
}

fn is_about_firing(event: &Event) -> (about: bool)
    ensures
        about == names_firing(*event),
{
    match event {
        Event::AdmissionDecided { decision_id, decision: _, trace: _ } => match decision_id {
            DecisionId::AttemptStart { firing: _, attempt: _ } => true,
            _ => false,
        },
        Event::RoutingResolved { decision_id, groups: _ } => match decision_id {
            DecisionId::Route { firing: _, attempt: _ } => true,
            _ => false,
        },
        Event::StepStarted { firing: _, attempt: _ } => true,
        Event::StepProgressRecorded { firing: _, ev: _ } => true,
        Event::StepFinished { firing: _, attempt: _, outcome: _ } => true,
        Event::RetryElapsed { firing: _, next_attempt: _ } => true,
        Event::ControlRequested { firing: _, ctl: _ } => true,
        _ => false,
    }
}

/// The graph an execution ends up with.
pub open spec fn last_graph(run: LoadedRun, execution: ExecutionId) -> Option<Graph> {
    match first_where(run.executions@, |loaded: LoadedExecution| loaded.execution == execution) {
        Some(loaded) => if loaded.applied@.len() > 0 {
            Some(loaded.applied@.last().state.graph)
        } else {
            None
        },
        None => None,
    }
}

fn find_graph(run: &LoadedRun, execution: ExecutionId) -> (graph: Option<&Graph>)
    ensures
        graph == (match last_graph(*run, execution) {
            Some(graph) => Some(&graph),
            None => None,
        }),
{
    let ghost p = |loaded: LoadedExecution| loaded.execution == execution;
    let mut i: usize = 0;
    while i < run.executions.len()
        invariant
            i <= run.executions.len(),
            p == (|loaded: LoadedExecution| loaded.execution == execution),
            forall|j: int| 0 <= j < i ==> !p(#[trigger] run.executions@[j]),
        decreases run.executions.len() - i,
    {
        if run.executions[i].execution == execution {
            proof {
                lemma_first_found(run.executions@, p, i as int);
            }
            let count = run.executions[i].applied.len();
            if count == 0 {
                return None;
            }
            return Some(&run.executions[i].applied[count - 1].state.graph);
        }
        i = i + 1;
    }
    proof {
        lemma_first_absent(run.executions@, p);
    }
    None
}

/// The record an event tells of: a coordinator record, or an external engine
/// record. The core's own records are regenerated, not told.
pub open spec fn told_by(event: EventModel) -> Option<Record> {
    match event.record {
        Some(Record::Coordinator(record)) => Some(Record::Coordinator(record)),
        Some(Record::Engine(line)) => if line.origin == EventOrigin::External
            && event.id.source is Execution {
            Some(Record::Engine(line))
        } else {
            None
        },
        None => None,
    }
}

/// Why the record an event tells of cannot be presented.
pub open spec fn untold(event: EventModel, run: LoadedRun) -> Option<InvertError> {
    match (told_by(event), event.id.source) {
        (Some(Record::Engine(line)), EventSource::Execution { execution }) => if names_firing(
            *line.body,
        ) && event.subject is None {
            Some(InvertError::MissingSubject { id: event.id })
        } else if last_graph(run, execution) matches Some(graph) && presentable(
            *line.body,
            graph,
        ) {
            None
        } else if *line.body is CancelRequested {
            Some(InvertError::CancelWithoutTarget { id: event.id })
        } else {
            Some(InvertError::UnexpectedBody { id: event.id })
        },
        _ => None,
    }
}

/// The first reason a stream cannot be presented.
pub open spec fn first_untold(events: Seq<EventModel>, run: LoadedRun) -> Option<InvertError>
    decreases events.len(),
{
    if events.len() == 0 {
        None
    } else {
        match first_untold(events.drop_last(), run) {
            Some(error) => Some(error),
            None => untold(events.last(), run),
        }
    }
}

/// A run with one more record, unless its seq has one.
pub open spec fn with_record(run: RunView, event: EventModel) -> RunView {
    match (told_by(event), event.id.source) {
        (Some(Record::Coordinator(record)), _) => RunView {
            coordinator: keep_first(
                run.coordinator,
                record.seq,
                LifecycleView {
                    seq: record.seq,
                    origin: EventOrigin::External,
                    recorded_at: record.recorded_at,
                    body: coordinator_view(*record.body),
                },
            ),
            executions: run.executions,
        },
        (Some(Record::Engine(line)), EventSource::Execution { execution }) => RunView {
            coordinator: run.coordinator,
            executions: run.executions.insert(
                execution.0,
                keep_first(
                    records_of(run, execution),
                    line.seq,
                    InvertedView {
                        seq: line.seq,
                        origin: EventOrigin::External,
                        recorded_at: Some(line.recorded_at),
                        event: engine_view(*line.body),
                    },
                ),
            ),
        },
        _ => run,
    }
}

/// The records a stream carries that replay does not regenerate, by log and
/// seq.
pub open spec fn told_run(events: Seq<EventModel>) -> RunView
    decreases events.len(),
{
    if events.len() == 0 {
        empty_run()
    } else {
        with_record(told_run(events.drop_last()), events.last())
    }
}

fn nobody() -> (subject: Subject)
    ensures
        subject.firing is None,
{
    Subject {
        node: NodeRef {
            id: NodeId(0),
            name: String::new(),
            kind: String::new(),
            meta: Json::Null,
        },
        firing: None,
        visit: None,
        attempt: None,
        generation: None,
        branch: BranchRole::Outside,
    }
}

fn reading_of(derived: &Option<Derived>) -> (reading: StepReading)
    ensures
        reading == (match *derived {
            Some(Derived::Parsed { parsed: Parsed::Question { question } }) => StepReading {
                question: Some(question),
                expired: None,
            },
            Some(Derived::Parsed { parsed: Parsed::QuestionExpired { expired } }) => StepReading {
                question: None,
                expired: Some(expired),
            },
            _ => StepReading { question: None, expired: None },
        }),
{
    match derived {
        Some(Derived::Parsed { parsed: Parsed::Question { question } }) => StepReading {
            question: Some(share(question)),
            expired: None,
        },
        Some(Derived::Parsed { parsed: Parsed::QuestionExpired { expired } }) => StepReading {
            question: None,
            expired: Some(share(expired)),
        },
        _ => StepReading { question: None, expired: None },
    }
}

/// Whether a presented event tells of the record an event carries.
pub open spec fn presents(presented: PresentedEvent, event: EventModel) -> bool {
    match (told_by(event), event.id.source) {
        (Some(Record::Coordinator(record)), _) => {
            &&& presented.id == (EventId {
                source: EventSource::Coordinator,
                seq: record.seq,
                index: 0,
            })
            &&& lifecycle_in(presented) == Ok::<LifecycleView, InvertError>(
                LifecycleView {
                    seq: record.seq,
                    origin: EventOrigin::External,
                    recorded_at: record.recorded_at,
                    body: coordinator_view(*record.body),
                },
            )
        },
        (Some(Record::Engine(line)), EventSource::Execution { execution }) => {
            &&& presented.id == (EventId {
                source: EventSource::Execution { execution },
                seq: line.seq,
                index: 0,
            })
            &&& presented.origin != RecordOrigin::Core
            &&& presented.recorded_at == Some(line.recorded_at)
            &&& engine_in(presented) == Ok::<EngineView, InvertError>(engine_view(*line.body))
        },
        _ => false,
    }
}

/// Present the record an event tells of.
fn present(event: &RunEvent, run: &LoadedRun) -> (presented: Result<
    Option<PresentedEvent>,
    InvertError,
>)
    ensures
        match presented {
            Ok(Some(presented)) => untold(event.model(), *run) is None && presents(
                presented,
                event.model(),
            ),
            Ok(None) => told_by(event.model()) is None,
            Err(error) => untold(event.model(), *run) == Some(error),
        },
{
    let id = event.id;
    match &event.record {
        Some(Record::Coordinator(record)) => Ok(Some(present_lifecycle(record, &event.context))),
        Some(Record::Engine(line)) => match (line.origin, id.source) {
            (EventOrigin::External, EventSource::Execution { execution }) => {
                let record = EventRecord {
                    seq: line.seq,
                    origin: line.origin,
                    event: share(&line.body),
                };
                let about = match &event.subject {
                    Some(subject) => subject.clone(),
                    None => {
                        if is_about_firing(&line.body) {
                            return Err(InvertError::MissingSubject { id });
                        }
                        nobody()
                    },
                };
                let reading = reading_of(&event.derived);
                let presented = match find_graph(run, execution) {
                    Some(graph) => present_engine(
                        execution,
                        &record,
                        Some(line.recorded_at),
                        &event.context,
                        &about,
                        graph,
                        &reading,
                    ),
                    None => None,
                };
                match presented {
                    Some(presented) => Ok(Some(presented)),
                    None => match &*line.body {
                        Event::CancelRequested { target: _ } => Err(
                            InvertError::CancelWithoutTarget { id },
                        ),
                        _ => Err(InvertError::UnexpectedBody { id }),
                    },
                }
            },
            _ => Ok(None),
        },
        None => Ok(None),
    }
}

proof fn lemma_untold_stays(events: Seq<EventModel>, run: LoadedRun, i: int)
    requires
        0 <= i <= events.len(),
        first_untold(events.take(i), run) is Some,
    ensures
        first_untold(events, run) == first_untold(events.take(i), run),
    decreases events.len() - i,
{
    if i == events.len() {
        assert(events.take(i) =~= events);
    } else {
        assert(events.take(i + 1).drop_last() =~= events.take(i));
        lemma_untold_stays(events, run, i + 1);
    }
}

/// Present a run's stream: the first event of every coordinator record and of
/// every external engine record.
pub fn present_stream(events: &Vec<RunEvent>, run: &LoadedRun) -> (presented: Result<
    Vec<PresentedEvent>,
    InvertError,
>)
    ensures
        match presented {
            Ok(presented) => {
                &&& first_untold(event_models(events@), *run) is None
                &&& inverted(presented@) == Ok::<RunView, InvertError>(
                    told_run(event_models(events@)),
                )
            },
            Err(error) => first_untold(event_models(events@), *run) == Some(error),
        },
{
    let ghost models = event_models(events@);
    let mut list: Vec<PresentedEvent> = Vec::new();
    let mut i: usize = 0;
    assert(models.take(0) =~= Seq::empty());
    while i < events.len()
        invariant
            i <= events.len(),
            models == event_models(events@),
            first_untold(models.take(i as int), *run) is None,
            inverted(list@) == Ok::<RunView, InvertError>(told_run(models.take(i as int))),
        decreases events.len() - i,
    {
        proof {
            assert(models.take(i + 1).drop_last() =~= models.take(i as int));
            assert(models.take(i + 1).last() == models[i as int]);
            assert(models[i as int] == events@[i as int].model());
        }
        match present(&events[i], run) {
            Ok(Some(presented)) => {
                let ghost before = list@;
                list.push(presented);
                assert(list@.drop_last() =~= before);
            },
            Ok(None) => {},
            Err(error) => {
                proof {
                    lemma_untold_stays(models, *run, i + 1);
                }
                return Err(error);
            },
        }
        i = i + 1;
    }
    assert(models.take(i as int) =~= models);
    Ok(list)
}

/// Project a run, present its stream and invert it.
pub fn invert_loaded(loaded: &LoadedRun) -> (run: Result<InvertedRun, InvertError>)
    requires
        run_read(loaded.executions@),
    ensures
        match run {
            Ok(run) => {
                &&& first_untold(stream_of(*loaded), *loaded) is None
                &&& run.model() == told_run(stream_of(*loaded))
            },
            Err(error) => first_untold(stream_of(*loaded), *loaded) == Some(error),
        },
{
    let events = project_from_start(loaded);
    match present_stream(&events, loaded) {
        Ok(presented) => invert(&presented),
        Err(error) => Err(error),
    }
}

fn project_from_start(loaded: &LoadedRun) -> (events: Vec<RunEvent>)
    requires
        run_read(loaded.executions@),
    ensures
        event_models(events@) == stream_of(*loaded),
{
    let mut projection = Projection::new();
    let events = project_loaded(loaded, &mut projection);
    proof {
        law_projection_is_the_stream(*loaded, projection@, event_models(events@));
    }
    events
}

// ── What may differ ────────────────────────────────────────────────────

impl Alike for InvertedRecord {
    open spec fn alike(&self, other: &Self) -> bool {
        self.record.alike(&other.record) && self.recorded_at == other.recorded_at
    }

    fn is_alike(&self, other: &Self) -> (same: bool) {
        self.record.is_alike(&other.record) && self.recorded_at == other.recorded_at
    }
}

impl Clone for InvertedRecord {
    fn clone(&self) -> (copy: InvertedRecord)
        ensures
            copy == *self,
    {
        InvertedRecord { record: self.record.clone(), recorded_at: self.recorded_at }
    }
}

/// The first place from `from` on where both lists have an item and the items
/// are not the same.
pub open spec fn parts_at<T: Alike>(a: Seq<T>, b: Seq<T>, from: int) -> Option<int>
    decreases a.len() - from,
{
    if from < 0 || from >= a.len() || from >= b.len() {
        None
    } else if !a[from].alike(&b[from]) {
        Some(from)
    } else {
        parts_at(a, b, from + 1)
    }
}

fn first_apart<T: Alike>(a: &Vec<T>, b: &Vec<T>) -> (place: Option<usize>)
    ensures
        match place {
            Some(at) => at < a@.len() && parts_at(a@, b@, 0) == Some(at as int),
            None => parts_at(a@, b@, 0) is None,
        },
{
    let mut i: usize = 0;
    while i < a.len() && i < b.len()
        invariant
            i <= a.len(),
            i <= b.len(),
            parts_at(a@, b@, 0) == parts_at(a@, b@, i as int),
        decreases a.len() - i,
    {
        if !a[i].is_alike(&b[i]) {
            return Some(i);
        }
        i = i + 1;
    }
    None
}

proof fn lemma_parts_nowhere<T: Alike>(a: Seq<T>, b: Seq<T>, from: int)
    requires
        0 <= from,
        parts_at(a, b, from) is None,
        a.len() == b.len(),
    ensures
        forall|i: int| from <= i < a.len() ==> (#[trigger] a[i]).alike(&b[i]),
    decreases a.len() - from,
{
    if from < a.len() {
        lemma_parts_nowhere(a, b, from + 1);
    }
}

/// The seq an error names when rebuilt coordinator records differ from stored
/// ones: that of the rebuilt record they part at, or nothing when one list is
/// only longer.
pub open spec fn lifecycle_apart(a: Seq<CoordinatorRecord>, b: Seq<CoordinatorRecord>) -> Option<
    Option<u64>,
> {
    match parts_at(a, b, 0) {
        Some(at) => Some(Some(a[at].seq)),
        None => if a.len() != b.len() {
            Some(None)
        } else {
            None
        },
    }
}

/// The seq an error names when inverted engine records differ from stored
/// ones.
pub open spec fn external_apart(a: Seq<InvertedRecord>, b: Seq<InvertedRecord>) -> Option<
    Option<u64>,
> {
    match parts_at(a, b, 0) {
        Some(at) => Some(Some(a[at].record.seq)),
        None => if a.len() != b.len() {
            Some(None)
        } else {
            None
        },
    }
}

/// The seq an error names when regenerated engine records differ from stored
/// ones.
pub open spec fn records_apart(a: Seq<EventRecord>, b: Seq<EventRecord>) -> Option<Option<u64>> {
    match parts_at(a, b, 0) {
        Some(at) => Some(Some(a[at].seq)),
        None => if a.len() != b.len() {
            Some(None)
        } else {
            None
        },
    }
}

/// The inverted coordinator records, in seq order.
pub open spec fn lifecycle_list(run: InvertedRun) -> Seq<CoordinatorRecord> {
    by_id(run.coordinator@).map_values(|entry: (u64, CoordinatorRecord)| entry.1)
}

/// The inverted external records of an execution, in seq order: none for one
/// the stream does not name.
pub open spec fn external_list(run: InvertedRun, execution: ExecutionId) -> Seq<InvertedRecord> {
    if run.executions@.contains_key(execution.0) {
        by_id(run.executions@[execution.0]@).map_values(|entry: (u64, InvertedRecord)| entry.1)
    } else {
        Seq::empty()
    }
}

/// The external records of a stored log, with their times.
pub open spec fn stored_externals(records: Seq<EventRecord>, recorded_at: Seq<u64>) -> Seq<
    InvertedRecord,
>
    decreases records.len(),
{
    if records.len() == 0 {
        Seq::empty()
    } else {
        let before = stored_externals(records.drop_last(), recorded_at);
        if records.last().origin == EventOrigin::External {
            before.push(
                InvertedRecord {
                    record: records.last(),
                    recorded_at: time_of(records.last().seq, recorded_at),
                },
            )
        } else {
            before
        }
    }
}

fn list_lifecycle(run: &InvertedRun) -> (records: Vec<CoordinatorRecord>)
    ensures
        records@ == lifecycle_list(*run),
{
    let entries = run.coordinator.entries();
    let mut records: Vec<CoordinatorRecord> = Vec::new();
    let mut i: usize = 0;
    while i < entries.len()
        invariant
            i <= entries.len(),
            records@.len() == i,
            forall|j: int| 0 <= j < i ==> #[trigger] records@[j] == *entries@[j].1,
        decreases entries.len() - i,
    {
        records.push(entries[i].1.clone());
        i = i + 1;
    }
    assert(records@ =~= lifecycle_list(*run));
    records
}

fn list_externals(run: &InvertedRun, execution: ExecutionId) -> (records: Vec<InvertedRecord>)
    ensures
        records@ == external_list(*run, execution),
{
    let mut records: Vec<InvertedRecord> = Vec::new();
    match run.executions.get(execution.0) {
        Some(table) => {
            let entries = table.entries();
            let mut i: usize = 0;
            while i < entries.len()
                invariant
                    i <= entries.len(),
                    records@.len() == i,
                    forall|j: int| 0 <= j < i ==> #[trigger] records@[j] == *entries@[j].1,
                decreases entries.len() - i,
            {
                records.push(entries[i].1.clone());
                i = i + 1;
            }
            assert(records@ =~= external_list(*run, execution));
        },
        None => {
            assert(records@ =~= external_list(*run, execution));
        },
    }
    records
}

fn list_stored(records: &Vec<EventRecord>, recorded_at: &Vec<u64>) -> (externals: Vec<
    InvertedRecord,
>)
    ensures
        externals@ == stored_externals(records@, recorded_at@),
{
    let mut externals: Vec<InvertedRecord> = Vec::new();
    let mut i: usize = 0;
    assert(records@.take(0) =~= Seq::empty());
    while i < records.len()
        invariant
            i <= records.len(),
            externals@ == stored_externals(records@.take(i as int), recorded_at@),
        decreases records.len() - i,
    {
        proof {
            assert(records@.take(i + 1).drop_last() =~= records@.take(i as int));
            assert(records@.take(i + 1).last() == records@[i as int]);
        }
        if records[i].origin == EventOrigin::External {
            let seq = records[i].seq;
            let at = if seq < recorded_at.len() as u64 {
                Some(recorded_at[seq as usize])
            } else {
                None
            };
            externals.push(InvertedRecord { record: records[i].clone(), recorded_at: at });
        }
        i = i + 1;
    }
    assert(records@.take(i as int) =~= records@);
    externals
}

// ── The regenerated logs ───────────────────────────────────────────────

/// How long the regenerated log is after each apply, and when the external
/// record it applied was recorded.
pub open spec fn regeneration_steps(
    applied: Seq<AppliedEvent>,
    externals: Seq<InvertedRecord>,
) -> Seq<(usize, Option<u64>)> {
    Seq::new(
        applied.len(),
        |m: int|
            (
                held_after(applied, m + 1) as usize,
                if m < externals.len() {
                    externals[m].recorded_at
                } else {
                    None
                },
            ),
    )
}

fn list_regenerated(applied: &Vec<AppliedEvent>, externals: &Vec<InvertedRecord>) -> (regenerated: (
    Vec<EventRecord>,
    Vec<u64>,
))
    requires
        all_read(applied@),
    ensures
        regenerated.0@ == records_after(applied@, applied@.len() as int),
        regenerated.1@ == times_after(regeneration_steps(applied@, externals@)),
{
    let mut records: Vec<EventRecord> = Vec::new();
    let mut steps: Vec<(usize, Option<u64>)> = Vec::new();
    let mut m: usize = 0;
    while m < applied.len()
        invariant
            m <= applied.len(),
            records@ == records_after(applied@, m as int),
            records@.len() == held_after(applied@, m as int),
            steps@.len() == m,
            forall|k: int|
                0 <= k < m ==> #[trigger] steps@[k] == regeneration_steps(applied@, externals@)[k],
        decreases applied.len() - m,
    {
        let more = &applied[m].records;
        let ghost before = records@;
        let mut k: usize = 0;
        assert(before + more@.take(0) =~= before);
        while k < more.len()
            invariant
                k <= more.len(),
                records@ == before + more@.take(k as int),
            decreases more.len() - k,
        {
            records.push(more[k].clone());
            assert(more@.take(k + 1) =~= more@.take(k as int).push(more@[k as int]));
            assert(records@ =~= before + more@.take(k + 1));
            k = k + 1;
        }
        assert(more@.take(k as int) =~= more@);
        let at = if m < externals.len() {
            externals[m].recorded_at
        } else {
            None
        };
        steps.push((records.len(), at));
        m = m + 1;
    }
    assert(steps@ =~= regeneration_steps(applied@, externals@));
    (records, regenerated_times(&steps))
}

/// What the regenerated logs of the first executions of a run publish.
pub open spec fn regenerated_published(
    run: InvertedRun,
    executions: Seq<LoadedExecution>,
    regenerated: Seq<Vec<AppliedEvent>>,
    count: int,
) -> Seq<PublishedModel>
    decreases count,
{
    if count <= 0 {
        Seq::empty()
    } else {
        let execution = executions[count - 1].execution;
        let applied = regenerated[count - 1]@;
        regenerated_published(run, executions, regenerated, count - 1) + published(
            execution,
            applied,
            held_times(
                times_after(regeneration_steps(applied, external_list(run, execution))),
                records_after(applied, applied.len() as int).len(),
            ),
        )
    }
}

/// The stream of the inverted coordinator log and the regenerated logs.
pub open spec fn reprojected(
    run: InvertedRun,
    loaded: LoadedRun,
    regenerated: Seq<Vec<AppliedEvent>>,
) -> Seq<EventModel> {
    stream_from(
        lifecycle_list(run),
        regenerated_published(
            run,
            loaded.executions@,
            regenerated,
            loaded.executions@.len() as int,
        ),
    )
}

/// What keeps an execution from round-tripping: its inverted external records
/// are not the stored ones, or what replaying them regenerated is not its
/// log.
pub open spec fn execution_failure(
    run: InvertedRun,
    loaded: LoadedExecution,
    applied: Seq<AppliedEvent>,
) -> Option<LosslessError> {
    let execution = loaded.execution;
    match external_apart(
        external_list(run, execution),
        stored_externals(loaded.records@, loaded.recorded_at@),
    ) {
        Some(seq) => Some(LosslessError::External { execution, seq }),
        None => match records_apart(records_after(applied, applied.len() as int), loaded.records@) {
            Some(seq) => Some(LosslessError::Regenerated { execution, seq }),
            None => None,
        },
    }
}

/// The failure of the first of the first executions that does not round-trip.
pub open spec fn first_failure(
    run: InvertedRun,
    executions: Seq<LoadedExecution>,
    regenerated: Seq<Vec<AppliedEvent>>,
    count: int,
) -> Option<LosslessError>
    decreases count,
{
    if count <= 0 {
        None
    } else {
        match first_failure(run, executions, regenerated, count - 1) {
            Some(error) => Some(error),
            None => execution_failure(run, executions[count - 1], regenerated[count - 1]@),
        }
    }
}

/// The first place from `from` on where two streams have an event and the
/// events are not the same.
pub open spec fn streams_part(a: Seq<EventModel>, b: Seq<EventModel>, from: int) -> Option<int>
    decreases a.len() - from,
{
    if from < 0 || from >= a.len() || from >= b.len() {
        None
    } else if !same_event(a[from], b[from]) {
        Some(from)
    } else {
        streams_part(a, b, from + 1)
    }
}

/// What the streams' difference is named by: the re-projected event they
/// part at, or the first original event the re-projection lacks.
pub open spec fn stream_failure(reprojected: Seq<EventModel>, events: Seq<EventModel>) -> Option<
    LosslessError,
> {
    match streams_part(reprojected, events, 0) {
        Some(at) => Some(LosslessError::Reprojected { id: Some(reprojected[at].id) }),
        None => if reprojected.len() == events.len() {
            None
        } else if reprojected.len() < events.len() {
            Some(LosslessError::Reprojected { id: Some(events[reprojected.len() as int].id) })
        } else {
            Some(LosslessError::Reprojected { id: None })
        },
    }
}

/// What keeps a run's stream from round-tripping to its logs.
pub open spec fn lossless_failure(
    run: InvertedRun,
    loaded: LoadedRun,
    regenerated: Seq<Vec<AppliedEvent>>,
) -> Option<LosslessError> {
    match lifecycle_apart(lifecycle_list(run), loaded.coordinator@) {
        Some(seq) => Some(LosslessError::Coordinator { seq }),
        None => match first_failure(
            run,
            loaded.executions@,
            regenerated,
            loaded.executions@.len() as int,
        ) {
            Some(error) => Some(error),
            None => stream_failure(reprojected(run, loaded, regenerated), stream_of(loaded)),
        },
    }
}

proof fn lemma_failure_stays(
    run: InvertedRun,
    executions: Seq<LoadedExecution>,
    regenerated: Seq<Vec<AppliedEvent>>,
    i: int,
    n: int,
)
    requires
        0 <= i <= n,
        first_failure(run, executions, regenerated, i) is Some,
    ensures
        first_failure(run, executions, regenerated, n) == first_failure(
            run,
            executions,
            regenerated,
            i,
        ),
    decreases n - i,
{
    if i < n {
        lemma_failure_stays(run, executions, regenerated, i, n - 1);
    }
}

fn check_streams(reprojected: &Vec<RunEvent>, events: &Vec<RunEvent>) -> (failure: Option<
    LosslessError,
>)
    ensures
        failure == stream_failure(event_models(reprojected@), event_models(events@)),
{
    let ghost a = event_models(reprojected@);
    let ghost b = event_models(events@);
    let mut i: usize = 0;
    while i < reprojected.len() && i < events.len()
        invariant
            i <= reprojected.len(),
            i <= events.len(),
            a == event_models(reprojected@),
            b == event_models(events@),
            streams_part(a, b, 0) == streams_part(a, b, i as int),
        decreases reprojected.len() - i,
    {
        assert(a[i as int] == reprojected@[i as int].model());
        assert(b[i as int] == events@[i as int].model());
        if !events_match(&reprojected[i], &events[i]) {
            return Some(LosslessError::Reprojected { id: Some(reprojected[i].id) });
        }
        i = i + 1;
    }
    if reprojected.len() == events.len() {
        None
    } else if reprojected.len() < events.len() {
        assert(b[reprojected@.len() as int] == events@[reprojected@.len() as int].model());
        Some(LosslessError::Reprojected { id: Some(events[reprojected.len()].id) })
    } else {
        Some(LosslessError::Reprojected { id: None })
    }
}

/// Every execution's regenerated log has its readings.
pub open spec fn regenerated_read(regenerated: Seq<Vec<AppliedEvent>>) -> bool {
    forall|i: int| 0 <= i < regenerated.len() ==> all_read((#[trigger] regenerated[i])@)
}

/// The inverted run as one that is loaded: the regenerated logs in place of
/// the stored ones.
fn rebuild(
    run: &InvertedRun,
    executions: &Vec<LoadedExecution>,
    regenerated: Vec<Vec<AppliedEvent>>,
) -> (rebuilt: LoadedRun)
    requires
        regenerated@.len() == executions@.len(),
        regenerated_read(regenerated@),
    ensures
        rebuilt.coordinator@ == lifecycle_list(*run),
        run_read(rebuilt.executions@),
        all_published(rebuilt.executions@) == regenerated_published(
            *run,
            executions@,
            regenerated@,
            executions@.len() as int,
        ),
{
    let ghost all = regenerated@;
    let mut left = reversed(regenerated);
    let mut rebuilt: Vec<LoadedExecution> = Vec::new();
    let mut i: usize = 0;
    assert(all.skip(0) =~= all);
    while i < executions.len()
        invariant
            i <= executions.len(),
            all.len() == executions@.len(),
            regenerated_read(all),
            left@ == all.skip(i as int).reverse(),
            run_read(rebuilt@),
            all_published(rebuilt@) == regenerated_published(*run, executions@, all, i as int),
        decreases executions.len() - i,
    {
        let execution = executions[i].execution;
        match left.pop() {
            Some(applied) => {
                proof {
                    assert(applied == all.skip(i as int)[0]);
                    assert(applied == all[i as int]);
                    assert(left@ =~= all.skip(i + 1).reverse());
                }
                let externals = list_externals(run, execution);
                let (records, recorded_at) = list_regenerated(&applied, &externals);
                let ghost before = rebuilt@;
                rebuilt.push(
                    LoadedExecution {
                        execution,
                        records,
                        applied,
                        recorded_at,
                        finished: executions[i].finished,
                    },
                );
                assert(rebuilt@.drop_last() =~= before);
            },
            None => {
                assert(all.skip(i as int).len() > 0);
            },
        }
        i = i + 1;
    }
    LoadedRun { coordinator: list_lifecycle(run), executions: rebuilt }
}

/// Prove that a run's public stream loses nothing replay needs: project the
/// run, invert the stream, and check that the inverted coordinator log and
/// external engine records equal the stored ones, that replaying the inverted
/// records regenerates each stored engine log whole, and that the regenerated
/// logs project to the same stream. `regenerated` is what the engine did with
/// the inverted external records of each execution, in the run's order.
pub fn verify_lossless(loaded: &LoadedRun, regenerated: Vec<Vec<AppliedEvent>>) -> (verified: Result<
    InvertedRun,
    LosslessError,
>)
    requires
        run_read(loaded.executions@),
        regenerated@.len() == loaded.executions@.len(),
        regenerated_read(regenerated@),
    ensures
        match first_untold(stream_of(*loaded), *loaded) {
            Some(source) => verified matches Err(LosslessError::Invert(error)) && error == source,
            None => match verified {
                Ok(run) => {
                    &&& run.model() == told_run(stream_of(*loaded))
                    &&& lossless_failure(run, *loaded, regenerated@) is None
                },
                Err(error) => exists|run: InvertedRun|
                    run.model() == told_run(stream_of(*loaded)) && (
                    #[trigger] lossless_failure(run, *loaded, regenerated@)) == Some(error),
            },
        },
{
    let run = match invert_loaded(loaded) {
        Ok(run) => run,
        Err(error) => return Err(LosslessError::Invert(error)),
    };
    let ghost failure = lossless_failure(run, *loaded, regenerated@);
    let lifecycle = list_lifecycle(&run);
    match first_apart(&lifecycle, &loaded.coordinator) {
        Some(at) => {
            let error = LosslessError::Coordinator { seq: Some(lifecycle[at].seq) };
            assert(failure == Some(error));
            return Err(error);
        },
        None => {
            if lifecycle.len() != loaded.coordinator.len() {
                let error = LosslessError::Coordinator { seq: None };
                assert(failure == Some(error));
                return Err(error);
            }
        },
    }
    let mut i: usize = 0;
    while i < loaded.executions.len()
        invariant
            i <= loaded.executions.len(),
            run.model() == told_run(stream_of(*loaded)),
            regenerated@.len() == loaded.executions@.len(),
            regenerated_read(regenerated@),
            failure == lossless_failure(run, *loaded, regenerated@),
            first_untold(stream_of(*loaded), *loaded) is None,
            lifecycle_apart(lifecycle_list(run), loaded.coordinator@) is None,
            first_failure(run, loaded.executions@, regenerated@, i as int) is None,
        decreases loaded.executions.len() - i,
    {
        let held = &loaded.executions[i];
        match check_execution(&run, held, &regenerated[i]) {
            Some(error) => {
                proof {
                    lemma_failure_stays(
                        run,
                        loaded.executions@,
                        regenerated@,
                        i + 1,
                        loaded.executions@.len() as int,
                    );
                }
                assert(failure == Some(error));
                return Err(error);
            },
            None => {},
        }
        i = i + 1;
    }
    let rebuilt = rebuild(&run, &loaded.executions, regenerated);
    let again = project_from_start(&rebuilt);
    let events = project_from_start(loaded);
    match check_streams(&again, &events) {
        Some(error) => {
            assert(failure == Some(error));
            Err(error)
        },
        None => Ok(run),
    }
}

fn check_execution(run: &InvertedRun, held: &LoadedExecution, applied: &Vec<AppliedEvent>) -> (failure:
    Option<LosslessError>)
    requires
        all_read(applied@),
    ensures
        failure == execution_failure(*run, *held, applied@),
{
    let execution = held.execution;
    let externals = list_externals(run, execution);
    let stored = list_stored(&held.records, &held.recorded_at);
    match first_apart(&externals, &stored) {
        Some(at) => {
            return Some(
                LosslessError::External { execution, seq: Some(externals[at].record.seq) },
            );
        },
        None => {
            if externals.len() != stored.len() {
                return Some(LosslessError::External { execution, seq: None });
            }
        },
    }
    let (records, _) = list_regenerated(applied, &externals);
    match first_apart(&records, &held.records) {
        Some(at) => Some(LosslessError::Regenerated { execution, seq: Some(records[at].seq) }),
        None => if records.len() != held.records.len() {
            Some(LosslessError::Regenerated { execution, seq: None })
        } else {
            None
        },
    }
}

/// A verified run loses nothing: its inverted coordinator log is the stored
/// one, record by record; of every execution the inverted external records
/// are the stored ones with their times, and what they regenerate is the
/// stored log; and the regenerated logs project to the same stream, event by
/// event.
pub proof fn law_a_verified_run_loses_nothing(
    run: InvertedRun,
    loaded: LoadedRun,
    regenerated: Seq<Vec<AppliedEvent>>,
)
    requires
        lossless_failure(run, loaded, regenerated) is None,
    ensures
        alike_lists(lifecycle_list(run), loaded.coordinator@),
        forall|i: int|
            0 <= i < loaded.executions@.len() ==> {
                let execution = (#[trigger] loaded.executions@[i]);
                let applied = regenerated[i]@;
                &&& alike_lists(
                    external_list(run, execution.execution),
                    stored_externals(execution.records@, execution.recorded_at@),
                )
                &&& alike_lists(
                    records_after(applied, applied.len() as int),
                    execution.records@,
                )
            },
        ({
            let again = reprojected(run, loaded, regenerated);
            let events = stream_of(loaded);
            &&& again.len() == events.len()
            &&& forall|i: int| 0 <= i < events.len() ==> same_event(#[trigger] again[i], events[i])
        }),
{
    lemma_parts_nowhere(lifecycle_list(run), loaded.coordinator@, 0);
    let executions = loaded.executions@;
    assert forall|i: int| 0 <= i < executions.len() implies ({
        let execution = (#[trigger] executions[i]);
        let applied = regenerated[i]@;
        &&& alike_lists(
            external_list(run, execution.execution),
            stored_externals(execution.records@, execution.recorded_at@),
        )
        &&& alike_lists(records_after(applied, applied.len() as int), execution.records@)
    }) by {
        if first_failure(run, executions, regenerated, i + 1) is Some {
            lemma_failure_stays(run, executions, regenerated, i + 1, executions.len() as int);
        }
        let execution = executions[i];
        let applied = regenerated[i]@;
        assert(execution_failure(run, execution, applied) is None) by {
            if first_failure(run, executions, regenerated, i) is Some {
                lemma_failure_stays(run, executions, regenerated, i, i + 1);
            }
        }
        lemma_parts_nowhere(
            external_list(run, execution.execution),
            stored_externals(execution.records@, execution.recorded_at@),
            0,
        );
        lemma_parts_nowhere(
            records_after(applied, applied.len() as int),
            execution.records@,
            0,
        );
    }
    lemma_streams_nowhere(reprojected(run, loaded, regenerated), stream_of(loaded), 0);
}

proof fn lemma_streams_nowhere(a: Seq<EventModel>, b: Seq<EventModel>, from: int)
    requires
        0 <= from,
        streams_part(a, b, from) is None,
        a.len() == b.len(),
    ensures
        forall|i: int| from <= i < a.len() ==> same_event(#[trigger] a[i], b[i]),
    decreases a.len() - from,
{
    if from < a.len() {
        lemma_streams_nowhere(a, b, from + 1);
    }
}

/// The recording times of a regenerated log: the records an apply added
/// carry the time of the external record it applied. Each step is the log's
/// length after the apply, and that time.
pub open spec fn times_after(steps: Seq<(usize, Option<u64>)>) -> Seq<u64>
    decreases steps.len(),
{
    if steps.len() == 0 {
        Seq::empty()
    } else {
        let before = times_after(steps.drop_last());
        let (len, at) = steps.last();
        Seq::new(
            len as nat,
            |i: int|
                if i < before.len() {
                    before[i]
                } else {
                    match at {
                        Some(at) => at,
                        None => 0,
                    }
                },
        )
    }
}

/// The recording times of a regenerated log. A record that has none counts
/// as recorded at the epoch.
pub fn regenerated_times(steps: &Vec<(usize, Option<u64>)>) -> (times: Vec<u64>)
    ensures
        times@ == times_after(steps@),
{
    let mut times: Vec<u64> = Vec::new();
    let mut i: usize = 0;
    assert(steps@.take(0) =~= Seq::empty());
    while i < steps.len()
        invariant
            i <= steps.len(),
            times@ == times_after(steps@.take(i as int)),
        decreases steps.len() - i,
    {
        let (len, at) = steps[i];
        let at: u64 = match at {
            Some(at) => at,
            None => 0,
        };
        let ghost before = times@;
        times.resize(len, at);
        proof {
            assert(steps@.take(i + 1).drop_last() =~= steps@.take(i as int));
            assert(steps@.take(i + 1).last() == steps@[i as int]);
            assert(times@ =~= times_after(steps@.take(i + 1)));
        }
        i = i + 1;
    }
    assert(steps@.take(i as int) =~= steps@);
    times
}

} // verus!

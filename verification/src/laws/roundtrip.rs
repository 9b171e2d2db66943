//! What keeps a run's stream from giving its logs back.

use crate::event::lifecycle_of;
use crate::events::{lossless, EventModel, EventSource, Record, RecordOrigin};
use crate::events::follow::{held_after, records_after};
use crate::events::invert::{
    coordinator_view, engine_in, engine_view, lifecycle_in, records_of, EngineView, InvertError,
    InvertedRecord, InvertedRun,
};
use crate::events::lossless::{
    external_apart, external_list, first_failure, first_untold, last_graph, lifecycle_apart,
    lifecycle_list, lossless_failure, names_firing, presents, records_apart, regeneration_steps,
    reprojected, stored_externals, stream_failure, told_run, untold, LosslessError,
};
use crate::events::presented::{presentable, PresentedEvent};
use crate::events::replay::{stream_of, AppliedEvent, LoadedExecution, LoadedRun};
use crate::ids::ExecutionId;
use crate::laws::telling::lemma_first_where;
use crate::record::{Event, EventOrigin, StoredEngineRecord};
use vstd::prelude::*;

verus! {

/// The event a stored line holds.
pub open spec fn line_event(line: StoredEngineRecord) -> Event {
    *line.body
}

/// A host's record of an execution cannot be told when it is about a firing
/// and its event has no subject; when it cannot be presented in the graph the
/// execution ended up with; and for nothing else.
pub proof fn law_which_records_cannot_be_told(
    event: EventModel,
    run: LoadedRun,
    line: StoredEngineRecord,
    execution: ExecutionId,
)
    requires
        event.record == Some(Record::Engine(line)),
        event.id.source == (EventSource::Execution { execution }),
    ensures
        line.origin == EventOrigin::Core ==> untold(event, run) is None,
        line.origin == EventOrigin::External ==> ({
            let nameless = names_firing(line_event(line)) && event.subject is None;
            let fits = last_graph(run, execution) matches Some(graph) && presentable(
                line_event(line),
                graph,
            );
            &&& nameless ==> untold(event, run) == Some(InvertError::MissingSubject { id: event.id })
            &&& !nameless && fits ==> untold(event, run) is None
            &&& !nameless && !fits && line_event(line) is CancelRequested ==> untold(event, run)
                == Some(InvertError::CancelWithoutTarget { id: event.id })
            &&& !nameless && !fits && !(line_event(line) is CancelRequested) ==> untold(event, run)
                == Some(InvertError::UnexpectedBody { id: event.id })
        }),
{
}

/// A coordinator record can always be told, and so can an event without one.
pub proof fn law_coordinator_records_are_told(event: EventModel, run: LoadedRun)
    ensures
        !(event.record matches Some(Record::Engine(_))) ==> untold(event, run) is None,
        event.id.source is Coordinator ==> untold(event, run) is None,
{
}

/// A stream is refused for its first event that cannot be told.
pub proof fn law_a_stream_is_refused_at_its_first(
    events: Seq<EventModel>,
    event: EventModel,
    run: LoadedRun,
)
    ensures
        first_untold(Seq::empty(), run) is None,
        first_untold(events, run) is Some ==> first_untold(events.push(event), run)
            == first_untold(events, run),
        first_untold(events, run) is None ==> first_untold(events.push(event), run) == untold(
            event,
            run,
        ),
{
    assert(events.push(event).drop_last() =~= events);
}

/// The graph an execution ends up with is that after its last apply.
pub proof fn law_which_graph_an_execution_ends_with(run: LoadedRun, execution: ExecutionId)
    ensures
        match last_graph(run, execution) {
            Some(graph) => exists|i: int|
                0 <= i < run.executions@.len() && (#[trigger] run.executions@[i]).execution
                    == execution && run.executions@[i].applied@.len() > 0
                    && run.executions@[i].applied@.last().state.graph == graph,
            None => true,
        },
{
    lemma_first_where(run.executions@, |loaded: LoadedExecution| loaded.execution == execution);
}

/// A stream tells of each record once, under its log and seq: the first
/// event of a record adds it as it is stored, and nothing else changes.
pub proof fn law_what_a_stream_tells(events: Seq<EventModel>, event: EventModel, seq: u64)
    ensures
        told_run(Seq::empty()).coordinator.dom().len() == 0,
        told_run(Seq::empty()).executions.dom().len() == 0,
        ({
            let before = told_run(events);
            let after = told_run(events.push(event));
            &&& event.record is None ==> after == before
            &&& event.record matches Some(Record::Coordinator(record)) ==> {
                &&& after.executions == before.executions
                &&& after.coordinator.contains_key(record.seq)
                &&& before.coordinator.contains_key(record.seq) ==> after.coordinator
                    == before.coordinator
                &&& !before.coordinator.contains_key(record.seq) ==> {
                    let told = after.coordinator[record.seq];
                    told.seq == record.seq && told.origin == EventOrigin::External
                        && told.recorded_at == record.recorded_at && told.body == coordinator_view(
                        lifecycle_of(record),
                    )
                }
                &&& seq != record.seq && before.coordinator.contains_key(seq)
                    ==> after.coordinator.contains_key(seq) && after.coordinator[seq]
                    == before.coordinator[seq]
            }
            &&& event.record matches Some(Record::Engine(line)) ==> (event.id.source matches
                EventSource::Execution { execution } ==> {
                &&& line.origin == EventOrigin::Core ==> after == before
                &&& line.origin == EventOrigin::External ==> {
                    &&& after.coordinator == before.coordinator
                    &&& after.executions.contains_key(execution.0)
                    &&& after.executions[execution.0].contains_key(line.seq)
                    &&& !records_of(before, execution).contains_key(line.seq) ==> {
                        let told = after.executions[execution.0][line.seq];
                        told.seq == line.seq && told.origin == EventOrigin::External
                            && told.recorded_at == Some(line.recorded_at) && told.event
                            == engine_view(line_event(line))
                    }
                    &&& records_of(before, execution).contains_key(seq) ==> after.executions[execution.0].contains_key(
                    seq) && after.executions[execution.0][seq] == records_of(before, execution)[seq]
                }
            })
        }),
{
    assert(events.push(event).drop_last() =~= events);
}

/// A presented event tells of a record by its log and seq, as the record's
/// first event, at the time it was recorded, and reads back as the record.
pub proof fn law_how_a_record_is_presented(presented: PresentedEvent, event: EventModel)
    requires
        presents(presented, event),
    ensures
        presented.id.index == 0,
        presented.recorded_at is Some,
        event.record matches Some(Record::Coordinator(record)) ==> presented.id.source
            == EventSource::Coordinator && presented.id.seq == record.seq && presented.recorded_at
            == Some(record.recorded_at) && (lifecycle_in(presented) matches Ok(view) && view.body
            == coordinator_view(lifecycle_of(record))),
        event.record matches Some(Record::Engine(line)) ==> presented.id.source == event.id.source
            && presented.id.seq == line.seq && presented.recorded_at == Some(line.recorded_at)
            && presented.origin != RecordOrigin::Core && engine_in(presented) == Ok::<
            EngineView,
            InvertError,
        >(engine_view(line_event(line))),
{
}

/// An execution round-trips when its inverted external records are the stored
/// ones and what replaying them regenerates is its log; the first of the two
/// that is not is told, with the seq they part at.
pub proof fn law_when_an_execution_round_trips(
    run: InvertedRun,
    loaded: LoadedExecution,
    applied: Seq<AppliedEvent>,
)
    ensures
        ({
            let outer = external_apart(
                external_list(run, loaded.execution),
                stored_externals(loaded.records@, loaded.recorded_at@),
            );
            let inner = records_apart(
                records_after(applied, applied.len() as int),
                loaded.records@,
            );
            let failure = lossless::execution_failure(run, loaded, applied);
            &&& failure is None <==> outer is None && inner is None
            &&& outer matches Some(seq) ==> failure == Some(
                LosslessError::External { execution: loaded.execution, seq },
            )
            &&& outer is None ==> (inner matches Some(seq) ==> failure == Some(
                LosslessError::Regenerated { execution: loaded.execution, seq },
            ))
        }),
{
}

/// A run's round trip fails at its coordinator log first, then at its first
/// execution that does not round-trip, and then at the stream.
pub proof fn law_when_a_run_round_trips(
    run: InvertedRun,
    loaded: LoadedRun,
    regenerated: Seq<Vec<AppliedEvent>>,
)
    ensures
        ({
            let log = lifecycle_apart(lifecycle_list(run), loaded.coordinator@);
            let executions = first_failure(
                run,
                loaded.executions@,
                regenerated,
                loaded.executions@.len() as int,
            );
            let stream = stream_failure(
                reprojected(run, loaded, regenerated),
                stream_of(loaded),
            );
            let failure = lossless_failure(run, loaded, regenerated);
            &&& failure is None <==> log is None && executions is None && stream is None
            &&& log matches Some(seq) ==> failure == Some(LosslessError::Coordinator { seq })
            &&& log is None && executions is Some ==> failure == executions
            &&& log is None && executions is None ==> failure == stream
        }),
{
}

/// Executions are checked in order, each against what was regenerated of it.
pub proof fn law_executions_round_trip_in_order(
    run: InvertedRun,
    executions: Seq<LoadedExecution>,
    regenerated: Seq<Vec<AppliedEvent>>,
    count: int,
)
    requires
        0 <= count,
    ensures
        first_failure(run, executions, regenerated, 0) is None,
        first_failure(run, executions, regenerated, count) is Some ==> first_failure(
            run,
            executions,
            regenerated,
            count + 1,
        ) == first_failure(run, executions, regenerated, count),
        first_failure(run, executions, regenerated, count) is None ==> first_failure(
            run,
            executions,
            regenerated,
            count + 1,
        ) == lossless::execution_failure(run, executions[count], regenerated[count]@),
{
}

/// Each apply of a regenerated log is timed by the external record it
/// applied, and reaches as far as the records of the applies up to it.
pub proof fn law_how_applies_are_timed(
    applied: Seq<AppliedEvent>,
    externals: Seq<InvertedRecord>,
    m: int,
)
    requires
        0 <= m < applied.len(),
    ensures
        ({
            let steps = regeneration_steps(applied, externals);
            &&& steps.len() == applied.len()
            &&& m < externals.len() ==> steps[m].1 == externals[m].recorded_at
            &&& m >= externals.len() ==> steps[m].1 is None
            &&& steps[m].0 == held_after(applied, m + 1) as usize
        }),
        held_after(applied, 0) == 0,
        held_after(applied, m + 1) == held_after(applied, m) + applied[m].records@.len(),
{
}

} // verus!

//! What one record does to what is known of its execution.

use crate::event::{lifecycle_of, CancelReason, CoordinatorEvent, CoordinatorRecord};
use crate::events::{DerivedModel, EventSource, Record, RecordOrigin, ViewModel, WaitState};
use crate::events::derivation::{
    completions, lifecycle_events, own_step, refreshed, track_of, ProjectionModel, Readings,
    TrackModel,
};
use crate::ids::{Attempt, ExecutionId, FiringId};
use crate::laws::telling::recorded_final;
use crate::model::Outcome;
use crate::note::{progress_in, Parsed};
use crate::record::{Event, EventOrigin, StepEvent};
use crate::state::EngineState;
use std::sync::Arc;
use vstd::prelude::*;

verus! {

/// A cancel for a stall tells of the stall beside its record, with the budget
/// and how long the run was idle; every other coordinator record has its own
/// event alone.
pub proof fn law_a_stall_is_told(before: ProjectionModel, record: CoordinatorRecord)
    ensures
        ({
            let events = lifecycle_events(before, record);
            &&& events[0].id.source == EventSource::Coordinator && events[0].id.seq == record.seq
                && events[0].id.index == 0
            &&& events[0].record == Some(Record::Coordinator(record))
            &&& events[0].recorded_at == record.recorded_at
            &&& record.origin == EventOrigin::External <==> events[0].origin
                == RecordOrigin::External
            &&& match lifecycle_of(record) {
                CoordinatorEvent::InvocationCancelRequested {
                    reason: Some(CancelReason::StallTimeout { stall_timeout_ms, idle_ms }),
                    ..
                } => events.len() == 2 && events[1].derived == Some(
                    DerivedModel::View(ViewModel::RunStalled { stall_timeout_ms, idle_ms }),
                ) && events[1].origin == RecordOrigin::Derived && events[1].id.index == 1
                    && events[1].record is None,
                _ => events.len() == 1,
            }
        }),
{
}

/// A returned attempt is final when its firing's history records it, and
/// exhausted when its node is known, its outcome may be retried and no
/// attempt is left. Whatever was asked is asked no more.
pub proof fn law_what_a_returned_attempt_derives(
    track: TrackModel,
    execution: ExecutionId,
    firing: FiringId,
    attempt: Attempt,
    outcome: Arc<Outcome>,
    state: EngineState,
    readings: Readings,
)
    ensures
        ({
            let step = own_step(
                track,
                execution,
                Event::StepFinished { firing, attempt, outcome },
                state,
                readings,
            );
            let known = state.spec_firing_node(firing) matches Some(node) && state.graph.spec_node(
                node,
            ) is Some;
            &&& step.derived matches Some(DerivedModel::StepFinished { is_final, exhausted })
            &&& is_final <==> recorded_final(state, firing, attempt)
            &&& exhausted <==> known && readings.retry.retryable && !readings.retry.another_attempt
            &&& !step.track.asking.contains(firing.0)
            &&& forall|other: u64|
                other != firing.0 ==> #[trigger] step.track.asking.contains(other)
                    == track.asking.contains(other)
            &&& step.track.started == track.started && step.track.firings == track.firings
                && step.track.open == track.open && step.track.announced == track.announced
                && step.track.history == track.history
        }),
{
}

/// A question that expires is asked no more, and lifts the hold it put its
/// firing on; when nothing was asked nothing is told.
pub proof fn law_an_expired_question_lifts_its_hold(
    track: TrackModel,
    execution: ExecutionId,
    firing: FiringId,
    ev: StepEvent,
    state: EngineState,
    readings: Readings,
)
    requires
        progress_in(ev, readings.steps) matches Some(Parsed::QuestionExpired { .. }),
    ensures
        ({
            let step = own_step(
                track,
                execution,
                Event::StepProgressRecorded { firing, ev },
                state,
                readings,
            );
            &&& !step.track.asking.contains(firing.0)
            &&& forall|other: u64|
                other != firing.0 ==> #[trigger] step.track.asking.contains(other)
                    == track.asking.contains(other)
            &&& track.asking.contains(firing.0) ==> step.views.len() == 1 && step.views[0].0
                == step.subject && step.views[0].1 == (ViewModel::WaitStateChanged {
                state: WaitState::Running,
            })
            &&& !track.asking.contains(firing.0) ==> step.views.len() == 0
            &&& step.derived matches Some(DerivedModel::Parsed { parsed })
            &&& Some(parsed) == progress_in(ev, readings.steps)
        }),
{
}

/// What a step reported is derived as it reads, whatever it is, and a report
/// that reads as nothing derives nothing.
pub proof fn law_progress_is_derived_as_it_reads(
    track: TrackModel,
    execution: ExecutionId,
    firing: FiringId,
    ev: StepEvent,
    state: EngineState,
    readings: Readings,
)
    ensures
        ({
            let step = own_step(
                track,
                execution,
                Event::StepProgressRecorded { firing, ev },
                state,
                readings,
            );
            &&& progress_in(ev, readings.steps) is None ==> step.derived is None && step.views.len()
                == 0 && step.track == track
            &&& progress_in(ev, readings.steps) matches Some(parsed) ==> step.derived == Some(
                DerivedModel::Parsed { parsed },
            )
            &&& progress_in(ev, readings.steps) matches Some(Parsed::Note { .. })
                ==> step.views.len() == 0 && step.track == track
        }),
{
}

/// A track keeps its branch map while it covers every node of the graph, and
/// else takes the state's; nothing else of it changes.
pub proof fn law_which_branch_map_is_used(track: TrackModel, state: EngineState)
    ensures
        ({
            let after = refreshed(track, state);
            &&& track.branches.covered >= state.graph.nodes@.len() ==> after == track
            &&& track.branches.covered < state.graph.nodes@.len() ==> after.branches
                == state.branches@
            &&& after.firings == track.firings && after.started == track.started && after.asking
                == track.asking && after.history == track.history && after.announced
                == track.announced && after.open == track.open && after.invocation
                == track.invocation && after.parent == track.parent
        }),
{
}

/// Final records are read once: after a record every one of them is, and when
/// none is new nothing is told.
pub proof fn law_final_records_are_read_once(track: TrackModel, state: EngineState)
    ensures
        track.history < state.history@.len() ==> completions(track, state).0.history
            == state.history@.len(),
        track.history >= state.history@.len() ==> completions(track, state).0 == track
            && completions(track, state).1.len() == 0,
{
}

/// An execution nothing was read of has no firing seen, started or asking, no
/// fork announced or open, and no record read.
pub proof fn law_what_is_known_at_first(run: ProjectionModel, execution: ExecutionId)
    ensures
        run.executions.contains_key(execution.0) ==> track_of(run, execution)
            == run.executions[execution.0],
        !run.executions.contains_key(execution.0) ==> ({
            let track = track_of(run, execution);
            &&& track.invocation is None && track.parent is None && track.history == 0
                && track.open.len() == 0 && track.branches == run.blank
            &&& forall|id: u64|
                !(#[trigger] track.firings.contains(id)) && !track.started.contains(id)
                    && !track.asking.contains(id) && !track.announced.contains(id)
        }),
{
}

} // verus!

//! What holds of every derivation.

use crate::event::{CancelReason, CoordinatorEvent, CoordinatorRecord};
use crate::events::derivation::{
    aftermath, all_killed_closed, announce, branch_results, branches_completed, branches_of,
    cancelling, clone_branches, closing, completions, covers, dead_firings, derives,
    engine_derives, enveloped, event_index, in_firing_order, is_dead, lifecycle_events,
    member_results, occurrence_of, own_step, place_covering, place_opened, recovered_occurrence, refreshed,
    subject_at, subject_of, take_open, track_of, visit_completed, visits_completed, visits_seen,
    with_open, EnvelopeModel, OpenModel, ProjectionModel, Readings, Step, TrackModel, Views,
};
use crate::events::{
    origin_of, BranchResult, DerivedModel, EventId, EventModel, EventSource,
    ForkDisposition, ForkOccurrence, Record, RecordOrigin, Subject, ViewModel,
};
use crate::ids::{ExecutionId, FiringId, Generation, NodeId};
use crate::record::{event_of, stored, Event, EventRecord};
use crate::state::{BranchModel, BranchRef, BranchRole, EngineState, HistoryEntry, LiveFiring};
use vstd::prelude::*;

verus! {

/// A record's own event carries the stored line unchanged and stands first;
/// every other event of the record is a view event with no record, numbered
/// from one, recorded at the record's time.
pub proof fn law_engine_record_unchanged(
    before: ProjectionModel,
    execution: ExecutionId,
    record: EventRecord,
    recorded_at: u64,
    state: EngineState,
    readings: Readings,
    after: ProjectionModel,
    events: Seq<EventModel>,
)
    requires
        engine_derives(before, execution, record, recorded_at, state, readings, after, events),
    ensures
        events.len() >= 1,
        events[0].record == Some(Record::Engine(stored(record, recorded_at))),
        events[0].origin == origin_of(record.origin),
        forall|i: int|
            0 <= i < events.len() ==> (#[trigger] events[i]).id == (EventId {
                source: EventSource::Execution { execution },
                seq: record.seq,
                index: event_index(i),
            }) && events[i].recorded_at == recorded_at && events[i].observed_at is None,
        forall|i: int|
            1 <= i < events.len() ==> (#[trigger] events[i]).record is None && events[i].origin
                == RecordOrigin::Derived && events[i].derived matches Some(DerivedModel::View(_)),
{
}

/// A coordinator record's own event carries the stored line unchanged and
/// stands first. It is the record's only event, but for a stall, whose
/// record derives one view event that names the budget.
pub proof fn law_coordinator_record_unchanged(before: ProjectionModel, record: CoordinatorRecord)
    ensures
        ({
            let events = lifecycle_events(before, record);
            let stalled = *record.body matches CoordinatorEvent::InvocationCancelRequested {
                invocation,
                reason: Some(CancelReason::StallTimeout { stall_timeout_ms, idle_ms }),
            };
            &&& events.len() == if stalled {
                2int
            } else {
                1int
            }
            &&& events[0].record == Some(Record::Coordinator(record))
            &&& events[0].id == EventId {
                source: EventSource::Coordinator,
                seq: record.seq,
                index: 0,
            }
            &&& events[0].recorded_at == record.recorded_at
            &&& stalled ==> events[1].record is None && events[1].origin == RecordOrigin::Derived
                && events[1].derived == Some(
                DerivedModel::View(
                    ViewModel::RunStalled {
                        stall_timeout_ms: (*record.body)->reason->0->stall_timeout_ms,
                        idle_ms: (*record.body)->reason->0->idle_ms,
                    },
                ),
            )
        }),
{
}

/// Two events of one run with the same identity come from the same record
/// at the same place, as long as a record has no more than 2^32 events.
pub proof fn law_index_is_the_place(
    envelope: EnvelopeModel,
    subject: Option<Subject>,
    record: Record,
    derived: Option<DerivedModel>,
    views: Views,
    i: int,
    j: int,
)
    requires
        views.len() < u32::MAX,
        0 <= i < 1 + views.len(),
        0 <= j < 1 + views.len(),
        enveloped(envelope, subject, record, derived, views)[i].id == enveloped(
            envelope,
            subject,
            record,
            derived,
            views,
        )[j].id,
    ensures
        i == j,
{
}

// ── A fork is announced once ───────────────────────────────────────────

/// Whether a view event starts a fork.
pub open spec fn starts_fork(view: (Option<Subject>, ViewModel)) -> bool {
    view.1 is ForkStarted
}

/// No view event among these starts a fork.
pub open spec fn starts_none(views: Views) -> bool {
    forall|i: int| 0 <= i < views.len() ==> !starts_fork(#[trigger] views[i])
}

proof fn lemma_closing_starts_none(
    map: BranchModel,
    state: EngineState,
    subject: Subject,
    occurrence: ForkOccurrence,
    results: Seq<BranchResult>,
    disposition: ForkDisposition,
)
    ensures
        starts_none(closing(map, state, subject, occurrence, results, disposition)),
{
    lemma_branches_start_none(map, state, occurrence, results);
}

proof fn lemma_branches_start_none(
    map: BranchModel,
    state: EngineState,
    occurrence: ForkOccurrence,
    results: Seq<BranchResult>,
)
    ensures
        starts_none(branches_completed(map, state, occurrence, results)),
    decreases results.len(),
{
    if results.len() > 0 {
        lemma_branches_start_none(map, state, occurrence, results.drop_last());
    }
}

proof fn lemma_seen_starts_none(
    track: TrackModel,
    execution: ExecutionId,
    state: EngineState,
    live: Seq<LiveFiring>,
)
    ensures
        starts_none(visits_seen(track, execution, state, live).1),
        visits_seen(track, execution, state, live).0.announced == track.announced,
        visits_seen(track, execution, state, live).0.branches == track.branches,
    decreases live.len(),
{
    if live.len() > 0 {
        lemma_seen_starts_none(track, execution, state, live.drop_last());
        let before = visits_seen(track, execution, state, live.drop_last()).0;
        let seen = live.last();
        let map = before.branches;
        let about = subject_of(map, state, seen.id);
        if !before.firings.contains(seen.id.0) {
            if let Some(about) = about {
                if let BranchRole::Join { fork } = about.branch {
                    let taken = take_open(before.open, fork, about.generation);
                    let inputs = state.spec_firing(seen.id)->0.inputs;
                    let results = branch_results(
                        map,
                        state,
                        fork,
                        inputs@,
                    );
                    let occurrence = match taken.0 {
                        Some(open) => Some(open.occurrence),
                        None => recovered_occurrence(
                            map,
                            state,
                            execution,
                            fork,
                            about.generation,
                        ),
                    };
                    if let Some(occurrence) = occurrence {
                        lemma_closing_starts_none(
                            map,
                            state,
                            about,
                            occurrence,
                            results,
                            ForkDisposition::Joined,
                        );
                    }
                }
            }
        }
    }
}

proof fn lemma_cancelling_starts_none(map: BranchModel, state: EngineState, live: Seq<LiveFiring>)
    ensures
        starts_none(cancelling(map, state, live)),
    decreases live.len(),
{
    if live.len() > 0 {
        lemma_cancelling_starts_none(map, state, live.drop_last());
    }
}

proof fn lemma_completed_starts_none(
    track: TrackModel,
    state: EngineState,
    entries: Seq<HistoryEntry>,
)
    ensures
        starts_none(visits_completed(track, state, entries).1),
        visits_completed(track, state, entries).0.announced == track.announced,
        visits_completed(track, state, entries).0.branches == track.branches,
        visits_completed(track, state, entries).0.firings == track.firings,
    decreases entries.len(),
{
    if entries.len() > 0 {
        lemma_completed_starts_none(track, state, entries.drop_last());
        let before = visits_completed(track, state, entries.drop_last()).0;
        let entry = entries.last();
        let map = before.branches;
        if let Some(node) = state.graph.spec_node(entry.node) {
            let about = subject_at(
                map,
                state,
                node,
                Some((entry.firing, entry.attempt, entry.generation)),
            );
            if let BranchRole::Join { fork } = about.branch {
                let taken = take_open(before.open, fork, Some(entry.generation));
                if let Some(open) = taken.0 {
                    lemma_closing_starts_none(
                        map,
                        state,
                        about,
                        open.occurrence,
                        member_results(map, state, open),
                        if entry.outcome.status.cancelled {
                            ForkDisposition::Cancelled
                        } else {
                            ForkDisposition::Joined
                        },
                    );
                }
            }
        }
    }
}

proof fn lemma_killed_starts_none(track: TrackModel, state: EngineState, firings: Seq<FiringId>)
    ensures
        starts_none(all_killed_closed(track, state, firings).1),
        all_killed_closed(track, state, firings).0 == (TrackModel {
            open: all_killed_closed(track, state, firings).0.open,
            ..track
        }),
    decreases firings.len(),
{
    if firings.len() > 0 {
        lemma_killed_starts_none(track, state, firings.drop_last());
        let before = all_killed_closed(track, state, firings.drop_last()).0;
        let at = place_opened(before.open, firings.last());
        if at < before.open.len() {
            if let Some(subject) = subject_of(before.branches, state, firings.last()) {
                lemma_closing_starts_none(
                    before.branches,
                    state,
                    subject,
                    before.open[at].occurrence,
                    member_results(
                        before.branches,
                        state,
                        before.open[at],
                    ),
                    ForkDisposition::Killed,
                );
            }
        }
    }
}

/// What follows a record's own derivation starts no fork.
proof fn lemma_aftermath_starts_none(
    track: TrackModel,
    execution: ExecutionId,
    event: Event,
    state: EngineState,
)
    ensures
        starts_none(aftermath(track, execution, event, state).1),
        aftermath(track, execution, event, state).0.announced == track.announced,
{
    lemma_seen_starts_none(track, execution, state, state.live@);
    let seen = visits_seen(track, execution, state, state.live@);
    lemma_cancelling_starts_none(seen.0.branches, state, state.live@);
    if state.history@.len() > seen.0.history {
        lemma_completed_starts_none(
            seen.0,
            state,
            state.history@.subrange(seen.0.history as int, state.history@.len() as int),
        );
    }
    let read = completions(seen.0, state);
    lemma_killed_starts_none(
        read.0,
        state,
        dead_firings(read.0.branches, state, read.0.open),
    );
}

/// The event starts a fork.
pub open spec fn fork_started(event: EventModel) -> Option<ForkOccurrence> {
    match event.derived {
        Some(DerivedModel::View(ViewModel::ForkStarted { occurrence, branches })) => Some(
            occurrence,
        ),
        _ => None,
    }
}

/// A fork is announced at most once. A record starts at most one fork, one
/// whose firing was never announced before; its firing counts as announced
/// from then on, and no announcement is ever forgotten.
pub proof fn law_fork_announced_once(
    before: ProjectionModel,
    execution: ExecutionId,
    record: EventRecord,
    recorded_at: u64,
    state: EngineState,
    readings: Readings,
    after: ProjectionModel,
    events: Seq<EventModel>,
)
    requires
        engine_derives(before, execution, record, recorded_at, state, readings, after, events),
    ensures
        track_of(before, execution).announced.subset_of(track_of(after, execution).announced),
        forall|i: int|
            0 <= i < events.len() && #[trigger] fork_started(events[i]) is Some ==> {
                let firing = fork_started(events[i])->0.firing.0;
                &&& !track_of(before, execution).announced.contains(firing)
                &&& track_of(after, execution).announced.contains(firing)
            },
        forall|i: int, j: int|
            0 <= i < events.len() && 0 <= j < events.len() && #[trigger] fork_started(
                events[i],
            ) is Some && #[trigger] fork_started(events[j]) is Some ==> i == j,
{
    let track = refreshed(track_of(before, execution), state);
    let step = own_step(track, execution, event_of(record), state, readings);
    let rest = aftermath(step.track, execution, event_of(record), state);
    lemma_aftermath_starts_none(step.track, execution, event_of(record), state);
    let views = step.views + rest.1;
    assert forall|i: int| 0 <= i < events.len() && #[trigger] fork_started(
        events[i],
    ) is Some implies {
        let firing = fork_started(events[i])->0.firing.0;
        &&& !track_of(before, execution).announced.contains(firing)
        &&& track_of(after, execution).announced.contains(firing)
        &&& i == 1
        &&& step.views.len() == 1
    } by {
        assert(i >= 1);
        assert(starts_fork(views[i - 1]));
        if i - 1 >= step.views.len() {
            assert(views[i - 1] == rest.1[i - 1 - step.views.len()]);
        } else {
            assert(views[i - 1] == step.views[i - 1]);
        }
    }
}

// ── Open forks ─────────────────────────────────────────────────────────

/// The open forks stand in firing order, one per firing, and each was
/// announced.
pub open spec fn sound(track: TrackModel) -> bool {
    &&& in_firing_order(track.open)
    &&& forall|i: int|
        0 <= i < track.open.len() ==> track.announced.contains(
            (#[trigger] track.open[i]).occurrence.firing.0,
        )
}

pub(crate) proof fn lemma_removed_sound(track: TrackModel, at: int)
    requires
        sound(track),
        0 <= at < track.open.len(),
    ensures
        sound(TrackModel { open: track.open.remove(at), ..track }),
{
    let after = track.open.remove(at);
    assert forall|i: int, j: int| 0 <= i < j < after.len() implies after[i].occurrence.firing.0
        < after[j].occurrence.firing.0 by {
        let a = if i < at { i } else { i + 1 };
        let b = if j < at { j } else { j + 1 };
        assert(after[i] == track.open[a]);
        assert(after[j] == track.open[b]);
    }
    assert forall|i: int| 0 <= i < after.len() implies track.announced.contains(
        (#[trigger] after[i]).occurrence.firing.0,
    ) by {
        let a = if i < at { i } else { i + 1 };
        assert(after[i] == track.open[a]);
    }
}

/// A member of the open forks with one more is that one or was open.
pub(crate) proof fn lemma_with_open_members(open: Seq<OpenModel>, fork: OpenModel)
    ensures
        forall|i: int|
            0 <= i < with_open(open, fork).len() ==> #[trigger] with_open(open, fork)[i] == fork
                || open.contains(with_open(open, fork)[i]),
    decreases open.len(),
{
    let all = with_open(open, fork);
    if open.len() > 0 {
        let rest = open.drop_first();
        lemma_with_open_members(rest, fork);
        assert forall|i: int| 0 <= i < all.len() implies #[trigger] all[i] == fork || open.contains(
            all[i],
        ) by {
            if fork.occurrence.firing.0 < open.first().occurrence.firing.0 {
                if i > 0 {
                    assert(all[i] == open[i - 1]);
                }
            } else if fork.occurrence.firing.0 == open.first().occurrence.firing.0 {
                if i > 0 {
                    assert(all[i] == open[i]);
                }
            } else {
                if i == 0 {
                    assert(all[0] == open[0]);
                } else {
                    assert(all[i] == with_open(rest, fork)[i - 1]);
                    if all[i] != fork {
                        let k = choose|k: int| 0 <= k < rest.len() && rest[k] == all[i];
                        assert(open[k + 1] == all[i]);
                    }
                }
            }
        }
    }
}

proof fn lemma_with_open_order(open: Seq<OpenModel>, fork: OpenModel)
    requires
        in_firing_order(open),
    ensures
        in_firing_order(with_open(open, fork)),
    decreases open.len(),
{
    let all = with_open(open, fork);
    if open.len() > 0 {
        let rest = open.drop_first();
        assert(in_firing_order(rest)) by {
            assert forall|i: int, j: int| 0 <= i < j < rest.len() implies rest[i].occurrence.firing.0
                < rest[j].occurrence.firing.0 by {
                assert(rest[i] == open[i + 1]);
                assert(rest[j] == open[j + 1]);
            }
        }
        lemma_with_open_order(rest, fork);
        lemma_with_open_members(rest, fork);
        assert forall|i: int, j: int| 0 <= i < j < all.len() implies all[i].occurrence.firing.0
            < all[j].occurrence.firing.0 by {
            if fork.occurrence.firing.0 < open.first().occurrence.firing.0 {
                assert(all[j] == open[j - 1]);
                if i > 0 {
                    assert(all[i] == open[i - 1]);
                } else if j - 1 > 0 {
                    assert(open[0].occurrence.firing.0 < open[j - 1].occurrence.firing.0);
                }
            } else if fork.occurrence.firing.0 == open.first().occurrence.firing.0 {
                assert(all[j] == open[j]);
                if i > 0 {
                    assert(all[i] == open[i]);
                } else {
                    assert(open[0].occurrence.firing.0 < open[j].occurrence.firing.0);
                }
            } else {
                let tail = with_open(rest, fork);
                assert(all[j] == tail[j - 1]);
                if i == 0 {
                    if all[j] != fork {
                        let k = choose|k: int| 0 <= k < rest.len() && rest[k] == all[j];
                        assert(open[k + 1] == all[j]);
                        assert(open[0].occurrence.firing.0 < open[k + 1].occurrence.firing.0);
                    }
                } else {
                    assert(all[i] == tail[i - 1]);
                }
            }
        }
    }
}

proof fn lemma_announce_sound(
    track: TrackModel,
    execution: ExecutionId,
    state: EngineState,
    firing: FiringId,
    branches: Seq<BranchRef>,
)
    requires
        sound(track),
    ensures
        sound(announce(track, execution, state, firing, branches).0),
{
    if let Some(subject) = subject_of(track.branches, state, firing) {
        if let Some(occurrence) = occurrence_of(execution, subject) {
            let fork = OpenModel { occurrence, branches };
            assert(occurrence.firing == firing);
            lemma_with_open_order(track.open, fork);
            lemma_with_open_members(track.open, fork);
            let all = with_open(track.open, fork);
            assert forall|i: int| 0 <= i < all.len() implies track.announced.insert(
                firing.0,
            ).contains((#[trigger] all[i]).occurrence.firing.0) by {
                if all[i] != fork {
                    let k = choose|k: int| 0 <= k < track.open.len() && track.open[k] == all[i];
                    assert(track.open[k].occurrence.firing == all[i].occurrence.firing);
                }
            }
        }
    }
}

proof fn lemma_taken_sound(track: TrackModel, fork: NodeId, generation: Option<Generation>)
    requires
        sound(track),
    ensures
        sound(TrackModel { open: take_open(track.open, fork, generation).1, ..track }),
{
    if let Some(generation) = generation {
        lemma_place_bounds(track.open, fork, generation);
        let at = place_covering(track.open, fork, generation);
        if at < track.open.len() {
            lemma_removed_sound(track, at);
        }
    }
}

proof fn lemma_place_bounds(open: Seq<OpenModel>, fork: NodeId, generation: Generation)
    ensures
        0 <= place_covering(open, fork, generation) <= open.len(),
    decreases open.len(),
{
    if open.len() > 0 && !covers(open.first(), fork, generation) {
        lemma_place_bounds(open.drop_first(), fork, generation);
    }
}

proof fn lemma_opened_bounds(open: Seq<OpenModel>, firing: FiringId)
    ensures
        0 <= place_opened(open, firing) <= open.len(),
        place_opened(open, firing) < open.len() ==> open[place_opened(
            open,
            firing,
        )].occurrence.firing == firing,
        forall|j: int|
            0 <= j < place_opened(open, firing) ==> (#[trigger] open[j]).occurrence.firing
                != firing,
    decreases open.len(),
{
    if open.len() > 0 && open.first().occurrence.firing != firing {
        let rest = open.drop_first();
        lemma_opened_bounds(rest, firing);
        let at = place_opened(open, firing);
        assert forall|j: int| 0 <= j < at implies (#[trigger] open[j]).occurrence.firing
            != firing by {
            if j > 0 {
                assert(open[j] == rest[j - 1]);
            }
        }
    }
}

proof fn lemma_seen_sound(
    track: TrackModel,
    execution: ExecutionId,
    state: EngineState,
    live: Seq<LiveFiring>,
)
    requires
        sound(track),
    ensures
        sound(visits_seen(track, execution, state, live).0),
    decreases live.len(),
{
    if live.len() > 0 {
        lemma_seen_sound(track, execution, state, live.drop_last());
        let before = visits_seen(track, execution, state, live.drop_last()).0;
        if let Some(about) = subject_of(before.branches, state, live.last().id) {
            if let BranchRole::Join { fork } = about.branch {
                lemma_taken_sound(before, fork, about.generation);
            }
        }
    }
}

proof fn lemma_completed_sound(track: TrackModel, state: EngineState, entries: Seq<HistoryEntry>)
    requires
        sound(track),
    ensures
        sound(visits_completed(track, state, entries).0),
    decreases entries.len(),
{
    if entries.len() > 0 {
        lemma_completed_sound(track, state, entries.drop_last());
        let before = visits_completed(track, state, entries.drop_last()).0;
        let entry = entries.last();
        if let Some(node) = state.graph.spec_node(entry.node) {
            if let BranchRole::Join { fork } = before.branches.spec_role(node.id) {
                lemma_taken_sound(before, fork, Some(entry.generation));
            }
        }
    }
}

/// Closing killed forks leaves open what was open and not among them.
proof fn lemma_killed_sound(track: TrackModel, state: EngineState, firings: Seq<FiringId>)
    requires
        sound(track),
    ensures
        sound(all_killed_closed(track, state, firings).0),
        forall|i: int|
            0 <= i < all_killed_closed(track, state, firings).0.open.len() ==> track.open.contains(
                #[trigger] all_killed_closed(track, state, firings).0.open[i],
            ) && !firings.contains(
                all_killed_closed(track, state, firings).0.open[i].occurrence.firing,
            ),
    decreases firings.len(),
{
    if firings.len() > 0 {
        let firing = firings.last();
        lemma_killed_sound(track, state, firings.drop_last());
        let before = all_killed_closed(track, state, firings.drop_last()).0;
        let after = all_killed_closed(track, state, firings).0;
        lemma_opened_bounds(before.open, firing);
        let at = place_opened(before.open, firing);
        if at < before.open.len() {
            lemma_removed_sound(before, at);
        }
        assert forall|i: int| 0 <= i < after.open.len() implies track.open.contains(
            #[trigger] after.open[i],
        ) && !firings.contains(after.open[i].occurrence.firing) by {
            let k = if at < before.open.len() && i >= at { i + 1 } else { i };
            assert(after.open[i] == before.open[k]);
            assert(before.open[k].occurrence.firing != firing) by {
                if at < before.open.len() {
                    if k < at {
                    } else {
                        assert(before.open[at].occurrence.firing.0
                            < before.open[k].occurrence.firing.0);
                    }
                }
            }
            if firings.contains(after.open[i].occurrence.firing) {
                let n = choose|n: int|
                    0 <= n < firings.len() && firings[n] == after.open[i].occurrence.firing;
                assert(n < firings.len() - 1);
                assert(firings.drop_last()[n] == after.open[i].occurrence.firing);
            }
        }
    } else {
        assert forall|i: int| 0 <= i < track.open.len() implies track.open.contains(
            #[trigger] track.open[i],
        ) by {
            assert(track.open[i] == track.open[i]);
        }
    }
}

/// The dead forks' firings are listed.
proof fn lemma_dead_listed(map: BranchModel, state: EngineState, open: Seq<OpenModel>, i: int)
    requires
        0 <= i < open.len(),
        is_dead(map, state, open[i]),
    ensures
        dead_firings(map, state, open).contains(open[i].occurrence.firing),
    decreases open.len(),
{
    let all = dead_firings(map, state, open);
    let before = dead_firings(map, state, open.drop_last());
    if i == open.len() - 1 {
        assert(all[all.len() - 1] == open[i].occurrence.firing);
    } else {
        lemma_dead_listed(map, state, open.drop_last(), i);
        let k = choose|k: int| 0 <= k < before.len() && before[k] == open[i].occurrence.firing;
        assert(all[k] == open[i].occurrence.firing);
    }
}

/// Every record keeps the open forks in firing order, one per firing and
/// each announced, and leaves no killed fork open that has no branch running:
/// such a fork is closed with the record that stops its last branch.
pub proof fn law_open_forks(
    before: ProjectionModel,
    execution: ExecutionId,
    record: EventRecord,
    recorded_at: u64,
    state: EngineState,
    readings: Readings,
    after: ProjectionModel,
    events: Seq<EventModel>,
)
    requires
        engine_derives(before, execution, record, recorded_at, state, readings, after, events),
        sound(track_of(before, execution)),
    ensures
        sound(track_of(after, execution)),
        forall|i: int|
            0 <= i < track_of(after, execution).open.len() ==> !is_dead(
                track_of(after, execution).branches,
                state,
                #[trigger] track_of(after, execution).open[i],
            ),
{
    let track = refreshed(track_of(before, execution), state);
    let step = own_step(track, execution, event_of(record), state, readings);
    lemma_step_sound(track, execution, event_of(record), state, readings, step);
    lemma_seen_sound(step.track, execution, state, state.live@);
    lemma_seen_starts_none(step.track, execution, state, state.live@);
    let seen = visits_seen(step.track, execution, state, state.live@);
    if state.history@.len() > seen.0.history {
        let entries = state.history@.subrange(seen.0.history as int, state.history@.len() as int);
        lemma_completed_sound(seen.0, state, entries);
        lemma_completed_starts_none(seen.0, state, entries);
    }
    let read = completions(seen.0, state);
    let listed = dead_firings(read.0.branches, state, read.0.open);
    lemma_killed_sound(read.0, state, listed);
    lemma_killed_starts_none(read.0, state, listed);
    let last = all_killed_closed(read.0, state, listed).0;
    assert(track_of(after, execution) == last);
    assert forall|i: int| 0 <= i < last.open.len() implies !is_dead(
        last.branches,
        state,
        #[trigger] last.open[i],
    ) by {
        if is_dead(last.branches, state, last.open[i]) {
            let k = choose|k: int| 0 <= k < read.0.open.len() && read.0.open[k] == last.open[i];
            lemma_dead_listed(read.0.branches, state, read.0.open, k);
        }
    }
}

pub(crate) proof fn lemma_step_sound(
    track: TrackModel,
    execution: ExecutionId,
    event: Event,
    state: EngineState,
    readings: Readings,
    step: Step,
)
    requires
        sound(track),
        derives(track, execution, event, state, readings, step),
    ensures
        sound(step.track),
{
    match event {
        Event::RouteApplied { applied } => {
            if let Some(about) = subject_of(track.branches, state, applied.firing()) {
                if let BranchRole::Fork { branches } = about.branch {
                    lemma_announce_sound(
                        track,
                        execution,
                        state,
                        applied.firing(),
                        branches_of(about.node.id, branches),
                    );
                }
            }
        },
        Event::NodeExpanded { node, splice } => {
            if let Some(fork) = track.branches.spec_expansion_fork(node) {
                if let Some(entry) = state.spec_node_record(fork, splice.generation) {
                    lemma_announce_sound(
                        track,
                        execution,
                        state,
                        entry.firing,
                        clone_branches(fork, splice.clones@),
                    );
                }
            }
        },
        _ => {},
    }
}

// ── Visits ─────────────────────────────────────────────────────────────

proof fn lemma_seen_known(
    track: TrackModel,
    execution: ExecutionId,
    state: EngineState,
    live: Seq<LiveFiring>,
)
    ensures
        forall|i: int|
            0 <= i < live.len() ==> visits_seen(
                track,
                execution,
                state,
                live,
            ).0.firings.contains((#[trigger] live[i]).id.0),
        track.firings.subset_of(visits_seen(track, execution, state, live).0.firings),
        (forall|i: int|
            0 <= i < live.len() ==> track.firings.contains((#[trigger] live[i]).id.0))
            ==> visits_seen(track, execution, state, live) == (
            track,
            Seq::<(Option<Subject>, ViewModel)>::empty(),
        ),
    decreases live.len(),
{
    if live.len() > 0 {
        let rest = live.drop_last();
        lemma_seen_known(track, execution, state, rest);
        let before = visits_seen(track, execution, state, rest);
        let all = visits_seen(track, execution, state, live);
        assert forall|i: int| 0 <= i < live.len() implies all.0.firings.contains(
            (#[trigger] live[i]).id.0,
        ) by {
            if i < live.len() - 1 {
                assert(rest[i] == live[i]);
            }
        }
        if forall|i: int| 0 <= i < live.len() ==> track.firings.contains((#[trigger] live[i]).id.0) {
            assert forall|i: int| 0 <= i < rest.len() implies track.firings.contains(
                (#[trigger] rest[i]).id.0,
            ) by {
                assert(rest[i] == live[i]);
            }
            assert(track.firings.contains(live[live.len() - 1].id.0));
            assert(all.1 =~= Seq::<(Option<Subject>, ViewModel)>::empty());
        }
    }
}

/// A visit starts once. After a record every live firing counts as seen, no
/// firing is ever forgotten, and a state whose live firings were all seen
/// before starts no visit and closes no fork by its join's first sight.
pub proof fn law_visits_start_once(
    track: TrackModel,
    execution: ExecutionId,
    state: EngineState,
)
    ensures
        ({
            let seen = visits_seen(track, execution, state, state.live@);
            &&& forall|i: int|
                0 <= i < state.live@.len() ==> seen.0.firings.contains(
                    (#[trigger] state.live@[i]).id.0,
                )
            &&& track.firings.subset_of(seen.0.firings)
            &&& visits_seen(seen.0, execution, state, state.live@) == (
                seen.0,
                Seq::<(Option<Subject>, ViewModel)>::empty(),
            )
        }),
{
    lemma_seen_known(track, execution, state, state.live@);
    lemma_seen_known(
        visits_seen(track, execution, state, state.live@).0,
        execution,
        state,
        state.live@,
    );
}

/// The visit completions among view events, in order.
pub open spec fn completed_outcomes(views: Views) -> Seq<ViewModel>
    decreases views.len(),
{
    if views.len() == 0 {
        Seq::empty()
    } else {
        let before = completed_outcomes(views.drop_last());
        if views.last().1 is VisitCompleted {
            before.push(views.last().1)
        } else {
            before
        }
    }
}

pub(crate) proof fn lemma_outcomes_join(a: Views, b: Views)
    ensures
        completed_outcomes(a + b) == completed_outcomes(a) + completed_outcomes(b),
    decreases b.len(),
{
    if b.len() == 0 {
        assert(a + b =~= a);
        assert(completed_outcomes(a) + completed_outcomes(b) =~= completed_outcomes(a));
    } else {
        lemma_outcomes_join(a, b.drop_last());
        assert((a + b).drop_last() =~= a + b.drop_last());
        assert((a + b).last() == b.last());
        if b.last().1 is VisitCompleted {
            assert(completed_outcomes(a) + completed_outcomes(b.drop_last()).push(b.last().1)
                =~= (completed_outcomes(a) + completed_outcomes(b.drop_last())).push(b.last().1));
        }
    }
}

proof fn lemma_branches_complete_none(
    map: BranchModel,
    state: EngineState,
    occurrence: ForkOccurrence,
    results: Seq<BranchResult>,
)
    ensures
        completed_outcomes(branches_completed(map, state, occurrence, results)).len() == 0,
    decreases results.len(),
{
    if results.len() > 0 {
        lemma_branches_complete_none(map, state, occurrence, results.drop_last());
        let all = branches_completed(map, state, occurrence, results);
        assert(all.drop_last() =~= branches_completed(
            map,
            state,
            occurrence,
            results.drop_last(),
        ));
    }
}

proof fn lemma_closing_completes_none(
    map: BranchModel,
    state: EngineState,
    subject: Subject,
    occurrence: ForkOccurrence,
    results: Seq<BranchResult>,
    disposition: ForkDisposition,
)
    ensures
        completed_outcomes(
            closing(map, state, subject, occurrence, results, disposition),
        ).len() == 0,
{
    lemma_branches_complete_none(map, state, occurrence, results);
    let completed = branches_completed(map, state, occurrence, results);
    let all = closing(map, state, subject, occurrence, results, disposition);
    if all.len() > completed.len() {
        assert(all.drop_last() =~= completed);
    }
}

/// Every history entry a record added completes exactly one visit, with the
/// entry's own outcome and attempt count, in history order.
pub proof fn law_one_completion_per_entry(
    track: TrackModel,
    state: EngineState,
    entries: Seq<HistoryEntry>,
)
    ensures
        ({
            let completed = completed_outcomes(visits_completed(track, state, entries).1);
            &&& completed.len() == entries.len()
            &&& forall|i: int|
                0 <= i < entries.len() ==> #[trigger] completed[i]
                    == (ViewModel::VisitCompleted {
                    outcome: entries[i].outcome,
                    executed: track.started.contains(entries[i].firing.0),
                    attempts: entries[i].attempt.0,
                })
            &&& visits_completed(track, state, entries).0.started == track.started
        }),
    decreases entries.len(),
{
    if entries.len() > 0 {
        let rest = entries.drop_last();
        law_one_completion_per_entry(track, state, rest);
        let before = visits_completed(track, state, rest);
        let entry = entries.last();
        let last = visit_completed(before.0, state, entry);
        lemma_outcomes_join(before.1, last.1);
        let own = completed_outcomes(last.1);
        assert(own =~= seq![
            ViewModel::VisitCompleted {
                outcome: entry.outcome,
                executed: track.started.contains(entry.firing.0),
                attempts: entry.attempt.0,
            },
        ]) by {
            let tail = last.1.last();
            let head = last.1.drop_last();
            lemma_completion_head(before.0, state, entry);
        }
        let completed = completed_outcomes(visits_completed(track, state, entries).1);
        assert forall|i: int| 0 <= i < entries.len() implies #[trigger] completed[i]
            == (ViewModel::VisitCompleted {
            outcome: entries[i].outcome,
            executed: track.started.contains(entries[i].firing.0),
            attempts: entries[i].attempt.0,
        }) by {
            if i < rest.len() {
                assert(completed[i] == completed_outcomes(before.1)[i]);
                assert(rest[i] == entries[i]);
            } else {
                assert(completed[i] == own[0]);
            }
        }
    }
}

proof fn lemma_completion_head(track: TrackModel, state: EngineState, entry: HistoryEntry)
    ensures
        visit_completed(track, state, entry).1.len() >= 1,
        visit_completed(track, state, entry).1.last().1 == (ViewModel::VisitCompleted {
            outcome: entry.outcome,
            executed: track.started.contains(entry.firing.0),
            attempts: entry.attempt.0,
        }),
        completed_outcomes(visit_completed(track, state, entry).1.drop_last()).len() == 0,
{
    let map = track.branches;
    let views = visit_completed(track, state, entry).1;
    if let Some(node) = state.graph.spec_node(entry.node) {
        let about = subject_at(
            map,
            state,
            node,
            Some((entry.firing, entry.attempt, entry.generation)),
        );
        if let BranchRole::Join { fork } = about.branch {
            let taken = take_open(track.open, fork, Some(entry.generation));
            if let Some(open) = taken.0 {
                let disposition = if entry.outcome.status.cancelled {
                    ForkDisposition::Cancelled
                } else {
                    ForkDisposition::Joined
                };
                let results = member_results(map, state, open);
                lemma_closing_completes_none(
                    map,
                    state,
                    about,
                    open.occurrence,
                    results,
                    disposition,
                );
                if !track.firings.contains(entry.firing.0) {
                    assert(views.drop_last() =~= closing(
                        map,
                        state,
                        about,
                        open.occurrence,
                        results,
                        disposition,
                    ));
                }
            }
        }
    }
    if views.len() == 1 {
        assert(views.drop_last() =~= Seq::<(Option<Subject>, ViewModel)>::empty());
    }
}

} // verus!

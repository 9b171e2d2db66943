//! What holds over all the records a projection is fed.

use crate::event::CoordinatorRecord;
use crate::events::derivation::{
    after_lifecycle, aftermath, all_killed_closed, blank_run, branch_results, branches_completed,
    cancelling, closing, completions, dead_firings, engine_derives, killed_closed,
    lifecycle_events, marked_cancelling, member_result, member_results, members_before, own_step,
    place_covering, place_opened, placed_result, recovered_occurrence, refreshed, subject_of,
    take_open, target_node, token_result, track_of, visit_completed, visit_seen, visits_completed,
    visits_seen, with_open, OpenModel, ProjectionModel, Readings, Step, TrackModel, Views,
};
use crate::events::laws::{
    completed_outcomes, fork_started, law_fork_announced_once, law_one_completion_per_entry,
    law_open_forks, lemma_outcomes_join, lemma_removed_sound, lemma_step_sound,
    lemma_with_open_members, sound,
};
use crate::events::replay::{derived_through, PublishedModel};
use crate::events::{
    BranchResult, DerivedModel, EventModel, ForkDisposition, ForkOccurrence, Subject, ViewModel,
    WaitState,
};
use crate::ids::{ExecutionId, FiringId, Generation, NodeId};
use crate::model::Token;
use crate::record::{event_of, Event, EventRecord};
use crate::state::{BranchModel, BranchRole, EngineState, HistoryEntry, LiveFiring};
use vstd::prelude::*;

verus! {

// ── Live and replayed ──────────────────────────────────────────────────

/// One record a projection is fed, with what it is derived from.
#[allow(inconsistent_fields)]
pub enum Feed {
    Lifecycle { record: CoordinatorRecord },
    Engine {
        execution: ExecutionId,
        record: EventRecord,
        recorded_at: u64,
        state: EngineState,
        readings: Readings,
    },
}

/// Whether a projection that was fed these records went through these runs
/// and answered each with these events.
pub open spec fn fed(
    feeds: Seq<Feed>,
    runs: Seq<ProjectionModel>,
    answers: Seq<Seq<EventModel>>,
) -> bool {
    &&& runs.len() == feeds.len() + 1
    &&& answers.len() == feeds.len()
    &&& forall|i: int| 0 <= i < feeds.len() ==> #[trigger] answered(feeds, runs, answers, i)
}

/// Whether one record of a series was answered.
pub open spec fn answered(
    feeds: Seq<Feed>,
    runs: Seq<ProjectionModel>,
    answers: Seq<Seq<EventModel>>,
    i: int,
) -> bool {
    match feeds[i] {
        Feed::Lifecycle { record } => {
            &&& runs[i + 1] == after_lifecycle(runs[i], *record.body)
            &&& answers[i] == lifecycle_events(runs[i], record)
        },
        Feed::Engine { execution, record, recorded_at, state, readings } => engine_derives(
            runs[i],
            execution,
            record,
            recorded_at,
            state,
            readings,
            runs[i + 1],
            answers[i],
        ),
    }
}

/// Live and replay derive the same stream: two projections that start blank
/// and are fed the same records give each record the same events, in the same
/// order and under the same ids.
pub proof fn law_live_and_replay_agree(
    feeds: Seq<Feed>,
    live: Seq<ProjectionModel>,
    live_answers: Seq<Seq<EventModel>>,
    replayed: Seq<ProjectionModel>,
    replayed_answers: Seq<Seq<EventModel>>,
)
    requires
        fed(feeds, live, live_answers),
        fed(feeds, replayed, replayed_answers),
        live[0] == blank_run(),
        replayed[0] == blank_run(),
    ensures
        live_answers == replayed_answers,
        live == replayed,
{
    assert forall|i: int| 0 <= i < live.len() implies #[trigger] live[i] == replayed[i] by {
        lemma_runs_agree(feeds, live, live_answers, replayed, replayed_answers, i);
    }
    assert forall|i: int| 0 <= i < feeds.len() implies #[trigger] live_answers[i]
        == replayed_answers[i] by {
        assert(answered(feeds, live, live_answers, i));
        assert(answered(feeds, replayed, replayed_answers, i));
        assert(live[i] == replayed[i]);
    }
    assert(live_answers =~= replayed_answers);
    assert(live =~= replayed);
}

proof fn lemma_runs_agree(
    feeds: Seq<Feed>,
    live: Seq<ProjectionModel>,
    live_answers: Seq<Seq<EventModel>>,
    replayed: Seq<ProjectionModel>,
    replayed_answers: Seq<Seq<EventModel>>,
    i: int,
)
    requires
        fed(feeds, live, live_answers),
        fed(feeds, replayed, replayed_answers),
        live[0] == replayed[0],
        0 <= i <= feeds.len(),
    ensures
        live[i] == replayed[i],
    decreases i,
{
    if i > 0 {
        lemma_runs_agree(feeds, live, live_answers, replayed, replayed_answers, i - 1);
        assert(answered(feeds, live, live_answers, i - 1));
        assert(answered(feeds, replayed, replayed_answers, i - 1));
    }
}

// ── The view events of a record ────────────────────────────────────────

/// The view event an event is.
pub open spec fn view_of(event: EventModel) -> ViewModel {
    match event.derived {
        Some(DerivedModel::View(view)) => view,
        _ => ViewModel::RunStalled { stall_timeout_ms: 0, idle_ms: 0 },
    }
}

/// The view events among a record's events, each with its subject.
pub open spec fn views_in(events: Seq<EventModel>) -> Views {
    Seq::new(
        (events.len() - 1) as nat,
        |i: int| (events[i + 1].subject, view_of(events[i + 1])),
    )
}

/// Every record of a series is one of an execution's.
pub open spec fn of_one(series: Seq<PublishedModel>, execution: ExecutionId) -> bool {
    forall|i: int| 0 <= i < series.len() ==> (#[trigger] series[i]).execution == execution
}

proof fn lemma_link(
    series: Seq<PublishedModel>,
    runs: Seq<ProjectionModel>,
    chunks: Seq<Seq<EventModel>>,
    execution: ExecutionId,
    i: int,
)
    requires
        derived_through(series, runs, chunks),
        of_one(series, execution),
        0 <= i < series.len(),
    ensures
        engine_derives(
            runs[i],
            execution,
            series[i].record,
            series[i].recorded_at,
            series[i].state,
            series[i].readings,
            runs[i + 1],
            chunks[i],
        ),
        ({
            let event = event_of(series[i].record);
            let state = series[i].state;
            let track = refreshed(track_of(runs[i], execution), state);
            let step = own_step(track, execution, event, state, series[i].readings);
            let rest = aftermath(step.track, execution, event, state);
            &&& views_in(chunks[i]) == step.views + rest.1
            &&& track_of(runs[i + 1], execution) == rest.0
        }),
{
    assert(series[i].execution == execution);
    assert(engine_derives(
        runs[i],
        series[i].execution,
        series[i].record,
        series[i].recorded_at,
        series[i].state,
        series[i].readings,
        runs[i + 1],
        chunks[i],
    ));
    let event = event_of(series[i].record);
    let state = series[i].state;
    let track = refreshed(track_of(runs[i], execution), state);
    let step = own_step(track, execution, event, state, series[i].readings);
    let rest = aftermath(step.track, execution, event, state);
    assert(views_in(chunks[i]) =~= step.views + rest.1);
}

// ── Forks ──────────────────────────────────────────────────────────────

/// The occurrence a view event completes.
pub open spec fn completes(view: (Option<Subject>, ViewModel)) -> Option<ForkOccurrence> {
    match view.1 {
        ViewModel::ForkCompleted { occurrence, fork, results, disposition } => Some(occurrence),
        _ => None,
    }
}

/// The occurrences view events complete, in order, as far as they are wanted.
pub open spec fn closed_forks(views: Views, keep: spec_fn(ForkOccurrence) -> bool) -> Seq<ForkOccurrence>
    decreases views.len(),
{
    if views.len() == 0 {
        Seq::empty()
    } else {
        let before = closed_forks(views.drop_last(), keep);
        match completes(views.last()) {
            Some(occurrence) => if keep(occurrence) {
                before.push(occurrence)
            } else {
                before
            },
            None => before,
        }
    }
}

proof fn lemma_closed_together(a: Views, b: Views, keep: spec_fn(ForkOccurrence) -> bool)
    ensures
        closed_forks(a + b, keep) == closed_forks(a, keep) + closed_forks(b, keep),
    decreases b.len(),
{
    if b.len() == 0 {
        assert(a + b =~= a);
        assert(closed_forks(a, keep) + closed_forks(b, keep) =~= closed_forks(a, keep));
    } else {
        lemma_closed_together(a, b.drop_last(), keep);
        assert((a + b).drop_last() =~= a + b.drop_last());
        assert((a + b).last() == b.last());
        if completes(b.last()) is Some && keep(completes(b.last())->0) {
            let occurrence = completes(b.last())->0;
            assert(closed_forks(a, keep) + closed_forks(b.drop_last(), keep).push(occurrence) =~= (closed_forks(
                a,
            keep,
        ) + closed_forks(b.drop_last(), keep)).push(occurrence));
        }
    }
}

proof fn lemma_closes_none(views: Views, keep: spec_fn(ForkOccurrence) -> bool)
    requires
        forall|i: int| 0 <= i < views.len() ==> completes(#[trigger] views[i]) is None,
    ensures
        closed_forks(views, keep) == Seq::<ForkOccurrence>::empty(),
    decreases views.len(),
{
    if views.len() > 0 {
        let rest = views.drop_last();
        assert forall|i: int| 0 <= i < rest.len() implies completes(#[trigger] rest[i]) is None by {
            assert(rest[i] == views[i]);
        }
        lemma_closes_none(rest, keep);
        assert(completes(views[views.len() - 1]) is None);
    }
}

/// A fork's completion is at the place of the completions before it.
proof fn lemma_closed_place(views: Views, at: int, keep: spec_fn(ForkOccurrence) -> bool)
    requires
        0 <= at < views.len(),
        completes(views[at]) is Some,
        keep(completes(views[at])->0),
    ensures
        closed_forks(views.take(at), keep).len() < closed_forks(views, keep).len(),
        closed_forks(views, keep)[closed_forks(views.take(at), keep).len() as int] == completes(views[at])->0,
    decreases views.len(),
{
    if at == views.len() - 1 {
        assert(views.take(at) =~= views.drop_last());
    } else {
        let rest = views.drop_last();
        lemma_closed_place(rest, at, keep);
        assert(rest.take(at) =~= views.take(at));
    }
}

proof fn lemma_closed_order(views: Views, a: int, b: int, keep: spec_fn(ForkOccurrence) -> bool)
    requires
        0 <= a < b <= views.len(),
        completes(views[a]) is Some,
        keep(completes(views[a])->0),
    ensures
        closed_forks(views.take(a), keep).len() < closed_forks(views.take(b), keep).len(),
    decreases b,
{
    assert(views.take(b).drop_last() =~= views.take(b - 1));
    assert(views.take(b).last() == views[b - 1]);
    if a < b - 1 {
        lemma_closed_order(views, a, b - 1, keep);
    }
}

proof fn lemma_branches_close_none(
    map: BranchModel,
    state: EngineState,
    occurrence: ForkOccurrence,
    results: Seq<BranchResult>,
    keep: spec_fn(ForkOccurrence) -> bool,
)
    ensures
        closed_forks(branches_completed(map, state, occurrence, results), keep) == Seq::<
            ForkOccurrence,
        >::empty(),
        branches_completed(map, state, occurrence, results).len() == results.len(),
        forall|k: int|
            0 <= k < results.len() ==> (#[trigger] branches_completed(
                map,
                state,
                occurrence,
                results,
            )[k]).1 == (ViewModel::BranchCompleted { occurrence, result: results[k] }),
    decreases results.len(),
{
    if results.len() > 0 {
        let rest = results.drop_last();
        lemma_branches_close_none(map, state, occurrence, rest, keep);
        let before = branches_completed(map, state, occurrence, rest);
        let all = branches_completed(map, state, occurrence, results);
        assert(all.drop_last() =~= before);
        assert forall|k: int| 0 <= k < results.len() implies (#[trigger] all[k]).1 == (
        ViewModel::BranchCompleted { occurrence, result: results[k] }) by {
            if k < rest.len() {
                assert(all[k] == before[k]);
                assert(rest[k] == results[k]);
            }
        }
    }
}

proof fn lemma_closing_closes(
    map: BranchModel,
    state: EngineState,
    subject: Subject,
    occurrence: ForkOccurrence,
    results: Seq<BranchResult>,
    disposition: ForkDisposition,
    keep: spec_fn(ForkOccurrence) -> bool,
)
    ensures
        closed_forks(closing(map, state, subject, occurrence, results, disposition), keep) == (
        if target_node(state, occurrence.fork) is Some && keep(occurrence) {
            seq![occurrence]
        } else {
            Seq::empty()
        }),
{
    lemma_branches_close_none(map, state, occurrence, results, keep);
    let completed = branches_completed(map, state, occurrence, results);
    let all = closing(map, state, subject, occurrence, results, disposition);
    if target_node(state, occurrence.fork) is Some {
        assert(all.drop_last() =~= completed);
        if keep(occurrence) {
            assert(closed_forks(all, keep) =~= seq![occurrence]);
        }
    }
}

/// Whether an occurrence is that of an open fork.
pub open spec fn among_open(open: Seq<OpenModel>, occurrence: ForkOccurrence) -> bool {
    exists|k: int| 0 <= k < open.len() && (#[trigger] open[k]).occurrence == occurrence
}

/// Whether closing these occurrences takes the open forks from `before` to
/// `after`: each was open, none is open after, none is closed twice, and
/// nothing is opened.
pub open spec fn closes(
    before: Seq<OpenModel>,
    after: Seq<OpenModel>,
    closed: Seq<ForkOccurrence>,
) -> bool {
    &&& forall|i: int|
        0 <= i < closed.len() ==> among_open(before, #[trigger] closed[i])
    &&& forall|i: int, k: int|
        0 <= i < closed.len() && 0 <= k < after.len() ==> (#[trigger] after[k]).occurrence.firing
            != (#[trigger] closed[i]).firing
    &&& forall|i: int, j: int|
        0 <= i < j < closed.len() ==> (#[trigger] closed[i]).firing != (#[trigger] closed[j]).firing
    &&& forall|k: int| 0 <= k < after.len() ==> before.contains(#[trigger] after[k])
}

proof fn lemma_closes_nothing(open: Seq<OpenModel>)
    ensures
        closes(open, open, Seq::empty()),
{
    assert forall|k: int| 0 <= k < open.len() implies open.contains(#[trigger] open[k]) by {}
}

proof fn lemma_closes_one(track: TrackModel, at: int, told: bool)
    requires
        sound(track),
        0 <= at < track.open.len(),
    ensures
        closes(
            track.open,
            track.open.remove(at),
            if told {
                seq![track.open[at].occurrence]
            } else {
                Seq::empty()
            },
        ),
{
    let open = track.open;
    let after = open.remove(at);
    assert forall|k: int| 0 <= k < after.len() implies open.contains(#[trigger] after[k])
        && after[k].occurrence.firing != open[at].occurrence.firing by {
        let n = if k < at { k } else { k + 1 };
        assert(after[k] == open[n]);
        if n < at {
            assert(open[n].occurrence.firing.0 < open[at].occurrence.firing.0);
        } else {
            assert(open[at].occurrence.firing.0 < open[n].occurrence.firing.0);
        }
    }
    if told {
        assert(open[at].occurrence == seq![open[at].occurrence][0]);
    }
}

proof fn lemma_closes_then(
    first: Seq<OpenModel>,
    middle: Seq<OpenModel>,
    last: Seq<OpenModel>,
    a: Seq<ForkOccurrence>,
    b: Seq<ForkOccurrence>,
)
    requires
        closes(first, middle, a),
        closes(middle, last, b),
    ensures
        closes(first, last, a + b),
{
    let all = a + b;
    assert forall|k: int| 0 <= k < last.len() implies first.contains(#[trigger] last[k]) by {
        assert(middle.contains(last[k]));
        let n = choose|n: int| 0 <= n < middle.len() && middle[n] == last[k];
        assert(first.contains(middle[n]));
    }
    assert forall|i: int| 0 <= i < all.len() implies among_open(first, #[trigger] all[i]) by {
        if i < a.len() {
            assert(all[i] == a[i]);
        } else {
            assert(all[i] == b[i - a.len()]);
            assert(among_open(middle, b[i - a.len()]));
            let k = choose|k: int|
                0 <= k < middle.len() && (#[trigger] middle[k]).occurrence == b[i - a.len()];
            assert(first.contains(middle[k]));
            let n = choose|n: int| 0 <= n < first.len() && first[n] == middle[k];
            assert(first[n].occurrence == all[i]);
        }
    }
    assert forall|i: int, k: int| 0 <= i < all.len() && 0 <= k < last.len() implies (
    #[trigger] last[k]).occurrence.firing != (#[trigger] all[i]).firing by {
        if i < a.len() {
            assert(all[i] == a[i]);
            assert(middle.contains(last[k]));
            let n = choose|n: int| 0 <= n < middle.len() && middle[n] == last[k];
            assert(middle[n].occurrence.firing != a[i].firing);
        } else {
            assert(all[i] == b[i - a.len()]);
        }
    }
    assert forall|i: int, j: int| 0 <= i < j < all.len() implies (#[trigger] all[i]).firing != (
    #[trigger] all[j]).firing by {
        if j < a.len() {
            assert(all[i] == a[i] && all[j] == a[j]);
        } else {
            assert(all[j] == b[j - a.len()]);
            if i >= a.len() {
                assert(all[i] == b[i - a.len()]);
            } else {
                assert(all[i] == a[i]);
                assert(among_open(middle, b[j - a.len()]));
                let k = choose|k: int|
                    0 <= k < middle.len() && (#[trigger] middle[k]).occurrence == b[j - a.len()];
                assert(middle[k].occurrence.firing != a[i].firing);
            }
        }
    }
}

/// The occurrence a join names by its fork's own record when it is seen for
/// the first time and its fork is not open. Nothing when no completion is
/// told of it.
pub open spec fn join_recovers(
    track: TrackModel,
    execution: ExecutionId,
    state: EngineState,
    seen: LiveFiring,
) -> Option<ForkOccurrence> {
    if track.firings.contains(seen.id.0) {
        None
    } else {
        match subject_of(track.branches, state, seen.id) {
            Some(about) => match about.branch {
                BranchRole::Join { fork } => if take_open(
                    track.open,
                    fork,
                    about.generation,
                ).0 is Some {
                    None
                } else {
                    match recovered_occurrence(
                        track.branches,
                        state,
                        execution,
                        fork,
                        about.generation,
                    ) {
                        Some(occurrence) => if target_node(state, occurrence.fork) is Some {
                            Some(occurrence)
                        } else {
                            None
                        },
                        None => None,
                    }
                },
                _ => None,
            },
            None => None,
        }
    }
}

/// Whether a live firing, when it is a join seen for the first time, finds
/// its fork open, or names by the fork's record one that is not wanted.
pub open spec fn join_finds_fork(
    track: TrackModel,
    execution: ExecutionId,
    state: EngineState,
    seen: LiveFiring,
    keep: spec_fn(ForkOccurrence) -> bool,
) -> bool {
    join_recovers(track, execution, state, seen) matches Some(occurrence) ==> !keep(occurrence)
}

/// Whether every join first seen among these finds its fork open, or names one
/// that is not wanted.
pub open spec fn joins_find_forks(
    track: TrackModel,
    execution: ExecutionId,
    state: EngineState,
    live: Seq<LiveFiring>,
    keep: spec_fn(ForkOccurrence) -> bool,
) -> bool
    decreases live.len(),
{
    live.len() > 0 ==> {
        &&& joins_find_forks(track, execution, state, live.drop_last(), keep)
        &&& join_finds_fork(
            visits_seen(track, execution, state, live.drop_last()).0,
            execution,
            state,
            live.last(),
            keep,
        )
    }
}

proof fn lemma_place_in(open: Seq<OpenModel>, fork: NodeId, generation: Generation)
    ensures
        0 <= place_covering(open, fork, generation) <= open.len(),
    decreases open.len(),
{
    if open.len() > 0 {
        lemma_place_in(open.drop_first(), fork, generation);
    }
}

proof fn lemma_opened_in(open: Seq<OpenModel>, firing: FiringId)
    ensures
        0 <= place_opened(open, firing) <= open.len(),
    decreases open.len(),
{
    if open.len() > 0 {
        lemma_opened_in(open.drop_first(), firing);
    }
}

proof fn lemma_seen_closes(
    track: TrackModel,
    execution: ExecutionId,
    state: EngineState,
    live: Seq<LiveFiring>,
    keep: spec_fn(ForkOccurrence) -> bool,
)
    requires
        sound(track),
        joins_find_forks(track, execution, state, live, keep),
    ensures
        ({
            let seen = visits_seen(track, execution, state, live);
            &&& sound(seen.0)
            &&& seen.0.announced == track.announced
            &&& closes(track.open, seen.0.open, closed_forks(seen.1, keep))
        }),
    decreases live.len(),
{
    if live.len() == 0 {
        lemma_closes_nothing(track.open);
    } else {
        let rest = live.drop_last();
        lemma_seen_closes(track, execution, state, rest, keep);
        let before = visits_seen(track, execution, state, rest);
        let firing = live.last();
        let last = visit_seen(before.0, execution, state, firing);
        lemma_closed_together(before.1, last.1, keep);
        assert(sound(last.0) && closes(before.0.open, last.0.open, closed_forks(last.1, keep))) by {
            lemma_visit_closes(before.0, execution, state, firing, keep);
        }
        lemma_closes_then(
            track.open,
            before.0.open,
            last.0.open,
            closed_forks(before.1, keep),
            closed_forks(last.1, keep),
        );
    }
}

proof fn lemma_visit_closes(
    track: TrackModel,
    execution: ExecutionId,
    state: EngineState,
    seen: LiveFiring,
    keep: spec_fn(ForkOccurrence) -> bool,
)
    requires
        sound(track),
        join_finds_fork(track, execution, state, seen, keep),
    ensures
        ({
            let last = visit_seen(track, execution, state, seen);
            &&& sound(last.0)
            &&& last.0.announced == track.announced
            &&& closes(track.open, last.0.open, closed_forks(last.1, keep))
        }),
{
    let last = visit_seen(track, execution, state, seen);
    lemma_closes_nothing(track.open);
    if !track.firings.contains(seen.id.0) {
        let map = track.branches;
        let subject = subject_of(map, state, seen.id);
        let inputs = state.spec_firing(seen.id)->0.inputs;
        let starting: Views = seq![
            (subject, ViewModel::VisitStarted { inputs }),
            (subject, ViewModel::WaitStateChanged { state: WaitState::AwaitingAdmission }),
        ];
        lemma_closes_none(starting, keep);
        if let Some(about) = subject {
            if let BranchRole::Join { fork } = about.branch {
                let taken = take_open(track.open, fork, about.generation);
                if let Some(open) = taken.0 {
                    let generation = about.generation->0;
                    lemma_place_in(track.open, fork, generation);
                    let at = place_covering(track.open, fork, generation);
                    let results = branch_results(map, state, fork, inputs@);
                    let told = closing(
                        map,
                        state,
                        about,
                        open.occurrence,
                        results,
                        ForkDisposition::Joined,
                    );
                    lemma_closing_closes(
                        map,
                        state,
                        about,
                        open.occurrence,
                        results,
                        ForkDisposition::Joined,
            keep,
        );
                    lemma_closed_together(told, starting, keep);
                    assert(closed_forks(told, keep) + Seq::<ForkOccurrence>::empty() =~= closed_forks(
                        told,
            keep,
        ));
                    lemma_closes_one(
                        track,
                        at,
                        target_node(state, open.occurrence.fork) is Some && keep(open.occurrence),
                    );
                    lemma_removed_sound(track, at);
                } else if let Some(occurrence) = recovered_occurrence(
                    map,
                    state,
                    execution,
                    fork,
                    about.generation,
                ) {
                    let results = branch_results(map, state, fork, inputs@);
                    let told = closing(
                        map,
                        state,
                        about,
                        occurrence,
                        results,
                        ForkDisposition::Joined,
                    );
                    lemma_closing_closes(
                        map,
                        state,
                        about,
                        occurrence,
                        results,
                        ForkDisposition::Joined,
                        keep,
                    );
                    lemma_closed_together(told, starting, keep);
                    assert(last.1 == told + starting);
                    assert(closed_forks(last.1, keep) =~= Seq::empty());
                } else {
                    assert(last.1 == starting);
                }
            }
        }
    } else {
        lemma_closes_none(last.1, keep);
    }
}

proof fn lemma_completed_closes(track: TrackModel, state: EngineState, entries: Seq<HistoryEntry>, keep: spec_fn(ForkOccurrence) -> bool)
    requires
        sound(track),
    ensures
        ({
            let read = visits_completed(track, state, entries);
            &&& sound(read.0)
            &&& read.0.announced == track.announced
            &&& closes(track.open, read.0.open, closed_forks(read.1, keep))
        }),
    decreases entries.len(),
{
    if entries.len() == 0 {
        lemma_closes_nothing(track.open);
    } else {
        let rest = entries.drop_last();
        lemma_completed_closes(track, state, rest, keep);
        let before = visits_completed(track, state, rest);
        let last = visit_completed(before.0, state, entries.last());
        lemma_closed_together(before.1, last.1, keep);
        lemma_entry_closes(before.0, state, entries.last(), keep);
        lemma_closes_then(
            track.open,
            before.0.open,
            last.0.open,
            closed_forks(before.1, keep),
            closed_forks(last.1, keep),
        );
    }
}

proof fn lemma_entry_closes(track: TrackModel, state: EngineState, entry: HistoryEntry, keep: spec_fn(ForkOccurrence) -> bool)
    requires
        sound(track),
    ensures
        ({
            let last = visit_completed(track, state, entry);
            &&& sound(last.0)
            &&& last.0.announced == track.announced
            &&& closes(track.open, last.0.open, closed_forks(last.1, keep))
        }),
{
    let map = track.branches;
    let last = visit_completed(track, state, entry);
    let ended = seq![last.1.last()];
    lemma_closes_nothing(track.open);
    if let Some(node) = state.graph.spec_node(entry.node) {
        if let BranchRole::Join { fork } = map.spec_role(node.id) {
            let taken = take_open(track.open, fork, Some(entry.generation));
            if !track.firings.contains(entry.firing.0) && taken.0 is Some {
                let open = taken.0->0;
                let about = last.1.last().0->0;
                lemma_place_in(track.open, fork, entry.generation);
                let at = place_covering(track.open, fork, entry.generation);
                let results = member_results(map, state, open);
                let disposition = if entry.outcome.status.cancelled {
                    ForkDisposition::Cancelled
                } else {
                    ForkDisposition::Joined
                };
                let told = closing(map, state, about, open.occurrence, results, disposition);
                assert(last.1 =~= told + ended);
                lemma_closing_closes(map, state, about, open.occurrence, results, disposition, keep);
                lemma_closes_none(ended, keep);
                lemma_closed_together(told, ended, keep);
                assert(closed_forks(told, keep) + Seq::<ForkOccurrence>::empty() =~= closed_forks(told, keep));
                lemma_closes_one(track, at, target_node(state, open.occurrence.fork) is Some && keep(open.occurrence));
                lemma_removed_sound(track, at);
            } else {
                lemma_closes_none(last.1, keep);
            }
        } else {
            lemma_closes_none(last.1, keep);
        }
    } else {
        lemma_closes_none(last.1, keep);
    }
}

proof fn lemma_killed_closes(track: TrackModel, state: EngineState, firings: Seq<FiringId>, keep: spec_fn(ForkOccurrence) -> bool)
    requires
        sound(track),
    ensures
        ({
            let dead = all_killed_closed(track, state, firings);
            &&& sound(dead.0)
            &&& dead.0.announced == track.announced
            &&& closes(track.open, dead.0.open, closed_forks(dead.1, keep))
        }),
    decreases firings.len(),
{
    if firings.len() == 0 {
        lemma_closes_nothing(track.open);
    } else {
        let rest = firings.drop_last();
        lemma_killed_closes(track, state, rest, keep);
        let before = all_killed_closed(track, state, rest);
        let firing = firings.last();
        let last = killed_closed(before.0, state, firing);
        lemma_closed_together(before.1, last.1, keep);
        lemma_closes_nothing(before.0.open);
        lemma_opened_in(before.0.open, firing);
        let at = place_opened(before.0.open, firing);
        if at < before.0.open.len() {
            let open = before.0.open[at];
            lemma_removed_sound(before.0, at);
            if let Some(subject) = subject_of(before.0.branches, state, firing) {
                lemma_closing_closes(
                    before.0.branches,
                    state,
                    subject,
                    open.occurrence,
                    member_results(before.0.branches, state, open),
                    ForkDisposition::Killed,
            keep,
        );
                lemma_closes_one(
                    before.0,
                    at,
                    target_node(state, open.occurrence.fork) is Some && keep(open.occurrence),
                );
            } else {
                lemma_closes_one(before.0, at, false);
            }
        }
        lemma_closes_then(
            track.open,
            before.0.open,
            last.0.open,
            closed_forks(before.1, keep),
            closed_forks(last.1, keep),
        );
    }
}

proof fn lemma_cancelling_closes_none(map: BranchModel, state: EngineState, live: Seq<LiveFiring>, keep: spec_fn(ForkOccurrence) -> bool)
    ensures
        closed_forks(cancelling(map, state, live), keep) == Seq::<ForkOccurrence>::empty(),
    decreases live.len(),
{
    if live.len() > 0 {
        lemma_cancelling_closes_none(map, state, live.drop_last(), keep);
        let before = cancelling(map, state, live.drop_last());
        let all = cancelling(map, state, live);
        if live.last().cancelling {
            assert(all.drop_last() =~= before);
        }
    }
}

proof fn lemma_aftermath_closes(
    track: TrackModel,
    execution: ExecutionId,
    event: Event,
    state: EngineState,
    keep: spec_fn(ForkOccurrence) -> bool,
)
    requires
        sound(track),
        joins_find_forks(track, execution, state, state.live@, keep),
    ensures
        ({
            let rest = aftermath(track, execution, event, state);
            &&& sound(rest.0)
            &&& rest.0.announced == track.announced
            &&& closes(track.open, rest.0.open, closed_forks(rest.1, keep))
        }),
{
    let seen = visits_seen(track, execution, state, state.live@);
    lemma_seen_closes(track, execution, state, state.live@, keep);
    let marked = marked_cancelling(seen.0.branches, event, state);
    lemma_cancelling_closes_none(seen.0.branches, state, state.live@, keep);
    lemma_closes_nothing(seen.0.open);
    let read = completions(seen.0, state);
    if state.history@.len() > seen.0.history {
        lemma_completed_closes(
            seen.0,
            state,
            state.history@.subrange(seen.0.history as int, state.history@.len() as int),
            keep,
        );
    } else {
        lemma_closes_none(read.1, keep);
    }
    let firings = dead_firings(read.0.branches, state, read.0.open);
    lemma_killed_closes(read.0, state, firings, keep);
    let dead = all_killed_closed(read.0, state, firings);
    lemma_closed_together(seen.1, marked, keep);
    lemma_closed_together(seen.1 + marked, read.1, keep);
    lemma_closed_together(seen.1 + marked + read.1, dead.1, keep);
    assert(closed_forks(seen.1, keep) + Seq::<ForkOccurrence>::empty() =~= closed_forks(seen.1, keep));
    assert(closed_forks(marked, keep) =~= Seq::<ForkOccurrence>::empty());
    lemma_closes_then(
        track.open,
        seen.0.open,
        read.0.open,
        closed_forks(seen.1, keep),
        closed_forks(read.1, keep),
    );
    lemma_closes_then(
        track.open,
        read.0.open,
        dead.0.open,
        closed_forks(seen.1, keep) + closed_forks(read.1, keep),
        closed_forks(dead.1, keep),
    );
}

/// A record's own view events complete no fork, and open at most one that was
/// not announced before.
proof fn lemma_own_step(
    track: TrackModel,
    execution: ExecutionId,
    event: Event,
    state: EngineState,
    readings: Readings,
    keep: spec_fn(ForkOccurrence) -> bool,
)
    requires
        sound(track),
    ensures
        ({
            let step = own_step(track, execution, event, state, readings);
            &&& sound(step.track)
            &&& closed_forks(step.views, keep) == Seq::<ForkOccurrence>::empty()
            &&& track.announced.subset_of(step.track.announced)
            &&& forall|k: int|
                0 <= k < step.track.open.len() ==> track.open.contains(
                    #[trigger] step.track.open[k],
                ) || !track.announced.contains(step.track.open[k].occurrence.firing.0)
        }),
{
    let step = own_step(track, execution, event, state, readings);
    lemma_step_sound(track, execution, event, state, readings, step);
    assert forall|i: int| 0 <= i < step.views.len() implies completes(
        #[trigger] step.views[i],
    ) is None by {}
    lemma_closes_none(step.views, keep);
    lemma_closes_nothing(track.open);
    if let Event::RouteApplied { applied } = event {
        lemma_step_opens(track, step);
    } else if let Event::NodeExpanded { node, splice } = event {
        lemma_step_opens(track, step);
    }
}

proof fn lemma_step_opens(track: TrackModel, step: Step)
    requires
        step.track.open == track.open || exists|fork: OpenModel|
            step.track.open == #[trigger] with_open(track.open, fork) && !track.announced.contains(
                fork.occurrence.firing.0,
            ),
    ensures
        forall|k: int|
            0 <= k < step.track.open.len() ==> track.open.contains(#[trigger] step.track.open[k])
                || !track.announced.contains(step.track.open[k].occurrence.firing.0),
{
    if step.track.open == track.open {
        lemma_closes_nothing(track.open);
    } else {
        let fork = choose|fork: OpenModel|
            step.track.open == #[trigger] with_open(track.open, fork) && !track.announced.contains(
                fork.occurrence.firing.0,
            );
        lemma_with_open_members(track.open, fork);
    }
}

/// The occurrences joins first seen among these name by their forks' own
/// records, in order.
pub open spec fn recovered_with(
    track: TrackModel,
    execution: ExecutionId,
    state: EngineState,
    live: Seq<LiveFiring>,
) -> Seq<ForkOccurrence>
    decreases live.len(),
{
    if live.len() == 0 {
        Seq::empty()
    } else {
        let before = recovered_with(track, execution, state, live.drop_last());
        match join_recovers(
            visits_seen(track, execution, state, live.drop_last()).0,
            execution,
            state,
            live.last(),
        ) {
            Some(occurrence) => before.push(occurrence),
            None => before,
        }
    }
}

/// The track a record's own derivation leaves.
pub open spec fn own_track(run: ProjectionModel, fed: PublishedModel) -> TrackModel {
    own_step(
        refreshed(track_of(run, fed.execution), fed.state),
        fed.execution,
        event_of(fed.record),
        fed.state,
        fed.readings,
    ).track
}

/// The occurrences a record completes by their forks' own records, in order:
/// those whose join is first seen when the fork is not open.
pub open spec fn recovered_at(run: ProjectionModel, fed: PublishedModel) -> Seq<ForkOccurrence> {
    recovered_with(own_track(run, fed), fed.execution, fed.state, fed.state.live@)
}

/// Whether the forks a series completes by their own records are told of in
/// no other way: none is announced in the series, and none is named twice.
pub open spec fn recovers_once(series: Seq<PublishedModel>, runs: Seq<ProjectionModel>) -> bool {
    &&& forall|i: int, a: int|
        0 <= i < series.len() && 0 <= a < recovered_at(runs[i], series[i]).len()
            ==> !track_of(runs.last(), series[i].execution).announced.contains(
            (#[trigger] recovered_at(runs[i], series[i])[a]).firing.0,
        )
    &&& forall|i: int, a: int, j: int, b: int|
        0 <= i < series.len() && 0 <= j < series.len() && 0 <= a < recovered_at(
            runs[i],
            series[i],
        ).len() && 0 <= b < recovered_at(runs[j], series[j]).len() && (#[trigger] recovered_at(
            runs[i],
            series[i],
        )[a]).firing == (#[trigger] recovered_at(runs[j], series[j])[b]).firing ==> i == j && a
            == b
}

/// Occurrences whose fork's firing is among these.
pub open spec fn among(firings: Set<u64>) -> spec_fn(ForkOccurrence) -> bool {
    |occurrence: ForkOccurrence| firings.contains(occurrence.firing.0)
}

/// Occurrences whose fork's firing is not among these.
pub open spec fn outside(firings: Set<u64>) -> spec_fn(ForkOccurrence) -> bool {
    |occurrence: ForkOccurrence| !firings.contains(occurrence.firing.0)
}

proof fn lemma_finds_forks(
    track: TrackModel,
    execution: ExecutionId,
    state: EngineState,
    live: Seq<LiveFiring>,
    keep: spec_fn(ForkOccurrence) -> bool,
)
    requires
        forall|a: int|
            0 <= a < recovered_with(track, execution, state, live).len() ==> !keep(
                #[trigger] recovered_with(track, execution, state, live)[a],
            ),
    ensures
        joins_find_forks(track, execution, state, live, keep),
    decreases live.len(),
{
    if live.len() > 0 {
        let before = recovered_with(track, execution, state, live.drop_last());
        let all = recovered_with(track, execution, state, live);
        assert forall|a: int| 0 <= a < before.len() implies !keep(#[trigger] before[a]) by {
            assert(all[a] == before[a]);
        }
        lemma_finds_forks(track, execution, state, live.drop_last(), keep);
        if all.len() > before.len() {
            assert(!keep(all[all.len() - 1]));
        }
    }
}

proof fn lemma_closed_kept(views: Views, keep: spec_fn(ForkOccurrence) -> bool)
    ensures
        forall|i: int|
            0 <= i < closed_forks(views, keep).len() ==> keep(
                #[trigger] closed_forks(views, keep)[i],
            ),
    decreases views.len(),
{
    if views.len() > 0 {
        lemma_closed_kept(views.drop_last(), keep);
        let before = closed_forks(views.drop_last(), keep);
        let all = closed_forks(views, keep);
        assert forall|i: int| 0 <= i < all.len() implies keep(#[trigger] all[i]) by {
            if i < before.len() {
                assert(all[i] == before[i]);
            }
        }
    }
}

/// Nothing wanted is closed when nothing that is open is wanted.
proof fn lemma_unwanted_closes_none(
    before: Seq<OpenModel>,
    after: Seq<OpenModel>,
    views: Views,
    keep: spec_fn(ForkOccurrence) -> bool,
)
    requires
        closes(before, after, closed_forks(views, keep)),
        forall|k: int| 0 <= k < before.len() ==> !keep((#[trigger] before[k]).occurrence),
    ensures
        closed_forks(views, keep) == Seq::<ForkOccurrence>::empty(),
{
    let closed = closed_forks(views, keep);
    lemma_closed_kept(views, keep);
    if closed.len() > 0 {
        assert(keep(closed[0]));
        assert(among_open(before, closed[0]));
        let k = choose|k: int| 0 <= k < before.len() && (#[trigger] before[k]).occurrence
            == closed[0];
        assert(!keep(before[k].occurrence));
    }
    assert(closed =~= Seq::<ForkOccurrence>::empty());
}

proof fn lemma_seen_recovers(
    track: TrackModel,
    execution: ExecutionId,
    state: EngineState,
    live: Seq<LiveFiring>,
    firings: Set<u64>,
)
    requires
        sound(track),
        track.announced.subset_of(firings),
        forall|a: int|
            0 <= a < recovered_with(track, execution, state, live).len() ==> !firings.contains(
                (#[trigger] recovered_with(track, execution, state, live)[a]).firing.0,
            ),
    ensures
        ({
            let seen = visits_seen(track, execution, state, live);
            &&& closed_forks(seen.1, outside(firings)) == recovered_with(
                track,
                execution,
                state,
                live,
            )
            &&& sound(seen.0)
            &&& seen.0.announced == track.announced
        }),
    decreases live.len(),
{
    let keep = outside(firings);
    let all = recovered_with(track, execution, state, live);
    if live.len() > 0 {
        let rest = live.drop_last();
        let earlier = recovered_with(track, execution, state, rest);
        assert forall|a: int| 0 <= a < earlier.len() implies !firings.contains(
            (#[trigger] earlier[a]).firing.0,
        ) by {
            assert(all[a] == earlier[a]);
        }
        lemma_seen_recovers(track, execution, state, rest, firings);
        let before = visits_seen(track, execution, state, rest);
        let firing = live.last();
        let last = visit_seen(before.0, execution, state, firing);
        lemma_closed_together(before.1, last.1, keep);
        let told = join_recovers(before.0, execution, state, firing);
        if told is Some {
            assert(!firings.contains(all[all.len() - 1].firing.0));
        }
        lemma_visit_recovers(before.0, execution, state, firing, firings);
        assert(closed_forks(visits_seen(track, execution, state, live).1, keep) =~= all);
    }
}

proof fn lemma_visit_recovers(
    track: TrackModel,
    execution: ExecutionId,
    state: EngineState,
    seen: LiveFiring,
    firings: Set<u64>,
)
    requires
        sound(track),
        track.announced.subset_of(firings),
        join_recovers(track, execution, state, seen) matches Some(occurrence)
            ==> !firings.contains(occurrence.firing.0),
    ensures
        ({
            let last = visit_seen(track, execution, state, seen);
            &&& closed_forks(last.1, outside(firings)) == match join_recovers(
                track,
                execution,
                state,
                seen,
            ) {
                Some(occurrence) => seq![occurrence],
                None => Seq::empty(),
            }
            &&& sound(last.0)
            &&& last.0.announced == track.announced
        }),
{
    let keep = outside(firings);
    let last = visit_seen(track, execution, state, seen);
    lemma_visit_closes(track, execution, state, seen, |o: ForkOccurrence| false);
    match join_recovers(track, execution, state, seen) {
        Some(occurrence) => {
            let map = track.branches;
            let about = subject_of(map, state, seen.id)->0;
            let fork = about.branch->Join_fork;
            let inputs = state.spec_firing(seen.id)->0.inputs;
            let results = branch_results(map, state, fork, inputs@);
            let told = closing(
                map,
                state,
                about,
                occurrence,
                results,
                ForkDisposition::Joined,
            );
            let starting: Views = seq![
                (Some(about), ViewModel::VisitStarted { inputs }),
                (
                    Some(about),
                    ViewModel::WaitStateChanged { state: WaitState::AwaitingAdmission },
                ),
            ];
            lemma_closes_none(starting, keep);
            lemma_closing_closes(
                map,
                state,
                about,
                occurrence,
                results,
                ForkDisposition::Joined,
                keep,
            );
            lemma_closed_together(told, starting, keep);
            assert(last.1 =~= told + starting);
            assert(seq![occurrence] + Seq::<ForkOccurrence>::empty() =~= seq![occurrence]);
        },
        None => {
            lemma_visit_closes(track, execution, state, seen, keep);
            assert forall|k: int| 0 <= k < track.open.len() implies !keep(
                (#[trigger] track.open[k]).occurrence,
            ) by {
                assert(track.announced.contains(track.open[k].occurrence.firing.0));
            }
            lemma_unwanted_closes_none(track.open, last.0.open, last.1, keep);
        },
    }
}

/// Whether a fork's firing was announced and its fork is open no more.
pub open spec fn is_over(track: TrackModel, firing: FiringId) -> bool {
    &&& track.announced.contains(firing.0)
    &&& forall|k: int|
        0 <= k < track.open.len() ==> (#[trigger] track.open[k]).occurrence.firing != firing
}

proof fn lemma_record_closes(
    series: Seq<PublishedModel>,
    runs: Seq<ProjectionModel>,
    chunks: Seq<Seq<EventModel>>,
    execution: ExecutionId,
    i: int,
    keep: spec_fn(ForkOccurrence) -> bool,
)
    requires
        derived_through(series, runs, chunks),
        of_one(series, execution),
        recovers_once(series, runs),
        keep == among(track_of(runs.last(), execution).announced),
        0 <= i < series.len(),
        sound(track_of(runs[i], execution)),
    ensures
        sound(track_of(runs[i + 1], execution)),
        track_of(runs[i], execution).announced.subset_of(track_of(runs[i + 1], execution).announced),
        forall|a: int|
            0 <= a < closed_forks(views_in(chunks[i]), keep).len() ==> is_over(
                track_of(runs[i + 1], execution),
                (#[trigger] closed_forks(views_in(chunks[i]), keep)[a]).firing,
            ) && !is_over(
                track_of(runs[i], execution),
                closed_forks(views_in(chunks[i]), keep)[a].firing,
            ),
        forall|a: int, b: int|
            0 <= a < b < closed_forks(views_in(chunks[i]), keep).len() ==> (#[trigger] closed_forks(
                views_in(chunks[i]),
                keep,
            )[a]).firing != (#[trigger] closed_forks(views_in(chunks[i]), keep)[b]).firing,
        forall|firing: FiringId| #[trigger]
            is_over(track_of(runs[i], execution), firing) ==> is_over(
                track_of(runs[i + 1], execution),
                firing,
            ),
{
    lemma_link(series, runs, chunks, execution, i);
    assert(series[i].execution == execution);
    let event = event_of(series[i].record);
    let state = series[i].state;
    let before = track_of(runs[i], execution);
    let track = refreshed(before, state);
    let step = own_step(track, execution, event, state, series[i].readings);
    let rest = aftermath(step.track, execution, event, state);
    let after = rest.0;
    lemma_own_step(track, execution, event, state, series[i].readings, keep);
    let recovered = recovered_with(step.track, execution, state, state.live@);
    assert(recovered == recovered_at(runs[i], series[i]));
    assert forall|a: int| 0 <= a < recovered.len() implies !keep(#[trigger] recovered[a]) by {
        assert(!track_of(runs.last(), series[i].execution).announced.contains(
            recovered_at(runs[i], series[i])[a].firing.0,
        ));
    }
    lemma_finds_forks(step.track, execution, state, state.live@, keep);
    lemma_aftermath_closes(step.track, execution, event, state, keep);
    lemma_closed_together(step.views, rest.1, keep);
    let closed = closed_forks(views_in(chunks[i]), keep);
    assert(closed =~= closed_forks(rest.1, keep));
    assert forall|firing: FiringId| #[trigger] is_over(before, firing) implies is_over(
        after,
        firing,
    ) by {
        assert forall|k: int| 0 <= k < after.open.len() implies (
        #[trigger] after.open[k]).occurrence.firing != firing by {
            assert(step.track.open.contains(after.open[k]));
            let n = choose|n: int| 0 <= n < step.track.open.len() && step.track.open[n]
                == after.open[k];
            if before.open.contains(step.track.open[n]) {
                let m = choose|m: int| 0 <= m < before.open.len() && before.open[m]
                    == step.track.open[n];
                assert(before.open[m].occurrence.firing != firing);
            }
        }
    }
    assert forall|a: int| 0 <= a < closed.len() implies is_over(after, (#[trigger] closed[a]).firing)
        && !is_over(before, closed[a].firing) by {
        assert(among_open(step.track.open, closed[a]));
        let n = choose|n: int|
            0 <= n < step.track.open.len() && (#[trigger] step.track.open[n]).occurrence
                == closed[a];
        assert(step.track.announced.contains(step.track.open[n].occurrence.firing.0));
        if before.open.contains(step.track.open[n]) {
            let m = choose|m: int| 0 <= m < before.open.len() && before.open[m]
                == step.track.open[n];
            assert(before.open[m].occurrence.firing == closed[a].firing);
        }
    }
}

proof fn lemma_record_recovers(
    series: Seq<PublishedModel>,
    runs: Seq<ProjectionModel>,
    chunks: Seq<Seq<EventModel>>,
    execution: ExecutionId,
    i: int,
)
    requires
        derived_through(series, runs, chunks),
        of_one(series, execution),
        recovers_once(series, runs),
        0 <= i < series.len(),
        sound(track_of(runs[i], execution)),
    ensures
        closed_forks(
            views_in(chunks[i]),
            outside(track_of(runs.last(), execution).announced),
        ) == recovered_at(runs[i], series[i]),
{
    lemma_link(series, runs, chunks, execution, i);
    lemma_announced_grows(series, runs, chunks, execution, i + 1, series.len() as int);
    let firings = track_of(runs.last(), execution).announced;
    let keep = outside(firings);
    assert(series[i].execution == execution);
    let event = event_of(series[i].record);
    let state = series[i].state;
    let track = refreshed(track_of(runs[i], execution), state);
    let step = own_step(track, execution, event, state, series[i].readings);
    let rest = aftermath(step.track, execution, event, state);
    let nothing = |o: ForkOccurrence| false;
    lemma_own_step(track, execution, event, state, series[i].readings, keep);
    lemma_finds_forks(step.track, execution, state, state.live@, nothing);
    lemma_aftermath_closes(step.track, execution, event, state, nothing);
    assert(step.track.announced.subset_of(firings));
    let recovered = recovered_with(step.track, execution, state, state.live@);
    assert(recovered == recovered_at(runs[i], series[i]));
    assert forall|a: int| 0 <= a < recovered.len() implies !firings.contains(
        (#[trigger] recovered[a]).firing.0,
    ) by {
        assert(!track_of(runs.last(), series[i].execution).announced.contains(
            recovered_at(runs[i], series[i])[a].firing.0,
        ));
    }
    lemma_seen_recovers(step.track, execution, state, state.live@, firings);
    let seen = visits_seen(step.track, execution, state, state.live@);
    let marked = marked_cancelling(seen.0.branches, event, state);
    lemma_cancelling_closes_none(seen.0.branches, state, state.live@, keep);
    let read = completions(seen.0, state);
    assert forall|k: int| 0 <= k < seen.0.open.len() implies !keep(
        (#[trigger] seen.0.open[k]).occurrence,
    ) by {
        assert(seen.0.announced.contains(seen.0.open[k].occurrence.firing.0));
    }
    if state.history@.len() > seen.0.history {
        let entries = state.history@.subrange(seen.0.history as int, state.history@.len() as int);
        lemma_completed_closes(seen.0, state, entries, keep);
        lemma_unwanted_closes_none(seen.0.open, read.0.open, read.1, keep);
    } else {
        lemma_closes_none(read.1, keep);
    }
    let listed = dead_firings(read.0.branches, state, read.0.open);
    let dead = all_killed_closed(read.0, state, listed);
    assert forall|k: int| 0 <= k < read.0.open.len() implies !keep(
        (#[trigger] read.0.open[k]).occurrence,
    ) by {
        assert(read.0.announced.contains(read.0.open[k].occurrence.firing.0));
    }
    lemma_killed_closes(read.0, state, listed, keep);
    lemma_unwanted_closes_none(read.0.open, dead.0.open, dead.1, keep);
    lemma_closed_together(seen.1, marked, keep);
    lemma_closed_together(seen.1 + marked, read.1, keep);
    lemma_closed_together(seen.1 + marked + read.1, dead.1, keep);
    lemma_closed_together(step.views, rest.1, keep);
    assert(closed_forks(marked, keep) =~= Seq::<ForkOccurrence>::empty());
    assert(closed_forks(views_in(chunks[i]), keep) =~= closed_forks(seen.1, keep));
}

proof fn lemma_series_sound(
    series: Seq<PublishedModel>,
    runs: Seq<ProjectionModel>,
    chunks: Seq<Seq<EventModel>>,
    execution: ExecutionId,
    i: int,
)
    requires
        derived_through(series, runs, chunks),
        of_one(series, execution),
        sound(track_of(runs[0], execution)),
        0 <= i <= series.len(),
    ensures
        sound(track_of(runs[i], execution)),
    decreases i,
{
    if i > 0 {
        lemma_series_sound(series, runs, chunks, execution, i - 1);
        lemma_link(series, runs, chunks, execution, i - 1);
        law_open_forks(
            runs[i - 1],
            execution,
            series[i - 1].record,
            series[i - 1].recorded_at,
            series[i - 1].state,
            series[i - 1].readings,
            runs[i],
            chunks[i - 1],
        );
    }
}

proof fn lemma_over_stays(
    series: Seq<PublishedModel>,
    runs: Seq<ProjectionModel>,
    chunks: Seq<Seq<EventModel>>,
    execution: ExecutionId,
    firing: FiringId,
    i: int,
    j: int,
)
    requires
        derived_through(series, runs, chunks),
        of_one(series, execution),
        recovers_once(series, runs),
        sound(track_of(runs[0], execution)),
        0 <= i <= j <= series.len(),
        is_over(track_of(runs[i], execution), firing),
    ensures
        is_over(track_of(runs[j], execution), firing),
    decreases j - i,
{
    if i < j {
        lemma_over_stays(series, runs, chunks, execution, firing, i, j - 1);
        lemma_series_sound(series, runs, chunks, execution, j - 1);
        lemma_record_closes(
            series,
            runs,
            chunks,
            execution,
            j - 1,
            among(track_of(runs.last(), execution).announced),
        );
    }
}

proof fn lemma_announced_grows(
    series: Seq<PublishedModel>,
    runs: Seq<ProjectionModel>,
    chunks: Seq<Seq<EventModel>>,
    execution: ExecutionId,
    i: int,
    j: int,
)
    requires
        derived_through(series, runs, chunks),
        of_one(series, execution),
        0 <= i <= j <= series.len(),
    ensures
        track_of(runs[i], execution).announced.subset_of(track_of(runs[j], execution).announced),
    decreases j - i,
{
    if i < j {
        lemma_announced_grows(series, runs, chunks, execution, i, j - 1);
        lemma_link(series, runs, chunks, execution, j - 1);
        law_fork_announced_once(
            runs[j - 1],
            execution,
            series[j - 1].record,
            series[j - 1].recorded_at,
            series[j - 1].state,
            series[j - 1].readings,
            runs[j],
            chunks[j - 1],
        );
    }
}

/// Over all the records of an execution, at most one `fork.started` names a
/// given fork firing.
pub proof fn law_a_fork_starts_once(
    series: Seq<PublishedModel>,
    runs: Seq<ProjectionModel>,
    chunks: Seq<Seq<EventModel>>,
    execution: ExecutionId,
    i: int,
    a: int,
    j: int,
    b: int,
)
    requires
        derived_through(series, runs, chunks),
        of_one(series, execution),
        0 <= i < series.len(),
        0 <= j < series.len(),
        0 <= a < chunks[i].len(),
        0 <= b < chunks[j].len(),
        fork_started(chunks[i][a]) matches Some(first) && fork_started(chunks[j][b]) matches Some(
            second,
        ) && first.firing == second.firing,
    ensures
        i == j,
        a == b,
{
    let (low, high) = if i <= j {
        (i, j)
    } else {
        (j, i)
    };
    lemma_link(series, runs, chunks, execution, low);
    law_fork_announced_once(
        runs[low],
        execution,
        series[low].record,
        series[low].recorded_at,
        series[low].state,
        series[low].readings,
        runs[low + 1],
        chunks[low],
    );
    lemma_link(series, runs, chunks, execution, high);
    law_fork_announced_once(
        runs[high],
        execution,
        series[high].record,
        series[high].recorded_at,
        series[high].state,
        series[high].readings,
        runs[high + 1],
        chunks[high],
    );
    if low < high {
        lemma_announced_grows(series, runs, chunks, execution, low + 1, high);
    }
}

/// Over all the records of an execution, at most one `fork.completed` names a
/// given occurrence. Left out are series in which a fork is completed by its
/// own record, because its join is first seen when the fork is not open, and
/// is announced or completed so again as well.
pub proof fn law_a_fork_completes_once(
    series: Seq<PublishedModel>,
    runs: Seq<ProjectionModel>,
    chunks: Seq<Seq<EventModel>>,
    execution: ExecutionId,
    i: int,
    a: int,
    j: int,
    b: int,
)
    requires
        derived_through(series, runs, chunks),
        of_one(series, execution),
        recovers_once(series, runs),
        sound(track_of(runs[0], execution)),
        0 <= i < series.len(),
        0 <= j < series.len(),
        0 <= a < views_in(chunks[i]).len(),
        0 <= b < views_in(chunks[j]).len(),
        completes(views_in(chunks[i])[a]) matches Some(first) && completes(
            views_in(chunks[j])[b],
        ) matches Some(second) && first.firing == second.firing,
    ensures
        i == j,
        a == b,
    decreases (if j < i || (j == i && b < a) {
        1int
    } else {
        0
    }),
{
    if j < i || (j == i && b < a) {
        law_a_fork_completes_once(series, runs, chunks, execution, j, b, i, a);
    } else {
        let first = views_in(chunks[i]);
        let second = views_in(chunks[j]);
        let firings = track_of(runs.last(), execution).announced;
        let firing = completes(first[a])->0.firing;
        lemma_series_sound(series, runs, chunks, execution, i);
        lemma_series_sound(series, runs, chunks, execution, j);
        if firings.contains(firing.0) {
            let keep = among(firings);
            lemma_record_closes(series, runs, chunks, execution, i, keep);
            lemma_record_closes(series, runs, chunks, execution, j, keep);
            lemma_closed_place(first, a, keep);
            lemma_closed_place(second, b, keep);
            let p = closed_forks(first.take(a), keep).len() as int;
            let q = closed_forks(second.take(b), keep).len() as int;
            assert(is_over(track_of(runs[i + 1], execution), closed_forks(first, keep)[p].firing));
            assert(!is_over(track_of(runs[j], execution), closed_forks(second, keep)[q].firing));
            if i < j {
                lemma_over_stays(series, runs, chunks, execution, firing, i + 1, j);
            } else if a < b {
                lemma_closed_order(first, a, b, keep);
                assert(closed_forks(first, keep)[p].firing != closed_forks(first, keep)[q].firing);
            }
        } else {
            let keep = outside(firings);
            lemma_record_recovers(series, runs, chunks, execution, i);
            lemma_record_recovers(series, runs, chunks, execution, j);
            lemma_closed_place(first, a, keep);
            lemma_closed_place(second, b, keep);
            let p = closed_forks(first.take(a), keep).len() as int;
            let q = closed_forks(second.take(b), keep).len() as int;
            assert(recovered_at(runs[i], series[i])[p].firing == recovered_at(
                runs[j],
                series[j],
            )[q].firing);
            if i == j && a < b {
                lemma_closed_order(first, a, b, keep);
            }
        }
    }
}

// ── What stands before a completion ────────────────────────────────────

/// Results in branch order.
pub open spec fn in_branch_order(results: Seq<BranchResult>) -> bool {
    forall|i: int, j: int|
        0 <= i <= j < results.len() ==> (#[trigger] results[i]).branch.index <= (
        #[trigger] results[j]).branch.index
}

/// Whether a view event that completes a fork has its results in branch order
/// and its branches' completions directly before it, one for each result, in
/// the same order.
pub open spec fn told_by_branch(views: Views, i: int) -> bool {
    match views[i].1 {
        ViewModel::ForkCompleted { occurrence, fork, results, disposition } => {
            &&& in_branch_order(results)
            &&& results.len() <= i
            &&& forall|k: int|
                0 <= k < results.len() ==> (#[trigger] views[i - results.len() + k]).1 == (
                ViewModel::BranchCompleted { occurrence, result: results[k] })
        },
        _ => true,
    }
}

/// Whether every completed fork among view events is told branch by branch.
pub open spec fn all_told_by_branch(views: Views) -> bool {
    forall|i: int| 0 <= i < views.len() ==> #[trigger] told_by_branch(views, i)
}

proof fn lemma_told_together(a: Views, b: Views)
    requires
        all_told_by_branch(a),
        all_told_by_branch(b),
    ensures
        all_told_by_branch(a + b),
{
    let all = a + b;
    assert forall|i: int| 0 <= i < all.len() implies #[trigger] told_by_branch(all, i) by {
        if i < a.len() {
            assert(told_by_branch(a, i));
            assert(all[i] == a[i]);
            if let ViewModel::ForkCompleted { occurrence, fork, results, disposition } = all[i].1 {
                assert forall|k: int| 0 <= k < results.len() implies (
                #[trigger] all[i - results.len() + k]).1 == (ViewModel::BranchCompleted {
                    occurrence,
                    result: results[k],
                }) by {
                    assert(all[i - results.len() + k] == a[i - results.len() + k]);
                }
            }
        } else {
            let at = i - a.len();
            assert(told_by_branch(b, at));
            assert(all[i] == b[at]);
            if let ViewModel::ForkCompleted { occurrence, fork, results, disposition } = all[i].1 {
                assert forall|k: int| 0 <= k < results.len() implies (
                #[trigger] all[i - results.len() + k]).1 == (ViewModel::BranchCompleted {
                    occurrence,
                    result: results[k],
                }) by {
                    assert(all[i - results.len() + k] == b[at - results.len() + k]);
                }
            }
        }
    }
}

proof fn lemma_told_plain(views: Views)
    requires
        forall|i: int| 0 <= i < views.len() ==> completes(#[trigger] views[i]) is None,
    ensures
        all_told_by_branch(views),
{
    assert forall|i: int| 0 <= i < views.len() implies #[trigger] told_by_branch(views, i) by {
        assert(completes(views[i]) is None);
    }
}

proof fn lemma_told_closing(
    map: BranchModel,
    state: EngineState,
    subject: Subject,
    occurrence: ForkOccurrence,
    results: Seq<BranchResult>,
    disposition: ForkDisposition,
)
    requires
        in_branch_order(results),
    ensures
        all_told_by_branch(closing(map, state, subject, occurrence, results, disposition)),
{
    lemma_branches_close_none(map, state, occurrence, results, |o: ForkOccurrence| true);
    let completed = branches_completed(map, state, occurrence, results);
    let all = closing(map, state, subject, occurrence, results, disposition);
    assert forall|i: int| 0 <= i < all.len() implies #[trigger] told_by_branch(all, i) by {
        if i < completed.len() {
            assert(all[i] == completed[i]);
        } else {
            assert forall|k: int| 0 <= k < results.len() implies (
            #[trigger] all[i - results.len() + k]).1 == (ViewModel::BranchCompleted {
                occurrence,
                result: results[k],
            }) by {
                assert(all[k] == completed[k]);
            }
        }
    }
}

proof fn lemma_placed_in_order(results: Seq<BranchResult>, result: BranchResult)
    requires
        in_branch_order(results),
    ensures
        in_branch_order(placed_result(results, result)),
        forall|i: int|
            0 <= i < placed_result(results, result).len() ==> (#[trigger] placed_result(
                results,
                result,
            )[i]) == result || results.contains(placed_result(results, result)[i]),
    decreases results.len(),
{
    let all = placed_result(results, result);
    if results.len() > 0 && results.last().branch.index > result.branch.index {
        let rest = results.drop_last();
        assert(in_branch_order(rest)) by {
            assert forall|i: int, j: int| 0 <= i <= j < rest.len() implies (
            #[trigger] rest[i]).branch.index <= (#[trigger] rest[j]).branch.index by {
                assert(rest[i] == results[i] && rest[j] == results[j]);
            }
        }
        lemma_placed_in_order(rest, result);
        let before = placed_result(rest, result);
        let last = results.len() - 1;
        assert forall|i: int| 0 <= i < all.len() implies (#[trigger] all[i]) == result
            || results.contains(all[i]) by {
            if i < before.len() {
                assert(all[i] == before[i]);
                if before[i] != result {
                    let k = choose|k: int| 0 <= k < rest.len() && rest[k] == before[i];
                    assert(results[k] == all[i]);
                }
            } else {
                assert(all[i] == results[last]);
            }
        }
        assert forall|i: int, j: int| 0 <= i <= j < all.len() implies (
        #[trigger] all[i]).branch.index <= (#[trigger] all[j]).branch.index by {
            if j < before.len() {
                assert(all[i] == before[i] && all[j] == before[j]);
            } else if i < before.len() {
                assert(all[i] == before[i]);
                if before[i] != result {
                    assert(rest.contains(before[i]));
                    let k = choose|k: int| 0 <= k < rest.len() && rest[k] == before[i];
                    assert(results[k].branch.index <= results[last].branch.index);
                }
            }
        }
    } else {
        assert forall|i: int, j: int| 0 <= i <= j < all.len() implies (
        #[trigger] all[i]).branch.index <= (#[trigger] all[j]).branch.index by {
            if i < results.len() {
                assert(all[i] == results[i]);
                if j < results.len() {
                    assert(all[j] == results[j]);
                } else {
                    assert(results[i].branch.index <= results[results.len() - 1].branch.index);
                }
            }
        }
        assert forall|i: int| 0 <= i < all.len() implies (#[trigger] all[i]) == result
            || results.contains(all[i]) by {
            if i < results.len() {
                assert(all[i] == results[i]);
            }
        }
    }
}

proof fn lemma_inputs_in_order(
    map: BranchModel,
    state: EngineState,
    fork: NodeId,
    inputs: Seq<Token>,
)
    ensures
        in_branch_order(branch_results(map, state, fork, inputs)),
    decreases inputs.len(),
{
    if inputs.len() > 0 {
        lemma_inputs_in_order(map, state, fork, inputs.drop_last());
        if let Some(result) = token_result(map, state, fork, inputs.last()) {
            lemma_placed_in_order(
                branch_results(map, state, fork, inputs.drop_last()),
                result,
            );
        }
    }
}

proof fn lemma_members_in_order(
    map: BranchModel,
    state: EngineState,
    open: OpenModel,
    history: Seq<HistoryEntry>,
    results: Seq<BranchResult>,
)
    requires
        in_branch_order(results),
    ensures
        in_branch_order(members_before(map, state, open, history, results)),
    decreases history.len(),
{
    if history.len() > 0 {
        let more = match member_result(map, state, open, history.last(), results) {
            Some(result) => placed_result(results, result),
            None => results,
        };
        if let Some(result) = member_result(map, state, open, history.last(), results) {
            lemma_placed_in_order(results, result);
        }
        lemma_members_in_order(map, state, open, history.drop_last(), more);
    }
}

proof fn lemma_told_seen(
    track: TrackModel,
    execution: ExecutionId,
    state: EngineState,
    live: Seq<LiveFiring>,
)
    ensures
        all_told_by_branch(visits_seen(track, execution, state, live).1),
    decreases live.len(),
{
    if live.len() > 0 {
        lemma_told_seen(track, execution, state, live.drop_last());
        let before = visits_seen(track, execution, state, live.drop_last());
        let seen = live.last();
        let last = visit_seen(before.0, execution, state, seen);
        let map = before.0.branches;
        let subject = subject_of(map, state, seen.id);
        let inputs = state.spec_firing(seen.id)->0.inputs;
        let starting: Views = seq![
            (subject, ViewModel::VisitStarted { inputs }),
            (subject, ViewModel::WaitStateChanged { state: WaitState::AwaitingAdmission }),
        ];
        lemma_told_plain(starting);
        lemma_told_plain(Seq::empty());
        if let Some(about) = subject {
            if let BranchRole::Join { fork } = about.branch {
                let taken = take_open(before.0.open, fork, about.generation);
                let occurrence = match taken.0 {
                    Some(open) => Some(open.occurrence),
                    None => recovered_occurrence(map, state, execution, fork, about.generation),
                };
                if let Some(occurrence) = occurrence {
                    let results = branch_results(map, state, fork, inputs@);
                    lemma_inputs_in_order(map, state, fork, inputs@);
                    lemma_told_closing(
                        map,
                        state,
                        about,
                        occurrence,
                        results,
                        ForkDisposition::Joined,
                    );
                    lemma_told_together(
                        closing(map, state, about, occurrence, results, ForkDisposition::Joined),
                        starting,
                    );
                }
            }
        }
        assert(all_told_by_branch(last.1));
        lemma_told_together(before.1, last.1);
    }
}

proof fn lemma_told_completed(track: TrackModel, state: EngineState, entries: Seq<HistoryEntry>)
    ensures
        all_told_by_branch(visits_completed(track, state, entries).1),
    decreases entries.len(),
{
    if entries.len() > 0 {
        lemma_told_completed(track, state, entries.drop_last());
        let before = visits_completed(track, state, entries.drop_last());
        let entry = entries.last();
        let last = visit_completed(before.0, state, entry);
        let map = before.0.branches;
        let ended = seq![last.1.last()];
        if let Some(node) = state.graph.spec_node(entry.node) {
            if let BranchRole::Join { fork } = map.spec_role(node.id) {
                let taken = take_open(before.0.open, fork, Some(entry.generation));
                if !before.0.firings.contains(entry.firing.0) && taken.0 is Some {
                    let open = taken.0->0;
                    let about = last.1.last().0->0;
                    let results = member_results(map, state, open);
                    let disposition = if entry.outcome.status.cancelled {
                        ForkDisposition::Cancelled
                    } else {
                        ForkDisposition::Joined
                    };
                    let told = closing(map, state, about, open.occurrence, results, disposition);
                    assert(last.1 =~= told + ended);
                    lemma_members_in_order(map, state, open, state.history@, Seq::empty());
                    lemma_told_closing(map, state, about, open.occurrence, results, disposition);
                    lemma_told_plain(ended);
                    lemma_told_together(told, ended);
                } else {
                    lemma_told_plain(last.1);
                }
            } else {
                lemma_told_plain(last.1);
            }
        } else {
            lemma_told_plain(last.1);
        }
        lemma_told_together(before.1, last.1);
    }
}

proof fn lemma_told_killed(track: TrackModel, state: EngineState, firings: Seq<FiringId>)
    ensures
        all_told_by_branch(all_killed_closed(track, state, firings).1),
    decreases firings.len(),
{
    if firings.len() > 0 {
        lemma_told_killed(track, state, firings.drop_last());
        let before = all_killed_closed(track, state, firings.drop_last());
        let firing = firings.last();
        let last = killed_closed(before.0, state, firing);
        let at = place_opened(before.0.open, firing);
        if at < before.0.open.len() {
            let open = before.0.open[at];
            if let Some(subject) = subject_of(before.0.branches, state, firing) {
                lemma_members_in_order(
                    before.0.branches,
                    state,
                    open,
                    state.history@,
                    Seq::empty(),
                );
                lemma_told_closing(
                    before.0.branches,
                    state,
                    subject,
                    open.occurrence,
                    member_results(before.0.branches, state, open),
                    ForkDisposition::Killed,
                );
            }
        }
        lemma_told_together(before.1, last.1);
    }
}

proof fn lemma_told_cancelling(map: BranchModel, state: EngineState, live: Seq<LiveFiring>)
    ensures
        all_told_by_branch(cancelling(map, state, live)),
        forall|i: int|
            0 <= i < cancelling(map, state, live).len() ==> (#[trigger] cancelling(
                map,
                state,
                live,
            )[i]).1 is WaitStateChanged,
    decreases live.len(),
{
    if live.len() > 0 {
        lemma_told_cancelling(map, state, live.drop_last());
        lemma_told_plain(cancelling(map, state, live));
    }
}

proof fn lemma_told_aftermath(
    track: TrackModel,
    execution: ExecutionId,
    event: Event,
    state: EngineState,
)
    ensures
        all_told_by_branch(aftermath(track, execution, event, state).1),
{
    let seen = visits_seen(track, execution, state, state.live@);
    lemma_told_seen(track, execution, state, state.live@);
    let marked = marked_cancelling(seen.0.branches, event, state);
    lemma_told_cancelling(seen.0.branches, state, state.live@);
    let read = completions(seen.0, state);
    if state.history@.len() > seen.0.history {
        lemma_told_completed(
            seen.0,
            state,
            state.history@.subrange(seen.0.history as int, state.history@.len() as int),
        );
    }
    let firings = dead_firings(read.0.branches, state, read.0.open);
    lemma_told_killed(read.0, state, firings);
    lemma_told_together(seen.1, marked);
    lemma_told_together(seen.1 + marked, read.1);
    lemma_told_together(
        seen.1 + marked + read.1,
        all_killed_closed(read.0, state, firings).1,
    );
}

/// What a record's own derivation leaves of the track, and what kinds of view
/// events it gives.
proof fn lemma_own_kinds(
    track: TrackModel,
    execution: ExecutionId,
    event: Event,
    state: EngineState,
    readings: Readings,
)
    ensures
        ({
            let step = own_step(track, execution, event, state, readings);
            &&& step.track.firings == track.firings
            &&& step.track.history == track.history
            &&& step.track.branches == track.branches
            &&& step.track.started == match event {
                Event::StepStarted { firing, attempt } => track.started.insert(firing.0),
                _ => track.started,
            }
            &&& none_started(step.views)
            &&& none_completed(step.views)
            &&& forall|i: int|
                0 <= i < step.views.len() ==> completes(#[trigger] step.views[i]) is None
        }),
{
}

/// A completed fork is told branch by branch: its results are in branch order
/// and, with the same record, one completion per result stands directly
/// before it, in the same order.
pub proof fn law_a_fork_is_told_by_branch(
    before: ProjectionModel,
    execution: ExecutionId,
    record: EventRecord,
    recorded_at: u64,
    state: EngineState,
    readings: Readings,
    after: ProjectionModel,
    events: Seq<EventModel>,
)
    requires
        engine_derives(before, execution, record, recorded_at, state, readings, after, events),
    ensures
        all_told_by_branch(views_in(events)),
{
    let event = event_of(record);
    let track = refreshed(track_of(before, execution), state);
    let step = own_step(track, execution, event, state, readings);
    let rest = aftermath(step.track, execution, event, state);
    assert(views_in(events) =~= step.views + rest.1);
    lemma_own_kinds(track, execution, event, state, readings);
    lemma_told_plain(step.views);
    lemma_told_aftermath(step.track, execution, event, state);
    lemma_told_together(step.views, rest.1);
}

// ── Visits ─────────────────────────────────────────────────────────────

/// The firings first seen among live ones, in order, when `known` were seen
/// before.
pub open spec fn first_seen(known: Set<u64>, live: Seq<LiveFiring>) -> Seq<FiringId>
    decreases live.len(),
{
    if live.len() == 0 {
        Seq::empty()
    } else {
        let before = first_seen(known, live.drop_last());
        if known.contains(live.last().id.0) || before.contains(live.last().id) {
            before
        } else {
            before.push(live.last().id)
        }
    }
}

/// The firings first seen with a record of a series.
pub open spec fn seen_with(run: ProjectionModel, fed: PublishedModel) -> Seq<FiringId> {
    first_seen(track_of(run, fed.execution).firings, fed.state.live@)
}

/// The subjects of the visits that view events start, in order.
pub open spec fn visits_started(views: Views) -> Seq<Option<Subject>>
    decreases views.len(),
{
    if views.len() == 0 {
        Seq::empty()
    } else {
        let before = visits_started(views.drop_last());
        if views.last().1 is VisitStarted {
            before.push(views.last().0)
        } else {
            before
        }
    }
}

/// Whether every visit start among view events is directly followed by the
/// wait for its admission, on the same subject.
pub open spec fn starts_wait(views: Views) -> bool {
    forall|i: int|
        0 <= i < views.len() && (#[trigger] views[i]).1 is VisitStarted ==> i + 1 < views.len()
            && views[i + 1] == (
            views[i].0,
            ViewModel::WaitStateChanged { state: WaitState::AwaitingAdmission },
        )
}

proof fn lemma_started_together(a: Views, b: Views)
    ensures
        visits_started(a + b) == visits_started(a) + visits_started(b),
    decreases b.len(),
{
    if b.len() == 0 {
        assert(a + b =~= a);
        assert(visits_started(a) + visits_started(b) =~= visits_started(a));
    } else {
        lemma_started_together(a, b.drop_last());
        assert((a + b).drop_last() =~= a + b.drop_last());
        assert((a + b).last() == b.last());
        if b.last().1 is VisitStarted {
            assert(visits_started(a) + visits_started(b.drop_last()).push(b.last().0) =~= (
            visits_started(a) + visits_started(b.drop_last())).push(b.last().0));
        }
    }
}

proof fn lemma_waits_together(a: Views, b: Views)
    requires
        starts_wait(a),
        starts_wait(b),
    ensures
        starts_wait(a + b),
{
    let all = a + b;
    assert forall|i: int| 0 <= i < all.len() && (#[trigger] all[i]).1 is VisitStarted implies i + 1
        < all.len() && all[i + 1] == (
        all[i].0,
        ViewModel::WaitStateChanged { state: WaitState::AwaitingAdmission },
    ) by {
        if i < a.len() {
            assert(a[i].1 is VisitStarted);
            assert(all[i + 1] == a[i + 1]);
        } else {
            assert(b[i - a.len()].1 is VisitStarted);
            assert(all[i + 1] == b[i - a.len() + 1]);
        }
    }
}

/// No visit starts among view events.
pub open spec fn none_started(views: Views) -> bool {
    forall|i: int| 0 <= i < views.len() ==> !((#[trigger] views[i]).1 is VisitStarted)
}

/// No visit completes among view events.
pub open spec fn none_completed(views: Views) -> bool {
    forall|i: int| 0 <= i < views.len() ==> !((#[trigger] views[i]).1 is VisitCompleted)
}

proof fn lemma_none_started(views: Views)
    requires
        none_started(views),
    ensures
        visits_started(views) == Seq::<Option<Subject>>::empty(),
        starts_wait(views),
    decreases views.len(),
{
    if views.len() > 0 {
        let rest = views.drop_last();
        assert forall|i: int| 0 <= i < rest.len() implies !((#[trigger] rest[i]).1 is VisitStarted) by {
            assert(rest[i] == views[i]);
        }
        lemma_none_started(rest);
        assert(!(views[views.len() - 1].1 is VisitStarted));
    }
}

proof fn lemma_none_completed(views: Views)
    requires
        none_completed(views),
    ensures
        completed_outcomes(views) == Seq::<ViewModel>::empty(),
    decreases views.len(),
{
    if views.len() > 0 {
        let rest = views.drop_last();
        assert forall|i: int| 0 <= i < rest.len() implies !((
        #[trigger] rest[i]).1 is VisitCompleted) by {
            assert(rest[i] == views[i]);
        }
        lemma_none_completed(rest);
        assert(!(views[views.len() - 1].1 is VisitCompleted));
    }
}

proof fn lemma_closing_kinds(
    map: BranchModel,
    state: EngineState,
    subject: Subject,
    occurrence: ForkOccurrence,
    results: Seq<BranchResult>,
    disposition: ForkDisposition,
)
    ensures
        none_started(closing(map, state, subject, occurrence, results, disposition)),
        none_completed(closing(map, state, subject, occurrence, results, disposition)),
{
    lemma_branches_close_none(map, state, occurrence, results, |o: ForkOccurrence| true);
    let completed = branches_completed(map, state, occurrence, results);
    let all = closing(map, state, subject, occurrence, results, disposition);
    assert forall|i: int| 0 <= i < all.len() implies !((#[trigger] all[i]).1 is VisitStarted) && !(
    all[i].1 is VisitCompleted) by {
        if i < completed.len() {
            assert(all[i] == completed[i]);
            assert(completed[i].1 is BranchCompleted);
        }
    }
}

proof fn lemma_seen_starts(
    track: TrackModel,
    execution: ExecutionId,
    state: EngineState,
    live: Seq<LiveFiring>,
)
    ensures
        ({
            let seen = visits_seen(track, execution, state, live);
            let first = first_seen(track.firings, live);
            &&& seen.0.branches == track.branches
            &&& seen.0.started == track.started
            &&& seen.0.history == track.history
            &&& forall|id: u64| #[trigger]
                seen.0.firings.contains(id) <==> track.firings.contains(id) || first.contains(
                    FiringId(id),
                )
            &&& visits_started(seen.1) == first.map_values(
                |firing: FiringId| subject_of(track.branches, state, firing),
            )
            &&& starts_wait(seen.1)
            &&& none_completed(seen.1)
        }),
    decreases live.len(),
{
    let seen = visits_seen(track, execution, state, live);
    let first = first_seen(track.firings, live);
    let about = |firing: FiringId| subject_of(track.branches, state, firing);
    if live.len() == 0 {
        assert(visits_started(seen.1) =~= first.map_values(about));
    } else {
        let rest = live.drop_last();
        lemma_seen_starts(track, execution, state, rest);
        let before = visits_seen(track, execution, state, rest);
        let earlier = first_seen(track.firings, rest);
        let firing = live.last();
        let last = visit_seen(before.0, execution, state, firing);
        lemma_started_together(before.1, last.1);
        assert(FiringId(firing.id.0) == firing.id);
        if before.0.firings.contains(firing.id.0) {
            assert(last.1 =~= Seq::<(Option<Subject>, ViewModel)>::empty());
            assert(seen.1 =~= before.1);
            assert(first == earlier);
        } else {
            lemma_visit_starts(before.0, execution, state, firing);
            assert(first == earlier.push(firing.id));
            assert(visits_started(seen.1) =~= first.map_values(about));
            lemma_waits_together(before.1, last.1);
            assert forall|id: u64| #[trigger] seen.0.firings.contains(id) <==> (
            track.firings.contains(id) || first.contains(FiringId(id))) by {
                if first.contains(FiringId(id)) {
                    let k = choose|k: int| 0 <= k < first.len() && first[k] == FiringId(id);
                    if k < earlier.len() {
                        assert(earlier[k] == FiringId(id));
                    }
                } 
                if earlier.contains(FiringId(id)) {
                    let k = choose|k: int| 0 <= k < earlier.len() && earlier[k] == FiringId(id);
                    assert(first[k] == FiringId(id));
                }
                if id == firing.id.0 {
                    assert(first[first.len() - 1] == FiringId(id));
                }
            }
            assert forall|i: int| 0 <= i < seen.1.len() implies !((
            #[trigger] seen.1[i]).1 is VisitCompleted) by {
                if i < before.1.len() {
                    assert(seen.1[i] == before.1[i]);
                } else {
                    assert(seen.1[i] == last.1[i - before.1.len()]);
                }
            }
        }
    }
}

proof fn lemma_visit_starts(
    track: TrackModel,
    execution: ExecutionId,
    state: EngineState,
    seen: LiveFiring,
)
    requires
        !track.firings.contains(seen.id.0),
    ensures
        ({
            let last = visit_seen(track, execution, state, seen);
            &&& last.0.branches == track.branches
            &&& last.0.started == track.started
            &&& last.0.history == track.history
            &&& last.0.firings == track.firings.insert(seen.id.0)
            &&& visits_started(last.1) == seq![subject_of(track.branches, state, seen.id)]
            &&& starts_wait(last.1)
            &&& none_completed(last.1)
        }),
{
    let last = visit_seen(track, execution, state, seen);
    let map = track.branches;
    let subject = subject_of(map, state, seen.id);
    let inputs = state.spec_firing(seen.id)->0.inputs;
    let starting: Views = seq![
        (subject, ViewModel::VisitStarted { inputs }),
        (subject, ViewModel::WaitStateChanged { state: WaitState::AwaitingAdmission }),
    ];
    assert(visits_started(starting) =~= seq![subject]) by {
        reveal_with_fuel(visits_started, 3);
        assert(starting.drop_last().drop_last() =~= Seq::empty());
    }
    assert(starts_wait(starting));
    assert(none_completed(starting));
    if let Some(about) = subject {
        if let BranchRole::Join { fork } = about.branch {
            let taken = take_open(track.open, fork, about.generation);
            let occurrence = match taken.0 {
                Some(open) => Some(open.occurrence),
                None => recovered_occurrence(map, state, execution, fork, about.generation),
            };
            if let Some(occurrence) = occurrence {
                let results = branch_results(map, state, fork, inputs@);
                let told = closing(map, state, about, occurrence, results, ForkDisposition::Joined);
                lemma_closing_kinds(
                    map,
                    state,
                    about,
                    occurrence,
                    results,
                    ForkDisposition::Joined,
                );
                lemma_none_started(told);
                lemma_started_together(told, starting);
                lemma_waits_together(told, starting);
                assert(last.1 == told + starting);
                assert(Seq::<Option<Subject>>::empty() + seq![subject] =~= seq![subject]);
            }
        }
    }
}

proof fn lemma_completed_kinds(track: TrackModel, state: EngineState, entries: Seq<HistoryEntry>)
    ensures
        ({
            let read = visits_completed(track, state, entries);
            &&& none_started(read.1)
            &&& read.0.firings == track.firings
            &&& read.0.started == track.started
            &&& read.0.history == track.history
        }),
    decreases entries.len(),
{
    if entries.len() > 0 {
        lemma_completed_kinds(track, state, entries.drop_last());
        let before = visits_completed(track, state, entries.drop_last());
        let all = visits_completed(track, state, entries);
        let entry = entries.last();
        let last = visit_completed(before.0, state, entry);
        let map = before.0.branches;
        if let Some(node) = state.graph.spec_node(entry.node) {
            if let BranchRole::Join { fork } = map.spec_role(node.id) {
                let taken = take_open(before.0.open, fork, Some(entry.generation));
                if !before.0.firings.contains(entry.firing.0) && taken.0 is Some {
                    lemma_closing_kinds(
                        map,
                        state,
                        last.1.last().0->0,
                        taken.0->0.occurrence,
                        member_results(map, state, taken.0->0),
                        if entry.outcome.status.cancelled {
                            ForkDisposition::Cancelled
                        } else {
                            ForkDisposition::Joined
                        },
                    );
                }
            }
        }
        assert(none_started(last.1));
        assert forall|i: int| 0 <= i < all.1.len() implies !((
        #[trigger] all.1[i]).1 is VisitStarted) by {
            if i < before.1.len() {
                assert(all.1[i] == before.1[i]);
            } else {
                assert(all.1[i] == last.1[i - before.1.len()]);
            }
        }
    }
}

proof fn lemma_killed_kinds(track: TrackModel, state: EngineState, firings: Seq<FiringId>)
    ensures
        ({
            let dead = all_killed_closed(track, state, firings);
            &&& none_started(dead.1)
            &&& none_completed(dead.1)
            &&& dead.0.firings == track.firings
            &&& dead.0.started == track.started
            &&& dead.0.history == track.history
        }),
    decreases firings.len(),
{
    if firings.len() > 0 {
        lemma_killed_kinds(track, state, firings.drop_last());
        let before = all_killed_closed(track, state, firings.drop_last());
        let all = all_killed_closed(track, state, firings);
        let last = killed_closed(before.0, state, firings.last());
        let at = place_opened(before.0.open, firings.last());
        if let Some(subject) = subject_of(before.0.branches, state, firings.last()) {
            lemma_closing_kinds(
                before.0.branches,
                state,
                subject,
                before.0.open[at].occurrence,
                member_results(before.0.branches, state, before.0.open[at]),
                ForkDisposition::Killed,
            );
        }
        assert forall|i: int| 0 <= i < all.1.len() implies !((
        #[trigger] all.1[i]).1 is VisitStarted) && !(all.1[i].1 is VisitCompleted) by {
            if i < before.1.len() {
                assert(all.1[i] == before.1[i]);
            } else {
                assert(all.1[i] == last.1[i - before.1.len()]);
            }
        }
    }
}

/// Whether a record starts an attempt of a firing.
pub open spec fn starts_step(record: EventRecord, firing: u64) -> bool {
    event_of(record) matches Event::StepStarted { firing: started, attempt } && started.0 == firing
}

/// The completions of history entries, when attempts of `started` were
/// dispatched.
pub open spec fn ended(entries: Seq<HistoryEntry>, started: Set<u64>) -> Seq<ViewModel> {
    entries.map_values(
        |entry: HistoryEntry|
            ViewModel::VisitCompleted {
                outcome: entry.outcome,
                executed: started.contains(entry.firing.0),
                attempts: entry.attempt.0,
            },
    )
}

proof fn lemma_aftermath_visits(
    track: TrackModel,
    execution: ExecutionId,
    event: Event,
    state: EngineState,
)
    ensures
        ({
            let rest = aftermath(track, execution, event, state);
            let first = first_seen(track.firings, state.live@);
            let history = state.history@;
            &&& visits_started(rest.1) == first.map_values(
                |firing: FiringId| subject_of(track.branches, state, firing),
            )
            &&& starts_wait(rest.1)
            &&& forall|id: u64| #[trigger]
                rest.0.firings.contains(id) <==> track.firings.contains(id) || first.contains(
                    FiringId(id),
                )
            &&& rest.0.started == track.started
            &&& rest.0.history == if history.len() > track.history {
                history.len()
            } else {
                track.history
            }
            &&& completed_outcomes(rest.1) == if history.len() > track.history {
                ended(
                    history.subrange(track.history as int, history.len() as int),
                    track.started,
                )
            } else {
                Seq::empty()
            }
        }),
{
    let history = state.history@;
    let seen = visits_seen(track, execution, state, state.live@);
    lemma_seen_starts(track, execution, state, state.live@);
    lemma_none_completed(seen.1);
    let marked = marked_cancelling(seen.0.branches, event, state);
    lemma_told_cancelling(seen.0.branches, state, state.live@);
    lemma_none_started(marked);
    lemma_none_completed(marked);
    let read = completions(seen.0, state);
    let entries = history.subrange(seen.0.history as int, history.len() as int);
    if history.len() > seen.0.history {
        lemma_completed_kinds(seen.0, state, entries);
        law_one_completion_per_entry(seen.0, state, entries);
        assert(completed_outcomes(read.1) =~= ended(entries, seen.0.started));
    } else {
        lemma_none_completed(read.1);
    }
    lemma_none_started(read.1);
    let firings = dead_firings(read.0.branches, state, read.0.open);
    let dead = all_killed_closed(read.0, state, firings);
    lemma_killed_kinds(read.0, state, firings);
    lemma_none_started(dead.1);
    lemma_none_completed(dead.1);
    lemma_started_together(seen.1, marked);
    lemma_started_together(seen.1 + marked, read.1);
    lemma_started_together(seen.1 + marked + read.1, dead.1);
    lemma_waits_together(seen.1, marked);
    lemma_waits_together(seen.1 + marked, read.1);
    lemma_waits_together(seen.1 + marked + read.1, dead.1);
    lemma_outcomes_join(seen.1, marked);
    lemma_outcomes_join(seen.1 + marked, read.1);
    lemma_outcomes_join(seen.1 + marked + read.1, dead.1);
    let rest = aftermath(track, execution, event, state);
    assert(visits_started(rest.1) =~= visits_started(seen.1));
    assert(completed_outcomes(rest.1) =~= completed_outcomes(read.1));
}

proof fn lemma_record_visits(
    series: Seq<PublishedModel>,
    runs: Seq<ProjectionModel>,
    chunks: Seq<Seq<EventModel>>,
    execution: ExecutionId,
    i: int,
)
    requires
        derived_through(series, runs, chunks),
        of_one(series, execution),
        0 <= i < series.len(),
    ensures
        ({
            let before = track_of(runs[i], execution);
            let after = track_of(runs[i + 1], execution);
            let views = views_in(chunks[i]);
            let state = series[i].state;
            let history = state.history@;
            &&& visits_started(views) == seen_with(runs[i], series[i]).map_values(
                |firing: FiringId|
                    subject_of(refreshed(before, state).branches, state, firing),
            )
            &&& starts_wait(views)
            &&& forall|id: u64| #[trigger]
                after.firings.contains(id) <==> before.firings.contains(id) || seen_with(
                    runs[i],
                    series[i],
                ).contains(FiringId(id))
            &&& forall|id: u64| #[trigger]
                after.started.contains(id) <==> before.started.contains(id) || starts_step(
                    series[i].record,
                    id,
                )
            &&& after.history == if history.len() > before.history {
                history.len()
            } else {
                before.history
            }
            &&& completed_outcomes(views) == if history.len() > before.history {
                ended(
                    history.subrange(before.history as int, history.len() as int),
                    after.started,
                )
            } else {
                Seq::empty()
            }
        }),
{
    lemma_link(series, runs, chunks, execution, i);
    let event = event_of(series[i].record);
    let state = series[i].state;
    let before = track_of(runs[i], execution);
    let track = refreshed(before, state);
    let step = own_step(track, execution, event, state, series[i].readings);
    let rest = aftermath(step.track, execution, event, state);
    assert(series[i].execution == execution);
    lemma_own_kinds(track, execution, event, state, series[i].readings);
    lemma_none_started(step.views);
    lemma_none_completed(step.views);
    lemma_aftermath_visits(step.track, execution, event, state);
    lemma_started_together(step.views, rest.1);
    lemma_waits_together(step.views, rest.1);
    lemma_outcomes_join(step.views, rest.1);
    assert(visits_started(views_in(chunks[i])) =~= visits_started(rest.1));
    assert(completed_outcomes(views_in(chunks[i])) =~= completed_outcomes(rest.1));
}

proof fn lemma_seen_distinct(known: Set<u64>, live: Seq<LiveFiring>)
    ensures
        forall|a: int, b: int|
            0 <= a < b < first_seen(known, live).len() ==> (#[trigger] first_seen(known, live)[a])
                != (#[trigger] first_seen(known, live)[b]),
        forall|a: int|
            0 <= a < first_seen(known, live).len() ==> !known.contains(
                (#[trigger] first_seen(known, live)[a]).0,
            ) && exists|k: int|
                0 <= k < live.len() && (#[trigger] live[k]).id == first_seen(known, live)[a],
        forall|k: int|
            0 <= k < live.len() ==> known.contains((#[trigger] live[k]).id.0) || first_seen(
                known,
                live,
            ).contains(live[k].id),
    decreases live.len(),
{
    if live.len() > 0 {
        let rest = live.drop_last();
        lemma_seen_distinct(known, rest);
        let before = first_seen(known, rest);
        let all = first_seen(known, live);
        let last = live.len() - 1;
        assert forall|a: int, b: int| 0 <= a < b < all.len() implies (#[trigger] all[a]) != (
        #[trigger] all[b]) by {
            assert(all[a] == before[a]);
            if b < before.len() {
                assert(all[b] == before[b]);
            } else if all[a] == all[b] {
                assert(before.contains(live.last().id));
            }
        }
        assert forall|a: int| 0 <= a < all.len() implies !known.contains((#[trigger] all[a]).0)
            && exists|k: int| 0 <= k < live.len() && (#[trigger] live[k]).id == all[a] by {
            if a < before.len() {
                assert(all[a] == before[a]);
                let k = choose|k: int|
                    0 <= k < rest.len() && (#[trigger] rest[k]).id == before[a];
                assert(live[k].id == all[a]);
            } else {
                assert(live[last].id == all[a]);
            }
        }
        assert forall|k: int| 0 <= k < live.len() implies known.contains((#[trigger] live[k]).id.0)
            || all.contains(live[k].id) by {
            if k < last {
                assert(rest[k] == live[k]);
                if before.contains(live[k].id) {
                    let n = choose|n: int| 0 <= n < before.len() && before[n] == live[k].id;
                    assert(all[n] == live[k].id);
                }
            } else if before.contains(live[k].id) {
                assert(all == before);
            } else if !known.contains(live[k].id.0) {
                assert(all[all.len() - 1] == live[k].id);
            }
        }
    }
}

proof fn lemma_firings_grow(
    series: Seq<PublishedModel>,
    runs: Seq<ProjectionModel>,
    chunks: Seq<Seq<EventModel>>,
    execution: ExecutionId,
    i: int,
    j: int,
)
    requires
        derived_through(series, runs, chunks),
        of_one(series, execution),
        0 <= i <= j <= series.len(),
    ensures
        track_of(runs[i], execution).firings.subset_of(track_of(runs[j], execution).firings),
    decreases j - i,
{
    if i < j {
        lemma_firings_grow(series, runs, chunks, execution, i, j - 1);
        lemma_record_visits(series, runs, chunks, execution, j - 1);
    }
}

/// Whether a firing was first seen with one of the first records of a series.
pub open spec fn seen_by(
    series: Seq<PublishedModel>,
    runs: Seq<ProjectionModel>,
    firing: FiringId,
    upto: int,
) -> bool {
    exists|k: int| 0 <= k < upto && (#[trigger] seen_with(runs[k], series[k])).contains(firing)
}

proof fn lemma_known_was_seen(
    series: Seq<PublishedModel>,
    runs: Seq<ProjectionModel>,
    chunks: Seq<Seq<EventModel>>,
    execution: ExecutionId,
    i: int,
    id: u64,
)
    requires
        derived_through(series, runs, chunks),
        of_one(series, execution),
        track_of(runs[0], execution).firings == Set::<u64>::empty(),
        0 <= i <= series.len(),
        track_of(runs[i], execution).firings.contains(id),
    ensures
        seen_by(series, runs, FiringId(id), i),
    decreases i,
{
    if i > 0 {
        lemma_record_visits(series, runs, chunks, execution, i - 1);
        if seen_with(runs[i - 1], series[i - 1]).contains(FiringId(id)) {
        } else {
            lemma_known_was_seen(series, runs, chunks, execution, i - 1, id);
            let k = choose|k: int|
                0 <= k < i - 1 && (#[trigger] seen_with(runs[k], series[k])).contains(FiringId(id));
            assert(seen_with(runs[k], series[k]).contains(FiringId(id)));
        }
    }
}

/// Over all the records of an execution, exactly one visit starts per firing
/// that was live in some state: the visits a record starts are those of the
/// firings first seen with it, each directly followed by the wait for its
/// admission; no firing is first seen twice; and every live firing was.
pub proof fn law_a_visit_starts_once(
    series: Seq<PublishedModel>,
    runs: Seq<ProjectionModel>,
    chunks: Seq<Seq<EventModel>>,
    execution: ExecutionId,
)
    requires
        derived_through(series, runs, chunks),
        of_one(series, execution),
        track_of(runs[0], execution).firings == Set::<u64>::empty(),
    ensures
        forall|i: int|
            0 <= i < series.len() ==> visits_started(views_in(#[trigger] chunks[i])) == seen_with(
                runs[i],
                series[i],
            ).map_values(
                |firing: FiringId|
                    subject_of(
                        refreshed(track_of(runs[i], execution), series[i].state).branches,
                        series[i].state,
                        firing,
                    ),
            ) && starts_wait(views_in(chunks[i])),
        forall|i: int, a: int, j: int, b: int|
            0 <= i < series.len() && 0 <= j < series.len() && 0 <= a < seen_with(
                runs[i],
                series[i],
            ).len() && 0 <= b < seen_with(runs[j], series[j]).len() && #[trigger] seen_with(
                runs[i],
                series[i],
            )[a] == #[trigger] seen_with(runs[j], series[j])[b] ==> i == j && a == b,
        forall|i: int, k: int|
            0 <= i < series.len() && 0 <= k < series[i].state.live@.len() ==> seen_by(
                series,
                runs,
                (#[trigger] series[i].state.live@[k]).id,
                i + 1,
            ),
{
    assert forall|i: int| 0 <= i < series.len() implies visits_started(
        views_in(#[trigger] chunks[i]),
    ) == seen_with(runs[i], series[i]).map_values(
        |firing: FiringId|
            subject_of(
                refreshed(track_of(runs[i], execution), series[i].state).branches,
                series[i].state,
                firing,
            ),
    ) && starts_wait(views_in(chunks[i])) by {
        lemma_record_visits(series, runs, chunks, execution, i);
    }
    assert forall|i: int, a: int, j: int, b: int|
        0 <= i < series.len() && 0 <= j < series.len() && 0 <= a < seen_with(
            runs[i],
            series[i],
        ).len() && 0 <= b < seen_with(runs[j], series[j]).len() && #[trigger] seen_with(
            runs[i],
            series[i],
        )[a] == #[trigger] seen_with(runs[j], series[j])[b] implies i == j && a == b by {
        let (low, at, high, on) = if i <= j {
            (i, a, j, b)
        } else {
            (j, b, i, a)
        };
        let first = seen_with(runs[low], series[low]);
        let second = seen_with(runs[high], series[high]);
        assert(series[high].execution == execution);
        assert(series[low].execution == execution);
        lemma_seen_distinct(track_of(runs[high], execution).firings, series[high].state.live@);
        if low < high {
            lemma_record_visits(series, runs, chunks, execution, low);
            lemma_firings_grow(series, runs, chunks, execution, low + 1, high);
            assert(first.contains(first[at]));
            assert(FiringId(first[at].0) == first[at]);
            assert(track_of(runs[low + 1], execution).firings.contains(first[at].0));
            assert(!track_of(runs[high], execution).firings.contains(second[on].0));
        } else if at < on {
            assert(second[at] != second[on]);
        } else if on < at {
            assert(second[on] != second[at]);
        }
    }
    assert forall|i: int, k: int|
        0 <= i < series.len() && 0 <= k < series[i].state.live@.len() implies seen_by(
        series,
        runs,
        (#[trigger] series[i].state.live@[k]).id,
        i + 1,
    ) by {
        let firing = series[i].state.live@[k].id;
        assert(series[i].execution == execution);
        lemma_seen_distinct(track_of(runs[i], execution).firings, series[i].state.live@);
        if seen_with(runs[i], series[i]).contains(firing) {
        } else {
            assert(FiringId(firing.0) == firing);
            lemma_known_was_seen(series, runs, chunks, execution, i, firing.0);
            let n = choose|n: int|
                0 <= n < i && (#[trigger] seen_with(runs[n], series[n])).contains(firing);
            assert(seen_with(runs[n], series[n]).contains(firing));
        }
    }
}

/// Whether the histories of a series only grow.
pub open spec fn histories_grow(series: Seq<PublishedModel>) -> bool {
    forall|i: int, j: int|
        0 <= i <= j < series.len() ==> (#[trigger] series[i]).state.history@.is_prefix_of(
            (#[trigger] series[j]).state.history@,
        )
}

/// How many history entries a series has told of after its first records.
pub open spec fn told_after(series: Seq<PublishedModel>, count: int) -> nat {
    if count <= 0 {
        0
    } else {
        series[count - 1].state.history@.len()
    }
}

/// Whether an attempt of a firing was started by one of the first records of
/// a series.
pub open spec fn started_by(series: Seq<PublishedModel>, firing: u64, upto: int) -> bool {
    exists|k: int| 0 <= k < upto && starts_step((#[trigger] series[k]).record, firing)
}

proof fn lemma_series_visits(
    series: Seq<PublishedModel>,
    runs: Seq<ProjectionModel>,
    chunks: Seq<Seq<EventModel>>,
    execution: ExecutionId,
    i: int,
)
    requires
        derived_through(series, runs, chunks),
        of_one(series, execution),
        histories_grow(series),
        track_of(runs[0], execution).started == Set::<u64>::empty(),
        track_of(runs[0], execution).history == 0,
        0 <= i <= series.len(),
    ensures
        track_of(runs[i], execution).history == told_after(series, i),
        forall|id: u64| #[trigger]
            track_of(runs[i], execution).started.contains(id) <==> started_by(series, id, i),
    decreases i,
{
    if i > 0 {
        lemma_series_visits(series, runs, chunks, execution, i - 1);
        lemma_record_visits(series, runs, chunks, execution, i - 1);
        if i > 1 {
            assert(series[i - 2].state.history@.is_prefix_of(series[i - 1].state.history@));
        }
        assert forall|id: u64| #[trigger] track_of(runs[i], execution).started.contains(id)
            <==> started_by(series, id, i) by {
            if started_by(series, id, i) {
                let k = choose|k: int| 0 <= k < i && starts_step((#[trigger] series[k]).record, id);
                if k < i - 1 {
                    assert(started_by(series, id, i - 1));
                }
            }
            if started_by(series, id, i - 1) {
                let k = choose|k: int|
                    0 <= k < i - 1 && starts_step((#[trigger] series[k]).record, id);
                assert(starts_step(series[k].record, id));
            }
            if starts_step(series[i - 1].record, id) {
                assert(started_by(series, id, i));
            }
        }
    }
}

/// The completions a series told, in order.
pub open spec fn all_completed(chunks: Seq<Seq<EventModel>>) -> Seq<ViewModel>
    decreases chunks.len(),
{
    if chunks.len() == 0 {
        Seq::empty()
    } else {
        all_completed(chunks.drop_last()) + completed_outcomes(views_in(chunks.last()))
    }
}

/// Over all the records of an execution from its first on, exactly one visit
/// completes per entry of the last history, in history order, with the
/// entry's outcome and attempt, and as executed if and only if a record up to
/// the one that told of the entry started an attempt of its firing.
pub proof fn law_one_completion_per_history_entry(
    series: Seq<PublishedModel>,
    runs: Seq<ProjectionModel>,
    chunks: Seq<Seq<EventModel>>,
    execution: ExecutionId,
)
    requires
        derived_through(series, runs, chunks),
        of_one(series, execution),
        histories_grow(series),
        track_of(runs[0], execution).started == Set::<u64>::empty(),
        track_of(runs[0], execution).history == 0,
    ensures
        all_completed(chunks).len() == told_after(series, series.len() as int),
        forall|i: int, k: int|
            0 <= i < series.len() && told_after(series, i) <= k < told_after(series, i + 1)
                ==> #[trigger] is_completion(series, all_completed(chunks), i, k),
{
    assert(chunks.take(chunks.len() as int) =~= chunks);
    lemma_completions_told(series, runs, chunks, execution, series.len() as int);
}

/// Whether a completion is that of a history entry that a record of a series
/// told of.
pub open spec fn is_completion(
    series: Seq<PublishedModel>,
    completed: Seq<ViewModel>,
    i: int,
    k: int,
) -> bool {
    let entry = series.last().state.history@[k];
    completed[k] == ViewModel::VisitCompleted {
        outcome: entry.outcome,
        executed: started_by(series, entry.firing.0, i + 1),
        attempts: entry.attempt.0,
    }
}

proof fn lemma_completions_told(
    series: Seq<PublishedModel>,
    runs: Seq<ProjectionModel>,
    chunks: Seq<Seq<EventModel>>,
    execution: ExecutionId,
    n: int,
)
    requires
        derived_through(series, runs, chunks),
        of_one(series, execution),
        histories_grow(series),
        track_of(runs[0], execution).started == Set::<u64>::empty(),
        track_of(runs[0], execution).history == 0,
        0 <= n <= series.len(),
    ensures
        all_completed(chunks.take(n)).len() == told_after(series, n),
        forall|i: int, k: int|
            0 <= i < n && told_after(series, i) <= k < told_after(series, i + 1)
                ==> #[trigger] is_completion(series, all_completed(chunks.take(n)), i, k),
    decreases n,
{
    if n > 0 {
        lemma_completions_told(series, runs, chunks, execution, n - 1);
        lemma_series_visits(series, runs, chunks, execution, n - 1);
        lemma_series_visits(series, runs, chunks, execution, n);
        lemma_record_visits(series, runs, chunks, execution, n - 1);
        let taken = chunks.take(n);
        assert(taken.drop_last() =~= chunks.take(n - 1));
        assert(taken.last() == chunks[n - 1]);
        let before = all_completed(chunks.take(n - 1));
        let more = completed_outcomes(views_in(chunks[n - 1]));
        let all = all_completed(taken);
        assert(all == before + more);
        let history = series[n - 1].state.history@;
        let from = told_after(series, n - 1);
        assert(history.is_prefix_of(series[series.len() - 1].state.history@));
        if n > 1 {
            assert(series[n - 2].state.history@.is_prefix_of(history));
        }
        assert forall|i: int, k: int|
            0 <= i < n && told_after(series, i) <= k < told_after(series, i + 1) implies
            #[trigger] is_completion(series, all, i, k) by {
            if i < n - 1 {
                assert(is_completion(series, before, i, k));
                assert(series[i].state.history@.is_prefix_of(series[n - 2].state.history@));
                assert(all[k] == before[k]);
            } else {
                let entries = history.subrange(from as int, history.len() as int);
                let started = track_of(runs[n], execution).started;
                assert(all[k] == more[k - from]);
                assert(entries[k - from] == history[k]);
                assert(history[k] == series.last().state.history@[k]);
                assert(more[k - from] == ended(entries, started)[k - from]);
                assert(started.contains(history[k].firing.0) == started_by(
                    series,
                    history[k].firing.0,
                    n,
                ));
            }
        }
    }
}

} // verus!

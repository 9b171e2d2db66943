//! What the public stream tells of an engine record.

use crate::events::{
    BranchResult, DerivedModel, EventModel, ForkDisposition, ForkOccurrence, Subject, ViewModel,
    WaitState,
};
use crate::events::derivation::{
    aftermath, all_killed_closed, branches_completed, cancelling, closing, completions,
    dead_firings, engine_step, own_step, refreshed, track_of, visit_completed, visit_seen,
    visits_completed, visits_seen, ProjectionModel, Readings, TrackModel, Views,
};
use crate::ids::{Attempt, ExecutionId, FiringId, NodeId};
use crate::model::{Graph, Node};
use crate::note::{progress_in, Parsed};
use crate::record::{event_of, Control, Event, EventRecord};
use crate::search::{first_where, last_where};
use crate::state::{BranchModel, EngineState, HistoryEntry, LiveFiring};
use vstd::prelude::*;

verus! {

// ── The views of a record ──────────────────────────────────────────────

/// Whether an event is a view of this kind.
pub open spec fn tells(event: EventModel, view: ViewModel) -> bool {
    event.derived == Some(DerivedModel::View(view))
}

/// Whether an event says that an attempt is to be retried.
pub open spec fn tells_retry(event: EventModel) -> bool {
    event.derived matches Some(DerivedModel::View(ViewModel::RetryScheduled { .. }))
}

/// Whether an event says that a firing waits in a state.
pub open spec fn tells_wait(event: EventModel, state: WaitState) -> bool {
    tells(event, ViewModel::WaitStateChanged { state })
}

/// The views that follow a record's own: visits, firings told to stop, and
/// forks that close.
pub(crate) closed spec fn follows(view: ViewModel) -> bool {
    match view {
        ViewModel::VisitStarted { .. } => true,
        ViewModel::VisitCompleted { .. } => true,
        ViewModel::BranchCompleted { .. } => true,
        ViewModel::ForkCompleted { .. } => true,
        ViewModel::WaitStateChanged { state } => state == WaitState::AwaitingAdmission || state
            == WaitState::Cancelling,
        _ => false,
    }
}

pub(crate) closed spec fn all_follow(views: Views) -> bool {
    forall|i: int| 0 <= i < views.len() ==> follows((#[trigger] views[i]).1)
}

/// What a track remembers that no later part of a record changes.
pub(crate) open spec fn kept(a: TrackModel, b: TrackModel) -> bool {
    &&& a.invocation == b.invocation
    &&& a.parent == b.parent
    &&& a.started == b.started
    &&& a.asking == b.asking
    &&& a.branches == b.branches
    &&& a.announced == b.announced
}

proof fn lemma_join(a: Views, b: Views)
    requires
        all_follow(a),
        all_follow(b),
    ensures
        all_follow(a + b),
{
    assert forall|i: int| 0 <= i < (a + b).len() implies follows((#[trigger] (a + b)[i]).1) by {
        if i < a.len() {
            assert((a + b)[i] == a[i]);
        } else {
            assert((a + b)[i] == b[i - a.len()]);
        }
    }
}

proof fn lemma_closing_follows(
    map: BranchModel,
    state: EngineState,
    subject: Subject,
    occurrence: ForkOccurrence,
    results: Seq<BranchResult>,
    disposition: ForkDisposition,
)
    ensures
        all_follow(closing(map, state, subject, occurrence, results, disposition)),
        all_follow(branches_completed(map, state, occurrence, results)),
    decreases results.len(),
{
    if results.len() > 0 {
        lemma_closing_follows(
            map,
            state,
            subject,
            occurrence,
            results.drop_last(),
            disposition,
        );
    }
}

proof fn lemma_seen_follows(
    track: TrackModel,
    execution: ExecutionId,
    state: EngineState,
    live: Seq<LiveFiring>,
)
    ensures
        all_follow(visits_seen(track, execution, state, live).1),
        kept(visits_seen(track, execution, state, live).0, track),
        visits_seen(track, execution, state, live).0.history == track.history,
    decreases live.len(),
{
    if live.len() > 0 {
        lemma_seen_follows(track, execution, state, live.drop_last());
        let before = visits_seen(track, execution, state, live.drop_last());
        lemma_one_seen_follows(before.0, execution, state, live.last());
        lemma_join(before.1, visit_seen(before.0, execution, state, live.last()).1);
    }
}

proof fn lemma_one_seen_follows(
    track: TrackModel,
    execution: ExecutionId,
    state: EngineState,
    seen: LiveFiring,
)
    ensures
        all_follow(visit_seen(track, execution, state, seen).1),
        kept(visit_seen(track, execution, state, seen).0, track),
        visit_seen(track, execution, state, seen).0.history == track.history,
{
    assert forall|subject: Subject, occurrence: ForkOccurrence, results: Seq<BranchResult>|
        all_follow(
            #[trigger] closing(
                track.branches,
                state,
                subject,
                occurrence,
                results,
                ForkDisposition::Joined,
            ),
        ) by {
        lemma_closing_follows(
            track.branches,
            state,
            subject,
            occurrence,
            results,
            ForkDisposition::Joined,
        );
    }
}

proof fn lemma_completed_follows(
    track: TrackModel,
    state: EngineState,
    entries: Seq<HistoryEntry>,
)
    ensures
        all_follow(visits_completed(track, state, entries).1),
        kept(visits_completed(track, state, entries).0, track),
    decreases entries.len(),
{
    if entries.len() > 0 {
        lemma_completed_follows(track, state, entries.drop_last());
        let before = visits_completed(track, state, entries.drop_last());
        lemma_one_completed_follows(before.0, state, entries.last());
        lemma_join(before.1, visit_completed(before.0, state, entries.last()).1);
    }
}

proof fn lemma_one_completed_follows(track: TrackModel, state: EngineState, entry: HistoryEntry)
    ensures
        all_follow(visit_completed(track, state, entry).1),
        kept(visit_completed(track, state, entry).0, track),
{
    assert forall|
        subject: Subject,
        occurrence: ForkOccurrence,
        results: Seq<BranchResult>,
        disposition: ForkDisposition,
    |
        all_follow(
            #[trigger] closing(track.branches, state, subject, occurrence, results, disposition),
        ) by {
        lemma_closing_follows(track.branches, state, subject, occurrence, results, disposition);
    }
}

proof fn lemma_killed_follows(track: TrackModel, state: EngineState, firings: Seq<FiringId>)
    ensures
        all_follow(all_killed_closed(track, state, firings).1),
        kept(all_killed_closed(track, state, firings).0, track),
    decreases firings.len(),
{
    if firings.len() > 0 {
        lemma_killed_follows(track, state, firings.drop_last());
        let before = all_killed_closed(track, state, firings.drop_last()).0;
        assert forall|subject: Subject, occurrence: ForkOccurrence, results: Seq<BranchResult>|
            all_follow(
                #[trigger] closing(
                    before.branches,
                    state,
                    subject,
                    occurrence,
                    results,
                    ForkDisposition::Killed,
                ),
            ) by {
            lemma_closing_follows(
                before.branches,
                state,
                subject,
                occurrence,
                results,
                ForkDisposition::Killed,
            );
        }
    }
}

proof fn lemma_cancelling_follows(map: BranchModel, state: EngineState, live: Seq<LiveFiring>)
    ensures
        all_follow(cancelling(map, state, live)),
    decreases live.len(),
{
    if live.len() > 0 {
        lemma_cancelling_follows(map, state, live.drop_last());
    }
}

/// What follows a record's own views, and what it leaves of the track.
pub(crate) proof fn lemma_aftermath_follows(
    track: TrackModel,
    execution: ExecutionId,
    event: Event,
    state: EngineState,
)
    ensures
        all_follow(aftermath(track, execution, event, state).1),
        kept(aftermath(track, execution, event, state).0, track),
{
    let seen = visits_seen(track, execution, state, state.live@);
    lemma_seen_follows(track, execution, state, state.live@);
    lemma_cancelling_follows(seen.0.branches, state, state.live@);
    let history = state.history@;
    if history.len() > seen.0.history {
        lemma_completed_follows(
            seen.0,
            state,
            history.subrange(seen.0.history as int, history.len() as int),
        );
    }
    let read = completions(seen.0, state);
    lemma_killed_follows(
        read.0,
        state,
        dead_firings(read.0.branches, state, read.0.open),
    );
}

/// The events of a record: its own, its own views, and what follows.
pub(crate) proof fn lemma_events(
    before: ProjectionModel,
    execution: ExecutionId,
    record: EventRecord,
    recorded_at: u64,
    state: EngineState,
    readings: Readings,
)
    ensures
        ({
            let track = refreshed(track_of(before, execution), state);
            let step = own_step(track, execution, event_of(record), state, readings);
            let (after, events) = engine_step(
                before,
                execution,
                record,
                recorded_at,
                state,
                readings,
            );
            &&& events.len() >= 1 + step.views.len()
            &&& events[0].subject == step.subject
            &&& events[0].derived == step.derived
            &&& forall|i: int|
                1 <= i <= step.views.len() ==> (#[trigger] events[i]).subject == step.views[i
                    - 1].0 && events[i].derived == Some(DerivedModel::View(step.views[i - 1].1))
            &&& forall|i: int|
                step.views.len() < i < events.len() ==> ((#[trigger] events[i]).derived matches Some(
                    DerivedModel::View(view),
                ) && follows(view))
            &&& after.executions.contains_key(execution.0)
            &&& kept(track_of(after, execution), step.track)
            &&& forall|other: u64|
                other != execution.0 ==> (#[trigger] after.executions.contains_key(other)
                    == before.executions.contains_key(other))
            &&& after.blank == before.blank
        }),
{
    let track = refreshed(track_of(before, execution), state);
    let step = own_step(track, execution, event_of(record), state, readings);
    let rest = aftermath(step.track, execution, event_of(record), state);
    lemma_aftermath_follows(step.track, execution, event_of(record), state);
    let events = engine_step(before, execution, record, recorded_at, state, readings).1;
    let views = step.views + rest.1;
    assert forall|i: int| step.views.len() < i < events.len() implies ((
    #[trigger] events[i]).derived matches Some(DerivedModel::View(view)) && follows(view)) by {
        assert(views[i - 1] == rest.1[i - 1 - step.views.len()]);
    }
}

// ── Attempts and retries ───────────────────────────────────────────────

/// Whether a graph has a node.
pub open spec fn has_node(graph: Graph, node: NodeId) -> bool {
    exists|k: int| 0 <= k < graph.nodes@.len() && (#[trigger] graph.nodes@[k]).id == node
}

/// Whether a firing is live or has a final record.
pub open spec fn occurs(state: EngineState, firing: FiringId) -> bool {
    ||| exists|i: int| 0 <= i < state.live@.len() && (#[trigger] state.live@[i]).id == firing
    ||| exists|i: int|
        0 <= i < state.history@.len() && (#[trigger] state.history@[i]).firing == firing
}

/// Whether every place a firing is named at is a node of the graph.
pub open spec fn placed_well(state: EngineState, firing: FiringId) -> bool {
    &&& forall|i: int|
        0 <= i < state.live@.len() && (#[trigger] state.live@[i]).id == firing ==> has_node(
            state.graph,
            state.live@[i].node,
        )
    &&& forall|i: int|
        0 <= i < state.history@.len() && (#[trigger] state.history@[i]).firing == firing
            ==> has_node(state.graph, state.history@[i].node)
}

/// Whether an attempt of a firing is the one its final record is of.
pub open spec fn recorded_final(state: EngineState, firing: FiringId, attempt: Attempt) -> bool {
    exists|i: int|
        0 <= i < state.history@.len() && (#[trigger] state.history@[i]).firing == firing
            && state.history@[i].attempt == attempt
}

/// What the first match of a sequence is.
pub(crate) proof fn lemma_first_where<T>(s: Seq<T>, p: spec_fn(T) -> bool)
    ensures
        match first_where(s, p) {
            Some(found) => exists|i: int|
                0 <= i < s.len() && #[trigger] s[i] == found && p(found) && forall|j: int|
                    0 <= j < i ==> !p(#[trigger] s[j]),
            None => forall|j: int| 0 <= j < s.len() ==> !p(#[trigger] s[j]),
        },
    decreases s.len(),
{
    if s.len() > 0 && !p(s.first()) {
        let t = s.drop_first();
        lemma_first_where(t, p);
        match first_where(t, p) {
            Some(found) => {
                let i = choose|i: int|
                    0 <= i < t.len() && #[trigger] t[i] == found && p(found) && forall|j: int|
                        0 <= j < i ==> !p(#[trigger] t[j]);
                assert(s[i + 1] == found);
                assert forall|j: int| 0 <= j < i + 1 implies !p(#[trigger] s[j]) by {
                    if j > 0 {
                        assert(t[j - 1] == s[j]);
                    }
                }
            },
            None => {
                assert forall|j: int| 0 <= j < s.len() implies !p(#[trigger] s[j]) by {
                    if j > 0 {
                        assert(t[j - 1] == s[j]);
                    }
                }
            },
        }
    } else if s.len() > 0 {
        assert(s[0] == s.first());
    }
}

/// What the last match of a sequence is.
pub(crate) proof fn lemma_last_where<T>(s: Seq<T>, p: spec_fn(T) -> bool)
    ensures
        match last_where(s, p) {
            Some(found) => exists|i: int|
                0 <= i < s.len() && #[trigger] s[i] == found && p(found) && forall|j: int|
                    i < j < s.len() ==> !p(#[trigger] s[j]),
            None => forall|j: int| 0 <= j < s.len() ==> !p(#[trigger] s[j]),
        },
    decreases s.len(),
{
    if s.len() > 0 && !p(s.last()) {
        let t = s.drop_last();
        lemma_last_where(t, p);
        match last_where(t, p) {
            Some(found) => {
                let i = choose|i: int|
                    0 <= i < t.len() && #[trigger] t[i] == found && p(found) && forall|j: int|
                        i < j < t.len() ==> !p(#[trigger] t[j]);
                assert(s[i] == found);
                assert forall|j: int| i < j < s.len() implies !p(#[trigger] s[j]) by {
                    if j < t.len() {
                        assert(t[j] == s[j]);
                    }
                }
            },
            None => {
                assert forall|j: int| 0 <= j < s.len() implies !p(#[trigger] s[j]) by {
                    if j < t.len() {
                        assert(t[j] == s[j]);
                    }
                }
            },
        }
    } else if s.len() > 0 {
        assert(s[s.len() - 1] == s.last());
    }
}

proof fn lemma_node(graph: Graph, node: NodeId)
    ensures
        graph.spec_node(node) is Some <==> has_node(graph, node),
        graph.spec_node(node) matches Some(found) ==> found.id == node,
{
    lemma_first_where(graph.nodes@, |n: Node| n.id == node);
}

proof fn lemma_firing_node(state: EngineState, firing: FiringId)
    ensures
        state.spec_firing_node(firing) is Some <==> occurs(state, firing),
        placed_well(state, firing) ==> (state.spec_firing_node(firing) matches Some(node)
            ==> has_node(state.graph, node)),
{
    lemma_first_where(state.live@, |live: LiveFiring| live.id == firing);
    lemma_last_where(state.history@, |entry: HistoryEntry| entry.firing == firing);
}

/// An attempt that returned is followed by a retry exactly when the engine
/// has no final record of it: then, and only then, the stream tells the next
/// attempt and its delay, and that the firing waits for it. The record's own
/// event says whether the attempt was final, and whether the policy had no
/// attempt left for a status it retries.
pub proof fn law_a_retry_is_told_unless_final(
    before: ProjectionModel,
    execution: ExecutionId,
    record: EventRecord,
    recorded_at: u64,
    state: EngineState,
    readings: Readings,
    firing: FiringId,
    attempt: Attempt,
)
    requires
        event_of(record) matches Event::StepFinished { firing: f, attempt: a, .. } && f == firing && a
            == attempt,
    ensures
        ({
            let events = engine_step(before, execution, record, recorded_at, state, readings).1;
            let is_final = recorded_final(state, firing, attempt);
            &&& occurs(state, firing) && placed_well(state, firing) && !is_final ==> {
                &&& events.len() >= 3
                &&& tells(
                    events[1],
                    ViewModel::RetryScheduled {
                        next_attempt: readings.retry.next_attempt,
                        base_delay_ms: readings.retry.base_delay_ms,
                    },
                )
                &&& tells_wait(events[2], WaitState::AwaitingRetry)
                &&& events[1].subject == events[0].subject
                &&& events[2].subject == events[0].subject
                &&& forall|i: int|
                    3 <= i < events.len() ==> !tells_retry(#[trigger] events[i]) && !tells_wait(
                        events[i],
                        WaitState::AwaitingRetry,
                    )
            }
            &&& is_final || !occurs(state, firing) ==> forall|i: int|
                0 <= i < events.len() ==> !tells_retry(#[trigger] events[i]) && !tells_wait(
                    events[i],
                    WaitState::AwaitingRetry,
                )
            &&& events[0].derived matches Some(DerivedModel::StepFinished { is_final: f, exhausted })
                && f == is_final && (occurs(state, firing) && placed_well(state, firing)
                ==> exhausted == (readings.retry.retryable && !readings.retry.another_attempt))
        }),
{
    lemma_events(before, execution, record, recorded_at, state, readings);
    lemma_firing_node(state, firing);
    if let Some(node) = state.spec_firing_node(firing) {
        lemma_node(state.graph, node);
    }
}

/// Only an attempt that returned schedules a retry.
pub proof fn law_only_a_returned_attempt_is_retried(
    before: ProjectionModel,
    execution: ExecutionId,
    record: EventRecord,
    recorded_at: u64,
    state: EngineState,
    readings: Readings,
)
    requires
        !(event_of(record) is StepFinished),
    ensures
        ({
            let events = engine_step(before, execution, record, recorded_at, state, readings).1;
            forall|i: int|
                0 <= i < events.len() ==> !tells_retry(#[trigger] events[i]) && !tells_wait(
                    events[i],
                    WaitState::AwaitingRetry,
                )
        }),
{
    lemma_events(before, execution, record, recorded_at, state, readings);
}

/// A dispatched attempt is told as running, and no other record but one that
/// ends a question's hold tells that.
pub proof fn law_a_dispatched_attempt_runs(
    before: ProjectionModel,
    execution: ExecutionId,
    record: EventRecord,
    recorded_at: u64,
    state: EngineState,
    readings: Readings,
)
    ensures
        ({
            let events = engine_step(before, execution, record, recorded_at, state, readings).1;
            &&& event_of(record) is StepStarted ==> events.len() >= 2 && tells_wait(
                events[1],
                WaitState::Running,
            ) && events[1].subject == events[0].subject && forall|i: int|
                2 <= i < events.len() ==> !tells_wait(#[trigger] events[i], WaitState::Running)
            &&& !(event_of(record) is StepStarted || event_of(record) is StepProgressRecorded
                || event_of(record) is ControlRequested) ==> forall|i: int|
                0 <= i < events.len() ==> !tells_wait(#[trigger] events[i], WaitState::Running)
        }),
{
    lemma_events(before, execution, record, recorded_at, state, readings);
}

// ── Questions ──────────────────────────────────────────────────────────

/// Whether a record reports a question of a firing.
pub open spec fn asks(record: EventRecord, readings: Readings, firing: FiringId) -> bool {
    event_of(record) matches Event::StepProgressRecorded { firing: f, ev } && f == firing
        && progress_in(ev, readings.steps) matches Some(Parsed::Question { .. })
}

/// Whether a record reports that a question of a firing expired.
pub open spec fn expires(record: EventRecord, readings: Readings, firing: FiringId) -> bool {
    event_of(record) matches Event::StepProgressRecorded { firing: f, ev } && f == firing
        && progress_in(ev, readings.steps) matches Some(Parsed::QuestionExpired { .. })
}

/// Whether a firing can take a control: it is live, was not told to stop, and
/// waits neither for a retry nor for its admission.
pub open spec fn receives(state: EngineState, firing: FiringId) -> bool {
    exists|i: int|
        0 <= i < state.live@.len() && (#[trigger] state.live@[i]).id == firing && !(exists|j: int|
            0 <= j < i && (#[trigger] state.live@[j]).id == firing) && !state.live@[i].cancelling
            && !state.live@[i].awaiting_retry && forall|k: int|
            0 <= k < state.awaiting_admission@.len() ==> #[trigger] state.awaiting_admission@[k]
                != firing
}

/// Whether a record delivers an answer to a firing that can take it.
pub open spec fn answers(
    record: EventRecord,
    readings: Readings,
    state: EngineState,
    firing: FiringId,
) -> bool {
    event_of(record) matches Event::ControlRequested { firing: f, ctl } && f == firing
        && ctl is Deliver && readings.answer is Some && receives(state, firing)
}

proof fn lemma_receives(state: EngineState, firing: FiringId)
    ensures
        crate::events::derivation::deliverable(state, firing) <==> receives(state, firing),
{
    lemma_first_where(state.live@, |live: LiveFiring| live.id == firing);
    let waits = state.awaiting_admission@;
    if waits.contains(firing) {
        let k = choose|k: int| 0 <= k < waits.len() && waits[k] == firing;
        assert(waits[k] == firing);
    }
    if let Some(live) = state.spec_firing(firing) {
        let i = choose|i: int|
            0 <= i < state.live@.len() && #[trigger] state.live@[i] == live && live.id == firing
                && forall|j: int| 0 <= j < i ==> !(#[trigger] state.live@[j].id == firing);
        assert(state.live@[i] == live);
        if receives(state, firing) {
            let n = choose|n: int|
                0 <= n < state.live@.len() && (#[trigger] state.live@[n]).id == firing && !(
                exists|j: int| 0 <= j < n && (#[trigger] state.live@[j]).id == firing)
                    && !state.live@[n].cancelling && !state.live@[n].awaiting_retry && forall|k: int|
                    0 <= k < waits.len() ==> #[trigger] waits[k] != firing;
            if i < n {
                assert(state.live@[i].id == firing);
            } else if n < i {
                assert(state.live@[n].id == firing);
            }
            assert(i == n);
        }
    }
}

/// A control's own event says whether the firing could take it, and carries
/// the answer a delivered value holds.
pub proof fn law_a_control_says_whether_it_is_taken(
    before: ProjectionModel,
    execution: ExecutionId,
    record: EventRecord,
    recorded_at: u64,
    state: EngineState,
    readings: Readings,
    firing: FiringId,
    ctl: Control,
)
    requires
        event_of(record) == (Event::ControlRequested { firing, ctl }),
    ensures
        ({
            let events = engine_step(before, execution, record, recorded_at, state, readings).1;
            events[0].derived matches Some(DerivedModel::ControlRequested { deliverable, answer })
                && deliverable == receives(state, firing) && answer == (if ctl is Deliver {
                readings.answer
            } else {
                None
            })
        }),
{
    lemma_events(before, execution, record, recorded_at, state, readings);
    lemma_receives(state, firing);
}

/// A question puts its firing on hold until it is lifted. What comes next for
/// the firing, an answer it can take or the question's expiry, tells that the
/// firing runs again, once: the same a second time tells nothing, and so does
/// either after the attempt returned.
pub proof fn law_a_question_holds_its_firing(
    before: ProjectionModel,
    execution: ExecutionId,
    firing: FiringId,
    asked: (EventRecord, u64, EngineState, Readings),
    lifted: (EventRecord, u64, EngineState, Readings),
    again: (EventRecord, u64, EngineState, Readings),
    finished: (EventRecord, u64, EngineState, Readings),
)
    requires
        asks(asked.0, asked.3, firing),
        expires(lifted.0, lifted.3, firing) || answers(lifted.0, lifted.3, lifted.2, firing),
        expires(again.0, again.3, firing) || answers(again.0, again.3, again.2, firing),
        event_of(finished.0) matches Event::StepFinished { firing: f, .. } && f == firing,
    ensures
        ({
            let (run, first) = engine_step(
                before,
                execution,
                asked.0,
                asked.1,
                asked.2,
                asked.3,
            );
            let (lift, second) = engine_step(
                run,
                execution,
                lifted.0,
                lifted.1,
                lifted.2,
                lifted.3,
            );
            let third = engine_step(lift, execution, again.0, again.1, again.2, again.3).1;
            let done = engine_step(
                run,
                execution,
                finished.0,
                finished.1,
                finished.2,
                finished.3,
            ).0;
            let late = engine_step(done, execution, again.0, again.1, again.2, again.3).1;
            &&& first.len() >= 2 && tells_wait(first[1], WaitState::AwaitingAnswer)
            &&& first[1].subject == first[0].subject
            &&& second.len() >= 2 && tells_wait(second[1], WaitState::Running)
            &&& second[1].subject == second[0].subject
            &&& forall|i: int|
                0 <= i < third.len() ==> !tells_wait(#[trigger] third[i], WaitState::Running)
            &&& forall|i: int|
                0 <= i < late.len() ==> !tells_wait(#[trigger] late[i], WaitState::Running)
        }),
{
    lemma_events(before, execution, asked.0, asked.1, asked.2, asked.3);
    let run = engine_step(before, execution, asked.0, asked.1, asked.2, asked.3).0;
    lemma_events(run, execution, lifted.0, lifted.1, lifted.2, lifted.3);
    lemma_receives(lifted.2, firing);
    let lift = engine_step(run, execution, lifted.0, lifted.1, lifted.2, lifted.3).0;
    lemma_events(lift, execution, again.0, again.1, again.2, again.3);
    lemma_receives(again.2, firing);
    lemma_events(run, execution, finished.0, finished.1, finished.2, finished.3);
    let done = engine_step(run, execution, finished.0, finished.1, finished.2, finished.3).0;
    lemma_events(done, execution, again.0, again.1, again.2, again.3);
}

/// Only a question's report puts a firing on hold.
pub proof fn law_only_a_question_awaits_an_answer(
    before: ProjectionModel,
    execution: ExecutionId,
    record: EventRecord,
    recorded_at: u64,
    state: EngineState,
    readings: Readings,
)
    requires
        forall|firing: FiringId| !asks(record, readings, firing),
    ensures
        ({
            let events = engine_step(before, execution, record, recorded_at, state, readings).1;
            forall|i: int|
                0 <= i < events.len() ==> !tells_wait(
                    #[trigger] events[i],
                    WaitState::AwaitingAnswer,
                )
        }),
{
    lemma_events(before, execution, record, recorded_at, state, readings);
    if let Event::StepProgressRecorded { firing, ev } = event_of(record) {
        assert(!asks(record, readings, firing));
    }
}

/// A control the firing cannot take, or one without an answer, lifts nothing.
pub proof fn law_only_an_answer_lifts_a_hold(
    before: ProjectionModel,
    execution: ExecutionId,
    record: EventRecord,
    recorded_at: u64,
    state: EngineState,
    readings: Readings,
)
    requires
        event_of(record) is ControlRequested,
        forall|firing: FiringId| !answers(record, readings, state, firing),
    ensures
        ({
            let (after, events) = engine_step(
                before,
                execution,
                record,
                recorded_at,
                state,
                readings,
            );
            &&& forall|i: int|
                0 <= i < events.len() ==> !tells_wait(#[trigger] events[i], WaitState::Running)
            &&& track_of(after, execution).asking == track_of(before, execution).asking
        }),
{
    lemma_events(before, execution, record, recorded_at, state, readings);
    if let Event::ControlRequested { firing, ctl } = event_of(record) {
        assert(!answers(record, readings, state, firing));
        lemma_receives(state, firing);
    }
}

} // verus!

//! A run followed through any number of reads: log by log, the reads tell
//! what one replay of the whole store tells.

use crate::event::CoordinatorRecord;
use crate::events::derivation::{after_lifecycle, blank_run, track_of, ProjectionModel};
use crate::events::follow::{
    advanced, caught_up, declares, fold_one, fold_some, followed, fresh_replay,
    law_engine_records_leave_the_places, law_other_records_leave_the_track, lemma_alike_streams,
    lemma_others_stay, lemma_piece_joins, lemma_read_is_piece, lemma_streams_together,
    lemma_whole_shown, place_in, placed_alike, replays, splits, tail_folded, tail_published,
    tail_read, tails_read, times_of, ExecutionTail, FollowModel, ReplayModel,
};
use crate::events::replay::{
    all_published, derive_all, held_times, law_derived_in_pieces, lemma_track_decides,
    lifecycle_stream, published, published_of, stream_of, AppliedEvent, LoadedExecution, LoadedRun,
    PublishedModel,
};
use crate::events::{EventModel, EventSource};
use crate::ids::ExecutionId;
use crate::record::EventRecord;
use vstd::prelude::*;

verus! {

// ── The events of one log ──────────────────────────────────────────────

/// The events of one log among events, in order.
pub open spec fn of_log(events: Seq<EventModel>, source: EventSource) -> Seq<EventModel>
    decreases events.len(),
{
    if events.len() == 0 {
        Seq::empty()
    } else {
        let before = of_log(events.drop_last(), source);
        if events.last().id.source == source {
            before.push(events.last())
        } else {
            before
        }
    }
}

proof fn lemma_of_log_together(a: Seq<EventModel>, b: Seq<EventModel>, source: EventSource)
    ensures
        of_log(a + b, source) == of_log(a, source) + of_log(b, source),
    decreases b.len(),
{
    if b.len() == 0 {
        assert(a + b =~= a);
        assert(of_log(a, source) + of_log(b, source) =~= of_log(a, source));
    } else {
        lemma_of_log_together(a, b.drop_last(), source);
        assert((a + b).drop_last() =~= a + b.drop_last());
        assert(of_log(a + b, source) =~= of_log(a, source) + of_log(b, source));
    }
}

proof fn lemma_of_log_all(events: Seq<EventModel>, source: EventSource)
    requires
        forall|i: int| 0 <= i < events.len() ==> (#[trigger] events[i]).id.source == source,
    ensures
        of_log(events, source) == events,
    decreases events.len(),
{
    if events.len() > 0 {
        let rest = events.drop_last();
        assert forall|i: int| 0 <= i < rest.len() implies (#[trigger] rest[i]).id.source
            == source by {
            assert(rest[i] == events[i]);
        }
        lemma_of_log_all(rest, source);
        assert(events[events.len() - 1].id.source == source);
        assert(of_log(events, source) =~= events);
    }
}

proof fn lemma_of_log_none(events: Seq<EventModel>, source: EventSource)
    requires
        forall|i: int| 0 <= i < events.len() ==> (#[trigger] events[i]).id.source != source,
    ensures
        of_log(events, source) == Seq::<EventModel>::empty(),
    decreases events.len(),
{
    if events.len() > 0 {
        let rest = events.drop_last();
        assert forall|i: int| 0 <= i < rest.len() implies (#[trigger] rest[i]).id.source
            != source by {
            assert(rest[i] == events[i]);
        }
        lemma_of_log_none(rest, source);
        assert(events[events.len() - 1].id.source != source);
    }
}

/// Whether an event is of the log of one of published records.
spec fn told_of(published: Seq<PublishedModel>, event: EventModel) -> bool {
    exists|j: int|
        0 <= j < published.len() && event.id.source == (EventSource::Execution {
            execution: (#[trigger] published[j]).execution,
        })
}

proof fn lemma_engine_sources(before: ProjectionModel, published: Seq<PublishedModel>)
    ensures
        forall|i: int|
            0 <= i < derive_all(before, published).1.len() ==> told_of(
                published,
                #[trigger] derive_all(before, published).1[i],
            ),
    decreases published.len(),
{
    if published.len() > 0 {
        let rest = published.drop_last();
        lemma_engine_sources(before, rest);
        let earlier = derive_all(before, rest).1;
        let events = derive_all(before, published).1;
        assert forall|i: int| 0 <= i < events.len() implies told_of(
            published,
            #[trigger] events[i],
        ) by {
            if i < earlier.len() {
                assert(events[i] == earlier[i]);
                assert(told_of(rest, earlier[i]));
                let j = choose|j: int|
                    0 <= j < rest.len() && earlier[i].id.source == (EventSource::Execution {
                        execution: (#[trigger] rest[j]).execution,
                    });
                assert(rest[j] == published[j]);
            } else {
                let last = published[published.len() - 1];
                assert(events[i].id.source == (EventSource::Execution {
                    execution: last.execution,
                }));
            }
        }
    }
}

/// The events of one execution's records are all of its log.
proof fn lemma_own_events(
    before: ProjectionModel,
    published: Seq<PublishedModel>,
    execution: ExecutionId,
)
    requires
        forall|i: int|
            0 <= i < published.len() ==> (#[trigger] published[i]).execution == execution,
    ensures
        of_log(derive_all(before, published).1, EventSource::Execution { execution })
            == derive_all(before, published).1,
{
    let events = derive_all(before, published).1;
    lemma_engine_sources(before, published);
    assert forall|i: int| 0 <= i < events.len() implies (#[trigger] events[i]).id.source
        == (EventSource::Execution { execution }) by {
        assert(told_of(published, events[i]));
    }
    lemma_of_log_all(events, EventSource::Execution { execution });
}

/// The events of other executions' records are not of an execution's log.
proof fn lemma_other_events(
    before: ProjectionModel,
    published: Seq<PublishedModel>,
    execution: ExecutionId,
)
    requires
        forall|i: int|
            0 <= i < published.len() ==> (#[trigger] published[i]).execution != execution,
    ensures
        of_log(derive_all(before, published).1, EventSource::Execution { execution }) == Seq::<
            EventModel,
        >::empty(),
{
    let events = derive_all(before, published).1;
    lemma_engine_sources(before, published);
    assert forall|i: int| 0 <= i < events.len() implies (#[trigger] events[i]).id.source
        != (EventSource::Execution { execution }) by {
        assert(told_of(published, events[i]));
    }
    lemma_of_log_none(events, EventSource::Execution { execution });
}

/// The events of engine records are not of the coordinator log.
proof fn lemma_engine_events(before: ProjectionModel, published: Seq<PublishedModel>)
    ensures
        of_log(derive_all(before, published).1, EventSource::Coordinator) == Seq::<
            EventModel,
        >::empty(),
{
    let events = derive_all(before, published).1;
    lemma_engine_sources(before, published);
    assert forall|i: int| 0 <= i < events.len() implies (#[trigger] events[i]).id.source
        != EventSource::Coordinator by {
        assert(told_of(published, events[i]));
    }
    lemma_of_log_none(events, EventSource::Coordinator);
}

proof fn lemma_lifecycle_sources(before: ProjectionModel, records: Seq<CoordinatorRecord>)
    ensures
        forall|i: int|
            0 <= i < lifecycle_stream(before, records).1.len() ==> (
            #[trigger] lifecycle_stream(before, records).1[i]).id.source
                == EventSource::Coordinator,
    decreases records.len(),
{
    if records.len() > 0 {
        let rest = records.drop_last();
        lemma_lifecycle_sources(before, rest);
        let earlier = lifecycle_stream(before, rest).1;
        let events = lifecycle_stream(before, records).1;
        assert forall|i: int| 0 <= i < events.len() implies (#[trigger] events[i]).id.source
            == EventSource::Coordinator by {
            if i < earlier.len() {
                assert(events[i] == earlier[i]);
            }
        }
    }
}

/// The events of coordinator records are all of the coordinator log.
proof fn lemma_lifecycle_events(
    before: ProjectionModel,
    records: Seq<CoordinatorRecord>,
    execution: ExecutionId,
)
    ensures
        of_log(lifecycle_stream(before, records).1, EventSource::Coordinator)
            == lifecycle_stream(before, records).1,
        of_log(lifecycle_stream(before, records).1, EventSource::Execution { execution })
            == Seq::<EventModel>::empty(),
{
    let events = lifecycle_stream(before, records).1;
    lemma_lifecycle_sources(before, records);
    lemma_of_log_all(events, EventSource::Coordinator);
    assert forall|i: int| 0 <= i < events.len() implies (#[trigger] events[i]).id.source
        != (EventSource::Execution { execution }) by {
        assert(events[i].id.source == EventSource::Coordinator);
    }
    lemma_of_log_none(events, EventSource::Execution { execution });
}

// ── A series of reads ──────────────────────────────────────────────────

/// One read of a run: the coordinator records past the ones consumed, and
/// the executions' tails.
pub struct ReadModel {
    pub records: Seq<CoordinatorRecord>,
    pub tails: Seq<ExecutionTail>,
}

/// The replay after the first reads of a series.
pub open spec fn replay_after(reads: Seq<ReadModel>, count: int) -> ReplayModel
    decreases count,
{
    if count <= 0 {
        fresh_replay()
    } else {
        advanced(
            replay_after(reads, count - 1),
            reads[count - 1].records,
            reads[count - 1].tails,
        ).0
    }
}

/// The events the first reads of a series hand back, in order.
pub open spec fn told_after(reads: Seq<ReadModel>, count: int) -> Seq<EventModel>
    decreases count,
{
    if count <= 0 {
        Seq::empty()
    } else {
        told_after(reads, count - 1) + advanced(
            replay_after(reads, count - 1),
            reads[count - 1].records,
            reads[count - 1].tails,
        ).1
    }
}

/// The coordinator records the first reads of a series hold.
pub open spec fn records_read(reads: Seq<ReadModel>, count: int) -> Seq<CoordinatorRecord>
    decreases count,
{
    if count <= 0 {
        Seq::empty()
    } else {
        records_read(reads, count - 1) + reads[count - 1].records
    }
}

/// The tail of an execution among tails.
pub open spec fn tail_of(tails: Seq<ExecutionTail>, execution: ExecutionId) -> Option<ExecutionTail>
    decreases tails.len(),
{
    if tails.len() == 0 {
        None
    } else if tails.last().execution == execution {
        Some(tails.last())
    } else {
        tail_of(tails.drop_last(), execution)
    }
}

/// How many records of an execution's log the first reads of a series hold.
pub open spec fn lines_read(reads: Seq<ReadModel>, execution: ExecutionId, count: int) -> nat
    decreases count,
{
    if count <= 0 {
        0
    } else {
        lines_read(reads, execution, count - 1) + match tail_of(
            reads[count - 1].tails,
            execution,
        ) {
            Some(tail) => tail.records@.len(),
            None => 0,
        }
    }
}

/// How many applies of an execution the first reads of a series hold.
pub open spec fn applies_read(reads: Seq<ReadModel>, execution: ExecutionId, count: int) -> nat
    decreases count,
{
    if count <= 0 {
        0
    } else {
        applies_read(reads, execution, count - 1) + match tail_of(
            reads[count - 1].tails,
            execution,
        ) {
            Some(tail) => tail.applies@.len(),
            None => 0,
        }
    }
}

/// Whether no two tails are of one execution.
pub open spec fn tails_differ(tails: Seq<ExecutionTail>) -> bool {
    forall|i: int, j: int|
        0 <= i < j < tails.len() ==> (#[trigger] tails[i]).execution != (
        #[trigger] tails[j]).execution
}

// ── What tails leave alone ─────────────────────────────────────────────

proof fn lemma_apply_is_own(
    execution: ExecutionId,
    applied: AppliedEvent,
    count: nat,
    from: nat,
    tail: Seq<(EventRecord, u64)>,
)
    ensures
        forall|i: int|
            0 <= i < tail_published(execution, applied, count, from, tail).len() ==> (
            #[trigger] tail_published(execution, applied, count, from, tail)[i]).execution
                == execution,
    decreases count,
{
    if count > 0 {
        lemma_apply_is_own(execution, applied, (count - 1) as nat, from, tail);
    }
}

proof fn lemma_fold_is_own(
    follow: FollowModel,
    execution: ExecutionId,
    tail: Seq<(EventRecord, u64)>,
    applies: Seq<AppliedEvent>,
    count: nat,
)
    ensures
        forall|i: int|
            0 <= i < fold_some(follow, execution, tail, applies, count).shown.len() ==> (
            #[trigger] fold_some(follow, execution, tail, applies, count).shown[i]).execution
                == execution,
    decreases count,
{
    if count > 0 {
        lemma_fold_is_own(follow, execution, tail, applies, (count - 1) as nat);
        let before = fold_some(follow, execution, tail, applies, (count - 1) as nat);
        let after = fold_one(before, execution, tail, applies, count - 1);
        if before.used < applies.len() {
            let applied = applies[before.used as int];
            lemma_apply_is_own(
                execution,
                applied,
                applied.records@.len(),
                before.follow.published,
                tail,
            );
        }
        assert forall|i: int| 0 <= i < after.shown.len() implies (
        #[trigger] after.shown[i]).execution == execution by {
            if i < before.shown.len() {
                assert(after.shown[i] == before.shown[i]);
            }
        }
    }
}

/// What a tail publishes is of its execution, and nothing when it holds no
/// records.
proof fn lemma_tail_is_own(follow: FollowModel, tail: ExecutionTail)
    ensures
        ({
            let shown = tail_folded(follow, tail.execution, tail.records@, tail.applies@).1;
            &&& forall|i: int|
                0 <= i < shown.len() ==> (#[trigger] shown[i]).execution == tail.execution
            &&& tail.records@.len() == 0 ==> shown == Seq::<PublishedModel>::empty()
        }),
{
    lemma_fold_is_own(
        follow,
        tail.execution,
        tail.records@,
        tail.applies@,
        tail.records@.len(),
    );
}

/// Tails of other executions, or without records, derive nothing of an
/// execution's log and leave its track.
proof fn lemma_other_tail(replay: ReplayModel, tail: ExecutionTail, execution: ExecutionId)
    requires
        tail.execution != execution || tail.records@.len() == 0,
    ensures
        of_log(tail_read(replay, tail).1, EventSource::Execution { execution }) == Seq::<
            EventModel,
        >::empty(),
        track_of(tail_read(replay, tail).0.run, execution) == track_of(replay.run, execution),
{
    if let Some(follow) = followed(replay, tail) {
        lemma_tail_is_own(follow, tail);
        let shown = tail_folded(follow, tail.execution, tail.records@, tail.applies@).1;
        assert forall|i: int| 0 <= i < shown.len() implies (#[trigger] shown[i]).execution
            != execution by {
            assert(shown[i].execution == tail.execution);
        }
        lemma_other_events(replay.run, shown, execution);
        law_other_records_leave_the_track(replay.run, execution, shown, Seq::empty());
    }
}

proof fn lemma_other_tails(replay: ReplayModel, tails: Seq<ExecutionTail>, execution: ExecutionId)
    requires
        forall|i: int|
            0 <= i < tails.len() ==> (#[trigger] tails[i]).execution != execution
                || tails[i].records@.len() == 0,
    ensures
        of_log(tails_read(replay, tails).1, EventSource::Execution { execution }) == Seq::<
            EventModel,
        >::empty(),
        track_of(tails_read(replay, tails).0.run, execution) == track_of(replay.run, execution),
    decreases tails.len(),
{
    if tails.len() > 0 {
        let rest = tails.drop_last();
        assert forall|i: int| 0 <= i < rest.len() implies (#[trigger] rest[i]).execution
            != execution || rest[i].records@.len() == 0 by {
            assert(rest[i] == tails[i]);
        }
        lemma_other_tails(replay, rest, execution);
        let before = tails_read(replay, rest);
        assert(tails[tails.len() - 1] == tails.last());
        lemma_other_tail(before.0, tails.last(), execution);
        lemma_of_log_together(
            before.1,
            tail_read(before.0, tails.last()).1,
            EventSource::Execution { execution },
        );
    }
}

proof fn lemma_alike_chain(a: ProjectionModel, b: ProjectionModel, c: ProjectionModel)
    requires
        placed_alike(a, b),
        placed_alike(b, c),
    ensures
        placed_alike(a, c),
{
    assert forall|execution: u64| #[trigger] place_in(a, execution) == place_in(c, execution) by {
        assert(place_in(a, execution) == place_in(b, execution));
        assert(place_in(b, execution) == place_in(c, execution));
    }
}

/// Tails derive nothing of the coordinator log and leave the places.
proof fn lemma_tails_keep_places(replay: ReplayModel, tails: Seq<ExecutionTail>)
    ensures
        placed_alike(tails_read(replay, tails).0.run, replay.run),
        of_log(tails_read(replay, tails).1, EventSource::Coordinator) == Seq::<
            EventModel,
        >::empty(),
    decreases tails.len(),
{
    if tails.len() > 0 {
        let rest = tails.drop_last();
        lemma_tails_keep_places(replay, rest);
        let before = tails_read(replay, rest);
        let tail = tails.last();
        let last = tail_read(before.0, tail);
        if let Some(follow) = followed(before.0, tail) {
            let shown = tail_folded(follow, tail.execution, tail.records@, tail.applies@).1;
            law_engine_records_leave_the_places(before.0.run, shown);
            lemma_engine_events(before.0.run, shown);
            lemma_alike_chain(last.0.run, before.0.run, replay.run);
        }
        lemma_of_log_together(before.1, last.1, EventSource::Coordinator);
    }
}

/// Runs that place alike and have one track of an execution have one track
/// of it after coordinator records.
proof fn lemma_alike_tracks(
    a: ProjectionModel,
    b: ProjectionModel,
    records: Seq<CoordinatorRecord>,
    execution: ExecutionId,
)
    requires
        placed_alike(a, b),
        track_of(a, execution) == track_of(b, execution),
    ensures
        track_of(lifecycle_stream(a, records).0, execution) == track_of(
            lifecycle_stream(b, records).0,
            execution,
        ),
    decreases records.len(),
{
    if records.len() > 0 {
        let rest = records.drop_last();
        lemma_alike_tracks(a, b, rest, execution);
        lemma_alike_streams(a, b, rest);
        let x = lifecycle_stream(a, rest).0;
        let y = lifecycle_stream(b, rest).0;
        assert(track_of(after_lifecycle(x, *records.last().body), execution) == track_of(
            after_lifecycle(y, *records.last().body),
            execution,
        ));
    }
}

// ── The coordinator log ────────────────────────────────────────────────

proof fn lemma_coordinator_so_far(reads: Seq<ReadModel>, count: int)
    requires
        0 <= count <= reads.len(),
    ensures
        placed_alike(
            replay_after(reads, count).run,
            lifecycle_stream(blank_run(), records_read(reads, count)).0,
        ),
        of_log(told_after(reads, count), EventSource::Coordinator) == lifecycle_stream(
            blank_run(),
            records_read(reads, count),
        ).1,
    decreases count,
{
    if count > 0 {
        lemma_coordinator_so_far(reads, count - 1);
        let read = reads[count - 1];
        let found = replay_after(reads, count - 1);
        let before = records_read(reads, count - 1);
        let whole = lifecycle_stream(blank_run(), before).0;
        let lifecycle = lifecycle_stream(found.run, read.records);
        lemma_alike_streams(found.run, whole, read.records);
        lemma_streams_together(blank_run(), before, read.records);
        let middle = ReplayModel {
            run: lifecycle.0,
            consumed: found.consumed + read.records.len(),
            executions: found.executions,
        };
        lemma_tails_keep_places(middle, read.tails);
        lemma_alike_chain(
            replay_after(reads, count).run,
            lifecycle.0,
            lifecycle_stream(blank_run(), records_read(reads, count)).0,
        );
        let told = tails_read(middle, read.tails).1;
        lemma_lifecycle_events(found.run, read.records, ExecutionId(0));
        lemma_of_log_together(lifecycle.1, told, EventSource::Coordinator);
        assert(lifecycle.1 + Seq::<EventModel>::empty() =~= lifecycle.1);
        lemma_of_log_together(
            told_after(reads, count - 1),
            lifecycle.1 + told,
            EventSource::Coordinator,
        );
    }
}

// ── One execution's log ────────────────────────────────────────────────

/// Whether a replay stands where the first `from` records of an execution's
/// log, and their applies, leave it. `lifecycle` is the run after the
/// coordinator records alone.
spec fn standing(
    replay: ReplayModel,
    execution: ExecutionId,
    lifecycle: ProjectionModel,
    stored: Seq<(EventRecord, u64)>,
    applies: Seq<AppliedEvent>,
    from: int,
    used: int,
) -> bool {
    let whole = published(execution, applies, times_of(stored));
    &&& track_of(replay.run, execution) == track_of(
        derive_all(lifecycle, whole.take(from)).0,
        execution,
    )
    &&& if replay.executions.contains_key(execution.0) {
        caught_up(replay.executions[execution.0], applies, from, used)
    } else {
        from == 0 && used == 0
    }
}

/// Whether a tail holds the records of a log from `from` to `to` and their
/// applies.
pub open spec fn tail_holds(
    replay: ReplayModel,
    tail: ExecutionTail,
    stored: Seq<(EventRecord, u64)>,
    applies: Seq<AppliedEvent>,
    from: int,
    used: int,
    to: int,
    used_to: int,
) -> bool {
    &&& followed(replay, tail) is Some
    &&& tail.records@ == stored.subrange(from, to)
    &&& tail.applies@ == applies.subrange(used, used_to)
    &&& splits(applies, to, used_to)
}

proof fn lemma_own_tail(
    replay: ReplayModel,
    tail: ExecutionTail,
    lifecycle: ProjectionModel,
    stored: Seq<(EventRecord, u64)>,
    applies: Seq<AppliedEvent>,
    from: int,
    used: int,
    to: int,
    used_to: int,
)
    requires
        replays(stored, applies),
        0 <= from <= to <= stored.len(),
        used <= used_to,
        standing(replay, tail.execution, lifecycle, stored, applies, from, used),
        tail_holds(replay, tail, stored, applies, from, used, to, used_to),
    ensures
        ({
            let execution = tail.execution;
            let whole = published(execution, applies, times_of(stored));
            let read = tail_read(replay, tail);
            &&& standing(read.0, execution, lifecycle, stored, applies, to, used_to)
            &&& derive_all(lifecycle, whole.take(to)).1 == derive_all(
                lifecycle,
                whole.take(from),
            ).1 + of_log(read.1, EventSource::Execution { execution })
        }),
{
    let execution = tail.execution;
    let whole = published(execution, applies, times_of(stored));
    let follow = followed(replay, tail)->0;
    assert(caught_up(follow, applies, from, used));
    lemma_read_is_piece(follow, execution, stored, applies, from, used, to, used_to);
    assert(applies.take(applies.len() as int) =~= applies);
    lemma_whole_shown(execution, stored, applies, applies.len() as int);
    let piece = whole.subrange(from, to);
    assert(whole.take(to) =~= whole.take(from) + piece);
    lemma_piece_joins(lifecycle, replay.run, whole.take(from), piece, execution);
    lemma_own_events(replay.run, piece, execution);
}

proof fn lemma_tails_of(
    replay: ReplayModel,
    tails: Seq<ExecutionTail>,
    execution: ExecutionId,
    lifecycle: ProjectionModel,
    stored: Seq<(EventRecord, u64)>,
    applies: Seq<AppliedEvent>,
    from: int,
    used: int,
    to: int,
    used_to: int,
)
    requires
        replays(stored, applies),
        tails_differ(tails),
        0 <= from <= to <= stored.len(),
        used <= used_to,
        standing(replay, execution, lifecycle, stored, applies, from, used),
        match tail_of(tails, execution) {
            Some(tail) => tail_holds(replay, tail, stored, applies, from, used, to, used_to),
            None => to == from && used_to == used,
        },
    ensures
        ({
            let whole = published(execution, applies, times_of(stored));
            let read = tails_read(replay, tails);
            &&& standing(read.0, execution, lifecycle, stored, applies, to, used_to)
            &&& derive_all(lifecycle, whole.take(to)).1 == derive_all(
                lifecycle,
                whole.take(from),
            ).1 + of_log(read.1, EventSource::Execution { execution })
        }),
    decreases tails.len(),
{
    let whole = published(execution, applies, times_of(stored));
    let source = EventSource::Execution { execution };
    let told = derive_all(lifecycle, whole.take(from)).1;
    if tails.len() == 0 {
        assert(told + Seq::<EventModel>::empty() =~= told);
    } else {
        let rest = tails.drop_last();
        let tail = tails.last();
        let before = tails_read(replay, rest);
        let last = tail_read(before.0, tail);
        assert(tails_differ(rest)) by {
            assert forall|i: int, j: int| 0 <= i < j < rest.len() implies (
            #[trigger] rest[i]).execution != (#[trigger] rest[j]).execution by {
                assert(tails[i].execution != tails[j].execution);
            }
        }
        lemma_of_log_together(before.1, last.1, source);
        if tail.execution == execution {
            assert forall|i: int| 0 <= i < rest.len() implies (#[trigger] rest[i]).execution
                != execution by {
                assert(rest[i] == tails[i]);
                assert(tails[i].execution != tails[tails.len() - 1].execution);
            }
            assert forall|i: int| 0 <= i < rest.len() implies (#[trigger] rest[i]).execution.0
                != execution.0 by {
                assert(rest[i].execution != execution);
            }
            lemma_other_tails(replay, rest, execution);
            lemma_others_stay(replay, rest, execution.0);
            lemma_own_tail(before.0, tail, lifecycle, stored, applies, from, used, to, used_to);
            assert(Seq::<EventModel>::empty() + of_log(last.1, source) =~= of_log(last.1, source));
        } else {
            lemma_tails_of(
                replay,
                rest,
                execution,
                lifecycle,
                stored,
                applies,
                from,
                used,
                to,
                used_to,
            );
            lemma_other_tail(before.0, tail, execution);
            assert(tail.execution.0 != execution.0);
            assert(of_log(before.1, source) + Seq::<EventModel>::empty() =~= of_log(
                before.1,
                source,
            ));
        }
    }
}

/// A stored log's records with their recording times.
pub open spec fn stored_lines(loaded: LoadedExecution) -> Seq<(EventRecord, u64)> {
    Seq::new(loaded.records@.len(), |i: int| (loaded.records@[i], loaded.recorded_at@[i]))
}

/// Whether one read of a series goes on with an execution's log: it holds
/// the log's next records and their applies, if any, and declares the
/// execution only before records of it were read.
pub open spec fn log_read_on(reads: Seq<ReadModel>, loaded: LoadedExecution, k: int) -> bool {
    let execution = loaded.execution;
    &&& lines_read(reads, execution, k) > 0 ==> forall|i: int|
        0 <= i < reads[k].records.len() ==> !declares(
            *(#[trigger] reads[k].records[i]).body,
            execution,
        )
    &&& tail_of(reads[k].tails, execution) matches Some(tail) ==> tail_holds(
        replay_after(reads, k),
        tail,
        stored_lines(loaded),
        loaded.applied@,
        lines_read(reads, execution, k) as int,
        applies_read(reads, execution, k) as int,
        lines_read(reads, execution, k + 1) as int,
        applies_read(reads, execution, k + 1) as int,
    )
}

/// Whether a series of reads reads an execution's log from its start to its
/// end, and the log is what its external records replay to.
pub open spec fn log_read(reads: Seq<ReadModel>, loaded: LoadedExecution) -> bool {
    &&& loaded.recorded_at@.len() == loaded.records@.len()
    &&& replays(stored_lines(loaded), loaded.applied@)
    &&& lines_read(reads, loaded.execution, reads.len() as int) == loaded.records@.len()
    &&& forall|k: int| 0 <= k < reads.len() ==> #[trigger] log_read_on(reads, loaded, k)
}

proof fn lemma_lines_grow(reads: Seq<ReadModel>, execution: ExecutionId, a: int, b: int)
    requires
        0 <= a <= b,
    ensures
        lines_read(reads, execution, a) <= lines_read(reads, execution, b),
    decreases b - a,
{
    if a < b {
        lemma_lines_grow(reads, execution, a, b - 1);
    }
}

/// The coordinator records of one more read leave a replay standing.
proof fn lemma_records_of(
    replay: ReplayModel,
    before: Seq<CoordinatorRecord>,
    records: Seq<CoordinatorRecord>,
    execution: ExecutionId,
    stored: Seq<(EventRecord, u64)>,
    applies: Seq<AppliedEvent>,
    from: int,
    used: int,
)
    requires
        replays(stored, applies),
        0 <= from <= stored.len(),
        placed_alike(replay.run, lifecycle_stream(blank_run(), before).0),
        standing(
            replay,
            execution,
            lifecycle_stream(blank_run(), before).0,
            stored,
            applies,
            from,
            used,
        ),
        from > 0 ==> forall|i: int|
            0 <= i < records.len() ==> !declares(*(#[trigger] records[i]).body, execution),
    ensures
        ({
            let whole = published(execution, applies, times_of(stored));
            let lifecycle = lifecycle_stream(blank_run(), before).0;
            let later = lifecycle_stream(blank_run(), before + records).0;
            &&& standing(
                ReplayModel {
                    run: lifecycle_stream(replay.run, records).0,
                    consumed: replay.consumed + records.len(),
                    executions: replay.executions,
                },
                execution,
                later,
                stored,
                applies,
                from,
                used,
            )
            &&& derive_all(later, whole.take(from)).1 == derive_all(lifecycle, whole.take(from)).1
        }),
{
    let whole = published(execution, applies, times_of(stored));
    let lifecycle = lifecycle_stream(blank_run(), before).0;
    let later = lifecycle_stream(blank_run(), before + records).0;
    lemma_streams_together(blank_run(), before, records);
    if from == 0 {
        assert(whole.take(0) =~= Seq::empty());
        lemma_alike_tracks(replay.run, lifecycle, records, execution);
    } else {
        law_other_records_leave_the_track(replay.run, execution, Seq::empty(), records);
        law_other_records_leave_the_track(lifecycle, execution, Seq::empty(), records);
        assert(applies.take(applies.len() as int) =~= applies);
        lemma_whole_shown(execution, stored, applies, applies.len() as int);
        let part = whole.take(from);
        assert forall|i: int| 0 <= i < part.len() implies (#[trigger] part[i]).execution
            == execution by {
            assert(part[i] == whole[i]);
        }
        lemma_track_decides(later, lifecycle, part, execution);
    }
}

proof fn lemma_log_so_far(reads: Seq<ReadModel>, loaded: LoadedExecution, count: int)
    requires
        0 <= count <= reads.len(),
        log_read(reads, loaded),
        forall|k: int| 0 <= k < reads.len() ==> tails_differ((#[trigger] reads[k]).tails),
    ensures
        ({
            let execution = loaded.execution;
            let stored = stored_lines(loaded);
            let applies = loaded.applied@;
            let lifecycle = lifecycle_stream(blank_run(), records_read(reads, count)).0;
            let whole = published(execution, applies, times_of(stored));
            let from = lines_read(reads, execution, count) as int;
            &&& standing(
                replay_after(reads, count),
                execution,
                lifecycle,
                stored,
                applies,
                from,
                applies_read(reads, execution, count) as int,
            )
            &&& of_log(told_after(reads, count), EventSource::Execution { execution })
                == derive_all(lifecycle, whole.take(from)).1
        }),
    decreases count,
{
    let execution = loaded.execution;
    let source = EventSource::Execution { execution };
    let stored = stored_lines(loaded);
    let applies = loaded.applied@;
    let whole = published(execution, applies, times_of(stored));
    if count == 0 {
        assert(whole.take(0) =~= Seq::empty());
    } else {
        lemma_log_so_far(reads, loaded, count - 1);
        lemma_coordinator_so_far(reads, count - 1);
        let k = count - 1;
        assert(log_read_on(reads, loaded, k));
        lemma_lines_grow(reads, execution, k, k + 1);
        lemma_lines_grow(reads, execution, k + 1, reads.len() as int);
        let read = reads[k];
        let found = replay_after(reads, k);
        let before = records_read(reads, k);
        let from = lines_read(reads, execution, k) as int;
        let used = applies_read(reads, execution, k) as int;
        let to = lines_read(reads, execution, k + 1) as int;
        let used_to = applies_read(reads, execution, k + 1) as int;
        lemma_records_of(
            found,
            before,
            read.records,
            execution,
            stored,
            applies,
            from,
            used,
        );
        let lifecycle = lifecycle_stream(found.run, read.records);
        let middle = ReplayModel {
            run: lifecycle.0,
            consumed: found.consumed + read.records.len(),
            executions: found.executions,
        };
        let later = lifecycle_stream(blank_run(), records_read(reads, count)).0;
        lemma_tails_of(
            middle,
            read.tails,
            execution,
            later,
            stored,
            applies,
            from,
            used,
            to,
            used_to,
        );
        let told = tails_read(middle, read.tails).1;
        lemma_lifecycle_events(found.run, read.records, execution);
        lemma_of_log_together(lifecycle.1, told, source);
        assert(Seq::<EventModel>::empty() + of_log(told, source) =~= of_log(told, source));
        lemma_of_log_together(told_after(reads, k), lifecycle.1 + told, source);
    }
}

// ── The whole run ──────────────────────────────────────────────────────

/// What an execution of a loaded run publishes.
spec fn published_by(loaded: LoadedExecution) -> Seq<PublishedModel> {
    published(
        loaded.execution,
        loaded.applied@,
        held_times(loaded.recorded_at@, loaded.records@.len()),
    )
}

proof fn lemma_published_is_own(
    execution: ExecutionId,
    applied: Seq<AppliedEvent>,
    recorded_at: Seq<u64>,
)
    ensures
        forall|i: int|
            0 <= i < published(execution, applied, recorded_at).len() ==> (
            #[trigger] published(execution, applied, recorded_at)[i]).execution == execution,
    decreases applied.len(),
{
    if applied.len() > 0 {
        lemma_published_is_own(execution, applied.drop_last(), recorded_at);
        lemma_published_of_is_own(
            execution,
            applied.last(),
            applied.last().records@.len(),
            recorded_at,
        );
    }
}

proof fn lemma_published_of_is_own(
    execution: ExecutionId,
    applied: AppliedEvent,
    count: nat,
    recorded_at: Seq<u64>,
)
    ensures
        forall|i: int|
            0 <= i < published_of(execution, applied, count, recorded_at).len() ==> (
            #[trigger] published_of(execution, applied, count, recorded_at)[i]).execution
                == execution,
    decreases count,
{
    if count > 0 {
        lemma_published_of_is_own(execution, applied, (count - 1) as nat, recorded_at);
    }
}

/// Other executions publish no record of an execution.
proof fn lemma_others_published(executions: Seq<LoadedExecution>, execution: ExecutionId)
    requires
        forall|x: int|
            0 <= x < executions.len() ==> (#[trigger] executions[x]).execution != execution,
    ensures
        forall|i: int|
            0 <= i < all_published(executions).len() ==> (
            #[trigger] all_published(executions)[i]).execution != execution,
    decreases executions.len(),
{
    if executions.len() > 0 {
        let rest = executions.drop_last();
        let last = executions[executions.len() - 1];
        assert forall|x: int| 0 <= x < rest.len() implies (#[trigger] rest[x]).execution
            != execution by {
            assert(rest[x] == executions[x]);
        }
        lemma_others_published(rest, execution);
        lemma_published_is_own(
            last.execution,
            last.applied@,
            held_times(last.recorded_at@, last.records@.len()),
        );
        let all = all_published(executions);
        assert forall|i: int| 0 <= i < all.len() implies (#[trigger] all[i]).execution
            != execution by {
            if i < all_published(rest).len() {
                assert(all[i] == all_published(rest)[i]);
            } else {
                assert(all[i] == published_by(last)[i - all_published(rest).len()]);
            }
        }
    }
}

/// Whether no two executions of a run are one.
pub open spec fn executions_differ(executions: Seq<LoadedExecution>) -> bool {
    forall|x: int, y: int|
        0 <= x < y < executions.len() ==> (#[trigger] executions[x]).execution != (
        #[trigger] executions[y]).execution
}

/// In the stream of a run, an execution's log tells what it tells alone.
proof fn lemma_stream_of_one(
    lifecycle: ProjectionModel,
    executions: Seq<LoadedExecution>,
    x: int,
)
    requires
        executions_differ(executions),
        0 <= x < executions.len(),
    ensures
        of_log(
            derive_all(lifecycle, all_published(executions)).1,
            EventSource::Execution { execution: executions[x].execution },
        ) == derive_all(lifecycle, published_by(executions[x])).1,
    decreases executions.len(),
{
    let execution = executions[x].execution;
    let source = EventSource::Execution { execution };
    let rest = executions.drop_last();
    let last = executions[executions.len() - 1];
    let before = derive_all(lifecycle, all_published(rest));
    let own = published_by(last);
    law_derived_in_pieces(lifecycle, all_published(rest), own);
    lemma_of_log_together(before.1, derive_all(before.0, own).1, source);
    lemma_published_is_own(
        last.execution,
        last.applied@,
        held_times(last.recorded_at@, last.records@.len()),
    );
    if x == executions.len() - 1 {
        assert forall|y: int| 0 <= y < rest.len() implies (#[trigger] rest[y]).execution
            != execution by {
            assert(rest[y] == executions[y]);
            assert(executions[y].execution != executions[x].execution);
        }
        lemma_others_published(rest, execution);
        lemma_other_events(lifecycle, all_published(rest), execution);
        law_other_records_leave_the_track(
            lifecycle,
            execution,
            all_published(rest),
            Seq::empty(),
        );
        lemma_track_decides(before.0, lifecycle, own, execution);
        lemma_own_events(before.0, own, execution);
        let told = derive_all(before.0, own).1;
        assert(Seq::<EventModel>::empty() + told =~= told);
    } else {
        assert(executions_differ(rest)) by {
            assert forall|a: int, b: int| 0 <= a < b < rest.len() implies (
            #[trigger] rest[a]).execution != (#[trigger] rest[b]).execution by {
                assert(executions[a].execution != executions[b].execution);
            }
        }
        assert(rest[x] == executions[x]);
        lemma_stream_of_one(lifecycle, rest, x);
        assert(executions[x].execution != executions[executions.len() - 1].execution);
        lemma_other_events(before.0, own, execution);
        let told = of_log(before.1, source);
        assert(told + Seq::<EventModel>::empty() =~= told);
    }
}

/// Whether a run holds the log of an execution.
pub open spec fn holds_log(run: LoadedRun, execution: ExecutionId) -> bool {
    exists|x: int|
        0 <= x < run.executions@.len() && (#[trigger] run.executions@[x]).execution == execution
}

/// Whether a series of reads reads a run's whole store: its coordinator log
/// and every execution's log, and records of no other execution.
pub open spec fn store_read(reads: Seq<ReadModel>, run: LoadedRun) -> bool {
    &&& records_read(reads, reads.len() as int) == run.coordinator@
    &&& executions_differ(run.executions@)
    &&& forall|x: int|
        0 <= x < run.executions@.len() ==> log_read(reads, #[trigger] run.executions@[x])
    &&& forall|k: int| 0 <= k < reads.len() ==> tails_differ((#[trigger] reads[k]).tails)
    &&& forall|k: int, i: int|
        0 <= k < reads.len() && 0 <= i < reads[k].tails.len() ==> (
        #[trigger] reads[k].tails[i]).records@.len() == 0 || holds_log(
            run,
            reads[k].tails[i].execution,
        )
}

proof fn lemma_unread_so_far(reads: Seq<ReadModel>, execution: ExecutionId, count: int)
    requires
        0 <= count <= reads.len(),
        forall|k: int, i: int|
            0 <= k < reads.len() && 0 <= i < reads[k].tails.len() ==> (
            #[trigger] reads[k].tails[i]).records@.len() == 0 || reads[k].tails[i].execution
                != execution,
    ensures
        of_log(told_after(reads, count), EventSource::Execution { execution }) == Seq::<
            EventModel,
        >::empty(),
    decreases count,
{
    if count > 0 {
        lemma_unread_so_far(reads, execution, count - 1);
        let source = EventSource::Execution { execution };
        let k = count - 1;
        let read = reads[k];
        let found = replay_after(reads, k);
        let lifecycle = lifecycle_stream(found.run, read.records);
        let middle = ReplayModel {
            run: lifecycle.0,
            consumed: found.consumed + read.records.len(),
            executions: found.executions,
        };
        assert forall|i: int| 0 <= i < read.tails.len() implies (
        #[trigger] read.tails[i]).execution != execution || read.tails[i].records@.len() == 0 by {
            assert(reads[k].tails[i] == read.tails[i]);
        }
        lemma_other_tails(middle, read.tails, execution);
        lemma_lifecycle_events(found.run, read.records, execution);
        let told = tails_read(middle, read.tails).1;
        lemma_of_log_together(lifecycle.1, told, source);
        lemma_of_log_together(told_after(reads, k), lifecycle.1 + told, source);
    }
}

/// A replay advanced over a run in any number of reads hands back, log by
/// log, the events of the replay of the whole run, in the same order and
/// with the same ids.
pub proof fn law_advances_are_the_replay(
    reads: Seq<ReadModel>,
    run: LoadedRun,
    source: EventSource,
)
    requires
        store_read(reads, run),
    ensures
        of_log(told_after(reads, reads.len() as int), source) == of_log(stream_of(run), source),
{
    let count = reads.len() as int;
    let lifecycle = lifecycle_stream(blank_run(), run.coordinator@);
    let engine = derive_all(lifecycle.0, all_published(run.executions@)).1;
    lemma_of_log_together(lifecycle.1, engine, source);
    lemma_coordinator_so_far(reads, count);
    match source {
        EventSource::Coordinator => {
            lemma_lifecycle_events(blank_run(), run.coordinator@, ExecutionId(0));
            lemma_engine_events(lifecycle.0, all_published(run.executions@));
            assert(lifecycle.1 + Seq::<EventModel>::empty() =~= lifecycle.1);
        },
        EventSource::Execution { execution } => {
            lemma_lifecycle_events(blank_run(), run.coordinator@, execution);
            assert(Seq::<EventModel>::empty() + of_log(engine, source) =~= of_log(engine, source));
            if holds_log(run, execution) {
                let x = choose|x: int|
                    0 <= x < run.executions@.len() && (#[trigger] run.executions@[x]).execution
                        == execution;
                let loaded = run.executions@[x];
                lemma_log_so_far(reads, loaded, count);
                lemma_stream_of_one(lifecycle.0, run.executions@, x);
                let stored = stored_lines(loaded);
                assert(times_of(stored) =~= loaded.recorded_at@);
                let whole = published_by(loaded);
                assert(loaded.applied@.take(loaded.applied@.len() as int) =~= loaded.applied@);
                lemma_whole_shown(execution, stored, loaded.applied@, loaded.applied@.len() as int);
                assert(whole.take(loaded.records@.len() as int) =~= whole);
            } else {
                assert forall|y: int| 0 <= y < run.executions@.len() implies (
                #[trigger] run.executions@[y]).execution != execution by {}
                lemma_others_published(run.executions@, execution);
                lemma_other_events(lifecycle.0, all_published(run.executions@), execution);
                assert forall|k: int, i: int|
                    0 <= k < reads.len() && 0 <= i < reads[k].tails.len() implies (
                #[trigger] reads[k].tails[i]).records@.len() == 0 || reads[k].tails[i].execution
                    != execution by {
                    assert(reads[k].tails[i].records@.len() == 0 || holds_log(
                        run,
                        reads[k].tails[i].execution,
                    ));
                }
                lemma_unread_so_far(reads, execution, count);
            }
        },
    }
}

/// A read that finds nothing appended hands back nothing and leaves the
/// run's derivation as it was.
pub proof fn law_an_idle_read_tells_nothing(replay: ReplayModel, tails: Seq<ExecutionTail>)
    requires
        forall|i: int| 0 <= i < tails.len() ==> (#[trigger] tails[i]).records@.len() == 0,
    ensures
        advanced(replay, Seq::empty(), tails).1 == Seq::<EventModel>::empty(),
        advanced(replay, Seq::empty(), tails).0.run == replay.run,
        advanced(replay, Seq::empty(), tails).0.consumed == replay.consumed,
{
    lemma_idle_tails(replay, tails);
    assert(Seq::<EventModel>::empty() + Seq::<EventModel>::empty()
        =~= Seq::<EventModel>::empty());
}

proof fn lemma_idle_tails(replay: ReplayModel, tails: Seq<ExecutionTail>)
    requires
        forall|i: int| 0 <= i < tails.len() ==> (#[trigger] tails[i]).records@.len() == 0,
    ensures
        tails_read(replay, tails).1 == Seq::<EventModel>::empty(),
        tails_read(replay, tails).0.run == replay.run,
        tails_read(replay, tails).0.consumed == replay.consumed,
    decreases tails.len(),
{
    if tails.len() > 0 {
        let rest = tails.drop_last();
        let tail = tails[tails.len() - 1];
        assert forall|i: int| 0 <= i < rest.len() implies (#[trigger] rest[i]).records@.len()
            == 0 by {
            assert(rest[i] == tails[i]);
        }
        lemma_idle_tails(replay, rest);
        let before = tails_read(replay, rest);
        if let Some(follow) = followed(before.0, tail) {
            lemma_tail_is_own(follow, tail);
        }
        assert(before.1 + tail_read(before.0, tail).1 =~= Seq::<EventModel>::empty());
    }
}

} // verus!

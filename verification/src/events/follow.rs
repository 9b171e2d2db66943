//! A run's replay kept between reads, for a consumer that follows a live run
//! through its store: each advance folds the records past the ones consumed
//! and hands back their events alone.

use crate::event::{lifecycle_of, CoordinatorEvent, CoordinatorRecord};
use crate::events::derivation::{
    after_lifecycle, aftermath, all_killed_closed, blank_run, completions, dead_firings,
    engine_step, lifecycle_events, lifecycle_place, own_step, refreshed, track_of,
    visits_completed, visits_seen, ProjectionModel, Readings, TrackModel,
};
use crate::events::projection::Projection;
use crate::events::replay::{
    all_read, derive_all, law_derived_in_pieces, lemma_track_decides, lifecycle_stream, published,
    published_of, put_after, AppliedEvent, PublishedModel,
};
use crate::events::{event_models, EventModel, RunEvent};
use crate::ids::{ExecutionId, FiringId, InvocationId};
use crate::record::{event_of, Event, EventOrigin, EventRecord};
use crate::run_state::StateError;
use crate::search::{lemma_place_is, place_from, reversed};
use crate::state::{EngineState, HistoryEntry, LiveFiring};
use crate::table::Table;
use vstd::prelude::*;

verus! {

// ── What one read holds ────────────────────────────────────────────────

/// The first of coordinator records past `consumed` that is out of its
/// place.
pub open spec fn first_out_of_sequence(records: Seq<CoordinatorRecord>, consumed: int) -> int {
    place_from(records, |at: int, record: CoordinatorRecord| record.seq != consumed + at, 0)
}

/// Why coordinator records do not follow the consumed ones: a record out of
/// its place, or a run that never started.
pub open spec fn refused(records: Seq<CoordinatorRecord>, consumed: int, started: bool) -> Option<
    StateError,
> {
    let at = first_out_of_sequence(records, consumed);
    if at < records.len() {
        Some(StateError::Sequence { index: (consumed + at) as usize, found: records[at].seq })
    } else if !started {
        Some(StateError::MissingRunStart)
    } else {
        None
    }
}

// ── One execution ──────────────────────────────────────────────────────

/// What a stored record asks for.
#[derive(Clone, Copy, Debug, PartialEq, Eq, Structural)]
pub enum TailStep {
    /// Its events were handed out, or it is one replay does not regenerate.
    Pass,
    /// The engine holds it already: regenerated by the last apply before the
    /// log held it, and published now.
    Publish,
    /// The engine has still to apply it.
    Apply,
}

/// What a stored record asks for, when `next` is the next seq to publish and
/// the engine's log holds `held` records.
pub open spec fn tail_step(seq: u64, origin: EventOrigin, next: nat, held: nat) -> TailStep {
    if seq < next {
        TailStep::Pass
    } else if seq < held {
        TailStep::Publish
    } else if origin != EventOrigin::External {
        TailStep::Pass
    } else {
        TailStep::Apply
    }
}

/// Whether the engine, whose log holds `held` records, has still to apply a
/// stored record.
pub fn asks_apply(record: &EventRecord, held: usize) -> (asks: bool)
    ensures
        asks == (tail_step(record.seq, record.origin, 0, held as nat) is Apply),
{
    record.seq >= held as u64 && record.origin == EventOrigin::External
}

/// What one read holds of an execution's log past the published records.
#[derive(Debug)]
pub struct ExecutionTail {
    pub execution: ExecutionId,
    /// The state the execution starts in, for one followed from now on.
    pub start: Option<EngineState>,
    /// The stored records with their recording times.
    pub records: Vec<(EventRecord, u64)>,
    /// What the engine did with the records it had still to apply, in order.
    pub applies: Vec<AppliedEvent>,
}

/// One execution's replay: the engine's log and its state after the last
/// apply, and how far into the stored log the events were published.
#[derive(Debug)]
pub struct ExecutionReplay {
    log: Vec<EventRecord>,
    readings: Vec<Readings>,
    state: EngineState,
    published: u64,
}

/// A followed execution, with its lists as sequences.
pub struct FollowModel {
    pub log: Seq<EventRecord>,
    /// What each record of the log reads as.
    pub readings: Seq<Readings>,
    pub state: EngineState,
    /// Stored records whose events were published: every seq below it.
    pub published: nat,
}

impl View for ExecutionReplay {
    type V = FollowModel;

    closed spec fn view(&self) -> FollowModel {
        FollowModel {
            log: self.log@,
            readings: self.readings@,
            state: self.state,
            published: self.published as nat,
        }
    }
}

/// An execution nothing was published of.
pub open spec fn unfollowed(state: EngineState) -> FollowModel {
    FollowModel { log: Seq::empty(), readings: Seq::empty(), state, published: 0 }
}

/// When a record of the tail from `from` on was stored.
pub open spec fn tail_time(seq: u64, from: nat, tail: Seq<(EventRecord, u64)>) -> Option<u64> {
    if from <= seq && seq - from < tail.len() {
        Some(tail[seq - from].1)
    } else {
        None
    }
}

/// The first `count` records of an apply that the log holds.
pub open spec fn tail_published(
    execution: ExecutionId,
    applied: AppliedEvent,
    count: nat,
    from: nat,
    tail: Seq<(EventRecord, u64)>,
) -> Seq<PublishedModel>
    decreases count,
{
    if count == 0 {
        Seq::empty()
    } else {
        let before = tail_published(execution, applied, (count - 1) as nat, from, tail);
        let record = applied.records@[count - 1];
        match tail_time(record.seq, from, tail) {
            Some(at) => before.push(
                PublishedModel {
                    execution,
                    record,
                    recorded_at: at,
                    state: applied.state,
                    readings: applied.readings@[count - 1],
                },
            ),
            None => before,
        }
    }
}

/// The next seq to publish after the first `count` records of an apply.
pub open spec fn tail_next(
    applied: AppliedEvent,
    count: nat,
    from: nat,
    tail: Seq<(EventRecord, u64)>,
    next: nat,
) -> nat
    decreases count,
{
    if count == 0 {
        next
    } else {
        let record = applied.records@[count - 1];
        match tail_time(record.seq, from, tail) {
            Some(at) => (record.seq + 1) as nat,
            None => tail_next(applied, (count - 1) as nat, from, tail, next),
        }
    }
}

/// Where the fold of a read stands: the followed execution, the next seq to
/// publish, how many applies were used, and what was published.
pub struct FoldModel {
    pub follow: FollowModel,
    pub next: nat,
    pub used: nat,
    pub shown: Seq<PublishedModel>,
}

/// The fold of one record of a read.
pub open spec fn fold_one(
    fold: FoldModel,
    execution: ExecutionId,
    tail: Seq<(EventRecord, u64)>,
    applies: Seq<AppliedEvent>,
    i: int,
) -> FoldModel {
    let (record, at) = tail[i];
    let from = fold.follow.published;
    match tail_step(record.seq, record.origin, fold.next, fold.follow.log.len()) {
        TailStep::Pass => fold,
        TailStep::Publish => FoldModel {
            next: (record.seq + 1) as nat,
            shown: fold.shown.push(
                PublishedModel {
                    execution,
                    record: fold.follow.log[record.seq as int],
                    recorded_at: at,
                    state: fold.follow.state,
                    readings: fold.follow.readings[record.seq as int],
                },
            ),
            ..fold
        },
        TailStep::Apply => if fold.used < applies.len() {
            let applied = applies[fold.used as int];
            let count = applied.records@.len();
            FoldModel {
                follow: FollowModel {
                    log: fold.follow.log + applied.records@,
                    readings: fold.follow.readings + applied.readings@,
                    state: applied.state,
                    published: from,
                },
                next: tail_next(applied, count, from, tail, fold.next),
                used: fold.used + 1,
                shown: fold.shown + tail_published(execution, applied, count, from, tail),
            }
        } else {
            fold
        },
    }
}

/// The fold of the first `count` records of a read.
pub open spec fn fold_some(
    follow: FollowModel,
    execution: ExecutionId,
    tail: Seq<(EventRecord, u64)>,
    applies: Seq<AppliedEvent>,
    count: nat,
) -> FoldModel
    decreases count,
{
    if count == 0 {
        FoldModel { follow, next: follow.published, used: 0, shown: Seq::empty() }
    } else {
        fold_one(
            fold_some(follow, execution, tail, applies, (count - 1) as nat),
            execution,
            tail,
            applies,
            count - 1,
        )
    }
}

/// What a read publishes of an execution's log, and the followed execution
/// after it.
pub open spec fn tail_folded(
    follow: FollowModel,
    execution: ExecutionId,
    tail: Seq<(EventRecord, u64)>,
    applies: Seq<AppliedEvent>,
) -> (FollowModel, Seq<PublishedModel>) {
    let fold = fold_some(follow, execution, tail, applies, tail.len());
    (FollowModel { published: follow.published + tail.len(), ..fold.follow }, fold.shown)
}

impl ExecutionReplay {
    /// One reading for each record of the log.
    pub closed spec fn wf(&self) -> bool {
        self.readings@.len() == self.log@.len()
    }

    /// A replay of an execution that published nothing, from the state the
    /// execution starts in.
    pub fn new(state: EngineState) -> (replay: ExecutionReplay)
        ensures
            replay.wf(),
            replay@ == unfollowed(state),
    {
        let replay = ExecutionReplay {
            log: Vec::new(),
            readings: Vec::new(),
            state,
            published: 0,
        };
        assert(replay@.log =~= Seq::empty());
        assert(replay@.readings =~= Seq::empty());
        replay
    }

    /// How many stored records were published.
    pub fn published(&self) -> (count: u64)
        ensures
            count == self@.published,
    {
        self.published
    }

    /// How many records the engine's log holds.
    pub fn held(&self) -> (count: usize)
        ensures
            count == self@.log.len(),
    {
        self.log.len()
    }

    /// Publish what the log holds of an apply, and keep what it produced.
    fn apply(
        &mut self,
        projection: &mut Projection,
        execution: ExecutionId,
        applied: AppliedEvent,
        tail: &Vec<(EventRecord, u64)>,
        next: &mut u64,
        Ghost(before): Ghost<ProjectionModel>,
        Ghost(shown): Ghost<Seq<PublishedModel>>,
        events: &mut Vec<RunEvent>,
    )
        requires
            old(self).wf(),
            applied.readings@.len() == applied.records@.len(),
            old(self)@.published + tail@.len() <= u64::MAX,
            (old(projection)@, event_models(old(events)@)) == derive_all(before, shown),
        ensures
            final(self).wf(),
            final(self)@ == (FollowModel {
                log: old(self)@.log + applied.records@,
                readings: old(self)@.readings + applied.readings@,
                state: applied.state,
                published: old(self)@.published,
            }),
            *final(next) == tail_next(
                applied,
                applied.records@.len(),
                old(self)@.published,
                tail@,
                *old(next) as nat,
            ),
            (final(projection)@, event_models(final(events)@)) == derive_all(
                before,
                shown + tail_published(
                    execution,
                    applied,
                    applied.records@.len(),
                    old(self)@.published,
                    tail@,
                ),
            ),
    {
        let from = self.published;
        let ghost start = *next as nat;
        let mut i: usize = 0;
        assert(shown + tail_published(execution, applied, 0, from as nat, tail@) =~= shown);
        while i < applied.records.len()
            invariant
                i <= applied.records.len(),
                applied.readings@.len() == applied.records@.len(),
                from + tail@.len() <= u64::MAX,
                *next == tail_next(applied, i as nat, from as nat, tail@, start),
                (projection@, event_models(events@)) == derive_all(
                    before,
                    shown + tail_published(execution, applied, i as nat, from as nat, tail@),
                ),
            decreases applied.records.len() - i,
        {
            let record = &applied.records[i];
            let ghost so_far = shown + tail_published(
                execution,
                applied,
                i as nat,
                from as nat,
                tail@,
            );
            let ghost all = shown + tail_published(
                execution,
                applied,
                (i + 1) as nat,
                from as nat,
                tail@,
            );
            if from <= record.seq && record.seq - from < tail.len() as u64 {
                let at = tail[(record.seq - from) as usize].1;
                let more = projection.engine(
                    execution,
                    record,
                    at,
                    &applied.state,
                    &applied.readings[i],
                );
                put_after(events, more);
                *next = record.seq + 1;
                assert(all.drop_last() =~= so_far);
            } else {
                assert(all == so_far);
            }
            i = i + 1;
        }
        let AppliedEvent { records, readings, state } = applied;
        let mut records = records;
        let mut readings = readings;
        self.log.append(&mut records);
        self.readings.append(&mut readings);
        self.state = state;
        assert(self@.log =~= old(self)@.log + applied.records@);
        assert(self@.readings =~= old(self)@.readings + applied.readings@);
    }

    /// Fold a tail of the execution's stored log, contiguous from the
    /// published records, and hand back the events of the records it holds:
    /// each record is published once the log holds it, with the state after
    /// the apply that produced it and the recording time the log gives it.
    pub fn advance(
        &mut self,
        projection: &mut Projection,
        execution: ExecutionId,
        tail: Vec<(EventRecord, u64)>,
        applies: Vec<AppliedEvent>,
    ) -> (events: Vec<RunEvent>)
        requires
            old(self).wf(),
            all_read(applies@),
            old(self)@.published + tail@.len() <= u64::MAX,
        ensures
            final(self).wf(),
            final(self)@ == tail_folded(old(self)@, execution, tail@, applies@).0,
            (final(projection)@, event_models(events@)) == derive_all(
                old(projection)@,
                tail_folded(old(self)@, execution, tail@, applies@).1,
            ),
    {
        let from = self.published;
        let mut next = from;
        let mut events: Vec<RunEvent> = Vec::new();
        let ghost before = projection@;
        let ghost start = self@;
        let ghost all = applies@;
        let mut left = reversed(applies);
        let mut i: usize = 0;
        assert(event_models(events@) =~= Seq::empty());
        assert(all.skip(0) =~= all);
        while i < tail.len()
            invariant
                i <= tail.len(),
                self.wf(),
                all_read(all),
                start.published == from,
                from + tail@.len() <= u64::MAX,
                self@ == fold_some(start, execution, tail@, all, i as nat).follow,
                self@.published == from,
                next == fold_some(start, execution, tail@, all, i as nat).next,
                fold_some(start, execution, tail@, all, i as nat).used <= all.len(),
                left@ == all.skip(
                    fold_some(start, execution, tail@, all, i as nat).used as int,
                ).reverse(),
                (projection@, event_models(events@)) == derive_all(
                    before,
                    fold_some(start, execution, tail@, all, i as nat).shown,
                ),
            decreases tail.len() - i,
        {
            let ghost fold = fold_some(start, execution, tail@, all, i as nat);
            let ghost after = fold_some(start, execution, tail@, all, (i + 1) as nat);
            let record = &tail[i].0;
            let at = tail[i].1;
            if record.seq < next {
            } else if record.seq < self.log.len() as u64 {
                let place = record.seq as usize;
                let more = projection.engine(
                    execution,
                    &self.log[place],
                    at,
                    &self.state,
                    &self.readings[place],
                );
                put_after(&mut events, more);
                next = record.seq + 1;
                assert(after.shown.drop_last() =~= fold.shown);
            } else if record.origin == EventOrigin::External {
                let ghost rest = all.skip(fold.used as int);
                match left.pop() {
                    Some(applied) => {
                        proof {
                            assert(applied == rest[0]);
                            assert(applied == all[fold.used as int]);
                            assert(left@ =~= all.skip(fold.used as int + 1).reverse());
                        }
                        self.apply(
                            projection,
                            execution,
                            applied,
                            &tail,
                            &mut next,
                            Ghost(before),
                            Ghost(fold.shown),
                            &mut events,
                        );
                    },
                    None => {
                        assert(rest.len() == 0);
                    },
                }
            }
            i = i + 1;
        }
        self.published = from + tail.len() as u64;
        events
    }
}

// ── The run ────────────────────────────────────────────────────────────

/// A run's replay between reads: its derivation so far, how many coordinator
/// records it consumed, and the executions it follows.
#[derive(Debug)]
pub struct RunReplay {
    projection: Projection,
    consumed: usize,
    executions: Table<ExecutionReplay>,
}

/// A run's replay, with its tables as maps.
#[verifier::ext_equal]
pub struct ReplayModel {
    pub run: ProjectionModel,
    pub consumed: nat,
    pub executions: Map<u64, FollowModel>,
}

impl View for RunReplay {
    type V = ReplayModel;

    closed spec fn view(&self) -> ReplayModel {
        ReplayModel {
            run: self.projection@,
            consumed: self.consumed as nat,
            executions: self.executions@.map_values(|replay: ExecutionReplay| replay@),
        }
    }
}

/// A replay that consumed nothing.
pub open spec fn fresh_replay() -> ReplayModel {
    ReplayModel { run: blank_run(), consumed: 0, executions: Map::empty() }
}

/// The followed execution a tail is read for: the one followed so far, or one
/// followed from now on. Nothing for a tail of neither.
pub open spec fn followed(replay: ReplayModel, tail: ExecutionTail) -> Option<FollowModel> {
    if replay.executions.contains_key(tail.execution.0) {
        Some(replay.executions[tail.execution.0])
    } else {
        match tail.start {
            Some(state) => Some(unfollowed(state)),
            None => None,
        }
    }
}

/// A run's replay after an execution's tail, and the tail's events.
pub open spec fn tail_read(replay: ReplayModel, tail: ExecutionTail) -> (
    ReplayModel,
    Seq<EventModel>,
) {
    match followed(replay, tail) {
        Some(follow) => {
            let folded = tail_folded(follow, tail.execution, tail.records@, tail.applies@);
            let derived = derive_all(replay.run, folded.1);
            (
                ReplayModel {
                    run: derived.0,
                    consumed: replay.consumed,
                    executions: replay.executions.insert(tail.execution.0, folded.0),
                },
                derived.1,
            )
        },
        None => (replay, Seq::empty()),
    }
}

/// A run's replay after executions' tails, and their events, in order.
pub open spec fn tails_read(replay: ReplayModel, tails: Seq<ExecutionTail>) -> (
    ReplayModel,
    Seq<EventModel>,
)
    decreases tails.len(),
{
    if tails.len() == 0 {
        (replay, Seq::empty())
    } else {
        let before = tails_read(replay, tails.drop_last());
        let last = tail_read(before.0, tails.last());
        (last.0, before.1 + last.1)
    }
}

/// A run's replay after a read, and the read's events: the coordinator log's
/// first, then each execution's.
pub open spec fn advanced(
    replay: ReplayModel,
    records: Seq<CoordinatorRecord>,
    tails: Seq<ExecutionTail>,
) -> (ReplayModel, Seq<EventModel>) {
    let lifecycle = lifecycle_stream(replay.run, records);
    let read = tails_read(
        ReplayModel {
            run: lifecycle.0,
            consumed: replay.consumed + records.len(),
            executions: replay.executions,
        },
        tails,
    );
    (read.0, lifecycle.1 + read.1)
}

/// Whether executions' tails can be read: each execution's once, every apply
/// with its readings, and no log past the largest seq.
pub open spec fn readable_tails(replay: ReplayModel, tails: Seq<ExecutionTail>) -> bool {
    &&& forall|i: int| 0 <= i < tails.len() ==> all_read((#[trigger] tails[i]).applies@)
    &&& forall|i: int|
        0 <= i < tails.len() ==> (followed(replay, #[trigger] tails[i]) matches Some(follow)
            ==> follow.published + tails[i].records@.len() <= u64::MAX)
    &&& forall|i: int, j: int|
        0 <= i < j < tails.len() ==> (#[trigger] tails[i]).execution != (
        #[trigger] tails[j]).execution
}

/// Tails of other executions leave a followed execution as it was.
pub(crate) proof fn lemma_others_stay(replay: ReplayModel, tails: Seq<ExecutionTail>, execution: u64)
    requires
        forall|i: int| 0 <= i < tails.len() ==> (#[trigger] tails[i]).execution.0 != execution,
    ensures
        tails_read(replay, tails).0.executions.contains_key(execution)
            == replay.executions.contains_key(execution),
        replay.executions.contains_key(execution) ==> tails_read(
            replay,
            tails,
        ).0.executions[execution] == replay.executions[execution],
    decreases tails.len(),
{
    if tails.len() > 0 {
        let rest = tails.drop_last();
        assert forall|i: int| 0 <= i < rest.len() implies (#[trigger] rest[i]).execution.0
            != execution by {
            assert(rest[i] == tails[i]);
        }
        lemma_others_stay(replay, rest, execution);
        assert(tails[tails.len() - 1].execution.0 != execution);
    }
}

impl RunReplay {
    /// Every followed execution is sound.
    pub closed spec fn wf(&self) -> bool {
        forall|id: u64| #[trigger]
            self.executions@.contains_key(id) ==> self.executions@[id].wf()
    }

    /// A replay that consumed nothing.
    pub fn new() -> (replay: RunReplay)
        ensures
            replay.wf(),
            replay@ == fresh_replay(),
    {
        let replay = RunReplay {
            projection: Projection::new(),
            consumed: 0,
            executions: Table::new(),
        };
        assert(replay@.executions =~= Map::<u64, FollowModel>::empty());
        replay
    }

    /// How many coordinator records were consumed: the seq the next read
    /// starts at.
    pub fn consumed(&self) -> (count: usize)
        ensures
            count == self@.consumed,
    {
        self.consumed
    }

    /// How many records of an execution's log were published, when it is
    /// followed.
    pub fn published(&self, execution: ExecutionId) -> (count: Option<u64>)
        requires
            self.wf(),
        ensures
            match count {
                Some(count) => self@.executions.contains_key(execution.0) && count
                    == self@.executions[execution.0].published,
                None => !self@.executions.contains_key(execution.0),
            },
    {
        match self.executions.get(execution.0) {
            Some(replay) => Some(replay.published()),
            None => None,
        }
    }

    /// Whether the coordinator records read past the consumed ones follow
    /// them. `started` is whether the run's start is among all of them.
    pub fn check(&self, records: &Vec<CoordinatorRecord>, started: bool) -> (checked: Result<
        (),
        StateError,
    >)
        requires
            self@.consumed + records@.len() <= usize::MAX,
        ensures
            match checked {
                Ok(()) => refused(records@, self@.consumed as int, started) is None,
                Err(error) => refused(records@, self@.consumed as int, started) == Some(error),
            },
    {
        let consumed = self.consumed;
        let ghost wrong = |at: int, record: CoordinatorRecord| record.seq != consumed + at;
        let mut i: usize = 0;
        while i < records.len()
            invariant
                i <= records.len(),
                consumed == self.consumed,
                consumed + records@.len() <= usize::MAX,
                wrong == (|at: int, record: CoordinatorRecord| record.seq != consumed + at),
                forall|j: int| 0 <= j < i ==> !wrong(j, #[trigger] records@[j]),
            decreases records.len() - i,
        {
            if records[i].seq != (consumed + i) as u64 {
                proof {
                    assert(wrong(i as int, records@[i as int]));
                    lemma_place_is(records@, wrong, i as int);
                }
                return Err(
                    StateError::Sequence { index: consumed + i, found: records[i].seq },
                );
            }
            i = i + 1;
        }
        proof {
            lemma_place_is(records@, wrong, records@.len() as int);
        }
        if started {
            Ok(())
        } else {
            Err(StateError::MissingRunStart)
        }
    }

    fn read_tail(&mut self, tail: ExecutionTail) -> (events: Vec<RunEvent>)
        requires
            old(self).wf(),
            all_read(tail.applies@),
            followed(old(self)@, tail) matches Some(follow) ==> follow.published
                + tail.records@.len() <= u64::MAX,
        ensures
            final(self).wf(),
            (final(self)@, event_models(events@)) == tail_read(old(self)@, tail),
    {
        let ExecutionTail { execution, start, records, applies } = tail;
        let ghost held = self.executions@;
        let taken = match self.executions.remove(execution.0) {
            Some(replay) => Some(replay),
            None => match start {
                Some(state) => Some(ExecutionReplay::new(state)),
                None => None,
            },
        };
        match taken {
            Some(replay) => {
                let mut replay = replay;
                let events = replay.advance(&mut self.projection, execution, records, applies);
                self.executions.insert(execution.0, replay);
                assert(self.executions@ =~= held.insert(execution.0, replay));
                assert(self@ =~= tail_read(old(self)@, tail).0);
                events
            },
            None => {
                let events: Vec<RunEvent> = Vec::new();
                assert(held.remove(execution.0) =~= held);
                assert(self@ =~= old(self)@);
                assert(event_models(events@) =~= Seq::empty());
                events
            },
        }
    }

    /// Fold the records a read holds past the ones consumed and hand back
    /// their events: the coordinator log's first, then each execution's.
    /// `started` is whether the run's start is among all coordinator records.
    /// A failed advance leaves the replay as it was, its executions' replays
    /// included.
    pub fn advance(
        &mut self,
        records: &Vec<CoordinatorRecord>,
        started: bool,
        tails: Vec<ExecutionTail>,
    ) -> (events: Result<Vec<RunEvent>, StateError>)
        requires
            old(self).wf(),
            old(self)@.consumed + records@.len() <= usize::MAX,
            readable_tails(old(self)@, tails@),
        ensures
            final(self).wf(),
            match events {
                Ok(events) => {
                    &&& refused(records@, old(self)@.consumed as int, started) is None
                    &&& (final(self)@, event_models(events@)) == advanced(
                        old(self)@,
                        records@,
                        tails@,
                    )
                },
                Err(error) => {
                    &&& refused(records@, old(self)@.consumed as int, started) == Some(error)
                    &&& *final(self) == *old(self)
                },
            },
    {
        match self.check(records, started) {
            Ok(()) => {},
            Err(error) => return Err(error),
        }
        let ghost before = self.projection@;
        let mut events: Vec<RunEvent> = Vec::new();
        proof {
            assert(event_models(events@) =~= Seq::empty());
            assert(records@.take(0) =~= Seq::empty());
        }
        let mut i: usize = 0;
        while i < records.len()
            invariant
                i <= records.len(),
                self.wf(),
                self.consumed == old(self).consumed,
                self.executions == old(self).executions,
                lifecycle_stream(before, records@.take(i as int)) == (
                    self.projection@,
                    event_models(events@),
                ),
            decreases records.len() - i,
        {
            let more = self.projection.lifecycle(&records[i]);
            proof {
                assert(records@.take(i + 1).drop_last() =~= records@.take(i as int));
                assert(records@.take(i + 1).last() == records@[i as int]);
            }
            put_after(&mut events, more);
            i = i + 1;
        }
        assert(records@.take(i as int) =~= records@);
        self.consumed = self.consumed + records.len();
        let ghost middle = self@;
        let ghost lifecycle = event_models(events@);
        let ghost all = tails@;
        let mut left = reversed(tails);
        let ghost mut n: int = 0;
        assert(all.take(0) =~= Seq::empty());
        assert(all.skip(0) =~= all);
        assert(lifecycle + Seq::<EventModel>::empty() =~= lifecycle);
        while left.len() > 0
            invariant
                0 <= n <= all.len(),
                left@ == all.skip(n).reverse(),
                self.wf(),
                readable_tails(middle, all),
                self@ == tails_read(middle, all.take(n)).0,
                event_models(events@) == lifecycle + tails_read(middle, all.take(n)).1,
            decreases left.len(),
        {
            match left.pop() {
                Some(tail) => {
                    proof {
                        assert(tail == all.skip(n)[0]);
                        assert(tail == all[n]);
                        assert(left@ =~= all.skip(n + 1).reverse());
                        assert(all.take(n + 1).drop_last() =~= all.take(n));
                        assert(all.take(n + 1).last() == tail);
                        let earlier = all.take(n);
                        assert forall|k: int| 0 <= k < earlier.len() implies (
                        #[trigger] earlier[k]).execution.0 != tail.execution.0 by {
                            assert(earlier[k] == all[k]);
                            assert(all[k].execution != all[n].execution);
                        }
                        lemma_others_stay(middle, earlier, tail.execution.0);
                        assert(followed(self@, tail) == followed(middle, tail));
                    }
                    let more = self.read_tail(tail);
                    let ghost own = event_models(more@);
                    put_after(&mut events, more);
                    proof {
                        let told = tails_read(middle, all.take(n)).1;
                        assert(lifecycle + (told + own) =~= (lifecycle + told) + own);
                        n = n + 1;
                    }
                },
                None => {},
            }
        }
        assert(all.take(n) =~= all);
        Ok(events)
    }
}

/// Coordinator records read in two pieces derive what they derive in one.
pub(crate) proof fn lemma_streams_together(
    before: ProjectionModel,
    a: Seq<CoordinatorRecord>,
    b: Seq<CoordinatorRecord>,
)
    ensures
        ({
            let first = lifecycle_stream(before, a);
            let second = lifecycle_stream(first.0, b);
            lifecycle_stream(before, a + b) == (second.0, first.1 + second.1)
        }),
    decreases b.len(),
{
    let first = lifecycle_stream(before, a);
    if b.len() == 0 {
        assert(a + b =~= a);
        assert(first.1 + Seq::<EventModel>::empty() =~= first.1);
    } else {
        lemma_streams_together(before, a, b.drop_last());
        assert((a + b).drop_last() =~= a + b.drop_last());
        assert((a + b).last() == b.last());
        let second = lifecycle_stream(first.0, b);
        assert(lifecycle_stream(before, a + b).1 =~= first.1 + second.1);
    }
}

/// Whether two runs place invocations and executions alike: that is all a
/// coordinator record's events rest on.
pub open spec fn placed_alike(a: ProjectionModel, b: ProjectionModel) -> bool {
    &&& a.invocations == b.invocations
    &&& forall|execution: u64| #[trigger] place_in(a, execution) == place_in(b, execution)
}

/// The invocation of an execution, as a run knows it.
pub open spec fn place_in(run: ProjectionModel, execution: u64) -> Option<InvocationId> {
    if run.executions.contains_key(execution) {
        run.executions[execution].invocation
    } else {
        None
    }
}

/// Runs that place alike derive the same of coordinator records.
pub(crate) proof fn lemma_alike_streams(
    a: ProjectionModel,
    b: ProjectionModel,
    records: Seq<CoordinatorRecord>,
)
    requires
        placed_alike(a, b),
    ensures
        lifecycle_stream(a, records).1 == lifecycle_stream(b, records).1,
        placed_alike(lifecycle_stream(a, records).0, lifecycle_stream(b, records).0),
    decreases records.len(),
{
    if records.len() > 0 {
        let rest = records.drop_last();
        lemma_alike_streams(a, b, rest);
        lemma_alike_record(
            lifecycle_stream(a, rest).0,
            lifecycle_stream(b, rest).0,
            records.last(),
        );
    }
}

proof fn lemma_alike_record(a: ProjectionModel, b: ProjectionModel, record: CoordinatorRecord)
    requires
        placed_alike(a, b),
    ensures
        lifecycle_events(a, record) == lifecycle_events(b, record),
        placed_alike(after_lifecycle(a, *record.body), after_lifecycle(b, *record.body)),
{
    let event = lifecycle_of(record);
    let x = after_lifecycle(a, event);
    let y = after_lifecycle(b, event);
    if let CoordinatorEvent::ExecutionFinished { execution, .. } = event {
        assert(place_in(a, execution.0) == place_in(b, execution.0));
    }
    assert(x.invocations == y.invocations);
    assert forall|execution: u64| #[trigger] place_in(x, execution) == place_in(y, execution) by {
        assert(place_in(a, execution) == place_in(b, execution));
    }
    assert(lifecycle_place(a, event) == lifecycle_place(b, event));
}

proof fn lemma_seen_stays_placed(
    track: TrackModel,
    execution: ExecutionId,
    state: EngineState,
    live: Seq<LiveFiring>,
)
    ensures
        visits_seen(track, execution, state, live).0.invocation == track.invocation,
    decreases live.len(),
{
    if live.len() > 0 {
        lemma_seen_stays_placed(track, execution, state, live.drop_last());
    }
}

proof fn lemma_completed_stays_placed(
    track: TrackModel,
    state: EngineState,
    entries: Seq<HistoryEntry>,
)
    ensures
        visits_completed(track, state, entries).0.invocation == track.invocation,
    decreases entries.len(),
{
    if entries.len() > 0 {
        lemma_completed_stays_placed(track, state, entries.drop_last());
    }
}

proof fn lemma_killed_stays_placed(track: TrackModel, state: EngineState, firings: Seq<FiringId>)
    ensures
        all_killed_closed(track, state, firings).0.invocation == track.invocation,
    decreases firings.len(),
{
    if firings.len() > 0 {
        lemma_killed_stays_placed(track, state, firings.drop_last());
    }
}

proof fn lemma_step_stays_placed(
    track: TrackModel,
    execution: ExecutionId,
    event: Event,
    state: EngineState,
    readings: Readings,
)
    ensures
        own_step(track, execution, event, state, readings).track.invocation == track.invocation,
{
}

proof fn lemma_record_stays_placed(run: ProjectionModel, fed: PublishedModel)
    ensures
        placed_alike(
            engine_step(
                run,
                fed.execution,
                fed.record,
                fed.recorded_at,
                fed.state,
                fed.readings,
            ).0,
            run,
        ),
{
    let event = event_of(fed.record);
    let track = refreshed(track_of(run, fed.execution), fed.state);
    lemma_step_stays_placed(track, fed.execution, event, fed.state, fed.readings);
    let step = own_step(track, fed.execution, event, fed.state, fed.readings);
    lemma_seen_stays_placed(step.track, fed.execution, fed.state, fed.state.live@);
    let seen = visits_seen(step.track, fed.execution, fed.state, fed.state.live@);
    let history = fed.state.history@;
    if history.len() > seen.0.history {
        lemma_completed_stays_placed(
            seen.0,
            fed.state,
            history.subrange(seen.0.history as int, history.len() as int),
        );
    }
    let read = completions(seen.0, fed.state);
    lemma_killed_stays_placed(
        read.0,
        fed.state,
        dead_firings(read.0.branches, fed.state, read.0.open),
    );
    let after = aftermath(step.track, fed.execution, event, fed.state).0;
    assert(after.invocation == track.invocation);
}

/// Engine records leave invocations and executions where coordinator records
/// placed them.
pub proof fn law_engine_records_leave_the_places(
    run: ProjectionModel,
    published: Seq<PublishedModel>,
)
    ensures
        placed_alike(derive_all(run, published).0, run),
    decreases published.len(),
{
    if published.len() > 0 {
        law_engine_records_leave_the_places(run, published.drop_last());
        let before = derive_all(run, published.drop_last()).0;
        lemma_record_stays_placed(before, published.last());
        let after = derive_all(run, published).0;
        assert forall|execution: u64| #[trigger] place_in(after, execution) == place_in(
            run,
            execution,
        ) by {
            assert(place_in(after, execution) == place_in(before, execution));
        }
    }
}

// ── Read by read ───────────────────────────────────────────────────────

/// How many records the first applies of a log produced.
pub open spec fn held_after(applies: Seq<AppliedEvent>, count: int) -> nat
    decreases count,
{
    if count <= 0 {
        0
    } else {
        held_after(applies, count - 1) + applies[count - 1].records@.len()
    }
}

/// The records the first applies of a log produced.
pub open spec fn records_after(applies: Seq<AppliedEvent>, count: int) -> Seq<EventRecord>
    decreases count,
{
    if count <= 0 {
        Seq::empty()
    } else {
        records_after(applies, count - 1) + applies[count - 1].records@
    }
}

/// What the records the first applies of a log produced read as.
pub open spec fn readings_after(applies: Seq<AppliedEvent>, count: int) -> Seq<Readings>
    decreases count,
{
    if count <= 0 {
        Seq::empty()
    } else {
        readings_after(applies, count - 1) + applies[count - 1].readings@
    }
}

/// Whether a stored log is what its external records replay to: each is
/// stored in its place, every apply starts at a stored external record and
/// puts it and what follows it on the engine's log, and the applies produce
/// all that is stored.
pub open spec fn replays(stored: Seq<(EventRecord, u64)>, applies: Seq<AppliedEvent>) -> bool {
    &&& all_read(applies)
    &&& forall|i: int| 0 <= i < stored.len() ==> (#[trigger] stored[i]).0.seq == i
    &&& forall|m: int| 0 <= m < applies.len() ==> #[trigger] applies_at(stored, applies, m)
    &&& stored.len() <= held_after(applies, applies.len() as int)
}

/// Whether an apply starts at a stored external record and its records are in
/// their places.
pub open spec fn applies_at(
    stored: Seq<(EventRecord, u64)>,
    applies: Seq<AppliedEvent>,
    m: int,
) -> bool {
    let at = held_after(applies, m) as int;
    &&& at < stored.len()
    &&& stored[at].0.origin == EventOrigin::External
    &&& applies[m].records@.len() >= 1
    &&& forall|k: int|
        0 <= k < applies[m].records@.len() ==> (#[trigger] applies[m].records@[k]).seq == at + k
}

/// A record of an apply, published when the log gives it its time.
pub open spec fn placed(
    execution: ExecutionId,
    stored: Seq<(EventRecord, u64)>,
    applies: Seq<AppliedEvent>,
    m: int,
    k: int,
) -> PublishedModel {
    PublishedModel {
        execution,
        record: applies[m].records@[k],
        recorded_at: stored[held_after(applies, m) + k].1,
        state: applies[m].state,
        readings: applies[m].readings@[k],
    }
}

/// Whether published records are those of the log from `from` on, in order.
pub open spec fn shows(
    published: Seq<PublishedModel>,
    from: int,
    execution: ExecutionId,
    stored: Seq<(EventRecord, u64)>,
    applies: Seq<AppliedEvent>,
) -> bool {
    forall|m: int, k: int|
        0 <= m < applies.len() && 0 <= k < applies[m].records@.len() && from <= held_after(
            applies,
            m,
        ) + k < from + published.len() ==> published[held_after(applies, m) + k - from]
            == #[trigger] placed(execution, stored, applies, m, k)
}

proof fn lemma_held_grows(applies: Seq<AppliedEvent>, a: int, b: int)
    requires
        0 <= a <= b <= applies.len(),
    ensures
        held_after(applies, a) <= held_after(applies, b),
        a < b ==> held_after(applies, a) + applies[a].records@.len() <= held_after(applies, b),
    decreases b - a,
{
    if a < b {
        lemma_held_grows(applies, a, b - 1);
    }
}

proof fn lemma_one_place(applies: Seq<AppliedEvent>, m: int, k: int, n: int, j: int)
    requires
        0 <= m < applies.len(),
        0 <= n < applies.len(),
        0 <= k < applies[m].records@.len(),
        0 <= j < applies[n].records@.len(),
        held_after(applies, m) + k == held_after(applies, n) + j,
    ensures
        m == n,
        k == j,
{
    if m < n {
        lemma_held_grows(applies, m, n);
    } else if n < m {
        lemma_held_grows(applies, n, m);
    }
}

proof fn lemma_some_place(applies: Seq<AppliedEvent>, count: int, at: int) -> (place: (int, int))
    requires
        0 <= count <= applies.len(),
        0 <= at < held_after(applies, count),
    ensures
        0 <= place.0 < count,
        0 <= place.1 < applies[place.0].records@.len(),
        held_after(applies, place.0) + place.1 == at,
    decreases count,
{
    if at < held_after(applies, count - 1) {
        lemma_some_place(applies, count - 1, at)
    } else {
        (count - 1, at - held_after(applies, count - 1))
    }
}

/// Two lists of a log's published records from one place on are one.
proof fn lemma_shows_one(
    a: Seq<PublishedModel>,
    b: Seq<PublishedModel>,
    from: int,
    execution: ExecutionId,
    stored: Seq<(EventRecord, u64)>,
    applies: Seq<AppliedEvent>,
)
    requires
        0 <= from,
        a.len() == b.len(),
        from + a.len() <= held_after(applies, applies.len() as int),
        shows(a, from, execution, stored, applies),
        shows(b, from, execution, stored, applies),
    ensures
        a == b,
{
    assert forall|i: int| 0 <= i < a.len() implies #[trigger] a[i] == b[i] by {
        let place = lemma_some_place(applies, applies.len() as int, from + i);
        assert(a[i] == placed(execution, stored, applies, place.0, place.1));
    }
    assert(a =~= b);
}

proof fn lemma_records_after(applies: Seq<AppliedEvent>, count: int)
    requires
        0 <= count <= applies.len(),
        all_read(applies),
    ensures
        records_after(applies, count).len() == held_after(applies, count),
        readings_after(applies, count).len() == held_after(applies, count),
    decreases count,
{
    if count > 0 {
        lemma_records_after(applies, count - 1);
        assert(applies[count - 1].readings@.len() == applies[count - 1].records@.len());
    }
}

/// What a read that ends at `to` publishes of an apply.
proof fn lemma_apply_shown(
    execution: ExecutionId,
    stored: Seq<(EventRecord, u64)>,
    applies: Seq<AppliedEvent>,
    m: int,
    count: nat,
    from: int,
    to: int,
    next: nat,
)
    requires
        replays(stored, applies),
        0 <= m < applies.len(),
        count <= applies[m].records@.len(),
        0 <= from <= held_after(applies, m) < to <= stored.len(),
        next <= held_after(applies, m),
    ensures
        ({
            let tail = stored.subrange(from, to);
            let shown = tail_published(execution, applies[m], count, from as nat, tail);
            let at = held_after(applies, m) as int;
            let grown = at + count;
            let upto = if grown <= to {
                grown
            } else {
                to
            };
            &&& shown.len() == upto - at
            &&& forall|k: int|
                0 <= k < shown.len() ==> #[trigger] shown[k] == placed(
                    execution,
                    stored,
                    applies,
                    m,
                    k,
                )
            &&& tail_next(applies[m], count, from as nat, tail, next) == if count == 0 {
                next as int
            } else {
                upto
            }
        }),
    decreases count,
{
    if count > 0 {
        lemma_apply_shown(
            execution,
            stored,
            applies,
            m,
            (count - 1) as nat,
            from,
            to,
            next,
        );
        assert(applies_at(stored, applies, m));
        let record = applies[m].records@[count - 1];
        let tail = stored.subrange(from, to);
        let at = held_after(applies, m) as int;
        assert(record.seq == at + count - 1);
        if record.seq < to {
            assert(tail[record.seq - from] == stored[record.seq as int]);
        }
    }
}

/// Whether a followed execution is where the first applies of its log leave
/// it, with the records before `upto` published.
pub open spec fn caught_up(
    follow: FollowModel,
    applies: Seq<AppliedEvent>,
    upto: int,
    used: int,
) -> bool {
    &&& follow.published == upto
    &&& follow.log == records_after(applies, used)
    &&& follow.readings == readings_after(applies, used)
    &&& used > 0 ==> follow.state == applies[used - 1].state
    &&& splits(applies, upto, used)
}

/// Whether the applies of the records before `upto` are the first `used`.
pub open spec fn splits(applies: Seq<AppliedEvent>, upto: int, used: int) -> bool {
    &&& 0 <= used <= applies.len()
    &&& upto <= held_after(applies, used)
    &&& used > 0 ==> held_after(applies, used - 1) < upto
}

proof fn lemma_fold_keeps_up(
    follow: FollowModel,
    execution: ExecutionId,
    stored: Seq<(EventRecord, u64)>,
    applies: Seq<AppliedEvent>,
    from: int,
    used: int,
    to: int,
    used_to: int,
    count: nat,
)
    requires
        replays(stored, applies),
        caught_up(follow, applies, from, used),
        splits(applies, to, used_to),
        0 <= from <= to <= stored.len(),
        used <= used_to,
        count <= to - from,
    ensures
        ({
            let tail = stored.subrange(from, to);
            let given = applies.subrange(used, used_to);
            let fold = fold_some(follow, execution, tail, given, count);
            let m = used + fold.used;
            &&& m <= used_to
            &&& fold.follow.published == from
            &&& fold.follow.log == records_after(applies, m)
            &&& fold.follow.readings == readings_after(applies, m)
            &&& m > 0 ==> fold.follow.state == applies[m - 1].state
            &&& m > 0 ==> held_after(applies, m - 1) <= fold.next
            &&& m > 0 && m > used ==> held_after(applies, m - 1) < to
            &&& from + count <= fold.next <= to
            &&& fold.next <= held_after(applies, m)
            &&& fold.shown.len() == fold.next - from
            &&& shows(fold.shown, from, execution, stored, applies)
        }),
    decreases count,
{
    let tail = stored.subrange(from, to);
    let given = applies.subrange(used, used_to);
    if count == 0 {
        assert(shows(Seq::<PublishedModel>::empty(), from, execution, stored, applies));
    } else {
        lemma_fold_keeps_up(
            follow,
            execution,
            stored,
            applies,
            from,
            used,
            to,
            used_to,
            (count - 1) as nat,
        );
        let before = fold_some(follow, execution, tail, given, (count - 1) as nat);
        let fold = fold_some(follow, execution, tail, given, count);
        let seq = from + count - 1;
        let m = used + before.used;
        assert(tail[count - 1] == stored[seq]);
        assert(stored[seq].0.seq == seq);
        lemma_records_after(applies, m);
        let held = held_after(applies, m) as int;
        if seq < before.next {
        } else if seq < held {
            let k = seq - held_after(applies, m - 1);
            assert(records_after(applies, m)[seq] == applies[m - 1].records@[k]) by {
                lemma_records_after(applies, m - 1);
            }
            assert(readings_after(applies, m)[seq] == applies[m - 1].readings@[k]) by {
                lemma_records_after(applies, m - 1);
            }
            assert(fold.shown == before.shown.push(
                placed(execution, stored, applies, m - 1, k),
            ));
            assert forall|n: int, j: int|
                0 <= n < applies.len() && 0 <= j < applies[n].records@.len() && from <= held_after(
                    applies,
                    n,
                ) + j < from + fold.shown.len() implies fold.shown[held_after(applies, n) + j
                - from] == #[trigger] placed(execution, stored, applies, n, j) by {
                if held_after(applies, n) + j == seq {
                    lemma_one_place(applies, n, j, m - 1, k);
                }
            }
        } else {
            assert(held == seq);
            assert(m < used_to) by {
                if m >= used_to {
                    assert(m == used_to);
                }
            }
            assert(applies_at(stored, applies, m));
            assert(given[before.used as int] == applies[m]);
            let length = applies[m].records@.len();
            lemma_apply_shown(execution, stored, applies, m, length, from, to, before.next);
            let more = tail_published(execution, applies[m], length, from as nat, tail);
            assert(fold.shown == before.shown + more);
            assert forall|n: int, j: int|
                0 <= n < applies.len() && 0 <= j < applies[n].records@.len() && from <= held_after(
                    applies,
                    n,
                ) + j < from + fold.shown.len() implies fold.shown[held_after(applies, n) + j
                - from] == #[trigger] placed(execution, stored, applies, n, j) by {
                let at = held_after(applies, n) + j;
                if at >= seq {
                    lemma_one_place(applies, n, j, m, at - seq);
                    assert(more[at - seq] == placed(execution, stored, applies, m, at - seq));
                } else {
                    assert(before.shown[at - from] == placed(execution, stored, applies, n, j));
                }
            }
        }
    }
}

/// One read of an execution's log publishes exactly the records it holds, in
/// order, each with the state after the apply that produced it, and leaves
/// the execution where the applies so far leave it.
pub proof fn law_a_read_publishes_what_it_holds(
    follow: FollowModel,
    execution: ExecutionId,
    stored: Seq<(EventRecord, u64)>,
    applies: Seq<AppliedEvent>,
    from: int,
    used: int,
    to: int,
    used_to: int,
)
    requires
        replays(stored, applies),
        caught_up(follow, applies, from, used),
        splits(applies, to, used_to),
        0 <= from <= to <= stored.len(),
        used <= used_to,
    ensures
        ({
            let read = tail_folded(
                follow,
                execution,
                stored.subrange(from, to),
                applies.subrange(used, used_to),
            );
            &&& caught_up(read.0, applies, to, used_to)
            &&& read.1.len() == to - from
            &&& shows(read.1, from, execution, stored, applies)
        }),
{
    let tail = stored.subrange(from, to);
    let given = applies.subrange(used, used_to);
    lemma_fold_keeps_up(
        follow,
        execution,
        stored,
        applies,
        from,
        used,
        to,
        used_to,
        tail.len(),
    );
    let fold = fold_some(follow, execution, tail, given, tail.len());
    let m = used + fold.used;
    if m < used_to {
        lemma_held_grows(applies, m, used_to - 1);
    }
}

/// The times of a stored log.
pub open spec fn times_of(stored: Seq<(EventRecord, u64)>) -> Seq<u64> {
    stored.map_values(|line: (EventRecord, u64)| line.1)
}

proof fn lemma_published_of_shown(
    execution: ExecutionId,
    stored: Seq<(EventRecord, u64)>,
    applies: Seq<AppliedEvent>,
    m: int,
    count: nat,
)
    requires
        replays(stored, applies),
        0 <= m < applies.len(),
        count <= applies[m].records@.len(),
    ensures
        published_of(execution, applies[m], count, times_of(stored)) == tail_published(
            execution,
            applies[m],
            count,
            0,
            stored.subrange(0, stored.len() as int),
        ),
    decreases count,
{
    assert(stored.subrange(0, stored.len() as int) =~= stored);
    if count > 0 {
        lemma_published_of_shown(execution, stored, applies, m, (count - 1) as nat);
    }
}

/// What the first applies of a log publish is in its places.
pub(crate) proof fn lemma_whole_shown(
    execution: ExecutionId,
    stored: Seq<(EventRecord, u64)>,
    applies: Seq<AppliedEvent>,
    count: int,
)
    requires
        replays(stored, applies),
        0 <= count <= applies.len(),
    ensures
        ({
            let whole = published(execution, applies.take(count), times_of(stored));
            let held = held_after(applies, count);
            &&& whole.len() == if held <= stored.len() {
                held
            } else {
                stored.len()
            }
            &&& shows(whole, 0, execution, stored, applies)
            &&& forall|i: int| 0 <= i < whole.len() ==> (#[trigger] whole[i]).execution == execution
        }),
    decreases count,
{
    let taken = applies.take(count);
    let whole = published(execution, taken, times_of(stored));
    if count > 0 {
        let m = count - 1;
        lemma_whole_shown(execution, stored, applies, m);
        assert(taken.drop_last() =~= applies.take(m));
        assert(taken.last() == applies[m]);
        assert(applies_at(stored, applies, m));
        let before = published(execution, applies.take(m), times_of(stored));
        let length = applies[m].records@.len();
        let at = held_after(applies, m) as int;
        lemma_published_of_shown(execution, stored, applies, m, length);
        lemma_apply_shown(
            execution,
            stored,
            applies,
            m,
            length,
            0,
            stored.len() as int,
            0,
        );
        let more = published_of(execution, applies[m], length, times_of(stored));
        assert(whole == before + more);
        assert forall|n: int, j: int|
            0 <= n < applies.len() && 0 <= j < applies[n].records@.len() && 0 <= held_after(
                applies,
                n,
            ) + j < whole.len() implies whole[held_after(applies, n) + j - 0] == #[trigger] placed(
            execution,
            stored,
            applies,
            n,
            j,
        ) by {
            let place = held_after(applies, n) + j;
            if place >= at {
                lemma_one_place(applies, n, j, m, place - at);
                assert(more[place - at] == placed(execution, stored, applies, m, place - at));
            } else {
                assert(before[place] == placed(execution, stored, applies, n, j));
            }
        }
        assert forall|i: int| 0 <= i < whole.len() implies (#[trigger] whole[i]).execution
            == execution by {
            if i < before.len() {
                assert(whole[i] == before[i]);
            } else {
                assert(whole[i] == placed(execution, stored, applies, m, i - before.len()));
            }
        }
    }
}

/// A read publishes its piece of what the whole log publishes.
pub(crate) proof fn lemma_read_is_piece(
    follow: FollowModel,
    execution: ExecutionId,
    stored: Seq<(EventRecord, u64)>,
    applies: Seq<AppliedEvent>,
    from: int,
    used: int,
    to: int,
    used_to: int,
)
    requires
        replays(stored, applies),
        caught_up(follow, applies, from, used),
        splits(applies, to, used_to),
        0 <= from <= to <= stored.len(),
        used <= used_to,
    ensures
        ({
            let read = tail_folded(
                follow,
                execution,
                stored.subrange(from, to),
                applies.subrange(used, used_to),
            );
            let piece = published(execution, applies, times_of(stored)).subrange(from, to);
            &&& caught_up(read.0, applies, to, used_to)
            &&& read.1 == piece
            &&& forall|i: int| 0 <= i < piece.len() ==> (#[trigger] piece[i]).execution == execution
        }),
{
    let whole = published(execution, applies, times_of(stored));
    assert(applies.take(applies.len() as int) =~= applies);
    lemma_whole_shown(execution, stored, applies, applies.len() as int);
    law_a_read_publishes_what_it_holds(
        follow,
        execution,
        stored,
        applies,
        from,
        used,
        to,
        used_to,
    );
    let read = tail_folded(
        follow,
        execution,
        stored.subrange(from, to),
        applies.subrange(used, used_to),
    );
    let piece = whole.subrange(from, to);
    assert(shows(piece, from, execution, stored, applies)) by {
        assert forall|n: int, j: int|
            0 <= n < applies.len() && 0 <= j < applies[n].records@.len() && from <= held_after(
                applies,
                n,
            ) + j < from + piece.len() implies piece[held_after(applies, n) + j - from]
            == #[trigger] placed(execution, stored, applies, n, j) by {
            assert(whole[held_after(applies, n) + j - 0] == placed(
                execution,
                stored,
                applies,
                n,
                j,
            ));
        }
    }
    lemma_shows_one(read.1, piece, from, execution, stored, applies);
    assert forall|i: int| 0 <= i < piece.len() implies (#[trigger] piece[i]).execution
        == execution by {
        assert(piece[i] == whole[from + i]);
    }
}

/// What a piece derives later follows what the records before it derived.
pub(crate) proof fn lemma_piece_joins(
    first: ProjectionModel,
    later: ProjectionModel,
    before: Seq<PublishedModel>,
    piece: Seq<PublishedModel>,
    execution: ExecutionId,
)
    requires
        track_of(later, execution) == track_of(derive_all(first, before).0, execution),
        forall|i: int| 0 <= i < piece.len() ==> (#[trigger] piece[i]).execution == execution,
    ensures
        derive_all(first, before + piece).1 == derive_all(first, before).1 + derive_all(
            later,
            piece,
        ).1,
        track_of(derive_all(first, before + piece).0, execution) == track_of(
            derive_all(later, piece).0,
            execution,
        ),
{
    law_derived_in_pieces(first, before, piece);
    lemma_track_decides(later, derive_all(first, before).0, piece, execution);
}

/// What a run derives of other records leaves an execution's track: those of
/// other executions, and coordinator records that do not declare it.
pub proof fn law_other_records_leave_the_track(
    before: ProjectionModel,
    execution: ExecutionId,
    published: Seq<PublishedModel>,
    records: Seq<CoordinatorRecord>,
)
    requires
        forall|i: int|
            0 <= i < published.len() ==> (#[trigger] published[i]).execution != execution,
        forall|i: int|
            0 <= i < records.len() ==> !declares(*(#[trigger] records[i]).body, execution),
    ensures
        track_of(derive_all(before, published).0, execution) == track_of(before, execution),
        track_of(lifecycle_stream(before, records).0, execution) == track_of(before, execution),
    decreases published.len() + records.len(),
{
    if published.len() > 0 {
        let rest = published.drop_last();
        assert forall|i: int| 0 <= i < rest.len() implies (#[trigger] rest[i]).execution
            != execution by {
            assert(rest[i] == published[i]);
        }
        law_other_records_leave_the_track(before, execution, rest, records);
        assert(published[published.len() - 1].execution != execution);
    } else if records.len() > 0 {
        let rest = records.drop_last();
        assert forall|i: int| 0 <= i < rest.len() implies !declares(
            *(#[trigger] rest[i]).body,
            execution,
        ) by {
            assert(rest[i] == records[i]);
        }
        law_other_records_leave_the_track(before, execution, published, rest);
        assert(!declares(*records[records.len() - 1].body, execution));
    }
}

/// Whether a coordinator record declares an execution.
pub open spec fn declares(event: CoordinatorEvent, execution: ExecutionId) -> bool {
    event matches CoordinatorEvent::ExecutionDeclared { execution: declared, .. } && declared
        == execution
}

/// An advance with nothing appended hands back nothing and changes nothing.
pub proof fn law_nothing_new(replay: ReplayModel)
    ensures
        advanced(replay, Seq::empty(), Seq::empty()) == (replay, Seq::<EventModel>::empty()),
{
    assert(Seq::<EventModel>::empty() + Seq::<EventModel>::empty()
        =~= Seq::<EventModel>::empty());
}

} // verus!

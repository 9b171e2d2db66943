//! The store writer of a run: every execution's records go through it to the
//! run's store, in batches per log, and the first failed append stops it.

use crate::ids::ExecutionId;
use crate::json::Json;
use crate::text::join3;
use vstd::prelude::*;
use vstd::string::*;

verus! {

/// A log of a run's store.
#[derive(Clone, Copy, Debug, PartialEq, Eq, Structural)]
pub enum LogId {
    Coordinator,
    Execution(ExecutionId),
    Resources,
}

/// Why an observer could not store what it was handed.
#[derive(Debug)]
pub struct ObserveError {
    pub observer: String,
    pub message: String,
}

/// Records of one log, to be appended together.
#[derive(Debug)]
pub struct Batch {
    pub log: LogId,
    pub records: Vec<Json>,
}

/// Records with the log each is for, in order.
pub open spec fn addressed(log: LogId, records: Seq<Json>) -> Seq<(LogId, Json)> {
    records.map_values(|record: Json| (log, record))
}

/// The records of batches with the log each is for, in order.
pub open spec fn flat(batches: Seq<Batch>) -> Seq<(LogId, Json)>
    decreases batches.len(),
{
    if batches.len() == 0 {
        Seq::empty()
    } else {
        flat(batches.drop_last()) + addressed(batches.last().log, batches.last().records@)
    }
}

/// No two batches in a row are for one log.
pub open spec fn grouped(batches: Seq<Batch>) -> bool {
    forall|i: int| 0 <= i < batches.len() - 1 ==> (#[trigger] batches[i]).log != batches[i + 1].log
}

proof fn lemma_flat_front(batches: Seq<Batch>)
    requires
        batches.len() > 0,
    ensures
        flat(batches) == addressed(batches.first().log, batches.first().records@) + flat(
            batches.drop_first(),
        ),
    decreases batches.len(),
{
    let first = addressed(batches.first().log, batches.first().records@);
    if batches.len() == 1 {
        assert(batches.drop_last() =~= Seq::empty());
        assert(batches.drop_first() =~= Seq::empty());
        assert(flat(batches) =~= first + flat(batches.drop_first()));
    } else {
        lemma_flat_front(batches.drop_last());
        assert(batches.drop_last().drop_first() =~= batches.drop_first().drop_last());
        assert(flat(batches) =~= first + flat(batches.drop_first()));
    }
}

/// What the writer holds between two appends: the records it has taken from
/// its queue and not appended, and the first append that failed.
#[derive(Debug)]
pub struct WriterState {
    pub pending: Vec<Batch>,
    pub failure: Option<String>,
}

/// What the observers call the writer.
pub const STORE_OBSERVER: &'static str = "run store";

impl WriterState {
    /// The records not appended yet, in the order they were taken.
    pub open spec fn waiting(&self) -> Seq<(LogId, Json)> {
        flat(self.pending@)
    }

    /// Batches are for different logs in a row, and a writer that failed
    /// holds none.
    pub open spec fn wf(&self) -> bool {
        &&& grouped(self.pending@)
        &&& self.failure is Some ==> self.pending@.len() == 0
    }

    /// A writer that has taken nothing.
    pub fn new() -> (writer: WriterState)
        ensures
            writer.wf(),
            writer.failure is None,
            writer.waiting() == Seq::<(LogId, Json)>::empty(),
    {
        WriterState { pending: Vec::new(), failure: None }
    }

    /// Take records off the queue: with the batch before them when it is for
    /// their log. After a failed append, records are not stored.
    pub fn take(&mut self, log: LogId, records: Vec<Json>)
        requires
            old(self).wf(),
        ensures
            final(self).wf(),
            final(self).failure == old(self).failure,
            final(self).waiting() == (if old(self).failure is Some {
                Seq::empty()
            } else {
                old(self).waiting() + addressed(log, records@)
            }),
    {
        if self.failure.is_some() {
            assert(flat(self.pending@) =~= Seq::empty());
            return;
        }
        let ghost before = self.pending@;
        let count = self.pending.len();
        if count > 0 && self.pending[count - 1].log == log {
            let ghost last = before.last();
            match self.pending.pop() {
                Some(batch) => {
                    let mut batch = batch;
                    let mut records = records;
                    let ghost more = records@;
                    batch.records.append(&mut records);
                    assert(addressed(log, batch.records@) =~= addressed(log, last.records@)
                        + addressed(log, more));
                    self.pending.push(batch);
                    proof {
                        assert(self.pending@.drop_last() =~= before.drop_last());
                        assert(self.waiting() =~= flat(before) + addressed(log, more));
                        assert forall|i: int| 0 <= i < self.pending@.len() - 1 implies (
                        #[trigger] self.pending@[i]).log != self.pending@[i + 1].log by {
                            assert(before[i].log != before[i + 1].log);
                        }
                    }
                },
                None => {},
            }
        } else {
            self.pending.push(Batch { log, records });
            proof {
                assert(self.pending@.drop_last() =~= before);
                assert forall|i: int| 0 <= i < self.pending@.len() - 1 implies (
                #[trigger] self.pending@[i]).log != self.pending@[i + 1].log by {
                    if i < before.len() - 1 {
                        assert(before[i].log != before[i + 1].log);
                    }
                }
            }
        }
    }

    /// The batch to append next: the oldest.
    pub fn next(&mut self) -> (batch: Option<Batch>)
        requires
            old(self).wf(),
        ensures
            final(self).wf(),
            final(self).failure == old(self).failure,
            match batch {
                Some(batch) => {
                    let left = final(self).waiting();
                    old(self).waiting() == addressed(batch.log, batch.records@) + left
                },
                None => old(self).waiting() == Seq::<(LogId, Json)>::empty() && final(self).waiting()
                    == Seq::<(LogId, Json)>::empty(),
            },
            batch is Some <==> old(self).pending@.len() > 0,
    {
        if self.pending.len() == 0 {
            return None;
        }
        let ghost before = self.pending@;
        proof {
            lemma_flat_front(before);
        }
        let batch = self.pending.remove(0);
        proof {
            assert(self.pending@ =~= before.drop_first());
            assert forall|i: int| 0 <= i < self.pending@.len() - 1 implies (
            #[trigger] self.pending@[i]).log != self.pending@[i + 1].log by {
                assert(before[i + 1].log != before[i + 2].log);
            }
        }
        Some(batch)
    }

    /// An append failed: the writer stores nothing more, and drops what it
    /// had taken. `log` and `error` are what the store calls them.
    pub fn append_failed(&mut self, log: &str, error: &str)
        requires
            old(self).wf(),
        ensures
            final(self).wf(),
            final(self).waiting() == Seq::<(LogId, Json)>::empty(),
            match old(self).failure {
                Some(failure) => final(self).failure == Some(failure),
                None => final(self).failure matches Some(failure) && failure@
                    == "could not append to the "@ + log@ + " log: "@ + error@,
            },
    {
        if self.failure.is_none() {
            let message = join3("could not append to the ", log, " log: ").concat(error);
            self.stop(message);
        }
    }

    /// The run's store handle is gone: the writer stores nothing more.
    pub fn store_gone(&mut self)
        requires
            old(self).wf(),
        ensures
            final(self).wf(),
            final(self).waiting() == Seq::<(LogId, Json)>::empty(),
            match old(self).failure {
                Some(failure) => final(self).failure == Some(failure),
                None => final(self).failure matches Some(failure) && failure@
                    == "the run's store handle is gone"@,
            },
    {
        if self.failure.is_none() {
            self.stop("the run's store handle is gone".to_owned());
        }
    }

    fn stop(&mut self, message: String)
        ensures
            final(self).wf(),
            final(self).waiting() == Seq::<(LogId, Json)>::empty(),
            final(self).failure == Some(message),
    {
        self.pending = Vec::new();
        self.failure = Some(message);
    }

    /// What a marker is answered once everything taken before it was handed
    /// to the store: the first failed append, or that all of it is stored.
    pub fn answer(&self) -> (answer: Result<(), ObserveError>)
        ensures
            match (answer, self.failure) {
                (Ok(()), None) => true,
                (Err(error), Some(failure)) => error.observer@ == STORE_OBSERVER@ && error.message
                    == failure,
                _ => false,
            },
    {
        match &self.failure {
            Some(message) => Err(
                ObserveError { observer: STORE_OBSERVER.to_owned(), message: message.clone() },
            ),
            None => Ok(()),
        }
    }
}

/// What a marker is answered when the writer's queue closed before it.
pub fn writer_stopped(locator: &str) -> (error: ObserveError)
    ensures
        error.observer@ == STORE_OBSERVER@,
        error.message@ == "the writer for "@ + locator@ + " stopped"@,
{
    ObserveError {
        observer: STORE_OBSERVER.to_owned(),
        message: join3("the writer for ", locator, " stopped"),
    }
}

/// One execution's engine log as an observer: `high_water` is the count of
/// records already stored. A resumed driver redelivers the stored prefix,
/// and records below the mark are skipped.
#[derive(Clone, Copy, Debug, PartialEq, Eq, Structural)]
pub struct ExecutionLogWriter {
    pub execution: ExecutionId,
    pub high_water: u64,
}

impl ExecutionLogWriter {
    pub fn new(execution: ExecutionId, high_water: u64) -> (writer: ExecutionLogWriter)
        ensures
            writer == (ExecutionLogWriter { execution, high_water }),
    {
        ExecutionLogWriter { execution, high_water }
    }

    /// The records of a delivery that go to the store: none when the record
    /// is stored already, and the log they go to.
    pub fn on_record(&self, seq: u64, stored: Json) -> (batch: Option<Batch>)
        ensures
            match batch {
                Some(batch) => seq >= self.high_water && batch.log == LogId::Execution(
                    self.execution,
                ) && batch.records@ == seq![stored],
                None => seq < self.high_water,
            },
    {
        if seq < self.high_water {
            return None;
        }
        let records = vec![stored];
        assert(records@ =~= seq![stored]);
        Some(Batch { log: LogId::Execution(self.execution), records })
    }
}

/// What the writer reads off its queue or hears from the store.
pub enum WriterEvent {
    Taken { log: LogId, records: Seq<Json> },
    Appended { batch: LogId, records: Seq<Json> },
    Failed,
}

/// The records taken off the queue up to the first failed append.
pub open spec fn taken(events: Seq<WriterEvent>) -> Seq<(LogId, Json)>
    decreases events.len(),
{
    if events.len() == 0 {
        Seq::empty()
    } else {
        match events.last() {
            WriterEvent::Taken { log, records } => taken(events.drop_last()) + addressed(
                log,
                records,
            ),
            _ => taken(events.drop_last()),
        }
    }
}

/// The records the store acknowledged.
pub open spec fn appended(events: Seq<WriterEvent>) -> Seq<(LogId, Json)>
    decreases events.len(),
{
    if events.len() == 0 {
        Seq::empty()
    } else {
        match events.last() {
            WriterEvent::Appended { batch, records } => appended(events.drop_last()) + addressed(
                batch,
                records,
            ),
            _ => appended(events.drop_last()),
        }
    }
}

/// What a writer that has not failed waits with after events: nothing when
/// it could not have seen them, since an append is of the oldest records
/// that wait.
pub open spec fn waiting_after(events: Seq<WriterEvent>) -> Option<Seq<(LogId, Json)>>
    decreases events.len(),
{
    if events.len() == 0 {
        Some(Seq::empty())
    } else {
        match (waiting_after(events.drop_last()), events.last()) {
            (Some(before), WriterEvent::Taken { log, records }) => Some(
                before + addressed(log, records),
            ),
            (Some(before), WriterEvent::Appended { batch, records }) => {
                let stored = addressed(batch, records);
                if stored.len() <= before.len() && before.take(stored.len() as int) == stored {
                    Some(before.skip(stored.len() as int))
                } else {
                    None
                }
            },
            _ => None,
        }
    }
}

/// Every record the writer takes is stored or waits, in the order it was
/// taken: what the store acknowledged, then what waits, is what was taken.
/// So a marker reached with nothing waiting has everything before it stored.
pub proof fn law_nothing_is_lost_or_reordered(events: Seq<WriterEvent>)
    requires
        waiting_after(events) is Some,
    ensures
        taken(events) == appended(events) + waiting_after(events)->0,
        waiting_after(events)->0.len() == 0 ==> taken(events) == appended(events),
    decreases events.len(),
{
    let waiting = waiting_after(events)->0;
    if events.len() == 0 {
        assert(taken(events) =~= appended(events) + waiting);
    } else {
        let rest = events.drop_last();
        law_nothing_is_lost_or_reordered(rest);
        let before = waiting_after(rest)->0;
        match events.last() {
            WriterEvent::Taken { log, records } => {
                assert(taken(events) =~= appended(events) + waiting);
            },
            WriterEvent::Appended { batch, records } => {
                let stored = addressed(batch, records);
                assert(before =~= stored + waiting);
                assert(taken(events) =~= appended(events) + waiting);
            },
            WriterEvent::Failed => {},
        }
    }
    if waiting.len() == 0 {
        assert(appended(events) + waiting =~= appended(events));
    }
}

} // verus!

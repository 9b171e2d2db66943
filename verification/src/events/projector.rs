//! Live delivery: what finds its way onto the bounded queue, what the sink
//! gets, and the receipt that accounts for both.

use crate::events::{EventId, EventSource, RunEvent, EVENT_CONTRACT_VERSION};
use crate::text::{decimal, join, join3, number};
use vstd::prelude::*;
use vstd::string::*;

verus! {

/// The queue capacity unless [`ProjectorOptions`] says otherwise.
pub const DEFAULT_QUEUE_CAPACITY: usize = 1024;

/// How long one sink call may take, in milliseconds, unless
/// [`ProjectorOptions`] says otherwise.
pub const DEFAULT_STALL_TIMEOUT_MS: u64 = 30_000;

/// How the memory and the time a host's sink can cost are bounded.
#[derive(Clone, Copy, Debug, PartialEq, Eq, Structural)]
pub struct ProjectorOptions {
    /// Events the queue holds between the observer callback and the pump.
    /// The callback never waits for room; an event projected while the queue
    /// is full is left to the durable log and counted as overflowed.
    pub capacity: usize,
    /// How long one delivery, or the sink's finish, may take, in
    /// milliseconds. A call that outlasts it is dropped and the sink counts
    /// as failed from then on.
    pub stall_timeout_ms: u64,
}

impl Default for ProjectorOptions {
    fn default() -> (options: ProjectorOptions)
        ensures
            options.capacity == DEFAULT_QUEUE_CAPACITY,
            options.stall_timeout_ms == DEFAULT_STALL_TIMEOUT_MS,
    {
        ProjectorOptions {
            capacity: DEFAULT_QUEUE_CAPACITY,
            stall_timeout_ms: DEFAULT_STALL_TIMEOUT_MS,
        }
    }
}

impl ProjectorOptions {
    /// The room the queue is made with: at least one event.
    pub fn room(&self) -> (room: usize)
        ensures
            room == (if self.capacity == 0 {
                1
            } else {
                self.capacity
            }),
    {
        if self.capacity == 0 {
            1
        } else {
            self.capacity
        }
    }
}

/// A sink refused or lost an event.
#[derive(Debug)]
pub struct SinkError {
    pub message: String,
}

impl SinkError {
    pub fn new(message: String) -> (error: SinkError)
        ensures
            error == (SinkError { message }),
    {
        SinkError { message }
    }
}

/// What the projector did over a run. `projected` is every event derived;
/// `delivered + undelivered` equals it. A receipt that is not clean means
/// the sink does not hold the whole stream, and a replay completes it.
#[derive(Debug)]
pub struct ProjectionReceipt {
    pub version: u32,
    pub projected: u64,
    pub delivered: u64,
    /// Events the sink never received: they found the queue full, or the
    /// sink had failed or stalled before their turn.
    pub undelivered: u64,
    /// Of `undelivered`, the events that found the queue full and were left
    /// to the durable log.
    pub overflowed: u64,
    /// Why delivery stopped, when it did.
    pub failure: Option<String>,
}

impl ProjectionReceipt {
    /// Every event is accounted for, once.
    pub open spec fn balanced(&self) -> bool {
        &&& self.delivered + self.undelivered == self.projected
        &&& self.overflowed <= self.undelivered
    }

    /// Whether the sink holds the whole stream.
    pub fn is_clean(&self) -> (clean: bool)
        ensures
            clean == (self.failure is None && self.undelivered == 0),
    {
        self.failure.is_none() && self.undelivered == 0
    }

    /// A receipt of nothing, with why there is nothing.
    fn blank(failure: Option<String>) -> (receipt: ProjectionReceipt)
        ensures
            receipt == (ProjectionReceipt {
                version: EVENT_CONTRACT_VERSION,
                projected: 0,
                delivered: 0,
                undelivered: 0,
                overflowed: 0,
                failure,
            }),
    {
        ProjectionReceipt {
            version: EVENT_CONTRACT_VERSION,
            projected: 0,
            delivered: 0,
            undelivered: 0,
            overflowed: 0,
            failure,
        }
    }
}

/// A clean receipt of a balanced account says that everything projected was
/// delivered.
pub proof fn law_clean_means_delivered(receipt: ProjectionReceipt)
    requires
        receipt.balanced(),
        receipt.failure is None,
        receipt.undelivered == 0,
    ensures
        receipt.delivered == receipt.projected,
        receipt.overflowed == 0,
{
}

/// An event identity's name in a receipt.
pub open spec fn label_of(id: EventId) -> Seq<char> {
    match id.source {
        EventSource::Coordinator => "coordinator record "@ + decimal(id.seq as nat) + " event "@
            + decimal(id.index as nat),
        EventSource::Execution { execution } => "execution "@ + decimal(execution.0 as nat)
            + " record "@ + decimal(id.seq as nat) + " event "@ + decimal(id.index as nat),
    }
}

/// An event identity as a receipt names it.
pub fn event_label(id: &EventId) -> (label: String)
    ensures
        label@ == label_of(*id),
{
    let seq = number(id.seq);
    let index = number(id.index as u64);
    match id.source {
        EventSource::Coordinator => join3("coordinator record ", seq.as_str(), " event ").concat(
            index.as_str(),
        ),
        EventSource::Execution { execution } => join3(
            "execution ",
            number(execution.0).as_str(),
            " record ",
        ).concat(seq.as_str()).concat(" event ").concat(index.as_str()),
    }
}

/// An event as the projector hands it on: seen at `now`.
pub fn stamped(event: RunEvent, now: Option<u64>) -> (seen: RunEvent)
    ensures
        seen == (RunEvent { observed_at: now, ..event }),
{
    RunEvent { observed_at: now, ..event }
}

/// How the bounded queue took an event.
#[derive(Clone, Copy, Debug, PartialEq, Eq, Structural)]
pub enum SendOutcome {
    Sent,
    Full,
    /// The pump is gone.
    Closed,
}

/// The sender side of the pump's queue and what never got onto it.
#[derive(Clone, Copy, Debug, PartialEq, Eq, Structural)]
pub struct Queue {
    /// Whether the stream is open: shutdown closes it.
    pub open: bool,
    /// Events the pump was sent.
    pub sent: u64,
    /// Events that found the queue full.
    pub overflowed: u64,
    /// Events projected after the stream was closed.
    pub after_close: u64,
}

/// The queue's account after one more event.
pub open spec fn after_push(queue: Queue, outcome: SendOutcome) -> Queue {
    if !queue.open || outcome == SendOutcome::Closed {
        Queue { after_close: (queue.after_close + 1) as u64, ..queue }
    } else if outcome == SendOutcome::Full {
        Queue { overflowed: (queue.overflowed + 1) as u64, ..queue }
    } else {
        Queue { sent: (queue.sent + 1) as u64, ..queue }
    }
}

impl Queue {
    /// Every event pushed so far.
    pub open spec fn pushed(&self) -> int {
        self.sent + self.overflowed + self.after_close
    }

    pub fn new() -> (queue: Queue)
        ensures
            queue == (Queue { open: true, sent: 0, overflowed: 0, after_close: 0 }),
    {
        Queue { open: true, sent: 0, overflowed: 0, after_close: 0 }
    }

    /// Account for one event: an event that finds the queue full is left to
    /// the durable log and counted. Whether it is the first to, which is
    /// worth a warning.
    pub fn push(&mut self, outcome: SendOutcome) -> (warn: bool)
        requires
            old(self).pushed() < u64::MAX,
        ensures
            final(self).open == old(self).open,
            final(self).pushed() == old(self).pushed() + 1,
            *final(self) == after_push(*old(self), outcome),
            warn == (old(self).open && outcome == SendOutcome::Full && old(self).overflowed == 0),
    {
        if !self.open {
            self.after_close = self.after_close + 1;
            return false;
        }
        match outcome {
            SendOutcome::Sent => {
                self.sent = self.sent + 1;
                false
            },
            SendOutcome::Full => {
                self.overflowed = self.overflowed + 1;
                self.overflowed == 1
            },
            SendOutcome::Closed => {
                self.after_close = self.after_close + 1;
                false
            },
        }
    }

    /// End the stream.
    pub fn close(&mut self)
        ensures
            *final(self) == (Queue { open: false, ..*old(self) }),
    {
        self.open = false;
    }
}

/// How a sink took a call.
#[derive(Debug)]
pub enum SinkOutcome {
    Accepted,
    Refused(SinkError),
    /// The call outlasted the stall budget.
    Stalled,
}

/// What a delivery that outlasted its budget is reported as.
pub open spec fn delivery_stalled(id: EventId, stall_ms: u64) -> Seq<char> {
    "the sink stalled: "@ + label_of(id) + " was not accepted within "@ + decimal(stall_ms as nat)
        + "ms, and delivery stopped there"@
}

/// What a finish that outlasted its budget is reported as.
pub open spec fn finish_stalled(stall_ms: u64) -> Seq<char> {
    "the sink stalled: `finish` did not return within "@ + decimal(stall_ms as nat) + "ms"@
}

/// The pump: what it has delivered and what it has not, event by event.
#[derive(Debug)]
pub struct Pump {
    pub receipt: ProjectionReceipt,
}

impl Pump {
    pub open spec fn wf(&self) -> bool {
        &&& self.receipt.balanced()
        &&& self.receipt.overflowed == 0
        &&& self.receipt.failure is None ==> self.receipt.undelivered == 0
    }

    pub fn new() -> (pump: Pump)
        ensures
            pump.wf(),
            pump.receipt.projected == 0,
            pump.receipt.failure is None,
            pump.receipt.version == EVENT_CONTRACT_VERSION,
    {
        Pump { receipt: ProjectionReceipt::blank(None) }
    }

    /// Whether the next event is handed to the sink: not once a call failed
    /// or stalled.
    pub fn delivers(&self) -> (delivers: bool)
        ensures
            delivers == self.receipt.failure is None,
    {
        self.receipt.failure.is_none()
    }

    /// An event whose turn came after the sink failed.
    pub fn withheld(&mut self)
        requires
            old(self).wf(),
            old(self).receipt.failure is Some,
            old(self).receipt.projected < u64::MAX,
        ensures
            final(self).wf(),
            final(self).receipt == (ProjectionReceipt {
                projected: (old(self).receipt.projected + 1) as u64,
                undelivered: (old(self).receipt.undelivered + 1) as u64,
                ..old(self).receipt
            }),
    {
        self.receipt.projected = self.receipt.projected + 1;
        self.receipt.undelivered = self.receipt.undelivered + 1;
    }

    /// An event the sink was handed: delivered, or the one delivery stopped
    /// at.
    pub fn handed(&mut self, id: &EventId, outcome: SinkOutcome, stall_ms: u64)
        requires
            old(self).wf(),
            old(self).receipt.failure is None,
            old(self).receipt.projected < u64::MAX,
        ensures
            final(self).wf(),
            final(self).receipt.version == old(self).receipt.version,
            final(self).receipt.projected == old(self).receipt.projected + 1,
            match outcome {
                SinkOutcome::Accepted => final(self).receipt.delivered
                    == old(self).receipt.delivered + 1 && final(self).receipt.failure is None,
                SinkOutcome::Refused(error) => final(self).receipt.delivered
                    == old(self).receipt.delivered && final(self).receipt.failure == Some(
                    error.message,
                ),
                SinkOutcome::Stalled => {
                    &&& final(self).receipt.delivered == old(self).receipt.delivered
                    &&& final(self).receipt.failure matches Some(message) && message@
                        == delivery_stalled(*id, stall_ms)
                },
            },
    {
        self.receipt.projected = self.receipt.projected + 1;
        match outcome {
            SinkOutcome::Accepted => {
                self.receipt.delivered = self.receipt.delivered + 1;
            },
            SinkOutcome::Refused(error) => {
                self.receipt.undelivered = self.receipt.undelivered + 1;
                self.receipt.failure = Some(error.message);
            },
            SinkOutcome::Stalled => {
                self.receipt.undelivered = self.receipt.undelivered + 1;
                let message = join3(
                    "the sink stalled: ",
                    event_label(id).as_str(),
                    " was not accepted within ",
                ).concat(number(stall_ms).as_str()).concat("ms, and delivery stopped there");
                self.receipt.failure = Some(message);
            },
        }
    }

    /// The sink's finish, called once the queue closed unless a call failed.
    pub fn finished(&mut self, outcome: SinkOutcome, stall_ms: u64)
        requires
            old(self).wf(),
            old(self).receipt.failure is None,
        ensures
            final(self).wf(),
            final(self).receipt == (ProjectionReceipt {
                failure: final(self).receipt.failure,
                ..old(self).receipt
            }),
            match outcome {
                SinkOutcome::Accepted => final(self).receipt.failure is None,
                SinkOutcome::Refused(error) => final(self).receipt.failure == Some(error.message),
                SinkOutcome::Stalled => final(self).receipt.failure matches Some(message)
                    && message@ == finish_stalled(stall_ms),
            },
    {
        match outcome {
            SinkOutcome::Accepted => {},
            SinkOutcome::Refused(error) => {
                self.receipt.failure = Some(error.message);
            },
            SinkOutcome::Stalled => {
                self.receipt.failure = Some(
                    join3(
                        "the sink stalled: `finish` did not return within ",
                        number(stall_ms).as_str(),
                        "ms",
                    ),
                );
            },
        }
    }
}

/// The pump's task as shutdown finds it.
#[derive(Debug)]
pub enum PumpEnd {
    Receipt(ProjectionReceipt),
    /// The task failed, with its error.
    Failed(String),
    /// An earlier shutdown took it.
    Taken,
}

/// Whether a receipt is that of a run whose pump ended so: the pump's account
/// with what never got onto its queue.
pub open spec fn is_receipt(queue: Queue, pump: PumpEnd, receipt: ProjectionReceipt) -> bool {
    match pump {
        PumpEnd::Receipt(pumped) => receipt == (ProjectionReceipt {
            projected: (pumped.projected + queue.overflowed + queue.after_close) as u64,
            undelivered: (pumped.undelivered + queue.overflowed + queue.after_close) as u64,
            overflowed: queue.overflowed,
            ..pumped
        }) && (pumped.projected == queue.sent ==> receipt.projected == queue.pushed()),
        PumpEnd::Failed(error) => {
            &&& receipt.version == EVENT_CONTRACT_VERSION
            &&& receipt.failure matches Some(message) && message@
                == "the event pump failed: "@ + error@
            &&& receipt.delivered == 0
            &&& receipt.projected == queue.overflowed + queue.after_close
            &&& receipt.overflowed == queue.overflowed
        },
        PumpEnd::Taken => {
            &&& receipt.version == EVENT_CONTRACT_VERSION
            &&& receipt.failure matches Some(message) && message@
                == "shutdown was called twice"@
            &&& receipt.projected == 0
            &&& receipt.delivered == 0
            &&& receipt.undelivered == 0
            &&& receipt.overflowed == 0
        },
    }
}

/// The receipt of a run: the pump's account with what never got onto its
/// queue.
pub fn shutdown(queue: &Queue, pump: PumpEnd) -> (receipt: ProjectionReceipt)
    requires
        pump matches PumpEnd::Receipt(receipt) ==> receipt.balanced() && receipt.overflowed == 0
            && receipt.projected + queue.overflowed + queue.after_close <= u64::MAX,
        queue.overflowed + queue.after_close <= u64::MAX,
    ensures
        receipt.balanced(),
        is_receipt(*queue, pump, receipt),
{
    let mut receipt = match pump {
        PumpEnd::Receipt(receipt) => receipt,
        PumpEnd::Failed(error) => ProjectionReceipt::blank(
            Some(join("the event pump failed: ", error.as_str())),
        ),
        PumpEnd::Taken => {
            return ProjectionReceipt::blank(Some("shutdown was called twice".to_owned()));
        },
    };
    let missed = queue.overflowed + queue.after_close;
    receipt.projected = receipt.projected + missed;
    receipt.undelivered = receipt.undelivered + missed;
    receipt.overflowed = queue.overflowed;
    receipt
}

// ── The whole stream ───────────────────────────────────────────────────

/// What a projector does, one step after another.
pub enum StreamStep {
    /// An event is derived and pushed.
    Push { outcome: SendOutcome },
    /// The pump takes the next event off the queue and accounts for it.
    Take,
    /// The stream is closed.
    Close,
    /// The sink's finish returned.
    Finish,
}

/// Where a projector stands: the queue's account, the pump's, and how many
/// events are on the queue.
pub struct StreamStage {
    pub queue: Queue,
    pub receipt: ProjectionReceipt,
    pub waiting: nat,
}

/// Whether a step takes a projector from one stage to the next: what is sent
/// waits on the queue until the pump takes it.
pub open spec fn steps_to(before: StreamStage, step: StreamStep, after: StreamStage) -> bool {
    match step {
        StreamStep::Push { outcome } => {
            &&& before.queue.pushed() < u64::MAX
            &&& after.queue == after_push(before.queue, outcome)
            &&& after.receipt == before.receipt
            &&& after.waiting == if before.queue.open && outcome == SendOutcome::Sent {
                before.waiting + 1
            } else {
                before.waiting
            }
        },
        StreamStep::Take => {
            &&& before.waiting > 0
            &&& after.waiting == before.waiting - 1
            &&& after.queue == before.queue
            &&& after.receipt.balanced()
            &&& after.receipt.overflowed == 0
            &&& after.receipt.version == before.receipt.version
            &&& after.receipt.projected == before.receipt.projected + 1
        },
        StreamStep::Close => {
            &&& after.queue == (Queue { open: false, ..before.queue })
            &&& after.receipt == before.receipt
            &&& after.waiting == before.waiting
        },
        StreamStep::Finish => {
            &&& after.queue == before.queue
            &&& after.waiting == before.waiting
            &&& after.receipt == (ProjectionReceipt {
                failure: after.receipt.failure,
                ..before.receipt
            })
        },
    }
}

/// Whether steps take a projector through stages from its start.
pub open spec fn streams(steps: Seq<StreamStep>, stages: Seq<StreamStage>) -> bool {
    &&& stages.len() == steps.len() + 1
    &&& stages[0].queue == (Queue { open: true, sent: 0, overflowed: 0, after_close: 0 })
    &&& stages[0].receipt.projected == 0
    &&& stages[0].receipt.balanced()
    &&& stages[0].receipt.overflowed == 0
    &&& stages[0].receipt.version == EVENT_CONTRACT_VERSION
    &&& stages[0].waiting == 0
    &&& forall|i: int|
        0 <= i < steps.len() ==> #[trigger] steps_to(stages[i], steps[i], stages[i + 1])
}

/// How many events were derived.
pub open spec fn derived_in(steps: Seq<StreamStep>) -> nat
    decreases steps.len(),
{
    if steps.len() == 0 {
        0
    } else {
        derived_in(steps.drop_last()) + if steps.last() is Push {
            1nat
        } else {
            0
        }
    }
}

proof fn lemma_stream_counts(steps: Seq<StreamStep>, stages: Seq<StreamStage>, i: int)
    requires
        streams(steps, stages),
        0 <= i <= steps.len(),
    ensures
        stages[i].queue.sent == stages[i].receipt.projected + stages[i].waiting,
        stages[i].queue.pushed() == derived_in(steps.take(i)),
        stages[i].receipt.balanced(),
        stages[i].receipt.overflowed == 0,
        stages[i].receipt.version == EVENT_CONTRACT_VERSION,
    decreases i,
{
    if i == 0 {
        assert(steps.take(0) =~= Seq::empty());
    } else {
        lemma_stream_counts(steps, stages, i - 1);
        assert(steps.take(i).drop_last() =~= steps.take(i - 1));
        assert(steps.take(i).last() == steps[i - 1]);
        let at = i - 1;
        assert(steps_to(stages[at], steps[at], stages[at + 1]));
    }
}

/// Once the pump has drained its queue, the receipt of a shutdown accounts
/// for every event that was derived, each once: `projected` is their number,
/// and what was not delivered was counted as undelivered.
pub proof fn law_a_drained_stream_is_accounted_for(
    steps: Seq<StreamStep>,
    stages: Seq<StreamStage>,
    receipt: ProjectionReceipt,
)
    requires
        streams(steps, stages),
        stages.last().waiting == 0,
        is_receipt(stages.last().queue, PumpEnd::Receipt(stages.last().receipt), receipt),
    ensures
        stages.last().receipt.projected == stages.last().queue.sent,
        receipt.projected == derived_in(steps),
        receipt.delivered + receipt.undelivered == receipt.projected,
        receipt.overflowed <= receipt.undelivered,
        receipt.version == EVENT_CONTRACT_VERSION,
{
    lemma_stream_counts(steps, stages, steps.len() as int);
    assert(steps.take(steps.len() as int) =~= steps);
}

} // verus!

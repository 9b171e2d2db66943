//! The coordinator's records: relationships and lifecycle facts that span
//! engine logs.

use crate::ids::{
    Attempt, ExecutionId, FiringId, GraphDigest, InvocationId, SandboxLeaseId, ScopeId,
};
use crate::json::{share, Json};
use crate::model::{copy_failure, FailureInfo, Fields, RunStatus};
use crate::record::{EngineExit, EngineStart, EventOrigin};
use crate::text::{decimal, join3, number};
use std::sync::Arc;
use vstd::prelude::*;
use vstd::string::*;

verus! {

/// The run format this build writes and reads. Every record carries
/// `recorded_at`, the wall-clock time the store appended it, so replay
/// recovers the original run, invocation and execution times; a run of an
/// earlier format has none and is refused, never migrated.
pub const COORDINATOR_FORMAT_VERSION: u32 = 3;

/// Where a child takes one of its secrets from.
#[derive(Debug)]
pub enum SecretBinding {
    Parent(String),
    Empty,
}

/// Name-only child secret bindings. Plaintext is not representable here.
#[derive(Debug)]
pub enum SecretBindings {
    NoSecrets,
    Inherit,
    Explicit(Arc<Vec<(String, SecretBinding)>>),
}

impl Clone for SecretBindings {
    fn clone(&self) -> (copy: SecretBindings)
        ensures
            copy == *self,
    {
        match self {
            SecretBindings::NoSecrets => SecretBindings::NoSecrets,
            SecretBindings::Inherit => SecretBindings::Inherit,
            SecretBindings::Explicit(bindings) => SecretBindings::Explicit(share(bindings)),
        }
    }
}

/// Whether two bindings of one secret are the same.
pub open spec fn same_binding(a: SecretBinding, b: SecretBinding) -> bool {
    match (a, b) {
        (SecretBinding::Parent(a), SecretBinding::Parent(b)) => a@ == b@,
        (SecretBinding::Empty, SecretBinding::Empty) => true,
        _ => false,
    }
}

/// Whether two sets of bindings are the same.
pub open spec fn same_bindings(a: SecretBindings, b: SecretBindings) -> bool {
    match (a, b) {
        (SecretBindings::NoSecrets, SecretBindings::NoSecrets) => true,
        (SecretBindings::Inherit, SecretBindings::Inherit) => true,
        (SecretBindings::Explicit(a), SecretBindings::Explicit(b)) => {
            &&& a@.len() == b@.len()
            &&& forall|i: int|
                0 <= i < a@.len() ==> (#[trigger] a@[i]).0@ == b@[i].0@ && same_binding(
                    a@[i].1,
                    b@[i].1,
                )
        },
        _ => false,
    }
}

impl SecretBinding {
    /// Whether the bindings are the same.
    pub fn same(&self, other: &SecretBinding) -> (same: bool)
        ensures
            same == same_binding(*self, *other),
    {
        match (self, other) {
            (SecretBinding::Parent(a), SecretBinding::Parent(b)) => *a == *b,
            (SecretBinding::Empty, SecretBinding::Empty) => true,
            _ => false,
        }
    }
}

impl SecretBindings {
    /// Whether the bindings are the same.
    pub fn same(&self, other: &SecretBindings) -> (same: bool)
        ensures
            same == same_bindings(*self, *other),
    {
        match (self, other) {
            (SecretBindings::NoSecrets, SecretBindings::NoSecrets) => true,
            (SecretBindings::Inherit, SecretBindings::Inherit) => true,
            (SecretBindings::Explicit(a), SecretBindings::Explicit(b)) => {
                if a.len() != b.len() {
                    return false;
                }
                let mut i: usize = 0;
                while i < a.len()
                    invariant
                        i <= a.len(),
                        a.len() == b.len(),
                        *self == SecretBindings::Explicit(*a),
                        *other == SecretBindings::Explicit(*b),
                        forall|j: int|
                            0 <= j < i ==> (#[trigger] a@[j]).0@ == b@[j].0@ && same_binding(
                                a@[j].1,
                                b@[j].1,
                            ),
                    decreases a.len() - i,
                {
                    if a[i].0 != b[i].0 || !a[i].1.same(&b[i].1) {
                        assert(a@[i as int].0@ != b@[i as int].0@ || !same_binding(
                            a@[i as int].1,
                            b@[i as int].1,
                        ));
                        return false;
                    }
                    i = i + 1;
                }
                true
            },
            _ => false,
        }
    }
}

/// What a caller requests before declaration resolves the binding.
#[derive(Clone, Copy, Debug, PartialEq, Eq, Structural)]
pub enum SandboxMode {
    /// Share the caller's sandbox. The caller names its own scope.
    Inherit { scope: ScopeId },
    Isolated,
}

/// The durable sandbox binding on an invocation declaration.
#[derive(Clone, Copy, Debug, PartialEq, Eq, Structural)]
pub enum SandboxBinding {
    Inherited { lease: SandboxLeaseId },
    Isolated,
}

/// Bounded concurrency for a fork's child invocations: the invocations one
/// parent execution declares under one `gate` share `max_parallel`
/// slots.
#[derive(Debug)]
pub struct AttemptAdmission {
    pub gate: String,
    pub max_parallel: u32,
}

impl Clone for AttemptAdmission {
    fn clone(&self) -> (copy: AttemptAdmission)
        ensures
            copy == *self,
    {
        AttemptAdmission { gate: self.gate.clone(), max_parallel: self.max_parallel }
    }
}

/// Whether two admissions are the same.
pub open spec fn same_admission(a: Option<AttemptAdmission>, b: Option<AttemptAdmission>) -> bool {
    match (a, b) {
        (None, None) => true,
        (Some(a), Some(b)) => a.gate@ == b.gate@ && a.max_parallel == b.max_parallel,
        _ => false,
    }
}

/// Whether two admissions are the same.
pub fn admissions_match(a: &Option<AttemptAdmission>, b: &Option<AttemptAdmission>) -> (same: bool)
    ensures
        same == same_admission(*a, *b),
{
    match (a, b) {
        (None, None) => true,
        (Some(a), Some(b)) => a.gate == b.gate && a.max_parallel == b.max_parallel,
        _ => false,
    }
}

/// Copy an optional admission.
pub fn copy_admission(admission: &Option<AttemptAdmission>) -> (copy: Option<AttemptAdmission>)
    ensures
        copy == *admission,
{
    match admission {
        Some(admission) => Some(admission.clone()),
        None => None,
    }
}

/// Why a cancel was requested, when the requester said so.
#[derive(Clone, Copy, Debug, PartialEq, Eq, Structural)]
pub enum CancelReason {
    /// The stall watchdog: no execution activity for the run's budget.
    StallTimeout { stall_timeout_ms: u64, idle_ms: u64 },
    /// An interrupt from the terminal.
    Interrupt,
    /// A run control: the control service, a control file, an embedding
    /// host.
    Control,
}

/// One cancel request.
#[derive(Clone, Copy, Debug, PartialEq, Eq, Structural)]
pub struct CancelRequest {
    pub invocation: InvocationId,
    pub reason: Option<CancelReason>,
    /// Whether the request reaches the driver of an invocation that is
    /// already cancelled, which escalates that driver to its kill tier.
    pub escalate: bool,
}

/// The durable idempotency key for a nested call.
#[derive(Debug)]
pub struct ParentCallKey {
    pub parent: ExecutionId,
    pub firing: FiringId,
    pub attempt: Attempt,
    pub slot: String,
}

impl Clone for ParentCallKey {
    fn clone(&self) -> (copy: ParentCallKey)
        ensures
            copy == *self,
    {
        ParentCallKey {
            parent: self.parent,
            firing: self.firing,
            attempt: self.attempt,
            slot: self.slot.clone(),
        }
    }
}

/// What a step supplies at its own stable call site.
#[derive(Debug)]
pub struct CallSite {
    pub firing: FiringId,
    pub attempt: Attempt,
    pub slot: String,
}

/// The execution a step runs in: the run, the invocation and the execution
/// an effect belongs to.
#[derive(Debug)]
pub struct ExecutionIdentity {
    pub run: String,
    pub invocation: InvocationId,
    pub execution: ExecutionId,
}

/// The one durable result returned by an invocation.
#[derive(Debug)]
pub struct InvocationResult {
    pub status: RunStatus,
    pub failure: Option<FailureInfo>,
    pub final_execution: ExecutionId,
    pub output: Json,
    pub context: Fields,
    /// What the result node wrote, from its final record.
    pub updates: Fields,
}

impl Clone for InvocationResult {
    fn clone(&self) -> (copy: InvocationResult)
        ensures
            copy == *self,
    {
        InvocationResult {
            status: self.status,
            failure: copy_failure(&self.failure),
            final_execution: self.final_execution,
            output: self.output.clone(),
            context: share(&self.context),
            updates: share(&self.updates),
        }
    }
}

/// Where an invocation stands.
#[derive(Debug)]
pub enum InvocationStatus {
    Declared,
    Running { execution: ExecutionId },
    Finished(Arc<InvocationResult>),
}

/// A position in a run: a firing of one of the root invocation's executions.
/// As a fork position it is the last firing whose finish and routing the
/// fork keeps.
#[derive(Clone, Copy, Debug, PartialEq, Eq, Structural)]
pub struct ForkPosition {
    pub execution: ExecutionId,
    pub firing: FiringId,
}

impl ForkPosition {
    /// How the position is named in text.
    pub fn text(&self) -> (text: String)
        ensures
            text@ == "execution "@ + decimal(self.execution.0 as nat) + " firing "@ + decimal(
                self.firing.0 as nat,
            ),
    {
        join3("execution ", number(self.execution.0).as_str(), " firing ").concat(
            number(self.firing.0).as_str(),
        )
    }
}

/// Where a forked run came from, as its run declaration records it.
#[derive(Debug)]
pub struct ForkOrigin {
    /// The source run's key.
    pub source: String,
    /// The position the source's records were kept up to.
    pub position: ForkPosition,
    /// Whether the position's firing was left to run again.
    pub rerun_last: bool,
}

impl Clone for ForkOrigin {
    fn clone(&self) -> (copy: ForkOrigin)
        ensures
            copy == *self,
    {
        ForkOrigin {
            source: self.source.clone(),
            position: self.position,
            rerun_last: self.rerun_last,
        }
    }
}

/// The stable identity of a scope: declared by the registered graph, or
/// introduced by a splice.
#[derive(Debug)]
pub enum ScopeIdentity {
    Declared(ScopeId),
    Spliced(String),
}

impl Clone for ScopeIdentity {
    fn clone(&self) -> (copy: ScopeIdentity)
        ensures
            copy == *self,
    {
        match self {
            ScopeIdentity::Declared(scope) => ScopeIdentity::Declared(*scope),
            ScopeIdentity::Spliced(path) => ScopeIdentity::Spliced(path.clone()),
        }
    }
}

/// The outcome a scope's retention is decided on.
#[derive(Clone, Copy, Debug, PartialEq, Eq, Structural)]
pub enum ScopeOutcome {
    Succeeded,
    Failed,
}

/// Each middleware's key, state version and state, in key order.
pub type MiddlewareState = Arc<Vec<(String, (u32, Json))>>;

/// Relationships and lifecycle facts that span engine logs.
#[allow(inconsistent_fields)]
#[derive(Debug)]
pub enum CoordinatorEvent {
    RunStarted {
        format_version: u32,
        key: String,
        root: InvocationId,
        middleware_chain: Arc<Vec<String>>,
        forked_from: Option<ForkOrigin>,
    },
    GraphRegistered { digest: GraphDigest },
    InvocationDeclared {
        invocation: InvocationId,
        call: Option<ParentCallKey>,
        graph: GraphDigest,
        context: Fields,
        secret_bindings: SecretBindings,
        sandbox: SandboxBinding,
        /// Bounded attempt concurrency, when the caller asked for it.
        admission: Option<AttemptAdmission>,
    },
    ExecutionDeclared {
        execution: ExecutionId,
        invocation: InvocationId,
        predecessor: Option<ExecutionId>,
        start: EngineStart,
        middleware_state: MiddlewareState,
    },
    ExecutionFinished { execution: ExecutionId, exit: EngineExit },
    InvocationFinished { invocation: InvocationId, result: Arc<InvocationResult> },
    InvocationCancelRequested {
        invocation: InvocationId,
        /// Why, when the requester said. Absent for a plain cancel.
        reason: Option<CancelReason>,
    },
    /// A run control held every attempt not yet admitted.
    RunPaused,
    /// A run control released held and future attempts.
    RunUnpaused,
    /// A note from a run-level hook point: no firing owns it.
    RunNoteRecorded {
        /// The execution whose driver ran the point, when known.
        execution: Option<ExecutionId>,
        kind: String,
        payload: Json,
    },
    /// A lease's sandbox was released by retention.
    ScopeReleased {
        invocation: InvocationId,
        lease: SandboxLeaseId,
        scope: ScopeIdentity,
        workspace: String,
        provider: String,
        instance: Option<String>,
        outcome: ScopeOutcome,
        retained: bool,
        problems: Arc<Vec<String>>,
    },
    RunFinished { status: RunStatus },
}

/// One record of the coordinator log.
#[derive(Debug)]
pub struct CoordinatorRecord {
    pub seq: u64,
    pub origin: EventOrigin,
    /// Milliseconds since the Unix epoch when the store appended the record,
    /// read at the append and persisted with it, so a replay recovers the
    /// time the event happened, not the time it was read.
    pub recorded_at: u64,
    pub body: Arc<CoordinatorEvent>,
}

impl Clone for CoordinatorRecord {
    fn clone(&self) -> (copy: CoordinatorRecord)
        ensures
            copy == *self,
    {
        CoordinatorRecord {
            seq: self.seq,
            origin: self.origin,
            recorded_at: self.recorded_at,
            body: share(&self.body),
        }
    }
}

/// The event a coordinator record carries.
pub open spec fn lifecycle_of(record: CoordinatorRecord) -> CoordinatorEvent {
    *record.body
}

impl CoordinatorRecord {
    /// A record the host fed: every coordinator record is one.
    pub fn external(seq: u64, recorded_at: u64, event: CoordinatorEvent) -> (record:
        CoordinatorRecord)
        ensures
            record == (CoordinatorRecord {
                seq,
                origin: EventOrigin::External,
                recorded_at,
                body: Arc::new(event),
            }),
    {
        CoordinatorRecord {
            seq,
            origin: EventOrigin::External,
            recorded_at,
            body: Arc::new(event),
        }
    }
}

} // verus!

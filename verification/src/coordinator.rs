//! The run coordinator's decisions: what a start request attaches to, which
//! invocations a cancel reaches, which child a fork gate admits, when an
//! invocation completes and what is recorded of it.

pub mod drive;
pub mod gate;
pub mod leases;
pub mod live;
pub mod result;
pub mod start;
pub mod tree;

use crate::ids::{ExecutionId, GraphDigest, InvocationId, SandboxLeaseId};
use crate::run_state::StoreError;
use crate::text::{decimal, join3, number};
use vstd::prelude::*;
use vstd::string::*;

verus! {

/// The invocation limit of a run unless its options say otherwise.
pub const DEFAULT_MAX_INVOCATIONS: u32 = 1024;

/// The hard ceiling on invocations in one run: the root plus every nested
/// and branch invocation, finished, failed and cancelled ones included. No
/// option raises it and none disables it; a lower limit is allowed.
pub const MAX_INVOCATIONS: u32 = 10_000;

/// A requested invocation limit the coordinator refuses.
#[allow(inconsistent_fields)]
#[derive(Clone, Copy, Debug, PartialEq, Eq, Structural)]
pub enum InvocationLimitError {
    /// The limit cannot be disabled; it must be at least 1.
    Disabled,
    /// The limit is above the hard ceiling.
    AboveCeiling { requested: u32, ceiling: u32 },
}

/// Why a limit is refused.
pub open spec fn limit_refused(limit: u32) -> Option<InvocationLimitError> {
    if limit == 0 {
        Some(InvocationLimitError::Disabled)
    } else if limit > MAX_INVOCATIONS {
        Some(InvocationLimitError::AboveCeiling { requested: limit, ceiling: MAX_INVOCATIONS })
    } else {
        None
    }
}

impl InvocationLimitError {
    /// What the refusal says.
    pub fn message(&self) -> (message: String)
        ensures
            message@ == (match *self {
                InvocationLimitError::Disabled =>
                    "the invocation limit cannot be disabled; it must be at least 1"@,
                InvocationLimitError::AboveCeiling { requested, ceiling } =>
                    "the invocation limit "@ + decimal(requested as nat)
                        + " is above the hard ceiling of "@ + decimal(ceiling as nat),
            }),
    {
        match self {
            InvocationLimitError::Disabled =>
                "the invocation limit cannot be disabled; it must be at least 1".to_owned(),
            InvocationLimitError::AboveCeiling { requested, ceiling } => join3(
                "the invocation limit ",
                number(*requested as u64).as_str(),
                " is above the hard ceiling of ",
            ).concat(number(*ceiling as u64).as_str()),
        }
    }
}

/// What bounds a run: how many invocations it may declare, and how many
/// executions one of them may have.
#[derive(Clone, Copy, Debug, PartialEq, Eq, Structural)]
pub struct CoordinatorOptions {
    pub max_invocations: u32,
    pub max_executions: u32,
}

impl CoordinatorOptions {
    /// The default invocation limit, with the engine's own limit on the
    /// executions of an invocation.
    pub fn new(max_executions: u32) -> (options: CoordinatorOptions)
        ensures
            options.max_invocations == DEFAULT_MAX_INVOCATIONS,
            options.max_executions == max_executions,
    {
        CoordinatorOptions { max_invocations: DEFAULT_MAX_INVOCATIONS, max_executions }
    }

    /// Lower the invocation limit. Zero (no limit) and anything above
    /// [`MAX_INVOCATIONS`] are refused.
    pub fn with_max_invocations(self, limit: u32) -> (options: Result<
        CoordinatorOptions,
        InvocationLimitError,
    >)
        ensures
            match options {
                Ok(options) => limit_refused(limit) is None && options == (CoordinatorOptions {
                    max_invocations: limit,
                    ..self
                }),
                Err(error) => limit_refused(limit) == Some(error),
            },
    {
        match CoordinatorOptions::check_limit(limit) {
            Ok(()) => Ok(
                CoordinatorOptions { max_invocations: limit, max_executions: self.max_executions },
            ),
            Err(error) => Err(error),
        }
    }

    /// Whether a run may be held to a limit.
    pub fn check_limit(limit: u32) -> (checked: Result<(), InvocationLimitError>)
        ensures
            match checked {
                Ok(()) => limit_refused(limit) is None,
                Err(error) => limit_refused(limit) == Some(error),
            },
    {
        if limit == 0 {
            return Err(InvocationLimitError::Disabled);
        }
        if limit > MAX_INVOCATIONS {
            return Err(
                InvocationLimitError::AboveCeiling { requested: limit, ceiling: MAX_INVOCATIONS },
            );
        }
        Ok(())
    }
}

/// A lease the run's records cannot give.
#[derive(Clone, Copy, Debug, PartialEq, Eq, Structural)]
pub enum ResourceError {
    UnknownLease(SandboxLeaseId),
    DeletedLease(SandboxLeaseId),
}

/// Why the coordinator cannot go on.
#[allow(inconsistent_fields)]
#[derive(Debug)]
pub enum CoordinatorError {
    /// The run's store does not open or its log does not replay.
    Store(StoreError),
    Resource(ResourceError),
    UnknownGraph(GraphDigest),
    /// The root invocation is already declared with a different request.
    RootRequestMismatch,
    /// The run declares more invocations than its limit; the limit cannot be
    /// lowered below what the run already holds.
    InvocationLimit { total: u64, limit: u32 },
    InvalidInvocationLimit(InvocationLimitError),
    /// The calling firing has no inheritable sandbox.
    NoInheritableSandbox,
    /// A sandbox lease does not match its invocation graph.
    InvalidResource { lease: SandboxLeaseId },
    /// An invocation has no execution.
    MissingExecution(InvocationId),
    /// An execution finished without an engine exit.
    MissingExit(ExecutionId),
    /// An invocation reached its execution limit.
    ExecutionLimit { invocation: InvocationId },
    /// An execution's log disagrees with the coordinator log.
    ConflictingExit { execution: ExecutionId },
    /// An execution's event writer failed.
    EventWriter { execution: ExecutionId, message: String },
    /// A resolved secret appears in durable invocation data.
    SecretInDurableData,
}

/// The default options are within the ceiling.
pub proof fn law_default_limit_is_allowed()
    ensures
        limit_refused(DEFAULT_MAX_INVOCATIONS) is None,
        limit_refused(MAX_INVOCATIONS) is None,
{
}

} // verus!

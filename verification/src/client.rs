//! Nested calls: what a step asks the coordinator for, and what it is
//! answered.

use crate::digest::digest_text;
use crate::event::{
    AttemptAdmission, CallSite, InvocationResult, InvocationStatus, SandboxMode, SecretBindings,
};
use crate::ids::{ExecutionId, FiringId, GraphDigest, ScopeId};
use crate::json::share;
use crate::model::Fields;
use crate::record::Control;
use crate::text::{decimal, join, join3, number};
use std::sync::Arc;
use vstd::prelude::*;
use vstd::string::*;

verus! {

/// A nested call: the graph to invoke and what it is started with.
#[derive(Debug)]
pub struct InvocationRequest {
    pub site: CallSite,
    pub graph: GraphDigest,
    pub context: Fields,
    pub secrets: SecretBindings,
    pub sandbox: SandboxMode,
    /// Bounded attempt concurrency for the child's steps, shared with every
    /// sibling the same parent execution declares under the same gate name.
    /// Nothing leaves the child's attempts unbounded.
    pub admission: Option<AttemptAdmission>,
}

impl InvocationRequest {
    /// A request with no attempt admission bound.
    pub fn new(
        site: CallSite,
        graph: GraphDigest,
        context: Fields,
        secrets: SecretBindings,
        sandbox: SandboxMode,
    ) -> (request: InvocationRequest)
        ensures
            request == (InvocationRequest {
                site,
                graph,
                context,
                secrets,
                sandbox,
                admission: None,
            }),
    {
        InvocationRequest { site, graph, context, secrets, sandbox, admission: None }
    }
}

/// Why a nested call was not started.
#[allow(inconsistent_fields)]
#[derive(Debug)]
pub enum InvokeError {
    UnknownGraph(GraphDigest),
    /// The run declared as many invocations as it may. `total` counts every
    /// invocation ever declared in the run, finished ones included; `parent`
    /// and `slot` name the call that was refused.
    InvocationLimit {
        total: u64,
        limit: u32,
        parent: ExecutionId,
        firing: FiringId,
        slot: String,
    },
    /// The call site is already attached to a different invocation request.
    RequestMismatch,
    /// The calling firing has no inheritable sandbox.
    NoInheritableSandbox,
    /// The child graph declares a container for one of its scopes that is
    /// not the inherited sandbox's.
    InheritedContainerMismatch { scope: ScopeId },
    CoordinatorUnavailable,
    /// The call failed before it could return a result.
    Coordinator(String),
}

/// What an error says.
pub open spec fn invoke_message(error: InvokeError) -> Seq<char> {
    match error {
        InvokeError::UnknownGraph(digest) => "unknown invocation graph "@ + digest_text(digest),
        InvokeError::InvocationLimit { total, limit, parent, firing, slot } =>
        "the run-wide invocation limit is reached: "@ + decimal(total as nat) + " of "@ + decimal(
            limit as nat,
        ) + " invocations are declared, so execution "@ + decimal(parent.0 as nat) + " firing "@
            + decimal(firing.0 as nat) + " cannot start `"@ + slot@ + "`"@,
        InvokeError::RequestMismatch =>
            "the call site is already attached to a different invocation request"@,
        InvokeError::NoInheritableSandbox => "the calling firing has no inheritable sandbox"@,
        InvokeError::InheritedContainerMismatch { scope } =>
        "the invocation inherits its caller's sandbox but declares a different container for scope "@
            + decimal(scope.0 as nat),
        InvokeError::CoordinatorUnavailable => "the invocation coordinator is unavailable"@,
        InvokeError::Coordinator(reason) =>
        "invocation failed before it could return a result: "@ + reason@,
    }
}

impl InvokeError {
    /// What the error says.
    pub fn message(&self) -> (message: String)
        ensures
            message@ == invoke_message(*self),
    {
        match self {
            InvokeError::UnknownGraph(digest) => join(
                "unknown invocation graph ",
                digest.text().as_str(),
            ),
            InvokeError::InvocationLimit { total, limit, parent, firing, slot } => join3(
                "the run-wide invocation limit is reached: ",
                number(*total).as_str(),
                " of ",
            ).concat(number(*limit as u64).as_str()).concat(
                " invocations are declared, so execution ",
            ).concat(number(parent.0).as_str()).concat(" firing ").concat(
                number(firing.0).as_str(),
            ).concat(" cannot start `").concat(slot.as_str()).concat("`"),
            InvokeError::RequestMismatch =>
                "the call site is already attached to a different invocation request".to_owned(),
            InvokeError::NoInheritableSandbox =>
                "the calling firing has no inheritable sandbox".to_owned(),
            InvokeError::InheritedContainerMismatch { scope } => join(
                "the invocation inherits its caller's sandbox but declares a different container for scope ",
                number(scope.0 as u64).as_str(),
            ),
            InvokeError::CoordinatorUnavailable =>
                "the invocation coordinator is unavailable".to_owned(),
            InvokeError::Coordinator(reason) => join(
                "invocation failed before it could return a result: ",
                reason.as_str(),
            ),
        }
    }
}

/// The result an invocation's status holds, once it finished.
pub fn finished_result(status: &InvocationStatus) -> (result: Option<Arc<InvocationResult>>)
    ensures
        result == (match *status {
            InvocationStatus::Finished(result) => Some(result),
            _ => None,
        }),
{
    match status {
        InvocationStatus::Finished(result) => Some(share(result)),
        _ => None,
    }
}

/// What a step waiting on a child does with a control.
#[derive(Clone, Copy, Debug, PartialEq, Eq, Structural)]
pub enum WaitStep {
    /// Go on waiting: steering deliveries do not complete the call.
    Wait,
    /// Cancel the child and stop waiting; the coordinator still owns the
    /// child's shutdown.
    Cancel,
}

/// What a step waiting on a child does with a control, or with the end of
/// its controls.
pub fn on_control(control: Option<&Control>) -> (step: WaitStep)
    ensures
        step == (match control {
            Some(control) => if *control is Deliver {
                WaitStep::Wait
            } else {
                WaitStep::Cancel
            },
            None => WaitStep::Cancel,
        }),
{
    match control {
        Some(Control::Deliver(_)) => WaitStep::Wait,
        _ => WaitStep::Cancel,
    }
}

} // verus!

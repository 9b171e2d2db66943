//! What a start request from a live driver attaches to: an invocation it
//! already declared, a superseded attempt to wait out, or a new child.

use crate::client::{InvocationRequest, InvokeError};
use crate::coordinator::leases::{
    check_inherited_container, inherited_binding, inherits, mismatched_scope, record_of, resolve,
    LeaseRecord,
};
use crate::coordinator::live::{running, LiveInvocation, LiveInvocations};
use crate::coordinator::tree::{
    cancel_invocations, cancel_records, cancel_told, handle_cancel, unfinished_under, Affected,
    CancelPlan,
};
use crate::coordinator::{CoordinatorError, CoordinatorOptions, ResourceError};
use crate::event::{
    admissions_match, copy_admission, same_admission, same_bindings, CancelRequest,
    CoordinatorEvent, InvocationStatus, ParentCallKey, SandboxBinding, SandboxMode,
};
use crate::ids::{Attempt, ExecutionId, FiringId, GraphDigest, InvocationId, ScopeId};
use crate::json::{fields_match, same_fields, share};
use crate::model::Graph;
use crate::run_state::{CoordinatorState, InvocationState};
use crate::search::{first_where, lemma_first_absent, lemma_first_found};
use crate::text::{decimal, join, number};
use vstd::prelude::*;
use vstd::string::*;

verus! {

/// Whether a call key is another: the same firing's attempt, at the same
/// slot.
pub open spec fn same_key(a: ParentCallKey, b: ParentCallKey) -> bool {
    a.parent == b.parent && a.firing == b.firing && a.attempt == b.attempt && a.slot@ == b.slot@
}

/// Whether two calls are of one firing at one slot, whatever the attempt.
pub open spec fn same_site(a: ParentCallKey, b: ParentCallKey) -> bool {
    a.parent == b.parent && a.firing == b.firing && a.slot@ == b.slot@
}

/// Whether an invocation was declared by a call.
pub open spec fn called_by(invocation: InvocationState, key: ParentCallKey) -> bool {
    match invocation.declaration.call {
        Some(call) => same_key(call, key),
        None => false,
    }
}

/// The invocation a call declared.
pub open spec fn declared_by(state: CoordinatorState, key: ParentCallKey) -> Option<
    InvocationState,
> {
    first_where(state.invocations@, |invocation: InvocationState| called_by(invocation, key))
}

/// The invocation a call declared.
fn find_declared<'a>(state: &'a CoordinatorState, key: &ParentCallKey) -> (found: Option<
    &'a InvocationState,
>)
    ensures
        found == (match declared_by(*state, *key) {
            Some(invocation) => Some(&invocation),
            None => None,
        }),
{
    let ghost p = |invocation: InvocationState| called_by(invocation, *key);
    let mut i: usize = 0;
    while i < state.invocations.len()
        invariant
            i <= state.invocations.len(),
            p == (|invocation: InvocationState| called_by(invocation, *key)),
            forall|j: int| 0 <= j < i ==> !p(#[trigger] state.invocations@[j]),
        decreases state.invocations.len() - i,
    {
        let found = match &state.invocations[i].declaration.call {
            Some(call) => call.parent == key.parent && call.firing == key.firing && call.attempt
                == key.attempt && call.slot == key.slot,
            None => false,
        };
        if found {
            proof {
                lemma_first_found(state.invocations@, p, i as int);
            }
            return Some(&state.invocations[i]);
        }
        i = i + 1;
    }
    proof {
        lemma_first_absent(state.invocations@, p);
    }
    None
}

/// The attempt by which an invocation was called from a site.
pub open spec fn attempt_at(invocation: InvocationState, key: ParentCallKey) -> Option<Attempt> {
    match invocation.declaration.call {
        Some(call) => if same_site(call, key) {
            Some(call.attempt)
        } else {
            None
        },
        None => None,
    }
}

/// The latest attempt's invocation among those called from a site.
pub open spec fn latest_among(invocations: Seq<InvocationState>, key: ParentCallKey) -> Option<
    (InvocationState, Attempt),
>
    decreases invocations.len(),
{
    if invocations.len() == 0 {
        None
    } else {
        let before = latest_among(invocations.drop_last(), key);
        match (attempt_at(invocations.last(), key), before) {
            (None, _) => before,
            (Some(attempt), None) => Some((invocations.last(), attempt)),
            (Some(attempt), Some((_, latest))) => if latest.0 <= attempt.0 {
                Some((invocations.last(), attempt))
            } else {
                before
            },
        }
    }
}

fn find_latest<'a>(state: &'a CoordinatorState, key: &ParentCallKey) -> (found: Option<
    (&'a InvocationState, Attempt),
>)
    ensures
        match (found, latest_among(state.invocations@, *key)) {
            (Some((invocation, attempt)), Some((latest, last))) => *invocation == latest && attempt
                == last,
            (None, None) => true,
            _ => false,
        },
{
    let mut found: Option<(&'a InvocationState, Attempt)> = None;
    let mut i: usize = 0;
    assert(state.invocations@.take(0) =~= Seq::empty());
    while i < state.invocations.len()
        invariant
            i <= state.invocations.len(),
            match (found, latest_among(state.invocations@.take(i as int), *key)) {
                (Some((invocation, attempt)), Some((latest, last))) => *invocation == latest
                    && attempt == last,
                (None, None) => true,
                _ => false,
            },
        decreases state.invocations.len() - i,
    {
        let invocation = &state.invocations[i];
        proof {
            assert(state.invocations@.take(i + 1).drop_last() =~= state.invocations@.take(i as int));
            assert(state.invocations@.take(i + 1).last() == *invocation);
        }
        match &invocation.declaration.call {
            Some(call) => {
                if call.parent == key.parent && call.firing == key.firing && call.slot == key.slot {
                    let later = match found {
                        Some((_, latest)) => latest.0 <= call.attempt.0,
                        None => true,
                    };
                    if later {
                        found = Some((invocation, call.attempt));
                    }
                }
            },
            None => {},
        }
        i = i + 1;
    }
    assert(state.invocations@.take(i as int) =~= state.invocations@);
    found
}

/// Whether a requested sandbox is of the kind a declared one is. When the
/// parent invocation is itself inherited, the child reuses the parent's
/// lease, whose scope belongs to an ancestor's graph rather than the
/// caller's, so only the kinds are matched.
pub open spec fn kinds_match(mode: SandboxMode, binding: SandboxBinding) -> bool {
    match (mode, binding) {
        (SandboxMode::Isolated, SandboxBinding::Isolated) => true,
        (SandboxMode::Inherit { .. }, SandboxBinding::Inherited { .. }) => true,
        _ => false,
    }
}

/// Whether a request is the one an invocation was declared with.
pub open spec fn same_request(invocation: InvocationState, request: InvocationRequest) -> bool {
    &&& invocation.declaration.graph == request.graph
    &&& same_fields(invocation.declaration.context@, request.context@)
    &&& same_bindings(invocation.declaration.secret_bindings, request.secrets)
    &&& same_admission(invocation.declaration.admission, request.admission)
    &&& kinds_match(request.sandbox, invocation.declaration.sandbox)
}

fn is_same_request(invocation: &InvocationState, request: &InvocationRequest) -> (same: bool)
    ensures
        same == same_request(*invocation, *request),
{
    let sandbox_matches = match (request.sandbox, invocation.declaration.sandbox) {
        (SandboxMode::Isolated, SandboxBinding::Isolated) => true,
        (SandboxMode::Inherit { scope: _ }, SandboxBinding::Inherited { lease: _ }) => true,
        _ => false,
    };
    invocation.declaration.graph == request.graph && fields_match(
        &invocation.declaration.context,
        &request.context,
    ) && invocation.declaration.secret_bindings.same(&request.secrets) && admissions_match(
        &invocation.declaration.admission,
        &request.admission,
    ) && sandbox_matches
}

/// The call key of a request from an execution.
pub open spec fn key_of(parent: ExecutionId, request: InvocationRequest) -> ParentCallKey {
    ParentCallKey {
        parent,
        firing: request.site.firing,
        attempt: request.site.attempt,
        slot: request.site.slot,
    }
}

/// Why a start request is refused, before the refusal is rendered for the
/// invoking step.
#[allow(inconsistent_fields)]
#[derive(Debug)]
pub enum StartRefusal {
    UnknownGraph(GraphDigest),
    InvocationLimit {
        total: u64,
        limit: u32,
        parent: ExecutionId,
        firing: FiringId,
        slot: String,
    },
    RequestMismatch,
    NoInheritableSandbox,
    InheritedContainerMismatch { scope: ScopeId },
    /// The lease the call would inherit cannot be used.
    Resource(ResourceError),
    /// A resolved secret appears in the call's context.
    SecretInDurableData,
    /// The store does not give the child's graph.
    Unreadable(String),
}

/// How a coordinator failure is told the invoking step; a refusal of the
/// request itself is not one.
pub open spec fn failure_text(refusal: StartRefusal) -> Option<Seq<char>> {
    match refusal {
        StartRefusal::Resource(ResourceError::UnknownLease(lease)) => Some(
            "unknown sandbox lease "@ + decimal(lease.0 as nat),
        ),
        StartRefusal::Resource(ResourceError::DeletedLease(lease)) => Some(
            "deleted sandbox lease "@ + decimal(lease.0 as nat),
        ),
        StartRefusal::SecretInDurableData => Some(
            "a resolved secret appears in durable invocation data"@,
        ),
        StartRefusal::Unreadable(reason) => Some(reason@),
        _ => None,
    }
}

/// Whether an error is what the invoking step is told of a refusal.
pub open spec fn tells_refusal(error: InvokeError, refusal: StartRefusal) -> bool {
    match failure_text(refusal) {
        Some(text) => error matches InvokeError::Coordinator(told) && told@ == text,
        None => error == (match refusal {
            StartRefusal::UnknownGraph(digest) => InvokeError::UnknownGraph(digest),
            StartRefusal::InvocationLimit { total, limit, parent, firing, slot } =>
            InvokeError::InvocationLimit { total, limit, parent, firing, slot },
            StartRefusal::NoInheritableSandbox => InvokeError::NoInheritableSandbox,
            StartRefusal::InheritedContainerMismatch { scope } =>
            InvokeError::InheritedContainerMismatch { scope },
            _ => InvokeError::RequestMismatch,
        }),
    }
}

/// What the invoking step is told of a refusal: a coordinator failure is
/// rendered.
fn invoke_error(refusal: StartRefusal) -> (error: InvokeError)
    ensures
        tells_refusal(error, refusal),
{
    match refusal {
        StartRefusal::UnknownGraph(digest) => InvokeError::UnknownGraph(digest),
        StartRefusal::InvocationLimit { total, limit, parent, firing, slot } =>
        InvokeError::InvocationLimit { total, limit, parent, firing, slot },
        StartRefusal::RequestMismatch => InvokeError::RequestMismatch,
        StartRefusal::NoInheritableSandbox => InvokeError::NoInheritableSandbox,
        StartRefusal::InheritedContainerMismatch { scope } =>
        InvokeError::InheritedContainerMismatch { scope },
        StartRefusal::Resource(ResourceError::UnknownLease(lease)) => InvokeError::Coordinator(
            join("unknown sandbox lease ", number(lease.0).as_str()),
        ),
        StartRefusal::Resource(ResourceError::DeletedLease(lease)) => InvokeError::Coordinator(
            join("deleted sandbox lease ", number(lease.0).as_str()),
        ),
        StartRefusal::SecretInDurableData => InvokeError::Coordinator(
            "a resolved secret appears in durable invocation data".to_owned(),
        ),
        StartRefusal::Unreadable(reason) => InvokeError::Coordinator(reason),
    }
}

/// What a start request resolves to.
pub enum StartModel {
    /// Attach to the invocation the same call declared.
    Attach { invocation: InvocationId },
    /// Cancel the superseded attempt, wait for it to settle, then try again.
    Supersede { previous: InvocationId },
    /// Declare a new child.
    Declare { sandbox: SandboxBinding },
}

/// What a child's graph is when the store has it, or why it has it not.
pub open spec fn container_refused(
    records: Seq<LeaseRecord>,
    binding: SandboxBinding,
    child: Result<Graph, String>,
) -> Option<StartRefusal> {
    match binding {
        SandboxBinding::Isolated => None,
        SandboxBinding::Inherited { lease } => match record_of(records, lease) {
            None => Some(
                StartRefusal::Resource(ResourceError::UnknownLease(lease)),
            ),
            Some(record) => match child {
                Err(reason) => Some(StartRefusal::Unreadable(reason)),
                Ok(graph) => match mismatched_scope(graph.scopes@, record.runtime.target) {
                    Some(scope) => Some(
                        StartRefusal::InheritedContainerMismatch { scope: scope.id },
                    ),
                    None => None,
                },
            },
        },
    }
}

/// The sandbox a new child is declared with, or why it has none.
pub open spec fn child_sandbox(
    state: CoordinatorState,
    live: Map<u64, LiveInvocation>,
    records: Seq<LeaseRecord>,
    parent: ExecutionId,
    mode: SandboxMode,
    child: Result<Graph, String>,
) -> Result<SandboxBinding, StartRefusal> {
    let binding = match mode {
        SandboxMode::Isolated => Ok::<SandboxBinding, StartRefusal>(SandboxBinding::Isolated),
        SandboxMode::Inherit { scope } => match inherits(state, live, records, parent, scope) {
            Ok(binding) => Ok(binding),
            Err(CoordinatorError::Resource(error)) => Err(StartRefusal::Resource(error)),
            Err(_) => Err(StartRefusal::NoInheritableSandbox),
        },
    };
    match binding {
        Ok(binding) => match container_refused(records, binding, child) {
            Some(error) => Err(error),
            None => Ok(binding),
        },
        Err(error) => Err(error),
    }
}

/// Decide what a start request attaches to, in this order: the graph is
/// registered and its context holds no secret; the same call attaches again
/// to what it declared, when it asks for the same; a call of an earlier
/// attempt is refused, and one that supersedes an unfinished attempt waits
/// it out; and a new child is declared while the run has room for one.
pub open spec fn resolves(
    state: CoordinatorState,
    options: CoordinatorOptions,
    live: Map<u64, LiveInvocation>,
    records: Seq<LeaseRecord>,
    parent: ExecutionId,
    request: InvocationRequest,
    secret_found: bool,
    child: Result<Graph, String>,
) -> Result<StartModel, StartRefusal> {
    let key = key_of(parent, request);
    if !state.graphs@.contains(request.graph) {
        Err(StartRefusal::UnknownGraph(request.graph))
    } else if secret_found {
        Err(StartRefusal::SecretInDurableData)
    } else {
        match declared_by(state, key) {
            Some(invocation) => if same_request(invocation, request) {
                Ok(StartModel::Attach { invocation: invocation.declaration.id })
            } else {
                Err(StartRefusal::RequestMismatch)
            },
            None => match latest_among(state.invocations@, key) {
                Some((previous, attempt)) => if attempt.0 > key.attempt.0 {
                    Err(StartRefusal::RequestMismatch)
                } else if previous.result is None {
                    Ok(StartModel::Supersede { previous: previous.declaration.id })
                } else {
                    declares(state, options, live, records, parent, request, child)
                },
                None => declares(state, options, live, records, parent, request, child),
            },
        }
    }
}

/// The declaration of a new child, while the run has room for one.
pub open spec fn declares(
    state: CoordinatorState,
    options: CoordinatorOptions,
    live: Map<u64, LiveInvocation>,
    records: Seq<LeaseRecord>,
    parent: ExecutionId,
    request: InvocationRequest,
    child: Result<Graph, String>,
) -> Result<StartModel, StartRefusal> {
    if state.invocations@.len() >= options.max_invocations {
        Err(
            StartRefusal::InvocationLimit {
                total: state.invocations@.len() as u64,
                limit: options.max_invocations,
                parent,
                firing: request.site.firing,
                slot: request.site.slot,
            },
        )
    } else {
        match child_sandbox(state, live, records, parent, request.sandbox, child) {
            Ok(sandbox) => Ok(StartModel::Declare { sandbox }),
            Err(error) => Err(error),
        }
    }
}

/// What a start request resolved to.
#[allow(inconsistent_fields)]
#[derive(Debug)]
pub enum StartOutcome {
    /// Attach to this invocation, found by its call key.
    Attach { invocation: InvocationId },
    /// Wait for a superseded prior attempt to settle, then requeue the
    /// request. Its cancel is what is recorded and told.
    Requeue { previous: InvocationId, cancel: CancelPlan },
    /// Attach to this invocation once the event that declares it is
    /// recorded.
    Declare { invocation: InvocationId, event: CoordinatorEvent },
}

/// The event that declares a child.
pub open spec fn declaration(
    invocation: InvocationId,
    parent: ExecutionId,
    request: InvocationRequest,
    sandbox: SandboxBinding,
) -> CoordinatorEvent {
    CoordinatorEvent::InvocationDeclared {
        invocation,
        call: Some(key_of(parent, request)),
        graph: request.graph,
        context: request.context,
        secret_bindings: request.secrets,
        sandbox,
        admission: request.admission,
    }
}

/// Whether an outcome is what a start request resolves to.
pub open spec fn is_outcome(
    state: CoordinatorState,
    parent: ExecutionId,
    request: InvocationRequest,
    next: InvocationId,
    outcome: StartOutcome,
    model: StartModel,
) -> bool {
    match (outcome, model) {
        (
            StartOutcome::Attach { invocation },
            StartModel::Attach { invocation: found },
        ) => invocation == found,
        (
            StartOutcome::Requeue { previous, cancel },
            StartModel::Supersede { previous: found },
        ) => {
            let affected = unfinished_under(state, state.invocations@, previous, true);
            &&& previous == found
            &&& state.spec_invocation(previous) is Some ==> {
                &&& cancel.records@ == cancel_records(affected, previous, None)
                &&& cancel.told@ == cancel_told(affected, false)
            }
        },
        (
            StartOutcome::Declare { invocation, event },
            StartModel::Declare { sandbox },
        ) => invocation == next && event == declaration(next, parent, request, sandbox),
        _ => false,
    }
}

fn find_sandbox(
    state: &CoordinatorState,
    live: &LiveInvocations,
    records: &Vec<LeaseRecord>,
    key: &ParentCallKey,
    mode: SandboxMode,
    child: &Result<Graph, String>,
) -> (sandbox: Result<SandboxBinding, StartRefusal>)
    ensures
        sandbox == child_sandbox(*state, live@, records@, key.parent, mode, *child),
{
    let binding = match mode {
        SandboxMode::Isolated => SandboxBinding::Isolated,
        SandboxMode::Inherit { scope } => match inherited_binding(state, live, records, key, scope) {
            Ok(binding) => binding,
            Err(CoordinatorError::Resource(error)) => return Err(StartRefusal::Resource(error)),
            Err(_) => return Err(StartRefusal::NoInheritableSandbox),
        },
    };
    match binding {
        SandboxBinding::Isolated => Ok(binding),
        SandboxBinding::Inherited { lease } => match resolve(records, lease) {
            Err(error) => Err(StartRefusal::Resource(error)),
            Ok(record) => match child {
                Err(reason) => Err(StartRefusal::Unreadable(reason.clone())),
                Ok(graph) => match check_inherited_container(&record.runtime.target, graph) {
                    Some(scope) => Err(StartRefusal::InheritedContainerMismatch { scope }),
                    None => Ok(binding),
                },
            },
        },
    }
}

/// Decide what a start request attaches to. `secret_found` is whether the
/// masker recognises the request's context, `child` the requested graph or
/// why the store does not give it, and `next` the id a new invocation gets.
pub fn resolve_start(
    state: &CoordinatorState,
    options: &CoordinatorOptions,
    live: &LiveInvocations,
    records: &Vec<LeaseRecord>,
    parent: ExecutionId,
    request: &InvocationRequest,
    secret_found: bool,
    child: &Result<Graph, String>,
    next: InvocationId,
) -> (resolved: Result<StartOutcome, InvokeError>)
    ensures
        match (
            resolved,
            resolves(
                *state,
                *options,
                live@,
                records@,
                parent,
                *request,
                secret_found,
                *child,
            ),
        ) {
            (Ok(outcome), Ok(model)) => is_outcome(*state, parent, *request, next, outcome, model),
            (Err(error), Err(refusal)) => tells_refusal(error, refusal),
            _ => false,
        },
{
    match decide_start(
        state,
        options,
        live,
        records,
        parent,
        request,
        secret_found,
        child,
        next,
    ) {
        Ok(outcome) => Ok(outcome),
        Err(refusal) => Err(invoke_error(refusal)),
    }
}

fn decide_start(
    state: &CoordinatorState,
    options: &CoordinatorOptions,
    live: &LiveInvocations,
    records: &Vec<LeaseRecord>,
    parent: ExecutionId,
    request: &InvocationRequest,
    secret_found: bool,
    child: &Result<Graph, String>,
    next: InvocationId,
) -> (resolved: Result<StartOutcome, StartRefusal>)
    ensures
        match (
            resolved,
            resolves(
                *state,
                *options,
                live@,
                records@,
                parent,
                *request,
                secret_found,
                *child,
            ),
        ) {
            (Ok(outcome), Ok(model)) => is_outcome(*state, parent, *request, next, outcome, model),
            (Err(error), Err(other)) => error == other,
            _ => false,
        },
{
    if !state.has_graph(request.graph) {
        return Err(StartRefusal::UnknownGraph(request.graph));
    }
    if secret_found {
        return Err(StartRefusal::SecretInDurableData);
    }
    let key = ParentCallKey {
        parent,
        firing: request.site.firing,
        attempt: request.site.attempt,
        slot: request.site.slot.clone(),
    };
    match find_declared(state, &key) {
        Some(invocation) => {
            if is_same_request(invocation, request) {
                return Ok(StartOutcome::Attach { invocation: invocation.declaration.id });
            }
            return Err(StartRefusal::RequestMismatch);
        },
        None => {},
    }
    match find_latest(state, &key) {
        Some((previous, attempt)) => {
            if attempt.0 > key.attempt.0 {
                return Err(StartRefusal::RequestMismatch);
            }
            if previous.result.is_none() {
                let previous = previous.declaration.id;
                let cancel = handle_cancel(
                    state,
                    &CancelRequest { invocation: previous, reason: None, escalate: false },
                );
                return Ok(StartOutcome::Requeue { previous, cancel });
            }
        },
        None => {},
    }
    if state.invocations.len() as u64 >= options.max_invocations as u64 {
        return Err(
            StartRefusal::InvocationLimit {
                total: state.invocations.len() as u64,
                limit: options.max_invocations,
                parent,
                firing: request.site.firing,
                slot: request.site.slot.clone(),
            },
        );
    }
    match find_sandbox(state, live, records, &key, request.sandbox, child) {
        Ok(sandbox) => Ok(
            StartOutcome::Declare {
                invocation: next,
                event: CoordinatorEvent::InvocationDeclared {
                    invocation: next,
                    call: Some(key),
                    graph: request.graph,
                    context: share(&request.context),
                    secret_bindings: request.secrets.clone(),
                    sandbox,
                    admission: copy_admission(&request.admission),
                },
            },
        ),
        Err(error) => Err(error),
    }
}

// ── Answering ──────────────────────────────────────────────────────────

/// Whether a start request is looked at: a completed driver cannot own a new
/// child, and requests whose callers disappeared can still be queued when
/// that driver's report arrives.
pub fn accepts_start(live: &LiveInvocations, parent: ExecutionId, caller_gone: bool) -> (accepts:
    bool)
    ensures
        accepts == (!caller_gone && running(live@, parent)),
{
    !caller_gone && live.is_running(parent)
}

/// The superseded attempt that is started so that it settles: one that is
/// not live already.
pub fn after_requeue(live: &LiveInvocations, previous: InvocationId) -> (start: Option<InvocationId>)
    ensures
        start == (if live@.contains_key(previous.0) {
            None
        } else {
            Some(previous)
        }),
{
    if live.contains(previous) {
        None
    } else {
        Some(previous)
    }
}

/// The status a late attach finds.
pub fn attached_status(state: &CoordinatorState, invocation: InvocationId) -> (status:
    InvocationStatus)
    ensures
        status == (match state.spec_invocation(invocation) {
            Some(found) => match found.result {
                Some(result) => InvocationStatus::Finished(result),
                None => InvocationStatus::Declared,
            },
            None => InvocationStatus::Declared,
        }),
{
    match state.invocation(invocation) {
        Some(found) => match &found.result {
            Some(result) => InvocationStatus::Finished(share(result)),
            None => InvocationStatus::Declared,
        },
        None => InvocationStatus::Declared,
    }
}

/// What follows an attach: the invocation's cancel when its caller is gone or
/// cancelled, and whether it is started.
#[derive(Debug)]
pub struct AttachPlan {
    pub cancel: CancelPlan,
    pub start: Option<InvocationId>,
}

/// Whether an invocation has no result yet.
pub open spec fn is_incomplete(state: CoordinatorState, invocation: InvocationId) -> bool {
    state.spec_invocation(invocation) matches Some(found) && found.result is None
}

/// Whether an invocation's cancel is recorded.
pub open spec fn is_cancelled(state: CoordinatorState, invocation: InvocationId) -> bool {
    state.spec_invocation(invocation) matches Some(found) && found.cancelled
}

/// Whether an attach cancels the invocation: it has no result and no cancel
/// yet, and either nobody heard the answer or the caller itself is
/// cancelled.
pub open spec fn attach_cancels(
    state: CoordinatorState,
    parent: ExecutionId,
    invocation: InvocationId,
    delivered: bool,
) -> bool {
    &&& is_incomplete(state, invocation)
    &&& !is_cancelled(state, invocation)
    &&& !delivered || (state.owner_of(parent) matches Some(owner) && is_cancelled(state, owner))
}

fn incomplete(state: &CoordinatorState, invocation: InvocationId) -> (found: bool)
    ensures
        found == is_incomplete(*state, invocation),
{
    match state.invocation(invocation) {
        Some(found) => found.result.is_none(),
        None => false,
    }
}

fn cancelled(state: &CoordinatorState, invocation: InvocationId) -> (found: bool)
    ensures
        found == is_cancelled(*state, invocation),
{
    match state.invocation(invocation) {
        Some(found) => found.cancelled,
        None => false,
    }
}

/// What follows an attach. `delivered` is whether the caller got its handle;
/// `state` is the run's state with a new invocation declared.
pub fn after_attach(
    state: &CoordinatorState,
    live: &LiveInvocations,
    parent: ExecutionId,
    invocation: InvocationId,
    is_new: bool,
    delivered: bool,
) -> (plan: AttachPlan)
    ensures
        if attach_cancels(*state, parent, invocation, delivered) {
            &&& plan.cancel.records@ == seq![
                CoordinatorEvent::InvocationCancelRequested { invocation, reason: None },
            ]
            &&& plan.cancel.told@ == seq![invocation]
        } else {
            plan.cancel.records@.len() == 0 && plan.cancel.told@.len() == 0
        },
        plan.start == (if is_incomplete(*state, invocation) && !live@.contains_key(invocation.0)
            && (is_new || delivered) {
            Some(invocation)
        } else {
            None
        }),
{
    let unfinished = incomplete(state, invocation);
    let caller_cancelled = match state.owner(parent) {
        Some(owner) => cancelled(state, owner),
        None => false,
    };
    let cancel = if unfinished && !cancelled(state, invocation) && (!delivered
        || caller_cancelled) {
        let affected: Vec<Affected> = vec![(invocation, false)];
        proof {
            reveal_with_fuel(cancel_records, 2);
            reveal_with_fuel(cancel_told, 2);
            assert(affected@.drop_last() =~= Seq::empty());
            assert(affected@.last() == (invocation, false));
        }
        let plan = cancel_invocations(&affected, invocation, None, false);
        proof {
            assert(plan.records@ =~= seq![
                CoordinatorEvent::InvocationCancelRequested { invocation, reason: None },
            ]);
            assert(plan.told@ =~= seq![invocation]);
        }
        plan
    } else {
        CancelPlan { records: Vec::new(), told: Vec::new() }
    };
    let start = if unfinished && !live.contains(invocation) && (is_new || delivered) {
        Some(invocation)
    } else {
        None
    };
    AttachPlan { cancel, start }
}

// ── Laws ───────────────────────────────────────────────────────────────

/// A call is idempotent: the request that declared an invocation, made
/// again, attaches to it and declares nothing.
pub proof fn law_same_call_attaches(
    state: CoordinatorState,
    options: CoordinatorOptions,
    live: Map<u64, LiveInvocation>,
    records: Seq<LeaseRecord>,
    parent: ExecutionId,
    request: InvocationRequest,
    child: Result<Graph, String>,
    invocation: InvocationState,
)
    requires
        state.graphs@.contains(request.graph),
        declared_by(state, key_of(parent, request)) == Some(invocation),
        same_request(invocation, request),
    ensures
        resolves(state, options, live, records, parent, request, false, child) == Ok::<
            StartModel,
            StartRefusal,
        >(StartModel::Attach { invocation: invocation.declaration.id }),
{
}

/// A call site holds one unfinished invocation at a time: a new child is
/// declared only when no call of the site's firing at its slot has one that
/// did not finish, and none of a later attempt.
pub proof fn law_new_child_supersedes_nothing_unfinished(
    state: CoordinatorState,
    options: CoordinatorOptions,
    live: Map<u64, LiveInvocation>,
    records: Seq<LeaseRecord>,
    parent: ExecutionId,
    request: InvocationRequest,
    child: Result<Graph, String>,
)
    requires
        resolves(state, options, live, records, parent, request, false, child) matches Ok(
            StartModel::Declare { .. },
        ),
    ensures
        state.invocations@.len() < options.max_invocations,
        declared_by(state, key_of(parent, request)) is None,
        latest_among(state.invocations@, key_of(parent, request)) matches Some((
            previous,
            attempt,
        )) ==> previous.result is Some && attempt.0 <= request.site.attempt.0,
{
}

/// Whether an attempt, if there is one, is not after another.
pub open spec fn not_after(attempt: Option<Attempt>, latest: Attempt) -> bool {
    match attempt {
        Some(attempt) => attempt.0 <= latest.0,
        None => true,
    }
}

proof fn lemma_latest(invocations: Seq<InvocationState>, key: ParentCallKey, i: int)
    requires
        0 <= i < invocations.len(),
        attempt_at(invocations[i], key) is Some,
    ensures
        latest_among(invocations, key) matches Some((_, latest)) && not_after(
            attempt_at(invocations[i], key),
            latest,
        ),
    decreases invocations.len(),
{
    if i < invocations.len() - 1 {
        lemma_latest(invocations.drop_last(), key, i);
    }
}

/// The invocation a call is held against is of the latest attempt of its
/// site.
pub proof fn law_latest_attempt(state: CoordinatorState, key: ParentCallKey, i: int)
    requires
        0 <= i < state.invocations@.len(),
        attempt_at(state.invocations@[i], key) is Some,
    ensures
        latest_among(state.invocations@, key) matches Some((_, latest)) && not_after(
            attempt_at(state.invocations@[i], key),
            latest,
        ),
{
    lemma_latest(state.invocations@, key, i);
}

} // verus!

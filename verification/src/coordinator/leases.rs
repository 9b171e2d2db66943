//! Sandbox leases: where an execution's scopes run, how a finished
//! invocation's leases are released and recorded, and what a resume checks.

use crate::coordinator::live::{lease_in, LiveInvocation, LiveInvocations};
use crate::coordinator::{CoordinatorError, ResourceError};
use crate::event::{
    CoordinatorEvent, ParentCallKey, SandboxBinding, ScopeIdentity, ScopeOutcome,
};
use crate::ids::{ExecutionId, GraphDigest, InvocationId, SandboxLeaseId, ScopeId};
use crate::json::{share, text_is};
use crate::model::{
    copy_text, same_runtime, same_target, Graph, RunStatus, RuntimeTarget, Scope, ScopeRuntime,
};
use crate::run_state::CoordinatorState;
use crate::inspect::find_graph;
use crate::search::{first_where, lemma_first_absent, lemma_first_found, lookup};
use std::sync::Arc;
use vstd::prelude::*;
use vstd::string::*;

verus! {

/// Stable reconciliation key for one invocation-owned graph scope.
#[derive(Debug)]
pub struct SandboxAllocationKey {
    pub invocation: InvocationId,
    pub scope: ScopeIdentity,
}

/// One lease's durable record.
#[derive(Debug)]
pub struct LeaseRecord {
    pub lease: SandboxLeaseId,
    /// The invocation that allocated it, and for which scope.
    pub allocation: SandboxAllocationKey,
    pub provider: String,
    pub workspace: String,
    pub runtime: ScopeRuntime,
    /// The execution whose splice introduced the scope.
    pub introduced_by: Option<ExecutionId>,
    /// The provider's own id of the sandbox.
    pub resource_id: Option<String>,
    /// Whether the sandbox is gone.
    pub deleted: bool,
    /// Whether the sandbox is still to be released.
    pub needs_release: bool,
}

/// The record of a lease.
pub open spec fn record_of(records: Seq<LeaseRecord>, lease: SandboxLeaseId) -> Option<LeaseRecord> {
    first_where(records, |record: LeaseRecord| record.lease == lease)
}

/// The record of a lease.
pub fn resolve(records: &Vec<LeaseRecord>, lease: SandboxLeaseId) -> (found: Result<
    &LeaseRecord,
    ResourceError,
>)
    ensures
        found == (match record_of(records@, lease) {
            Some(record) => Ok(&record),
            None => Err(ResourceError::UnknownLease(lease)),
        }),
{
    let ghost p = |record: LeaseRecord| record.lease == lease;
    let mut i: usize = 0;
    while i < records.len()
        invariant
            i <= records.len(),
            p == (|record: LeaseRecord| record.lease == lease),
            forall|j: int| 0 <= j < i ==> !p(#[trigger] records@[j]),
        decreases records.len() - i,
    {
        if records[i].lease == lease {
            proof {
                lemma_first_found(records@, p, i as int);
            }
            return Ok(&records[i]);
        }
        i = i + 1;
    }
    proof {
        lemma_first_absent(records@, p);
    }
    Err(ResourceError::UnknownLease(lease))
}

/// Why a lease cannot be used.
pub open spec fn unusable(records: Seq<LeaseRecord>, lease: SandboxLeaseId) -> Option<ResourceError> {
    match record_of(records, lease) {
        Some(record) => if record.deleted {
            Some(ResourceError::DeletedLease(lease))
        } else {
            None
        },
        None => Some(ResourceError::UnknownLease(lease)),
    }
}

/// The record of a lease whose sandbox is not gone.
pub fn resolve_usable(records: &Vec<LeaseRecord>, lease: SandboxLeaseId) -> (found: Result<
    &LeaseRecord,
    ResourceError,
>)
    ensures
        match found {
            Ok(record) => unusable(records@, lease) is None && record_of(records@, lease) == Some(
                *record,
            ),
            Err(error) => unusable(records@, lease) == Some(error),
        },
{
    match resolve(records, lease) {
        Ok(record) => if record.deleted {
            Err(ResourceError::DeletedLease(lease))
        } else {
            Ok(record)
        },
        Err(error) => Err(error),
    }
}

/// The scope outcome an invocation's status maps to, which decides the
/// retention of its sandboxes.
#[verifier::allow_in_spec]
pub fn scope_outcome(status: RunStatus) -> ScopeOutcome
    returns
        (if status == RunStatus::Success {
            ScopeOutcome::Succeeded
        } else {
            ScopeOutcome::Failed
        }),
{
    if status == RunStatus::Success {
        ScopeOutcome::Succeeded
    } else {
        ScopeOutcome::Failed
    }
}

// ── Where an execution's scopes run ────────────────────────────────────

/// Where an execution's scopes run. An isolated invocation owns one lease
/// per stable scope identity, reserved before any executor sees it; an
/// inherited one runs every scope in its caller's sandbox.
#[derive(Debug)]
pub enum SandboxPlan {
    /// The caller's workspace, the caller's runtime target, one shared lease.
    Shared { lease: SandboxLeaseId, workspace: String, runtime: ScopeRuntime },
    Owned,
}

/// Where the scopes of an execution of an invocation with a binding run. A
/// shared lease whose sandbox is gone does not match its invocation.
pub fn prepare_sandbox(records: &Vec<LeaseRecord>, binding: SandboxBinding) -> (plan: Result<
    SandboxPlan,
    CoordinatorError,
>)
    ensures
        match binding {
            SandboxBinding::Isolated => plan == Ok::<SandboxPlan, CoordinatorError>(
                SandboxPlan::Owned,
            ),
            SandboxBinding::Inherited { lease } => match unusable(records@, lease) {
                None => plan == Ok::<SandboxPlan, CoordinatorError>(
                    SandboxPlan::Shared {
                        lease,
                        workspace: record_of(records@, lease)->0.workspace,
                        runtime: record_of(records@, lease)->0.runtime,
                    },
                ),
                Some(ResourceError::DeletedLease(lease)) => plan == Err::<
                    SandboxPlan,
                    CoordinatorError,
                >(CoordinatorError::InvalidResource { lease }),
                Some(error) => plan == Err::<SandboxPlan, CoordinatorError>(
                    CoordinatorError::Resource(error),
                ),
            },
        },
{
    match binding {
        SandboxBinding::Isolated => Ok(SandboxPlan::Owned),
        SandboxBinding::Inherited { lease } => match resolve_usable(records, lease) {
            Ok(record) => Ok(
                SandboxPlan::Shared {
                    lease,
                    workspace: record.workspace.clone(),
                    runtime: record.runtime.clone(),
                },
            ),
            Err(ResourceError::DeletedLease(lease)) => Err(
                CoordinatorError::InvalidResource { lease },
            ),
            Err(error) => Err(CoordinatorError::Resource(error)),
        },
    }
}

/// What the reservation of a scope's lease asks for: the execution that
/// introduced a spliced scope, whose outcome must be durable before the
/// lease.
pub open spec fn introducer(scope: ScopeIdentity, execution: ExecutionId) -> Option<ExecutionId> {
    match scope {
        ScopeIdentity::Declared(_) => None,
        ScopeIdentity::Spliced(_) => Some(execution),
    }
}

/// How a scope's lease is reserved: under which key, which execution
/// introduced the scope, whether its records are stored first, and the
/// provider.
#[derive(Debug)]
pub struct Reservation {
    pub allocation: SandboxAllocationKey,
    pub introduced_by: Option<ExecutionId>,
    pub store_first: bool,
    pub provider: String,
}

/// How a scope's lease is reserved. `router` is the provider a router picks
/// for the scope's runtime, when the run has one; `host` and `container` are
/// the providers the targets have otherwise.
pub fn plan_reservation(
    invocation: InvocationId,
    scope: &ScopeIdentity,
    execution: ExecutionId,
    target: &RuntimeTarget,
    router: Option<&String>,
    host: &str,
    container: &str,
) -> (reservation: Reservation)
    ensures
        reservation.allocation == (SandboxAllocationKey { invocation, scope: *scope }),
        reservation.introduced_by == introducer(*scope, execution),
        reservation.store_first == (reservation.introduced_by is Some),
        reservation.provider@ == (match router {
            Some(provider) => provider@,
            None => match *target {
                RuntimeTarget::HostProcess => host@,
                RuntimeTarget::Container { .. } => container@,
            },
        }),
{
    let introduced_by = match scope {
        ScopeIdentity::Declared(_) => None,
        ScopeIdentity::Spliced(_) => Some(execution),
    };
    let provider = match router {
        Some(provider) => provider.clone(),
        None => match target {
            RuntimeTarget::HostProcess => host.to_owned(),
            RuntimeTarget::Container { image: _, options: _ } => container.to_owned(),
        },
    };
    Reservation {
        allocation: SandboxAllocationKey { invocation, scope: scope.clone() },
        store_first: introduced_by.is_some(),
        introduced_by,
        provider,
    }
}

/// A reserved lease an execution's scope is assigned.
#[derive(Debug)]
pub struct ScopeLease {
    pub lease: SandboxLeaseId,
    pub workspace: String,
    pub provider: String,
}

/// The lease a reservation gives: none when its sandbox is gone.
pub fn reserved(record: &LeaseRecord) -> (lease: Result<ScopeLease, ResourceError>)
    ensures
        lease == (if record.deleted {
            Err::<ScopeLease, ResourceError>(ResourceError::DeletedLease(record.lease))
        } else {
            Ok(
                ScopeLease {
                    lease: record.lease,
                    workspace: record.workspace,
                    provider: record.provider,
                },
            )
        }),
{
    if record.deleted {
        return Err(ResourceError::DeletedLease(record.lease));
    }
    Ok(
        ScopeLease {
            lease: record.lease,
            workspace: record.workspace.clone(),
            provider: record.provider.clone(),
        },
    )
}

// ── What a child inherits ──────────────────────────────────────────────

/// The binding of the invocation an execution belongs to.
pub open spec fn binding_of(state: CoordinatorState, execution: ExecutionId) -> Option<
    SandboxBinding,
> {
    match state.owner_of(execution) {
        Some(owner) => match state.spec_invocation(owner) {
            Some(invocation) => Some(invocation.declaration.sandbox),
            None => None,
        },
        None => None,
    }
}

/// What a child of an execution inherits for a scope of its caller's.
pub open spec fn inherits(
    state: CoordinatorState,
    live: Map<u64, LiveInvocation>,
    records: Seq<LeaseRecord>,
    parent: ExecutionId,
    scope: ScopeId,
) -> Result<SandboxBinding, CoordinatorError> {
    match binding_of(state, parent) {
        None => Err(CoordinatorError::NoInheritableSandbox),
        Some(SandboxBinding::Inherited { lease }) => passed_on(records, lease),
        Some(SandboxBinding::Isolated) => match lease_in(live, parent, scope) {
            Some(lease) => passed_on(records, lease),
            None => Err(CoordinatorError::NoInheritableSandbox),
        },
    }
}

/// Resolve an inherited sandbox for a new child of `call`. The call key pins
/// the parent invocation, and the caller names its own scope: a parent that
/// inherits passes its lease on, and an isolated one the lease its running
/// execution acquired for the scope.
pub fn inherited_binding(
    state: &CoordinatorState,
    live: &LiveInvocations,
    records: &Vec<LeaseRecord>,
    call: &ParentCallKey,
    scope: ScopeId,
) -> (binding: Result<SandboxBinding, CoordinatorError>)
    ensures
        binding == inherits(*state, live@, records@, call.parent, scope),
{
    let binding = match state.owner(call.parent) {
        Some(owner) => match state.invocation(owner) {
            Some(invocation) => invocation.declaration.sandbox,
            None => return Err(CoordinatorError::NoInheritableSandbox),
        },
        None => return Err(CoordinatorError::NoInheritableSandbox),
    };
    let lease = match binding {
        SandboxBinding::Inherited { lease } => lease,
        SandboxBinding::Isolated => match live.lease_of(call.parent, scope) {
            Some(lease) => lease,
            None => {
                return Err(CoordinatorError::NoInheritableSandbox);
            },
        },
    };
    match resolve_usable(records, lease) {
        Ok(_) => Ok(SandboxBinding::Inherited { lease }),
        Err(error) => Err(CoordinatorError::Resource(error)),
    }
}

/// A lease as a child's binding, when its sandbox is not gone.
pub open spec fn passed_on(records: Seq<LeaseRecord>, lease: SandboxLeaseId) -> Result<
    SandboxBinding,
    CoordinatorError,
> {
    match unusable(records, lease) {
        None => Ok(SandboxBinding::Inherited { lease }),
        Some(error) => Err(CoordinatorError::Resource(error)),
    }
}

/// Whether a scope asks for a container that is not the given target.
pub open spec fn asks_for_another(scope: Scope, target: RuntimeTarget) -> bool {
    scope.runtime.target is Container && !same_target(scope.runtime.target, target)
}

/// The first of a graph's scopes that asks for a container of its own.
pub open spec fn mismatched_scope(scopes: Seq<Scope>, target: RuntimeTarget) -> Option<Scope> {
    first_where(scopes, |scope: Scope| asks_for_another(scope, target))
}

/// An inherited child runs in its caller's sandbox, so a container it
/// declares must be the caller's own: absent (the scope takes the caller's
/// target) or equal. The first scope that declares another one.
pub fn check_inherited_container(parent: &RuntimeTarget, child: &Graph) -> (mismatch: Option<
    ScopeId,
>)
    ensures
        mismatch == (match mismatched_scope(child.scopes@, *parent) {
            Some(scope) => Some(scope.id),
            None => None,
        }),
{
    let ghost p = |scope: Scope| asks_for_another(scope, *parent);
    let mut i: usize = 0;
    while i < child.scopes.len()
        invariant
            i <= child.scopes.len(),
            p == (|scope: Scope| asks_for_another(scope, *parent)),
            forall|j: int| 0 <= j < i ==> !p(#[trigger] child.scopes@[j]),
        decreases child.scopes.len() - i,
    {
        let scope = &child.scopes[i];
        let container = match &scope.runtime.target {
            RuntimeTarget::Container { image: _, options: _ } => true,
            RuntimeTarget::HostProcess => false,
        };
        if container && !scope.runtime.target.same(parent) {
            proof {
                lemma_first_found(child.scopes@, p, i as int);
            }
            return Some(scope.id);
        }
        i = i + 1;
    }
    proof {
        lemma_first_absent(child.scopes@, p);
    }
    None
}

// ── Releases ───────────────────────────────────────────────────────────

/// The leases an invocation allocated that are still to be released.
pub open spec fn owned(records: Seq<LeaseRecord>, invocation: InvocationId) -> Seq<SandboxLeaseId>
    decreases records.len(),
{
    if records.len() == 0 {
        Seq::empty()
    } else {
        let before = owned(records.drop_last(), invocation);
        let last = records.last();
        if last.allocation.invocation == invocation && last.needs_release {
            before.push(last.lease)
        } else {
            before
        }
    }
}

/// The leases `invocation` allocated that are to be released now that it has
/// finished. An inherited invocation allocated none: its caller's lease
/// outlives it.
pub fn owned_leases(records: &Vec<LeaseRecord>, invocation: InvocationId) -> (leases: Vec<
    SandboxLeaseId,
>)
    ensures
        leases@ == owned(records@, invocation),
{
    let mut leases: Vec<SandboxLeaseId> = Vec::new();
    let mut i: usize = 0;
    assert(records@.take(0) =~= Seq::empty());
    while i < records.len()
        invariant
            i <= records.len(),
            leases@ == owned(records@.take(i as int), invocation),
        decreases records.len() - i,
    {
        proof {
            assert(records@.take(i + 1).drop_last() =~= records@.take(i as int));
            assert(records@.take(i + 1).last() == records@[i as int]);
        }
        if records[i].allocation.invocation == invocation && records[i].needs_release {
            leases.push(records[i].lease);
        }
        i = i + 1;
    }
    assert(records@.take(i as int) =~= records@);
    leases
}

/// The status the leases left at the end of a run are released with: the
/// run's own, and cancelled for a run that recorded none.
pub open spec fn closing_status(state: CoordinatorState) -> RunStatus {
    match state.run_status {
        Some(status) => status,
        None => RunStatus::Cancelled,
    }
}

/// The leases still holding a sandbox at the end of a run, each with the
/// status its retention goes by.
pub open spec fn remaining(state: CoordinatorState, records: Seq<LeaseRecord>) -> Seq<
    (SandboxLeaseId, RunStatus),
>
    decreases records.len(),
{
    if records.len() == 0 {
        Seq::empty()
    } else {
        let before = remaining(state, records.drop_last());
        let last = records.last();
        if last.needs_release {
            before.push((last.lease, closing_status(state)))
        } else {
            before
        }
    }
}

/// What the end of a run releases: every lease still holding a sandbox, of
/// an invocation that finished before a crash or one that never finished,
/// with the run's own status.
pub fn remaining_leases(state: &CoordinatorState, records: &Vec<LeaseRecord>) -> (leases: Vec<
    (SandboxLeaseId, RunStatus),
>)
    ensures
        leases@ == remaining(*state, records@),
{
    let status = match state.run_status {
        Some(status) => status,
        None => RunStatus::Cancelled,
    };
    let mut leases: Vec<(SandboxLeaseId, RunStatus)> = Vec::new();
    let mut i: usize = 0;
    assert(records@.take(0) =~= Seq::empty());
    while i < records.len()
        invariant
            i <= records.len(),
            status == closing_status(*state),
            leases@ == remaining(*state, records@.take(i as int)),
        decreases records.len() - i,
    {
        proof {
            assert(records@.take(i + 1).drop_last() =~= records@.take(i as int));
            assert(records@.take(i + 1).last() == records@[i as int]);
        }
        if records[i].needs_release {
            leases.push((records[i].lease, status));
        }
        i = i + 1;
    }
    assert(records@.take(i as int) =~= records@);
    leases
}

/// Every lease still holding a sandbox at the end of a run is released, with
/// the run's own status whatever its owner finished with, and no other is.
pub proof fn law_remaining_leases_take_the_run_s_status(
    state: CoordinatorState,
    records: Seq<LeaseRecord>,
)
    ensures
        forall|i: int|
            0 <= i < remaining(state, records).len() ==> (#[trigger] remaining(state, records)[i]).1
                == closing_status(state) && exists|k: int|
                0 <= k < records.len() && (#[trigger] records[k]).needs_release && records[k].lease
                    == remaining(state, records)[i].0,
        forall|k: int|
            0 <= k < records.len() && (#[trigger] records[k]).needs_release ==> remaining(
                state,
                records,
            ).contains((records[k].lease, closing_status(state))),
    decreases records.len(),
{
    if records.len() > 0 {
        let rest = records.drop_last();
        law_remaining_leases_take_the_run_s_status(state, rest);
        let before = remaining(state, rest);
        let all = remaining(state, records);
        assert forall|i: int| 0 <= i < all.len() implies (#[trigger] all[i]).1 == closing_status(
            state,
        ) && exists|k: int|
            0 <= k < records.len() && (#[trigger] records[k]).needs_release && records[k].lease
                == all[i].0 by {
            if i < before.len() {
                assert(all[i] == before[i]);
                let k = choose|k: int|
                    0 <= k < rest.len() && (#[trigger] rest[k]).needs_release && rest[k].lease
                        == before[i].0;
                assert(records[k] == rest[k]);
            } else {
                assert(records[records.len() - 1].needs_release);
            }
        }
        assert forall|k: int|
            0 <= k < records.len() && (#[trigger] records[k]).needs_release implies all.contains(
            (records[k].lease, closing_status(state)),
        ) by {
            let pair = (records[k].lease, closing_status(state));
            if k < rest.len() {
                assert(rest[k] == records[k]);
                let i = choose|i: int| 0 <= i < before.len() && before[i] == pair;
                assert(all[i] == pair);
            } else {
                assert(all[all.len() - 1] == pair);
            }
        }
    }
}

/// What a lease's release is recorded as: the lease's record after the
/// release says whether its sandbox is still there. Nothing for a lease that
/// has no record.
pub fn scope_released(
    records: &Vec<LeaseRecord>,
    invocation: InvocationId,
    lease: SandboxLeaseId,
    outcome: ScopeOutcome,
    problems: &Arc<Vec<String>>,
) -> (event: Option<CoordinatorEvent>)
    ensures
        event == (match record_of(records@, lease) {
            Some(record) => Some(
                CoordinatorEvent::ScopeReleased {
                    invocation,
                    lease,
                    scope: record.allocation.scope,
                    workspace: record.workspace,
                    provider: record.provider,
                    instance: record.resource_id,
                    outcome,
                    retained: !record.deleted,
                    problems: *problems,
                },
            ),
            None => None,
        }),
{
    match resolve(records, lease) {
        Ok(record) => Some(
            CoordinatorEvent::ScopeReleased {
                invocation,
                lease,
                scope: record.allocation.scope.clone(),
                workspace: record.workspace.clone(),
                provider: record.provider.clone(),
                instance: copy_text(&record.resource_id),
                outcome,
                retained: !record.deleted,
                problems: share(problems),
            },
        ),
        Err(_) => None,
    }
}

/// A sandbox to reconcile: its lease and the workspace its provider knows it
/// by.
#[derive(Debug, PartialEq, Eq)]
pub struct RecordedLease {
    pub lease: SandboxLeaseId,
    pub workspace_id: String,
}

/// The lease and the workspace of each target.
pub open spec fn targets(list: Seq<RecordedLease>) -> Seq<(SandboxLeaseId, Seq<char>)> {
    list.map_values(|target: RecordedLease| (target.lease, target.workspace_id@))
}

/// The leases and workspaces of records that are on the host, or not, whose
/// sandboxes are not gone.
pub open spec fn recorded_on(records: Seq<LeaseRecord>, host: Seq<char>, on_host: bool) -> Seq<
    (SandboxLeaseId, Seq<char>),
>
    decreases records.len(),
{
    if records.len() == 0 {
        Seq::empty()
    } else {
        let before = recorded_on(records.drop_last(), host, on_host);
        let last = records.last();
        if !last.deleted && (last.provider@ == host) == on_host {
            before.push((last.lease, last.workspace@))
        } else {
            before
        }
    }
}

fn push_target(list: &mut Vec<RecordedLease>, record: &LeaseRecord)
    ensures
        targets(final(list)@) == targets(old(list)@).push((record.lease, record.workspace@)),
{
    list.push(RecordedLease { lease: record.lease, workspace_id: record.workspace.clone() });
    assert(targets(list@) =~= targets(old(list)@).push((record.lease, record.workspace@)));
}

/// What a resume reconciles before any create: the recorded leases whose
/// sandboxes are not gone, those of the host's own provider and the others.
pub fn leases_to_reconcile(records: &Vec<LeaseRecord>, host: &str) -> (leases: (
    Vec<RecordedLease>,
    Vec<RecordedLease>,
))
    ensures
        targets(leases.0@) == recorded_on(records@, host@, true),
        targets(leases.1@) == recorded_on(records@, host@, false),
{
    let mut on_host: Vec<RecordedLease> = Vec::new();
    let mut elsewhere: Vec<RecordedLease> = Vec::new();
    let mut i: usize = 0;
    assert(records@.take(0) =~= Seq::empty());
    assert(targets(on_host@) =~= Seq::empty());
    while i < records.len()
        invariant
            i <= records.len(),
            targets(on_host@) == recorded_on(records@.take(i as int), host@, true),
            targets(elsewhere@) == recorded_on(records@.take(i as int), host@, false),
        decreases records.len() - i,
    {
        proof {
            assert(records@.take(i + 1).drop_last() =~= records@.take(i as int));
            assert(records@.take(i + 1).last() == records@[i as int]);
        }
        if !records[i].deleted {
            if text_is(&records[i].provider, host) {
                push_target(&mut on_host, &records[i]);
            } else {
                push_target(&mut elsewhere, &records[i]);
            }
        }
        i = i + 1;
    }
    assert(records@.take(i as int) =~= records@);
    (on_host, elsewhere)
}

// ── What a resume checks ───────────────────────────────────────────────

/// Whether two scope identities are the same.
pub open spec fn same_scope(a: ScopeIdentity, b: ScopeIdentity) -> bool {
    match (a, b) {
        (ScopeIdentity::Declared(a), ScopeIdentity::Declared(b)) => a == b,
        (ScopeIdentity::Spliced(a), ScopeIdentity::Spliced(b)) => a@ == b@,
        _ => false,
    }
}

fn is_same_scope(a: &ScopeIdentity, b: &ScopeIdentity) -> (same: bool)
    ensures
        same == same_scope(*a, *b),
{
    match (a, b) {
        (ScopeIdentity::Declared(a), ScopeIdentity::Declared(b)) => *a == *b,
        (ScopeIdentity::Spliced(a), ScopeIdentity::Spliced(b)) => *a == *b,
        _ => false,
    }
}

/// The scopes of the state an execution's stored log resumes to, each with
/// its identity. Nothing for a log that does not resume.
#[derive(Debug)]
pub struct ReplayedScopes {
    pub execution: ExecutionId,
    pub scopes: Option<Vec<(ScopeIdentity, ScopeRuntime)>>,
}

/// The scopes an execution resumes to.
pub open spec fn scopes_of(replayed: Seq<ReplayedScopes>, execution: ExecutionId) -> Option<
    ReplayedScopes,
> {
    first_where(replayed, |scopes: ReplayedScopes| scopes.execution == execution)
}

/// Whether scopes hold one with an identity and a runtime.
pub open spec fn has_scope(
    scopes: Seq<(ScopeIdentity, ScopeRuntime)>,
    scope: ScopeIdentity,
    runtime: ScopeRuntime,
) -> bool {
    exists|i: int|
        0 <= i < scopes.len() && same_scope((#[trigger] scopes[i]).0, scope) && same_runtime(
            scopes[i].1,
            runtime,
        )
}

/// Whether a lease is for a scope its invocation has: one the registered
/// graph declares with the lease's runtime, or one a splice of an execution
/// of the invocation introduced.
pub open spec fn scope_matches(
    state: CoordinatorState,
    graph: Graph,
    replayed: Seq<ReplayedScopes>,
    record: LeaseRecord,
) -> bool {
    match record.allocation.scope {
        ScopeIdentity::Declared(scope) => {
            &&& record.introduced_by is None
            &&& graph.spec_scope(scope) matches Some(scope) && same_runtime(
                scope.runtime,
                record.runtime,
            )
        },
        ScopeIdentity::Spliced(_) => match record.introduced_by {
            None => false,
            Some(execution) => {
                &&& state.owner_of(execution) == Some(record.allocation.invocation)
                &&& scopes_of(replayed, execution) matches Some(found) && match found.scopes {
                    Some(scopes) => has_scope(scopes@, record.allocation.scope, record.runtime),
                    None => false,
                }
            },
        },
    }
}

/// Why a lease's record is refused.
pub open spec fn record_refused(
    state: CoordinatorState,
    graphs: Seq<(GraphDigest, Graph)>,
    replayed: Seq<ReplayedScopes>,
    record: LeaseRecord,
) -> Option<CoordinatorError> {
    let invalid = Some(CoordinatorError::InvalidResource { lease: record.lease });
    match state.spec_invocation(record.allocation.invocation) {
        None => invalid,
        Some(invocation) => if invocation.declaration.sandbox != SandboxBinding::Isolated {
            invalid
        } else {
            match lookup(graphs, invocation.declaration.graph) {
                None => Some(CoordinatorError::UnknownGraph(invocation.declaration.graph)),
                Some(graph) => if scope_matches(state, graph, replayed, record) {
                    None
                } else {
                    invalid
                },
            }
        },
    }
}

/// Why a run's lease records are refused: the first that is.
pub open spec fn resources_refused(
    state: CoordinatorState,
    graphs: Seq<(GraphDigest, Graph)>,
    replayed: Seq<ReplayedScopes>,
    records: Seq<LeaseRecord>,
) -> Option<CoordinatorError>
    decreases records.len(),
{
    if records.len() == 0 {
        None
    } else {
        match resources_refused(state, graphs, replayed, records.drop_last()) {
            Some(error) => Some(error),
            None => record_refused(state, graphs, replayed, records.last()),
        }
    }
}

fn find_scopes<'a>(replayed: &'a Vec<ReplayedScopes>, execution: ExecutionId) -> (found: Option<
    &'a ReplayedScopes,
>)
    ensures
        found == (match scopes_of(replayed@, execution) {
            Some(scopes) => Some(&scopes),
            None => None,
        }),
{
    let ghost p = |scopes: ReplayedScopes| scopes.execution == execution;
    let mut i: usize = 0;
    while i < replayed.len()
        invariant
            i <= replayed.len(),
            p == (|scopes: ReplayedScopes| scopes.execution == execution),
            forall|j: int| 0 <= j < i ==> !p(#[trigger] replayed@[j]),
        decreases replayed.len() - i,
    {
        if replayed[i].execution == execution {
            proof {
                lemma_first_found(replayed@, p, i as int);
            }
            return Some(&replayed[i]);
        }
        i = i + 1;
    }
    proof {
        lemma_first_absent(replayed@, p);
    }
    None
}

fn holds_scope(
    scopes: &Vec<(ScopeIdentity, ScopeRuntime)>,
    scope: &ScopeIdentity,
    runtime: &ScopeRuntime,
) -> (found: bool)
    ensures
        found == has_scope(scopes@, *scope, *runtime),
{
    let mut i: usize = 0;
    while i < scopes.len()
        invariant
            i <= scopes.len(),
            forall|j: int|
                0 <= j < i ==> !(same_scope((#[trigger] scopes@[j]).0, *scope) && same_runtime(
                    scopes@[j].1,
                    *runtime,
                )),
        decreases scopes.len() - i,
    {
        if is_same_scope(&scopes[i].0, scope) && scopes[i].1.same(runtime) {
            assert(same_scope(scopes@[i as int].0, *scope));
            return true;
        }
        i = i + 1;
    }
    false
}

fn matches_scope(
    state: &CoordinatorState,
    graph: &Graph,
    replayed: &Vec<ReplayedScopes>,
    record: &LeaseRecord,
) -> (matched: bool)
    ensures
        matched == scope_matches(*state, *graph, replayed@, *record),
{
    match &record.allocation.scope {
        ScopeIdentity::Declared(scope) => {
            if record.introduced_by.is_some() {
                return false;
            }
            match graph.scope(*scope) {
                Some(scope) => scope.runtime.same(&record.runtime),
                None => false,
            }
        },
        ScopeIdentity::Spliced(_) => match record.introduced_by {
            None => false,
            Some(execution) => {
                match state.owner(execution) {
                    Some(owner) => {
                        if owner != record.allocation.invocation {
                            return false;
                        }
                    },
                    None => return false,
                }
                match find_scopes(replayed, execution) {
                    Some(found) => match &found.scopes {
                        Some(scopes) => holds_scope(scopes, &record.allocation.scope, &record.runtime),
                        None => false,
                    },
                    None => false,
                }
            },
        },
    }
}

fn check_record(
    state: &CoordinatorState,
    graphs: &Vec<(GraphDigest, Graph)>,
    replayed: &Vec<ReplayedScopes>,
    record: &LeaseRecord,
) -> (refused: Option<CoordinatorError>)
    ensures
        refused == record_refused(*state, graphs@, replayed@, *record),
{
    let lease = record.lease;
    let invocation = match state.invocation(record.allocation.invocation) {
        Some(invocation) => invocation,
        None => return Some(CoordinatorError::InvalidResource { lease }),
    };
    if invocation.declaration.sandbox != SandboxBinding::Isolated {
        return Some(CoordinatorError::InvalidResource { lease });
    }
    match find_graph(graphs, invocation.declaration.graph) {
        None => Some(CoordinatorError::UnknownGraph(invocation.declaration.graph)),
        Some(graph) => if matches_scope(state, graph, replayed, record) {
            None
        } else {
            Some(CoordinatorError::InvalidResource { lease })
        },
    }
}

/// Check a resumed run's lease records against the invocations that own
/// them: each is for an isolated invocation, and for a scope its graph
/// declares or a splice of one of its executions introduced, with the same
/// runtime.
pub fn validate_resources(
    state: &CoordinatorState,
    graphs: &Vec<(GraphDigest, Graph)>,
    replayed: &Vec<ReplayedScopes>,
    records: &Vec<LeaseRecord>,
) -> (checked: Result<(), CoordinatorError>)
    ensures
        match checked {
            Ok(()) => resources_refused(*state, graphs@, replayed@, records@) is None,
            Err(error) => resources_refused(*state, graphs@, replayed@, records@) == Some(error),
        },
{
    let mut i: usize = 0;
    assert(records@.take(0) =~= Seq::empty());
    while i < records.len()
        invariant
            i <= records.len(),
            resources_refused(*state, graphs@, replayed@, records@.take(i as int)) is None,
        decreases records.len() - i,
    {
        proof {
            assert(records@.take(i + 1).drop_last() =~= records@.take(i as int));
            assert(records@.take(i + 1).last() == records@[i as int]);
        }
        match check_record(state, graphs, replayed, &records[i]) {
            Some(error) => {
                proof {
                    lemma_refusal_stays(*state, graphs@, replayed@, records@, i + 1);
                }
                return Err(error);
            },
            None => {},
        }
        i = i + 1;
    }
    assert(records@.take(i as int) =~= records@);
    Ok(())
}

proof fn lemma_refusal_stays(
    state: CoordinatorState,
    graphs: Seq<(GraphDigest, Graph)>,
    replayed: Seq<ReplayedScopes>,
    records: Seq<LeaseRecord>,
    i: int,
)
    requires
        0 <= i <= records.len(),
        resources_refused(state, graphs, replayed, records.take(i)) is Some,
    ensures
        resources_refused(state, graphs, replayed, records) == resources_refused(
            state,
            graphs,
            replayed,
            records.take(i),
        ),
    decreases records.len() - i,
{
    if i == records.len() {
        assert(records.take(i) =~= records);
    } else {
        assert(records.take(i + 1).drop_last() =~= records.take(i));
        lemma_refusal_stays(state, graphs, replayed, records, i + 1);
    }
}

/// Every record of a run whose leases are validated is for an isolated
/// invocation of the run, for a scope it has.
pub proof fn law_validated_leases(
    state: CoordinatorState,
    graphs: Seq<(GraphDigest, Graph)>,
    replayed: Seq<ReplayedScopes>,
    records: Seq<LeaseRecord>,
    i: int,
)
    requires
        resources_refused(state, graphs, replayed, records) is None,
        0 <= i < records.len(),
    ensures
        record_refused(state, graphs, replayed, records[i]) is None,
        state.spec_invocation(records[i].allocation.invocation) matches Some(invocation)
            && invocation.declaration.sandbox == SandboxBinding::Isolated,
    decreases records.len(),
{
    if i < records.len() - 1 {
        law_validated_leases(state, graphs, replayed, records.drop_last(), i);
    }
}

} // verus!

//! Where invocations run, and what becomes of their sandboxes.

use crate::coordinator::{CoordinatorError, ResourceError};
use crate::coordinator::leases::{
    asks_for_another, has_scope, inherits, introducer, law_remaining_leases_take_the_run_s_status,
    mismatched_scope, owned, record_of, record_refused, recorded_on, remaining, resources_refused,
    same_scope, scopes_of, unusable, LeaseRecord, ReplayedScopes,
};
use crate::coordinator::live::{is_runner, runs, LiveInvocation};
use crate::coordinator::start::{child_sandbox, StartRefusal};
use crate::event::{SandboxBinding, SandboxMode, ScopeIdentity};
use crate::ids::{ExecutionId, GraphDigest, InvocationId, SandboxLeaseId, ScopeId};
use crate::laws::telling::lemma_first_where;
use crate::model::{same_runtime, Graph, RunStatus, RuntimeTarget, Scope, ScopeRuntime};
use crate::run_state::{CoordinatorState, InvocationState};
use crate::search::{lemma_lookup_found, lookup};
use vstd::prelude::*;

verus! {

// ── What a child inherits ──────────────────────────────────────────────

/// What a child inherits is a lease.
pub(crate) proof fn lemma_inherits_a_lease(
    state: CoordinatorState,
    live: Map<u64, LiveInvocation>,
    records: Seq<LeaseRecord>,
    parent: ExecutionId,
    scope: ScopeId,
)
    ensures
        inherits(state, live, records, parent, scope) matches Ok(binding) ==> binding is Inherited,
{
}

/// Whether a lease is on record and its sandbox is there.
pub open spec fn usable(records: Seq<LeaseRecord>, lease: SandboxLeaseId) -> bool {
    exists|i: int|
        0 <= i < records.len() && (#[trigger] records[i]).lease == lease && !records[i].deleted
            && forall|j: int| 0 <= j < i ==> (#[trigger] records[j]).lease != lease
}

/// Whether a lease is on record at all.
pub open spec fn on_record(records: Seq<LeaseRecord>, lease: SandboxLeaseId) -> bool {
    exists|i: int| 0 <= i < records.len() && (#[trigger] records[i]).lease == lease
}

/// A lease can be used while its sandbox is there: one that is gone is
/// refused as deleted, and one nothing is known of as unknown.
pub proof fn law_a_lease_is_used_while_it_lasts(records: Seq<LeaseRecord>, lease: SandboxLeaseId)
    ensures
        usable(records, lease) <==> unusable(records, lease) is None,
        !on_record(records, lease) <==> unusable(records, lease) == Some(
            ResourceError::UnknownLease(lease),
        ),
        on_record(records, lease) && !usable(records, lease) <==> unusable(records, lease) == Some(
            ResourceError::DeletedLease(lease),
        ),
        record_of(records, lease) matches Some(record) ==> record.lease == lease
            && records.contains(record),
{
    lemma_first_where(records, |record: LeaseRecord| record.lease == lease);
    if let Some(record) = record_of(records, lease) {
        let i = choose|i: int|
            0 <= i < records.len() && #[trigger] records[i] == record && record.lease == lease
                && forall|j: int| 0 <= j < i ==> !((#[trigger] records[j]).lease == lease);
        assert(records[i].lease == lease);
        if usable(records, lease) {
            let n = choose|n: int|
                0 <= n < records.len() && (#[trigger] records[n]).lease == lease
                    && !records[n].deleted && forall|j: int|
                    0 <= j < n ==> (#[trigger] records[j]).lease != lease;
            assert(n == i) by {
                if n < i {
                    assert(!(records[n].lease == lease));
                } else if i < n {
                    assert(records[i].lease != lease);
                }
            }
        }
    }
}

/// A child of an invocation that inherited its sandbox gets that very lease;
/// a child of one that owns its sandboxes gets the lease its caller's running
/// execution acquired for the scope the call names. Either only while the
/// lease can be used.
pub proof fn law_a_child_inherits_its_caller_s_lease(
    state: CoordinatorState,
    live: Map<u64, LiveInvocation>,
    records: Seq<LeaseRecord>,
    parent: ExecutionId,
    scope: ScopeId,
    owner: InvocationState,
    lease: SandboxLeaseId,
    runner: u64,
    leases: Vec<(ScopeId, SandboxLeaseId)>,
    i: int,
)
    requires
        state.spec_execution(parent) matches Some(execution) && state.spec_invocation(
            execution.declaration.invocation,
        ) == Some(owner),
        owner.declaration.sandbox == (SandboxBinding::Inherited { lease }) || {
            &&& owner.declaration.sandbox == SandboxBinding::Isolated
            &&& live.contains_key(runner)
            &&& live[runner] == (LiveInvocation::Running { execution: parent, leases: Some(leases) })
            &&& forall|other: u64| #[trigger] live.contains_key(other) && other != runner ==> !(
            live[other] matches LiveInvocation::Running { execution, .. } && execution == parent)
            &&& 0 <= i < leases@.len()
            &&& leases@[i] == (scope, lease)
            &&& forall|j: int| 0 <= j < i ==> (#[trigger] leases@[j]).0 != scope
        },
    ensures
        usable(records, lease) ==> inherits(state, live, records, parent, scope) == Ok::<
            SandboxBinding,
            CoordinatorError,
        >(SandboxBinding::Inherited { lease }),
        !usable(records, lease) ==> inherits(state, live, records, parent, scope) matches Err(
            CoordinatorError::Resource(_),
        ),
{
    law_a_lease_is_used_while_it_lasts(records, lease);
    if owner.declaration.sandbox == SandboxBinding::Isolated {
        assert(is_runner(live, runner, parent)) by {
            assert(runs(live, runner, parent));
            assert forall|other: u64| #[trigger] runs(live, other, parent) implies runner
                <= other by {
                assert(live.contains_key(other));
            }
        }
        let found = choose|id: u64| is_runner(live, id, parent);
        assert(is_runner(live, found, parent));
        assert(runs(live, found, parent));
        assert(live.contains_key(found));
        assert(found == runner);
        lemma_lookup_found(leases@, scope, i);
    }
}

/// A call inherits nothing from an execution nothing is known of, nor from
/// one that acquired no lease for the scope.
pub proof fn law_nothing_to_inherit(
    state: CoordinatorState,
    live: Map<u64, LiveInvocation>,
    records: Seq<LeaseRecord>,
    parent: ExecutionId,
    scope: ScopeId,
)
    requires
        state.spec_execution(parent) is None || (state.spec_execution(parent) matches Some(execution)
            && state.spec_invocation(execution.declaration.invocation) matches Some(owner)
            && owner.declaration.sandbox == SandboxBinding::Isolated && forall|id: u64| #[trigger]
            live.contains_key(id) ==> !(live[id] matches LiveInvocation::Running {
            execution: running,
            ..
        } && running == parent)),
    ensures
        inherits(state, live, records, parent, scope) == Err::<SandboxBinding, CoordinatorError>(
            CoordinatorError::NoInheritableSandbox,
        ),
{
    if exists|id: u64| is_runner(live, id, parent) {
        let id = choose|id: u64| is_runner(live, id, parent);
        assert(runs(live, id, parent));
        assert(live.contains_key(id));
    }
}

/// A child that inherits runs in its caller's container: it is refused
/// exactly when one of its scopes names another, and the first such scope is
/// the one named.
pub proof fn law_an_inherited_container_is_the_caller_s(scopes: Seq<Scope>, target: RuntimeTarget)
    ensures
        mismatched_scope(scopes, target) is None <==> forall|i: int|
            0 <= i < scopes.len() ==> ((#[trigger] scopes[i]).runtime.target is HostProcess || (
            scopes[i].runtime.target is Container && target is Container
                && scopes[i].runtime.target->image@ == target->image@
                && scopes[i].runtime.target->options@ == target->options@)),
        mismatched_scope(scopes, target) matches Some(scope) ==> scopes.contains(scope)
            && scope.runtime.target is Container,
{
    lemma_first_where(
        scopes,
        |scope: Scope| asks_for_another(scope, target),
    );
    assert forall|i: int| 0 <= i < scopes.len() implies asks_for_another(
        #[trigger] scopes[i],
        target,
    ) == !(scopes[i].runtime.target is HostProcess || (scopes[i].runtime.target is Container
        && target is Container && scopes[i].runtime.target->image@ == target->image@
        && scopes[i].runtime.target->options@ == target->options@)) by {}
}

/// The sandbox of a new child: its own when it asks for one; else what it
/// inherits, when the container is the caller's and its graph can be read.
pub proof fn law_a_child_s_sandbox(
    state: CoordinatorState,
    live: Map<u64, LiveInvocation>,
    records: Seq<LeaseRecord>,
    parent: ExecutionId,
    scope: ScopeId,
    child: Result<Graph, String>,
    lease: SandboxLeaseId,
    record: LeaseRecord,
)
    ensures
        child_sandbox(state, live, records, parent, SandboxMode::Isolated, child) == Ok::<
            SandboxBinding,
            StartRefusal,
        >(SandboxBinding::Isolated),
        inherits(state, live, records, parent, scope) == Ok::<SandboxBinding, CoordinatorError>(
            SandboxBinding::Inherited { lease },
        ) && record_of(records, lease) == Some(record) ==> {
            let mode = SandboxMode::Inherit { scope };
            let sandbox = child_sandbox(state, live, records, parent, mode, child);
            match child {
                Err(reason) => sandbox == Err::<SandboxBinding, StartRefusal>(
                    StartRefusal::Unreadable(reason),
                ),
                Ok(graph) => match mismatched_scope(graph.scopes@, record.runtime.target) {
                    None => sandbox == Ok::<SandboxBinding, StartRefusal>(
                        SandboxBinding::Inherited { lease },
                    ),
                    Some(wrong) => sandbox == Err::<SandboxBinding, StartRefusal>(
                        StartRefusal::InheritedContainerMismatch { scope: wrong.id },
                    ),
                },
            }
        },
        inherits(state, live, records, parent, scope) == Err::<SandboxBinding, CoordinatorError>(
            CoordinatorError::NoInheritableSandbox,
        ) ==> child_sandbox(
            state,
            live,
            records,
            parent,
            SandboxMode::Inherit { scope },
            child,
        ) == Err::<SandboxBinding, StartRefusal>(StartRefusal::NoInheritableSandbox),
{
}

// ── Releases ───────────────────────────────────────────────────────────

/// A finished invocation releases the leases it allocated itself that still
/// hold a sandbox, each of them, and no other's.
pub proof fn law_an_invocation_releases_its_own(
    records: Seq<LeaseRecord>,
    invocation: InvocationId,
    lease: SandboxLeaseId,
)
    ensures
        owned(records, invocation).contains(lease) <==> exists|i: int|
            0 <= i < records.len() && (#[trigger] records[i]).lease == lease
                && records[i].allocation.invocation == invocation && records[i].needs_release,
    decreases records.len(),
{
    let all = owned(records, invocation);
    if records.len() > 0 {
        let rest = records.drop_last();
        law_an_invocation_releases_its_own(rest, invocation, lease);
        let before = owned(rest, invocation);
        let last = records[records.len() - 1];
        assert forall|i: int| 0 <= i < rest.len() implies rest[i] == #[trigger] records[i] by {}
        if all.contains(lease) {
            let k = choose|k: int| 0 <= k < all.len() && all[k] == lease;
            if k < before.len() {
                assert(before[k] == lease);
            }
        }
        if before.contains(lease) {
            let k = choose|k: int| 0 <= k < before.len() && before[k] == lease;
            assert(all[k] == lease);
        }
        if last.lease == lease && last.allocation.invocation == invocation && last.needs_release {
            assert(all[all.len() - 1] == lease);
        }
    }
}

/// A run's end releases every lease that still holds a sandbox, with the
/// run's recorded status, and as cancelled when it recorded none.
pub proof fn law_a_run_s_end_releases_the_rest(
    state: CoordinatorState,
    records: Seq<LeaseRecord>,
    i: int,
)
    requires
        0 <= i < records.len(),
        records[i].needs_release,
    ensures
        state.run_status matches Some(status) ==> remaining(state, records).contains(
            (records[i].lease, status),
        ),
        state.run_status is None ==> remaining(state, records).contains(
            (records[i].lease, RunStatus::Cancelled),
        ),
{
    law_remaining_leases_take_the_run_s_status(state, records);
}

/// A resume reconciles every recorded lease whose sandbox is not gone, the
/// host's own apart from the others', and none that is gone.
pub proof fn law_what_a_resume_reconciles(
    records: Seq<LeaseRecord>,
    host: Seq<char>,
    on_host: bool,
    target: (SandboxLeaseId, Seq<char>),
)
    ensures
        recorded_on(records, host, on_host).contains(target) <==> exists|i: int|
            0 <= i < records.len() && (#[trigger] records[i]).lease == target.0
                && records[i].workspace@ == target.1 && !records[i].deleted && (
            records[i].provider@ == host <==> on_host),
    decreases records.len(),
{
    let all = recorded_on(records, host, on_host);
    if records.len() > 0 {
        let rest = records.drop_last();
        law_what_a_resume_reconciles(rest, host, on_host, target);
        let before = recorded_on(rest, host, on_host);
        let last = records[records.len() - 1];
        assert forall|i: int| 0 <= i < rest.len() implies rest[i] == #[trigger] records[i] by {}
        if all.contains(target) {
            let k = choose|k: int| 0 <= k < all.len() && all[k] == target;
            if k < before.len() {
                assert(before[k] == target);
            }
        }
        if before.contains(target) {
            let k = choose|k: int| 0 <= k < before.len() && before[k] == target;
            assert(all[k] == target);
        }
        if !last.deleted && (last.provider@ == host <==> on_host) && last.lease == target.0
            && last.workspace@ == target.1 {
            assert(all[all.len() - 1] == target);
        }
    }
}

// ── What a resume checks ───────────────────────────────────────────────

/// Whether two runtimes are one.
pub open spec fn one_runtime(a: ScopeRuntime, b: ScopeRuntime) -> bool {
    &&& a.settings@ == b.settings@
    &&& a.target is HostProcess <==> b.target is HostProcess
    &&& a.target is Container ==> a.target->image@ == b.target->image@ && a.target->options@
        == b.target->options@
}

/// A lease's record is taken exactly when it is of an isolated invocation
/// whose graph is at hand, and of a scope that the invocation has in the same
/// runtime: one its graph declares and no execution introduced, or one an
/// execution of the same invocation introduced and its resumed state holds.
pub proof fn law_which_leases_are_taken(
    state: CoordinatorState,
    graphs: Seq<(GraphDigest, Graph)>,
    replayed: Seq<ReplayedScopes>,
    record: LeaseRecord,
)
    ensures
        record_refused(state, graphs, replayed, record) is None <==> {
            &&& state.spec_invocation(record.allocation.invocation) matches Some(invocation) && {
                &&& invocation.declaration.sandbox is Isolated
                &&& lookup(graphs, invocation.declaration.graph) matches Some(graph)
                    && match record.allocation.scope {
                    ScopeIdentity::Declared(scope) => {
                        &&& record.introduced_by is None
                        &&& graph.spec_scope(scope) matches Some(found) && one_runtime(
                            found.runtime,
                            record.runtime,
                        )
                    },
                    ScopeIdentity::Spliced(name) => {
                        &&& record.introduced_by matches Some(execution) && {
                            &&& state.spec_execution(execution) matches Some(found)
                                && found.declaration.invocation == record.allocation.invocation
                            &&& scopes_of(replayed, execution) matches Some(held) && held.scopes
                                matches Some(scopes) && exists|i: int|
                                0 <= i < scopes@.len() && ((#[trigger] scopes@[i]).0 matches
                                    ScopeIdentity::Spliced(other) && other@ == name@)
                                    && one_runtime(scopes@[i].1, record.runtime)
                        }
                    },
                }
            }
        },
        record_refused(state, graphs, replayed, record) matches Some(error) ==> error
            == (CoordinatorError::InvalidResource { lease: record.lease }) || (
        state.spec_invocation(record.allocation.invocation) matches Some(invocation) && error
            == CoordinatorError::UnknownGraph(invocation.declaration.graph)),
{
    assert forall|a: ScopeRuntime, b: ScopeRuntime|
        #[trigger] same_runtime(a, b) == one_runtime(a, b) by {}
    if let Some(execution) = record.introduced_by {
        if let Some(held) = scopes_of(replayed, execution) {
            if let Some(scopes) = held.scopes {
                if has_scope(
                    scopes@,
                    record.allocation.scope,
                    record.runtime,
                ) {
                    let i = choose|i: int|
                        0 <= i < scopes@.len() && same_scope(
                            (#[trigger] scopes@[i]).0,
                            record.allocation.scope,
                        ) && same_runtime(scopes@[i].1, record.runtime);
                    assert(one_runtime(scopes@[i].1, record.runtime));
                }
                if let ScopeIdentity::Spliced(name) = record.allocation.scope {
                    if exists|i: int|
                        0 <= i < scopes@.len() && ((#[trigger] scopes@[i]).0 matches
                            ScopeIdentity::Spliced(other) && other@ == name@) && one_runtime(
                            scopes@[i].1,
                            record.runtime,
                        ) {
                        let i = choose|i: int|
                            0 <= i < scopes@.len() && ((#[trigger] scopes@[i]).0 matches
                                ScopeIdentity::Spliced(other) && other@ == name@) && one_runtime(
                                scopes@[i].1,
                                record.runtime,
                            );
                        assert(same_runtime(scopes@[i].1, record.runtime));
                        assert(same_scope(
                            scopes@[i].0,
                            record.allocation.scope,
                        ));
                    }
                }
            }
        }
    }
}

/// A run's leases are taken when each of them is; and a refusal is of the
/// first that is not.
pub proof fn law_all_leases_are_checked(
    state: CoordinatorState,
    graphs: Seq<(GraphDigest, Graph)>,
    replayed: Seq<ReplayedScopes>,
    records: Seq<LeaseRecord>,
)
    ensures
        resources_refused(state, graphs, replayed, records) is None <==> forall|i: int|
            0 <= i < records.len() ==> record_refused(
                state,
                graphs,
                replayed,
                #[trigger] records[i],
            ) is None,
        resources_refused(state, graphs, replayed, records) matches Some(error) ==> exists|i: int|
            0 <= i < records.len() && record_refused(
                state,
                graphs,
                replayed,
                #[trigger] records[i],
            ) == Some(error) && forall|j: int|
                0 <= j < i ==> record_refused(
                    state,
                    graphs,
                    replayed,
                    #[trigger] records[j],
                ) is None,
    decreases records.len(),
{
    if records.len() > 0 {
        let rest = records.drop_last();
        law_all_leases_are_checked(state, graphs, replayed, rest);
        assert forall|i: int| 0 <= i < rest.len() implies rest[i] == #[trigger] records[i] by {}
        let n = records.len() - 1;
        assert(records[n] == records.last());
        if let Some(error) = resources_refused(state, graphs, replayed, rest) {
            let i = choose|i: int|
                0 <= i < rest.len() && record_refused(
                    state,
                    graphs,
                    replayed,
                    #[trigger] rest[i],
                ) == Some(error) && forall|j: int|
                    0 <= j < i ==> record_refused(
                        state,
                        graphs,
                        replayed,
                        #[trigger] rest[j],
                    ) is None;
            assert(record_refused(state, graphs, replayed, records[i]) == Some(error));
            assert forall|j: int| 0 <= j < i implies record_refused(
                state,
                graphs,
                replayed,
                #[trigger] records[j],
            ) is None by {
                assert(rest[j] == records[j]);
            }
        }
    }
}

/// A scope that an execution's splice made is reserved in that execution's
/// name; one the graph declares in nobody's.
pub proof fn law_who_introduced_a_scope(scope: ScopeIdentity, execution: ExecutionId)
    ensures
        scope is Declared ==> introducer(scope, execution) is None,
        scope is Spliced ==> introducer(scope, execution) == Some(execution),
{
}

} // verus!

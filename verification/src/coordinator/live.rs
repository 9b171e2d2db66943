//! The invocations between their dispatch and their release: one table, so
//! every step of that lifecycle is a named transition made in one place.

use crate::ids::{ExecutionId, InvocationId, SandboxLeaseId, ScopeId};
use crate::search::{lemma_lookup_absent, lemma_lookup_found, lookup};
use crate::table::{by_id, increasing, lemma_entry, table_map, Table};
use vstd::prelude::*;

verus! {

/// Where a live invocation stands. It enters the table when it is queued or
/// dispatched and leaves it when its leases are released, or when it
/// restarts and is started again.
#[derive(Debug)]
pub enum LiveInvocation {
    /// Declared under a fork gate and queued for a slot; only its driver
    /// waits, its declaration is durable already.
    Queued,
    /// Its driver runs. `leases` is what its isolated scopes acquired, for a
    /// child that inherits one; an inherited invocation acquires none.
    Running { execution: ExecutionId, leases: Option<Vec<(ScopeId, SandboxLeaseId)>> },
    /// Its driver stopped. It completes once every live descendant has
    /// settled, and then restarts or has its result recorded.
    Stopped,
    /// Its result is durable and its leases are being released. A parent
    /// waits for this too, so a child's sandboxes are gone before the parent
    /// completes.
    Releasing,
}

/// The live invocations by id. The transitions keep the order the drive
/// loop relies on: a stopped driver is forgotten before its report is
/// checked, and an invocation stays live until its release is recorded.
#[derive(Debug)]
pub struct LiveInvocations {
    table: Table<LiveInvocation>,
}

impl View for LiveInvocations {
    type V = Map<u64, LiveInvocation>;

    closed spec fn view(&self) -> Map<u64, LiveInvocation> {
        self.table@
    }
}

/// Whether an invocation runs an execution.
pub open spec fn runs(live: Map<u64, LiveInvocation>, id: u64, execution: ExecutionId) -> bool {
    live.contains_key(id) && match live[id] {
        LiveInvocation::Running { execution: running, leases } => running == execution,
        _ => false,
    }
}

/// Whether an execution is the running one of a live invocation.
pub open spec fn running(live: Map<u64, LiveInvocation>, execution: ExecutionId) -> bool {
    exists|id: u64| #[trigger] runs(live, id, execution)
}

/// Whether an invocation is the one with the lowest id that runs an
/// execution.
pub open spec fn is_runner(live: Map<u64, LiveInvocation>, id: u64, execution: ExecutionId) -> bool {
    runs(live, id, execution) && forall|other: u64| #[trigger]
        runs(live, other, execution) ==> id <= other
}

/// The invocation that runs an execution: the one with the lowest id.
pub open spec fn runner_of(live: Map<u64, LiveInvocation>, execution: ExecutionId) -> Option<
    InvocationId,
> {
    if exists|id: u64| is_runner(live, id, execution) {
        Some(InvocationId(choose|id: u64| is_runner(live, id, execution)))
    } else {
        None
    }
}

/// The lease the invocation running an execution acquired for a scope.
pub open spec fn lease_in(
    live: Map<u64, LiveInvocation>,
    execution: ExecutionId,
    scope: ScopeId,
) -> Option<SandboxLeaseId> {
    match runner_of(live, execution) {
        Some(id) => lease_held(live[id.0], scope),
        None => None,
    }
}

/// The lease an invocation's running execution acquired for a scope.
pub open spec fn lease_held(live: LiveInvocation, scope: ScopeId) -> Option<SandboxLeaseId> {
    match live {
        LiveInvocation::Running { execution, leases: Some(leases) } => lookup(leases@, scope),
        _ => None,
    }
}

/// Leases with one for a scope: in the place of the one that was there, or
/// else at the end.
pub open spec fn with_lease(
    leases: Seq<(ScopeId, SandboxLeaseId)>,
    scope: ScopeId,
    lease: SandboxLeaseId,
    from: int,
) -> Seq<(ScopeId, SandboxLeaseId)>
    decreases leases.len() - from,
{
    if from < 0 || from >= leases.len() {
        leases.push((scope, lease))
    } else if leases[from].0 == scope {
        leases.update(from, (scope, lease))
    } else {
        with_lease(leases, scope, lease, from + 1)
    }
}

/// Ids in increasing order, each once.
pub open spec fn in_order(ids: Seq<InvocationId>) -> bool {
    forall|i: int, j: int| 0 <= i < j < ids.len() ==> (#[trigger] ids[i]).0 < (#[trigger] ids[j]).0
}

impl LiveInvocations {
    pub fn new() -> (live: LiveInvocations)
        ensures
            live@ == Map::<u64, LiveInvocation>::empty(),
    {
        LiveInvocations { table: Table::new() }
    }

    /// No invocation is queued, running, stopped or releasing.
    pub fn is_empty(&self) -> (empty: bool)
        ensures
            empty == (self@ == Map::<u64, LiveInvocation>::empty()),
    {
        self.table.is_empty()
    }

    pub fn contains(&self, invocation: InvocationId) -> (found: bool)
        ensures
            found == self@.contains_key(invocation.0),
    {
        self.table.contains_key(invocation.0)
    }

    /// Every live invocation, in id order.
    pub fn invocations(&self) -> (ids: Vec<InvocationId>)
        ensures
            in_order(ids@),
            forall|id: u64| #[trigger] self@.contains_key(id) <==> ids@.contains(InvocationId(id)),
    {
        let entries = self.table.entries();
        let mut ids: Vec<InvocationId> = Vec::new();
        let mut i: usize = 0;
        while i < entries.len()
            invariant
                i <= entries.len(),
                ids@.len() == i,
                forall|j: int| 0 <= j < i ==> (#[trigger] ids@[j]).0 == entries@[j].0,
            decreases entries.len() - i,
        {
            ids.push(InvocationId(entries[i].0));
            i = i + 1;
        }
        proof {
            assert forall|id: u64| #[trigger] self@.contains_key(id) <==> ids@.contains(
                InvocationId(id),
            ) by {
                if self@.contains_key(id) {
                    let k = choose|k: int|
                        0 <= k < by_id(self@).len() && (#[trigger] by_id(self@)[k]).0 == id;
                    assert(entries@[k].0 == id);
                    assert(ids@[k] == InvocationId(id));
                }
                if ids@.contains(InvocationId(id)) {
                    let k = choose|k: int| 0 <= k < ids@.len() && ids@[k] == InvocationId(id);
                    assert(entries@[k].0 == id);
                    lemma_entry(by_id(self@), k);
                }
            }
        }
        ids
    }

    /// The invocation waits on its fork gate for a slot.
    pub fn queue(&mut self, invocation: InvocationId)
        requires
            !old(self)@.contains_key(invocation.0),
        ensures
            final(self)@ == old(self)@.insert(invocation.0, LiveInvocation::Queued),
    {
        self.table.insert(invocation.0, LiveInvocation::Queued);
    }

    /// The invocation's driver starts on `execution`, fresh or from the
    /// gate's queue. `isolated` is whether its scopes acquire leases of
    /// their own.
    pub fn run(&mut self, invocation: InvocationId, execution: ExecutionId, isolated: bool)
        requires
            old(self)@.contains_key(invocation.0) ==> old(self)@[invocation.0] is Queued,
        ensures
            final(self)@.dom() == old(self)@.dom().insert(invocation.0),
            runs(final(self)@, invocation.0, execution),
            match final(self)@[invocation.0] {
                LiveInvocation::Running { execution: running, leases: Some(leases) } => isolated
                    && leases@.len() == 0,
                LiveInvocation::Running { execution: running, leases: None } => !isolated,
                _ => false,
            },
            forall|id: u64|
                id != invocation.0 && #[trigger] old(self)@.contains_key(id) ==> final(self)@[id]
                    == old(self)@[id],
    {
        let leases: Option<Vec<(ScopeId, SandboxLeaseId)>> = if isolated {
            Some(Vec::new())
        } else {
            None
        };
        self.table.insert(invocation.0, LiveInvocation::Running { execution, leases });
    }

    /// The invocation's driver stopped: its handle and its scopes' leases
    /// are forgotten, and it stays live until it completes.
    pub fn stop(&mut self, invocation: InvocationId, execution: ExecutionId)
        requires
            runs(old(self)@, invocation.0, execution),
        ensures
            final(self)@ == old(self)@.insert(invocation.0, LiveInvocation::Stopped),
    {
        self.table.insert(invocation.0, LiveInvocation::Stopped);
    }

    /// The invocation's result is durable; its leases are being released.
    pub fn mark_releasing(&mut self, invocation: InvocationId)
        requires
            old(self)@.contains_key(invocation.0),
            old(self)@[invocation.0] is Stopped,
        ensures
            final(self)@ == old(self)@.insert(invocation.0, LiveInvocation::Releasing),
    {
        self.table.insert(invocation.0, LiveInvocation::Releasing);
    }

    /// Forget the invocation: its release is recorded, or it restarts and is
    /// started again.
    pub fn remove(&mut self, invocation: InvocationId)
        ensures
            final(self)@ == old(self)@.remove(invocation.0),
    {
        let _ = self.table.remove(invocation.0);
    }

    /// Forget every invocation.
    pub fn clear(&mut self)
        ensures
            final(self)@ == Map::<u64, LiveInvocation>::empty(),
    {
        self.table = Table::new();
    }

    /// The invocation that runs an execution: the one with the lowest id.
    pub fn runner(&self, execution: ExecutionId) -> (found: Option<InvocationId>)
        ensures
            found == runner_of(self@, execution),
            found is Some <==> running(self@, execution),
            found matches Some(id) ==> runs(self@, id.0, execution),
    {
        let entries = self.table.entries();
        let ghost all = by_id(self@);
        let mut i: usize = 0;
        while i < entries.len()
            invariant
                i <= entries.len(),
                all == by_id(self@),
                increasing(all),
                table_map(all) == self@,
                entries@.len() == all.len(),
                forall|j: int|
                    0 <= j < all.len() ==> (#[trigger] entries@[j]).0 == all[j].0 && *entries@[j].1
                        == all[j].1,
                forall|j: int|
                    0 <= j < i ==> match (#[trigger] all[j]).1 {
                        LiveInvocation::Running { execution: running, leases } => running
                            != execution,
                        _ => true,
                    },
            decreases entries.len() - i,
        {
            let found = match entries[i].1 {
                LiveInvocation::Running { execution: running, leases: _ } => *running == execution,
                _ => false,
            };
            assert(entries@[i as int].0 == all[i as int].0);
            if found {
                proof {
                    lemma_entry(all, i as int);
                    assert forall|other: u64| #[trigger] runs(self@, other, execution) implies
                        all[i as int].0 <= other by {
                        let k = choose|k: int|
                            0 <= k < all.len() && (#[trigger] all[k]).0 == other;
                        lemma_entry(all, k);
                        if k < i {
                            assert(false);
                        }
                    }
                }
                proof {
                    let id = all[i as int].0;
                    assert(is_runner(self@, id, execution));
                    let other = choose|other: u64| is_runner(self@, other, execution);
                    assert(is_runner(self@, other, execution));
                    assert(runs(self@, other, execution));
                }
                return Some(InvocationId(entries[i].0));
            }
            i = i + 1;
        }
        proof {
            assert forall|other: u64| !#[trigger] runs(self@, other, execution) by {
                if runs(self@, other, execution) {
                    let k = choose|k: int|
                        0 <= k < all.len() && (#[trigger] all[k]).0 == other;
                    lemma_entry(all, k);
                }
            }
        }
        None
    }

    /// Whether `execution` is the running execution of a live invocation.
    pub fn is_running(&self, execution: ExecutionId) -> (found: bool)
        ensures
            found == running(self@, execution),
    {
        self.runner(execution).is_some()
    }

    /// The lease the invocation running `execution` acquired for an isolated
    /// scope.
    pub fn lease_of(&self, execution: ExecutionId, scope: ScopeId) -> (lease: Option<
        SandboxLeaseId,
    >)
        ensures
            lease == lease_in(self@, execution, scope),
    {
        let id = match self.runner(execution) {
            Some(id) => id,
            None => return None,
        };
        match self.table.get(id.0) {
            Some(LiveInvocation::Running { execution: _, leases: Some(leases) }) => {
                let lease = find_lease(leases, scope);
                assert(lease_held(self@[id.0], scope) == lease);
                lease
            },
            _ => None,
        }
    }

    /// An isolated scope of the running execution acquired a lease.
    pub fn acquired(&mut self, invocation: InvocationId, scope: ScopeId, lease: SandboxLeaseId)
        ensures
            final(self)@.dom() == old(self)@.dom(),
            forall|id: u64|
                id != invocation.0 && #[trigger] old(self)@.contains_key(id) ==> final(self)@[id]
                    == old(self)@[id],
            old(self)@.contains_key(invocation.0) ==> match old(self)@[invocation.0] {
                LiveInvocation::Running { execution, leases: Some(leases) } => final(
                    self)@[invocation.0] matches LiveInvocation::Running {
                    execution: same,
                    leases: Some(more),
                } && same == execution && more@ == with_lease(leases@, scope, lease, 0),
                other => final(self)@[invocation.0] == other,
            },
    {
        let ghost before = self@;
        match self.table.remove(invocation.0) {
            Some(LiveInvocation::Running { execution, leases: Some(leases) }) => {
                let ghost held = leases@;
                let mut leases = leases;
                let mut i: usize = 0;
                while i < leases.len() && leases[i].0 != scope
                    invariant
                        i <= leases.len(),
                        leases@ == held,
                        with_lease(held, scope, lease, 0) == with_lease(
                            held,
                            scope,
                            lease,
                            i as int,
                        ),
                    decreases leases.len() - i,
                {
                    i = i + 1;
                }
                if i < leases.len() {
                    leases[i] = (scope, lease);
                } else {
                    leases.push((scope, lease));
                }
                self.table.insert(
                    invocation.0,
                    LiveInvocation::Running { execution, leases: Some(leases) },
                );
                assert(self@.dom() =~= before.dom());
            },
            Some(other) => {
                self.table.insert(invocation.0, other);
                assert(self@ =~= before);
            },
            None => {
                assert(self@ =~= before);
            },
        }
    }

    /// The running invocations among `invocations`, in that order: the ones
    /// whose drivers can be told something.
    pub fn running_among(&self, invocations: &Vec<InvocationId>) -> (found: Vec<InvocationId>)
        ensures
            found@ == running_of(self@, invocations@),
    {
        let mut found: Vec<InvocationId> = Vec::new();
        let mut i: usize = 0;
        assert(invocations@.take(0) =~= Seq::empty());
        while i < invocations.len()
            invariant
                i <= invocations.len(),
                found@ == running_of(self@, invocations@.take(i as int)),
            decreases invocations.len() - i,
        {
            let id = invocations[i];
            proof {
                assert(invocations@.take(i + 1).drop_last() =~= invocations@.take(i as int));
                assert(invocations@.take(i + 1).last() == id);
            }
            match self.table.get(id.0) {
                Some(LiveInvocation::Running { execution: _, leases: _ }) => found.push(id),
                _ => {},
            }
            i = i + 1;
        }
        assert(invocations@.take(i as int) =~= invocations@);
        found
    }
}

fn find_lease(leases: &Vec<(ScopeId, SandboxLeaseId)>, scope: ScopeId) -> (lease: Option<
    SandboxLeaseId,
>)
    ensures
        lease == lookup(leases@, scope),
{
    let mut i: usize = 0;
    while i < leases.len()
        invariant
            i <= leases.len(),
            forall|j: int| 0 <= j < i ==> (#[trigger] leases@[j]).0 != scope,
        decreases leases.len() - i,
    {
        if leases[i].0 == scope {
            proof {
                lemma_lookup_found(leases@, scope, i as int);
            }
            return Some(leases[i].1);
        }
        i = i + 1;
    }
    proof {
        lemma_lookup_absent(leases@, scope);
    }
    None
}

/// The running invocations among others, in order.
pub open spec fn running_of(live: Map<u64, LiveInvocation>, invocations: Seq<InvocationId>) -> Seq<
    InvocationId,
>
    decreases invocations.len(),
{
    if invocations.len() == 0 {
        Seq::empty()
    } else {
        let before = running_of(live, invocations.drop_last());
        let last = invocations.last();
        if live.contains_key(last.0) && live[last.0] is Running {
            before.push(last)
        } else {
            before
        }
    }
}

} // verus!

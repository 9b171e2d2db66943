//! Fork gates: the slots a fork's children share, and the queue of declared
//! children waiting for one before their driver starts.

use crate::coordinator::live::{running, LiveInvocation, LiveInvocations};
use crate::ids::{ExecutionId, InvocationId};
use crate::named::NamedTable;
use crate::run_state::CoordinatorState;
use vstd::prelude::*;

verus! {

/// One fork's admission: the slots its children share, and the declared
/// children waiting for a slot before their driver starts, in declaration
/// order. A child holds its slot from dispatch to the end of its driver,
/// except across a retry backoff.
#[derive(Debug)]
pub struct ForkGate {
    pub slots: u32,
    pub queued: Vec<InvocationId>,
    /// Whether a wait for the next free slot is out.
    pub waiting: bool,
}

/// The slots a gate of a requested width has: at least one.
pub open spec fn slots_of(max_parallel: u32) -> u32 {
    if max_parallel == 0 {
        1
    } else {
        max_parallel
    }
}

impl ForkGate {
    /// While a child is queued, a wait for a slot is out.
    pub open spec fn wf(&self) -> bool {
        self.queued@.len() > 0 ==> self.waiting
    }

    /// A gate nothing waits at.
    pub fn new(max_parallel: u32) -> (gate: ForkGate)
        ensures
            gate.slots == slots_of(max_parallel),
            max_parallel >= 1 ==> gate.slots == max_parallel,
            max_parallel == 0 ==> gate.slots == 1,
            gate.queued@.len() == 0,
            !gate.waiting,
            gate.wf(),
    {
        let slots: u32 = if max_parallel == 0 {
            1
        } else {
            max_parallel
        };
        ForkGate { slots, queued: Vec::new(), waiting: false }
    }

    /// Wait for the next free slot while children are queued; at most one
    /// wait at a time. Whether a wait begins.
    pub fn wait_for_slot(&mut self) -> (begins: bool)
        ensures
            final(self).wf(),
            final(self).slots == old(self).slots,
            final(self).queued == old(self).queued,
            begins == (!old(self).waiting && old(self).queued@.len() > 0),
            final(self).waiting == (old(self).waiting || old(self).queued@.len() > 0),
    {
        if self.waiting || self.queued.len() == 0 {
            return false;
        }
        self.waiting = true;
        true
    }
}

/// The fork gates by parent execution and gate name.
pub type Gates = Map<(u64, Seq<char>), ForkGate>;

/// The fork gates of a run: each parent execution's, by gate name. They are
/// rebuilt on demand, so a resume recovers the accounting from the children
/// it redispatches.
#[derive(Debug)]
pub struct ForkGates {
    table: NamedTable<ForkGate>,
}

impl View for ForkGates {
    type V = Gates;

    closed spec fn view(&self) -> Gates {
        self.table@
    }
}

/// The children queued at a gate.
pub open spec fn queued_at(gates: Gates, key: (u64, Seq<char>)) -> Seq<InvocationId> {
    if gates.contains_key(key) {
        gates[key].queued@
    } else {
        Seq::empty()
    }
}

/// Whether a wait for a gate's next slot is out.
pub open spec fn waits_at(gates: Gates, key: (u64, Seq<char>)) -> bool {
    gates.contains_key(key) && gates[key].waiting
}

/// What a gate is admitted from: the invocation's fork and its width.
#[derive(Debug)]
pub struct ForkAdmission {
    pub parent: ExecutionId,
    pub gate: String,
    pub max_parallel: u32,
}

/// The fork gate an invocation was declared under, and its slot count, when
/// its declaration bounds concurrency.
pub open spec fn admission_of(state: CoordinatorState, invocation: InvocationId) -> Option<
    ForkAdmission,
> {
    match state.spec_invocation(invocation) {
        Some(found) => match (found.declaration.admission, found.declaration.call) {
            (Some(admission), Some(call)) => Some(
                ForkAdmission {
                    parent: call.parent,
                    gate: admission.gate,
                    max_parallel: admission.max_parallel,
                },
            ),
            _ => None,
        },
        None => None,
    }
}

/// The fork gate an invocation was declared under, and its slot count.
pub fn fork_admission(state: &CoordinatorState, invocation: InvocationId) -> (admission: Option<
    ForkAdmission,
>)
    ensures
        admission == admission_of(*state, invocation),
{
    match state.invocation(invocation) {
        Some(found) => match (&found.declaration.admission, &found.declaration.call) {
            (Some(admission), Some(call)) => Some(
                ForkAdmission {
                    parent: call.parent,
                    gate: admission.gate.clone(),
                    max_parallel: admission.max_parallel,
                },
            ),
            _ => None,
        },
        None => None,
    }
}

/// Whether an invocation was declared under a gate.
pub open spec fn is_under(
    state: CoordinatorState,
    invocation: InvocationId,
    key: (u64, Seq<char>),
) -> bool {
    admission_of(state, invocation) matches Some(admission) && (
        admission.parent.0,
        admission.gate@,
    ) == key
}

/// Whether a gate is kept: its parent execution runs, a child is queued at
/// it, or a live invocation was declared under it.
pub open spec fn in_use(
    state: CoordinatorState,
    live: Map<u64, LiveInvocation>,
    key: (u64, Seq<char>),
    gate: ForkGate,
) -> bool {
    ||| running(live, ExecutionId(key.0))
    ||| gate.queued@.len() > 0
    ||| exists|id: u64| #[trigger]
        live.contains_key(id) && is_under(state, InvocationId(id), key)
}

impl ForkGates {
    /// Every gate has a wait out while a child is queued at it.
    pub closed spec fn wf(&self) -> bool {
        self.table.wf() && forall|key: (u64, Seq<char>)| #[trigger]
            self.table@.contains_key(key) ==> self.table@[key].wf()
    }

    /// No child is forgotten at its gate: while one is queued, a wait for a
    /// slot is out.
    pub proof fn law_queued_children_are_waited_for(&self)
        requires
            self.wf(),
        ensures
            forall|key: (u64, Seq<char>)| #[trigger] self@.contains_key(key) ==> self@[key].wf(),
    {
    }

    pub fn new() -> (gates: ForkGates)
        ensures
            gates.wf(),
            gates@ == Map::<(u64, Seq<char>), ForkGate>::empty(),
    {
        ForkGates { table: NamedTable::new() }
    }

    fn take(&mut self, admission: &ForkAdmission) -> (gate: ForkGate)
        requires
            old(self).wf(),
        ensures
            final(self).wf(),
            final(self)@ == old(self)@.remove((admission.parent.0, admission.gate@)),
            gate.wf(),
            ({
                let key = (admission.parent.0, admission.gate@);
                if old(self)@.contains_key(key) {
                    gate == old(self)@[key]
                } else {
                    gate.slots == slots_of(admission.max_parallel) && gate.queued@.len() == 0
                        && !gate.waiting
                }
            }),
    {
        match self.table.remove(admission.parent.0, &admission.gate) {
            Some(gate) => gate,
            None => ForkGate::new(admission.max_parallel),
        }
    }

    /// Queue a fork's child for a slot of its gate, which the first
    /// child that names it creates. Whether a wait for the next free slot
    /// begins: one may be out already.
    pub fn queue_for_slot(&mut self, invocation: InvocationId, admission: &ForkAdmission) -> (begins:
        bool)
        requires
            old(self).wf(),
        ensures
            final(self).wf(),
            ({
                let key = (admission.parent.0, admission.gate@);
                &&& final(self)@.dom() == old(self)@.dom().insert(key)
                &&& queued_at(final(self)@, key) == queued_at(old(self)@, key).push(invocation)
                &&& waits_at(final(self)@, key)
                &&& begins == !waits_at(old(self)@, key)
                &&& final(self)@[key].slots == (if old(self)@.contains_key(key) {
                    old(self)@[key].slots
                } else {
                    slots_of(admission.max_parallel)
                })
                &&& forall|other: (u64, Seq<char>)|
                    other != key && #[trigger] old(self)@.contains_key(other) ==> final(
                        self)@[other] == old(self)@[other]
            }),
    {
        let ghost key = (admission.parent.0, admission.gate@);
        let ghost before = self@;
        let mut gate = self.take(admission);
        gate.queued.push(invocation);
        let begins = gate.wait_for_slot();
        self.table.insert(admission.parent.0, admission.gate.clone(), gate);
        proof {
            assert(self@ =~= before.insert(key, gate));
            assert(self@.dom() =~= before.dom().insert(key));
        }
        begins
    }

    /// A gate's wait took a slot: the child at the head of the queue starts
    /// on it, and a wait begins again while others are queued. The child,
    /// and whether one does; nothing when no child is left.
    pub fn admitted(&mut self, parent: ExecutionId, gate: &String) -> (child: Option<
        (InvocationId, bool),
    >)
        requires
            old(self).wf(),
        ensures
            final(self).wf(),
            final(self)@.dom() == old(self)@.dom(),
            ({
                let key = (parent.0, gate@);
                let queue = queued_at(old(self)@, key);
                &&& old(self)@.contains_key(key) ==> final(self)@[key].slots == old(
                    self,
                )@[key].slots
                &&& match child {
                    Some((child, begins)) => queue.len() > 0 && child == queue[0] && queued_at(
                        final(self)@,
                        key,
                    ) == queue.drop_first() && begins == (queue.len() > 1) && waits_at(
                        final(self)@,
                        key,
                    ) == begins,
                    None => queue.len() == 0 && queued_at(final(self)@, key) == queue && !waits_at(
                        final(self)@,
                        key,
                    ),
                }
                &&& forall|other: (u64, Seq<char>)|
                    other != key && #[trigger] old(self)@.contains_key(other) ==> final(
                        self)@[other] == old(self)@[other]
            }),
    {
        let ghost key = (parent.0, gate@);
        let ghost before = self@;
        match self.table.remove(parent.0, gate) {
            None => {
                assert(self@ =~= before);
                None
            },
            Some(found) => {
                let mut found = found;
                let ghost queue = found.queued@;
                found.waiting = false;
                let child = if found.queued.len() == 0 {
                    None
                } else {
                    let child = found.queued.remove(0);
                    assert(found.queued@ =~= queue.drop_first());
                    let begins = found.wait_for_slot();
                    Some((child, begins))
                };
                self.table.insert(parent.0, gate.clone(), found);
                proof {
                    assert(self@ =~= before.insert(key, found));
                    assert(self@.dom() =~= before.dom());
                }
                child
            },
        }
    }

    /// The slots an invocation's driver shares with its fork's other
    /// children: one set per parent execution and gate name, created with
    /// the first child that names it.
    pub fn attempt_slots(&mut self, admission: &ForkAdmission) -> (slots: u32)
        requires
            old(self).wf(),
        ensures
            final(self).wf(),
            ({
                let key = (admission.parent.0, admission.gate@);
                &&& final(self)@.dom() == old(self)@.dom().insert(key)
                &&& slots == final(self)@[key].slots
                &&& old(self)@.contains_key(key) ==> final(self)@[key] == old(self)@[key]
                &&& !old(self)@.contains_key(key) ==> slots == slots_of(admission.max_parallel)
                    && final(self)@[key].queued@.len() == 0 && !final(self)@[key].waiting
                &&& forall|other: (u64, Seq<char>)|
                    other != key && #[trigger] old(self)@.contains_key(other) ==> final(
                        self)@[other] == old(self)@[other]
            }),
    {
        let ghost key = (admission.parent.0, admission.gate@);
        let ghost before = self@;
        let gate = self.take(admission);
        let slots = gate.slots;
        self.table.insert(admission.parent.0, admission.gate.clone(), gate);
        proof {
            assert(self@ =~= before.insert(key, gate));
            assert(self@.dom() =~= before.dom().insert(key));
        }
        slots
    }

    /// Whether a fork's gate is kept.
    pub fn holds(&self, parent: ExecutionId, gate: &String) -> (held: bool)
        requires
            self.wf(),
        ensures
            held == self@.contains_key((parent.0, gate@)),
    {
        self.table.get(parent.0, gate).is_some()
    }

    /// Drop every fork gate whose parent execution is no longer live and
    /// that has no child queued or live. A gate still in use keeps its
    /// slots, so the bound holds for children that settle after their
    /// parent, and a child that restarts rejoins the same gate.
    pub fn drop_idle(&mut self, state: &CoordinatorState, live: &LiveInvocations)
        requires
            old(self).wf(),
        ensures
            final(self).wf(),
            forall|key: (u64, Seq<char>)| #[trigger]
                final(self)@.contains_key(key) <==> old(self)@.contains_key(key) && in_use(
                    *state,
                    live@,
                    key,
                    old(self)@[key],
                ),
            forall|key: (u64, Seq<char>)| #[trigger]
                final(self)@.contains_key(key) ==> final(self)@[key] == old(self)@[key],
    {
        let ids = live.invocations();
        let count = self.table.len();
        let mut idle: Vec<(u64, String)> = Vec::new();
        let mut i: usize = 0;
        while i < count
            invariant
                i <= count,
                self.table.wf(),
                self.table.at(count as int) is None,
                forall|k: int| 0 <= k < count ==> #[trigger] self.table.at(k) is Some,
                forall|id: u64| #[trigger]
                    live@.contains_key(id) <==> ids@.contains(InvocationId(id)),
                forall|k: int|
                    0 <= k < idle@.len() ==> self@.contains_key(
                        ((#[trigger] idle@[k]).0, idle@[k].1@),
                    ) && !in_use(
                        *state,
                        live@,
                        (idle@[k].0, idle@[k].1@),
                        self@[(idle@[k].0, idle@[k].1@)],
                    ),
                forall|k: int|
                    0 <= k < i && !in_use(
                        *state,
                        live@,
                        self.table.key_at(k),
                        self.table.value_at(k),
                    ) && #[trigger] self.table.at(k) is Some ==> listed(
                        idle@,
                        self.table.key_at(k),
                    ),
            decreases count - i,
        {
            let (parent, name, gate) = self.table.entry(i);
            let used = live.is_running(ExecutionId(parent)) || gate.queued.len() > 0 || any_under(
                state,
                live,
                &ids,
                parent,
                name,
            );
            if !used {
                let ghost before = idle@;
                idle.push((parent, name.clone()));
                proof {
                    assert(listed(idle@, (parent, name@))) by {
                        assert(idle@[idle@.len() - 1].0 == parent);
                    }
                    assert forall|key: (u64, Seq<char>)| listed(before, key) implies #[trigger] listed(
                        idle@,
                        key,
                    ) by {
                        let k = choose|k: int|
                            0 <= k < before.len() && (#[trigger] before[k]).0 == key.0
                                && before[k].1@ == key.1;
                        assert(idle@[k] == before[k]);
                    }
                }
            }
            i = i + 1;
        }
        let ghost gates = self@;
        proof {
            self.table.lemma_places();
            assert forall|key: (u64, Seq<char>)| gates.contains_key(key) && !in_use(
                *state,
                live@,
                key,
                gates[key],
            ) implies #[trigger] listed(idle@, key) by {
                let k = choose|k: int| #[trigger] self.table.at(k) == Some((key, self.table@[key]));
                self.table.lemma_bounds(k, count as int);
                assert(self.table.key_at(k) == key);
                assert(self.table.value_at(k) == gates[key]);
            }
        }
        let mut k: usize = 0;
        while k < idle.len()
            invariant
                k <= idle.len(),
                self.wf(),
                forall|key: (u64, Seq<char>)| #[trigger]
                    self@.contains_key(key) <==> gates.contains_key(key) && !listed(
                        idle@.take(k as int),
                        key,
                    ),
                forall|key: (u64, Seq<char>)| #[trigger]
                    self@.contains_key(key) ==> self@[key] == gates[key],
            decreases idle.len() - k,
        {
            let ghost held = self@;
            let _ = self.table.remove(idle[k].0, &idle[k].1);
            proof {
                let taken = idle@.take(k + 1);
                let key = (idle@[k as int].0, idle@[k as int].1@);
                assert forall|other: (u64, Seq<char>)| #[trigger] listed(taken, other) <==> listed(
                    idle@.take(k as int),
                    other,
                ) || other == key by {
                    if listed(taken, other) {
                        let j = choose|j: int|
                            0 <= j < taken.len() && (#[trigger] taken[j]).0 == other.0
                                && taken[j].1@ == other.1;
                        if j < k {
                            assert(idle@.take(k as int)[j] == taken[j]);
                        }
                    }
                    if listed(idle@.take(k as int), other) {
                        let j = choose|j: int|
                            0 <= j < k && (#[trigger] idle@.take(k as int)[j]).0 == other.0
                                && idle@.take(k as int)[j].1@ == other.1;
                        assert(taken[j] == idle@.take(k as int)[j]);
                    }
                    assert(taken[k as int] == idle@[k as int]);
                }
                assert(self@ == held.remove(key));
            }
            k = k + 1;
        }
        proof {
            assert(idle@.take(k as int) =~= idle@);
            assert forall|key: (u64, Seq<char>)| #[trigger] self@.contains_key(key)
                <==> gates.contains_key(key) && in_use(*state, live@, key, gates[key]) by {
                if gates.contains_key(key) && listed(idle@, key) {
                    let j = choose|j: int|
                        0 <= j < idle@.len() && (#[trigger] idle@[j]).0 == key.0 && idle@[j].1@
                            == key.1;
                    assert((idle@[j].0, idle@[j].1@) == key);
                }
            }
        }
    }
}

/// Whether keys hold one.
pub open spec fn listed(keys: Seq<(u64, String)>, key: (u64, Seq<char>)) -> bool {
    exists|i: int| 0 <= i < keys.len() && (#[trigger] keys[i]).0 == key.0 && keys[i].1@ == key.1
}

fn any_under(
    state: &CoordinatorState,
    live: &LiveInvocations,
    ids: &Vec<InvocationId>,
    parent: u64,
    name: &String,
) -> (found: bool)
    requires
        forall|id: u64| #[trigger] live@.contains_key(id) <==> ids@.contains(InvocationId(id)),
    ensures
        found == (exists|id: u64| #[trigger]
            live@.contains_key(id) && is_under(*state, InvocationId(id), (parent, name@))),
{
    let mut i: usize = 0;
    while i < ids.len()
        invariant
            i <= ids.len(),
            forall|id: u64| #[trigger] live@.contains_key(id) <==> ids@.contains(InvocationId(id)),
            forall|j: int| 0 <= j < i ==> !is_under(*state, #[trigger] ids@[j], (parent, name@)),
        decreases ids.len() - i,
    {
        match fork_admission(state, ids[i]) {
            Some(admission) => {
                if admission.parent.0 == parent && admission.gate == *name {
                    proof {
                        let id = ids@[i as int].0;
                        assert(ids@.contains(InvocationId(id)));
                        assert(live@.contains_key(id));
                    }
                    return true;
                }
            },
            None => {},
        }
        i = i + 1;
    }
    proof {
        assert forall|id: u64| #[trigger] live@.contains_key(id) implies !is_under(
            *state,
            InvocationId(id),
            (parent, name@),
        ) by {
            let j = choose|j: int| 0 <= j < ids@.len() && ids@[j] == InvocationId(id);
            assert(!is_under(*state, ids@[j], (parent, name@)));
        }
    }
    false
}

} // verus!

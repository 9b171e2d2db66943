//! The invocation tree: who called whom, and which invocations a cancel
//! reaches.

use crate::event::{CancelReason, CancelRequest, CoordinatorEvent};
use crate::ids::InvocationId;
use crate::run_state::{CoordinatorState, InvocationState};
use vstd::prelude::*;

verus! {

/// The invocation that called an invocation.
pub open spec fn caller_of(state: CoordinatorState, invocation: InvocationId) -> Option<
    InvocationId,
> {
    match state.spec_invocation(invocation) {
        Some(found) => match found.declaration.call {
            Some(call) => state.owner_of(call.parent),
            None => None,
        },
        None => None,
    }
}

/// Whether an invocation is another or was called, directly or not, from it.
/// A caller is declared before what it calls, so its id is below.
pub open spec fn descends(
    state: CoordinatorState,
    invocation: InvocationId,
    ancestor: InvocationId,
) -> bool
    decreases invocation.0,
{
    invocation == ancestor || match caller_of(state, invocation) {
        Some(caller) => caller.0 < invocation.0 && descends(state, caller, ancestor),
        None => false,
    }
}

/// Descent is reflexive and transitive, and leads to lower ids.
pub proof fn law_descent(
    state: CoordinatorState,
    a: InvocationId,
    b: InvocationId,
    c: InvocationId,
)
    ensures
        descends(state, a, a),
        descends(state, a, b) && descends(state, b, c) ==> descends(state, a, c),
        descends(state, a, b) ==> b.0 <= a.0,
        descends(state, a, b) && descends(state, b, a) ==> a == b,
    decreases a.0,
{
    match caller_of(state, a) {
        Some(caller) => {
            if a != b && caller.0 < a.0 {
                law_descent(state, caller, b, c);
            }
        },
        None => {},
    }
    if a != b && descends(state, a, b) && descends(state, b, a) {
        lemma_descends_below(state, a, b);
        lemma_descends_below(state, b, a);
    }
}

proof fn lemma_descends_below(state: CoordinatorState, a: InvocationId, b: InvocationId)
    requires
        descends(state, a, b),
    ensures
        a == b || b.0 < a.0,
    decreases a.0,
{
    if a != b {
        lemma_descends_below(state, caller_of(state, a)->0, b);
    }
}

/// Whether an invocation is `ancestor` or was called, directly or not, from
/// it.
pub fn is_descendant_or_same(
    state: &CoordinatorState,
    invocation: InvocationId,
    ancestor: InvocationId,
) -> (found: bool)
    ensures
        found == descends(*state, invocation, ancestor),
{
    let mut current = invocation;
    while current != ancestor
        invariant
            descends(*state, invocation, ancestor) == descends(*state, current, ancestor),
        decreases current.0,
    {
        let caller = match state.invocation(current) {
            Some(found) => match &found.declaration.call {
                Some(call) => state.owner(call.parent),
                None => None,
            },
            None => None,
        };
        match caller {
            Some(caller) => {
                if caller.0 >= current.0 {
                    return false;
                }
                current = caller;
            },
            None => return false,
        }
    }
    true
}

/// An invocation and whether its cancel is recorded already.
pub type Affected = (InvocationId, bool);

/// The unfinished invocations that descend from one, in id order.
pub open spec fn unfinished_under(
    state: CoordinatorState,
    invocations: Seq<InvocationState>,
    ancestor: InvocationId,
    itself: bool,
) -> Seq<Affected>
    decreases invocations.len(),
{
    if invocations.len() == 0 {
        Seq::empty()
    } else {
        let before = unfinished_under(state, invocations.drop_last(), ancestor, itself);
        let last = invocations.last();
        let id = last.declaration.id;
        if last.result is None && descends(state, id, ancestor) && (itself || id != ancestor) {
            before.push((id, last.cancelled))
        } else {
            before
        }
    }
}

/// The unfinished invocations that descend from one, in id order: with the
/// one itself or without it.
pub fn unfinished(state: &CoordinatorState, ancestor: InvocationId, itself: bool) -> (affected: Vec<
    Affected,
>)
    ensures
        affected@ == unfinished_under(*state, state.invocations@, ancestor, itself),
{
    let mut affected: Vec<Affected> = Vec::new();
    let mut i: usize = 0;
    assert(state.invocations@.take(0) =~= Seq::empty());
    while i < state.invocations.len()
        invariant
            i <= state.invocations.len(),
            affected@ == unfinished_under(
                *state,
                state.invocations@.take(i as int),
                ancestor,
                itself,
            ),
        decreases state.invocations.len() - i,
    {
        let invocation = &state.invocations[i];
        proof {
            assert(state.invocations@.take(i + 1).drop_last() =~= state.invocations@.take(i as int));
            assert(state.invocations@.take(i + 1).last() == *invocation);
        }
        let id = invocation.declaration.id;
        if invocation.result.is_none() && (itself || id != ancestor) && is_descendant_or_same(
            state,
            id,
            ancestor,
        ) {
            affected.push((id, invocation.cancelled));
        }
        i = i + 1;
    }
    assert(state.invocations@.take(i as int) =~= state.invocations@);
    affected
}

proof fn lemma_unfinished(
    state: CoordinatorState,
    invocations: Seq<InvocationState>,
    ancestor: InvocationId,
    itself: bool,
    id: InvocationId,
    cancelled: bool,
)
    ensures
        unfinished_under(state, invocations, ancestor, itself).contains((id, cancelled)) <==> (
        exists|i: int|
            0 <= i < invocations.len() && (#[trigger] invocations[i]).declaration.id == id
                && invocations[i].cancelled == cancelled && invocations[i].result is None
                && descends(state, id, ancestor) && (itself || id != ancestor)),
    decreases invocations.len(),
{
    let all = unfinished_under(state, invocations, ancestor, itself);
    if invocations.len() > 0 {
        let rest = invocations.drop_last();
        lemma_unfinished(state, rest, ancestor, itself, id, cancelled);
        let before = unfinished_under(state, rest, ancestor, itself);
        let last = invocations.last();
        if all.contains((id, cancelled)) {
            let j = choose|j: int| 0 <= j < all.len() && all[j] == (id, cancelled);
            if j < before.len() {
                assert(before[j] == (id, cancelled));
                let i = choose|i: int|
                    0 <= i < rest.len() && (#[trigger] rest[i]).declaration.id == id
                        && rest[i].cancelled == cancelled && rest[i].result is None && descends(
                        state,
                        id,
                        ancestor,
                    ) && (itself || id != ancestor);
                assert(invocations[i] == rest[i]);
            } else {
                assert(invocations[invocations.len() - 1] == last);
            }
        }
        if exists|i: int|
            0 <= i < invocations.len() && (#[trigger] invocations[i]).declaration.id == id
                && invocations[i].cancelled == cancelled && invocations[i].result is None
                && descends(state, id, ancestor) && (itself || id != ancestor) {
            let i = choose|i: int|
                0 <= i < invocations.len() && (#[trigger] invocations[i]).declaration.id == id
                    && invocations[i].cancelled == cancelled && invocations[i].result is None
                    && descends(state, id, ancestor) && (itself || id != ancestor);
            if i < rest.len() {
                assert(rest[i] == invocations[i]);
                let j = choose|j: int| 0 <= j < before.len() && before[j] == (id, cancelled);
                assert(all[j] == (id, cancelled));
            } else {
                assert(all[all.len() - 1] == (id, cancelled));
            }
        }
    } else {
        assert(!all.contains((id, cancelled)));
    }
}

/// A cancel of an invocation reaches exactly it and its descendants that
/// have no result yet.
pub proof fn law_cancel_reaches_unfinished_descendants(
    state: CoordinatorState,
    ancestor: InvocationId,
    id: InvocationId,
    cancelled: bool,
)
    ensures
        unfinished_under(state, state.invocations@, ancestor, true).contains((id, cancelled))
            <==> (exists|i: int|
            0 <= i < state.invocations@.len() && (
            #[trigger] state.invocations@[i]).declaration.id == id
                && state.invocations@[i].cancelled == cancelled
                && state.invocations@[i].result is None && descends(state, id, ancestor)),
{
    lemma_unfinished(state, state.invocations@, ancestor, true, id, cancelled);
}

// ── What a cancel records and whom it tells ────────────────────────────

/// What a cancel does: the records it appends, in order, and the invocations
/// whose drivers it tells.
#[derive(Debug)]
pub struct CancelPlan {
    pub records: Vec<CoordinatorEvent>,
    pub told: Vec<InvocationId>,
}

/// The cancel records of affected invocations: one for each that has none
/// yet. The reason goes on the one the requester named.
pub open spec fn cancel_records(
    affected: Seq<Affected>,
    requested: InvocationId,
    reason: Option<CancelReason>,
) -> Seq<CoordinatorEvent>
    decreases affected.len(),
{
    if affected.len() == 0 {
        Seq::empty()
    } else {
        let before = cancel_records(affected.drop_last(), requested, reason);
        let (invocation, already) = affected.last();
        if already {
            before
        } else {
            before.push(
                CoordinatorEvent::InvocationCancelRequested {
                    invocation,
                    reason: if invocation == requested {
                        reason
                    } else {
                        None
                    },
                },
            )
        }
    }
}

/// The invocations whose drivers are told: the newly cancelled ones, and the
/// others too when the request escalates.
pub open spec fn cancel_told(affected: Seq<Affected>, escalate: bool) -> Seq<InvocationId>
    decreases affected.len(),
{
    if affected.len() == 0 {
        Seq::empty()
    } else {
        let before = cancel_told(affected.drop_last(), escalate);
        let (invocation, already) = affected.last();
        if escalate || !already {
            before.push(invocation)
        } else {
            before
        }
    }
}

/// Cancel affected invocations: the reason goes on the one the requester
/// named, the descendants follow from it. The drivers of the newly cancelled
/// invocations are told to cancel; a driver that was already cancelled is
/// told again only when the request escalates, which is what reaches its
/// kill tier.
pub fn cancel_invocations(
    affected: &Vec<Affected>,
    requested: InvocationId,
    reason: Option<CancelReason>,
    escalate: bool,
) -> (plan: CancelPlan)
    ensures
        plan.records@ == cancel_records(affected@, requested, reason),
        plan.told@ == cancel_told(affected@, escalate),
{
    let mut records: Vec<CoordinatorEvent> = Vec::new();
    let mut told: Vec<InvocationId> = Vec::new();
    let mut i: usize = 0;
    assert(affected@.take(0) =~= Seq::empty());
    while i < affected.len()
        invariant
            i <= affected.len(),
            records@ == cancel_records(affected@.take(i as int), requested, reason),
            told@ == cancel_told(affected@.take(i as int), escalate),
        decreases affected.len() - i,
    {
        let (invocation, already) = affected[i];
        proof {
            assert(affected@.take(i + 1).drop_last() =~= affected@.take(i as int));
            assert(affected@.take(i + 1).last() == affected@[i as int]);
        }
        if !already {
            records.push(
                CoordinatorEvent::InvocationCancelRequested {
                    invocation,
                    reason: if invocation == requested {
                        reason
                    } else {
                        None
                    },
                },
            );
        }
        if escalate || !already {
            told.push(invocation);
        }
        i = i + 1;
    }
    assert(affected@.take(i as int) =~= affected@);
    CancelPlan { records, told }
}

/// What a cancel request does: nothing for an invocation the run does not
/// have.
pub fn handle_cancel(state: &CoordinatorState, request: &CancelRequest) -> (plan: CancelPlan)
    ensures
        match state.spec_invocation(request.invocation) {
            Some(_) => {
                let affected = unfinished_under(
                    *state,
                    state.invocations@,
                    request.invocation,
                    true,
                );
                &&& plan.records@ == cancel_records(affected, request.invocation, request.reason)
                &&& plan.told@ == cancel_told(affected, request.escalate)
            },
            None => plan.records@.len() == 0 && plan.told@.len() == 0,
        },
{
    if state.invocation(request.invocation).is_none() {
        return CancelPlan { records: Vec::new(), told: Vec::new() };
    }
    let affected = unfinished(state, request.invocation, true);
    cancel_invocations(&affected, request.invocation, request.reason, request.escalate)
}

/// The affected invocations that have no cancel yet.
pub open spec fn uncancelled(affected: Seq<Affected>) -> Seq<Affected>
    decreases affected.len(),
{
    if affected.len() == 0 {
        Seq::empty()
    } else {
        let before = uncancelled(affected.drop_last());
        if affected.last().1 {
            before
        } else {
            before.push(affected.last())
        }
    }
}

/// What settling does: the cancels it records and tells, and the invocations
/// it starts so that they end.
#[derive(Debug)]
pub struct SettlePlan {
    pub cancel: CancelPlan,
    pub started: Vec<InvocationId>,
}

/// The invocations affected.
pub open spec fn affected_ids(affected: Seq<Affected>) -> Seq<InvocationId> {
    affected.map_values(|pair: Affected| pair.0)
}

/// A terminal replay need not reissue its old calls. Settle all unfinished
/// descendants of an invocation before its resources are released or it
/// restarts: the ones not cancelled yet are cancelled, without a reason, and
/// all of them are started.
pub fn settle_descendants(state: &CoordinatorState, invocation: InvocationId) -> (plan: SettlePlan)
    ensures
        ({
            let descendants = unfinished_under(*state, state.invocations@, invocation, false);
            &&& plan.cancel.records@ == cancel_records(
                uncancelled(descendants),
                InvocationId::root(),
                None,
            )
            &&& plan.cancel.told@ == cancel_told(uncancelled(descendants), false)
            &&& plan.started@ == affected_ids(descendants)
        }),
{
    let descendants = unfinished(state, invocation, false);
    let mut fresh: Vec<Affected> = Vec::new();
    let mut started: Vec<InvocationId> = Vec::new();
    let mut i: usize = 0;
    assert(descendants@.take(0) =~= Seq::empty());
    while i < descendants.len()
        invariant
            i <= descendants.len(),
            fresh@ == uncancelled(descendants@.take(i as int)),
            started@.len() == i,
            forall|j: int| 0 <= j < i ==> #[trigger] started@[j] == descendants@[j].0,
        decreases descendants.len() - i,
    {
        proof {
            assert(descendants@.take(i + 1).drop_last() =~= descendants@.take(i as int));
            assert(descendants@.take(i + 1).last() == descendants@[i as int]);
        }
        let (id, already) = descendants[i];
        if !already {
            fresh.push((id, already));
        }
        started.push(id);
        i = i + 1;
    }
    assert(descendants@.take(i as int) =~= descendants@);
    assert(started@ =~= affected_ids(descendants@));
    SettlePlan { cancel: cancel_invocations(&fresh, InvocationId::root(), None, false), started }
}

/// No invocation is recorded as cancelled twice by one cancel, and none that
/// was cancelled before is recorded again.
pub proof fn law_cancelled_once(
    affected: Seq<Affected>,
    requested: InvocationId,
    reason: Option<CancelReason>,
)
    requires
        forall|i: int, j: int|
            0 <= i < j < affected.len() ==> (#[trigger] affected[i]).0 != (#[trigger] affected[j]).0,
    ensures
        ({
            let records = cancel_records(affected, requested, reason);
            &&& forall|i: int|
                0 <= i < records.len() ==> (#[trigger] records[i]) is InvocationCancelRequested
                    && affected.contains((records[i]->InvocationCancelRequested_invocation, false))
            &&& forall|i: int, j: int|
                0 <= i < j < records.len() ==> (
                #[trigger] records[i])->InvocationCancelRequested_invocation != (
                #[trigger] records[j])->InvocationCancelRequested_invocation
            &&& forall|i: int|
                0 <= i < records.len() ==> (#[trigger] records[i])->InvocationCancelRequested_reason
                    == (if records[i]->InvocationCancelRequested_invocation == requested {
                    reason
                } else {
                    None
                })
        }),
    decreases affected.len(),
{
    if affected.len() > 0 {
        let rest = affected.drop_last();
        assert forall|i: int, j: int| 0 <= i < j < rest.len() implies (#[trigger] rest[i]).0 != (
        #[trigger] rest[j]).0 by {
            assert(rest[i] == affected[i] && rest[j] == affected[j]);
        }
        law_cancelled_once(rest, requested, reason);
        let before = cancel_records(rest, requested, reason);
        let records = cancel_records(affected, requested, reason);
        let n = affected.len() - 1;
        assert forall|i: int| 0 <= i < before.len() implies {
            &&& affected.contains((before[i]->InvocationCancelRequested_invocation, false))
            &&& (#[trigger] before[i])->InvocationCancelRequested_invocation != affected[n].0
        } by {
            let pair = (before[i]->InvocationCancelRequested_invocation, false);
            assert(rest.contains(pair));
            let k = choose|k: int| 0 <= k < rest.len() && rest[k] == pair;
            assert(affected[k] == pair);
            assert(affected[k].0 != affected[n].0);
        }
        assert(affected[n] == affected.last());
    }
}

} // verus!

//! What lists of invocations, tails, forks and members hold.

use crate::coordinator::drive::{has_live_descendant, may_complete, ready_invocation, same_texts};
use crate::coordinator::live::LiveInvocations;
use crate::coordinator::tree::{
    affected_ids, cancel_records, descends, settle_descendants, uncancelled, unfinished,
    unfinished_under, Affected, SettlePlan,
};
use crate::events::derivation::{in_firing_order, recovered_occurrence, with_open, OpenModel};
use crate::events::follow::{tail_read, tails_read, ExecutionTail, ReplayModel};
use crate::ids::{ExecutionId, Generation, InvocationId, NodeId};
use crate::json::{JsonView, NumberView};
use crate::laws::telling::lemma_first_where;
use crate::run_state::{CoordinatorState, InvocationState};
use crate::search::lookup;
use crate::state::{BranchModel, EngineState};
use crate::wire::{written, written_items};
use vstd::prelude::*;

verus! {

// ── Invocations ────────────────────────────────────────────────────────

/// The unfinished invocations under one are read in order: each that has no
/// result and descends from it, itself among them only when asked for, with
/// whether it was cancelled.
pub proof fn law_who_is_unfinished(
    state: CoordinatorState,
    invocations: Seq<InvocationState>,
    next: InvocationState,
    ancestor: InvocationId,
    itself: bool,
)
    ensures
        ({
            let before = unfinished_under(state, invocations, ancestor, itself);
            let after = unfinished_under(state, invocations.push(next), ancestor, itself);
            let id = next.declaration.id;
            &&& unfinished_under(state, Seq::empty(), ancestor, itself).len() == 0
            &&& next.result is Some ==> after == before
            &&& !descends(state, id, ancestor) ==> after == before
            &&& id == ancestor && !itself ==> after == before
            &&& next.result is None && descends(state, id, ancestor) && (id != ancestor || itself)
                ==> after == before.push((id, next.cancelled))
        }),
{
    assert(invocations.push(next).drop_last() =~= invocations);
}

proof fn lemma_unfinished(
    state: CoordinatorState,
    invocations: Seq<InvocationState>,
    ancestor: InvocationId,
    itself: bool,
    pair: Affected,
)
    ensures
        unfinished_under(state, invocations, ancestor, itself).contains(pair) <==> exists|i: int|
            0 <= i < invocations.len() && (#[trigger] invocations[i]).declaration.id == pair.0
                && invocations[i].cancelled == pair.1 && invocations[i].result is None && descends(
                state,
                pair.0,
                ancestor,
            ) && (itself || pair.0 != ancestor),
    decreases invocations.len(),
{
    let all = unfinished_under(state, invocations, ancestor, itself);
    if invocations.len() > 0 {
        let rest = invocations.drop_last();
        let before = unfinished_under(state, rest, ancestor, itself);
        let last = invocations.last();
        let n = invocations.len() - 1;
        lemma_unfinished(state, rest, ancestor, itself, pair);
        let added = last.result is None && descends(state, last.declaration.id, ancestor) && (itself
            || last.declaration.id != ancestor);
        assert(invocations[n] == last);
        if all.contains(pair) {
            let k = choose|k: int| 0 <= k < all.len() && all[k] == pair;
            if k < before.len() {
                assert(before[k] == pair);
                let i = choose|i: int|
                    0 <= i < rest.len() && (#[trigger] rest[i]).declaration.id == pair.0
                        && rest[i].cancelled == pair.1 && rest[i].result is None && descends(
                        state,
                        pair.0,
                        ancestor,
                    ) && (itself || pair.0 != ancestor);
                assert(invocations[i] == rest[i]);
            } else {
                assert(added && pair == (last.declaration.id, last.cancelled));
                assert(invocations[n].declaration.id == pair.0);
            }
        }
        if exists|i: int|
            0 <= i < invocations.len() && (#[trigger] invocations[i]).declaration.id == pair.0
                && invocations[i].cancelled == pair.1 && invocations[i].result is None && descends(
                state,
                pair.0,
                ancestor,
            ) && (itself || pair.0 != ancestor) {
            let i = choose|i: int|
                0 <= i < invocations.len() && (#[trigger] invocations[i]).declaration.id == pair.0
                    && invocations[i].cancelled == pair.1 && invocations[i].result is None
                    && descends(state, pair.0, ancestor) && (itself || pair.0 != ancestor);
            if i < n {
                assert(rest[i] == invocations[i]);
                assert(before.contains(pair));
                let k = choose|k: int| 0 <= k < before.len() && before[k] == pair;
                assert(all[k] == pair);
            } else {
                assert(all[all.len() - 1] == pair);
            }
        }
    }
}

/// Settling starts every unfinished invocation under one, never itself, and
/// cancels those of them that were not cancelled, without a reason.
pub proof fn law_what_settling_does(
    state: CoordinatorState,
    invocation: InvocationId,
    plan: SettlePlan,
    found: InvocationState,
)
    requires
        call_ensures(settle_descendants, (&state, invocation), plan),
        state.invocations@.contains(found),
    ensures
        !plan.started@.contains(invocation),
        found.result is None && descends(state, found.declaration.id, invocation)
            && found.declaration.id != invocation ==> plan.started@.contains(found.declaration.id),
        plan.cancel.records@.len() <= plan.started@.len(),
{
    let all = unfinished_under(state, state.invocations@, invocation, false);
    let ids = affected_ids(all);
    if ids.contains(invocation) {
        let k = choose|k: int| 0 <= k < ids.len() && ids[k] == invocation;
        lemma_unfinished(state, state.invocations@, invocation, false, all[k]);
        assert(all.contains(all[k]));
    }
    if found.result is None && descends(state, found.declaration.id, invocation)
        && found.declaration.id != invocation {
        let pair = (found.declaration.id, found.cancelled);
        let i = choose|i: int| 0 <= i < state.invocations@.len() && state.invocations@[i] == found;
        assert(state.invocations@[i].declaration.id == pair.0);
        lemma_unfinished(state, state.invocations@, invocation, false, pair);
        let k = choose|k: int| 0 <= k < all.len() && all[k] == pair;
        assert(ids[k] == found.declaration.id);
    }
    lemma_records_are_few(uncancelled(all));
    lemma_uncancelled_are_few(all);
}

proof fn lemma_records_are_few(affected: Seq<Affected>)
    ensures
        cancel_records(affected, InvocationId::root(), None).len()
            <= affected.len(),
    decreases affected.len(),
{
    if affected.len() > 0 {
        lemma_records_are_few(affected.drop_last());
    }
}

proof fn lemma_uncancelled_are_few(affected: Seq<Affected>)
    ensures
        uncancelled(affected).len() <= affected.len(),
    decreases affected.len(),
{
    if affected.len() > 0 {
        lemma_uncancelled_are_few(affected.drop_last());
    }
}

/// The unfinished under an invocation are exactly those without a result that
/// descend from it.
pub proof fn law_what_is_listed_as_unfinished(
    state: CoordinatorState,
    ancestor: InvocationId,
    itself: bool,
    affected: Vec<Affected>,
    id: InvocationId,
    cancelled: bool,
)
    requires
        call_ensures(unfinished, (&state, ancestor, itself), affected),
    ensures
        affected@.contains((id, cancelled)) <==> exists|i: int|
            0 <= i < state.invocations@.len() && (#[trigger] state.invocations@[i]).declaration.id
                == id && state.invocations@[i].cancelled == cancelled
                && state.invocations@[i].result is None && descends(state, id, ancestor) && (itself
                || id != ancestor),
{
    lemma_unfinished(state, state.invocations@, ancestor, itself, (id, cancelled));
}

/// The invocation that completes next is the first of the stopped ones that
/// no live invocation descends from.
pub proof fn law_which_invocation_is_ready(
    state: CoordinatorState,
    live: LiveInvocations,
    completed: Vec<InvocationId>,
    ready: Option<InvocationId>,
)
    requires
        call_ensures(ready_invocation, (&state, &live, &completed), ready),
    ensures
        ready matches Some(id) ==> completed@.contains(id) && forall|other: u64| #[trigger]
            live@.contains_key(other) ==> other == id.0 || !descends(
                state,
                InvocationId(other),
                id,
            ),
        ready is None ==> forall|i: int|
            0 <= i < completed@.len() ==> has_live_descendant(
                state,
                live@,
                #[trigger] completed@[i],
            ),
{
    let p = may_complete(state, live@);
    lemma_first_where(completed@, p);
    if let Some(id) = ready {
        assert(p(id));
    } else {
        assert forall|i: int| 0 <= i < completed@.len() implies has_live_descendant(
            state,
            live@,
            #[trigger] completed@[i],
        ) by {
            assert(!p(completed@[i]));
        }
    }
}

/// Two chains are the same when they are as long and read alike, in order.
pub proof fn law_when_chains_are_the_same(a: Seq<String>, b: Seq<String>, i: int)
    ensures
        same_texts(a, a),
        same_texts(a, b) ==> a.len() == b.len() && (0 <= i < a.len() ==> a[i]@ == b[i]@),
        a.len() != b.len() ==> !same_texts(a, b),
{
}

// ── Tails and forks ────────────────────────────────────────────────────

/// Tails are read one after another, each behind the events of those before.
pub proof fn law_tails_are_read_in_order(
    replay: ReplayModel,
    tails: Seq<ExecutionTail>,
    next: ExecutionTail,
)
    ensures
        tails_read(replay, Seq::empty()).0 == replay,
        tails_read(replay, Seq::empty()).1.len() == 0,
        tails_read(replay, tails.push(next)).0 == tail_read(tails_read(replay, tails).0, next).0,
        tails_read(replay, tails.push(next)).1 == tails_read(replay, tails).1 + tail_read(
            tails_read(replay, tails).0,
            next,
        ).1,
{
    assert(tails.push(next).drop_last() =~= tails);
}

/// An opened fork stands among the open ones in firing order, in place of the
/// one of its firing; every other stays.
pub proof fn law_where_an_open_fork_stands(
    open: Seq<OpenModel>,
    fork: OpenModel,
    other: OpenModel,
)
    requires
        in_firing_order(open),
    ensures
        with_open(open, fork).contains(fork),
        other.occurrence.firing != fork.occurrence.firing ==> with_open(open, fork).contains(other)
            == open.contains(other),
        with_open(open, fork).len() <= open.len() + 1,
    decreases open.len(),
{
    let all = with_open(open, fork);
    let firing = fork.occurrence.firing.0;
    if open.len() == 0 {
        assert(all[0] == fork);
    } else {
        let first = open.first();
        let rest = open.drop_first();
        assert(open[0] == first);
        assert forall|k: int| 0 <= k < rest.len() implies rest[k] == #[trigger] open[k + 1] by {}
        if firing < first.occurrence.firing.0 {
            assert(all[0] == fork);
            lemma_front(fork, open, other);
        } else if firing == first.occurrence.firing.0 {
            assert(all[0] == fork);
            lemma_front(fork, rest, other);
            lemma_front(first, rest, other);
            assert(seq![first] + rest =~= open);
        } else {
            assert forall|i: int, j: int| 0 <= i < j < rest.len() implies
                rest[i].occurrence.firing.0 < rest[j].occurrence.firing.0 by {
                assert(open[i + 1].occurrence.firing.0 < open[j + 1].occurrence.firing.0);
            }
            law_where_an_open_fork_stands(rest, fork, other);
            lemma_front(first, with_open(rest, fork), other);
            lemma_front(first, with_open(rest, fork), fork);
            lemma_front(first, rest, other);
            assert(seq![first] + rest =~= open);
        }
    }
}

proof fn lemma_front<T>(first: T, rest: Seq<T>, item: T)
    ensures
        (seq![first] + rest).contains(item) <==> item == first || rest.contains(item),
{
    let all = seq![first] + rest;
    assert(all[0] == first);
    if rest.contains(item) {
        let k = choose|k: int| 0 <= k < rest.len() && rest[k] == item;
        assert(all[k + 1] == item);
    }
    if all.contains(item) {
        let k = choose|k: int| 0 <= k < all.len() && all[k] == item;
        if k > 0 {
            assert(rest[k - 1] == item);
        }
    }
}

/// A node's role is the map's, and outside every branch when the map names
/// none; a template fans out from the node the map names.
pub proof fn law_which_role_a_node_has(map: BranchModel, node: NodeId)
    ensures
        lookup(map.roles, node) matches Some(role) ==> map.spec_role(node) == role,
        lookup(map.roles, node) is None ==> map.spec_role(node) is Outside,
        map.spec_expansion_fork(node) == lookup(map.expansions, node),
{
}

/// A fork that was never seen announced is found by its own record: that of
/// the join's generation, or its last when the join has none.
pub proof fn law_how_a_fork_is_recovered(
    map: BranchModel,
    state: EngineState,
    execution: ExecutionId,
    fork: NodeId,
    generation: Option<Generation>,
)
    ensures
        recovered_occurrence(map, state, execution, fork, generation) matches Some(occurrence) ==> {
            let entry = match generation {
                Some(generation) => state.spec_node_record(fork, generation),
                None => state.spec_last_of(fork),
            };
            &&& entry matches Some(record)
            &&& occurrence.execution == execution
            &&& occurrence.firing == record.firing
        },
        generation matches Some(of) ==> (state.spec_node_record(fork, of) is None
            ==> recovered_occurrence(map, state, execution, fork, generation) is None),
        generation is None && state.spec_last_of(fork) is None ==> recovered_occurrence(
            map,
            state,
            execution,
            fork,
            generation,
        ) is None,
{
}

// ── Values ─────────────────────────────────────────────────────────────

/// What is written for a value is the value, with its lists item by item; a
/// whole number that is not negative is written as an unsigned one.
pub proof fn law_what_is_written_for_a_value(value: JsonView, items: Seq<JsonView>, item: JsonView)
    ensures
        value is Null || value is Bool || value is Text ==> written(value) == value,
        value matches JsonView::Number(NumberView::Unsigned(n)) ==> written(value) == value,
        value matches JsonView::Number(NumberView::Negative(n)) ==> (n < 0 ==> written(value)
            == value) && (n >= 0 ==> written(value) == JsonView::Number(
            NumberView::Unsigned(n as u64),
        )),
        written(JsonView::List(items.push(item))) == JsonView::List(
            written_items(items).push(written(item)),
        ),
        written(JsonView::List(items)) == JsonView::List(written_items(items)),
        written_items(Seq::empty()).len() == 0,
{
    assert(items.push(item).drop_last() =~= items);
}

} // verus!

//! What a nested call is given.

use crate::client::{InvocationRequest, InvokeError};
use crate::coordinator::CoordinatorOptions;
use crate::coordinator::gate::slots_of;
use crate::coordinator::leases::LeaseRecord;
use crate::coordinator::live::LiveInvocation;
use crate::coordinator::start::{
    called_by, declared_by, is_outcome, key_of, latest_among, resolves, tells_refusal, StartModel,
    StartOutcome, StartRefusal,
};
use crate::event::{same_bindings, CoordinatorEvent, SandboxBinding, SandboxMode, SecretBindings};
use crate::ids::{ExecutionId, InvocationId};
use crate::json::{keys_distinct, law_value_equals_itself, members_of, same_fields, JsonView};
use crate::laws::leasing::lemma_inherits_a_lease;
use crate::laws::telling::lemma_first_where;
use crate::model::Graph;
use crate::run_state::{CoordinatorState, InvocationState};
use crate::search::first_where;
use vstd::prelude::*;

verus! {

// ── A new child ────────────────────────────────────────────────────────

/// A declared child is what the call asked for: its graph, its context, its
/// secrets and its admission are the request's, its sandbox is of the kind
/// the request named, and its call names the calling attempt and slot.
pub proof fn law_a_new_child_is_what_was_asked_for(
    state: CoordinatorState,
    options: CoordinatorOptions,
    live: Map<u64, LiveInvocation>,
    records: Seq<LeaseRecord>,
    parent: ExecutionId,
    request: InvocationRequest,
    child: Result<Graph, String>,
    next: InvocationId,
    outcome: StartOutcome,
    model: StartModel,
)
    requires
        resolves(state, options, live, records, parent, request, false, child) == Ok::<
            StartModel,
            StartRefusal,
        >(model),
        is_outcome(state, parent, request, next, outcome, model),
        outcome is Declare,
    ensures
        outcome->Declare_invocation == next,
        outcome->event matches CoordinatorEvent::InvocationDeclared {
            invocation,
            call: Some(call),
            graph,
            context,
            secret_bindings,
            sandbox,
            admission,
        } && {
            &&& invocation == next
            &&& call.parent == parent
            &&& call.firing == request.site.firing
            &&& call.attempt == request.site.attempt
            &&& call.slot == request.site.slot
            &&& graph == request.graph
            &&& context == request.context
            &&& secret_bindings == request.secrets
            &&& admission == request.admission
            &&& sandbox is Isolated <==> request.sandbox is Isolated
        },
{
    if let SandboxMode::Inherit { scope } = request.sandbox {
        lemma_inherits_a_lease(state, live, records, parent, scope);
    }
}

/// Whether an invocation is one a declaration declares.
pub open spec fn is_declared(invocation: InvocationState, event: CoordinatorEvent) -> bool {
    event == (CoordinatorEvent::InvocationDeclared {
        invocation: invocation.declaration.id,
        call: invocation.declaration.call,
        graph: invocation.declaration.graph,
        context: invocation.declaration.context,
        secret_bindings: invocation.declaration.secret_bindings,
        sandbox: invocation.declaration.sandbox,
        admission: invocation.declaration.admission,
    })
}

/// The same call made again, once its child is declared, attaches to that
/// child, whatever became of it since and whatever room the run has left.
pub proof fn law_asking_again_attaches(
    state: CoordinatorState,
    options: CoordinatorOptions,
    live: Map<u64, LiveInvocation>,
    records: Seq<LeaseRecord>,
    parent: ExecutionId,
    request: InvocationRequest,
    child: Result<Graph, String>,
    next: InvocationId,
    outcome: StartOutcome,
    model: StartModel,
    declared: InvocationState,
    later: CoordinatorState,
    options_later: CoordinatorOptions,
    live_later: Map<u64, LiveInvocation>,
    records_later: Seq<LeaseRecord>,
    child_later: Result<Graph, String>,
)
    requires
        resolves(state, options, live, records, parent, request, false, child) == Ok::<
            StartModel,
            StartRefusal,
        >(model),
        is_outcome(state, parent, request, next, outcome, model),
        outcome is Declare,
        is_declared(declared, outcome->event),
        later.graphs@ == state.graphs@,
        later.invocations@ == state.invocations@.push(declared),
        keys_distinct(JsonView::Object(members_of(request.context@))),
    ensures
        resolves(
            later,
            options_later,
            live_later,
            records_later,
            parent,
            request,
            false,
            child_later,
        ) == Ok::<StartModel, StartRefusal>(StartModel::Attach { invocation: next }),
{
    law_a_new_child_is_what_was_asked_for(
        state,
        options,
        live,
        records,
        parent,
        request,
        child,
        next,
        outcome,
        model,
    );
    let key = key_of(parent, request);
    let p = |invocation: InvocationState| called_by(invocation, key);
    lemma_pushed(state.invocations@, p, declared);
    assert(p(declared));
    law_value_equals_itself(JsonView::Object(members_of(request.context@)));
    lemma_bindings_equal_themselves(request.secrets);
}

proof fn lemma_bindings_equal_themselves(bindings: SecretBindings)
    ensures
        same_bindings(bindings, bindings),
{
}

proof fn lemma_pushed<T>(s: Seq<T>, p: spec_fn(T) -> bool, item: T)
    requires
        first_where(s, p) is None,
    ensures
        first_where(s.push(item), p) == (if p(item) {
            Some(item)
        } else {
            None
        }),
    decreases s.len(),
{
    let all = s.push(item);
    if s.len() == 0 {
        assert(all.drop_first() =~= Seq::empty());
        assert(all.first() == item);
        reveal_with_fuel(first_where, 2);
    } else {
        lemma_pushed(s.drop_first(), p, item);
        assert(all.drop_first() =~= s.drop_first().push(item));
        assert(all.first() == s.first());
    }
}

// ── An attached call ───────────────────────────────────────────────────

/// Whether an invocation's call is of this attempt at this slot.
pub open spec fn same_attempt(
    invocation: InvocationState,
    parent: ExecutionId,
    request: InvocationRequest,
) -> bool {
    invocation.declaration.call matches Some(call) && call.parent == parent && call.firing
        == request.site.firing && call.attempt == request.site.attempt && call.slot@
        == request.site.slot@
}

/// Whether an invocation's call is of this firing at this slot.
pub open spec fn same_place(
    invocation: InvocationState,
    parent: ExecutionId,
    request: InvocationRequest,
) -> bool {
    invocation.declaration.call matches Some(call) && call.parent == parent && call.firing
        == request.site.firing && call.slot@ == request.site.slot@
}

proof fn lemma_declared(state: CoordinatorState, parent: ExecutionId, request: InvocationRequest)
    ensures
        match declared_by(state, key_of(parent, request)) {
            Some(found) => exists|i: int|
                0 <= i < state.invocations@.len() && #[trigger] state.invocations@[i] == found
                    && same_attempt(found, parent, request),
            None => forall|i: int|
                0 <= i < state.invocations@.len() ==> !same_attempt(
                    #[trigger] state.invocations@[i],
                    parent,
                    request,
                ),
        },
{
    let key = key_of(parent, request);
    lemma_first_where(
        state.invocations@,
        |invocation: InvocationState| called_by(invocation, key),
    );
}

proof fn lemma_latest(
    invocations: Seq<InvocationState>,
    parent: ExecutionId,
    request: InvocationRequest,
)
    ensures
        match latest_among(invocations, key_of(parent, request)) {
            Some((found, attempt)) => same_place(found, parent, request)
                && found.declaration.call->0.attempt == attempt && (exists|i: int|
                0 <= i < invocations.len() && #[trigger] invocations[i] == found) && (forall|
                i: int,
            |
                0 <= i < invocations.len() && same_place(
                    #[trigger] invocations[i],
                    parent,
                    request,
                ) ==> invocations[i].declaration.call->0.attempt.0 <= attempt.0),
            None => forall|i: int|
                0 <= i < invocations.len() ==> !same_place(
                    #[trigger] invocations[i],
                    parent,
                    request,
                ),
        },
    decreases invocations.len(),
{
    if invocations.len() > 0 {
        let rest = invocations.drop_last();
        lemma_latest(rest, parent, request);
        assert forall|i: int| 0 <= i < rest.len() implies rest[i] == #[trigger] invocations[i] by {}
        assert(invocations[invocations.len() - 1] == invocations.last());
        if let Some((found, attempt)) = latest_among(rest, key_of(parent, request)) {
            let i = choose|i: int| 0 <= i < rest.len() && #[trigger] rest[i] == found;
            assert(invocations[i] == found);
        }
    }
}

/// A call that attaches, attaches to the child its own attempt declared, and
/// only when it asks for the same: the same graph, secrets of the same kind,
/// the same gate and width, and a sandbox of the same kind.
pub proof fn law_a_call_attaches_to_its_own_child(
    state: CoordinatorState,
    options: CoordinatorOptions,
    live: Map<u64, LiveInvocation>,
    records: Seq<LeaseRecord>,
    parent: ExecutionId,
    request: InvocationRequest,
    child: Result<Graph, String>,
    invocation: InvocationId,
)
    requires
        resolves(state, options, live, records, parent, request, false, child) == Ok::<
            StartModel,
            StartRefusal,
        >(StartModel::Attach { invocation }),
    ensures
        exists|i: int|
            0 <= i < state.invocations@.len() && same_attempt(
                #[trigger] state.invocations@[i],
                parent,
                request,
            ) && {
                let declared = state.invocations@[i].declaration;
                &&& declared.id == invocation
                &&& declared.graph == request.graph
                &&& same_fields(declared.context@, request.context@)
                &&& declared.secret_bindings is NoSecrets <==> request.secrets is NoSecrets
                &&& declared.secret_bindings is Inherit <==> request.secrets is Inherit
                &&& declared.secret_bindings is Explicit <==> request.secrets is Explicit
                &&& declared.sandbox is Isolated <==> request.sandbox is Isolated
                &&& declared.admission is Some <==> request.admission is Some
                &&& declared.admission is Some ==> declared.admission->0.gate@
                    == request.admission->0.gate@ && declared.admission->0.max_parallel
                    == request.admission->0.max_parallel
            },
{
    lemma_declared(state, parent, request);
}

/// What comes of a call that no child was declared for. While an earlier
/// attempt's child of the same firing and slot is unfinished, the call waits
/// it out; a call of an earlier attempt than the latest is refused. Where
/// every child of the site finished, or there is none, the call declares a
/// child in an isolated sandbox as long as the run has room, and is told the
/// count and the limit when it has none.
pub proof fn law_what_a_new_call_gets(
    state: CoordinatorState,
    options: CoordinatorOptions,
    live: Map<u64, LiveInvocation>,
    records: Seq<LeaseRecord>,
    parent: ExecutionId,
    request: InvocationRequest,
    child: Result<Graph, String>,
)
    requires
        state.graphs@.contains(request.graph),
        forall|i: int|
            0 <= i < state.invocations@.len() ==> !same_attempt(
                #[trigger] state.invocations@[i],
                parent,
                request,
            ),
        state.invocations@.len() <= u64::MAX,
    ensures
        ({
            let resolved = resolves(
                state,
                options,
                live,
                records,
                parent,
                request,
                false,
                child,
            );
            let sites = state.invocations@;
            &&& (exists|i: int|
                0 <= i < sites.len() && same_place(#[trigger] sites[i], parent, request)
                    && sites[i].declaration.call->0.attempt.0 > request.site.attempt.0)
                ==> resolved == Err::<StartModel, StartRefusal>(StartRefusal::RequestMismatch)
            &&& (forall|i: int|
                0 <= i < sites.len() && same_place(#[trigger] sites[i], parent, request) ==> {
                    &&& sites[i].declaration.call->0.attempt.0 <= request.site.attempt.0
                    &&& sites[i].result is None
                }) && (exists|i: int|
                0 <= i < sites.len() && same_place(#[trigger] sites[i], parent, request)) ==> (
            resolved matches Ok(StartModel::Supersede { previous }) && exists|i: int|
                0 <= i < sites.len() && same_place(#[trigger] sites[i], parent, request)
                    && sites[i].declaration.id == previous && sites[i].result is None)
            &&& (forall|i: int|
                0 <= i < sites.len() && same_place(#[trigger] sites[i], parent, request) ==> {
                    &&& sites[i].declaration.call->0.attempt.0 <= request.site.attempt.0
                    &&& sites[i].result is Some
                }) && request.sandbox is Isolated ==> resolved == (if sites.len()
                < options.max_invocations {
                Ok::<StartModel, StartRefusal>(
                    StartModel::Declare { sandbox: SandboxBinding::Isolated },
                )
            } else {
                Err(
                    StartRefusal::InvocationLimit {
                        total: sites.len() as u64,
                        limit: options.max_invocations,
                        parent,
                        firing: request.site.firing,
                        slot: request.site.slot,
                    },
                )
            })
        }),
{
    lemma_declared(state, parent, request);
    lemma_latest(state.invocations@, parent, request);
    if let Some((found, attempt)) = latest_among(state.invocations@, key_of(parent, request)) {
        let i = choose|i: int|
            0 <= i < state.invocations@.len() && #[trigger] state.invocations@[i] == found;
        assert(same_place(state.invocations@[i], parent, request));
    }
}

/// A call is looked at only for a registered graph and a context without
/// secrets, in that order; and one that asks its own child for something
/// else is refused.
pub proof fn law_what_a_call_must_bring(
    state: CoordinatorState,
    options: CoordinatorOptions,
    live: Map<u64, LiveInvocation>,
    records: Seq<LeaseRecord>,
    parent: ExecutionId,
    request: InvocationRequest,
    secret_found: bool,
    child: Result<Graph, String>,
)
    ensures
        ({
            let resolved = resolves(
                state,
                options,
                live,
                records,
                parent,
                request,
                secret_found,
                child,
            );
            &&& !state.graphs@.contains(request.graph) ==> resolved == Err::<
                StartModel,
                StartRefusal,
            >(StartRefusal::UnknownGraph(request.graph))
            &&& state.graphs@.contains(request.graph) && secret_found ==> resolved == Err::<
                StartModel,
                StartRefusal,
            >(StartRefusal::SecretInDurableData)
            &&& (forall|i: int|
                0 <= i < state.invocations@.len() && same_attempt(
                    #[trigger] state.invocations@[i],
                    parent,
                    request,
                ) ==> state.invocations@[i].declaration.graph != request.graph) && (exists|i: int|
                0 <= i < state.invocations@.len() && same_attempt(
                    #[trigger] state.invocations@[i],
                    parent,
                    request,
                )) && state.graphs@.contains(request.graph) && !secret_found ==> resolved == Err::<
                StartModel,
                StartRefusal,
            >(StartRefusal::RequestMismatch)
        }),
{
    lemma_declared(state, parent, request);
}

/// A refusal of the request is told as it is, with what it names.
pub proof fn law_a_refusal_is_told(error: InvokeError, refusal: StartRefusal)
    requires
        tells_refusal(error, refusal),
    ensures
        match refusal {
            StartRefusal::UnknownGraph(digest) => error == InvokeError::UnknownGraph(digest),
            StartRefusal::InvocationLimit { total, limit, parent, firing, slot } => error
                == (InvokeError::InvocationLimit { total, limit, parent, firing, slot }),
            StartRefusal::RequestMismatch => error == InvokeError::RequestMismatch,
            StartRefusal::NoInheritableSandbox => error == InvokeError::NoInheritableSandbox,
            StartRefusal::InheritedContainerMismatch { scope } => error
                == (InvokeError::InheritedContainerMismatch { scope }),
            StartRefusal::SecretInDurableData => error matches InvokeError::Coordinator(told)
                && told@ == "a resolved secret appears in durable invocation data"@,
            StartRefusal::Unreadable(reason) => error matches InvokeError::Coordinator(told)
                && told@ == reason@,
            StartRefusal::Resource(_) => error is Coordinator,
        },
{
}

// ── The fork's width ───────────────────────────────────────────────────

/// A fork's gate is as wide as the fork was declared, and never closed: one
/// slot where it was declared with none, and never more than it was declared
/// with otherwise.
pub proof fn law_a_gate_is_as_wide_as_declared(width: u32)
    ensures
        slots_of(width) >= 1,
        width >= 1 ==> slots_of(width) == width,
        width == 0 ==> slots_of(width) == 1,
{
}

} // verus!

//! Execution middleware: the state each keeps, the trace of what it changed,
//! and the events its state folds over.

use crate::event::MiddlewareState;
use crate::ids::{Attempt, EdgeId, ExecutionId, FiringId, InvocationId, NodeId};
use crate::json::{share, Json};
use crate::model::{same_outcome, EdgeTransition, Outcome};
use crate::ordered::{
    before, find, held, law_one_comes_first, lemma_held_somewhere, lemma_ordered_held, ordered, put,
};
use crate::record::{
    Admission, DecisionId, Event, EventRecord, GroupDecision, Intervention, RouteApplied,
    RouteDecision,
};
use crate::search::last_where;
use crate::state::{EngineState, HistoryEntry};
use crate::text::{decimal, join3, number};
use crate::writer::ObserveError;
use std::sync::Arc;
use vstd::prelude::*;
use vstd::string::*;

verus! {

/// What a middleware's state folds over.
#[allow(inconsistent_fields)]
#[derive(Debug)]
pub enum FoldEvent {
    ExecutionStarted,
    FinalOutcome { firing: FiringId, node: NodeId, outcome: Arc<Outcome> },
    RouteApplied { firing: FiringId, decision: RouteDecision },
}

/// The decision a middleware is asked about.
#[derive(Clone, Copy, Debug, PartialEq, Eq, Structural)]
pub struct DecisionAddress {
    pub invocation: InvocationId,
    pub execution: ExecutionId,
    pub decision: DecisionId,
}

/// Why a middleware cannot go on.
#[derive(Debug)]
pub struct MiddlewareError {
    message: String,
}

impl MiddlewareError {
    /// What the error says.
    pub closed spec fn says(&self) -> Seq<char> {
        self.message@
    }

    pub fn new(message: String) -> (error: MiddlewareError)
        ensures
            error.says() == message@,
    {
        MiddlewareError { message }
    }

    /// What the error says.
    pub fn message(&self) -> (message: &String)
        ensures
            message@ == self.says(),
    {
        &self.message
    }
}

/// One configured middleware: its key, the version of its state and the
/// state it starts with.
#[derive(Debug)]
pub struct MiddlewareEntry {
    pub key: String,
    pub state_version: u32,
    pub initial_state: Json,
}

/// The last middleware of a chain under a key.
pub open spec fn entry_under(chain: Seq<MiddlewareEntry>, key: Seq<char>) -> Option<
    MiddlewareEntry,
>
    decreases chain.len(),
{
    if chain.len() == 0 {
        None
    } else if chain.last().key@ == key {
        Some(chain.last())
    } else {
        entry_under(chain.drop_last(), key)
    }
}

/// Whether no two middlewares of a chain share a key.
pub open spec fn keys_differ(chain: Seq<MiddlewareEntry>) -> bool {
    forall|i: int, j: int|
        0 <= i < j < chain.len() ==> (#[trigger] chain[i]).key@ != (#[trigger] chain[j]).key@
}

/// The state an entry contributes.
pub open spec fn initial_of(entry: Option<MiddlewareEntry>) -> Option<(u32, Json)> {
    match entry {
        Some(entry) => Some((entry.state_version, entry.initial_state)),
        None => None,
    }
}

proof fn lemma_not_under(chain: Seq<MiddlewareEntry>, key: Seq<char>)
    requires
        forall|i: int| 0 <= i < chain.len() ==> (#[trigger] chain[i]).key@ != key,
    ensures
        entry_under(chain, key) is None,
    decreases chain.len(),
{
    if chain.len() > 0 {
        assert(chain[chain.len() - 1].key@ != key);
        lemma_not_under(chain.drop_last(), key);
    }
}

/// The state a chain starts with: every middleware's own, by key.
pub fn initial_middleware_state(chain: &Vec<MiddlewareEntry>) -> (state: MiddlewareState)
    ensures
        ordered(state@),
        forall|key: Seq<char>|
            #![trigger held(state@, key)]
            held(state@, key) == initial_of(entry_under(chain@, key)),
        keys_differ(chain@) ==> state@.len() == chain@.len(),
{
    let mut state: Vec<(String, (u32, Json))> = Vec::new();
    let mut i: usize = 0;
    while i < chain.len()
        invariant
            i <= chain.len(),
            ordered(state@),
            forall|key: Seq<char>|
                #![trigger held(state@, key)]
                held(state@, key) == initial_of(entry_under(chain@.take(i as int), key)),
            keys_differ(chain@) ==> state@.len() == i,
        decreases chain.len() - i,
    {
        let ghost was = state@;
        let ghost done = chain@.take(i as int);
        let ghost next = chain@.take(i + 1);
        assert(next.drop_last() =~= done);
        assert(next.last() == chain@[i as int]);
        proof {
            if keys_differ(chain@) {
                let key = chain@[i as int].key@;
                assert forall|j: int| 0 <= j < done.len() implies (#[trigger] done[j]).key@
                    != key by {
                    assert(done[j] == chain@[j]);
                }
                lemma_not_under(done, key);
                assert(held(was, key) is None);
            }
        }
        let entry = &chain[i];
        put(&mut state, entry.key.clone(), (entry.state_version, entry.initial_state.clone()));
        proof {
            assert forall|key: Seq<char>|
                #![trigger held(state@, key)]
                held(state@, key) == initial_of(entry_under(next, key)) by {
                if key != chain@[i as int].key@ {
                    assert(held(was, key) == initial_of(entry_under(done, key)));
                }
            }
        }
        i = i + 1;
    }
    assert(chain@.take(i as int) =~= chain@);
    Arc::new(state)
}

/// What is said of a key whose state is missing.
pub open spec fn missing_message(key: Seq<char>) -> Seq<char> {
    "middleware state for `"@ + key + "` is missing"@
}

/// What is said of a key whose state has another version.
pub open spec fn version_message(key: Seq<char>, found: u32, expected: u32) -> Seq<char> {
    "middleware `"@ + key + "` state version is "@ + decimal(found as nat) + "; expected "@
        + decimal(expected as nat)
}

fn missing(key: &String) -> (error: MiddlewareError)
    ensures
        error.says() == missing_message(key@),
{
    MiddlewareError::new(join3("middleware state for `", key.as_str(), "` is missing"))
}

/// Why a state does not fit a chain from its `from`-th middleware on: the
/// first whose state is missing or has another version, then a key the chain
/// does not configure.
pub open spec fn state_refused(
    chain: Seq<MiddlewareEntry>,
    state: Seq<(String, (u32, Json))>,
    from: int,
) -> Option<Seq<char>>
    decreases chain.len() - from,
{
    if from < 0 || from >= chain.len() {
        if state.len() != chain.len() {
            Some("middleware state contains an unconfigured key"@)
        } else {
            None
        }
    } else {
        match held(state, chain[from].key@) {
            None => Some(missing_message(chain[from].key@)),
            Some(entry) => if entry.0 != chain[from].state_version {
                Some(version_message(chain[from].key@, entry.0, chain[from].state_version))
            } else {
                state_refused(chain, state, from + 1)
            },
        }
    }
}

/// Whether a state fits a chain: every middleware of the chain has a state
/// of its own version, and nothing else has one.
pub fn validate_middleware_state(chain: &Vec<MiddlewareEntry>, state: &MiddlewareState) -> (checked:
    Result<(), MiddlewareError>)
    ensures
        match checked {
            Ok(()) => state_refused(chain@, state@, 0) is None,
            Err(error) => state_refused(chain@, state@, 0) == Some(error.says()),
        },
{
    let mut i: usize = 0;
    while i < chain.len()
        invariant
            i <= chain.len(),
            state_refused(chain@, state@, 0) == state_refused(chain@, state@, i as int),
        decreases chain.len() - i,
    {
        let entry = &chain[i];
        match find(state, &entry.key) {
            None => {
                return Err(missing(&entry.key));
            },
            Some(found) => {
                if found.0 != entry.state_version {
                    let text = join3("middleware `", entry.key.as_str(), "` state version is ");
                    let text = text.concat(number(found.0 as u64).as_str()).concat("; expected ");
                    return Err(
                        MiddlewareError::new(text.concat(number(entry.state_version as u64).as_str())),
                    );
                }
            },
        }
        i = i + 1;
    }
    if state.len() != chain.len() {
        return Err(
            MiddlewareError::new("middleware state contains an unconfigured key".to_owned()),
        );
    }
    Ok(())
}

/// Whether every middleware of a chain has a state of its own version.
pub open spec fn configured(chain: Seq<MiddlewareEntry>, state: Seq<(String, (u32, Json))>) -> bool {
    forall|i: int|
        0 <= i < chain.len() ==> (held(state, (#[trigger] chain[i]).key@) matches Some(entry)
            && entry.0 == chain[i].state_version)
}

proof fn lemma_accepted(chain: Seq<MiddlewareEntry>, state: Seq<(String, (u32, Json))>, from: int)
    requires
        0 <= from <= chain.len(),
        state_refused(chain, state, from) is None,
    ensures
        forall|i: int|
            from <= i < chain.len() ==> (held(state, (#[trigger] chain[i]).key@) matches Some(entry)
                && entry.0 == chain[i].state_version),
        state.len() == chain.len(),
    decreases chain.len() - from,
{
    if from < chain.len() {
        lemma_accepted(chain, state, from + 1);
    }
}

proof fn lemma_fits(chain: Seq<MiddlewareEntry>, state: Seq<(String, (u32, Json))>, from: int)
    requires
        0 <= from <= chain.len(),
        configured(chain, state),
        state.len() == chain.len(),
    ensures
        state_refused(chain, state, from) is None,
    decreases chain.len() - from,
{
    if from < chain.len() {
        assert(held(state, chain[from].key@) is Some);
        lemma_fits(chain, state, from + 1);
    }
}

proof fn lemma_under_at(chain: Seq<MiddlewareEntry>, i: int)
    requires
        0 <= i < chain.len(),
        keys_differ(chain),
    ensures
        entry_under(chain, chain[i].key@) == Some(chain[i]),
    decreases chain.len(),
{
    if i < chain.len() - 1 {
        assert(chain[i].key@ != chain[chain.len() - 1].key@);
        let rest = chain.drop_last();
        assert(keys_differ(rest)) by {
            assert forall|a: int, b: int| 0 <= a < b < rest.len() implies (#[trigger] rest[a]).key@
                != (#[trigger] rest[b]).key@ by {
                assert(chain[a].key@ != chain[b].key@);
            }
        }
        lemma_under_at(rest, i);
    }
}

/// The keys of a chain, in order.
pub open spec fn chain_keys(chain: Seq<MiddlewareEntry>) -> Seq<Seq<char>> {
    Seq::new(chain.len(), |i: int| chain[i].key@)
}

/// The keys of a state, in order.
pub open spec fn state_keys(state: Seq<(String, (u32, Json))>) -> Seq<Seq<char>> {
    Seq::new(state.len(), |i: int| state[i].0@)
}

proof fn lemma_chain_keys(chain: Seq<MiddlewareEntry>)
    ensures
        keys_differ(chain) <==> chain_keys(chain).no_duplicates(),
        keys_differ(chain) <==> chain_keys(chain).to_set().len() == chain.len(),
        chain_keys(chain).to_set().finite(),
{
    let keys = chain_keys(chain);
    vstd::seq_lib::seq_to_set_is_finite(keys);
    if keys_differ(chain) {
        assert forall|i: int, j: int|
            0 <= i < keys.len() && 0 <= j < keys.len() && i != j implies keys[i] != keys[j] by {
            if i < j {
                assert(chain[i].key@ != chain[j].key@);
            } else {
                assert(chain[j].key@ != chain[i].key@);
            }
        }
    }
    if keys.no_duplicates() {
        assert forall|i: int, j: int| 0 <= i < j < chain.len() implies (#[trigger] chain[i]).key@
            != (#[trigger] chain[j]).key@ by {
            assert(keys[i] != keys[j]);
        }
        keys.unique_seq_to_set();
    }
    if keys.to_set().len() == keys.len() {
        keys.lemma_no_dup_set_cardinality();
    }
}

proof fn lemma_state_keys(state: Seq<(String, (u32, Json))>)
    requires
        ordered(state),
    ensures
        state_keys(state).to_set().len() == state.len(),
        state_keys(state).to_set().finite(),
        forall|key: Seq<char>| #[trigger]
            state_keys(state).to_set().contains(key) <==> held(state, key) is Some,
{
    let keys = state_keys(state);
    vstd::seq_lib::seq_to_set_is_finite(keys);
    assert forall|i: int, j: int|
        0 <= i < keys.len() && 0 <= j < keys.len() && i != j implies keys[i] != keys[j] by {
        law_one_comes_first(keys[i], keys[j]);
        if i < j {
            assert(before(state[i].0@, state[j].0@));
        } else {
            assert(before(state[j].0@, state[i].0@));
        }
    }
    keys.unique_seq_to_set();
    assert forall|key: Seq<char>| #[trigger]
        keys.to_set().contains(key) <==> held(state, key) is Some by {
        if keys.to_set().contains(key) {
            let i = choose|i: int| 0 <= i < keys.len() && keys[i] == key;
            assert(state[i].0@ == key);
            lemma_ordered_held(state, i);
        }
        if held(state, key) is Some {
            let i = lemma_held_somewhere(state, key);
            assert(keys[i] == key);
            assert(keys.contains(key));
        }
    }
}

proof fn lemma_under_of(chain: Seq<MiddlewareEntry>, key: Seq<char>)
    ensures
        entry_under(chain, key) is Some <==> chain_keys(chain).to_set().contains(key),
    decreases chain.len(),
{
    let keys = chain_keys(chain);
    if chain.len() > 0 {
        let rest = chain.drop_last();
        lemma_under_of(rest, key);
        if chain_keys(rest).contains(key) {
            let i = choose|i: int| 0 <= i < rest.len() && chain_keys(rest)[i] == key;
            assert(keys[i] == key);
        }
        if keys.contains(key) && chain.last().key@ != key {
            let i = choose|i: int| 0 <= i < keys.len() && keys[i] == key;
            assert(chain_keys(rest)[i] == key);
            assert(chain_keys(rest).contains(key));
        }
        if chain.last().key@ == key {
            assert(keys[chain.len() - 1] == key);
            assert(keys.contains(key));
        }
    }
}

/// The state a chain starts with fits that chain exactly when no two of its
/// middlewares share a key: a chain with a repeated key refuses its own
/// initial state.
pub proof fn law_initial_state_is_valid(
    chain: Seq<MiddlewareEntry>,
    state: Seq<(String, (u32, Json))>,
)
    requires
        ordered(state),
        forall|key: Seq<char>|
            #![trigger held(state, key)]
            held(state, key) == initial_of(entry_under(chain, key)),
    ensures
        state_refused(chain, state, 0) is None <==> keys_differ(chain),
{
    let named = chain_keys(chain).to_set();
    let kept = state_keys(state).to_set();
    lemma_chain_keys(chain);
    lemma_state_keys(state);
    assert forall|key: Seq<char>| named.contains(key) == kept.contains(key) by {
        lemma_under_of(chain, key);
        assert(held(state, key) == initial_of(entry_under(chain, key)));
    }
    assert(named =~= kept);
    if keys_differ(chain) {
        assert forall|i: int| 0 <= i < chain.len() implies (held(
            state,
            (#[trigger] chain[i]).key@,
        ) matches Some(entry) && entry.0 == chain[i].state_version) by {
            lemma_under_at(chain, i);
            assert(held(state, chain[i].key@) == initial_of(entry_under(chain, chain[i].key@)));
        }
        lemma_fits(chain, state, 0);
    } else if state_refused(chain, state, 0) is None {
        lemma_accepted(chain, state, 0);
    }
}

/// A state that holds a key no middleware of the chain has is refused, as
/// long as no two of the middlewares share a key.
pub proof fn law_unconfigured_key_is_refused(
    chain: Seq<MiddlewareEntry>,
    state: Seq<(String, (u32, Json))>,
    key: Seq<char>,
)
    requires
        keys_differ(chain),
        ordered(state),
        held(state, key) is Some,
        forall|i: int| 0 <= i < chain.len() ==> (#[trigger] chain[i]).key@ != key,
    ensures
        state_refused(chain, state, 0) is Some,
{
    if state_refused(chain, state, 0) is None {
        let named = chain_keys(chain).to_set();
        let kept = state_keys(state).to_set();
        lemma_accepted(chain, state, 0);
        lemma_chain_keys(chain);
        lemma_state_keys(state);
        assert forall|other: Seq<char>| named.contains(other) implies kept.contains(other) by {
            let i = choose|i: int|
                0 <= i < chain.len() && #[trigger] chain_keys(chain)[i] == other;
            assert(held(state, chain[i].key@) is Some);
        }
        vstd::set_lib::lemma_subset_equality(named, kept);
        assert(kept.contains(key));
        let i = choose|i: int| 0 <= i < chain.len() && #[trigger] chain_keys(chain)[i] == key;
        assert(chain[i].key@ == key);
    }
}

/// A state that fits a chain has one of the right version for every
/// middleware, and no others.
pub proof fn law_valid_state_is_complete(
    chain: Seq<MiddlewareEntry>,
    state: Seq<(String, (u32, Json))>,
)
    ensures
        state_refused(chain, state, 0) is None <==> configured(chain, state) && state.len()
            == chain.len(),
{
    if state_refused(chain, state, 0) is None {
        lemma_accepted(chain, state, 0);
    } else if configured(chain, state) && state.len() == chain.len() {
        lemma_fits(chain, state, 0);
    }
}

/// One execution's middleware chain and the state it keeps.
#[derive(Debug)]
pub struct MiddlewarePipeline {
    invocation: InvocationId,
    execution: ExecutionId,
    chain: Vec<MiddlewareEntry>,
    state: MiddlewareState,
}

impl MiddlewarePipeline {
    /// The chain, outermost first.
    pub closed spec fn entries(&self) -> Seq<MiddlewareEntry> {
        self.chain@
    }

    /// What every middleware's state is.
    pub closed spec fn states(&self) -> Seq<(String, (u32, Json))> {
        self.state@
    }

    /// The invocation and the execution the chain serves.
    pub closed spec fn serves(&self) -> (InvocationId, ExecutionId) {
        (self.invocation, self.execution)
    }

    /// Every middleware has a state of its own version.
    pub closed spec fn wf(&self) -> bool {
        ordered(self.state@) && configured(self.chain@, self.state@)
    }

    /// Bind a chain and its state to an execution. A state that does not fit
    /// the chain is refused.
    pub fn new(
        invocation: InvocationId,
        execution: ExecutionId,
        chain: Vec<MiddlewareEntry>,
        state: MiddlewareState,
    ) -> (pipeline: Result<MiddlewarePipeline, MiddlewareError>)
        requires
            ordered(state@),
        ensures
            match pipeline {
                Ok(pipeline) => {
                    &&& state_refused(chain@, state@, 0) is None
                    &&& pipeline.wf()
                    &&& pipeline.serves() == (invocation, execution)
                    &&& pipeline.entries() == chain@
                    &&& pipeline.states() == state@
                },
                Err(error) => state_refused(chain@, state@, 0) == Some(error.says()),
            },
    {
        match validate_middleware_state(&chain, &state) {
            Ok(()) => {
                proof {
                    law_valid_state_is_complete(chain@, state@);
                }
                Ok(MiddlewarePipeline { invocation, execution, chain, state })
            },
            Err(error) => Err(error),
        }
    }

    /// The state of every middleware, as it is now.
    pub fn checkpoint(&self) -> (state: MiddlewareState)
        ensures
            state@ == self.states(),
    {
        share(&self.state)
    }

    /// The address of a decision of the chain's execution.
    pub fn address(&self, decision: DecisionId) -> (address: DecisionAddress)
        ensures
            (address.invocation, address.execution) == self.serves(),
            address.decision == decision,
    {
        DecisionAddress { invocation: self.invocation, execution: self.execution, decision }
    }

    /// How many middlewares the chain has.
    pub fn len(&self) -> (len: usize)
        ensures
            len == self.entries().len(),
    {
        self.chain.len()
    }

    /// The state a middleware of the chain is called with.
    pub fn read_state(&self, at: usize) -> (state: Json)
        requires
            self.wf(),
            at < self.entries().len(),
        ensures
            held(self.states(), self.entries()[at as int].key@) matches Some(entry) && entry.1
                == state,
    {
        assert(held(self.state@, self.chain@[at as int].key@) is Some);
        match find(&self.state, &self.chain[at].key) {
            Some(entry) => entry.1.clone(),
            None => Json::Null,
        }
    }

    /// Keep the state a middleware's fold left behind.
    pub fn keep_state(&mut self, at: usize, value: Json)
        requires
            old(self).wf(),
            at < old(self).entries().len(),
        ensures
            final(self).wf(),
            final(self).serves() == old(self).serves(),
            final(self).entries() == old(self).entries(),
            final(self).states().len() == old(self).states().len(),
            ({
                let key = old(self).entries()[at as int].key@;
                &&& held(final(self).states(), key) == Some(
                    (old(self).entries()[at as int].state_version, value),
                )
                &&& forall|other: Seq<char>|
                    other != key ==> #[trigger] held(final(self).states(), other) == held(
                        old(self).states(),
                        other,
                    )
            }),
    {
        let ghost was = self.state@;
        let mut state = copy_states(&self.state);
        assert(held(was, self.chain@[at as int].key@) is Some);
        let key = self.chain[at].key.clone();
        let version = self.chain[at].state_version;
        put(&mut state, key, (version, value));
        self.state = Arc::new(state);
        proof {
            let now = self.state@;
            assert forall|i: int| 0 <= i < self.chain@.len() implies (held(
                now,
                (#[trigger] self.chain@[i]).key@,
            ) matches Some(entry) && entry.0 == self.chain@[i].state_version) by {
                let other = self.chain@[i].key@;
                if other != self.chain@[at as int].key@ {
                    assert(held(now, other) == held(was, other));
                } else {
                    assert(held(was, other) is Some);
                }
            }
        }
    }
}

fn copy_states(state: &Vec<(String, (u32, Json))>) -> (copy: Vec<(String, (u32, Json))>)
    ensures
        copy@ == state@,
{
    let mut copy: Vec<(String, (u32, Json))> = Vec::new();
    let mut i: usize = 0;
    while i < state.len()
        invariant
            i <= state.len(),
            copy@ == state@.take(i as int),
        decreases state.len() - i,
    {
        let entry = &state[i];
        copy.push((entry.0.clone(), (entry.1.0, entry.1.1.clone())));
        assert(copy@ =~= state@.take(i + 1));
        i = i + 1;
    }
    assert(copy@ =~= state@);
    copy
}

/// Whether two admissions are the same.
pub open spec fn same_admit(a: Admission, b: Admission) -> bool {
    match (a, b) {
        (Admission::Admit, Admission::Admit) => true,
        (Admission::Skip { outcome: a }, Admission::Skip { outcome: b }) => same_outcome(*a, *b),
        (Admission::Block { reason: a }, Admission::Block { reason: b }) => a@ == b@,
        _ => false,
    }
}

/// Whether two route decisions are the same.
pub open spec fn same_route(a: RouteDecision, b: RouteDecision) -> bool {
    match (a, b) {
        (RouteDecision::Emit(a), RouteDecision::Emit(b)) => a == b,
        (RouteDecision::Jump(a), RouteDecision::Jump(b)) => a == b,
        (RouteDecision::Nothing, RouteDecision::Nothing) => true,
        (RouteDecision::Block { reason: a }, RouteDecision::Block { reason: b }) => a@ == b@,
        _ => false,
    }
}

fn admits_match(a: &Admission, b: &Admission) -> (same: bool)
    ensures
        same == same_admit(*a, *b),
{
    match (a, b) {
        (Admission::Admit, Admission::Admit) => true,
        (Admission::Skip { outcome: a }, Admission::Skip { outcome: b }) => a.same(b),
        (Admission::Block { reason: a }, Admission::Block { reason: b }) => *a == *b,
        _ => false,
    }
}

fn routes_match(a: &RouteDecision, b: &RouteDecision) -> (same: bool)
    ensures
        same == same_route(*a, *b),
{
    match (a, b) {
        (RouteDecision::Emit(a), RouteDecision::Emit(b)) => *a == *b,
        (RouteDecision::Jump(a), RouteDecision::Jump(b)) => *a == *b,
        (RouteDecision::Nothing, RouteDecision::Nothing) => true,
        (RouteDecision::Block { reason: a }, RouteDecision::Block { reason: b }) => *a == *b,
        _ => false,
    }
}

/// What a chain, or the rest of one, admits, and the middlewares that had a
/// hand in it.
#[derive(Debug)]
pub struct PipelineAdmission {
    pub decision: Admission,
    pub trace: Vec<String>,
}

/// What a chain, or the rest of one, routes, and what its middlewares did.
#[derive(Debug)]
pub struct PipelineRoute {
    pub decision: RouteDecision,
    pub trace: Vec<Intervention>,
}

/// The trace below a middleware, with the middleware in front when the
/// decision is its own.
pub open spec fn traced<T>(below: Option<Seq<T>>, kept: bool, mark: T) -> Seq<T> {
    match below {
        Some(below) => if kept {
            below
        } else {
            seq![mark] + below
        },
        None => seq![mark],
    }
}

/// What the end of every chain admits.
pub fn baseline_admission() -> (admission: PipelineAdmission)
    ensures
        admission.decision is Admit,
        admission.trace@ == Seq::<String>::empty(),
{
    PipelineAdmission { decision: Admission::Admit, trace: Vec::new() }
}

/// What a chain admits once one of its middlewares answered: `downstream` is
/// what the rest of the chain last said to it, when it asked. A middleware
/// is traced when it did not pass that on.
pub fn answered_admission(
    key: String,
    decision: Admission,
    downstream: Option<PipelineAdmission>,
) -> (admission: PipelineAdmission)
    ensures
        admission.decision == decision,
        admission.trace@ == (match downstream {
            Some(below) => traced(
                Some(below.trace@),
                same_admit(below.decision, decision),
                key,
            ),
            None => traced(None, false, key),
        }),
{
    match downstream {
        Some(below) => {
            let mut trace = below.trace;
            if !admits_match(&below.decision, &decision) {
                trace.insert(0, key);
                assert(trace@ =~= seq![key] + below.trace@);
            }
            PipelineAdmission { decision, trace }
        },
        None => {
            let mut trace: Vec<String> = Vec::new();
            trace.push(key);
            assert(trace@ =~= seq![key]);
            PipelineAdmission { decision, trace }
        },
    }
}

/// What is said where a middleware selected no route.
pub const NO_ROUTE: &'static str = "middleware selected no route";

/// What a middleware did to a decision.
pub open spec fn intervenes(done: Intervention, key: String, decision: RouteDecision) -> bool {
    match decision {
        RouteDecision::Emit(edge) => done == (Intervention::Override { middleware: key, edge }),
        RouteDecision::Jump(target) => done == (Intervention::Jump { middleware: key, target }),
        RouteDecision::Block { reason } => done == (Intervention::Block { middleware: key, reason }),
        RouteDecision::Nothing => {
            &&& done matches Intervention::Block { middleware, reason }
            &&& middleware == key
            &&& reason@ == NO_ROUTE@
        },
    }
}

/// What a middleware did to a decision.
pub fn intervention(key: String, decision: &RouteDecision) -> (done: Intervention)
    ensures
        intervenes(done, key, *decision),
{
    match decision {
        RouteDecision::Emit(edge) => Intervention::Override { middleware: key, edge: *edge },
        RouteDecision::Jump(target) => Intervention::Jump { middleware: key, target: *target },
        RouteDecision::Block { reason } => Intervention::Block {
            middleware: key,
            reason: reason.clone(),
        },
        RouteDecision::Nothing => Intervention::Block {
            middleware: key,
            reason: NO_ROUTE.to_owned(),
        },
    }
}

/// Whether a route is what a chain routes once one of its middlewares
/// decided, given what the rest of the chain last said to it.
pub open spec fn answers_route(
    route: PipelineRoute,
    key: String,
    decision: RouteDecision,
    downstream: Option<PipelineRoute>,
) -> bool {
    let kept = downstream matches Some(below) && same_route(below.decision, decision);
    let below = match downstream {
        Some(below) => Some(below.trace@),
        None => None,
    };
    &&& route.decision == decision
    &&& kept ==> Some(route.trace@) == below
    &&& !kept ==> {
        &&& route.trace@.len() > 0
        &&& intervenes(route.trace@[0], key, decision)
        &&& route.trace@ == traced(below, false, route.trace@[0])
    }
}

/// What a chain routes once one of its middlewares answered: `downstream` is
/// what the rest of the chain last said to it, when it asked. A middleware
/// is traced when it did not pass that on.
pub fn answered_route(
    key: String,
    decision: RouteDecision,
    downstream: Option<PipelineRoute>,
) -> (route: PipelineRoute)
    ensures
        answers_route(route, key, decision, downstream),
{
    match downstream {
        Some(below) => {
            let mut trace = below.trace;
            if !routes_match(&below.decision, &decision) {
                let done = intervention(key, &decision);
                trace.insert(0, done);
                assert(trace@[0] == done);
                assert(trace@ =~= seq![done] + below.trace@);
            }
            PipelineRoute { decision, trace }
        },
        None => {
            let mut trace: Vec<Intervention> = Vec::new();
            let done = intervention(key, &decision);
            trace.push(done);
            assert(trace@ =~= seq![done]);
            PipelineRoute { decision, trace }
        },
    }
}

/// One middleware's answer: its key, what it decided, and whether it asked
/// the rest of the chain.
pub struct AdmitAnswer {
    pub key: String,
    pub decision: Admission,
    pub asked: bool,
}

/// What a chain of answers admits from its `from`-th on, and the trace.
pub open spec fn chain_admits(answers: Seq<AdmitAnswer>, from: int) -> (Admission, Seq<String>)
    decreases answers.len() - from,
{
    if from < 0 || from >= answers.len() {
        (Admission::Admit, Seq::empty())
    } else {
        let below = chain_admits(answers, from + 1);
        let answer = answers[from];
        (
            answer.decision,
            if answer.asked {
                traced(Some(below.1), same_admit(below.0, answer.decision), answer.key)
            } else {
                traced(None, false, answer.key)
            },
        )
    }
}

/// An attempt whose admission no middleware is traced in is admitted.
pub proof fn law_untraced_means_admitted(answers: Seq<AdmitAnswer>, from: int)
    requires
        0 <= from <= answers.len(),
        chain_admits(answers, from).1.len() == 0,
    ensures
        chain_admits(answers, from).0 is Admit,
    decreases answers.len() - from,
{
    if from < answers.len() {
        law_untraced_means_admitted(answers, from + 1);
    }
}

/// A trace names only middlewares of the chain, each at most once and in
/// their order.
pub proof fn law_trace_follows_the_chain(answers: Seq<AdmitAnswer>, from: int) -> (places: Seq<int>)
    requires
        0 <= from <= answers.len(),
    ensures
        places.len() == chain_admits(answers, from).1.len(),
        forall|i: int|
            0 <= i < places.len() ==> from <= #[trigger] places[i] < answers.len() && chain_admits(
                answers,
                from,
            ).1[i] == answers[places[i]].key,
        forall|i: int, j: int|
            0 <= i < j < places.len() ==> #[trigger] places[i] < #[trigger] places[j],
    decreases answers.len() - from,
{
    if from >= answers.len() {
        Seq::empty()
    } else {
        let below = law_trace_follows_the_chain(answers, from + 1);
        let answer = answers[from];
        if !answer.asked {
            seq![from]
        } else if same_admit(chain_admits(answers, from + 1).0, answer.decision) {
            below
        } else {
            let places = seq![from] + below;
            let trace = chain_admits(answers, from).1;
            assert forall|i: int| 0 <= i < places.len() implies from <= #[trigger] places[i]
                < answers.len() && trace[i] == answers[places[i]].key by {
                if i > 0 {
                    assert(places[i] == below[i - 1]);
                }
            }
            assert forall|i: int, j: int| 0 <= i < j < places.len() implies #[trigger] places[i]
                < #[trigger] places[j] by {
                assert(places[j] == below[j - 1]);
                if i > 0 {
                    assert(places[i] == below[i - 1]);
                }
            }
            places
        }
    }
}

/// A route no middleware is traced in is the one that was proposed.
/// `routes[i]` is what the chain routes from its `i`-th middleware on, which
/// asked the rest of the chain or did not; the last is the proposal.
pub proof fn law_untraced_route_is_the_proposed(
    routes: Seq<PipelineRoute>,
    keys: Seq<String>,
    asked: Seq<bool>,
)
    requires
        routes.len() == keys.len() + 1,
        asked.len() == keys.len(),
        forall|i: int|
            0 <= i < keys.len() ==> answers_route(
                #[trigger] routes[i],
                keys[i],
                routes[i].decision,
                if asked[i] {
                    Some(routes[i + 1])
                } else {
                    None
                },
            ),
        routes[0].trace@.len() == 0,
    ensures
        same_route(routes.last().decision, routes[0].decision),
    decreases keys.len(),
{
    if keys.len() > 0 {
        let rest = routes.drop_first();
        assert(answers_route(
            routes[0],
            keys[0],
            routes[0].decision,
            if asked[0] {
                Some(routes[1])
            } else {
                None
            },
        ));
        assert forall|i: int| 0 <= i < keys.drop_first().len() implies answers_route(
            #[trigger] rest[i],
            keys.drop_first()[i],
            rest[i].decision,
            if asked.drop_first()[i] {
                Some(rest[i + 1])
            } else {
                None
            },
        ) by {
            assert(rest[i] == routes[i + 1]);
        }
        law_untraced_route_is_the_proposed(rest, keys.drop_first(), asked.drop_first());
    }
}

/// One edge a routing group may lead over.
#[derive(Clone, Copy, Debug, PartialEq, Eq, Structural)]
pub struct RouteCandidate {
    pub edge: EdgeId,
    pub transition: EdgeTransition,
}

/// A routing group and the edges it may lead over.
#[derive(Debug)]
pub struct RoutingProposal {
    pub group: u32,
    pub candidates: Vec<RouteCandidate>,
}

/// Whether a proposal's edge restarts the execution.
pub open spec fn restarts(proposal: RoutingProposal, edge: EdgeId) -> bool {
    proposal.candidates@.contains(RouteCandidate { edge, transition: EdgeTransition::Restart })
}

/// What is said where an invocation may not have another execution.
pub const RESTART_LIMIT: &'static str = "maximum executions per invocation reached";

/// Whether a decision would restart an execution that may not restart.
pub open spec fn over_the_limit(
    restart_allowed: bool,
    proposal: RoutingProposal,
    decision: RouteDecision,
) -> bool {
    !restart_allowed && (decision matches RouteDecision::Emit(edge) && restarts(proposal, edge))
}

/// The decision, unless it would restart an execution that may not restart:
/// then the group is blocked.
pub fn enforce_restart_limit(
    restart_allowed: bool,
    proposal: &RoutingProposal,
    decision: RouteDecision,
) -> (enforced: RouteDecision)
    ensures
        over_the_limit(restart_allowed, *proposal, decision) ==> (
        enforced matches RouteDecision::Block { reason } && reason@ == RESTART_LIMIT@),
        !over_the_limit(restart_allowed, *proposal, decision) ==> enforced == decision,
{
    if restart_allowed {
        return decision;
    }
    let edge = match &decision {
        RouteDecision::Emit(edge) => *edge,
        _ => return decision,
    };
    let mut i: usize = 0;
    while i < proposal.candidates.len()
        invariant
            i <= proposal.candidates.len(),
            !restart_allowed,
            decision == RouteDecision::Emit(edge),
            forall|j: int|
                0 <= j < i ==> (#[trigger] proposal.candidates@[j]) != (RouteCandidate {
                    edge,
                    transition: EdgeTransition::Restart,
                }),
        decreases proposal.candidates.len() - i,
    {
        let candidate = proposal.candidates[i];
        if candidate.edge == edge && candidate.transition == EdgeTransition::Restart {
            assert(proposal.candidates@[i as int] == candidate);
            assert(restarts(*proposal, edge));
            return RouteDecision::Block { reason: RESTART_LIMIT.to_owned() };
        }
        i = i + 1;
    }
    decision
}

/// What is recorded of a routing group: what the chain made of it, within
/// the restart limit.
pub fn group_decision(
    restart_allowed: bool,
    proposal: &RoutingProposal,
    draw: Json,
    resolved: PipelineRoute,
) -> (group: GroupDecision)
    ensures
        group.group == proposal.group,
        group.draw == draw,
        group.trace@ == resolved.trace@,
        over_the_limit(restart_allowed, *proposal, resolved.decision) ==> (
        group.decision matches RouteDecision::Block { reason } && reason@ == RESTART_LIMIT@),
        !over_the_limit(restart_allowed, *proposal, resolved.decision) ==> group.decision
            == resolved.decision,
{
    let decision = enforce_restart_limit(restart_allowed, proposal, resolved.decision);
    GroupDecision {
        group: proposal.group,
        draw,
        trace: Arc::new(resolved.trace),
        decision,
    }
}

/// An execution that may not restart takes no restarting edge, whatever its
/// middlewares decided.
pub proof fn law_no_restart_past_the_limit(
    proposal: RoutingProposal,
    resolved: RouteDecision,
    enforced: RouteDecision,
)
    requires
        over_the_limit(false, proposal, resolved) ==> enforced is Block,
        !over_the_limit(false, proposal, resolved) ==> enforced == resolved,
    ensures
        enforced matches RouteDecision::Emit(edge) ==> !restarts(proposal, edge),
{
}

/// What a middleware folds of an applied route.
pub open spec fn applied_decision(applied: RouteApplied) -> RouteDecision {
    match applied {
        RouteApplied::Edge { firing, edge, group } => RouteDecision::Emit(edge),
        RouteApplied::Jump { firing, target } => RouteDecision::Jump(target),
        RouteApplied::Nothing { firing, group } => RouteDecision::Nothing,
    }
}

/// What an event folds as, when `last` says whether an attempt was its
/// firing's last and `node` which node the firing is of.
pub open spec fn folds_as(
    event: Event,
    last: spec_fn(FiringId, Attempt) -> bool,
    node: spec_fn(FiringId) -> Option<NodeId>,
) -> Option<FoldEvent> {
    match event {
        Event::ExecutionStarted { start } => Some(FoldEvent::ExecutionStarted),
        Event::StepFinished { firing, attempt, outcome } => if last(firing, attempt) {
            match node(firing) {
                Some(node) => Some(FoldEvent::FinalOutcome { firing, node, outcome }),
                None => None,
            }
        } else {
            None
        },
        Event::RouteApplied { applied } => Some(
            FoldEvent::RouteApplied { firing: applied.firing(), decision: applied_decision(applied) },
        ),
        _ => None,
    }
}

/// What a record folds as, in the state after it.
pub open spec fn fold_at(event: Event, state: EngineState) -> Option<FoldEvent> {
    folds_as(
        event,
        |firing: FiringId, attempt: Attempt| state.spec_is_final(firing, attempt),
        |firing: FiringId| state.spec_firing_node(firing),
    )
}

/// Whether a history holds a final record of an attempt.
pub open spec fn ended_in(history: Seq<HistoryEntry>, firing: FiringId, attempt: Attempt) -> bool {
    exists|i: int|
        0 <= i < history.len() && (#[trigger] history[i]).firing == firing && history[i].attempt
            == attempt
}

/// The node of a firing's last record in a history.
pub open spec fn node_in_history(history: Seq<HistoryEntry>, firing: FiringId) -> Option<NodeId> {
    match last_where(history, |entry: HistoryEntry| entry.firing == firing) {
        Some(entry) => Some(entry.node),
        None => None,
    }
}

/// What a record folds as, read back from the history of its execution.
pub open spec fn fold_from(event: Event, history: Seq<HistoryEntry>) -> Option<FoldEvent> {
    folds_as(
        event,
        |firing: FiringId, attempt: Attempt| ended_in(history, firing, attempt),
        |firing: FiringId| node_in_history(history, firing),
    )
}

fn applied_event(applied: &RouteApplied) -> (folded: FoldEvent)
    ensures
        folded == (FoldEvent::RouteApplied {
            firing: applied.firing(),
            decision: applied_decision(*applied),
        }),
{
    match applied {
        RouteApplied::Edge { firing, edge, group: _ } => FoldEvent::RouteApplied {
            firing: *firing,
            decision: RouteDecision::Emit(*edge),
        },
        RouteApplied::Jump { firing, target } => FoldEvent::RouteApplied {
            firing: *firing,
            decision: RouteDecision::Jump(*target),
        },
        RouteApplied::Nothing { firing, group: _ } => FoldEvent::RouteApplied {
            firing: *firing,
            decision: RouteDecision::Nothing,
        },
    }
}

/// What a record folds as, in the state after it: the execution's start, a
/// firing's final outcome, an applied route.
pub fn fold_event(event: &Event, state: &EngineState) -> (folded: Option<FoldEvent>)
    ensures
        folded == fold_at(*event, *state),
{
    match event {
        Event::ExecutionStarted { start: _ } => Some(FoldEvent::ExecutionStarted),
        Event::StepFinished { firing, attempt, outcome } => if state.is_final(*firing, *attempt) {
            match state.firing_node(*firing) {
                Some(node) => Some(
                    FoldEvent::FinalOutcome { firing: *firing, node, outcome: share(outcome) },
                ),
                None => None,
            }
        } else {
            None
        },
        Event::RouteApplied { applied } => Some(applied_event(applied)),
        _ => None,
    }
}

/// What a record folds as, read back from the history of its execution.
pub fn derive_fold_event(event: &Event, state: &EngineState) -> (folded: Option<FoldEvent>)
    ensures
        folded == fold_from(*event, state.history@),
{
    match event {
        Event::ExecutionStarted { start: _ } => Some(FoldEvent::ExecutionStarted),
        Event::StepFinished { firing, attempt, outcome } => if state.is_final(*firing, *attempt) {
            match state.record(*firing) {
                Some(entry) => Some(
                    FoldEvent::FinalOutcome {
                        firing: *firing,
                        node: entry.node,
                        outcome: share(outcome),
                    },
                ),
                None => None,
            }
        } else {
            None
        },
        Event::RouteApplied { applied } => Some(applied_event(applied)),
        _ => None,
    }
}

/// The events a log folds as, in its order.
pub open spec fn folds_of(log: Seq<EventRecord>, history: Seq<HistoryEntry>) -> Seq<FoldEvent>
    decreases log.len(),
{
    if log.len() == 0 {
        Seq::empty()
    } else {
        let done = folds_of(log.drop_last(), history);
        match fold_from(*log.last().event, history) {
            Some(folded) => done.push(folded),
            None => done,
        }
    }
}

/// The events the durable prefix of a log folds as, in its order: what a
/// resumed execution's middleware is brought up to date with. What the core
/// appends on resumption is not among them; it is folded as it is recorded.
pub fn rebuild_middleware(log: &Vec<EventRecord>, state: &EngineState) -> (folds: Vec<FoldEvent>)
    ensures
        folds@ == folds_of(log@, state.history@),
{
    let mut folds: Vec<FoldEvent> = Vec::new();
    let mut i: usize = 0;
    while i < log.len()
        invariant
            i <= log.len(),
            folds@ == folds_of(log@.take(i as int), state.history@),
        decreases log.len() - i,
    {
        assert(log@.take(i + 1).drop_last() =~= log@.take(i as int));
        assert(log@.take(i + 1).last() == log@[i as int]);
        match derive_fold_event(&log[i].event, state) {
            Some(folded) => folds.push(folded),
            None => {},
        }
        i = i + 1;
    }
    assert(log@.take(i as int) =~= log@);
    folds
}

/// The observer that folds an execution's records into its middleware, and
/// keeps the last fold that failed.
#[derive(Debug)]
pub struct MiddlewareFoldObserver {
    failure: Option<MiddlewareError>,
}

impl MiddlewareFoldObserver {
    /// What the last failed fold said.
    pub closed spec fn failure_says(&self) -> Option<Seq<char>> {
        match self.failure {
            Some(error) => Some(error.says()),
            None => None,
        }
    }

    pub fn new() -> (observer: MiddlewareFoldObserver)
        ensures
            observer.failure_says() is None,
    {
        MiddlewareFoldObserver { failure: None }
    }

    /// A middleware's fold failed: the rest of the chain does not fold this
    /// event.
    pub fn failed(&mut self, error: MiddlewareError)
        ensures
            final(self).failure_says() == Some(error.says()),
    {
        self.failure = Some(error);
    }

    /// What the observer reports at the end of its execution.
    pub fn finish(&self) -> (finished: Result<(), ObserveError>)
        ensures
            match (finished, self.failure_says()) {
                (Ok(()), None) => true,
                (Err(error), Some(says)) => error.observer@ == "middleware fold"@ && error.message@
                    == says,
                _ => false,
            },
    {
        match &self.failure {
            Some(error) => Err(
                ObserveError {
                    observer: "middleware fold".to_owned(),
                    message: error.message().clone(),
                },
            ),
            None => Ok(()),
        }
    }
}

/// A record read back folds as it did when it was appended, as long as its
/// firing was retired with that record and ended only once: the two readings
/// of a log cannot drift.
pub proof fn law_rebuilt_as_recorded(event: Event, state: EngineState, later: Seq<HistoryEntry>)
    requires
        later.len() >= state.history@.len(),
        later.take(state.history@.len() as int) == state.history@,
        event matches Event::StepFinished { firing, attempt, outcome } ==> {
            &&& state.spec_is_final(firing, attempt) ==> state.spec_firing(firing) is None
            &&& forall|i: int|
                state.history@.len() <= i < later.len() ==> (#[trigger] later[i]).firing != firing
        },
    ensures
        fold_from(event, later) == fold_at(event, state),
{
    if let Event::StepFinished { firing, attempt, outcome } = event {
        let before = state.history@;
        assert(before =~= later.take(before.len() as int));
        if state.spec_is_final(firing, attempt) {
            let i = choose|i: int|
                0 <= i < before.len() && (#[trigger] before[i]).firing == firing && before[i].attempt
                    == attempt;
            assert(later[i] == before[i]);
            assert(ended_in(later, firing, attempt));
        } else if ended_in(later, firing, attempt) {
            let i = choose|i: int|
                0 <= i < later.len() && (#[trigger] later[i]).firing == firing && later[i].attempt
                    == attempt;
            assert(before[i] == later[i]);
        }
        lemma_last_stays(
            before,
            later,
            |entry: HistoryEntry| entry.firing == firing,
        );
    }
}

proof fn lemma_last_stays(
    before: Seq<HistoryEntry>,
    later: Seq<HistoryEntry>,
    p: spec_fn(HistoryEntry) -> bool,
)
    requires
        later.len() >= before.len(),
        later.take(before.len() as int) == before,
        forall|i: int| before.len() <= i < later.len() ==> !p(#[trigger] later[i]),
    ensures
        last_where(later, p) == last_where(before, p),
    decreases later.len(),
{
    if later.len() > before.len() {
        assert(!p(later[later.len() - 1]));
        let rest = later.drop_last();
        assert(rest.take(before.len() as int) =~= before);
        lemma_last_stays(before, rest, p);
    } else {
        assert(later.take(before.len() as int) =~= later);
    }
}

} // verus!

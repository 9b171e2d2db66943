//! The state of an execution after a record, as the coordinator reads it.

use crate::ids::{Attempt, FiringId, Generation, NodeId};
use crate::json::Json;
use crate::model::{Fields, Graph, Outcome, RunStatus, Status, Token};
use crate::record::EngineExit;
use crate::search::{
    count_where, first_where, last_where, lemma_count_push, lemma_count_remove, lemma_count_weaker,
    lemma_first_absent, lemma_first_found, lemma_last_absent,
    lemma_last_found, lemma_lookup_absent, lemma_lookup_found, lookup,
};
use std::sync::Arc;
use vstd::prelude::*;

verus! {

/// One branch of a fork: the fork node and the branch's position.
#[derive(Clone, Copy, Debug, PartialEq, Eq, Structural)]
pub struct BranchRef {
    pub fork: NodeId,
    pub index: u32,
}

/// What a node is to a fork.
#[derive(Clone, Copy, Debug, PartialEq, Eq, Structural)]
pub enum BranchRole {
    /// On no branch.
    Outside,
    /// Opens this many branches.
    Fork { branches: u32 },
    /// Runs on a branch.
    Member(BranchRef),
    /// Closes the branches of a fork.
    Join { fork: NodeId },
}

/// The fork roles of a graph's nodes, expansions included.
#[derive(Debug)]
pub struct BranchMap {
    /// How many nodes of the graph the map was built over.
    pub covered: usize,
    pub roles: Vec<(NodeId, BranchRole)>,
    /// The fork each expanded template fans out from.
    pub expansions: Vec<(NodeId, NodeId)>,
}

/// A branch map with its lists as sequences.
pub struct BranchModel {
    pub covered: usize,
    pub roles: Seq<(NodeId, BranchRole)>,
    pub expansions: Seq<(NodeId, NodeId)>,
}

impl View for BranchMap {
    type V = BranchModel;

    open spec fn view(&self) -> BranchModel {
        BranchModel {
            covered: self.covered,
            roles: self.roles@,
            expansions: self.expansions@,
        }
    }
}

impl BranchModel {
    /// The role of a node: `Outside` when the map names none.
    pub open spec fn spec_role(self, node: NodeId) -> BranchRole {
        match lookup(self.roles, node) {
            Some(role) => role,
            None => BranchRole::Outside,
        }
    }

    /// The fork an expanded template fans out from.
    pub open spec fn spec_expansion_fork(self, node: NodeId) -> Option<NodeId> {
        lookup(self.expansions, node)
    }

    /// Whether the map was built over every node of the graph.
    pub open spec fn spec_covers(self, graph: Graph) -> bool {
        self.covered >= graph.nodes@.len()
    }
}

/// A map of no node.
pub open spec fn blank_map() -> BranchModel {
    BranchModel { covered: 0, roles: Seq::empty(), expansions: Seq::empty() }
}

impl BranchMap {
    /// Whether the map was built over every node of the graph.
    pub fn covers(&self, graph: &Graph) -> (covers: bool)
        ensures
            covers == self@.spec_covers(*graph),
    {
        self.covered >= graph.nodes.len()
    }

    /// The role of a node.
    pub fn role(&self, node: NodeId) -> (role: BranchRole)
        ensures
            role == self@.spec_role(node),
    {
        let mut i: usize = 0;
        while i < self.roles.len()
            invariant
                i <= self.roles.len(),
                forall|j: int| 0 <= j < i ==> (#[trigger] self.roles@[j]).0 != node,
            decreases self.roles.len() - i,
        {
            if self.roles[i].0 == node {
                proof {
                    lemma_lookup_found(self.roles@, node, i as int);
                }
                return self.roles[i].1;
            }
            i = i + 1;
        }
        proof {
            lemma_lookup_absent(self.roles@, node);
        }
        BranchRole::Outside
    }

    /// The fork an expanded template fans out from.
    pub fn expansion_fork(&self, node: NodeId) -> (fork: Option<NodeId>)
        ensures
            fork == self@.spec_expansion_fork(node),
    {
        let mut i: usize = 0;
        while i < self.expansions.len()
            invariant
                i <= self.expansions.len(),
                forall|j: int| 0 <= j < i ==> (#[trigger] self.expansions@[j]).0 != node,
            decreases self.expansions.len() - i,
        {
            if self.expansions[i].0 == node {
                proof {
                    lemma_lookup_found(self.expansions@, node, i as int);
                }
                return Some(self.expansions[i].1);
            }
            i = i + 1;
        }
        proof {
            lemma_lookup_absent(self.expansions@, node);
        }
        None
    }
}

/// One final firing record.
#[derive(Debug)]
pub struct HistoryEntry {
    pub firing: FiringId,
    pub node: NodeId,
    /// The node's instance name.
    pub name: String,
    pub generation: Generation,
    pub attempt: Attempt,
    pub outcome: Arc<Outcome>,
}

/// One firing that has no final record yet.
#[derive(Debug)]
pub struct LiveFiring {
    pub id: FiringId,
    pub node: NodeId,
    pub generation: Generation,
    pub attempt: Attempt,
    pub inputs: Arc<Vec<Token>>,
    pub started: bool,
    pub awaiting_retry: bool,
    pub cancelling: bool,
}

/// What one node instance left behind.
#[derive(Debug)]
pub struct NodeRecord {
    pub status: Status,
    pub output: Json,
    pub generation: Generation,
    pub attempts: u32,
}

/// The state of an execution after a record.
#[derive(Debug)]
pub struct EngineState {
    pub graph: Graph,
    /// The fork roles of the graph's nodes.
    pub branches: Arc<BranchMap>,
    /// Every final firing record, in completion order.
    pub history: Vec<HistoryEntry>,
    /// The live firings, in id order.
    pub live: Vec<LiveFiring>,
    pub awaiting_admission: Vec<FiringId>,
    pub killed: Vec<NodeId>,
    /// How many firings each node has had.
    pub firing_counts: Vec<(NodeId, u32)>,
    pub started: bool,
    pub finished: bool,
    pub cancelled: bool,
    pub exit: Option<EngineExit>,
    pub folded_status: RunStatus,
    /// The engine's errors, rendered.
    pub errors: Vec<String>,
    /// The run context's key-value part.
    pub kv: Fields,
    /// The run context's node records, by instance name.
    pub nodes: Vec<(String, NodeRecord)>,
    /// Firings each node had in this execution and its predecessors.
    pub prior_firings: Vec<(NodeId, u32)>,
}

impl EngineState {
    /// The live firing with an id.
    pub open spec fn spec_firing(&self, id: FiringId) -> Option<LiveFiring> {
        first_where(self.live@, |firing: LiveFiring| firing.id == id)
    }

    /// The last final record of a firing.
    pub open spec fn spec_record(&self, id: FiringId) -> Option<HistoryEntry> {
        last_where(self.history@, |entry: HistoryEntry| entry.firing == id)
    }

    /// The last final record of a node in a generation.
    pub open spec fn spec_node_record(&self, node: NodeId, generation: Generation) -> Option<
        HistoryEntry,
    > {
        last_where(
            self.history@,
            |entry: HistoryEntry| entry.node == node && entry.generation == generation,
        )
    }

    /// The last final record of a node.
    pub open spec fn spec_last_of(&self, node: NodeId) -> Option<HistoryEntry> {
        last_where(self.history@, |entry: HistoryEntry| entry.node == node)
    }

    /// How many firings a node has had: none when the state counts none.
    pub open spec fn spec_firing_count(&self, node: NodeId) -> u32 {
        match lookup(self.firing_counts@, node) {
            Some(count) => count,
            None => 0,
        }
    }

    /// How many firings of a node came before `firing`. Ids are given out in
    /// firing order.
    pub open spec fn spec_fired_before(&self, node: NodeId, firing: FiringId) -> nat {
        count_where(
            self.history@,
            |entry: HistoryEntry| entry.node == node && entry.firing.0 < firing.0,
        ) + count_where(
            self.live@,
            |live: LiveFiring| live.node == node && live.id.0 < firing.0,
        )
    }

    /// Which firing of its node this is, counted from one.
    pub open spec fn spec_visit(&self, node: NodeId, firing: FiringId) -> u32 {
        if self.spec_fired_before(node, firing) < u32::MAX {
            (self.spec_fired_before(node, firing) + 1) as u32
        } else {
            u32::MAX
        }
    }

    /// The node of a firing, live or retired.
    pub open spec fn spec_firing_node(&self, firing: FiringId) -> Option<NodeId> {
        match self.spec_firing(firing) {
            Some(live) => Some(live.node),
            None => match self.spec_record(firing) {
                Some(entry) => Some(entry.node),
                None => None,
            },
        }
    }

    /// Whether a final record of this attempt of the firing exists.
    pub open spec fn spec_is_final(&self, firing: FiringId, attempt: Attempt) -> bool {
        exists|i: int|
            0 <= i < self.history@.len() && (#[trigger] self.history@[i]).firing == firing
                && self.history@[i].attempt == attempt
    }

    /// The live firing with an id.
    pub fn firing(&self, id: FiringId) -> (found: Option<&LiveFiring>)
        ensures
            found == (match self.spec_firing(id) {
                Some(live) => Some(&live),
                None => None,
            }),
    {
        let ghost p = |firing: LiveFiring| firing.id == id;
        let mut i: usize = 0;
        while i < self.live.len()
            invariant
                i <= self.live.len(),
                p == (|firing: LiveFiring| firing.id == id),
                forall|j: int| 0 <= j < i ==> !p(#[trigger] self.live@[j]),
            decreases self.live.len() - i,
        {
            if self.live[i].id == id {
                proof {
                    lemma_first_found(self.live@, p, i as int);
                }
                return Some(&self.live[i]);
            }
            i = i + 1;
        }
        proof {
            lemma_first_absent(self.live@, p);
        }
        None
    }

    /// The last final record of a firing.
    pub fn record(&self, id: FiringId) -> (found: Option<&HistoryEntry>)
        ensures
            found == (match self.spec_record(id) {
                Some(entry) => Some(&entry),
                None => None,
            }),
    {
        let ghost p = |entry: HistoryEntry| entry.firing == id;
        let mut i: usize = self.history.len();
        while i > 0
            invariant
                i <= self.history.len(),
                p == (|entry: HistoryEntry| entry.firing == id),
                forall|j: int| i <= j < self.history@.len() ==> !p(#[trigger] self.history@[j]),
            decreases i,
        {
            i = i - 1;
            if self.history[i].firing == id {
                proof {
                    lemma_last_found(self.history@, p, i as int);
                }
                return Some(&self.history[i]);
            }
        }
        proof {
            lemma_last_absent(self.history@, p);
        }
        None
    }

    /// The last final record of a node in a generation.
    pub fn node_record(&self, node: NodeId, generation: Generation) -> (found: Option<
        &HistoryEntry,
    >)
        ensures
            found == (match self.spec_node_record(node, generation) {
                Some(entry) => Some(&entry),
                None => None,
            }),
    {
        let ghost p = |entry: HistoryEntry| entry.node == node && entry.generation == generation;
        let mut i: usize = self.history.len();
        while i > 0
            invariant
                i <= self.history.len(),
                p == (|entry: HistoryEntry| entry.node == node && entry.generation == generation),
                forall|j: int| i <= j < self.history@.len() ==> !p(#[trigger] self.history@[j]),
            decreases i,
        {
            i = i - 1;
            if self.history[i].node == node && self.history[i].generation == generation {
                proof {
                    lemma_last_found(self.history@, p, i as int);
                }
                return Some(&self.history[i]);
            }
        }
        proof {
            lemma_last_absent(self.history@, p);
        }
        None
    }

    /// The last final record of a node.
    pub fn last_of(&self, node: NodeId) -> (found: Option<&HistoryEntry>)
        ensures
            found == (match self.spec_last_of(node) {
                Some(entry) => Some(&entry),
                None => None,
            }),
    {
        let ghost p = |entry: HistoryEntry| entry.node == node;
        let mut i: usize = self.history.len();
        while i > 0
            invariant
                i <= self.history.len(),
                p == (|entry: HistoryEntry| entry.node == node),
                forall|j: int| i <= j < self.history@.len() ==> !p(#[trigger] self.history@[j]),
            decreases i,
        {
            i = i - 1;
            if self.history[i].node == node {
                proof {
                    lemma_last_found(self.history@, p, i as int);
                }
                return Some(&self.history[i]);
            }
        }
        proof {
            lemma_last_absent(self.history@, p);
        }
        None
    }

    /// How many firings a node has had.
    pub fn firing_count(&self, node: NodeId) -> (count: u32)
        ensures
            count == self.spec_firing_count(node),
    {
        let mut i: usize = 0;
        while i < self.firing_counts.len()
            invariant
                i <= self.firing_counts.len(),
                forall|j: int| 0 <= j < i ==> (#[trigger] self.firing_counts@[j]).0 != node,
            decreases self.firing_counts.len() - i,
        {
            if self.firing_counts[i].0 == node {
                proof {
                    lemma_lookup_found(self.firing_counts@, node, i as int);
                }
                return self.firing_counts[i].1;
            }
            i = i + 1;
        }
        proof {
            lemma_lookup_absent(self.firing_counts@, node);
        }
        0
    }

    /// Which firing of its node this is, counted from one.
    pub fn visit(&self, node: NodeId, firing: FiringId) -> (visit: u32)
        ensures
            visit == self.spec_visit(node, firing),
    {
        let ghost retired = |entry: HistoryEntry|
            entry.node == node && entry.firing.0 < firing.0;
        let ghost alive = |live: LiveFiring| live.node == node && live.id.0 < firing.0;
        let mut before: u64 = 0;
        let mut i: usize = 0;
        while i < self.history.len()
            invariant
                i <= self.history.len(),
                retired == (|entry: HistoryEntry|
                    entry.node == node && entry.firing.0 < firing.0),
                before == count_where(self.history@.take(i as int), retired),
                before <= i,
            decreases self.history.len() - i,
        {
            proof {
                lemma_count_push(self.history@.take(i as int), retired, self.history@[i as int]);
                assert(self.history@.take(i + 1) =~= self.history@.take(i as int).push(
                    self.history@[i as int],
                ));
            }
            if self.history[i].node == node && self.history[i].firing.0 < firing.0 {
                before = before + 1;
            }
            i = i + 1;
        }
        assert(self.history@.take(i as int) =~= self.history@);
        let mut beside: u64 = 0;
        let mut k: usize = 0;
        while k < self.live.len()
            invariant
                k <= self.live.len(),
                alive == (|live: LiveFiring| live.node == node && live.id.0 < firing.0),
                beside == count_where(self.live@.take(k as int), alive),
                beside <= k,
            decreases self.live.len() - k,
        {
            proof {
                lemma_count_push(self.live@.take(k as int), alive, self.live@[k as int]);
                assert(self.live@.take(k + 1) =~= self.live@.take(k as int).push(
                    self.live@[k as int],
                ));
            }
            if self.live[k].node == node && self.live[k].id.0 < firing.0 {
                beside = beside + 1;
            }
            k = k + 1;
        }
        assert(self.live@.take(k as int) =~= self.live@);
        let before = before.saturating_add(beside);
        if before < u32::MAX as u64 {
            before as u32 + 1
        } else {
            u32::MAX
        }
    }

    /// The node of a firing, live or retired.
    pub fn firing_node(&self, firing: FiringId) -> (node: Option<NodeId>)
        ensures
            node == self.spec_firing_node(firing),
    {
        match self.firing(firing) {
            Some(live) => Some(live.node),
            None => match self.record(firing) {
                Some(entry) => Some(entry.node),
                None => None,
            },
        }
    }

    /// Whether a final record of this attempt of the firing exists.
    pub fn is_final(&self, firing: FiringId, attempt: Attempt) -> (found: bool)
        ensures
            found == self.spec_is_final(firing, attempt),
    {
        let mut i: usize = 0;
        while i < self.history.len()
            invariant
                i <= self.history.len(),
                forall|j: int|
                    0 <= j < i ==> !((#[trigger] self.history@[j]).firing == firing
                        && self.history@[j].attempt == attempt),
            decreases self.history.len() - i,
        {
            if self.history[i].firing == firing && self.history[i].attempt == attempt {
                return true;
            }
            i = i + 1;
        }
        false
    }

    /// Whether the firing waits for its admission.
    pub fn is_awaiting_admission(&self, firing: FiringId) -> (found: bool)
        ensures
            found == self.awaiting_admission@.contains(firing),
    {
        let mut i: usize = 0;
        while i < self.awaiting_admission.len()
            invariant
                i <= self.awaiting_admission.len(),
                forall|j: int| 0 <= j < i ==> (#[trigger] self.awaiting_admission@[j]) != firing,
            decreases self.awaiting_admission.len() - i,
        {
            if self.awaiting_admission[i] == firing {
                assert(self.awaiting_admission@[i as int] == firing);
                return true;
            }
            i = i + 1;
        }
        false
    }

    /// Whether the node's scope was killed.
    pub fn is_node_killed(&self, node: NodeId) -> (found: bool)
        ensures
            found == self.killed@.contains(node),
    {
        let mut i: usize = 0;
        while i < self.killed.len()
            invariant
                i <= self.killed.len(),
                forall|j: int| 0 <= j < i ==> (#[trigger] self.killed@[j]) != node,
            decreases self.killed.len() - i,
        {
            if self.killed[i] == node {
                assert(self.killed@[i as int] == node);
                return true;
            }
            i = i + 1;
        }
        false
    }
}

/// The visit of a firing is its place among its node's firings: a later
/// firing of the node has a higher one, and neither a firing that starts
/// after it nor the end of any firing changes it.
pub proof fn law_visit_is_the_firing_s_place(
    state: EngineState,
    node: NodeId,
    firing: FiringId,
    later: FiringId,
    started: EngineState,
    new: LiveFiring,
    ended: EngineState,
    at: int,
    entry: HistoryEntry,
)
    requires
        firing.0 < later.0,
        exists|i: int|
            0 <= i < state.history@.len() && (#[trigger] state.history@[i]).node == node
                && state.history@[i].firing == firing || 0 <= i < state.live@.len()
                && (#[trigger] state.live@[i]).node == node && state.live@[i].id == firing,
        state.spec_fired_before(node, later) < u32::MAX,
        started.history@ == state.history@,
        started.live@ == state.live@.push(new),
        new.id.0 > firing.0,
        0 <= at < state.live@.len(),
        ended.live@ == state.live@.remove(at),
        ended.history@ == state.history@.push(entry),
        entry.node == state.live@[at].node,
        entry.firing == state.live@[at].id,
    ensures
        1 <= state.spec_visit(node, firing) < state.spec_visit(node, later),
        started.spec_visit(node, firing) == state.spec_visit(node, firing),
        ended.spec_visit(node, firing) == state.spec_visit(node, firing),
{
    let retired = |entry: HistoryEntry| entry.node == node && entry.firing.0 < firing.0;
    let alive = |live: LiveFiring| live.node == node && live.id.0 < firing.0;
    let retired_later = |entry: HistoryEntry| entry.node == node && entry.firing.0 < later.0;
    let alive_later = |live: LiveFiring| live.node == node && live.id.0 < later.0;
    lemma_count_weaker(state.history@, retired, retired_later);
    lemma_count_weaker(state.live@, alive, alive_later);
    let i = choose|i: int|
        0 <= i < state.history@.len() && (#[trigger] state.history@[i]).node == node
            && state.history@[i].firing == firing || 0 <= i < state.live@.len()
            && (#[trigger] state.live@[i]).node == node && state.live@[i].id == firing;
    if 0 <= i < state.history@.len() && state.history@[i].node == node && state.history@[i].firing
        == firing {
        assert(retired_later(state.history@[i]) && !retired(state.history@[i]));
    } else {
        assert(alive_later(state.live@[i]) && !alive(state.live@[i]));
    }
    lemma_count_push(state.live@, alive, new);
    lemma_count_remove(state.live@, alive, at);
    lemma_count_push(state.history@, retired, entry);
}

} // verus!

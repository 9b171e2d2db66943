//! What the engine hands the coordinator, as plain values: graphs, the
//! records of an execution's log, and the state after a record.

use crate::ids::{EdgeId, FiringId, NodeId, ScopeId};
use crate::json::{fields_match, same_fields, same_value, share, Json};
use crate::search::{first_where, lemma_first_absent, lemma_first_found};

use std::sync::Arc;
use vstd::prelude::*;

verus! {

/// Named values in key order.
pub type Fields = Arc<Vec<(String, Json)>>;

/// How a run, an execution or an invocation ended.
#[derive(Clone, Copy, Debug, PartialEq, Eq, Structural)]
pub enum RunStatus {
    Success,
    Failed,
    Cancelled,
}

/// Why a step failed.
#[derive(Debug)]
pub struct FailureInfo {
    pub message: String,
    pub class: Option<String>,
}

impl Clone for FailureInfo {
    fn clone(&self) -> (copy: FailureInfo)
        ensures
            copy == *self,
    {
        FailureInfo { message: self.message.clone(), class: copy_text(&self.class) }
    }
}

/// A step's status: its tag, and what routing reads of it.
#[derive(Debug)]
pub struct Status {
    pub tag: String,
    pub success_like: bool,
    pub cancelled: bool,
    pub failure: Option<FailureInfo>,
}

impl Clone for Status {
    fn clone(&self) -> (copy: Status)
        ensures
            copy == *self,
    {
        Status {
            tag: self.tag.clone(),
            success_like: self.success_like,
            cancelled: self.cancelled,
            failure: copy_failure(&self.failure),
        }
    }
}

/// Copy an optional text.
pub fn copy_text(text: &Option<String>) -> (copy: Option<String>)
    ensures
        copy == *text,
{
    match text {
        Some(text) => Some(text.clone()),
        None => None,
    }
}

/// Copy an optional value.
pub fn copy_json(value: &Option<Json>) -> (copy: Option<Json>)
    ensures
        copy == *value,
{
    match value {
        Some(value) => Some(value.clone()),
        None => None,
    }
}

/// Copy an optional failure.
pub fn copy_failure(failure: &Option<FailureInfo>) -> (copy: Option<FailureInfo>)
    ensures
        copy == *failure,
{
    match failure {
        Some(failure) => Some(failure.clone()),
        None => None,
    }
}

/// Share an optional shared value.
pub(crate) fn share_option<T>(shared: &Option<Arc<T>>) -> (copy: Option<Arc<T>>)
    ensures
        copy == *shared,
{
    match shared {
        Some(shared) => Some(share(shared)),
        None => None,
    }
}

/// What an attempt measured.
#[derive(Clone, Copy, Debug, PartialEq, Eq, Structural)]
pub struct Metrics {
    pub duration_ms: Option<u64>,
}

/// What an attempt returned.
#[derive(Debug)]
pub struct Outcome {
    pub status: Status,
    pub output: Json,
    pub context_updates: Fields,
    pub metrics: Metrics,
}

/// Whether two optional texts are the same.
pub open spec fn same_text(a: Option<String>, b: Option<String>) -> bool {
    match (a, b) {
        (None, None) => true,
        (Some(a), Some(b)) => a@ == b@,
        _ => false,
    }
}

/// Whether two failures are the same.
pub open spec fn same_failure(a: Option<FailureInfo>, b: Option<FailureInfo>) -> bool {
    match (a, b) {
        (None, None) => true,
        (Some(a), Some(b)) => a.message@ == b.message@ && same_text(a.class, b.class),
        _ => false,
    }
}

/// Whether two statuses are the same.
pub open spec fn same_status(a: Status, b: Status) -> bool {
    &&& a.tag@ == b.tag@
    &&& a.success_like == b.success_like
    &&& a.cancelled == b.cancelled
    &&& same_failure(a.failure, b.failure)
}

/// Whether two outcomes are the same.
pub open spec fn same_outcome(a: Outcome, b: Outcome) -> bool {
    &&& same_status(a.status, b.status)
    &&& same_value(a.output@, b.output@)
    &&& same_fields(a.context_updates@, b.context_updates@)
    &&& a.metrics == b.metrics
}

fn texts_match(a: &Option<String>, b: &Option<String>) -> (same: bool)
    ensures
        same == same_text(*a, *b),
{
    match (a, b) {
        (None, None) => true,
        (Some(a), Some(b)) => *a == *b,
        _ => false,
    }
}

pub(crate) fn failures_match(a: &Option<FailureInfo>, b: &Option<FailureInfo>) -> (same: bool)
    ensures
        same == same_failure(*a, *b),
{
    match (a, b) {
        (None, None) => true,
        (Some(a), Some(b)) => a.message == b.message && texts_match(&a.class, &b.class),
        _ => false,
    }
}

pub(crate) fn statuses_match(a: &Status, b: &Status) -> (same: bool)
    ensures
        same == same_status(*a, *b),
{
    a.tag == b.tag && a.success_like == b.success_like && a.cancelled == b.cancelled
        && failures_match(&a.failure, &b.failure)
}

impl Outcome {
    /// Whether the outcomes are the same.
    pub fn same(&self, other: &Outcome) -> (same: bool)
        ensures
            same == same_outcome(*self, *other),
    {
        statuses_match(&self.status, &other.status) && self.output.same(&other.output)
            && fields_match(
            &self.context_updates,
            &other.context_updates,
        ) && self.metrics == other.metrics
    }
}

/// A token between two firings: the firing that emitted it and what it
/// carries.
#[derive(Debug)]
pub struct Token {
    pub from: FiringId,
    pub payload: Json,
}

/// What an edge does to the execution it is taken in.
#[derive(Clone, Copy, Debug, PartialEq, Eq, Structural)]
pub enum EdgeTransition {
    Continue,
    Restart,
}

/// One node: its instance name, the step kind it runs and the frontend's
/// metadata.
#[derive(Debug)]
pub struct Node {
    pub id: NodeId,
    pub name: String,
    pub kind: String,
    pub meta: Json,
}

/// One edge.
#[derive(Clone, Copy, Debug, PartialEq, Eq, Structural)]
pub struct Edge {
    pub id: EdgeId,
    pub to: NodeId,
    pub transition: EdgeTransition,
    pub back: bool,
}

/// Where a scope's steps run: as a process of the host, or in the container
/// an image and its options describe.
#[derive(Debug)]
pub enum RuntimeTarget {
    HostProcess,
    Container { image: String, options: String },
}

/// One sandbox scope of a graph, with what its environment is.
#[derive(Debug)]
pub struct Scope {
    pub id: ScopeId,
    pub runtime: ScopeRuntime,
}

/// A scope's runtime: its target and the rest of its settings.
#[derive(Debug)]
pub struct ScopeRuntime {
    pub target: RuntimeTarget,
    pub settings: String,
}

/// Whether two targets are the same.
pub open spec fn same_target(a: RuntimeTarget, b: RuntimeTarget) -> bool {
    match (a, b) {
        (RuntimeTarget::HostProcess, RuntimeTarget::HostProcess) => true,
        (
            RuntimeTarget::Container { image: a, options: x },
            RuntimeTarget::Container { image: b, options: y },
        ) => a@ == b@ && x@ == y@,
        _ => false,
    }
}

/// Whether two runtimes are the same.
pub open spec fn same_runtime(a: ScopeRuntime, b: ScopeRuntime) -> bool {
    same_target(a.target, b.target) && a.settings@ == b.settings@
}

impl RuntimeTarget {
    /// Whether the targets are the same.
    pub fn same(&self, other: &RuntimeTarget) -> (same: bool)
        ensures
            same == same_target(*self, *other),
    {
        match (self, other) {
            (RuntimeTarget::HostProcess, RuntimeTarget::HostProcess) => true,
            (
                RuntimeTarget::Container { image: a, options: x },
                RuntimeTarget::Container { image: b, options: y },
            ) => *a == *b && *x == *y,
            _ => false,
        }
    }
}

impl Clone for RuntimeTarget {
    fn clone(&self) -> (copy: RuntimeTarget)
        ensures
            copy == *self,
    {
        match self {
            RuntimeTarget::HostProcess => RuntimeTarget::HostProcess,
            RuntimeTarget::Container { image, options } => RuntimeTarget::Container {
                image: image.clone(),
                options: options.clone(),
            },
        }
    }
}

impl ScopeRuntime {
    /// Whether the runtimes are the same.
    pub fn same(&self, other: &ScopeRuntime) -> (same: bool)
        ensures
            same == same_runtime(*self, *other),
    {
        self.target.same(&other.target) && self.settings == other.settings
    }
}

impl Clone for ScopeRuntime {
    fn clone(&self) -> (copy: ScopeRuntime)
        ensures
            copy == *self,
    {
        ScopeRuntime { target: self.target.clone(), settings: self.settings.clone() }
    }
}

/// Which value an invocation of the graph returns.
#[derive(Clone, Copy, Debug, PartialEq, Eq, Structural)]
pub enum ResultProjection {
    Nothing,
    NodeOutput(NodeId),
}

/// What a root graph asks of its run.
#[derive(Clone, Copy, Debug, PartialEq, Eq, Structural)]
pub struct RunPolicy {
    pub max_invocations: Option<u32>,
    pub loop_restart_signature_limit: Option<u32>,
}

/// A graph, as the coordinator reads it.
#[derive(Debug)]
pub struct Graph {
    pub nodes: Vec<Node>,
    pub edges: Vec<Edge>,
    pub scopes: Vec<Scope>,
    pub result: ResultProjection,
    pub policy: RunPolicy,
}

/// The first node with an id.
pub open spec fn node_in(nodes: Seq<Node>, id: NodeId) -> Option<Node> {
    first_where(nodes, |node: Node| node.id == id)
}

/// The first node with an id.
pub fn find_node(nodes: &Vec<Node>, id: NodeId) -> (found: Option<&Node>)
    ensures
        found == (match node_in(nodes@, id) {
            Some(node) => Some(&node),
            None => None,
        }),
{
    let ghost p = |node: Node| node.id == id;
    let mut i: usize = 0;
    while i < nodes.len()
        invariant
            i <= nodes.len(),
            p == (|node: Node| node.id == id),
            forall|j: int| 0 <= j < i ==> !p(#[trigger] nodes@[j]),
        decreases nodes.len() - i,
    {
        if nodes[i].id == id {
            proof {
                lemma_first_found(nodes@, p, i as int);
            }
            return Some(&nodes[i]);
        }
        i = i + 1;
    }
    proof {
        lemma_first_absent(nodes@, p);
    }
    None
}

impl Graph {
    /// The node with an id.
    pub open spec fn spec_node(&self, id: NodeId) -> Option<Node> {
        node_in(self.nodes@, id)
    }

    /// The edge with an id.
    pub open spec fn spec_edge(&self, id: EdgeId) -> Option<Edge> {
        first_where(self.edges@, |edge: Edge| edge.id == id)
    }

    /// The scope with an id.
    pub open spec fn spec_scope(&self, id: ScopeId) -> Option<Scope> {
        first_where(self.scopes@, |scope: Scope| scope.id == id)
    }

    /// The node with an id.
    pub fn node(&self, id: NodeId) -> (found: Option<&Node>)
        ensures
            found == (match self.spec_node(id) {
                Some(node) => Some(&node),
                None => None,
            }),
    {
        find_node(&self.nodes, id)
    }

    /// The edge with an id.
    pub fn edge(&self, id: EdgeId) -> (found: Option<Edge>)
        ensures
            found == self.spec_edge(id),
    {
        let ghost p = |edge: Edge| edge.id == id;
        let mut i: usize = 0;
        while i < self.edges.len()
            invariant
                i <= self.edges.len(),
                p == (|edge: Edge| edge.id == id),
                forall|j: int| 0 <= j < i ==> !p(#[trigger] self.edges@[j]),
            decreases self.edges.len() - i,
        {
            if self.edges[i].id == id {
                proof {
                    lemma_first_found(self.edges@, p, i as int);
                }
                return Some(self.edges[i]);
            }
            i = i + 1;
        }
        proof {
            lemma_first_absent(self.edges@, p);
        }
        None
    }

    /// The scope with an id.
    pub fn scope(&self, id: ScopeId) -> (found: Option<&Scope>)
        ensures
            found == (match self.spec_scope(id) {
                Some(scope) => Some(&scope),
                None => None,
            }),
    {
        let ghost p = |scope: Scope| scope.id == id;
        let mut i: usize = 0;
        while i < self.scopes.len()
            invariant
                i <= self.scopes.len(),
                p == (|scope: Scope| scope.id == id),
                forall|j: int| 0 <= j < i ==> !p(#[trigger] self.scopes@[j]),
            decreases self.scopes.len() - i,
        {
            if self.scopes[i].id == id {
                proof {
                    lemma_first_found(self.scopes@, p, i as int);
                }
                return Some(&self.scopes[i]);
            }
            i = i + 1;
        }
        proof {
            lemma_first_absent(self.scopes@, p);
        }
        None
    }
}

} // verus!

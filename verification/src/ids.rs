//! The run-level identities: plain numbers, each under its own type.

use vstd::prelude::*;

verus! {

/// One execution of one invocation: a reset-free engine run.
#[derive(Clone, Copy, Debug, PartialEq, Eq, PartialOrd, Ord, Hash, Structural)]
pub struct ExecutionId(pub u64);

/// One invocation of a graph: the root, or a nested call.
#[derive(Clone, Copy, Debug, PartialEq, Eq, PartialOrd, Ord, Hash, Structural)]
pub struct InvocationId(pub u64);

/// One firing of one node within an execution.
#[derive(Clone, Copy, Debug, PartialEq, Eq, PartialOrd, Ord, Hash, Structural)]
pub struct FiringId(pub u64);

/// A node of a graph.
#[derive(Clone, Copy, Debug, PartialEq, Eq, PartialOrd, Ord, Hash, Structural)]
pub struct NodeId(pub u32);

/// An edge of a graph.
#[derive(Clone, Copy, Debug, PartialEq, Eq, PartialOrd, Ord, Hash, Structural)]
pub struct EdgeId(pub u32);

/// A sandbox scope of a graph.
#[derive(Clone, Copy, Debug, PartialEq, Eq, PartialOrd, Ord, Hash, Structural)]
pub struct ScopeId(pub u32);

/// A cancel scope of an execution.
#[derive(Clone, Copy, Debug, PartialEq, Eq, PartialOrd, Ord, Hash, Structural)]
pub struct CancelScopeId(pub u32);

/// Which attempt of a firing, from 1.
#[derive(Clone, Copy, Debug, PartialEq, Eq, PartialOrd, Ord, Hash, Structural)]
pub struct Attempt(pub u32);

/// Which generation of tokens a firing belongs to.
#[derive(Clone, Copy, Debug, PartialEq, Eq, PartialOrd, Ord, Hash, Structural)]
pub struct Generation(pub u32);

/// One sandbox lease.
#[derive(Clone, Copy, Debug, PartialEq, Eq, PartialOrd, Ord, Hash, Structural)]
pub struct SandboxLeaseId(pub u64);

/// SHA-256 of the exact persisted graph bytes, as its two halves.
#[derive(Clone, Copy, Debug, PartialEq, Eq, PartialOrd, Ord, Hash, Structural)]
pub struct GraphDigest {
    pub high: u128,
    pub low: u128,
}

impl InvocationId {
    /// The root invocation of every run.
    #[verifier::allow_in_spec]
    pub fn root() -> InvocationId
        returns
            InvocationId(0),
    {
        InvocationId(0)
    }
}

impl CancelScopeId {
    /// The cancel scope that covers a whole execution.
    #[verifier::allow_in_spec]
    pub fn root() -> CancelScopeId
        returns
            CancelScopeId(0),
    {
        CancelScopeId(0)
    }
}

} // verus!

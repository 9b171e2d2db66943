//! The replayed state of a run's coordinator log, as plain values.

use crate::event::{
    AttemptAdmission, CancelReason, InvocationResult, MiddlewareState, ParentCallKey,
    SandboxBinding, SecretBindings, COORDINATOR_FORMAT_VERSION,
};
use crate::ids::{ExecutionId, GraphDigest, InvocationId};
use crate::json::Json;
use crate::model::{Fields, RunStatus};
use crate::record::{EngineExit, EngineStart};
use crate::search::{first_where, lemma_first_absent, lemma_first_found};
use std::sync::Arc;
use vstd::prelude::*;

verus! {

/// What an invocation was declared with.
#[derive(Debug)]
pub struct InvocationDeclaration {
    pub id: InvocationId,
    pub call: Option<ParentCallKey>,
    pub graph: GraphDigest,
    pub context: Fields,
    pub secret_bindings: SecretBindings,
    pub sandbox: SandboxBinding,
    pub admission: Option<AttemptAdmission>,
}

/// One invocation: its declaration, its executions in order, and its result.
#[derive(Debug)]
pub struct InvocationState {
    pub declaration: InvocationDeclaration,
    pub executions: Vec<ExecutionId>,
    pub result: Option<Arc<InvocationResult>>,
    pub cancelled: bool,
    pub cancel_reason: Option<CancelReason>,
}

/// What an execution was declared with.
#[derive(Debug)]
pub struct ExecutionDeclaration {
    pub id: ExecutionId,
    pub invocation: InvocationId,
    pub predecessor: Option<ExecutionId>,
    pub start: EngineStart,
    pub middleware_state: MiddlewareState,
}

/// One execution: its declaration and how it ended.
#[derive(Debug)]
pub struct ExecutionState {
    pub declaration: ExecutionDeclaration,
    pub exit: Option<EngineExit>,
}

/// A run-level note.
#[derive(Debug)]
pub struct RunNote {
    pub execution: Option<ExecutionId>,
    pub kind: String,
    pub payload: Json,
}

/// The replayed state of a coordinator log.
#[derive(Debug)]
pub struct CoordinatorState {
    pub root: Option<InvocationId>,
    pub graphs: Vec<GraphDigest>,
    pub middleware_chain: Arc<Vec<String>>,
    /// Every invocation, in id order.
    pub invocations: Vec<InvocationState>,
    /// Every execution, in id order.
    pub executions: Vec<ExecutionState>,
    pub run_status: Option<RunStatus>,
    pub paused: bool,
    pub run_notes: Arc<Vec<RunNote>>,
}

/// Why a coordinator log does not replay.
#[allow(inconsistent_fields)]
#[derive(Clone, Copy, Debug, PartialEq, Eq, Structural)]
pub enum StateError {
    /// A record is out of its place.
    Sequence { index: usize, found: u64 },
    MissingRunStart,
    UnknownInvocation(InvocationId),
    UnknownExecution(ExecutionId),
    MiddlewareChain,
}

/// Why a run's store does not open.
#[allow(inconsistent_fields)]
#[derive(Clone, Copy, Debug, PartialEq, Eq, Structural)]
pub enum StoreError {
    /// The run was written in another format.
    UnsupportedFormat { found: u32, expected: u32 },
    /// The coordinator log does not replay.
    State(StateError),
}

/// Whether this build reads a run, by the format its declaration names. A
/// run of another format is refused, never migrated.
pub fn check_format(found: u32) -> (checked: Result<(), StoreError>)
    ensures
        checked == (if found == COORDINATOR_FORMAT_VERSION {
            Ok::<(), StoreError>(())
        } else {
            Err(StoreError::UnsupportedFormat { found, expected: COORDINATOR_FORMAT_VERSION })
        }),
{
    if found == COORDINATOR_FORMAT_VERSION {
        Ok(())
    } else {
        Err(StoreError::UnsupportedFormat { found, expected: COORDINATOR_FORMAT_VERSION })
    }
}

impl CoordinatorState {
    /// Invocations and executions are in id order, each once.
    pub open spec fn in_order(&self) -> bool {
        &&& forall|i: int, j: int|
            0 <= i < j < self.invocations@.len() ==> (#[trigger] self.invocations@[i]).declaration.id.0
                < (#[trigger] self.invocations@[j]).declaration.id.0
        &&& forall|i: int, j: int|
            0 <= i < j < self.executions@.len() ==> (#[trigger] self.executions@[i]).declaration.id.0
                < (#[trigger] self.executions@[j]).declaration.id.0
    }

    /// Whether invocations and executions are in id order, each once.
    pub fn is_in_order(&self) -> (ordered: bool)
        ensures
            ordered == self.in_order(),
    {
        let mut i: usize = 1;
        while i < self.invocations.len()
            invariant
                1 <= i,
                forall|j: int, k: int|
                    0 <= j < k < i && k < self.invocations@.len() ==> (
                    #[trigger] self.invocations@[j]).declaration.id.0 < (
                    #[trigger] self.invocations@[k]).declaration.id.0,
            decreases self.invocations.len() - i,
        {
            if self.invocations[i - 1].declaration.id.0 >= self.invocations[i].declaration.id.0 {
                assert(!(self.invocations@[i - 1].declaration.id.0
                    < self.invocations@[i as int].declaration.id.0));
                return false;
            }
            i = i + 1;
        }
        let mut i: usize = 1;
        while i < self.executions.len()
            invariant
                1 <= i,
                forall|j: int, k: int|
                    0 <= j < k < i && k < self.executions@.len() ==> (
                    #[trigger] self.executions@[j]).declaration.id.0 < (
                    #[trigger] self.executions@[k]).declaration.id.0,
            decreases self.executions.len() - i,
        {
            if self.executions[i - 1].declaration.id.0 >= self.executions[i].declaration.id.0 {
                assert(!(self.executions@[i - 1].declaration.id.0
                    < self.executions@[i as int].declaration.id.0));
                return false;
            }
            i = i + 1;
        }
        true
    }

    /// In a state that is in order, every invocation and every execution is
    /// the one its id finds.
    pub proof fn law_found_by_its_id(&self, i: int, k: int)
        requires
            self.in_order(),
            0 <= i < self.invocations@.len(),
            0 <= k < self.executions@.len(),
        ensures
            self.spec_invocation(self.invocations@[i].declaration.id) == Some(
                self.invocations@[i],
            ),
            self.spec_execution(self.executions@[k].declaration.id) == Some(self.executions@[k]),
    {
        let invocation = self.invocations@[i].declaration.id;
        let p = |other: InvocationState| other.declaration.id == invocation;
        assert forall|j: int| 0 <= j < i implies !p(#[trigger] self.invocations@[j]) by {
            assert(self.invocations@[j].declaration.id.0 < self.invocations@[i].declaration.id.0);
        }
        lemma_first_found(self.invocations@, p, i);
        let execution = self.executions@[k].declaration.id;
        let q = |other: ExecutionState| other.declaration.id == execution;
        assert forall|j: int| 0 <= j < k implies !q(#[trigger] self.executions@[j]) by {
            assert(self.executions@[j].declaration.id.0 < self.executions@[k].declaration.id.0);
        }
        lemma_first_found(self.executions@, q, k);
    }

    /// The invocation with an id.
    pub open spec fn spec_invocation(&self, id: InvocationId) -> Option<InvocationState> {
        first_where(self.invocations@, |invocation: InvocationState| invocation.declaration.id == id)
    }

    /// The execution with an id.
    pub open spec fn spec_execution(&self, id: ExecutionId) -> Option<ExecutionState> {
        first_where(self.executions@, |execution: ExecutionState| execution.declaration.id == id)
    }

    /// The invocation an execution belongs to.
    pub open spec fn owner_of(&self, execution: ExecutionId) -> Option<InvocationId> {
        match self.spec_execution(execution) {
            Some(execution) => Some(execution.declaration.invocation),
            None => None,
        }
    }

    /// The invocation with an id.
    pub fn invocation(&self, id: InvocationId) -> (found: Option<&InvocationState>)
        ensures
            found == (match self.spec_invocation(id) {
                Some(invocation) => Some(&invocation),
                None => None,
            }),
    {
        let ghost p = |invocation: InvocationState| invocation.declaration.id == id;
        let mut i: usize = 0;
        while i < self.invocations.len()
            invariant
                i <= self.invocations.len(),
                p == (|invocation: InvocationState| invocation.declaration.id == id),
                forall|j: int| 0 <= j < i ==> !p(#[trigger] self.invocations@[j]),
            decreases self.invocations.len() - i,
        {
            if self.invocations[i].declaration.id == id {
                proof {
                    lemma_first_found(self.invocations@, p, i as int);
                }
                return Some(&self.invocations[i]);
            }
            i = i + 1;
        }
        proof {
            lemma_first_absent(self.invocations@, p);
        }
        None
    }

    /// The execution with an id.
    pub fn execution(&self, id: ExecutionId) -> (found: Option<&ExecutionState>)
        ensures
            found == (match self.spec_execution(id) {
                Some(execution) => Some(&execution),
                None => None,
            }),
    {
        let ghost p = |execution: ExecutionState| execution.declaration.id == id;
        let mut i: usize = 0;
        while i < self.executions.len()
            invariant
                i <= self.executions.len(),
                p == (|execution: ExecutionState| execution.declaration.id == id),
                forall|j: int| 0 <= j < i ==> !p(#[trigger] self.executions@[j]),
            decreases self.executions.len() - i,
        {
            if self.executions[i].declaration.id == id {
                proof {
                    lemma_first_found(self.executions@, p, i as int);
                }
                return Some(&self.executions[i]);
            }
            i = i + 1;
        }
        proof {
            lemma_first_absent(self.executions@, p);
        }
        None
    }

    /// The invocation an execution belongs to.
    pub fn owner(&self, execution: ExecutionId) -> (owner: Option<InvocationId>)
        ensures
            owner == self.owner_of(execution),
    {
        match self.execution(execution) {
            Some(execution) => Some(execution.declaration.invocation),
            None => None,
        }
    }

    /// Whether a graph is registered.
    pub fn has_graph(&self, digest: GraphDigest) -> (found: bool)
        ensures
            found == self.graphs@.contains(digest),
    {
        let mut i: usize = 0;
        while i < self.graphs.len()
            invariant
                i <= self.graphs.len(),
                forall|j: int| 0 <= j < i ==> (#[trigger] self.graphs@[j]) != digest,
            decreases self.graphs.len() - i,
        {
            if self.graphs[i] == digest {
                assert(self.graphs@[i as int] == digest);
                return true;
            }
            i = i + 1;
        }
        false
    }
}

} // verus!

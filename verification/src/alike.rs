//! When two values that are stored apart are the same value.

use crate::event::{
    same_admission, same_bindings, admissions_match, CoordinatorEvent, CoordinatorRecord,
    ForkOrigin, InvocationResult, ParentCallKey, ScopeIdentity,
};
use crate::hooks::HookActivity;
use crate::ids::NodeId;
use crate::json::{fields_match, same_fields, same_value, Json};
use crate::model::{
    failures_match, same_failure, same_outcome, Node, Outcome, Token,
};
use crate::note::{Note, Parsed};
use crate::record::{
    Admission, Control, EngineStart, Event, EventRecord, GroupDecision, Intervention,
    RouteDecision, SpliceClone, StepEvent, StoredEngineRecord, SubgraphSplice,
};
use crate::state::BranchRef;
use crate::steps::{Answer, Question, QuestionExpired, QuestionOption};
use std::sync::Arc;
use vstd::prelude::*;

verus! {

/// A value that can be the same as another that is stored apart from it.
pub trait Alike {
    spec fn alike(&self, other: &Self) -> bool;

    /// Whether the values are the same.
    fn is_alike(&self, other: &Self) -> (same: bool)
        ensures
            same == self.alike(other),
    ;
}

/// Whether two lists are the same, item by item.
pub open spec fn alike_lists<T: Alike>(a: Seq<T>, b: Seq<T>) -> bool {
    &&& a.len() == b.len()
    &&& forall|i: int| 0 <= i < a.len() ==> (#[trigger] a[i]).alike(&b[i])
}

impl<T: Alike> Alike for Vec<T> {
    open spec fn alike(&self, other: &Self) -> bool {
        alike_lists(self@, other@)
    }

    fn is_alike(&self, other: &Self) -> (same: bool) {
        if self.len() != other.len() {
            return false;
        }
        let mut i: usize = 0;
        while i < self.len()
            invariant
                i <= self.len(),
                self@.len() == other@.len(),
                forall|j: int| 0 <= j < i ==> (#[trigger] self@[j]).alike(&other@[j]),
            decreases self.len() - i,
        {
            if !self[i].is_alike(&other[i]) {
                assert(!self@[i as int].alike(&other@[i as int]));
                return false;
            }
            i = i + 1;
        }
        true
    }
}

impl<T: Alike> Alike for Option<T> {
    open spec fn alike(&self, other: &Self) -> bool {
        match (*self, *other) {
            (Some(a), Some(b)) => a.alike(&b),
            (None, None) => true,
            _ => false,
        }
    }

    fn is_alike(&self, other: &Self) -> (same: bool) {
        match (self, other) {
            (Some(a), Some(b)) => a.is_alike(b),
            (None, None) => true,
            _ => false,
        }
    }
}

impl<T: Alike> Alike for Arc<T> {
    open spec fn alike(&self, other: &Self) -> bool {
        (**self).alike(&**other)
    }

    fn is_alike(&self, other: &Self) -> (same: bool) {
        (**self).is_alike(&**other)
    }
}

impl<A: Alike, B: Alike> Alike for (A, B) {
    open spec fn alike(&self, other: &Self) -> bool {
        self.0.alike(&other.0) && self.1.alike(&other.1)
    }

    fn is_alike(&self, other: &Self) -> (same: bool) {
        self.0.is_alike(&other.0) && self.1.is_alike(&other.1)
    }
}

impl Alike for String {
    open spec fn alike(&self, other: &Self) -> bool {
        self@ == other@
    }

    fn is_alike(&self, other: &Self) -> (same: bool) {
        *self == *other
    }
}

impl Alike for u32 {
    open spec fn alike(&self, other: &Self) -> bool {
        *self == *other
    }

    fn is_alike(&self, other: &Self) -> (same: bool) {
        *self == *other
    }
}

impl Alike for NodeId {
    open spec fn alike(&self, other: &Self) -> bool {
        *self == *other
    }

    fn is_alike(&self, other: &Self) -> (same: bool) {
        *self == *other
    }
}

impl Alike for BranchRef {
    open spec fn alike(&self, other: &Self) -> bool {
        *self == *other
    }

    fn is_alike(&self, other: &Self) -> (same: bool) {
        *self == *other
    }
}

impl Alike for Json {
    open spec fn alike(&self, other: &Self) -> bool {
        same_value(self@, other@)
    }

    fn is_alike(&self, other: &Self) -> (same: bool) {
        self.same(other)
    }
}

impl Alike for Outcome {
    open spec fn alike(&self, other: &Self) -> bool {
        same_outcome(*self, *other)
    }

    fn is_alike(&self, other: &Self) -> (same: bool) {
        self.same(other)
    }
}

impl Alike for Token {
    open spec fn alike(&self, other: &Self) -> bool {
        self.from == other.from && self.payload.alike(&other.payload)
    }

    fn is_alike(&self, other: &Self) -> (same: bool) {
        self.from == other.from && self.payload.is_alike(&other.payload)
    }
}

impl Alike for Node {
    open spec fn alike(&self, other: &Self) -> bool {
        &&& self.id == other.id
        &&& self.name.alike(&other.name)
        &&& self.kind.alike(&other.kind)
        &&& self.meta.alike(&other.meta)
    }

    fn is_alike(&self, other: &Self) -> (same: bool) {
        self.id == other.id && self.name.is_alike(&other.name) && self.kind.is_alike(&other.kind)
            && self.meta.is_alike(&other.meta)
    }
}

// ── Engine records ─────────────────────────────────────────────────────

impl Alike for EngineStart {
    open spec fn alike(&self, other: &Self) -> bool {
        &&& self.entry == other.entry
        &&& same_fields(self.context@, other.context@)
        &&& self.prior_firings.alike(&other.prior_firings)
        &&& self.execution_index == other.execution_index
        &&& self.max_executions == other.max_executions
    }

    fn is_alike(&self, other: &Self) -> (same: bool) {
        self.entry == other.entry && fields_match(&self.context, &other.context)
            && self.prior_firings.is_alike(&other.prior_firings) && self.execution_index
            == other.execution_index && self.max_executions == other.max_executions
    }
}

impl Alike for Admission {
    open spec fn alike(&self, other: &Self) -> bool {
        match (*self, *other) {
            (Admission::Admit, Admission::Admit) => true,
            (Admission::Skip { outcome: a }, Admission::Skip { outcome: b }) => a.alike(&b),
            (Admission::Block { reason: a }, Admission::Block { reason: b }) => a.alike(&b),
            _ => false,
        }
    }

    fn is_alike(&self, other: &Self) -> (same: bool) {
        match (self, other) {
            (Admission::Admit, Admission::Admit) => true,
            (Admission::Skip { outcome: a }, Admission::Skip { outcome: b }) => a.is_alike(b),
            (Admission::Block { reason: a }, Admission::Block { reason: b }) => a.is_alike(b),
            _ => false,
        }
    }
}

impl Alike for RouteDecision {
    open spec fn alike(&self, other: &Self) -> bool {
        match (*self, *other) {
            (RouteDecision::Emit(a), RouteDecision::Emit(b)) => a == b,
            (RouteDecision::Jump(a), RouteDecision::Jump(b)) => a == b,
            (RouteDecision::Nothing, RouteDecision::Nothing) => true,
            (RouteDecision::Block { reason: a }, RouteDecision::Block { reason: b }) => a.alike(&b),
            _ => false,
        }
    }

    fn is_alike(&self, other: &Self) -> (same: bool) {
        match (self, other) {
            (RouteDecision::Emit(a), RouteDecision::Emit(b)) => *a == *b,
            (RouteDecision::Jump(a), RouteDecision::Jump(b)) => *a == *b,
            (RouteDecision::Nothing, RouteDecision::Nothing) => true,
            (RouteDecision::Block { reason: a }, RouteDecision::Block { reason: b }) => a.is_alike(
                b,
            ),
            _ => false,
        }
    }
}

impl Alike for Intervention {
    open spec fn alike(&self, other: &Self) -> bool {
        match (*self, *other) {
            (
                Intervention::Override { middleware: a, edge: x },
                Intervention::Override { middleware: b, edge: y },
            ) => a.alike(&b) && x == y,
            (
                Intervention::Jump { middleware: a, target: x },
                Intervention::Jump { middleware: b, target: y },
            ) => a.alike(&b) && x == y,
            (
                Intervention::Block { middleware: a, reason: x },
                Intervention::Block { middleware: b, reason: y },
            ) => a.alike(&b) && x.alike(&y),
            _ => false,
        }
    }

    fn is_alike(&self, other: &Self) -> (same: bool) {
        match (self, other) {
            (
                Intervention::Override { middleware: a, edge: x },
                Intervention::Override { middleware: b, edge: y },
            ) => a.is_alike(b) && *x == *y,
            (
                Intervention::Jump { middleware: a, target: x },
                Intervention::Jump { middleware: b, target: y },
            ) => a.is_alike(b) && *x == *y,
            (
                Intervention::Block { middleware: a, reason: x },
                Intervention::Block { middleware: b, reason: y },
            ) => a.is_alike(b) && x.is_alike(y),
            _ => false,
        }
    }
}

impl Alike for GroupDecision {
    open spec fn alike(&self, other: &Self) -> bool {
        &&& self.group == other.group
        &&& self.draw.alike(&other.draw)
        &&& self.trace.alike(&other.trace)
        &&& self.decision.alike(&other.decision)
    }

    fn is_alike(&self, other: &Self) -> (same: bool) {
        self.group == other.group && self.draw.is_alike(&other.draw) && self.trace.is_alike(
            &other.trace,
        ) && self.decision.is_alike(&other.decision)
    }
}

impl Alike for Control {
    open spec fn alike(&self, other: &Self) -> bool {
        match (*self, *other) {
            (Control::Deliver(a), Control::Deliver(b)) => a.alike(&b),
            (Control::Cancel, Control::Cancel) => true,
            (Control::Kill, Control::Kill) => true,
            (Control::Other, Control::Other) => true,
            _ => false,
        }
    }

    fn is_alike(&self, other: &Self) -> (same: bool) {
        match (self, other) {
            (Control::Deliver(a), Control::Deliver(b)) => a.is_alike(b),
            (Control::Cancel, Control::Cancel) => true,
            (Control::Kill, Control::Kill) => true,
            (Control::Other, Control::Other) => true,
            _ => false,
        }
    }
}

impl Alike for StepEvent {
    open spec fn alike(&self, other: &Self) -> bool {
        match (*self, *other) {
            (StepEvent::Log { stream: a, line: x }, StepEvent::Log { stream: b, line: y }) => a == b
                && x.alike(&y),
            (
                StepEvent::Artifact { name: a, uri: x },
                StepEvent::Artifact { name: b, uri: y },
            ) => a.alike(&b) && x.alike(&y),
            (StepEvent::Custom(a), StepEvent::Custom(b)) => a.alike(&b),
            _ => false,
        }
    }

    fn is_alike(&self, other: &Self) -> (same: bool) {
        match (self, other) {
            (StepEvent::Log { stream: a, line: x }, StepEvent::Log { stream: b, line: y }) => *a
                == *b && x.is_alike(y),
            (
                StepEvent::Artifact { name: a, uri: x },
                StepEvent::Artifact { name: b, uri: y },
            ) => a.is_alike(b) && x.is_alike(y),
            (StepEvent::Custom(a), StepEvent::Custom(b)) => a.is_alike(b),
            _ => false,
        }
    }
}

impl Alike for SpliceClone {
    open spec fn alike(&self, other: &Self) -> bool {
        &&& self.index == other.index
        &&& self.entry == other.entry
        &&& self.nodes.alike(&other.nodes)
        &&& self.placeholder == other.placeholder
    }

    fn is_alike(&self, other: &Self) -> (same: bool) {
        self.index == other.index && self.entry == other.entry && self.nodes.is_alike(&other.nodes)
            && self.placeholder == other.placeholder
    }
}

impl Alike for SubgraphSplice {
    open spec fn alike(&self, other: &Self) -> bool {
        self.generation == other.generation && self.clones.alike(&other.clones)
    }

    fn is_alike(&self, other: &Self) -> (same: bool) {
        self.generation == other.generation && self.clones.is_alike(&other.clones)
    }
}

impl Alike for Event {
    open spec fn alike(&self, other: &Self) -> bool {
        match (*self, *other) {
            (
                Event::ExecutionStarted { start: a },
                Event::ExecutionStarted { start: b },
            ) => a.alike(&b),
            (
                Event::AdmissionDecided { decision_id: a, decision: x, trace: s },
                Event::AdmissionDecided { decision_id: b, decision: y, trace: t },
            ) => a == b && x.alike(&y) && s.alike(&t),
            (
                Event::StepStarted { firing: a, attempt: x },
                Event::StepStarted { firing: b, attempt: y },
            ) => a == b && x == y,
            (
                Event::StepProgressRecorded { firing: a, ev: x },
                Event::StepProgressRecorded { firing: b, ev: y },
            ) => a == b && x.alike(&y),
            (
                Event::StepFinished { firing: a, attempt: x, outcome: s },
                Event::StepFinished { firing: b, attempt: y, outcome: t },
            ) => a == b && x == y && s.alike(&t),
            (
                Event::RetryElapsed { firing: a, next_attempt: x },
                Event::RetryElapsed { firing: b, next_attempt: y },
            ) => a == b && x == y,
            (
                Event::RoutingResolved { decision_id: a, groups: x },
                Event::RoutingResolved { decision_id: b, groups: y },
            ) => a == b && x.alike(&y),
            (Event::RouteApplied { applied: a }, Event::RouteApplied { applied: b }) => a == b,
            (Event::TokenEmitted { token: a }, Event::TokenEmitted { token: b }) => a.alike(&b),
            (
                Event::NodeExpanded { node: a, splice: x },
                Event::NodeExpanded { node: b, splice: y },
            ) => a == b && x.alike(&y),
            (
                Event::ControlRequested { firing: a, ctl: x },
                Event::ControlRequested { firing: b, ctl: y },
            ) => a == b && x.alike(&y),
            (Event::CancelRequested { target: a }, Event::CancelRequested { target: b }) => a == b,
            (Event::KillRequested { scope: a }, Event::KillRequested { scope: b }) => a == b,
            (
                Event::ScopeAcquired { scope: a, detail: x },
                Event::ScopeAcquired { scope: b, detail: y },
            ) => a == b && x.alike(&y),
            (
                Event::ScopeFailed { scope: a, detail: x },
                Event::ScopeFailed { scope: b, detail: y },
            ) => a == b && x.alike(&y),
            _ => false,
        }
    }

    fn is_alike(&self, other: &Self) -> (same: bool) {
        match (self, other) {
            (
                Event::ExecutionStarted { start: a },
                Event::ExecutionStarted { start: b },
            ) => a.is_alike(b),
            (
                Event::AdmissionDecided { decision_id: a, decision: x, trace: s },
                Event::AdmissionDecided { decision_id: b, decision: y, trace: t },
            ) => *a == *b && x.is_alike(y) && s.is_alike(t),
            (
                Event::StepStarted { firing: a, attempt: x },
                Event::StepStarted { firing: b, attempt: y },
            ) => *a == *b && *x == *y,
            (
                Event::StepProgressRecorded { firing: a, ev: x },
                Event::StepProgressRecorded { firing: b, ev: y },
            ) => *a == *b && x.is_alike(y),
            (
                Event::StepFinished { firing: a, attempt: x, outcome: s },
                Event::StepFinished { firing: b, attempt: y, outcome: t },
            ) => *a == *b && *x == *y && s.is_alike(t),
            (
                Event::RetryElapsed { firing: a, next_attempt: x },
                Event::RetryElapsed { firing: b, next_attempt: y },
            ) => *a == *b && *x == *y,
            (
                Event::RoutingResolved { decision_id: a, groups: x },
                Event::RoutingResolved { decision_id: b, groups: y },
            ) => *a == *b && x.is_alike(y),
            (Event::RouteApplied { applied: a }, Event::RouteApplied { applied: b }) => *a == *b,
            (Event::TokenEmitted { token: a }, Event::TokenEmitted { token: b }) => a.is_alike(b),
            (
                Event::NodeExpanded { node: a, splice: x },
                Event::NodeExpanded { node: b, splice: y },
            ) => *a == *b && x.is_alike(y),
            (
                Event::ControlRequested { firing: a, ctl: x },
                Event::ControlRequested { firing: b, ctl: y },
            ) => *a == *b && x.is_alike(y),
            (Event::CancelRequested { target: a }, Event::CancelRequested { target: b }) => *a
                == *b,
            (Event::KillRequested { scope: a }, Event::KillRequested { scope: b }) => *a == *b,
            (
                Event::ScopeAcquired { scope: a, detail: x },
                Event::ScopeAcquired { scope: b, detail: y },
            ) => *a == *b && x.is_alike(y),
            (
                Event::ScopeFailed { scope: a, detail: x },
                Event::ScopeFailed { scope: b, detail: y },
            ) => *a == *b && x.is_alike(y),
            _ => false,
        }
    }
}

impl Alike for EventRecord {
    open spec fn alike(&self, other: &Self) -> bool {
        self.seq == other.seq && self.origin == other.origin && self.event.alike(&other.event)
    }

    fn is_alike(&self, other: &Self) -> (same: bool) {
        self.seq == other.seq && self.origin == other.origin && self.event.is_alike(&other.event)
    }
}

impl Alike for StoredEngineRecord {
    open spec fn alike(&self, other: &Self) -> bool {
        &&& self.seq == other.seq
        &&& self.origin == other.origin
        &&& self.recorded_at == other.recorded_at
        &&& self.body.alike(&other.body)
    }

    fn is_alike(&self, other: &Self) -> (same: bool) {
        self.seq == other.seq && self.origin == other.origin && self.recorded_at
            == other.recorded_at && self.body.is_alike(&other.body)
    }
}

// ── Coordinator records ────────────────────────────────────────────────

impl Alike for ForkOrigin {
    open spec fn alike(&self, other: &Self) -> bool {
        self.source.alike(&other.source) && self.position == other.position && self.rerun_last
            == other.rerun_last
    }

    fn is_alike(&self, other: &Self) -> (same: bool) {
        self.source.is_alike(&other.source) && self.position == other.position && self.rerun_last
            == other.rerun_last
    }
}

impl Alike for ParentCallKey {
    open spec fn alike(&self, other: &Self) -> bool {
        self.parent == other.parent && self.firing == other.firing && self.attempt == other.attempt
            && self.slot.alike(&other.slot)
    }

    fn is_alike(&self, other: &Self) -> (same: bool) {
        self.parent == other.parent && self.firing == other.firing && self.attempt == other.attempt
            && self.slot.is_alike(&other.slot)
    }
}

impl Alike for ScopeIdentity {
    open spec fn alike(&self, other: &Self) -> bool {
        match (*self, *other) {
            (ScopeIdentity::Declared(a), ScopeIdentity::Declared(b)) => a == b,
            (ScopeIdentity::Spliced(a), ScopeIdentity::Spliced(b)) => a.alike(&b),
            _ => false,
        }
    }

    fn is_alike(&self, other: &Self) -> (same: bool) {
        match (self, other) {
            (ScopeIdentity::Declared(a), ScopeIdentity::Declared(b)) => *a == *b,
            (ScopeIdentity::Spliced(a), ScopeIdentity::Spliced(b)) => a.is_alike(b),
            _ => false,
        }
    }
}

impl Alike for InvocationResult {
    open spec fn alike(&self, other: &Self) -> bool {
        &&& self.status == other.status
        &&& same_failure(self.failure, other.failure)
        &&& self.final_execution == other.final_execution
        &&& self.output.alike(&other.output)
        &&& same_fields(self.context@, other.context@)
        &&& same_fields(self.updates@, other.updates@)
    }

    fn is_alike(&self, other: &Self) -> (same: bool) {
        self.status == other.status && failures_match(&self.failure, &other.failure)
            && self.final_execution == other.final_execution && self.output.is_alike(&other.output)
            && fields_match(&self.context, &other.context) && fields_match(
            &self.updates,
            &other.updates,
        )
    }
}

impl Alike for CoordinatorEvent {
    open spec fn alike(&self, other: &Self) -> bool {
        match (*self, *other) {
            (
                CoordinatorEvent::RunStarted {
                    format_version: a,
                    key: b,
                    root: c,
                    middleware_chain: d,
                    forked_from: e,
                },
                CoordinatorEvent::RunStarted {
                    format_version: v,
                    key: w,
                    root: x,
                    middleware_chain: y,
                    forked_from: z,
                },
            ) => a == v && b.alike(&w) && c == x && d.alike(&y) && e.alike(&z),
            (
                CoordinatorEvent::GraphRegistered { digest: a },
                CoordinatorEvent::GraphRegistered { digest: b },
            ) => a == b,
            (
                CoordinatorEvent::InvocationDeclared {
                    invocation: a,
                    call: b,
                    graph: c,
                    context: d,
                    secret_bindings: e,
                    sandbox: f,
                    admission: g,
                },
                CoordinatorEvent::InvocationDeclared {
                    invocation: t,
                    call: u,
                    graph: v,
                    context: w,
                    secret_bindings: x,
                    sandbox: y,
                    admission: z,
                },
            ) => a == t && b.alike(&u) && c == v && same_fields(d@, w@) && same_bindings(e, x) && f
                == y && same_admission(g, z),
            (
                CoordinatorEvent::ExecutionDeclared {
                    execution: a,
                    invocation: b,
                    predecessor: c,
                    start: d,
                    middleware_state: e,
                },
                CoordinatorEvent::ExecutionDeclared {
                    execution: v,
                    invocation: w,
                    predecessor: x,
                    start: y,
                    middleware_state: z,
                },
            ) => a == v && b == w && c == x && d.alike(&y) && e.alike(&z),
            (
                CoordinatorEvent::ExecutionFinished { execution: a, exit: x },
                CoordinatorEvent::ExecutionFinished { execution: b, exit: y },
            ) => a == b && x == y,
            (
                CoordinatorEvent::InvocationFinished { invocation: a, result: x },
                CoordinatorEvent::InvocationFinished { invocation: b, result: y },
            ) => a == b && x.alike(&y),
            (
                CoordinatorEvent::InvocationCancelRequested { invocation: a, reason: x },
                CoordinatorEvent::InvocationCancelRequested { invocation: b, reason: y },
            ) => a == b && x == y,
            (CoordinatorEvent::RunPaused, CoordinatorEvent::RunPaused) => true,
            (CoordinatorEvent::RunUnpaused, CoordinatorEvent::RunUnpaused) => true,
            (
                CoordinatorEvent::RunNoteRecorded { execution: a, kind: x, payload: s },
                CoordinatorEvent::RunNoteRecorded { execution: b, kind: y, payload: t },
            ) => a == b && x.alike(&y) && s.alike(&t),
            (
                CoordinatorEvent::ScopeReleased {
                    invocation: a,
                    lease: b,
                    scope: c,
                    workspace: d,
                    provider: e,
                    instance: f,
                    outcome: g,
                    retained: h,
                    problems: i,
                },
                CoordinatorEvent::ScopeReleased {
                    invocation: r,
                    lease: s,
                    scope: t,
                    workspace: u,
                    provider: v,
                    instance: w,
                    outcome: x,
                    retained: y,
                    problems: z,
                },
            ) => a == r && b == s && c.alike(&t) && d.alike(&u) && e.alike(&v) && f.alike(&w) && g
                == x && h == y && i.alike(&z),
            (
                CoordinatorEvent::RunFinished { status: a },
                CoordinatorEvent::RunFinished { status: b },
            ) => a == b,
            _ => false,
        }
    }

    fn is_alike(&self, other: &Self) -> (same: bool) {
        match (self, other) {
            (
                CoordinatorEvent::RunStarted {
                    format_version: a,
                    key: b,
                    root: c,
                    middleware_chain: d,
                    forked_from: e,
                },
                CoordinatorEvent::RunStarted {
                    format_version: v,
                    key: w,
                    root: x,
                    middleware_chain: y,
                    forked_from: z,
                },
            ) => *a == *v && b.is_alike(w) && *c == *x && d.is_alike(y) && e.is_alike(z),
            (
                CoordinatorEvent::GraphRegistered { digest: a },
                CoordinatorEvent::GraphRegistered { digest: b },
            ) => *a == *b,
            (
                CoordinatorEvent::InvocationDeclared {
                    invocation: a,
                    call: b,
                    graph: c,
                    context: d,
                    secret_bindings: e,
                    sandbox: f,
                    admission: g,
                },
                CoordinatorEvent::InvocationDeclared {
                    invocation: t,
                    call: u,
                    graph: v,
                    context: w,
                    secret_bindings: x,
                    sandbox: y,
                    admission: z,
                },
            ) => *a == *t && b.is_alike(u) && *c == *v && fields_match(d, w) && e.same(x) && *f
                == *y && admissions_match(g, z),
            (
                CoordinatorEvent::ExecutionDeclared {
                    execution: a,
                    invocation: b,
                    predecessor: c,
                    start: d,
                    middleware_state: e,
                },
                CoordinatorEvent::ExecutionDeclared {
                    execution: v,
                    invocation: w,
                    predecessor: x,
                    start: y,
                    middleware_state: z,
                },
            ) => *a == *v && *b == *w && *c == *x && d.is_alike(y) && e.is_alike(z),
            (
                CoordinatorEvent::ExecutionFinished { execution: a, exit: x },
                CoordinatorEvent::ExecutionFinished { execution: b, exit: y },
            ) => *a == *b && *x == *y,
            (
                CoordinatorEvent::InvocationFinished { invocation: a, result: x },
                CoordinatorEvent::InvocationFinished { invocation: b, result: y },
            ) => *a == *b && x.is_alike(y),
            (
                CoordinatorEvent::InvocationCancelRequested { invocation: a, reason: x },
                CoordinatorEvent::InvocationCancelRequested { invocation: b, reason: y },
            ) => *a == *b && *x == *y,
            (CoordinatorEvent::RunPaused, CoordinatorEvent::RunPaused) => true,
            (CoordinatorEvent::RunUnpaused, CoordinatorEvent::RunUnpaused) => true,
            (
                CoordinatorEvent::RunNoteRecorded { execution: a, kind: x, payload: s },
                CoordinatorEvent::RunNoteRecorded { execution: b, kind: y, payload: t },
            ) => *a == *b && x.is_alike(y) && s.is_alike(t),
            (
                CoordinatorEvent::ScopeReleased {
                    invocation: a,
                    lease: b,
                    scope: c,
                    workspace: d,
                    provider: e,
                    instance: f,
                    outcome: g,
                    retained: h,
                    problems: i,
                },
                CoordinatorEvent::ScopeReleased {
                    invocation: r,
                    lease: s,
                    scope: t,
                    workspace: u,
                    provider: v,
                    instance: w,
                    outcome: x,
                    retained: y,
                    problems: z,
                },
            ) => *a == *r && *b == *s && c.is_alike(t) && d.is_alike(u) && e.is_alike(v)
                && f.is_alike(w) && *g == *x && *h == *y && i.is_alike(z),
            (
                CoordinatorEvent::RunFinished { status: a },
                CoordinatorEvent::RunFinished { status: b },
            ) => *a == *b,
            _ => false,
        }
    }
}

impl Alike for CoordinatorRecord {
    open spec fn alike(&self, other: &Self) -> bool {
        &&& self.seq == other.seq
        &&& self.origin == other.origin
        &&& self.recorded_at == other.recorded_at
        &&& self.body.alike(&other.body)
    }

    fn is_alike(&self, other: &Self) -> (same: bool) {
        self.seq == other.seq && self.origin == other.origin && self.recorded_at
            == other.recorded_at && self.body.is_alike(&other.body)
    }
}

// ── Step protocols ─────────────────────────────────────────────────────

impl Alike for QuestionOption {
    open spec fn alike(&self, other: &Self) -> bool {
        self.key.alike(&other.key) && self.label.alike(&other.label)
    }

    fn is_alike(&self, other: &Self) -> (same: bool) {
        self.key.is_alike(&other.key) && self.label.is_alike(&other.label)
    }
}

impl Alike for Question {
    open spec fn alike(&self, other: &Self) -> bool {
        &&& self.id.alike(&other.id)
        &&& self.kind.alike(&other.kind)
        &&& self.text.alike(&other.text)
        &&& self.options.alike(&other.options)
        &&& self.sensitive == other.sensitive
    }

    fn is_alike(&self, other: &Self) -> (same: bool) {
        self.id.is_alike(&other.id) && self.kind.is_alike(&other.kind) && self.text.is_alike(
            &other.text,
        ) && self.options.is_alike(&other.options) && self.sensitive == other.sensitive
    }
}

impl Alike for QuestionExpired {
    open spec fn alike(&self, other: &Self) -> bool {
        self.question.alike(&other.question) && self.waited_ms == other.waited_ms
            && self.default.alike(&other.default)
    }

    fn is_alike(&self, other: &Self) -> (same: bool) {
        self.question.is_alike(&other.question) && self.waited_ms == other.waited_ms
            && self.default.is_alike(&other.default)
    }
}

impl Alike for Answer {
    open spec fn alike(&self, other: &Self) -> bool {
        &&& self.question.alike(&other.question)
        &&& self.choice.alike(&other.choice)
        &&& self.choices.alike(&other.choices)
        &&& self.text.alike(&other.text)
    }

    fn is_alike(&self, other: &Self) -> (same: bool) {
        self.question.is_alike(&other.question) && self.choice.is_alike(&other.choice)
            && self.choices.is_alike(&other.choices) && self.text.is_alike(&other.text)
    }
}

impl Alike for Note {
    open spec fn alike(&self, other: &Self) -> bool {
        self.kind.alike(&other.kind) && self.payload.alike(&other.payload)
    }

    fn is_alike(&self, other: &Self) -> (same: bool) {
        self.kind.is_alike(&other.kind) && self.payload.is_alike(&other.payload)
    }
}

impl Alike for HookActivity {
    open spec fn alike(&self, other: &Self) -> bool {
        &&& self.hook.point == other.hook.point
        &&& self.hook.hook.alike(&other.hook.hook)
        &&& self.backend.alike(&other.backend)
        &&& self.envelope.alike(&other.envelope)
    }

    fn is_alike(&self, other: &Self) -> (same: bool) {
        self.hook.point == other.hook.point && self.hook.hook.is_alike(&other.hook.hook)
            && self.backend.is_alike(&other.backend) && self.envelope.is_alike(&other.envelope)
    }
}

impl Alike for Parsed {
    open spec fn alike(&self, other: &Self) -> bool {
        match (*self, *other) {
            (Parsed::Question { question: a }, Parsed::Question { question: b }) => a.alike(&b),
            (
                Parsed::QuestionExpired { expired: a },
                Parsed::QuestionExpired { expired: b },
            ) => a.alike(&b),
            (
                Parsed::Note { note: a, hook_activity: x, budget: s },
                Parsed::Note { note: b, hook_activity: y, budget: t },
            ) => a.alike(&b) && x.alike(&y) && s == t,
            _ => false,
        }
    }

    fn is_alike(&self, other: &Self) -> (same: bool) {
        match (self, other) {
            (Parsed::Question { question: a }, Parsed::Question { question: b }) => a.is_alike(b),
            (
                Parsed::QuestionExpired { expired: a },
                Parsed::QuestionExpired { expired: b },
            ) => a.is_alike(b),
            (
                Parsed::Note { note: a, hook_activity: x, budget: s },
                Parsed::Note { note: b, hook_activity: y, budget: t },
            ) => a.is_alike(b) && x.is_alike(y) && *s == *t,
            _ => false,
        }
    }
}

} // verus!

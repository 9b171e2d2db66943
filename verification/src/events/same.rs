//! When two events of public streams are the same event.

use crate::alike::{alike_lists, Alike};
use crate::events::{
    BranchResult, CloneModel, CloneRef, Context, Derived, DerivedModel, EventModel, GroupTarget,
    NodeRef, ParentLink, Record, RunEvent, Subject, ViewEvent, ViewModel,
};
use crate::json::same_value;
use crate::model::{same_status, statuses_match};
use vstd::prelude::*;

verus! {

impl Alike for NodeRef {
    open spec fn alike(&self, other: &Self) -> bool {
        &&& self.id == other.id
        &&& self.name.alike(&other.name)
        &&& self.kind.alike(&other.kind)
        &&& self.meta.alike(&other.meta)
    }

    fn is_alike(&self, other: &Self) -> (same: bool) {
        self.id == other.id && self.name.is_alike(&other.name) && self.kind.is_alike(&other.kind)
            && self.meta.is_alike(&other.meta)
    }
}

impl Alike for Subject {
    open spec fn alike(&self, other: &Self) -> bool {
        &&& self.node.alike(&other.node)
        &&& self.firing == other.firing
        &&& self.visit == other.visit
        &&& self.attempt == other.attempt
        &&& self.generation == other.generation
        &&& self.branch == other.branch
    }

    fn is_alike(&self, other: &Self) -> (same: bool) {
        self.node.is_alike(&other.node) && self.firing == other.firing && self.visit == other.visit
            && self.attempt == other.attempt && self.generation == other.generation && self.branch
            == other.branch
    }
}

impl Alike for ParentLink {
    open spec fn alike(&self, other: &Self) -> bool {
        &&& self.execution == other.execution
        &&& self.firing == other.firing
        &&& self.attempt == other.attempt
        &&& self.slot.alike(&other.slot)
    }

    fn is_alike(&self, other: &Self) -> (same: bool) {
        self.execution == other.execution && self.firing == other.firing && self.attempt
            == other.attempt && self.slot.is_alike(&other.slot)
    }
}

impl Alike for Context {
    open spec fn alike(&self, other: &Self) -> bool {
        &&& self.invocation == other.invocation
        &&& self.execution == other.execution
        &&& self.parent.alike(&other.parent)
    }

    fn is_alike(&self, other: &Self) -> (same: bool) {
        self.invocation == other.invocation && self.execution == other.execution
            && self.parent.is_alike(&other.parent)
    }
}

impl Alike for BranchResult {
    open spec fn alike(&self, other: &Self) -> bool {
        &&& self.branch == other.branch
        &&& self.node.alike(&other.node)
        &&& self.firing == other.firing
        &&& same_status(self.status, other.status)
        &&& self.payload.alike(&other.payload)
    }

    fn is_alike(&self, other: &Self) -> (same: bool) {
        self.branch == other.branch && self.node.is_alike(&other.node) && self.firing
            == other.firing && statuses_match(&self.status, &other.status)
            && self.payload.is_alike(&other.payload)
    }
}

impl Alike for GroupTarget {
    open spec fn alike(&self, other: &Self) -> bool {
        self.group == other.group && self.target.alike(&other.target)
    }

    fn is_alike(&self, other: &Self) -> (same: bool) {
        self.group == other.group && self.target.is_alike(&other.target)
    }
}

impl Alike for Record {
    open spec fn alike(&self, other: &Self) -> bool {
        match (*self, *other) {
            (Record::Coordinator(a), Record::Coordinator(b)) => a.alike(&b),
            (Record::Engine(a), Record::Engine(b)) => a.alike(&b),
            _ => false,
        }
    }

    fn is_alike(&self, other: &Self) -> (same: bool) {
        match (self, other) {
            (Record::Coordinator(a), Record::Coordinator(b)) => a.is_alike(b),
            (Record::Engine(a), Record::Engine(b)) => a.is_alike(b),
            _ => false,
        }
    }
}

/// Whether two view events are the same.
pub open spec fn same_view(a: ViewModel, b: ViewModel) -> bool {
    match (a, b) {
        (
            ViewModel::VisitStarted { inputs: a },
            ViewModel::VisitStarted { inputs: b },
        ) => a.alike(&b),
        (
            ViewModel::VisitCompleted { outcome: a, executed: x, attempts: s },
            ViewModel::VisitCompleted { outcome: b, executed: y, attempts: t },
        ) => a.alike(&b) && x == y && s == t,
        (
            ViewModel::RetryScheduled { next_attempt: a, base_delay_ms: x },
            ViewModel::RetryScheduled { next_attempt: b, base_delay_ms: y },
        ) => a == b && x == y,
        (
            ViewModel::WaitStateChanged { state: a },
            ViewModel::WaitStateChanged { state: b },
        ) => a == b,
        (
            ViewModel::ForkStarted { occurrence: a, branches: x },
            ViewModel::ForkStarted { occurrence: b, branches: y },
        ) => a == b && alike_lists(x, y),
        (
            ViewModel::BranchCompleted { occurrence: a, result: x },
            ViewModel::BranchCompleted { occurrence: b, result: y },
        ) => a == b && x.alike(&y),
        (
            ViewModel::ForkCompleted { occurrence: a, fork: x, results: s, disposition: p },
            ViewModel::ForkCompleted { occurrence: b, fork: y, results: t, disposition: q },
        ) => a == b && x.alike(&y) && alike_lists(s, t) && p == q,
        (
            ViewModel::RunStalled { stall_timeout_ms: a, idle_ms: x },
            ViewModel::RunStalled { stall_timeout_ms: b, idle_ms: y },
        ) => a == b && x == y,
        _ => false,
    }
}

fn views_match(a: &ViewEvent, b: &ViewEvent) -> (same: bool)
    ensures
        same == same_view(a@, b@),
{
    match (a, b) {
        (
            ViewEvent::VisitStarted { inputs: a },
            ViewEvent::VisitStarted { inputs: b },
        ) => a.is_alike(b),
        (
            ViewEvent::VisitCompleted { outcome: a, executed: x, attempts: s },
            ViewEvent::VisitCompleted { outcome: b, executed: y, attempts: t },
        ) => a.is_alike(b) && *x == *y && *s == *t,
        (
            ViewEvent::RetryScheduled { next_attempt: a, base_delay_ms: x },
            ViewEvent::RetryScheduled { next_attempt: b, base_delay_ms: y },
        ) => *a == *b && *x == *y,
        (
            ViewEvent::WaitStateChanged { state: a },
            ViewEvent::WaitStateChanged { state: b },
        ) => *a == *b,
        (
            ViewEvent::ForkStarted { occurrence: a, branches: x },
            ViewEvent::ForkStarted { occurrence: b, branches: y },
        ) => *a == *b && x.is_alike(y),
        (
            ViewEvent::BranchCompleted { occurrence: a, result: x },
            ViewEvent::BranchCompleted { occurrence: b, result: y },
        ) => *a == *b && x.is_alike(y),
        (
            ViewEvent::ForkCompleted { occurrence: a, fork: x, results: s, disposition: p },
            ViewEvent::ForkCompleted { occurrence: b, fork: y, results: t, disposition: q },
        ) => *a == *b && x.is_alike(y) && s.is_alike(t) && *p == *q,
        (
            ViewEvent::RunStalled { stall_timeout_ms: a, idle_ms: x },
            ViewEvent::RunStalled { stall_timeout_ms: b, idle_ms: y },
        ) => *a == *b && *x == *y,
        _ => false,
    }
}

/// Whether two clones' entries are the same.
pub open spec fn same_clone(a: CloneModel, b: CloneModel) -> bool {
    &&& a.index == b.index
    &&& a.entry == b.entry
    &&& a.name == b.name
    &&& a.kind == b.kind
    &&& same_value(a.meta@, b.meta@)
}

/// Whether two lists of clones' entries are the same.
pub open spec fn same_clones(a: Seq<CloneModel>, b: Seq<CloneModel>) -> bool {
    &&& a.len() == b.len()
    &&& forall|i: int| 0 <= i < a.len() ==> same_clone(#[trigger] a[i], b[i])
}

fn clones_match(a: &Vec<CloneRef>, b: &Vec<CloneRef>) -> (same: bool)
    ensures
        same == same_clones(
            a@.map_values(|clone: CloneRef| clone@),
            b@.map_values(|clone: CloneRef| clone@),
        ),
{
    let ghost x = a@.map_values(|clone: CloneRef| clone@);
    let ghost y = b@.map_values(|clone: CloneRef| clone@);
    if a.len() != b.len() {
        return false;
    }
    let mut i: usize = 0;
    while i < a.len()
        invariant
            i <= a.len(),
            a@.len() == b@.len(),
            x == a@.map_values(|clone: CloneRef| clone@),
            y == b@.map_values(|clone: CloneRef| clone@),
            forall|j: int| 0 <= j < i ==> same_clone(#[trigger] x[j], y[j]),
        decreases a.len() - i,
    {
        assert(x[i as int] == a@[i as int]@ && y[i as int] == b@[i as int]@);
        if a[i].index != b[i].index || !a[i].entry.is_alike(&b[i].entry) {
            assert(!same_clone(x[i as int], y[i as int]));
            return false;
        }
        i = i + 1;
    }
    true
}

/// Whether what was derived is the same.
pub open spec fn same_derived(a: Option<DerivedModel>, b: Option<DerivedModel>) -> bool {
    match (a, b) {
        (None, None) => true,
        (Some(DerivedModel::View(a)), Some(DerivedModel::View(b))) => same_view(a, b),
        (
            Some(DerivedModel::StepFinished { is_final: a, exhausted: x }),
            Some(DerivedModel::StepFinished { is_final: b, exhausted: y }),
        ) => a == b && x == y,
        (
            Some(DerivedModel::RoutingResolved { groups: a }),
            Some(DerivedModel::RoutingResolved { groups: b }),
        ) => alike_lists(a, b),
        (
            Some(DerivedModel::RouteApplied { target: a, transition: x, back: s }),
            Some(DerivedModel::RouteApplied { target: b, transition: y, back: t }),
        ) => a.alike(&b) && x == y && s == t,
        (
            Some(DerivedModel::NodeExpanded { clones: a }),
            Some(DerivedModel::NodeExpanded { clones: b }),
        ) => same_clones(a, b),
        (
            Some(DerivedModel::ControlRequested { deliverable: a, answer: x }),
            Some(DerivedModel::ControlRequested { deliverable: b, answer: y }),
        ) => a == b && x.alike(&y),
        (
            Some(DerivedModel::Parsed { parsed: a }),
            Some(DerivedModel::Parsed { parsed: b }),
        ) => a.alike(&b),
        _ => false,
    }
}

fn derived_match(a: &Option<Derived>, b: &Option<Derived>) -> (same: bool)
    ensures
        same == same_derived(crate::events::derived_model(*a), crate::events::derived_model(*b)),
{
    match (a, b) {
        (None, None) => true,
        (Some(Derived::View(a)), Some(Derived::View(b))) => views_match(a, b),
        (
            Some(Derived::StepFinished { is_final: a, exhausted: x }),
            Some(Derived::StepFinished { is_final: b, exhausted: y }),
        ) => *a == *b && *x == *y,
        (
            Some(Derived::RoutingResolved { groups: a }),
            Some(Derived::RoutingResolved { groups: b }),
        ) => a.is_alike(b),
        (
            Some(Derived::RouteApplied { target: a, transition: x, back: s }),
            Some(Derived::RouteApplied { target: b, transition: y, back: t }),
        ) => a.is_alike(b) && *x == *y && *s == *t,
        (
            Some(Derived::NodeExpanded { clones: a }),
            Some(Derived::NodeExpanded { clones: b }),
        ) => clones_match(a, b),
        (
            Some(Derived::ControlRequested { deliverable: a, answer: x }),
            Some(Derived::ControlRequested { deliverable: b, answer: y }),
        ) => *a == *b && x.is_alike(y),
        (Some(Derived::Parsed { parsed: a }), Some(Derived::Parsed { parsed: b })) => a.is_alike(b),
        _ => false,
    }
}

/// Whether two events are the same.
pub open spec fn same_event(a: EventModel, b: EventModel) -> bool {
    &&& a.id == b.id
    &&& a.origin == b.origin
    &&& a.context.alike(&b.context)
    &&& a.subject.alike(&b.subject)
    &&& a.observed_at == b.observed_at
    &&& a.recorded_at == b.recorded_at
    &&& a.record.alike(&b.record)
    &&& same_derived(a.derived, b.derived)
}

/// Whether two events are the same.
pub fn events_match(a: &RunEvent, b: &RunEvent) -> (same: bool)
    ensures
        same == same_event(a.model(), b.model()),
{
    a.id == b.id && a.origin == b.origin && a.context.is_alike(&b.context) && a.subject.is_alike(
        &b.subject,
    ) && a.observed_at == b.observed_at && a.recorded_at == b.recorded_at && a.record.is_alike(
        &b.record,
    ) && derived_match(&a.derived, &b.derived)
}

} // verus!

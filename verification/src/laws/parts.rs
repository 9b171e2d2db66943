//! When the parts of records and events are alike.

use crate::alike::Alike;
use crate::event::{ForkOrigin, InvocationResult, ParentCallKey, ScopeIdentity};
use crate::events::{BranchResult, Context, GroupTarget, NodeRef, ParentLink, Subject};
use crate::events::invert::InvertedRecord;
use crate::hooks::HookActivity;
use crate::json::{same_fields, same_value};
use crate::model::{same_failure, same_outcome, same_status, Node, Token};
use crate::note::{Note, Parsed};
use crate::record::{
    Admission, Control, EngineStart, GroupDecision, Intervention, RouteDecision, SpliceClone,
    StepEvent, SubgraphSplice,
};
use crate::steps::{Answer, Question, QuestionExpired, QuestionOption};
use vstd::prelude::*;

verus! {

/// Whether two lists of texts read alike.
pub open spec fn texts_alike(a: Seq<String>, b: Seq<String>) -> bool {
    a.len() == b.len() && forall|i: int| 0 <= i < a.len() ==> (#[trigger] a[i])@ == b[i]@
}

/// Whether two optional texts read alike.
pub open spec fn text_alike(a: Option<String>, b: Option<String>) -> bool {
    &&& a is Some <==> b is Some
    &&& a matches Some(x) ==> (b matches Some(y) ==> x@ == y@)
}

/// Nodes and references to nodes are alike when their ids, names, kinds and
/// metadata are; tokens when they come from one firing with the same payload.
pub proof fn law_when_nodes_are_alike(a: Node, b: Node, r: NodeRef, s: NodeRef, t: Token, u: Token)
    ensures
        a.alike(&b) <==> a.id == b.id && a.name@ == b.name@ && a.kind@ == b.kind@ && same_value(
            a.meta@,
            b.meta@,
        ),
        r.alike(&s) <==> r.id == s.id && r.name@ == s.name@ && r.kind@ == s.kind@ && same_value(
            r.meta@,
            s.meta@,
        ),
        t.alike(&u) <==> t.from == u.from && same_value(t.payload@, u.payload@),
{
}

/// Starts are alike when they enter the graph in one place, at one index,
/// under one limit, with the same context and the same counts.
pub proof fn law_when_starts_are_alike(a: EngineStart, b: EngineStart)
    ensures
        a.alike(&b) <==> a.entry == b.entry && a.execution_index == b.execution_index
            && a.max_executions == b.max_executions && same_fields(a.context@, b.context@)
            && a.prior_firings@.len() == b.prior_firings@.len() && forall|i: int|
            0 <= i < a.prior_firings@.len() ==> (#[trigger] a.prior_firings@[i]).0
                == b.prior_firings@[i].0 && a.prior_firings@[i].1 == b.prior_firings@[i].1,
{
    if a.alike(&b) {
        assert forall|i: int| 0 <= i < a.prior_firings@.len() implies (
        #[trigger] a.prior_firings@[i]).0 == b.prior_firings@[i].0 && a.prior_firings@[i].1
            == b.prior_firings@[i].1 by {
            assert(a.prior_firings@[i].alike(&b.prior_firings@[i]));
        }
    }
}

/// Admissions are alike when they are of one kind with the same outcome or
/// reason; route decisions when they lead to one place or block for the same
/// reason.
pub proof fn law_when_decisions_are_alike(
    a: Admission,
    b: Admission,
    r: RouteDecision,
    s: RouteDecision,
)
    ensures
        a.alike(&b) <==> match (a, b) {
            (Admission::Admit, Admission::Admit) => true,
            (Admission::Skip { outcome: x }, Admission::Skip { outcome: y }) => same_outcome(*x, *y),
            (Admission::Block { reason: x }, Admission::Block { reason: y }) => x@ == y@,
            _ => false,
        },
        r.alike(&s) <==> match (r, s) {
            (RouteDecision::Emit(x), RouteDecision::Emit(y)) => x == y,
            (RouteDecision::Jump(x), RouteDecision::Jump(y)) => x == y,
            (RouteDecision::Block { reason: x }, RouteDecision::Block { reason: y }) => x@ == y@,
            (RouteDecision::Nothing, RouteDecision::Nothing) => true,
            _ => false,
        },
{
}

/// Interventions are alike when one middleware did the same to the same end;
/// a group's decisions when its draw, trace and decision are.
pub proof fn law_when_interventions_are_alike(
    a: Intervention,
    b: Intervention,
    g: GroupDecision,
    h: GroupDecision,
)
    ensures
        a.alike(&b) <==> match (a, b) {
            (
                Intervention::Override { middleware: m, edge: x },
                Intervention::Override { middleware: n, edge: y },
            ) => m@ == n@ && x == y,
            (
                Intervention::Jump { middleware: m, target: x },
                Intervention::Jump { middleware: n, target: y },
            ) => m@ == n@ && x == y,
            (
                Intervention::Block { middleware: m, reason: x },
                Intervention::Block { middleware: n, reason: y },
            ) => m@ == n@ && x@ == y@,
            _ => false,
        },
        g.alike(&h) ==> g.group == h.group && same_value(g.draw@, h.draw@) && g.trace@.len()
            == h.trace@.len() && g.decision.alike(&h.decision),
        g.group == h.group && same_value(g.draw@, h.draw@) && g.trace@.len() == h.trace@.len()
            && g.decision.alike(&h.decision) && (forall|i: int|
            0 <= i < g.trace@.len() ==> (#[trigger] g.trace@[i]).alike(&h.trace@[i])) ==> g.alike(
            &h,
        ),
{
}

/// Controls are alike when they are of one kind and deliver the same value;
/// reports when they are of one kind and say the same.
pub proof fn law_when_controls_are_alike(a: Control, b: Control, s: StepEvent, t: StepEvent)
    ensures
        a.alike(&b) <==> match (a, b) {
            (Control::Deliver(x), Control::Deliver(y)) => same_value(x@, y@),
            (Control::Cancel, Control::Cancel) => true,
            (Control::Kill, Control::Kill) => true,
            (Control::Other, Control::Other) => true,
            _ => false,
        },
        s.alike(&t) <==> match (s, t) {
            (
                StepEvent::Log { stream: x, line: l },
                StepEvent::Log { stream: y, line: m },
            ) => x == y && l@ == m@,
            (
                StepEvent::Artifact { name: x, uri: u },
                StepEvent::Artifact { name: y, uri: v },
            ) => x@ == y@ && u@ == v@,
            (StepEvent::Custom(x), StepEvent::Custom(y)) => same_value(x@, y@),
            _ => false,
        },
{
}

/// Splices are alike when they are of one generation and their clones alike,
/// one by one; clones when they have one index, entry and nodes.
pub proof fn law_when_splices_are_alike(
    a: SubgraphSplice,
    b: SubgraphSplice,
    c: SpliceClone,
    d: SpliceClone,
)
    ensures
        a.alike(&b) <==> a.generation == b.generation && a.clones@.len() == b.clones@.len()
            && forall|i: int|
            0 <= i < a.clones@.len() ==> (#[trigger] a.clones@[i]).alike(&b.clones@[i]),
        c.alike(&d) <==> c.index == d.index && c.entry == d.entry && c.placeholder == d.placeholder
            && c.nodes@.len() == d.nodes@.len() && forall|i: int|
            0 <= i < c.nodes@.len() ==> (#[trigger] c.nodes@[i]).alike(&d.nodes@[i]),
{
}

/// Origins of forks, call keys and scopes are alike when every part of them
/// is equal.
pub proof fn law_when_identities_are_alike(
    a: ForkOrigin,
    b: ForkOrigin,
    c: ParentCallKey,
    d: ParentCallKey,
    s: ScopeIdentity,
    t: ScopeIdentity,
    l: ParentLink,
    m: ParentLink,
)
    ensures
        a.alike(&b) <==> a.source@ == b.source@ && a.position == b.position && a.rerun_last
            == b.rerun_last,
        c.alike(&d) <==> c.parent == d.parent && c.firing == d.firing && c.attempt == d.attempt
            && c.slot@ == d.slot@,
        l.alike(&m) <==> l.execution == m.execution && l.firing == m.firing && l.attempt
            == m.attempt && l.slot@ == m.slot@,
        s.alike(&t) <==> match (s, t) {
            (ScopeIdentity::Declared(x), ScopeIdentity::Declared(y)) => x == y,
            (ScopeIdentity::Spliced(x), ScopeIdentity::Spliced(y)) => x@ == y@,
            _ => false,
        },
{
}

/// Results are alike when they ended in one status and execution, with the
/// same failure, output, context and updates.
pub proof fn law_when_results_are_alike(a: InvocationResult, b: InvocationResult)
    ensures
        a.alike(&b) <==> a.status == b.status && a.final_execution == b.final_execution
            && same_failure(a.failure, b.failure) && same_value(a.output@, b.output@)
            && same_fields(a.context@, b.context@) && same_fields(a.updates@, b.updates@),
{
}

/// Questions are alike when every part of them reads the same, option by
/// option; answers when they name the same question, choices and text.
pub proof fn law_when_questions_are_alike(
    a: Question,
    b: Question,
    o: QuestionOption,
    p: QuestionOption,
    x: Answer,
    y: Answer,
)
    ensures
        a.alike(&b) <==> a.id@ == b.id@ && text_alike(a.kind, b.kind) && a.text@ == b.text@
            && a.sensitive == b.sensitive && a.options@.len() == b.options@.len() && forall|i: int|
            0 <= i < a.options@.len() ==> (#[trigger] a.options@[i]).alike(&b.options@[i]),
        o.alike(&p) <==> o.key@ == p.key@ && o.label@ == p.label@,
        x.alike(&y) <==> text_alike(x.question, y.question) && text_alike(x.choice, y.choice)
            && texts_alike(x.choices@, y.choices@) && x.text.alike(&y.text),
{
    if x.alike(&y) {
        assert forall|i: int| 0 <= i < x.choices@.len() implies (#[trigger] x.choices@[i])@
            == y.choices@[i]@ by {
            assert(x.choices@[i].alike(&y.choices@[i]));
        }
    }
}

/// Expiries are alike when the same question waited as long for the same
/// default; notes when their kinds and payloads are; activities when one hook
/// at one point had the same from one backend.
pub proof fn law_when_notes_are_alike(
    a: QuestionExpired,
    b: QuestionExpired,
    n: Note,
    m: Note,
    x: HookActivity,
    y: HookActivity,
    p: Parsed,
    q: Parsed,
)
    ensures
        a.alike(&b) ==> a.waited_ms == b.waited_ms && a.question@ == b.question@
            && a.default.alike(&b.default),
        a.waited_ms == b.waited_ms && a.question@ == b.question@ && a.default.alike(&b.default)
            ==> a.alike(&b),
        n.alike(&m) <==> n.kind@ == m.kind@ && same_value(n.payload@, m.payload@),
        x.alike(&y) <==> x.hook.point == y.hook.point && x.hook.hook@ == y.hook.hook@ && x.backend@
            == y.backend@ && same_value(x.envelope@, y.envelope@),
        p.alike(&q) ==> (p is Question <==> q is Question) && (p is QuestionExpired
            <==> q is QuestionExpired) && (p is Note <==> q is Note),
        p matches Parsed::Note { note: s, hook_activity: u, budget: v } ==> (q matches
            Parsed::Note { note: t, hook_activity: w, budget: z } ==> (p.alike(&q) <==> s.alike(&t)
            && u.alike(&w) && v == z)),
{
}

/// Subjects and contexts are alike when they stand in one place.
pub proof fn law_when_places_are_alike(a: Subject, b: Subject, c: Context, d: Context)
    ensures
        a.alike(&b) <==> a.node.alike(&b.node) && a.firing == b.firing && a.visit == b.visit
            && a.attempt == b.attempt && a.generation == b.generation && a.branch == b.branch,
        c.alike(&d) <==> c.invocation == d.invocation && c.execution == d.execution
            && c.parent.alike(&d.parent),
{
}

/// Branch results are alike when one branch's firing ended in the same status
/// with the same payload; targets when one group leads to one node; inverted
/// records when they and their times are.
pub proof fn law_when_branch_results_are_alike(
    a: BranchResult,
    b: BranchResult,
    g: GroupTarget,
    h: GroupTarget,
    r: InvertedRecord,
    s: InvertedRecord,
)
    ensures
        a.alike(&b) <==> a.branch == b.branch && a.firing == b.firing && a.node.alike(&b.node)
            && same_status(a.status, b.status) && same_value(a.payload@, b.payload@),
        g.alike(&h) <==> g.group == h.group && g.target.alike(&h.target),
        r.alike(&s) <==> r.record.alike(&s.record) && r.recorded_at == s.recorded_at,
{
}

} // verus!

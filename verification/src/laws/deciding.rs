//! What middlewares and hooks decide, fold and note.

use crate::event::ScopeOutcome;
use crate::hooks::{activity_value, point_name, HookActivity, HookPoint};
use crate::hooks::adapter::{
    admits, asks, outcome_name, points_before, records_all, routes_of, stops, synthetic, FiringView,
    HookRequest,
};
use crate::hooks::report::{
    decision_value, records, report_value, run_value, usage_value, HookDecision, HookReport,
    HookRun, HookUsage,
};
use crate::json::{member_at, Json, JsonView, NumberView};
use crate::laws::telling::{lemma_last_where, recorded_final};
use crate::middleware::{
    answers_route, entry_under, fold_at, fold_from, folds_of, initial_of, intervenes,
    over_the_limit, restarts, same_admit, same_route, state_refused, traced, RESTART_LIMIT,
    FoldEvent, MiddlewareEntry, PipelineRoute, RouteCandidate, RoutingProposal,
};
use crate::model::{same_outcome, EdgeTransition, Outcome};
use crate::note::{
    budget_in, budget_value, note_in, note_value, parsed_tag, progress_in, read_note, BudgetNote,
    Note, Parsed, StepReading,
};
use crate::ordered::held;
use crate::record::{
    event_of, Admission, Event, EventRecord, GroupDecision, Intervention, RouteApplied,
    RouteDecision, StepEvent,
};
use crate::search::lemma_first_absent;
use crate::state::{EngineState, HistoryEntry, LiveFiring};
use crate::text::decimal;
use std::sync::Arc;
use vstd::prelude::*;
use vstd::string::*;

verus! {

// ── Middleware state ───────────────────────────────────────────────────

/// A state is refused for the first middleware of the chain that has none,
/// or has one of another version, and the refusal says which and how; when
/// all have theirs, for holding more.
pub proof fn law_why_a_state_is_refused(
    chain: Seq<MiddlewareEntry>,
    state: Seq<(String, (u32, Json))>,
    at: int,
)
    requires
        0 <= at <= chain.len(),
        forall|i: int|
            0 <= i < at ==> (held(state, (#[trigger] chain[i]).key@) matches Some(entry) && entry.0
                == chain[i].state_version),
    ensures
        at < chain.len() && held(state, chain[at].key@) is None ==> state_refused(chain, state, 0)
            == Some("middleware state for `"@ + chain[at].key@ + "` is missing"@),
        at < chain.len() ==> (held(state, chain[at].key@) matches Some(entry) ==> (entry.0
            != chain[at].state_version ==> state_refused(chain, state, 0) == Some(
            "middleware `"@ + chain[at].key@ + "` state version is "@ + decimal(entry.0 as nat)
                + "; expected "@ + decimal(chain[at].state_version as nat),
        ))),
        at == chain.len() && state.len() != chain.len() ==> state_refused(chain, state, 0) == Some(
            "middleware state contains an unconfigured key"@,
        ),
        at == chain.len() && state.len() == chain.len() ==> state_refused(chain, state, 0) is None,
{
    lemma_refused_from(chain, state, 0, at);
}

proof fn lemma_refused_from(
    chain: Seq<MiddlewareEntry>,
    state: Seq<(String, (u32, Json))>,
    from: int,
    at: int,
)
    requires
        0 <= from <= at <= chain.len(),
        forall|i: int|
            0 <= i < at ==> (held(state, (#[trigger] chain[i]).key@) matches Some(entry) && entry.0
                == chain[i].state_version),
    ensures
        state_refused(chain, state, from) == state_refused(chain, state, at),
    decreases at - from,
{
    if from < at {
        assert(held(state, chain[from].key@) is Some);
        lemma_refused_from(chain, state, from + 1, at);
    }
}

/// A chain starts each key with the version and the state of the last
/// middleware that has it.
pub proof fn law_what_a_key_starts_with(chain: Seq<MiddlewareEntry>, key: Seq<char>, at: int)
    ensures
        0 <= at < chain.len() && chain[at].key@ == key && (forall|j: int|
            at < j < chain.len() ==> (#[trigger] chain[j]).key@ != key) ==> initial_of(
            entry_under(chain, key),
        ) == Some((chain[at].state_version, chain[at].initial_state)),
        (forall|j: int| 0 <= j < chain.len() ==> (#[trigger] chain[j]).key@ != key) ==> initial_of(
            entry_under(chain, key),
        ) is None,
    decreases chain.len(),
{
    if chain.len() > 0 {
        let rest = chain.drop_last();
        law_what_a_key_starts_with(rest, key, at);
        assert forall|j: int| 0 <= j < rest.len() implies rest[j] == #[trigger] chain[j] by {}
        assert(chain[chain.len() - 1] == chain.last());
    }
}

// ── Decisions ──────────────────────────────────────────────────────────

/// Admissions are told apart: by kind, and then by what they carry.
pub proof fn law_admissions_are_told_apart(a: Admission, b: Admission)
    ensures
        same_admit(a, a) || a is Skip,
        same_admit(a, b) ==> (a is Admit <==> b is Admit) && (a is Skip <==> b is Skip) && (
        a is Block <==> b is Block),
        a is Admit && b is Admit ==> same_admit(a, b),
        a matches Admission::Block { reason: x } ==> (b matches Admission::Block { reason: y }
            ==> (same_admit(a, b) <==> x@ == y@)),
        a matches Admission::Skip { outcome: x } ==> (b matches Admission::Skip { outcome: y }
            ==> (same_admit(a, b) <==> same_outcome(*x, *y))),
{
}

/// Route decisions are told apart: by kind, and then by where they lead or
/// why they block.
pub proof fn law_routes_are_told_apart(a: RouteDecision, b: RouteDecision)
    ensures
        same_route(a, a),
        same_route(a, b) <==> match (a, b) {
            (RouteDecision::Emit(x), RouteDecision::Emit(y)) => x == y,
            (RouteDecision::Jump(x), RouteDecision::Jump(y)) => x == y,
            (RouteDecision::Block { reason: x }, RouteDecision::Block { reason: y }) => x@ == y@,
            (RouteDecision::Nothing, RouteDecision::Nothing) => true,
            _ => false,
        },
{
}

/// A middleware that passes on what it was told leaves no trace; one that
/// does not, or never asked, stands first in it.
pub proof fn law_who_is_traced<T>(below: Option<Seq<T>>, kept: bool, mark: T)
    ensures
        below matches Some(rest) ==> (kept ==> traced(below, kept, mark) == rest),
        below matches Some(rest) ==> (!kept ==> traced(below, kept, mark).len() == rest.len() + 1
            && traced(below, kept, mark)[0] == mark && traced(below, kept, mark).skip(1) == rest),
        below is None ==> traced(below, kept, mark).len() == 1 && traced(below, kept, mark)[0]
            == mark,
{
    if let Some(rest) = below {
        assert((seq![mark] + rest).skip(1) =~= rest);
    }
}

/// What a middleware did to a route is recorded under its key: an override
/// to the edge it chose, a jump to the node it chose, a block with its
/// reason, and a block for choosing nothing.
pub proof fn law_what_an_intervention_records(
    done: Intervention,
    key: String,
    decision: RouteDecision,
)
    requires
        intervenes(done, key, decision),
    ensures
        match decision {
            RouteDecision::Emit(edge) => done matches Intervention::Override {
                middleware,
                edge: to,
            } && middleware == key && to == edge,
            RouteDecision::Jump(target) => done matches Intervention::Jump {
                middleware,
                target: to,
            } && middleware == key && to == target,
            RouteDecision::Block { reason } => done matches Intervention::Block {
                middleware,
                reason: why,
            } && middleware == key && why == reason,
            RouteDecision::Nothing => done matches Intervention::Block { middleware, reason: why }
                && middleware == key && why@ == "middleware selected no route"@,
        },
{
}

/// What a chain routes is what its outermost middleware decided; its trace is
/// the trace below it when that is what it was told, and else begins with
/// what it did.
pub proof fn law_what_a_chain_routes(
    route: PipelineRoute,
    key: String,
    decision: RouteDecision,
    downstream: Option<PipelineRoute>,
)
    requires
        answers_route(route, key, decision, downstream),
    ensures
        route.decision == decision,
        downstream matches Some(below) ==> (same_route(below.decision, decision) ==> route.trace@
            == below.trace@),
        downstream matches Some(below) ==> (!same_route(below.decision, decision)
            ==> route.trace@.len() == below.trace@.len() + 1 && intervenes(
            route.trace@[0],
            key,
            decision,
        ) && route.trace@.skip(1) == below.trace@),
        downstream is None ==> route.trace@.len() == 1 && intervenes(
            route.trace@[0],
            key,
            decision,
        ),
{
    if let Some(below) = downstream {
        if !same_route(below.decision, decision) {
            assert((seq![route.trace@[0]] + below.trace@).skip(1) =~= below.trace@);
        }
    }
}

/// A decision is over the limit when the execution may not restart and the
/// edge it takes is proposed as one that restarts.
pub proof fn law_when_a_restart_is_blocked(
    restart_allowed: bool,
    proposal: RoutingProposal,
    decision: RouteDecision,
)
    ensures
        over_the_limit(restart_allowed, proposal, decision) <==> !restart_allowed && (
        decision matches RouteDecision::Emit(edge) && exists|i: int|
            0 <= i < proposal.candidates@.len() && (#[trigger] proposal.candidates@[i]).edge == edge
                && proposal.candidates@[i].transition == EdgeTransition::Restart),
        RESTART_LIMIT@ == "maximum executions per invocation reached"@,
{
    if let RouteDecision::Emit(edge) = decision {
        let wanted = RouteCandidate { edge, transition: EdgeTransition::Restart };
        if proposal.candidates@.contains(wanted) {
            let i = choose|i: int|
                0 <= i < proposal.candidates@.len() && proposal.candidates@[i] == wanted;
            assert(proposal.candidates@[i].edge == edge);
        }
        if exists|i: int|
            0 <= i < proposal.candidates@.len() && (#[trigger] proposal.candidates@[i]).edge == edge
                && proposal.candidates@[i].transition == EdgeTransition::Restart {
            let i = choose|i: int|
                0 <= i < proposal.candidates@.len() && (#[trigger] proposal.candidates@[i]).edge
                    == edge && proposal.candidates@[i].transition == EdgeTransition::Restart;
            assert(proposal.candidates@[i] == wanted);
        }
    }
}

// ── Folds ──────────────────────────────────────────────────────────────

/// What a record folds as: the execution's start; the outcome of an attempt
/// that is its firing's final one, at the firing's node; an applied route, as
/// what it led to. An attempt that is not final folds as nothing, and so does
/// every other record.
pub proof fn law_what_is_folded(event: Event, state: EngineState)
    ensures
        match event {
            Event::ExecutionStarted { .. } => fold_at(event, state) == Some(
                FoldEvent::ExecutionStarted,
            ) && fold_from(event, state.history@) == Some(FoldEvent::ExecutionStarted),
            Event::StepFinished { firing, attempt, outcome } => {
                &&& !recorded_final(state, firing, attempt) ==> fold_at(event, state) is None
                    && fold_from(event, state.history@) is None
                &&& recorded_final(state, firing, attempt) ==> (fold_from(
                    event,
                    state.history@,
                ) matches Some(FoldEvent::FinalOutcome { firing: f, node, outcome: o }) && f
                    == firing && o == outcome && exists|i: int|
                    0 <= i < state.history@.len() && (#[trigger] state.history@[i]).firing == firing
                        && state.history@[i].node == node && forall|j: int|
                        i < j < state.history@.len() ==> (#[trigger] state.history@[j]).firing
                            != firing)
                &&& recorded_final(state, firing, attempt) && (forall|j: int|
                    0 <= j < state.live@.len() ==> (#[trigger] state.live@[j]).id != firing)
                    ==> fold_at(event, state) == fold_from(event, state.history@)
            },
            Event::RouteApplied { applied } => fold_at(event, state) == Some(
                FoldEvent::RouteApplied {
                    firing: applied.firing(),
                    decision: match applied {
                        RouteApplied::Edge { edge, .. } => RouteDecision::Emit(edge),
                        RouteApplied::Jump { target, .. } => RouteDecision::Jump(target),
                        RouteApplied::Nothing { .. } => RouteDecision::Nothing,
                    },
                },
            ) && fold_from(event, state.history@) == fold_at(event, state),
            _ => fold_at(event, state) is None && fold_from(event, state.history@) is None,
        },
{
    if let Event::StepFinished { firing, attempt, outcome } = event {
        let p = |entry: HistoryEntry| entry.firing == firing;
        lemma_last_where(state.history@, p);
        if recorded_final(state, firing, attempt) {
            let i = choose|i: int|
                0 <= i < state.history@.len() && (#[trigger] state.history@[i]).firing == firing
                    && state.history@[i].attempt == attempt;
            assert(p(state.history@[i]));
        }
        if forall|j: int| 0 <= j < state.live@.len() ==> (#[trigger] state.live@[j]).id != firing {
            lemma_first_absent(
                state.live@,
                |live: LiveFiring| live.id == firing,
            );
        }
    }
}

/// A log is folded record by record, in order.
pub proof fn law_a_log_is_folded_in_order(
    log: Seq<EventRecord>,
    history: Seq<HistoryEntry>,
    record: EventRecord,
)
    ensures
        folds_of(Seq::empty(), history).len() == 0,
        folds_of(log.push(record), history) == (match fold_from(event_of(record), history) {
            Some(folded) => folds_of(log, history).push(folded),
            None => folds_of(log, history),
        }),
{
    assert(log.push(record).drop_last() =~= log);
}

// ── Hooks ──────────────────────────────────────────────────────────────

/// Before an attempt the hooks are asked at two points: a first attempt at
/// its visit's start and its own, a later one at its retry and its own. A
/// lowering artifact and a node that admits itself are asked about at none.
pub proof fn law_where_hooks_are_asked(view: FiringView, key: Seq<char>)
    ensures
        ({
            let points = points_before(view, key);
            let marked = member_at(view.meta, "synthetic"@) == Some(Json::Bool(true));
            let own = member_at(view.meta, key) matches Some(Json::Text(by)) && by@
                == "step"@;
            &&& marked || own ==> points.len() == 0
            &&& !marked && !own ==> points.len() == 2 && points[1] == HookPoint::BeforeAttempt && (
            view.attempt.0 == 1 ==> points[0] == HookPoint::BeforeVisit) && (view.attempt.0 != 1
                ==> points[0] == HookPoint::Retrying)
        }),
{
}

/// A hook's decision stops an attempt when it skips or blocks it, and then
/// the attempt is skipped with the hook's status and nothing else, or blocked
/// for its reason; every other decision admits it.
pub proof fn law_what_a_hook_s_decision_does(admission: Admission, decision: HookDecision)
    requires
        admits(admission, decision),
    ensures
        stops(decision) <==> decision is Skip || decision is Block,
        match decision {
            HookDecision::Skip { status } => admission matches Admission::Skip { outcome }
                && outcome.status == status.status && outcome.output is Null
                && outcome.context_updates@.len() == 0 && outcome.metrics.duration_ms is None,
            HookDecision::Block { reason } => admission matches Admission::Block { reason: why }
                && why == reason,
            HookDecision::Proceed => admission is Admit,
            HookDecision::Override { .. } => admission is Admit,
            HookDecision::Adjust { .. } => admission is Admit,
        },
{
}

/// What a service is asked at a point of a firing is that point, firing and
/// outcome; and at a transition each group's decision, in order.
pub proof fn law_what_a_service_is_asked(
    request: HookRequest,
    point: HookPoint,
    view: Arc<FiringView>,
    outcome: Option<Arc<Outcome>>,
    groups: Seq<GroupDecision>,
    i: int,
)
    requires
        asks(request, point, view, outcome),
        0 <= i < groups.len(),
    ensures
        request.point == point,
        request.view == Some(view),
        request.outcome == outcome,
        request.payload is Nothing,
        routes_of(groups).len() == groups.len(),
        routes_of(groups)[i].0 == groups[i].group,
        routes_of(groups)[i].1 == groups[i].decision,
{
}

/// A scope's end is called by how it ended.
pub proof fn law_how_a_scope_s_end_is_called(outcome: ScopeOutcome)
    ensures
        outcome_name(outcome) == "succeeded"@ <==> outcome is Succeeded,
        outcome_name(outcome) == "failed"@ <==> outcome is Failed,
{
    reveal_strlit("succeeded");
    reveal_strlit("failed");
    assert("succeeded"@.len() == 9 && "failed"@.len() == 6);
}

/// A report is recorded as one note per activity of its hooks' agents, in
/// order, and then as one of its own, unless it proceeds with no hook run and
/// no warning.
pub proof fn law_what_a_report_records(notes: Seq<Note>, report: HookReport, i: int)
    requires
        records(notes, report),
    ensures
        ({
            let n = report.activity@.len();
            let quiet = report.decision is Proceed && report.hooks@.len() == 0
                && report.warnings@.len() == 0;
            &&& notes.len() == n + (if quiet {
                0int
            } else {
                1
            })
            &&& 0 <= i < n ==> notes[i].kind@ == "hook.activity"@ && notes[i].payload@
                == activity_value(report.activity@[i])
            &&& !quiet ==> notes[n as int].kind@ == "hook"@ && notes[n as int].payload@
                == report_value(report)
        }),
{
}

/// The notes of reports are recorded report by report, in order: one more
/// report's follow all the others.
pub proof fn law_reports_are_noted_in_order(notes: Seq<Note>, reports: Seq<HookReport>)
    requires
        records_all(notes, reports),
        reports.len() > 0,
    ensures
        exists|n: int|
            0 <= n <= notes.len() && records_all(#[trigger] notes.take(n), reports.drop_last())
                && records(notes.skip(n), reports.last()),
        records_all(Seq::<Note>::empty(), Seq::<HookReport>::empty()),
{
}

/// A decision's value says which it is, and what it carries.
pub proof fn law_how_a_decision_is_written(decision: HookDecision)
    ensures
        decision_value(decision) matches JsonView::Object(members) && members.len() >= 1
            && members[0].0 == "decision"@ && {
            &&& decision is Proceed ==> members[0].1 == JsonView::Text("proceed"@) && members.len()
                == 1
            &&& decision matches HookDecision::Skip { status } ==> members[0].1 == JsonView::Text(
                "skip"@,
            ) && members.len() == 2 && members[1] == ("status"@, status.value@)
            &&& decision matches HookDecision::Block { reason } ==> members[0].1 == JsonView::Text(
                "block"@,
            ) && members.len() == 2 && members[1] == ("reason"@, JsonView::Text(reason@))
            &&& decision matches HookDecision::Override { group, edge } ==> members[0].1
                == JsonView::Text("override"@) && members.len() == 3 && members[1] == (
                "group"@,
                JsonView::Number(NumberView::Unsigned(group as u64)),
            ) && members[2] == ("edge"@, JsonView::Number(NumberView::Unsigned(edge.0 as u64)))
            &&& decision matches HookDecision::Adjust { status, reason } ==> members[0].1
                == JsonView::Text("adjust"@) && members.len() == 3 && members[1] == (
                "status"@,
                status.value@,
            ) && members[2] == ("reason"@, JsonView::Text(reason@))
        },
{
}

/// A report's value names its point and its decision, then its hooks' runs
/// and its warnings where it has any.
pub proof fn law_how_a_report_is_written(report: HookReport, i: int)
    ensures
        report_value(report) matches JsonView::Object(members) && {
            &&& members[0] == ("point"@, JsonView::Text(point_name(report.point)))
            &&& members[1] == ("decision"@, decision_value(report.decision))
            &&& members.len() == 2 + (if report.hooks@.len() > 0 {
                1int
            } else {
                0
            }) + (if report.warnings@.len() > 0 {
                1int
            } else {
                0
            })
            &&& report.hooks@.len() > 0 ==> members[2].0 == "hooks"@ && (members[2].1 matches
                JsonView::List(runs) && runs.len() == report.hooks@.len() && (0 <= i < runs.len()
                ==> runs[i] == run_value(report.hooks@[i])))
            &&& report.warnings@.len() > 0 ==> members[members.len() - 1].0 == "warnings"@ && (
            members[members.len() - 1].1 matches JsonView::List(texts) && texts.len()
                == report.warnings@.len() && (0 <= i < texts.len() ==> texts[i] == JsonView::Text(
                report.warnings@[i]@,
            )))
        },
{
}

/// A hook's run and its usage are written with what they have: absent parts
/// have no member.
pub proof fn law_how_a_run_is_written(run: HookRun, usage: HookUsage)
    ensures
        run_value(run) matches JsonView::Object(members) && {
            &&& members[0] == ("name"@, JsonView::Text(run.name@))
            &&& members[1] == ("state"@, JsonView::Text(run.state@))
            &&& run.duration_ms is None && run.message is None && run.usage is None
                ==> members.len() == 2
            &&& run.duration_ms matches Some(ms) ==> members[2] == (
                "duration_ms"@,
                JsonView::Number(NumberView::Unsigned(ms)),
            )
            &&& run.usage matches Some(usage) ==> members[members.len() - 1] == (
                "usage"@,
                usage_value(usage),
            )
            &&& run.usage is None ==> (run.message matches Some(message)
                ==> members[members.len() - 1] == ("message"@, JsonView::Text(message@)))
        },
        usage_value(usage) matches JsonView::Object(members) && {
            &&& members[0] == (
                "requests"@,
                JsonView::Number(NumberView::Unsigned(usage.requests)),
            )
            &&& members[1] == (
                "tool_calls"@,
                JsonView::Number(NumberView::Unsigned(usage.tool_calls)),
            )
            &&& usage.tokens matches Some(tokens) ==> members[2] == ("tokens"@, tokens@)
            &&& usage.tool_ms matches Some(ms) ==> members[members.len() - 1] == (
                "tool_ms"@,
                JsonView::Number(NumberView::Unsigned(ms)),
            )
            &&& usage.tokens is None ==> (usage.cost_usd_micros matches Some(cost) ==> members[2] == (
                "cost_usd_micros"@,
                JsonView::Number(NumberView::Unsigned(cost)),
            ))
            &&& usage.tool_ms is None ==> (usage.inference_ms matches Some(ms)
                ==> members[members.len() - 1] == (
                "inference_ms"@,
                JsonView::Number(NumberView::Unsigned(ms)),
            ))
        },
{
}

/// A hook activity's value names its operation, its backend and the
/// backend's own event.
pub proof fn law_how_an_activity_is_written(activity: HookActivity)
    ensures
        activity_value(activity) matches JsonView::Object(members) && members.len() == 3
            && members[0].0 == "hook"@ && members[1] == (
            "backend"@,
            JsonView::Text(activity.backend@),
        ) && members[2] == ("envelope"@, activity.envelope@) && (members[0].1 matches
            JsonView::Object(inner) && inner.len() == 2 && inner[0] == (
            "point"@,
            JsonView::Text(point_name(activity.hook.point)),
        ) && inner[1] == ("hook"@, JsonView::Text(activity.hook.hook@))),
{
}

// ── Notes ──────────────────────────────────────────────────────────────

/// What a progress report reads as: a question before anything, then a
/// question's expiry, then a note, and nothing else.
pub proof fn law_how_progress_is_read(ev: StepEvent, reading: StepReading)
    ensures
        reading.question matches Some(question) ==> progress_in(ev, reading) == Some(
            Parsed::Question { question },
        ),
        reading.question is None ==> (reading.expired matches Some(expired) ==> progress_in(
            ev,
            reading,
        ) == Some(Parsed::QuestionExpired { expired })),
        reading.question is None && reading.expired is None ==> (note_in(ev) matches Some(note)
            ==> (progress_in(ev, reading) matches Some(Parsed::Note { note: n, .. }) && n == note)),
        reading.question is None && reading.expired is None && note_in(ev) is None ==> progress_in(
            ev,
            reading,
        ) is None,
        !(ev is Custom) ==> note_in(ev) is None,
{
}

/// A note is read as a budget's pause or resume by its kind, and in no other
/// way; and as a hook's activity by its kind alone.
pub proof fn law_how_a_note_is_read(note: Note)
    ensures
        read_note(note) matches Parsed::Note { note: n, hook_activity, budget } && {
            &&& n == note
            &&& note.kind@ != "hook.activity"@ ==> hook_activity is None
            &&& note.kind@ != "budget_paused"@ && note.kind@ != "budget_resumed"@ ==> budget is None
            &&& budget matches Some(reading) ==> budget_in(note.payload) == Some(reading.note) && (
            reading.state is Paused <==> note.kind@ == "budget_paused"@) && (
            reading.state is Resumed <==> note.kind@ == "budget_resumed"@)
            &&& note.kind@ == "budget_paused"@ && budget_in(note.payload) is Some ==> budget is Some
            &&& note.kind@ == "budget_resumed"@ && budget_in(note.payload) is Some
                ==> budget is Some
        },
{
    reveal_strlit("hook.activity");
    reveal_strlit("budget_paused");
    reveal_strlit("budget_resumed");
    assert("hook.activity"@.len() == 13);
    assert("budget_paused"@.len() == 13);
    assert("budget_resumed"@.len() == 14);
    assert("hook.activity"@[0] == 'h' && "budget_paused"@[0] == 'b');
}

/// A note and a budget's accounting are written under their own names.
pub proof fn law_how_a_note_is_written(note: Note, budget: BudgetNote)
    ensures
        note_value(note) matches JsonView::Object(outer) && outer.len() == 1 && outer[0].0
            == "$note"@ && (outer[0].1 matches JsonView::Object(members) && members.len() == 2
            && members[0] == ("kind"@, JsonView::Text(note.kind@)) && members[1] == (
            "payload"@,
            note.payload@,
        )),
        budget_value(budget) matches JsonView::Object(members) && members.len() == 3 && members[0]
            == ("attempt"@, JsonView::Number(NumberView::Unsigned(budget.attempt.0 as u64)))
            && members[1] == (
            "remaining_ms"@,
            JsonView::Number(NumberView::Unsigned(budget.remaining_ms)),
        ) && members[2] == (
            "pending_questions"@,
            JsonView::Number(NumberView::Unsigned(budget.pending_questions as u64)),
        ),
{
}

/// Readings carry tags of their own.
pub proof fn law_readings_are_tagged(parsed: Parsed)
    ensures
        parsed is Question <==> parsed_tag(parsed) == "question"@,
        parsed is QuestionExpired <==> parsed_tag(parsed) == "question_expired"@,
        parsed is Note <==> parsed_tag(parsed) == "note"@,
{
    reveal_strlit("question");
    reveal_strlit("question_expired");
    reveal_strlit("note");
    assert("question"@.len() == 8 && "question_expired"@.len() == 16 && "note"@.len() == 4);
}

} // verus!

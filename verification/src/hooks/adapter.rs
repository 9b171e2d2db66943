//! The one caller of a hook service for workflow points: what it asks at
//! each point of a firing, and what the answers mean to the driver.

use crate::event::ScopeOutcome;
use crate::hooks::report::{records, HookDecision, HookReport};
use crate::hooks::HookPoint;
use crate::ids::{Attempt, EdgeId, FiringId, NodeId, ScopeId};
use crate::json::{member_at, share, text_is, Json};
use crate::model::{Metrics, Outcome, RunStatus, Status};
use crate::note::Note;
use crate::record::{Admission, GroupDecision, RouteDecision};
use std::sync::Arc;
use vstd::prelude::*;
use vstd::string::*;

verus! {

/// The value of a node's admission-hooks mark that leaves its admission
/// points to its own step.
pub const ADMISSION_HOOKS_BY_STEP: &'static str = "step";

/// The first attempt of a visit.
pub const FIRST_ATTEMPT: u32 = 1;

/// A firing as the hooks see it.
#[derive(Debug)]
pub struct FiringView {
    pub node: NodeId,
    pub firing: FiringId,
    pub attempt: Attempt,
    pub scope: Option<ScopeId>,
    /// The frontend's metadata of the node.
    pub meta: Json,
    /// The step's resolved configuration.
    pub config: Json,
}

/// What a request at the end of the run carries.
#[derive(Debug)]
pub struct RunFinishedPayload {
    pub status: RunStatus,
    pub failure: Option<String>,
}

/// What a request before a scope's release carries.
#[derive(Debug)]
pub struct ScopeReleasedPayload {
    pub scope: ScopeId,
    /// `succeeded` or `failed`: the scope outcome retention is decided on.
    pub outcome: String,
}

/// What a request once a scope's environment is in place carries.
#[derive(Debug)]
pub struct ScopeReadyPayload {
    pub scope: ScopeId,
    /// The workspace path inside the environment.
    pub workspace: String,
}

/// What a request once a fork's branches have joined carries.
#[derive(Debug)]
pub struct ForkCompletedPayload {
    /// The fork node's instance name: the node whose branches joined.
    pub fork: String,
}

/// What a point carries besides its firing.
#[derive(Debug)]
pub enum HookPayload {
    Nothing,
    RunFinished(RunFinishedPayload),
    ScopeReleased(ScopeReleasedPayload),
    ScopeReady(ScopeReadyPayload),
    ForkCompleted(ForkCompletedPayload),
    /// What a caller at the tool boundary supplies.
    Opaque(Json),
}

/// What a service is asked about.
#[derive(Debug)]
pub struct HookRequest {
    pub point: HookPoint,
    /// The firing the point belongs to; the run-level points have none.
    pub view: Option<Arc<FiringView>>,
    /// The attempt's outcome (`AfterAttempt`, `AfterVisit`,
    /// `RouteSelected`).
    pub outcome: Option<Arc<Outcome>>,
    /// The selected routes (`RouteSelected`), one decision per group.
    pub routes: Vec<(u32, RouteDecision)>,
    pub payload: HookPayload,
}

/// A service with no hooks: every point proceeds. The standalone default.
#[derive(Debug)]
pub struct NoHooks;

impl NoHooks {
    /// Proceed.
    pub fn run(&self, request: &HookRequest) -> (report: HookReport)
        ensures
            report.point == request.point,
            report.decision is Proceed,
            report.hooks@.len() == 0,
            report.warnings@.len() == 0,
            report.activity@.len() == 0,
    {
        HookReport::proceed(request.point)
    }

    /// No hook is configured for any point.
    pub fn configured_hooks(&self, point: HookPoint) -> (names: Vec<String>)
        ensures
            names@.len() == 0,
    {
        let _ = point;
        Vec::new()
    }
}

/// Whether a node is a lowering artifact rather than a stage: the frontend
/// marked it `synthetic`.
pub open spec fn synthetic(meta: Json) -> bool {
    member_at(meta, "synthetic"@) == Some(Json::Bool(true))
}

/// Whether a node is a lowering artifact. No hook point fires for one; its
/// stage, when it has one, runs elsewhere with hooks of its own.
pub fn is_synthetic(view: &FiringView) -> (found: bool)
    ensures
        found == synthetic(view.meta),
{
    match view.meta.get("synthetic") {
        Some(Json::Bool(marked)) => *marked,
        _ => false,
    }
}

/// Whether a node's own step drives its admission points: its mark under
/// `key` says so.
pub open spec fn admitted_by_step(meta: Json, key: Seq<char>) -> bool {
    member_at(meta, key) matches Some(Json::Text(by)) && by@ == ADMISSION_HOOKS_BY_STEP@
}

/// Whether the node's own step drives its admission points. The driver
/// admits the first firing of a scope before the scope's environment exists,
/// so a node that must run its admission hooks with the environment in place
/// asks the service from its step instead. `key` is where the frontend marks
/// it.
pub fn step_admits(view: &FiringView, key: &str) -> (found: bool)
    ensures
        found == admitted_by_step(view.meta, key@),
{
    match view.meta.get(key) {
        Some(Json::Text(by)) => text_is(by, ADMISSION_HOOKS_BY_STEP),
        _ => false,
    }
}

// ── Before an attempt ──────────────────────────────────────────────────

/// The points asked before an attempt, in order.
pub open spec fn points_before(view: FiringView, key: Seq<char>) -> Seq<HookPoint> {
    if synthetic(view.meta) || admitted_by_step(view.meta, key) {
        Seq::empty()
    } else if view.attempt == Attempt(FIRST_ATTEMPT) {
        seq![HookPoint::BeforeVisit, HookPoint::BeforeAttempt]
    } else {
        seq![HookPoint::Retrying, HookPoint::BeforeAttempt]
    }
}

/// Whether a decision ends the asking: the attempt is skipped or blocked.
pub open spec fn stops(decision: HookDecision) -> bool {
    decision is Skip || decision is Block
}

/// Whether an outcome is the one a hook skips a visit with: its status, and
/// nothing else.
pub open spec fn bare_outcome(outcome: Outcome, status: Status) -> bool {
    &&& outcome.status == status
    &&& outcome.output is Null
    &&& outcome.context_updates@ == Seq::<(String, Json)>::empty()
    &&& outcome.metrics == (Metrics { duration_ms: None })
}

/// Whether an admission is what a decision makes of it.
pub open spec fn admits(admission: Admission, decision: HookDecision) -> bool {
    match decision {
        HookDecision::Skip { status } => admission matches Admission::Skip { outcome }
            && bare_outcome(*outcome, status.status),
        HookDecision::Block { reason } => admission == (Admission::Block { reason }),
        _ => admission is Admit,
    }
}

/// Whether notes record reports: each report's own, in their order.
pub open spec fn records_all(notes: Seq<Note>, reports: Seq<HookReport>) -> bool
    decreases reports.len(),
{
    if reports.len() == 0 {
        notes.len() == 0
    } else {
        exists|n: int|
            0 <= n <= notes.len() && records_all(#[trigger] notes.take(n), reports.drop_last())
                && records(notes.skip(n), reports.last())
    }
}

/// Whether an attempt may start, and what its hooks noted.
#[derive(Debug)]
pub struct AttemptDecision {
    pub admission: Admission,
    pub notes: Vec<Note>,
}

/// What the adapter does before an attempt.
#[derive(Debug)]
pub enum AttemptStep {
    /// Ask the service at a point.
    Ask(HookPoint),
    Decided(AttemptDecision),
}

fn admission_points(view: &FiringView, key: &str) -> (points: Vec<HookPoint>)
    ensures
        points@ == points_before(*view, key@),
{
    let mut points: Vec<HookPoint> = Vec::new();
    if is_synthetic(view) || step_admits(view, key) {
        return points;
    }
    if view.attempt == Attempt(FIRST_ATTEMPT) {
        points.push(HookPoint::BeforeVisit);
    } else {
        points.push(HookPoint::Retrying);
    }
    points.push(HookPoint::BeforeAttempt);
    assert(points@ =~= points_before(*view, key@));
    points
}

fn admission_for(decision: &HookDecision) -> (admission: Admission)
    ensures
        admits(admission, *decision),
{
    match decision {
        HookDecision::Skip { status } => Admission::Skip {
            outcome: Arc::new(
                Outcome {
                    status: status.status.clone(),
                    output: Json::Null,
                    context_updates: Arc::new(Vec::new()),
                    metrics: Metrics { duration_ms: None },
                },
            ),
        },
        HookDecision::Block { reason } => Admission::Block { reason: reason.clone() },
        _ => Admission::Admit,
    }
}

fn all_notes(reports: &Vec<HookReport>) -> (notes: Vec<Note>)
    ensures
        records_all(notes@, reports@),
{
    let mut notes: Vec<Note> = Vec::new();
    let mut i: usize = 0;
    while i < reports.len()
        invariant
            i <= reports.len(),
            records_all(notes@, reports@.take(i as int)),
        decreases reports.len() - i,
    {
        let ghost was = notes@;
        let mut own = reports[i].notes();
        let ghost added = own@;
        notes.append(&mut own);
        proof {
            let so_far = reports@.take(i + 1);
            assert(so_far.drop_last() =~= reports@.take(i as int));
            assert(so_far.last() == reports@[i as int]);
            assert(notes@.take(was.len() as int) =~= was);
            assert(notes@.skip(was.len() as int) =~= added);
            assert(records_all(notes@.take(was.len() as int), so_far.drop_last()));
        }
        i = i + 1;
    }
    assert(reports@.take(i as int) =~= reports@);
    notes
}

/// What the adapter does before an attempt, with the reports it has so far:
/// ask at the next point, or decide. A report that skips or blocks the
/// attempt ends the asking; any other decision is recorded and ignored. A
/// lowering artifact is admitted without asking, and so is a node whose own
/// step drives its admission points.
pub fn before_attempt(view: &FiringView, key: &str, reports: &Vec<HookReport>) -> (step: AttemptStep)
    requires
        reports@.len() <= points_before(*view, key@).len(),
        forall|i: int| 0 <= i < reports@.len() - 1 ==> !stops((#[trigger] reports@[i]).decision),
    ensures
        ({
            let points = points_before(*view, key@);
            let stopped = reports@.len() > 0 && stops(reports@.last().decision);
            match step {
                AttemptStep::Ask(point) => !stopped && reports@.len() < points.len() && point
                    == points[reports@.len() as int],
                AttemptStep::Decided(decision) => {
                    &&& stopped || reports@.len() == points.len()
                    &&& if stopped {
                        admits(decision.admission, reports@.last().decision)
                    } else {
                        decision.admission is Admit
                    }
                    &&& records_all(decision.notes@, reports@)
                },
            }
        }),
{
    let points = admission_points(view, key);
    let n = reports.len();
    if n > 0 {
        let stopped = match &reports[n - 1].decision {
            HookDecision::Skip { status: _ } => true,
            HookDecision::Block { reason: _ } => true,
            _ => false,
        };
        if stopped {
            return AttemptStep::Decided(
                AttemptDecision {
                    admission: admission_for(&reports[n - 1].decision),
                    notes: all_notes(reports),
                },
            );
        }
    }
    if n < points.len() {
        return AttemptStep::Ask(points[n]);
    }
    AttemptStep::Decided(
        AttemptDecision { admission: Admission::Admit, notes: all_notes(reports) },
    )
}

/// No point is asked twice before an attempt.
pub proof fn law_points_are_asked_once(view: FiringView, key: Seq<char>, i: int, j: int)
    requires
        0 <= i < j < points_before(view, key).len(),
    ensures
        points_before(view, key)[i] != points_before(view, key)[j],
{
}

// ── After an attempt ───────────────────────────────────────────────────

/// What a point of a firing asks.
pub open spec fn asks(
    request: HookRequest,
    point: HookPoint,
    view: Arc<FiringView>,
    outcome: Option<Arc<Outcome>>,
) -> bool {
    &&& request.point == point
    &&& request.view == Some(view)
    &&& request.outcome == outcome
    &&& request.payload is Nothing
}

/// What the service is asked at a point of a firing that carries no routes:
/// nothing for a lowering artifact.
pub fn firing_request(
    point: HookPoint,
    view: &Arc<FiringView>,
    outcome: Option<Arc<Outcome>>,
) -> (request: Option<HookRequest>)
    ensures
        match request {
            Some(request) => !synthetic(view.meta) && asks(request, point, *view, outcome)
                && request.routes@.len() == 0,
            None => synthetic(view.meta),
        },
{
    if is_synthetic(view) {
        return None;
    }
    Some(
        HookRequest {
            point,
            view: Some(share(view)),
            outcome,
            routes: Vec::new(),
            payload: HookPayload::Nothing,
        },
    )
}

/// What an attempt's result becomes: the status and reason a hook put in its
/// place, and what the hooks noted.
#[derive(Debug)]
pub struct Prepared {
    pub status: Option<Status>,
    pub reason: Option<String>,
    pub notes: Vec<Note>,
}

/// What an attempt's result becomes after its hooks answered; unchanged for
/// a lowering artifact, which is not asked about.
pub fn prepare_result(report: Option<&HookReport>) -> (prepared: Prepared)
    ensures
        match report {
            Some(report) => {
                &&& records(prepared.notes@, *report)
                &&& match report.decision {
                    HookDecision::Adjust { status, reason } => prepared.status == Some(
                        status.status,
                    ) && prepared.reason == Some(reason),
                    _ => prepared.status is None && prepared.reason is None,
                }
            },
            None => prepared.status is None && prepared.reason is None && prepared.notes@.len() == 0,
        },
{
    let report = match report {
        Some(report) => report,
        None => return Prepared { status: None, reason: None, notes: Vec::new() },
    };
    let notes = report.notes();
    match &report.decision {
        HookDecision::Adjust { status, reason } => Prepared {
            status: Some(status.status.clone()),
            reason: Some(reason.clone()),
            notes,
        },
        _ => Prepared { status: None, reason: None, notes },
    }
}

/// What a visit's end notes: nothing for a lowering artifact.
pub fn after_record(report: Option<&HookReport>) -> (notes: Vec<Note>)
    ensures
        match report {
            Some(report) => records(notes@, *report),
            None => notes@.len() == 0,
        },
{
    match report {
        Some(report) => report.notes(),
        None => Vec::new(),
    }
}

// ── Routes ─────────────────────────────────────────────────────────────

/// The routes a transition asks about: one decision per group.
pub open spec fn routes_of(groups: Seq<GroupDecision>) -> Seq<(u32, RouteDecision)> {
    groups.map_values(|group: GroupDecision| (group.group, group.decision))
}

/// What the service is asked once routes are selected: nothing for a
/// lowering artifact.
pub fn transition_request(
    view: &Arc<FiringView>,
    outcome: Arc<Outcome>,
    groups: &Vec<GroupDecision>,
) -> (request: Option<HookRequest>)
    ensures
        match request {
            Some(request) => !synthetic(view.meta) && asks(
                request,
                HookPoint::RouteSelected,
                *view,
                Some(outcome),
            ) && request.routes@ == routes_of(groups@),
            None => synthetic(view.meta),
        },
{
    if is_synthetic(view) {
        return None;
    }
    let mut routes: Vec<(u32, RouteDecision)> = Vec::new();
    let mut i: usize = 0;
    while i < groups.len()
        invariant
            i <= groups.len(),
            routes@ == routes_of(groups@).take(i as int),
        decreases groups.len() - i,
    {
        routes.push((groups[i].group, groups[i].decision.clone()));
        assert(routes@ =~= routes_of(groups@).take(i + 1));
        i = i + 1;
    }
    assert(routes@ =~= routes_of(groups@));
    Some(
        HookRequest {
            point: HookPoint::RouteSelected,
            view: Some(share(view)),
            outcome: Some(outcome),
            routes,
            payload: HookPayload::Nothing,
        },
    )
}

/// A routing group and the edge a hook put in the place of its selected one.
#[derive(Clone, Copy, Debug, PartialEq, Eq, Structural)]
pub struct RouteOverride {
    pub group: u32,
    pub edge: EdgeId,
}

/// What a transition becomes once its hooks answered.
#[derive(Debug)]
pub struct TransitionReport {
    pub overrides: Vec<RouteOverride>,
    pub problems: Vec<String>,
    pub notes: Vec<Note>,
}

/// Why a transition is refused.
#[derive(Debug)]
pub struct TransitionError {
    pub reason: String,
}

fn copy_texts(texts: &Vec<String>) -> (copy: Vec<String>)
    ensures
        copy@ == texts@,
{
    let mut copy: Vec<String> = Vec::new();
    let mut i: usize = 0;
    while i < texts.len()
        invariant
            i <= texts.len(),
            copy@ == texts@.take(i as int),
        decreases texts.len() - i,
    {
        copy.push(texts[i].clone());
        assert(copy@ =~= texts@.take(i + 1));
        i = i + 1;
    }
    assert(copy@ =~= texts@);
    copy
}

/// What a transition becomes once its hooks answered: refused when a hook
/// blocks it, or with the one edge a hook put in the place of another. A
/// lowering artifact's goes on as it is.
pub fn transition(report: Option<&HookReport>) -> (out: Result<TransitionReport, TransitionError>)
    ensures
        match report {
            Some(report) => match report.decision {
                HookDecision::Block { reason } => out matches Err(error) && error.reason == reason,
                _ => {
                    &&& out matches Ok(out)
                    &&& out.problems@ == report.warnings@
                    &&& records(out.notes@, *report)
                    &&& out.overrides@ == (match report.decision {
                        HookDecision::Override { group, edge } => seq![
                            RouteOverride { group, edge },
                        ],
                        _ => Seq::empty(),
                    })
                },
            },
            None => out matches Ok(out) && out.overrides@.len() == 0 && out.problems@.len() == 0
                && out.notes@.len() == 0,
        },
{
    let mut overrides: Vec<RouteOverride> = Vec::new();
    let report = match report {
        Some(report) => report,
        None => {
            return Ok(TransitionReport { overrides, problems: Vec::new(), notes: Vec::new() });
        },
    };
    match &report.decision {
        HookDecision::Block { reason } => {
            return Err(TransitionError { reason: reason.clone() });
        },
        HookDecision::Override { group, edge } => {
            overrides.push(RouteOverride { group: *group, edge: *edge });
        },
        _ => {},
    }
    Ok(
        TransitionReport {
            overrides,
            problems: copy_texts(&report.warnings),
            notes: report.notes(),
        },
    )
}

// ── The run-level points ───────────────────────────────────────────────

/// What a scope's outcome is called.
pub open spec fn outcome_name(outcome: ScopeOutcome) -> Seq<char> {
    match outcome {
        ScopeOutcome::Succeeded => "succeeded"@,
        ScopeOutcome::Failed => "failed"@,
    }
}

/// What the service is asked at the end of the run: a point with no firing,
/// whose payload is the whole request. No decision is consumed; the report's
/// notes are recorded at run level.
pub fn run_finished(status: RunStatus, failure: Option<String>) -> (request: HookRequest)
    ensures
        request.point == HookPoint::RunFinished,
        request.view is None,
        request.outcome is None,
        request.routes@.len() == 0,
        request.payload == HookPayload::RunFinished((RunFinishedPayload { status, failure })),
{
    HookRequest {
        point: HookPoint::RunFinished,
        view: None,
        outcome: None,
        routes: Vec::new(),
        payload: HookPayload::RunFinished(RunFinishedPayload { status, failure }),
    }
}

/// What the service is asked before a scope's environment is released: a
/// point with no firing.
pub fn scope_released(scope: ScopeId, outcome: ScopeOutcome) -> (request: HookRequest)
    ensures
        request.point == HookPoint::ScopeReleased,
        request.view is None,
        request.outcome is None,
        request.routes@.len() == 0,
        request.payload matches HookPayload::ScopeReleased(released) && released.scope == scope
            && released.outcome@ == outcome_name(outcome),
{
    let name = match outcome {
        ScopeOutcome::Succeeded => "succeeded",
        ScopeOutcome::Failed => "failed",
    };
    HookRequest {
        point: HookPoint::ScopeReleased,
        view: None,
        outcome: None,
        routes: Vec::new(),
        payload: HookPayload::ScopeReleased(
            ScopeReleasedPayload { scope, outcome: name.to_owned() },
        ),
    }
}

} // verus!

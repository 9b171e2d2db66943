//! The host-facing hook service's vocabulary and the adapter's decisions.

pub mod adapter;
pub mod report;

use crate::json::{
    field_at, first_member, lemma_members, members_of, text_in, text_is, Json, JsonView,
};
use std::sync::Arc;
use vstd::prelude::*;
use vstd::string::*;

verus! {

/// The note kind the adapter records for every service report.
pub const HOOK_NOTE_KIND: &'static str = "hook";

/// The note kind one record of a hook's own agent activity is recorded
/// under: the payload is a [`HookActivity`].
pub const HOOK_ACTIVITY_NOTE_KIND: &'static str = "hook.activity";

/// Where in a run a hook may be configured. Names describe the point, not
/// any one workflow format's spelling of it.
#[derive(Clone, Copy, Debug, PartialEq, Eq, PartialOrd, Ord, Hash, Structural)]
pub enum HookPoint {
    /// Before the first attempt of a visit is dispatched.
    BeforeVisit,
    /// Before every attempt, retries included.
    BeforeAttempt,
    /// After an attempt returned, before its record; the decision may adjust
    /// the effective result.
    AfterAttempt,
    /// After a visit's final record, before routing.
    AfterVisit,
    /// After routes were selected, before advancement; the decision may
    /// override or block.
    RouteSelected,
    /// Before a retry attempt is scheduled.
    Retrying,
    /// A fork's branches are about to start.
    ForkStarted,
    /// A fork's branches have all completed.
    ForkCompleted,
    /// A scope's environment is in place and seeded, before the first stage
    /// runs in it.
    ScopeReady,
    /// The run's work is about to start.
    RunStarted,
    /// The run ended: its status is final, no environment is released yet.
    RunFinished,
    /// A scope's environment is about to be released.
    ScopeReleased,
    /// An agent tool is about to run.
    BeforeToolUse,
    /// An agent tool returned.
    AfterToolUse,
    /// An agent tool failed.
    AfterToolFailure,
}

/// A point's name in the records.
pub open spec fn point_name(point: HookPoint) -> Seq<char> {
    match point {
        HookPoint::BeforeVisit => "before_visit"@,
        HookPoint::BeforeAttempt => "before_attempt"@,
        HookPoint::AfterAttempt => "after_attempt"@,
        HookPoint::AfterVisit => "after_visit"@,
        HookPoint::RouteSelected => "route_selected"@,
        HookPoint::Retrying => "retrying"@,
        HookPoint::ForkStarted => "fork_started"@,
        HookPoint::ForkCompleted => "fork_completed"@,
        HookPoint::ScopeReady => "scope_ready"@,
        HookPoint::RunStarted => "run_started"@,
        HookPoint::RunFinished => "run_finished"@,
        HookPoint::ScopeReleased => "scope_released"@,
        HookPoint::BeforeToolUse => "before_tool_use"@,
        HookPoint::AfterToolUse => "after_tool_use"@,
        HookPoint::AfterToolFailure => "after_tool_failure"@,
    }
}

impl HookPoint {
    /// The point's name in the records.
    pub fn name(&self) -> (name: &'static str)
        ensures
            name@ == point_name(*self),
    {
        match self {
            HookPoint::BeforeVisit => "before_visit",
            HookPoint::BeforeAttempt => "before_attempt",
            HookPoint::AfterAttempt => "after_attempt",
            HookPoint::AfterVisit => "after_visit",
            HookPoint::RouteSelected => "route_selected",
            HookPoint::Retrying => "retrying",
            HookPoint::ForkStarted => "fork_started",
            HookPoint::ForkCompleted => "fork_completed",
            HookPoint::ScopeReady => "scope_ready",
            HookPoint::RunStarted => "run_started",
            HookPoint::RunFinished => "run_finished",
            HookPoint::ScopeReleased => "scope_released",
            HookPoint::BeforeToolUse => "before_tool_use",
            HookPoint::AfterToolUse => "after_tool_use",
            HookPoint::AfterToolFailure => "after_tool_failure",
        }
    }

    /// The point with a name.
    pub fn named(name: &String) -> (point: Option<HookPoint>)
        ensures
            match point {
                Some(point) => point_name(point) == name@,
                None => forall|point: HookPoint| #[trigger] point_name(point) != name@,
            },
    {
        if text_is(name, "before_visit") {
            Some(HookPoint::BeforeVisit)
        } else if text_is(name, "before_attempt") {
            Some(HookPoint::BeforeAttempt)
        } else if text_is(name, "after_attempt") {
            Some(HookPoint::AfterAttempt)
        } else if text_is(name, "after_visit") {
            Some(HookPoint::AfterVisit)
        } else if text_is(name, "route_selected") {
            Some(HookPoint::RouteSelected)
        } else if text_is(name, "retrying") {
            Some(HookPoint::Retrying)
        } else if text_is(name, "fork_started") {
            Some(HookPoint::ForkStarted)
        } else if text_is(name, "fork_completed") {
            Some(HookPoint::ForkCompleted)
        } else if text_is(name, "scope_ready") {
            Some(HookPoint::ScopeReady)
        } else if text_is(name, "run_started") {
            Some(HookPoint::RunStarted)
        } else if text_is(name, "run_finished") {
            Some(HookPoint::RunFinished)
        } else if text_is(name, "scope_released") {
            Some(HookPoint::ScopeReleased)
        } else if text_is(name, "before_tool_use") {
            Some(HookPoint::BeforeToolUse)
        } else if text_is(name, "after_tool_use") {
            Some(HookPoint::AfterToolUse)
        } else if text_is(name, "after_tool_failure") {
            Some(HookPoint::AfterToolFailure)
        } else {
            None
        }
    }
}

/// No two points share a name.
pub proof fn law_point_names_are_distinct(a: HookPoint, b: HookPoint)
    ensures
        point_name(a) == point_name(b) ==> a == b,
{
    reveal_strlit("before_visit");
    reveal_strlit("before_attempt");
    reveal_strlit("after_attempt");
    reveal_strlit("after_visit");
    reveal_strlit("route_selected");
    reveal_strlit("retrying");
    reveal_strlit("fork_started");
    reveal_strlit("fork_completed");
    reveal_strlit("scope_ready");
    reveal_strlit("run_started");
    reveal_strlit("run_finished");
    reveal_strlit("scope_released");
    reveal_strlit("before_tool_use");
    reveal_strlit("after_tool_use");
    reveal_strlit("after_tool_failure");
    if point_name(a) == point_name(b) {
        assert(point_name(a).len() == point_name(b).len());
        assert(point_name(a)[0] == point_name(b)[0]);
        assert(point_name(a)[4] == point_name(b)[4]);
        assert(point_name(a)[6] == point_name(b)[6]);
        assert(point_name(a)[7] == point_name(b)[7]);
    }
}

/// The point a value names: its text, or an object whose one member is the
/// name over `null`.
pub open spec fn point_in(json: Json) -> Option<HookPoint> {
    match json {
        Json::Text(name) => point_named(name@),
        Json::Object(members) => if members@.len() == 1 && members@[0].1 is Null {
            point_named(members@[0].0@)
        } else {
            None
        },
        _ => None,
    }
}

/// The point with a name.
pub open spec fn point_named(name: Seq<char>) -> Option<HookPoint> {
    if exists|point: HookPoint| #[trigger] point_name(point) == name {
        Some(choose|point: HookPoint| #[trigger] point_name(point) == name)
    } else {
        None
    }
}

fn read_name(name: &String) -> (point: Option<HookPoint>)
    ensures
        point == point_named(name@),
{
    let point = HookPoint::named(name);
    proof {
        if let Some(found) = point {
            assert(point_name(found) == name@);
            law_point_names_are_distinct(
                found,
                choose|other: HookPoint| #[trigger] point_name(other) == name@,
            );
        }
    }
    point
}

fn read_point(json: &Json) -> (point: Option<HookPoint>)
    ensures
        point == point_in(*json),
{
    match json {
        Json::Text(name) => read_name(name),
        Json::Object(members) => if members.len() == 1 {
            match &members[0].1 {
                Json::Null => read_name(&members[0].0),
                _ => None,
            }
        } else {
            None
        },
        _ => None,
    }
}

/// The hook operation an activity record belongs to: the point and the
/// hook's name.
#[derive(Debug)]
pub struct HookOperation {
    pub point: HookPoint,
    pub hook: String,
}

/// One event a hook's own agent produced, for the record. `backend` names
/// the agent backend and `envelope` is the backend's own event; the
/// operation says which hook.
#[derive(Debug)]
pub struct HookActivity {
    pub hook: HookOperation,
    pub backend: String,
    pub envelope: Json,
}

impl Clone for HookActivity {
    fn clone(&self) -> (copy: HookActivity)
        ensures
            copy == *self,
    {
        HookActivity {
            hook: HookOperation { point: self.hook.point, hook: self.hook.hook.clone() },
            backend: self.backend.clone(),
            envelope: self.envelope.clone(),
        }
    }
}

/// The hook operation a value reads as.
pub open spec fn operation_in(json: Json) -> Option<HookOperation> {
    match (field_at(json, "point"@, 0, 2), field_at(json, "hook"@, 1, 2)) {
        (Some(point), Some(hook)) => match (point_in(point), text_in(hook)) {
            (Some(point), Some(hook)) => Some(HookOperation { point, hook }),
            _ => None,
        },
        _ => None,
    }
}

/// The hook activity a payload reads as.
pub open spec fn activity_in(payload: Json) -> Option<HookActivity> {
    match (
        field_at(payload, "hook"@, 0, 3),
        field_at(payload, "backend"@, 1, 3),
        field_at(payload, "envelope"@, 2, 3),
    ) {
        (Some(hook), Some(backend), Some(envelope)) => match (
            operation_in(hook),
            text_in(backend),
        ) {
            (Some(hook), Some(backend)) => Some(HookActivity { hook, backend, envelope }),
            _ => None,
        },
        _ => None,
    }
}

fn read_operation(json: &Json) -> (operation: Option<HookOperation>)
    ensures
        operation == operation_in(*json),
{
    let point = match json.field("point", 0, 2) {
        Some(value) => match read_point(value) {
            Some(point) => point,
            None => return None,
        },
        None => return None,
    };
    match json.field("hook", 1, 2) {
        Some(value) => match value.as_text() {
            Some(hook) => Some(HookOperation { point, hook: hook.clone() }),
            None => None,
        },
        None => None,
    }
}

impl HookActivity {
    /// Read a payload as a hook's activity.
    pub fn from_payload(payload: &Json) -> (activity: Option<HookActivity>)
        ensures
            activity == activity_in(*payload),
    {
        let hook = match payload.field("hook", 0, 3) {
            Some(value) => match read_operation(value) {
                Some(hook) => hook,
                None => return None,
            },
            None => return None,
        };
        let backend = match payload.field("backend", 1, 3) {
            Some(value) => match value.as_text() {
                Some(backend) => backend.clone(),
                None => return None,
            },
            None => return None,
        };
        match payload.field("envelope", 2, 3) {
            Some(envelope) => Some(HookActivity { hook, backend, envelope: envelope.clone() }),
            None => None,
        }
    }
}

/// A hook operation as a value.
pub open spec fn operation_value(operation: HookOperation) -> JsonView {
    JsonView::Object(
        seq![
            ("point"@, JsonView::Text(point_name(operation.point))),
            ("hook"@, JsonView::Text(operation.hook@)),
        ],
    )
}

/// A hook activity as a note's payload.
pub open spec fn activity_value(activity: HookActivity) -> JsonView {
    JsonView::Object(
        seq![
            ("hook"@, operation_value(activity.hook)),
            ("backend"@, JsonView::Text(activity.backend@)),
            ("envelope"@, activity.envelope@),
        ],
    )
}

fn operation_payload(operation: &HookOperation) -> (payload: Json)
    ensures
        payload@ == operation_value(*operation),
        operation_in(payload) == Some(*operation),
{
    let name = operation.point.name().to_owned();
    let members = vec![
        ("point".to_owned(), Json::Text(name)),
        ("hook".to_owned(), Json::Text(operation.hook.clone())),
    ];
    proof {
        reveal_strlit("point");
        reveal_strlit("hook");
        lemma_members(members@);
        assert(members_of(members@) =~= operation_value(*operation)->Object_0);
        assert("point"@.len() != "hook"@.len());
        reveal_with_fuel(first_member, 3);
        assert(point_name(operation.point) == name@);
        law_point_names_are_distinct(
            operation.point,
            choose|other: HookPoint| #[trigger] point_name(other) == name@,
        );
    }
    Json::Object(Arc::new(members))
}

impl HookActivity {
    /// The payload of the note the activity is recorded under.
    pub fn to_payload(&self) -> (payload: Json)
        ensures
            payload@ == activity_value(*self),
            activity_in(payload) == Some(*self),
    {
        let members = vec![
            ("hook".to_owned(), operation_payload(&self.hook)),
            ("backend".to_owned(), Json::Text(self.backend.clone())),
            ("envelope".to_owned(), self.envelope.clone()),
        ];
        proof {
            reveal_strlit("hook");
            reveal_strlit("backend");
            reveal_strlit("envelope");
            lemma_members(members@);
            assert(members_of(members@) =~= activity_value(*self)->Object_0);
            assert("hook"@.len() == 4 && "backend"@.len() == 7 && "envelope"@.len() == 8);
            reveal_with_fuel(first_member, 4);
        }
        Json::Object(Arc::new(members))
    }
}

} // verus!

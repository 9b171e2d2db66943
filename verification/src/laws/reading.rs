//! What JSON values read as.

use crate::hooks::{activity_in, operation_in, point_in, point_name, HookPoint};
use crate::json::{
    field_at, first_member, key_place, member_at, text_in, u32_in, u64_in, with_member, Json,
    JsonNumber, JsonView,
};
use crate::laws::sameness::law_where_a_key_stands;
use crate::note::{budget_in, note_in};
use crate::record::StepEvent;
use vstd::prelude::*;
use vstd::string::*;

verus! {

/// A member is the first under its key; a value that is no object has none.
pub proof fn law_which_member_is_found(members: Seq<(String, Json)>, key: Seq<char>, at: int)
    requires
        0 <= at <= members.len(),
        forall|j: int| 0 <= j < at ==> (#[trigger] members[j]).0@ != key,
        at < members.len() ==> members[at].0@ == key,
    ensures
        at < members.len() ==> first_member(members, key) == Some(members[at].1),
        at == members.len() ==> first_member(members, key) is None,
    decreases members.len(),
{
    if at > 0 {
        let rest = members.drop_first();
        assert forall|j: int| 0 <= j < at - 1 implies (#[trigger] rest[j]).0@ != key by {
            assert(rest[j] == members[j + 1]);
        }
        assert(members[0].0@ != key);
        law_which_member_is_found(rest, key, at - 1);
    }
}

/// A value reads as a number or a text when it is one, and a number as one of
/// 32 bits when it fits.
pub proof fn law_what_a_value_reads_as(json: Json)
    ensures
        match json {
            Json::Text(text) => text_in(json) == Some(text),
            _ => text_in(json) is None,
        },
        match json {
            Json::Number(JsonNumber::Unsigned(n)) => u64_in(json) == Some(n) && (n <= u32::MAX
                ==> (u32_in(json) matches Some(m) && m == n)) && (n > u32::MAX ==> u32_in(
                json,
            ) is None),
            _ => u64_in(json) is None && u32_in(json) is None,
        },
        match json {
            Json::Object(members) => forall|key: Seq<char>| #[trigger]
                member_at(json, key) == first_member(members@, key),
            _ => forall|key: Seq<char>| #[trigger] member_at(json, key) is None,
        },
{
}

/// A field of a record is the object's member of its name, or the item of its
/// place when the record is a list of as many as it has fields.
pub proof fn law_what_a_field_is(json: Json, name: Seq<char>, index: int, count: int)
    requires
        0 <= index < count,
    ensures
        match json {
            Json::Object(_) => field_at(json, name, index, count) == member_at(json, name),
            Json::List(items) => (items@.len() == count ==> field_at(json, name, index, count)
                == Some(items@[index])) && (items@.len() != count ==> field_at(
                json,
                name,
                index,
                count,
            ) is None),
            _ => field_at(json, name, index, count) is None,
        },
{
}

/// A payload reads as a budget's accounting when it has the attempt, the time
/// left and the questions pending, each a number that fits.
pub proof fn law_what_reads_as_a_budget(payload: Json)
    requires
        payload is Object,
    ensures
        budget_in(payload) matches Some(note) ==> (member_at(payload, "attempt"@) matches Some(a)
            && u32_in(a) == Some(note.attempt.0)) && (member_at(payload, "remaining_ms"@) matches
            Some(r) && u64_in(r) == Some(note.remaining_ms)) && (member_at(
            payload,
            "pending_questions"@,
        ) matches Some(p) && u32_in(p) == Some(note.pending_questions)),
        (member_at(payload, "attempt"@) matches Some(a) && u32_in(a) is Some) && (member_at(
            payload,
            "remaining_ms"@,
        ) matches Some(r) && u64_in(r) is Some) && (member_at(
            payload,
            "pending_questions"@,
        ) matches Some(p) && u32_in(p) is Some) ==> budget_in(payload) is Some,
{
}

/// A report is a note when it is custom and holds an object with a text under
/// `kind`; its payload is what stands under `payload`, or null.
pub proof fn law_what_reads_as_a_note(value: Json)
    ensures
        note_in(StepEvent::Custom(value)) matches Some(note) ==> (member_at(
            value,
            "$note"@,
        ) matches Some(inner) && member_at(inner, "kind"@) == Some(Json::Text(note.kind)) && (
        member_at(inner, "payload"@) matches Some(payload) ==> note.payload == payload) && (
        member_at(inner, "payload"@) is None ==> note.payload is Null)),
        note_in(StepEvent::Custom(value)) is None ==> (member_at(value, "$note"@) matches Some(inner)
            ==> !(member_at(inner, "kind"@) matches Some(Json::Text(_)))),
{
}

/// A point is read by its name, alone or as the one member of an object over
/// null.
pub proof fn law_what_reads_as_a_point(json: Json, point: HookPoint)
    ensures
        json matches Json::Text(name) ==> (name@ == point_name(point) ==> point_in(json) is Some),
        json matches Json::Object(members) ==> (members@.len() != 1 ==> point_in(json) is None),
        json matches Json::Object(members) ==> (members@.len() == 1 && !(members@[0].1 is Null)
            ==> point_in(json) is None),
        json matches Json::Object(members) ==> (members@.len() == 1 && members@[0].1 is Null
            && members@[0].0@ == point_name(point) ==> point_in(json) is Some),
        !(json is Text) && !(json is Object) ==> point_in(json) is None,
        point_in(json) matches Some(found) ==> (json matches Json::Text(name) ==> point_name(found)
            == name@),
        point_in(json) matches Some(found) ==> (json matches Json::Object(members) ==> point_name(
            found,
        ) == members@[0].0@),
{
}

/// Points are named as the records name them.
pub proof fn law_how_points_are_named()
    ensures
        point_name(HookPoint::BeforeVisit) == "before_visit"@,
        point_name(HookPoint::BeforeAttempt) == "before_attempt"@,
        point_name(HookPoint::AfterAttempt) == "after_attempt"@,
        point_name(HookPoint::AfterVisit) == "after_visit"@,
        point_name(HookPoint::RouteSelected) == "route_selected"@,
        point_name(HookPoint::Retrying) == "retrying"@,
        point_name(HookPoint::ForkStarted) == "fork_started"@,
        point_name(HookPoint::ForkCompleted) == "fork_completed"@,
        point_name(HookPoint::ScopeReady) == "scope_ready"@,
        point_name(HookPoint::RunStarted) == "run_started"@,
        point_name(HookPoint::RunFinished) == "run_finished"@,
        point_name(HookPoint::ScopeReleased) == "scope_released"@,
        point_name(HookPoint::BeforeToolUse) == "before_tool_use"@,
        point_name(HookPoint::AfterToolUse) == "after_tool_use"@,
        point_name(HookPoint::AfterToolFailure) == "after_tool_failure"@,
{
}

/// A payload reads as a hook's activity when it has the hook with its point
/// and name, the backend's name and the envelope, which is kept as it is.
pub proof fn law_what_reads_as_an_activity(payload: Json)
    requires
        payload is Object,
    ensures
        activity_in(payload) matches Some(activity) ==> member_at(payload, "backend"@) == Some(
            Json::Text(activity.backend),
        ) && member_at(payload, "envelope"@) == Some(activity.envelope) && (member_at(
            payload,
            "hook"@,
        ) matches Some(hook) && operation_in(hook) == Some(activity.hook)),
        (member_at(payload, "backend"@) matches Some(Json::Text(_))) && member_at(
            payload,
            "envelope"@,
        ) is Some && (member_at(payload, "hook"@) matches Some(hook) && operation_in(hook) is Some)
            ==> activity_in(payload) is Some,
{
}

/// An operation is read from its point and its hook's name.
pub proof fn law_what_reads_as_an_operation(json: Json)
    requires
        json is Object,
    ensures
        operation_in(json) matches Some(operation) ==> member_at(json, "hook"@) == Some(
            Json::Text(operation.hook),
        ) && (member_at(json, "point"@) matches Some(point) && point_in(point) == Some(
            operation.point,
        )),
        (member_at(json, "hook"@) matches Some(Json::Text(_))) && (member_at(json, "point"@) matches
            Some(point) && point_in(point) is Some) ==> operation_in(json) is Some,
{
}

/// A member put among others stands in the place of the one under its key, or
/// last; every other member stays where it was.
pub proof fn law_where_a_member_is_put(
    members: Seq<(Seq<char>, JsonView)>,
    key: Seq<char>,
    value: JsonView,
    i: int,
)
    requires
        0 <= i < members.len(),
    ensures
        ({
            let after = with_member(members, key, value);
            let at = key_place(members, key);
            &&& after[at] == (key, value)
            &&& at < members.len() ==> after.len() == members.len()
            &&& at == members.len() ==> after.len() == members.len() + 1
            &&& i != at ==> after[i] == members[i]
        }),
{
    law_where_a_key_stands(members, key);
}

} // verus!

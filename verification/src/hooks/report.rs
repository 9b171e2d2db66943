//! What a hook service answers for one point, and the notes that record it.

use crate::hooks::{
    activity_value, point_name, HookActivity, HookPoint, HOOK_ACTIVITY_NOTE_KIND, HOOK_NOTE_KIND,
};
use crate::ids::EdgeId;
use crate::json::{members_of, values_of, Json, JsonNumber, JsonView, NumberView};
use crate::model::Status;
use crate::note::Note;
use std::sync::Arc;
use vstd::prelude::*;
use vstd::string::*;

verus! {

/// A status with the value the records write it as.
#[derive(Debug)]
pub struct RecordedStatus {
    pub status: Status,
    pub value: Json,
}

/// What a hook decided, in the vocabulary the driver can act on. A service
/// returns only the variants its point consumes; a decision a point cannot
/// take is recorded and ignored.
#[allow(inconsistent_fields)]
#[derive(Debug)]
pub enum HookDecision {
    Proceed,
    /// Skip the visit with this status (`BeforeVisit`, `BeforeAttempt`).
    Skip { status: RecordedStatus },
    /// Block: the attempt fails (`BeforeVisit`, `BeforeAttempt`) or the
    /// transition is refused (`RouteSelected`).
    Block { reason: String },
    /// Replace a routing group's selected edge (`RouteSelected`).
    Override { group: u32, edge: EdgeId },
    /// Make this status the effective result (`AfterAttempt`).
    Adjust { status: RecordedStatus, reason: String },
}

/// What a hook's own model and tool work cost. A prompt hook makes one
/// request; an agent hook makes one per model turn and runs tools. `tokens`
/// is the backend's token accounting; it is absent when no answer arrived.
#[derive(Debug)]
pub struct HookUsage {
    /// Model requests the hook made, answered or not.
    pub requests: u64,
    /// Tool calls the hook's agent started; none for a prompt hook.
    pub tool_calls: u64,
    pub tokens: Option<Json>,
    pub cost_usd_micros: Option<u64>,
    pub inference_ms: Option<u64>,
    pub tool_ms: Option<u64>,
}

impl Default for HookUsage {
    fn default() -> (usage: HookUsage)
        ensures
            usage == (HookUsage {
                requests: 0,
                tool_calls: 0,
                tokens: None,
                cost_usd_micros: None,
                inference_ms: None,
                tool_ms: None,
            }),
    {
        HookUsage {
            requests: 0,
            tool_calls: 0,
            tokens: None,
            cost_usd_micros: None,
            inference_ms: None,
            tool_ms: None,
        }
    }
}

/// One hook the service ran, or could not run, for the record.
#[derive(Debug)]
pub struct HookRun {
    pub name: String,
    /// `executed`, `skipped`, `failed_open`, `unsupported`.
    pub state: String,
    pub duration_ms: Option<u64>,
    pub message: Option<String>,
    /// What the hook's own model and tool work cost, when it did any.
    pub usage: Option<HookUsage>,
}

/// The service's answer for one point.
#[derive(Debug)]
pub struct HookReport {
    pub point: HookPoint,
    pub decision: HookDecision,
    pub hooks: Vec<HookRun>,
    /// Problems that fail open: recorded, execution continues.
    pub warnings: Vec<String>,
    /// The activity of the hooks' own agents, in order. Not part of the
    /// report's own record: each entry is recorded as its own note before
    /// the report.
    pub activity: Vec<HookActivity>,
}

// ── Reports as values ──────────────────────────────────────────────────

/// A whole number as a value.
pub open spec fn whole(n: u64) -> JsonView {
    JsonView::Number(NumberView::Unsigned(n))
}

/// A member that is there only with a value.
pub open spec fn optional(key: Seq<char>, value: Option<JsonView>) -> Seq<(Seq<char>, JsonView)> {
    match value {
        Some(value) => seq![(key, value)],
        None => Seq::empty(),
    }
}

/// An optional whole number as a value.
pub open spec fn optional_whole(n: Option<u64>) -> Option<JsonView> {
    match n {
        Some(n) => Some(whole(n)),
        None => None,
    }
}

/// An optional value.
pub open spec fn optional_json(value: Option<Json>) -> Option<JsonView> {
    match value {
        Some(value) => Some(value@),
        None => None,
    }
}

/// An optional text as a value.
pub open spec fn optional_text(text: Option<String>) -> Option<JsonView> {
    match text {
        Some(text) => Some(JsonView::Text(text@)),
        None => None,
    }
}

/// A decision as a value.
pub open spec fn decision_value(decision: HookDecision) -> JsonView {
    JsonView::Object(
        match decision {
            HookDecision::Proceed => seq![("decision"@, JsonView::Text("proceed"@))],
            HookDecision::Skip { status } => seq![
                ("decision"@, JsonView::Text("skip"@)),
                ("status"@, status.value@),
            ],
            HookDecision::Block { reason } => seq![
                ("decision"@, JsonView::Text("block"@)),
                ("reason"@, JsonView::Text(reason@)),
            ],
            HookDecision::Override { group, edge } => seq![
                ("decision"@, JsonView::Text("override"@)),
                ("group"@, whole(group as u64)),
                ("edge"@, whole(edge.0 as u64)),
            ],
            HookDecision::Adjust { status, reason } => seq![
                ("decision"@, JsonView::Text("adjust"@)),
                ("status"@, status.value@),
                ("reason"@, JsonView::Text(reason@)),
            ],
        },
    )
}

/// A hook's usage as a value: what is absent has no member.
pub open spec fn usage_value(usage: HookUsage) -> JsonView {
    JsonView::Object(
        seq![("requests"@, whole(usage.requests)), ("tool_calls"@, whole(usage.tool_calls))]
            + optional("tokens"@, optional_json(usage.tokens)) + optional(
            "cost_usd_micros"@,
            optional_whole(usage.cost_usd_micros),
        ) + optional("inference_ms"@, optional_whole(usage.inference_ms)) + optional(
            "tool_ms"@,
            optional_whole(usage.tool_ms),
        ),
    )
}

/// An optional usage as a value.
pub open spec fn optional_usage(usage: Option<HookUsage>) -> Option<JsonView> {
    match usage {
        Some(usage) => Some(usage_value(usage)),
        None => None,
    }
}

/// One hook's run as a value: what is absent has no member.
pub open spec fn run_value(run: HookRun) -> JsonView {
    JsonView::Object(
        seq![("name"@, JsonView::Text(run.name@)), ("state"@, JsonView::Text(run.state@))]
            + optional("duration_ms"@, optional_whole(run.duration_ms)) + optional(
            "message"@,
            optional_text(run.message),
        ) + optional("usage"@, optional_usage(run.usage)),
    )
}

/// A list that is there only with an item.
pub open spec fn optional_list(items: Seq<JsonView>) -> Option<JsonView> {
    if items.len() == 0 {
        None
    } else {
        Some(JsonView::List(items))
    }
}

/// A report as the value its note carries.
pub open spec fn report_value(report: HookReport) -> JsonView {
    JsonView::Object(
        seq![
            ("point"@, JsonView::Text(point_name(report.point))),
            ("decision"@, decision_value(report.decision)),
        ] + optional(
            "hooks"@,
            optional_list(report.hooks@.map_values(|run: HookRun| run_value(run))),
        ) + optional(
            "warnings"@,
            optional_list(report.warnings@.map_values(|text: String| JsonView::Text(text@))),
        ),
    )
}

fn add_member(members: &mut Vec<(String, Json)>, key: &str, value: Json)
    ensures
        members_of(final(members)@) == members_of(old(members)@).push((key@, value@)),
{
    let ghost was = members@;
    members.push((key.to_owned(), value));
    assert(members@.drop_last() =~= was);
}

fn add_optional(members: &mut Vec<(String, Json)>, key: &str, value: Option<Json>)
    ensures
        members_of(final(members)@) == members_of(old(members)@) + optional(
            key@,
            optional_json(value),
        ),
{
    match value {
        Some(value) => {
            let ghost was = members_of(members@);
            add_member(members, key, value);
            assert(members_of(members@) =~= was + seq![(key@, value@)]);
        },
        None => {
            assert(members_of(members@) =~= members_of(members@) + Seq::empty());
        },
    }
}

fn whole_json(n: u64) -> (value: Json)
    ensures
        value@ == whole(n),
{
    Json::Number(JsonNumber::Unsigned(n))
}

fn text_json(text: &String) -> (value: Json)
    ensures
        value@ == JsonView::Text(text@),
{
    Json::Text(text.clone())
}

fn optional_whole_json(n: &Option<u64>) -> (value: Option<Json>)
    ensures
        optional_json(value) == optional_whole(*n),
{
    match n {
        Some(n) => Some(whole_json(*n)),
        None => None,
    }
}

fn optional_text_json(text: &Option<String>) -> (value: Option<Json>)
    ensures
        optional_json(value) == optional_text(*text),
{
    match text {
        Some(text) => Some(text_json(text)),
        None => None,
    }
}

impl HookDecision {
    /// The decision as a value.
    pub fn to_value(&self) -> (value: Json)
        ensures
            value@ == decision_value(*self),
    {
        let mut members: Vec<(String, Json)> = Vec::new();
        match self {
            HookDecision::Proceed => {
                add_member(&mut members, "decision", Json::Text("proceed".to_owned()));
            },
            HookDecision::Skip { status } => {
                add_member(&mut members, "decision", Json::Text("skip".to_owned()));
                add_member(&mut members, "status", status.value.clone());
            },
            HookDecision::Block { reason } => {
                add_member(&mut members, "decision", Json::Text("block".to_owned()));
                add_member(&mut members, "reason", text_json(reason));
            },
            HookDecision::Override { group, edge } => {
                add_member(&mut members, "decision", Json::Text("override".to_owned()));
                add_member(&mut members, "group", whole_json(*group as u64));
                add_member(&mut members, "edge", whole_json(edge.0 as u64));
            },
            HookDecision::Adjust { status, reason } => {
                add_member(&mut members, "decision", Json::Text("adjust".to_owned()));
                add_member(&mut members, "status", status.value.clone());
                add_member(&mut members, "reason", text_json(reason));
            },
        }
        assert(members_of(members@) =~= decision_value(*self)->Object_0);
        Json::Object(Arc::new(members))
    }
}

impl HookUsage {
    /// The usage as a value.
    pub fn to_value(&self) -> (value: Json)
        ensures
            value@ == usage_value(*self),
    {
        let mut members: Vec<(String, Json)> = Vec::new();
        add_member(&mut members, "requests", whole_json(self.requests));
        add_member(&mut members, "tool_calls", whole_json(self.tool_calls));
        assert(members_of(members@) =~= seq![
            ("requests"@, whole(self.requests)),
            ("tool_calls"@, whole(self.tool_calls)),
        ]);
        let tokens = match &self.tokens {
            Some(tokens) => Some(tokens.clone()),
            None => None,
        };
        add_optional(&mut members, "tokens", tokens);
        add_optional(&mut members, "cost_usd_micros", optional_whole_json(&self.cost_usd_micros));
        add_optional(&mut members, "inference_ms", optional_whole_json(&self.inference_ms));
        add_optional(&mut members, "tool_ms", optional_whole_json(&self.tool_ms));
        Json::Object(Arc::new(members))
    }
}

impl HookRun {
    /// The run as a value.
    pub fn to_value(&self) -> (value: Json)
        ensures
            value@ == run_value(*self),
    {
        let mut members: Vec<(String, Json)> = Vec::new();
        add_member(&mut members, "name", text_json(&self.name));
        add_member(&mut members, "state", text_json(&self.state));
        assert(members_of(members@) =~= seq![
            ("name"@, JsonView::Text(self.name@)),
            ("state"@, JsonView::Text(self.state@)),
        ]);
        add_optional(&mut members, "duration_ms", optional_whole_json(&self.duration_ms));
        add_optional(&mut members, "message", optional_text_json(&self.message));
        let usage = match &self.usage {
            Some(usage) => Some(usage.to_value()),
            None => None,
        };
        add_optional(&mut members, "usage", usage);
        Json::Object(Arc::new(members))
    }
}

fn runs_json(runs: &Vec<HookRun>) -> (value: Option<Json>)
    ensures
        optional_json(value) == optional_list(runs@.map_values(|run: HookRun| run_value(run))),
{
    let ghost wanted = runs@.map_values(|run: HookRun| run_value(run));
    if runs.len() == 0 {
        return None;
    }
    let mut items: Vec<Json> = Vec::new();
    let mut i: usize = 0;
    while i < runs.len()
        invariant
            i <= runs.len(),
            wanted == runs@.map_values(|run: HookRun| run_value(run)),
            values_of(items@) == wanted.take(i as int),
        decreases runs.len() - i,
    {
        let ghost was = items@;
        items.push(runs[i].to_value());
        proof {
            assert(items@.drop_last() =~= was);
            assert(wanted.take(i + 1) =~= wanted.take(i as int).push(wanted[i as int]));
        }
        i = i + 1;
    }
    assert(wanted.take(i as int) =~= wanted);
    Some(Json::List(Arc::new(items)))
}

fn texts_json(texts: &Vec<String>) -> (value: Option<Json>)
    ensures
        optional_json(value) == optional_list(
            texts@.map_values(|text: String| JsonView::Text(text@)),
        ),
{
    let ghost wanted = texts@.map_values(|text: String| JsonView::Text(text@));
    if texts.len() == 0 {
        return None;
    }
    let mut items: Vec<Json> = Vec::new();
    let mut i: usize = 0;
    while i < texts.len()
        invariant
            i <= texts.len(),
            wanted == texts@.map_values(|text: String| JsonView::Text(text@)),
            values_of(items@) == wanted.take(i as int),
        decreases texts.len() - i,
    {
        let ghost was = items@;
        items.push(text_json(&texts[i]));
        proof {
            assert(items@.drop_last() =~= was);
            assert(wanted.take(i + 1) =~= wanted.take(i as int).push(wanted[i as int]));
        }
        i = i + 1;
    }
    assert(wanted.take(i as int) =~= wanted);
    Some(Json::List(Arc::new(items)))
}

/// Whether a report is worth no record of its own.
pub open spec fn silent(report: HookReport) -> bool {
    report.decision is Proceed && report.hooks@.len() == 0 && report.warnings@.len() == 0
}

/// Whether notes record a report: one for every entry of its activity, in
/// order, then the report itself unless it is silent.
pub open spec fn records(notes: Seq<Note>, report: HookReport) -> bool {
    let n = report.activity@.len();
    &&& notes.len() == (if silent(report) {
        n
    } else {
        n + 1
    })
    &&& forall|i: int|
        0 <= i < n ==> (#[trigger] notes[i]).kind@ == HOOK_ACTIVITY_NOTE_KIND@ && notes[i].payload@
            == activity_value(report.activity@[i])
    &&& !silent(report) ==> notes[n as int].kind@ == HOOK_NOTE_KIND@ && notes[n as int].payload@
        == report_value(report)
}

impl HookReport {
    /// The answer of a service with nothing to say.
    pub fn proceed(point: HookPoint) -> (report: HookReport)
        ensures
            report.point == point,
            report.decision is Proceed,
            report.hooks@.len() == 0,
            report.warnings@.len() == 0,
            report.activity@.len() == 0,
            silent(report),
    {
        HookReport {
            point,
            decision: HookDecision::Proceed,
            hooks: Vec::new(),
            warnings: Vec::new(),
            activity: Vec::new(),
        }
    }

    /// The report as the value its note carries.
    pub fn to_value(&self) -> (value: Json)
        ensures
            value@ == report_value(*self),
    {
        let mut members: Vec<(String, Json)> = Vec::new();
        add_member(&mut members, "point", Json::Text(self.point.name().to_owned()));
        add_member(&mut members, "decision", self.decision.to_value());
        assert(members_of(members@) =~= seq![
            ("point"@, JsonView::Text(point_name(self.point))),
            ("decision"@, decision_value(self.decision)),
        ]);
        add_optional(&mut members, "hooks", runs_json(&self.hooks));
        add_optional(&mut members, "warnings", texts_json(&self.warnings));
        Json::Object(Arc::new(members))
    }

    /// The notes that record this report: one per activity entry, then the
    /// report itself when it says something.
    pub fn notes(&self) -> (notes: Vec<Note>)
        ensures
            records(notes@, *self),
    {
        let mut notes: Vec<Note> = Vec::new();
        let mut i: usize = 0;
        while i < self.activity.len()
            invariant
                i <= self.activity.len(),
                notes@.len() == i,
                forall|j: int|
                    0 <= j < i ==> (#[trigger] notes@[j]).kind@ == HOOK_ACTIVITY_NOTE_KIND@
                        && notes@[j].payload@ == activity_value(self.activity@[j]),
            decreases self.activity.len() - i,
        {
            notes.push(
                Note {
                    kind: HOOK_ACTIVITY_NOTE_KIND.to_owned(),
                    payload: self.activity[i].to_payload(),
                },
            );
            i = i + 1;
        }
        if !self.is_silent() {
            notes.push(Note { kind: HOOK_NOTE_KIND.to_owned(), payload: self.to_value() });
        }
        notes
    }

    /// Whether anything happened worth a record.
    pub fn is_silent(&self) -> (quiet: bool)
        ensures
            quiet == silent(*self),
    {
        let proceeds = match self.decision {
            HookDecision::Proceed => true,
            _ => false,
        };
        proceeds && self.hooks.len() == 0 && self.warnings.len() == 0
    }
}

/// A service with nothing to say leaves no note.
pub proof fn law_silence_is_not_recorded(notes: Seq<Note>, report: HookReport)
    requires
        records(notes, report),
        silent(report),
        report.activity@.len() == 0,
    ensures
        notes.len() == 0,
{
}

} // verus!

//! Notes: facts a host extension records beside a firing or a run, and the
//! readings two kinds of them get.

use crate::hooks::{activity_in, HookActivity, HOOK_ACTIVITY_NOTE_KIND};
use crate::ids::Attempt;
use crate::json::{
    field_at, first_member, lemma_members, member_at, members_of, share, text_in, text_is, u32_in,
    u64_in, Json, JsonNumber, JsonView, NumberView,
};
use crate::record::StepEvent;
use crate::steps::{Question, QuestionExpired};
use std::sync::Arc;
use vstd::prelude::*;
use vstd::string::*;

verus! {

/// The note kind of an attempt budget that stopped counting.
pub const BUDGET_PAUSED_KIND: &'static str = "budget_paused";

/// The note kind of an attempt budget that counts again.
pub const BUDGET_RESUMED_KIND: &'static str = "budget_resumed";

/// The key of a progress payload that is a note.
pub const NOTE_KEY: &'static str = "$note";

/// A fact a host extension recorded.
#[derive(Debug)]
pub struct Note {
    pub kind: String,
    pub payload: Json,
}

impl Clone for Note {
    fn clone(&self) -> (copy: Note)
        ensures
            copy == *self,
    {
        Note { kind: self.kind.clone(), payload: self.payload.clone() }
    }
}

/// An attempt budget's accounting when it paused or resumed.
#[derive(Clone, Copy, Debug, PartialEq, Eq, Structural)]
pub struct BudgetNote {
    pub attempt: Attempt,
    /// The active-work time left.
    pub remaining_ms: u64,
    pub pending_questions: u32,
}

#[derive(Clone, Copy, Debug, PartialEq, Eq, Structural)]
pub enum BudgetState {
    Paused,
    Resumed,
}

/// An attempt budget's pause or resume: an executor-enforced budget stopped
/// counting because the attempt asked a question, or counts again because
/// its last pending question was answered.
#[derive(Clone, Copy, Debug, PartialEq, Eq, Structural)]
pub struct BudgetReading {
    pub state: BudgetState,
    pub note: BudgetNote,
}

/// The reading of a step protocol the run owns, from a progress payload or a
/// run-level note.
#[derive(Debug)]
pub enum Parsed {
    /// The step asked the host a question.
    Question { question: Arc<Question> },
    /// The step's own answer deadline passed with no answer, as the step
    /// reported it.
    QuestionExpired { expired: Arc<QuestionExpired> },
    /// A host extension recorded a fact.
    Note { note: Note, hook_activity: Option<HookActivity>, budget: Option<BudgetReading> },
}

/// The tag of a reading in the public stream.
pub open spec fn parsed_tag(parsed: Parsed) -> Seq<char> {
    match parsed {
        Parsed::Question { .. } => "question"@,
        Parsed::QuestionExpired { .. } => "question_expired"@,
        Parsed::Note { .. } => "note"@,
    }
}

impl Parsed {
    /// The reading's tag in the public stream.
    pub fn tag(&self) -> (tag: &'static str)
        ensures
            tag@ == parsed_tag(*self),
    {
        match self {
            Parsed::Question { .. } => "question",
            Parsed::QuestionExpired { .. } => "question_expired",
            Parsed::Note { .. } => "note",
        }
    }
}

impl Clone for Parsed {
    fn clone(&self) -> (copy: Parsed)
        ensures
            copy == *self,
    {
        match self {
            Parsed::Question { question } => Parsed::Question {
                question: share(question),
            },
            Parsed::QuestionExpired { expired } => Parsed::QuestionExpired {
                expired: share(expired),
            },
            Parsed::Note { note, hook_activity, budget } => Parsed::Note {
                note: note.clone(),
                hook_activity: match hook_activity {
                    Some(activity) => Some(activity.clone()),
                    None => None,
                },
                budget: *budget,
            },
        }
    }
}

/// The budget accounting a payload reads as.
pub open spec fn budget_in(payload: Json) -> Option<BudgetNote> {
    match (
        field_at(payload, "attempt"@, 0, 3),
        field_at(payload, "remaining_ms"@, 1, 3),
        field_at(payload, "pending_questions"@, 2, 3),
    ) {
        (Some(attempt), Some(remaining), Some(pending)) => match (
            u32_in(attempt),
            u64_in(remaining),
            u32_in(pending),
        ) {
            (Some(attempt), Some(remaining_ms), Some(pending_questions)) => Some(
                BudgetNote { attempt: Attempt(attempt), remaining_ms, pending_questions },
            ),
            _ => None,
        },
        _ => None,
    }
}

impl BudgetNote {
    /// Read a payload as a budget's accounting.
    pub fn from_payload(payload: &Json) -> (note: Option<BudgetNote>)
        ensures
            note == budget_in(*payload),
    {
        let attempt = match payload.field("attempt", 0, 3) {
            Some(value) => match value.as_u32() {
                Some(attempt) => attempt,
                None => return None,
            },
            None => return None,
        };
        let remaining_ms = match payload.field("remaining_ms", 1, 3) {
            Some(value) => match value.as_u64() {
                Some(remaining_ms) => remaining_ms,
                None => return None,
            },
            None => return None,
        };
        let pending_questions = match payload.field("pending_questions", 2, 3) {
            Some(value) => match value.as_u32() {
                Some(pending_questions) => pending_questions,
                None => return None,
            },
            None => return None,
        };
        Some(BudgetNote { attempt: Attempt(attempt), remaining_ms, pending_questions })
    }
}

/// A reading of an attempt budget's note in a state.
pub open spec fn budget_reading(payload: Json, state: BudgetState) -> Option<BudgetReading> {
    match budget_in(payload) {
        Some(note) => Some(BudgetReading { state, note }),
        None => None,
    }
}

/// A note, with the reading its kind gets. A note whose payload does not
/// read as its kind says stays a bare note.
pub open spec fn read_note(note: Note) -> Parsed {
    Parsed::Note {
        note,
        hook_activity: if note.kind@ == HOOK_ACTIVITY_NOTE_KIND@ {
            activity_in(note.payload)
        } else {
            None
        },
        budget: if note.kind@ == HOOK_ACTIVITY_NOTE_KIND@ {
            None
        } else if note.kind@ == BUDGET_PAUSED_KIND@ {
            budget_reading(note.payload, BudgetState::Paused)
        } else if note.kind@ == BUDGET_RESUMED_KIND@ {
            budget_reading(note.payload, BudgetState::Resumed)
        } else {
            None
        },
    }
}

fn budget(payload: &Json, state: BudgetState) -> (reading: Option<BudgetReading>)
    ensures
        reading == budget_reading(*payload, state),
{
    match BudgetNote::from_payload(payload) {
        Some(note) => Some(BudgetReading { state, note }),
        None => None,
    }
}

/// A note, with the reading two kinds get beside it: a hook's own agent
/// event, and an attempt budget's pause or resume.
pub fn note_parsed(note: Note) -> (parsed: Parsed)
    ensures
        parsed == read_note(note),
{
    if text_is(&note.kind, HOOK_ACTIVITY_NOTE_KIND) {
        let hook_activity = HookActivity::from_payload(&note.payload);
        Parsed::Note { note, hook_activity, budget: None }
    } else if text_is(&note.kind, BUDGET_PAUSED_KIND) {
        let budget = budget(&note.payload, BudgetState::Paused);
        Parsed::Note { note, hook_activity: None, budget }
    } else if text_is(&note.kind, BUDGET_RESUMED_KIND) {
        let budget = budget(&note.payload, BudgetState::Resumed);
        Parsed::Note { note, hook_activity: None, budget }
    } else {
        Parsed::Note { note, hook_activity: None, budget: None }
    }
}

/// The note a progress payload is: its kind and its payload, `null` when it
/// carries none.
pub open spec fn note_in(ev: StepEvent) -> Option<Note> {
    match ev {
        StepEvent::Custom(value) => match member_at(value, NOTE_KEY@) {
            Some(note) => match member_at(note, "kind"@) {
                Some(kind) => match text_in(kind) {
                    Some(kind) => Some(
                        Note {
                            kind,
                            payload: match member_at(note, "payload"@) {
                                Some(payload) => payload,
                                None => Json::Null,
                            },
                        },
                    ),
                    None => None,
                },
                None => None,
            },
            None => None,
        },
        _ => None,
    }
}

impl Note {
    /// The note a progress payload is.
    pub fn from_step_event(ev: &StepEvent) -> (note: Option<Note>)
        ensures
            note == note_in(*ev),
    {
        match ev {
            StepEvent::Custom(value) => match value.get(NOTE_KEY) {
                Some(note) => match note.get("kind") {
                    Some(kind) => match kind.as_text() {
                        Some(kind) => {
                            let payload = match note.get("payload") {
                                Some(payload) => payload.clone(),
                                None => Json::Null,
                            };
                            Some(Note { kind: kind.clone(), payload })
                        },
                        None => None,
                    },
                    None => None,
                },
                None => None,
            },
            _ => None,
        }
    }
}

/// What the step protocols read a progress payload as.
#[derive(Debug)]
pub struct StepReading {
    pub question: Option<Arc<Question>>,
    pub expired: Option<Arc<QuestionExpired>>,
}

/// A progress payload under the protocols the run owns: a question, then the
/// expiry of one, then a note.
pub open spec fn progress_in(ev: StepEvent, reading: StepReading) -> Option<Parsed> {
    match (reading.question, reading.expired, note_in(ev)) {
        (Some(question), _, _) => Some(Parsed::Question { question }),
        (None, Some(expired), _) => Some(Parsed::QuestionExpired { expired }),
        (None, None, Some(note)) => Some(read_note(note)),
        (None, None, None) => None,
    }
}

/// The reading of a progress payload, when it is a protocol the run owns.
pub fn parse_progress(ev: &StepEvent, reading: &StepReading) -> (parsed: Option<Parsed>)
    ensures
        parsed == progress_in(*ev, *reading),
{
    match &reading.question {
        Some(question) => {
            return Some(Parsed::Question { question: share(question) });
        },
        None => {},
    }
    match &reading.expired {
        Some(expired) => {
            return Some(Parsed::QuestionExpired { expired: share(expired) });
        },
        None => {},
    }
    match Note::from_step_event(ev) {
        Some(note) => Some(note_parsed(note)),
        None => None,
    }
}

/// A budget's accounting as a note's payload.
pub open spec fn budget_value(note: BudgetNote) -> JsonView {
    JsonView::Object(
        seq![
            ("attempt"@, JsonView::Number(NumberView::Unsigned(note.attempt.0 as u64))),
            ("remaining_ms"@, JsonView::Number(NumberView::Unsigned(note.remaining_ms))),
            (
                "pending_questions"@,
                JsonView::Number(NumberView::Unsigned(note.pending_questions as u64)),
            ),
        ],
    )
}

impl BudgetNote {
    /// The payload of the note the accounting is recorded under.
    pub fn to_payload(&self) -> (payload: Json)
        ensures
            payload@ == budget_value(*self),
            budget_in(payload) == Some(*self),
    {
        let members = vec![
            ("attempt".to_owned(), Json::Number(JsonNumber::Unsigned(self.attempt.0 as u64))),
            ("remaining_ms".to_owned(), Json::Number(JsonNumber::Unsigned(self.remaining_ms))),
            (
                "pending_questions".to_owned(),
                Json::Number(JsonNumber::Unsigned(self.pending_questions as u64)),
            ),
        ];
        proof {
            reveal_strlit("attempt");
            reveal_strlit("remaining_ms");
            reveal_strlit("pending_questions");
            lemma_members(members@);
            assert(members_of(members@) =~= budget_value(*self)->Object_0);
            assert("attempt"@.len() == 7 && "remaining_ms"@.len() == 12
                && "pending_questions"@.len() == 17);
            reveal_with_fuel(first_member, 4);
        }
        Json::Object(Arc::new(members))
    }
}

/// A note as a progress payload.
pub open spec fn note_value(note: Note) -> JsonView {
    JsonView::Object(
        seq![
            (
                NOTE_KEY@,
                JsonView::Object(
                    seq![("kind"@, JsonView::Text(note.kind@)), ("payload"@, note.payload@)],
                ),
            ),
        ],
    )
}

impl Note {
    /// The payload that is the note.
    pub fn to_payload(&self) -> (payload: Json)
        ensures
            payload@ == note_value(*self),
            note_in(StepEvent::Custom(payload)) == Some(*self),
    {
        let inner = vec![
            ("kind".to_owned(), Json::Text(self.kind.clone())),
            ("payload".to_owned(), self.payload.clone()),
        ];
        proof {
            reveal_strlit("kind");
            reveal_strlit("payload");
            lemma_members(inner@);
            assert("kind"@.len() == 4 && "payload"@.len() == 7);
        }
        let ghost inside = inner@;
        let members = vec![(NOTE_KEY.to_owned(), Json::Object(Arc::new(inner)))];
        proof {
            lemma_members(members@);
            let value = note_value(*self)->Object_0;
            assert(members_of(inside) =~= seq![
                ("kind"@, JsonView::Text(self.kind@)),
                ("payload"@, self.payload@),
            ]);
            assert(members_of(members@) =~= value);
            reveal_with_fuel(first_member, 3);
        }
        Json::Object(Arc::new(members))
    }

    /// The progress report that is the note.
    pub fn to_step_event(&self) -> (ev: StepEvent)
        ensures
            ev is Custom,
            ev->Custom_0@ == note_value(*self),
            note_in(ev) == Some(*self),
    {
        StepEvent::Custom(self.to_payload())
    }
}

/// A note of the activity kind is read as a hook's activity, and one of a
/// budget kind as that budget's pause or resume.
pub proof fn law_readings(note: Note)
    ensures
        note.kind@ == HOOK_ACTIVITY_NOTE_KIND@ ==> read_note(note)->hook_activity == activity_in(
            note.payload,
        ),
        note.kind@ == BUDGET_PAUSED_KIND@ ==> read_note(note)->budget == budget_reading(
            note.payload,
            BudgetState::Paused,
        ),
        note.kind@ == BUDGET_RESUMED_KIND@ ==> read_note(note)->budget == budget_reading(
            note.payload,
            BudgetState::Resumed,
        ),
{
    reveal_strlit("hook.activity");
    reveal_strlit("budget_paused");
    reveal_strlit("budget_resumed");
    assert(HOOK_ACTIVITY_NOTE_KIND@[0] == 'h');
    assert(BUDGET_PAUSED_KIND@[0] == 'b' && BUDGET_PAUSED_KIND@.len() == 13);
    assert(BUDGET_RESUMED_KIND@[0] == 'b' && BUDGET_RESUMED_KIND@.len() == 14);
}

} // verus!

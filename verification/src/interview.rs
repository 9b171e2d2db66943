//! Questions from a run, answers from a host: the interview boundary.

use crate::event::CoordinatorEvent;
use crate::ids::{Attempt, ExecutionId, FiringId, InvocationId};
use crate::inspect::texts;
use crate::json::{members_of, text_in, value_of, Json, JsonView};
use crate::model::{copy_json, copy_text};
use crate::named::NamedTable;
use crate::state::EngineState;
use crate::steps::{Answer, Question, QuestionOption};
use crate::table::Table;
use crate::text::{join, join3, same};
use std::sync::Arc;
use vstd::prelude::*;
use vstd::string::*;

verus! {

/// The receipt format this module writes. Bump when a field changes meaning.
pub const RECEIPT_VERSION: u32 = 1;

/// How an answer left the dispatcher.
#[derive(Clone, Copy, Debug, PartialEq, Eq, Structural)]
pub enum Delivery {
    /// The control reached the firing's channel.
    Delivered,
    /// The firing was no longer live when the control was sent.
    NotLive,
    /// The firing finished before the interviewer replied; nothing was sent.
    Late,
    /// The dispatcher shut down while the reply was pending; nothing was
    /// sent.
    Shutdown,
    /// A sensitive answer could not be registered as a secret; its plaintext
    /// was withheld and its human gate cancelled instead.
    Withheld,
}

/// What the interviewer replied, as the receipt records it. A sensitive text
/// answer appears only as its `$secret` reference.
#[derive(Debug)]
pub enum ReplyRecord {
    Answered { choice: Option<String>, choices: Vec<String>, text: Option<Json> },
    Cancelled,
    Failed { error: String },
}

/// One question the run asked, and what became of it.
#[derive(Debug)]
pub struct InterviewRecord {
    pub invocation: InvocationId,
    pub invocation_path: String,
    pub execution: ExecutionId,
    pub firing: FiringId,
    pub attempt: Attempt,
    pub node: String,
    pub occurrence: u32,
    pub ask: u32,
    pub question: String,
    pub kind: Option<String>,
    pub text: String,
    pub options: Vec<String>,
    pub sensitive: bool,
    pub reply: ReplyRecord,
    pub delivery: Delivery,
}

/// The machine-readable record of a run's interviews.
#[derive(Debug)]
pub struct InterviewReceipt {
    pub version: u32,
    pub questions: Vec<InterviewRecord>,
    /// Interviewer failures, late replies, withheld plaintext, pending tasks
    /// at shutdown, and whatever the interviewer's finish reported.
    pub errors: Vec<String>,
    /// What the interviewer's finish returned.
    pub script: Option<Json>,
}

impl InterviewReceipt {
    /// Whether the interviews went as intended.
    pub fn is_clean(&self) -> (clean: bool)
        ensures
            clean == (self.errors@.len() == 0),
    {
        self.errors.len() == 0
    }
}

// ── Questions ──────────────────────────────────────────────────────────

/// One question, with everything a host needs to tell it apart from every
/// other question this run asks.
#[derive(Debug)]
pub struct InterviewRequest {
    pub invocation: InvocationId,
    /// The logical path of the invocation: `/` for the root, then one `/`
    /// segment per nested call slot.
    pub invocation_path: String,
    pub execution: ExecutionId,
    pub firing: FiringId,
    pub attempt: Attempt,
    /// The node instance name.
    pub node: String,
    /// Which distinct question this node instance is asking within its
    /// invocation, 1-based.
    pub occurrence: u32,
    /// How many times this exact question id has been asked, 1-based.
    pub ask: u32,
    pub question: Arc<Question>,
}

/// A failure of the interviewer, not a negative answer: its message, and
/// what caused it, outermost first.
#[derive(Debug)]
pub struct InterviewError {
    message: String,
    causes: Vec<String>,
}

impl InterviewError {
    /// The message.
    pub closed spec fn spec_message(&self) -> Seq<char> {
        self.message@
    }

    /// The causes, outermost first.
    pub closed spec fn spec_causes(&self) -> Seq<Seq<char>> {
        texts(self.causes@)
    }

    /// A failure with no cause.
    pub fn new(message: String) -> (error: InterviewError)
        ensures
            error.spec_message() == message@,
            error.spec_causes() == Seq::<Seq<char>>::empty(),
    {
        let error = InterviewError { message, causes: Vec::new() };
        assert(error.spec_causes() =~= Seq::<Seq<char>>::empty());
        error
    }

    /// A failure with what caused it, outermost first.
    pub fn with_source(message: String, causes: Vec<String>) -> (error: InterviewError)
        ensures
            error.spec_message() == message@,
            error.spec_causes() == texts(causes@),
    {
        InterviewError { message, causes }
    }

    /// The message.
    pub fn message(&self) -> (message: &str)
        ensures
            message@ == self.spec_message(),
    {
        self.message.as_str()
    }
}

/// Causes joined behind a message.
pub open spec fn joined(message: Seq<char>, causes: Seq<Seq<char>>) -> Seq<char>
    decreases causes.len(),
{
    if causes.len() == 0 {
        message
    } else {
        joined(message, causes.drop_last()) + ": "@ + causes.last()
    }
}

/// An error and its causes on one line.
pub fn chain(error: &InterviewError) -> (line: String)
    ensures
        line@ == joined(error.spec_message(), error.spec_causes()),
{
    let mut line = error.message.clone();
    let mut i: usize = 0;
    let ghost causes = texts(error.causes@);
    while i < error.causes.len()
        invariant
            i <= error.causes.len(),
            causes == texts(error.causes@),
            line@ == joined(error.message@, causes.take(i as int)),
        decreases error.causes.len() - i,
    {
        assert(causes.take(i + 1).drop_last() =~= causes.take(i as int));
        line = line.concat(": ").concat(error.causes[i].as_str());
        i = i + 1;
    }
    assert(causes.take(i as int) =~= causes);
    line
}

/// What an interviewer decided.
#[derive(Debug)]
pub enum InterviewReply {
    /// An answer to bind to the question and deliver. A refusal is an
    /// `Answered` naming the negative choice.
    Answered(Answer),
    /// The interviewer stopped waiting.
    Cancelled,
    /// The interviewer itself failed. Its question fails closed and the error
    /// reaches the receipt.
    Failed(InterviewError),
}

/// What a question id was asked as in its execution: how often, and as which
/// of its node instance's questions it was asked first.
#[derive(Clone, Copy, Debug, PartialEq, Eq, Structural)]
pub struct Asked {
    pub count: u32,
    pub occurrence: u32,
}

/// What the dispatcher keeps of a run's interviews.
#[derive(Debug)]
pub struct Interviews {
    executions: Table<InvocationId>,
    paths: Table<String>,
    occurrences: NamedTable<u32>,
    asks: NamedTable<Asked>,
    live: NamedTable<FiringId>,
    records: Vec<InterviewRecord>,
    errors: Vec<String>,
    closed: bool,
}

/// The dispatcher's state, with its tables as maps and its texts as
/// sequences.
pub struct InterviewsModel {
    /// Which invocation each execution belongs to.
    pub executions: Map<u64, InvocationId>,
    /// Each invocation's logical path.
    pub paths: Map<u64, Seq<char>>,
    /// Distinct questions per invocation and node instance.
    pub occurrences: Map<(u64, Seq<char>), u32>,
    /// Asks per execution and question id.
    pub asks: Map<(u64, Seq<char>), Asked>,
    /// Questions whose reply is pending, with the firing that asked.
    pub live: Map<(u64, Seq<char>), FiringId>,
    pub records: Seq<InterviewRecord>,
    pub errors: Seq<Seq<char>>,
    /// Set once shutdown starts; later questions are refused.
    pub closed: bool,
}

impl View for Interviews {
    type V = InterviewsModel;

    closed spec fn view(&self) -> InterviewsModel {
        InterviewsModel {
            executions: self.executions@,
            paths: self.paths@.map_values(|path: String| path@),
            occurrences: self.occurrences@,
            asks: self.asks@,
            live: self.live@,
            records: self.records@,
            errors: texts(self.errors@),
            closed: self.closed,
        }
    }
}

/// The logical path of an execution's invocation: the root's when the
/// execution or its invocation is unknown.
pub open spec fn path_of(state: InterviewsModel, invocation: InvocationId) -> Seq<char> {
    if state.paths.contains_key(invocation.0) {
        state.paths[invocation.0]
    } else {
        "/"@
    }
}

/// The invocation of an execution: the root when the execution is unknown.
pub open spec fn invocation_of(state: InterviewsModel, execution: ExecutionId) -> InvocationId {
    if state.executions.contains_key(execution.0) {
        state.executions[execution.0]
    } else {
        InvocationId::root()
    }
}

/// How often a question id was asked in an execution.
pub open spec fn asked(state: InterviewsModel, execution: ExecutionId, question: Seq<char>) -> u32 {
    if state.asks.contains_key((execution.0, question)) {
        state.asks[(execution.0, question)].count
    } else {
        0
    }
}

/// The occurrence a question id was given when it was first asked in an
/// execution.
pub open spec fn first_occurrence(
    state: InterviewsModel,
    execution: ExecutionId,
    question: Seq<char>,
) -> u32 {
    state.asks[(execution.0, question)].occurrence
}

/// The occurrence a question has when it is asked: the one it was first
/// given, or the next of its node instance when its id is new.
pub open spec fn occurrence_at(
    state: InterviewsModel,
    execution: ExecutionId,
    question: Seq<char>,
    node: Seq<char>,
) -> u32 {
    if asked(state, execution, question) == 0 {
        (occurred(state, invocation_of(state, execution), node) + 1) as u32
    } else {
        first_occurrence(state, execution, question)
    }
}

/// How many distinct questions a node instance asked in an invocation.
pub open spec fn occurred(state: InterviewsModel, invocation: InvocationId, node: Seq<char>) -> u32 {
    if state.occurrences.contains_key((invocation.0, node)) {
        state.occurrences[(invocation.0, node)]
    } else {
        0
    }
}

/// The attempt a firing is at: its first when it is not live.
pub open spec fn attempt_at(engine: EngineState, firing: FiringId) -> Attempt {
    match engine.spec_firing(firing) {
        Some(live) => live.attempt,
        None => Attempt(1),
    }
}

/// The instance name of a firing's node: `?` when the graph has none.
pub open spec fn asking_node(engine: EngineState, firing: FiringId) -> Seq<char> {
    match engine.spec_firing_node(firing) {
        Some(node) => match engine.graph.spec_node(node) {
            Some(node) => node.name@,
            None => "?"@,
        },
        None => "?"@,
    }
}

/// A state with one more error.
pub open spec fn with_error(state: InterviewsModel, error: Seq<char>) -> InterviewsModel {
    InterviewsModel { errors: state.errors.push(error), ..state }
}

/// Whether the counters have room for one more ask of a question.
pub open spec fn has_room(
    state: InterviewsModel,
    execution: ExecutionId,
    question: Seq<char>,
    node: Seq<char>,
) -> bool {
    &&& asked(state, execution, question) < u32::MAX
    &&& asked(state, execution, question) > 0 || occurred(
        state,
        invocation_of(state, execution),
        node,
    ) < u32::MAX
}

fn node_name(engine: &EngineState, firing: FiringId) -> (name: String)
    ensures
        name@ == asking_node(*engine, firing),
{
    match engine.firing_node(firing) {
        Some(id) => match engine.graph.node(id) {
            Some(node) => node.name.clone(),
            None => "?".to_owned(),
        },
        None => "?".to_owned(),
    }
}

/// The state once a question's reply is pending: its ask is counted, and its
/// node's questions too when the id is new.
pub open spec fn after_ask(
    state: InterviewsModel,
    execution: ExecutionId,
    firing: FiringId,
    question: Seq<char>,
    node: Seq<char>,
) -> InterviewsModel {
    let invocation = invocation_of(state, execution);
    let ask = asked(state, execution, question);
    InterviewsModel {
        asks: state.asks.insert(
            (execution.0, question),
            Asked {
                count: (ask + 1) as u32,
                occurrence: occurrence_at(state, execution, question, node),
            },
        ),
        occurrences: if ask == 0 {
            state.occurrences.insert(
                (invocation.0, node),
                (occurred(state, invocation, node) + 1) as u32,
            )
        } else {
            state.occurrences
        },
        live: state.live.insert((execution.0, question), firing),
        ..state
    }
}

/// Whether a request asks this question of this firing, correlated under the
/// state it arrived in.
pub open spec fn correlates(
    state: InterviewsModel,
    execution: ExecutionId,
    firing: FiringId,
    question: Arc<Question>,
    engine: EngineState,
    request: InterviewRequest,
) -> bool {
    let invocation = invocation_of(state, execution);
    let node = asking_node(engine, firing);
    let ask = asked(state, execution, question.id@);
    &&& request.invocation == invocation
    &&& request.invocation_path@ == path_of(state, invocation)
    &&& request.execution == execution
    &&& request.firing == firing
    &&& request.attempt == attempt_at(engine, firing)
    &&& request.node@ == node
    &&& request.ask == ask + 1
    &&& request.occurrence == occurrence_at(state, execution, question.id@, node)
    &&& ask > 0 ==> request.occurrence == first_occurrence(state, execution, question.id@)
    &&& request.question == question
}

impl Interviews {
    /// The tables hold each key once.
    pub closed spec fn wf(&self) -> bool {
        &&& self.occurrences.wf()
        &&& self.asks.wf()
        &&& self.live.wf()
    }

    /// A dispatcher that was asked nothing. The root's path is `/`.
    pub fn new() -> (interviews: Interviews)
        ensures
            interviews.wf(),
            interviews@ == (InterviewsModel {
                executions: Map::empty(),
                paths: Map::empty().insert(0u64, "/"@),
                occurrences: Map::empty(),
                asks: Map::empty(),
                live: Map::empty(),
                records: Seq::empty(),
                errors: Seq::empty(),
                closed: false,
            }),
    {
        let mut paths: Table<String> = Table::new();
        paths.insert(InvocationId::root().0, "/".to_owned());
        let interviews = Interviews {
            executions: Table::new(),
            paths,
            occurrences: NamedTable::new(),
            asks: NamedTable::new(),
            live: NamedTable::new(),
            records: Vec::new(),
            errors: Vec::new(),
            closed: false,
        };
        assert(interviews@.paths =~= Map::empty().insert(0u64, "/"@));
        assert(interviews@.errors =~= Seq::empty());
        interviews
    }

    fn push_error(&mut self, error: String)
        requires
            old(self).wf(),
        ensures
            final(self).wf(),
            final(self)@ == with_error(old(self)@, error@),
    {
        self.errors.push(error);
        assert(self@.errors =~= old(self)@.errors.push(error@));
    }

    fn path(&self, invocation: InvocationId) -> (path: String)
        requires
            self.wf(),
        ensures
            path@ == path_of(self@, invocation),
    {
        match self.paths.get(invocation.0) {
            Some(path) => path.clone(),
            None => "/".to_owned(),
        }
    }

    /// Whether the counters have room for one more ask of a question.
    pub fn can_ask(
        &self,
        execution: ExecutionId,
        firing: FiringId,
        question: &Question,
        engine: &EngineState,
    ) -> (room: bool)
        requires
            self.wf(),
        ensures
            room == has_room(self@, execution, question.id@, asking_node(*engine, firing)),
    {
        let node = node_name(engine, firing);
        let invocation = match self.executions.get(execution.0) {
            Some(invocation) => *invocation,
            None => InvocationId::root(),
        };
        let asked: u32 = match self.asks.get(execution.0, &question.id) {
            Some(asked) => asked.count,
            None => 0,
        };
        let occurred: u32 = match self.occurrences.get(invocation.0, &node) {
            Some(count) => *count,
            None => 0,
        };
        asked < u32::MAX && (asked > 0 || occurred < u32::MAX)
    }

    /// Correlate a question and make its reply pending. Nothing comes back
    /// for a question that arrives before the dispatcher is wired or after
    /// it shut down, which are errors, and for one whose reply is already
    /// pending, which is a duplicate.
    pub fn ask(
        &mut self,
        wired: bool,
        execution: ExecutionId,
        firing: FiringId,
        question: Arc<Question>,
        engine: &EngineState,
    ) -> (request: Option<InterviewRequest>)
        requires
            old(self).wf(),
            wired && !old(self)@.closed && !old(self)@.live.contains_key(
                (execution.0, question.id@),
            ) ==> has_room(
                old(self)@,
                execution,
                question.id@,
                asking_node(*engine, firing),
            ),
        ensures
            final(self).wf(),
            if !wired {
                &&& request is None
                &&& final(self)@ == with_error(
                    old(self)@,
                    "question `"@ + question.id@ + "` arrived before the dispatcher was wired"@,
                )
            } else if old(self)@.closed {
                &&& request is None
                &&& final(self)@ == with_error(
                    old(self)@,
                    "question `"@ + question.id@ + "` arrived after shutdown"@,
                )
            } else if old(self)@.live.contains_key((execution.0, question.id@)) {
                request is None && final(self)@ == old(self)@
            } else {
                &&& request is Some
                &&& correlates(old(self)@, execution, firing, question, *engine, request->0)
                &&& final(self)@ == after_ask(
                    old(self)@,
                    execution,
                    firing,
                    question.id@,
                    asking_node(*engine, firing),
                )
            },
    {
        if !wired {
            self.push_error(
                join3(
                    "question `",
                    question.id.as_str(),
                    "` arrived before the dispatcher was wired",
                ),
            );
            return None;
        }
        let attempt = match engine.firing(firing) {
            Some(live) => live.attempt,
            None => Attempt(1),
        };
        let node = node_name(engine, firing);
        if self.closed {
            self.push_error(join3("question `", question.id.as_str(), "` arrived after shutdown"));
            return None;
        }
        if self.live.get(execution.0, &question.id).is_some() {
            return None;
        }
        let invocation = match self.executions.get(execution.0) {
            Some(invocation) => *invocation,
            None => InvocationId::root(),
        };
        let invocation_path = self.path(invocation);
        let (before, first): (u32, u32) = match self.asks.get(execution.0, &question.id) {
            Some(asked) => (asked.count, asked.occurrence),
            None => (0, 0),
        };
        let ask: u32 = before + 1;
        let occurrence: u32 = if ask == 1 {
            let count: u32 = match self.occurrences.get(invocation.0, &node) {
                Some(count) => *count,
                None => 0,
            };
            self.occurrences.insert(invocation.0, node.clone(), count + 1);
            count + 1
        } else {
            first
        };
        self.asks.insert(execution.0, question.id.clone(), Asked { count: ask, occurrence });
        self.live.insert(execution.0, question.id.clone(), firing);
        Some(
            InterviewRequest {
                invocation,
                invocation_path,
                execution,
                firing,
                attempt,
                node,
                occurrence,
                ask,
                question,
            },
        )
    }
}

// ── Replies ────────────────────────────────────────────────────────────

/// Whether an answer's text is a secret: a text answer to a sensitive
/// question that names no choice.
pub open spec fn is_secret(question: Question, answer: Answer) -> bool {
    &&& question.sensitive
    &&& answer.choice is None
    &&& answer.choices@.len() == 0
    &&& answer.text matches Some(Json::Text(_))
}

/// The name a question's sensitive answer is registered under.
pub open spec fn secret_name(question: Question) -> Seq<char> {
    "answer:"@ + question.id@
}

/// Whether a value is the reference to a named secret.
pub open spec fn refers_to(value: Json, name: Seq<char>) -> bool {
    value@ == JsonView::Object(seq![("$secret"@, JsonView::Text(name))])
}

/// The reference to a named secret.
fn secret_reference(name: &String) -> (value: Json)
    ensures
        refers_to(value, name@),
{
    let mut members: Vec<(String, Json)> = Vec::new();
    members.push(("$secret".to_owned(), Json::Text(name.clone())));
    let ghost listed = members@;
    let value = Json::Object(Arc::new(members));
    proof {
        reveal_with_fuel(members_of, 2);
        reveal_with_fuel(value_of, 2);
        assert(listed.drop_last() =~= Seq::empty());
        assert(members_of(listed) =~= seq![("$secret"@, JsonView::Text(name@))]);
    }
    value
}

/// How the receipt shows an answer: a secret only by its reference.
pub open spec fn shows_answer(question: Question, answer: Answer, reply: ReplyRecord) -> bool {
    match reply {
        ReplyRecord::Answered { choice, choices, text } => {
            &&& choice == answer.choice
            &&& choices@ == answer.choices@
            &&& if is_secret(question, answer) {
                text matches Some(value) && refers_to(value, secret_name(question))
            } else {
                text == answer.text
            }
        },
        _ => false,
    }
}

/// How the receipt shows a reply.
pub open spec fn shows_reply(question: Question, reply: InterviewReply, shown: ReplyRecord) -> bool {
    match reply {
        InterviewReply::Answered(answer) => shows_answer(question, answer, shown),
        InterviewReply::Cancelled => shown is Cancelled,
        InterviewReply::Failed(error) => match shown {
            ReplyRecord::Failed { error: line } => line@ == joined(
                error.spec_message(),
                error.spec_causes(),
            ),
            _ => false,
        },
    }
}

/// A sensitive text answer appears in the receipt only as its reference: its
/// text is never shown.
pub proof fn law_secret_text_is_never_shown(
    question: Question,
    answer: Answer,
    shown: ReplyRecord,
)
    requires
        shows_reply(question, InterviewReply::Answered(answer), shown),
        is_secret(question, answer),
    ensures
        shown matches ReplyRecord::Answered { choice, choices, text } && text is Some
            && !(text->0 is Text) && refers_to(text->0, secret_name(question)),
{
    let text = shown->text->0;
    assert(value_of(text) is Object);
}

/// The keys of a question's options.
pub open spec fn option_keys(question: Question) -> Seq<String> {
    question.options@.map_values(|option: QuestionOption| option.key)
}

/// Whether a record is about a request, whatever became of it.
pub open spec fn is_about(request: InterviewRequest, record: InterviewRecord) -> bool {
    &&& record.invocation == request.invocation
    &&& record.invocation_path == request.invocation_path
    &&& record.execution == request.execution
    &&& record.firing == request.firing
    &&& record.attempt == request.attempt
    &&& record.node == request.node
    &&& record.occurrence == request.occurrence
    &&& record.ask == request.ask
    &&& record.question == request.question.id
    &&& record.kind == request.question.kind
    &&& record.text == request.question.text
    &&& record.options@ == option_keys(*request.question)
    &&& record.sensitive == request.question.sensitive
}

fn record_of(request: &InterviewRequest) -> (record: InterviewRecord)
    ensures
        is_about(*request, record),
        record.reply is Cancelled,
        record.delivery == Delivery::Shutdown,
{
    let question = &request.question;
    let mut options: Vec<String> = Vec::new();
    let mut i: usize = 0;
    while i < question.options.len()
        invariant
            i <= question.options.len(),
            options@.len() == i,
            forall|j: int| 0 <= j < i ==> #[trigger] options@[j] == question.options@[j].key,
        decreases question.options.len() - i,
    {
        options.push(question.options[i].key.clone());
        i = i + 1;
    }
    assert(options@ =~= option_keys(**question));
    InterviewRecord {
        invocation: request.invocation,
        invocation_path: request.invocation_path.clone(),
        execution: request.execution,
        firing: request.firing,
        attempt: request.attempt,
        node: request.node.clone(),
        occurrence: request.occurrence,
        ask: request.ask,
        question: question.id.clone(),
        kind: copy_text(&question.kind),
        text: question.text.clone(),
        options,
        sensitive: question.sensitive,
        reply: ReplyRecord::Cancelled,
        delivery: Delivery::Shutdown,
    }
}

fn copy_choices(choices: &Vec<String>) -> (copy: Vec<String>)
    ensures
        copy@ == choices@,
{
    let mut copy: Vec<String> = Vec::new();
    let mut i: usize = 0;
    while i < choices.len()
        invariant
            i <= choices.len(),
            copy@ == choices@.take(i as int),
        decreases choices.len() - i,
    {
        copy.push(choices[i].clone());
        i = i + 1;
        assert(copy@ =~= choices@.take(i as int));
    }
    assert(copy@ =~= choices@);
    copy
}

/// The text of an answer that is a secret.
fn secret_in(question: &Question, answer: &Answer) -> (secret: Option<String>)
    ensures
        secret == (if is_secret(*question, *answer) {
            text_in(answer.text->0)
        } else {
            None
        }),
{
    if question.sensitive && answer.choice.is_none() && answer.choices.len() == 0 {
        match &answer.text {
            Some(Json::Text(text)) => Some(text.clone()),
            _ => None,
        }
    } else {
        None
    }
}

fn answered(question: &Question, answer: &Answer) -> (shown: ReplyRecord)
    ensures
        shows_answer(*question, *answer, shown),
{
    let text = match secret_in(question, answer) {
        Some(_) => Some(secret_reference(&question.secret_name())),
        None => copy_json(&answer.text),
    };
    ReplyRecord::Answered {
        choice: copy_text(&answer.choice),
        choices: copy_choices(&answer.choices),
        text,
    }
}

/// How the receipt shows a reply.
pub fn describe(question: &Question, reply: &InterviewReply) -> (shown: ReplyRecord)
    ensures
        shows_reply(*question, *reply, shown),
{
    match reply {
        InterviewReply::Answered(answer) => answered(question, answer),
        InterviewReply::Cancelled => ReplyRecord::Cancelled,
        InterviewReply::Failed(error) => ReplyRecord::Failed { error: chain(error) },
    }
}

/// What goes to a question's firing.
#[derive(Debug)]
pub enum AnswerControl {
    /// The answer, bound to its question.
    Answer(Answer),
    /// The question fails closed.
    Cancel,
}

/// What a question's task does next.
#[derive(Debug)]
pub enum ServeStep {
    /// Nothing: the question is recorded.
    Done,
    /// Register `secret` under `name`, then hand the outcome to
    /// [`Interviews::registered`].
    Register { record: InterviewRecord, answer: Answer, name: String, secret: String },
    /// Deliver the control to the question's firing, then hand the outcome
    /// to [`Interviews::delivered`].
    Deliver { record: InterviewRecord, control: AnswerControl },
    /// Cancel the question's firing, then [`Interviews::keep`] the record,
    /// whatever became of the cancel.
    CancelGate { record: InterviewRecord },
}

/// How a reply that cannot be delivered is recorded.
pub open spec fn undelivered(shutdown: bool) -> Delivery {
    if shutdown {
        Delivery::Shutdown
    } else {
        Delivery::Late
    }
}

/// An answer bound to a question.
pub open spec fn bound_to(answer: Answer, question: Question, bound: Answer) -> bool {
    &&& bound.question == Some(question.id)
    &&& bound.choice == answer.choice
    &&& bound.choices@ == answer.choices@
    &&& bound.text == answer.text
}

/// A state in which a question is no longer pending.
pub open spec fn no_longer_pending(state: InterviewsModel, request: InterviewRequest) -> InterviewsModel {
    InterviewsModel {
        live: state.live.remove((request.execution.0, request.question.id@)),
        ..state
    }
}

/// A state with one more record.
pub open spec fn with_record(state: InterviewsModel, record: InterviewRecord) -> InterviewsModel {
    InterviewsModel { records: state.records.push(record), ..state }
}

/// What a reply to a pending question leads to.
pub open spec fn replied(
    state: InterviewsModel,
    request: InterviewRequest,
    reply: InterviewReply,
    step: ServeStep,
    after: InterviewsModel,
) -> bool {
    let question = *request.question;
    match reply {
        InterviewReply::Answered(answer) => {
            &&& after == state
            &&& if is_secret(question, answer) {
                &&& step matches ServeStep::Register { record, answer: bound, name, secret }
                &&& is_about(request, record)
                &&& bound_to(answer, question, bound)
                &&& name@ == secret_name(question)
                &&& answer.text == Some(Json::Text(secret))
            } else {
                &&& step matches ServeStep::Deliver { record, control }
                &&& is_about(request, record)
                &&& shows_answer(question, answer, record.reply)
                &&& control matches AnswerControl::Answer(bound)
                &&& bound_to(answer, question, bound)
            }
        },
        InterviewReply::Cancelled => {
            &&& after == state
            &&& step matches ServeStep::Deliver { record, control }
            &&& is_about(request, record)
            &&& record.reply is Cancelled
            &&& control is Cancel
        },
        InterviewReply::Failed(error) => {
            let line = joined(error.spec_message(), error.spec_causes());
            &&& after == with_error(
                state,
                "the interviewer failed on `"@ + question.id@ + "`: "@ + line,
            )
            &&& step matches ServeStep::Deliver { record, control }
            &&& is_about(request, record)
            &&& shows_reply(question, reply, record.reply)
            &&& control is Cancel
        },
    }
}

/// A reply that came too late: recorded, never delivered.
pub open spec fn came_late(
    state: InterviewsModel,
    request: InterviewRequest,
    reply: InterviewReply,
    shutdown: bool,
    after: InterviewsModel,
) -> bool {
    exists|record: InterviewRecord|
        {
            &&& #[trigger] is_about(request, record)
            &&& shows_reply(*request.question, reply, record.reply)
            &&& record.delivery == undelivered(shutdown)
            &&& after == with_record(
                with_error(
                    state,
                    "a reply to `"@ + request.question.id@
                        + "` arrived after its firing finished"@,
                ),
                record,
            )
        }
}

/// A wait that ended without a reply.
pub open spec fn ended(
    state: InterviewsModel,
    request: InterviewRequest,
    shutdown: bool,
    after: InterviewsModel,
) -> bool {
    exists|record: InterviewRecord|
        {
            &&& #[trigger] is_about(request, record)
            &&& record.reply is Cancelled
            &&& record.delivery == undelivered(shutdown)
            &&& after == with_record(state, record)
        }
}

impl Interviews {
    /// Add a record of a question.
    pub fn keep(&mut self, record: InterviewRecord)
        requires
            old(self).wf(),
        ensures
            final(self).wf(),
            final(self)@ == with_record(old(self)@, record),
    {
        self.records.push(record);
    }

    /// A question's wait ended: with the interviewer's reply, or without one
    /// when its token fired. Whatever the reply, the question is no longer
    /// pending. A reply to a question whose firing has finished or that was
    /// not pending any more, or that comes once the dispatcher shuts down,
    /// is late: recorded, never delivered.
    pub fn serve(
        &mut self,
        request: &InterviewRequest,
        reply: Option<InterviewReply>,
        finished: bool,
        shutdown: bool,
    ) -> (step: ServeStep)
        requires
            old(self).wf(),
        ensures
            final(self).wf(),
            ({
                let settled = no_longer_pending(old(self)@, *request);
                let live = !finished && old(self)@.live.contains_key(
                    (request.execution.0, request.question.id@),
                );
                match reply {
                    None => step is Done && ended(settled, *request, shutdown, final(self)@),
                    Some(reply) => if !live || shutdown {
                        step is Done && came_late(
                            settled,
                            *request,
                            reply,
                            shutdown,
                            final(self)@,
                        )
                    } else {
                        replied(settled, *request, reply, step, final(self)@)
                    },
                }
            }),
    {
        let question = &request.question;
        let mut record = record_of(request);
        let was_live = self.live.remove(request.execution.0, &question.id).is_some()
            && !finished;
        let late = if shutdown {
            Delivery::Shutdown
        } else {
            Delivery::Late
        };
        let ghost settled = no_longer_pending(old(self)@, *request);
        assert(self@ == settled);
        let reply = match reply {
            Some(reply) => reply,
            None => {
                record.delivery = late;
                assert(is_about(*request, record));
                self.keep(record);
                return ServeStep::Done;
            },
        };
        if !was_live || shutdown {
            record.reply = describe(question, &reply);
            record.delivery = late;
            self.push_error(
                join3(
                    "a reply to `",
                    question.id.as_str(),
                    "` arrived after its firing finished",
                ),
            );
            assert(is_about(*request, record));
            self.keep(record);
            return ServeStep::Done;
        }
        match reply {
            InterviewReply::Answered(answer) => {
                let secret = secret_in(question, &answer);
                let shown = answered(question, &answer);
                let bound = Answer {
                    question: Some(question.id.clone()),
                    choice: answer.choice,
                    choices: answer.choices,
                    text: answer.text,
                };
                match secret {
                    // Registered first, then referenced: the log sees the
                    // name only.
                    Some(secret) => ServeStep::Register {
                        record,
                        answer: bound,
                        name: question.secret_name(),
                        secret,
                    },
                    None => {
                        record.reply = shown;
                        ServeStep::Deliver { record, control: AnswerControl::Answer(bound) }
                    },
                }
            },
            InterviewReply::Cancelled => {
                record.reply = ReplyRecord::Cancelled;
                ServeStep::Deliver { record, control: AnswerControl::Cancel }
            },
            InterviewReply::Failed(error) => {
                let line = chain(&error);
                self.push_error(
                    join3("the interviewer failed on `", question.id.as_str(), "`: ").concat(
                        line.as_str(),
                    ),
                );
                record.reply = ReplyRecord::Failed { error: line };
                ServeStep::Deliver { record, control: AnswerControl::Cancel }
            },
        }
    }

    /// A sensitive answer was registered, or could not be. A registration
    /// failure withholds the value and cancels the question.
    pub fn registered(
        &mut self,
        record: InterviewRecord,
        answer: Answer,
        name: String,
        outcome: Result<(), String>,
    ) -> (step: ServeStep)
        requires
            old(self).wf(),
        ensures
            final(self).wf(),
            match outcome {
                Ok(_) => {
                    &&& final(self)@ == old(self)@
                    &&& step matches ServeStep::Deliver { record: kept, control }
                    &&& kept == (InterviewRecord { reply: kept.reply, ..record })
                    &&& kept.reply matches ReplyRecord::Answered { choice, choices, text }
                    &&& choice == answer.choice
                    &&& choices@ == answer.choices@
                    &&& text matches Some(shown)
                    &&& refers_to(shown, name@)
                    &&& control matches AnswerControl::Answer(sent)
                    &&& sent == (Answer { text: Some(shown), ..answer })
                },
                Err(error) => {
                    &&& final(self)@ == with_error(
                        old(self)@,
                        "could not register the answer to `"@ + record.question@
                            + "` as a secret: "@ + error@,
                    )
                    &&& step matches ServeStep::CancelGate { record: kept }
                    &&& kept == (InterviewRecord {
                        reply: kept.reply,
                        delivery: Delivery::Withheld,
                        ..record
                    })
                    &&& kept.reply matches ReplyRecord::Answered { choice, choices, text }
                    &&& choice is None
                    &&& choices@.len() == 0
                    &&& text matches Some(shown)
                    &&& refers_to(shown, name@)
                },
            },
    {
        let reference = secret_reference(&name);
        let mut record = record;
        match outcome {
            Ok(_) => {
                let mut answer = answer;
                record.reply = ReplyRecord::Answered {
                    choice: copy_text(&answer.choice),
                    choices: copy_choices(&answer.choices),
                    text: Some(reference.clone()),
                };
                answer.text = Some(reference);
                ServeStep::Deliver { record, control: AnswerControl::Answer(answer) }
            },
            Err(error) => {
                self.push_error(
                    join3(
                        "could not register the answer to `",
                        record.question.as_str(),
                        "` as a secret: ",
                    ).concat(error.as_str()),
                );
                record.reply = ReplyRecord::Answered {
                    choice: None,
                    choices: Vec::new(),
                    text: Some(reference),
                };
                record.delivery = Delivery::Withheld;
                ServeStep::CancelGate { record }
            },
        }
    }

    /// The control reached the firing's channel, or the firing was no longer
    /// live: the question is recorded.
    pub fn delivered(&mut self, record: InterviewRecord, reached: bool)
        requires
            old(self).wf(),
        ensures
            final(self).wf(),
            final(self)@ == with_record(
                old(self)@,
                InterviewRecord {
                    delivery: if reached {
                        Delivery::Delivered
                    } else {
                        Delivery::NotLive
                    },
                    ..record
                },
            ),
    {
        let mut record = record;
        record.delivery = if reached {
            Delivery::Delivered
        } else {
            Delivery::NotLive
        };
        self.keep(record);
    }
}

// ── The run's records ──────────────────────────────────────────────────

/// The path of a nested invocation: its caller's, then its slot.
pub open spec fn nested_path(parent: Seq<char>, slot: Seq<char>) -> Seq<char> {
    if parent == "/"@ {
        "/"@ + slot
    } else {
        parent + "/"@ + slot
    }
}

/// The path of the invocation an execution belongs to: the root's when the
/// execution or its invocation is unknown.
pub open spec fn caller_path(state: InterviewsModel, execution: ExecutionId) -> Seq<char> {
    if state.executions.contains_key(execution.0) {
        path_of(state, state.executions[execution.0])
    } else {
        "/"@
    }
}

/// The state after a coordinator record: a declared execution's invocation
/// and a nested invocation's path are remembered.
pub open spec fn after_record(state: InterviewsModel, event: CoordinatorEvent) -> InterviewsModel {
    match event {
        CoordinatorEvent::ExecutionDeclared { execution, invocation, .. } => InterviewsModel {
            executions: state.executions.insert(execution.0, invocation),
            ..state
        },
        CoordinatorEvent::InvocationDeclared { invocation, call: Some(call), .. } => {
            InterviewsModel {
                paths: state.paths.insert(
                    invocation.0,
                    nested_path(caller_path(state, call.parent), call.slot@),
                ),
                ..state
            }
        },
        _ => state,
    }
}

impl Interviews {
    /// A coordinator record: where executions and invocations stand.
    pub fn on_lifecycle(&mut self, event: &CoordinatorEvent)
        requires
            old(self).wf(),
        ensures
            final(self).wf(),
            final(self)@ == after_record(old(self)@, *event),
    {
        match event {
            CoordinatorEvent::ExecutionDeclared { execution, invocation, .. } => {
                self.executions.insert(execution.0, *invocation);
            },
            CoordinatorEvent::InvocationDeclared { invocation, call: Some(call), .. } => {
                let parent = match self.executions.get(call.parent.0) {
                    Some(caller) => self.path(*caller),
                    None => "/".to_owned(),
                };
                let path = if same(parent.as_str(), "/") {
                    join("/", call.slot.as_str())
                } else {
                    join3(parent.as_str(), "/", call.slot.as_str())
                };
                let ghost shown = path@;
                self.paths.insert(invocation.0, path);
                assert(self@.paths =~= old(self)@.paths.insert(invocation.0, shown));
            },
            _ => {},
        }
    }

    /// A firing finished: the questions whose wait ends, by question id. The
    /// firing is gone, so every pending question of it is unanswerable.
    pub fn on_step_finished(&self, execution: ExecutionId, firing: FiringId) -> (ended: Vec<String>)
        requires
            self.wf(),
        ensures
            forall|i: int|
                0 <= i < ended@.len() ==> {
                    &&& self@.live.contains_key((execution.0, (#[trigger] ended@[i])@))
                    &&& self@.live[(execution.0, ended@[i]@)] == firing
                },
            forall|question: Seq<char>|
                self@.live.contains_key((execution.0, question)) && #[trigger] self@.live[(
                    execution.0,
                    question,
                )] == firing ==> exists|i: int|
                    0 <= i < ended@.len() && (#[trigger] ended@[i])@ == question,
    {
        let mut ended: Vec<String> = Vec::new();
        let count = self.live.len();
        let mut i: usize = 0;
        while i < count
            invariant
                i <= count,
                self.wf(),
                self.live.at(count as int) is None,
                forall|k: int| 0 <= k < count ==> #[trigger] self.live.at(k) is Some,
                forall|k: int|
                    0 <= k < ended@.len() ==> {
                        &&& self@.live.contains_key((execution.0, (#[trigger] ended@[k])@))
                        &&& self@.live[(execution.0, ended@[k]@)] == firing
                    },
                forall|k: int|
                    0 <= k < i && #[trigger] self.live.at(k) is Some && self.live.key_at(k).0 == execution.0
                        && self.live.value_at(k) == firing ==> exists|n: int|
                        0 <= n < ended@.len() && (#[trigger] ended@[n])@ == self.live.key_at(k).1,
            decreases count - i,
        {
            let ghost before = ended@;
            let (id, question, asking) = self.live.entry(i);
            if id == execution.0 && *asking == firing {
                ended.push(question.clone());
            }
            proof {
                assert forall|k: int|
                    0 <= k < i + 1 && #[trigger] self.live.at(k) is Some && self.live.key_at(k).0 == execution.0
                        && self.live.value_at(k) == firing implies exists|n: int|
                    0 <= n < ended@.len() && (#[trigger] ended@[n])@ == self.live.key_at(k).1 by {
                    if k < i {
                        let n = choose|n: int|
                            0 <= n < before.len() && (#[trigger] before[n])@ == self.live.key_at(k).1;
                        assert(ended@[n]@ == self.live.key_at(k).1);
                    } else {
                        assert(ended@[before.len() as int]@ == self.live.key_at(k).1);
                    }
                }
            }
            i = i + 1;
        }
        proof {
            self.live.lemma_places();
            assert forall|question: Seq<char>|
                self@.live.contains_key((execution.0, question)) && #[trigger] self@.live[(
                    execution.0,
                    question,
                )] == firing implies exists|n: int|
                0 <= n < ended@.len() && (#[trigger] ended@[n])@ == question by {
                let key = (execution.0, question);
                let k = choose|k: int| #[trigger] self.live.at(k) == Some((key, self@.live[key]));
                self.live.lemma_bounds(k, count as int);
                assert(0 <= k < i);
            }
        }
        ended
    }

    /// Shut down: later questions are refused.
    pub fn close(&mut self)
        requires
            old(self).wf(),
        ensures
            final(self).wf(),
            final(self)@ == (InterviewsModel { closed: true, ..old(self)@ }),
    {
        self.closed = true;
    }

    /// A reply task failed.
    pub fn task_failed(&mut self, error: &str)
        requires
            old(self).wf(),
        ensures
            final(self).wf(),
            final(self)@ == with_error(old(self)@, "a reply task failed: "@ + error@),
    {
        self.push_error(join("a reply task failed: ", error));
    }

    /// A reply task ignored its token.
    pub fn task_pending(&mut self)
        requires
            old(self).wf(),
        ensures
            final(self).wf(),
            final(self)@ == with_error(
                old(self)@,
                "a reply task was still pending after shutdown"@,
            ),
    {
        self.push_error("a reply task was still pending after shutdown".to_owned());
    }

    /// The receipt, given what the interviewer's own finish returned. An
    /// expectation it left unmet is the last error.
    pub fn into_receipt(self, finish: Result<Option<Json>, InterviewError>) -> (receipt:
        InterviewReceipt)
        requires
            self.wf(),
        ensures
            receipt.version == RECEIPT_VERSION,
            receipt.questions@ == self@.records,
            match finish {
                Ok(script) => receipt.script == script && texts(receipt.errors@) == self@.errors,
                Err(error) => receipt.script is None && texts(receipt.errors@)
                    == self@.errors.push(error.spec_message()),
            },
    {
        let mut state = self;
        let script = match finish {
            Ok(script) => script,
            Err(error) => {
                state.push_error(error.message);
                None
            },
        };
        InterviewReceipt {
            version: RECEIPT_VERSION,
            questions: state.records,
            errors: state.errors,
            script,
        }
    }
}

/// A question id asked again in an execution is a new ask of the same
/// occurrence, whatever was asked in between; a new id of the same node
/// instance is its next occurrence.
pub proof fn law_asks_and_occurrences(
    state: InterviewsModel,
    execution: ExecutionId,
    firing: FiringId,
    question: Seq<char>,
    node: Seq<char>,
)
    requires
        asked(state, execution, question) < u32::MAX,
        occurred(state, invocation_of(state, execution), node) < u32::MAX,
    ensures
        ({
            let after = after_ask(state, execution, firing, question, node);
            let invocation = invocation_of(state, execution);
            &&& asked(after, execution, question) == asked(state, execution, question) + 1
            &&& first_occurrence(after, execution, question) == (if asked(
                state,
                execution,
                question,
            ) == 0 {
                (occurred(state, invocation, node) + 1) as u32
            } else {
                first_occurrence(state, execution, question)
            })
            &&& forall|other: ExecutionId, id: Seq<char>|
                (other.0, id) != (execution.0, question) ==> #[trigger] first_occurrence(
                    after,
                    other,
                    id,
                ) == first_occurrence(state, other, id) && asked(after, other, id) == asked(
                    state,
                    other,
                    id,
                )
            &&& occurred(after, invocation, node) == occurred(state, invocation, node) + (
            if asked(state, execution, question) == 0 {
                1int
            } else {
                0
            })
            &&& after.live.contains_key((execution.0, question))
            &&& after.live[(execution.0, question)] == firing
            &&& after.records == state.records
            &&& after.errors == state.errors
        }),
{
}

/// A request for a question id that was asked before in its execution names
/// the occurrence of the first ask and a higher ask, also when the node asked
/// something else in between.
pub proof fn law_a_question_asked_again(
    state: InterviewsModel,
    execution: ExecutionId,
    firing: FiringId,
    question: Arc<Question>,
    engine: EngineState,
    first: InterviewRequest,
    between: Seq<(FiringId, Seq<char>, Seq<char>)>,
    again: InterviewRequest,
)
    requires
        asked(state, execution, question.id@) < u32::MAX,
        forall|i: int| 0 <= i < between.len() ==> (#[trigger] between[i]).1 != question.id@,
        correlates(state, execution, firing, question, engine, first),
        correlates(
            after_asks(
                after_ask(state, execution, firing, question.id@, asking_node(engine, firing)),
                execution,
                between,
            ),
            execution,
            firing,
            question,
            engine,
            again,
        ),
    ensures
        again.occurrence == first.occurrence,
        again.ask == first.ask + 1,
{
    let once = after_ask(state, execution, firing, question.id@, asking_node(engine, firing));
    lemma_asks_between(once, execution, question.id@, between);
}

/// The state after a series of other questions of one execution, each with
/// its firing, its id and its node.
pub open spec fn after_asks(
    state: InterviewsModel,
    execution: ExecutionId,
    questions: Seq<(FiringId, Seq<char>, Seq<char>)>,
) -> InterviewsModel
    decreases questions.len(),
{
    if questions.len() == 0 {
        state
    } else {
        after_ask(
            after_asks(state, execution, questions.drop_last()),
            execution,
            questions.last().0,
            questions.last().1,
            questions.last().2,
        )
    }
}

proof fn lemma_asks_between(
    state: InterviewsModel,
    execution: ExecutionId,
    question: Seq<char>,
    between: Seq<(FiringId, Seq<char>, Seq<char>)>,
)
    requires
        forall|i: int| 0 <= i < between.len() ==> (#[trigger] between[i]).1 != question,
    ensures
        ({
            let after = after_asks(state, execution, between);
            &&& asked(after, execution, question) == asked(state, execution, question)
            &&& first_occurrence(after, execution, question) == first_occurrence(
                state,
                execution,
                question,
            )
        }),
    decreases between.len(),
{
    if between.len() > 0 {
        lemma_asks_between(state, execution, question, between.drop_last());
        assert(between[between.len() - 1].1 != question);
    }
}

} // verus!

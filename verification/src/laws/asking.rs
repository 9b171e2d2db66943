//! What becomes of questions, of live stages and of pruned leases.

use crate::controls::{name_of, owners_after, stage_name, without};
use crate::coordinator::leases::LeaseRecord;
use crate::event::CoordinatorEvent;
use crate::ids::{ExecutionId, FiringId, InvocationId, SandboxLeaseId};
use crate::interview::{
    after_ask, after_record, asking_node, came_late, correlates, ended, is_about, joined,
    no_longer_pending, replied, shows_reply, undelivered, AnswerControl, Delivery, InterviewRecord,
    InterviewReply, InterviewRequest, InterviewsModel, ReplyRecord, ServeStep,
};
use crate::json::{Json, JsonView};
use crate::prune::{candidates_of, clean_of, deleted_of, problems_of, Deletion};
use crate::run_state::ExecutionState;
use crate::state::EngineState;
use crate::steps::Question;
use std::sync::Arc;
use vstd::prelude::*;
use vstd::string::*;

verus! {

// ── Questions ──────────────────────────────────────────────────────────

/// What a request says of a question: the invocation its execution was
/// declared for and that invocation's path, or the root's when they are
/// unknown; the attempt of its live firing, or the first; its node's name, or
/// `?`; its number among the asks of its id, counted from one.
pub proof fn law_what_a_request_says(
    state: InterviewsModel,
    execution: ExecutionId,
    firing: FiringId,
    question: Arc<Question>,
    engine: EngineState,
    request: InterviewRequest,
)
    requires
        correlates(state, execution, firing, question, engine, request),
    ensures
        request.execution == execution && request.firing == firing && request.question == question,
        state.executions.contains_key(execution.0) ==> request.invocation
            == state.executions[execution.0],
        !state.executions.contains_key(execution.0) ==> request.invocation == InvocationId(0),
        state.paths.contains_key(request.invocation.0) ==> request.invocation_path@
            == state.paths[request.invocation.0],
        !state.paths.contains_key(request.invocation.0) ==> request.invocation_path@ == "/"@,
        engine.spec_firing(firing) matches Some(live) ==> request.attempt == live.attempt,
        engine.spec_firing(firing) is None ==> request.attempt.0 == 1,
        engine.spec_firing_node(firing) is None ==> request.node@ == "?"@,
        engine.spec_firing_node(firing) matches Some(id) ==> (engine.graph.spec_node(
            id,
        ) matches Some(node) ==> request.node@ == node.name@),
        !state.asks.contains_key((execution.0, question.id@)) ==> request.ask == 1,
        state.asks.contains_key((execution.0, question.id@)) ==> request.ask == state.asks[(
            execution.0,
            question.id@,
        )].count + 1,
{
}

/// A question of a new id is the next of its node instance in its invocation,
/// counted from one; one asked before keeps its number.
pub proof fn law_how_questions_are_numbered(
    state: InterviewsModel,
    execution: ExecutionId,
    firing: FiringId,
    question: Arc<Question>,
    engine: EngineState,
    request: InterviewRequest,
)
    requires
        correlates(state, execution, firing, question, engine, request),
    ensures
        ({
            let at = (request.invocation.0, request.node@);
            let new = !state.asks.contains_key((execution.0, question.id@));
            &&& new && !state.occurrences.contains_key(at) ==> request.occurrence == 1
            &&& new && state.occurrences.contains_key(at) && state.occurrences[at] < u32::MAX
                ==> request.occurrence == state.occurrences[at] + 1
            &&& !new && state.asks[(execution.0, question.id@)].count > 0 ==> request.occurrence
                == state.asks[(execution.0, question.id@)].occurrence
        }),
{
}

/// An asked question is pending for its firing, its ask is counted with its
/// number, its node's questions are counted when its id is new, and nothing
/// else changes.
pub proof fn law_what_an_ask_leaves(
    state: InterviewsModel,
    execution: ExecutionId,
    firing: FiringId,
    question: Arc<Question>,
    engine: EngineState,
    request: InterviewRequest,
    other: (u64, Seq<char>),
)
    requires
        correlates(state, execution, firing, question, engine, request),
    ensures
        ({
            let after = after_ask(
                state,
                execution,
                firing,
                question.id@,
                asking_node(engine, firing),
            );
            let key = (execution.0, question.id@);
            let at = (request.invocation.0, request.node@);
            &&& after.live.contains_key(key) && after.live[key] == firing
            &&& after.asks.contains_key(key) && after.asks[key].count == request.ask
                && after.asks[key].occurrence == request.occurrence
            &&& !state.asks.contains_key(key) ==> after.occurrences.contains_key(at)
                && after.occurrences[at] == request.occurrence
            &&& state.asks.contains_key(key) && state.asks[key].count > 0 ==> after.occurrences
                == state.occurrences
            &&& other != key ==> after.live.contains_key(other) == state.live.contains_key(other)
                && after.asks.contains_key(other) == state.asks.contains_key(other)
            &&& other != key && state.live.contains_key(other) ==> after.live[other]
                == state.live[other]
            &&& other != key && state.asks.contains_key(other) ==> after.asks[other]
                == state.asks[other]
            &&& other != at ==> after.occurrences.contains_key(other)
                == state.occurrences.contains_key(other)
            &&& other != at && state.occurrences.contains_key(other) ==> after.occurrences[other]
                == state.occurrences[other]
            &&& after.executions == state.executions && after.paths == state.paths && after.records
                == state.records && after.errors == state.errors && after.closed == state.closed
        }),
{
}

/// Where a question's record stands is where its request stood, and it shows
/// the question's text, kind, options and sensitivity.
pub proof fn law_what_a_record_is_about(
    request: InterviewRequest,
    record: InterviewRecord,
    i: int,
)
    requires
        is_about(request, record),
    ensures
        record.invocation == request.invocation && record.invocation_path
            == request.invocation_path && record.execution == request.execution && record.firing
            == request.firing && record.attempt == request.attempt && record.node == request.node,
        record.occurrence == request.occurrence && record.ask == request.ask,
        record.question == request.question.id && record.kind == request.question.kind
            && record.text == request.question.text && record.sensitive
            == request.question.sensitive,
        record.options@.len() == request.question.options@.len(),
        0 <= i < record.options@.len() ==> record.options@[i] == request.question.options@[i].key,
{
}

/// A reply is shown as it was given: its choices as they are and its text,
/// unless it is the text answer to a sensitive question and names no choice,
/// which is shown by reference; a cancel as one; a failure by its message and
/// its causes behind it.
pub proof fn law_how_a_reply_is_shown(
    question: Question,
    reply: InterviewReply,
    shown: ReplyRecord,
)
    requires
        shows_reply(question, reply, shown),
    ensures
        match reply {
            InterviewReply::Answered(answer) => {
                &&& shown matches ReplyRecord::Answered { choice, choices, text }
                &&& choice == answer.choice
                &&& choices@ == answer.choices@
                &&& if question.sensitive && answer.choice is None && answer.choices@.len() == 0 && (
                answer.text matches Some(Json::Text(_))) {
                    &&& text matches Some(value)
                    &&& value@ matches JsonView::Object(members)
                    &&& members.len() == 1
                    &&& members[0] == ("$secret"@, JsonView::Text("answer:"@ + question.id@))
                } else {
                    text == answer.text
                }
            },
            InterviewReply::Cancelled => shown is Cancelled,
            InterviewReply::Failed(error) => {
                &&& shown matches ReplyRecord::Failed { error: line }
                &&& error.spec_causes().len() == 0 ==> line@ == error.spec_message()
                &&& error.spec_causes().len() == 1 ==> line@ == error.spec_message() + ": "@
                    + error.spec_causes()[0]
            },
        },
{
    reveal_with_fuel(joined, 2);
}

/// Causes follow a message one by one, in order.
pub proof fn law_causes_follow_their_message(
    message: Seq<char>,
    causes: Seq<Seq<char>>,
    cause: Seq<char>,
)
    ensures
        joined(message, Seq::empty()) == message,
        joined(message, causes.push(cause)) == joined(message, causes) + ": "@ + cause,
{
    assert(causes.push(cause).drop_last() =~= causes);
}

/// A live reply decides what happens next: a sensitive text is registered
/// under its question's name and nothing is shown yet; any other answer is
/// bound to its question and delivered; a cancel and a failure cancel the
/// question, and only a failure is an error.
pub proof fn law_what_a_reply_leads_to(
    state: InterviewsModel,
    request: InterviewRequest,
    reply: InterviewReply,
    step: ServeStep,
    after: InterviewsModel,
)
    requires
        replied(state, request, reply, step, after),
    ensures
        after.live == state.live && after.records == state.records && after.asks == state.asks
            && after.occurrences == state.occurrences && after.closed == state.closed,
        !(reply is Failed) ==> after.errors == state.errors,
        reply is Failed ==> after.errors.len() == state.errors.len() + 1 && after.errors.take(
            state.errors.len() as int,
        ) == state.errors,
        reply matches InterviewReply::Failed(error) ==> (error.spec_causes().len() == 0
            ==> after.errors.last() == "the interviewer failed on `"@ + request.question.id@
            + "`: "@ + error.spec_message()),
        match reply {
            InterviewReply::Answered(answer) => {
                if request.question.sensitive && answer.choice is None && answer.choices@.len() == 0
                    && (answer.text matches Some(Json::Text(_))) {
                    &&& step matches ServeStep::Register { record, answer: bound, name, secret }
                    &&& record.question == request.question.id
                    &&& bound.question == Some(request.question.id)
                    &&& name@ == "answer:"@ + request.question.id@
                    &&& answer.text == Some(Json::Text(secret))
                } else {
                    &&& step matches ServeStep::Deliver { record, control }
                    &&& record.question == request.question.id
                    &&& record.reply matches ReplyRecord::Answered { choice, choices, text }
                    &&& choice == answer.choice && choices@ == answer.choices@ && text
                        == answer.text
                    &&& control matches AnswerControl::Answer(bound)
                    &&& bound.question == Some(request.question.id)
                    &&& bound.choice == answer.choice
                    &&& bound.choices@ == answer.choices@
                    &&& bound.text == answer.text
                }
            },
            InterviewReply::Cancelled => {
                &&& step matches ServeStep::Deliver { record, control }
                &&& record.question == request.question.id
                &&& record.reply is Cancelled
                &&& control is Cancel
            },
            InterviewReply::Failed(_) => {
                &&& step matches ServeStep::Deliver { record, control }
                &&& record.question == request.question.id
                &&& record.reply is Failed
                &&& control is Cancel
            },
        },
{
    if reply is Failed {
        assert(after.errors.take(state.errors.len() as int) =~= state.errors);
    }
}

/// A reply that comes too late is recorded as late, or as cut off by a
/// shutdown, with what it said, and is one more error.
pub proof fn law_what_a_late_reply_leaves(
    state: InterviewsModel,
    request: InterviewRequest,
    reply: InterviewReply,
    shutdown: bool,
    after: InterviewsModel,
)
    requires
        came_late(state, request, reply, shutdown, after),
    ensures
        after.records.len() == state.records.len() + 1,
        after.records.drop_last() == state.records,
        shutdown ==> after.records.last().delivery == Delivery::Shutdown,
        !shutdown ==> after.records.last().delivery == Delivery::Late,
        after.records.last().question == request.question.id,
        after.records.last().firing == request.firing,
        reply is Cancelled ==> after.records.last().reply is Cancelled,
        reply is Failed ==> after.records.last().reply is Failed,
        reply is Answered ==> after.records.last().reply is Answered,
        after.errors.len() == state.errors.len() + 1,
        after.errors.drop_last() == state.errors,
        after.errors.last() == "a reply to `"@ + request.question.id@
            + "` arrived after its firing finished"@,
        after.live == state.live && after.asks == state.asks,
{
    let record = choose|record: InterviewRecord|
        {
            &&& #[trigger] is_about(request, record)
            &&& shows_reply(*request.question, reply, record.reply)
            &&& record.delivery == undelivered(shutdown)
            &&& after.records == state.records.push(record)
        };
    assert(after.records.drop_last() =~= state.records);
    assert(after.errors.drop_last() =~= state.errors);
}

/// A wait that ends without a reply is recorded as a cancelled question and
/// is no error.
pub proof fn law_what_an_ended_wait_leaves(
    state: InterviewsModel,
    request: InterviewRequest,
    shutdown: bool,
    after: InterviewsModel,
)
    requires
        ended(state, request, shutdown, after),
    ensures
        after.records.len() == state.records.len() + 1,
        after.records.drop_last() == state.records,
        after.records.last().reply is Cancelled,
        shutdown ==> after.records.last().delivery == Delivery::Shutdown,
        !shutdown ==> after.records.last().delivery == Delivery::Late,
        after.records.last().question == request.question.id,
        after.errors == state.errors && after.live == state.live,
{
    assert(after.records.drop_last() =~= state.records);
}

/// A question whose wait ended is pending no more, and every other is as it
/// was.
pub proof fn law_a_served_question_is_settled(
    state: InterviewsModel,
    request: InterviewRequest,
    other: (u64, Seq<char>),
)
    ensures
        ({
            let after = no_longer_pending(state, request);
            let key = (request.execution.0, request.question.id@);
            &&& !after.live.contains_key(key)
            &&& other != key ==> after.live.contains_key(other) == state.live.contains_key(other)
            &&& other != key && state.live.contains_key(other) ==> after.live[other]
                == state.live[other]
            &&& after.records == state.records && after.errors == state.errors && after.asks
                == state.asks
        }),
{
}

/// A declared execution belongs to its invocation; a declared child stands
/// one segment under its caller's path, named by its slot, and its caller
/// stands at the root when unknown. Nothing else is learnt from the run's
/// records.
pub proof fn law_where_invocations_stand(
    state: InterviewsModel,
    event: CoordinatorEvent,
    other: u64,
)
    ensures
        ({
            let after = after_record(state, event);
            &&& after.live == state.live && after.asks == state.asks && after.occurrences
                == state.occurrences && after.records == state.records && after.errors
                == state.errors && after.closed == state.closed
            &&& match event {
                CoordinatorEvent::ExecutionDeclared { execution, invocation, .. } => {
                    &&& after.executions.contains_key(execution.0)
                    &&& after.executions[execution.0] == invocation
                    &&& other != execution.0 && state.executions.contains_key(other)
                        ==> after.executions.contains_key(other) && after.executions[other]
                        == state.executions[other]
                    &&& after.paths == state.paths
                },
                CoordinatorEvent::InvocationDeclared { invocation, call: Some(call), .. } => {
                    let caller = state.executions[call.parent.0].0;
                    let placed = state.executions.contains_key(call.parent.0)
                        && state.paths.contains_key(caller) && state.paths[caller] != "/"@;
                    &&& after.paths.contains_key(invocation.0)
                    &&& placed ==> after.paths[invocation.0] == state.paths[caller] + "/"@
                        + call.slot@
                    &&& !placed ==> after.paths[invocation.0] == "/"@ + call.slot@
                    &&& other != invocation.0 && state.paths.contains_key(other)
                        ==> after.paths.contains_key(other) && after.paths[other]
                        == state.paths[other]
                    &&& after.executions == state.executions
                },
                _ => after == state,
            }
        }),
{
}

// ── Live stages ────────────────────────────────────────────────────────

/// The name of a live firing is the one it was last started under; one that
/// is taken out has none, and every other keeps its own, in order.
pub proof fn law_who_is_live(
    firings: Seq<(ExecutionId, FiringId, String)>,
    execution: ExecutionId,
    firing: FiringId,
    entry: (ExecutionId, FiringId, String),
)
    ensures
        name_of(firings.push(entry), entry.0, entry.1) == Some(entry.2@),
        name_of(Seq::empty(), execution, firing) is None,
        (execution, firing) != (entry.0, entry.1) ==> name_of(
            firings.push(entry),
            execution,
            firing,
        ) == name_of(firings, execution, firing),
        (execution, firing) == (entry.0, entry.1) ==> without(
            firings.push(entry),
            execution,
            firing,
        ) == without(firings, execution, firing),
        (execution, firing) != (entry.0, entry.1) ==> without(
            firings.push(entry),
            execution,
            firing,
        ) == without(firings, execution, firing).push(entry),
        without(Seq::empty(), execution, firing).len() == 0,
{
    assert(firings.push(entry).drop_last() =~= firings);
}

/// A stage is named as its firing's node is, and a firing that no node has
/// names none.
pub proof fn law_how_a_stage_is_named(state: EngineState, firing: FiringId)
    ensures
        stage_name(state, firing) matches Some(name) ==> (state.spec_firing_node(
            firing,
        ) matches Some(id) && (state.graph.spec_node(id) matches Some(node) && node.name == name)),
        stage_name(state, firing) is None ==> (state.spec_firing_node(firing) matches Some(id)
            ==> state.graph.spec_node(id) is None),
{
}

/// A resumed run's executions belong to the invocations they were declared
/// for: to the last one's, when one id is declared twice.
pub proof fn law_whose_a_resumed_execution_is(
    owners: Map<u64, InvocationId>,
    executions: Seq<ExecutionState>,
    id: u64,
    at: int,
)
    requires
        0 <= at < executions.len() ==> executions[at].declaration.id.0 == id,
        forall|j: int|
            at < j < executions.len() && 0 <= j ==> (#[trigger] executions[j]).declaration.id.0
                != id,
        at < executions.len(),
    ensures
        0 <= at ==> owners_after(owners, executions).contains_key(id) && owners_after(
            owners,
            executions,
        )[id] == executions[at].declaration.invocation,
        at < 0 ==> owners_after(owners, executions).contains_key(id) == owners.contains_key(id),
        at < 0 && owners.contains_key(id) ==> owners_after(owners, executions)[id] == owners[id],
    decreases executions.len(),
{
    if executions.len() > 0 {
        let rest = executions.drop_last();
        let n = executions.len() - 1;
        assert forall|j: int| 0 <= j < rest.len() implies rest[j] == #[trigger] executions[j] by {}
        assert(executions[n] == executions.last());
        if at < n {
            law_whose_a_resumed_execution_is(owners, rest, id, at);
            assert(executions[n].declaration.id.0 != id);
        }
    }
}

// ── Pruned leases ──────────────────────────────────────────────────────

/// A lease stands among the deleted with the ids the provider gave, when it
/// gave any; among the clean when it gave none; among the problems with the
/// reason when it refused. In each the order is that of the answers.
pub proof fn law_where_a_pruned_lease_is_told(
    answers: Seq<Deletion>,
    lease: SandboxLeaseId,
    answer: Result<Vec<String>, String>,
)
    ensures
        ({
            let all = answers.push((lease, answer));
            match answer {
                Ok(ids) => {
                    &&& problems_of(all) == problems_of(answers)
                    &&& ids@.len() > 0 ==> deleted_of(all) == deleted_of(answers).push((lease, ids))
                        && clean_of(all) == clean_of(answers)
                    &&& ids@.len() == 0 ==> clean_of(all) == clean_of(answers).push(lease)
                        && deleted_of(all) == deleted_of(answers)
                },
                Err(problem) => {
                    &&& problems_of(all) == problems_of(answers).push((lease, problem))
                    &&& deleted_of(all) == deleted_of(answers)
                    &&& clean_of(all) == clean_of(answers)
                },
            }
        }),
        deleted_of(Seq::empty()).len() == 0 && clean_of(Seq::empty()).len() == 0 && problems_of(
            Seq::empty(),
        ).len() == 0,
{
    assert(answers.push((lease, answer)).drop_last() =~= answers);
}

/// Every recorded lease is gone through, in order, with its workspace.
pub proof fn law_every_lease_is_gone_through(records: Seq<LeaseRecord>, i: int)
    ensures
        candidates_of(records).len() == records.len(),
        0 <= i < records.len() ==> candidates_of(records)[i].0 == records[i].lease && candidates_of(
            records,
        )[i].1 == records[i].workspace,
{
}

} // verus!

//! Run controls a host drives while a run is live: pause and unpause at
//! admission, steering into an active stage, and cancellation.

use crate::event::{CancelReason, CancelRequest, CoordinatorEvent};
use crate::ids::{ExecutionId, FiringId, InvocationId};
use crate::ordered::{find, held, ordered, put, take_out};
use crate::record::Event;
use crate::run_state::{CoordinatorState, ExecutionState};
use crate::state::EngineState;
use crate::table::Table;
use crate::text::join3;
use vstd::prelude::*;
use vstd::string::*;

verus! {

/// Where a live firing runs, for a steer by node name.
#[derive(Clone, Copy, Debug, PartialEq, Eq, Structural)]
pub struct LiveStage {
    pub invocation: InvocationId,
    pub execution: ExecutionId,
    pub firing: FiringId,
}

/// Why a control could not be applied.
#[derive(Debug)]
pub enum ControlError {
    NoSuchStage(String),
    NotLive,
    Finished,
}

impl ControlError {
    /// What the error says.
    pub fn message(&self) -> (message: String)
        ensures
            message@ == (match *self {
                ControlError::NoSuchStage(name) => "no stage named `"@ + name@ + "` is running"@,
                ControlError::NotLive => "the stage is no longer live"@,
                ControlError::Finished => "the run has finished"@,
            }),
    {
        match self {
            ControlError::NoSuchStage(name) => join3(
                "no stage named `",
                name.as_str(),
                "` is running",
            ),
            ControlError::NotLive => "the stage is no longer live".to_owned(),
            ControlError::Finished => "the run has finished".to_owned(),
        }
    }
}

/// The name a live firing was started under.
pub open spec fn name_of(
    firings: Seq<(ExecutionId, FiringId, String)>,
    execution: ExecutionId,
    firing: FiringId,
) -> Option<Seq<char>>
    decreases firings.len(),
{
    if firings.len() == 0 {
        None
    } else if firings.last().0 == execution && firings.last().1 == firing {
        Some(firings.last().2@)
    } else {
        name_of(firings.drop_last(), execution, firing)
    }
}

/// The live firings without one.
pub open spec fn without(
    firings: Seq<(ExecutionId, FiringId, String)>,
    execution: ExecutionId,
    firing: FiringId,
) -> Seq<(ExecutionId, FiringId, String)>
    decreases firings.len(),
{
    if firings.len() == 0 {
        Seq::empty()
    } else {
        let rest = without(firings.drop_last(), execution, firing);
        if firings.last().0 == execution && firings.last().1 == firing {
            rest
        } else {
            rest.push(firings.last())
        }
    }
}

proof fn lemma_without(
    firings: Seq<(ExecutionId, FiringId, String)>,
    execution: ExecutionId,
    firing: FiringId,
)
    ensures
        name_of(without(firings, execution, firing), execution, firing) is None,
        forall|e: ExecutionId, f: FiringId|
            (e, f) != (execution, firing) ==> #[trigger] name_of(
                without(firings, execution, firing),
                e,
                f,
            ) == name_of(firings, e, f),
    decreases firings.len(),
{
    if firings.len() > 0 {
        let rest = firings.drop_last();
        lemma_without(rest, execution, firing);
        let kept = without(rest, execution, firing);
        let last = firings.last();
        if !(last.0 == execution && last.1 == firing) {
            assert(kept.push(last).drop_last() =~= kept);
        }
        assert forall|e: ExecutionId, f: FiringId|
            (e, f) != (execution, firing) implies #[trigger] name_of(
            without(firings, execution, firing),
            e,
            f,
        ) == name_of(firings, e, f) by {
            assert(name_of(kept, e, f) == name_of(rest, e, f));
        }
    }
}

proof fn lemma_pushed(
    firings: Seq<(ExecutionId, FiringId, String)>,
    entry: (ExecutionId, FiringId, String),
)
    ensures
        name_of(firings.push(entry), entry.0, entry.1) == Some(entry.2@),
        forall|e: ExecutionId, f: FiringId|
            (e, f) != (entry.0, entry.1) ==> #[trigger] name_of(firings.push(entry), e, f)
                == name_of(firings, e, f),
{
    assert(firings.push(entry).drop_last() =~= firings);
}

/// The live stages of a run, as its records tell them.
#[derive(Debug)]
pub struct LiveStages {
    executions: Table<InvocationId>,
    /// Live firings by node instance name; a name running in two executions
    /// keeps the latest.
    stages: Vec<(String, LiveStage)>,
    firings: Vec<(ExecutionId, FiringId, String)>,
}

/// Whether every stage is the firing that was started under its name.
pub open spec fn stages_are_live(live: LiveStages) -> bool {
    forall|name: Seq<char>|
        #![trigger live.stage_named(name)]
        live.stage_named(name) matches Some(stage) ==> live.started_as(
            stage.execution,
            stage.firing,
        ) == Some(name)
}

/// The instance name of a firing's node.
pub open spec fn stage_name(state: EngineState, firing: FiringId) -> Option<String> {
    match state.spec_firing_node(firing) {
        Some(node) => match state.graph.spec_node(node) {
            Some(node) => Some(node.name),
            None => None,
        },
        None => None,
    }
}

impl LiveStages {
    /// The invocation each execution was declared for.
    pub closed spec fn owners(&self) -> Map<u64, InvocationId> {
        self.executions@
    }

    /// The live firing of a node instance, by name.
    pub closed spec fn stage_named(&self, name: Seq<char>) -> Option<LiveStage> {
        held(self.stages@, name)
    }

    /// The name a live firing was started under.
    pub closed spec fn started_as(&self, execution: ExecutionId, firing: FiringId) -> Option<
        Seq<char>,
    > {
        name_of(self.firings@, execution, firing)
    }

    pub closed spec fn wf(&self) -> bool {
        ordered(self.stages@)
    }

    /// The invocation an execution belongs to: the root's when it is not
    /// known.
    pub open spec fn owner(&self, execution: ExecutionId) -> InvocationId {
        if self.owners().contains_key(execution.0) {
            self.owners()[execution.0]
        } else {
            InvocationId::root()
        }
    }

    pub fn new() -> (live: LiveStages)
        ensures
            live.wf(),
            live.owners() == Map::<u64, InvocationId>::empty(),
            forall|name: Seq<char>| #[trigger] live.stage_named(name) is None,
            forall|execution: ExecutionId, firing: FiringId| #[trigger]
                live.started_as(execution, firing) is None,
            stages_are_live(live),
    {
        LiveStages { executions: Table::new(), stages: Vec::new(), firings: Vec::new() }
    }

    /// The live firing of a node instance, by name.
    pub fn stage(&self, name: &String) -> (stage: Option<LiveStage>)
        requires
            self.wf(),
        ensures
            stage == self.stage_named(name@),
    {
        match find(&self.stages, name) {
            Some(stage) => Some(*stage),
            None => None,
        }
    }

    /// Every live stage, by node name.
    pub fn stages(&self) -> (stages: &Vec<(String, LiveStage)>)
        requires
            self.wf(),
        ensures
            ordered(stages@),
            forall|name: Seq<char>| #[trigger] held(stages@, name) == self.stage_named(name),
    {
        &self.stages
    }

    /// An execution was declared.
    pub fn declared(&mut self, execution: ExecutionId, invocation: InvocationId)
        requires
            old(self).wf(),
        ensures
            final(self).wf(),
            final(self).owners() == old(self).owners().insert(execution.0, invocation),
            forall|name: Seq<char>| #[trigger] final(self).stage_named(name) == old(
                self,
            ).stage_named(name),
            forall|e: ExecutionId, f: FiringId| #[trigger] final(self).started_as(e, f) == old(
                self,
            ).started_as(e, f),
    {
        self.executions.insert(execution.0, invocation);
    }

    /// A coordinator record: an execution's declaration says whose it is.
    pub fn on_lifecycle(&mut self, event: &CoordinatorEvent)
        requires
            old(self).wf(),
        ensures
            final(self).wf(),
            final(self).owners() == (match *event {
                CoordinatorEvent::ExecutionDeclared {
                    execution,
                    invocation,
                    predecessor,
                    start,
                    middleware_state,
                } => old(self).owners().insert(execution.0, invocation),
                _ => old(self).owners(),
            }),
            forall|name: Seq<char>| #[trigger] final(self).stage_named(name) == old(
                self,
            ).stage_named(name),
            forall|e: ExecutionId, f: FiringId| #[trigger] final(self).started_as(e, f) == old(
                self,
            ).started_as(e, f),
    {
        if let CoordinatorEvent::ExecutionDeclared {
            execution,
            invocation,
            predecessor: _,
            start: _,
            middleware_state: _,
        } = event {
            self.declared(*execution, *invocation);
        }
    }

    /// An engine record of an execution, with the state after it: a started
    /// step is a live stage under its node's name, a finished one no more.
    pub fn on_engine_record(&mut self, execution: ExecutionId, event: &Event, state: &EngineState)
        requires
            old(self).wf(),
        ensures
            final(self).wf(),
            final(self).owners() == old(self).owners(),
            match *event {
                Event::StepStarted { firing, attempt } => match stage_name(*state, firing) {
                    Some(name) => {
                        &&& final(self).stage_named(name@) == Some(
                            LiveStage {
                                invocation: old(self).owner(execution),
                                execution,
                                firing,
                            },
                        )
                        &&& forall|other: Seq<char>|
                            other != name@ ==> #[trigger] final(self).stage_named(other) == old(
                                self,
                            ).stage_named(other)
                        &&& final(self).started_as(execution, firing) == Some(name@)
                        &&& forall|e: ExecutionId, f: FiringId|
                            (e, f) != (execution, firing) ==> #[trigger] final(self).started_as(
                                e,
                                f,
                            ) == old(self).started_as(e, f)
                    },
                    None => *final(self) == *old(self),
                },
                Event::StepFinished { firing, attempt, outcome } => {
                    let was = old(self).started_as(execution, firing);
                    &&& final(self).started_as(execution, firing) is None
                    &&& forall|e: ExecutionId, f: FiringId|
                        (e, f) != (execution, firing) ==> #[trigger] final(self).started_as(e, f)
                            == old(self).started_as(e, f)
                    &&& forall|name: Seq<char>| #[trigger]
                        final(self).stage_named(name) == (match old(self).stage_named(name) {
                            Some(stage) => if was == Some(name) && stage.execution == execution
                                && stage.firing == firing {
                                None
                            } else {
                                Some(stage)
                            },
                            None => None,
                        })
                },
                _ => *final(self) == *old(self),
            },
    {
        match event {
            Event::StepStarted { firing, attempt: _ } => {
                let name = match state.firing_node(*firing) {
                    Some(node) => match state.graph.node(node) {
                        Some(node) => node.name.clone(),
                        None => return,
                    },
                    None => return,
                };
                let invocation = match self.executions.get(execution.0) {
                    Some(invocation) => *invocation,
                    None => InvocationId::root(),
                };
                put(
                    &mut self.stages,
                    name.clone(),
                    LiveStage { invocation, execution, firing: *firing },
                );
                self.start(execution, *firing, name);
            },
            Event::StepFinished { firing, attempt: _, outcome: _ } => {
                let name = self.finish(execution, *firing);
                let ghost middle = *self;
                if let Some(name) = name {
                    if let Some(stage) = find(&self.stages, &name) {
                        if stage.execution == execution && stage.firing == *firing {
                            take_out(&mut self.stages, &name);
                        }
                    }
                }
                proof {
                    assert forall|e: ExecutionId, f: FiringId|
                        (e, f) != (execution, *firing) implies #[trigger] self.started_as(e, f)
                        == old(self).started_as(e, f) by {
                        assert(middle.started_as(e, f) == self.started_as(e, f));
                    }
                }
            },
            _ => {},
        }
    }

    fn start(&mut self, execution: ExecutionId, firing: FiringId, name: String)
        requires
            old(self).wf(),
        ensures
            final(self).wf(),
            final(self).executions == old(self).executions,
            final(self).stages == old(self).stages,
            final(self).started_as(execution, firing) == Some(name@),
            forall|e: ExecutionId, f: FiringId|
                (e, f) != (execution, firing) ==> #[trigger] final(self).started_as(e, f) == old(
                    self,
                ).started_as(e, f),
    {
        let _ = self.finish(execution, firing);
        let ghost was = self.firings@;
        let ghost middle = *self;
        let ghost entry = (execution, firing, name);
        self.firings.push((execution, firing, name));
        proof {
            lemma_pushed(was, entry);
            assert(self.firings@ == was.push(entry));
            assert forall|e: ExecutionId, f: FiringId|
                (e, f) != (execution, firing) implies #[trigger] self.started_as(e, f) == old(
                self,
            ).started_as(e, f) by {
                assert(name_of(was.push(entry), e, f) == name_of(was, e, f));
                assert(middle.started_as(e, f) == name_of(was, e, f));
            }
        }
    }

    fn finish(&mut self, execution: ExecutionId, firing: FiringId) -> (name: Option<String>)
        requires
            old(self).wf(),
        ensures
            final(self).wf(),
            final(self).executions == old(self).executions,
            final(self).stages == old(self).stages,
            final(self).started_as(execution, firing) is None,
            forall|e: ExecutionId, f: FiringId|
                (e, f) != (execution, firing) ==> #[trigger] final(self).started_as(e, f) == old(
                    self,
                ).started_as(e, f),
            match name {
                Some(name) => old(self).started_as(execution, firing) == Some(name@),
                None => old(self).started_as(execution, firing) is None,
            },
    {
        let ghost all = self.firings@;
        let mut kept: Vec<(ExecutionId, FiringId, String)> = Vec::new();
        let mut name: Option<String> = None;
        let mut i: usize = 0;
        while i < self.firings.len()
            invariant
                i <= self.firings.len(),
                self.firings@ == all,
                self.executions == old(self).executions,
                self.stages == old(self).stages,
                kept@ == without(all.take(i as int), execution, firing),
                match name {
                    Some(name) => name_of(all.take(i as int), execution, firing) == Some(name@),
                    None => name_of(all.take(i as int), execution, firing) is None,
                },
            decreases self.firings.len() - i,
        {
            assert(all.take(i + 1).drop_last() =~= all.take(i as int));
            assert(all.take(i + 1).last() == all[i as int]);
            let entry = &self.firings[i];
            if entry.0 == execution && entry.1 == firing {
                name = Some(entry.2.clone());
            } else {
                kept.push((entry.0, entry.1, entry.2.clone()));
            }
            i = i + 1;
        }
        assert(all.take(i as int) =~= all);
        self.firings = kept;
        proof {
            lemma_without(all, execution, firing);
        }
        name
    }

    /// Every execution the replayed state declares.
    pub fn on_resumed(&mut self, state: &CoordinatorState)
        requires
            old(self).wf(),
        ensures
            final(self).wf(),
            final(self).owners() == owners_after(old(self).owners(), state.executions@),
            forall|name: Seq<char>| #[trigger] final(self).stage_named(name) == old(
                self,
            ).stage_named(name),
            forall|e: ExecutionId, f: FiringId| #[trigger] final(self).started_as(e, f) == old(
                self,
            ).started_as(e, f),
    {
        let ghost before = self.owners();
        let mut i: usize = 0;
        while i < state.executions.len()
            invariant
                i <= state.executions.len(),
                self.wf(),
                self.owners() == owners_after(before, state.executions@.take(i as int)),
                forall|name: Seq<char>| #[trigger] self.stage_named(name) == old(
                    self,
                ).stage_named(name),
                forall|e: ExecutionId, f: FiringId| #[trigger] self.started_as(e, f) == old(
                    self,
                ).started_as(e, f),
            decreases state.executions.len() - i,
        {
            assert(state.executions@.take(i + 1).drop_last() =~= state.executions@.take(i as int));
            assert(state.executions@.take(i + 1).last() == state.executions@[i as int]);
            let declaration = &state.executions[i].declaration;
            self.declared(declaration.id, declaration.invocation);
            i = i + 1;
        }
        assert(state.executions@.take(i as int) =~= state.executions@);
    }
}

/// Owners with those of replayed executions.
pub open spec fn owners_after(
    owners: Map<u64, InvocationId>,
    executions: Seq<ExecutionState>,
) -> Map<u64, InvocationId>
    decreases executions.len(),
{
    if executions.len() == 0 {
        owners
    } else {
        let declaration = executions.last().declaration;
        owners_after(owners, executions.drop_last()).insert(
            declaration.id.0,
            declaration.invocation,
        )
    }
}

/// A started step leaves every stage the firing that was started under its
/// name, as long as its firing was not started under another.
pub proof fn law_started_stages_are_live(
    before: LiveStages,
    after: LiveStages,
    execution: ExecutionId,
    firing: FiringId,
    name: Seq<char>,
    stage: LiveStage,
)
    requires
        stages_are_live(before),
        before.started_as(execution, firing) matches Some(was) ==> was == name,
        stage.execution == execution,
        stage.firing == firing,
        after.stage_named(name) == Some(stage),
        forall|other: Seq<char>|
            other != name ==> #[trigger] after.stage_named(other) == before.stage_named(other),
        after.started_as(execution, firing) == Some(name),
        forall|e: ExecutionId, f: FiringId|
            (e, f) != (execution, firing) ==> #[trigger] after.started_as(e, f)
                == before.started_as(e, f),
    ensures
        stages_are_live(after),
{
    assert forall|other: Seq<char>|
        #![trigger after.stage_named(other)]
        after.stage_named(other) is Some implies after.started_as(
        after.stage_named(other)->0.execution,
        after.stage_named(other)->0.firing,
    ) == Some(other) by {
        if other != name {
            assert(after.stage_named(other) == before.stage_named(other));
            let found = after.stage_named(other)->0;
            assert(before.started_as(found.execution, found.firing) == Some(other));
            if (found.execution, found.firing) != (execution, firing) {
                assert(after.started_as(found.execution, found.firing) == before.started_as(
                    found.execution,
                    found.firing,
                ));
            }
        }
    }
}

/// Once a step finished, no stage is its firing any more: a steer cannot
/// reach a firing that ended.
pub proof fn law_finished_firing_is_no_stage(
    before: LiveStages,
    after: LiveStages,
    execution: ExecutionId,
    firing: FiringId,
    name: Seq<char>,
)
    requires
        stages_are_live(before),
        forall|name: Seq<char>| #[trigger]
            after.stage_named(name) == (match before.stage_named(name) {
                Some(stage) => if before.started_as(execution, firing) == Some(name)
                    && stage.execution == execution && stage.firing == firing {
                    None
                } else {
                    Some(stage)
                },
                None => None,
            }),
    ensures
        after.stage_named(name) matches Some(stage) ==> (stage.execution, stage.firing) != (
            execution,
            firing,
        ),
{
    assert(after.stage_named(name) == (match before.stage_named(name) {
        Some(stage) => if before.started_as(execution, firing) == Some(name) && stage.execution
            == execution && stage.firing == firing {
            None
        } else {
            Some(stage)
        },
        None => None,
    }));
}

// ── Pause and cancel ───────────────────────────────────────────────────

/// What is left to do once an unpause is asked for.
#[derive(Clone, Copy, Debug, PartialEq, Eq, Structural)]
pub enum UnpauseStep {
    /// The run is not paused.
    Nothing,
    /// Record the unpause, then release admission.
    Record,
    /// Release admission: no coordinator is left to record against.
    Release,
}

/// Whether admission is held, and whether the coordinator can be reached. A
/// pause holds at once and is recorded after: holding early is safe. An
/// unpause is recorded first and releases after, so a crash in between
/// resumes paused, never the other way round.
#[derive(Clone, Copy, Debug, PartialEq, Eq, Structural)]
pub struct PauseState {
    pub paused: bool,
    pub wired: bool,
}

impl PauseState {
    pub fn new() -> (state: PauseState)
        ensures
            state == (PauseState { paused: false, wired: false }),
    {
        PauseState { paused: false, wired: false }
    }

    /// The run's handle is here: whether a pause taken before is recorded
    /// now.
    pub fn wire(&mut self) -> (record: bool)
        ensures
            *final(self) == (PauseState { paused: old(self).paused, wired: true }),
            record == old(self).paused,
    {
        self.wired = true;
        self.paused
    }

    /// Hold every attempt not yet admitted: whether the pause is recorded.
    /// Running work is not interrupted.
    pub fn pause(&mut self) -> (record: bool)
        ensures
            *final(self) == (PauseState { paused: true, wired: old(self).wired }),
            record == (!old(self).paused && old(self).wired),
    {
        let record = !self.paused && self.wired;
        self.paused = true;
        record
    }

    /// Let held and future attempts through. Admission stays held until
    /// [`PauseState::release`].
    pub fn unpause(&self) -> (step: UnpauseStep)
        ensures
            step == (if !self.paused {
                UnpauseStep::Nothing
            } else if self.wired {
                UnpauseStep::Record
            } else {
                UnpauseStep::Release
            }),
    {
        if !self.paused {
            UnpauseStep::Nothing
        } else if self.wired {
            UnpauseStep::Record
        } else {
            UnpauseStep::Release
        }
    }

    /// The unpause is recorded, or there is nothing to record it against:
    /// admission is released. Whether it was held.
    pub fn release(&mut self) -> (held: bool)
        ensures
            *final(self) == (PauseState { paused: false, wired: old(self).wired }),
            held == old(self).paused,
    {
        let held = self.paused;
        self.paused = false;
        held
    }

    /// Start where the log left the run: held when the last recorded control
    /// was a pause.
    pub fn on_resumed(&mut self, state: &CoordinatorState)
        ensures
            *final(self) == (PauseState {
                paused: old(self).paused || state.paused,
                wired: old(self).wired,
            }),
    {
        if state.paused {
            self.paused = true;
        }
    }

    /// Whether an attempt may be admitted now. A service that is gone holds
    /// nothing: the run is not left to a dropped controller.
    pub fn admits(&self, service_gone: bool) -> (admits: bool)
        ensures
            admits == (service_gone || !self.paused),
    {
        service_gone || !self.paused
    }

    /// Cancel the whole run politely; a second call reaches the kill tier.
    pub fn cancel(&self) -> (request: Result<CancelRequest, ControlError>)
        ensures
            request == (if self.wired {
                Ok::<CancelRequest, ControlError>(
                    CancelRequest {
                        invocation: InvocationId::root(),
                        reason: Some(CancelReason::Control),
                        escalate: true,
                    },
                )
            } else {
                Err(ControlError::Finished)
            }),
    {
        if self.wired {
            Ok(
                CancelRequest {
                    invocation: InvocationId::root(),
                    reason: Some(CancelReason::Control),
                    escalate: true,
                },
            )
        } else {
            Err(ControlError::Finished)
        }
    }

    /// The firing guidance for a named stage is delivered to.
    pub fn steer(&self, live: &LiveStages, node: &String) -> (stage: Result<LiveStage, ControlError>)
        requires
            live.wf(),
        ensures
            stage == (match live.stage_named(node@) {
                Some(stage) => if self.wired {
                    Ok::<LiveStage, ControlError>(stage)
                } else {
                    Err(ControlError::Finished)
                },
                None => Err(ControlError::NoSuchStage(*node)),
            }),
    {
        match live.stage(node) {
            Some(stage) => if self.wired {
                Ok(stage)
            } else {
                Err(ControlError::Finished)
            },
            None => Err(ControlError::NoSuchStage(node.clone())),
        }
    }
}

/// What a steer is answered: whether the firing took the guidance.
pub fn steered(delivered: bool) -> (answer: Result<(), ControlError>)
    ensures
        answer == (if delivered {
            Ok::<(), ControlError>(())
        } else {
            Err(ControlError::NotLive)
        }),
{
    if delivered {
        Ok(())
    } else {
        Err(ControlError::NotLive)
    }
}

} // verus!

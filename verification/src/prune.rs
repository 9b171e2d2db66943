//! Pruning: what came of deleting every sandbox a finished or abandoned run
//! still holds on its provider.

use crate::coordinator::leases::LeaseRecord;
use crate::coordinator::ResourceError;
use crate::ids::SandboxLeaseId;
use crate::search::reversed;
use crate::text::{decimal, join, join3, number};
use vstd::prelude::*;
use vstd::string::*;

verus! {

/// What prune did to one run.
#[derive(Debug)]
pub struct PruneReport {
    /// Leases whose sandboxes were deleted, with the provider's ids.
    pub deleted: Vec<(SandboxLeaseId, Vec<String>)>,
    /// Leases that needed nothing: already tombstoned, or never allocated.
    pub clean: Vec<SandboxLeaseId>,
    /// Leases that could not be pruned, with why. Their records keep the
    /// pending intent, so the next prune tries again.
    pub problems: Vec<(SandboxLeaseId, String)>,
}

impl Default for PruneReport {
    fn default() -> (report: PruneReport)
        ensures
            report.deleted@.len() == 0,
            report.clean@.len() == 0,
            report.problems@.len() == 0,
    {
        PruneReport { deleted: Vec::new(), clean: Vec::new(), problems: Vec::new() }
    }
}

/// What a provider answered for one lease: the ids of the sandboxes it
/// deleted, or why it deleted none.
pub type Deletion = (SandboxLeaseId, Result<Vec<String>, String>);

/// The leases whose deletion the provider answered with ids.
pub open spec fn deleted_of(answers: Seq<Deletion>) -> Seq<(SandboxLeaseId, Vec<String>)>
    decreases answers.len(),
{
    if answers.len() == 0 {
        Seq::empty()
    } else {
        let before = deleted_of(answers.drop_last());
        match answers.last().1 {
            Ok(ids) => if ids@.len() > 0 {
                before.push((answers.last().0, ids))
            } else {
                before
            },
            Err(_) => before,
        }
    }
}

/// The leases the provider had nothing to delete for.
pub open spec fn clean_of(answers: Seq<Deletion>) -> Seq<SandboxLeaseId>
    decreases answers.len(),
{
    if answers.len() == 0 {
        Seq::empty()
    } else {
        let before = clean_of(answers.drop_last());
        match answers.last().1 {
            Ok(ids) => if ids@.len() == 0 {
                before.push(answers.last().0)
            } else {
                before
            },
            Err(_) => before,
        }
    }
}

/// The leases the provider could not delete for, with why.
pub open spec fn problems_of(answers: Seq<Deletion>) -> Seq<(SandboxLeaseId, String)>
    decreases answers.len(),
{
    if answers.len() == 0 {
        Seq::empty()
    } else {
        let before = problems_of(answers.drop_last());
        match answers.last().1 {
            Ok(_) => before,
            Err(problem) => before.push((answers.last().0, problem)),
        }
    }
}

impl PruneReport {
    /// Whether a report tells of answers, each in its place.
    pub open spec fn tells(&self, answers: Seq<Deletion>) -> bool {
        &&& self.deleted@ == deleted_of(answers)
        &&& self.clean@ == clean_of(answers)
        &&& self.problems@ == problems_of(answers)
    }

    /// Whether every lease was pruned.
    pub fn is_clean(&self) -> (clean: bool)
        ensures
            clean == (self.problems@.len() == 0),
    {
        self.problems.len() == 0
    }

    /// Add what the provider answered for one lease.
    pub fn add_answer(&mut self, lease: SandboxLeaseId, answer: Result<Vec<String>, String>)
        ensures
            forall|answers: Seq<Deletion>| #[trigger]
                old(self).tells(answers) ==> final(self).tells(answers.push((lease, answer))),
    {
        let ghost before = *self;
        match answer {
            Ok(ids) => {
                if ids.len() == 0 {
                    self.clean.push(lease);
                } else {
                    self.deleted.push((lease, ids));
                }
            },
            Err(problem) => {
                self.problems.push((lease, problem));
            },
        }
        proof {
            assert forall|answers: Seq<Deletion>| #[trigger] before.tells(answers) implies self.tells(
                answers.push((lease, answer)),
            ) by {
                assert(answers.push((lease, answer)).drop_last() =~= answers);
            }
        }
    }
}

/// What prune did, from the provider's answers in the order they came.
pub fn prune_report(answers: Vec<Deletion>) -> (report: PruneReport)
    ensures
        report.tells(answers@),
{
    let mut report = PruneReport::default();
    let ghost all = answers@;
    let mut left = reversed(answers);
    let ghost turned = left@;
    proof {
        assert(report.deleted@ =~= deleted_of(all.take(0)));
        assert(report.clean@ =~= clean_of(all.take(0)));
        assert(report.problems@ =~= problems_of(all.take(0)));
    }
    while left.len() > 0
        invariant
            left@.len() <= all.len(),
            turned == all.reverse(),
            left@ == turned.take(left@.len() as int),
            report.tells(all.take(all.len() - left@.len())),
        decreases left.len(),
    {
        let ghost done = all.len() - left@.len();
        match left.pop() {
            Some((lease, answer)) => {
                proof {
                    assert((lease, answer) == turned[all.len() - done - 1]);
                    assert((lease, answer) == all[done]);
                    assert(all.take(done + 1) =~= all.take(done).push((lease, answer)));
                }
                report.add_answer(lease, answer);
            },
            None => {},
        }
    }
    assert(all.take(all.len() as int) =~= all);
    report
}

proof fn lemma_every_lease_is_told(answers: Seq<Deletion>)
    ensures
        deleted_of(answers).len() + clean_of(answers).len() + problems_of(answers).len()
            == answers.len(),
    decreases answers.len(),
{
    if answers.len() > 0 {
        lemma_every_lease_is_told(answers.drop_last());
    }
}

/// Every lease is told of exactly once: deleted, clean, or a problem.
pub proof fn law_every_lease_is_told_once(report: PruneReport, answers: Seq<Deletion>)
    requires
        report.tells(answers),
    ensures
        report.deleted@.len() + report.clean@.len() + report.problems@.len() == answers.len(),
{
    lemma_every_lease_is_told(answers);
}

/// Why a run cannot be pruned.
#[derive(Debug)]
pub enum PruneError {
    /// A live process holds the run: pruning under it would delete the
    /// sandboxes it is using.
    RunHeld(String),
    Resource(ResourceError),
    /// The runtime was built with a caller-supplied executor, which keeps no
    /// lease manager prune can reach.
    NoRouter,
}

/// The leases prune goes through, each with its workspace, in record order.
pub open spec fn candidates_of(records: Seq<LeaseRecord>) -> Seq<(SandboxLeaseId, String)> {
    records.map_values(|record: LeaseRecord| (record.lease, record.workspace))
}

/// The leases prune goes through, each with its workspace: every recorded
/// one.
pub fn candidates(records: &Vec<LeaseRecord>) -> (leases: Vec<(SandboxLeaseId, String)>)
    ensures
        leases@ == candidates_of(records@),
{
    let mut leases: Vec<(SandboxLeaseId, String)> = Vec::new();
    let mut i: usize = 0;
    while i < records.len()
        invariant
            i <= records.len(),
            leases@ == candidates_of(records@).take(i as int),
        decreases records.len() - i,
    {
        leases.push((records[i].lease, records[i].workspace.clone()));
        assert(leases@ =~= candidates_of(records@).take(i + 1));
        i = i + 1;
    }
    assert(leases@ =~= candidates_of(records@));
    leases
}

impl PruneError {
    /// What the error says. A lease's error is named by its lease.
    pub fn message(&self) -> (message: String)
        ensures
            message@ == (match *self {
                PruneError::RunHeld(locator) => "run "@ + locator@
                    + " is held by a live process; stop it first"@,
                PruneError::Resource(ResourceError::UnknownLease(lease)) =>
                    "unknown sandbox lease "@ + decimal(lease.0 as nat),
                PruneError::Resource(ResourceError::DeletedLease(lease)) =>
                    "deleted sandbox lease "@ + decimal(lease.0 as nat),
                PruneError::NoRouter =>
                    "this runtime's executor is not the standard router; nothing to prune through"@,
            }),
    {
        match self {
            PruneError::RunHeld(locator) => join3(
                "run ",
                locator.as_str(),
                " is held by a live process; stop it first",
            ),
            PruneError::Resource(ResourceError::UnknownLease(lease)) => join(
                "unknown sandbox lease ",
                number(lease.0).as_str(),
            ),
            PruneError::Resource(ResourceError::DeletedLease(lease)) => join(
                "deleted sandbox lease ",
                number(lease.0).as_str(),
            ),
            PruneError::NoRouter =>
                "this runtime's executor is not the standard router; nothing to prune through".to_owned(),
        }
    }
}

} // verus!

//! A reorder and a delete against a storage engine: each one transaction,
//! driven step by step.
//!
//! The driver decides and the caller performs. It is handed the outcome of the
//! step it answered last and answers with the next. A reorder is: begin, the
//! updates of the plan in their order, commit. An update that fails, or that
//! changes no row because the note it names is gone, ends the run in a
//! rollback, so that a part of a reorder is never kept. A delete is: begin,
//! find the note's place, delete the note, move up the siblings that came
//! behind it, commit; it too is kept whole or not at all.

use crate::error::StoreError;
use crate::ordering::OrderUpdate;
use vstd::prelude::*;

verus! {

/// What the caller is to do next.
#[derive(Debug, Clone, Copy, PartialEq, Eq, Structural)]
pub enum Step {
    /// Begin a transaction.
    Begin,
    /// Perform the update inside the transaction.
    Apply(OrderUpdate),
    /// Commit the transaction.
    Commit,
    /// Roll the transaction back.
    Rollback,
    /// The run is over: report success.
    ReportDone,
    /// The run is over: report the failure.
    ReportFailed(StoreError),
    /// The run was over before; nothing is left to do.
    Nothing,
}

/// How the step answered last went.
#[derive(Debug, Clone, Copy, PartialEq, Eq, Structural)]
pub enum Outcome {
    /// The engine performed it and changed this many rows.
    Succeeded { rows_affected: u64 },
    /// The engine reported an error.
    Failed,
}

/// Where a run stands: the step that is under way.
#[derive(Debug, Clone, Copy, PartialEq, Eq, Structural)]
pub enum Stage {
    /// The transaction is being begun.
    Beginning,
    /// The update at this index of the plan is being performed.
    Applying(usize),
    /// The transaction is being committed.
    Committing,
    /// The transaction is being rolled back.
    RollingBack,
    /// The result was reported.
    Finished,
}

/// Whether a step was performed without error.
pub open spec fn went_well(outcome: Outcome) -> bool {
    outcome is Succeeded
}

/// Whether an update was performed and changed a row.
pub open spec fn changed_a_row(outcome: Outcome) -> bool {
    match outcome {
        Outcome::Succeeded { rows_affected } => rows_affected > 0,
        Outcome::Failed => false,
    }
}

/// How a run starts: an empty plan is done at once, without a transaction;
/// any other begins one.
pub open spec fn first_step(plan: Seq<OrderUpdate>) -> (Stage, Step) {
    if plan.len() == 0 {
        (Stage::Finished, Step::ReportDone)
    } else {
        (Stage::Beginning, Step::Begin)
    }
}

/// How a run goes on from `stage` once the step under way ended in `outcome`.
pub open spec fn next_step(plan: Seq<OrderUpdate>, stage: Stage, outcome: Outcome) -> (
    Stage,
    Step,
) {
    match stage {
        Stage::Beginning => if went_well(outcome) && plan.len() > 0 {
            (Stage::Applying(0), Step::Apply(plan[0]))
        } else {
            (Stage::Finished, Step::ReportFailed(StoreError::TransactionFailure))
        },
        Stage::Applying(i) => if changed_a_row(outcome) && i < plan.len() {
            if i + 1 < plan.len() {
                (Stage::Applying((i + 1) as usize), Step::Apply(plan[i + 1]))
            } else {
                (Stage::Committing, Step::Commit)
            }
        } else {
            (Stage::RollingBack, Step::Rollback)
        },
        Stage::Committing => if went_well(outcome) {
            (Stage::Finished, Step::ReportDone)
        } else {
            (Stage::Finished, Step::ReportFailed(StoreError::TransactionFailure))
        },
        Stage::RollingBack => (
            Stage::Finished,
            Step::ReportFailed(StoreError::TransactionFailure),
        ),
        Stage::Finished => (Stage::Finished, Step::Nothing),
    }
}

/// The stage of a run after the first `count` of `outcomes` came in.
pub open spec fn stage_after(plan: Seq<OrderUpdate>, outcomes: Seq<Outcome>, count: nat) -> Stage
    decreases count,
{
    if count == 0 {
        first_step(plan).0
    } else {
        next_step(plan, stage_after(plan, outcomes, (count - 1) as nat), outcomes[count - 1]).0
    }
}

/// The step answered after the first `count` of `outcomes` came in.
pub open spec fn step_after(plan: Seq<OrderUpdate>, outcomes: Seq<Outcome>, count: nat) -> Step
    decreases count,
{
    if count == 0 {
        first_step(plan).1
    } else {
        next_step(plan, stage_after(plan, outcomes, (count - 1) as nat), outcomes[count - 1]).1
    }
}

/// Starts a run for `plan`.
pub fn begin_reorder(plan: &Vec<OrderUpdate>) -> (started: (Stage, Step))
    ensures
        started == first_step(plan@),
{
    if plan.len() == 0 {
        (Stage::Finished, Step::ReportDone)
    } else {
        (Stage::Beginning, Step::Begin)
    }
}

/// Takes the outcome of the step under way and answers with the next.
pub fn continue_reorder(plan: &Vec<OrderUpdate>, stage: Stage, outcome: Outcome) -> (next: (
    Stage,
    Step,
))
    ensures
        next == next_step(plan@, stage, outcome),
{
    let failed = (Stage::Finished, Step::ReportFailed(StoreError::TransactionFailure));
    match stage {
        Stage::Beginning => match outcome {
            Outcome::Succeeded { .. } => if plan.len() > 0 {
                (Stage::Applying(0), Step::Apply(plan[0]))
            } else {
                failed
            },
            Outcome::Failed => failed,
        },
        Stage::Applying(i) => {
            let changed = match outcome {
                Outcome::Succeeded { rows_affected } => rows_affected > 0,
                Outcome::Failed => false,
            };
            if changed && i < plan.len() {
                if i + 1 < plan.len() {
                    (Stage::Applying(i + 1), Step::Apply(plan[i + 1]))
                } else {
                    (Stage::Committing, Step::Commit)
                }
            } else {
                (Stage::RollingBack, Step::Rollback)
            }
        },
        Stage::Committing => match outcome {
            Outcome::Succeeded { .. } => (Stage::Finished, Step::ReportDone),
            Outcome::Failed => failed,
        },
        Stage::RollingBack => failed,
        Stage::Finished => (Stage::Finished, Step::Nothing),
    }
}

/// Where a run can stand after `count` outcomes, and what went before: while
/// an update is being performed, the transaction was begun and every update
/// before it changed a row; and a commit is under way only once that holds
/// of the whole plan.
pub proof fn lemma_run_keeps_order(plan: Seq<OrderUpdate>, outcomes: Seq<Outcome>, count: nat)
    requires
        plan.len() <= usize::MAX,
        count <= outcomes.len(),
    ensures
        match stage_after(plan, outcomes, count) {
            Stage::Beginning => count == 0 && plan.len() > 0 && step_after(plan, outcomes, count)
                == Step::Begin,
            Stage::Applying(i) => {
                &&& count == i + 1
                &&& i < plan.len()
                &&& step_after(plan, outcomes, count) == Step::Apply(plan[i as int])
                &&& went_well(outcomes[0])
                &&& forall|k: int| 0 <= k < i ==> changed_a_row(#[trigger] outcomes[k + 1])
            },
            Stage::Committing => {
                &&& count == plan.len() + 1
                &&& step_after(plan, outcomes, count) == Step::Commit
                &&& went_well(outcomes[0])
                &&& forall|k: int| 0 <= k < plan.len() ==> changed_a_row(#[trigger] outcomes[k + 1])
            },
            Stage::RollingBack => step_after(plan, outcomes, count) == Step::Rollback,
            Stage::Finished => step_after(plan, outcomes, count) != Step::Commit && step_after(
                plan,
                outcomes,
                count,
            ) != Step::Rollback,
        },
    decreases count,
{
    if count > 0 {
        lemma_run_keeps_order(plan, outcomes, (count - 1) as nat);
    }
}

/// A reorder is committed only whole: where the step answered after `count`
/// outcomes is the commit, the transaction was begun, the updates answered
/// before it were those of the plan in their order, and each of them changed
/// a row.
pub proof fn lemma_commit_follows_whole_plan(
    plan: Seq<OrderUpdate>,
    outcomes: Seq<Outcome>,
    count: nat,
)
    requires
        plan.len() <= usize::MAX,
        count <= outcomes.len(),
        step_after(plan, outcomes, count) == Step::Commit,
    ensures
        count == plan.len() + 1,
        step_after(plan, outcomes, 0) == Step::Begin,
        went_well(outcomes[0]),
        forall|k: int|
            0 <= k < plan.len() ==> changed_a_row(#[trigger] outcomes[k + 1]) && step_after(
                plan,
                outcomes,
                (k + 1) as nat,
            ) == Step::Apply(plan[k]),
{
    lemma_run_keeps_order(plan, outcomes, count);
    assert forall|k: int| 0 <= k < plan.len() implies changed_a_row(#[trigger] outcomes[k + 1])
        && step_after(plan, outcomes, (k + 1) as nat) == Step::Apply(plan[k]) by {
        lemma_applies_in_order(plan, outcomes, count, k);
    }
}

proof fn lemma_applies_in_order(plan: Seq<OrderUpdate>, outcomes: Seq<Outcome>, count: nat, k: int)
    requires
        plan.len() <= usize::MAX,
        count <= outcomes.len(),
        0 <= k < plan.len(),
        match stage_after(plan, outcomes, count) {
            Stage::Applying(i) => k <= i,
            Stage::Committing => true,
            _ => false,
        },
    ensures
        step_after(plan, outcomes, (k + 1) as nat) == Step::Apply(plan[k]),
        stage_after(plan, outcomes, (k + 1) as nat) == Stage::Applying(k as usize),
    decreases count,
{
    lemma_run_keeps_order(plan, outcomes, count);
    if count > 0 {
        lemma_run_keeps_order(plan, outcomes, (count - 1) as nat);
        if count != k + 1 {
            lemma_applies_in_order(plan, outcomes, (count - 1) as nat, k);
        }
    }
}

/// An update that fails or changes no row is followed by a rollback and the
/// report of a failed transaction, whatever the rollback itself comes to.
pub proof fn lemma_failed_update_rolls_back(
    plan: Seq<OrderUpdate>,
    i: usize,
    outcome: Outcome,
    rollback: Outcome,
)
    requires
        !changed_a_row(outcome),
    ensures
        next_step(plan, Stage::Applying(i), outcome) == (Stage::RollingBack, Step::Rollback),
        next_step(plan, Stage::RollingBack, rollback) == (
            Stage::Finished,
            Step::ReportFailed(StoreError::TransactionFailure),
        ),
{
}

/// Success is reported only for an empty plan, at once, or after the commit
/// went well.
pub proof fn lemma_done_means_committed(plan: Seq<OrderUpdate>, outcomes: Seq<Outcome>, count: nat)
    requires
        plan.len() <= usize::MAX,
        count <= outcomes.len(),
        step_after(plan, outcomes, count) == Step::ReportDone,
    ensures
        plan.len() == 0 ==> count == 0,
        plan.len() > 0 ==> count == plan.len() + 2 && step_after(
            plan,
            outcomes,
            (count - 1) as nat,
        ) == Step::Commit && went_well(outcomes[count - 1]),
{
    lemma_run_keeps_order(plan, outcomes, count);
    if count > 0 {
        lemma_run_keeps_order(plan, outcomes, (count - 1) as nat);
    }
}

/// Where a note stands among its siblings: its scope and its order.
#[derive(Debug, Clone, Copy, PartialEq, Eq, Structural)]
pub struct Place {
    pub tab_id: Option<i64>,
    pub parent_id: Option<i64>,
    pub order_id: Option<i64>,
}

/// What the caller of a delete is to do next.
#[derive(Debug, Clone, Copy, PartialEq, Eq, Structural)]
pub enum DeleteStep {
    /// Begin a transaction.
    Begin,
    /// Read the place of the note named.
    Find(i64),
    /// Delete the note named; the engine takes the notes below it along.
    Delete(i64),
    /// Lower by one the order of every note of the scope whose order is
    /// greater than `behind`.
    CloseGap { tab_id: Option<i64>, parent_id: Option<i64>, behind: i64 },
    /// Commit the transaction.
    Commit,
    /// Roll the transaction back.
    Rollback,
    /// The run is over: report success.
    ReportDone,
    /// The run is over: report the failure.
    ReportFailed(StoreError),
    /// The run was over before; nothing is left to do.
    Nothing,
}

/// How the step of a delete answered last went.
#[derive(Debug, Clone, Copy, PartialEq, Eq, Structural)]
pub enum DeleteOutcome {
    /// The engine performed it and changed this many rows.
    Succeeded { rows_affected: u64 },
    /// The note is there, at this place.
    Found(Place),
    /// No note has the identifier.
    Missing,
    /// The engine reported an error.
    Failed,
}

/// Where a delete stands: the step that is under way.
#[derive(Debug, Clone, Copy, PartialEq, Eq, Structural)]
pub enum DeleteStage {
    /// The transaction is being begun.
    Beginning,
    /// The note's place is being read.
    Finding,
    /// The note, which stood at this place, is being deleted.
    Deleting(Place),
    /// The siblings behind the note are being moved up.
    Closing,
    /// The transaction is being committed.
    Committing,
    /// The transaction is being rolled back, for the failure named.
    RollingBack(StoreError),
    /// The result was reported.
    Finished,
}

/// Whether a step of a delete was performed and changed a row.
pub open spec fn deleted_a_row(outcome: DeleteOutcome) -> bool {
    match outcome {
        DeleteOutcome::Succeeded { rows_affected } => rows_affected > 0,
        _ => false,
    }
}

/// How a delete of the note called `id` goes on from `stage` once the step
/// under way ended in `outcome`.
///
/// A note that is not there, when its place is read or when it is deleted,
/// ends the run in a rollback and the report `NotFound`. Every other step
/// that does not go well ends it in a rollback and the report
/// `TransactionFailure`. The siblings are moved up only where the note had
/// an order.
pub open spec fn next_delete_step(id: i64, stage: DeleteStage, outcome: DeleteOutcome) -> (
    DeleteStage,
    DeleteStep,
) {
    match (stage, outcome) {
        (DeleteStage::Beginning, DeleteOutcome::Succeeded { .. }) => (
            DeleteStage::Finding,
            DeleteStep::Find(id),
        ),
        (DeleteStage::Beginning, _) => (
            DeleteStage::Finished,
            DeleteStep::ReportFailed(StoreError::TransactionFailure),
        ),
        (DeleteStage::Finding, DeleteOutcome::Found(place)) => (
            DeleteStage::Deleting(place),
            DeleteStep::Delete(id),
        ),
        (DeleteStage::Finding, DeleteOutcome::Missing) => (
            DeleteStage::RollingBack(StoreError::NotFound),
            DeleteStep::Rollback,
        ),
        (DeleteStage::Deleting(place), DeleteOutcome::Succeeded { rows_affected }) => if
            rows_affected == 0 {
            (DeleteStage::RollingBack(StoreError::NotFound), DeleteStep::Rollback)
        } else {
            match place.order_id {
                Some(behind) => (
                    DeleteStage::Closing,
                    DeleteStep::CloseGap {
                        tab_id: place.tab_id,
                        parent_id: place.parent_id,
                        behind,
                    },
                ),
                None => (DeleteStage::Committing, DeleteStep::Commit),
            }
        },
        (DeleteStage::Closing, DeleteOutcome::Succeeded { .. }) => (
            DeleteStage::Committing,
            DeleteStep::Commit,
        ),
        (DeleteStage::Committing, DeleteOutcome::Succeeded { .. }) => (
            DeleteStage::Finished,
            DeleteStep::ReportDone,
        ),
        (DeleteStage::Committing, _) => (
            DeleteStage::Finished,
            DeleteStep::ReportFailed(StoreError::TransactionFailure),
        ),
        (DeleteStage::RollingBack(kind), _) => (
            DeleteStage::Finished,
            DeleteStep::ReportFailed(kind),
        ),
        (DeleteStage::Finished, _) => (DeleteStage::Finished, DeleteStep::Nothing),
        _ => (DeleteStage::RollingBack(StoreError::TransactionFailure), DeleteStep::Rollback),
    }
}

/// Starts the delete of a note: a transaction is begun.
pub fn begin_delete() -> (started: (DeleteStage, DeleteStep))
    ensures
        started == (DeleteStage::Beginning, DeleteStep::Begin),
{
    (DeleteStage::Beginning, DeleteStep::Begin)
}

/// Takes the outcome of the step of a delete under way and answers with the
/// next.
pub fn continue_delete(id: i64, stage: DeleteStage, outcome: DeleteOutcome) -> (next: (
    DeleteStage,
    DeleteStep,
))
    ensures
        next == next_delete_step(id, stage, outcome),
{
    let undo = (DeleteStage::RollingBack(StoreError::TransactionFailure), DeleteStep::Rollback);
    let gone = (DeleteStage::RollingBack(StoreError::NotFound), DeleteStep::Rollback);
    let failed = (DeleteStage::Finished, DeleteStep::ReportFailed(StoreError::TransactionFailure));
    match stage {
        DeleteStage::Beginning => match outcome {
            DeleteOutcome::Succeeded { .. } => (DeleteStage::Finding, DeleteStep::Find(id)),
            _ => failed,
        },
        DeleteStage::Finding => match outcome {
            DeleteOutcome::Found(place) => (DeleteStage::Deleting(place), DeleteStep::Delete(id)),
            DeleteOutcome::Missing => gone,
            _ => undo,
        },
        DeleteStage::Deleting(place) => match outcome {
            DeleteOutcome::Succeeded { rows_affected } => if rows_affected == 0 {
                gone
            } else {
                match place.order_id {
                    Some(behind) => (
                        DeleteStage::Closing,
                        DeleteStep::CloseGap {
                            tab_id: place.tab_id,
                            parent_id: place.parent_id,
                            behind,
                        },
                    ),
                    None => (DeleteStage::Committing, DeleteStep::Commit),
                }
            },
            _ => undo,
        },
        DeleteStage::Closing => match outcome {
            DeleteOutcome::Succeeded { .. } => (DeleteStage::Committing, DeleteStep::Commit),
            _ => undo,
        },
        DeleteStage::Committing => match outcome {
            DeleteOutcome::Succeeded { .. } => (DeleteStage::Finished, DeleteStep::ReportDone),
            _ => failed,
        },
        DeleteStage::RollingBack(kind) => (DeleteStage::Finished, DeleteStep::ReportFailed(kind)),
        DeleteStage::Finished => (DeleteStage::Finished, DeleteStep::Nothing),
    }
}

/// A delete is committed only whole: the commit is answered only once the
/// note was deleted and, where it had an order, the gap it left was closed.
pub proof fn lemma_commit_follows_whole_delete(id: i64, stage: DeleteStage, outcome: DeleteOutcome)
    requires
        next_delete_step(id, stage, outcome).1 == DeleteStep::Commit,
    ensures
        match stage {
            DeleteStage::Deleting(place) => place.order_id is None && deleted_a_row(outcome),
            DeleteStage::Closing => outcome is Succeeded,
            _ => false,
        },
{
}

/// The gap is closed only behind a note that was deleted, in the scope and
/// behind the order that the note had.
pub proof fn lemma_gap_is_closed_behind_the_note(
    id: i64,
    stage: DeleteStage,
    outcome: DeleteOutcome,
    tab_id: Option<i64>,
    parent_id: Option<i64>,
    behind: i64,
)
    requires
        next_delete_step(id, stage, outcome).1 == (DeleteStep::CloseGap {
            tab_id,
            parent_id,
            behind,
        }),
    ensures
        stage == DeleteStage::Deleting(Place { tab_id, parent_id, order_id: Some(behind) }),
        deleted_a_row(outcome),
{
}

/// A delete that is let run on a note that is there comes to its end: begun,
/// found, deleted, closed up, committed, done.
pub proof fn lemma_delete_completes(id: i64, place: Place, behind: i64, rows: u64)
    requires
        place.order_id == Some(behind),
        rows > 0,
    ensures
        ({
            let found = next_delete_step(
                id,
                DeleteStage::Beginning,
                DeleteOutcome::Succeeded { rows_affected: 0 },
            );
            let deleting = next_delete_step(id, found.0, DeleteOutcome::Found(place));
            let closing = next_delete_step(
                id,
                deleting.0,
                DeleteOutcome::Succeeded { rows_affected: rows },
            );
            let committing = next_delete_step(
                id,
                closing.0,
                DeleteOutcome::Succeeded { rows_affected: 0 },
            );
            let done = next_delete_step(
                id,
                committing.0,
                DeleteOutcome::Succeeded { rows_affected: 0 },
            );
            &&& found.1 == DeleteStep::Find(id)
            &&& deleting.1 == DeleteStep::Delete(id)
            &&& closing.1 == (DeleteStep::CloseGap {
                tab_id: place.tab_id,
                parent_id: place.parent_id,
                behind,
            })
            &&& committing.1 == DeleteStep::Commit
            &&& done == (DeleteStage::Finished, DeleteStep::ReportDone)
        }),
{
}

/// A note that is not there is reported as not found, after a rollback,
/// whether it is missed when its place is read or when it is deleted.
pub proof fn lemma_missing_note_is_not_found(id: i64, place: Place, rollback: DeleteOutcome)
    ensures
        next_delete_step(id, DeleteStage::Finding, DeleteOutcome::Missing) == (
            DeleteStage::RollingBack(StoreError::NotFound),
            DeleteStep::Rollback,
        ),
        next_delete_step(
            id,
            DeleteStage::Deleting(place),
            DeleteOutcome::Succeeded { rows_affected: 0 },
        ) == (DeleteStage::RollingBack(StoreError::NotFound), DeleteStep::Rollback),
        next_delete_step(id, DeleteStage::RollingBack(StoreError::NotFound), rollback) == (
            DeleteStage::Finished,
            DeleteStep::ReportFailed(StoreError::NotFound),
        ),
{
}

} // verus!

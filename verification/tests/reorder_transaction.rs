use focusboard::error::StoreError;
use focusboard::ordering::{reorder_plan, OrderUpdate};
use focusboard::transaction::{
    begin_delete, begin_reorder, continue_delete, continue_reorder, DeleteOutcome, DeleteStage,
    DeleteStep, Outcome, Place, Stage, Step,
};

const OK: Outcome = Outcome::Succeeded { rows_affected: 1 };

fn run(plan: &Vec<OrderUpdate>, outcomes: &[Outcome]) -> Vec<Step> {
    let (mut stage, first) = begin_reorder(plan);
    let mut steps = vec![first];
    for outcome in outcomes {
        let (next, step) = continue_reorder(plan, stage, *outcome);
        stage = next;
        steps.push(step);
    }
    steps
}

#[test]
fn whole_plan_is_applied_in_order_and_committed() {
    let plan = reorder_plan(&vec![3, 1, 2]).unwrap();
    let steps = run(&plan, &[OK, OK, OK, OK, Outcome::Succeeded { rows_affected: 0 }]);
    assert_eq!(
        steps,
        vec![
            Step::Begin,
            Step::Apply(OrderUpdate { note_id: 3, order_id: 1 }),
            Step::Apply(OrderUpdate { note_id: 1, order_id: 2 }),
            Step::Apply(OrderUpdate { note_id: 2, order_id: 3 }),
            Step::Commit,
            Step::ReportDone,
        ]
    );
}

#[test]
fn empty_plan_is_done_without_a_transaction() {
    let plan = reorder_plan(&vec![]).unwrap();
    assert_eq!(begin_reorder(&plan), (Stage::Finished, Step::ReportDone));
    assert_eq!(continue_reorder(&plan, Stage::Finished, OK), (Stage::Finished, Step::Nothing));
}

#[test]
fn failure_on_the_second_update_rolls_back() {
    let plan = reorder_plan(&vec![3, 1, 2]).unwrap();
    let steps = run(&plan, &[OK, OK, Outcome::Failed, OK]);
    assert_eq!(
        steps,
        vec![
            Step::Begin,
            Step::Apply(OrderUpdate { note_id: 3, order_id: 1 }),
            Step::Apply(OrderUpdate { note_id: 1, order_id: 2 }),
            Step::Rollback,
            Step::ReportFailed(StoreError::TransactionFailure),
        ]
    );
}

#[test]
fn update_that_changes_no_row_rolls_back() {
    let plan = reorder_plan(&vec![3, 99]).unwrap();
    let steps = run(&plan, &[OK, OK, Outcome::Succeeded { rows_affected: 0 }, Outcome::Failed]);
    assert_eq!(
        steps,
        vec![
            Step::Begin,
            Step::Apply(OrderUpdate { note_id: 3, order_id: 1 }),
            Step::Apply(OrderUpdate { note_id: 99, order_id: 2 }),
            Step::Rollback,
            Step::ReportFailed(StoreError::TransactionFailure),
        ]
    );
}

#[test]
fn failure_to_begin_or_commit_is_reported() {
    let plan = reorder_plan(&vec![1]).unwrap();
    assert_eq!(
        run(&plan, &[Outcome::Failed]),
        vec![Step::Begin, Step::ReportFailed(StoreError::TransactionFailure)]
    );
    assert_eq!(
        run(&plan, &[OK, OK, Outcome::Failed]),
        vec![
            Step::Begin,
            Step::Apply(OrderUpdate { note_id: 1, order_id: 1 }),
            Step::Commit,
            Step::ReportFailed(StoreError::TransactionFailure),
        ]
    );
}

#[test]
fn finished_run_answers_nothing() {
    let plan = reorder_plan(&vec![1]).unwrap();
    let steps = run(&plan, &[OK, OK, OK, OK, Outcome::Failed]);
    assert_eq!(steps[3], Step::ReportDone);
    assert_eq!(steps[4], Step::Nothing);
    assert_eq!(steps[5], Step::Nothing);
}

#[test]
fn stage_past_the_plan_rolls_back() {
    let plan = reorder_plan(&vec![1]).unwrap();
    assert_eq!(
        continue_reorder(&plan, Stage::Applying(4), OK),
        (Stage::RollingBack, Step::Rollback)
    );
}

const DONE: DeleteOutcome = DeleteOutcome::Succeeded { rows_affected: 1 };

fn run_delete(id: i64, outcomes: &[DeleteOutcome]) -> Vec<DeleteStep> {
    let (mut stage, first) = begin_delete();
    let mut steps = vec![first];
    for outcome in outcomes {
        let (next, step) = continue_delete(id, stage, *outcome);
        stage = next;
        steps.push(step);
    }
    steps
}

fn place(order_id: Option<i64>) -> Place {
    Place { tab_id: Some(4), parent_id: None, order_id }
}

#[test]
fn delete_closes_the_gap_before_it_commits() {
    let steps = run_delete(7, &[DONE, DeleteOutcome::Found(place(Some(3))), DONE, DONE, DONE]);
    assert_eq!(
        steps,
        vec![
            DeleteStep::Begin,
            DeleteStep::Find(7),
            DeleteStep::Delete(7),
            DeleteStep::CloseGap { tab_id: Some(4), parent_id: None, behind: 3 },
            DeleteStep::Commit,
            DeleteStep::ReportDone,
        ]
    );
}

#[test]
fn delete_of_a_note_without_order_closes_no_gap() {
    let steps = run_delete(7, &[DONE, DeleteOutcome::Found(place(None)), DONE, DONE]);
    assert_eq!(
        steps,
        vec![
            DeleteStep::Begin,
            DeleteStep::Find(7),
            DeleteStep::Delete(7),
            DeleteStep::Commit,
            DeleteStep::ReportDone,
        ]
    );
}

#[test]
fn delete_with_no_sibling_behind_still_commits() {
    let none = DeleteOutcome::Succeeded { rows_affected: 0 };
    let steps = run_delete(7, &[DONE, DeleteOutcome::Found(place(Some(3))), DONE, none, DONE]);
    assert_eq!(steps[4], DeleteStep::Commit);
    assert_eq!(steps[5], DeleteStep::ReportDone);
}

#[test]
fn delete_of_a_missing_note_rolls_back_as_not_found() {
    assert_eq!(
        run_delete(7, &[DONE, DeleteOutcome::Missing, DONE]),
        vec![
            DeleteStep::Begin,
            DeleteStep::Find(7),
            DeleteStep::Rollback,
            DeleteStep::ReportFailed(StoreError::NotFound),
        ]
    );
    let none = DeleteOutcome::Succeeded { rows_affected: 0 };
    assert_eq!(
        run_delete(7, &[DONE, DeleteOutcome::Found(place(Some(1))), none, DeleteOutcome::Failed]),
        vec![
            DeleteStep::Begin,
            DeleteStep::Find(7),
            DeleteStep::Delete(7),
            DeleteStep::Rollback,
            DeleteStep::ReportFailed(StoreError::NotFound),
        ]
    );
}

#[test]
fn delete_that_fails_midway_rolls_back() {
    let failed = StoreError::TransactionFailure;
    assert_eq!(
        run_delete(7, &[DeleteOutcome::Failed]),
        vec![DeleteStep::Begin, DeleteStep::ReportFailed(failed)]
    );
    assert_eq!(
        run_delete(7, &[DONE, DeleteOutcome::Failed, DONE]),
        vec![
            DeleteStep::Begin,
            DeleteStep::Find(7),
            DeleteStep::Rollback,
            DeleteStep::ReportFailed(failed),
        ]
    );
    let found = DeleteOutcome::Found(place(Some(2)));
    assert_eq!(
        run_delete(7, &[DONE, found, DeleteOutcome::Failed, DONE])[3..],
        [DeleteStep::Rollback, DeleteStep::ReportFailed(failed)]
    );
    assert_eq!(
        run_delete(7, &[DONE, found, DONE, DeleteOutcome::Failed, DONE])[4..],
        [DeleteStep::Rollback, DeleteStep::ReportFailed(failed)]
    );
    assert_eq!(
        run_delete(7, &[DONE, found, DONE, DONE, DeleteOutcome::Failed])[5..],
        [DeleteStep::ReportFailed(failed)]
    );
}

#[test]
fn outcome_out_of_turn_rolls_the_delete_back() {
    assert_eq!(
        continue_delete(7, DeleteStage::Closing, DeleteOutcome::Missing),
        (DeleteStage::RollingBack(StoreError::TransactionFailure), DeleteStep::Rollback)
    );
    assert_eq!(
        continue_delete(7, DeleteStage::Finished, DONE),
        (DeleteStage::Finished, DeleteStep::Nothing)
    );
}

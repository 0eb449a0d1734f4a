use focusboard::error::StoreError;
use focusboard::ordering::{
    creation_outcome, max_order_id, next_order_id, order_sorts_before, reorder_plan, OrderUpdate,
};

#[test]
fn first_row_of_a_scope_gets_order_one() {
    assert_eq!(next_order_id(None), Ok(1));
}

#[test]
fn next_order_follows_the_greatest() {
    assert_eq!(next_order_id(Some(3)), Ok(4));
    assert_eq!(next_order_id(Some(0)), Ok(1));
    assert_eq!(next_order_id(Some(-5)), Ok(-4));
    assert_eq!(next_order_id(Some(i64::MAX - 1)), Ok(i64::MAX));
}

#[test]
fn next_order_that_does_not_fit_is_refused() {
    assert_eq!(next_order_id(Some(i64::MAX)), Err(StoreError::ConstraintViolation));
}

#[test]
fn greatest_order_skips_rows_without_one() {
    assert_eq!(max_order_id(&vec![None, Some(2), Some(7), None, Some(3)]), Some(7));
    assert_eq!(max_order_id(&vec![Some(-4), Some(-9)]), Some(-4));
    assert_eq!(max_order_id(&vec![Some(5)]), Some(5));
}

#[test]
fn greatest_order_of_nothing_is_absent() {
    assert_eq!(max_order_id(&vec![]), None);
    assert_eq!(max_order_id(&vec![None, None]), None);
}

#[test]
fn a_row_without_order_sorts_before_every_row_with_one() {
    assert!(order_sorts_before(None, Some(5)));
    assert!(order_sorts_before(None, Some(0)));
    assert!(order_sorts_before(None, Some(-1)));
    assert!(order_sorts_before(None, Some(i64::MIN)));
    assert!(!order_sorts_before(Some(-1), None));
    assert!(!order_sorts_before(Some(i64::MIN), None));
    assert!(!order_sorts_before(None, None));
}

#[test]
fn rows_with_an_order_sort_by_it() {
    assert!(order_sorts_before(Some(1), Some(2)));
    assert!(order_sorts_before(Some(-3), Some(0)));
    assert!(!order_sorts_before(Some(2), Some(1)));
    assert!(!order_sorts_before(Some(2), Some(2)));
}

#[test]
fn create_gets_the_next_order_where_its_parent_is_there() {
    assert_eq!(creation_outcome(true, None), Ok(1));
    assert_eq!(creation_outcome(true, Some(3)), Ok(4));
    assert_eq!(creation_outcome(true, Some(i64::MAX)), Err(StoreError::ConstraintViolation));
}

#[test]
fn create_below_a_missing_parent_is_refused() {
    assert_eq!(creation_outcome(false, None), Err(StoreError::ConstraintViolation));
    assert_eq!(creation_outcome(false, Some(3)), Err(StoreError::ConstraintViolation));
}

#[test]
fn plan_gives_each_identifier_its_position_plus_one() {
    let plan = reorder_plan(&vec![3, 1, 2]).unwrap();
    assert_eq!(
        plan,
        vec![
            OrderUpdate { note_id: 3, order_id: 1 },
            OrderUpdate { note_id: 1, order_id: 2 },
            OrderUpdate { note_id: 2, order_id: 3 },
        ]
    );
}

#[test]
fn plan_of_an_empty_list_is_empty() {
    assert_eq!(reorder_plan(&vec![]), Ok(vec![]));
}

#[test]
fn plan_keeps_a_repeated_identifier_at_each_position() {
    let plan = reorder_plan(&vec![8, 8]).unwrap();
    assert_eq!(
        plan,
        vec![OrderUpdate { note_id: 8, order_id: 1 }, OrderUpdate { note_id: 8, order_id: 2 }]
    );
}

#[test]
fn appending_to_the_greatest_fills_a_scope_without_gaps() {
    let mut orders: Vec<Option<i64>> = Vec::new();
    for _ in 0..50 {
        let next = next_order_id(max_order_id(&orders)).unwrap();
        orders.push(Some(next));
    }
    let expected: Vec<Option<i64>> = (1..=50).map(Some).collect();
    assert_eq!(orders, expected);
}

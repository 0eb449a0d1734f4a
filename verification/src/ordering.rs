//! Sibling order. The notes that share a tab and a parent form one scope, and
//! within a scope the `order_id` values are meant to be `1..=N`, each once.
//!
//! A row that was never ordered has no `order_id`. Wherever rows are sorted,
//! such a row comes before every row that has one.

use crate::error::StoreError;
use crate::model::lift;
use vstd::prelude::*;
use vstd::set_lib::lemma_int_range;
use vstd::set_lib::lemma_subset_equality;
use vstd::set_lib::set_int_range;

verus! {

/// One row update of a reorder: the note named gets the order given.
#[derive(Debug, Clone, Copy, PartialEq, Eq, Structural)]
pub struct OrderUpdate {
    pub note_id: i64,
    pub order_id: i64,
}

/// Whether a row with order `first` is sorted before a row with order
/// `second`: a row without an order before every row with one, and rows with
/// an order by ascending order. Rows of one order, and rows without one, are
/// not told apart here.
pub open spec fn sorts_before(first: Option<int>, second: Option<int>) -> bool {
    match (first, second) {
        (None, Some(_)) => true,
        (Some(x), Some(y)) => x < y,
        _ => false,
    }
}

/// The greater of two optional orders, an absent one counting as less than any.
pub open spec fn greater(a: Option<int>, b: Option<int>) -> Option<int> {
    match (a, b) {
        (None, _) => b,
        (_, None) => a,
        (Some(x), Some(y)) => if x >= y { a } else { b },
    }
}

/// The greatest order among `orders`, or `None` where no row has one.
pub open spec fn max_order(orders: Seq<Option<int>>) -> Option<int>
    decreases orders.len(),
{
    if orders.len() == 0 {
        None
    } else {
        greater(max_order(orders.drop_last()), orders.last())
    }
}

/// The order a new row gets in a scope whose greatest order is `current_max`.
pub open spec fn next_order(current_max: Option<int>) -> int {
    match current_max {
        Some(m) => m + 1,
        None => 1,
    }
}

/// A scope's orders after one more row was appended to it.
pub open spec fn appended(orders: Seq<Option<int>>) -> Seq<Option<int>> {
    orders.push(Some(next_order(max_order(orders))))
}

/// A scope's orders after `count` rows were appended to it, one by one.
pub open spec fn appended_times(orders: Seq<Option<int>>, count: nat) -> Seq<Option<int>>
    decreases count,
{
    if count == 0 {
        orders
    } else {
        appended(appended_times(orders, (count - 1) as nat))
    }
}

/// The orders `1, 2, .., count`, in that order.
pub open spec fn positions(count: nat) -> Seq<Option<int>> {
    Seq::new(count, |i: int| Some(i + 1))
}

/// The dense ordering invariant: every row has an order between 1 and the
/// number of rows, and no two rows share one.
pub open spec fn dense(orders: Seq<Option<int>>) -> bool {
    &&& forall|i: int|
        0 <= i < orders.len() ==> match #[trigger] orders[i] {
            Some(v) => 1 <= v <= orders.len(),
            None => false,
        }
    &&& forall|i: int, j: int|
        0 <= i < orders.len() && 0 <= j < orders.len() && i != j ==> orders[i] != orders[j]
}

/// The order of a row once a row with order `gone` has left its scope: one
/// less where it came behind that row, and as it was otherwise.
pub open spec fn moved_up(order: Option<int>, gone: Option<int>) -> Option<int> {
    match (order, gone) {
        (Some(v), Some(g)) => if v > g {
            Some(v - 1)
        } else {
            order
        },
        _ => order,
    }
}

/// A scope's orders once the gap that a row with order `gone` left was
/// closed.
pub open spec fn closed_up(orders: Seq<Option<int>>, gone: Option<int>) -> Seq<Option<int>> {
    Seq::new(orders.len(), |i: int| moved_up(orders[i], gone))
}

/// The updates that put `ids` in the order listed: the identifier at position
/// `i` gets order `i + 1`.
pub open spec fn planned(ids: Seq<i64>, plan: Seq<OrderUpdate>) -> bool {
    &&& plan.len() == ids.len()
    &&& forall|i: int|
        0 <= i < ids.len() ==> (#[trigger] plan[i]).note_id == ids[i] && plan[i].order_id == i + 1
}

/// The orders of a list of optional machine integers.
pub open spec fn lifted(orders: Seq<Option<i64>>) -> Seq<Option<int>> {
    Seq::new(orders.len(), |i: int| lift(orders[i]))
}

/// `max_order` is the greatest order present: it is `None` exactly where no
/// row has an order, and otherwise it occurs and bounds every other.
pub proof fn lemma_max_order_is_greatest(orders: Seq<Option<int>>)
    ensures
        max_order(orders) is None <==> forall|i: int|
            0 <= i < orders.len() ==> orders[i] is None,
        max_order(orders) is Some ==> orders.contains(max_order(orders)),
        forall|i: int|
            0 <= i < orders.len() && orders[i] is Some ==> max_order(orders) is Some
                && (#[trigger] orders[i])->0 <= max_order(orders)->0,
    decreases orders.len(),
{
    if orders.len() > 0 {
        let rest = orders.drop_last();
        lemma_max_order_is_greatest(rest);
        assert forall|i: int| 0 <= i < rest.len() implies rest[i] == orders[i] by {}
        if max_order(orders) is Some {
            if max_order(orders) == orders.last() {
                assert(orders[orders.len() - 1] == max_order(orders));
            } else {
                let k = choose|k: int| 0 <= k < rest.len() && rest[k] == max_order(rest);
                assert(orders[k] == max_order(orders));
            }
        }
        if max_order(orders) is None {
            assert forall|i: int| 0 <= i < orders.len() implies orders[i] is None by {
                if i < rest.len() {
                    assert(rest[i] is None);
                }
            }
        }
        assert forall|i: int| 0 <= i < orders.len() && orders[i] is Some implies max_order(
            orders,
        ) is Some && (#[trigger] orders[i])->0 <= max_order(orders)->0 by {
            if i < rest.len() {
                assert(rest[i] is Some);
            }
        }
    }
}

/// A dense scope of `N` rows holds every order from 1 to `N`.
pub proof fn lemma_dense_holds_each(orders: Seq<Option<int>>)
    requires
        dense(orders),
    ensures
        forall|v: int| 1 <= v <= orders.len() ==> orders.contains(Some(v)),
{
    let n = orders.len() as int;
    let values = Seq::new(orders.len(), |i: int| orders[i]->0);
    assert forall|i: int, j: int|
        0 <= i < values.len() && 0 <= j < values.len() && i != j implies values[i]
        != values[j] by {
        assert(orders[i] is Some && orders[j] is Some);
        assert(orders[i] != orders[j]);
    }
    values.unique_seq_to_set();
    let range = set_int_range(1, n + 1);
    lemma_int_range(1, n + 1);
    assert forall|v: int| values.to_set().contains(v) implies range.contains(v) by {
        let i = choose|i: int| 0 <= i < values.len() && values[i] == v;
        assert(orders[i] is Some);
    }
    lemma_subset_equality(values.to_set(), range);
    assert forall|v: int| 1 <= v <= n implies orders.contains(Some(v)) by {
        assert(range.contains(v));
        assert(values.to_set().contains(v));
        let i = choose|i: int| 0 <= i < values.len() && values[i] == v;
        assert(orders[i] is Some);
        assert(orders[i] == Some(v));
    }
}

/// The greatest order of a dense scope is the number of its rows.
pub proof fn lemma_dense_max(orders: Seq<Option<int>>)
    requires
        dense(orders),
    ensures
        orders.len() == 0 ==> max_order(orders) is None,
        orders.len() > 0 ==> max_order(orders) == Some(orders.len() as int),
        next_order(max_order(orders)) == orders.len() + 1,
{
    lemma_max_order_is_greatest(orders);
    if orders.len() > 0 {
        lemma_dense_holds_each(orders);
        let n = orders.len() as int;
        assert(orders.contains(Some(n)));
        let i = choose|i: int| 0 <= i < orders.len() && orders[i] == Some(n);
        assert(orders[i] is Some);
        let k = choose|k: int| 0 <= k < orders.len() && orders[k] == max_order(orders);
        assert(orders[k] is Some);
    }
}

/// Appending a row to a dense scope of `N` rows gives it order `N + 1` and
/// leaves the scope dense.
pub proof fn lemma_append_keeps_dense(orders: Seq<Option<int>>)
    requires
        dense(orders),
    ensures
        appended(orders) == orders.push(Some(orders.len() as int + 1)),
        dense(appended(orders)),
{
    lemma_dense_max(orders);
    let after = appended(orders);
    assert forall|i: int, j: int|
        0 <= i < after.len() && 0 <= j < after.len() && i != j implies after[i] != after[j] by {
        if i < orders.len() {
            assert(orders[i] is Some);
        }
        if j < orders.len() {
            assert(orders[j] is Some);
        }
    }
    assert forall|i: int| 0 <= i < after.len() implies match #[trigger] after[i] {
        Some(v) => 1 <= v <= after.len(),
        None => false,
    } by {
        if i < orders.len() {
            assert(orders[i] is Some);
        }
    }
}

/// Taking a row out of a dense scope and closing the gap it leaves gives a
/// dense scope again.
pub proof fn lemma_closing_up_keeps_dense(orders: Seq<Option<int>>, at: int)
    requires
        dense(orders),
        0 <= at < orders.len(),
    ensures
        dense(closed_up(orders.remove(at), orders[at])),
{
    let left = orders.remove(at);
    let after = closed_up(left, orders[at]);
    assert(orders[at] is Some);
    assert forall|i: int| 0 <= i < after.len() implies match #[trigger] after[i] {
        Some(v) => 1 <= v <= after.len(),
        None => false,
    } by {
        let from = if i < at {
            i
        } else {
            i + 1
        };
        assert(left[i] == orders[from]);
        assert(orders[from] is Some);
        assert(orders[from] != orders[at]);
    }
    assert forall|i: int, j: int|
        0 <= i < after.len() && 0 <= j < after.len() && i != j implies after[i] != after[j] by {
        let from_i = if i < at {
            i
        } else {
            i + 1
        };
        let from_j = if j < at {
            j
        } else {
            j + 1
        };
        assert(left[i] == orders[from_i] && left[j] == orders[from_j]);
        assert(orders[from_i] is Some && orders[from_j] is Some);
        assert(orders[from_i] != orders[from_j]);
        assert(orders[from_i] != orders[at] && orders[from_j] != orders[at]);
    }
}

/// After `count` rows were appended to an empty scope, its orders are exactly
/// `1, 2, .., count`, each once.
pub proof fn lemma_appends_fill_scope(count: nat)
    ensures
        appended_times(Seq::empty(), count) == positions(count),
        dense(appended_times(Seq::empty(), count)),
    decreases count,
{
    if count == 0 {
        assert(appended_times(Seq::<Option<int>>::empty(), 0) =~= positions(0));
    } else {
        let before = appended_times(Seq::<Option<int>>::empty(), (count - 1) as nat);
        lemma_appends_fill_scope((count - 1) as nat);
        lemma_append_keeps_dense(before);
        assert(appended(before) =~= positions(count));
    }
}

/// The rows appended to a scope get distinct, consecutive orders: the `k`-th
/// of them gets the order that follows the one the row before it got.
pub proof fn lemma_appends_are_consecutive(orders: Seq<Option<int>>, count: nat, k: int)
    requires
        0 < k < count,
    ensures
        appended_times(orders, count).len() == orders.len() + count,
        appended_times(orders, count)[orders.len() + k] == Some(
            appended_times(orders, count)[orders.len() + k - 1]->0 + 1,
        ),
        appended_times(orders, count)[orders.len() + k - 1] is Some,
    decreases count,
{
    lemma_appended_times_len(orders, count);
    lemma_appended_times_len(orders, (count - 1) as nat);
    let before = appended_times(orders, (count - 1) as nat);
    if k < count - 1 {
        lemma_appends_are_consecutive(orders, (count - 1) as nat, k);
    } else {
        lemma_appended_times_last(orders, (count - 1) as nat);
        lemma_max_order_is_greatest(before);
    }
}

proof fn lemma_appended_times_len(orders: Seq<Option<int>>, count: nat)
    ensures
        appended_times(orders, count).len() == orders.len() + count,
    decreases count,
{
    if count > 0 {
        lemma_appended_times_len(orders, (count - 1) as nat);
    }
}

proof fn lemma_appended_times_last(orders: Seq<Option<int>>, count: nat)
    requires
        count > 0,
    ensures
        appended_times(orders, count).len() > 0,
        appended_times(orders, count).last() is Some,
        max_order(appended_times(orders, count)) == appended_times(orders, count).last(),
{
    let before = appended_times(orders, (count - 1) as nat);
    let after = appended(before);
    lemma_max_order_is_greatest(before);
    assert(after.drop_last() =~= before);
}

/// Whether a row with order `first` is sorted before a row with order
/// `second`.
pub fn order_sorts_before(first: Option<i64>, second: Option<i64>) -> (before: bool)
    ensures
        before == sorts_before(lift(first), lift(second)),
{
    match (first, second) {
        (None, Some(_)) => true,
        (Some(x), Some(y)) => x < y,
        _ => false,
    }
}

/// The greatest order among `orders`, as the storage engine's `MAX` gives it:
/// `None` where the list is empty or no row in it has an order.
pub fn max_order_id(orders: &Vec<Option<i64>>) -> (greatest: Option<i64>)
    ensures
        lift(greatest) == max_order(lifted(orders@)),
{
    let mut greatest: Option<i64> = None;
    let mut i: usize = 0;
    while i < orders.len()
        invariant
            i <= orders.len(),
            lift(greatest) == max_order(lifted(orders@).take(i as int)),
        decreases orders.len() - i,
    {
        let candidate = orders[i];
        proof {
            let upto = lifted(orders@).take(i + 1);
            assert(upto.drop_last() =~= lifted(orders@).take(i as int));
            assert(upto.last() == lift(candidate));
        }
        greatest =
        match (greatest, candidate) {
            (None, _) => candidate,
            (Some(_), None) => greatest,
            (Some(x), Some(y)) => if x >= y {
                greatest
            } else {
                candidate
            },
        };
        i += 1;
    }
    proof {
        assert(lifted(orders@).take(i as int) =~= lifted(orders@));
    }
    greatest
}

/// Append on insert: the order for a new row in a scope whose greatest order
/// is `current_max`. It is one more than that, or 1 for a scope without an
/// ordered row. Where the order would not fit the column, the insert is
/// refused as a constraint violation.
pub fn next_order_id(current_max: Option<i64>) -> (order: Result<i64, StoreError>)
    ensures
        next_order(lift(current_max)) <= i64::MAX ==> order == Ok::<i64, StoreError>(
            next_order(lift(current_max)) as i64,
        ),
        next_order(lift(current_max)) > i64::MAX ==> order == Err::<i64, StoreError>(
            StoreError::ConstraintViolation,
        ),
{
    match current_max {
        None => Ok(1),
        Some(m) => if m == i64::MAX {
            Err(StoreError::ConstraintViolation)
        } else {
            Ok(m + 1)
        },
    }
}

/// What a create comes to once the scope was read: the order of the new
/// note, or the refusal. `parent_found` says whether the parent that the
/// note names is there; it is `true` for a note that names none. A note below
/// a parent that is not there is refused as a constraint violation, and so
/// is one whose order would not fit the column.
pub fn creation_outcome(parent_found: bool, current_max: Option<i64>) -> (order: Result<
    i64,
    StoreError,
>)
    ensures
        parent_found && next_order(lift(current_max)) <= i64::MAX ==> order == Ok::<
            i64,
            StoreError,
        >(next_order(lift(current_max)) as i64),
        !parent_found || next_order(lift(current_max)) > i64::MAX ==> order == Err::<
            i64,
            StoreError,
        >(StoreError::ConstraintViolation),
{
    if parent_found {
        next_order_id(current_max)
    } else {
        Err(StoreError::ConstraintViolation)
    }
}

/// Explicit reorder: the row updates that put `ids` in the order listed, the
/// identifier at position `i` getting order `i + 1`. An empty list gives an
/// empty plan. A list too long for its last position to fit the column is
/// refused.
pub fn reorder_plan(ids: &Vec<i64>) -> (plan: Result<Vec<OrderUpdate>, StoreError>)
    ensures
        ids@.len() <= i64::MAX ==> plan is Ok && planned(ids@, plan->Ok_0@),
        ids@.len() > i64::MAX ==> plan == Err::<Vec<OrderUpdate>, StoreError>(
            StoreError::TransactionFailure,
        ),
{
    let mut plan: Vec<OrderUpdate> = Vec::new();
    let mut position: i64 = 0;
    let mut i: usize = 0;
    while i < ids.len()
        invariant
            i <= ids.len(),
            position == i,
            plan@.len() == i,
            forall|k: int|
                0 <= k < i ==> (#[trigger] plan@[k]).note_id == ids@[k] && plan@[k].order_id == k
                    + 1,
        decreases ids.len() - i,
    {
        if position == i64::MAX {
            return Err(StoreError::TransactionFailure);
        }
        position += 1;
        plan.push(OrderUpdate { note_id: ids[i], order_id: position });
        i += 1;
    }
    Ok(plan)
}

} // verus!

//! The store as a mathematical value: two relations, the rules that hold
//! between them, and what each mutation makes of them.

use crate::error::StoreError;
use crate::model::NoteView;
use crate::model::TabView;
use crate::ordering::closed_up;
use crate::ordering::dense;
use crate::ordering::lemma_closing_up_keeps_dense;
use crate::ordering::moved_up;
use crate::ordering::lemma_append_keeps_dense;
use crate::ordering::lemma_dense_max;
use crate::ordering::max_order;
use crate::ordering::next_order;
use crate::ordering::planned;
use crate::ordering::OrderUpdate;
use crate::ordering::sorts_before;
use vstd::prelude::*;

verus! {

/// The content of a store: its tabs and its notes, each in the order in which
/// the rows were created.
pub struct StoreView {
    pub tabs: Seq<TabView>,
    pub notes: Seq<NoteView>,
}

/// Machine integers as mathematical ones.
pub open spec fn as_ints(values: Seq<i64>) -> Seq<int> {
    Seq::new(values.len(), |i: int| values[i] as int)
}

/// Whether a tab has the identifier `id`.
pub open spec fn has_tab(tabs: Seq<TabView>, id: int) -> bool {
    exists|k: int| 0 <= k < tabs.len() && #[trigger] tabs[k].id == id
}

/// Whether a note has the identifier `id`.
pub open spec fn has_note(notes: Seq<NoteView>, id: int) -> bool {
    exists|k: int| 0 <= k < notes.len() && #[trigger] notes[k].id == id
}

/// Tabs are kept by ascending identifier, so no two share one.
pub open spec fn tab_ids_increase(tabs: Seq<TabView>) -> bool {
    forall|i: int, j: int| 0 <= i < j < tabs.len() ==> #[trigger] tabs[i].id < #[trigger] tabs[j].id
}

/// Notes are kept by ascending identifier, so no two share one.
pub open spec fn note_ids_increase(notes: Seq<NoteView>) -> bool {
    forall|i: int, j: int|
        0 <= i < j < notes.len() ==> #[trigger] notes[i].id < #[trigger] notes[j].id
}

/// The foreign keys: a note's tab exists, and its parent is a note that was
/// created before it.
pub open spec fn references_hold(tabs: Seq<TabView>, notes: Seq<NoteView>) -> bool {
    forall|i: int|
        0 <= i < notes.len() ==> {
            &&& match (#[trigger] notes[i]).tab_id {
                Some(t) => has_tab(tabs, t),
                None => true,
            }
            &&& match notes[i].parent_id {
                Some(p) => p < notes[i].id && has_note(notes, p),
                None => true,
            }
        }
}

/// What holds of every store.
pub open spec fn consistent(store: StoreView) -> bool {
    &&& tab_ids_increase(store.tabs)
    &&& note_ids_increase(store.notes)
    &&& references_hold(store.tabs, store.notes)
}

/// The identifier the next tab gets: one more than the greatest in use.
pub open spec fn fresh_tab_id(tabs: Seq<TabView>) -> int {
    if tabs.len() == 0 {
        1
    } else {
        tabs.last().id + 1
    }
}

/// The identifier the next note gets: one more than the greatest in use.
pub open spec fn fresh_note_id(notes: Seq<NoteView>) -> int {
    if notes.len() == 0 {
        1
    } else {
        notes.last().id + 1
    }
}

/// Membership of the ordering scope of a tab and a parent.
pub open spec fn in_scope(tab_id: Option<int>, parent_id: Option<int>) -> spec_fn(
    NoteView,
) -> bool {
    |n: NoteView| n.tab_id == tab_id && n.parent_id == parent_id
}

/// The orders of the notes of one scope, in the order of their creation.
pub open spec fn scope_orders(
    notes: Seq<NoteView>,
    tab_id: Option<int>,
    parent_id: Option<int>,
) -> Seq<Option<int>> {
    notes.filter(in_scope(tab_id, parent_id)).map_values(|n: NoteView| n.order_id)
}

/// The order a note created in the scope of a tab and a parent gets: one more
/// than the greatest order in the scope, or 1 in a scope without an order.
pub open spec fn order_for_new(
    notes: Seq<NoteView>,
    tab_id: Option<int>,
    parent_id: Option<int>,
) -> int {
    next_order(max_order(scope_orders(notes, tab_id, parent_id)))
}

/// Why a note cannot be created in the scope of a tab and a parent, if it
/// cannot: the tab or the parent does not exist, the order that follows the
/// scope's greatest does not fit the column, or no identifier is left.
pub open spec fn creation_refused(
    store: StoreView,
    tab_id: Option<int>,
    parent_id: Option<int>,
) -> Option<StoreError> {
    if tab_id is Some && !has_tab(store.tabs, tab_id->0) {
        Some(StoreError::ConstraintViolation)
    } else if parent_id is Some && !has_note(store.notes, parent_id->0) {
        Some(StoreError::ConstraintViolation)
    } else if order_for_new(store.notes, tab_id, parent_id) > i64::MAX {
        Some(StoreError::ConstraintViolation)
    } else if fresh_note_id(store.notes) > i64::MAX {
        Some(StoreError::Unavailable)
    } else {
        None
    }
}

/// Where `first` comes before `second` in a listing: a note without an order
/// before every note with one, notes with an order by ascending order, and
/// notes of one order, or without one, by identifier.
pub open spec fn listed_before(first: NoteView, second: NoteView) -> bool {
    sorts_before(first.order_id, second.order_id) || (first.order_id == second.order_id
        && first.id < second.id)
}

/// Whether each note of `listing` comes before every note behind it.
pub open spec fn in_listing_order(listing: Seq<NoteView>) -> bool {
    forall|i: int, j: int|
        0 <= i < j < listing.len() ==> listed_before(#[trigger] listing[i], #[trigger] listing[j])
}

/// Whether `listing` is the notes of the tab `tab_id`, each once, sorted by
/// order: the notes without an order first, by identifier, then the others
/// by order, and by identifier where two share one.
pub open spec fn is_listing(
    notes: Seq<NoteView>,
    tab_id: Option<int>,
    listing: Seq<NoteView>,
) -> bool {
    &&& in_listing_order(listing)
    &&& forall|n: NoteView|
        #[trigger] listing.contains(n) <==> notes.contains(n) && n.tab_id == tab_id
}

/// A tab with a new name, changed at `now`.
pub open spec fn renamed(tab: TabView, name: Seq<char>, now: Seq<char>) -> TabView {
    TabView { name, updated_at: now, ..tab }
}

/// The tabs after the one called `id` was renamed.
pub open spec fn tabs_after_rename(
    tabs: Seq<TabView>,
    id: int,
    name: Seq<char>,
    now: Seq<char>,
) -> Seq<TabView> {
    Seq::new(
        tabs.len(),
        |k: int|
            if tabs[k].id == id {
                renamed(tabs[k], name, now)
            } else {
                tabs[k]
            },
    )
}

/// A note with a new title and content, changed at `now`. Its place in the
/// hierarchy and its order stay as they were.
pub open spec fn rewritten(
    note: NoteView,
    title: Seq<char>,
    content: Seq<char>,
    now: Seq<char>,
) -> NoteView {
    NoteView { title, content, updated_at: now, ..note }
}

/// The notes after the one called `id` was rewritten.
pub open spec fn notes_after_rewrite(
    notes: Seq<NoteView>,
    id: int,
    title: Seq<char>,
    content: Seq<char>,
    now: Seq<char>,
) -> Seq<NoteView> {
    Seq::new(
        notes.len(),
        |k: int|
            if notes[k].id == id {
                rewritten(notes[k], title, content, now)
            } else {
                notes[k]
            },
    )
}

/// The rows a delete starts from: the note called `id`.
pub open spec fn is_note(id: int) -> spec_fn(NoteView) -> bool {
    |n: NoteView| n.id == id
}

/// The rows a delete starts from: the notes of the tab called `id`.
pub open spec fn in_tab(id: int) -> spec_fn(NoteView) -> bool {
    |n: NoteView| n.tab_id == Some(id)
}

/// Whether the note at index `i` goes when the rows that `seed` picks are
/// deleted: it is picked itself, or its parent goes.
pub open spec fn swept(notes: Seq<NoteView>, seed: spec_fn(NoteView) -> bool, i: int) -> bool
    decreases i,
{
    &&& 0 <= i < notes.len()
    &&& (seed(notes[i]) || exists|k: int|
        0 <= k < i && Some(#[trigger] notes[k].id) == notes[i].parent_id && swept(notes, seed, k))
}

/// Whether a note stays when the rows that `seed` picks are deleted.
pub open spec fn stays(notes: Seq<NoteView>, seed: spec_fn(NoteView) -> bool) -> spec_fn(
    NoteView,
) -> bool {
    |n: NoteView| !exists|i: int| 0 <= i < notes.len() && notes[i] == n && swept(notes, seed, i)
}

/// The notes left after a cascading delete, in their old order.
pub open spec fn remaining(notes: Seq<NoteView>, seed: spec_fn(NoteView) -> bool) -> Seq<NoteView> {
    notes.filter(stays(notes, seed))
}

/// Every tab but the one called `id`.
pub open spec fn other_than(id: int) -> spec_fn(TabView) -> bool {
    |t: TabView| t.id != id
}

/// The note called `id`, where there is one.
pub open spec fn note_called(notes: Seq<NoteView>, id: int) -> NoteView {
    notes[choose|k: int| 0 <= k < notes.len() && notes[k].id == id]
}

/// The notes once the gap that the note `gone` left among its siblings was
/// closed: each sibling that came behind it has moved up by one. Only
/// `order_id` changes, and only on those siblings.
pub open spec fn gap_closed(notes: Seq<NoteView>, gone: NoteView) -> Seq<NoteView> {
    Seq::new(
        notes.len(),
        |k: int|
            if notes[k].tab_id == gone.tab_id && notes[k].parent_id == gone.parent_id {
                NoteView { order_id: moved_up(notes[k].order_id, gone.order_id), ..notes[k] }
            } else {
                notes[k]
            },
    )
}

/// The notes after the one called `id` was deleted: it is gone with every
/// note below it, and the siblings that came behind it have moved up.
pub open spec fn notes_after_delete(notes: Seq<NoteView>, id: int) -> Seq<NoteView> {
    gap_closed(remaining(notes, is_note(id)), note_called(notes, id))
}

/// The rule on parents alone: the parent of a note is a note that was created
/// before it.
pub open spec fn parents_precede(notes: Seq<NoteView>) -> bool {
    forall|i: int|
        0 <= i < notes.len() ==> match (#[trigger] notes[i]).parent_id {
            Some(p) => p < notes[i].id && has_note(notes, p),
            None => true,
        }
}

/// Whether `id` names a note of the scope of a tab and a parent.
pub open spec fn names_member(
    notes: Seq<NoteView>,
    id: int,
    tab_id: Option<int>,
    parent_id: Option<int>,
) -> bool {
    exists|k: int|
        0 <= k < notes.len() && #[trigger] notes[k].id == id && notes[k].tab_id == tab_id
            && notes[k].parent_id == parent_id
}

/// The tabs left after the one called `id` was deleted.
pub open spec fn tabs_without(tabs: Seq<TabView>, id: int) -> Seq<TabView> {
    tabs.filter(other_than(id))
}

/// The order a note called `id` has after `ids` were put in the order listed:
/// one more than its position in the list, the last where it is listed more
/// than once, and `current` where it is not listed.
pub open spec fn assigned_order(ids: Seq<int>, id: int, current: Option<int>) -> Option<int>
    decreases ids.len(),
{
    if ids.len() == 0 {
        current
    } else if ids.last() == id {
        Some(ids.len() as int)
    } else {
        assigned_order(ids.drop_last(), id, current)
    }
}

/// The notes after `ids` were put in the order listed. Only `order_id`
/// changes, and only on the notes listed.
pub open spec fn reordered(notes: Seq<NoteView>, ids: Seq<int>) -> Seq<NoteView> {
    Seq::new(
        notes.len(),
        |k: int|
            NoteView {
                order_id: assigned_order(ids, notes[k].id, notes[k].order_id),
                ..notes[k]
            },
    )
}

/// The notes after one row update: the note called `id`, if there is one,
/// has the order given, and nothing else has changed.
pub open spec fn with_order(notes: Seq<NoteView>, id: int, order: int) -> Seq<NoteView> {
    Seq::new(
        notes.len(),
        |k: int|
            if notes[k].id == id {
                NoteView { order_id: Some(order), ..notes[k] }
            } else {
                notes[k]
            },
    )
}

/// The notes after the row updates of `plan` were performed one by one.
pub open spec fn applied(notes: Seq<NoteView>, plan: Seq<OrderUpdate>) -> Seq<NoteView>
    decreases plan.len(),
{
    if plan.len() == 0 {
        notes
    } else {
        with_order(
            applied(notes, plan.drop_last()),
            plan.last().note_id as int,
            plan.last().order_id as int,
        )
    }
}

/// Whether `ids` lists the notes of the scope of a tab and a parent, each
/// once, and no other note.
pub open spec fn lists_whole_scope(
    notes: Seq<NoteView>,
    ids: Seq<int>,
    tab_id: Option<int>,
    parent_id: Option<int>,
) -> bool {
    &&& ids.no_duplicates()
    &&& forall|i: int|
        0 <= i < ids.len() ==> names_member(notes, #[trigger] ids[i], tab_id, parent_id)
    &&& forall|k: int|
        0 <= k < notes.len() && notes[k].tab_id == tab_id && notes[k].parent_id == parent_id
            ==> ids.contains(#[trigger] notes[k].id)
}

/// Whether `ids` lists no note of the scope of a tab and a parent.
pub open spec fn lists_none_of_scope(
    notes: Seq<NoteView>,
    ids: Seq<int>,
    tab_id: Option<int>,
    parent_id: Option<int>,
) -> bool {
    forall|k: int|
        0 <= k < notes.len() && (#[trigger] notes[k]).tab_id == tab_id && notes[k].parent_id
            == parent_id ==> !ids.contains(notes[k].id)
}

/// Whether every identifier listed names a note.
pub open spec fn all_present(notes: Seq<NoteView>, ids: Seq<int>) -> bool {
    forall|i: int| 0 <= i < ids.len() ==> has_note(notes, #[trigger] ids[i])
}

/// A scope's orders grow by the order of a note pushed into the scope, and
/// stay as they are when the note belongs to another scope.
pub proof fn lemma_scope_orders_push(
    notes: Seq<NoteView>,
    note: NoteView,
    tab_id: Option<int>,
    parent_id: Option<int>,
)
    ensures
        scope_orders(notes.push(note), tab_id, parent_id) == if note.tab_id == tab_id
            && note.parent_id == parent_id {
            scope_orders(notes, tab_id, parent_id).push(note.order_id)
        } else {
            scope_orders(notes, tab_id, parent_id)
        },
{
    notes.lemma_filter_push(note, in_scope(tab_id, parent_id));
    if note.tab_id == tab_id && note.parent_id == parent_id {
        assert(scope_orders(notes.push(note), tab_id, parent_id) =~= scope_orders(
            notes,
            tab_id,
            parent_id,
        ).push(note.order_id));
    }
}

/// A note created in a dense scope of `N` notes has order `N + 1` and leaves
/// its scope dense, and no other scope sees its orders change.
pub proof fn lemma_create_keeps_scope_dense(notes: Seq<NoteView>, note: NoteView)
    requires
        note.order_id == Some(order_for_new(notes, note.tab_id, note.parent_id)),
        dense(scope_orders(notes, note.tab_id, note.parent_id)),
    ensures
        note.order_id == Some(scope_orders(notes, note.tab_id, note.parent_id).len() as int + 1),
        dense(scope_orders(notes.push(note), note.tab_id, note.parent_id)),
        forall|tab_id: Option<int>, parent_id: Option<int>|
            tab_id != note.tab_id || parent_id != note.parent_id ==> #[trigger] scope_orders(
                notes.push(note),
                tab_id,
                parent_id,
            ) == scope_orders(notes, tab_id, parent_id),
{
    let orders = scope_orders(notes, note.tab_id, note.parent_id);
    lemma_dense_max(orders);
    lemma_append_keeps_dense(orders);
    lemma_scope_orders_push(notes, note, note.tab_id, note.parent_id);
    assert forall|tab_id: Option<int>, parent_id: Option<int>|
        tab_id != note.tab_id || parent_id != note.parent_id implies #[trigger] scope_orders(
        notes.push(note),
        tab_id,
        parent_id,
    ) == scope_orders(notes, tab_id, parent_id) by {
        lemma_scope_orders_push(notes, note, tab_id, parent_id);
    }
}

/// What a sequence holds after one more element was put in at `at`.
pub proof fn lemma_insert_holds<A>(items: Seq<A>, at: int, item: A)
    requires
        0 <= at <= items.len(),
    ensures
        forall|v: A|
            #[trigger] items.insert(at, item).contains(v) <==> v == item || items.contains(v),
{
    let after = items.insert(at, item);
    assert forall|v: A| #[trigger] after.contains(v) <==> v == item || items.contains(v) by {
        if after.contains(v) {
            let k = choose|k: int| 0 <= k < after.len() && after[k] == v;
            if k < at {
                assert(items[k] == v);
            } else if k > at {
                assert(items[k - 1] == v);
            }
        }
        if v == item {
            assert(after[at] == v);
        }
        if items.contains(v) {
            let k = choose|k: int| 0 <= k < items.len() && items[k] == v;
            if k < at {
                assert(after[k] == v);
            } else {
                assert(after[k + 1] == v);
            }
        }
    }
}

/// What the first `count + 1` elements of a sequence hold.
pub proof fn lemma_take_holds<A>(items: Seq<A>, count: int)
    requires
        0 <= count < items.len(),
    ensures
        forall|v: A|
            #[trigger] items.take(count + 1).contains(v) <==> v == items[count] || items.take(
                count,
            ).contains(v),
{
    let longer = items.take(count + 1);
    let shorter = items.take(count);
    assert forall|v: A| #[trigger] longer.contains(v) <==> v == items[count] || shorter.contains(
        v,
    ) by {
        if longer.contains(v) {
            let k = choose|k: int| 0 <= k < longer.len() && longer[k] == v;
            if k < count {
                assert(shorter[k] == v);
            }
        }
        if v == items[count] {
            assert(longer[count] == v);
        }
        if shorter.contains(v) {
            let k = choose|k: int| 0 <= k < shorter.len() && shorter[k] == v;
            assert(longer[k] == v);
        }
    }
}

/// A note occurs once: two places that hold equal notes are one place.
pub proof fn lemma_notes_occur_once(notes: Seq<NoteView>, i: int, j: int)
    requires
        note_ids_increase(notes),
        0 <= i < notes.len(),
        0 <= j < notes.len(),
        notes[i].id == notes[j].id,
    ensures
        i == j,
{
    if i < j {
        assert(notes[i].id < notes[j].id);
    }
    if j < i {
        assert(notes[j].id < notes[i].id);
    }
}

/// The note at index `i` stays exactly when it is not swept.
pub proof fn lemma_stays_iff_not_swept(
    notes: Seq<NoteView>,
    seed: spec_fn(NoteView) -> bool,
    i: int,
)
    requires
        note_ids_increase(notes),
        0 <= i < notes.len(),
    ensures
        stays(notes, seed)(notes[i]) <==> !swept(notes, seed, i),
{
    if !stays(notes, seed)(notes[i]) {
        let j = choose|j: int|
            0 <= j < notes.len() && notes[j] == notes[i] && swept(notes, seed, j);
        lemma_notes_occur_once(notes, i, j);
    }
}

/// Taking some notes out leaves the others in ascending order of identifier,
/// and leaves none that was not there.
pub proof fn lemma_filter_keeps_order(notes: Seq<NoteView>, keep: spec_fn(NoteView) -> bool)
    requires
        note_ids_increase(notes),
    ensures
        note_ids_increase(notes.filter(keep)),
        forall|q: int|
            0 <= q < notes.filter(keep).len() ==> notes.contains(#[trigger] notes.filter(keep)[q])
                && keep(notes.filter(keep)[q]),
    decreases notes.len(),
{
    reveal(Seq::filter);
    if notes.len() > 0 {
        let front = notes.drop_last();
        assert forall|i: int, j: int| 0 <= i < j < front.len() implies #[trigger] front[i].id
            < #[trigger] front[j].id by {
            assert(front[i] == notes[i] && front[j] == notes[j]);
        }
        lemma_filter_keeps_order(front, keep);
        let kept = notes.filter(keep);
        let kept_front = front.filter(keep);
        assert forall|q: int| 0 <= q < kept.len() implies notes.contains(#[trigger] kept[q])
            && keep(kept[q]) by {
            if q < kept_front.len() {
                assert(kept[q] == kept_front[q]);
                let k = choose|k: int| 0 <= k < front.len() && front[k] == kept_front[q];
                assert(notes[k] == kept[q]);
            } else {
                assert(kept[q] == notes[notes.len() - 1]);
            }
        }
        assert forall|i: int, j: int| 0 <= i < j < kept.len() implies #[trigger] kept[i].id
            < #[trigger] kept[j].id by {
            assert(kept[i] == kept_front[i]);
            if j < kept_front.len() {
                assert(kept[j] == kept_front[j]);
            } else {
                let k = choose|k: int| 0 <= k < front.len() && front[k] == kept_front[i];
                assert(notes[k] == kept[i]);
                assert(notes[k].id < notes[notes.len() - 1].id);
            }
        }
    }
}

/// Deleting a tab leaves the others in ascending order of identifier, takes
/// the tab named, and takes no other.
pub proof fn lemma_tabs_without(tabs: Seq<TabView>, id: int)
    requires
        tab_ids_increase(tabs),
    ensures
        tab_ids_increase(tabs_without(tabs, id)),
        !has_tab(tabs_without(tabs, id), id),
        forall|other: int|
            other != id && has_tab(tabs, other) ==> #[trigger] has_tab(
                tabs_without(tabs, id),
                other,
            ),
        forall|q: int|
            0 <= q < tabs_without(tabs, id).len() ==> tabs.contains(
                #[trigger] tabs_without(tabs, id)[q],
            ),
    decreases tabs.len(),
{
    reveal(Seq::filter);
    let left = tabs_without(tabs, id);
    if tabs.len() > 0 {
        let front = tabs.drop_last();
        let left_front = tabs_without(front, id);
        assert forall|i: int, j: int| 0 <= i < j < front.len() implies #[trigger] front[i].id
            < #[trigger] front[j].id by {
            assert(front[i] == tabs[i] && front[j] == tabs[j]);
        }
        lemma_tabs_without(front, id);
        assert forall|q: int| 0 <= q < left.len() implies tabs.contains(#[trigger] left[q]) by {
            if q < left_front.len() {
                assert(left[q] == left_front[q]);
                let k = choose|k: int| 0 <= k < front.len() && front[k] == left_front[q];
                assert(tabs[k] == left[q]);
            } else {
                assert(left[q] == tabs[tabs.len() - 1]);
            }
        }
        assert forall|i: int, j: int| 0 <= i < j < left.len() implies #[trigger] left[i].id
            < #[trigger] left[j].id by {
            assert(left[i] == left_front[i]);
            if j < left_front.len() {
                assert(left[j] == left_front[j]);
            } else {
                let k = choose|k: int| 0 <= k < front.len() && front[k] == left_front[i];
                assert(tabs[k].id < tabs[tabs.len() - 1].id);
            }
        }
        if has_tab(left, id) {
            let q = choose|q: int| 0 <= q < left.len() && left[q].id == id;
            if q < left_front.len() {
                assert(left_front[q].id == id);
            }
        }
        assert forall|other: int| other != id && has_tab(tabs, other) implies #[trigger] has_tab(
            left,
            other,
        ) by {
            let k = choose|k: int| 0 <= k < tabs.len() && tabs[k].id == other;
            if k < front.len() {
                assert(front[k].id == other);
                assert(has_tab(left_front, other));
                let q = choose|q: int| 0 <= q < left_front.len() && left_front[q].id == other;
                assert(left[q].id == other);
            } else {
                assert(left[left.len() - 1].id == other);
            }
        }
    }
}

/// A cascading delete takes every descendant along: of the notes that remain
/// none was picked, each is one of the old notes, and the parent of each
/// remains too. The notes that remain are in ascending order of identifier.
pub proof fn lemma_remaining_is_closed(notes: Seq<NoteView>, seed: spec_fn(NoteView) -> bool)
    requires
        note_ids_increase(notes),
        parents_precede(notes),
    ensures
        note_ids_increase(remaining(notes, seed)),
        forall|q: int|
            0 <= q < remaining(notes, seed).len() ==> {
                &&& notes.contains(#[trigger] remaining(notes, seed)[q])
                &&& !seed(remaining(notes, seed)[q])
                &&& match remaining(notes, seed)[q].parent_id {
                    Some(p) => has_note(remaining(notes, seed), p),
                    None => true,
                }
            },
{
    let left = remaining(notes, seed);
    lemma_filter_keeps_order(notes, stays(notes, seed));
    assert forall|q: int| 0 <= q < left.len() implies {
        &&& notes.contains(#[trigger] left[q])
        &&& !seed(left[q])
        &&& match left[q].parent_id {
            Some(p) => has_note(left, p),
            None => true,
        }
    } by {
        let i = choose|i: int| 0 <= i < notes.len() && notes[i] == left[q];
        lemma_stays_iff_not_swept(notes, seed, i);
        match left[q].parent_id {
            Some(p) => {
                assert(has_note(notes, p));
                let k = choose|k: int| 0 <= k < notes.len() && notes[k].id == p;
                if k >= i {
                    if k > i {
                        assert(notes[i].id < notes[k].id);
                    }
                }
                assert(k < i);
                assert(!swept(notes, seed, k));
                lemma_stays_iff_not_swept(notes, seed, k);
                notes.lemma_filter_contains(stays(notes, seed), k);
                let w = choose|w: int| 0 <= w < left.len() && left[w] == notes[k];
                assert(left[w].id == p);
            },
            None => {},
        }
    }
}

/// The rules hold once a note was added under the identifier that follows the
/// greatest in use, where its tab and its parent are there.
pub proof fn lemma_new_note_keeps_rules(store: StoreView, note: NoteView)
    requires
        consistent(store),
        note.id == fresh_note_id(store.notes),
        note.tab_id is Some ==> has_tab(store.tabs, note.tab_id->0),
        note.parent_id is Some ==> has_note(store.notes, note.parent_id->0),
    ensures
        consistent(StoreView { tabs: store.tabs, notes: store.notes.push(note) }),
        has_note(store.notes.push(note), note.id),
{
    let notes = store.notes;
    let after = notes.push(note);
    assert(after[notes.len() as int].id == note.id);
    assert forall|i: int, j: int| 0 <= i < j < after.len() implies #[trigger] after[i].id
        < #[trigger] after[j].id by {
        if j == notes.len() {
            if i < notes.len() - 1 {
                assert(notes[i].id < notes[notes.len() - 1].id);
            }
        } else {
            assert(notes[i].id < notes[j].id);
        }
    }
    assert forall|i: int| 0 <= i < after.len() implies {
        &&& match (#[trigger] after[i]).tab_id {
            Some(t) => has_tab(store.tabs, t),
            None => true,
        }
        &&& match after[i].parent_id {
            Some(p) => p < after[i].id && has_note(after, p),
            None => true,
        }
    } by {
        if i < notes.len() {
            assert(after[i] == notes[i]);
        }
        match after[i].parent_id {
            Some(p) => {
                let k = choose|k: int| 0 <= k < notes.len() && notes[k].id == p;
                assert(after[k].id == p);
                if i == notes.len() {
                    if k < notes.len() - 1 {
                        assert(notes[k].id < notes[notes.len() - 1].id);
                    }
                }
            },
            None => {},
        }
    }
}

/// The rules hold of notes that took their identifiers, tabs and parents one
/// for one from notes of which they held, beside tabs that lost none of the
/// tabs named.
pub proof fn lemma_frame_keeps_rules(
    tabs: Seq<TabView>,
    notes: Seq<NoteView>,
    new_tabs: Seq<TabView>,
    new_notes: Seq<NoteView>,
)
    requires
        references_hold(tabs, notes),
        note_ids_increase(notes),
        new_notes.len() == notes.len(),
        forall|k: int|
            0 <= k < notes.len() ==> (#[trigger] new_notes[k]).id == notes[k].id
                && new_notes[k].tab_id == notes[k].tab_id && new_notes[k].parent_id
                == notes[k].parent_id,
        forall|k: int|
            0 <= k < notes.len() && notes[k].tab_id is Some ==> has_tab(
                new_tabs,
                (#[trigger] notes[k]).tab_id->0,
            ),
    ensures
        references_hold(new_tabs, new_notes),
        note_ids_increase(new_notes),
{
    assert forall|i: int| 0 <= i < new_notes.len() implies {
        &&& match (#[trigger] new_notes[i]).tab_id {
            Some(t) => has_tab(new_tabs, t),
            None => true,
        }
        &&& match new_notes[i].parent_id {
            Some(p) => p < new_notes[i].id && has_note(new_notes, p),
            None => true,
        }
    } by {
        assert(new_notes[i].tab_id == notes[i].tab_id);
        match notes[i].parent_id {
            Some(p) => {
                let w = choose|w: int| 0 <= w < notes.len() && notes[w].id == p;
                assert(new_notes[w].id == p);
            },
            None => {},
        }
    }
    assert forall|i: int, j: int| 0 <= i < j < new_notes.len() implies #[trigger] new_notes[i].id
        < #[trigger] new_notes[j].id by {
        assert(notes[i].id < notes[j].id);
    }
}

/// Tabs that kept their identifiers, each at its place, still hold every tab
/// they held.
pub proof fn lemma_tabs_still_there(tabs: Seq<TabView>, new_tabs: Seq<TabView>)
    requires
        tabs.len() <= new_tabs.len(),
        forall|k: int| 0 <= k < tabs.len() ==> (#[trigger] new_tabs[k]).id == tabs[k].id,
    ensures
        forall|t: int| has_tab(tabs, t) ==> #[trigger] has_tab(new_tabs, t),
{
    assert forall|t: int| has_tab(tabs, t) implies #[trigger] has_tab(new_tabs, t) by {
        let k = choose|k: int| 0 <= k < tabs.len() && tabs[k].id == t;
        assert(new_tabs[k].id == t);
    }
}

/// The rules hold of what a cascading delete leaves, beside tabs that lost
/// none of the tabs that a note left names.
pub proof fn lemma_remaining_keeps_rules(
    tabs: Seq<TabView>,
    notes: Seq<NoteView>,
    new_tabs: Seq<TabView>,
    seed: spec_fn(NoteView) -> bool,
)
    requires
        references_hold(tabs, notes),
        note_ids_increase(notes),
        forall|k: int|
            0 <= k < notes.len() && notes[k].tab_id is Some && !seed(notes[k]) ==> has_tab(
                new_tabs,
                (#[trigger] notes[k]).tab_id->0,
            ),
    ensures
        references_hold(new_tabs, remaining(notes, seed)),
        note_ids_increase(remaining(notes, seed)),
{
    assert(parents_precede(notes)) by {
        assert forall|i: int| 0 <= i < notes.len() implies match (#[trigger] notes[i]).parent_id {
            Some(p) => p < notes[i].id && has_note(notes, p),
            None => true,
        } by {}
    }
    lemma_remaining_is_closed(notes, seed);
    let left = remaining(notes, seed);
    assert forall|q: int| 0 <= q < left.len() implies {
        &&& match (#[trigger] left[q]).tab_id {
            Some(t) => has_tab(new_tabs, t),
            None => true,
        }
        &&& match left[q].parent_id {
            Some(p) => p < left[q].id && has_note(left, p),
            None => true,
        }
    } by {
        let n = choose|n: int| 0 <= n < notes.len() && notes[n] == left[q];
        assert(notes[n].tab_id == left[q].tab_id);
        assert(notes[n].parent_id == left[q].parent_id);
    }
}

/// Whether every note of the scope of a tab and a parent is kept, or none.
pub open spec fn scope_kept(
    notes: Seq<NoteView>,
    keep: spec_fn(NoteView) -> bool,
    tab_id: Option<int>,
    parent_id: Option<int>,
    kept: bool,
) -> bool {
    forall|j: int|
        0 <= j < notes.len() && (#[trigger] notes[j]).tab_id == tab_id && notes[j].parent_id
            == parent_id ==> keep(notes[j]) == kept
}

/// A scope of which every note is kept has the orders it had, and one of
/// which none is kept has none.
pub proof fn lemma_scope_whole_or_gone(
    notes: Seq<NoteView>,
    keep: spec_fn(NoteView) -> bool,
    tab_id: Option<int>,
    parent_id: Option<int>,
    kept: bool,
)
    requires
        scope_kept(notes, keep, tab_id, parent_id, kept),
    ensures
        kept ==> scope_orders(notes.filter(keep), tab_id, parent_id) == scope_orders(
            notes,
            tab_id,
            parent_id,
        ),
        !kept ==> scope_orders(notes.filter(keep), tab_id, parent_id) == Seq::<
            Option<int>,
        >::empty(),
    decreases notes.len(),
{
    reveal(Seq::filter);
    if notes.len() == 0 {
        assert(scope_orders(notes.filter(keep), tab_id, parent_id) =~= Seq::empty());
        assert(scope_orders(notes, tab_id, parent_id) =~= Seq::empty());
    } else {
        let front = notes.drop_last();
        let last = notes.last();
        assert forall|j: int|
            0 <= j < front.len() && (#[trigger] front[j]).tab_id == tab_id && front[j].parent_id
                == parent_id implies keep(front[j]) == kept by {
            assert(front[j] == notes[j]);
        }
        lemma_scope_whole_or_gone(front, keep, tab_id, parent_id, kept);
        assert(notes =~= front.push(last));
        assert(last == notes[notes.len() - 1]);
        lemma_scope_orders_push(front, last, tab_id, parent_id);
        if keep(last) {
            assert(notes.filter(keep) == front.filter(keep).push(last));
            lemma_scope_orders_push(front.filter(keep), last, tab_id, parent_id);
        } else {
            assert(notes.filter(keep) == front.filter(keep));
        }
    }
}

/// A scope that loses one note, the one at index `at`, has the orders it
/// had but for that note's.
pub proof fn lemma_scope_loses_one(
    notes: Seq<NoteView>,
    keep: spec_fn(NoteView) -> bool,
    at: int,
    tab_id: Option<int>,
    parent_id: Option<int>,
)
    requires
        0 <= at < notes.len(),
        notes[at].tab_id == tab_id,
        notes[at].parent_id == parent_id,
        !keep(notes[at]),
        forall|j: int|
            0 <= j < notes.len() && j != at && (#[trigger] notes[j]).tab_id == tab_id
                && notes[j].parent_id == parent_id ==> keep(notes[j]),
    ensures
        0 <= scope_orders(notes.take(at), tab_id, parent_id).len() < scope_orders(
            notes,
            tab_id,
            parent_id,
        ).len(),
        scope_orders(notes, tab_id, parent_id)[scope_orders(
            notes.take(at),
            tab_id,
            parent_id,
        ).len() as int] == notes[at].order_id,
        scope_orders(notes.filter(keep), tab_id, parent_id) == scope_orders(
            notes,
            tab_id,
            parent_id,
        ).remove(scope_orders(notes.take(at), tab_id, parent_id).len() as int),
    decreases notes.len(),
{
    reveal(Seq::filter);
    let front = notes.drop_last();
    let last = notes.last();
    let all = scope_orders(notes, tab_id, parent_id);
    let all_front = scope_orders(front, tab_id, parent_id);
    let rank = scope_orders(notes.take(at), tab_id, parent_id).len() as int;
    assert(notes =~= front.push(last));
    assert(last == notes[notes.len() - 1]);
    lemma_scope_orders_push(front, last, tab_id, parent_id);
    if at == notes.len() - 1 {
        assert(notes.take(at) =~= front);
        assert forall|j: int|
            0 <= j < front.len() && (#[trigger] front[j]).tab_id == tab_id && front[j].parent_id
                == parent_id implies keep(front[j]) == true by {
            assert(front[j] == notes[j]);
        }
        lemma_scope_whole_or_gone(front, keep, tab_id, parent_id, true);
        assert(notes.filter(keep) == front.filter(keep));
        assert(all.remove(rank) =~= all_front);
    } else {
        assert(front[at] == notes[at]);
        assert forall|j: int|
            0 <= j < front.len() && j != at && (#[trigger] front[j]).tab_id == tab_id
                && front[j].parent_id == parent_id implies keep(front[j]) by {
            assert(front[j] == notes[j]);
        }
        lemma_scope_loses_one(front, keep, at, tab_id, parent_id);
        assert(front.take(at) =~= notes.take(at));
        if keep(last) {
            assert(notes.filter(keep) == front.filter(keep).push(last));
            lemma_scope_orders_push(front.filter(keep), last, tab_id, parent_id);
        } else {
            assert(notes.filter(keep) == front.filter(keep));
        }
        if last.tab_id == tab_id && last.parent_id == parent_id {
            assert(all.remove(rank) =~= all_front.remove(rank).push(last.order_id));
        }
    }
}

/// Closing a gap moves the orders of the scope it was in and of no other.
pub proof fn lemma_gap_closed_orders(
    notes: Seq<NoteView>,
    gone: NoteView,
    tab_id: Option<int>,
    parent_id: Option<int>,
)
    ensures
        scope_orders(gap_closed(notes, gone), tab_id, parent_id) == if tab_id == gone.tab_id
            && parent_id == gone.parent_id {
            closed_up(scope_orders(notes, tab_id, parent_id), gone.order_id)
        } else {
            scope_orders(notes, tab_id, parent_id)
        },
    decreases notes.len(),
{
    reveal(Seq::filter);
    let after = gap_closed(notes, gone);
    if notes.len() == 0 {
        assert(after =~= notes);
        assert(scope_orders(notes, tab_id, parent_id) =~= Seq::empty());
        assert(closed_up(scope_orders(notes, tab_id, parent_id), gone.order_id) =~= Seq::empty());
    } else {
        let front = notes.drop_last();
        let after_front = gap_closed(front, gone);
        lemma_gap_closed_orders(front, gone, tab_id, parent_id);
        assert(notes =~= front.push(notes.last()));
        assert(after =~= after_front.push(after.last()));
        lemma_scope_orders_push(front, notes.last(), tab_id, parent_id);
        lemma_scope_orders_push(after_front, after.last(), tab_id, parent_id);
        if tab_id == gone.tab_id && parent_id == gone.parent_id {
            let before_orders = scope_orders(front, tab_id, parent_id);
            if notes.last().tab_id == tab_id && notes.last().parent_id == parent_id {
                assert(closed_up(before_orders.push(notes.last().order_id), gone.order_id)
                    =~= closed_up(before_orders, gone.order_id).push(after.last().order_id));
            }
        }
    }
}

/// A delete that starts from one note takes nothing that was created before
/// that note.
pub proof fn lemma_nothing_older_is_swept(notes: Seq<NoteView>, at: int, j: int)
    requires
        note_ids_increase(notes),
        0 <= j < at < notes.len(),
    ensures
        !swept(notes, is_note(notes[at].id), j),
    decreases j,
{
    let seed = is_note(notes[at].id);
    assert(notes[j].id < notes[at].id);
    if swept(notes, seed, j) {
        let k = choose|k: int|
            0 <= k < j && Some(#[trigger] notes[k].id) == notes[j].parent_id && swept(
                notes,
                seed,
                k,
            );
        lemma_nothing_older_is_swept(notes, at, k);
    }
}

/// Whether a note goes with a delete is decided by its parent alone, where
/// the note is not picked itself: the notes of one scope that are not picked
/// all go or all stay.
pub proof fn lemma_siblings_share_their_lot(
    notes: Seq<NoteView>,
    seed: spec_fn(NoteView) -> bool,
    i: int,
    j: int,
)
    requires
        note_ids_increase(notes),
        parents_precede(notes),
        0 <= i < notes.len(),
        0 <= j < notes.len(),
        notes[i].parent_id == notes[j].parent_id,
        !seed(notes[i]),
        !seed(notes[j]),
    ensures
        swept(notes, seed, i) == swept(notes, seed, j),
{
    if notes[i].parent_id is Some {
        let p = notes[i].parent_id->0;
        assert(has_note(notes, p));
        let w = choose|w: int| 0 <= w < notes.len() && notes[w].id == p;
        if w >= i {
            if w > i {
                assert(notes[i].id < notes[w].id);
            }
        }
        if w >= j {
            if w > j {
                assert(notes[j].id < notes[w].id);
            }
        }
        assert(w < i && w < j);
        if swept(notes, seed, i) {
            let k = choose|k: int|
                0 <= k < i && Some(#[trigger] notes[k].id) == notes[i].parent_id && swept(
                    notes,
                    seed,
                    k,
                );
            lemma_notes_occur_once(notes, k, w);
            assert(Some(notes[w].id) == notes[j].parent_id);
        }
        if swept(notes, seed, j) {
            let k = choose|k: int|
                0 <= k < j && Some(#[trigger] notes[k].id) == notes[j].parent_id && swept(
                    notes,
                    seed,
                    k,
                );
            lemma_notes_occur_once(notes, k, w);
            assert(Some(notes[w].id) == notes[i].parent_id);
        }
    }
}

/// A delete leaves a scope from which it picks nothing either whole or
/// empty, and it leaves a scope from which it picks every note empty.
pub proof fn lemma_delete_spares_or_empties(
    notes: Seq<NoteView>,
    seed: spec_fn(NoteView) -> bool,
    tab_id: Option<int>,
    parent_id: Option<int>,
)
    requires
        note_ids_increase(notes),
        parents_precede(notes),
        forall|j: int|
            0 <= j < notes.len() && (#[trigger] notes[j]).tab_id == tab_id && notes[j].parent_id
                == parent_id ==> !seed(notes[j]),
    ensures
        scope_orders(remaining(notes, seed), tab_id, parent_id) == scope_orders(
            notes,
            tab_id,
            parent_id,
        ) || scope_orders(remaining(notes, seed), tab_id, parent_id) == Seq::<
            Option<int>,
        >::empty(),
{
    let keep = stays(notes, seed);
    if exists|m: int|
        0 <= m < notes.len() && notes[m].tab_id == tab_id && notes[m].parent_id == parent_id
            && swept(notes, seed, m) {
        let m = choose|m: int|
            0 <= m < notes.len() && notes[m].tab_id == tab_id && notes[m].parent_id == parent_id
                && swept(notes, seed, m);
        assert forall|j: int|
            0 <= j < notes.len() && (#[trigger] notes[j]).tab_id == tab_id && notes[j].parent_id
                == parent_id implies keep(notes[j]) == false by {
            lemma_siblings_share_their_lot(notes, seed, m, j);
            lemma_stays_iff_not_swept(notes, seed, j);
        }
        lemma_scope_whole_or_gone(notes, keep, tab_id, parent_id, false);
    } else {
        assert forall|j: int|
            0 <= j < notes.len() && (#[trigger] notes[j]).tab_id == tab_id && notes[j].parent_id
                == parent_id implies keep(notes[j]) == true by {
            assert(!swept(notes, seed, j));
            lemma_stays_iff_not_swept(notes, seed, j);
        }
        lemma_scope_whole_or_gone(notes, keep, tab_id, parent_id, true);
    }
}

/// Deleting a note leaves every scope that was dense dense: the scope of the
/// note loses it and closes the gap, a scope below the note is emptied, and
/// every other scope stays as it was.
pub proof fn lemma_delete_note_keeps_dense(
    notes: Seq<NoteView>,
    id: int,
    tab_id: Option<int>,
    parent_id: Option<int>,
)
    requires
        note_ids_increase(notes),
        parents_precede(notes),
        has_note(notes, id),
        dense(scope_orders(notes, tab_id, parent_id)),
    ensures
        dense(scope_orders(notes_after_delete(notes, id), tab_id, parent_id)),
{
    let seed = is_note(id);
    let keep = stays(notes, seed);
    let gone = note_called(notes, id);
    let at = choose|k: int| 0 <= k < notes.len() && notes[k].id == id;
    let left = remaining(notes, seed);
    lemma_gap_closed_orders(left, gone, tab_id, parent_id);
    if tab_id == gone.tab_id && parent_id == gone.parent_id {
        lemma_stays_iff_not_swept(notes, seed, at);
        assert forall|j: int|
            0 <= j < notes.len() && j != at && (#[trigger] notes[j]).tab_id == tab_id
                && notes[j].parent_id == parent_id implies keep(notes[j]) by {
            if notes[j].id == id {
                lemma_notes_occur_once(notes, j, at);
            }
            lemma_stays_iff_not_swept(notes, seed, j);
            if swept(notes, seed, j) {
                let k = choose|k: int|
                    0 <= k < j && Some(#[trigger] notes[k].id) == notes[j].parent_id && swept(
                        notes,
                        seed,
                        k,
                    );
                assert(notes[k].id < notes[at].id);
                if k >= at {
                    if k > at {
                        assert(notes[at].id < notes[k].id);
                    }
                }
                lemma_nothing_older_is_swept(notes, at, k);
            }
        }
        lemma_scope_loses_one(notes, keep, at, tab_id, parent_id);
        let rank = scope_orders(notes.take(at), tab_id, parent_id).len() as int;
        lemma_closing_up_keeps_dense(scope_orders(notes, tab_id, parent_id), rank);
    } else {
        assert forall|j: int|
            0 <= j < notes.len() && (#[trigger] notes[j]).tab_id == tab_id && notes[j].parent_id
                == parent_id implies !seed(notes[j]) by {
            if notes[j].id == id {
                lemma_notes_occur_once(notes, j, at);
            }
        }
        lemma_delete_spares_or_empties(notes, seed, tab_id, parent_id);
    }
}

/// Deleting a tab leaves every scope that was dense dense: a scope of the
/// tab or below one of its notes is emptied, and every other scope stays as
/// it was.
pub proof fn lemma_delete_tab_keeps_dense(
    notes: Seq<NoteView>,
    id: int,
    tab_id: Option<int>,
    parent_id: Option<int>,
)
    requires
        note_ids_increase(notes),
        parents_precede(notes),
        dense(scope_orders(notes, tab_id, parent_id)),
    ensures
        dense(scope_orders(remaining(notes, in_tab(id)), tab_id, parent_id)),
{
    let seed = in_tab(id);
    if tab_id == Some(id) {
        assert forall|j: int|
            0 <= j < notes.len() && (#[trigger] notes[j]).tab_id == tab_id && notes[j].parent_id
                == parent_id implies stays(notes, seed)(notes[j]) == false by {
            lemma_stays_iff_not_swept(notes, seed, j);
        }
        lemma_scope_whole_or_gone(notes, stays(notes, seed), tab_id, parent_id, false);
    } else {
        lemma_delete_spares_or_empties(notes, seed, tab_id, parent_id);
    }
}

/// Two listings in order that hold the same notes are one listing.
pub proof fn lemma_same_notes_same_listing(first: Seq<NoteView>, second: Seq<NoteView>)
    requires
        in_listing_order(first),
        in_listing_order(second),
        forall|n: NoteView|
            #![trigger first.contains(n)]
            #![trigger second.contains(n)]
            first.contains(n) <==> second.contains(n),
    ensures
        first == second,
    decreases first.len(),
{
    if first.len() == 0 {
        if second.len() > 0 {
            assert(second.contains(second[0]));
        }
        assert(first =~= second);
    } else {
        let top = first.last();
        assert(first.contains(top));
        let j = choose|j: int| 0 <= j < second.len() && second[j] == top;
        let other = second.last();
        assert(second.contains(other));
        let i = choose|i: int| 0 <= i < first.len() && first[i] == other;
        if j < second.len() - 1 {
            assert(listed_before(second[j], second[second.len() - 1]));
            if i < first.len() - 1 {
                assert(listed_before(first[i], first[first.len() - 1]));
            }
        }
        assert(top == other);
        let front = first.drop_last();
        let back = second.drop_last();
        assert forall|n: NoteView|
            #![trigger front.contains(n)]
            #![trigger back.contains(n)]
            front.contains(n) <==> back.contains(n) by {
            if front.contains(n) {
                let a = choose|a: int| 0 <= a < front.len() && front[a] == n;
                assert(first[a] == n);
                assert(listed_before(first[a], first[first.len() - 1]));
                assert(first.contains(n));
                let b = choose|b: int| 0 <= b < second.len() && second[b] == n;
                assert(back[b] == n);
            }
            if back.contains(n) {
                let b = choose|b: int| 0 <= b < back.len() && back[b] == n;
                assert(second[b] == n);
                assert(listed_before(second[b], second[second.len() - 1]));
                assert(second.contains(n));
                let a = choose|a: int| 0 <= a < first.len() && first[a] == n;
                assert(front[a] == n);
            }
        }
        assert forall|a: int, b: int| 0 <= a < b < front.len() implies listed_before(
            #[trigger] front[a],
            #[trigger] front[b],
        ) by {
            assert(front[a] == first[a] && front[b] == first[b]);
        }
        assert forall|a: int, b: int| 0 <= a < b < back.len() implies listed_before(
            #[trigger] back[a],
            #[trigger] back[b],
        ) by {
            assert(back[a] == second[a] && back[b] == second[b]);
        }
        lemma_same_notes_same_listing(front, back);
        assert(first =~= front.push(top));
        assert(second =~= back.push(other));
    }
}

/// A tab has one listing: what `is_listing` admits is determined by the notes
/// and the tab.
pub proof fn lemma_listing_is_unique(
    notes: Seq<NoteView>,
    tab_id: Option<int>,
    first: Seq<NoteView>,
    second: Seq<NoteView>,
)
    requires
        is_listing(notes, tab_id, first),
        is_listing(notes, tab_id, second),
    ensures
        first == second,
{
    assert forall|n: NoteView|
        #![trigger first.contains(n)]
        #![trigger second.contains(n)]
        first.contains(n) <==> second.contains(n) by {}
    lemma_same_notes_same_listing(first, second);
}

/// Performing the row updates planned for `ids`, one by one, is the reorder
/// of `ids`.
pub proof fn lemma_plan_applies_reorder(
    notes: Seq<NoteView>,
    ids: Seq<i64>,
    plan: Seq<OrderUpdate>,
)
    requires
        planned(ids, plan),
    ensures
        applied(notes, plan) == reordered(notes, as_ints(ids)),
    decreases ids.len(),
{
    if ids.len() == 0 {
        assert(applied(notes, plan) =~= reordered(notes, as_ints(ids)));
    } else {
        let front_ids = ids.drop_last();
        let front_plan = plan.drop_last();
        assert forall|i: int| 0 <= i < front_ids.len() implies (#[trigger] front_plan[i]).note_id
            == front_ids[i] && front_plan[i].order_id == i + 1 by {
            assert(front_plan[i] == plan[i]);
        }
        lemma_plan_applies_reorder(notes, front_ids, front_plan);
        assert(as_ints(ids).drop_last() =~= as_ints(front_ids));
        assert(plan.last() == plan[plan.len() - 1]);
        assert(as_ints(ids).last() == plan.last().note_id);
        assert(applied(notes, plan) =~= reordered(notes, as_ints(ids)));
    }
}

/// Rewriting a note leaves the orders of every scope as they were.
pub proof fn lemma_rewrite_keeps_orders(
    notes: Seq<NoteView>,
    id: int,
    title: Seq<char>,
    content: Seq<char>,
    now: Seq<char>,
    tab_id: Option<int>,
    parent_id: Option<int>,
)
    ensures
        scope_orders(notes_after_rewrite(notes, id, title, content, now), tab_id, parent_id)
            == scope_orders(notes, tab_id, parent_id),
    decreases notes.len(),
{
    let after = notes_after_rewrite(notes, id, title, content, now);
    if notes.len() == 0 {
        assert(after =~= notes);
    } else {
        let front = notes.drop_last();
        let after_front = notes_after_rewrite(front, id, title, content, now);
        lemma_rewrite_keeps_orders(front, id, title, content, now, tab_id, parent_id);
        assert(notes =~= front.push(notes.last()));
        assert(after =~= after_front.push(after.last()));
        lemma_scope_orders_push(front, notes.last(), tab_id, parent_id);
        lemma_scope_orders_push(after_front, after.last(), tab_id, parent_id);
    }
}

/// Reordering no identifiers leaves every note as it was.
pub proof fn lemma_reorder_of_nothing(notes: Seq<NoteView>)
    ensures
        reordered(notes, Seq::empty()) == notes,
{
    assert(reordered(notes, Seq::empty()) =~= notes);
}

/// In a list without repetition, the identifier at position `at` is given
/// order `at + 1`.
pub proof fn lemma_assigned_order_is_position(
    ids: Seq<int>,
    at: int,
    current: Option<int>,
)
    requires
        ids.no_duplicates(),
        0 <= at < ids.len(),
    ensures
        assigned_order(ids, ids[at], current) == Some(at + 1),
    decreases ids.len(),
{
    if ids.last() != ids[at] {
        let front = ids.drop_last();
        assert(front[at] == ids[at]);
        lemma_assigned_order_is_position(front, at, current);
    }
}

/// A reorder changes orders only, so the notes of a scope after it are the
/// notes of the scope before it, reordered.
pub proof fn lemma_reorder_keeps_scopes(
    notes: Seq<NoteView>,
    ids: Seq<int>,
    tab_id: Option<int>,
    parent_id: Option<int>,
)
    ensures
        reordered(notes, ids).filter(in_scope(tab_id, parent_id)) == reordered(
            notes.filter(in_scope(tab_id, parent_id)),
            ids,
        ),
    decreases notes.len(),
{
    reveal(Seq::filter);
    let scope = in_scope(tab_id, parent_id);
    if notes.len() == 0 {
        assert(reordered(notes, ids).filter(scope) =~= reordered(notes.filter(scope), ids));
    } else {
        let front = notes.drop_last();
        lemma_reorder_keeps_scopes(front, ids, tab_id, parent_id);
        assert(reordered(notes, ids).drop_last() =~= reordered(front, ids));
        assert(scope(reordered(notes, ids).last()) == scope(notes.last()));
        assert(reordered(notes, ids).filter(scope) =~= reordered(notes.filter(scope), ids));
    }
}

/// A note that is not listed keeps its order.
pub proof fn lemma_unlisted_keeps_order(ids: Seq<int>, id: int, current: Option<int>)
    requires
        !ids.contains(id),
    ensures
        assigned_order(ids, id, current) == current,
    decreases ids.len(),
{
    if ids.len() > 0 {
        let front = ids.drop_last();
        assert(ids[ids.len() - 1] != id);
        assert forall|i: int| 0 <= i < front.len() implies front[i] != id by {
            assert(front[i] == ids[i]);
        }
        lemma_unlisted_keeps_order(front, id, current);
    }
}

/// A reorder leaves the orders of a scope as they were where it lists none
/// of the scope's notes.
pub proof fn lemma_reorder_spares_other_scopes(
    notes: Seq<NoteView>,
    ids: Seq<int>,
    tab_id: Option<int>,
    parent_id: Option<int>,
)
    requires
        lists_none_of_scope(notes, ids, tab_id, parent_id),
    ensures
        scope_orders(reordered(notes, ids), tab_id, parent_id) == scope_orders(
            notes,
            tab_id,
            parent_id,
        ),
{
    let scope = in_scope(tab_id, parent_id);
    let members = notes.filter(scope);
    lemma_reorder_keeps_scopes(notes, ids, tab_id, parent_id);
    let before = scope_orders(notes, tab_id, parent_id);
    let after = scope_orders(reordered(notes, ids), tab_id, parent_id);
    assert forall|q: int| 0 <= q < members.len() implies after[q] == before[q] by {
        notes.lemma_filter_contains_rev(scope, members[q]);
        notes.lemma_filter_pred(scope, q);
        let k = choose|k: int| 0 <= k < notes.len() && notes[k] == members[q];
        lemma_unlisted_keeps_order(ids, members[q].id, members[q].order_id);
    }
    assert(after =~= before);
}

/// Reordering a whole scope leaves it dense: where `ids` lists the notes of
/// one scope, each once and none of another scope, the orders of that scope
/// afterwards are `1..=N`, each once.
pub proof fn lemma_reorder_fills_scope(
    notes: Seq<NoteView>,
    ids: Seq<int>,
    tab_id: Option<int>,
    parent_id: Option<int>,
)
    requires
        note_ids_increase(notes),
        lists_whole_scope(notes, ids, tab_id, parent_id),
    ensures
        scope_orders(reordered(notes, ids), tab_id, parent_id).len() == ids.len(),
        dense(scope_orders(reordered(notes, ids), tab_id, parent_id)),
{
    let scope = in_scope(tab_id, parent_id);
    let members = notes.filter(scope);
    let orders = scope_orders(reordered(notes, ids), tab_id, parent_id);
    lemma_reorder_keeps_scopes(notes, ids, tab_id, parent_id);
    lemma_filter_keeps_order(notes, scope);
    assert(orders.len() == members.len());
    let member_ids = Seq::new(members.len(), |q: int| members[q].id);
    assert forall|a: int, b: int|
        0 <= a < member_ids.len() && 0 <= b < member_ids.len() && a != b implies member_ids[a]
        != member_ids[b] by {
        if a < b {
            assert(members[a].id < members[b].id);
        } else {
            assert(members[b].id < members[a].id);
        }
    }
    assert forall|v: int| member_ids.to_set().contains(v) <==> ids.to_set().contains(v) by {
        if member_ids.to_set().contains(v) {
            let q = choose|q: int| 0 <= q < member_ids.len() && member_ids[q] == v;
            assert(notes.contains(members[q]) && scope(members[q]));
            let k = choose|k: int| 0 <= k < notes.len() && notes[k] == members[q];
            assert(ids.contains(notes[k].id));
        }
        if ids.to_set().contains(v) {
            let i = choose|i: int| 0 <= i < ids.len() && ids[i] == v;
            assert(names_member(notes, ids[i], tab_id, parent_id));
            let k = choose|k: int|
                0 <= k < notes.len() && notes[k].id == ids[i] && notes[k].tab_id == tab_id
                    && notes[k].parent_id == parent_id;
            notes.lemma_filter_contains(scope, k);
            let q = choose|q: int| 0 <= q < members.len() && members[q] == notes[k];
            assert(member_ids[q] == v);
        }
    }
    assert(member_ids.to_set() =~= ids.to_set());
    member_ids.unique_seq_to_set();
    ids.unique_seq_to_set();
    assert(members.len() == ids.len());
    assert forall|q: int| 0 <= q < orders.len() implies exists|at: int|
        0 <= at < ids.len() && ids[at] == members[q].id && #[trigger] orders[q] == Some(
            at + 1,
        ) by {
        assert(member_ids[q] == members[q].id);
        assert(ids.to_set().contains(member_ids[q]));
        let at = choose|at: int| 0 <= at < ids.len() && ids[at] == members[q].id;
        lemma_assigned_order_is_position(ids, at, members[q].order_id);
    }
    assert forall|i: int, j: int|
        0 <= i < orders.len() && 0 <= j < orders.len() && i != j implies orders[i]
        != orders[j] by {
        assert(member_ids[i] != member_ids[j]);
        let a = choose|at: int|
            0 <= at < ids.len() && ids[at] == members[i].id && orders[i] == Some(at + 1);
        let b = choose|at: int|
            0 <= at < ids.len() && ids[at] == members[j].id && orders[j] == Some(at + 1);
    }
    assert forall|i: int| 0 <= i < orders.len() implies match #[trigger] orders[i] {
        Some(v) => 1 <= v <= orders.len(),
        None => false,
    } by {
        let a = choose|at: int|
            0 <= at < ids.len() && ids[at] == members[i].id && orders[i] == Some(at + 1);
    }
}

} // verus!

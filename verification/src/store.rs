//! The record store, held in memory: the operations on tabs and notes, with
//! every rule of the hierarchy and of sibling order applied to plain vectors.
//!
//! Nothing here reads a clock: an operation that stamps a row is handed the
//! time as text.

use crate::error::StoreError;
use crate::hierarchy::all_present;
use crate::hierarchy::as_ints;
use crate::hierarchy::consistent;
use crate::hierarchy::creation_refused;
use crate::hierarchy::fresh_note_id;
use crate::hierarchy::fresh_tab_id;
use crate::hierarchy::gap_closed;
use crate::hierarchy::has_note;
use crate::hierarchy::has_tab;
use crate::hierarchy::in_listing_order;
use crate::hierarchy::in_tab;
use crate::hierarchy::is_listing;
use crate::hierarchy::is_note;
use crate::hierarchy::lemma_delete_note_keeps_dense;
use crate::hierarchy::lemma_delete_tab_keeps_dense;
use crate::hierarchy::lemma_frame_keeps_rules;
use crate::hierarchy::lemma_insert_holds;
use crate::hierarchy::lemma_new_note_keeps_rules;
use crate::hierarchy::lemma_notes_occur_once;
use crate::hierarchy::lemma_remaining_keeps_rules;
use crate::hierarchy::lemma_reorder_fills_scope;
use crate::hierarchy::lemma_reorder_of_nothing;
use crate::hierarchy::lemma_reorder_spares_other_scopes;
use crate::hierarchy::lists_none_of_scope;
use crate::hierarchy::lists_whole_scope;
use crate::hierarchy::lemma_rewrite_keeps_orders;
use crate::hierarchy::lemma_scope_orders_push;
use crate::hierarchy::lemma_stays_iff_not_swept;
use crate::hierarchy::lemma_tabs_still_there;
use crate::hierarchy::lemma_tabs_without;
use crate::hierarchy::lemma_take_holds;
use crate::hierarchy::listed_before;
use crate::hierarchy::note_called;
use crate::hierarchy::note_ids_increase;
use crate::hierarchy::notes_after_delete;
use crate::hierarchy::notes_after_rewrite;
use crate::hierarchy::order_for_new;
use crate::hierarchy::other_than;
use crate::hierarchy::remaining;
use crate::hierarchy::reordered;
use crate::hierarchy::scope_orders;
use crate::hierarchy::stays;
use crate::hierarchy::StoreView;
use crate::hierarchy::swept;
use crate::hierarchy::tab_ids_increase;
use crate::hierarchy::tabs_after_rename;
use crate::hierarchy::tabs_without;
use crate::model::lift;
use crate::model::Note;
use crate::model::note_views;
use crate::model::NoteView;
use crate::model::Tab;
use crate::model::tab_views;
use crate::model::TabView;
use crate::ordering::appended;
use crate::ordering::creation_outcome;
use crate::ordering::dense;
use crate::ordering::lemma_append_keeps_dense;
use crate::ordering::lifted;
use crate::ordering::max_order_id;
use crate::ordering::order_sorts_before;
use crate::ordering::planned;
use crate::ordering::reorder_plan;
use vstd::prelude::*;

verus! {

/// The tabs and notes of one store.
pub struct Store {
    tabs: Vec<Tab>,
    notes: Vec<Note>,
}

impl View for Store {
    type V = StoreView;

    closed spec fn view(&self) -> StoreView {
        StoreView { tabs: tab_views(self.tabs@), notes: note_views(self.notes@) }
    }
}

impl Store {
    /// A store without rows.
    pub fn new() -> (store: Store)
        ensures
            store@.tabs == Seq::<TabView>::empty(),
            store@.notes == Seq::<NoteView>::empty(),
            consistent(store@),
    {
        let store = Store { tabs: Vec::new(), notes: Vec::new() };
        assert(store@.tabs =~= Seq::empty());
        assert(store@.notes =~= Seq::empty());
        store
    }

    /// A store of the rows given, as they were read from where they are kept.
    /// Rows without an order are taken as they are.
    ///
    /// Fails as `ConstraintViolation` unless the rows are consistent: tabs and
    /// notes by ascending identifier, every tab that a note names among the
    /// tabs, every parent among the notes and created before its child.
    pub fn from_rows(tabs: Vec<Tab>, notes: Vec<Note>) -> (loaded: Result<Store, StoreError>)
        ensures
            match loaded {
                Ok(store) => {
                    &&& store@.tabs == tab_views(tabs@)
                    &&& store@.notes == note_views(notes@)
                    &&& consistent(store@)
                },
                Err(e) => {
                    &&& e == StoreError::ConstraintViolation
                    &&& !consistent(
                        StoreView { tabs: tab_views(tabs@), notes: note_views(notes@) },
                    )
                },
            },
    {
        let ghost tab_rows = tab_views(tabs@);
        let ghost note_rows = note_views(notes@);
        let mut i: usize = 1;
        while i < tabs.len()
            invariant
                1 <= i,
                tab_rows == tab_views(tabs@),
                forall|a: int, b: int|
                    0 <= a < b < i && b < tabs@.len() ==> #[trigger] tab_rows[a].id
                        < #[trigger] tab_rows[b].id,
            decreases tabs.len() - i,
        {
            if tabs[i - 1].id >= tabs[i].id {
                assert(!(tab_rows[i - 1].id < tab_rows[i as int].id));
                return Err(StoreError::ConstraintViolation);
            }
            assert forall|a: int, b: int|
                0 <= a < b < i + 1 && b < tabs@.len() implies #[trigger] tab_rows[a].id
                < #[trigger] tab_rows[b].id by {
                if b == i && a < i - 1 {
                    assert(tab_rows[a].id < tab_rows[i - 1].id);
                }
            }
            i += 1;
        }
        let mut i: usize = 0;
        while i < notes.len()
            invariant
                i <= notes.len(),
                tab_rows == tab_views(tabs@),
                note_rows == note_views(notes@),
                tab_ids_increase(tab_rows),
                forall|a: int, b: int|
                    0 <= a < b < i ==> #[trigger] note_rows[a].id < #[trigger] note_rows[b].id,
                forall|j: int|
                    0 <= j < i ==> {
                        &&& match (#[trigger] note_rows[j]).tab_id {
                            Some(t) => has_tab(tab_rows, t),
                            None => true,
                        }
                        &&& match note_rows[j].parent_id {
                            Some(p) => p < note_rows[j].id && has_note(note_rows, p),
                            None => true,
                        }
                    },
            decreases notes.len() - i,
        {
            if i > 0 && notes[i - 1].id >= notes[i].id {
                assert(!(note_rows[i - 1].id < note_rows[i as int].id));
                return Err(StoreError::ConstraintViolation);
            }
            if let Some(t) = notes[i].tab_id {
                if find_tab(&tabs, t).is_none() {
                    assert(note_rows[i as int].tab_id == Some(t as int));
                    return Err(StoreError::ConstraintViolation);
                }
            }
            if let Some(p) = notes[i].parent_id {
                if p >= notes[i].id || find_note(&notes, p).is_none() {
                    assert(note_rows[i as int].parent_id == Some(p as int));
                    return Err(StoreError::ConstraintViolation);
                }
            }
            assert forall|a: int, b: int| 0 <= a < b < i + 1 implies #[trigger] note_rows[a].id
                < #[trigger] note_rows[b].id by {
                if b == i && a < i - 1 {
                    assert(note_rows[a].id < note_rows[i - 1].id);
                }
            }
            i += 1;
        }
        Ok(Store { tabs, notes })
    }
}

fn find_tab(tabs: &Vec<Tab>, id: i64) -> (found: Option<usize>)
    ensures
        match found {
            Some(k) => k < tabs@.len() && tabs@[k as int].id == id,
            None => true,
        },
        found is Some <==> has_tab(tab_views(tabs@), id as int),
{
    let mut i: usize = 0;
    while i < tabs.len()
        invariant
            i <= tabs.len(),
            forall|k: int| 0 <= k < i ==> tabs@[k].id != id,
        decreases tabs.len() - i,
    {
        if tabs[i].id == id {
            assert(tab_views(tabs@)[i as int].id == id);
            return Some(i);
        }
        i += 1;
    }
    None
}

fn find_note(notes: &Vec<Note>, id: i64) -> (found: Option<usize>)
    ensures
        match found {
            Some(k) => k < notes@.len() && notes@[k as int].id == id,
            None => true,
        },
        found is Some <==> has_note(note_views(notes@), id as int),
{
    let mut i: usize = 0;
    while i < notes.len()
        invariant
            i <= notes.len(),
            forall|k: int| 0 <= k < i ==> notes@[k].id != id,
        decreases notes.len() - i,
    {
        if notes[i].id == id {
            assert(note_views(notes@)[i as int].id == id);
            return Some(i);
        }
        i += 1;
    }
    None
}

/// Lists the tabs, by ascending identifier.
pub fn get_tabs(store: &Store) -> (tabs: Result<Vec<Tab>, StoreError>)
    ensures
        tabs is Ok,
        tab_views(tabs->Ok_0@) == store@.tabs,
{
    let mut listing: Vec<Tab> = Vec::new();
    let mut i: usize = 0;
    while i < store.tabs.len()
        invariant
            i <= store.tabs.len(),
            listing@.len() == i,
            forall|k: int| 0 <= k < i ==> listing@[k] == store.tabs@[k],
        decreases store.tabs.len() - i,
    {
        listing.push(store.tabs[i].clone());
        i += 1;
    }
    assert(tab_views(listing@) =~= store@.tabs);
    Ok(listing)
}

/// Creates a tab called `name` at the time `now`, under the identifier that
/// follows the greatest in use, and returns the row.
///
/// Fails as `Unavailable`, changing nothing, where no identifier is left.
pub fn create_tab(store: &mut Store, name: String, now: String) -> (created: Result<
    Tab,
    StoreError,
>)
    requires
        consistent(old(store)@),
    ensures
        consistent(final(store)@),
        final(store)@.notes == old(store)@.notes,
        match created {
            Ok(tab) => {
                &&& fresh_tab_id(old(store)@.tabs) <= i64::MAX
                &&& tab@ == (TabView {
                    id: fresh_tab_id(old(store)@.tabs),
                    name: name@,
                    created_at: now@,
                    updated_at: now@,
                })
                &&& final(store)@.tabs == old(store)@.tabs.push(tab@)
                &&& has_tab(final(store)@.tabs, tab@.id)
            },
            Err(e) => {
                &&& fresh_tab_id(old(store)@.tabs) > i64::MAX
                &&& e == StoreError::Unavailable
                &&& final(store)@ == old(store)@
            },
        },
{
    let count = store.tabs.len();
    let id: i64 = if count == 0 {
        1
    } else {
        let last = store.tabs[count - 1].id;
        if last == i64::MAX {
            return Err(StoreError::Unavailable);
        }
        last + 1
    };
    let tab = Tab { id, name, created_at: now.clone(), updated_at: now };
    store.tabs.push(tab.clone());
    proof {
        let before = old(store)@;
        let after = store@;
        assert(after.tabs =~= before.tabs.push(tab@));
        assert(after.tabs[before.tabs.len() as int].id == tab@.id);
        lemma_tabs_still_there(before.tabs, after.tabs);
        lemma_frame_keeps_rules(before.tabs, before.notes, after.tabs, after.notes);
    }
    Ok(tab)
}

/// Renames the tab called `id` at the time `now`.
///
/// Fails as `NotFound`, changing nothing, where no tab has that identifier.
pub fn update_tab(store: &mut Store, id: i64, name: String, now: String) -> (updated: Result<
    (),
    StoreError,
>)
    requires
        consistent(old(store)@),
    ensures
        consistent(final(store)@),
        final(store)@.notes == old(store)@.notes,
        has_tab(old(store)@.tabs, id as int) ==> updated is Ok && final(store)@.tabs
            == tabs_after_rename(old(store)@.tabs, id as int, name@, now@),
        !has_tab(old(store)@.tabs, id as int) ==> updated == Err::<(), StoreError>(
            StoreError::NotFound,
        ) && final(store)@ == old(store)@,
{
    match find_tab(&store.tabs, id) {
        None => Err(StoreError::NotFound),
        Some(k) => {
            store.tabs[k].name = name;
            store.tabs[k].updated_at = now;
            proof {
                let before = old(store)@;
                let after = store@;
                assert(before.tabs[k as int].id == id);
                assert(after.tabs =~= tabs_after_rename(before.tabs, id as int, name@, now@));
                lemma_tabs_still_there(before.tabs, after.tabs);
                lemma_frame_keeps_rules(before.tabs, before.notes, after.tabs, after.notes);
            }
            Ok(())
        },
    }
}

fn same_id(a: Option<i64>, b: Option<i64>) -> (same: bool)
    ensures
        same == (lift(a) == lift(b)),
{
    match (a, b) {
        (Some(x), Some(y)) => x == y,
        (None, None) => true,
        _ => false,
    }
}

fn orders_in_scope(notes: &Vec<Note>, tab_id: Option<i64>, parent_id: Option<i64>) -> (orders: Vec<
    Option<i64>,
>)
    ensures
        lifted(orders@) == scope_orders(note_views(notes@), lift(tab_id), lift(parent_id)),
{
    let ghost views = note_views(notes@);
    let mut orders: Vec<Option<i64>> = Vec::new();
    let mut i: usize = 0;
    assert(views.take(0) =~= Seq::empty());
    assert(lifted(orders@) =~= scope_orders(views.take(0), lift(tab_id), lift(parent_id))) by {
        reveal(Seq::filter);
    }
    while i < notes.len()
        invariant
            i <= notes.len(),
            views == note_views(notes@),
            lifted(orders@) == scope_orders(views.take(i as int), lift(tab_id), lift(parent_id)),
        decreases notes.len() - i,
    {
        proof {
            assert(views.take(i + 1) =~= views.take(i as int).push(views[i as int]));
            lemma_scope_orders_push(
                views.take(i as int),
                views[i as int],
                lift(tab_id),
                lift(parent_id),
            );
        }
        if same_id(notes[i].tab_id, tab_id) && same_id(notes[i].parent_id, parent_id) {
            let ghost before = lifted(orders@);
            orders.push(notes[i].order_id);
            assert(lifted(orders@) =~= before.push(views[i as int].order_id));
        }
        i += 1;
    }
    assert(views.take(i as int) =~= views);
    orders
}

/// Creates a note in the scope of `tab_id` and `parent_id` at the time `now`
/// and returns the row. Its identifier follows the greatest in use; its order
/// follows the greatest in its scope, and is 1 in a scope without one.
///
/// Fails, changing nothing, where the tab or the parent does not exist or the
/// order does not fit (`ConstraintViolation`), or where no identifier is left
/// (`Unavailable`).
pub fn create_note(
    store: &mut Store,
    title: String,
    content: String,
    tab_id: Option<i64>,
    parent_id: Option<i64>,
    note_type: String,
    now: String,
) -> (created: Result<Note, StoreError>)
    requires
        consistent(old(store)@),
    ensures
        consistent(final(store)@),
        forall|t: Option<int>, p: Option<int>|
            dense(scope_orders(old(store)@.notes, t, p)) ==> dense(
                #[trigger] scope_orders(final(store)@.notes, t, p),
            ),
        final(store)@.tabs == old(store)@.tabs,
        match created {
            Ok(note) => {
                &&& creation_refused(old(store)@, lift(tab_id), lift(parent_id)) is None
                &&& note@ == (NoteView {
                    id: fresh_note_id(old(store)@.notes),
                    title: title@,
                    content: content@,
                    tab_id: lift(tab_id),
                    parent_id: lift(parent_id),
                    order_id: Some(
                        order_for_new(old(store)@.notes, lift(tab_id), lift(parent_id)),
                    ),
                    note_type: note_type@,
                    created_at: now@,
                    updated_at: now@,
                })
                &&& final(store)@.notes == old(store)@.notes.push(note@)
                &&& has_note(final(store)@.notes, note@.id)
                &&& scope_orders(final(store)@.notes, lift(tab_id), lift(parent_id)) == appended(
                    scope_orders(old(store)@.notes, lift(tab_id), lift(parent_id)),
                )
            },
            Err(e) => {
                &&& creation_refused(old(store)@, lift(tab_id), lift(parent_id)) == Some(e)
                &&& final(store)@ == old(store)@
            },
        },
{
    if let Some(t) = tab_id {
        if find_tab(&store.tabs, t).is_none() {
            return Err(StoreError::ConstraintViolation);
        }
    }
    let parent_found = match parent_id {
        Some(p) => find_note(&store.notes, p).is_some(),
        None => true,
    };
    let orders = orders_in_scope(&store.notes, tab_id, parent_id);
    let order_id = match creation_outcome(parent_found, max_order_id(&orders)) {
        Ok(order_id) => order_id,
        Err(e) => {
            return Err(e);
        },
    };
    let count = store.notes.len();
    let id: i64 = if count == 0 {
        1
    } else {
        let last = store.notes[count - 1].id;
        if last == i64::MAX {
            return Err(StoreError::Unavailable);
        }
        last + 1
    };
    let note = Note {
        id,
        title,
        content,
        tab_id,
        parent_id,
        order_id: Some(order_id),
        note_type,
        created_at: now.clone(),
        updated_at: now,
    };
    store.notes.push(note.clone());
    proof {
        let before = old(store)@;
        let after = store@;
        assert(after.notes =~= before.notes.push(note@));
        assert(after.tabs =~= before.tabs);
        lemma_new_note_keeps_rules(before, note@);
        lemma_scope_orders_push(before.notes, note@, lift(tab_id), lift(parent_id));
        assert forall|t: Option<int>, p: Option<int>|
            dense(scope_orders(before.notes, t, p)) implies dense(
            #[trigger] scope_orders(after.notes, t, p),
        ) by {
            lemma_scope_orders_push(before.notes, note@, t, p);
            lemma_append_keeps_dense(scope_orders(before.notes, t, p));
        }
    }
    Ok(note)
}

/// Gives the note called `id` a new title and content at the time `now`. Its
/// place in the hierarchy and its order stay as they were.
///
/// Fails as `NotFound`, changing nothing, where no note has that identifier.
pub fn update_note(
    store: &mut Store,
    id: i64,
    title: String,
    content: String,
    now: String,
) -> (updated: Result<(), StoreError>)
    requires
        consistent(old(store)@),
    ensures
        consistent(final(store)@),
        forall|t: Option<int>, p: Option<int>|
            dense(scope_orders(old(store)@.notes, t, p)) ==> dense(
                #[trigger] scope_orders(final(store)@.notes, t, p),
            ),
        final(store)@.tabs == old(store)@.tabs,
        has_note(old(store)@.notes, id as int) ==> updated is Ok && final(store)@.notes
            == notes_after_rewrite(old(store)@.notes, id as int, title@, content@, now@),
        !has_note(old(store)@.notes, id as int) ==> updated == Err::<(), StoreError>(
            StoreError::NotFound,
        ) && final(store)@ == old(store)@,
{
    match find_note(&store.notes, id) {
        None => Err(StoreError::NotFound),
        Some(k) => {
            store.notes[k].title = title;
            store.notes[k].content = content;
            store.notes[k].updated_at = now;
            proof {
                let before = old(store)@;
                let after = store@;
                assert(before.notes[k as int].id == id);
                assert(after.notes =~= notes_after_rewrite(
                    before.notes,
                    id as int,
                    title@,
                    content@,
                    now@,
                ));
                assert(after.tabs =~= before.tabs);
                lemma_frame_keeps_rules(before.tabs, before.notes, after.tabs, after.notes);
                assert forall|t: Option<int>, p: Option<int>|
                    dense(scope_orders(before.notes, t, p)) implies dense(
                    #[trigger] scope_orders(after.notes, t, p),
                ) by {
                    lemma_rewrite_keeps_orders(
                        before.notes,
                        id as int,
                        title@,
                        content@,
                        now@,
                        t,
                        p,
                    );
                }
            }
            Ok(())
        },
    }
}

/// What a delete starts from.
enum Target {
    Note(i64),
    Tab(i64),
}

spec fn seed_of(target: Target) -> spec_fn(NoteView) -> bool {
    match target {
        Target::Note(id) => is_note(id as int),
        Target::Tab(id) => in_tab(id as int),
    }
}

fn is_picked(note: &Note, target: &Target) -> (picked: bool)
    ensures
        picked == seed_of(*target)(note@),
{
    match target {
        Target::Note(id) => note.id == *id,
        Target::Tab(id) => same_id(note.tab_id, Some(*id)),
    }
}

/// For each note, whether the delete takes it: the notes are walked in the
/// order of their creation, so a parent is decided before its children.
fn mark_swept(notes: &Vec<Note>, target: &Target) -> (marks: Vec<bool>)
    ensures
        marks@.len() == notes@.len(),
        forall|i: int|
            0 <= i < notes@.len() ==> marks@[i] == swept(note_views(notes@), seed_of(*target), i),
{
    let ghost views = note_views(notes@);
    let ghost seed = seed_of(*target);
    let mut marks: Vec<bool> = Vec::new();
    let mut i: usize = 0;
    while i < notes.len()
        invariant
            i <= notes.len(),
            views == note_views(notes@),
            seed == seed_of(*target),
            marks@.len() == i,
            forall|j: int| 0 <= j < i ==> marks@[j] == swept(views, seed, j),
        decreases notes.len() - i,
    {
        let mut gone = is_picked(&notes[i], target);
        if !gone {
            if let Some(p) = notes[i].parent_id {
                let mut k: usize = 0;
                while k < i && !gone
                    invariant
                        k <= i < notes.len(),
                        views == note_views(notes@),
                        marks@.len() == i,
                        notes@[i as int].parent_id == Some(p),
                        forall|j: int| 0 <= j < i ==> marks@[j] == swept(views, seed, j),
                        !gone ==> forall|j: int|
                            0 <= j < k ==> !(Some(#[trigger] views[j].id)
                                == views[i as int].parent_id && swept(views, seed, j)),
                        gone ==> swept(views, seed, i as int),
                    decreases i - k + (if gone { 0int } else { 1int }),
                {
                    if notes[k].id == p && marks[k] {
                        gone = true;
                        assert(Some(views[k as int].id) == views[i as int].parent_id);
                    } else {
                        k += 1;
                    }
                }
            }
        }
        marks.push(gone);
        i += 1;
    }
    marks
}

/// The notes that a delete leaves, copied in their old order.
fn sweep(notes: &Vec<Note>, target: &Target) -> (kept: Vec<Note>)
    requires
        note_ids_increase(note_views(notes@)),
    ensures
        note_views(kept@) == remaining(note_views(notes@), seed_of(*target)),
{
    let marks = mark_swept(notes, target);
    let ghost views = note_views(notes@);
    let ghost seed = seed_of(*target);
    let mut kept: Vec<Note> = Vec::new();
    let mut i: usize = 0;
    assert(views.take(0) =~= Seq::empty());
    assert(note_views(kept@) =~= views.take(0).filter(stays(views, seed))) by {
        reveal(Seq::filter);
    }
    while i < notes.len()
        invariant
            i <= notes.len(),
            views == note_views(notes@),
            note_ids_increase(views),
            marks@.len() == notes@.len(),
            forall|j: int| 0 <= j < notes@.len() ==> marks@[j] == swept(views, seed, j),
            note_views(kept@) == views.take(i as int).filter(stays(views, seed)),
        decreases notes.len() - i,
    {
        proof {
            assert(views.take(i + 1) =~= views.take(i as int).push(views[i as int]));
            views.take(i as int).lemma_filter_push(views[i as int], stays(views, seed));
            lemma_stays_iff_not_swept(views, seed, i as int);
        }
        if !marks[i] {
            let ghost before = note_views(kept@);
            kept.push(notes[i].clone());
            assert(note_views(kept@) =~= before.push(views[i as int]));
        }
        i += 1;
    }
    assert(views.take(i as int) =~= views);
    kept
}

/// Every tab but the one called `id`, copied in the old order.
fn tabs_except(tabs: &Vec<Tab>, id: i64) -> (kept: Vec<Tab>)
    ensures
        tab_views(kept@) == tabs_without(tab_views(tabs@), id as int),
{
    let ghost views = tab_views(tabs@);
    let ghost others = other_than(id as int);
    let mut kept: Vec<Tab> = Vec::new();
    let mut i: usize = 0;
    assert(views.take(0) =~= Seq::empty());
    assert(tab_views(kept@) =~= views.take(0).filter(others)) by {
        reveal(Seq::filter);
    }
    while i < tabs.len()
        invariant
            i <= tabs.len(),
            views == tab_views(tabs@),
            others == other_than(id as int),
            tab_views(kept@) == views.take(i as int).filter(others),
        decreases tabs.len() - i,
    {
        proof {
            assert(views.take(i + 1) =~= views.take(i as int).push(views[i as int]));
            views.take(i as int).lemma_filter_push(views[i as int], others);
        }
        if tabs[i].id != id {
            let ghost before = tab_views(kept@);
            kept.push(tabs[i].clone());
            assert(tab_views(kept@) =~= before.push(views[i as int]));
        }
        i += 1;
    }
    assert(views.take(i as int) =~= views);
    kept
}

/// Moves up by one every sibling that came behind a note that has gone, so
/// that the note leaves no gap among them.
fn close_gap(
    notes: &mut Vec<Note>,
    tab_id: Option<i64>,
    parent_id: Option<i64>,
    gone: Option<i64>,
    Ghost(left): Ghost<NoteView>,
)
    requires
        left.tab_id == lift(tab_id),
        left.parent_id == lift(parent_id),
        left.order_id == lift(gone),
    ensures
        note_views(final(notes)@) == gap_closed(note_views(old(notes)@), left),
{
    let ghost before = note_views(notes@);
    let mut i: usize = 0;
    while i < notes.len()
        invariant
            i <= notes.len(),
            before == note_views(old(notes)@),
            notes@.len() == before.len(),
            left.tab_id == lift(tab_id),
            left.parent_id == lift(parent_id),
            left.order_id == lift(gone),
            forall|k: int| 0 <= k < i ==> (#[trigger] notes@[k])@ == gap_closed(before, left)[k],
            forall|k: int| i <= k < before.len() ==> (#[trigger] notes@[k])@ == before[k],
        decreases notes.len() - i,
    {
        if same_id(notes[i].tab_id, tab_id) && same_id(notes[i].parent_id, parent_id) {
            if let (Some(order), Some(behind)) = (notes[i].order_id, gone) {
                if order > behind {
                    notes[i].order_id = Some(order - 1);
                }
            }
        }
        i += 1;
    }
    assert(note_views(notes@) =~= gap_closed(before, left));
}

/// Deletes the note called `id`, and with it every note below it. The
/// siblings that came behind the note move up by one, so that a scope that
/// was dense is dense again.
///
/// Fails as `NotFound`, changing nothing, where no note has that identifier.
pub fn delete_note(store: &mut Store, id: i64) -> (deleted: Result<(), StoreError>)
    requires
        consistent(old(store)@),
    ensures
        consistent(final(store)@),
        forall|t: Option<int>, p: Option<int>|
            dense(scope_orders(old(store)@.notes, t, p)) ==> dense(
                #[trigger] scope_orders(final(store)@.notes, t, p),
            ),
        final(store)@.tabs == old(store)@.tabs,
        has_note(old(store)@.notes, id as int) ==> deleted is Ok && final(store)@.notes
            == notes_after_delete(old(store)@.notes, id as int),
        !has_note(old(store)@.notes, id as int) ==> deleted == Err::<(), StoreError>(
            StoreError::NotFound,
        ) && final(store)@ == old(store)@,
{
    let at = match find_note(&store.notes, id) {
        Some(at) => at,
        None => {
            return Err(StoreError::NotFound);
        },
    };
    let tab_id = store.notes[at].tab_id;
    let parent_id = store.notes[at].parent_id;
    let gone = store.notes[at].order_id;
    let ghost left = store@.notes[at as int];
    let target = Target::Note(id);
    let mut kept = sweep(&store.notes, &target);
    close_gap(&mut kept, tab_id, parent_id, gone, Ghost(left));
    store.notes = kept;
    proof {
        let before = old(store)@;
        let after = store@;
        let swept_out = remaining(before.notes, is_note(id as int));
        let k = choose|k: int| 0 <= k < before.notes.len() && before.notes[k].id == id as int;
        lemma_notes_occur_once(before.notes, k, at as int);
        assert(note_called(before.notes, id as int) == left);
        lemma_remaining_keeps_rules(before.tabs, before.notes, before.tabs, is_note(id as int));
        lemma_frame_keeps_rules(before.tabs, swept_out, after.tabs, after.notes);
        assert forall|t: Option<int>, p: Option<int>|
            dense(scope_orders(before.notes, t, p)) implies dense(
            #[trigger] scope_orders(after.notes, t, p),
        ) by {
            lemma_delete_note_keeps_dense(before.notes, id as int, t, p);
        }
    }
    Ok(())
}

/// Deletes the tab called `id`, and with it every note of the tab and every
/// note below one of those.
///
/// Fails as `NotFound`, changing nothing, where no tab has that identifier.
pub fn delete_tab(store: &mut Store, id: i64) -> (deleted: Result<(), StoreError>)
    requires
        consistent(old(store)@),
    ensures
        consistent(final(store)@),
        forall|t: Option<int>, p: Option<int>|
            dense(scope_orders(old(store)@.notes, t, p)) ==> dense(
                #[trigger] scope_orders(final(store)@.notes, t, p),
            ),
        has_tab(old(store)@.tabs, id as int) ==> deleted is Ok && final(store)@.tabs
            == tabs_without(old(store)@.tabs, id as int) && final(store)@.notes == remaining(
            old(store)@.notes,
            in_tab(id as int),
        ),
        !has_tab(old(store)@.tabs, id as int) ==> deleted == Err::<(), StoreError>(
            StoreError::NotFound,
        ) && final(store)@ == old(store)@,
{
    if find_tab(&store.tabs, id).is_none() {
        return Err(StoreError::NotFound);
    }
    let kept_tabs = tabs_except(&store.tabs, id);
    let target = Target::Tab(id);
    let kept_notes = sweep(&store.notes, &target);
    store.tabs = kept_tabs;
    store.notes = kept_notes;
    proof {
        let before = old(store)@;
        let after = store@;
        lemma_tabs_without(before.tabs, id as int);
        lemma_remaining_keeps_rules(before.tabs, before.notes, after.tabs, in_tab(id as int));
        assert forall|t: Option<int>, p: Option<int>|
            dense(scope_orders(before.notes, t, p)) implies dense(
            #[trigger] scope_orders(after.notes, t, p),
        ) by {
            lemma_delete_tab_keeps_dense(before.notes, id as int, t, p);
        }
    }
    Ok(())
}

/// Lists the notes of the tab `tab_id`, or those of no tab where it is
/// `None`, sorted by order. The notes without an order come first; notes of
/// one order, or without one, are listed by identifier.
pub fn get_notes(store: &Store, tab_id: Option<i64>) -> (notes: Result<Vec<Note>, StoreError>)
    requires
        consistent(store@),
    ensures
        notes is Ok,
        is_listing(store@.notes, lift(tab_id), note_views(notes->Ok_0@)),
{
    let ghost views = store@.notes;
    let mut listing: Vec<Note> = Vec::new();
    let mut i: usize = 0;
    assert(views.take(0) =~= Seq::empty());
    while i < store.notes.len()
        invariant
            i <= store.notes.len(),
            views == note_views(store.notes@),
            note_ids_increase(views),
            in_listing_order(note_views(listing@)),
            forall|v: NoteView| #[trigger]
                note_views(listing@).contains(v) <==> views.take(i as int).contains(v) && v.tab_id
                    == lift(tab_id),
        decreases store.notes.len() - i,
    {
        proof {
            lemma_take_holds(views, i as int);
        }
        if same_id(store.notes[i].tab_id, tab_id) {
            let ghost listed = note_views(listing@);
            let ghost entry = views[i as int];
            assert forall|a: int| 0 <= a < listed.len() implies (#[trigger] listed[a]).id
                < entry.id by {
                assert(listed.contains(listed[a]));
                let j = choose|j: int|
                    0 <= j < views.take(i as int).len() && views.take(i as int)[j] == listed[a];
                assert(views[j].id < views[i as int].id);
            }
            let order = store.notes[i].order_id;
            let mut at: usize = 0;
            while at < listing.len() && !order_sorts_before(order, listing[at].order_id)
                invariant
                    at <= listing@.len(),
                    listed == note_views(listing@),
                    lift(order) == entry.order_id,
                    forall|a: int| 0 <= a < listed.len() ==> (#[trigger] listed[a]).id < entry.id,
                    forall|a: int| 0 <= a < at ==> listed_before(#[trigger] listed[a], entry),
                decreases listing@.len() - at,
            {
                at += 1;
            }
            listing.insert(at, store.notes[i].clone());
            proof {
                let after = note_views(listing@);
                assert(after =~= listed.insert(at as int, entry));
                lemma_insert_holds(listed, at as int, entry);
                assert forall|a: int, b: int| 0 <= a < b < after.len() implies listed_before(
                    #[trigger] after[a],
                    #[trigger] after[b],
                ) by {
                    if at < listed.len() {
                        assert(listed_before(entry, listed[at as int]));
                    }
                    if b < at {
                        assert(after[a] == listed[a] && after[b] == listed[b]);
                    } else if b == at {
                        assert(after[a] == listed[a]);
                    } else if a < at {
                        assert(after[a] == listed[a] && after[b] == listed[b - 1]);
                    } else if a == at {
                        assert(after[b] == listed[b - 1]);
                        if at < b - 1 {
                            assert(listed_before(listed[at as int], listed[b - 1]));
                        }
                    } else {
                        assert(after[a] == listed[a - 1] && after[b] == listed[b - 1]);
                    }
                }
            }
        }
        i += 1;
    }
    proof {
        assert(views.take(i as int) =~= views);
    }
    Ok(listing)
}

/// Puts the notes named in `note_ids` in the order listed: the note at
/// position `i` of the list gets order `i + 1`, and a note that is not listed
/// keeps its order. All of it happens or none of it: an empty list succeeds
/// and changes nothing.
///
/// Fails as `TransactionFailure`, changing nothing, where an identifier listed
/// names no note, or the list is too long for its positions to fit the column.
pub fn reorder_notes(store: &mut Store, note_ids: Vec<i64>) -> (outcome: Result<(), StoreError>)
    requires
        consistent(old(store)@),
    ensures
        consistent(final(store)@),
        final(store)@.tabs == old(store)@.tabs,
        all_present(old(store)@.notes, as_ints(note_ids@)) && note_ids@.len() <= i64::MAX
            ==> outcome is Ok && final(store)@.notes == reordered(
            old(store)@.notes,
            as_ints(note_ids@),
        ),
        !(all_present(old(store)@.notes, as_ints(note_ids@)) && note_ids@.len() <= i64::MAX)
            ==> outcome == Err::<(), StoreError>(StoreError::TransactionFailure) && final(store)@
            == old(store)@,
        note_ids@.len() == 0 ==> outcome is Ok && final(store)@ == old(store)@,
        forall|t: Option<int>, p: Option<int>|
            outcome is Ok && lists_whole_scope(old(store)@.notes, as_ints(note_ids@), t, p)
                ==> dense(#[trigger] scope_orders(final(store)@.notes, t, p)),
        forall|t: Option<int>, p: Option<int>|
            lists_none_of_scope(old(store)@.notes, as_ints(note_ids@), t, p)
                ==> #[trigger] scope_orders(final(store)@.notes, t, p) == scope_orders(
                old(store)@.notes,
                t,
                p,
            ),
{
    let ghost ids = as_ints(note_ids@);
    let ghost before = old(store)@;
    let plan = match reorder_plan(&note_ids) {
        Ok(plan) => plan,
        Err(e) => {
            return Err(e);
        },
    };
    let mut i: usize = 0;
    while i < note_ids.len()
        invariant
            i <= note_ids.len(),
            ids == as_ints(note_ids@),
            *store == *old(store),
            consistent(store@),
            forall|j: int| 0 <= j < i ==> has_note(store@.notes, #[trigger] ids[j]),
        decreases note_ids.len() - i,
    {
        if find_note(&store.notes, note_ids[i]).is_none() {
            assert(!has_note(store@.notes, ids[i as int]));
            return Err(StoreError::TransactionFailure);
        }
        i += 1;
    }
    assert(all_present(before.notes, ids));
    let mut i: usize = 0;
    assert(ids.take(0) =~= Seq::empty());
    assert(store@.notes =~= reordered(before.notes, ids.take(0)));
    while i < plan.len()
        invariant
            i <= plan.len(),
            ids == as_ints(note_ids@),
            before == old(store)@,
            planned(note_ids@, plan@),
            all_present(before.notes, ids),
            note_ids_increase(before.notes),
            store@.tabs == before.tabs,
            store@.notes == reordered(before.notes, ids.take(i as int)),
        decreases plan.len() - i,
    {
        let update = plan[i];
        let ghost current = store@.notes;
        proof {
            assert(update.note_id == note_ids@[i as int]);
            assert(has_note(before.notes, ids[i as int]));
            let w = choose|w: int|
                0 <= w < before.notes.len() && before.notes[w].id == ids[i as int];
            assert(current[w].id == update.note_id);
        }
        match find_note(&store.notes, update.note_id) {
            None => {
                assert(false);
            },
            Some(k) => {
                store.notes[k].order_id = Some(update.order_id);
                proof {
                    let longer = ids.take(i + 1);
                    assert(longer.drop_last() =~= ids.take(i as int));
                    assert(longer.last() == update.note_id);
                    let target = reordered(before.notes, longer);
                    assert(current[k as int].id == before.notes[k as int].id);
                    assert(before.notes[k as int].id == longer.last());
                    assert forall|j: int| 0 <= j < before.notes.len() implies store@.notes[j]
                        == target[j] by {
                        assert(current[j] == reordered(before.notes, ids.take(i as int))[j]);
                        if j != k {
                            assert(store@.notes[j] == current[j]);
                            if before.notes[j].id == before.notes[k as int].id {
                                lemma_notes_occur_once(before.notes, j, k as int);
                            }
                            assert(before.notes[j].id != longer.last());
                        } else {
                            assert(target[j].order_id == Some(longer.len() as int));
                            assert(store@.notes[j].order_id == Some(update.order_id as int));
                        }
                    }
                    assert(store@.notes =~= reordered(before.notes, longer));
                }
            },
        }
        i += 1;
    }
    proof {
        assert(ids.take(i as int) =~= ids);
        let after = store@;
        if note_ids@.len() == 0 {
            lemma_reorder_of_nothing(before.notes);
        }
        lemma_frame_keeps_rules(before.tabs, before.notes, after.tabs, after.notes);
        assert forall|t: Option<int>, p: Option<int>|
            lists_whole_scope(before.notes, ids, t, p) implies dense(
            #[trigger] scope_orders(after.notes, t, p),
        ) by {
            lemma_reorder_fills_scope(before.notes, ids, t, p);
        }
        assert forall|t: Option<int>, p: Option<int>|
            lists_none_of_scope(before.notes, ids, t, p) implies #[trigger] scope_orders(
            after.notes,
            t,
            p,
        ) == scope_orders(before.notes, t, p) by {
            lemma_reorder_spares_other_scopes(before.notes, ids, t, p);
        }
    }
    Ok(())
}

} // verus!

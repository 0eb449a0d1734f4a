//! The two persisted records, and the mathematical values that stand for them
//! in contracts.

use vstd::prelude::*;

verus! {

/// An optional machine integer as an optional mathematical integer.
pub open spec fn lift(value: Option<i64>) -> Option<int> {
    match value {
        Some(v) => Some(v as int),
        None => None,
    }
}

/// What a [`Tab`] is to a contract: its identifier and its texts as sequences
/// of characters.
pub struct TabView {
    pub id: int,
    pub name: Seq<char>,
    pub created_at: Seq<char>,
    pub updated_at: Seq<char>,
}

/// What a [`Note`] is to a contract.
pub struct NoteView {
    pub id: int,
    pub title: Seq<char>,
    pub content: Seq<char>,
    pub tab_id: Option<int>,
    pub parent_id: Option<int>,
    pub order_id: Option<int>,
    pub note_type: Seq<char>,
    pub created_at: Seq<char>,
    pub updated_at: Seq<char>,
}

/// A top-level container of notes.
#[derive(Debug, PartialEq, Eq)]
pub struct Tab {
    pub id: i64,
    pub name: String,
    pub created_at: String,
    pub updated_at: String,
}

/// A note. One without a parent sits directly in its tab; one with a parent is
/// a child of that note. `order_id` is its place among its siblings, absent on
/// rows that were never ordered.
#[derive(Debug, PartialEq, Eq)]
pub struct Note {
    pub id: i64,
    pub title: String,
    pub content: String,
    pub tab_id: Option<i64>,
    pub parent_id: Option<i64>,
    pub order_id: Option<i64>,
    pub note_type: String,
    pub created_at: String,
    pub updated_at: String,
}

impl View for Tab {
    type V = TabView;

    open spec fn view(&self) -> TabView {
        TabView {
            id: self.id as int,
            name: self.name@,
            created_at: self.created_at@,
            updated_at: self.updated_at@,
        }
    }
}

impl View for Note {
    type V = NoteView;

    open spec fn view(&self) -> NoteView {
        NoteView {
            id: self.id as int,
            title: self.title@,
            content: self.content@,
            tab_id: lift(self.tab_id),
            parent_id: lift(self.parent_id),
            order_id: lift(self.order_id),
            note_type: self.note_type@,
            created_at: self.created_at@,
            updated_at: self.updated_at@,
        }
    }
}

impl Clone for Tab {
    fn clone(&self) -> (copy: Self)
        ensures
            copy == *self,
    {
        Tab {
            id: self.id,
            name: self.name.clone(),
            created_at: self.created_at.clone(),
            updated_at: self.updated_at.clone(),
        }
    }
}

impl Clone for Note {
    fn clone(&self) -> (copy: Self)
        ensures
            copy == *self,
    {
        Note {
            id: self.id,
            title: self.title.clone(),
            content: self.content.clone(),
            tab_id: self.tab_id,
            parent_id: self.parent_id,
            order_id: self.order_id,
            note_type: self.note_type.clone(),
            created_at: self.created_at.clone(),
            updated_at: self.updated_at.clone(),
        }
    }
}

/// The views of a sequence of tabs, in the same order.
pub open spec fn tab_views(tabs: Seq<Tab>) -> Seq<TabView> {
    Seq::new(tabs.len(), |i: int| tabs[i]@)
}

/// The views of a sequence of notes, in the same order.
pub open spec fn note_views(notes: Seq<Note>) -> Seq<NoteView> {
    Seq::new(notes.len(), |i: int| notes[i]@)
}

} // verus!

//! What the storage engine is told on start: where the store's file is, how
//! each connection is set up, and which relations there are. Every statement
//! of the schema creates its object only where it is absent, so the whole
//! list can be run on each start, against a new file or one from an earlier
//! run.

use vstd::prelude::*;
use vstd::string::StringExecFns;

verus! {

/// The settings each new connection is given: a write-ahead journal for one
/// writer and many readers, enforced foreign keys, incremental reclaiming of
/// free pages, and fresh statistics.
pub const CONNECTION_SETUP: &'static str =
    "PRAGMA journal_mode = WAL; PRAGMA foreign_keys = ON; PRAGMA auto_vacuum = \
     INCREMENTAL; PRAGMA optimize;";

/// Creates the relation of tabs.
pub const CREATE_TABS: &'static str =
    "CREATE TABLE IF NOT EXISTS tabs (id INTEGER PRIMARY KEY, name TEXT NOT NULL, \
     created_at TEXT DEFAULT (datetime('now')), updated_at TEXT DEFAULT \
     (datetime('now')))";

/// Creates the relation of notes. Deleting a tab deletes its notes, and
/// deleting a note deletes the notes below it.
pub const CREATE_NOTES: &'static str =
    "CREATE TABLE IF NOT EXISTS notes (id INTEGER PRIMARY KEY, title TEXT NOT NULL, \
     content TEXT, tab_id INTEGER, parent_id INTEGER, order_id INTEGER, note_type \
     TEXT, created_at TEXT DEFAULT (datetime('now')), updated_at TEXT DEFAULT \
     (datetime('now')), FOREIGN KEY (tab_id) REFERENCES tabs(id) ON DELETE CASCADE, \
     FOREIGN KEY (parent_id) REFERENCES notes(id) ON DELETE CASCADE)";

/// Creates the index that serves the scan of one ordering scope in its
/// order.
pub const CREATE_SCOPE_INDEX: &'static str =
    "CREATE INDEX IF NOT EXISTS idx_notes_tab_parent_order ON notes(tab_id, \
     parent_id, order_id)";

/// Whether a statement creates a relation or an index only where it is
/// absent.
pub open spec fn creates_if_absent(statement: Seq<char>) -> bool {
    ||| "CREATE TABLE IF NOT EXISTS "@.is_prefix_of(statement)
    ||| "CREATE INDEX IF NOT EXISTS "@.is_prefix_of(statement)
}

/// A path with every backslash turned into a slash.
pub open spec fn with_slashes(path: Seq<char>) -> Seq<char> {
    Seq::new(
        path.len(),
        |i: int|
            if path[i] == '\\' {
                '/'
            } else {
                path[i]
            },
    )
}

/// Calls `str::replace` with the pattern `"\\"` and the replacement `"/"`.
///
/// Not proved: that the text returned is the path with each backslash
/// replaced by a slash and every other character kept.
#[verifier::external_body]
fn replace_backslashes(path: &str) -> (text: String)
    ensures
        text@ == with_slashes(path@),
{
    path.replace("\\", "/")
}

/// The address under which the storage engine opens the file at `path`,
/// creating it where it is absent: the path with slashes for backslashes,
/// between `sqlite://` and `?mode=rwc`.
pub fn database_url(path: &str) -> (url: String)
    ensures
        url@ == "sqlite://"@ + with_slashes(path@) + "?mode=rwc"@,
{
    let slashed = replace_backslashes(path);
    String::from_str("sqlite://").concat(slashed.as_str()).concat("?mode=rwc")
}

/// The settings each new connection is given.
pub fn connection_setup() -> (statement: &'static str)
    ensures
        statement@ == CONNECTION_SETUP@,
{
    CONNECTION_SETUP
}

/// The statements that bring the schema about, in the order in which they
/// must run: tabs before the notes that refer to them, notes before their
/// index. Each creates only what is absent, so none fails on, duplicates or
/// destroys what an earlier run left.
pub fn schema_statements() -> (statements: Vec<&'static str>)
    ensures
        statements@.len() == 3,
        statements@[0]@ == CREATE_TABS@,
        statements@[1]@ == CREATE_NOTES@,
        statements@[2]@ == CREATE_SCOPE_INDEX@,
        forall|i: int| 0 <= i < 3 ==> creates_if_absent(#[trigger] statements@[i]@),
{
    let mut statements: Vec<&'static str> = Vec::new();
    statements.push(CREATE_TABS);
    statements.push(CREATE_NOTES);
    statements.push(CREATE_SCOPE_INDEX);
    proof {
        lemma_statements_create_if_absent();
    }
    statements
}

/// Each statement of the schema creates its object only where it is absent.
pub proof fn lemma_statements_create_if_absent()
    ensures
        creates_if_absent(CREATE_TABS@),
        creates_if_absent(CREATE_NOTES@),
        creates_if_absent(CREATE_SCOPE_INDEX@),
{
    reveal_strlit("CREATE TABLE IF NOT EXISTS ");
    reveal_strlit("CREATE INDEX IF NOT EXISTS ");
    reveal_strlit(
        "CREATE TABLE IF NOT EXISTS tabs (id INTEGER PRIMARY KEY, name TEXT NOT NULL, \
         created_at TEXT DEFAULT (datetime('now')), updated_at TEXT DEFAULT \
         (datetime('now')))",
    );
    reveal_strlit(
        "CREATE TABLE IF NOT EXISTS notes (id INTEGER PRIMARY KEY, title TEXT NOT \
         NULL, content TEXT, tab_id INTEGER, parent_id INTEGER, order_id INTEGER, \
         note_type TEXT, created_at TEXT DEFAULT (datetime('now')), updated_at TEXT \
         DEFAULT (datetime('now')), FOREIGN KEY (tab_id) REFERENCES tabs(id) ON \
         DELETE CASCADE, FOREIGN KEY (parent_id) REFERENCES notes(id) ON DELETE \
         CASCADE)",
    );
    reveal_strlit(
        "CREATE INDEX IF NOT EXISTS idx_notes_tab_parent_order ON notes(tab_id, \
         parent_id, order_id)",
    );
    let table = "CREATE TABLE IF NOT EXISTS "@;
    let index = "CREATE INDEX IF NOT EXISTS "@;
    assert(table =~= CREATE_TABS@.subrange(0, table.len() as int));
    assert(table =~= CREATE_NOTES@.subrange(0, table.len() as int));
    assert(index =~= CREATE_SCOPE_INDEX@.subrange(0, index.len() as int));
}

} // verus!

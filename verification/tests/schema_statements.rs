use focusboard::schema::{connection_setup, database_url, schema_statements};

#[test]
fn schema_has_tabs_before_notes_before_the_index() {
    let statements = schema_statements();
    assert_eq!(statements.len(), 3);
    assert!(statements[0].starts_with("CREATE TABLE IF NOT EXISTS tabs "));
    assert!(statements[1].starts_with("CREATE TABLE IF NOT EXISTS notes "));
    assert!(statements[2].starts_with("CREATE INDEX IF NOT EXISTS idx_notes_tab_parent_order "));
}

#[test]
fn every_statement_creates_only_what_is_absent() {
    for statement in schema_statements() {
        assert!(statement.contains(" IF NOT EXISTS "));
        assert!(!statement.contains("DROP"));
        assert!(!statement.contains("DELETE FROM"));
    }
}

#[test]
fn notes_cascade_from_their_tab_and_their_parent() {
    let notes = schema_statements()[1];
    assert!(notes.contains("FOREIGN KEY (tab_id) REFERENCES tabs(id) ON DELETE CASCADE"));
    assert!(notes.contains("FOREIGN KEY (parent_id) REFERENCES notes(id) ON DELETE CASCADE"));
}

#[test]
fn index_covers_the_scope_and_the_order() {
    assert!(schema_statements()[2].ends_with("ON notes(tab_id, parent_id, order_id)"));
}

#[test]
fn connections_enforce_foreign_keys_and_journal_ahead() {
    let setup = connection_setup();
    assert!(setup.contains("PRAGMA journal_mode = WAL;"));
    assert!(setup.contains("PRAGMA foreign_keys = ON;"));
    assert!(setup.contains("PRAGMA auto_vacuum = INCREMENTAL;"));
    assert!(setup.contains("PRAGMA optimize;"));
}

#[test]
fn database_url_uses_slashes() {
    assert_eq!(
        database_url("C:\\Users\\me\\database\\data.db"),
        "sqlite://C:/Users/me/database/data.db?mode=rwc"
    );
    assert_eq!(
        database_url("/home/me/.local/share/database/data.db"),
        "sqlite:///home/me/.local/share/database/data.db?mode=rwc"
    );
    assert_eq!(database_url(""), "sqlite://?mode=rwc");
    assert_eq!(database_url("\\"), "sqlite:///?mode=rwc");
}

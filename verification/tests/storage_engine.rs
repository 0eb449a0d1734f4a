use focusboard::error::{mutation_outcome, StoreError};
use focusboard::lifecycle::{drain_statement, Action, Coordinator, Event};
use focusboard::ordering::{next_order_id, reorder_plan};
use focusboard::schema::{connection_setup, schema_statements};
use focusboard::store::{
    create_note, create_tab, delete_note, delete_tab, get_notes, get_tabs, reorder_notes,
    update_note, Store,
};
use focusboard::transaction::{
    begin_delete, begin_reorder, continue_delete, continue_reorder, DeleteOutcome, DeleteStep,
    Outcome, Place, Step,
};
use sqlx::sqlite::SqlitePoolOptions;
use sqlx::{Executor, SqlitePool};
use std::future::Future;

fn run<T>(work: impl Future<Output = T>) -> T {
    tokio::runtime::Builder::new_current_thread().enable_all().build().unwrap().block_on(work)
}

async fn apply_schema(pool: &SqlitePool) {
    for statement in schema_statements() {
        sqlx::query(statement).execute(pool).await.unwrap();
    }
}

async fn open_at(address: &str, connections: u32) -> SqlitePool {
    let pool = SqlitePoolOptions::new()
        .max_connections(connections)
        .after_connect(|conn, _| {
            Box::pin(async move {
                conn.execute(sqlx::query(connection_setup())).await?;
                Ok(())
            })
        })
        .connect(address)
        .await
        .unwrap();
    apply_schema(&pool).await;
    pool
}

async fn open() -> SqlitePool {
    open_at("sqlite::memory:", 1).await
}

async fn insert_tab(pool: &SqlitePool, name: &str) -> i64 {
    let row: (i64,) = sqlx::query_as("INSERT INTO tabs (name) VALUES (?) RETURNING id")
        .bind(name)
        .fetch_one(pool)
        .await
        .unwrap();
    row.0
}

async fn insert_note(
    pool: &SqlitePool,
    title: &str,
    tab_id: Option<i64>,
    parent_id: Option<i64>,
) -> (i64, i64) {
    let mut transaction = pool.begin_with("BEGIN IMMEDIATE").await.unwrap();
    let greatest: Option<(Option<i64>,)> = sqlx::query_as(
        "SELECT MAX(order_id) FROM notes WHERE tab_id IS NOT DISTINCT FROM ? AND parent_id IS NOT DISTINCT FROM ?",
    )
    .bind(tab_id)
    .bind(parent_id)
    .fetch_optional(&mut *transaction)
    .await
    .unwrap();
    let order = next_order_id(greatest.and_then(|r| r.0)).unwrap();
    let row: (i64,) = sqlx::query_as(
        "INSERT INTO notes (title, content, tab_id, parent_id, order_id, note_type) VALUES (?, '', ?, ?, ?, 'text') RETURNING id",
    )
    .bind(title)
    .bind(tab_id)
    .bind(parent_id)
    .bind(order)
    .fetch_one(&mut *transaction)
    .await
    .unwrap();
    transaction.commit().await.unwrap();
    (row.0, order)
}

async fn orders(pool: &SqlitePool) -> Vec<(i64, Option<i64>)> {
    sqlx::query_as("SELECT id, order_id FROM notes ORDER BY id ASC").fetch_all(pool).await.unwrap()
}

async fn count(pool: &SqlitePool, relation: &str) -> i64 {
    let row: (i64,) =
        sqlx::query_as(&format!("SELECT COUNT(*) FROM {}", relation)).fetch_one(pool).await.unwrap();
    row.0
}

async fn reorder(pool: &SqlitePool, ids: Vec<i64>) -> (Vec<Step>, Result<(), StoreError>) {
    let plan = reorder_plan(&ids).unwrap();
    let (mut stage, mut step) = begin_reorder(&plan);
    let mut steps = vec![step];
    let mut transaction = None;
    loop {
        let outcome = match step {
            Step::Begin => {
                transaction = Some(pool.begin().await.unwrap());
                Outcome::Succeeded { rows_affected: 0 }
            }
            Step::Apply(update) => {
                let open = transaction.as_mut().unwrap();
                let done = sqlx::query("UPDATE notes SET order_id = ? WHERE id = ?")
                    .bind(update.order_id)
                    .bind(update.note_id)
                    .execute(&mut **open)
                    .await;
                match done {
                    Ok(done) => Outcome::Succeeded { rows_affected: done.rows_affected() },
                    Err(_) => Outcome::Failed,
                }
            }
            Step::Commit => match transaction.take().unwrap().commit().await {
                Ok(()) => Outcome::Succeeded { rows_affected: 0 },
                Err(_) => Outcome::Failed,
            },
            Step::Rollback => match transaction.take().unwrap().rollback().await {
                Ok(()) => Outcome::Succeeded { rows_affected: 0 },
                Err(_) => Outcome::Failed,
            },
            Step::ReportDone | Step::Nothing => return (steps, Ok(())),
            Step::ReportFailed(kind) => return (steps, Err(kind)),
        };
        (stage, step) = continue_reorder(&plan, stage, outcome);
        steps.push(step);
    }
}

async fn delete(pool: &SqlitePool, id: i64) -> (Vec<DeleteStep>, Result<(), StoreError>) {
    let (mut stage, mut step) = begin_delete();
    let mut steps = vec![step];
    let mut transaction = None;
    loop {
        let outcome = match step {
            DeleteStep::Begin => {
                transaction = Some(pool.begin_with("BEGIN IMMEDIATE").await.unwrap());
                DeleteOutcome::Succeeded { rows_affected: 0 }
            }
            DeleteStep::Find(note) => {
                let open = transaction.as_mut().unwrap();
                let found: Option<(Option<i64>, Option<i64>, Option<i64>)> =
                    sqlx::query_as("SELECT tab_id, parent_id, order_id FROM notes WHERE id = ?")
                        .bind(note)
                        .fetch_optional(&mut **open)
                        .await
                        .unwrap();
                match found {
                    Some((tab_id, parent_id, order_id)) => {
                        DeleteOutcome::Found(Place { tab_id, parent_id, order_id })
                    }
                    None => DeleteOutcome::Missing,
                }
            }
            DeleteStep::Delete(note) => {
                let open = transaction.as_mut().unwrap();
                let done = sqlx::query("DELETE FROM notes WHERE id = ?")
                    .bind(note)
                    .execute(&mut **open)
                    .await
                    .unwrap();
                DeleteOutcome::Succeeded { rows_affected: done.rows_affected() }
            }
            DeleteStep::CloseGap { tab_id, parent_id, behind } => {
                let open = transaction.as_mut().unwrap();
                let done = sqlx::query(
                    "UPDATE notes SET order_id = order_id - 1 WHERE tab_id IS NOT DISTINCT FROM ? AND parent_id IS NOT DISTINCT FROM ? AND order_id > ?",
                )
                .bind(tab_id)
                .bind(parent_id)
                .bind(behind)
                .execute(&mut **open)
                .await
                .unwrap();
                DeleteOutcome::Succeeded { rows_affected: done.rows_affected() }
            }
            DeleteStep::Commit => match transaction.take().unwrap().commit().await {
                Ok(()) => DeleteOutcome::Succeeded { rows_affected: 0 },
                Err(_) => DeleteOutcome::Failed,
            },
            DeleteStep::Rollback => match transaction.take().unwrap().rollback().await {
                Ok(()) => DeleteOutcome::Succeeded { rows_affected: 0 },
                Err(_) => DeleteOutcome::Failed,
            },
            DeleteStep::ReportDone | DeleteStep::Nothing => return (steps, Ok(())),
            DeleteStep::ReportFailed(kind) => return (steps, Err(kind)),
        };
        (stage, step) = continue_delete(id, stage, outcome);
        steps.push(step);
    }
}

#[test]
fn engine_delete_closes_the_gap() {
    run(async {
        let pool = open().await;
        let tab = insert_tab(&pool, "Inbox").await;
        for name in ["one", "two", "three", "four"] {
            insert_note(&pool, name, Some(tab), None).await;
        }
        insert_note(&pool, "below two", Some(tab), Some(2)).await;
        insert_note(&pool, "elsewhere", None, None).await;
        let (steps, done) = delete(&pool, 2).await;
        assert_eq!(done, Ok(()));
        assert_eq!(
            steps,
            vec![
                DeleteStep::Begin,
                DeleteStep::Find(2),
                DeleteStep::Delete(2),
                DeleteStep::CloseGap { tab_id: Some(tab), parent_id: None, behind: 2 },
                DeleteStep::Commit,
                DeleteStep::ReportDone,
            ]
        );
        assert_eq!(
            orders(&pool).await,
            vec![(1, Some(1)), (3, Some(2)), (4, Some(3)), (6, Some(1))]
        );
    });
}

#[test]
fn engine_delete_of_a_missing_note_is_not_found() {
    run(async {
        let pool = open().await;
        insert_note(&pool, "one", None, None).await;
        let before = orders(&pool).await;
        let (steps, done) = delete(&pool, 99).await;
        assert_eq!(done, Err(StoreError::NotFound));
        assert_eq!(
            steps,
            vec![
                DeleteStep::Begin,
                DeleteStep::Find(99),
                DeleteStep::Rollback,
                DeleteStep::ReportFailed(StoreError::NotFound),
            ]
        );
        assert_eq!(orders(&pool).await, before);
    });
}

#[test]
fn engine_lists_rows_without_order_first() {
    run(async {
        let pool = open().await;
        for (id, order) in [(1, Some(2)), (2, None), (3, Some(-1)), (4, None), (5, Some(0))] {
            sqlx::query(
                "INSERT INTO notes (id, title, content, order_id, note_type) VALUES (?, 't', '', ?, 'text')",
            )
            .bind(id)
            .bind(order)
            .execute(&pool)
            .await
            .unwrap();
        }
        let listed: Vec<i64> = engine_listing(&pool, None).await.iter().map(|n| n.0).collect();
        assert_eq!(listed, vec![2, 4, 3, 5, 1]);
        let rows = [(1, Some(2)), (2, None), (3, Some(-1)), (4, None), (5, Some(0))]
            .iter()
            .map(|(id, order)| focusboard::model::Note {
                id: *id,
                title: "t".to_string(),
                content: String::new(),
                tab_id: None,
                parent_id: None,
                order_id: *order,
                note_type: "text".to_string(),
                created_at: String::new(),
                updated_at: String::new(),
            })
            .collect();
        let store = Store::from_rows(vec![], rows).unwrap();
        assert_eq!(model_listing(&store, None), engine_listing(&pool, None).await);
    });
}

#[test]
fn engine_accepts_the_schema_on_every_start() {
    run(async {
        let pool = open().await;
        let tab = insert_tab(&pool, "Inbox").await;
        insert_note(&pool, "kept", Some(tab), None).await;
        apply_schema(&pool).await;
        apply_schema(&pool).await;
        assert_eq!(count(&pool, "tabs").await, 1);
        assert_eq!(count(&pool, "notes").await, 1);
    });
}

#[test]
fn engine_fills_a_scope_with_orders_one_to_n() {
    run(async {
        let pool = open().await;
        let tab = insert_tab(&pool, "Inbox").await;
        let other = insert_tab(&pool, "Later").await;
        let mut given = Vec::new();
        for i in 0..12 {
            given.push(insert_note(&pool, &format!("n{}", i), Some(tab), None).await.1);
            insert_note(&pool, &format!("o{}", i), Some(other), None).await;
        }
        let expected: Vec<i64> = (1..=12).collect();
        assert_eq!(given, expected);
    });
}

#[test]
fn engine_gives_concurrent_creates_consecutive_orders() {
    let workers =
        tokio::runtime::Builder::new_multi_thread().worker_threads(4).enable_all().build().unwrap();
    workers.block_on(async {
        let pool = open_at("sqlite:file:concurrent_creates?mode=memory&cache=shared", 4).await;
        let mut callers = Vec::new();
        for caller in 0..8 {
            let pool = pool.clone();
            callers.push(tokio::spawn(async move {
                let mut given = Vec::new();
                for i in 0..5 {
                    given.push(insert_note(&pool, &format!("c{}n{}", caller, i), None, None).await.1);
                }
                given
            }));
        }
        let mut given = Vec::new();
        for caller in callers {
            given.extend(caller.await.unwrap());
        }
        given.sort();
        let expected: Vec<i64> = (1..=40).collect();
        assert_eq!(given, expected);
    });
}

#[test]
fn engine_deletes_a_tab_with_its_notes_and_their_descendants() {
    run(async {
        let pool = open().await;
        let tab = insert_tab(&pool, "Inbox").await;
        let (first, _) = insert_note(&pool, "first", Some(tab), None).await;
        insert_note(&pool, "second", Some(tab), None).await;
        insert_note(&pool, "below first", None, Some(first)).await;
        assert_eq!(count(&pool, "notes").await, 3);
        let done = sqlx::query("DELETE FROM tabs WHERE id = ?").bind(tab).execute(&pool).await.unwrap();
        assert_eq!(mutation_outcome(done.rows_affected()), Ok(()));
        assert_eq!(count(&pool, "tabs").await, 0);
        assert_eq!(count(&pool, "notes").await, 0);
    });
}

#[test]
fn engine_refuses_a_note_in_a_missing_tab() {
    run(async {
        let pool = open().await;
        let refused = sqlx::query(
            "INSERT INTO notes (title, content, tab_id, order_id, note_type) VALUES ('t', '', 7, 1, 'text')",
        )
        .execute(&pool)
        .await;
        assert!(refused.is_err());
        assert_eq!(count(&pool, "notes").await, 0);
    });
}

#[test]
fn engine_reorder_assigns_positions() {
    run(async {
        let pool = open().await;
        let tab = insert_tab(&pool, "Inbox").await;
        for name in ["one", "two", "three"] {
            insert_note(&pool, name, Some(tab), None).await;
        }
        let (steps, result) = reorder(&pool, vec![3, 1, 2]).await;
        assert_eq!(result, Ok(()));
        assert_eq!(steps.len(), 6);
        assert_eq!(orders(&pool).await, vec![(1, Some(2)), (2, Some(3)), (3, Some(1))]);
    });
}

#[test]
fn engine_reorder_interrupted_midway_changes_nothing() {
    run(async {
        let pool = open().await;
        let tab = insert_tab(&pool, "Inbox").await;
        for name in ["one", "two", "three"] {
            insert_note(&pool, name, Some(tab), None).await;
        }
        let before = orders(&pool).await;
        let (steps, result) = reorder(&pool, vec![3, 99, 2]).await;
        assert_eq!(result, Err(StoreError::TransactionFailure));
        assert_eq!(steps[steps.len() - 2], Step::Rollback);
        assert!(!steps.contains(&Step::Commit));
        assert_eq!(orders(&pool).await, before);
    });
}

#[test]
fn engine_reorder_of_nothing_opens_no_transaction() {
    run(async {
        let pool = open().await;
        insert_note(&pool, "one", None, None).await;
        let before = orders(&pool).await;
        let (steps, result) = reorder(&pool, vec![]).await;
        assert_eq!(result, Ok(()));
        assert_eq!(steps, vec![Step::ReportDone]);
        assert_eq!(orders(&pool).await, before);
    });
}

#[test]
fn engine_reports_missing_rows_alike_for_update_and_delete() {
    run(async {
        let pool = open().await;
        let updated = sqlx::query("UPDATE notes SET title = 'x' WHERE id = ?")
            .bind(99)
            .execute(&pool)
            .await
            .unwrap();
        let deleted_tab =
            sqlx::query("DELETE FROM tabs WHERE id = ?").bind(99).execute(&pool).await.unwrap();
        assert_eq!(mutation_outcome(updated.rows_affected()), Err(StoreError::NotFound));
        assert_eq!(mutation_outcome(deleted_tab.rows_affected()), Err(StoreError::NotFound));
        assert_eq!(delete(&pool, 99).await.1, Err(StoreError::NotFound));
    });
}

#[test]
fn engine_runs_every_drain_statement() {
    run(async {
        let pool = open().await;
        insert_note(&pool, "one", None, None).await;
        let mut coordinator = Coordinator::new();
        assert_eq!(coordinator.handle(Event::CloseRequested), Action::RefuseAndAnnounce);
        let mut event = Event::ObserversNotified;
        let mut ran = 0;
        loop {
            event = match coordinator.handle(event) {
                Action::Drain(step) => {
                    let done = sqlx::query(drain_statement(step)).execute(&pool).await;
                    assert!(done.is_ok());
                    ran += 1;
                    Event::StepFinished { succeeded: done.is_ok() }
                }
                Action::WaitGrace => Event::GraceElapsed,
                Action::Exit => break,
                other => panic!("unexpected action {:?}", other),
            };
        }
        assert_eq!(ran, 3);
        assert_eq!(count(&pool, "notes").await, 1);
    });
}

type Plain = (i64, String, Option<i64>, Option<i64>, Option<i64>);

async fn engine_listing(pool: &SqlitePool, tab_id: Option<i64>) -> Vec<Plain> {
    sqlx::query_as(
        "SELECT id, title, tab_id, parent_id, order_id FROM notes WHERE tab_id IS NOT DISTINCT FROM ? ORDER BY order_id ASC, id ASC",
    )
    .bind(tab_id)
    .fetch_all(pool)
    .await
    .unwrap()
}

fn model_listing(store: &Store, tab_id: Option<i64>) -> Vec<Plain> {
    get_notes(store, tab_id)
        .unwrap()
        .into_iter()
        .map(|n| (n.id, n.title, n.tab_id, n.parent_id, n.order_id))
        .collect()
}

async fn engine_create(
    pool: &SqlitePool,
    title: &str,
    tab_id: Option<i64>,
    parent_id: Option<i64>,
) -> bool {
    let mut transaction = pool.begin().await.unwrap();
    if let Some(parent) = parent_id {
        let found: Option<(i64,)> = sqlx::query_as("SELECT id FROM notes WHERE id = ?")
            .bind(parent)
            .fetch_optional(&mut *transaction)
            .await
            .unwrap();
        if found.is_none() {
            transaction.rollback().await.unwrap();
            return false;
        }
    }
    let greatest: Option<(Option<i64>,)> = sqlx::query_as(
        "SELECT MAX(order_id) FROM notes WHERE tab_id IS NOT DISTINCT FROM ? AND parent_id IS NOT DISTINCT FROM ?",
    )
    .bind(tab_id)
    .bind(parent_id)
    .fetch_optional(&mut *transaction)
    .await
    .unwrap();
    let order = next_order_id(greatest.and_then(|r| r.0)).unwrap();
    let inserted = sqlx::query(
        "INSERT INTO notes (title, content, tab_id, parent_id, order_id, note_type) VALUES (?, '', ?, ?, ?, 'text')",
    )
    .bind(title)
    .bind(tab_id)
    .bind(parent_id)
    .bind(order)
    .execute(&mut *transaction)
    .await;
    match inserted {
        Ok(_) => {
            transaction.commit().await.unwrap();
            true
        }
        Err(_) => {
            transaction.rollback().await.unwrap();
            false
        }
    }
}

#[test]
fn engine_and_memory_store_agree() {
    run(async {
        let pool = open().await;
        let mut store = Store::new();
        let mut seed: u64 = 0x2545_f491_4f6c_dd1d;
        let mut draw = |bound: u64| {
            seed ^= seed << 13;
            seed ^= seed >> 7;
            seed ^= seed << 17;
            seed % bound
        };
        let pick = |value: u64| if value == 0 { None } else { Some(value as i64) };
        for round in 0..300 {
            match draw(8) {
                0 => {
                    let name = format!("tab {}", round);
                    insert_tab(&pool, &name).await;
                    create_tab(&mut store, name, "now".to_string()).unwrap();
                }
                1 | 2 | 3 => {
                    let title = format!("note {}", round);
                    let tab = pick(draw(5));
                    let parent = pick(draw(12));
                    let stored = engine_create(&pool, &title, tab, parent).await;
                    let kept = create_note(
                        &mut store,
                        title,
                        String::new(),
                        tab,
                        parent,
                        "text".to_string(),
                        "now".to_string(),
                    );
                    assert_eq!(stored, kept.is_ok());
                }
                4 => {
                    let id = draw(14) as i64;
                    let (_, done) = delete(&pool, id).await;
                    assert_eq!(done, delete_note(&mut store, id));
                }
                5 => {
                    let id = draw(6) as i64;
                    let done = sqlx::query("DELETE FROM tabs WHERE id = ?")
                        .bind(id)
                        .execute(&pool)
                        .await
                        .unwrap();
                    assert_eq!(mutation_outcome(done.rows_affected()), delete_tab(&mut store, id));
                }
                6 => {
                    let ids: Vec<i64> = (0..draw(5)).map(|_| draw(12) as i64 + 1).collect();
                    let (_, done) = reorder(&pool, ids.clone()).await;
                    assert_eq!(done, reorder_notes(&mut store, ids));
                }
                _ => {
                    let id = draw(14) as i64;
                    let title = format!("renamed {}", round);
                    let done = sqlx::query("UPDATE notes SET title = ? WHERE id = ?")
                        .bind(&title)
                        .bind(id)
                        .execute(&pool)
                        .await
                        .unwrap();
                    assert_eq!(
                        mutation_outcome(done.rows_affected()),
                        update_note(&mut store, id, title, String::new(), "now".to_string())
                    );
                }
            }
            let tabs: Vec<(i64,)> =
                sqlx::query_as("SELECT id FROM tabs ORDER BY id ASC").fetch_all(&pool).await.unwrap();
            let tab_ids: Vec<i64> = tabs.iter().map(|t| t.0).collect();
            let kept_ids: Vec<i64> = get_tabs(&store).unwrap().iter().map(|t| t.id).collect();
            assert_eq!(tab_ids, kept_ids);
            for tab in 0..6 {
                assert_eq!(
                    engine_listing(&pool, pick(tab)).await,
                    model_listing(&store, pick(tab)),
                    "round {} tab {}",
                    round,
                    tab
                );
            }
        }
    });
}

use snippy::migrate::Migration;
use snippy::store::Connection;

fn script(identifier: &str, body: &str) -> Migration {
    Migration { identifier: String::from(identifier), body: String::from(body) }
}

#[test]
fn builtin_migrations_applied_once() {
    let db = Connection::open_in_memory().unwrap();
    let log = db.migration_log();
    assert_eq!(log.len(), 2);
    let schema = db.schema_history();
    assert_eq!(schema.len(), 2);
    assert!(schema[0].contains("CREATE TABLE snippets"));
}

#[test]
fn migration_idempotent() {
    let mut db = Connection::open_in_memory().unwrap();
    let log_once = db.migration_log();
    let schema_once = db.schema_history();
    db.apply_migrations(&snippy::store::builtin_migrations()).unwrap();
    assert_eq!(db.migration_log(), log_once);
    assert_eq!(db.schema_history(), schema_once);
}

#[test]
fn rename_does_not_rerun() {
    let mut db = Connection::open_in_memory().unwrap();
    db.apply_migrations(&vec![script("0003_first.sql", "ALTER TABLE snippets ADD tag TEXT;")])
        .unwrap();
    let log_before = db.migration_log();
    db.apply_migrations(&vec![script("0007_renamed.sql", "ALTER TABLE snippets ADD tag TEXT;")])
        .unwrap();
    assert_eq!(db.migration_log(), log_before);
    assert_eq!(db.schema_history().len(), 3);
}

#[test]
fn body_change_reruns_and_keeps_old_entry() {
    let mut db = Connection::open_in_memory().unwrap();
    db.apply_migrations(&vec![script("0003_tag.sql", "ALTER TABLE snippets ADD tag TEXT;")])
        .unwrap();
    let log_before = db.migration_log();
    db.apply_migrations(&vec![script("0003_tag.sql", "ALTER TABLE snippets ADD tags TEXT;")])
        .unwrap();
    let log_after = db.migration_log();
    assert_eq!(log_after.len(), log_before.len() + 1);
    // the old entry remains in place
    assert_eq!(&log_after[..log_before.len()], &log_before[..]);
}

#[test]
fn duplicate_script_in_one_run_executes_once() {
    let mut db = Connection::open_in_memory().unwrap();
    let body = "ALTER TABLE snippets ADD colour TEXT;";
    db.apply_migrations(&vec![script("a.sql", body), script("b.sql", body)]).unwrap();
    assert_eq!(db.migration_log().len(), 3);
    assert_eq!(db.schema_history().len(), 3);
}

#[test]
fn fingerprint_is_a_digest_not_the_body() {
    let mut db = Connection::open_in_memory().unwrap();
    let body = "ALTER TABLE snippets ADD note TEXT;";
    db.apply_migrations(&vec![script("note.sql", body)]).unwrap();
    let log = db.migration_log();
    let fp = log.last().unwrap();
    assert_ne!(fp.as_str(), body);
    assert_eq!(fp.len(), 64);
    assert!(fp.chars().all(|c| c.is_ascii_hexdigit()));
}

use qmind_sql::parser::Parser;
use qmind_sql::session::{check_read_only, session_action, BufferedWrite, SessionAction, TxnBuffer};

/// Runs statements through the session discipline, tracking whether a
/// transaction is open; returns each outcome.
fn drive(sqls: &[&str]) -> Vec<Result<SessionAction, String>> {
    let mut in_txn = false;
    let mut out = Vec::new();
    for sql in sqls {
        let stmts = Parser::parse(sql).unwrap();
        let r = session_action(&stmts[0], in_txn);
        match r {
            Ok(SessionAction::Begin) => in_txn = true,
            Ok(SessionAction::Commit) | Ok(SessionAction::Rollback) => in_txn = false,
            _ => {},
        }
        out.push(r);
    }
    out
}

#[test]
fn session_lifecycle_edges() {
    let r = drive(&[
        "CREATE TABLE t (id INTEGER)",
        "COMMIT",
        "ROLLBACK",
        "BEGIN",
        "BEGIN",
        "CREATE TABLE x (id INTEGER)",
        "CREATE INDEX ix ON t (id)",
        "INSERT INTO t VALUES (1)",
        "COMMIT",
        "COMMIT",
        "BEGIN",
        "ROLLBACK",
        "ROLLBACK",
    ]);
    assert_eq!(r[0], Ok(SessionAction::Run));
    assert!(r[1].as_ref().unwrap_err().contains("no transaction"));
    assert!(r[2].as_ref().unwrap_err().contains("no transaction"));
    assert_eq!(r[3], Ok(SessionAction::Begin));
    assert!(r[4].as_ref().unwrap_err().contains("already in progress"));
    assert!(r[5].as_ref().unwrap_err().contains("DDL"));
    assert!(r[6].as_ref().unwrap_err().contains("DDL"));
    assert_eq!(r[7], Ok(SessionAction::Run));
    assert_eq!(r[8], Ok(SessionAction::Commit));
    assert!(r[9].as_ref().unwrap_err().contains("no transaction"));
    assert_eq!(r[10], Ok(SessionAction::Begin));
    assert_eq!(r[11], Ok(SessionAction::Rollback));
    assert!(r[12].as_ref().unwrap_err().contains("no transaction"));
}

#[test]
fn transaction_keyword_variants() {
    let r = drive(&["BEGIN TRANSACTION", "COMMIT WORK", "BEGIN WORK", "ROLLBACK TRANSACTION", "COMMIT"]);
    assert_eq!(r[0], Ok(SessionAction::Begin));
    assert_eq!(r[1], Ok(SessionAction::Commit));
    assert_eq!(r[2], Ok(SessionAction::Begin));
    assert_eq!(r[3], Ok(SessionAction::Rollback));
    assert!(r[4].is_err());
}

#[test]
fn read_only_statements() {
    let check = |sql: &str| check_read_only(&Parser::parse(sql).unwrap()[0]);
    assert!(check("INSERT INTO t VALUES (1, 1, 1)").is_err());
    assert!(check("CREATE TABLE x (id INTEGER)").is_err());
    assert!(check("CREATE INDEX ix ON t (id)").is_err());
    assert!(check("SELECT * FROM t").is_ok());
    assert!(check("SHOW TABLES").is_ok());
}

fn write(t: &str, rid: u64) -> BufferedWrite {
    BufferedWrite { table: t.into(), rid, encoded: vec![rid as u8] }
}

#[test]
fn buffered_writes_commit_in_order_and_rollback_drops() {
    let mut b = TxnBuffer::new();
    assert_eq!(b.commit().err(), Some("no transaction in progress".to_string()));
    assert!(b.begin().is_ok());
    assert_eq!(b.begin().err(), Some("a transaction is already in progress".to_string()));
    b.buffer(vec![write("t", 1), write("t", 2)]);
    b.buffer(vec![write("u", 7)]);
    let ws = b.commit().unwrap();
    assert_eq!(ws.iter().map(|w| (w.table.clone(), w.rid)).collect::<Vec<_>>(),
        vec![("t".to_string(), 1), ("t".to_string(), 2), ("u".to_string(), 7)]);
    assert!(!b.open);
    assert!(b.begin().is_ok());
    b.buffer(vec![write("t", 3)]);
    assert!(b.rollback().is_ok());
    assert!(b.writes.is_empty());
    assert_eq!(b.rollback().err(), Some("no transaction in progress".to_string()));
}

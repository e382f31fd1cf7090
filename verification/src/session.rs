//! The transaction discipline of a session: which statements an explicit
//! transaction admits, and how BEGIN, COMMIT and ROLLBACK move a session in
//! and out of one.
use vstd::prelude::*;
use crate::engine::msg;
use crate::parser::{Statement, StatementV};

verus! {

/// What a statement asks of a session.
#[derive(Debug, PartialEq, Eq, Clone, Copy)]
pub enum SessionAction {
    /// Open an explicit transaction.
    Begin,
    /// Commit the open transaction.
    Commit,
    /// Discard the open transaction.
    Rollback,
    /// Run the statement (inside the open transaction, if any).
    Run,
}

/// Whether a statement changes the catalog.
pub open spec fn is_ddl(s: StatementV) -> bool {
    s is CreateTable || s is CreateIndex || s is DropIndex
}

/// The action a statement takes in a session that is (`in_txn`) or is not
/// in an explicit transaction; `None` where it is refused: BEGIN inside a
/// transaction, COMMIT or ROLLBACK outside one, DDL inside one.
pub open spec fn session_spec(s: StatementV, in_txn: bool) -> Option<SessionAction> {
    match s {
        StatementV::Begin => if in_txn { None } else { Some(SessionAction::Begin) },
        StatementV::Commit => if in_txn { Some(SessionAction::Commit) } else { None },
        StatementV::Rollback => if in_txn { Some(SessionAction::Rollback) } else { None },
        _ => if is_ddl(s) && in_txn { None } else { Some(SessionAction::Run) },
    }
}

/// Whether the session is in an explicit transaction after an action.
pub open spec fn in_txn_after(a: SessionAction, in_txn: bool) -> bool {
    match a {
        SessionAction::Begin => true,
        SessionAction::Commit => false,
        SessionAction::Rollback => false,
        SessionAction::Run => in_txn,
    }
}

/// The message a refused statement gets.
pub open spec fn refusal_msg(s: StatementV) -> Seq<char> {
    match s {
        StatementV::Begin => "a transaction is already in progress"@,
        StatementV::Commit => "no transaction in progress"@,
        StatementV::Rollback => "no transaction in progress"@,
        _ => "DDL is not supported inside an explicit transaction; commit or roll back first"@,
    }
}

/// Decide what a statement does in a session (see [`session_spec`]); a
/// refused statement gets [`refusal_msg`].
pub fn session_action(stmt: &Statement, in_txn: bool) -> (r: Result<SessionAction, String>)
    ensures
        match session_spec(stmt@, in_txn) {
            Some(a) => r == Ok::<SessionAction, String>(a),
            None => r matches Err(m) && m@ == refusal_msg(stmt@),
        },
{
    match stmt {
        Statement::Begin => {
            if in_txn {
                Err(msg("a transaction is already in progress"))
            } else {
                Ok(SessionAction::Begin)
            }
        },
        Statement::Commit => {
            if in_txn {
                Ok(SessionAction::Commit)
            } else {
                Err(msg("no transaction in progress"))
            }
        },
        Statement::Rollback => {
            if in_txn {
                Ok(SessionAction::Rollback)
            } else {
                Err(msg("no transaction in progress"))
            }
        },
        Statement::CreateTable { .. } | Statement::CreateIndex { .. } | Statement::DropIndex { .. } => {
            if in_txn {
                Err(msg("DDL is not supported inside an explicit transaction; commit or roll back first"))
            } else {
                Ok(SessionAction::Run)
            }
        },
        _ => Ok(SessionAction::Run),
    }
}

/// Whether a read-only connection may run a statement: SELECT and SHOW
/// TABLES only.
pub open spec fn read_only_spec(s: StatementV) -> bool {
    s is Select || s is ShowTables
}

/// Refuse a statement that needs a write connection.
pub fn check_read_only(stmt: &Statement) -> (r: Result<(), String>)
    ensures
        read_only_spec(stmt@) ==> r is Ok,
        !read_only_spec(stmt@) ==> (r matches Err(m) && m@ == "statement requires a write connection (use execute)"@),
{
    match stmt {
        Statement::Select(_) | Statement::ShowTables => Ok(()),
        _ => Err(msg("statement requires a write connection (use execute)")),
    }
}

/// BEGIN is accepted exactly outside a transaction and opens one; COMMIT
/// and ROLLBACK are accepted exactly inside one and close it; DDL is
/// accepted exactly outside one; every other accepted statement leaves the
/// session as it was.
pub proof fn lemma_session_lifecycle(s: StatementV, in_txn: bool)
    ensures
        s is Begin ==> (session_spec(s, in_txn) is Some <==> !in_txn),
        (s is Commit || s is Rollback) ==> (session_spec(s, in_txn) is Some <==> in_txn),
        is_ddl(s) ==> (session_spec(s, in_txn) is Some <==> !in_txn),
        session_spec(s, in_txn) matches Some(a) ==> in_txn_after(a, in_txn) == (if s is Begin {
            true
        } else if s is Commit || s is Rollback {
            false
        } else {
            in_txn
        }),
{
}

// ── a session's buffered writes ───────────────────────────────────────

/// One row write held back until COMMIT: table, row id and the encoded row
/// (a tombstone for a DELETE).
pub struct BufferedWrite {
    pub table: String,
    pub rid: u64,
    pub encoded: Vec<u8>,
}

/// Model of a buffered write.
pub open spec fn write_view(w: BufferedWrite) -> (Seq<char>, u64, Seq<u8>) {
    (w.table@, w.rid, w.encoded@)
}

/// Models of buffered writes.
pub open spec fn writes_view(ws: Seq<BufferedWrite>) -> Seq<(Seq<char>, u64, Seq<u8>)> {
    ws.map_values(|w: BufferedWrite| write_view(w))
}

/// A session's explicit transaction: whether one is open and the writes
/// its statements made, in order. COMMIT hands them all on; ROLLBACK drops
/// them; nothing is written outside a transaction through it.
pub struct TxnBuffer {
    pub open: bool,
    pub writes: Vec<BufferedWrite>,
}

impl TxnBuffer {
    /// A session with no transaction.
    pub fn new() -> (r: Self)
        ensures
            !r.open,
            r.writes@.len() == 0,
    {
        TxnBuffer { open: false, writes: Vec::new() }
    }

    /// BEGIN: opens a transaction with no write; refused while one is open.
    pub fn begin(&mut self) -> (r: Result<(), String>)
        ensures
            old(self).open ==> (r matches Err(m) && m@ == "a transaction is already in progress"@)
                && final(self).open == old(self).open && final(self).writes@ == old(self).writes@,
            !old(self).open ==> r is Ok && final(self).open && final(self).writes@.len() == 0,
    {
        if self.open {
            return Err(msg("a transaction is already in progress"));
        }
        self.open = true;
        self.writes = Vec::new();
        Ok(())
    }

    /// A statement's writes inside the open transaction, kept after the
    /// earlier ones.
    pub fn buffer(&mut self, ws: Vec<BufferedWrite>)
        requires
            old(self).open,
        ensures
            final(self).open,
            writes_view(final(self).writes@) == writes_view(old(self).writes@) + writes_view(ws@),
    {
        let mut ws = ws;
        let ghost w0 = writes_view(self.writes@);
        let ghost add = writes_view(ws@);
        self.writes.append(&mut ws);
        assert(writes_view(self.writes@) =~= w0 + add);
    }

    /// COMMIT: hands on every buffered write, in order, and closes the
    /// transaction; refused when none is open.
    pub fn commit(&mut self) -> (r: Result<Vec<BufferedWrite>, String>)
        ensures
            !old(self).open ==> (r matches Err(m) && m@ == "no transaction in progress"@)
                && !final(self).open && final(self).writes@ == old(self).writes@,
            old(self).open ==> (r matches Ok(ws) && writes_view(ws@) == writes_view(old(self).writes@))
                && !final(self).open && final(self).writes@.len() == 0,
    {
        if !self.open {
            return Err(msg("no transaction in progress"));
        }
        self.open = false;
        let mut out: Vec<BufferedWrite> = Vec::new();
        std::mem::swap(&mut out, &mut self.writes);
        Ok(out)
    }

    /// ROLLBACK: drops every buffered write and closes the transaction;
    /// refused when none is open.
    pub fn rollback(&mut self) -> (r: Result<(), String>)
        ensures
            !old(self).open ==> (r matches Err(m) && m@ == "no transaction in progress"@)
                && !final(self).open && final(self).writes@ == old(self).writes@,
            old(self).open ==> r is Ok && !final(self).open && final(self).writes@.len() == 0,
    {
        if !self.open {
            return Err(msg("no transaction in progress"));
        }
        self.open = false;
        self.writes = Vec::new();
        Ok(())
    }
}

} // verus!

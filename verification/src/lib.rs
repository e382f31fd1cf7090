//! qmind-sql: the SQL surface of an embedded engine — tokenizer and
//! recursive-descent parser, expression evaluation, the row codec, a
//! row-at-a-time (Volcano) executor, a column-oriented batch pipeline with
//! streaming results, SELECT / join / GROUP BY / INSERT over rows read from
//! storage (with the proof that both executors agree), the transaction
//! discipline of a session, catalog recovery from the log, and the
//! versioned database metadata.
pub mod codec;
pub mod executor;
pub mod parser;
pub mod order;
pub mod batch;
pub mod batch_ops;
pub mod engine;
pub mod result_stream;
pub mod dbdir;
pub mod query;
pub mod parity;
pub mod session;
pub mod catalog;

use vstd::prelude::*;

verus! {

/// Rows per execution batch.
pub const BATCH_ROWS: usize = 2048;

/// Name and version of the engine.
#[derive(Debug)]
pub struct EngineInfo {
    pub name: &'static str,
    pub version: &'static str,
}

/// This engine's name.
pub const ENGINE_NAME: &'static str = "quantsmind";

/// This engine's version.
pub const ENGINE_VERSION: &'static str = "0.1.0";

/// This engine's name and version.
pub fn engine_info() -> (r: EngineInfo)
    ensures
        r.name@ == ENGINE_NAME@,
        r.version@ == ENGINE_VERSION@,
{
    EngineInfo { name: ENGINE_NAME, version: ENGINE_VERSION }
}

} // verus!

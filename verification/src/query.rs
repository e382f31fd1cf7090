//! SELECT evaluation over materialized rows: WHERE, ORDER BY, projection
//! and LIMIT, joins, grouped and ungrouped aggregation, and the values of
//! an INSERT. Reading rows from storage and handing results on is the
//! caller's part; everything decided between those two steps is here.
use vstd::prelude::*;
use crate::batch::{batch_of_rows, rows_to_batch, rows_view, uniform_width, Batch, DEFAULT_BATCH_SIZE};
use crate::batch_ops::{aggregate_output, aggregate_rows, entry_rows, keyed_view, sort_entries, sort_insert, Keyed};
use crate::codec::{clone_row, clone_value, type_accepts, ColumnDef, ColumnType, SqlValue, ValueV};
use crate::engine::{int_text, agg_func, agg_func_of, agg_view, aggregate_spec, clone_expr, col_from, col_pos, conj_spec, conjuncts,
    contains_aggregate, eval_expr, eval_spec, first_index, format_expr, grouped_order_index, grouped_order_spec, has_agg,
    index_key_encode, index_key_spec, int_to_string, is_true, item_expr, join2, literal_value, logic_of, msg, parse_aggs,
    projection_spec, projection_specs, remove_conjunct, remove_spec, render, str_eq, to_upper, try_parse_aggregates,
    upper_text, Aggregate, ExecResult, IndexDef};
use crate::executor::{agg_row, eval_aggs, group_rows, group_rows_exec, groups_view, has_cols, join_output, join_probe,
    project_row, project_values, rows_of_vecs, AggFn, Group, GroupV, Row};
use crate::parser::{exprs_of, lemma_exprs_view, parse_spec, statements_of, BinOp, Column, ColumnV, DataType, Expr, ExprV,
    OrderBy, OrderByV, Parser, Select, SelectItem, SelectItemV, SelectV, Statement, TableRef, TableRefV};

verus! {

// ── WHERE ─────────────────────────────────────────────────────────────

/// Whether a row passes an optional predicate (UNKNOWN does not); `None`
/// when evaluating it fails.
pub open spec fn passes(pred: Option<ExprV>, schema: Seq<ColumnDef>, row: Seq<SqlValue>) -> Option<bool> {
    match pred {
        None => Some(true),
        Some(p) => match eval_spec(p, schema, row) {
            Some(v) => match logic_of(v) {
                Ok(b) => Some(b == Some(true)),
                Err(_) => None,
            },
            None => None,
        },
    }
}

/// The rows that pass, in order; `None` when the predicate fails on any row.
pub open spec fn where_spec(pred: Option<ExprV>, schema: Seq<ColumnDef>, rows: Seq<Seq<SqlValue>>) -> Option<Seq<Seq<SqlValue>>>
    decreases rows.len(),
{
    if rows.len() == 0 {
        Some(Seq::empty())
    } else {
        match (where_spec(pred, schema, rows.drop_last()), passes(pred, schema, rows.last())) {
            (Some(k), Some(true)) => Some(k.push(rows.last())),
            (Some(k), Some(false)) => Some(k),
            _ => None,
        }
    }
}

/// Model of an optional expression.
pub open spec fn opt_expr(e: Option<Expr>) -> Option<ExprV> {
    match e {
        Some(x) => Some(x@),
        None => None,
    }
}

/// Whether one row passes an optional predicate.
fn row_passes(pred: &Option<Expr>, schema: &[ColumnDef], row: &Row) -> (r: Result<bool, String>)
    ensures
        match passes(opt_expr(*pred), schema@, row@) {
            Some(b) => r == Ok::<bool, String>(b),
            None => r is Err,
        },
{
    match pred {
        None => Ok(true),
        Some(p) => match eval_expr(p, schema, row.as_slice()) {
            Ok(v) => is_true(&v),
            Err(m) => Err(m),
        },
    }
}

/// Keep the rows whose predicate is TRUE, in order; the first evaluation
/// error fails the whole filter.
pub fn filter_rows(pred: &Option<Expr>, schema: &[ColumnDef], rows: &Vec<Row>) -> (r: Result<Vec<Row>, String>)
    ensures
        match where_spec(opt_expr(*pred), schema@, rows_view(rows@)) {
            Some(k) => r matches Ok(v) && rows_view(v@) == k,
            None => r is Err,
        },
{
    let ghost all = rows_view(rows@);
    let mut out: Vec<Row> = Vec::new();
    let mut i: usize = 0;
    while i < rows.len()
        invariant
            i <= rows@.len(),
            all == rows_view(rows@),
            where_spec(opt_expr(*pred), schema@, all.take(i as int)) == Some(rows_view(out@)),
        decreases rows@.len() - i,
    {
        let ghost pre = all.take(i as int);
        assert(all.take(i + 1).drop_last() =~= pre);
        assert(all.take(i + 1).last() == rows@[i as int]@);
        match row_passes(pred, schema, &rows[i]) {
            Ok(true) => {
                let ghost o0 = rows_view(out@);
                out.push(clone_row(rows[i].as_slice()));
                assert(rows_view(out@) =~= o0.push(rows@[i as int]@));
            },
            Ok(false) => {},
            Err(m) => {
                proof { lemma_where_fails_on(opt_expr(*pred), schema@, all, i as int); }
                return Err(m);
            },
        }
        i = i + 1;
    }
    assert(all.take(rows@.len() as int) =~= all);
    Ok(out)
}

/// WHERE keeps at most the rows it is given.
pub proof fn lemma_where_len(pred: Option<ExprV>, schema: Seq<ColumnDef>, rows: Seq<Seq<SqlValue>>)
    ensures
        where_spec(pred, schema, rows) matches Some(k) ==> k.len() <= rows.len(),
    decreases rows.len(),
{
    if rows.len() > 0 {
        lemma_where_len(pred, schema, rows.drop_last());
    }
}

/// WHERE succeeds exactly when the predicate evaluates on every row, and then
/// keeps, in their order, exactly the rows on which it is true (a false or
/// UNKNOWN result drops the row).
pub proof fn lemma_where_filter(pred: Option<ExprV>, schema: Seq<ColumnDef>, rows: Seq<Seq<SqlValue>>)
    ensures
        (where_spec(pred, schema, rows) is Some)
            <==> (forall|k: int| 0 <= k < rows.len() ==> (#[trigger] passes(pred, schema, rows[k])) is Some),
        where_spec(pred, schema, rows) is Some ==> where_spec(pred, schema, rows)->0
            == rows.filter(|r: Seq<SqlValue>| passes(pred, schema, r) == Some(true)),
    decreases rows.len(),
{
    reveal(Seq::filter);
    if rows.len() > 0 {
        let init = rows.drop_last();
        lemma_where_filter(pred, schema, init);
        if forall|k: int| 0 <= k < rows.len() ==> (#[trigger] passes(pred, schema, rows[k])) is Some {
            assert forall|k: int| 0 <= k < init.len() implies (#[trigger] passes(pred, schema, init[k])) is Some by {
                assert(init[k] == rows[k]);
            }
            assert(passes(pred, schema, rows[rows.len() - 1]) is Some);
        } else {
            let k = choose|k: int| 0 <= k < rows.len() && !((#[trigger] passes(pred, schema, rows[k])) is Some);
            lemma_where_fails_on(pred, schema, rows, k);
        }
        if where_spec(pred, schema, rows) is Some {
            assert forall|k: int| 0 <= k < rows.len() implies (#[trigger] passes(pred, schema, rows[k])) is Some by {
                if k < init.len() {
                    assert(init[k] == rows[k]);
                    assert(passes(pred, schema, init[k]) is Some);
                }
            }
        }
    }
}

/// A failure on a prefix fails the whole.
pub proof fn lemma_where_none_extends(pred: Option<ExprV>, schema: Seq<ColumnDef>, rows: Seq<Seq<SqlValue>>, n: int)
    requires
        0 <= n <= rows.len(),
        where_spec(pred, schema, rows.take(n)) is None,
    ensures
        where_spec(pred, schema, rows) is None,
    decreases rows.len() - n,
{
    if n < rows.len() {
        assert(rows.take(n + 1).drop_last() =~= rows.take(n));
        lemma_where_none_extends(pred, schema, rows, n + 1);
    } else {
        assert(rows.take(n) =~= rows);
    }
}

proof fn lemma_where_fails_on(pred: Option<ExprV>, schema: Seq<ColumnDef>, rows: Seq<Seq<SqlValue>>, i: int)
    requires
        0 <= i < rows.len(),
        passes(pred, schema, rows[i]) is None,
    ensures
        where_spec(pred, schema, rows) is None,
{
    assert(rows.take(i + 1).drop_last() =~= rows.take(i));
    assert(rows.take(i + 1).last() == rows[i]);
    lemma_where_none_extends(pred, schema, rows, i + 1);
}

// ── ORDER BY ──────────────────────────────────────────────────────────

/// The value of one sort key: the expression's value, or NULL where it
/// fails to evaluate and `strict` is false (`None` where it is true).
pub open spec fn key_value(e: ExprV, schema: Seq<ColumnDef>, row: Seq<SqlValue>, strict: bool) -> Option<ValueV> {
    match eval_spec(e, schema, row) {
        Some(v) => Some(v),
        None => if strict { None } else { Some(ValueV::Null) },
    }
}

/// The sort key of a row: the value of each key expression, in order.
pub open spec fn order_key(keys: Seq<ExprV>, schema: Seq<ColumnDef>, row: Seq<SqlValue>, strict: bool) -> Option<Seq<ValueV>>
    decreases keys.len(),
{
    if keys.len() == 0 {
        Some(Seq::empty())
    } else {
        match (order_key(keys.drop_last(), schema, row, strict), key_value(keys.last(), schema, row, strict)) {
            (Some(k), Some(v)) => Some(k.push(v)),
            _ => None,
        }
    }
}

/// Rows paired with their sort keys, in input order.
pub open spec fn keyed_entries(keys: Seq<ExprV>, schema: Seq<ColumnDef>, rows: Seq<Seq<SqlValue>>, strict: bool) -> Option<Seq<Keyed>>
    decreases rows.len(),
{
    if rows.len() == 0 {
        Some(Seq::empty())
    } else {
        match (keyed_entries(keys, schema, rows.drop_last(), strict), order_key(keys, schema, rows.last(), strict)) {
            (Some(es), Some(k)) => Some(es.push((k, rows.last()))),
            _ => None,
        }
    }
}

/// ORDER BY: the rows in the stable order of their keys (each key in the
/// total order of values, reversed where `desc` says so); `None` when a
/// key fails in strict mode.
pub open spec fn sort_spec(keys: Seq<ExprV>, desc: Seq<bool>, schema: Seq<ColumnDef>, rows: Seq<Seq<SqlValue>>, strict: bool) -> Option<Seq<Seq<SqlValue>>> {
    match keyed_entries(keys, schema, rows, strict) {
        Some(es) => Some(entry_rows(sort_entries(es, desc))),
        None => None,
    }
}

/// The sort key of one row.
fn order_key_exec(keys: &Vec<Expr>, schema: &[ColumnDef], row: &Row, strict: bool) -> (r: Result<Vec<SqlValue>, String>)
    ensures
        match order_key(exprs_of(keys@), schema@, row@, strict) {
            Some(k) => r matches Ok(v) && v.deep_view() == k,
            None => r is Err,
        },
{
    let ghost ks = exprs_of(keys@);
    let mut out: Vec<SqlValue> = Vec::new();
    let mut i: usize = 0;
    while i < keys.len()
        invariant
            i <= keys@.len(),
            ks == exprs_of(keys@),
            out@.len() == i,
            order_key(ks.take(i as int), schema@, row@, strict) == Some(out.deep_view()),
        decreases keys@.len() - i,
    {
        assert(ks.take(i + 1).drop_last() =~= ks.take(i as int));
        assert(ks.take(i + 1).last() == keys@[i as int]@);
        let ghost o0 = out.deep_view();
        match eval_expr(&keys[i], schema, row.as_slice()) {
            Ok(v) => {
                out.push(v);
            },
            Err(m) => {
                if strict {
                    proof { lemma_order_key_fails(ks, schema@, row@, strict, i as int); }
                    return Err(m);
                }
                out.push(SqlValue::Null);
            },
        }
        assert(out.deep_view() =~= o0.push(out@[i as int].deep_view()));
        i = i + 1;
    }
    assert(ks.take(keys@.len() as int) =~= ks);
    Ok(out)
}

proof fn lemma_order_key_fails(keys: Seq<ExprV>, schema: Seq<ColumnDef>, row: Seq<SqlValue>, strict: bool, i: int)
    requires
        0 <= i < keys.len(),
        key_value(keys[i], schema, row, strict) is None,
    ensures
        order_key(keys, schema, row, strict) is None,
    decreases keys.len() - i,
{
    if i + 1 < keys.len() {
        lemma_order_key_fails(keys.drop_last(), schema, row, strict, i);
    }
}

/// Stable sort of rows by key expressions (see [`sort_spec`]).
pub fn sort_rows(rows: &Vec<Row>, keys: &Vec<Expr>, desc: &Vec<bool>, schema: &[ColumnDef], strict: bool) -> (r: Result<Vec<Row>, String>)
    ensures
        match sort_spec(exprs_of(keys@), desc@, schema@, rows_view(rows@), strict) {
            Some(s) => r matches Ok(v) && rows_view(v@) == s,
            None => r is Err,
        },
{
    let ghost all = rows_view(rows@);
    let ghost ks = exprs_of(keys@);
    let ghost mut ents: Seq<Keyed> = Seq::empty();
    let mut sorted: Vec<(Vec<SqlValue>, Row)> = Vec::new();
    let mut i: usize = 0;
    assert(all.take(0) =~= Seq::<Seq<SqlValue>>::empty());
    assert(keyed_view(sorted@) =~= Seq::<Keyed>::empty());
    while i < rows.len()
        invariant
            i <= rows@.len(),
            all == rows_view(rows@),
            ks == exprs_of(keys@),
            keyed_entries(ks, schema@, all.take(i as int), strict) == Some(ents),
            keyed_view(sorted@) == sort_entries(ents, desc@),
        decreases rows@.len() - i,
    {
        assert(all.take(i + 1).drop_last() =~= all.take(i as int));
        assert(all.take(i + 1).last() == rows@[i as int]@);
        let key = match order_key_exec(keys, schema, &rows[i], strict) {
            Ok(k) => k,
            Err(m) => {
                proof { lemma_entries_fail(ks, schema@, all, strict, i as int); }
                return Err(m);
            },
        };
        let ghost item = (key.deep_view(), rows@[i as int]@);
        let row = clone_row(rows[i].as_slice());
        sort_insert(&mut sorted, (key, row), desc);
        proof {
            let e2 = ents.push(item);
            assert(e2.drop_last() =~= ents);
            assert(e2.last() == item);
            ents = e2;
        }
        i = i + 1;
    }
    assert(all.take(rows@.len() as int) =~= all);
    let ghost sv = keyed_view(sorted@);
    let mut out: Vec<Row> = Vec::new();
    let mut k: usize = 0;
    while k < sorted.len()
        invariant
            k <= sorted@.len(),
            sv == keyed_view(sorted@),
            rows_view(out@) == entry_rows(sv).take(k as int),
        decreases sorted@.len() - k,
    {
        let ghost o0 = rows_view(out@);
        out.push(clone_row(sorted[k].1.as_slice()));
        assert(entry_rows(sv).take(k + 1) =~= entry_rows(sv).take(k as int).push(sv[k as int].1));
        assert(rows_view(out@) =~= o0.push(sorted@[k as int].1@));
        k = k + 1;
    }
    assert(entry_rows(sv).take(sorted@.len() as int) =~= entry_rows(sv));
    Ok(out)
}

proof fn lemma_entries_fail(keys: Seq<ExprV>, schema: Seq<ColumnDef>, rows: Seq<Seq<SqlValue>>, strict: bool, i: int)
    requires
        0 <= i < rows.len(),
        order_key(keys, schema, rows[i], strict) is None,
    ensures
        keyed_entries(keys, schema, rows, strict) is None,
    decreases rows.len() - i,
{
    if i + 1 < rows.len() {
        lemma_entries_fail(keys, schema, rows.drop_last(), strict, i);
    }
}

// ── projection and LIMIT ──────────────────────────────────────────────

/// Models of rows of values.
pub open spec fn rows_deep(rows: Seq<Row>) -> Seq<Seq<ValueV>> {
    rows.map_values(|r: Row| r.deep_view())
}

/// A projected row: each expression's value, in order; `None` when one fails.
pub open spec fn project_spec(exprs: Seq<ExprV>, schema: Seq<ColumnDef>, row: Seq<SqlValue>) -> Option<Seq<ValueV>>
    decreases exprs.len(),
{
    if exprs.len() == 0 {
        Some(Seq::empty())
    } else {
        match (project_spec(exprs.drop_last(), schema, row), eval_spec(exprs.last(), schema, row)) {
            (Some(p), Some(v)) => Some(p.push(v)),
            _ => None,
        }
    }
}

/// Every row projected, in order; `None` when any projection fails.
pub open spec fn project_all(exprs: Seq<ExprV>, schema: Seq<ColumnDef>, rows: Seq<Seq<SqlValue>>) -> Option<Seq<Seq<ValueV>>>
    decreases rows.len(),
{
    if rows.len() == 0 {
        Some(Seq::empty())
    } else {
        match (project_all(exprs, schema, rows.drop_last()), project_spec(exprs, schema, rows.last())) {
            (Some(ps), Some(p)) => Some(ps.push(p)),
            _ => None,
        }
    }
}

/// At most `limit` of the rows (all of them without a limit).
pub open spec fn limit_rows<T>(rows: Seq<T>, limit: Option<usize>) -> Seq<T> {
    match limit {
        Some(n) => if n < rows.len() { rows.take(n as int) } else { rows },
        None => rows,
    }
}

/// Project one row.
pub fn project_exprs(exprs: &Vec<Expr>, schema: &[ColumnDef], row: &Row) -> (r: Result<Row, String>)
    ensures
        match project_spec(exprs_of(exprs@), schema@, row@) {
            Some(p) => r matches Ok(v) && v.deep_view() == p,
            None => r is Err,
        },
{
    let ghost es = exprs_of(exprs@);
    let mut out: Row = Vec::new();
    let mut i: usize = 0;
    while i < exprs.len()
        invariant
            i <= exprs@.len(),
            es == exprs_of(exprs@),
            out@.len() == i,
            project_spec(es.take(i as int), schema@, row@) == Some(out.deep_view()),
        decreases exprs@.len() - i,
    {
        assert(es.take(i + 1).drop_last() =~= es.take(i as int));
        assert(es.take(i + 1).last() == exprs@[i as int]@);
        let ghost o0 = out.deep_view();
        match eval_expr(&exprs[i], schema, row.as_slice()) {
            Ok(v) => {
                out.push(v);
            },
            Err(m) => {
                proof { lemma_project_fails(es, schema@, row@, i as int); }
                return Err(m);
            },
        }
        assert(out.deep_view() =~= o0.push(out@[i as int].deep_view()));
        i = i + 1;
    }
    assert(es.take(exprs@.len() as int) =~= es);
    Ok(out)
}

proof fn lemma_project_fails(exprs: Seq<ExprV>, schema: Seq<ColumnDef>, row: Seq<SqlValue>, i: int)
    requires
        0 <= i < exprs.len(),
        eval_spec(exprs[i], schema, row) is None,
    ensures
        project_spec(exprs, schema, row) is None,
    decreases exprs.len() - i,
{
    if i + 1 < exprs.len() {
        lemma_project_fails(exprs.drop_last(), schema, row, i);
    }
}

/// Project every row (see [`project_all`]).
pub fn project_rows(exprs: &Vec<Expr>, schema: &[ColumnDef], rows: &Vec<Row>) -> (r: Result<Vec<Row>, String>)
    ensures
        match project_all(exprs_of(exprs@), schema@, rows_view(rows@)) {
            Some(ps) => r matches Ok(v) && rows_deep(v@) == ps,
            None => r is Err,
        },
{
    let ghost all = rows_view(rows@);
    let ghost es = exprs_of(exprs@);
    let mut out: Vec<Row> = Vec::new();
    let mut i: usize = 0;
    while i < rows.len()
        invariant
            i <= rows@.len(),
            all == rows_view(rows@),
            es == exprs_of(exprs@),
            project_all(es, schema@, all.take(i as int)) == Some(rows_deep(out@)),
        decreases rows@.len() - i,
    {
        assert(all.take(i + 1).drop_last() =~= all.take(i as int));
        assert(all.take(i + 1).last() == rows@[i as int]@);
        match project_exprs(exprs, schema, &rows[i]) {
            Ok(p) => {
                let ghost o0 = rows_deep(out@);
                let ghost pv = p.deep_view();
                out.push(p);
                assert(rows_deep(out@) =~= o0.push(pv));
            },
            Err(m) => {
                proof { lemma_project_all_fails(es, schema@, all, i as int); }
                return Err(m);
            },
        }
        i = i + 1;
    }
    assert(all.take(rows@.len() as int) =~= all);
    Ok(out)
}

proof fn lemma_project_all_fails(exprs: Seq<ExprV>, schema: Seq<ColumnDef>, rows: Seq<Seq<SqlValue>>, i: int)
    requires
        0 <= i < rows.len(),
        project_spec(exprs, schema, rows[i]) is None,
    ensures
        project_all(exprs, schema, rows) is None,
    decreases rows.len() - i,
{
    if i + 1 < rows.len() {
        lemma_project_all_fails(exprs, schema, rows.drop_last(), i);
    }
}

/// The first `limit` rows (all without a limit).
pub fn truncate_rows(rows: Vec<Row>, limit: Option<usize>) -> (r: Vec<Row>)
    ensures
        r@ == limit_rows(rows@, limit),
{
    let mut rows = rows;
    match limit {
        Some(n) => {
            if n < rows.len() {
                rows.truncate(n);
            }
        },
        None => {},
    }
    rows
}

// ── a single-table pipeline ───────────────────────────────────────────

/// One less remaining row under an optional limit.
pub open spec fn limit_dec(lim: Option<usize>) -> Option<usize> {
    match lim {
        Some(n) => Some((n - 1) as usize),
        None => None,
    }
}

/// `pre` followed by an outcome's rows.
pub open spec fn prepend(pre: Seq<Seq<ValueV>>, o: Option<Seq<Seq<ValueV>>>) -> Option<Seq<Seq<ValueV>>> {
    match o {
        Some(rest) => Some(pre + rest),
        None => None,
    }
}

/// WHERE, projection and LIMIT pulled one row at a time: a row is filtered,
/// then projected if it passes, and nothing after the limit-th output row
/// is looked at.
pub open spec fn lazy_spec(pred: Option<ExprV>, exprs: Seq<ExprV>, schema: Seq<ColumnDef>, rows: Seq<Seq<SqlValue>>, lim: Option<usize>) -> Option<Seq<Seq<ValueV>>>
    decreases rows.len(),
{
    if rows.len() == 0 || lim == Some(0usize) {
        Some(Seq::empty())
    } else {
        match passes(pred, schema, rows[0]) {
            None => None,
            Some(false) => lazy_spec(pred, exprs, schema, rows.drop_first(), lim),
            Some(true) => match project_spec(exprs, schema, rows[0]) {
                None => None,
                Some(p) => prepend(seq![p], lazy_spec(pred, exprs, schema, rows.drop_first(), limit_dec(lim))),
            },
        }
    }
}

/// The lazy pipeline over rows (see [`lazy_spec`]).
fn lazy_rows(pred: &Option<Expr>, exprs: &Vec<Expr>, schema: &[ColumnDef], rows: &Vec<Row>, limit: Option<usize>) -> (r: Result<Vec<Row>, String>)
    ensures
        match lazy_spec(opt_expr(*pred), exprs_of(exprs@), schema@, rows_view(rows@), limit) {
            Some(o) => r matches Ok(v) && rows_deep(v@) == o,
            None => r is Err,
        },
{
    let ghost all = rows_view(rows@);
    let ghost p = opt_expr(*pred);
    let ghost es = exprs_of(exprs@);
    let ghost whole = lazy_spec(p, es, schema@, all, limit);
    let mut out: Vec<Row> = Vec::new();
    let mut rem = limit;
    let mut i: usize = 0;
    assert(all.skip(0) =~= all);
    assert(rows_deep(out@) + Seq::<Seq<ValueV>>::empty() =~= Seq::<Seq<ValueV>>::empty());
    while i < rows.len()
        invariant
            i <= rows@.len(),
            all == rows_view(rows@),
            p == opt_expr(*pred),
            es == exprs_of(exprs@),
            whole == lazy_spec(p, es, schema@, all, limit),
            whole == prepend(rows_deep(out@), lazy_spec(p, es, schema@, all.skip(i as int), rem)),
        decreases rows@.len() - i,
    {
        if let Some(0usize) = rem {
            assert(rows_deep(out@) + Seq::<Seq<ValueV>>::empty() =~= rows_deep(out@));
            return Ok(out);
        }
        let ghost rest = all.skip(i as int);
        assert(rest[0] == rows@[i as int]@);
        assert(rest.drop_first() =~= all.skip(i + 1));
        assert(rest.len() > 0 && rem != Some(0usize));
        match row_passes(pred, schema, &rows[i]) {
            Err(m) => {
                return Err(m);
            },
            Ok(false) => {},
            Ok(true) => {
                match project_exprs(exprs, schema, &rows[i]) {
                    Err(m) => {
                        return Err(m);
                    },
                    Ok(pr) => {
                        let ghost o0 = rows_deep(out@);
                        let ghost pv = pr.deep_view();
                        out.push(pr);
                        assert(rows_deep(out@) =~= o0 + seq![pv]);
                        proof {
                            let tail = lazy_spec(p, es, schema@, all.skip(i + 1), limit_dec(rem));
                            match tail {
                                Some(t) => {
                                    assert(o0 + (seq![pv] + t) =~= (o0 + seq![pv]) + t);
                                },
                                None => {},
                            }
                        }
                        rem = match rem {
                            Some(n) => Some(n - 1),
                            None => None,
                        };
                    },
                }
            },
        }
        i = i + 1;
    }
    assert(all.skip(rows@.len() as int) =~= Seq::<Seq<SqlValue>>::empty());
    assert(rows_deep(out@) + Seq::<Seq<ValueV>>::empty() =~= rows_deep(out@));
    Ok(out)
}

/// The sort keys of ORDER BY items.
pub open spec fn order_exprs(ob: Seq<OrderByV>) -> Seq<ExprV> {
    ob.map_values(|o: OrderByV| o.expr)
}

/// Which ORDER BY items are descending.
pub open spec fn order_desc(ob: Seq<OrderByV>) -> Seq<bool> {
    ob.map_values(|o: OrderByV| !o.asc)
}

/// Keys and directions of ORDER BY items.
fn order_parts(order_by: &Vec<OrderBy>) -> (r: (Vec<Expr>, Vec<bool>))
    ensures
        exprs_of(r.0@) == order_exprs(order_by@.map_values(|o: OrderBy| o@)),
        r.1@ == order_desc(order_by@.map_values(|o: OrderBy| o@)),
{
    let ghost ob = order_by@.map_values(|o: OrderBy| o@);
    let mut keys: Vec<Expr> = Vec::new();
    let mut desc: Vec<bool> = Vec::new();
    let mut i: usize = 0;
    while i < order_by.len()
        invariant
            i <= order_by@.len(),
            ob == order_by@.map_values(|o: OrderBy| o@),
            exprs_of(keys@) == order_exprs(ob.take(i as int)),
            desc@ == order_desc(ob.take(i as int)),
        decreases order_by@.len() - i,
    {
        let ghost k0 = exprs_of(keys@);
        let ghost d0 = desc@;
        keys.push(clone_expr(&order_by[i].expr));
        desc.push(!order_by[i].asc);
        assert(ob.take(i + 1) =~= ob.take(i as int).push(ob[i as int]));
        assert(order_exprs(ob.take(i + 1)) =~= order_exprs(ob.take(i as int)).push(ob[i as int].expr));
        assert(order_desc(ob.take(i + 1)) =~= order_desc(ob.take(i as int)).push(!ob[i as int].asc));
        assert(exprs_of(keys@) =~= k0.push(order_by@[i as int].expr@));
        assert(desc@ =~= d0.push(!order_by@[i as int].asc));
        i = i + 1;
    }
    assert(ob.take(order_by@.len() as int) =~= ob);
    (keys, desc)
}

/// Every row filtered, the rows that pass sorted by ORDER BY (unless there
/// is none), the first `limit` kept and projected. With `strict` a key that
/// fails to evaluate fails the query; otherwise it sorts as NULL.
pub open spec fn eager_rows_spec(sel: SelectV, exprs: Seq<ExprV>, schema: Seq<ColumnDef>, rows: Seq<Seq<SqlValue>>, strict: bool) -> Option<Seq<Seq<ValueV>>> {
    match where_spec(sel.selection, schema, rows) {
        Some(kept) => {
            let sorted = if sel.order_by.len() == 0 {
                Some(kept)
            } else {
                sort_spec(order_exprs(sel.order_by), order_desc(sel.order_by), schema, kept, strict)
            };
            match sorted {
                Some(so) => project_all(exprs, schema, limit_rows(so, sel.limit)),
                None => None,
            }
        },
        None => None,
    }
}

/// The rows of a single-table SELECT that is no aggregate query. Without
/// ORDER BY the pipeline is lazy ([`lazy_spec`]); with it every row is
/// looked at ([`eager_rows_spec`]). `strict` is the row-at-a-time engine:
/// there a key that fails fails the query and LIMIT 0 looks at no row.
pub open spec fn plain_rows_spec(sel: SelectV, exprs: Seq<ExprV>, schema: Seq<ColumnDef>, rows: Seq<Seq<SqlValue>>, strict: bool) -> Option<Seq<Seq<ValueV>>> {
    if sel.order_by.len() == 0 {
        lazy_spec(sel.selection, exprs, schema, rows, sel.limit)
    } else if strict && sel.limit == Some(0usize) {
        Some(Seq::empty())
    } else {
        eager_rows_spec(sel, exprs, schema, rows, strict)
    }
}

/// Rows of the eager pipeline (see [`eager_rows_spec`]).
fn eager_rows(sel: &Select, exprs: &Vec<Expr>, schema: &[ColumnDef], rows: &Vec<Row>, strict: bool) -> (r: Result<Vec<Row>, String>)
    ensures
        match eager_rows_spec(sel@, exprs_of(exprs@), schema@, rows_view(rows@), strict) {
            Some(o) => r matches Ok(v) && rows_deep(v@) == o,
            None => r is Err,
        },
{
    assert(opt_expr(sel.selection) == sel@.selection);
    let kept = match filter_rows(&sel.selection, schema, rows) {
        Ok(k) => k,
        Err(m) => {
            return Err(m);
        },
    };
    let sorted = if sel.order_by.len() == 0 {
        kept
    } else {
        let (keys, desc) = order_parts(&sel.order_by);
        match sort_rows(&kept, &keys, &desc, schema, strict) {
            Ok(s) => s,
            Err(m) => {
                return Err(m);
            },
        }
    };
    let ghost sv = sorted@;
    let limited = truncate_rows(sorted, sel.limit);
    assert(rows_view(limited@) =~= limit_rows(rows_view(sv), sel@.limit));
    project_rows(exprs, schema, &limited)
}

/// Rows of a single-table SELECT without aggregates (see [`plain_rows_spec`]).
fn plain_rows(sel: &Select, exprs: &Vec<Expr>, schema: &[ColumnDef], rows: &Vec<Row>, strict: bool) -> (r: Result<Vec<Row>, String>)
    ensures
        match plain_rows_spec(sel@, exprs_of(exprs@), schema@, rows_view(rows@), strict) {
            Some(o) => r matches Ok(v) && rows_deep(v@) == o,
            None => r is Err,
        },
{
    assert(opt_expr(sel.selection) == sel@.selection);
    if sel.order_by.len() == 0 {
        return lazy_rows(&sel.selection, exprs, schema, rows, sel.limit);
    }
    if strict && sel.limit == Some(0usize) {
        let out: Vec<Row> = Vec::new();
        assert(rows_deep(out@) =~= Seq::<Seq<ValueV>>::empty());
        return Ok(out);
    }
    eager_rows(sel, exprs, schema, rows, strict)
}

/// A single-table SELECT without aggregates, row at a time: the projection
/// is resolved first, then the rows go through WHERE, ORDER BY, projection
/// and LIMIT (see [`plain_rows_spec`]).
pub fn run_select(sel: &Select, schema: &[ColumnDef], rows: &Vec<Row>) -> (r: Result<ExecResult, String>)
    ensures
        match projection_spec(sel@.projection, schema@) {
            Some((es, cols)) => match plain_rows_spec(sel@, es, schema@, rows_view(rows@), true) {
                Some(o) => r matches Ok(x) && x.columns@.map_values(|s: String| s@) == cols
                    && rows_deep(x.rows@) == o && x.rows_affected == 0,
                None => r is Err,
            },
            None => r is Err,
        },
{
    let (exprs, cols) = match projection_specs(sel, schema) {
        Ok(p) => p,
        Err(m) => {
            return Err(m);
        },
    };
    match plain_rows(sel, &exprs, schema, rows, true) {
        Ok(out) => Ok(ExecResult { columns: cols, rows: out, rows_affected: 0 }),
        Err(m) => Err(m),
    }
}

// ── GROUP BY plan ─────────────────────────────────────────────────────

/// Key column positions of GROUP BY: each item must be a column's name.
pub open spec fn group_keys_spec(gb: Seq<ExprV>, schema: Seq<ColumnDef>) -> Option<Seq<usize>>
    decreases gb.len(),
{
    if gb.len() == 0 {
        Some(Seq::empty())
    } else {
        match (group_keys_spec(gb.drop_last(), schema), gb.last()) {
            (Some(ks), ExprV::Identifier(id)) => match col_from(schema, id, 0) {
                Some(i) => Some(ks.push(i as usize)),
                None => None,
            },
            _ => None,
        }
    }
}

/// The column of an aggregate's arguments: none for no argument or `*`,
/// else the first argument must name a column (`None` otherwise).
pub open spec fn agg_col_spec(args: Seq<ExprV>, schema: Seq<ColumnDef>) -> Option<Option<usize>> {
    if args.len() == 0 {
        Some(None)
    } else {
        match args[0] {
            ExprV::Identifier(c) => if c == "*"@ {
                Some(None)
            } else {
                match col_from(schema, c, 0) {
                    Some(i) => Some(Some(i as usize)),
                    None => None,
                }
            },
            _ => None,
        }
    }
}

/// One output column of a grouped query.
pub enum GroupItem {
    /// A group key, by column position.
    Key(usize),
    /// An aggregate.
    Agg(AggFn, Option<usize>),
}

/// What a projection expression is in a grouped query: an aggregate call,
/// or a column that is a group key; `None` for anything else.
pub open spec fn group_item(e: ExprV, schema: Seq<ColumnDef>, keys: Seq<usize>) -> Option<GroupItem> {
    match e {
        ExprV::Function { name, args } => match agg_func_of(upper_text(name)) {
            Some(f) => match agg_col_spec(args, schema) {
                Some(c) => Some(GroupItem::Agg(f, c)),
                None => None,
            },
            None => None,
        },
        ExprV::Identifier(id) => match col_from(schema, id, 0) {
            Some(i) => if keys.contains(i as usize) {
                Some(GroupItem::Key(i as usize))
            } else {
                None
            },
            None => None,
        },
        _ => None,
    }
}

/// The items of all projection expressions.
pub open spec fn group_items(exprs: Seq<ExprV>, schema: Seq<ColumnDef>, keys: Seq<usize>) -> Option<Seq<GroupItem>>
    decreases exprs.len(),
{
    if exprs.len() == 0 {
        Some(Seq::empty())
    } else {
        match (group_items(exprs.drop_last(), schema, keys), group_item(exprs.last(), schema, keys)) {
            (Some(its), Some(it)) => Some(its.push(it)),
            _ => None,
        }
    }
}

/// The aggregates among the items, in order.
pub open spec fn item_aggs(items: Seq<GroupItem>) -> Seq<(AggFn, Option<usize>)>
    decreases items.len(),
{
    if items.len() == 0 {
        Seq::empty()
    } else {
        match items.last() {
            GroupItem::Agg(f, c) => item_aggs(items.drop_last()).push((f, c)),
            GroupItem::Key(_) => item_aggs(items.drop_last()),
        }
    }
}

/// Index of the first `p` in `keys` at or after `i` (`keys.len()` if none).
pub open spec fn first_pos(keys: Seq<usize>, p: usize, i: int) -> int
    decreases keys.len() - i,
{
    if i < 0 || i >= keys.len() {
        keys.len() as int
    } else if keys[i] == p {
        i
    } else {
        first_pos(keys, p, i + 1)
    }
}

/// Where each item is found in an aggregation output row (keys first,
/// then the aggregates).
pub open spec fn item_positions(items: Seq<GroupItem>, keys: Seq<usize>) -> Seq<usize>
    decreases items.len(),
{
    if items.len() == 0 {
        Seq::empty()
    } else {
        let rest = item_positions(items.drop_last(), keys);
        match items.last() {
            GroupItem::Key(p) => rest.push(first_pos(keys, p, 0) as usize),
            GroupItem::Agg(_, _) => rest.push((keys.len() + item_aggs(items.drop_last()).len()) as usize),
        }
    }
}

/// The plan of a grouped query: key positions, aggregates, and where each
/// output column is found in an aggregation row.
pub open spec fn group_plan_spec(gb: Seq<ExprV>, exprs: Seq<ExprV>, schema: Seq<ColumnDef>) -> Option<(Seq<usize>, Seq<(AggFn, Option<usize>)>, Seq<usize>)> {
    match group_keys_spec(gb, schema) {
        Some(keys) => match group_items(exprs, schema, keys) {
            Some(items) => Some((keys, item_aggs(items), item_positions(items, keys))),
            None => None,
        },
        None => None,
    }
}

/// Index of the first `p` in `keys`.
fn first_pos_exec(keys: &Vec<usize>, p: usize) -> (r: usize)
    ensures
        r == first_pos(keys@, p, 0),
{
    let mut i: usize = 0;
    while i < keys.len()
        invariant
            i <= keys@.len(),
            first_pos(keys@, p, 0) == first_pos(keys@, p, i as int),
        decreases keys@.len() - i,
    {
        if keys[i] == p {
            return i;
        }
        i = i + 1;
    }
    i
}

/// Why GROUP BY keys are refused, from item `i` on: the first item that
/// is no column name, or names no column.
pub open spec fn keys_msg_from(gb: Seq<ExprV>, schema: Seq<ColumnDef>, i: int) -> Seq<char>
    decreases gb.len() - i,
{
    if i < 0 || i >= gb.len() {
        Seq::empty()
    } else {
        match gb[i] {
            ExprV::Identifier(id) => if col_from(schema, id, 0) is None {
                "unknown column "@ + id
            } else {
                keys_msg_from(gb, schema, i + 1)
            },
            _ => "GROUP BY supports plain columns only"@,
        }
    }
}

/// Why the argument of aggregate `fname` is refused.
pub open spec fn agg_col_msg(fname: Seq<char>, args: Seq<ExprV>) -> Seq<char> {
    match args[0] {
        ExprV::Identifier(c) => "unknown column "@ + c,
        _ => fname + " requires a column or *"@,
    }
}

/// Why a projection expression of a grouped query is refused.
pub open spec fn item_msg(e: ExprV, schema: Seq<ColumnDef>) -> Seq<char> {
    match e {
        ExprV::Function { name, args } => match agg_func_of(upper_text(name)) {
            None => "unsupported function "@ + upper_text(name),
            Some(_) => agg_col_msg(upper_text(name), args),
        },
        ExprV::Identifier(id) => if col_from(schema, id, 0) is None {
            "unknown column "@ + id
        } else {
            id + " must appear in GROUP BY or be aggregated"@
        },
        _ => "unsupported GROUP BY projection"@,
    }
}

/// Why the projection of a grouped query is refused, from item `i` on: the
/// message of the first refused item.
pub open spec fn items_msg_from(es: Seq<ExprV>, schema: Seq<ColumnDef>, keys: Seq<usize>, i: int) -> Seq<char>
    decreases es.len() - i,
{
    if i < 0 || i >= es.len() {
        Seq::empty()
    } else if group_item(es[i], schema, keys) is None {
        item_msg(es[i], schema)
    } else {
        items_msg_from(es, schema, keys, i + 1)
    }
}

/// Why a grouped plan is refused: its keys, else its projection.
pub open spec fn group_plan_msg(gb: Seq<ExprV>, exprs: Seq<ExprV>, schema: Seq<ColumnDef>) -> Seq<char> {
    match group_keys_spec(gb, schema) {
        None => keys_msg_from(gb, schema, 0),
        Some(keys) => items_msg_from(exprs, schema, keys, 0),
    }
}

/// Key positions of GROUP BY.
fn group_keys(group_by: &Vec<Expr>, schema: &[ColumnDef]) -> (r: Result<Vec<usize>, String>)
    ensures
        match group_keys_spec(exprs_of(group_by@), schema@) {
            Some(ks) => r matches Ok(v) && v@ == ks && ks.len() == group_by@.len(),
            None => r matches Err(m) && m@ == keys_msg_from(exprs_of(group_by@), schema@, 0),
        },
{
    let ghost gb = exprs_of(group_by@);
    let mut out: Vec<usize> = Vec::new();
    let mut i: usize = 0;
    while i < group_by.len()
        invariant
            i <= group_by@.len(),
            gb == exprs_of(group_by@),
            group_keys_spec(gb.take(i as int), schema@) == Some(out@),
            out@.len() == i,
            keys_msg_from(gb, schema@, 0) == keys_msg_from(gb, schema@, i as int),
        decreases group_by@.len() - i,
    {
        assert(gb.take(i + 1).drop_last() =~= gb.take(i as int));
        assert(gb.take(i + 1).last() == group_by@[i as int]@);
        match &group_by[i] {
            Expr::Identifier(id) => match col_pos(schema, id.as_str()) {
                Ok(p) => {
                    out.push(p);
                },
                Err(m) => {
                    proof { lemma_group_keys_fail(gb, schema@, i as int); }
                    return Err(m);
                },
            },
            _ => {
                proof { lemma_group_keys_fail(gb, schema@, i as int); }
                return Err(msg("GROUP BY supports plain columns only"));
            },
        }
        i = i + 1;
    }
    assert(gb.take(group_by@.len() as int) =~= gb);
    Ok(out)
}

proof fn lemma_group_keys_fail(gb: Seq<ExprV>, schema: Seq<ColumnDef>, i: int)
    requires
        0 <= i < gb.len(),
        group_keys_spec(gb.take(i + 1), schema) is None,
    ensures
        group_keys_spec(gb, schema) is None,
    decreases gb.len() - i,
{
    if i + 1 < gb.len() {
        assert(gb.drop_last().take(i + 1) =~= gb.take(i + 1));
        lemma_group_keys_fail(gb.drop_last(), schema, i);
    } else {
        assert(gb.take(i + 1) =~= gb);
    }
}

/// The column of an aggregate's arguments.
fn agg_col(fname: &str, args: &Vec<Expr>, schema: &[ColumnDef]) -> (r: Result<Option<usize>, String>)
    ensures
        match agg_col_spec(exprs_of(args@), schema@) {
            Some(c) => r == Ok::<Option<usize>, String>(c),
            None => r matches Err(m) && m@ == agg_col_msg(fname@, exprs_of(args@)),
        },
{
    if args.len() == 0 {
        return Ok(None);
    }
    assert(exprs_of(args@)[0] == args@[0]@);
    match &args[0] {
        Expr::Identifier(c) => {
            if str_eq(c.as_str(), "*") {
                Ok(None)
            } else {
                match col_pos(schema, c.as_str()) {
                    Ok(p) => Ok(Some(p)),
                    Err(m) => Err(m),
                }
            }
        },
        _ => Err(join2(fname, " requires a column or *")),
    }
}

/// The plan of a grouped query over projection expressions (see
/// [`group_plan_spec`]).
pub fn group_plan(group_by: &Vec<Expr>, exprs: &Vec<Expr>, schema: &[ColumnDef]) -> (r: Result<(Vec<usize>, Vec<(AggFn, Option<usize>)>, Vec<usize>), String>)
    requires
        group_by@.len() + exprs@.len() <= usize::MAX,
    ensures
        match group_plan_spec(exprs_of(group_by@), exprs_of(exprs@), schema@) {
            Some((ks, ags, ps)) => r matches Ok(p) && p.0@ == ks && p.1@ == ags && p.2@ == ps,
            None => r matches Err(m) && m@ == group_plan_msg(exprs_of(group_by@), exprs_of(exprs@), schema@),
        },
{
    let keys = match group_keys(group_by, schema) {
        Ok(k) => k,
        Err(m) => {
            return Err(m);
        },
    };
    let ghost es = exprs_of(exprs@);
    let ghost mut items: Seq<GroupItem> = Seq::empty();
    let mut aggs: Vec<(AggFn, Option<usize>)> = Vec::new();
    let mut reorder: Vec<usize> = Vec::new();
    let mut i: usize = 0;
    while i < exprs.len()
        invariant
            i <= exprs@.len(),
            es == exprs_of(exprs@),
            keys@.len() == group_by@.len(),
            group_keys_spec(exprs_of(group_by@), schema@) == Some(keys@),
            group_by@.len() + exprs@.len() <= usize::MAX,
            group_items(es.take(i as int), schema@, keys@) == Some(items),
            items_msg_from(es, schema@, keys@, 0) == items_msg_from(es, schema@, keys@, i as int),
            aggs@ == item_aggs(items),
            reorder@ == item_positions(items, keys@),
            aggs@.len() <= i,
        decreases exprs@.len() - i,
    {
        assert(es.take(i + 1).drop_last() =~= es.take(i as int));
        assert(es.take(i + 1).last() == exprs@[i as int]@);
        let ghost it: GroupItem;
        match &exprs[i] {
            Expr::Function { name, args } => {
                proof { lemma_exprs_view(args@); }
                let f = match agg_func(name.as_str()) {
                    Some(f) => f,
                    None => {
                        proof { lemma_group_items_fail(es, schema@, keys@, i as int); }
                        return Err(join2("unsupported function ", to_upper(name.as_str()).as_str()));
                    },
                };
                let c = match agg_col(to_upper(name.as_str()).as_str(), args, schema) {
                    Ok(c) => c,
                    Err(m) => {
                        proof { lemma_group_items_fail(es, schema@, keys@, i as int); }
                        return Err(m);
                    },
                };
                proof { it = GroupItem::Agg(f, c); }
                reorder.push(keys.len() + aggs.len());
                aggs.push((f, c));
            },
            Expr::Identifier(id) => {
                let p = match col_pos(schema, id.as_str()) {
                    Ok(p) => p,
                    Err(m) => {
                        proof { lemma_group_items_fail(es, schema@, keys@, i as int); }
                        return Err(m);
                    },
                };
                let q = first_pos_exec(&keys, p);
                if q == keys.len() {
                    proof {
                        if keys@.contains(p) {
                            let k = choose|k: int| 0 <= k < keys@.len() && keys@[k] == p;
                            lemma_first_pos_found(keys@, p, 0, k);
                        }
                        lemma_group_items_fail(es, schema@, keys@, i as int);
                    }
                    return Err(join2(id.as_str(), " must appear in GROUP BY or be aggregated"));
                }
                proof {
                    lemma_first_pos_in(keys@, p, 0);
                    it = GroupItem::Key(p);
                }
                reorder.push(q);
            },
            _ => {
                proof { lemma_group_items_fail(es, schema@, keys@, i as int); }
                return Err(msg("unsupported GROUP BY projection"));
            },
        }
        proof {
            let i2 = items.push(it);
            assert(i2.drop_last() =~= items);
            items = i2;
        }
        i = i + 1;
    }
    assert(es.take(exprs@.len() as int) =~= es);
    Ok((keys, aggs, reorder))
}

proof fn lemma_first_pos_found(keys: Seq<usize>, p: usize, i: int, k: int)
    requires
        0 <= i <= k < keys.len(),
        keys[k] == p,
    ensures
        first_pos(keys, p, i) <= k,
    decreases k - i,
{
    if keys[i] != p {
        lemma_first_pos_found(keys, p, i + 1, k);
    }
}

proof fn lemma_first_pos_in(keys: Seq<usize>, p: usize, i: int)
    requires
        0 <= i,
        first_pos(keys, p, i) != keys.len(),
    ensures
        keys[first_pos(keys, p, i)] == p,
        keys.contains(p),
    decreases keys.len() - i,
{
    if i < keys.len() && keys[i] != p {
        lemma_first_pos_in(keys, p, i + 1);
    }
}

proof fn lemma_group_items_fail(es: Seq<ExprV>, schema: Seq<ColumnDef>, keys: Seq<usize>, i: int)
    requires
        0 <= i < es.len(),
        group_item(es[i], schema, keys) is None,
    ensures
        group_items(es, schema, keys) is None,
    decreases es.len() - i,
{
    if i + 1 < es.len() {
        lemma_group_items_fail(es.drop_last(), schema, keys, i);
    }
}

// ── grouped output ────────────────────────────────────────────────────

/// Each row restricted and reordered to the positions `pos`; `None` when a
/// position is not a column of some row.
pub open spec fn reorder_all(rows: Seq<Seq<SqlValue>>, pos: Seq<usize>) -> Option<Seq<Seq<SqlValue>>>
    decreases rows.len(),
{
    if rows.len() == 0 {
        Some(Seq::empty())
    } else {
        match (reorder_all(rows.drop_last(), pos), project_row(rows.last(), pos)) {
            (Some(rs), Some(r)) => Some(rs.push(r)),
            _ => None,
        }
    }
}

/// Reorder every row (see [`reorder_all`]).
fn reorder_rows(rows: &Vec<Row>, pos: &Vec<usize>) -> (r: Result<Vec<Row>, String>)
    ensures
        match reorder_all(rows_view(rows@), pos@) {
            Some(o) => r matches Ok(v) && rows_view(v@) == o && (forall|k: int| 0 <= k < v@.len() ==> (#[trigger] v@[k])@.len() == pos@.len()),
            None => r is Err,
        },
{
    let ghost all = rows_view(rows@);
    let mut out: Vec<Row> = Vec::new();
    let mut i: usize = 0;
    while i < rows.len()
        invariant
            i <= rows@.len(),
            all == rows_view(rows@),
            reorder_all(all.take(i as int), pos@) == Some(rows_view(out@)),
            out@.len() == i,
            forall|k: int| 0 <= k < out@.len() ==> (#[trigger] out@[k])@.len() == pos@.len(),
        decreases rows@.len() - i,
    {
        assert(all.take(i + 1).drop_last() =~= all.take(i as int));
        assert(all.take(i + 1).last() == rows@[i as int]@);
        match project_values(rows[i].as_slice(), pos.as_slice()) {
            Ok(x) => {
                let ghost o0 = rows_view(out@);
                out.push(x);
                assert(rows_view(out@) =~= o0.push(out@[i as int]@));
            },
            Err(m) => {
                proof { lemma_reorder_fails(all, pos@, i as int); }
                return Err(m);
            },
        }
        i = i + 1;
    }
    assert(all.take(rows@.len() as int) =~= all);
    Ok(out)
}

proof fn lemma_reorder_fails(rows: Seq<Seq<SqlValue>>, pos: Seq<usize>, i: int)
    requires
        0 <= i < rows.len(),
        project_row(rows[i], pos) is None,
    ensures
        reorder_all(rows, pos) is None,
    decreases rows.len() - i,
{
    if i + 1 < rows.len() {
        lemma_reorder_fails(rows.drop_last(), pos, i);
    }
}

/// The row an ungrouped aggregate gives over no rows: counts are 0, every
/// other aggregate is NULL.
pub open spec fn empty_agg_row(aggs: Seq<(AggFn, Option<usize>)>) -> Seq<SqlValue> {
    aggs.map_values(|a: (AggFn, Option<usize>)| if a.0 == AggFn::Count { SqlValue::Int(0) } else { SqlValue::Null })
}

fn empty_agg_row_exec(aggs: &Vec<(AggFn, Option<usize>)>) -> (r: Row)
    ensures
        r@ == empty_agg_row(aggs@),
{
    let mut out: Row = Vec::new();
    let mut i: usize = 0;
    while i < aggs.len()
        invariant
            i <= aggs@.len(),
            out@ == empty_agg_row(aggs@.take(i as int)),
        decreases aggs@.len() - i,
    {
        let ghost o0 = out@;
        out.push(match aggs[i].0 {
            AggFn::Count => SqlValue::Int(0),
            _ => SqlValue::Null,
        });
        assert(aggs@.take(i + 1) =~= aggs@.take(i as int).push(aggs@[i as int]));
        assert(empty_agg_row(aggs@.take(i + 1)) =~= empty_agg_row(aggs@.take(i as int)).push(out@[i as int]));
        i = i + 1;
    }
    assert(aggs@.take(aggs@.len() as int) =~= aggs@);
    out
}

/// Output positions that ORDER BY items name in a grouped result.
pub open spec fn order_positions_spec(ob: Seq<OrderByV>, cols: Seq<Seq<char>>) -> Option<Seq<usize>>
    decreases ob.len(),
{
    if ob.len() == 0 {
        Some(Seq::empty())
    } else {
        match (order_positions_spec(ob.drop_last(), cols), grouped_order_spec(ob.last().expr, cols)) {
            (Some(ps), Some(p)) => Some(ps.push(p as usize)),
            _ => None,
        }
    }
}

proof fn lemma_first_index_range(cols: Seq<Seq<char>>, x: Seq<char>, i: int)
    ensures
        first_index(cols, x, i) matches Some(k) ==> 0 <= k < cols.len(),
    decreases cols.len() - i,
{
    if 0 <= i < cols.len() && cols[i] != x {
        lemma_first_index_range(cols, x, i + 1);
    }
}

/// Resolve ORDER BY items against the output columns of a grouped query.
fn order_positions(order_by: &Vec<OrderBy>, cols: &Vec<String>) -> (r: Result<Vec<usize>, String>)
    ensures
        match order_positions_spec(order_by@.map_values(|o: OrderBy| o@), cols@.map_values(|s: String| s@)) {
            Some(ps) => r matches Ok(v) && v@ == ps && (forall|j: int| 0 <= j < v@.len() ==> #[trigger] v@[j] < cols@.len()),
            None => r is Err,
        },
{
    let ghost ob = order_by@.map_values(|o: OrderBy| o@);
    let ghost cs = cols@.map_values(|s: String| s@);
    let mut out: Vec<usize> = Vec::new();
    let mut i: usize = 0;
    while i < order_by.len()
        invariant
            i <= order_by@.len(),
            ob == order_by@.map_values(|o: OrderBy| o@),
            cs == cols@.map_values(|s: String| s@),
            order_positions_spec(ob.take(i as int), cs) == Some(out@),
            forall|j: int| 0 <= j < out@.len() ==> #[trigger] out@[j] < cols@.len(),
        decreases order_by@.len() - i,
    {
        assert(ob.take(i + 1).drop_last() =~= ob.take(i as int));
        assert(ob.take(i + 1).last() == order_by@[i as int]@);
        match grouped_order_index(&order_by[i].expr, cols.as_slice()) {
            Ok(p) => {
                proof {
                    lemma_first_index_range(cs, order_by@[i as int].expr@->Identifier_0, 0);
                    if order_by@[i as int].expr@ is Function {
                        lemma_first_index_range(cs, render(order_by@[i as int].expr@), 0);
                    }
                }
                out.push(p);
            },
            Err(m) => {
                proof { lemma_order_positions_fail(ob, cs, i as int); }
                return Err(m);
            },
        }
        i = i + 1;
    }
    assert(ob.take(order_by@.len() as int) =~= ob);
    Ok(out)
}

proof fn lemma_order_positions_fail(ob: Seq<OrderByV>, cols: Seq<Seq<char>>, i: int)
    requires
        0 <= i < ob.len(),
        grouped_order_spec(ob[i].expr, cols) is None,
    ensures
        order_positions_spec(ob, cols) is None,
    decreases ob.len() - i,
{
    if i + 1 < ob.len() {
        lemma_order_positions_fail(ob.drop_last(), cols, i);
    }
}

/// The sort key of a row at output positions.
pub open spec fn pos_key(row: Seq<SqlValue>, ps: Seq<usize>) -> Seq<ValueV> {
    Seq::new(ps.len(), |j: int| row[ps[j] as int].deep_view())
}

/// Rows sorted stably by the values at positions `ps` (descending where
/// `desc` says so).
pub open spec fn pos_sorted(rows: Seq<Seq<SqlValue>>, ps: Seq<usize>, desc: Seq<bool>) -> Seq<Seq<SqlValue>> {
    entry_rows(sort_entries(Seq::new(rows.len(), |i: int| (pos_key(rows[i], ps), rows[i])), desc))
}

/// Sort rows by the values at positions that every row has.
fn sort_by_positions(rows: &Vec<Row>, ps: &Vec<usize>, desc: &Vec<bool>) -> (r: Vec<Row>)
    requires
        forall|k: int, j: int| #![trigger rows@[k], ps@[j]] 0 <= k < rows@.len() && 0 <= j < ps@.len() ==> ps@[j] < rows@[k]@.len(),
    ensures
        rows_view(r@) == pos_sorted(rows_view(rows@), ps@, desc@),
{
    let ghost all = rows_view(rows@);
    let ghost ents = Seq::new(all.len(), |i: int| (pos_key(all[i], ps@), all[i]));
    let mut sorted: Vec<(Vec<SqlValue>, Row)> = Vec::new();
    let mut i: usize = 0;
    assert(keyed_view(sorted@) =~= sort_entries(ents.take(0), desc@));
    while i < rows.len()
        invariant
            i <= rows@.len(),
            all == rows_view(rows@),
            ents == Seq::new(all.len(), |i: int| (pos_key(all[i], ps@), all[i])),
            forall|k: int, j: int| #![trigger rows@[k], ps@[j]] 0 <= k < rows@.len() && 0 <= j < ps@.len() ==> ps@[j] < rows@[k]@.len(),
            keyed_view(sorted@) == sort_entries(ents.take(i as int), desc@),
        decreases rows@.len() - i,
    {
        let row = &rows[i];
        let mut key: Vec<SqlValue> = Vec::new();
        let mut j: usize = 0;
        while j < ps.len()
            invariant
                j <= ps@.len(),
                *row == rows@[i as int],
                forall|q: int| 0 <= q < ps@.len() ==> ps@[q] < row@.len(),
                key@.len() == j,
                forall|q: int| 0 <= q < j ==> (#[trigger] key@[q]).deep_view() == row@[ps@[q] as int].deep_view(),
            decreases ps@.len() - j,
        {
            key.push(clone_value(&row[ps[j]]));
            j = j + 1;
        }
        assert(key.deep_view() =~= pos_key(all[i as int], ps@));
        let ghost item = (key.deep_view(), rows@[i as int]@);
        sort_insert(&mut sorted, (key, clone_row(row.as_slice())), desc);
        assert(ents.take(i + 1).drop_last() =~= ents.take(i as int));
        assert(ents.take(i + 1).last() == item);
        i = i + 1;
    }
    assert(ents.take(rows@.len() as int) =~= ents);
    let ghost sv = keyed_view(sorted@);
    let mut out: Vec<Row> = Vec::new();
    let mut k: usize = 0;
    while k < sorted.len()
        invariant
            k <= sorted@.len(),
            sv == keyed_view(sorted@),
            rows_view(out@) == entry_rows(sv).take(k as int),
        decreases sorted@.len() - k,
    {
        let ghost o0 = rows_view(out@);
        out.push(clone_row(sorted[k].1.as_slice()));
        assert(entry_rows(sv).take(k + 1) =~= entry_rows(sv).take(k as int).push(sv[k as int].1));
        assert(rows_view(out@) =~= o0.push(sorted@[k as int].1@));
        k = k + 1;
    }
    assert(entry_rows(sv).take(sorted@.len() as int) =~= entry_rows(sv));
    out
}

proof fn lemma_group_items_shape(es: Seq<ExprV>, schema: Seq<ColumnDef>, keys: Seq<usize>)
    requires
        group_items(es, schema, keys) is Some,
    ensures
        group_items(es, schema, keys)->0.len() == es.len(),
        item_positions(group_items(es, schema, keys)->0, keys).len() == es.len(),
        keys.len() == 0 ==> item_aggs(group_items(es, schema, keys)->0).len() == es.len(),
    decreases es.len(),
{
    if es.len() > 0 {
        lemma_group_items_shape(es.drop_last(), schema, keys);
        let items = group_items(es, schema, keys)->0;
        assert(items.drop_last() == group_items(es.drop_last(), schema, keys)->0);
    }
}

/// Shape of a grouped plan: one position per projection expression, and
/// with no group key every expression is an aggregate.
proof fn lemma_group_plan_shape(gb: Seq<ExprV>, exprs: Seq<ExprV>, schema: Seq<ColumnDef>)
    requires
        group_plan_spec(gb, exprs, schema) is Some,
    ensures
        match group_plan_spec(gb, exprs, schema) {
            Some((keys, aggs, pos)) => pos.len() == exprs.len() && (keys.len() == 0 ==> aggs.len() == exprs.len()),
            None => true,
        },
{
    let keys = group_keys_spec(gb, schema)->0;
    lemma_group_items_shape(exprs, schema, keys);
}

/// The grouped rows of the batch pipeline: WHERE, then aggregation (groups
/// in ascending key order; one row of empty aggregates when there is no
/// group key and no row), the output columns put in projection order,
/// ORDER BY over output columns, and LIMIT.
pub open spec fn stream_grouped_spec(sel: SelectV, exprs: Seq<ExprV>, cols: Seq<Seq<char>>, schema: Seq<ColumnDef>, rows: Seq<Seq<SqlValue>>) -> Option<Seq<Seq<SqlValue>>> {
    match group_plan_spec(sel.group_by, exprs, schema) {
        None => None,
        Some((keys, aggs, pos)) => match where_spec(sel.selection, schema, rows) {
            None => None,
            Some(kept) => match aggregate_output(kept, keys, aggs) {
                None => None,
                Some(outs) => match reorder_all(outs, pos) {
                    None => None,
                    Some(re) => {
                        let filled = if re.len() == 0 && keys.len() == 0 { seq![empty_agg_row(aggs)] } else { re };
                        if sel.order_by.len() == 0 {
                            Some(limit_rows(filled, sel.limit))
                        } else {
                            match order_positions_spec(sel.order_by, cols) {
                                Some(ps) => Some(limit_rows(pos_sorted(filled, ps, order_desc(sel.order_by)), sel.limit)),
                                None => None,
                            }
                        }
                    },
                },
            },
        },
    }
}

/// The directions of ORDER BY items.
fn order_directions(order_by: &Vec<OrderBy>) -> (r: Vec<bool>)
    ensures
        r@ == order_desc(order_by@.map_values(|o: OrderBy| o@)),
{
    let (_, desc) = order_parts(order_by);
    desc
}

/// Grouped rows of the batch pipeline (see [`stream_grouped_spec`]).
fn stream_grouped(sel: &Select, exprs: &Vec<Expr>, cols: &Vec<String>, schema: &[ColumnDef], rows: &Vec<Row>) -> (r: Result<Vec<Row>, String>)
    requires
        sel.group_by@.len() + exprs@.len() <= usize::MAX,
        exprs@.len() == cols@.len(),
    ensures
        match stream_grouped_spec(sel@, exprs_of(exprs@), cols@.map_values(|s: String| s@), schema@, rows_view(rows@)) {
            Some(o) => r matches Ok(v) && rows_view(v@) == o,
            None => r is Err,
        },
        group_plan_spec(sel@.group_by, exprs_of(exprs@), schema@) is None
            ==> (r matches Err(m) && m@ == group_plan_msg(sel@.group_by, exprs_of(exprs@), schema@)),
{
    assert(sel@.group_by =~= exprs_of(sel.group_by@));
    assert(opt_expr(sel.selection) == sel@.selection);
    let (keys, aggs, pos) = match group_plan(&sel.group_by, exprs, schema) {
        Ok(p) => p,
        Err(m) => {
            return Err(m);
        },
    };
    proof { lemma_group_plan_shape(sel@.group_by, exprs_of(exprs@), schema@); }
    let kept = match filter_rows(&sel.selection, schema, rows) {
        Ok(k) => k,
        Err(m) => {
            return Err(m);
        },
    };
    let outs = match aggregate_rows(&kept, &keys, &aggs) {
        Ok(o) => o,
        Err(m) => {
            return Err(m);
        },
    };
    let mut re = match reorder_rows(&outs, &pos) {
        Ok(x) => x,
        Err(m) => {
            return Err(m);
        },
    };
    if re.len() == 0 && keys.len() == 0 {
        let e = empty_agg_row_exec(&aggs);
        re.push(e);
        assert(rows_view(re@) =~= seq![empty_agg_row(aggs@)]);
    }
    assert(forall|k: int| 0 <= k < re@.len() ==> (#[trigger] re@[k])@.len() == exprs@.len());
    if sel.order_by.len() == 0 {
        let ghost rv = rows_view(re@);
        let out = truncate_rows(re, sel.limit);
        assert(rows_view(out@) =~= limit_rows(rv, sel.limit));
        return Ok(out);
    }
    let ps = match order_positions(&sel.order_by, cols) {
        Ok(p) => p,
        Err(m) => {
            return Err(m);
        },
    };
    let desc = order_directions(&sel.order_by);
    let sorted = sort_by_positions(&re, &ps, &desc);
    let ghost sv = rows_view(sorted@);
    let out = truncate_rows(sorted, sel.limit);
    assert(rows_view(out@) =~= limit_rows(sv, sel.limit));
    Ok(out)
}

// ── a single-table SELECT in the batch pipeline ───────────────────────

/// Models of rows given as value sequences.
pub open spec fn seqs_deep(rows: Seq<Seq<SqlValue>>) -> Seq<Seq<ValueV>> {
    rows.map_values(|r: Seq<SqlValue>| r.map_values(|v: SqlValue| v.deep_view()))
}

proof fn lemma_rows_deep(v: Seq<Row>)
    ensures
        rows_deep(v) == seqs_deep(rows_view(v)),
{
    assert forall|k: int| 0 <= k < v.len() implies rows_deep(v)[k] == seqs_deep(rows_view(v))[k] by {
        assert(rows_deep(v)[k] =~= seqs_deep(rows_view(v))[k]);
    }
    assert(rows_deep(v) =~= seqs_deep(rows_view(v)));
}

/// A query aggregates when it has GROUP BY or calls an aggregate.
pub open spec fn is_agg_query(sel: SelectV, exprs: Seq<ExprV>) -> bool {
    sel.group_by.len() > 0 || exists|k: int| 0 <= k < exprs.len() && has_agg(#[trigger] exprs[k])
}

/// Whether any expression calls an aggregate.
fn any_aggregate(exprs: &Vec<Expr>) -> (r: bool)
    ensures
        r == exists|k: int| 0 <= k < exprs@.len() && has_agg(#[trigger] exprs_of(exprs@)[k]),
{
    let mut i: usize = 0;
    while i < exprs.len()
        invariant
            i <= exprs@.len(),
            forall|k: int| 0 <= k < i ==> !has_agg(#[trigger] exprs_of(exprs@)[k]),
        decreases exprs@.len() - i,
    {
        if contains_aggregate(&exprs[i]) {
            assert(has_agg(exprs_of(exprs@)[i as int]));
            return true;
        }
        i = i + 1;
    }
    false
}

/// A single-table SELECT in the batch pipeline: the projection's columns,
/// and the rows, grouped ([`stream_grouped_spec`]) for an aggregate query,
/// else filtered, sorted (a key that fails sorts as NULL), limited and
/// projected ([`plain_rows_spec`]).
pub open spec fn stream_select_spec(sel: SelectV, schema: Seq<ColumnDef>, rows: Seq<Seq<SqlValue>>) -> Option<(Seq<Seq<char>>, Seq<Seq<ValueV>>)> {
    match projection_spec(sel.projection, schema) {
        None => None,
        Some((es, cols)) => if is_agg_query(sel, es) {
            match stream_grouped_spec(sel, es, cols, schema, rows) {
                Some(o) => Some((cols, seqs_deep(o))),
                None => None,
            }
        } else {
            match plain_rows_spec(sel, es, schema, rows, false) {
                Some(o) => Some((cols, o)),
                None => None,
            }
        },
    }
}

/// Output columns and rows of a single-table SELECT over the rows read from
/// the table, as the batch pipeline computes them (see
/// [`stream_select_spec`]); handing them on in batches is the caller's part.
pub fn stream_select(sel: &Select, schema: &[ColumnDef], rows: &Vec<Row>) -> (r: Result<(Vec<String>, Vec<Row>), String>)
    requires
        sel.group_by@.len() + sel.projection@.len() + schema@.len() <= usize::MAX,
    ensures
        match stream_select_spec(sel@, schema@, rows_view(rows@)) {
            Some((cols, o)) => r matches Ok(x) && x.0@.map_values(|s: String| s@) == cols && rows_deep(x.1@) == o,
            None => r is Err,
        },
        match projection_spec(sel@.projection, schema@) {
            Some((es, _)) => is_agg_query(sel@, es) && group_plan_spec(sel@.group_by, es, schema@) is None
                ==> (r matches Err(m) && m@ == group_plan_msg(sel@.group_by, es, schema@)),
            None => true,
        },
{
    let (exprs, cols) = match projection_specs(sel, schema) {
        Ok(p) => p,
        Err(m) => {
            return Err(m);
        },
    };
    proof {
        let ps = projection_spec(sel@.projection, schema@);
        assert(exprs@.len() == exprs_of(exprs@).len());
        assert(cols@.len() == cols@.map_values(|s: String| s@).len());
        assert(exprs@.len() == sel.projection@.len() || exprs@.len() == schema@.len());
    }
    if sel.group_by.len() > 0 || any_aggregate(&exprs) {
        match stream_grouped(sel, &exprs, &cols, schema, rows) {
            Ok(out) => {
                proof { lemma_rows_deep(out@); }
                Ok((cols, out))
            },
            Err(m) => Err(m),
        }
    } else {
        match plain_rows(sel, &exprs, schema, rows, false) {
            Ok(out) => Ok((cols, out)),
            Err(m) => Err(m),
        }
    }
}

// ── GROUP BY, row at a time ───────────────────────────────────────────

/// Output rows of groups: each key followed by its aggregates, computed as
/// the row-at-a-time aggregate does.
pub open spec fn volcano_outputs(gs: Seq<GroupV>, aggs: Seq<(AggFn, Option<usize>)>) -> Option<Seq<Seq<SqlValue>>>
    decreases gs.len(),
{
    if gs.len() == 0 {
        Some(Seq::empty())
    } else {
        match (volcano_outputs(gs.drop_last(), aggs), agg_row(aggs, gs.last().1)) {
            (Some(outs), Some(vals)) => Some(outs.push(gs.last().0 + vals)),
            _ => None,
        }
    }
}

/// A projection with no `*`.
pub open spec fn no_star(items: Seq<SelectItemV>) -> bool {
    forall|k: int| 0 <= k < items.len() ==> !(#[trigger] items[k] is Star)
}

/// A grouped SELECT, row at a time: every projection item must be an
/// expression (its label is its rendered text); rows are filtered, grouped
/// in ascending key order, and the aggregates computed lazily: without
/// ORDER BY only for the groups up to LIMIT, with it for every group, the
/// output then sorted by the named output columns and limited. LIMIT 0
/// aggregates nothing.
pub open spec fn group_by_spec(sel: SelectV, schema: Seq<ColumnDef>, rows: Seq<Seq<SqlValue>>) -> Option<(Seq<Seq<char>>, Seq<Seq<SqlValue>>)> {
    let exprs = sel.projection.map_values(|i: SelectItemV| item_expr(i));
    let cols = exprs.map_values(|e: ExprV| render(e));
    if !no_star(sel.projection) {
        None
    } else {
        match group_plan_spec(sel.group_by, exprs, schema) {
            None => None,
            Some((keys, aggs, pos)) => match where_spec(sel.selection, schema, rows) {
                None => None,
                Some(kept) => {
                    let ops = if sel.order_by.len() == 0 { Some(Seq::<usize>::empty()) } else { order_positions_spec(sel.order_by, cols) };
                    match ops {
                        None => None,
                        Some(ps) => if sel.limit == Some(0usize) {
                            Some((cols, Seq::empty()))
                        } else if !(forall|k: int| 0 <= k < kept.len() ==> has_cols(#[trigger] kept[k], keys)) {
                            None
                        } else {
                            let gs = group_rows(kept, keys);
                            if sel.order_by.len() == 0 {
                                match volcano_outputs(limit_rows(gs, sel.limit), aggs) {
                                    Some(o) => match reorder_all(o, pos) {
                                        Some(re) => Some((cols, re)),
                                        None => None,
                                    },
                                    None => None,
                                }
                            } else {
                                match volcano_outputs(gs, aggs) {
                                    Some(o) => match reorder_all(o, pos) {
                                        Some(re) => Some((cols, limit_rows(pos_sorted(re, ps, order_desc(sel.order_by)), sel.limit))),
                                        None => None,
                                    },
                                    None => None,
                                }
                            }
                        },
                    }
                },
            },
        }
    }
}

/// Aggregate each group (see [`volcano_outputs`]).
fn volcano_rows(groups: &Vec<Group>, n: usize, aggs: &Vec<(AggFn, Option<usize>)>) -> (r: Result<Vec<Row>, String>)
    requires
        n <= groups@.len(),
    ensures
        match volcano_outputs(groups_view(groups@).take(n as int), aggs@) {
            Some(o) => r matches Ok(v) && rows_view(v@) == o,
            None => r is Err,
        },
{
    let ghost gs = groups_view(groups@).take(n as int);
    let mut outs: Vec<Row> = Vec::new();
    let mut g: usize = 0;
    while g < n
        invariant
            g <= n <= groups@.len(),
            gs == groups_view(groups@).take(n as int),
            volcano_outputs(gs.take(g as int), aggs@) == Some(rows_view(outs@)),
        decreases n - g,
    {
        let grp = &groups[g];
        assert(gs.take(g + 1).drop_last() =~= gs.take(g as int));
        assert(gs.take(g + 1).last() == (grp.0@, rows_of_vecs(grp.1@)));
        match eval_aggs(aggs, &grp.1) {
            Ok(vals) => {
                let mut out = clone_row(grp.0.as_slice());
                let mut k: usize = 0;
                let ghost base = out@;
                while k < vals.len()
                    invariant
                        k <= vals@.len(),
                        out@ == base + vals@.take(k as int),
                    decreases vals@.len() - k,
                {
                    out.push(clone_value(&vals[k]));
                    assert(vals@.take(k + 1) == vals@.take(k as int).push(vals@[k as int]));
                    k = k + 1;
                }
                assert(vals@.take(vals@.len() as int) == vals@);
                let ghost before = rows_view(outs@);
                outs.push(out);
                assert(rows_view(outs@) =~= before.push(out@));
            },
            Err(e) => {
                proof { lemma_volcano_outputs_fail(gs, aggs@, g as int); }
                return Err(e);
            },
        }
        g = g + 1;
    }
    assert(gs.take(n as int) =~= gs);
    Ok(outs)
}

proof fn lemma_volcano_outputs_fail(gs: Seq<GroupV>, aggs: Seq<(AggFn, Option<usize>)>, g: int)
    requires
        0 <= g < gs.len(),
        agg_row(aggs, gs[g].1) is None,
    ensures
        volcano_outputs(gs, aggs) is None,
    decreases gs.len() - g,
{
    if g + 1 < gs.len() {
        lemma_volcano_outputs_fail(gs.drop_last(), aggs, g);
    }
}

/// A grouped SELECT over the rows read from its table, row at a time (see
/// [`group_by_spec`]).
pub fn select_group_by(sel: &Select, schema: &[ColumnDef], rows: &Vec<Row>) -> (r: Result<ExecResult, String>)
    requires
        sel.group_by@.len() + sel.projection@.len() <= usize::MAX,
    ensures
        match group_by_spec(sel@, schema@, rows_view(rows@)) {
            Some((cols, o)) => r matches Ok(x) && x.columns@.map_values(|s: String| s@) == cols
                && rows_view(x.rows@) == o && x.rows_affected == 0,
            None => r is Err,
        },
        !no_star(sel@.projection) ==> (r matches Err(m) && m@ == "unsupported GROUP BY projection"@),
        no_star(sel@.projection) && group_plan_spec(sel@.group_by, sel@.projection.map_values(|i: SelectItemV| item_expr(i)), schema@) is None
            ==> (r matches Err(m) && m@ == group_plan_msg(sel@.group_by, sel@.projection.map_values(|i: SelectItemV| item_expr(i)), schema@)),
{
    let ghost items = sel@.projection;
    let mut exprs: Vec<Expr> = Vec::new();
    let mut cols: Vec<String> = Vec::new();
    let mut i: usize = 0;
    while i < sel.projection.len()
        invariant
            i <= sel.projection@.len(),
            items == sel@.projection,
            items.len() == sel.projection@.len(),
            no_star(items.take(i as int)),
            exprs_of(exprs@) == items.take(i as int).map_values(|i: SelectItemV| item_expr(i)),
            cols@.map_values(|s: String| s@) == items.take(i as int).map_values(|i: SelectItemV| item_expr(i)).map_values(|e: ExprV| render(e)),
        decreases sel.projection@.len() - i,
    {
        assert(items[i as int] == sel.projection@[i as int]@);
        match &sel.projection[i] {
            SelectItem::Expr(e) => {
                let ghost e0 = exprs_of(exprs@);
                let ghost c0 = cols@.map_values(|s: String| s@);
                exprs.push(clone_expr(e));
                cols.push(format_expr(e));
                assert(items.take(i + 1) =~= items.take(i as int).push(items[i as int]));
                assert(exprs_of(exprs@) =~= e0.push(e@));
                assert(cols@.map_values(|s: String| s@) =~= c0.push(render(e@)));
                assert(items.take(i + 1).map_values(|i: SelectItemV| item_expr(i))
                    =~= items.take(i as int).map_values(|i: SelectItemV| item_expr(i)).push(e@));
                assert(items.take(i + 1).map_values(|i: SelectItemV| item_expr(i)).map_values(|e: ExprV| render(e))
                    =~= items.take(i as int).map_values(|i: SelectItemV| item_expr(i)).map_values(|e: ExprV| render(e)).push(render(e@)));
            },
            SelectItem::Star => {
                assert(items[i as int] is Star);
                return Err(msg("unsupported GROUP BY projection"));
            },
        }
        i = i + 1;
    }
    assert(items.take(items.len() as int) =~= items);
    assert(sel@.group_by =~= exprs_of(sel.group_by@));
    assert(opt_expr(sel.selection) == sel@.selection);
    let (keys, aggs, pos) = match group_plan(&sel.group_by, &exprs, schema) {
        Ok(p) => p,
        Err(m) => {
            return Err(m);
        },
    };
    proof { lemma_group_plan_shape(sel@.group_by, exprs_of(exprs@), schema@); }
    let kept = match filter_rows(&sel.selection, schema, rows) {
        Ok(k) => k,
        Err(m) => {
            return Err(m);
        },
    };
    let ps = if sel.order_by.len() == 0 {
        Vec::new()
    } else {
        match order_positions(&sel.order_by, &cols) {
            Ok(p) => p,
            Err(m) => {
                return Err(m);
            },
        }
    };
    if let Some(0usize) = sel.limit {
        let out: Vec<Row> = Vec::new();
        assert(rows_view(out@) =~= Seq::<Seq<SqlValue>>::empty());
        return Ok(ExecResult { columns: cols, rows: out, rows_affected: 0 });
    }
    let groups = match group_rows_exec(&kept, &keys) {
        Ok(g) => g,
        Err(m) => {
            proof {
                let k = choose|k: int| 0 <= k < kept@.len() && !has_cols(#[trigger] kept@[k]@, keys@);
                assert(rows_view(kept@)[k] == kept@[k]@);
            }
            return Err(m);
        },
    };
    assert(rows_view(kept@) == rows_of_vecs(kept@));
    let ghost gs = groups_view(groups@);
    if sel.order_by.len() == 0 {
        let n = match sel.limit {
            Some(l) => if l < groups.len() { l } else { groups.len() },
            None => groups.len(),
        };
        assert(gs.take(n as int) =~= limit_rows(gs, sel@.limit));
        let outs = match volcano_rows(&groups, n, &aggs) {
            Ok(o) => o,
            Err(m) => {
                return Err(m);
            },
        };
        return match reorder_rows(&outs, &pos) {
            Ok(re) => Ok(ExecResult { columns: cols, rows: re, rows_affected: 0 }),
            Err(m) => Err(m),
        };
    }
    assert(gs.take(groups@.len() as int) =~= gs);
    let outs = match volcano_rows(&groups, groups.len(), &aggs) {
        Ok(o) => o,
        Err(m) => {
            return Err(m);
        },
    };
    let re = match reorder_rows(&outs, &pos) {
        Ok(x) => x,
        Err(m) => {
            return Err(m);
        },
    };
    let desc = order_directions(&sel.order_by);
    let sorted = sort_by_positions(&re, &ps, &desc);
    let ghost sv = rows_view(sorted@);
    let out = truncate_rows(sorted, sel.limit);
    assert(rows_view(out@) =~= limit_rows(sv, sel@.limit));
    Ok(ExecResult { columns: cols, rows: out, rows_affected: 0 })
}

// ── ungrouped aggregates and the row-at-a-time SELECT ─────────────────

/// The values of the aggregates over rows, in order; `None` when one fails.
pub open spec fn agg_values(aggs: Seq<(Seq<char>, AggFn, Option<usize>)>, rows: Seq<Seq<SqlValue>>) -> Option<Seq<ValueV>>
    decreases aggs.len(),
{
    if aggs.len() == 0 {
        Some(Seq::empty())
    } else {
        match (agg_values(aggs.drop_last(), rows), aggregate_spec(aggs.last().1, aggs.last().2, rows)) {
            (Some(vs), Some(v)) => Some(vs.push(v)),
            _ => None,
        }
    }
}

/// Labels and values of an ungrouped aggregate query over the rows that
/// pass WHERE (ORDER BY and LIMIT play no part).
pub open spec fn aggregates_spec(sel: SelectV, aggs: Seq<(Seq<char>, AggFn, Option<usize>)>, schema: Seq<ColumnDef>, rows: Seq<Seq<SqlValue>>) -> Option<(Seq<Seq<char>>, Seq<ValueV>)> {
    match where_spec(sel.selection, schema, rows) {
        Some(kept) => match agg_values(aggs, kept) {
            Some(vs) => Some((aggs.map_values(|a: (Seq<char>, AggFn, Option<usize>)| a.0), vs)),
            None => None,
        },
        None => None,
    }
}

/// An ungrouped aggregate query (`SELECT COUNT(*), SUM(v) FROM t WHERE ..`)
/// over the rows read from its table: one row of aggregate values.
pub fn select_aggregates(sel: &Select, schema: &[ColumnDef], aggs: &Vec<Aggregate>, rows: &Vec<Row>) -> (r: Result<ExecResult, String>)
    requires
        rows@.len() <= i64::MAX,
    ensures
        match aggregates_spec(sel@, aggs@.map_values(|a: Aggregate| agg_view(a)), schema@, rows_view(rows@)) {
            Some((cols, vals)) => r matches Ok(x) && x.columns@.map_values(|s: String| s@) == cols
                && x.rows@.len() == 1 && x.rows@[0].deep_view() == vals && x.rows_affected == 0,
            None => r is Err,
        },
{
    assert(opt_expr(sel.selection) == sel@.selection);
    let kept = match filter_rows(&sel.selection, schema, rows) {
        Ok(k) => k,
        Err(m) => {
            return Err(m);
        },
    };
    let ghost av = aggs@.map_values(|a: Aggregate| agg_view(a));
    let ghost kv = rows_view(kept@);
    proof { lemma_where_len(sel@.selection, schema@, rows_view(rows@)); }
    let mut vals: Row = Vec::new();
    let mut cols: Vec<String> = Vec::new();
    let mut i: usize = 0;
    while i < aggs.len()
        invariant
            i <= aggs@.len(),
            av == aggs@.map_values(|a: Aggregate| agg_view(a)),
            kv == rows_view(kept@),
            where_spec(sel@.selection, schema@, rows_view(rows@)) == Some(kv),
            kept@.len() <= i64::MAX,
            vals@.len() == i,
            agg_values(av.take(i as int), kv) == Some(vals.deep_view()),
            cols@.map_values(|s: String| s@) == av.take(i as int).map_values(|a: (Seq<char>, AggFn, Option<usize>)| a.0),
        decreases aggs@.len() - i,
    {
        assert(av.take(i + 1).drop_last() =~= av.take(i as int));
        assert(av.take(i + 1).last() == agg_view(aggs@[i as int]));
        match aggs[i].evaluate(kept.as_slice()) {
            Ok(v) => {
                let ghost v0 = vals.deep_view();
                let ghost c0 = cols@.map_values(|s: String| s@);
                vals.push(v);
                cols.push(aggs[i].label.clone());
                assert(vals.deep_view() =~= v0.push(vals@[i as int].deep_view()));
                assert(cols@.map_values(|s: String| s@) =~= c0.push(aggs@[i as int].label@));
                assert(av.take(i + 1).map_values(|a: (Seq<char>, AggFn, Option<usize>)| a.0)
                    =~= av.take(i as int).map_values(|a: (Seq<char>, AggFn, Option<usize>)| a.0).push(aggs@[i as int].label@));
            },
            Err(m) => {
                proof { lemma_agg_values_fail(av, kv, i as int); }
                return Err(m);
            },
        }
        i = i + 1;
    }
    assert(av.take(aggs@.len() as int) =~= av);
    let mut out: Vec<Row> = Vec::new();
    out.push(vals);
    Ok(ExecResult { columns: cols, rows: out, rows_affected: 0 })
}

proof fn lemma_agg_values_fail(aggs: Seq<(Seq<char>, AggFn, Option<usize>)>, rows: Seq<Seq<SqlValue>>, i: int)
    requires
        0 <= i < aggs.len(),
        aggregate_spec(aggs[i].1, aggs[i].2, rows) is None,
    ensures
        agg_values(aggs, rows) is None,
    decreases aggs.len() - i,
{
    if i + 1 < aggs.len() {
        lemma_agg_values_fail(aggs.drop_last(), rows, i);
    }
}

/// A single-table SELECT over the rows read from its table, row at a time:
/// GROUP BY ([`group_by_spec`]), else an ungrouped aggregate query
/// ([`aggregates_spec`]), else the plain pipeline ([`plain_rows_spec`]).
pub open spec fn select_spec(sel: SelectV, schema: Seq<ColumnDef>, rows: Seq<Seq<SqlValue>>) -> Option<(Seq<Seq<char>>, Seq<Seq<ValueV>>)> {
    if sel.group_by.len() > 0 {
        match group_by_spec(sel, schema, rows) {
            Some((cols, o)) => Some((cols, seqs_deep(o))),
            None => None,
        }
    } else {
        match parse_aggs(sel.projection, schema, 0, Seq::empty()) {
            Err(_) => None,
            Ok(Some(aggs)) => match aggregates_spec(sel, aggs, schema, rows) {
                Some((cols, vals)) => Some((cols, seq![vals])),
                None => None,
            },
            Ok(None) => match projection_spec(sel.projection, schema) {
                Some((es, cols)) => match plain_rows_spec(sel, es, schema, rows, true) {
                    Some(o) => Some((cols, o)),
                    None => None,
                },
                None => None,
            },
        }
    }
}

/// A single-table SELECT over the rows read from its table, row at a time
/// (see [`select_spec`]).
pub fn select_rows(sel: &Select, schema: &[ColumnDef], rows: &Vec<Row>) -> (r: Result<ExecResult, String>)
    requires
        sel.group_by@.len() + sel.projection@.len() <= usize::MAX,
        rows@.len() <= i64::MAX,
    ensures
        match select_spec(sel@, schema@, rows_view(rows@)) {
            Some((cols, o)) => r matches Ok(x) && x.columns@.map_values(|s: String| s@) == cols
                && rows_deep(x.rows@) == o && x.rows_affected == 0,
            None => r is Err,
        },
{
    if sel.group_by.len() > 0 {
        return match select_group_by(sel, schema, rows) {
            Ok(x) => {
                proof { lemma_rows_deep(x.rows@); }
                Ok(x)
            },
            Err(m) => Err(m),
        };
    }
    match try_parse_aggregates(sel.projection.as_slice(), schema) {
        Err(m) => Err(m),
        Ok(Some(aggs)) => {
            assert(sel@.projection == sel.projection@.map_values(|i: SelectItem| i@));
            match select_aggregates(sel, schema, &aggs, rows) {
                Ok(x) => {
                    assert(rows_deep(x.rows@) =~= seq![x.rows@[0].deep_view()]);
                    Ok(x)
                },
                Err(m) => Err(m),
            }
        },
        Ok(None) => run_select(sel, schema, rows),
    }
}

// ── joins ─────────────────────────────────────────────────────────────

/// The tables of a FROM clause: one table, or the two tables of a join
/// whose left side is a table; a join of a table with itself is refused.
pub open spec fn from_spec(from: TableRefV) -> Option<(Seq<char>, Option<Seq<char>>)> {
    match from {
        TableRefV::Table(t) => Some((t, None)),
        TableRefV::Join { left, right, .. } => match *left {
            TableRefV::Table(lt) => if lt == right { None } else { Some((lt, Some(right))) },
            _ => None,
        },
    }
}

/// Model of an optional text.
pub open spec fn opt_text(o: Option<String>) -> Option<Seq<char>> {
    match o {
        Some(s) => Some(s@),
        None => None,
    }
}

/// Why a FROM clause is refused.
pub open spec fn from_msg(from: TableRefV) -> Seq<char> {
    match from {
        TableRefV::Join { left, .. } => if *left is Table { "self-joins unsupported"@ } else { "JOIN left side must be a table"@ },
        _ => Seq::empty(),
    }
}

/// The tables a SELECT reads (see [`from_spec`]); a join whose left side
/// is a join, or of a table with itself, is refused with its message.
pub fn from_tables(from: &TableRef) -> (r: Result<(String, Option<String>), String>)
    ensures
        match from_spec(from@) {
            Some((t, o)) => r matches Ok(x) && x.0@ == t && opt_text(x.1) == o,
            None => r matches Err(m) && m@ == from_msg(from@),
        },
{
    match from {
        TableRef::Table(t) => {
            assert(from@ == TableRefV::Table(t@));
            Ok((t.clone(), None))
        },
        TableRef::Join { left, right, .. } => match &**left {
            TableRef::Table(lt) => {
                assert((**left)@ == TableRefV::Table(lt@));
                if str_eq(lt.as_str(), right.as_str()) {
                    Err(msg("self-joins unsupported"))
                } else {
                    Ok((lt.clone(), Some(right.clone())))
                }
            },
            TableRef::Join { .. } => {
                assert((**left)@ is Join);
                Err(msg("JOIN left side must be a table"))
            },
        },
    }
}

/// Side (`0` left, `1` right) and position of a column named in JOIN ON;
/// `None` when neither table has it or both do.
pub open spec fn join_side(name: Seq<char>, lschema: Seq<ColumnDef>, rschema: Seq<ColumnDef>) -> Option<(u8, usize)> {
    match (col_from(lschema, name, 0), col_from(rschema, name, 0)) {
        (Some(p), None) => Some((0u8, p as usize)),
        (None, Some(p)) => Some((1u8, p as usize)),
        _ => None,
    }
}

/// The key positions (left, right) of `JOIN .. ON a = b`: both sides must
/// be columns, one of each table.
pub open spec fn join_keys_spec(on: ExprV, lschema: Seq<ColumnDef>, rschema: Seq<ColumnDef>) -> Option<(usize, usize)> {
    match on {
        ExprV::BinaryOp { left, op, right } => if op != BinOp::Eq {
            None
        } else {
            match (*left, *right) {
                (ExprV::Identifier(a), ExprV::Identifier(b)) => match (join_side(a, lschema, rschema), join_side(b, lschema, rschema)) {
                    (Some((sa, x)), Some((sb, y))) => if sa == 0 && sb == 1 {
                        Some((x, y))
                    } else if sa == 1 && sb == 0 {
                        Some((y, x))
                    } else {
                        None
                    },
                    _ => None,
                },
                _ => None,
            }
        },
        _ => None,
    }
}

fn find_side(name: &str, lschema: &[ColumnDef], rschema: &[ColumnDef]) -> (r: Option<(u8, usize)>)
    ensures
        r == join_side(name@, lschema@, rschema@),
        r matches Some((s, p)) ==> (s == 0 ==> p < lschema@.len()) && (s == 1 ==> p < rschema@.len()),
{
    let l = col_pos(lschema, name);
    let r = col_pos(rschema, name);
    match (l, r) {
        (Ok(p), Err(_)) => Some((0u8, p)),
        (Err(_), Ok(p)) => Some((1u8, p)),
        _ => None,
    }
}

/// Why `JOIN .. ON` is refused, checked in order: no equality, a side that
/// is no column, a column neither (or both) tables have, both columns of
/// one table.
pub open spec fn join_keys_msg(on: ExprV, lschema: Seq<ColumnDef>, rschema: Seq<ColumnDef>) -> Seq<char> {
    match on {
        ExprV::BinaryOp { left, op, right } => if op != BinOp::Eq {
            "JOIN ON must be an equality"@
        } else {
            match (*left, *right) {
                (ExprV::Identifier(a), ExprV::Identifier(b)) => if join_side(a, lschema, rschema) is None {
                    "unknown column "@ + a
                } else if join_side(b, lschema, rschema) is None {
                    "unknown column "@ + b
                } else {
                    "JOIN ON must span both tables"@
                },
                _ => "JOIN ON sides must be columns"@,
            }
        },
        _ => "JOIN ON must be an equality"@,
    }
}

/// Resolve `JOIN .. ON a = b` to the key positions (see [`join_keys_spec`]).
pub fn join_keys(on: &Expr, lschema: &[ColumnDef], rschema: &[ColumnDef]) -> (r: Result<(usize, usize), String>)
    ensures
        match join_keys_spec(on@, lschema@, rschema@) {
            Some((x, y)) => r == Ok::<(usize, usize), String>((x, y)) && x < lschema@.len() && y < rschema@.len(),
            None => r matches Err(m) && m@ == join_keys_msg(on@, lschema@, rschema@),
        },
{
    match on {
        Expr::BinaryOp { left, op, right } => {
            assert(on@ == ExprV::BinaryOp { left: Box::new(left@), op: *op, right: Box::new(right@) });
            if !matches!(op, BinOp::Eq) {
                return Err(msg("JOIN ON must be an equality"));
            }
            let (a, b) = match (&**left, &**right) {
                (Expr::Identifier(a), Expr::Identifier(b)) => {
                    assert(left@ == ExprV::Identifier(a@) && right@ == ExprV::Identifier(b@));
                    (a, b)
                },
                _ => {
                    return Err(msg("JOIN ON sides must be columns"));
                },
            };
            let sa = match find_side(a.as_str(), lschema, rschema) {
                Some(x) => x,
                None => {
                    return Err(join2("unknown column ", a.as_str()));
                },
            };
            let sb = match find_side(b.as_str(), lschema, rschema) {
                Some(x) => x,
                None => {
                    return Err(join2("unknown column ", b.as_str()));
                },
            };
            if sa.0 == 0 && sb.0 == 1 {
                Ok((sa.1, sb.1))
            } else if sa.0 == 1 && sb.0 == 0 {
                Ok((sb.1, sa.1))
            } else {
                Err(msg("JOIN ON must span both tables"))
            }
        },
        _ => Err(msg("JOIN ON must be an equality")),
    }
}

/// Inner equi-join as a nested loop: for each left row in order, the left
/// row followed by each right row with an equal, non-NULL key, in right
/// order.
pub open spec fn join_all(left: Seq<Seq<SqlValue>>, lkey: usize, right: Seq<Row>, rkey: usize) -> Seq<Seq<SqlValue>>
    decreases left.len(),
{
    if left.len() == 0 {
        Seq::empty()
    } else {
        join_all(left.drop_last(), lkey, right, rkey) + join_output(left.last(), lkey, right, rkey)
    }
}

/// Join two row sets in which every row has its key column.
pub fn join_rows(left: &Vec<Row>, right: &Vec<Row>, lkey: usize, rkey: usize) -> (r: Vec<Row>)
    requires
        forall|k: int| 0 <= k < left@.len() ==> lkey < (#[trigger] left@[k])@.len(),
        forall|k: int| 0 <= k < right@.len() ==> rkey < (#[trigger] right@[k])@.len(),
    ensures
        rows_view(r@) == join_all(rows_view(left@), lkey, right@, rkey),
{
    let ghost lv = rows_view(left@);
    let mut out: Vec<Row> = Vec::new();
    let mut i: usize = 0;
    while i < left.len()
        invariant
            i <= left@.len(),
            lv == rows_view(left@),
            forall|k: int| 0 <= k < left@.len() ==> lkey < (#[trigger] left@[k])@.len(),
            forall|k: int| 0 <= k < right@.len() ==> rkey < (#[trigger] right@[k])@.len(),
            rows_view(out@) == join_all(lv.take(i as int), lkey, right@, rkey),
        decreases left@.len() - i,
    {
        assert(lv.take(i + 1).drop_last() =~= lv.take(i as int));
        assert(lv.take(i + 1).last() == left@[i as int]@);
        let outs = join_probe(right, rkey, lkey, &left[i]);
        let ghost o0 = rows_view(out@);
        let mut k: usize = 0;
        while k < outs.len()
            invariant
                k <= outs@.len(),
                rows_view(out@) == o0 + rows_view(outs@).take(k as int),
            decreases outs@.len() - k,
        {
            let ghost before = rows_view(out@);
            out.push(clone_row(outs[k].as_slice()));
            assert(rows_view(out@) =~= before.push(outs@[k as int]@));
            assert(rows_view(outs@).take(k + 1) =~= rows_view(outs@).take(k as int).push(outs@[k as int]@));
            assert(rows_view(out@) =~= o0 + rows_view(outs@).take(k + 1));
            k = k + 1;
        }
        assert(rows_view(outs@).take(outs@.len() as int) =~= rows_view(outs@));
        assert(rows_view(outs@) == outs@.map_values(|x: Row| x@));
        i = i + 1;
    }
    assert(lv.take(left@.len() as int) =~= lv);
    out
}

pub(crate) fn clone_schema(s: &[ColumnDef], out: &mut Vec<ColumnDef>)
    ensures
        final(out)@ == old(out)@ + s@,
{
    let ghost o0 = out@;
    let mut i: usize = 0;
    while i < s.len()
        invariant
            i <= s@.len(),
            out@ == o0 + s@.take(i as int),
        decreases s@.len() - i,
    {
        let c = ColumnDef { name: s[i].name.clone(), ty: s[i].ty, nullable: s[i].nullable };
        assert(c == s@[i as int]);
        out.push(c);
        assert(s@.take(i + 1) =~= s@.take(i as int).push(s@[i as int]));
        assert(out@ =~= o0 + s@.take(i + 1));
        i = i + 1;
    }
    assert(s@.take(s@.len() as int) =~= s@);
}

/// The rows of the two tables, each of its table's width.
pub open spec fn rows_fit(rows: Seq<Row>, schema: Seq<ColumnDef>) -> bool {
    forall|k: int| 0 <= k < rows.len() ==> (#[trigger] rows[k])@.len() == schema.len()
}

/// The ON expression of a join.
pub open spec fn join_on(from: TableRefV) -> ExprV {
    match from {
        TableRefV::Join { on, .. } => on,
        _ => ExprV::Identifier(Seq::empty()),
    }
}

/// A join SELECT: the keys of ON, the columns of both tables (left first)
/// for the projection, WHERE, ORDER BY and LIMIT over the joined rows,
/// row at a time ([`plain_rows_spec`]) or as the batch pipeline does it
/// ([`eager_rows_spec`], a key that fails sorting as NULL).
pub open spec fn join_select_spec(sel: SelectV, lschema: Seq<ColumnDef>, rschema: Seq<ColumnDef>, left: Seq<Row>, right: Seq<Row>, stream: bool) -> Option<(Seq<Seq<char>>, Seq<Seq<ValueV>>)> {
    match join_keys_spec(join_on(sel.from), lschema, rschema) {
        None => None,
        Some((lk, rk)) => match projection_spec(sel.projection, lschema + rschema) {
            None => None,
            Some((es, cols)) => {
                let joined = join_all(rows_view(left), lk, right, rk);
                let o = if stream {
                    eager_rows_spec(sel, es, lschema + rschema, joined, false)
                } else {
                    plain_rows_spec(sel, es, lschema + rschema, joined, true)
                };
                match o {
                    Some(rows) => Some((cols, rows)),
                    None => None,
                }
            },
        },
    }
}

fn join_select(sel: &Select, lschema: &[ColumnDef], rschema: &[ColumnDef], left: &Vec<Row>, right: &Vec<Row>, stream: bool) -> (r: Result<(Vec<String>, Vec<Row>), String>)
    requires
        sel@.from is Join,
        rows_fit(left@, lschema@),
        rows_fit(right@, rschema@),
    ensures
        match join_select_spec(sel@, lschema@, rschema@, left@, right@, stream) {
            Some((cols, o)) => r matches Ok(x) && x.0@.map_values(|s: String| s@) == cols && rows_deep(x.1@) == o,
            None => r is Err,
        },
        join_keys_spec(join_on(sel@.from), lschema@, rschema@) is None
            ==> (r matches Err(m) && m@ == join_keys_msg(join_on(sel@.from), lschema@, rschema@)),
{
    let on = match &sel.from {
        TableRef::Join { on, .. } => on,
        TableRef::Table(_) => {
            return Err(msg("JOIN expected"));
        },
    };
    assert(join_on(sel@.from) == on@);
    let (lk, rk) = match join_keys(on, lschema, rschema) {
        Ok(k) => k,
        Err(m) => {
            return Err(m);
        },
    };
    let mut combined: Vec<ColumnDef> = Vec::new();
    clone_schema(lschema, &mut combined);
    clone_schema(rschema, &mut combined);
    assert(combined@ =~= lschema@ + rschema@);
    let (exprs, cols) = match projection_specs(sel, combined.as_slice()) {
        Ok(p) => p,
        Err(m) => {
            return Err(m);
        },
    };
    let joined = join_rows(left, right, lk, rk);
    let out = if stream {
        eager_rows(sel, &exprs, combined.as_slice(), &joined, false)
    } else {
        plain_rows(sel, &exprs, combined.as_slice(), &joined, true)
    };
    match out {
        Ok(o) => Ok((cols, o)),
        Err(m) => Err(m),
    }
}

/// A join SELECT over the rows read from both tables, row at a time (see
/// [`join_select_spec`]).
pub fn select_join(sel: &Select, lschema: &[ColumnDef], rschema: &[ColumnDef], left: &Vec<Row>, right: &Vec<Row>) -> (r: Result<ExecResult, String>)
    requires
        sel@.from is Join,
        rows_fit(left@, lschema@),
        rows_fit(right@, rschema@),
    ensures
        match join_select_spec(sel@, lschema@, rschema@, left@, right@, false) {
            Some((cols, o)) => r matches Ok(x) && x.columns@.map_values(|s: String| s@) == cols
                && rows_deep(x.rows@) == o && x.rows_affected == 0,
            None => r is Err,
        },
        join_keys_spec(join_on(sel@.from), lschema@, rschema@) is None
            ==> (r matches Err(m) && m@ == join_keys_msg(join_on(sel@.from), lschema@, rschema@)),
{
    match join_select(sel, lschema, rschema, left, right, false) {
        Ok((cols, rows)) => Ok(ExecResult { columns: cols, rows, rows_affected: 0 }),
        Err(m) => Err(m),
    }
}

/// Output columns and rows of a join SELECT over the rows read from both
/// tables, as the batch pipeline computes them (see [`join_select_spec`]).
pub fn stream_join(sel: &Select, lschema: &[ColumnDef], rschema: &[ColumnDef], left: &Vec<Row>, right: &Vec<Row>) -> (r: Result<(Vec<String>, Vec<Row>), String>)
    requires
        sel@.from is Join,
        rows_fit(left@, lschema@),
        rows_fit(right@, rschema@),
    ensures
        match join_select_spec(sel@, lschema@, rschema@, left@, right@, true) {
            Some((cols, o)) => r matches Ok(x) && x.0@.map_values(|s: String| s@) == cols && rows_deep(x.1@) == o,
            None => r is Err,
        },
        join_keys_spec(join_on(sel@.from), lschema@, rschema@) is None
            ==> (r matches Err(m) && m@ == join_keys_msg(join_on(sel@.from), lschema@, rschema@)),
{
    join_select(sel, lschema, rschema, left, right, true)
}

// ── INSERT values and DDL checks ──────────────────────────────────────

/// The value a VALUES cell gives a column: it must be a literal, NULL only
/// where the column is nullable, else of the column's type.
pub open spec fn cell_spec(e: ExprV, def: ColumnDef) -> Option<ValueV> {
    match e {
        ExprV::Literal(v) => if v is Null {
            if def.nullable { Some(v) } else { None }
        } else if type_accepts(def.ty, v) {
            Some(v)
        } else {
            None
        },
        _ => None,
    }
}

/// The values of one VALUES row: one cell per column, in order.
pub open spec fn row_values_spec(cells: Seq<ExprV>, schema: Seq<ColumnDef>) -> Option<Seq<ValueV>>
    decreases cells.len(),
{
    if cells.len() != schema.len() {
        None
    } else if cells.len() == 0 {
        Some(Seq::empty())
    } else {
        match (row_values_spec(cells.drop_last(), schema.drop_last()), cell_spec(cells.last(), schema.last())) {
            (Some(vs), Some(v)) => Some(vs.push(v)),
            _ => None,
        }
    }
}

/// The rows an INSERT adds: every VALUES row checked against the schema;
/// `None` when any is refused.
pub open spec fn insert_spec(rows: Seq<Seq<ExprV>>, schema: Seq<ColumnDef>) -> Option<Seq<Seq<ValueV>>>
    decreases rows.len(),
{
    if rows.len() == 0 {
        Some(Seq::empty())
    } else {
        match (insert_spec(rows.drop_last(), schema), row_values_spec(rows.last(), schema)) {
            (Some(vs), Some(v)) => Some(vs.push(v)),
            _ => None,
        }
    }
}

/// The name of a column type.
pub open spec fn column_type_text(t: ColumnType) -> Seq<char> {
    match t {
        ColumnType::Int => "INTEGER"@,
        ColumnType::Text => "TEXT"@,
    }
}

/// The message of the first refused cell of a row from `i` on, where it is
/// stated: a NULL in a NOT NULL column, a value of the wrong type; `None`
/// when the first refused cell is no literal, or no cell is refused.
pub open spec fn cell_msg_from(cells: Seq<ExprV>, schema: Seq<ColumnDef>, i: int) -> Option<Seq<char>>
    decreases cells.len() - i,
{
    if i < 0 || i >= cells.len() || i >= schema.len() {
        None
    } else {
        match cells[i] {
            ExprV::Literal(v) => if v is Null && !schema[i].nullable {
                Some("column "@ + schema[i].name@ + " is NOT NULL"@)
            } else if !(v is Null) && !type_accepts(schema[i].ty, v) {
                Some("column "@ + schema[i].name@ + " expects "@ + column_type_text(schema[i].ty))
            } else {
                cell_msg_from(cells, schema, i + 1)
            },
            _ => None,
        }
    }
}

/// The message refusing a VALUES row, where it is stated: a wrong number
/// of cells, else [`cell_msg_from`].
pub open spec fn row_msg(table: Seq<char>, cells: Seq<ExprV>, schema: Seq<ColumnDef>) -> Option<Seq<char>> {
    if cells.len() != schema.len() {
        Some("table `"@ + table + "` has "@ + int_text((schema.len() as i64) as int) + " columns, got "@
            + int_text((cells.len() as i64) as int))
    } else {
        cell_msg_from(cells, schema, 0)
    }
}

/// The message of an INSERT refused at its first bad row (from `i` on),
/// where it is stated.
pub open spec fn insert_msg(table: Seq<char>, rows: Seq<Seq<ExprV>>, schema: Seq<ColumnDef>, i: int) -> Option<Seq<char>>
    decreases rows.len() - i,
{
    if i < 0 || i >= rows.len() {
        None
    } else if row_values_spec(rows[i], schema) is Some {
        insert_msg(table, rows, schema, i + 1)
    } else {
        row_msg(table, rows[i], schema)
    }
}

/// Whether a value fits a column: NULL only where the column is nullable,
/// otherwise a value of the column's own kind (an integer for INTEGER, a
/// text for TEXT).
pub open spec fn value_fits(v: ValueV, c: ColumnDef) -> bool {
    match v {
        ValueV::Null => c.nullable,
        ValueV::Int(_) => c.ty == ColumnType::Int,
        ValueV::Text(_) => c.ty == ColumnType::Text,
    }
}

proof fn lemma_row_values_fit(cells: Seq<ExprV>, schema: Seq<ColumnDef>)
    requires
        row_values_spec(cells, schema) is Some,
    ensures
        row_values_spec(cells, schema)->0.len() == schema.len(),
        forall|k: int| 0 <= k < schema.len() ==> value_fits(#[trigger] row_values_spec(cells, schema)->0[k], schema[k]),
    decreases cells.len(),
{
    if cells.len() > 0 {
        lemma_row_values_fit(cells.drop_last(), schema.drop_last());
        let r = row_values_spec(cells, schema)->0;
        let r0 = row_values_spec(cells.drop_last(), schema.drop_last())->0;
        assert forall|k: int| 0 <= k < schema.len() implies value_fits(#[trigger] r[k], schema[k]) by {
            if k < schema.len() - 1 {
                assert(r[k] == r0[k]);
                assert(schema[k] == schema.drop_last()[k]);
            } else {
                crate::codec::lemma_type_accepts(schema.last().ty, r[k]);
            }
        }
    }
}

/// Every row an INSERT adds has one value per column, and each value fits
/// its column: NULL only in a nullable column, else of the column's type.
pub proof fn lemma_insert_values_fit(rows: Seq<Seq<ExprV>>, schema: Seq<ColumnDef>)
    requires
        insert_spec(rows, schema) is Some,
    ensures
        insert_spec(rows, schema)->0.len() == rows.len(),
        forall|r: int| 0 <= r < rows.len() ==> (#[trigger] insert_spec(rows, schema)->0[r]).len() == schema.len(),
        forall|r: int, k: int| 0 <= r < rows.len() && 0 <= k < schema.len()
            ==> #[trigger] value_fits(insert_spec(rows, schema)->0[r][k], schema[k]),
    decreases rows.len(),
{
    if rows.len() > 0 {
        lemma_insert_values_fit(rows.drop_last(), schema);
        lemma_row_values_fit(rows.last(), schema);
        let o = insert_spec(rows, schema)->0;
        let o0 = insert_spec(rows.drop_last(), schema)->0;
        assert forall|r: int| 0 <= r < rows.len() implies (#[trigger] o[r]).len() == schema.len() by {
            if r < rows.len() - 1 {
                assert(o[r] == o0[r]);
            }
        }
        assert forall|r: int, k: int| 0 <= r < rows.len() && 0 <= k < schema.len()
            implies #[trigger] value_fits(o[r][k], schema[k]) by {
            if r < rows.len() - 1 {
                assert(o[r] == o0[r]);
            }
        }
    }
}

proof fn lemma_row_values_fail(cells: Seq<ExprV>, schema: Seq<ColumnDef>, i: int)
    requires
        cells.len() == schema.len(),
        0 <= i < cells.len(),
        cell_spec(cells[i], schema[i]) is None,
    ensures
        row_values_spec(cells, schema) is None,
    decreases cells.len() - i,
{
    if i + 1 < cells.len() {
        lemma_row_values_fail(cells.drop_last(), schema.drop_last(), i);
    }
}

/// Check one VALUES row against the schema.
fn row_values(table: &str, cells: &Vec<Expr>, schema: &[ColumnDef]) -> (r: Result<Row, String>)
    ensures
        match row_values_spec(exprs_of(cells@), schema@) {
            Some(vs) => r matches Ok(v) && v.deep_view() == vs,
            None => r is Err,
        },
        row_msg(table@, exprs_of(cells@), schema@) matches Some(m) ==> (r matches Err(x) && x@ == m),
{
    let ghost cs = exprs_of(cells@);
    assert(cells.len() == schema.len() ==> row_msg(table@, cs, schema@) == cell_msg_from(cs, schema@, 0));
    if cells.len() != schema.len() {
        let mut m = join2("table `", table);
        m.append("` has ");
        m.append(int_to_string(schema.len() as i64).as_str());
        m.append(" columns, got ");
        m.append(int_to_string(cells.len() as i64).as_str());
        return Err(m);
    }
    let mut out: Row = Vec::new();
    let mut i: usize = 0;
    while i < cells.len()
        invariant
            i <= cells@.len(),
            cells@.len() == schema@.len(),
            cs == exprs_of(cells@),
            out@.len() == i,
            row_values_spec(cs.take(i as int), schema@.take(i as int)) == Some(out.deep_view()),
            cell_msg_from(cs, schema@, 0) == cell_msg_from(cs, schema@, i as int),
        decreases cells@.len() - i,
    {
        assert(cs.take(i + 1).drop_last() =~= cs.take(i as int));
        assert(schema@.take(i + 1).drop_last() =~= schema@.take(i as int));
        assert(cs.take(i + 1).last() == cells@[i as int]@);
        assert(schema@.take(i + 1).last() == schema@[i as int]);
        let def = &schema[i];
        let v = match literal_value(&cells[i]) {
            Ok(v) => v,
            Err(m) => {
                proof { lemma_row_values_fail(cs, schema@, i as int); }
                return Err(m);
            },
        };
        match v {
            SqlValue::Null => {
                if !def.nullable {
                    proof { lemma_row_values_fail(cs, schema@, i as int); }
                    let mut m = join2("column ", def.name.as_str());
                    m.append(" is NOT NULL");
                    return Err(m);
                }
            },
            _ => {
                if !def.ty.check(&v) {
                    proof { lemma_row_values_fail(cs, schema@, i as int); }
                    let mut m = join2("column ", def.name.as_str());
                    m.append(" expects ");
                    m.append(def.ty.name());
                    return Err(m);
                }
            },
        }
        let ghost o0 = out.deep_view();
        out.push(v);
        assert(out.deep_view() =~= o0.push(out@[i as int].deep_view()));
        i = i + 1;
    }
    assert(cs.take(cells@.len() as int) =~= cs);
    assert(schema@.take(cells@.len() as int) =~= schema@);
    Ok(out)
}

/// The rows an INSERT into `table` adds, checked against its schema (see
/// [`insert_spec`]); the first refused row or cell fails the statement.
pub fn insert_rows(table: &str, schema: &[ColumnDef], rows: &Vec<Vec<Expr>>) -> (r: Result<Vec<Row>, String>)
    ensures
        match insert_spec(rows@.map_values(|r: Vec<Expr>| r@.map_values(|e: Expr| e@)), schema@) {
            Some(vs) => r matches Ok(v) && rows_deep(v@) == vs,
            None => r is Err,
        },
        insert_msg(table@, rows@.map_values(|r: Vec<Expr>| r@.map_values(|e: Expr| e@)), schema@, 0) matches Some(m)
            ==> (r matches Err(x) && x@ == m),
{
    let ghost rv = rows@.map_values(|r: Vec<Expr>| r@.map_values(|e: Expr| e@));
    let mut out: Vec<Row> = Vec::new();
    let mut i: usize = 0;
    while i < rows.len()
        invariant
            i <= rows@.len(),
            rv == rows@.map_values(|r: Vec<Expr>| r@.map_values(|e: Expr| e@)),
            insert_spec(rv.take(i as int), schema@) == Some(rows_deep(out@)),
            insert_msg(table@, rv, schema@, 0) == insert_msg(table@, rv, schema@, i as int),
        decreases rows@.len() - i,
    {
        assert(rv.take(i + 1).drop_last() =~= rv.take(i as int));
        assert(rv.take(i + 1).last() == exprs_of(rows@[i as int]@));
        match row_values(table, &rows[i], schema) {
            Ok(v) => {
                let ghost o0 = rows_deep(out@);
                let ghost vv = v.deep_view();
                out.push(v);
                assert(rows_deep(out@) =~= o0.push(vv));
            },
            Err(m) => {
                proof { lemma_insert_fail(rv, schema@, i as int); }
                return Err(m);
            },
        }
        i = i + 1;
    }
    assert(rv.take(rows@.len() as int) =~= rv);
    Ok(out)
}

proof fn lemma_insert_fail(rows: Seq<Seq<ExprV>>, schema: Seq<ColumnDef>, i: int)
    requires
        0 <= i < rows.len(),
        row_values_spec(rows[i], schema) is None,
    ensures
        insert_spec(rows, schema) is None,
    decreases rows.len() - i,
{
    if i + 1 < rows.len() {
        lemma_insert_fail(rows.drop_last(), schema, i);
    }
}

/// The stored column of a CREATE TABLE column: INTEGER is an integer
/// column, TEXT a text column; nullable unless NOT NULL.
pub open spec fn column_def_spec(c: ColumnV) -> (Seq<char>, ColumnType, bool) {
    (c.name, if c.data_type == DataType::Integer { ColumnType::Int } else { ColumnType::Text }, !c.not_null)
}

/// The schema of CREATE TABLE columns, in order.
pub fn table_columns(columns: &Vec<Column>) -> (r: Vec<ColumnDef>)
    ensures
        r@.len() == columns@.len(),
        forall|k: int| 0 <= k < r@.len() ==> ((#[trigger] r@[k]).name@, r@[k].ty, r@[k].nullable) == column_def_spec(columns@[k]@),
{
    let mut out: Vec<ColumnDef> = Vec::new();
    let mut i: usize = 0;
    while i < columns.len()
        invariant
            i <= columns@.len(),
            out@.len() == i,
            forall|k: int| 0 <= k < i ==> ((#[trigger] out@[k]).name@, out@[k].ty, out@[k].nullable) == column_def_spec(columns@[k]@),
        decreases columns@.len() - i,
    {
        let c = &columns[i];
        let ty = match c.data_type {
            DataType::Integer => ColumnType::Int,
            DataType::Text => ColumnType::Text,
        };
        out.push(ColumnDef { name: c.name.clone(), ty, nullable: !c.not_null });
        i = i + 1;
    }
    out
}

/// Models of names.
pub open spec fn names_view(v: Seq<String>) -> Seq<Seq<char>> {
    v.map_values(|s: String| s@)
}

/// Whether `name` is among `names`.
fn name_in(names: &Vec<String>, name: &str) -> (r: bool)
    ensures
        r == names_view(names@).contains(name@),
{
    let ghost nv = names_view(names@);
    let mut i: usize = 0;
    while i < names.len()
        invariant
            i <= names@.len(),
            nv == names_view(names@),
            forall|k: int| 0 <= k < i ==> nv[k] != name@,
        decreases names@.len() - i,
    {
        if str_eq(names[i].as_str(), name) {
            assert(nv[i as int] == name@);
            return true;
        }
        i = i + 1;
    }
    false
}

/// `prefix`, `name` in backquotes, then `suffix`.
pub open spec fn quoted_msg(prefix: Seq<char>, name: Seq<char>, suffix: Seq<char>) -> Seq<char> {
    prefix + "`"@ + name + "`"@ + suffix
}

fn quoted(prefix: &str, name: &str, suffix: &str) -> (r: String)
    ensures
        r@ == quoted_msg(prefix@, name@, suffix@),
{
    let mut m = String::from_str(prefix);
    m.append("`");
    m.append(name);
    m.append("`");
    m.append(suffix);
    proof { reveal_strlit("`"); }
    m
}

/// CREATE TABLE against the names of the existing tables: when the name
/// is taken, nothing happens under IF NOT EXISTS and it is an error
/// otherwise; else the new table's schema (see [`table_columns`]).
pub fn create_table_plan(existing: &Vec<String>, name: &str, columns: &Vec<Column>, if_not_exists: bool) -> (r: Result<Option<Vec<ColumnDef>>, String>)
    ensures
        names_view(existing@).contains(name@) && if_not_exists ==> r == Ok::<Option<Vec<ColumnDef>>, String>(None),
        names_view(existing@).contains(name@) && !if_not_exists ==> (r matches Err(m)
            && m@ == quoted_msg("table "@, name@, " already exists"@)),
        !names_view(existing@).contains(name@) ==> (r matches Ok(Some(cols)) && cols@.len() == columns@.len()
            && forall|k: int| 0 <= k < cols@.len() ==> ((#[trigger] cols@[k]).name@, cols@[k].ty, cols@[k].nullable)
                == column_def_spec(columns@[k]@)),
{
    if name_in(existing, name) {
        if if_not_exists {
            return Ok(None);
        }
        return Err(quoted("table ", name, " already exists"));
    }
    Ok(Some(table_columns(columns)))
}

/// The checks of CREATE INDEX, in order: the index name must be free, the
/// index must have one column, the table must exist and have the column;
/// the column otherwise.
pub open spec fn create_index_spec(existing: Seq<Seq<char>>, name: Seq<char>, table: Seq<char>, schema: Option<Seq<ColumnDef>>, columns: Seq<Seq<char>>) -> Result<Seq<char>, Seq<char>> {
    if existing.contains(name) {
        Err(quoted_msg("index "@, name, " already exists"@))
    } else if columns.len() != 1 {
        Err("only single-column indexes are supported"@)
    } else {
        match schema {
            None => Err(quoted_msg("no table "@, table, ""@)),
            Some(sc) => if col_from(sc, columns[0], 0) is None {
                Err("unknown column "@ + columns[0])
            } else {
                Ok(columns[0])
            },
        }
    }
}

/// Decide CREATE INDEX against the existing index names and the table's
/// schema (`None` when there is no such table); see [`create_index_spec`].
pub fn create_index_plan(existing: &Vec<String>, name: &str, table: &str, schema: Option<&Vec<ColumnDef>>, columns: &Vec<String>) -> (r: Result<String, String>)
    ensures
        match create_index_spec(names_view(existing@), name@, table@, match schema { Some(s) => Some(s@), None => None }, names_view(columns@)) {
            Ok(c) => r matches Ok(x) && x@ == c,
            Err(m) => r matches Err(x) && x@ == m,
        },
{
    if name_in(existing, name) {
        return Err(quoted("index ", name, " already exists"));
    }
    if columns.len() != 1 {
        return Err(msg("only single-column indexes are supported"));
    }
    assert(names_view(columns@)[0] == columns@[0]@);
    match schema {
        None => Err(quoted("no table ", table, "")),
        Some(sc) => match col_pos(sc.as_slice(), columns[0].as_str()) {
            Ok(_) => Ok(columns[0].clone()),
            Err(m) => Err(m),
        },
    }
}

/// Decide DROP INDEX against the existing index names: an error naming the
/// index when there is none by that name.
pub fn drop_index_plan(existing: &Vec<String>, name: &str) -> (r: Result<(), String>)
    ensures
        names_view(existing@).contains(name@) ==> r is Ok,
        !names_view(existing@).contains(name@) ==> (r matches Err(m) && m@ == quoted_msg("no index "@, name@, ""@)),
{
    if name_in(existing, name) {
        Ok(())
    } else {
        Err(quoted("no index ", name, ""))
    }
}

/// The column of CREATE INDEX: exactly one, and a column of the table.
pub open spec fn index_column_spec(columns: Seq<Seq<char>>, schema: Seq<ColumnDef>) -> Option<Seq<char>> {
    if columns.len() != 1 {
        None
    } else if col_from(schema, columns[0], 0) is None {
        None
    } else {
        Some(columns[0])
    }
}

/// Check the column list of CREATE INDEX against the table's schema (see
/// [`index_column_spec`]).
pub fn index_column(columns: &Vec<String>, schema: &[ColumnDef]) -> (r: Result<String, String>)
    ensures
        match index_column_spec(columns@.map_values(|c: String| c@), schema@) {
            Some(c) => r matches Ok(x) && x@ == c,
            None => r is Err,
        },
{
    if columns.len() != 1 {
        return Err(msg("only single-column indexes are supported"));
    }
    match col_pos(schema, columns[0].as_str()) {
        Ok(_) => Ok(columns[0].clone()),
        Err(m) => Err(m),
    }
}

/// SHOW TABLES: one row per table name, in ascending order, under the
/// column `table`.
pub fn show_tables_result(names: &Vec<String>) -> (r: ExecResult)
    ensures
        r.columns@.map_values(|s: String| s@) == seq!["table"@],
        rows_view(r.rows@) == pos_sorted(names@.map_values(|n: String| seq![SqlValue::Text(n)]), seq![0usize], seq![false]),
        r.rows_affected == 0,
{
    let mut rows: Vec<Row> = Vec::new();
    let mut i: usize = 0;
    while i < names.len()
        invariant
            i <= names@.len(),
            rows_view(rows@) == names@.take(i as int).map_values(|n: String| seq![SqlValue::Text(n)]),
        decreases names@.len() - i,
    {
        let mut row: Row = Vec::new();
        row.push(SqlValue::Text(names[i].clone()));
        let ghost r0 = rows_view(rows@);
        rows.push(row);
        assert(rows_view(rows@) =~= r0.push(seq![SqlValue::Text(names@[i as int])]));
        assert(names@.take(i + 1).map_values(|n: String| seq![SqlValue::Text(n)])
            =~= names@.take(i as int).map_values(|n: String| seq![SqlValue::Text(n)]).push(seq![SqlValue::Text(names@[i as int])]));
        i = i + 1;
    }
    assert(names@.take(names@.len() as int) =~= names@);
    let mut ps: Vec<usize> = Vec::new();
    ps.push(0);
    let mut desc: Vec<bool> = Vec::new();
    desc.push(false);
    assert(ps@ =~= seq![0usize]);
    assert(desc@ =~= seq![false]);
    assert forall|k: int| 0 <= k < rows@.len() implies (#[trigger] rows@[k])@.len() == 1 by {
        assert(rows_view(rows@)[k] == rows@[k]@);
    }
    let sorted = sort_by_positions(&rows, &ps, &desc);
    let mut cols: Vec<String> = Vec::new();
    cols.push(String::from_str("table"));
    assert(cols@.map_values(|s: String| s@) =~= seq!["table"@]);
    ExecResult { columns: cols, rows: sorted, rows_affected: 0 }
}

// ── index planning ────────────────────────────────────────────────────

/// Model of an index definition: name, table, column.
pub open spec fn index_view(d: IndexDef) -> (Seq<char>, Seq<char>, Seq<char>) {
    (d.name@, d.table@, d.column@)
}

/// Position of the first index of `table` on column `col`, from `i` on.
pub open spec fn index_on(defs: Seq<(Seq<char>, Seq<char>, Seq<char>)>, table: Seq<char>, col: Seq<char>, i: int) -> Option<int>
    decreases defs.len() - i,
{
    if i < 0 || i >= defs.len() {
        None
    } else if defs[i].1 == table && defs[i].2 == col {
        Some(i)
    } else {
        index_on(defs, table, col, i + 1)
    }
}

/// An index can serve a conjunct `col = literal` with a non-NULL literal on
/// an indexed column: the index's name and the literal.
pub open spec fn usable_term(term: ExprV, table: Seq<char>, defs: Seq<(Seq<char>, Seq<char>, Seq<char>)>) -> Option<(Seq<char>, ValueV)> {
    match term {
        ExprV::BinaryOp { left, op, right } => if op != BinOp::Eq {
            None
        } else {
            match (*left, *right) {
                (ExprV::Identifier(c), ExprV::Literal(v)) => match index_on(defs, table, c, 0) {
                    Some(k) => if v is Null { None } else { Some((defs[k].0, v)) },
                    None => None,
                },
                _ => None,
            }
        },
        _ => None,
    }
}

/// The first conjunct that an index can serve, from `i` on.
pub open spec fn first_usable(terms: Seq<ExprV>, table: Seq<char>, defs: Seq<(Seq<char>, Seq<char>, Seq<char>)>, i: int) -> Option<(ExprV, Seq<char>, ValueV)>
    decreases terms.len() - i,
{
    if i < 0 || i >= terms.len() {
        None
    } else {
        match usable_term(terms[i], table, defs) {
            Some((n, v)) => Some((terms[i], n, v)),
            None => first_usable(terms, table, defs, i + 1),
        }
    }
}

/// Which index lookup serves a WHERE clause: none inside an explicit
/// transaction or without WHERE; else the first top-level conjunct that an
/// index can serve, with the index's name, the key of the literal and the
/// rest of the predicate.
pub open spec fn index_plan_spec(table: Seq<char>, defs: Seq<(Seq<char>, Seq<char>, Seq<char>)>, selection: Option<ExprV>, in_txn: bool) -> Option<(Seq<char>, Seq<u8>, Option<ExprV>)> {
    if in_txn {
        None
    } else {
        match selection {
            None => None,
            Some(pred) => match first_usable(conj_spec(pred), table, defs, 0) {
                Some((term, name, lit)) => match index_key_spec(lit) {
                    Some(key) => Some((name, key, remove_spec(pred, term))),
                    None => None,
                },
                None => None,
            },
        }
    }
}

/// The first index on `col` of `table`.
fn find_index(indexes: &Vec<IndexDef>, table: &str, col: &str) -> (r: Option<usize>)
    ensures
        match r {
            Some(k) => index_on(indexes@.map_values(|d: IndexDef| index_view(d)), table@, col@, 0) == Some(k as int)
                && k < indexes@.len(),
            None => index_on(indexes@.map_values(|d: IndexDef| index_view(d)), table@, col@, 0) is None,
        },
{
    let ghost dv = indexes@.map_values(|d: IndexDef| index_view(d));
    let mut i: usize = 0;
    while i < indexes.len()
        invariant
            i <= indexes@.len(),
            dv == indexes@.map_values(|d: IndexDef| index_view(d)),
            index_on(dv, table@, col@, 0) == index_on(dv, table@, col@, i as int),
        decreases indexes@.len() - i,
    {
        if str_eq(indexes[i].table.as_str(), table) && str_eq(indexes[i].column.as_str(), col) {
            return Some(i);
        }
        i = i + 1;
    }
    None
}

/// Plan an index lookup for a WHERE clause (see [`index_plan_spec`]); the
/// indexes are searched in the order given.
pub fn index_plan(table: &str, indexes: &Vec<IndexDef>, selection: &Option<Expr>, in_txn: bool) -> (r: Result<Option<(String, Vec<u8>, Option<Expr>)>, String>)
    ensures
        match index_plan_spec(table@, indexes@.map_values(|d: IndexDef| index_view(d)), opt_expr(*selection), in_txn) {
            Some((n, k, rest)) => r matches Ok(Some(x)) && x.0@ == n && x.1@ == k && opt_expr(x.2) == rest,
            None => r matches Ok(None),
        },
{
    if in_txn {
        return Ok(None);
    }
    let pred = match selection {
        Some(p) => p,
        None => {
            return Ok(None);
        },
    };
    let ghost dv = indexes@.map_values(|d: IndexDef| index_view(d));
    let terms = conjuncts(pred);
    let ghost ts = exprs_of(terms@);
    let mut i: usize = 0;
    while i < terms.len()
        invariant
            i <= terms@.len(),
            ts == exprs_of(terms@),
            ts == conj_spec(pred@),
            !in_txn,
            opt_expr(*selection) == Some(pred@),
            dv == indexes@.map_values(|d: IndexDef| index_view(d)),
            first_usable(ts, table@, dv, 0) == first_usable(ts, table@, dv, i as int),
        decreases terms@.len() - i,
    {
        let term = &terms[i];
        assert(ts[i as int] == term@);
        if let Expr::BinaryOp { left, op, right } = term {
            assert(term@ == ExprV::BinaryOp { left: Box::new(left@), op: *op, right: Box::new(right@) });
            if let (Expr::Identifier(col), Expr::Literal(lit)) = (&**left, &**right) {
                assert(left@ == ExprV::Identifier(col@) && right@ == ExprV::Literal(lit.deep_view()));
                if matches!(op, BinOp::Eq) && !matches!(lit, SqlValue::Null) {
                    match find_index(indexes, table, col.as_str()) {
                        Some(k) => {
                            assert(dv[k as int] == index_view(indexes@[k as int]));
                            assert(index_on(dv, table@, col@, 0) == Some(k as int));
                            assert(usable_term(ts[i as int], table@, dv) == Some((dv[k as int].0, lit.deep_view())));
                            assert(first_usable(ts, table@, dv, i as int) == Some((term@, dv[k as int].0, lit.deep_view())));
                            assert(opt_expr(*selection) == Some(pred@));
                            let key = match index_key_encode(lit) {
                                Ok(key) => key,
                                Err(m) => {
                                    return Err(m);
                                },
                            };
                            let rest = remove_conjunct(pred, term);
                            return Ok(Some((indexes[k].name.clone(), key, rest)));
                        },
                        None => {},
                    }
                }
            }
        }
        i = i + 1;
    }
    Ok(None)
}

// ── the statement of a streamed query ─────────────────────────────────

/// The SELECT of SQL text that holds exactly one statement, a SELECT.
pub open spec fn single_select_spec(sql: Seq<char>) -> Option<SelectV> {
    match parse_spec(sql) {
        Some(v) => if v.len() == 1 && v[0] is Select { Some(v[0]->Select_0) } else { None },
        None => None,
    }
}

/// Parse SQL text that must hold exactly one statement, a SELECT (see
/// [`single_select_spec`]).
pub fn parse_single_select(sql: &str) -> (r: Result<Select, String>)
    ensures
        match single_select_spec(sql@) {
            Some(s) => r matches Ok(x) && x@ == s,
            None => r is Err,
        },
{
    let mut stmts = match Parser::parse(sql) {
        Ok(v) => v,
        Err(m) => {
            return Err(m);
        },
    };
    if stmts.len() != 1 {
        let mut m = String::from_str("expected exactly one statement, got ");
        m.append(int_to_string(stmts.len() as i64).as_str());
        return Err(m);
    }
    assert(statements_of(stmts@)[0] == stmts@[0]@);
    match stmts.pop() {
        Some(Statement::Select(sel)) => Ok(sel),
        _ => Err(msg("stream_query only supports SELECT statements")),
    }
}

// ── the two executors agree ───────────────────────────────────────────

proof fn lemma_where_front(pred: Option<ExprV>, schema: Seq<ColumnDef>, rows: Seq<Seq<SqlValue>>)
    requires
        rows.len() > 0,
    ensures
        where_spec(pred, schema, rows) == match (passes(pred, schema, rows[0]), where_spec(pred, schema, rows.drop_first())) {
            (Some(true), Some(k)) => Some(seq![rows[0]] + k),
            (Some(false), Some(k)) => Some(k),
            _ => None::<Seq<Seq<SqlValue>>>,
        },
    decreases rows.len(),
{
    if rows.len() == 1 {
        assert(rows.drop_last() =~= Seq::<Seq<SqlValue>>::empty());
        assert(rows.drop_first() =~= Seq::<Seq<SqlValue>>::empty());
        assert(seq![rows[0]] + Seq::<Seq<SqlValue>>::empty() =~= Seq::<Seq<SqlValue>>::empty().push(rows.last()));
    } else {
        let init = rows.drop_last();
        lemma_where_front(pred, schema, init);
        assert(init.drop_first() =~= rows.drop_first().drop_last());
        assert(rows.drop_first().last() == rows.last());
        assert(init[0] == rows[0]);
        match (passes(pred, schema, rows[0]), where_spec(pred, schema, init.drop_first()), passes(pred, schema, rows.last())) {
            (Some(true), Some(k), Some(true)) => {
                assert(seq![rows[0]] + k.push(rows.last()) =~= (seq![rows[0]] + k).push(rows.last()));
            },
            _ => {},
        }
    }
}

proof fn lemma_project_all_front(exprs: Seq<ExprV>, schema: Seq<ColumnDef>, rows: Seq<Seq<SqlValue>>)
    requires
        rows.len() > 0,
    ensures
        project_all(exprs, schema, rows) == match (project_spec(exprs, schema, rows[0]), project_all(exprs, schema, rows.drop_first())) {
            (Some(p), Some(ps)) => Some(seq![p] + ps),
            _ => None::<Seq<Seq<ValueV>>>,
        },
    decreases rows.len(),
{
    if rows.len() == 1 {
        assert(rows.drop_last() =~= Seq::<Seq<SqlValue>>::empty());
        assert(rows.drop_first() =~= Seq::<Seq<SqlValue>>::empty());
        match project_spec(exprs, schema, rows[0]) {
            Some(p) => {
                assert(seq![p] + Seq::<Seq<ValueV>>::empty() =~= Seq::<Seq<ValueV>>::empty().push(p));
            },
            None => {},
        }
    } else {
        let init = rows.drop_last();
        lemma_project_all_front(exprs, schema, init);
        assert(init.drop_first() =~= rows.drop_first().drop_last());
        assert(rows.drop_first().last() == rows.last());
        assert(init[0] == rows[0]);
        match (project_spec(exprs, schema, rows[0]), project_all(exprs, schema, init.drop_first()), project_spec(exprs, schema, rows.last())) {
            (Some(p), Some(ps), Some(q)) => {
                assert(seq![p] + ps.push(q) =~= (seq![p] + ps).push(q));
            },
            _ => {},
        }
    }
}

/// When filtering every row, then limiting and projecting succeeds, the
/// lazy pipeline gives the same rows.
proof fn lemma_lazy_agrees(pred: Option<ExprV>, exprs: Seq<ExprV>, schema: Seq<ColumnDef>, rows: Seq<Seq<SqlValue>>, lim: Option<usize>, kept: Seq<Seq<SqlValue>>, o: Seq<Seq<ValueV>>)
    requires
        where_spec(pred, schema, rows) == Some(kept),
        project_all(exprs, schema, limit_rows(kept, lim)) == Some(o),
    ensures
        lazy_spec(pred, exprs, schema, rows, lim) == Some(o),
    decreases rows.len(),
{
    if rows.len() == 0 {
        assert(limit_rows(kept, lim) =~= Seq::<Seq<SqlValue>>::empty());
    } else if lim == Some(0usize) {
        assert(limit_rows(kept, lim) =~= Seq::<Seq<SqlValue>>::empty());
    } else {
        lemma_where_front(pred, schema, rows);
        let rest = rows.drop_first();
        let k2 = where_spec(pred, schema, rest)->0;
        match passes(pred, schema, rows[0]) {
            Some(false) => {
                lemma_lazy_agrees(pred, exprs, schema, rest, lim, k2, o);
            },
            Some(true) => {
                assert(kept == seq![rows[0]] + k2);
                let lk = limit_rows(kept, lim);
                let lk2 = limit_rows(k2, limit_dec(lim));
                assert(lk =~= seq![rows[0]] + lk2);
                lemma_project_all_front(exprs, schema, lk);
                assert(lk[0] == rows[0]);
                assert(lk.drop_first() =~= lk2);
                let p = project_spec(exprs, schema, rows[0])->0;
                let o2 = project_all(exprs, schema, lk2)->0;
                lemma_lazy_agrees(pred, exprs, schema, rest, limit_dec(lim), k2, o2);
                assert(o == seq![p] + o2);
            },
            None => {},
        }
    }
}

proof fn lemma_order_key_lenient(keys: Seq<ExprV>, schema: Seq<ColumnDef>, row: Seq<SqlValue>)
    requires
        order_key(keys, schema, row, true) is Some,
    ensures
        order_key(keys, schema, row, false) == order_key(keys, schema, row, true),
    decreases keys.len(),
{
    if keys.len() > 0 {
        lemma_order_key_lenient(keys.drop_last(), schema, row);
    }
}

proof fn lemma_entries_lenient(keys: Seq<ExprV>, schema: Seq<ColumnDef>, rows: Seq<Seq<SqlValue>>)
    requires
        keyed_entries(keys, schema, rows, true) is Some,
    ensures
        keyed_entries(keys, schema, rows, false) == keyed_entries(keys, schema, rows, true),
    decreases rows.len(),
{
    if rows.len() > 0 {
        lemma_entries_lenient(keys, schema, rows.drop_last());
        lemma_order_key_lenient(keys, schema, rows.last());
    }
}

/// The row-at-a-time and batch forms of a SELECT without aggregates give
/// the same rows whenever both succeed: a sort key that evaluates sorts the
/// same in both, and the lazy pipeline returns what the eager one does.
pub proof fn lemma_plain_rows_agree(sel: SelectV, exprs: Seq<ExprV>, schema: Seq<ColumnDef>, rows: Seq<Seq<SqlValue>>)
    requires
        plain_rows_spec(sel, exprs, schema, rows, true) is Some,
        plain_rows_spec(sel, exprs, schema, rows, false) is Some,
    ensures
        plain_rows_spec(sel, exprs, schema, rows, true) == plain_rows_spec(sel, exprs, schema, rows, false),
{
    if sel.order_by.len() > 0 {
        let kept = where_spec(sel.selection, schema, rows)->0;
        if sel.limit == Some(0usize) {
            let so = sort_spec(order_exprs(sel.order_by), order_desc(sel.order_by), schema, kept, false)->0;
            assert(limit_rows(so, sel.limit) =~= Seq::<Seq<SqlValue>>::empty());
        } else {
            lemma_entries_lenient(order_exprs(sel.order_by), schema, kept);
        }
    }
}

/// The batch form of a SELECT without aggregates, where it succeeds, gives
/// what the row-at-a-time form gives (which then succeeds too) when there
/// is no ORDER BY.
proof fn lemma_eager_is_lazy(sel: SelectV, exprs: Seq<ExprV>, schema: Seq<ColumnDef>, rows: Seq<Seq<SqlValue>>)
    requires
        sel.order_by.len() == 0,
        eager_rows_spec(sel, exprs, schema, rows, false) is Some,
    ensures
        plain_rows_spec(sel, exprs, schema, rows, true) == eager_rows_spec(sel, exprs, schema, rows, false),
{
    let kept = where_spec(sel.selection, schema, rows)->0;
    let o = eager_rows_spec(sel, exprs, schema, rows, false)->0;
    lemma_lazy_agrees(sel.selection, exprs, schema, rows, sel.limit, kept, o);
}

/// A join gives the same columns and rows row at a time and in the batch
/// pipeline whenever both succeed.
pub proof fn lemma_join_parity(sel: SelectV, lschema: Seq<ColumnDef>, rschema: Seq<ColumnDef>, left: Seq<Row>, right: Seq<Row>)
    requires
        join_select_spec(sel, lschema, rschema, left, right, false) is Some,
        join_select_spec(sel, lschema, rschema, left, right, true) is Some,
    ensures
        join_select_spec(sel, lschema, rschema, left, right, false) == join_select_spec(sel, lschema, rschema, left, right, true),
{
    let (lk, rk) = join_keys_spec(join_on(sel.from), lschema, rschema)->0;
    let (es, cols) = projection_spec(sel.projection, lschema + rschema)->0;
    let joined = join_all(rows_view(left), lk, right, rk);
    let sch = lschema + rschema;
    if sel.order_by.len() == 0 {
        lemma_eager_is_lazy(sel, es, sch, joined);
    } else {
        assert(plain_rows_spec(sel, es, sch, joined, false) == eager_rows_spec(sel, es, sch, joined, false));
        lemma_plain_rows_agree(sel, es, sch, joined);
    }
}

proof fn lemma_no_aggs_parse(items: Seq<SelectItemV>, schema: Seq<ColumnDef>, i: int)
    requires
        0 <= i,
        forall|k: int| 0 <= k < items.len() ==> !has_agg(item_expr(#[trigger] items[k])),
    ensures
        parse_aggs(items, schema, i, Seq::empty()) == Ok::<Option<Seq<(Seq<char>, AggFn, Option<usize>)>>, ()>(None),
    decreases items.len() - i,
{
    if i < items.len() {
        let it = items[i];
        assert(!has_agg(item_expr(it)));
        lemma_no_aggs_parse(items, schema, i + 1);
    }
}

/// A single-table SELECT with neither GROUP BY nor an aggregate call gives
/// the same columns and rows in both executors whenever both succeed.
pub proof fn lemma_select_parity_plain(sel: SelectV, schema: Seq<ColumnDef>, rows: Seq<Seq<SqlValue>>)
    requires
        sel.group_by.len() == 0,
        forall|k: int| 0 <= k < sel.projection.len() ==> !has_agg(item_expr(#[trigger] sel.projection[k])),
        select_spec(sel, schema, rows) is Some,
        stream_select_spec(sel, schema, rows) is Some,
    ensures
        select_spec(sel, schema, rows) == stream_select_spec(sel, schema, rows),
{
    lemma_no_aggs_parse(sel.projection, schema, 0);
    let (es, cols) = projection_spec(sel.projection, schema)->0;
    if sel.projection.len() == 1 && sel.projection[0] is Star {
        assert forall|k: int| 0 <= k < es.len() implies !has_agg(#[trigger] es[k]) by {
            assert(es[k] == ExprV::Identifier(schema[k].name@));
        }
    } else {
        assert forall|k: int| 0 <= k < es.len() implies !has_agg(#[trigger] es[k]) by {
            assert(es[k] == item_expr(sel.projection[k]));
        }
    }
    assert(!is_agg_query(sel, es));
    lemma_plain_rows_agree(sel, es, schema, rows);
}

// ── handing results on ────────────────────────────────────────────────

/// Number of batches for `len` rows, `n` rows per batch.
pub open spec fn batch_count(len: nat, n: nat) -> nat {
    if len == 0 { 0 } else { ((len - 1) / (n as int) + 1) as nat }
}

/// The rows of batch `j`: rows `j·n` up to `(j+1)·n` (or the end).
pub open spec fn chunk(rows: Seq<Seq<SqlValue>>, n: nat, j: int) -> Seq<Seq<SqlValue>> {
    let lo = j * n;
    let hi = if (j + 1) * n < rows.len() { (j + 1) * n } else { rows.len() as int };
    rows.subrange(lo, hi)
}

/// Cut result rows, all of one width, into the batches a stream hands on:
/// full batches of [`DEFAULT_BATCH_SIZE`] rows in order, then what is left
/// (no empty batch).
pub fn result_batches(rows: &Vec<Row>, width: usize) -> (r: Vec<Batch>)
    requires
        uniform_width(rows_view(rows@), width as nat),
    ensures
        r@.len() == batch_count(rows@.len(), DEFAULT_BATCH_SIZE as nat),
        forall|j: int| 0 <= j < r@.len() ==> (#[trigger] r@[j])@ == batch_of_rows(chunk(rows_view(rows@), DEFAULT_BATCH_SIZE as nat, j), width as nat),
{
    let n: usize = DEFAULT_BATCH_SIZE;
    let ghost rv = rows_view(rows@);
    let mut out: Vec<Batch> = Vec::new();
    let mut start: usize = 0;
    while start < rows.len()
        invariant
            n == DEFAULT_BATCH_SIZE,
            rv == rows_view(rows@),
            uniform_width(rv, width as nat),
            start <= rows@.len() || rows@.len() == 0,
            start < rows@.len() ==> start == out@.len() * n,
            start < rows@.len() ==> out@.len() == (if start == 0 { 0 } else { ((start - 1) / (n as int) + 1) as nat }),
            start >= rows@.len() ==> out@.len() == batch_count(rows@.len(), n as nat),
            forall|j: int| 0 <= j < out@.len() ==> (#[trigger] out@[j])@ == batch_of_rows(chunk(rv, n as nat, j), width as nat),
        decreases rows@.len() - start,
    {
        let end: usize = if rows.len() - start > n { start + n } else { rows.len() };
        let mut buf: Vec<Row> = Vec::new();
        let mut i: usize = start;
        while i < end
            invariant
                start <= i <= end <= rows@.len(),
                rows_view(buf@) == rv.subrange(start as int, i as int),
                rv == rows_view(rows@),
            decreases end - i,
        {
            let ghost b0 = rows_view(buf@);
            buf.push(clone_row(rows[i].as_slice()));
            assert(rows_view(buf@) =~= b0.push(rows@[i as int]@));
            assert(rv.subrange(start as int, i + 1) =~= rv.subrange(start as int, i as int).push(rv[i as int]));
            i = i + 1;
        }
        let ghost j = out@.len() as int;
        assert(start as int == j * n);
        assert((j + 1) * n == j * n + n) by (nonlinear_arith);
        assert(chunk(rv, n as nat, j) == rv.subrange(start as int, end as int));
        assert(uniform_width(rows_view(buf@), width as nat));
        assert(buf@.len() > 0);
        assert(buf@[0]@.len() == width) by {
            assert(rows_view(buf@)[0] == buf@[0]@);
        }
        let b = rows_to_batch(buf);
        out.push(b);
        proof {
            let k = out@.len() as int;
            assert(k == j + 1);
            if end < rows@.len() {
                assert((end as int - 1) / (n as int) == j) by (nonlinear_arith)
                    requires end as int == j * n + n, n > 0, j >= 0;
            } else {
                assert(((rows@.len() - 1) as int) / (n as int) == j) by (nonlinear_arith)
                    requires j * n < rows@.len() as int, rows@.len() as int <= j * n + n, n > 0, j >= 0;
            }
        }
        start = end;
    }
    out
}

// ── UPDATE and DELETE over rows read from storage ─────────────────────

/// One `SET column = value` of an UPDATE.
pub struct Assignment {
    pub column: String,
    pub value: Expr,
}

/// Model of assignments: column name and value expression.
pub open spec fn assignments_view(a: Seq<Assignment>) -> Seq<(Seq<char>, ExprV)> {
    a.map_values(|x: Assignment| (x.column@, x.value@))
}

/// Column positions of the assigned columns, in order; `None` when one
/// names no column.
pub open spec fn assign_positions(asg: Seq<(Seq<char>, ExprV)>, schema: Seq<ColumnDef>) -> Option<Seq<usize>>
    decreases asg.len(),
{
    if asg.len() == 0 {
        Some(Seq::empty())
    } else {
        match (assign_positions(asg.drop_last(), schema), col_from(schema, asg.last().0, 0)) {
            (Some(ps), Some(i)) => Some(ps.push(i as usize)),
            _ => None,
        }
    }
}

/// A row with the assigned literals written at their positions, in order
/// (a later assignment of the same column wins); `None` when a value is no
/// literal.
pub open spec fn assigned_row(row: Seq<ValueV>, pos: Seq<usize>, asg: Seq<(Seq<char>, ExprV)>) -> Option<Seq<ValueV>>
    decreases asg.len(),
{
    if asg.len() == 0 || pos.len() != asg.len() {
        Some(row)
    } else {
        match assigned_row(row, pos.drop_last(), asg.drop_last()) {
            Some(r) => match asg.last().1 {
                ExprV::Literal(v) => Some(r.update(pos.last() as int, v)),
                _ => None,
            },
            None => None,
        }
    }
}

/// The rows an UPDATE rewrites: every row (by id) whose predicate is TRUE,
/// with the assignments applied; `None` without assignments, for an
/// unknown column, or when a predicate or an assigned value fails.
pub open spec fn update_spec(asg: Seq<(Seq<char>, ExprV)>, pred: Option<ExprV>, schema: Seq<ColumnDef>, rows: Seq<(u64, Seq<SqlValue>)>) -> Option<Seq<(u64, Seq<ValueV>)>>
    decreases rows.len(),
{
    if asg.len() == 0 {
        None
    } else {
        match assign_positions(asg, schema) {
            None => None,
            Some(pos) => if rows.len() == 0 {
                Some(Seq::empty())
            } else {
                match (update_spec(asg, pred, schema, rows.drop_last()), passes(pred, schema, rows.last().1)) {
                    (Some(done), Some(false)) => Some(done),
                    (Some(done), Some(true)) => match assigned_row(rows.last().1.map_values(|v: SqlValue| v.deep_view()), pos, asg) {
                        Some(u) => Some(done.push((rows.last().0, u))),
                        None => None,
                    },
                    _ => None,
                }
            },
        }
    }
}

/// The rows a DELETE removes: every row (by id) whose predicate is TRUE;
/// `None` when a predicate fails.
pub open spec fn delete_spec(pred: Option<ExprV>, schema: Seq<ColumnDef>, rows: Seq<(u64, Seq<SqlValue>)>) -> Option<Seq<(u64, Seq<SqlValue>)>>
    decreases rows.len(),
{
    if rows.len() == 0 {
        Some(Seq::empty())
    } else {
        match (delete_spec(pred, schema, rows.drop_last()), passes(pred, schema, rows.last().1)) {
            (Some(done), Some(true)) => Some(done.push(rows.last())),
            (Some(done), Some(false)) => Some(done),
            _ => None,
        }
    }
}

/// Models of id-tagged rows.
pub open spec fn id_rows(rows: Seq<(u64, Row)>) -> Seq<(u64, Seq<SqlValue>)> {
    rows.map_values(|r: (u64, Row)| (r.0, r.1@))
}

/// Models of id-tagged rows, by value.
pub open spec fn id_rows_deep(rows: Seq<(u64, Row)>) -> Seq<(u64, Seq<ValueV>)> {
    rows.map_values(|r: (u64, Row)| (r.0, r.1.deep_view()))
}

fn assign_positions_exec(asg: &Vec<Assignment>, schema: &[ColumnDef]) -> (r: Result<Vec<usize>, String>)
    ensures
        match assign_positions(assignments_view(asg@), schema@) {
            Some(ps) => r matches Ok(v) && v@ == ps,
            None => r is Err,
        },
{
    let ghost av = assignments_view(asg@);
    let mut out: Vec<usize> = Vec::new();
    let mut i: usize = 0;
    while i < asg.len()
        invariant
            i <= asg@.len(),
            av == assignments_view(asg@),
            assign_positions(av.take(i as int), schema@) == Some(out@),
        decreases asg@.len() - i,
    {
        assert(av.take(i + 1).drop_last() =~= av.take(i as int));
        assert(av.take(i + 1).last() == (asg@[i as int].column@, asg@[i as int].value@));
        match col_pos(schema, asg[i].column.as_str()) {
            Ok(p) => {
                out.push(p);
            },
            Err(m) => {
                proof { lemma_assign_positions_fail(av, schema@, i as int); }
                return Err(m);
            },
        }
        i = i + 1;
    }
    assert(av.take(asg@.len() as int) =~= av);
    Ok(out)
}

proof fn lemma_assign_positions_fail(asg: Seq<(Seq<char>, ExprV)>, schema: Seq<ColumnDef>, i: int)
    requires
        0 <= i < asg.len(),
        col_from(schema, asg[i].0, 0) is None,
    ensures
        assign_positions(asg, schema) is None,
    decreases asg.len() - i,
{
    if i + 1 < asg.len() {
        lemma_assign_positions_fail(asg.drop_last(), schema, i);
    }
}

fn assign_row(row: &Row, pos: &Vec<usize>, asg: &Vec<Assignment>) -> (r: Result<Row, String>)
    requires
        pos@.len() == asg@.len(),
        forall|k: int| 0 <= k < pos@.len() ==> (#[trigger] pos@[k]) < row@.len(),
    ensures
        match assigned_row(row.deep_view(), pos@, assignments_view(asg@)) {
            Some(u) => r matches Ok(v) && v.deep_view() == u,
            None => r is Err,
        },
{
    let ghost av = assignments_view(asg@);
    let mut out = clone_row(row.as_slice());
    let mut k: usize = 0;
    assert(av.take(0).len() == 0);
    while k < asg.len()
        invariant
            k <= asg@.len(),
            pos@.len() == asg@.len(),
            forall|q: int| 0 <= q < pos@.len() ==> (#[trigger] pos@[q]) < row@.len(),
            av == assignments_view(asg@),
            out@.len() == row@.len(),
            assigned_row(row.deep_view(), pos@.take(k as int), av.take(k as int)) == Some(out.deep_view()),
        decreases asg@.len() - k,
    {
        assert(av.take(k + 1).drop_last() =~= av.take(k as int));
        assert(pos@.take(k + 1).drop_last() =~= pos@.take(k as int));
        assert(av.take(k + 1).last() == (asg@[k as int].column@, asg@[k as int].value@));
        assert(pos@.take(k + 1).last() == pos@[k as int]);
        let v = match literal_value(&asg[k].value) {
            Ok(v) => v,
            Err(m) => {
                proof { lemma_assigned_row_fail(row.deep_view(), pos@, av, k as int); }
                return Err(m);
            },
        };
        let ghost o0 = out.deep_view();
        out.set(pos[k], v);
        assert(out.deep_view() =~= o0.update(pos@[k as int] as int, v.deep_view()));
        k = k + 1;
    }
    assert(av.take(asg@.len() as int) =~= av);
    assert(pos@.take(asg@.len() as int) =~= pos@);
    Ok(out)
}

proof fn lemma_assigned_row_fail(row: Seq<ValueV>, pos: Seq<usize>, asg: Seq<(Seq<char>, ExprV)>, k: int)
    requires
        pos.len() == asg.len(),
        0 <= k < asg.len(),
        !(asg[k].1 is Literal),
        assigned_row(row, pos.take(k), asg.take(k)) is Some,
    ensures
        assigned_row(row, pos, asg) is None,
    decreases asg.len() - k,
{
    if k + 1 < asg.len() {
        assert(pos.drop_last().take(k) =~= pos.take(k));
        assert(asg.drop_last().take(k) =~= asg.take(k));
        lemma_assigned_row_fail(row, pos.drop_last(), asg.drop_last(), k);
    } else {
        assert(pos.take(k) =~= pos.drop_last());
        assert(asg.take(k) =~= asg.drop_last());
    }
}

/// The rows an UPDATE rewrites, from the rows read from its table (see
/// [`update_spec`]); every row has the table's width.
pub fn update_rows(asg: &Vec<Assignment>, selection: &Option<Expr>, schema: &[ColumnDef], rows: &Vec<(u64, Row)>) -> (r: Result<Vec<(u64, Row)>, String>)
    requires
        forall|k: int| 0 <= k < rows@.len() ==> (#[trigger] rows@[k]).1@.len() == schema@.len(),
    ensures
        match update_spec(assignments_view(asg@), opt_expr(*selection), schema@, id_rows(rows@)) {
            Some(u) => r matches Ok(v) && id_rows_deep(v@) == u,
            None => r is Err,
        },
        asg@.len() == 0 ==> (r matches Err(m) && m@ == "UPDATE requires at least one SET assignment"@),
{
    if asg.len() == 0 {
        return Err(msg("UPDATE requires at least one SET assignment"));
    }
    let pos = match assign_positions_exec(asg, schema) {
        Ok(p) => p,
        Err(m) => {
            return Err(m);
        },
    };
    let ghost av = assignments_view(asg@);
    let ghost all = id_rows(rows@);
    assert(pos@.len() == asg@.len()) by {
        lemma_assign_positions_len(av, schema@);
    }
    assert(forall|k: int| 0 <= k < pos@.len() ==> (#[trigger] pos@[k]) < schema@.len()) by {
        lemma_assign_positions_range(av, schema@);
    }
    let mut out: Vec<(u64, Row)> = Vec::new();
    let mut i: usize = 0;
    assert(all.take(0) =~= Seq::<(u64, Seq<SqlValue>)>::empty());
    assert(id_rows_deep(out@) =~= Seq::<(u64, Seq<ValueV>)>::empty());
    while i < rows.len()
        invariant
            i <= rows@.len(),
            av == assignments_view(asg@),
            av.len() > 0,
            all == id_rows(rows@),
            assign_positions(av, schema@) == Some(pos@),
            pos@.len() == asg@.len(),
            forall|k: int| 0 <= k < pos@.len() ==> (#[trigger] pos@[k]) < schema@.len(),
            forall|k: int| 0 <= k < rows@.len() ==> (#[trigger] rows@[k]).1@.len() == schema@.len(),
            update_spec(av, opt_expr(*selection), schema@, all.take(i as int)) == Some(id_rows_deep(out@)),
        decreases rows@.len() - i,
    {
        assert(all.take(i + 1).drop_last() =~= all.take(i as int));
        assert(all.take(i + 1).last() == (rows@[i as int].0, rows@[i as int].1@));
        let row = &rows[i].1;
        match row_passes(selection, schema, row) {
            Err(m) => {
                proof { lemma_update_fail(av, opt_expr(*selection), schema@, all, i as int); }
                return Err(m);
            },
            Ok(false) => {},
            Ok(true) => {
                assert(row.deep_view() =~= row@.map_values(|v: SqlValue| v.deep_view()));
                match assign_row(row, &pos, asg) {
                    Ok(u) => {
                        let ghost o0 = id_rows_deep(out@);
                        let ghost uv = u.deep_view();
                        out.push((rows[i].0, u));
                        assert(id_rows_deep(out@) =~= o0.push((rows@[i as int].0, uv)));
                    },
                    Err(m) => {
                        proof { lemma_update_fail(av, opt_expr(*selection), schema@, all, i as int); }
                        return Err(m);
                    },
                }
            },
        }
        i = i + 1;
    }
    assert(all.take(rows@.len() as int) =~= all);
    Ok(out)
}

proof fn lemma_assign_positions_len(asg: Seq<(Seq<char>, ExprV)>, schema: Seq<ColumnDef>)
    ensures
        assign_positions(asg, schema) matches Some(ps) ==> ps.len() == asg.len(),
    decreases asg.len(),
{
    if asg.len() > 0 {
        lemma_assign_positions_len(asg.drop_last(), schema);
    }
}

proof fn lemma_assign_positions_range(asg: Seq<(Seq<char>, ExprV)>, schema: Seq<ColumnDef>)
    ensures
        assign_positions(asg, schema) matches Some(ps) ==> forall|k: int| 0 <= k < ps.len() ==> (#[trigger] ps[k]) < schema.len(),
    decreases asg.len(),
{
    if asg.len() > 0 {
        lemma_assign_positions_range(asg.drop_last(), schema);
        crate::query::lemma_col_from_range(schema, asg.last().0, 0);
    }
}

proof fn lemma_col_from_range(schema: Seq<ColumnDef>, name: Seq<char>, i: int)
    ensures
        col_from(schema, name, i) matches Some(k) ==> 0 <= k < schema.len(),
    decreases schema.len() - i,
{
    if 0 <= i < schema.len() && schema[i].name@ != name {
        lemma_col_from_range(schema, name, i + 1);
    }
}

proof fn lemma_update_fail(asg: Seq<(Seq<char>, ExprV)>, pred: Option<ExprV>, schema: Seq<ColumnDef>, rows: Seq<(u64, Seq<SqlValue>)>, i: int)
    requires
        0 <= i < rows.len(),
        update_spec(asg, pred, schema, rows.take(i + 1)) is None,
    ensures
        update_spec(asg, pred, schema, rows) is None,
    decreases rows.len() - i,
{
    if i + 1 < rows.len() {
        assert(rows.drop_last().take(i + 1) =~= rows.take(i + 1));
        lemma_update_fail(asg, pred, schema, rows.drop_last(), i);
    } else {
        assert(rows.take(i + 1) =~= rows);
    }
}

/// The rows a DELETE removes, from the rows read from its table (see
/// [`delete_spec`]).
pub fn delete_rows(selection: &Option<Expr>, schema: &[ColumnDef], rows: &Vec<(u64, Row)>) -> (r: Result<Vec<(u64, Row)>, String>)
    ensures
        match delete_spec(opt_expr(*selection), schema@, id_rows(rows@)) {
            Some(d) => r matches Ok(v) && id_rows(v@) == d,
            None => r is Err,
        },
{
    let ghost all = id_rows(rows@);
    let mut out: Vec<(u64, Row)> = Vec::new();
    let mut i: usize = 0;
    assert(id_rows(out@) =~= Seq::<(u64, Seq<SqlValue>)>::empty());
    while i < rows.len()
        invariant
            i <= rows@.len(),
            all == id_rows(rows@),
            delete_spec(opt_expr(*selection), schema@, all.take(i as int)) == Some(id_rows(out@)),
        decreases rows@.len() - i,
    {
        assert(all.take(i + 1).drop_last() =~= all.take(i as int));
        assert(all.take(i + 1).last() == (rows@[i as int].0, rows@[i as int].1@));
        match row_passes(selection, schema, &rows[i].1) {
            Err(m) => {
                proof { lemma_delete_fail(opt_expr(*selection), schema@, all, i as int); }
                return Err(m);
            },
            Ok(false) => {},
            Ok(true) => {
                let ghost o0 = id_rows(out@);
                out.push((rows[i].0, clone_row(rows[i].1.as_slice())));
                assert(id_rows(out@) =~= o0.push((rows@[i as int].0, rows@[i as int].1@)));
            },
        }
        i = i + 1;
    }
    assert(all.take(rows@.len() as int) =~= all);
    Ok(out)
}

proof fn lemma_delete_fail(pred: Option<ExprV>, schema: Seq<ColumnDef>, rows: Seq<(u64, Seq<SqlValue>)>, i: int)
    requires
        0 <= i < rows.len(),
        delete_spec(pred, schema, rows.take(i + 1)) is None,
    ensures
        delete_spec(pred, schema, rows) is None,
    decreases rows.len() - i,
{
    if i + 1 < rows.len() {
        assert(rows.drop_last().take(i + 1) =~= rows.take(i + 1));
        lemma_delete_fail(pred, schema, rows.drop_last(), i);
    } else {
        assert(rows.take(i + 1) =~= rows);
    }
}

} // verus!

use qmind_sql::codec::{ColumnDef, ColumnType, SqlValue};
use qmind_sql::engine::{clone_expr, try_parse_aggregates, IndexDef};
use qmind_sql::parser::{Parser, Select, Statement, TableRef};
use qmind_sql::query::{
    filter_rows, from_tables, group_plan, index_column, index_plan, insert_rows, join_keys, join_rows,
    parse_single_select, project_rows, result_batches, run_select, select_aggregates, select_group_by, select_join, select_rows,
    show_tables_result, sort_rows, stream_join, stream_select, table_columns, truncate_rows,
};

fn col(name: &str, ty: ColumnType, nullable: bool) -> ColumnDef {
    ColumnDef { name: name.into(), ty, nullable }
}

fn schema() -> Vec<ColumnDef> {
    vec![col("id", ColumnType::Int, false), col("grp", ColumnType::Int, false), col("name", ColumnType::Text, true)]
}

fn iv(n: i64) -> SqlValue {
    SqlValue::Int(n)
}

fn text(s: &str) -> SqlValue {
    SqlValue::Text(s.into())
}

fn rows() -> Vec<Vec<SqlValue>> {
    vec![
        vec![iv(1), iv(10), text("ann")],
        vec![iv(2), iv(20), text("bob")],
        vec![iv(3), iv(10), SqlValue::Null],
        vec![iv(4), iv(20), text("cy")],
        vec![iv(5), iv(30), text("dee")],
    ]
}

fn sel(sql: &str) -> Select {
    parse_single_select(sql).unwrap()
}

#[test]
fn single_select_parsing() {
    assert!(parse_single_select("SELECT * FROM t").is_ok());
    assert!(parse_single_select("SELECT * FROM t; SELECT * FROM u").is_err());
    assert!(parse_single_select("SHOW TABLES").is_err());
    assert!(parse_single_select("SELEKT").is_err());
}

#[test]
fn where_filter_keeps_true_rows_in_order() {
    let s = sel("SELECT * FROM t WHERE grp = 10 OR name = 'cy'");
    let kept = filter_rows(&s.selection, &schema(), &rows()).unwrap();
    let ids: Vec<SqlValue> = kept.iter().map(|r| r[0].clone()).collect();
    assert_eq!(ids, vec![iv(1), iv(3), iv(4)]);
    let bad = sel("SELECT * FROM t WHERE name + 1 = 2");
    assert!(filter_rows(&bad.selection, &schema(), &rows()).is_err());
    let none = sel("SELECT * FROM t");
    assert_eq!(filter_rows(&none.selection, &schema(), &rows()).unwrap().len(), 5);
}

#[test]
fn sort_is_stable_and_nulls_sort_last() {
    let s = sel("SELECT * FROM t ORDER BY name DESC");
    let keys = vec![clone_expr(&s.order_by[0].expr)];
    let sorted = sort_rows(&rows(), &keys, &vec![false], &schema(), true).unwrap();
    let ids: Vec<SqlValue> = sorted.iter().map(|r| r[0].clone()).collect();
    assert_eq!(ids, vec![iv(1), iv(2), iv(4), iv(5), iv(3)]);
    let g = sel("SELECT * FROM t ORDER BY grp DESC");
    let keys = vec![clone_expr(&g.order_by[0].expr)];
    let sorted = sort_rows(&rows(), &keys, &vec![true], &schema(), true).unwrap();
    let ids: Vec<SqlValue> = sorted.iter().map(|r| r[0].clone()).collect();
    assert_eq!(ids, vec![iv(5), iv(2), iv(4), iv(1), iv(3)]);
}

#[test]
fn failing_sort_key_is_strict_or_null() {
    let s = sel("SELECT * FROM t ORDER BY name + 1");
    let keys = vec![clone_expr(&s.order_by[0].expr)];
    assert!(sort_rows(&rows(), &keys, &vec![false], &schema(), true).is_err());
    let sorted = sort_rows(&rows(), &keys, &vec![false], &schema(), false).unwrap();
    assert_eq!(sorted.len(), 5);
}

#[test]
fn projection_and_truncation() {
    let s = sel("SELECT id * 2, UPPER(name) FROM t");
    let exprs: Vec<_> = s
        .projection
        .iter()
        .map(|i| match i {
            qmind_sql::parser::SelectItem::Expr(e) => clone_expr(e),
            _ => unreachable!(),
        })
        .collect();
    let out = project_rows(&exprs, &schema(), &rows()).unwrap();
    assert_eq!(out[0], vec![iv(2), text("ANN")]);
    assert_eq!(out[2], vec![iv(6), SqlValue::Null]);
    assert_eq!(truncate_rows(out.clone(), Some(2)).len(), 2);
    assert_eq!(truncate_rows(out.clone(), Some(9)).len(), 5);
    assert_eq!(truncate_rows(out, None).len(), 5);
}

#[test]
fn run_select_pipeline() {
    let r = run_select(&sel("SELECT name, id FROM t WHERE id > 1 ORDER BY id DESC LIMIT 2"), &schema(), &rows())
        .unwrap();
    assert_eq!(r.columns, vec!["name".to_string(), "id".to_string()]);
    assert_eq!(r.rows, vec![vec![text("dee"), iv(5)], vec![text("cy"), iv(4)]]);
    assert_eq!(r.rows_affected, 0);
    let star = run_select(&sel("SELECT * FROM t LIMIT 1"), &schema(), &rows()).unwrap();
    assert_eq!(star.columns, vec!["id".to_string(), "grp".to_string(), "name".to_string()]);
    assert_eq!(star.rows, vec![rows()[0].clone()]);
}

#[test]
fn lazy_limit_skips_later_rows() {
    // Row 3 has a NULL name; `LENGTH(name) > 0` is UNKNOWN there, but a
    // failing projection past the limit is never evaluated.
    let r = run_select(&sel("SELECT 10 / (id - 3) FROM t LIMIT 2"), &schema(), &rows()).unwrap();
    assert_eq!(r.rows, vec![vec![iv(-5)], vec![iv(-10)]]);
    assert!(run_select(&sel("SELECT 10 / (id - 3) FROM t LIMIT 3"), &schema(), &rows()).is_err());
    // With ORDER BY every row is filtered and sorted first.
    assert!(run_select(&sel("SELECT id FROM t ORDER BY 10 / (id - 3) LIMIT 1"), &schema(), &rows()).is_err());
    // LIMIT 0 evaluates nothing in the row-at-a-time engine.
    let z = run_select(&sel("SELECT id FROM t ORDER BY 10 / (id - 3) LIMIT 0"), &schema(), &rows()).unwrap();
    assert!(z.rows.is_empty());
}

#[test]
fn grouped_query_row_at_a_time() {
    let r = select_group_by(&sel("SELECT grp, COUNT(*), SUM(id) FROM t GROUP BY grp"), &schema(), &rows()).unwrap();
    assert_eq!(r.columns, vec!["grp".to_string(), "COUNT(*)".to_string(), "SUM(id)".to_string()]);
    assert_eq!(
        r.rows,
        vec![vec![iv(10), iv(2), iv(4)], vec![iv(20), iv(2), iv(6)], vec![iv(30), iv(1), iv(5)]]
    );
    let o = select_group_by(
        &sel("SELECT COUNT(*), grp FROM t GROUP BY grp ORDER BY COUNT(*) DESC, grp DESC LIMIT 2"),
        &schema(),
        &rows(),
    )
    .unwrap();
    assert_eq!(o.rows, vec![vec![iv(2), iv(20)], vec![iv(2), iv(10)]]);
    assert!(select_group_by(&sel("SELECT * FROM t GROUP BY grp"), &schema(), &rows()).is_err());
    assert!(select_group_by(&sel("SELECT name FROM t GROUP BY grp"), &schema(), &rows()).is_err());
    assert!(select_group_by(&sel("SELECT grp FROM t GROUP BY grp + 1"), &schema(), &rows()).is_err());
}

#[test]
fn group_plan_positions() {
    let s = sel("SELECT COUNT(*), grp, MAX(name) FROM t GROUP BY id, grp");
    let exprs: Vec<_> = s
        .projection
        .iter()
        .map(|i| match i {
            qmind_sql::parser::SelectItem::Expr(e) => clone_expr(e),
            _ => unreachable!(),
        })
        .collect();
    let (keys, aggs, pos) = group_plan(&s.group_by, &exprs, &schema()).unwrap();
    assert_eq!(keys, vec![0, 1]);
    assert_eq!(aggs.len(), 2);
    assert_eq!(pos, vec![2, 1, 3]);
}

#[test]
fn ungrouped_aggregates() {
    let s = sel("SELECT COUNT(*), COUNT(name), SUM(id), MIN(name), MAX(id), AVG(grp) FROM t WHERE id < 5");
    let aggs = try_parse_aggregates(&s.projection, &schema()).unwrap().unwrap();
    let r = select_aggregates(&s, &schema(), &aggs, &rows()).unwrap();
    assert_eq!(r.rows, vec![vec![iv(4), iv(3), iv(10), text("ann"), iv(4), iv(15)]]);
    let e = sel("SELECT COUNT(*), SUM(id) FROM t WHERE id > 100");
    let aggs = try_parse_aggregates(&e.projection, &schema()).unwrap().unwrap();
    let r = select_aggregates(&e, &schema(), &aggs, &rows()).unwrap();
    assert_eq!(r.rows, vec![vec![iv(0), SqlValue::Null]]);
    let t = sel("SELECT SUM(name) FROM t");
    let aggs = try_parse_aggregates(&t.projection, &schema()).unwrap().unwrap();
    assert!(select_aggregates(&t, &schema(), &aggs, &rows()).is_err());
}

#[test]
fn sum_overflow_is_an_error() {
    let big = vec![vec![iv(i64::MAX), iv(1), SqlValue::Null], vec![iv(1), iv(1), SqlValue::Null]];
    let s = sel("SELECT SUM(id) FROM t");
    let aggs = try_parse_aggregates(&s.projection, &schema()).unwrap().unwrap();
    assert!(select_aggregates(&s, &schema(), &aggs, &big).is_err());
}

#[test]
fn select_rows_dispatches() {
    let g = select_rows(&sel("SELECT grp, COUNT(*) FROM t GROUP BY grp LIMIT 1"), &schema(), &rows()).unwrap();
    assert_eq!(g.rows, vec![vec![iv(10), iv(2)]]);
    let a = select_rows(&sel("SELECT COUNT(*) FROM t"), &schema(), &rows()).unwrap();
    assert_eq!(a.rows, vec![vec![iv(5)]]);
    let p = select_rows(&sel("SELECT id FROM t WHERE name LIKE 'b%'"), &schema(), &rows()).unwrap();
    assert_eq!(p.rows, vec![vec![iv(2)]]);
}

#[test]
fn stream_select_paths() {
    let (cols, out) = stream_select(&sel("SELECT grp, SUM(id) FROM t GROUP BY grp ORDER BY grp DESC"), &schema(), &rows())
        .unwrap();
    assert_eq!(cols, vec!["grp".to_string(), "SUM(id)".to_string()]);
    assert_eq!(out, vec![vec![iv(30), iv(5)], vec![iv(20), iv(6)], vec![iv(10), iv(4)]]);
    let (_, empty) = stream_select(&sel("SELECT COUNT(name), MIN(id) FROM t WHERE id > 99"), &schema(), &rows()).unwrap();
    assert_eq!(empty, vec![vec![iv(0), SqlValue::Null]]);
    let (_, plain) = stream_select(&sel("SELECT id FROM t WHERE grp = 20 ORDER BY id DESC"), &schema(), &rows()).unwrap();
    assert_eq!(plain, vec![vec![iv(4)], vec![iv(2)]]);
    // A sort key that fails sorts as NULL in the batch pipeline.
    let (_, lenient) = stream_select(&sel("SELECT id FROM t ORDER BY name + 1 LIMIT 2"), &schema(), &rows()).unwrap();
    assert_eq!(lenient.len(), 2);
}

#[test]
fn stream_and_row_engines_agree() {
    for sql in [
        "SELECT id, name FROM t WHERE id >= 2 ORDER BY id",
        "SELECT grp, COUNT(*), SUM(id), MIN(id), MAX(id), AVG(id) FROM t GROUP BY grp",
        "SELECT grp, COUNT(*) FROM t GROUP BY grp ORDER BY COUNT(*) DESC",
        "SELECT COUNT(*), SUM(id), MIN(id), MAX(id) FROM t WHERE id > 1",
    ] {
        let s = sel(sql);
        let expected = select_rows(&s, &schema(), &rows()).unwrap();
        let (cols, got) = stream_select(&s, &schema(), &rows()).unwrap();
        assert_eq!(cols, expected.columns, "columns for {sql}");
        assert_eq!(got, expected.rows, "rows for {sql}");
    }
}

fn customers() -> (Vec<ColumnDef>, Vec<Vec<SqlValue>>) {
    (
        vec![col("id", ColumnType::Int, false), col("cname", ColumnType::Text, false)],
        vec![vec![iv(1), text("a")], vec![iv(2), text("b")], vec![iv(3), text("c")]],
    )
}

fn orders() -> (Vec<ColumnDef>, Vec<Vec<SqlValue>>) {
    (
        vec![col("oid", ColumnType::Int, false), col("cid", ColumnType::Int, true)],
        vec![vec![iv(100), iv(1)], vec![iv(200), iv(1)], vec![iv(300), iv(3)], vec![iv(400), SqlValue::Null]],
    )
}

#[test]
fn from_clause_tables() {
    let s = sel("SELECT * FROM a JOIN b ON x = y");
    assert_eq!(from_tables(&s.from).unwrap(), ("a".to_string(), Some("b".to_string())));
    assert_eq!(from_tables(&TableRef::Table("t".into())).unwrap(), ("t".to_string(), None));
    assert!(from_tables(&sel("SELECT * FROM a JOIN a ON x = y").from).is_err());
}

#[test]
fn join_key_resolution() {
    let (ls, _) = customers();
    let (rs, _) = orders();
    let on = |sql: &str| match sel(sql).from {
        TableRef::Join { on, .. } => on,
        _ => unreachable!(),
    };
    assert_eq!(join_keys(&on("SELECT * FROM c JOIN o ON id = cid"), &ls, &rs), Ok((0, 1)));
    assert_eq!(join_keys(&on("SELECT * FROM c JOIN o ON cid = id"), &ls, &rs), Ok((0, 1)));
    assert!(join_keys(&on("SELECT * FROM c JOIN o ON id = cname"), &ls, &rs).is_err());
    assert!(join_keys(&on("SELECT * FROM c JOIN o ON id < cid"), &ls, &rs).is_err());
    assert!(join_keys(&on("SELECT * FROM c JOIN o ON id = zz"), &ls, &rs).is_err());
}

#[test]
fn nested_loop_join_order() {
    let (_, l) = customers();
    let (_, r) = orders();
    let out = join_rows(&l, &r, 0, 1);
    assert_eq!(
        out,
        vec![
            vec![iv(1), text("a"), iv(100), iv(1)],
            vec![iv(1), text("a"), iv(200), iv(1)],
            vec![iv(3), text("c"), iv(300), iv(3)],
        ]
    );
}

#[test]
fn join_selects_agree() {
    let (ls, l) = customers();
    let (rs, r) = orders();
    let s = sel("SELECT cname, oid FROM c JOIN o ON id = cid WHERE oid > 100 ORDER BY oid DESC");
    let v = select_join(&s, &ls, &rs, &l, &r).unwrap();
    assert_eq!(v.columns, vec!["cname".to_string(), "oid".to_string()]);
    assert_eq!(v.rows, vec![vec![text("c"), iv(300)], vec![text("a"), iv(200)]]);
    let (cols, rows) = stream_join(&s, &ls, &rs, &l, &r).unwrap();
    assert_eq!(cols, v.columns);
    assert_eq!(rows, v.rows);
    let star = select_join(&sel("SELECT * FROM c JOIN o ON id = cid LIMIT 1"), &ls, &rs, &l, &r).unwrap();
    assert_eq!(star.columns.len(), 4);
    assert_eq!(star.rows.len(), 1);
}

#[test]
fn insert_values_are_checked() {
    let stmts = Parser::parse("INSERT INTO t VALUES (1, 2, 'x'), (3, 4, NULL)").unwrap();
    let Statement::Insert { rows: vals, .. } = &stmts[0] else { panic!("expected Insert") };
    let out = insert_rows("t", &schema(), vals).unwrap();
    assert_eq!(out, vec![vec![iv(1), iv(2), text("x")], vec![iv(3), iv(4), SqlValue::Null]]);
    let bad = |sql: &str| {
        let stmts = Parser::parse(sql).unwrap();
        let Statement::Insert { rows: vals, .. } = &stmts[0] else { panic!("expected Insert") };
        insert_rows("t", &schema(), vals)
    };
    assert_eq!(bad("INSERT INTO t VALUES (1, 2)"), Err("table `t` has 3 columns, got 2".to_string()));
    assert_eq!(bad("INSERT INTO t VALUES (NULL, 2, 'x')"), Err("column id is NOT NULL".to_string()));
    assert_eq!(bad("INSERT INTO t VALUES ('a', 2, 'x')"), Err("column id expects INTEGER".to_string()));
    assert!(bad("INSERT INTO t VALUES (1 + 1, 2, 'x')").is_err());
}

#[test]
fn ddl_helpers() {
    let stmts = Parser::parse("CREATE TABLE t (a INTEGER NOT NULL, b TEXT)").unwrap();
    let Statement::CreateTable { columns, .. } = &stmts[0] else { panic!("expected CreateTable") };
    let defs = table_columns(columns);
    assert_eq!(defs[0].name, "a");
    assert_eq!(defs[0].ty, ColumnType::Int);
    assert!(!defs[0].nullable);
    assert_eq!(defs[1].ty, ColumnType::Text);
    assert!(defs[1].nullable);
    assert_eq!(index_column(&vec!["grp".into()], &schema()), Ok("grp".to_string()));
    assert!(index_column(&vec!["grp".into(), "id".into()], &schema()).is_err());
    assert!(index_column(&vec!["nope".into()], &schema()).is_err());
    let t = show_tables_result(&vec!["zeta".into(), "alpha".into(), "mid".into()]);
    assert_eq!(t.columns, vec!["table".to_string()]);
    assert_eq!(t.rows, vec![vec![text("alpha")], vec![text("mid")], vec![text("zeta")]]);
}

#[test]
fn index_planning() {
    let idx = vec![
        IndexDef { name: "i_other".into(), table: "u".into(), column: "name".into() },
        IndexDef { name: "i_name".into(), table: "t".into(), column: "name".into() },
    ];
    let s = sel("SELECT * FROM t WHERE id > 1 AND name = 'bob'");
    let (name, key, rest) = index_plan("t", &idx, &s.selection, false).unwrap().unwrap();
    assert_eq!(name, "i_name");
    assert_eq!(key, vec![1, b'b', b'o', b'b']);
    assert_eq!(qmind_sql::engine::format_expr(&rest.unwrap()), "(id > 1)");
    assert!(index_plan("t", &idx, &s.selection, true).unwrap().is_none());
    let n = sel("SELECT * FROM t WHERE name = NULL");
    assert!(index_plan("t", &idx, &n.selection, false).unwrap().is_none());
    let only = sel("SELECT * FROM t WHERE name = 'x'");
    let (_, _, rest) = index_plan("t", &idx, &only.selection, false).unwrap().unwrap();
    assert!(rest.is_none());
}

fn both_ways(sql: &str, schema: &[ColumnDef], rows: &Vec<Vec<SqlValue>>) {
    let s = sel(sql);
    let expected = select_rows(&s, schema, rows).unwrap();
    let (cols, got) = stream_select(&s, schema, rows).unwrap();
    assert_eq!(cols, expected.columns, "columns for {sql}");
    assert_eq!(got, expected.rows, "rows for {sql}");
}

#[test]
fn aggregate_parity_with_nulls() {
    let schema = vec![col("id", ColumnType::Int, false), col("v", ColumnType::Int, true)];
    let rows: Vec<Vec<SqlValue>> = (0..50i64)
        .map(|i| vec![iv(i), if i % 7 == 0 { SqlValue::Null } else { iv(i * 3 - 100) }])
        .collect();
    for sql in [
        "SELECT COUNT(*) FROM s",
        "SELECT COUNT(v) FROM s",
        "SELECT SUM(v) FROM s",
        "SELECT AVG(v) FROM s",
        "SELECT MIN(v) FROM s",
        "SELECT MAX(v) FROM s",
        "SELECT COUNT(*), SUM(v), MIN(v), MAX(v) FROM s WHERE v > 0",
        "SELECT COUNT(v), COUNT(*) FROM s WHERE v > 1000000",
    ] {
        both_ways(sql, &schema, &rows);
    }
    let s = sel("SELECT SUM(v) FROM s");
    let (_, got) = stream_select(&s, &schema, &rows).unwrap();
    let expected: i64 = (0..50i64).filter(|i| i % 7 != 0).map(|i| i * 3 - 100).sum();
    assert_eq!(got, vec![vec![iv(expected)]]);
}

#[test]
fn group_by_parity_queries() {
    let schema = vec![
        col("id", ColumnType::Int, false),
        col("grp", ColumnType::Int, false),
        col("amt", ColumnType::Int, false),
    ];
    let rows: Vec<Vec<SqlValue>> = (0..200i64).map(|i| vec![iv(i), iv(i % 4), iv((i * 7) % 100)]).collect();
    for sql in [
        "SELECT grp, COUNT(*) FROM t GROUP BY grp",
        "SELECT grp, SUM(amt), AVG(amt), MIN(amt), MAX(amt) FROM t GROUP BY grp",
        "SELECT grp, COUNT(*) FROM t WHERE grp >= 2 GROUP BY grp",
        "SELECT grp, COUNT(*) FROM t GROUP BY grp ORDER BY COUNT(*) DESC",
        "SELECT grp, SUM(amt) FROM t GROUP BY grp ORDER BY grp DESC",
    ] {
        both_ways(sql, &schema, &rows);
    }
}

#[test]
fn grouped_sum_of_only_nulls_differs() {
    // The row-at-a-time SUM of no value is 0; the batch pipeline gives NULL.
    let schema = vec![col("g", ColumnType::Int, false), col("v", ColumnType::Int, true)];
    let rows = vec![vec![iv(1), SqlValue::Null]];
    let s = sel("SELECT g, SUM(v) FROM t GROUP BY g");
    assert_eq!(select_rows(&s, &schema, &rows).unwrap().rows, vec![vec![iv(1), iv(0)]]);
    assert_eq!(stream_select(&s, &schema, &rows).unwrap().1, vec![vec![iv(1), SqlValue::Null]]);
}

#[test]
fn join_parity_queries() {
    let ls = vec![col("id", ColumnType::Int, false), col("name", ColumnType::Text, false)];
    let rs = vec![col("oid", ColumnType::Int, false), col("cid", ColumnType::Int, false), col("amount", ColumnType::Int, false)];
    let l: Vec<Vec<SqlValue>> = (0..40i64).map(|i| vec![iv(i), text(&format!("cust_{i}"))]).collect();
    let r: Vec<Vec<SqlValue>> = (0..60i64).map(|i| vec![iv(i), iv(i % 20), iv(i * 3)]).collect();
    for sql in [
        "SELECT id, amount FROM customers INNER JOIN orders ON id = cid",
        "SELECT id, oid, amount FROM customers INNER JOIN orders ON id = cid WHERE amount > 90",
        "SELECT * FROM customers INNER JOIN orders ON id = cid",
        "SELECT name, amount FROM customers INNER JOIN orders ON id = cid ORDER BY amount LIMIT 8",
    ] {
        let s = sel(sql);
        let expected = select_join(&s, &ls, &rs, &l, &r).unwrap();
        let (cols, got) = stream_join(&s, &ls, &rs, &l, &r).unwrap();
        assert_eq!(cols, expected.columns, "columns for {sql}");
        assert_eq!(got, expected.rows, "rows for {sql}");
    }
    let (_, all) = stream_join(&sel("SELECT id FROM customers INNER JOIN orders ON id = cid"), &ls, &rs, &l, &r).unwrap();
    assert_eq!(all.len(), 60);
}

#[test]
fn results_are_handed_on_in_full_batches() {
    let rows: Vec<Vec<SqlValue>> = (0..5000i64).map(|i| vec![iv(i), text("x")]).collect();
    let bs = result_batches(&rows, 2);
    let sizes: Vec<usize> = bs.iter().map(|b| b.num_rows()).collect();
    assert_eq!(sizes, vec![2048, 2048, 904]);
    assert_eq!(bs[1].row(0), vec![iv(2048), text("x")]);
    assert_eq!(bs[2].row(903), vec![iv(4999), text("x")]);
    assert!(result_batches(&Vec::new(), 2).is_empty());
    assert_eq!(result_batches(&rows[..2048].to_vec(), 2).len(), 1);
}

#[test]
fn ddl_decisions() {
    let stmts = Parser::parse("CREATE TABLE t (a INTEGER NOT NULL, b TEXT)").unwrap();
    let Statement::CreateTable { columns, .. } = &stmts[0] else { panic!("expected CreateTable") };
    let existing = vec!["t".to_string()];
    assert_eq!(qmind_sql::query::create_table_plan(&existing, "t", columns, true).unwrap().is_none(), true);
    assert_eq!(
        qmind_sql::query::create_table_plan(&existing, "t", columns, false).err(),
        Some("table `t` already exists".to_string())
    );
    let fresh = qmind_sql::query::create_table_plan(&existing, "u", columns, false).unwrap().unwrap();
    assert_eq!(fresh.len(), 2);
    assert!(!fresh[0].nullable);
    let idx = vec!["i".to_string()];
    let sc = schema();
    assert_eq!(
        qmind_sql::query::create_index_plan(&idx, "i", "t", Some(&sc), &vec!["id".into()]),
        Err("index `i` already exists".to_string())
    );
    assert_eq!(
        qmind_sql::query::create_index_plan(&idx, "j", "t", Some(&sc), &vec!["id".into(), "grp".into()]),
        Err("only single-column indexes are supported".to_string())
    );
    assert_eq!(
        qmind_sql::query::create_index_plan(&idx, "j", "missing", None, &vec!["x".into()]),
        Err("no table `missing`".to_string())
    );
    assert_eq!(
        qmind_sql::query::create_index_plan(&idx, "j", "t", Some(&sc), &vec!["y".into()]),
        Err("unknown column y".to_string())
    );
    assert_eq!(qmind_sql::query::create_index_plan(&idx, "j", "t", Some(&sc), &vec!["grp".into()]), Ok("grp".to_string()));
    assert_eq!(qmind_sql::query::drop_index_plan(&idx, "i"), Ok(()));
    assert_eq!(qmind_sql::query::drop_index_plan(&idx, "k"), Err("no index `k`".to_string()));
}

#[test]
fn grouped_and_join_refusal_messages() {
    let e = |sql: &str| select_group_by(&sel(sql), &schema(), &rows()).err();
    assert_eq!(e("SELECT * FROM t GROUP BY grp"), Some("unsupported GROUP BY projection".to_string()));
    assert_eq!(e("SELECT grp FROM t GROUP BY grp + 1"), Some("GROUP BY supports plain columns only".to_string()));
    assert_eq!(e("SELECT grp FROM t GROUP BY nope"), Some("unknown column nope".to_string()));
    assert_eq!(e("SELECT name FROM t GROUP BY grp"), Some("name must appear in GROUP BY or be aggregated".to_string()));
    assert_eq!(e("SELECT upper(name) FROM t GROUP BY grp"), Some("unsupported function UPPER".to_string()));
    assert_eq!(e("SELECT grp + 1 FROM t GROUP BY grp"), Some("unsupported GROUP BY projection".to_string()));
    let (ls, l) = customers();
    let (rs, r) = orders();
    let j = |sql: &str| select_join(&sel(sql), &ls, &rs, &l, &r).err();
    assert_eq!(j("SELECT * FROM c JOIN o ON id < cid"), Some("JOIN ON must be an equality".to_string()));
    assert_eq!(j("SELECT * FROM c JOIN o ON id = 1"), Some("JOIN ON sides must be columns".to_string()));
    assert_eq!(j("SELECT * FROM c JOIN o ON id = zz"), Some("unknown column zz".to_string()));
    assert_eq!(j("SELECT * FROM c JOIN o ON id = cname"), Some("JOIN ON must span both tables".to_string()));
}

#[test]
fn update_and_delete_rows() {
    let ided: Vec<(u64, Vec<SqlValue>)> = rows().into_iter().enumerate().map(|(i, r)| (i as u64, r)).collect();
    let s = sel("SELECT * FROM t WHERE grp = 20");
    let asg = vec![
        qmind_sql::query::Assignment { column: "name".into(), value: qmind_sql::parser::Expr::Literal(text("z")) },
        qmind_sql::query::Assignment { column: "grp".into(), value: qmind_sql::parser::Expr::Literal(iv(99)) },
    ];
    let up = qmind_sql::query::update_rows(&asg, &s.selection, &schema(), &ided).unwrap();
    assert_eq!(up, vec![(1, vec![iv(2), iv(99), text("z")]), (3, vec![iv(4), iv(99), text("z")])]);
    assert_eq!(
        qmind_sql::query::update_rows(&Vec::new(), &s.selection, &schema(), &ided).err(),
        Some("UPDATE requires at least one SET assignment".to_string())
    );
    let bad = vec![qmind_sql::query::Assignment { column: "nope".into(), value: qmind_sql::parser::Expr::Literal(iv(1)) }];
    assert_eq!(
        qmind_sql::query::update_rows(&bad, &s.selection, &schema(), &ided).err(),
        Some("unknown column nope".to_string())
    );
    let del = qmind_sql::query::delete_rows(&s.selection, &schema(), &ided).unwrap();
    assert_eq!(del.iter().map(|r| r.0).collect::<Vec<u64>>(), vec![1, 3]);
    assert_eq!(qmind_sql::query::delete_rows(&None, &schema(), &ided).unwrap().len(), 5);
}

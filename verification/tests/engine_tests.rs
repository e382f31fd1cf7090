use qmind_sql::codec::{ColumnDef, ColumnType, SqlValue};
use qmind_sql::engine::{
    col_pos, conjuncts, contains_aggregate, eval_expr, format_expr, grouped_order_index, index_key_encode,
    int_to_string, is_true, like_matches, literal_value, projection_specs, remove_conjunct, to_logic, ExecResult,
};
use qmind_sql::parser::{Expr, Parser, Select, Statement};

fn schema() -> Vec<ColumnDef> {
    vec![
        ColumnDef { name: "id".into(), ty: ColumnType::Int, nullable: false },
        ColumnDef { name: "name".into(), ty: ColumnType::Text, nullable: true },
        ColumnDef { name: "v".into(), ty: ColumnType::Int, nullable: true },
    ]
}

fn select_of(sql: &str) -> Select {
    let mut stmts = Parser::parse(sql).unwrap();
    match stmts.remove(0) {
        Statement::Select(s) => s,
        other => panic!("expected Select, got {other:?}"),
    }
}

fn where_of(sql: &str) -> Expr {
    select_of(sql).selection.unwrap()
}

fn eval_where(cond: &str, row: &[SqlValue]) -> Result<SqlValue, String> {
    let e = where_of(&format!("SELECT * FROM t WHERE {cond}"));
    eval_expr(&e, &schema(), row)
}

fn row() -> Vec<SqlValue> {
    vec![SqlValue::Int(7), SqlValue::Text("Alice".into()), SqlValue::Null]
}

#[test]
fn exec_result_empty_has_nothing() {
    let r = ExecResult::empty();
    assert!(r.columns.is_empty());
    assert!(r.rows.is_empty());
    assert_eq!(r.rows_affected, 0);
}

#[test]
fn col_pos_finds_first_match_and_reports_unknown() {
    assert_eq!(col_pos(&schema(), "name"), Ok(1));
    assert_eq!(col_pos(&schema(), "missing"), Err("unknown column missing".to_string()));
}

#[test]
fn boolean_coercion() {
    assert_eq!(to_logic(&SqlValue::Null), Ok(None));
    assert_eq!(to_logic(&SqlValue::Int(0)), Ok(Some(false)));
    assert_eq!(to_logic(&SqlValue::Int(-3)), Ok(Some(true)));
    assert!(to_logic(&SqlValue::Text("x".into())).is_err());
    assert_eq!(is_true(&SqlValue::Null), Ok(false));
    assert_eq!(is_true(&SqlValue::Int(5)), Ok(true));
}

#[test]
fn three_valued_and_or_not() {
    let r = row();
    assert_eq!(eval_where("v = 1 AND id = 8", &r), Ok(SqlValue::Int(0)));
    assert_eq!(eval_where("v = 1 AND id = 7", &r), Ok(SqlValue::Null));
    assert_eq!(eval_where("v = 1 OR id = 7", &r), Ok(SqlValue::Int(1)));
    assert_eq!(eval_where("v = 1 OR id = 8", &r), Ok(SqlValue::Null));
    assert_eq!(eval_where("NOT v = 1", &r), Ok(SqlValue::Null));
    assert_eq!(eval_where("NOT id = 8", &r), Ok(SqlValue::Int(1)));
}

#[test]
fn comparisons_between_and_in() {
    let r = row();
    assert_eq!(eval_where("id BETWEEN 1 AND 7", &r), Ok(SqlValue::Int(1)));
    assert_eq!(eval_where("id BETWEEN 8 AND 9", &r), Ok(SqlValue::Int(0)));
    assert_eq!(eval_where("id BETWEEN v AND 9", &r), Ok(SqlValue::Null));
    assert_eq!(eval_where("id IN (1, 7)", &r), Ok(SqlValue::Int(1)));
    assert_eq!(eval_where("id IN (1, NULL)", &r), Ok(SqlValue::Null));
    assert_eq!(eval_where("id IN (1, 2)", &r), Ok(SqlValue::Int(0)));
    assert_eq!(eval_where("name = 'Alice'", &r), Ok(SqlValue::Int(1)));
    assert_eq!(eval_where("name > 'Bob'", &r), Ok(SqlValue::Int(0)));
    assert_eq!(eval_where("name = 1", &r), Ok(SqlValue::Null));
    assert_eq!(eval_where("id >= 7", &r), Ok(SqlValue::Int(1)));
}

#[test]
fn arithmetic_and_errors() {
    let r = row();
    assert_eq!(eval_where("id + 3 * 2 = 13", &r), Ok(SqlValue::Int(1)));
    assert_eq!(eval_where("-7 / 2 = -3", &r), Ok(SqlValue::Int(1)));
    assert_eq!(eval_where("-7 % 2 = -1", &r), Ok(SqlValue::Int(1)));
    assert_eq!(eval_where("id + v = 1", &r), Ok(SqlValue::Null));
    assert_eq!(eval_where("id / 0 = 1", &r), Err("division by zero".to_string()));
    assert_eq!(eval_where("id % 0 = 1", &r), Err("division by zero".to_string()));
    assert_eq!(
        eval_where("9223372036854775807 + id = 1", &r),
        Err("integer overflow in arithmetic".to_string())
    );
    assert_eq!(eval_where("name + 1 = 1", &r), Err("arithmetic requires INTEGER operands".to_string()));
    assert_eq!(eval_where("missing = 1", &r), Err("unknown column missing".to_string()));
    assert!(eval_where("name AND 1", &r).is_err());
}

#[test]
fn like_and_scalar_functions() {
    let r = row();
    assert_eq!(eval_where("name LIKE 'A%'", &r), Ok(SqlValue::Int(1)));
    assert_eq!(eval_where("name LIKE '_lice'", &r), Ok(SqlValue::Int(1)));
    assert_eq!(eval_where("name LIKE 'a%'", &r), Ok(SqlValue::Int(0)));
    assert_eq!(eval_where("v LIKE 'a%'", &r), Ok(SqlValue::Null));
    assert_eq!(eval_where("id LIKE 'a%'", &r), Err("LIKE requires TEXT operands".to_string()));
    assert_eq!(eval_where("UPPER(name) = 'ALICE'", &r), Ok(SqlValue::Int(1)));
    assert_eq!(eval_where("lower(name) = 'alice'", &r), Ok(SqlValue::Int(1)));
    assert_eq!(eval_where("LENGTH(name) = 5", &r), Ok(SqlValue::Int(1)));
    assert_eq!(eval_where("LENGTH(v) = 5", &r), Ok(SqlValue::Null));
    assert!(eval_where("LENGTH(id) = 5", &r).is_err());
    assert!(eval_where("FOO(id) = 5", &r).is_err());
}

#[test]
fn like_matcher_edges() {
    assert!(like_matches("", ""));
    assert!(like_matches("", "%"));
    assert!(!like_matches("", "_"));
    assert!(like_matches("héllo", "h_llo"));
    assert!(like_matches("abcabc", "%b%c"));
    assert!(!like_matches("abc", "ab"));
    assert!(like_matches("abc", "a%%c"));
}

#[test]
fn format_expr_renders_labels() {
    let sel = select_of("SELECT a + 1, COUNT(*), lower(name), -v, x IN (1, 'y'), b BETWEEN 1 AND 2 FROM t");
    let (exprs, cols) = projection_specs(&sel, &schema()).unwrap();
    assert_eq!(exprs.len(), 6);
    assert_eq!(
        cols,
        vec![
            "(a + 1)".to_string(),
            "COUNT(*)".to_string(),
            "LOWER(name)".to_string(),
            "(-v)".to_string(),
            "(x IN (1, 'y'))".to_string(),
            "(b BETWEEN 1 AND 2)".to_string(),
        ]
    );
    assert_eq!(format_expr(&where_of("SELECT * FROM t WHERE NOT a != NULL")), "(NOT (a != NULL))");
}

#[test]
fn projection_star_expands_schema() {
    let sel = select_of("SELECT * FROM t");
    let (exprs, cols) = projection_specs(&sel, &schema()).unwrap();
    assert_eq!(cols, vec!["id".to_string(), "name".to_string(), "v".to_string()]);
    assert_eq!(exprs[2], Expr::Identifier("v".into()));
}

#[test]
fn conjunct_split_and_removal() {
    let pred = where_of("SELECT * FROM t WHERE a = 1 AND b = 2 AND c = 3");
    let parts = conjuncts(&pred);
    assert_eq!(parts.len(), 3);
    assert_eq!(format_expr(&parts[1]), "(b = 2)");
    let rest = remove_conjunct(&pred, &parts[1]).unwrap();
    assert_eq!(format_expr(&rest), "((a = 1) AND (c = 3))");
    let single = where_of("SELECT * FROM t WHERE a = 1");
    assert_eq!(remove_conjunct(&single, &single), None);
    let other = where_of("SELECT * FROM t WHERE z = 9");
    assert_eq!(remove_conjunct(&pred, &other), Some(pred));
}

#[test]
fn aggregate_detection_and_order_resolution() {
    let sel = select_of("SELECT g, 1 + sum(v), upper(name) FROM t");
    let items: Vec<Expr> = projection_specs(&sel, &schema()).unwrap().0;
    assert!(!contains_aggregate(&items[0]));
    assert!(contains_aggregate(&items[1]));
    assert!(!contains_aggregate(&items[2]));
    let cols = vec!["g".to_string(), "COUNT(*)".to_string()];
    let ob = select_of("SELECT g FROM t ORDER BY count(*), g");
    assert_eq!(grouped_order_index(&ob.order_by[0].expr, &cols), Ok(1));
    assert_eq!(grouped_order_index(&ob.order_by[1].expr, &cols), Ok(0));
    assert!(grouped_order_index(&Expr::Identifier("zz".into()), &cols).is_err());
    assert!(grouped_order_index(&Expr::Literal(SqlValue::Int(1)), &cols).is_err());
}

#[test]
fn literal_values() {
    assert_eq!(literal_value(&Expr::Literal(SqlValue::Int(3))), Ok(SqlValue::Int(3)));
    assert!(literal_value(&Expr::Identifier("x".into())).is_err());
}

#[test]
fn integers_render_in_decimal() {
    assert_eq!(int_to_string(0), "0");
    assert_eq!(int_to_string(-42), "-42");
    assert_eq!(int_to_string(i64::MIN), "-9223372036854775808");
    assert_eq!(int_to_string(i64::MAX), "9223372036854775807");
}

#[test]
fn index_keys_order_like_values() {
    assert!(index_key_encode(&SqlValue::Null).is_err());
    let k = index_key_encode(&SqlValue::Int(1)).unwrap();
    assert_eq!(k, vec![0, 0x80, 0, 0, 0, 0, 0, 0, 1]);
    let t = index_key_encode(&SqlValue::Text("ab".into())).unwrap();
    assert_eq!(t, vec![1, b'a', b'b']);
    let a = index_key_encode(&SqlValue::Int(-5)).unwrap();
    let b = index_key_encode(&SqlValue::Int(3)).unwrap();
    assert!(a < b);
    assert!(k < t);
    let x = index_key_encode(&SqlValue::Text("abc".into())).unwrap();
    let y = index_key_encode(&SqlValue::Text("abd".into())).unwrap();
    assert!(x < y);
    let aa = index_key_encode(&SqlValue::Text("aa".into())).unwrap();
    let b1 = index_key_encode(&SqlValue::Text("b".into())).unwrap();
    assert!(aa < b1);
    assert_eq!(index_key_encode(&SqlValue::Null), Err("NULL values are not indexed".to_string()));
}

#[test]
fn null_in_list_is_unknown() {
    let r = vec![SqlValue::Int(7), SqlValue::Text("Alice".into()), SqlValue::Null];
    assert_eq!(eval_where("v IN (1, 2)", &r), Ok(SqlValue::Null));
    assert_eq!(eval_where("NOT v IN (1)", &r), Ok(SqlValue::Null));
    assert_eq!(qmind_sql::engine::uppercase("count"), "COUNT");
    assert_eq!(qmind_sql::engine::lowercase("MiXed"), "mixed");
}

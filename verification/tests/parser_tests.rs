use qmind_sql::codec::SqlValue;
use qmind_sql::parser::{tokenize, BinOp, DataType, Expr, Parser, SelectItem, Statement, TableRef, Token, UnaryOp};

#[test]
fn tokenize_basics() {
    let toks = tokenize("SELECT * FROM t WHERE a = 1").unwrap();
    assert!(matches!(toks[0], Token::Keyword("SELECT")));
    assert_eq!(toks[1], Token::Star);
    assert!(matches!(toks[2], Token::Keyword("FROM")));
    assert!(matches!(toks[3], Token::Ident(ref s) if s == "t"));
    assert!(matches!(toks[4], Token::Keyword("WHERE")));
    assert!(matches!(toks[5], Token::Ident(ref s) if s == "a"));
    assert_eq!(toks[6], Token::Eq);
    assert_eq!(toks[7], Token::Int(1));
}

#[test]
fn tokenize_string_with_escape() {
    let toks = tokenize("INSERT INTO t VALUES ('it''s ok')").unwrap();
    assert_eq!(toks.last().unwrap(), &Token::Eof);
}

#[test]
fn parse_create_table() {
    let stmts = Parser::parse("CREATE TABLE t (id INTEGER NOT NULL, name TEXT)").unwrap();
    match &stmts[0] {
        Statement::CreateTable { name, columns, if_not_exists } => {
            assert_eq!(name, "t");
            assert!(!if_not_exists);
            assert_eq!(columns.len(), 2);
            assert_eq!(columns[0].name, "id");
            assert_eq!(columns[0].data_type, DataType::Integer);
            assert!(columns[0].not_null);
            assert_eq!(columns[1].name, "name");
            assert_eq!(columns[1].data_type, DataType::Text);
            assert!(!columns[1].not_null);
        }
        other => panic!("expected CreateTable, got {other:?}"),
    }
}

#[test]
fn parse_create_table_if_not_exists() {
    let stmts = Parser::parse("CREATE TABLE IF NOT EXISTS t (x INT)").unwrap();
    match &stmts[0] {
        Statement::CreateTable { if_not_exists, .. } => assert!(if_not_exists),
        other => panic!("expected CreateTable, got {other:?}"),
    }
}

#[test]
fn parse_insert_multiple_rows() {
    let stmts = Parser::parse("INSERT INTO t VALUES (1, 'a'), (2, 'b')").unwrap();
    match &stmts[0] {
        Statement::Insert { table, rows } => {
            assert_eq!(table, "t");
            assert_eq!(rows.len(), 2);
            assert_eq!(rows[0][0], Expr::Literal(SqlValue::Int(1)));
            assert_eq!(rows[0][1], Expr::Literal(SqlValue::Text("a".into())));
        }
        other => panic!("expected Insert, got {other:?}"),
    }
}

#[test]
fn parse_select_star() {
    let stmts = Parser::parse("SELECT * FROM users").unwrap();
    match &stmts[0] {
        Statement::Select(sel) => {
            assert_eq!(sel.projection, vec![SelectItem::Star]);
            assert!(matches!(&sel.from, TableRef::Table(s) if s == "users"));
            assert!(sel.selection.is_none());
            assert!(sel.group_by.is_empty());
            assert!(sel.limit.is_none());
        }
        other => panic!("expected Select, got {other:?}"),
    }
}

#[test]
fn parse_select_with_where_and_limit() {
    let stmts = Parser::parse("SELECT a, b FROM t WHERE a > 5 AND b = 'x' LIMIT 10").unwrap();
    match &stmts[0] {
        Statement::Select(sel) => {
            assert_eq!(sel.projection.len(), 2);
            assert!(sel.selection.is_some());
            assert_eq!(sel.limit, Some(10));
        }
        other => panic!("expected Select, got {other:?}"),
    }
}

#[test]
fn parse_inner_join() {
    let stmts =
        Parser::parse("SELECT name, amount FROM customers INNER JOIN orders ON id = cid WHERE amount > 200").unwrap();
    match &stmts[0] {
        Statement::Select(sel) => {
            assert!(matches!(&sel.from, TableRef::Join { right, .. } if right == "orders"));
            assert!(sel.selection.is_some());
        }
        other => panic!("expected Select, got {other:?}"),
    }
}

#[test]
fn parse_group_by() {
    let stmts = Parser::parse("SELECT tag, COUNT(*), SUM(v) FROM s GROUP BY tag").unwrap();
    match &stmts[0] {
        Statement::Select(sel) => {
            assert_eq!(sel.projection.len(), 3);
            assert_eq!(sel.group_by.len(), 1);
        }
        other => panic!("expected Select, got {other:?}"),
    }
}

#[test]
fn parse_aggregate_functions() {
    let stmts = Parser::parse("SELECT COUNT(*), AVG(x), MIN(y), MAX(z) FROM t").unwrap();
    match &stmts[0] {
        Statement::Select(sel) => {
            assert_eq!(sel.projection.len(), 4);
            for item in &sel.projection {
                assert!(matches!(item, SelectItem::Expr(Expr::Function { .. })));
            }
        }
        other => panic!("expected Select, got {other:?}"),
    }
}

#[test]
fn parse_show_tables() {
    let stmts = Parser::parse("SHOW TABLES").unwrap();
    assert!(matches!(stmts[0], Statement::ShowTables));
}

#[test]
fn parse_negative_integer() {
    let stmts = Parser::parse("INSERT INTO t VALUES (-42)").unwrap();
    match &stmts[0] {
        Statement::Insert { rows, .. } => {
            assert_eq!(rows[0][0], Expr::Literal(SqlValue::Int(-42)));
        }
        other => panic!("expected Insert, got {other:?}"),
    }
}

#[test]
fn parse_null_literal() {
    let stmts = Parser::parse("INSERT INTO t VALUES (NULL)").unwrap();
    match &stmts[0] {
        Statement::Insert { rows, .. } => {
            assert_eq!(rows[0][0], Expr::Literal(SqlValue::Null));
        }
        other => panic!("expected Insert, got {other:?}"),
    }
}

#[test]
fn syntax_error_on_bad_input() {
    assert!(Parser::parse("SELEKT x").is_err());
    assert!(Parser::parse("").is_err());
    assert!(Parser::parse("CREATE TABLE").is_err());
}

#[test]
fn case_insensitive_keywords() {
    let stmts = Parser::parse("select * from t").unwrap();
    assert!(matches!(stmts[0], Statement::Select(_)));
}

#[test]
fn parse_nested_parens_in_where() {
    let stmts = Parser::parse("SELECT * FROM t WHERE (a = 1 AND b = 2)").unwrap();
    match &stmts[0] {
        Statement::Select(sel) => assert!(sel.selection.is_some()),
        other => panic!("expected Select, got {other:?}"),
    }
}

#[test]
fn parse_or_binds_looser_than_and() {
    let stmts = Parser::parse("SELECT * FROM t WHERE a = 1 OR a = 2 AND b = 3").unwrap();
    let Statement::Select(sel) = &stmts[0] else {
        panic!("expected Select");
    };
    let Some(Expr::BinaryOp { op, left, right }) = &sel.selection else {
        panic!("expected OR at top");
    };
    assert_eq!(*op, BinOp::Or);
    let Expr::BinaryOp { op: eq_left, .. } = left.as_ref() else {
        panic!("OR left side should be an equality");
    };
    assert_eq!(*eq_left, BinOp::Eq);
    let Expr::BinaryOp { op: and_op, .. } = right.as_ref() else {
        panic!("right side should be AND");
    };
    assert_eq!(*and_op, BinOp::And);
}

#[test]
fn parse_not_predicate() {
    let stmts = Parser::parse("SELECT * FROM t WHERE NOT a = 1").unwrap();
    let Statement::Select(sel) = &stmts[0] else {
        panic!("expected Select");
    };
    let Some(Expr::Unary { op: UnaryOp::Not, expr }) = &sel.selection else {
        panic!("expected NOT at top");
    };
    let Expr::BinaryOp { op: BinOp::Eq, .. } = expr.as_ref() else {
        panic!("NOT should wrap an equality");
    };
}

#[test]
fn parse_like_in_between_and_negations() {
    let stmts = Parser::parse("SELECT * FROM t WHERE name LIKE 'A%' AND id IN (1, 2, 3)").unwrap();
    let Statement::Select(sel) = &stmts[0] else {
        panic!("expected Select");
    };
    let Some(Expr::BinaryOp { op: BinOp::And, .. }) = &sel.selection else {
        panic!("expected AND");
    };

    let stmts = Parser::parse("SELECT * FROM t WHERE salary BETWEEN 10 AND 20").unwrap();
    let Statement::Select(sel) = &stmts[0] else {
        panic!("expected Select");
    };
    let Some(Expr::Between { lo, hi, .. }) = &sel.selection else {
        panic!("expected BETWEEN");
    };
    assert_eq!(lo.as_ref(), &Expr::Literal(SqlValue::Int(10)));
    assert_eq!(hi.as_ref(), &Expr::Literal(SqlValue::Int(20)));

    let stmts = Parser::parse("SELECT * FROM t WHERE name NOT LIKE 'x%'").unwrap();
    let Statement::Select(sel) = &stmts[0] else {
        panic!("expected Select");
    };
    let Some(Expr::Unary { op: UnaryOp::Not, expr }) = &sel.selection else {
        panic!("expected NOT wrapping LIKE");
    };
    let Expr::BinaryOp { op: BinOp::Like, .. } = expr.as_ref() else {
        panic!("expected LIKE");
    };

    let stmts = Parser::parse("SELECT * FROM t WHERE id NOT BETWEEN 1 AND 5").unwrap();
    let Statement::Select(sel) = &stmts[0] else {
        panic!("expected Select");
    };
    let Some(Expr::Unary { op: UnaryOp::Not, expr }) = &sel.selection else {
        panic!("expected NOT wrapping BETWEEN");
    };
    let Expr::Between { .. } = expr.as_ref() else {
        panic!("expected BETWEEN");
    };
}

#[test]
fn parse_arithmetic_precedence() {
    let stmts = Parser::parse("SELECT a + b * 2 FROM t WHERE a - 1 = 5").unwrap();
    let Statement::Select(sel) = &stmts[0] else {
        panic!("expected Select");
    };
    let SelectItem::Expr(Expr::BinaryOp { op: plus, right, .. }) = &sel.projection[0] else {
        panic!("expected additive projection");
    };
    assert_eq!(*plus, BinOp::Add);
    let Expr::BinaryOp { op: mul, .. } = right.as_ref() else {
        panic!("* binds tighter than +");
    };
    assert_eq!(*mul, BinOp::Mul);

    let Some(Expr::BinaryOp { op: eq, left, .. }) = &sel.selection else {
        panic!("expected comparison");
    };
    assert_eq!(*eq, BinOp::Eq);
    let Expr::BinaryOp { op: sub, .. } = left.as_ref() else {
        panic!("expected Sub on left");
    };
    assert_eq!(*sub, BinOp::Sub);
}

#[test]
fn parse_order_by() {
    let stmts = Parser::parse("SELECT a, b FROM t ORDER BY b DESC, a").unwrap();
    let Statement::Select(sel) = &stmts[0] else {
        panic!("expected Select");
    };
    assert_eq!(sel.order_by.len(), 2);
    assert!(!sel.order_by[0].asc);
    assert!(sel.order_by[1].asc);
    assert!(matches!(&sel.order_by[0].expr, Expr::Identifier(n) if n == "b"));
}

#[test]
fn parse_create_and_drop_index() {
    let stmts = Parser::parse("CREATE INDEX idx_name ON users (name)").unwrap();
    match &stmts[0] {
        Statement::CreateIndex { name, table, columns } => {
            assert_eq!(name, "idx_name");
            assert_eq!(table, "users");
            assert_eq!(columns, &vec!["name".to_string()]);
        }
        other => panic!("expected CreateIndex, got {other:?}"),
    }
    let stmts = Parser::parse("DROP INDEX idx_name").unwrap();
    match &stmts[0] {
        Statement::DropIndex { name } => assert_eq!(name, "idx_name"),
        other => panic!("expected DropIndex, got {other:?}"),
    }
}

#[test]
fn e2e_create_insert_select() {
    let stmts = Parser::parse("CREATE TABLE users (id INTEGER NOT NULL, name TEXT, salary INTEGER)").unwrap();
    assert_eq!(stmts.len(), 1);

    let stmts = Parser::parse("INSERT INTO users VALUES (1, 'Alice', 90000), (2, 'Bob', 85000)").unwrap();
    match &stmts[0] {
        Statement::Insert { rows, .. } => assert_eq!(rows.len(), 2),
        other => panic!("expected Insert, got {other:?}"),
    }

    let stmts =
        Parser::parse("SELECT name FROM users INNER JOIN dept ON id = dept_id WHERE salary > 80000 LIMIT 5").unwrap();
    match &stmts[0] {
        Statement::Select(sel) => {
            assert_eq!(sel.projection.len(), 1);
            assert!(matches!(&sel.from, TableRef::Join { .. }));
            assert!(sel.selection.is_some());
            assert_eq!(sel.limit, Some(5));
        }
        other => panic!("expected Select, got {other:?}"),
    }

    let stmts = Parser::parse("SELECT dept, COUNT(*), AVG(salary) FROM employees GROUP BY dept LIMIT 10").unwrap();
    match &stmts[0] {
        Statement::Select(sel) => {
            assert_eq!(sel.projection.len(), 3);
            assert_eq!(sel.group_by.len(), 1);
            assert_eq!(sel.limit, Some(10));
        }
        other => panic!("expected Select, got {other:?}"),
    }
}

#[test]
fn well_formed_statements_parse_ok() {
    let valid = [
        "SELECT * FROM t",
        "SELECT a, b FROM t WHERE a = 1",
        "SELECT a FROM t WHERE a = 1 AND b = 'x' LIMIT 5",
        "INSERT INTO t VALUES (1, 'hello')",
        "INSERT INTO t VALUES (1, 'a'), (2, 'b'), (3, 'c')",
        "CREATE TABLE t (id INTEGER NOT NULL, name TEXT)",
        "CREATE TABLE IF NOT EXISTS t (x INT)",
        "SHOW TABLES",
        "SELECT COUNT(*) FROM t",
        "SELECT tag, COUNT(*), SUM(v) FROM s WHERE v <= 4 GROUP BY tag",
        "SELECT name FROM c INNER JOIN o ON id = cid WHERE amount > 200",
        "SELECT MIN(tag) FROM s",
        "SELECT AVG(x), MAX(y) FROM t WHERE z != 0",
    ];
    for sql in &valid {
        let result = Parser::parse(sql);
        assert!(result.is_ok(), "failed to parse {sql:?}: {result:?}");
    }
}

#[test]
fn parser_errors_are_descriptive() {
    let bad = [
        "",
        "   ",
        "SELEKT x",
        "CREATE TABLE",
        "INSERT INTO",
        "SELECT * FROM",
        "SELECT FROM WHERE",
        "12345",
        "SELECT * FROM t WHERE AND",
        "SELECT * FROM t LIMIT -1",
    ];
    for sql in &bad {
        let result = Parser::parse(sql);
        if let Err(e) = result {
            assert!(!e.is_empty(), "empty error message for {sql:?}");
        }
    }
}

fn gen_sql(seed: u64) -> String {
    let mut rng = seed;
    let mut sql = String::new();
    let len = (rng % 200) + 1;
    rng = rng.wrapping_mul(6364136223846793005).wrapping_add(1);
    let keywords = [
        "SELECT", "*", "FROM", "WHERE", "AND", "INSERT", "INTO", "VALUES", "CREATE", "TABLE", "INTEGER", "TEXT",
        "NOT", "NULL", "LIMIT", "JOIN", "INNER", "ON", "GROUP", "BY", "SHOW", "TABLES", "IF", "EXISTS", "COUNT",
        "SUM", "AVG", "MIN", "MAX",
    ];
    for _ in 0..len {
        if !sql.is_empty() {
            sql.push(' ');
        }
        let choice = rng % 30;
        rng = rng.wrapping_mul(6364136223846793005).wrapping_add(1);
        match choice {
            0..=24 => sql.push_str(keywords[choice as usize]),
            25 => sql.push_str(&format!("col{}", rng % 50)),
            26 => sql.push_str(&format!("'str{}'", rng % 100)),
            27 => sql.push_str(&format!("{}", rng % 1000)),
            28 => {
                sql.push('(');
                sql.push(')');
            }
            29 => {
                sql.push(',');
            }
            _ => {}
        }
        rng = rng.wrapping_mul(6364136223846793005).wrapping_add(1);
    }
    sql
}

#[test]
fn parser_never_panics_on_random_input() {
    for seed in 0..500u64 {
        let sql = gen_sql(seed);
        let _ = Parser::parse(&sql);
    }
}

#[test]
fn tokenizer_never_panics() {
    for seed in 0..300u64 {
        let mut rng = seed;
        let mut input = Vec::new();
        let len = (rng % 100) + 1;
        for _ in 0..len {
            rng = rng.wrapping_mul(6364136223846793005).wrapping_add(1);
            input.push((rng % 128) as u8);
        }
        let s = String::from_utf8_lossy(&input);
        let _ = tokenize(&s);
    }
}

#[test]
fn tokenize_errors() {
    assert!(tokenize("'open").is_err());
    assert!(tokenize("a # b").is_err());
    assert!(tokenize("9223372036854775808").is_err());
    assert_eq!(tokenize("9223372036854775807").unwrap()[0], Token::Int(i64::MAX));
    assert_eq!(tokenize("-9223372036854775807").unwrap()[0], Token::Int(-i64::MAX));
    assert!(tokenize("!").is_err());
}

#[test]
fn tokenize_operators_and_keyword_synonyms() {
    let toks = tokenize("a<=b>=c<d>e!=f - 3 -4 bigint varchar int_x").unwrap();
    assert_eq!(toks[1], Token::LtEq);
    assert_eq!(toks[3], Token::GtEq);
    assert_eq!(toks[5], Token::Lt);
    assert_eq!(toks[7], Token::Gt);
    assert_eq!(toks[9], Token::NotEq);
    assert_eq!(toks[11], Token::Minus);
    assert_eq!(toks[12], Token::Int(3));
    assert_eq!(toks[13], Token::Int(-4));
    assert_eq!(toks[14], Token::Keyword("INTEGER"));
    assert_eq!(toks[15], Token::Keyword("TEXT"));
    assert!(matches!(toks[16], Token::Ident(ref s) if s == "int_x"));
    assert_eq!(toks[17], Token::Eof);
}

#[test]
fn string_literal_unescapes_doubled_quote() {
    let toks = tokenize("'it''s'").unwrap();
    assert_eq!(toks, vec![Token::Str("it's".into()), Token::Eof]);
    let toks = tokenize("INSERT INTO t VALUES ('it''s ok')").unwrap();
    assert_eq!(toks[5], Token::Str("it's ok".into()));
    assert_eq!(toks.len(), 8);
    assert_eq!(tokenize("''''").unwrap(), vec![Token::Str("'".into()), Token::Eof]);
    assert_eq!(tokenize("''").unwrap(), vec![Token::Str("".into()), Token::Eof]);
    assert_eq!(tokenize("'abc''").err(), Some("unterminated string literal".to_string()));
}

#[test]
fn multiple_statements_and_semicolons() {
    let stmts = Parser::parse("BEGIN; COMMIT WORK; ROLLBACK TRANSACTION;").unwrap();
    assert_eq!(stmts, vec![Statement::Begin, Statement::Commit, Statement::Rollback]);
    assert!(Parser::parse("BEGIN;;").is_err());
    assert!(Parser::parse(";").is_err());
}

#[test]
fn negation_of_smallest_literal_and_of_columns() {
    assert!(Parser::parse("SELECT - -9223372036854775807 FROM t").is_ok());
    let stmts = Parser::parse("SELECT -a FROM t").unwrap();
    let Statement::Select(sel) = &stmts[0] else {
        panic!("expected Select");
    };
    assert!(matches!(&sel.projection[0], SelectItem::Expr(Expr::Unary { op: UnaryOp::Neg, .. })));
}

#[test]
fn aggregate_item_ends_the_projection_item() {
    assert!(Parser::parse("SELECT COUNT(*) + 1 FROM t").is_err());
    assert!(Parser::parse("SELECT 1 + COUNT(*) FROM t").is_ok());
    let stmts = Parser::parse("SELECT f(), g(a, b) FROM t WHERE x IN (1) ORDER BY a ASC").unwrap();
    let Statement::Select(sel) = &stmts[0] else {
        panic!("expected Select");
    };
    assert!(matches!(&sel.projection[0], SelectItem::Expr(Expr::Function { args, .. }) if args.is_empty()));
    assert!(matches!(&sel.projection[1], SelectItem::Expr(Expr::Function { args, .. }) if args.len() == 2));
}

#[test]
fn join_chain_nests_to_the_left() {
    let stmts = Parser::parse("SELECT * FROM a JOIN b ON x = y INNER JOIN c ON y = z").unwrap();
    let Statement::Select(sel) = &stmts[0] else {
        panic!("expected Select");
    };
    let TableRef::Join { left, right, .. } = &sel.from else {
        panic!("expected a join");
    };
    assert_eq!(right, "c");
    assert!(matches!(left.as_ref(), TableRef::Join { right, .. } if right == "b"));
}

#[test]
fn blank_input_is_an_empty_statement() {
    assert_eq!(Parser::parse("").err(), Some("empty statement".to_string()));
    assert_eq!(Parser::parse("   ").err(), Some("empty statement".to_string()));
    assert_eq!(
        tokenize("SELECT # FROM t").err(),
        Some("unexpected character: '#'".to_string())
    );
}

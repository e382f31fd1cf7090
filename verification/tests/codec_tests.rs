use qmind_sql::codec::{decode_row, encode_row, row_key, ColumnDef, ColumnType, SqlValue};

fn schema() -> Vec<ColumnDef> {
    vec![
        ColumnDef { name: "id".into(), ty: ColumnType::Int, nullable: false },
        ColumnDef { name: "name".into(), ty: ColumnType::Text, nullable: true },
    ]
}

#[test]
fn row_roundtrip_including_nulls_and_unicode() {
    let rows = vec![
        vec![SqlValue::Int(7), SqlValue::Text("héllo wörld".into())],
        vec![SqlValue::Int(-42), SqlValue::Null],
        vec![SqlValue::Int(i64::MIN), SqlValue::Text(String::new())],
    ];
    for r in rows {
        let e = encode_row(&r);
        assert_eq!(decode_row(&e, &schema()), Some(r));
    }
}

#[test]
fn corrupted_stream_rejected() {
    let mut e = encode_row(&[SqlValue::Int(1), SqlValue::Text("abc".into())]);
    e.truncate(8);
    assert_eq!(decode_row(&e, &schema()), None);
    e = encode_row(&[SqlValue::Int(1)]);
    e[0] = 9;
    assert_eq!(decode_row(&e, &schema()), None);
}

#[test]
fn encoding_layout_is_tag_and_little_endian() {
    let e = encode_row(&[SqlValue::Int(1), SqlValue::Text("ab".into()), SqlValue::Null]);
    assert_eq!(e, vec![0, 1, 0, 0, 0, 0, 0, 0, 0, 1, 2, 0, 0, 0, b'a', b'b', 2]);
}

#[test]
fn decode_ignores_trailing_bytes() {
    let mut e = encode_row(&[SqlValue::Int(5), SqlValue::Null]);
    e.push(0xff);
    assert_eq!(decode_row(&e, &schema()), Some(vec![SqlValue::Int(5), SqlValue::Null]));
}

#[test]
fn row_key_layout_and_order() {
    assert_eq!(row_key("t", 42), b"t\x0100000000000000000042".to_vec());
    assert_eq!(row_key("t", u64::MAX), b"t\x0118446744073709551615".to_vec());
    assert!(row_key("users", 9) < row_key("users", 10));
    assert!(row_key("users", 99) < row_key("users", 100));
}

#[test]
fn column_type_names_and_checks() {
    assert_eq!(ColumnType::Int.name(), "INTEGER");
    assert_eq!(ColumnType::Text.name(), "TEXT");
    assert!(ColumnType::Int.check(&SqlValue::Int(3)));
    assert!(!ColumnType::Int.check(&SqlValue::Text("x".into())));
    assert!(ColumnType::Text.check(&SqlValue::Null));
}

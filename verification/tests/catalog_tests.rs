use qmind_sql::catalog::{index_entries, index_source, next_row_id, replay_catalog, CatalogRecord};
use qmind_sql::codec::{ColumnDef, ColumnType, SqlValue};
use qmind_sql::dbdir::MetaError;
use qmind_sql::engine::IndexDef;

fn cols(names: &[&str]) -> Vec<ColumnDef> {
    names.iter().map(|n| ColumnDef { name: n.to_string(), ty: ColumnType::Int, nullable: true }).collect()
}

#[test]
fn catalog_replay_in_log_order() {
    let recs = vec![
        CatalogRecord::CreateTable { name: "a".into(), columns: cols(&["x"]) },
        CatalogRecord::Data,
        CatalogRecord::CreateTable { name: "b".into(), columns: cols(&["y", "z"]) },
        CatalogRecord::CreateIndex { name: "i1".into(), table: "a".into(), column: "x".into() },
        CatalogRecord::CreateIndex { name: "i2".into(), table: "b".into(), column: "z".into() },
        CatalogRecord::DropIndex { name: "i1".into() },
        CatalogRecord::DropIndex { name: "nope".into() },
        CatalogRecord::CreateIndex { name: "i2".into(), table: "b".into(), column: "y".into() },
    ];
    let (tables, indexes) = replay_catalog(&recs);
    let names: Vec<&str> = tables.iter().map(|t| t.0.as_str()).collect();
    assert_eq!(names, vec!["a", "b"]);
    assert_eq!(tables[1].1.len(), 2);
    assert_eq!(indexes.len(), 1);
    assert_eq!(indexes[0].name, "i2");
    assert_eq!(indexes[0].column, "y");
}

#[test]
fn index_sources_must_exist() {
    let (tables, _) = replay_catalog(&vec![CatalogRecord::CreateTable { name: "a".into(), columns: cols(&["x", "w"]) }]);
    let ok = IndexDef { name: "i".into(), table: "a".into(), column: "w".into() };
    assert_eq!(index_source(&tables, &ok), Ok(1));
    let no_table = IndexDef { name: "i".into(), table: "zz".into(), column: "w".into() };
    assert!(matches!(index_source(&tables, &no_table), Err(MetaError::CatalogCorrupt { .. })));
    let no_col = IndexDef { name: "i".into(), table: "a".into(), column: "q".into() };
    assert!(matches!(index_source(&tables, &no_col), Err(MetaError::CatalogCorrupt { .. })));
}

#[test]
fn index_entries_skip_nulls() {
    let rows = vec![
        (0u64, vec![SqlValue::Int(1), SqlValue::Text("a".into())]),
        (1u64, vec![SqlValue::Int(2), SqlValue::Null]),
        (4u64, vec![SqlValue::Int(3), SqlValue::Text("b".into())]),
    ];
    let e = index_entries(&rows, 1);
    assert_eq!(e, vec![(vec![1, b'a'], 0), (vec![1, b'b'], 4)]);
    let ints = index_entries(&rows, 0);
    assert_eq!(ints.len(), 3);
    assert_eq!(ints[2], (vec![0, 0x80, 0, 0, 0, 0, 0, 0, 3], 4));
}

#[test]
fn row_id_counter_from_keys() {
    let keys: Vec<Vec<u8>> = vec![
        qmind_sql::codec::row_key("t", 3),
        qmind_sql::codec::row_key("t", 41),
        qmind_sql::codec::row_key("t", 7),
        b"t\x01junk".to_vec(),
        b"t\x01+12".to_vec(),
    ];
    assert_eq!(next_row_id("t", &keys), 42);
    assert_eq!(next_row_id("t", &Vec::new()), 0);
    assert_eq!(next_row_id("t", &vec![b"t\x01".to_vec(), b"t\x0199999999999999999999".to_vec()]), 0);
    assert_eq!(next_row_id("t", &vec![b"t\x01+50".to_vec()]), 51);
}

use qmind_sql::batch::{batch_to_raw_rows, raw_rows_to_batch, rows_to_batch, Batch, NullBitmap, SelectionVector};
use qmind_sql::codec::{ColumnDef, ColumnType, SqlValue};
use qmind_sql::executor::Row;

fn schema() -> Vec<ColumnDef> {
    vec![
        ColumnDef { name: "id".into(), ty: ColumnType::Int, nullable: false },
        ColumnDef { name: "name".into(), ty: ColumnType::Text, nullable: true },
    ]
}

#[test]
fn batch_push_and_vectorized_read() {
    let mut b = Batch::with_capacity(2, 3);
    b.push_row(&[SqlValue::Int(1), SqlValue::Text("a".into())]);
    b.push_row(&[SqlValue::Int(2), SqlValue::Null]);
    b.push_row(&[SqlValue::Int(3), SqlValue::Text("c".into())]);
    assert_eq!(b.num_rows(), 3);
    assert_eq!(b.column(0), &[SqlValue::Int(1), SqlValue::Int(2), SqlValue::Int(3)]);
    assert_eq!(b.row(1), vec![SqlValue::Int(2), SqlValue::Null]);
}

#[test]
fn batch_clear_reuses_buffers() {
    let mut b = Batch::with_capacity(1, 10);
    for i in 0..5 {
        b.push_row(&[SqlValue::Int(i)]);
    }
    b.clear();
    assert_eq!(b.num_rows(), 0);
    assert_eq!(b.column_mut(0).capacity(), 10, "buffers reused after clear");
}

#[test]
fn selection_vector_materialization() {
    let mut b = Batch::new(2);
    b.push_row(&[SqlValue::Int(1), SqlValue::Text("x".into())]);
    b.push_row(&[SqlValue::Int(2), SqlValue::Text("y".into())]);
    b.push_row(&[SqlValue::Int(3), SqlValue::Text("z".into())]);

    let mut sel = SelectionVector::new();
    sel.push(0);
    sel.push(2);
    let filtered = b.apply_selection(sel.as_slice());
    assert_eq!(filtered.num_rows(), 2);
    assert_eq!(filtered.row(0), vec![SqlValue::Int(1), SqlValue::Text("x".into())]);
    assert_eq!(filtered.row(1), vec![SqlValue::Int(3), SqlValue::Text("z".into())]);
}

#[test]
fn null_bitmap_roundtrip() {
    let mut n = NullBitmap::new(200);
    n.set_null(3);
    n.set_null(127);
    n.set_null(128);
    assert!(n.is_null(3));
    assert!(n.is_null(127));
    assert!(n.is_null(128));
    assert!(!n.is_null(4));
    n.clear_null(127);
    assert!(!n.is_null(127));
    assert_eq!(n.len(), 200);
}

#[test]
fn projection_selects_and_reorders() {
    let mut b = Batch::new(3);
    b.push_row(&[SqlValue::Int(1), SqlValue::Int(10), SqlValue::Text("a".into())]);
    b.push_row(&[SqlValue::Int(2), SqlValue::Int(20), SqlValue::Text("b".into())]);
    let p = b.project(&[2, 0]);
    assert_eq!(p.num_columns(), 2);
    assert_eq!(p.column(0), &[SqlValue::Text("a".into()), SqlValue::Text("b".into())]);
    assert_eq!(p.column(1), &[SqlValue::Int(1), SqlValue::Int(2)]);
}

#[test]
fn raw_roundtrip_with_corrupt_row_skipped() {
    let rows: Vec<Row> = vec![
        vec![SqlValue::Int(1), SqlValue::Text("a".into())],
        vec![SqlValue::Int(2), SqlValue::Null],
    ];
    let b = rows_to_batch(rows.clone());
    let mut raw = batch_to_raw_rows(&b);
    raw[1].truncate(3);
    let back = raw_rows_to_batch(raw, &schema());
    assert_eq!(back.num_rows(), 1);
    assert_eq!(back.row(0), rows[0]);
}

#[test]
fn rows_to_batch_roundtrip() {
    let rows: Vec<Row> = vec![
        vec![SqlValue::Int(1), SqlValue::Text("x".into())],
        vec![SqlValue::Int(2), SqlValue::Text("y".into())],
    ];
    let b = rows_to_batch(rows.clone());
    let back = b.into_rows();
    assert_eq!(back, rows);
}

#[test]
fn empty_rows_make_an_empty_batch() {
    let b = rows_to_batch(Vec::new());
    assert_eq!(b.num_rows(), 0);
    assert_eq!(b.num_columns(), 0);
    assert!(b.is_empty());
    assert!(b.into_rows().is_empty());
}

#[test]
fn null_bitmap_set_is_idempotent_and_local() {
    let mut n = NullBitmap::new(70);
    n.set_null(64);
    n.set_null(64);
    assert!(n.is_null(64));
    assert!(!n.is_null(63));
    assert!(!n.is_null(65));
    n.clear_null(64);
    assert!(!n.is_null(64));
    assert!(!n.is_empty());
}

#[test]
fn batch_full_and_from_schema() {
    let mut b = Batch::from_schema(&schema());
    assert_eq!(b.num_columns(), 2);
    assert!(!b.is_full(1));
    b.push_row(&[SqlValue::Int(5), SqlValue::Null]);
    assert!(b.is_full(1));
    assert!(!b.is_full(2));
    let cols = b.into_columns();
    assert_eq!(cols[0], vec![SqlValue::Int(5)]);
    let again = Batch::from_columns(cols);
    assert_eq!(again.row(0), vec![SqlValue::Int(5), SqlValue::Null]);
}

#[test]
fn raw_rows_keep_their_order() {
    let rows: Vec<Row> = vec![
        vec![SqlValue::Int(3), SqlValue::Text("c".into())],
        vec![SqlValue::Int(1), SqlValue::Text("a".into())],
        vec![SqlValue::Int(2), SqlValue::Null],
    ];
    let raw = batch_to_raw_rows(&rows_to_batch(rows.clone()));
    assert_eq!(raw.len(), 3);
    let back = raw_rows_to_batch(raw, &schema());
    assert_eq!(back.into_rows(), rows);
}

use qmind_sql::batch_ops::BatchVecScan;
use qmind_sql::codec::SqlValue;
use qmind_sql::result_stream::QueryResult;

fn sample_rows(n: u64) -> Vec<Vec<SqlValue>> {
    (0..n).map(|i| vec![SqlValue::Int(i as i64)]).collect()
}

#[test]
fn streaming_yields_batches_and_then_none() {
    let rows = sample_rows(25);
    let op = BatchVecScan::new(rows);
    let mut qr = QueryResult::new(Box::new(op)).with_batch_size(10);
    let mut total = 0;
    let mut count = 0;
    while let Some(batch) = qr.next_batch() {
        total += batch.num_rows();
        count += 1;
    }
    assert_eq!(total, 25);
    assert_eq!(count, 3, "should yield 3 batches (10+10+5)");
    assert!(qr.is_exhausted());
}

#[test]
fn iterator_interface_works() {
    let rows = sample_rows(5);
    let op = BatchVecScan::new(rows);
    let mut qr = QueryResult::new(Box::new(op)).with_batch_size(2);
    let mut total: usize = 0;
    while let Some(b) = qr.next_batch() {
        total += b.num_rows();
    }
    assert_eq!(total, 5);
}

#[test]
fn empty_stream_yields_nothing() {
    let op = BatchVecScan::new(vec![]);
    let mut qr = QueryResult::new(Box::new(op));
    assert!(qr.next_batch().is_none());
    assert!(qr.is_exhausted());
}

#[test]
fn collect_all_returns_sync_result() {
    let rows = sample_rows(3);
    let op = BatchVecScan::new(rows);
    let qr = QueryResult::new(Box::new(op));
    let res = qr.collect_all(vec!["id".into()]);
    assert_eq!(res.rows.len(), 3);
    assert_eq!(res.columns, vec!["id"]);
    assert_eq!(res.rows[2], vec![SqlValue::Int(2)]);
}

#[test]
fn exhausted_stream_stays_exhausted() {
    let op = BatchVecScan::new(sample_rows(1));
    let mut qr = QueryResult::new(Box::new(op));
    assert!(qr.next_batch().is_some());
    assert!(!qr.is_exhausted());
    assert!(qr.next_batch().is_none());
    assert!(qr.is_exhausted());
    assert!(qr.next_batch().is_none());
    let res = qr.collect_all(vec![]);
    assert!(res.rows.is_empty());
    assert_eq!(res.rows_affected, 0);
}

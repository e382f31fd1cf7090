use qmind_sql::batch_ops::{
    BatchAggregate, BatchEvalProject, BatchFilter, BatchHashJoin, BatchLimit, BatchOperator,
    BatchProjectIdx, BatchRowScan, BatchScanRaw, BatchSort, BatchVecScan,
};
use qmind_sql::codec::{encode_row, ColumnDef, ColumnType, SqlValue};
use qmind_sql::executor::{AggFn, Row};

fn int_schema() -> Vec<ColumnDef> {
    vec![ColumnDef { name: "v".into(), ty: ColumnType::Int, nullable: false }]
}

fn rows(n: u64) -> Vec<Row> {
    (0..n).map(|i| vec![SqlValue::Int(i as i64)]).collect()
}

#[test]
fn vec_scan_batches_exact() {
    let mut op = BatchVecScan::new(rows(10));
    let b = op.next_batch(3).unwrap().unwrap();
    assert_eq!(b.num_rows(), 3);
    let b = op.next_batch(3).unwrap().unwrap();
    assert_eq!(b.num_rows(), 3);
    let b = op.next_batch(3).unwrap().unwrap();
    assert_eq!(b.num_rows(), 3);
    let b = op.next_batch(3).unwrap().unwrap();
    assert_eq!(b.num_rows(), 1, "remainder");
    assert!(op.next_batch(3).unwrap().is_none());
}

#[test]
fn raw_scan_decodes_directly() {
    let raws: Vec<Vec<u8>> = rows(4).into_iter().map(|r| encode_row(&r)).collect();
    let mut idx = 0;
    let schema = int_schema();
    let mut op = BatchScanRaw::new(
        move || {
            if idx < raws.len() {
                let r = raws[idx].clone();
                idx += 1;
                Ok(Some(r))
            } else {
                Ok(None)
            }
        },
        schema,
    );
    let b = op.next_batch(10).unwrap().unwrap();
    assert_eq!(b.num_rows(), 4);
    assert_eq!(
        b.column(0),
        &[SqlValue::Int(0), SqlValue::Int(1), SqlValue::Int(2), SqlValue::Int(3)]
    );
}

#[test]
fn filter_keeps_matching_rows() {
    let mut op = BatchFilter::new(Box::new(BatchVecScan::new(rows(6))), |r: &Row| {
        Ok(r[0] != SqlValue::Null && r[0] != SqlValue::Int(0) && r[0] != SqlValue::Int(3))
    });
    let b = op.next_batch(100).unwrap().unwrap();
    assert_eq!(b.num_rows(), 4);
    assert_eq!(b.row(0), vec![SqlValue::Int(1)]);
    assert_eq!(b.row(3), vec![SqlValue::Int(5)]);
}

#[test]
fn project_reorders_and_prunes() {
    let input_rows: Vec<Row> = vec![
        vec![SqlValue::Int(1), SqlValue::Text("a".into()), SqlValue::Int(10)],
        vec![SqlValue::Int(2), SqlValue::Text("b".into()), SqlValue::Int(20)],
    ];
    let mut op = BatchProjectIdx::new(Box::new(BatchVecScan::new(input_rows)), vec![2, 0]);
    let b = op.next_batch(10).unwrap().unwrap();
    assert_eq!(b.num_columns(), 2);
    assert_eq!(b.column(0), &[SqlValue::Int(10), SqlValue::Int(20)]);
    assert_eq!(b.column(1), &[SqlValue::Int(1), SqlValue::Int(2)]);
}

#[test]
fn aggregate_count_star() {
    let input_rows: Vec<Row> = rows(10);
    let mut op = BatchAggregate::new(Box::new(BatchVecScan::new(input_rows)), vec![], vec![(AggFn::Count, None)]);
    let b = op.next_batch(100).unwrap().unwrap();
    assert_eq!(b.num_rows(), 1);
    assert_eq!(b.row(0), vec![SqlValue::Int(10)]);
}

#[test]
fn aggregate_group_sum() {
    let input_rows: Vec<Row> = (0..6u64)
        .map(|i| vec![SqlValue::Int(i as i64), SqlValue::Int(i as i64)])
        .collect();
    let mut op = BatchAggregate::new(Box::new(BatchVecScan::new(input_rows)), vec![1], vec![(AggFn::Sum, Some(0))]);
    let b = op.next_batch(100).unwrap().unwrap();
    assert_eq!(b.num_rows(), 6);
    let row0 = b.row(0);
    assert_eq!(row0[0], SqlValue::Int(0));
    assert_eq!(row0[1], SqlValue::Int(0));
}

#[test]
fn sort_orders_rows() {
    let input_rows: Vec<Row> = rows(5).into_iter().rev().collect();
    let mut op = BatchSort::new(Box::new(BatchVecScan::new(input_rows)), vec![false], |r: &Row| {
        Ok(vec![r[0].clone()])
    });
    let mut all = Vec::new();
    while let Some(b) = op.next_batch(100).unwrap() {
        all.extend(b.into_rows());
    }
    assert_eq!(all.len(), 5);
    assert_eq!(all[0][0], SqlValue::Int(0));
    assert_eq!(all[4][0], SqlValue::Int(4));
}

#[test]
fn hash_join_matches_correctly() {
    let left: Vec<Row> = vec![
        vec![SqlValue::Int(1), SqlValue::Text("a".into())],
        vec![SqlValue::Int(2), SqlValue::Text("b".into())],
    ];
    let right: Vec<Row> = vec![
        vec![SqlValue::Int(1), SqlValue::Int(100)],
        vec![SqlValue::Int(2), SqlValue::Int(200)],
        vec![SqlValue::Int(3), SqlValue::Int(300)],
    ];
    let mut op = BatchHashJoin::new(Box::new(BatchVecScan::new(left)), Box::new(BatchVecScan::new(right)), 0, 0, 2)
        .unwrap();
    let mut out = Vec::new();
    while let Some(b) = op.next_batch(10).unwrap() {
        out.extend(b.into_rows());
    }
    assert_eq!(out.len(), 2);
    assert_eq!(
        out[0],
        vec![SqlValue::Int(1), SqlValue::Text("a".into()), SqlValue::Int(1), SqlValue::Int(100)]
    );
}

#[test]
fn limit_caps_rows() {
    let mut op = BatchLimit::new(Box::new(BatchVecScan::new(rows(20))), 7);
    let mut all = Vec::new();
    while let Some(b) = op.next_batch(10).unwrap() {
        all.extend(b.into_rows());
    }
    assert_eq!(all.len(), 7);
}

#[test]
fn sort_descending_is_stable() {
    let input: Vec<Row> = vec![
        vec![SqlValue::Int(1), SqlValue::Text("a".into())],
        vec![SqlValue::Int(2), SqlValue::Text("b".into())],
        vec![SqlValue::Int(1), SqlValue::Text("c".into())],
        vec![SqlValue::Null, SqlValue::Text("d".into())],
    ];
    let mut op = BatchSort::new(Box::new(BatchVecScan::new(input)), vec![true], |r: &Row| Ok(vec![r[0].clone()]));
    let b = op.next_batch(10).unwrap().unwrap();
    let got: Vec<Row> = b.into_rows();
    assert_eq!(got[0][1], SqlValue::Text("d".into()));
    assert_eq!(got[1][1], SqlValue::Text("b".into()));
    assert_eq!(got[2][1], SqlValue::Text("a".into()));
    assert_eq!(got[3][1], SqlValue::Text("c".into()));
    assert!(op.next_batch(10).unwrap().is_none());
}

#[test]
fn sort_key_error_is_reported() {
    let mut op = BatchSort::new(Box::new(BatchVecScan::new(rows(3))), vec![false], |r: &Row| {
        if r[0] == SqlValue::Int(2) {
            Err("bad key".to_string())
        } else {
            Ok(vec![r[0].clone()])
        }
    });
    assert_eq!(op.next_batch(10).err(), Some("bad key".to_string()));
}

#[test]
fn hash_join_fanout_in_batches_of_two() {
    let left: Vec<Row> = vec![vec![SqlValue::Int(1)], vec![SqlValue::Null], vec![SqlValue::Int(2)]];
    let right: Vec<Row> = vec![
        vec![SqlValue::Int(1), SqlValue::Text("x".into())],
        vec![SqlValue::Int(1), SqlValue::Text("y".into())],
        vec![SqlValue::Int(2), SqlValue::Text("z".into())],
        vec![SqlValue::Null, SqlValue::Text("n".into())],
    ];
    let mut op = BatchHashJoin::new(Box::new(BatchVecScan::new(left)), Box::new(BatchVecScan::new(right)), 0, 0, 1)
        .unwrap();
    let mut out = Vec::new();
    let mut sizes = Vec::new();
    while let Some(b) = op.next_batch(2).unwrap() {
        sizes.push(b.num_rows());
        out.extend(b.into_rows());
    }
    assert_eq!(out.len(), 3);
    assert!(sizes.iter().all(|&n| n <= 2));
    assert!(out.contains(&vec![SqlValue::Int(1), SqlValue::Int(1), SqlValue::Text("x".into())]));
    assert!(out.contains(&vec![SqlValue::Int(1), SqlValue::Int(1), SqlValue::Text("y".into())]));
    assert!(out.contains(&vec![SqlValue::Int(2), SqlValue::Int(2), SqlValue::Text("z".into())]));
}

#[test]
fn hash_join_build_key_out_of_range_is_an_error() {
    let left: Vec<Row> = vec![vec![SqlValue::Int(1)]];
    let right: Vec<Row> = vec![vec![SqlValue::Int(1)]];
    let r = BatchHashJoin::new(Box::new(BatchVecScan::new(left)), Box::new(BatchVecScan::new(right)), 0, 3, 1);
    assert!(r.is_err());
}

#[test]
fn limit_zero_yields_nothing() {
    let mut op = BatchLimit::new(Box::new(BatchVecScan::new(rows(5))), 0);
    assert!(op.next_batch(10).unwrap().is_none());
}

#[test]
fn eval_project_and_row_scan() {
    let mut n: i64 = 0;
    let scan = BatchRowScan::new(move || {
        n += 1;
        Ok(if n <= 3 { Some(vec![SqlValue::Int(n)]) } else { None })
    });
    let mut op = BatchEvalProject::new(Box::new(scan), |r: &Row| match &r[0] {
        SqlValue::Int(v) => Ok(vec![SqlValue::Int(v * 10)]),
        _ => Err("not an int".to_string()),
    });
    let b = op.next_batch(10).unwrap().unwrap();
    assert_eq!(b.column(0), &[SqlValue::Int(10), SqlValue::Int(20), SqlValue::Int(30)]);
    assert!(op.next_batch(10).unwrap().is_none());
}

#[test]
fn aggregate_emits_groups_in_key_order_across_batches() {
    let input: Vec<Row> = vec![
        vec![SqlValue::Text("b".into()), SqlValue::Int(1)],
        vec![SqlValue::Text("a".into()), SqlValue::Int(2)],
        vec![SqlValue::Text("b".into()), SqlValue::Int(3)],
        vec![SqlValue::Text("c".into()), SqlValue::Null],
    ];
    let mut op = BatchAggregate::new(
        Box::new(BatchVecScan::new(input)),
        vec![0],
        vec![(AggFn::Count, Some(1)), (AggFn::Max, Some(1))],
    );
    let b1 = op.next_batch(2).unwrap().unwrap();
    assert_eq!(b1.row(0), vec![SqlValue::Text("a".into()), SqlValue::Int(1), SqlValue::Int(2)]);
    assert_eq!(b1.row(1), vec![SqlValue::Text("b".into()), SqlValue::Int(2), SqlValue::Int(3)]);
    let b2 = op.next_batch(2).unwrap().unwrap();
    assert_eq!(b2.row(0), vec![SqlValue::Text("c".into()), SqlValue::Int(0), SqlValue::Null]);
    assert!(op.next_batch(2).unwrap().is_none());
}

#[test]
fn raw_scan_skips_malformed_records_without_ending() {
    let good: Vec<Vec<u8>> = rows(3).into_iter().map(|r| encode_row(&r)).collect();
    let mut raws: Vec<Vec<u8>> = vec![vec![0xFF], vec![0xFF], vec![0xFF]];
    raws.extend(good);
    let mut idx = 0;
    let mut op = BatchScanRaw::new(
        move || {
            if idx < raws.len() {
                let r = raws[idx].clone();
                idx += 1;
                Ok(Some(r))
            } else {
                Ok(None)
            }
        },
        int_schema(),
    );
    let b = op.next_batch(2).unwrap().unwrap();
    assert_eq!(b.num_rows(), 2);
    let b = op.next_batch(2).unwrap().unwrap();
    assert_eq!(b.num_rows(), 1);
    assert!(op.next_batch(2).unwrap().is_none());
}

use qmind_sql::codec::SqlValue;
use qmind_sql::executor::{AggFn, Filter, HashAggregate, HashJoin, Limit, Operator, Project, Row, Scan, VecScan};

fn sample() -> Vec<Row> {
    (0..20u64)
        .map(|i| vec![SqlValue::Int(i as i64), SqlValue::Text(format!("row{i}"))])
        .collect()
}

#[test]
fn scan_filter_project_limit_pipeline() -> Result<(), String> {
    let mut op = Limit::new(
        Box::new(Project::new(
            Box::new(Filter::new(Box::new(VecScan::new(sample())), |r: &Row| Ok(r[0] >= SqlValue::Int(15)))),
            vec![1],
        )),
        2,
    );
    assert_eq!(op.next()?, Some(vec![SqlValue::Text("row15".into())]));
    assert_eq!(op.next()?, Some(vec![SqlValue::Text("row16".into())]));
    assert_eq!(op.next()?, None);
    Ok(())
}

#[test]
fn closure_scan_streams_from_source() -> Result<(), String> {
    let mut n = 0;
    let mut op = Scan::new(move || {
        n += 1;
        Ok((n <= 3).then(|| vec![SqlValue::Int(n)]))
    });
    assert_eq!(op.next()?, Some(vec![SqlValue::Int(1)]));
    assert_eq!(op.next()?, Some(vec![SqlValue::Int(2)]));
    assert_eq!(op.next()?, Some(vec![SqlValue::Int(3)]));
    assert_eq!(op.next()?, None);
    Ok(())
}

#[test]
fn hash_join_fanout_and_null_rejection() -> Result<(), String> {
    let left = vec![
        vec![SqlValue::Int(1), SqlValue::Text("a".into())],
        vec![SqlValue::Int(2), SqlValue::Text("b".into())],
        vec![SqlValue::Null, SqlValue::Text("n".into())],
    ];
    let right = vec![
        vec![SqlValue::Int(1), SqlValue::Int(100)],
        vec![SqlValue::Int(1), SqlValue::Int(200)],
        vec![SqlValue::Int(9), SqlValue::Int(900)],
    ];
    let mut op = HashJoin::new(Box::new(VecScan::new(left)), Box::new(VecScan::new(right)), 0, 0, 2)?;
    let mut got = Vec::new();
    while let Some(r) = op.next()? {
        got.push(r);
    }
    assert_eq!(got.len(), 2, "1 matches twice; 2, NULL unmatched");
    assert_eq!(got[0][1], SqlValue::Text("a".into()));
    assert_eq!(got[0][3], SqlValue::Int(100));
    Ok(())
}

#[test]
fn hash_aggregate_group_by_with_count_sum() -> Result<(), String> {
    let rows: Vec<Row> = (1..=8u64)
        .map(|i| vec![SqlValue::Int(i as i64), SqlValue::Text(format!("g{}", i % 2))])
        .collect();
    let mut op = HashAggregate::new(
        Box::new(VecScan::new(rows)),
        vec![1],
        vec![(AggFn::Count, None), (AggFn::Sum, Some(0))],
    );
    let r1 = op.next()?.expect("g0");
    assert_eq!(r1[0], SqlValue::Text("g0".into()));
    assert_eq!(r1[1], SqlValue::Int(4));
    assert_eq!(r1[2], SqlValue::Int(20));
    let r2 = op.next()?.expect("g1");
    assert_eq!(r2[1], SqlValue::Int(4));
    assert_eq!(r2[2], SqlValue::Int(16));
    assert_eq!(op.next()?, None);
    Ok(())
}

#[test]
fn limit_never_exceeds_its_count() -> Result<(), String> {
    let mut op = Limit::new(Box::new(VecScan::new(sample())), 3);
    let mut n = 0;
    while op.next()?.is_some() {
        n += 1;
    }
    assert_eq!(n, 3);
    assert_eq!(op.next()?, None);
    Ok(())
}

#[test]
fn project_out_of_range_is_an_error() {
    let mut op = Project::new(Box::new(VecScan::new(sample())), vec![5]);
    assert!(op.next().is_err());
}

#[test]
fn filter_error_propagates() {
    let mut op = Filter::new(Box::new(VecScan::new(sample())), |_r: &Row| Err::<bool, String>("boom".into()));
    assert_eq!(op.next(), Err("boom".to_string()));
}

#[test]
fn aggregate_sum_avg_min_max_over_one_group() -> Result<(), String> {
    let rows: Vec<Row> = vec![
        vec![SqlValue::Int(-7)],
        vec![SqlValue::Null],
        vec![SqlValue::Int(2)],
    ];
    let mut op = HashAggregate::new(
        Box::new(VecScan::new(rows)),
        vec![],
        vec![(AggFn::Sum, Some(0)), (AggFn::Avg, Some(0)), (AggFn::Min, Some(0)), (AggFn::Max, Some(0)), (AggFn::Count, Some(0))],
    );
    let r = op.next()?.expect("one group");
    assert_eq!(r, vec![SqlValue::Int(-5), SqlValue::Int(-2), SqlValue::Int(-7), SqlValue::Int(2), SqlValue::Int(2)]);
    assert_eq!(op.next()?, None);
    Ok(())
}

//! The row-at-a-time executor and the batch pipeline compute the same
//! aggregates over columns that hold no text.
use vstd::prelude::*;
use crate::batch_ops::{aggregate_output, agg_state_fold, agg_state_new, batch_agg_row, batch_agg_value, entry_rows, group_outputs,
    is_sort_pos, sort_entries, sort_pos, AggState, Keyed};
use crate::codec::{ColumnDef, SqlValue, ValueV};
use crate::engine::{agg_item, aggregate_spec, column_values, has_agg, int_best, ints_of, item_expr, parse_aggs, projection_spec,
    render, sum_of, sums_fit, texts_of, trunc_div, AggItem};
use crate::executor::{agg_inputs, agg_row, agg_value, best_of, deep_values, div_toward_zero, group_insert, group_rows, int_count,
    int_sum, int_total, is_scan_pos, key_of, lemma_scan_pos_unique, project_row, replaces, scan_pos, AggFn, GroupV};
use crate::order::{values_order, ValueOrder};
use crate::parser::{ExprV, SelectItemV, SelectV};
use crate::query::{agg_values, aggregates_spec, empty_agg_row, group_by_spec, group_item, group_items, group_keys_spec,
    group_plan_spec, is_agg_query, item_aggs, item_positions, lemma_where_len, limit_rows, no_star, order_desc,
    order_positions_spec, pos_key, pos_sorted, reorder_all, select_spec, seqs_deep, stream_grouped_spec, stream_select_spec,
    volcano_outputs, where_spec};

verus! {

// ── folds of the batch aggregate ──────────────────────────────────────

/// The integers among values, in order.
pub open spec fn ints_among(vs: Seq<SqlValue>) -> Seq<i64>
    decreases vs.len(),
{
    if vs.len() == 0 {
        Seq::empty()
    } else {
        let r = ints_among(vs.drop_last());
        match vs.last() {
            SqlValue::Int(n) => r.push(n),
            _ => r,
        }
    }
}

/// Number of values that are not NULL.
pub open spec fn non_null(vs: Seq<SqlValue>) -> nat
    decreases vs.len(),
{
    if vs.len() == 0 {
        0
    } else {
        non_null(vs.drop_last()) + if vs.last() is Null { 0nat } else { 1nat }
    }
}

/// No value is a text.
pub open spec fn no_text(vs: Seq<SqlValue>) -> bool {
    forall|k: int| 0 <= k < vs.len() ==> !(#[trigger] vs[k] is Text)
}

proof fn lemma_counts_le(vs: Seq<SqlValue>)
    ensures
        non_null(vs) <= vs.len(),
        ints_among(vs).len() <= vs.len(),
    decreases vs.len(),
{
    if vs.len() > 0 {
        lemma_counts_le(vs.drop_last());
    }
}

proof fn lemma_sums_fit_init(s: Seq<i64>)
    requires
        s.len() > 0,
        sums_fit(s),
    ensures
        sums_fit(s.drop_last()),
{
    assert forall|k: int| 0 <= k <= s.drop_last().len() implies i64::MIN <= #[trigger] sum_of(s.drop_last().take(k)) <= i64::MAX by {
        assert(s.drop_last().take(k) =~= s.take(k));
    }
}

proof fn lemma_sum_fits(s: Seq<i64>)
    requires
        sums_fit(s),
    ensures
        i64::MIN <= sum_of(s) <= i64::MAX,
{
    assert(s.take(s.len() as int) =~= s);
}

proof fn lemma_fold_count(vs: Seq<SqlValue>)
    requires
        vs.len() <= u64::MAX,
    ensures
        agg_state_fold(agg_state_new(AggFn::Count), vs, false) matches AggState::Count { counted, .. } && counted == non_null(vs),
    decreases vs.len(),
{
    if vs.len() > 0 {
        lemma_fold_count(vs.drop_last());
        lemma_counts_le(vs.drop_last());
    }
}

proof fn lemma_fold_sum(vs: Seq<SqlValue>)
    requires
        sums_fit(ints_among(vs)),
    ensures
        agg_state_fold(agg_state_new(AggFn::Sum), vs, false) matches AggState::Sum { total, empty, .. }
            && total == sum_of(ints_among(vs)) && empty == (ints_among(vs).len() == 0),
    decreases vs.len(),
{
    if vs.len() > 0 {
        let init = vs.drop_last();
        match vs.last() {
            SqlValue::Int(n) => {
                assert(ints_among(vs).drop_last() =~= ints_among(init));
                lemma_sums_fit_init(ints_among(vs));
                lemma_sum_fits(ints_among(init));
                lemma_sum_fits(ints_among(vs));
            },
            _ => {},
        }
        lemma_fold_sum(init);
    }
}

proof fn lemma_fold_avg(vs: Seq<SqlValue>)
    requires
        sums_fit(ints_among(vs)),
        vs.len() <= u64::MAX,
    ensures
        agg_state_fold(agg_state_new(AggFn::Avg), vs, false) matches AggState::Avg { total, count }
            && total == sum_of(ints_among(vs)) && count == ints_among(vs).len(),
    decreases vs.len(),
{
    if vs.len() > 0 {
        let init = vs.drop_last();
        lemma_counts_le(init);
        match vs.last() {
            SqlValue::Int(n) => {
                assert(ints_among(vs).drop_last() =~= ints_among(init));
                lemma_sums_fit_init(ints_among(vs));
                lemma_sum_fits(ints_among(init));
                lemma_sum_fits(ints_among(vs));
            },
            _ => {},
        }
        lemma_fold_avg(init);
    }
}

/// The least (`want_min`) or greatest integer among values, if any.
pub open spec fn best_int(vs: Seq<SqlValue>, want_min: bool) -> Option<SqlValue> {
    if ints_among(vs).len() == 0 {
        None
    } else {
        Some(SqlValue::Int(int_best(ints_among(vs), want_min)))
    }
}

proof fn lemma_fold_best(vs: Seq<SqlValue>, want_min: bool)
    requires
        no_text(vs),
    ensures
        agg_state_fold(agg_state_new(if want_min { AggFn::Min } else { AggFn::Max }), vs, false)
            == (if want_min { AggState::Min { val: best_int(vs, true) } } else { AggState::Max { val: best_int(vs, false) } }),
    decreases vs.len(),
{
    if vs.len() > 0 {
        let init = vs.drop_last();
        assert(no_text(init)) by {
            assert forall|k: int| 0 <= k < init.len() implies !(#[trigger] init[k] is Text) by {
                assert(init[k] == vs[k]);
            }
        }
        lemma_fold_best(init, want_min);
        assert(!(vs[vs.len() - 1] is Text));
        match vs.last() {
            SqlValue::Int(n) => {
                let s = ints_among(vs);
                assert(s.drop_last() =~= ints_among(init));
                assert(s.last() == n);
                if ints_among(init).len() == 0 {
                    assert(s.len() == 1);
                }
            },
            _ => {},
        }
    }
}

// ── one aggregate, both ways ──────────────────────────────────────────

/// The values of column `c` of the rows.
pub open spec fn col_vals(rows: Seq<Seq<SqlValue>>, c: usize) -> Seq<SqlValue> {
    rows.map_values(|r: Seq<SqlValue>| r[c as int])
}

proof fn lemma_ints_texts_len(vals: Seq<ValueV>)
    requires
        forall|k: int| 0 <= k < vals.len() ==> !(#[trigger] vals[k] is Null),
    ensures
        ints_of(vals).len() + texts_of(vals).len() == vals.len(),
    decreases vals.len(),
{
    if vals.len() > 0 {
        lemma_ints_texts_len(vals.drop_last());
    }
}

proof fn lemma_column_values(rows: Seq<Seq<SqlValue>>, c: usize)
    ensures
        ints_of(column_values(rows, c as int)) == ints_among(col_vals(rows, c)),
        column_values(rows, c as int).len() == non_null(col_vals(rows, c)),
        no_text(col_vals(rows, c)) ==> texts_of(column_values(rows, c as int)).len() == 0,
        forall|k: int| 0 <= k < column_values(rows, c as int).len() ==> !(#[trigger] column_values(rows, c as int)[k] is Null),
    decreases rows.len(),
{
    let nn = |v: ValueV| !(v is Null);
    let m = rows.map_values(|r: Seq<SqlValue>| r[c as int].deep_view());
    reveal_with_fuel(Seq::filter, 1);
    if rows.len() > 0 {
        let init = rows.drop_last();
        lemma_column_values(init, c);
        assert(m.drop_last() =~= init.map_values(|r: Seq<SqlValue>| r[c as int].deep_view()));
        assert(col_vals(rows, c).drop_last() =~= col_vals(init, c));
        assert(col_vals(rows, c).last() == rows.last()[c as int]);
        assert(m.last() == rows.last()[c as int].deep_view());
        assert(column_values(rows, c as int) == m.filter(nn));
        assert(column_values(init, c as int) == m.drop_last().filter(nn));
        if no_text(col_vals(rows, c)) {
            assert(no_text(col_vals(init, c))) by {
                assert forall|k: int| 0 <= k < col_vals(init, c).len() implies !(#[trigger] col_vals(init, c)[k] is Text) by {
                    assert(col_vals(init, c)[k] == col_vals(rows, c)[k]);
                }
            }
            assert(!(col_vals(rows, c)[rows.len() - 1] is Text));
        }
        let cv = column_values(rows, c as int);
        let ci = column_values(init, c as int);
        let v = rows.last()[c as int];
        if v is Null {
            assert(cv == ci);
        } else {
            assert(cv == ci.push(v.deep_view()));
            assert(cv.drop_last() =~= ci);
            match v {
                SqlValue::Int(n) => {
                    assert(ints_of(cv) == ints_of(ci).push(n));
                    assert(texts_of(cv) == texts_of(ci));
                },
                SqlValue::Text(t) => {
                    assert(ints_of(cv) == ints_of(ci));
                },
                SqlValue::Null => {},
            }
        }
        assert forall|k: int| 0 <= k < cv.len() implies !(#[trigger] cv[k] is Null) by {
            if k < ci.len() {
                assert(cv[k] == ci[k]);
            }
        }
    } else {
        assert(column_values(rows, c as int) =~= Seq::<ValueV>::empty());
    }
}

/// An aggregate over a column that holds no text gives the same value in
/// both executors whenever both succeed.
pub proof fn lemma_agg_value_parity(f: AggFn, col: Option<usize>, rows: Seq<Seq<SqlValue>>)
    requires
        rows.len() <= u64::MAX,
        f != AggFn::Count && col is Some ==> forall|k: int| 0 <= k < rows.len() && col->0 < rows[k].len()
            ==> !(#[trigger] rows[k][col->0 as int] is Text),
        aggregate_spec(f, col, rows) is Some,
        batch_agg_value(f, col, rows) is Some,
    ensures
        aggregate_spec(f, col, rows) == Some(batch_agg_value(f, col, rows)->0.deep_view()),
{
    match col {
        None => {},
        Some(c) => {
            let vs = col_vals(rows, c);
            assert(forall|k: int| 0 <= k < rows.len() ==> c < (#[trigger] rows[k]).len());
            if f != AggFn::Count {
                assert(no_text(vs)) by {
                    assert forall|k: int| 0 <= k < vs.len() implies !(#[trigger] vs[k] is Text) by {
                        assert(vs[k] == rows[k][c as int]);
                        assert(c < rows[k].len());
                    }
                }
            }
            assert(rows.map_values(|r: Seq<SqlValue>| r[c as int]) == vs);
            lemma_column_values(rows, c);
            let cv = column_values(rows, c as int);
            lemma_ints_texts_len(cv);
            assert(vs.len() == rows.len());
            let ints = ints_among(vs);
            match f {
                AggFn::Count => {
                    lemma_fold_count(vs);
                },
                AggFn::Sum => {
                    if ints.len() > 0 {
                        lemma_fold_sum(vs);
                    } else {
                        assert(sums_fit(ints)) by {
                            assert forall|k: int| 0 <= k <= ints.len() implies i64::MIN <= #[trigger] sum_of(ints.take(k)) <= i64::MAX by {
                                assert(ints.take(k) =~= Seq::<i64>::empty());
                            }
                        }
                        lemma_fold_sum(vs);
                    }
                },
                AggFn::Avg => {
                    if ints.len() == 0 {
                        assert(sums_fit(ints)) by {
                            assert forall|k: int| 0 <= k <= ints.len() implies i64::MIN <= #[trigger] sum_of(ints.take(k)) <= i64::MAX by {
                                assert(ints.take(k) =~= Seq::<i64>::empty());
                            }
                        }
                    }
                    lemma_fold_avg(vs);
                    let t = sum_of(ints);
                    let n = ints.len() as int;
                    if n > 0 {
                        assert(trunc_div(t, n) == div_toward_zero(t, n));
                    }
                },
                AggFn::Min => {
                    lemma_fold_best(vs, true);
                },
                AggFn::Max => {
                    lemma_fold_best(vs, false);
                },
            }
        },
    }
}

// ── an ungrouped aggregate query, both ways ───────────────────────────

/// No row holds a text in a column that an aggregate other than COUNT
/// reads.
pub open spec fn text_free(rows: Seq<Seq<SqlValue>>, aggs: Seq<(AggFn, Option<usize>)>) -> bool {
    forall|k: int, j: int| #![trigger rows[k], aggs[j]]
        0 <= k < rows.len() && 0 <= j < aggs.len() && aggs[j].0 != AggFn::Count && aggs[j].1 is Some
            && (aggs[j].1->0 as int) < rows[k].len() ==> !(rows[k][aggs[j].1->0 as int] is Text)
}

proof fn lemma_group_rows_no_keys(rows: Seq<Seq<SqlValue>>)
    requires
        rows.len() > 0,
    ensures
        group_rows(rows, Seq::empty()) == seq![(Seq::<SqlValue>::empty(), rows)],
    decreases rows.len(),
{
    let e = Seq::<SqlValue>::empty();
    let init = rows.drop_last();
    let r = rows.last();
    assert(key_of(r, Seq::empty()) =~= e);
    if rows.len() == 1 {
        assert(group_rows(init, Seq::empty()) == Seq::<GroupV>::empty());
        assert(is_scan_pos(Seq::<GroupV>::empty(), e, 0));
        lemma_scan_pos_unique(Seq::<GroupV>::empty(), e, 0);
        assert(rows =~= seq![r]);
        assert(Seq::<GroupV>::empty().insert(0, (e, seq![r])) =~= seq![(e, rows)]);
    } else {
        lemma_group_rows_no_keys(init);
        let gs = seq![(e, init)];
        assert(deep_values(e) =~= Seq::<ValueV>::empty());
        assert(values_order(deep_values(e), deep_values(e)) == ValueOrder::Equal);
        assert(is_scan_pos(gs, e, 0));
        lemma_scan_pos_unique(gs, e, 0);
        assert(init.push(r) =~= rows);
        assert(gs.update(0, (gs[0].0, gs[0].1.push(r))) =~= seq![(e, rows)]);
    }
}

proof fn lemma_where_subset(pred: Option<ExprV>, schema: Seq<ColumnDef>, rows: Seq<Seq<SqlValue>>)
    requires
        where_spec(pred, schema, rows) is Some,
    ensures
        forall|k: int| 0 <= k < where_spec(pred, schema, rows)->0.len()
            ==> exists|j: int| 0 <= j < rows.len() && rows[j] == #[trigger] where_spec(pred, schema, rows)->0[k],
    decreases rows.len(),
{
    if rows.len() > 0 {
        let init = rows.drop_last();
        lemma_where_subset(pred, schema, init);
        let ki = where_spec(pred, schema, init)->0;
        let kept = where_spec(pred, schema, rows)->0;
        assert forall|k: int| 0 <= k < kept.len() implies exists|j: int| 0 <= j < rows.len() && rows[j] == #[trigger] kept[k] by {
            if k < ki.len() {
                assert(kept[k] == ki[k]);
                let j = choose|j: int| 0 <= j < init.len() && init[j] == ki[k];
                assert(rows[j] == init[j]);
            } else {
                assert(kept[k] == rows[rows.len() - 1]);
            }
        }
    }
}

proof fn lemma_text_free_kept(pred: Option<ExprV>, schema: Seq<ColumnDef>, rows: Seq<Seq<SqlValue>>, aggs: Seq<(AggFn, Option<usize>)>)
    requires
        where_spec(pred, schema, rows) is Some,
        text_free(rows, aggs),
    ensures
        text_free(where_spec(pred, schema, rows)->0, aggs),
{
    lemma_where_subset(pred, schema, rows);
    let kept = where_spec(pred, schema, rows)->0;
    assert forall|k: int, j: int| #![trigger kept[k], aggs[j]]
        0 <= k < kept.len() && 0 <= j < aggs.len() && aggs[j].0 != AggFn::Count && aggs[j].1 is Some
            && (aggs[j].1->0 as int) < kept[k].len() implies !(kept[k][aggs[j].1->0 as int] is Text) by {
        let i = choose|i: int| 0 <= i < rows.len() && rows[i] == kept[k];
        assert(rows[i] == kept[k]);
    }
}

/// Aggregate values row at a time, as models.
proof fn lemma_agg_values_parity(av: Seq<(Seq<char>, AggFn, Option<usize>)>, bs: Seq<(AggFn, Option<usize>)>, rows: Seq<Seq<SqlValue>>)
    requires
        av.len() == bs.len(),
        forall|j: int| 0 <= j < av.len() ==> (#[trigger] av[j]).1 == bs[j].0 && av[j].2 == bs[j].1,
        rows.len() <= u64::MAX,
        text_free(rows, bs),
        agg_values(av, rows) is Some,
        batch_agg_row(bs, rows) is Some,
    ensures
        agg_values(av, rows) == Some(deep_values(batch_agg_row(bs, rows)->0)),
    decreases av.len(),
{
    if av.len() > 0 {
        let n = av.len() - 1;
        assert(av.drop_last().len() == bs.drop_last().len());
        assert forall|j: int| 0 <= j < av.drop_last().len() implies (#[trigger] av.drop_last()[j]).1 == bs.drop_last()[j].0
            && av.drop_last()[j].2 == bs.drop_last()[j].1 by {
            assert(av.drop_last()[j] == av[j]);
            assert(bs.drop_last()[j] == bs[j]);
        }
        assert(text_free(rows, bs.drop_last())) by {
            assert forall|k: int, j: int| #![trigger rows[k], bs.drop_last()[j]]
                0 <= k < rows.len() && 0 <= j < bs.drop_last().len() && bs.drop_last()[j].0 != AggFn::Count
                    && bs.drop_last()[j].1 is Some && (bs.drop_last()[j].1->0 as int) < rows[k].len()
                implies !(rows[k][bs.drop_last()[j].1->0 as int] is Text) by {
                assert(bs.drop_last()[j] == bs[j]);
            }
        }
        lemma_agg_values_parity(av.drop_last(), bs.drop_last(), rows);
        let (f, c) = bs.last();
        assert(av.last().1 == f && av.last().2 == c);
        assert(f != AggFn::Count && c is Some ==> forall|k: int| 0 <= k < rows.len() && c->0 < rows[k].len()
            ==> !(#[trigger] rows[k][c->0 as int] is Text)) by {
            if f != AggFn::Count && c is Some {
                assert forall|k: int| 0 <= k < rows.len() && c->0 < rows[k].len() implies !(#[trigger] rows[k][c->0 as int] is Text) by {
                    assert(bs[n] == bs.last());
                }
            }
        }
        lemma_agg_value_parity(f, c, rows);
        let prev = batch_agg_row(bs.drop_last(), rows)->0;
        let v = batch_agg_value(f, c, rows)->0;
        assert(deep_values(prev.push(v)) =~= deep_values(prev).push(v.deep_view()));
    } else {
        assert(deep_values(Seq::<SqlValue>::empty()) =~= Seq::<ValueV>::empty());
    }
}

/// Over no rows, the aggregates are what the batch pipeline gives for an
/// empty input.
proof fn lemma_agg_values_empty(av: Seq<(Seq<char>, AggFn, Option<usize>)>, bs: Seq<(AggFn, Option<usize>)>)
    requires
        av.len() == bs.len(),
        forall|j: int| 0 <= j < av.len() ==> (#[trigger] av[j]).1 == bs[j].0 && av[j].2 == bs[j].1,
        agg_values(av, Seq::empty()) is Some,
    ensures
        agg_values(av, Seq::empty()) == Some(deep_values(empty_agg_row(bs))),
    decreases av.len(),
{
    if av.len() > 0 {
        assert forall|j: int| 0 <= j < av.drop_last().len() implies (#[trigger] av.drop_last()[j]).1 == bs.drop_last()[j].0
            && av.drop_last()[j].2 == bs.drop_last()[j].1 by {
            assert(av.drop_last()[j] == av[j]);
            assert(bs.drop_last()[j] == bs[j]);
        }
        lemma_agg_values_empty(av.drop_last(), bs.drop_last());
        assert(empty_agg_row(bs).drop_last() =~= empty_agg_row(bs.drop_last()));
        let (f, c) = bs.last();
        assert(av.last().1 == f && av.last().2 == c);
        let e = Seq::<Seq<SqlValue>>::empty();
        assert(column_values(e, c->0 as int) =~= Seq::<ValueV>::empty());
        assert(deep_values(empty_agg_row(bs)) =~= deep_values(empty_agg_row(bs.drop_last())).push(empty_agg_row(bs).last().deep_view()));
    } else {
        assert(deep_values(empty_agg_row(bs)) =~= Seq::<ValueV>::empty());
    }
}

proof fn lemma_no_key_items(es: Seq<ExprV>, schema: Seq<ColumnDef>)
    requires
        group_items(es, schema, Seq::empty()) is Some,
    ensures
        ({
            let items = group_items(es, schema, Seq::empty())->0;
            &&& items.len() == es.len()
            &&& forall|j: int| 0 <= j < items.len() ==> (#[trigger] items[j]) is Agg
                && group_item(es[j], schema, Seq::empty()) == Some(items[j])
            &&& item_aggs(items).len() == items.len()
            &&& forall|j: int| 0 <= j < items.len() ==> (#[trigger] item_aggs(items)[j]) == (items[j]->Agg_0, items[j]->Agg_1)
            &&& forall|j: int| 0 <= j < items.len() ==> (#[trigger] item_positions(items, Seq::empty())[j]) == j as usize
            &&& item_positions(items, Seq::empty()).len() == items.len()
        }),
    decreases es.len(),
{
    if es.len() > 0 {
        lemma_no_key_items(es.drop_last(), schema);
        let items = group_items(es, schema, Seq::empty())->0;
        let prev = group_items(es.drop_last(), schema, Seq::empty())->0;
        assert(items.drop_last() =~= prev);
        let it = items.last();
        assert(!Seq::<usize>::empty().contains(0usize));
        assert(it is Agg);
        assert forall|j: int| 0 <= j < items.len() implies (#[trigger] items[j]) is Agg
            && group_item(es[j], schema, Seq::empty()) == Some(items[j]) by {
            if j < prev.len() {
                assert(items[j] == prev[j]);
                assert(es[j] == es.drop_last()[j]);
            }
        }
        assert forall|j: int| 0 <= j < items.len() implies (#[trigger] item_aggs(items)[j]) == (items[j]->Agg_0, items[j]->Agg_1) by {
            if j < prev.len() {
                assert(items[j] == prev[j]);
            }
        }
        assert forall|j: int| 0 <= j < items.len() implies (#[trigger] item_positions(items, Seq::empty())[j]) == j as usize by {
            if j < prev.len() {
                assert(items[j] == prev[j]);
            }
        }
    }
}

/// The aggregates an all-aggregate projection gives the row-at-a-time
/// executor: label, function and column of each item.
pub open spec fn labelled_aggs(es: Seq<ExprV>, aggs: Seq<(AggFn, Option<usize>)>) -> Seq<(Seq<char>, AggFn, Option<usize>)> {
    Seq::new(es.len(), |j: int| (render(es[j]), aggs[j].0, aggs[j].1))
}

proof fn lemma_parse_all_aggs(items: Seq<SelectItemV>, schema: Seq<ColumnDef>, i: int)
    requires
        0 <= i <= items.len(),
        items.len() > 0,
        no_star(items),
        group_items(items.map_values(|x: SelectItemV| item_expr(x)), schema, Seq::empty()) is Some,
    ensures
        ({
            let es = items.map_values(|x: SelectItemV| item_expr(x));
            let v = labelled_aggs(es, item_aggs(group_items(es, schema, Seq::empty())->0));
            parse_aggs(items, schema, i, v.take(i)) == Ok::<Option<Seq<(Seq<char>, AggFn, Option<usize>)>>, ()>(Some(v))
        }),
    decreases items.len() - i,
{
    let es = items.map_values(|x: SelectItemV| item_expr(x));
    lemma_no_key_items(es, schema);
    let gi = group_items(es, schema, Seq::empty())->0;
    let v = labelled_aggs(es, item_aggs(gi));
    if i == items.len() {
        assert(v.take(i) =~= v);
    } else {
        lemma_parse_all_aggs(items, schema, i + 1);
        assert(!(items[i] is Star));
        assert(es[i] == item_expr(items[i]));
        assert(group_item(es[i], schema, Seq::empty()) == Some(gi[i]));
        assert(item_aggs(gi)[i] == (gi[i]->Agg_0, gi[i]->Agg_1));
        assert(agg_item(items[i], schema) == AggItem::Agg(render(es[i]), gi[i]->Agg_0, gi[i]->Agg_1));
        assert(v.take(i).push(v[i]) =~= v.take(i + 1));
    }
}

proof fn lemma_single_sorted(r: Seq<SqlValue>, ps: Seq<usize>, desc: Seq<bool>)
    ensures
        pos_sorted(seq![r], ps, desc) == seq![r],
{
    let ents = Seq::new(1, |i: int| (pos_key(seq![r][i], ps), seq![r][i]));
    let e0 = Seq::<Keyed>::empty();
    assert(ents.drop_last() =~= e0);
    assert(is_sort_pos(e0, ents.last().0, desc, 0));
    let p = sort_pos(e0, ents.last().0, desc);
    assert(is_sort_pos(e0, ents.last().0, desc, p));
    assert(p == 0);
    assert(sort_entries(ents.drop_last(), desc) == e0);
    assert(e0.insert(0, ents.last()) =~= seq![ents[0]]);
    assert(sort_entries(ents, desc) =~= seq![ents[0]]);
    assert(entry_rows(seq![ents[0]]) =~= seq![r]);
}

/// An ungrouped aggregate query gives the same columns and row in both
/// executors whenever both succeed, provided no aggregate other than COUNT
/// reads a text and LIMIT is not 0 (the row-at-a-time engine ignores LIMIT
/// on such a query); rows and projection items are counted in 64 bits.
pub proof fn lemma_aggregate_parity(sel: SelectV, schema: Seq<ColumnDef>, rows: Seq<Seq<SqlValue>>)
    requires
        sel.group_by.len() == 0,
        sel.limit != Some(0usize),
        rows.len() <= u64::MAX,
        sel.projection.len() <= usize::MAX,
        exists|k: int| 0 <= k < sel.projection.len() && has_agg(item_expr(#[trigger] sel.projection[k])),
        match group_plan_spec(sel.group_by, sel.projection.map_values(|i: SelectItemV| item_expr(i)), schema) {
            Some((_, aggs, _)) => text_free(rows, aggs),
            None => true,
        },
        select_spec(sel, schema, rows) is Some,
        stream_select_spec(sel, schema, rows) is Some,
    ensures
        select_spec(sel, schema, rows) == stream_select_spec(sel, schema, rows),
{
    let items = sel.projection;
    let k0 = choose|k: int| 0 <= k < items.len() && has_agg(item_expr(#[trigger] items[k]));
    let (es, cols) = projection_spec(items, schema)->0;
    if items.len() == 1 && items[0] is Star {
        assert(false);
    }
    assert(no_star(items));
    assert(es =~= items.map_values(|i: SelectItemV| item_expr(i)));
    assert(is_agg_query(sel, es)) by {
        assert(has_agg(es[k0]));
    }
    let (keys, aggs, pos) = group_plan_spec(sel.group_by, es, schema)->0;
    assert(keys =~= Seq::<usize>::empty());
    let gi = group_items(es, schema, keys)->0;
    lemma_no_key_items(es, schema);
    lemma_parse_all_aggs(items, schema, 0);
    let v = labelled_aggs(es, aggs);
    assert(v.take(0) =~= Seq::<(Seq<char>, AggFn, Option<usize>)>::empty());
    assert(parse_aggs(items, schema, 0, Seq::empty()) == Ok::<Option<Seq<(Seq<char>, AggFn, Option<usize>)>>, ()>(Some(v)));
    let kept = where_spec(sel.selection, schema, rows)->0;
    lemma_where_len(sel.selection, schema, rows);
    lemma_text_free_kept(sel.selection, schema, rows, aggs);
    assert(v.map_values(|a: (Seq<char>, AggFn, Option<usize>)| a.0) =~= cols);
    assert forall|j: int| 0 <= j < v.len() implies (#[trigger] v[j]).1 == aggs[j].0 && v[j].2 == aggs[j].1 by {}
    assert(aggregates_spec(sel, v, schema, rows) is Some);
    assert(agg_values(v, kept) is Some);
    assert(stream_grouped_spec(sel, es, cols, schema, rows) is Some);
    assert(aggregate_output(kept, keys, aggs) is Some);
    assert(group_outputs(group_rows(kept, keys), aggs) is Some);
    let vals = agg_values(v, kept)->0;
    if kept.len() == 0 {
        assert(kept =~= Seq::<Seq<SqlValue>>::empty());
        lemma_agg_values_empty(v, aggs);
        assert(group_rows(kept, keys) =~= Seq::<GroupV>::empty());
        let row = empty_agg_row(aggs);
        if sel.order_by.len() > 0 {
            let ps = order_positions_spec(sel.order_by, cols)->0;
            lemma_single_sorted(row, ps, order_desc(sel.order_by));
        }
        assert(limit_rows(seq![row], sel.limit) =~= seq![row]);
        assert(seqs_deep(seq![row]) =~= seq![deep_values(row)]);
    } else {
        lemma_group_rows_no_keys(kept);
        assert(group_rows(kept, keys) == seq![(Seq::<SqlValue>::empty(), kept)]);
        let gs = seq![(Seq::<SqlValue>::empty(), kept)];
        assert(gs.drop_last() =~= Seq::<GroupV>::empty());
        assert(batch_agg_row(aggs, kept) is Some);
        let brow = batch_agg_row(aggs, kept)->0;
        let out = Seq::<SqlValue>::empty() + brow;
        assert(out =~= brow);
        assert(group_outputs(gs.drop_last(), aggs) == Some(Seq::<Seq<SqlValue>>::empty()));
        assert(gs.last().1 == kept);
        assert(Seq::<Seq<SqlValue>>::empty().push(out) =~= seq![out]);
        assert(group_outputs(gs, aggs) == Some(seq![out]));
        lemma_agg_values_parity(v, aggs, kept);
        assert(brow.len() == aggs.len()) by {
            assert(deep_values(brow).len() == vals.len());
            lemma_agg_values_len(v, kept);
        }
        assert(pos == item_positions(gi, Seq::empty()));
        assert(aggs == item_aggs(gi));
        assert(pos.len() == brow.len());
        assert(forall|j: int| 0 <= j < pos.len() ==> pos[j] as int == j);
        assert(project_row(brow, pos) == Some(brow)) by {
            assert(Seq::new(pos.len(), |j: int| brow[pos[j] as int]) =~= brow);
        }
        let one = seq![brow];
        assert(one.drop_last() =~= Seq::<Seq<SqlValue>>::empty());
        assert(reorder_all(one.drop_last(), pos) == Some(Seq::<Seq<SqlValue>>::empty()));
        assert(one.last() == brow);
        assert(Seq::<Seq<SqlValue>>::empty().push(brow) =~= one);
        assert(reorder_all(one, pos) == Some(one));
        if sel.order_by.len() > 0 {
            let ps = order_positions_spec(sel.order_by, cols)->0;
            lemma_single_sorted(brow, ps, order_desc(sel.order_by));
        }
        assert(limit_rows(one, sel.limit) =~= one);
        assert(seqs_deep(one) =~= seq![deep_values(brow)]);
    }
}

proof fn lemma_agg_values_len(av: Seq<(Seq<char>, AggFn, Option<usize>)>, rows: Seq<Seq<SqlValue>>)
    requires
        agg_values(av, rows) is Some,
    ensures
        agg_values(av, rows)->0.len() == av.len(),
    decreases av.len(),
{
    if av.len() > 0 {
        lemma_agg_values_len(av.drop_last(), rows);
    }
}

// ── a grouped query, both ways ────────────────────────────────────────

/// Every aggregate other than COUNT names a column, and every value it
/// reads there is an integer.
pub open spec fn int_only(rows: Seq<Seq<SqlValue>>, aggs: Seq<(AggFn, Option<usize>)>) -> bool {
    &&& forall|j: int| 0 <= j < aggs.len() && (#[trigger] aggs[j]).0 != AggFn::Count ==> aggs[j].1 is Some
    &&& forall|k: int, j: int| #![trigger rows[k], aggs[j]]
        0 <= k < rows.len() && 0 <= j < aggs.len() && aggs[j].0 != AggFn::Count && aggs[j].1 is Some
            && (aggs[j].1->0 as int) < rows[k].len() ==> rows[k][aggs[j].1->0 as int] is Int
}

proof fn lemma_sum_bound(s: Seq<i64>)
    ensures
        -(s.len() * 0x8000_0000_0000_0000) <= sum_of(s) <= s.len() * 0x7fff_ffff_ffff_ffff,
    decreases s.len(),
{
    if s.len() > 0 {
        lemma_sum_bound(s.drop_last());
        let n = s.drop_last().len();
        assert(-(n * 0x8000_0000_0000_0000) - 0x8000_0000_0000_0000 == -((n + 1) * 0x8000_0000_0000_0000)) by (nonlinear_arith);
        assert(n * 0x7fff_ffff_ffff_ffff + 0x7fff_ffff_ffff_ffff == (n + 1) * 0x7fff_ffff_ffff_ffff) by (nonlinear_arith);
    }
}

proof fn lemma_fold_total(vs: Seq<SqlValue>, f: AggFn)
    requires
        f == AggFn::Sum || f == AggFn::Avg,
        vs.len() <= u64::MAX,
    ensures
        f == AggFn::Sum ==> (agg_state_fold(agg_state_new(f), vs, false) matches AggState::Sum { total, empty, .. }
            && total == sum_of(ints_among(vs)) && empty == (ints_among(vs).len() == 0)),
        f == AggFn::Avg ==> (agg_state_fold(agg_state_new(f), vs, false) matches AggState::Avg { total, count }
            && total == sum_of(ints_among(vs)) && count == ints_among(vs).len()),
    decreases vs.len(),
{
    if vs.len() > 0 {
        let init = vs.drop_last();
        lemma_fold_total(init, f);
        lemma_counts_le(init);
        let si = ints_among(init);
        lemma_sum_bound(si);
        let n = si.len();
        assert(n + 1 <= 0x1_0000_0000_0000_0000);
        assert(n * 0x8000_0000_0000_0000 + 0x8000_0000_0000_0000 <= 0x8000_0000_0000_0000_0000_0000_0000_0000) by (nonlinear_arith)
            requires n + 1 <= 0x1_0000_0000_0000_0000;
        assert(n * 0x7fff_ffff_ffff_ffff + 0x7fff_ffff_ffff_ffff <= 0x7fff_ffff_ffff_ffff_ffff_ffff_ffff_ffff) by (nonlinear_arith)
            requires n + 1 <= 0x1_0000_0000_0000_0000;
        match vs.last() {
            SqlValue::Int(x) => {
                assert(ints_among(vs).drop_last() =~= si);
            },
            _ => {},
        }
    }
}

proof fn lemma_inputs_all_ints(bucket: Seq<Seq<SqlValue>>, c: usize)
    requires
        forall|k: int| 0 <= k < bucket.len() ==> c < (#[trigger] bucket[k]).len() && bucket[k][c as int] is Int,
    ensures
        agg_inputs(bucket, Some(c)) == col_vals(bucket, c),
        int_sum(col_vals(bucket, c)) == Some(sum_of(ints_among(col_vals(bucket, c)))),
        int_count(col_vals(bucket, c)) == ints_among(col_vals(bucket, c)).len(),
        int_total(col_vals(bucket, c)) == sum_of(ints_among(col_vals(bucket, c))),
        ints_among(col_vals(bucket, c)).len() == bucket.len(),
        non_null(col_vals(bucket, c)) == bucket.len(),
        no_text(col_vals(bucket, c)),
        forall|w: bool| bucket.len() > 0 ==> best_of(#[trigger] col_vals(bucket, c), w) == best_int(col_vals(bucket, c), w),
    decreases bucket.len(),
{
    let vs = col_vals(bucket, c);
    let isint = |v: SqlValue| v is Int;
    reveal_with_fuel(Seq::filter, 1);
    if bucket.len() > 0 {
        let init = bucket.drop_last();
        lemma_inputs_all_ints(init, c);
        let vi = col_vals(init, c);
        assert(vs.drop_last() =~= vi);
        assert(vs.last() == bucket.last()[c as int]);
        assert(bucket.map_values(|r: Seq<SqlValue>| r[c as int]).drop_last() =~= init.map_values(|r: Seq<SqlValue>| r[c as int]));
        assert(vs.filter(isint).drop_last() =~= vi.filter(isint));
        assert(vs.filter(|v: SqlValue| !(v is Null)).drop_last() =~= vi.filter(|v: SqlValue| !(v is Null)));
        let x = vs.last()->Int_0;
        assert(ints_among(vs) == ints_among(vi).push(x));
        assert(ints_among(vs).drop_last() =~= ints_among(vi));
        assert forall|k: int| 0 <= k < vs.len() implies !(#[trigger] vs[k] is Text) by {
            if k < vi.len() {
                assert(vs[k] == vi[k]);
            }
        }
        assert forall|w: bool| bucket.len() > 0 implies best_of(#[trigger] col_vals(bucket, c), w) == best_int(col_vals(bucket, c), w) by {
            if init.len() > 0 {
                let b = int_best(ints_among(vi), w);
                assert(best_of(vi, w) == Some(SqlValue::Int(b)));
                assert(replaces(SqlValue::Int(x), SqlValue::Int(b), w) == ((w && x < b) || (!w && x > b)));
            } else {
                assert(vi.len() == 0);
                assert(ints_among(vs) =~= seq![x]);
            }
        }
    } else {
        assert(vs =~= Seq::<SqlValue>::empty());
        assert(agg_inputs(bucket, Some(c)) =~= Seq::<SqlValue>::empty());
        assert(vs.filter(isint) =~= Seq::<SqlValue>::empty());
    }
}

/// One aggregate over a non-empty group whose values it reads are
/// integers gives the same value in both executors whenever both succeed.
proof fn lemma_group_value_parity(f: AggFn, col: Option<usize>, bucket: Seq<Seq<SqlValue>>)
    requires
        bucket.len() > 0,
        bucket.len() <= u64::MAX,
        f != AggFn::Count ==> col is Some,
        f != AggFn::Count && col is Some ==> forall|k: int| 0 <= k < bucket.len() && col->0 < bucket[k].len()
            ==> (#[trigger] bucket[k])[col->0 as int] is Int,
        agg_value(f, col, bucket) is Some,
        batch_agg_value(f, col, bucket) is Some,
    ensures
        agg_value(f, col, bucket) == batch_agg_value(f, col, bucket),
{
    match col {
        None => {},
        Some(c) => {
            assert(forall|k: int| 0 <= k < bucket.len() ==> c < (#[trigger] bucket[k]).len());
            let vs = col_vals(bucket, c);
            assert(bucket.map_values(|r: Seq<SqlValue>| r[c as int]) == vs);
            if f == AggFn::Count {
                lemma_fold_count(vs);
                lemma_nonnull_filter(vs);
            } else {
                lemma_inputs_all_ints(bucket, c);
                match f {
                    AggFn::Sum => {
                        lemma_fold_total(vs, f);
                    },
                    AggFn::Avg => {
                        lemma_fold_total(vs, f);
                    },
                    AggFn::Min => {
                        lemma_fold_best(vs, true);
                    },
                    AggFn::Max => {
                        lemma_fold_best(vs, false);
                    },
                    AggFn::Count => {},
                }
            }
        },
    }
}

proof fn lemma_nonnull_filter(vs: Seq<SqlValue>)
    ensures
        vs.filter(|v: SqlValue| !(v is Null)).len() == non_null(vs),
    decreases vs.len(),
{
    reveal_with_fuel(Seq::filter, 1);
    if vs.len() > 0 {
        lemma_nonnull_filter(vs.drop_last());
    }
}

proof fn lemma_scan_pos_from(gs: Seq<GroupV>, key: Seq<SqlValue>, i: int)
    requires
        0 <= i <= gs.len(),
        forall|j: int| 0 <= j < i ==> values_order(deep_values(#[trigger] gs[j].0), deep_values(key)) == ValueOrder::Less,
    ensures
        is_scan_pos(gs, key, scan_pos(gs, key)),
    decreases gs.len() - i,
{
    if i == gs.len() || values_order(deep_values(gs[i].0), deep_values(key)) != ValueOrder::Less {
        assert(is_scan_pos(gs, key, i));
    } else {
        lemma_scan_pos_from(gs, key, i + 1);
    }
}

/// Every group holds at least one row, no more rows than the input, and
/// only rows of the input.
proof fn lemma_group_rows_props(rows: Seq<Seq<SqlValue>>, idx: Seq<usize>)
    ensures
        forall|g: int| 0 <= g < group_rows(rows, idx).len() ==> {
            let b = (#[trigger] group_rows(rows, idx)[g]).1;
            &&& b.len() > 0
            &&& b.len() <= rows.len()
            &&& forall|r: int| 0 <= r < b.len() ==> exists|k: int| 0 <= k < rows.len() && rows[k] == #[trigger] b[r]
        },
    decreases rows.len(),
{
    if rows.len() > 0 {
        let init = rows.drop_last();
        lemma_group_rows_props(init, idx);
        let gs = group_rows(init, idx);
        let row = rows.last();
        let key = key_of(row, idx);
        let p = scan_pos(gs, key);
        lemma_scan_pos_from(gs, key, 0);
        assert(0 <= p <= gs.len());
        let ng = group_rows(rows, idx);
        assert(ng == group_insert(gs, key, row));
        let fresh = !(p < gs.len() && values_order(deep_values(gs[p].0), deep_values(key)) == ValueOrder::Equal);
        if fresh {
            gs.insert_ensures(p, (key, seq![row]));
        }
        assert forall|g: int| 0 <= g < ng.len() implies {
            let b = (#[trigger] ng[g]).1;
            &&& b.len() > 0
            &&& b.len() <= rows.len()
            &&& forall|r: int| 0 <= r < b.len() ==> exists|k: int| 0 <= k < rows.len() && rows[k] == #[trigger] b[r]
        } by {
            let b = ng[g].1;
            if p < gs.len() && values_order(deep_values(gs[p].0), deep_values(key)) == ValueOrder::Equal {
                if g == p {
                    let ob = gs[p].1;
                    assert(b == ob.push(row));
                    assert forall|r: int| 0 <= r < b.len() implies exists|k: int| 0 <= k < rows.len() && rows[k] == #[trigger] b[r] by {
                        if r < ob.len() {
                            assert(b[r] == ob[r]);
                            let k = choose|k: int| 0 <= k < init.len() && init[k] == #[trigger] ob[r];
                            assert(rows[k] == init[k]);
                        } else {
                            assert(rows[rows.len() - 1] == b[r]);
                        }
                    }
                } else {
                    let ob = gs[g].1;
                    assert(b == ob);
                    assert forall|r: int| 0 <= r < b.len() implies exists|k: int| 0 <= k < rows.len() && rows[k] == #[trigger] b[r] by {
                        let k = choose|k: int| 0 <= k < init.len() && init[k] == #[trigger] ob[r];
                        assert(rows[k] == init[k]);
                    }
                }
            } else {
                assert(ng == gs.insert(p, (key, seq![row])));
                if g == p {
                    assert(b == seq![row]);
                    assert forall|r: int| 0 <= r < b.len() implies exists|k: int| 0 <= k < rows.len() && rows[k] == #[trigger] b[r] by {
                        assert(rows[rows.len() - 1] == b[r]);
                    }
                } else {
                    let q = if g < p { g } else { g - 1 };
                    if g < p {
                        assert(ng[g] == gs[g]);
                    } else {
                        assert(ng[(g - 1) + 1] == gs[g - 1]);
                    }
                    assert(ng[g] == gs[q]);
                    let ob = gs[q].1;
                    assert forall|r: int| 0 <= r < b.len() implies exists|k: int| 0 <= k < rows.len() && rows[k] == #[trigger] b[r] by {
                        let k = choose|k: int| 0 <= k < init.len() && init[k] == #[trigger] ob[r];
                        assert(rows[k] == init[k]);
                    }
                }
            }
        }
    }
}

proof fn lemma_group_row_parity(aggs: Seq<(AggFn, Option<usize>)>, bucket: Seq<Seq<SqlValue>>)
    requires
        bucket.len() > 0,
        bucket.len() <= u64::MAX,
        int_only(bucket, aggs),
        agg_row(aggs, bucket) is Some,
        batch_agg_row(aggs, bucket) is Some,
    ensures
        agg_row(aggs, bucket) == batch_agg_row(aggs, bucket),
    decreases aggs.len(),
{
    if aggs.len() > 0 {
        let init = aggs.drop_last();
        assert(int_only(bucket, init)) by {
            assert forall|j: int| 0 <= j < init.len() && (#[trigger] init[j]).0 != AggFn::Count implies init[j].1 is Some by {
                assert(init[j] == aggs[j]);
            }
            assert forall|k: int, j: int| #![trigger bucket[k], init[j]]
                0 <= k < bucket.len() && 0 <= j < init.len() && init[j].0 != AggFn::Count && init[j].1 is Some
                    && (init[j].1->0 as int) < bucket[k].len() implies bucket[k][init[j].1->0 as int] is Int by {
                assert(init[j] == aggs[j]);
            }
        }
        lemma_group_row_parity(init, bucket);
        let (f, c) = aggs.last();
        assert(aggs[aggs.len() - 1] == aggs.last());
        assert(f != AggFn::Count && c is Some ==> forall|k: int| 0 <= k < bucket.len() && c->0 < bucket[k].len()
            ==> (#[trigger] bucket[k])[c->0 as int] is Int) by {
            if f != AggFn::Count && c is Some {
                assert forall|k: int| 0 <= k < bucket.len() && c->0 < bucket[k].len() implies (#[trigger] bucket[k])[c->0 as int] is Int by {
                    assert(aggs[aggs.len() - 1] == aggs.last());
                }
            }
        }
        lemma_group_value_parity(f, c, bucket);
    }
}

/// Groups that an aggregate can be compared on.
pub open spec fn comparable_groups(gs: Seq<GroupV>, aggs: Seq<(AggFn, Option<usize>)>) -> bool {
    forall|g: int| 0 <= g < gs.len() ==> {
        let b = (#[trigger] gs[g]).1;
        b.len() > 0 && b.len() <= u64::MAX && int_only(b, aggs)
    }
}

proof fn lemma_outputs_parity(gs: Seq<GroupV>, aggs: Seq<(AggFn, Option<usize>)>)
    requires
        comparable_groups(gs, aggs),
        volcano_outputs(gs, aggs) is Some,
        group_outputs(gs, aggs) is Some,
    ensures
        volcano_outputs(gs, aggs) == group_outputs(gs, aggs),
    decreases gs.len(),
{
    if gs.len() > 0 {
        let init = gs.drop_last();
        assert(comparable_groups(init, aggs)) by {
            assert forall|g: int| 0 <= g < init.len() implies {
                let b = (#[trigger] init[g]).1;
                b.len() > 0 && b.len() <= u64::MAX && int_only(b, aggs)
            } by {
                assert(init[g] == gs[g]);
            }
        }
        lemma_outputs_parity(init, aggs);
        assert(gs[gs.len() - 1] == gs.last());
        lemma_group_row_parity(aggs, gs.last().1);
    }
}

proof fn lemma_group_outputs_prefix(gs: Seq<GroupV>, aggs: Seq<(AggFn, Option<usize>)>, n: int)
    requires
        0 <= n <= gs.len(),
        group_outputs(gs, aggs) is Some,
    ensures
        group_outputs(gs.take(n), aggs) == Some(group_outputs(gs, aggs)->0.take(n)),
        group_outputs(gs, aggs)->0.len() == gs.len(),
    decreases gs.len(),
{
    if gs.len() > 0 {
        let init = gs.drop_last();
        if n < gs.len() {
            lemma_group_outputs_prefix(init, aggs, n);
            assert(init.take(n) =~= gs.take(n));
            assert(group_outputs(gs, aggs)->0.drop_last() == group_outputs(init, aggs)->0);
            assert(group_outputs(gs, aggs)->0.take(n) =~= group_outputs(init, aggs)->0.take(n));
        } else {
            lemma_group_outputs_prefix(init, aggs, 0);
            assert(gs.take(n) =~= gs);
            assert(group_outputs(gs, aggs)->0.take(n) =~= group_outputs(gs, aggs)->0);
        }
    } else {
        assert(gs.take(n) =~= gs);
    }
}

proof fn lemma_reorder_prefix(rows: Seq<Seq<SqlValue>>, pos: Seq<usize>, n: int)
    requires
        0 <= n <= rows.len(),
        reorder_all(rows, pos) is Some,
    ensures
        reorder_all(rows.take(n), pos) == Some(reorder_all(rows, pos)->0.take(n)),
        reorder_all(rows, pos)->0.len() == rows.len(),
    decreases rows.len(),
{
    if rows.len() > 0 {
        let init = rows.drop_last();
        if n < rows.len() {
            lemma_reorder_prefix(init, pos, n);
            assert(init.take(n) =~= rows.take(n));
            assert(reorder_all(rows, pos)->0.take(n) =~= reorder_all(init, pos)->0.take(n));
        } else {
            lemma_reorder_prefix(init, pos, 0);
            assert(rows.take(n) =~= rows);
            assert(reorder_all(rows, pos)->0.take(n) =~= reorder_all(rows, pos)->0);
        }
    } else {
        assert(rows.take(n) =~= rows);
    }
}

proof fn lemma_group_keys_len(gb: Seq<ExprV>, schema: Seq<ColumnDef>)
    requires
        group_keys_spec(gb, schema) is Some,
    ensures
        group_keys_spec(gb, schema)->0.len() == gb.len(),
    decreases gb.len(),
{
    if gb.len() > 0 {
        lemma_group_keys_len(gb.drop_last(), schema);
    }
}

proof fn lemma_int_only_sub(rows: Seq<Seq<SqlValue>>, sub: Seq<Seq<SqlValue>>, aggs: Seq<(AggFn, Option<usize>)>)
    requires
        int_only(rows, aggs),
        forall|r: int| 0 <= r < sub.len() ==> exists|k: int| 0 <= k < rows.len() && rows[k] == #[trigger] sub[r],
    ensures
        int_only(sub, aggs),
{
    assert forall|r: int, j: int| #![trigger sub[r], aggs[j]]
        0 <= r < sub.len() && 0 <= j < aggs.len() && aggs[j].0 != AggFn::Count && aggs[j].1 is Some
            && (aggs[j].1->0 as int) < sub[r].len() implies sub[r][aggs[j].1->0 as int] is Int by {
        let k = choose|k: int| 0 <= k < rows.len() && rows[k] == #[trigger] sub[r];
        assert(rows[k] == sub[r]);
    }
}

/// A grouped query gives the same columns and rows in both executors
/// whenever both succeed, provided every aggregate other than COUNT names
/// a column and reads only integers there (the row-at-a-time SUM of no
/// value is 0 where the batch pipeline gives NULL, and the two order texts
/// in MIN and MAX differently); rows are counted in 64 bits.
pub proof fn lemma_group_by_parity(sel: SelectV, schema: Seq<ColumnDef>, rows: Seq<Seq<SqlValue>>)
    requires
        sel.group_by.len() > 0,
        rows.len() <= u64::MAX,
        match group_plan_spec(sel.group_by, sel.projection.map_values(|i: SelectItemV| item_expr(i)), schema) {
            Some((_, aggs, _)) => int_only(rows, aggs),
            None => true,
        },
        select_spec(sel, schema, rows) is Some,
        stream_select_spec(sel, schema, rows) is Some,
    ensures
        select_spec(sel, schema, rows) == stream_select_spec(sel, schema, rows),
{
    let items = sel.projection;
    assert(group_by_spec(sel, schema, rows) is Some);
    assert(no_star(items));
    let es = items.map_values(|i: SelectItemV| item_expr(i));
    let cols = es.map_values(|e: ExprV| render(e));
    if items.len() == 1 && items[0] is Star {
        assert(false);
    }
    let (es2, cols2) = projection_spec(items, schema)->0;
    assert(es2 =~= es);
    assert(cols2 =~= cols);
    let (keys, aggs, pos) = group_plan_spec(sel.group_by, es, schema)->0;
    lemma_group_keys_len(sel.group_by, schema);
    assert(keys.len() > 0);
    let kept = where_spec(sel.selection, schema, rows)->0;
    lemma_where_len(sel.selection, schema, rows);
    lemma_where_subset(sel.selection, schema, rows);
    assert(is_agg_query(sel, es2));
    assert(stream_grouped_spec(sel, es, cols, schema, rows) is Some);
    let o_s = aggregate_output(kept, keys, aggs)->0;
    let re = reorder_all(o_s, pos)->0;
    if sel.limit == Some(0usize) {
        assert(limit_rows(re, sel.limit) =~= Seq::<Seq<SqlValue>>::empty());
        if sel.order_by.len() > 0 {
            let ps = order_positions_spec(sel.order_by, cols)->0;
            let so = pos_sorted(re, ps, order_desc(sel.order_by));
            assert(limit_rows(so, sel.limit) =~= Seq::<Seq<SqlValue>>::empty());
        }
        assert(seqs_deep(Seq::<Seq<SqlValue>>::empty()) =~= Seq::<Seq<ValueV>>::empty());
    } else {
        let gs = group_rows(kept, keys);
        lemma_group_rows_props(kept, keys);
        lemma_int_only_sub(rows, kept, aggs);
        assert(comparable_groups(gs, aggs)) by {
            assert forall|g: int| 0 <= g < gs.len() implies {
                let b = (#[trigger] gs[g]).1;
                b.len() > 0 && b.len() <= u64::MAX && int_only(b, aggs)
            } by {
                let b = gs[g].1;
                assert forall|r: int| 0 <= r < b.len() implies exists|k: int| 0 <= k < kept.len() && kept[k] == #[trigger] b[r] by {}
                lemma_int_only_sub(kept, b, aggs);
            }
        }
        assert(o_s == group_outputs(gs, aggs)->0);
        lemma_group_outputs_prefix(gs, aggs, gs.len() as int);
        lemma_reorder_prefix(o_s, pos, o_s.len() as int);
        if sel.order_by.len() == 0 {
            let n: int = match sel.limit {
                Some(l) => if (l as int) < gs.len() { l as int } else { gs.len() as int },
                None => gs.len() as int,
            };
            assert(limit_rows(gs, sel.limit) =~= gs.take(n));
            lemma_group_outputs_prefix(gs, aggs, n);
            let gt = gs.take(n);
            assert(comparable_groups(gt, aggs)) by {
                assert forall|g: int| 0 <= g < gt.len() implies {
                    let b = (#[trigger] gt[g]).1;
                    b.len() > 0 && b.len() <= u64::MAX && int_only(b, aggs)
                } by {
                    assert(gt[g] == gs[g]);
                }
            }
            lemma_outputs_parity(gt, aggs);
            lemma_reorder_prefix(o_s, pos, n);
            assert(limit_rows(re, sel.limit) =~= re.take(n));
        } else {
            lemma_outputs_parity(gs, aggs);
        }
    }
}

} // verus!

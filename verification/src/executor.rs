//! Volcano iterator model: every operator pulls one row at a time from its
//! child (hash build sides and aggregation materialize).
use vstd::prelude::*;
use vstd::string::*;
use crate::codec::{clone_row, clone_value, is_null_value, value_eq, SqlValue, ValueV};

verus! {

pub type Row = Vec<SqlValue>;

/// A pull-based row producer.
pub trait Operator {
    /// Internal consistency of the operator state.
    spec fn op_inv(&self) -> bool;

    /// `s.step(t, r)`: one call of `next` on state `s` may return `r` and
    /// leave the operator in state `t`.
    spec fn step(&self, after: &Self, r: Result<Option<Row>, String>) -> bool;

    /// Next output row, or None when exhausted.
    fn next(&mut self) -> (r: Result<Option<Row>, String>)
        requires
            old(self).op_inv(),
        ensures
            final(self).op_inv(),
            old(self).step(&*final(self), r),
    ;
}

impl<T: Operator> Operator for Box<T> {
    open spec fn op_inv(&self) -> bool {
        (**self).op_inv()
    }

    open spec fn step(&self, after: &Self, r: Result<Option<Row>, String>) -> bool {
        (**self).step(&**after, r)
    }

    fn next(&mut self) -> (r: Result<Option<Row>, String>) {
        (**self).next()
    }
}

/// `states[k].step(states[k + 1], Ok(Some(rows[k])))` for every `k`: the
/// operator went through `states` while `next` returned `rows`.
pub open spec fn trace<I: Operator>(states: Seq<I>, rows: Seq<Row>) -> bool {
    &&& states.len() == rows.len() + 1
    &&& forall|k: int| 0 <= k < rows.len() ==> #[trigger] states[k].step(&states[k + 1], Ok(Some(rows[k])))
}

/// `rows` is what successive calls of `next` returned (each `Ok(Some(..))`)
/// while the operator went from state `a` to state `b`.
pub open spec fn runs<I: Operator>(a: I, b: I, rows: Seq<Row>) -> bool {
    exists|states: Seq<I>| #[trigger] trace(states, rows) && states[0] == a && states.last() == b
}

/// The operator, from state `a`, yields `rows` and then ends with `end`
/// (`Ok(None)` or an error), reaching state `b`.
pub open spec fn drains<I: Operator>(a: I, b: I, rows: Seq<Row>, end: Result<Option<Row>, String>) -> bool {
    exists|mid: I| #[trigger] runs(a, mid, rows) && mid.step(&b, end)
}

proof fn lemma_runs_extend<I: Operator>(a: I, mid: I, b: I, rows: Seq<Row>, row: Row)
    requires
        runs(a, mid, rows),
        mid.step(&b, Ok(Some(row))),
    ensures
        runs(a, b, rows.push(row)),
{
    let states = choose|states: Seq<I>| #[trigger] trace(states, rows) && states[0] == a && states.last() == mid;
    let st2 = states.push(b);
    let rows2 = rows.push(row);
    assert forall|k: int| 0 <= k < rows2.len() implies #[trigger] st2[k].step(&st2[k + 1], Ok(Some(rows2[k]))) by {
        if k < rows.len() {
            assert(st2[k] == states[k] && st2[k + 1] == states[k + 1] && rows2[k] == rows[k]);
        } else {
            assert(st2[k] == mid && st2[k + 1] == b && rows2[k] == row);
        }
    }
    assert(trace(st2, rows2));
    assert(st2[0] == a && st2.last() == b);
}

proof fn lemma_runs_empty<I: Operator>(a: I)
    ensures
        runs(a, a, Seq::empty()),
{
    let st = seq![a];
    assert(trace(st, Seq::<Row>::empty()));
    assert(st[0] == a && st.last() == a);
}

/// How many input rows an operator pulls within one call before it gives
/// up with an error (unreachable in practice; it bounds every pull loop).
pub const PULL_BUDGET: u64 = 0xffff_ffff_ffff_ffff;

fn msg(s: &str) -> (r: String)
    ensures
        r@ == s@,
{
    String::from_str(s)
}

// ── VecScan ───────────────────────────────────────────────────────────

/// Materialized scan.
pub struct VecScan {
    /// Remaining rows, last row first.
    pub rev: Vec<Row>,
}

impl VecScan {
    /// Rows still to come, in order.
    pub open spec fn pending(&self) -> Seq<Row> {
        self.rev@.reverse()
    }

    /// Scan over `rows` in order.
    pub fn new(rows: Vec<Row>) -> (r: Self)
        ensures
            r.op_inv(),
            r.pending() == rows@,
    {
        let mut rows = rows;
        let mut rev: Vec<Row> = Vec::with_capacity(rows.len());
        let ghost all = rows@;
        while rows.len() > 0
            invariant
                all == rows@ + rev@.reverse(),
            decreases rows@.len(),
        {
            let ghost before_rows = rows@;
            let ghost before_rev = rev@;
            let r = rows.pop().unwrap();
            rev.push(r);
            assert(rev@.reverse() =~= seq![r] + before_rev.reverse());
            assert(before_rows =~= rows@.push(r));
            assert(all =~= rows@ + rev@.reverse());
        }
        assert(all =~= rev@.reverse());
        VecScan { rev }
    }
}

impl Operator for VecScan {
    open spec fn op_inv(&self) -> bool {
        true
    }

    open spec fn step(&self, after: &Self, r: Result<Option<Row>, String>) -> bool {
        if self.pending().len() == 0 {
            r == Ok::<Option<Row>, String>(None) && after.pending() == self.pending()
        } else {
            r == Ok::<Option<Row>, String>(Some(self.pending()[0]))
                && after.pending() == self.pending().drop_first()
        }
    }

    fn next(&mut self) -> (r: Result<Option<Row>, String>) {
        let ghost before = self.pending();
        let r = self.rev.pop();
        proof {
            if before.len() > 0 {
                assert(self.pending() =~= before.drop_first());
            }
        }
        Ok(r)
    }
}

// ── Scan ──────────────────────────────────────────────────────────────

/// Pull-based scan over any closure (the storage-facing shape).
pub struct Scan<F> where F: FnMut() -> Result<Option<Row>, String> {
    pub f: F,
}

impl<F> Scan<F> where F: FnMut() -> Result<Option<Row>, String> {
    /// Scan pulling rows from `f`.
    pub fn new(f: F) -> (r: Self)
        ensures
            call_requires(f, ()) ==> r.op_inv(),
            r.source() == f,
    {
        Scan { f }
    }

    /// The closure the rows come from.
    pub open spec fn source(&self) -> F {
        self.f
    }
}

impl<F> Operator for Scan<F> where F: FnMut() -> Result<Option<Row>, String> {
    open spec fn op_inv(&self) -> bool {
        call_requires(self.f, ())
    }

    /// A step is one call of the closure.
    open spec fn step(&self, after: &Self, r: Result<Option<Row>, String>) -> bool {
        call_ensures(self.f, (), r) && after.f == self.f
    }

    fn next(&mut self) -> (r: Result<Option<Row>, String>) {
        (self.f)()
    }
}

// ── Filter ────────────────────────────────────────────────────────────

/// Rows of the input on which the predicate holds.
pub struct Filter<I, F> where F: Fn(&Row) -> Result<bool, String> {
    pub input: I,
    pub pred: F,
}

/// Every row of `rows` was rejected by `pred` (it returned `Ok(false)`).
pub open spec fn all_rejected<F: Fn(&Row) -> Result<bool, String>>(pred: F, rows: Seq<Row>) -> bool {
    forall|i: int| 0 <= i < rows.len() ==> call_ensures(pred, (&#[trigger] rows[i],), Ok::<bool, String>(false))
}

/// What the filter returns when its input's call ended with `cr`.
pub open spec fn filter_outcome<F: Fn(&Row) -> Result<bool, String>>(
    pred: F,
    cr: Result<Option<Row>, String>,
    r: Result<Option<Row>, String>,
) -> bool {
    match cr {
        Err(e) => r == Err::<Option<Row>, String>(e),
        Ok(None) => r == Ok::<Option<Row>, String>(None),
        Ok(Some(row)) => {
            ||| call_ensures(pred, (&row,), Ok::<bool, String>(true)) && r == Ok::<Option<Row>, String>(Some(row))
            ||| exists|e: String| call_ensures(pred, (&row,), Err::<bool, String>(e)) && r == Err::<Option<Row>, String>(e)
        },
    }
}

impl<I: Operator, F> Filter<I, F> where F: Fn(&Row) -> Result<bool, String> {
    /// Filter `input` by `pred`.
    pub fn new(input: I, pred: F) -> (r: Self)
        ensures
            input.op_inv() && (forall|row: &Row| call_requires(pred, (row,))) ==> r.op_inv(),
            r.child() == input,
            r.predicate() == pred,
    {
        Filter { input, pred }
    }

    /// The input operator.
    pub open spec fn child(&self) -> I {
        self.input
    }

    /// The predicate.
    pub open spec fn predicate(&self) -> F {
        self.pred
    }
}

impl<I: Operator, F> Operator for Filter<I, F> where F: Fn(&Row) -> Result<bool, String> {
    open spec fn op_inv(&self) -> bool {
        self.input.op_inv() && forall|row: &Row| call_requires(self.pred, (row,))
    }

    /// Rows rejected by the predicate are skipped; the first accepted row,
    /// the end of input, or the first error is returned.
    open spec fn step(&self, after: &Self, r: Result<Option<Row>, String>) -> bool {
        &&& after.pred == self.pred
        &&& exists|skipped: Seq<Row>, mid: I| #![trigger runs(self.input, mid, skipped)]
            runs(self.input, mid, skipped)
            && all_rejected(self.pred, skipped)
            && {
                ||| exists|cr: Result<Option<Row>, String>| #[trigger] mid.step(&after.input, cr)
                        && filter_outcome(self.pred, cr, r)
                ||| skipped.len() == PULL_BUDGET && after.input == mid && r is Err
            }
    }

    fn next(&mut self) -> (r: Result<Option<Row>, String>) {
        let ghost start = self.input;
        let ghost mut skipped: Seq<Row> = Seq::empty();
        proof { lemma_runs_empty(start); }
        let mut pulled: u64 = 0;
        loop
            invariant
                pulled as nat == skipped.len(),
                self.input.op_inv(),
                forall|row: &Row| call_requires(self.pred, (row,)),
                self.pred == old(self).pred,
                start == old(self).input,
                runs(start, self.input, skipped),
                all_rejected(self.pred, skipped),
            decreases PULL_BUDGET - pulled,
        {
            if pulled == PULL_BUDGET {
                return Err(msg("pull budget exhausted while filtering"));
            }
            let ghost mid = self.input;
            let cr = self.input.next();
            proof {
                assert(runs(start, mid, skipped) && mid.step(&self.input, cr));
            }
            match cr {
                Err(e) => {
                    proof {
                        assert(filter_outcome(self.pred, Err::<Option<Row>, String>(e), Err::<Option<Row>, String>(e)));
                    }
                    return Err(e);
                },
                Ok(None) => {
                    proof {
                        assert(filter_outcome(self.pred, cr, Ok::<Option<Row>, String>(None)));
                    }
                    return Ok(None);
                },
                Ok(Some(row)) => {
                    match (self.pred)(&row) {
                        Err(e) => {
                            proof {
                                let r: Result<Option<Row>, String> = Err(e);
                                assert(call_ensures(self.pred, (&row,), Err::<bool, String>(e)));
                                assert(filter_outcome(self.pred, cr, r));
                            }
                            return Err(e);
                        },
                        Ok(true) => {
                            proof {
                                assert(filter_outcome(self.pred, cr, Ok::<Option<Row>, String>(Some(row))));
                            }
                            return Ok(Some(row));
                        },
                        Ok(false) => {
                            proof {
                                lemma_runs_extend(start, mid, self.input, skipped, row);
                                skipped = skipped.push(row);
                                assert(all_rejected(self.pred, skipped)) by {
                                    assert forall|i: int| 0 <= i < skipped.len() implies
                                        call_ensures(self.pred, (&#[trigger] skipped[i],), Ok::<bool, String>(false)) by {
                                        if i < skipped.len() - 1 {
                                            assert(skipped[i] == skipped.drop_last()[i]);
                                        }
                                    }
                                }
                            }
                            pulled = pulled + 1;
                        },
                    }
                },
            }
        }
    }
}

} // verus!

verus! {

// ── Project ───────────────────────────────────────────────────────────

/// `row` restricted and reordered to the column positions `idx`; `None`
/// when a position is not a column of the row.
pub open spec fn project_row(row: Seq<SqlValue>, idx: Seq<usize>) -> Option<Seq<SqlValue>> {
    if forall|j: int| 0 <= j < idx.len() ==> #[trigger] idx[j] < row.len() {
        Some(Seq::new(idx.len(), |j: int| row[idx[j] as int]))
    } else {
        None
    }
}

/// Project a row onto column positions; an out-of-range position is an error.
pub fn project_values(row: &[SqlValue], idx: &[usize]) -> (r: Result<Row, String>)
    ensures
        match r {
            Ok(out) => project_row(row@, idx@) == Some(out@),
            Err(_) => project_row(row@, idx@) is None,
        },
{
    let mut out: Row = Vec::with_capacity(idx.len());
    let mut j: usize = 0;
    while j < idx.len()
        invariant
            j <= idx@.len(),
            out@ == Seq::new(j as nat, |q: int| row@[idx@[q] as int]),
            forall|q: int| 0 <= q < j ==> #[trigger] idx@[q] < row@.len(),
        decreases idx@.len() - j,
    {
        if idx[j] >= row.len() {
            return Err(msg("projection column out of range"));
        }
        out.push(clone_value(&row[idx[j]]));
        assert(out@ =~= Seq::new((j + 1) as nat, |q: int| row@[idx@[q] as int]));
        j = j + 1;
    }
    Ok(out)
}

/// Column projection of the input rows.
pub struct Project<I> {
    pub input: I,
    pub idx: Vec<usize>,
}

impl<I: Operator> Project<I> {
    /// Project `input` onto the column positions `idx`.
    pub fn new(input: I, idx: Vec<usize>) -> (r: Self)
        ensures
            input.op_inv() ==> r.op_inv(),
            r.child() == input,
            r.positions() == idx@,
    {
        Project { input, idx }
    }

    /// The input operator.
    pub open spec fn child(&self) -> I {
        self.input
    }

    /// The projected positions.
    pub open spec fn positions(&self) -> Seq<usize> {
        self.idx@
    }
}

impl<I: Operator> Operator for Project<I> {
    open spec fn op_inv(&self) -> bool {
        self.input.op_inv()
    }

    /// The input's result with each row projected.
    open spec fn step(&self, after: &Self, r: Result<Option<Row>, String>) -> bool {
        &&& after.idx@ == self.idx@
        &&& exists|cr: Result<Option<Row>, String>| #[trigger] self.input.step(&after.input, cr) && match cr {
            Err(e) => r == Err::<Option<Row>, String>(e),
            Ok(None) => r == Ok::<Option<Row>, String>(None),
            Ok(Some(row)) => match project_row(row@, self.idx@) {
                Some(p) => r matches Ok(Some(out)) && out@ == p,
                None => r is Err,
            },
        }
    }

    fn next(&mut self) -> (r: Result<Option<Row>, String>) {
        let ghost before = self.input;
        let cr = self.input.next();
        assert(before.step(&self.input, cr));
        match cr {
            Err(e) => Err(e),
            Ok(None) => Ok(None),
            Ok(Some(row)) => match project_values(row.as_slice(), self.idx.as_slice()) {
                Ok(out) => {
                    assert(project_row(row@, self.idx@) == Some(out@));
                    Ok(Some(out))
                },
                Err(e) => Err(e),
            },
        }
    }
}

// ── Limit ─────────────────────────────────────────────────────────────

/// At most `n` rows of the input.
pub struct Limit<I> {
    pub input: I,
    pub remaining: usize,
}

impl<I: Operator> Limit<I> {
    /// Pass at most `n` rows of `input`.
    pub fn new(input: I, n: usize) -> (r: Self)
        ensures
            input.op_inv() ==> r.op_inv(),
            r.child() == input,
            r.remaining() == n,
    {
        Limit { input, remaining: n }
    }

    /// The input operator.
    pub open spec fn child(&self) -> I {
        self.input
    }

    /// How many more rows may pass.
    pub open spec fn remaining(&self) -> nat {
        self.remaining as nat
    }
}

impl<I: Operator> Operator for Limit<I> {
    open spec fn op_inv(&self) -> bool {
        self.input.op_inv()
    }

    /// With no rows left to pass the input is not pulled; otherwise the
    /// input's result is returned and a returned row uses up one.
    open spec fn step(&self, after: &Self, r: Result<Option<Row>, String>) -> bool {
        if self.remaining == 0 {
            r == Ok::<Option<Row>, String>(None) && *after == *self
        } else {
            &&& self.input.step(&after.input, r)
            &&& after.remaining == if r matches Ok(Some(_)) { self.remaining - 1 } else { self.remaining as int }
        }
    }

    fn next(&mut self) -> (r: Result<Option<Row>, String>) {
        if self.remaining == 0 {
            return Ok(None);
        }
        let r = self.input.next();
        match r {
            Ok(Some(_)) => {
                self.remaining = self.remaining - 1;
            },
            _ => {},
        }
        r
    }
}

} // verus!

verus! {

// ── HashJoin ──────────────────────────────────────────────────────────

/// Build-side rows whose key column (position `rkey`) equals `key`.
pub open spec fn join_matches(build: Seq<Row>, rkey: usize, key: SqlValue) -> Seq<Row> {
    build.filter(|b: Row| b@[rkey as int].deep_view() == key.deep_view())
}

/// The joined rows for a probe row: the probe row followed by each matching
/// build row, in build order (none for a NULL key).
pub open spec fn join_output(lrow: Seq<SqlValue>, lkey: usize, build: Seq<Row>, rkey: usize) -> Seq<Seq<SqlValue>> {
    if lrow[lkey as int] is Null {
        Seq::empty()
    } else {
        join_matches(build, rkey, lrow[lkey as int]).map_values(|b: Row| lrow + b@)
    }
}

/// A probe row that yields no output (it has the key column, and the key is
/// NULL or has no match).
pub open spec fn probe_silent(lrow: Seq<SqlValue>, lkey: usize, build: Seq<Row>, rkey: usize) -> bool {
    lkey < lrow.len() && join_output(lrow, lkey, build, rkey).len() == 0
}

/// Build side of a join over `rows`: the rows whose key is not NULL, in order.
pub open spec fn build_side(rows: Seq<Row>, rkey: usize) -> Seq<Row> {
    rows.filter(|b: Row| !(b@[rkey as int] is Null))
}

/// Building a join side from `right` failed with `e`: after some rows, a
/// pull returned the error `e` itself, or a row lacking the key column, or
/// the pull budget ran out.
pub open spec fn build_failed<R: Operator>(right: R, rkey: usize, e: String) -> bool {
    exists|rows: Seq<Row>, mid: R| #[trigger] runs(right, mid, rows) && {
        ||| exists|rend: R| #[trigger] mid.step(&rend, Err(e))
        ||| exists|rend: R, row: Row| #[trigger] mid.step(&rend, Ok(Some(row))) && row@.len() <= rkey
        ||| rows.len() == PULL_BUDGET
    }
}

/// Inner equi-join: materializes the right (build) input, probes with the
/// left. NULL keys never match.
pub struct HashJoin<L> {
    pub left: L,
    pub build: Vec<Row>,
    pub rkey: usize,
    /// Joined rows still to emit, last first.
    pub pending: Vec<Row>,
    pub lkey: usize,
    pub lcols: usize,
}

impl<L: Operator> HashJoin<L> {
    /// The probe operator.
    pub open spec fn probe(&self) -> L {
        self.left
    }

    /// The build rows.
    pub open spec fn build_rows(&self) -> Seq<Row> {
        self.build@
    }

    /// Joined rows still to emit, in order.
    pub open spec fn pending_rows(&self) -> Seq<Seq<SqlValue>> {
        self.pending@.reverse().map_values(|r: Row| r@)
    }

    /// Key positions (probe, build).
    pub open spec fn keys(&self) -> (usize, usize) {
        (self.lkey, self.rkey)
    }

    /// Drain `right` into the build side, then probe with `left`. A right
    /// row without the key column is an error.
    #[verifier::spinoff_prover]
    pub fn new<R: Operator>(left: L, mut right: R, lkey: usize, rkey: usize, lcols: usize) -> (res: Result<Self, String>)
        requires
            right.op_inv(),
            left.op_inv(),
        ensures
            match res {
                Ok(j) => {
                    &&& j.probe() == left
                    &&& j.keys() == (lkey, rkey)
                    &&& j.pending_rows().len() == 0
                    &&& j.op_inv()
                    &&& exists|rows: Seq<Row>, rend: R| #[trigger] drains(right, rend, rows, Ok(None))
                        && (forall|i: int| 0 <= i < rows.len() ==> rkey < (#[trigger] rows[i])@.len())
                        && j.build_rows() == build_side(rows, rkey)
                },
                Err(x) => build_failed(right, rkey, x),
            },
    {
        let ghost start = right;
        let ghost mut seen: Seq<Row> = Seq::empty();
        proof { lemma_runs_empty(start); }
        let mut build: Vec<Row> = Vec::new();
        let mut pulled: u64 = 0;
        #[verifier::loop_isolation(false)]
        loop
            invariant
                right.op_inv(),
                pulled as nat == seen.len(),
                runs(start, right, seen),
                forall|i: int| 0 <= i < seen.len() ==> rkey < (#[trigger] seen[i])@.len(),
                forall|i: int| 0 <= i < build@.len() ==> rkey < (#[trigger] build@[i])@.len(),
                build@ == build_side(seen, rkey),
                left.op_inv(),
            decreases PULL_BUDGET - pulled,
        {
            if pulled == PULL_BUDGET {
                assert(seen.len() == PULL_BUDGET);
                assert(runs(start, right, seen));
                assert(exists|rows: Seq<Row>, m: R| #[trigger] runs(start, m, rows) && {
                    ||| exists|rend: R, row: Row| #[trigger] m.step(&rend, Ok(Some(row))) && row@.len() <= rkey
                    ||| rows.len() == PULL_BUDGET
                });
                let m = msg("pull budget exhausted while building a join");
                assert(build_failed(start, rkey, m));
                return Err(m);
            }
            let ghost mid = right;
            let cr = right.next();
            assert(runs(start, mid, seen));
            match cr {
                Err(e) => {
                    assert(mid.step(&right, Err(e)));
                    assert(exists|rend: R| #[trigger] mid.step(&rend, Err(e)));
                    assert(exists|rows: Seq<Row>, m: R| #[trigger] runs(start, m, rows) && {
                        ||| exists|rend: R| #[trigger] m.step(&rend, Err(e))
                        ||| exists|rend: R, row: Row| #[trigger] m.step(&rend, Ok(Some(row))) && row@.len() <= rkey
                        ||| rows.len() == PULL_BUDGET
                    });
                    assert(build_failed(start, rkey, e));
                    return Err(e);
                },
                Ok(None) => {
                    assert(mid.step(&right, Ok(None)));
                    assert(drains(start, right, seen, Ok(None)));
                    let j = HashJoin { left, build, rkey, pending: Vec::new(), lkey, lcols };
                    assert(j.pending_rows() =~= Seq::empty());
                    assert(j.build_rows() == build_side(seen, rkey));
                    assert(j.op_inv());
                    assert(exists|rows: Seq<Row>, rend: R| #[trigger] drains(start, rend, rows, Ok(None))
                        && (forall|i: int| 0 <= i < rows.len() ==> rkey < (#[trigger] rows[i])@.len())
                        && j.build_rows() == build_side(rows, rkey));
                    return Ok(j);
                },
                Ok(Some(r)) => {
                    if rkey >= r.len() {
                        assert(mid.step(&right, Ok(Some(r))));
                        assert(exists|rend: R, row: Row| #[trigger] mid.step(&rend, Ok(Some(row))) && row@.len() <= rkey);
                        assert(exists|rows: Seq<Row>, m: R| #[trigger] runs(start, m, rows) && {
                            ||| exists|rend: R, row: Row| #[trigger] m.step(&rend, Ok(Some(row))) && row@.len() <= rkey
                            ||| rows.len() == PULL_BUDGET
                        });
                        let m = msg("join key column out of range");
                        assert(build_failed(start, rkey, m));
                        return Err(m);
                    }
                    proof {
                        lemma_runs_extend(start, mid, right, seen, r);
                        let s2 = seen.push(r);
                        assert(s2.drop_last() == seen);
                        assert(build_side(s2, rkey) == if !(r@[rkey as int] is Null) {
                            build_side(seen, rkey).push(r)
                        } else {
                            build_side(seen, rkey)
                        }) by {
                            reveal_with_fuel(Seq::filter, 1);
                            assert(s2.last() == r);
                        }
                        seen = s2;
                    }
                    if !is_null_value(&r[rkey]) {
                        build.push(r);
                    }
                    assert(forall|i: int| 0 <= i < build@.len() ==> rkey < (#[trigger] build@[i])@.len());
                    pulled = pulled + 1;
                },
            }
        }
    }
}

/// What the join returns after its probe input's call ended with `cr`.
pub open spec fn join_outcome(
    lkey: usize,
    build: Seq<Row>,
    rkey: usize,
    cr: Result<Option<Row>, String>,
    r: Result<Option<Row>, String>,
    pending_after: Seq<Seq<SqlValue>>,
) -> bool {
    match cr {
        Err(e) => r == Err::<Option<Row>, String>(e) && pending_after.len() == 0,
        Ok(None) => r == Ok::<Option<Row>, String>(None) && pending_after.len() == 0,
        Ok(Some(lrow)) => if lkey >= lrow@.len() {
            r is Err && pending_after.len() == 0
        } else {
            let outs = join_output(lrow@, lkey, build, rkey);
            &&& outs.len() > 0
            &&& r matches Ok(Some(out)) && out@ == outs[0]
            &&& pending_after == outs.drop_first()
        },
    }
}

impl<L: Operator> Operator for HashJoin<L> {
    open spec fn op_inv(&self) -> bool {
        &&& self.left.op_inv()
        &&& forall|i: int| 0 <= i < self.build@.len() ==> self.rkey < (#[trigger] self.build@[i])@.len()
    }

    /// Pending joined rows are emitted first; otherwise probe rows are
    /// pulled until one yields output (its first joined row is returned,
    /// the rest become pending), the probe input ends, or an error occurs.
    open spec fn step(&self, after: &Self, r: Result<Option<Row>, String>) -> bool {
        &&& after.build == self.build
        &&& after.lkey == self.lkey
        &&& after.rkey == self.rkey
        &&& if self.pending@.len() > 0 {
            &&& r == Ok::<Option<Row>, String>(Some(self.pending@.last()))
            &&& after.pending@ == self.pending@.drop_last()
            &&& after.left == self.left
        } else {
            exists|skipped: Seq<Row>, mid: L| #![trigger runs(self.left, mid, skipped)]
                runs(self.left, mid, skipped)
                && (forall|i: int| 0 <= i < skipped.len() ==>
                    probe_silent((#[trigger] skipped[i])@, self.lkey, self.build@, self.rkey))
                && {
                    ||| exists|cr: Result<Option<Row>, String>| #[trigger] mid.step(&after.left, cr)
                        && join_outcome(self.lkey, self.build@, self.rkey, cr, r, after.pending_rows())
                    ||| skipped.len() == PULL_BUDGET && after.left == mid && r is Err
                        && after.pending@.len() == 0
                }
        }
    }

    #[verifier::rlimit(30)]
    fn next(&mut self) -> (r: Result<Option<Row>, String>) {
        if self.pending.len() > 0 {
            let r = self.pending.pop();
            return Ok(r);
        }
        let ghost start = self.left;
        let ghost mut skipped: Seq<Row> = Seq::empty();
        proof { lemma_runs_empty(start); }
        let mut pulled: u64 = 0;
        loop
            invariant
                pulled as nat == skipped.len(),
                self.left.op_inv(),
                self.build == old(self).build,
                self.lkey == old(self).lkey,
                self.rkey == old(self).rkey,
                self.pending@.len() == 0,
                forall|i: int| 0 <= i < self.build@.len() ==> self.rkey < (#[trigger] self.build@[i])@.len(),
                start == old(self).left,
                old(self).pending@.len() == 0,
                runs(start, self.left, skipped),
                forall|i: int| 0 <= i < skipped.len() ==>
                    probe_silent((#[trigger] skipped[i])@, self.lkey, self.build@, self.rkey),
            decreases PULL_BUDGET - pulled,
        {
            if pulled == PULL_BUDGET {
                return Err(msg("pull budget exhausted while probing a join"));
            }
            let ghost mid = self.left;
            let cr = self.left.next();
            assert(runs(start, mid, skipped) && mid.step(&self.left, cr));
            match cr {
                Err(e) => {
                    assert(self.pending_rows() =~= Seq::empty());
                    return Err(e);
                },
                Ok(None) => {
                    assert(self.pending_rows() =~= Seq::empty());
                    return Ok(None);
                },
                Ok(Some(lrow)) => {
                    if self.lkey >= lrow.len() {
                        assert(self.pending_rows() =~= Seq::empty());
                        return Err(msg("join key column out of range"));
                    }
                    let outs = self.probe_one(&lrow);
                    if outs.len() > 0 {
                        let mut outs = outs;
                        let ghost all = outs@.map_values(|x: Row| x@);
                        // queue the rest, last first
                        let mut queue: Vec<Row> = Vec::with_capacity(outs.len());
                        while outs.len() > 1
                            invariant
                                outs@.len() >= 1,
                                all == (outs@ + queue@.reverse()).map_values(|x: Row| x@),
                            decreases outs@.len(),
                        {
                            let ghost before_outs = outs@;
                            let ghost before_q = queue@;
                            let x = outs.pop().unwrap();
                            queue.push(x);
                            assert(queue@.reverse() =~= seq![x] + before_q.reverse());
                            assert(outs@ + queue@.reverse() =~= before_outs + before_q.reverse());
                        }
                        let first = outs.pop().unwrap();
                        self.pending = queue;
                        proof {
                            assert(outs@.len() == 0);
                            let full = seq![first] + self.pending@.reverse();
                            assert(all =~= full.map_values(|x: Row| x@));
                            assert(self.pending_rows() =~= all.drop_first());
                            assert(first@ == all[0]);
                            assert(join_outcome(self.lkey, self.build@, self.rkey, cr,
                                Ok(Some(first)), self.pending_rows()));
                            assert(mid.step(&self.left, cr));
                            assert(exists|cr2: Result<Option<Row>, String>| #[trigger] mid.step(&self.left, cr2)
                                && join_outcome(self.lkey, self.build@, self.rkey, cr2, Ok(Some(first)), self.pending_rows()));
                            assert(runs(start, mid, skipped));
                        }
                        return Ok(Some(first));
                    }
                    proof {
                        lemma_runs_extend(start, mid, self.left, skipped, lrow);
                        let s2 = skipped.push(lrow);
                        assert forall|i: int| 0 <= i < s2.len() implies
                            probe_silent((#[trigger] s2[i])@, self.lkey, self.build@, self.rkey) by {
                            if i < skipped.len() {
                                assert(s2[i] == skipped[i]);
                            }
                        }
                        skipped = s2;
                    }
                    pulled = pulled + 1;
                },
            }
        }
    }
}

impl<L: Operator> HashJoin<L> {
    /// The joined rows for one probe row (which has the key column).
    fn probe_one(&self, lrow: &Row) -> (outs: Vec<Row>)
        requires
            self.lkey < lrow@.len(),
            forall|i: int| 0 <= i < self.build@.len() ==> self.rkey < (#[trigger] self.build@[i])@.len(),
        ensures
            outs@.map_values(|x: Row| x@) == join_output(lrow@, self.lkey, self.build@, self.rkey),
    {
        join_probe(&self.build, self.rkey, self.lkey, lrow)
    }
}

/// The joined rows for one probe row (which has the key column) against
/// build rows that all have theirs.
pub(crate) fn join_probe(build: &Vec<Row>, rkey: usize, lkey: usize, lrow: &Row) -> (outs: Vec<Row>)
    requires
        lkey < lrow@.len(),
        forall|i: int| 0 <= i < build@.len() ==> rkey < (#[trigger] build@[i])@.len(),
    ensures
        outs@.map_values(|x: Row| x@) == join_output(lrow@, lkey, build@, rkey),
{
    let mut outs: Vec<Row> = Vec::new();
    let key = &lrow[lkey];
    if is_null_value(key) {
        assert(outs@.map_values(|x: Row| x@) =~= Seq::<Seq<SqlValue>>::empty());
        return outs;
    }
    let ghost pred = |b: Row| b@[rkey as int].deep_view() == key.deep_view();
    let mut i: usize = 0;
    while i < build.len()
        invariant
            i <= build@.len(),
            lkey < lrow@.len(),
            *key == lrow@[lkey as int],
            forall|q: int| 0 <= q < build@.len() ==> rkey < (#[trigger] build@[q])@.len(),
            pred == (|b: Row| b@[rkey as int].deep_view() == key.deep_view()),
            outs@.map_values(|x: Row| x@) == build@.take(i as int).filter(pred).map_values(|b: Row| lrow@ + b@),
        decreases build@.len() - i,
    {
        let b = &build[i];
        proof {
            reveal_with_fuel(Seq::filter, 1);
            assert(build@.take(i + 1).drop_last() =~= build@.take(i as int));
            assert(build@.take(i + 1).last() == *b);
        }
        if value_eq(&b[rkey], key) {
            let mut joined = clone_row(lrow.as_slice());
            let mut k: usize = 0;
            let ghost base = joined@;
            while k < b.len()
                invariant
                    k <= b@.len(),
                    base == lrow@,
                    joined@ == base + b@.take(k as int),
                decreases b@.len() - k,
            {
                joined.push(clone_value(&b[k]));
                assert(b@.take(k + 1) == b@.take(k as int).push(b@[k as int]));
                k = k + 1;
            }
            assert(b@.take(b@.len() as int) == b@);
            let ghost before = outs@;
            outs.push(joined);
            assert(outs@.map_values(|x: Row| x@) =~= before.map_values(|x: Row| x@).push(lrow@ + b@));
        }
        i = i + 1;
    }
    assert(build@.take(build@.len() as int) == build@);
    outs
}

} // verus!

verus! {

// ── aggregates ────────────────────────────────────────────────────────

/// Aggregate functions.
#[derive(Debug, Clone, Copy, PartialEq, Eq, Structural)]
pub enum AggFn {
    Count,
    Sum,
    Avg,
    Min,
    Max,
}

/// The values an aggregate looks at: for `None` (COUNT(*)-style) the group
/// size as a single integer, else the non-NULL values of the column.
pub open spec fn agg_inputs(bucket: Seq<Seq<SqlValue>>, col: Option<usize>) -> Seq<SqlValue> {
    match col {
        None => seq![SqlValue::Int(bucket.len() as i64)],
        Some(i) => bucket.map_values(|r: Seq<SqlValue>| r[i as int]).filter(|v: SqlValue| !(v is Null)),
    }
}

/// Sum of integer values; `None` when a value is not an integer.
pub open spec fn int_sum(vals: Seq<SqlValue>) -> Option<int>
    decreases vals.len(),
{
    if vals.len() == 0 {
        Some(0)
    } else {
        match (int_sum(vals.drop_last()), vals.last()) {
            (Some(s), SqlValue::Int(i)) => Some(s + i),
            _ => None,
        }
    }
}

/// Number of integer values.
pub open spec fn int_count(vals: Seq<SqlValue>) -> nat {
    vals.filter(|v: SqlValue| v is Int).len()
}

/// Sum of the integer values, ignoring others.
pub open spec fn int_total(vals: Seq<SqlValue>) -> int
    decreases vals.len(),
{
    if vals.len() == 0 {
        0
    } else {
        int_total(vals.drop_last()) + match vals.last() {
            SqlValue::Int(i) => i as int,
            _ => 0,
        }
    }
}

/// Integer division rounding toward zero (as Rust's `/`), for `b > 0`.
pub open spec fn div_toward_zero(a: int, b: int) -> int {
    if a >= 0 { a / b } else { -((-a) / b) }
}

/// `v` replaces the current best `b` in a MIN (`want_min`) or MAX fold:
/// only values of the same type are compared.
pub open spec fn replaces(v: SqlValue, b: SqlValue, want_min: bool) -> bool {
    match crate::order::sql_order(b.deep_view(), v.deep_view()) {
        Some(o) => if want_min { o == crate::order::ValueOrder::Greater } else { o == crate::order::ValueOrder::Less },
        None => false,
    }
}

/// Result of a MIN/MAX fold over `vals`, `None` when empty.
pub open spec fn best_of(vals: Seq<SqlValue>, want_min: bool) -> Option<SqlValue>
    decreases vals.len(),
{
    if vals.len() == 0 {
        None
    } else {
        match best_of(vals.drop_last(), want_min) {
            None => Some(vals.last()),
            Some(b) => if replaces(vals.last(), b, want_min) { Some(vals.last()) } else { Some(b) },
        }
    }
}

/// One aggregate over a group; `None` stands for an error.
pub open spec fn agg_value(f: AggFn, col: Option<usize>, bucket: Seq<Seq<SqlValue>>) -> Option<SqlValue> {
    let vals = agg_inputs(bucket, col);
    if col matches Some(i) && exists|k: int| 0 <= k < bucket.len() && (#[trigger] bucket[k]).len() <= i {
        None
    } else {
    match f {
        AggFn::Count => Some(SqlValue::Int((if col is None { bucket.len() } else { vals.len() }) as i64)),
        AggFn::Sum => match int_sum(vals) {
            Some(s) => if i64::MIN <= s <= i64::MAX { Some(SqlValue::Int(s as i64)) } else { None },
            None => None,
        },
        AggFn::Avg => if int_count(vals) == 0 {
            Some(SqlValue::Null)
        } else {
            Some(SqlValue::Int(div_toward_zero(int_total(vals), int_count(vals) as int) as i64))
        },
        AggFn::Min => Some(match best_of(vals, true) { Some(b) => b, None => SqlValue::Null }),
        AggFn::Max => Some(match best_of(vals, false) { Some(b) => b, None => SqlValue::Null }),
    }
    }
}

/// All aggregates over a group; `None` when one of them fails.
pub open spec fn agg_row(aggs: Seq<(AggFn, Option<usize>)>, bucket: Seq<Seq<SqlValue>>) -> Option<Seq<SqlValue>>
    decreases aggs.len(),
{
    if aggs.len() == 0 {
        Some(Seq::empty())
    } else {
        match (agg_row(aggs.drop_last(), bucket), agg_value(aggs.last().0, aggs.last().1, bucket)) {
            (Some(vs), Some(v)) => Some(vs.push(v)),
            _ => None,
        }
    }
}

} // verus!

verus! {

/// The inputs of one aggregate over a group.
fn collect_agg_inputs(bucket: &Vec<Row>, col: Option<usize>) -> (vals: Vec<SqlValue>)
    requires
        col matches Some(i) ==> forall|k: int| 0 <= k < bucket@.len() ==> i < (#[trigger] bucket@[k])@.len(),
    ensures
        vals@ == agg_inputs(rows_of_vecs(bucket@), col),
{
    let ghost bv = rows_of_vecs(bucket@);
    match col {
        None => {
            let mut v: Vec<SqlValue> = Vec::new();
            v.push(SqlValue::Int(#[verifier::truncate] (bucket.len() as i64)));
            assert(v@ =~= agg_inputs(bv, col));
            v
        },
        Some(i) => {
            let mut v: Vec<SqlValue> = Vec::new();
            let ghost f = |r: Seq<SqlValue>| r[i as int];
            let ghost p = |x: SqlValue| !(x is Null);
            let mut k: usize = 0;
            while k < bucket.len()
                invariant
                    k <= bucket@.len(),
                    bv == rows_of_vecs(bucket@),
                    forall|q: int| 0 <= q < bucket@.len() ==> i < (#[trigger] bucket@[q])@.len(),
                    f == (|r: Seq<SqlValue>| r[i as int]),
                    p == (|x: SqlValue| !(x is Null)),
                    v@ == bv.take(k as int).map_values(f).filter(p),
                decreases bucket@.len() - k,
            {
                proof {
                    reveal_with_fuel(Seq::filter, 1);
                    assert(bv.take(k + 1).map_values(f).drop_last() =~= bv.take(k as int).map_values(f));
                    assert(bv.take(k + 1).map_values(f).last() == bucket@[k as int]@[i as int]);
                }
                let x = &bucket[k][i];
                if !is_null_value(x) {
                    v.push(clone_value(x));
                }
                k = k + 1;
            }
            assert(bv.take(bucket@.len() as int) =~= bv);
            v
        },
    }
}

/// Views of a vector of rows.
pub open spec fn rows_of_vecs(rows: Seq<Row>) -> Seq<Seq<SqlValue>> {
    rows.map_values(|r: Row| r@)
}

proof fn lemma_int_sum_none(vals: Seq<SqlValue>, k: int)
    requires
        0 <= k <= vals.len(),
        int_sum(vals.take(k)) is None,
    ensures
        int_sum(vals) is None,
    decreases vals.len() - k,
{
    if k < vals.len() {
        assert(vals.take(k + 1).drop_last() =~= vals.take(k));
        lemma_int_sum_none(vals, k + 1);
    } else {
        assert(vals.take(k) =~= vals);
    }
}

proof fn lemma_int_sum_bounds(vals: Seq<SqlValue>)
    ensures
        int_sum(vals) matches Some(s) ==> -(vals.len() * 0x8000_0000_0000_0000) <= s <= vals.len() * 0x7fff_ffff_ffff_ffff,
    decreases vals.len(),
{
    if vals.len() > 0 {
        lemma_int_sum_bounds(vals.drop_last());
    }
}

proof fn lemma_int_total_bounds(vals: Seq<SqlValue>)
    ensures
        -(int_count(vals) * 0x8000_0000_0000_0000) <= int_total(vals) <= int_count(vals) * 0x7fff_ffff_ffff_ffff,
    decreases vals.len(),
{
    if vals.len() > 0 {
        lemma_int_total_bounds(vals.drop_last());
        reveal_with_fuel(Seq::filter, 1);
        assert(vals.filter(|v: SqlValue| v is Int) == if vals.last() is Int {
            vals.drop_last().filter(|v: SqlValue| v is Int).push(vals.last())
        } else {
            vals.drop_last().filter(|v: SqlValue| v is Int)
        });
    } else {
        assert(vals.filter(|v: SqlValue| v is Int) =~= Seq::<SqlValue>::empty());
    }
}

/// A total bounded by `c` 64-bit values, divided by `c`, is a 64-bit value.
pub proof fn lemma_quotient_bounds(t: int, c: int)
    requires
        c > 0,
        -(c * 0x8000_0000_0000_0000) <= t <= c * 0x7fff_ffff_ffff_ffff,
    ensures
        i64::MIN <= div_toward_zero(t, c) <= i64::MAX,
{
    if t >= 0 {
        assert(t / c <= 0x7fff_ffff_ffff_ffff) by (nonlinear_arith)
            requires t <= c * 0x7fff_ffff_ffff_ffff, c > 0, t >= 0;
        assert(t / c >= 0) by (nonlinear_arith) requires t >= 0, c > 0;
    } else {
        assert((-t) / c <= 0x8000_0000_0000_0000) by (nonlinear_arith)
            requires -t <= c * 0x8000_0000_0000_0000, c > 0, -t > 0;
        assert((-t) / c >= 0) by (nonlinear_arith) requires -t > 0, c > 0;
    }
}

/// One aggregate over a group.
pub fn eval_agg(f: AggFn, col: Option<usize>, bucket: &Vec<Row>) -> (r: Result<SqlValue, String>)
    ensures
        match r {
            Ok(v) => agg_value(f, col, rows_of_vecs(bucket@)) == Some(v),
            Err(_) => agg_value(f, col, rows_of_vecs(bucket@)) is None,
        },
{
    let ghost bv = rows_of_vecs(bucket@);
    match col {
        Some(i) => {
            let mut k: usize = 0;
            while k < bucket.len()
                invariant
                    k <= bucket@.len(),
                    bv == rows_of_vecs(bucket@),
                    col == Some(i),
                    forall|q: int| 0 <= q < k ==> i < (#[trigger] bucket@[q])@.len(),
                decreases bucket@.len() - k,
            {
                if bucket[k].len() <= i {
                    assert(bv[k as int].len() <= i);
                    return Err(msg("aggregate column out of range"));
                }
                k = k + 1;
            }
        },
        None => {},
    }
    assert(!(col matches Some(i) && exists|k: int| 0 <= k < bv.len() && (#[trigger] bv[k]).len() <= i)) by {
        if let Some(i) = col {
            assert forall|k: int| 0 <= k < bv.len() implies !((#[trigger] bv[k]).len() <= i) by {
                assert(bv[k] == bucket@[k]@);
            }
        }
    }
    let vals = collect_agg_inputs(bucket, col);
    match f {
        AggFn::Count => {
            let n = match col {
                None => bucket.len(),
                Some(_) => vals.len(),
            };
            Ok(SqlValue::Int(#[verifier::truncate] (n as i64)))
        },
        AggFn::Sum => {
            let mut acc: i128 = 0;
            let mut k: usize = 0;
            while k < vals.len()
                invariant
                    k <= vals@.len(),
                    int_sum(vals@.take(k as int)) == Some(acc as int),
                    vals@ == agg_inputs(rows_of_vecs(bucket@), col),
                    f == AggFn::Sum,
                    -(k * 0x8000_0000_0000_0000) <= acc <= k * 0x7fff_ffff_ffff_ffff,
                decreases vals@.len() - k,
            {
                assert(vals@.take(k + 1).drop_last() =~= vals@.take(k as int));
                assert(vals@.take(k + 1).last() == vals@[k as int]);
                match &vals[k] {
                    SqlValue::Int(i) => {
                        acc = acc + (*i as i128);
                    },
                    _ => {
                        proof {
                            assert(int_sum(vals@.take(k + 1)) is None);
                            lemma_int_sum_none(vals@, k + 1);
                        }
                        return Err(msg("SUM requires INTEGER"));
                    },
                }
                k = k + 1;
            }
            assert(vals@.take(vals@.len() as int) =~= vals@);
            if acc < (i64::MIN as i128) || acc > (i64::MAX as i128) {
                return Err(msg("integer overflow in SUM"));
            }
            Ok(SqlValue::Int(acc as i64))
        },
        AggFn::Avg => {
            let mut total: i128 = 0;
            let mut count: i128 = 0;
            let mut k: usize = 0;
            while k < vals.len()
                invariant
                    k <= vals@.len(),
                    int_total(vals@.take(k as int)) == total as int,
                    int_count(vals@.take(k as int)) == count as int,
                    count <= k,
                decreases vals@.len() - k,
            {
                proof {
                    assert(vals@.take(k + 1).drop_last() =~= vals@.take(k as int));
                    assert(vals@.take(k + 1).last() == vals@[k as int]);
                    lemma_int_total_bounds(vals@.take(k as int));
                    reveal_with_fuel(Seq::filter, 1);
                }
                match &vals[k] {
                    SqlValue::Int(i) => {
                        total = total + (*i as i128);
                        count = count + 1;
                    },
                    _ => {},
                }
                k = k + 1;
            }
            assert(vals@.take(vals@.len() as int) =~= vals@);
            if count == 0 {
                return Ok(SqlValue::Null);
            }
            proof {
                lemma_int_total_bounds(vals@);
                lemma_quotient_bounds(total as int, count as int);
            }
            let q: i128 = if total >= 0 { total / count } else { -((-total) / count) };
            Ok(SqlValue::Int(q as i64))
        },
        AggFn::Min | AggFn::Max => {
            let want_min = match f {
                AggFn::Min => true,
                _ => false,
            };
            let mut best: Option<SqlValue> = None;
            let mut k: usize = 0;
            while k < vals.len()
                invariant
                    k <= vals@.len(),
                    want_min == (f == AggFn::Min),
                    best == best_of(vals@.take(k as int), want_min),
                decreases vals@.len() - k,
            {
                assert(vals@.take(k + 1).drop_last() =~= vals@.take(k as int));
                assert(vals@.take(k + 1).last() == vals@[k as int]);
                let v = &vals[k];
                let replace = match &best {
                    None => true,
                    Some(b) => match crate::order::compare_same_type(b, v) {
                        Some(o) => if want_min {
                            o == crate::order::ValueOrder::Greater
                        } else {
                            o == crate::order::ValueOrder::Less
                        },
                        None => false,
                    },
                };
                if replace {
                    best = Some(clone_value(v));
                }
                k = k + 1;
            }
            assert(vals@.take(vals@.len() as int) =~= vals@);
            match best {
                Some(b) => Ok(b),
                None => Ok(SqlValue::Null),
            }
        },
    }
}

/// All aggregates over a group, in order.
pub fn eval_aggs(aggs: &Vec<(AggFn, Option<usize>)>, bucket: &Vec<Row>) -> (r: Result<Row, String>)
    ensures
        match r {
            Ok(out) => agg_row(aggs@, rows_of_vecs(bucket@)) == Some(out@),
            Err(_) => agg_row(aggs@, rows_of_vecs(bucket@)) is None,
        },
{
    let mut out: Row = Vec::with_capacity(aggs.len());
    let mut a: usize = 0;
    let ghost bv = rows_of_vecs(bucket@);
    while a < aggs.len()
        invariant
            a <= aggs@.len(),
            bv == rows_of_vecs(bucket@),
            agg_row(aggs@.take(a as int), bv) == Some(out@),
        decreases aggs@.len() - a,
    {
        let (f, col) = aggs[a];
        assert(aggs@.take(a + 1).drop_last() =~= aggs@.take(a as int));
        assert(aggs@.take(a + 1).last() == aggs@[a as int]);
        match eval_agg(f, col, bucket) {
            Ok(v) => {
                out.push(v);
            },
            Err(e) => {
                proof {
                    lemma_agg_row_fails(aggs@, a as int, bv);
                }
                return Err(e);
            },
        }
        a = a + 1;
    }
    assert(aggs@.take(aggs@.len() as int) =~= aggs@);
    Ok(out)
}

proof fn lemma_agg_row_fails(aggs: Seq<(AggFn, Option<usize>)>, a: int, bucket: Seq<Seq<SqlValue>>)
    requires
        0 <= a < aggs.len(),
        agg_value(aggs[a].0, aggs[a].1, bucket) is None,
    ensures
        agg_row(aggs, bucket) is None,
    decreases aggs.len(),
{
    if a < aggs.len() - 1 {
        lemma_agg_row_fails(aggs.drop_last(), a, bucket);
    }
}

} // verus!

verus! {

// ── grouping ──────────────────────────────────────────────────────────

/// A group: its key and its rows (in input order).
pub type Group = (Row, Vec<Row>);

/// Model of a group.
pub type GroupV = (Seq<SqlValue>, Seq<Seq<SqlValue>>);

/// Models of groups.
pub open spec fn groups_view(gs: Seq<Group>) -> Seq<GroupV> {
    gs.map_values(|g: Group| (g.0@, rows_of_vecs(g.1@)))
}

/// Deep view of a value sequence.
pub open spec fn deep_values(s: Seq<SqlValue>) -> Seq<ValueV> {
    s.map_values(|v: SqlValue| v.deep_view())
}

/// The group key of a row: its values at positions `idx`.
pub open spec fn key_of(row: Seq<SqlValue>, idx: Seq<usize>) -> Seq<SqlValue> {
    Seq::new(idx.len(), |j: int| row[idx[j] as int])
}

/// `p` is where a key stops being greater than the group keys scanned
/// from the front: every earlier key is smaller, the key at `p` is not.
pub open spec fn is_scan_pos(gs: Seq<GroupV>, key: Seq<SqlValue>, p: int) -> bool {
    &&& 0 <= p <= gs.len()
    &&& forall|j: int| 0 <= j < p ==> crate::order::values_order(deep_values(#[trigger] gs[j].0), deep_values(key))
        == crate::order::ValueOrder::Less
    &&& p < gs.len() ==> crate::order::values_order(deep_values(gs[p].0), deep_values(key))
        != crate::order::ValueOrder::Less
}

/// The scan position of `key` among the groups.
pub open spec fn scan_pos(gs: Seq<GroupV>, key: Seq<SqlValue>) -> int {
    choose|p: int| is_scan_pos(gs, key, p)
}

/// A position that satisfies [`is_scan_pos`] is the scan position.
pub proof fn lemma_scan_pos_unique(gs: Seq<GroupV>, key: Seq<SqlValue>, p: int)
    requires
        is_scan_pos(gs, key, p),
    ensures
        scan_pos(gs, key) == p,
{
    let q = scan_pos(gs, key);
    assert(is_scan_pos(gs, key, q));
    if q < p {
        assert(crate::order::values_order(deep_values(gs[q].0), deep_values(key)) == crate::order::ValueOrder::Less);
    } else if p < q {
        assert(crate::order::values_order(deep_values(gs[p].0), deep_values(key)) == crate::order::ValueOrder::Less);
    }
}

/// Add one row to ordered groups: into the group with an equal key, else as
/// a new group at its scan position.
pub open spec fn group_insert(gs: Seq<GroupV>, key: Seq<SqlValue>, row: Seq<SqlValue>) -> Seq<GroupV> {
    let p = scan_pos(gs, key);
    if p < gs.len() && crate::order::values_order(deep_values(gs[p].0), deep_values(key))
        == crate::order::ValueOrder::Equal {
        gs.update(p, (gs[p].0, gs[p].1.push(row)))
    } else {
        gs.insert(p, (key, seq![row]))
    }
}

/// Groups of `rows` by the key positions `idx`, in ascending key order.
pub open spec fn group_rows(rows: Seq<Seq<SqlValue>>, idx: Seq<usize>) -> Seq<GroupV>
    decreases rows.len(),
{
    if rows.len() == 0 {
        Seq::empty()
    } else {
        group_insert(group_rows(rows.drop_last(), idx), key_of(rows.last(), idx), rows.last())
    }
}

/// Every position of `idx` is a column of `row`.
pub open spec fn has_cols(row: Seq<SqlValue>, idx: Seq<usize>) -> bool {
    forall|j: int| 0 <= j < idx.len() ==> #[trigger] idx[j] < row.len()
}

/// Insert `row` (with key `key`) into ordered groups.
fn insert_into_groups(groups: &mut Vec<Group>, key: Row, row: Row)
    ensures
        groups_view(final(groups)@) == group_insert(groups_view(old(groups)@), key@, row@),
{
    let ghost gv = groups_view(groups@);
    let mut p: usize = 0;
    while p < groups.len() && matches!(crate::order::compare_rows(groups[p].0.as_slice(), key.as_slice()), crate::order::ValueOrder::Less)
        invariant
            p <= groups@.len(),
            gv == groups_view(groups@),
            forall|j: int| 0 <= j < p ==> crate::order::values_order(deep_values(#[trigger] gv[j].0), deep_values(key@))
                == crate::order::ValueOrder::Less,
        decreases groups@.len() - p,
    {
        proof {
            assert(gv[p as int].0 == groups@[p as int].0@);
            assert(groups@[p as int].0.deep_view() =~= deep_values(gv[p as int].0));
            assert(key.deep_view() =~= deep_values(key@));
        }
        p = p + 1;
    }
    proof {
        if p < groups@.len() {
            assert(gv[p as int].0 == groups@[p as int].0@);
            assert(groups@[p as int].0.deep_view() =~= deep_values(gv[p as int].0));
            assert(key.deep_view() =~= deep_values(key@));
        }
        lemma_scan_pos_unique(gv, key@, p as int);
    }
    let equal = p < groups.len() && matches!(crate::order::compare_rows(groups[p].0.as_slice(), key.as_slice()), crate::order::ValueOrder::Equal);
    if equal {
        let mut g: Group = (Vec::new(), Vec::new());
        std::mem::swap(&mut g, &mut groups[p]);
        let ghost old_bucket = g.1@;
        g.1.push(row);
        assert(rows_of_vecs(g.1@) =~= rows_of_vecs(old_bucket).push(row@));
        groups.set(p, g);
        assert(groups_view(groups@) =~= gv.update(p as int, (gv[p as int].0, gv[p as int].1.push(row@))));
    } else {
        let mut bucket: Vec<Row> = Vec::new();
        bucket.push(row);
        assert(rows_of_vecs(bucket@) =~= seq![row@]);
        groups.insert(p, (key, bucket));
        assert(groups_view(groups@) =~= gv.insert(p as int, (key@, seq![row@])));
    }
}

/// Ordered groups of rows by key positions; a row lacking a key column is
/// an error.
pub fn group_rows_exec(rows: &Vec<Row>, idx: &Vec<usize>) -> (r: Result<Vec<Group>, String>)
    ensures
        match r {
            Ok(gs) => (forall|k: int| 0 <= k < rows@.len() ==> has_cols(#[trigger] rows@[k]@, idx@))
                && groups_view(gs@) == group_rows(rows_of_vecs(rows@), idx@),
            Err(_) => exists|k: int| 0 <= k < rows@.len() && !has_cols(#[trigger] rows@[k]@, idx@),
        },
{
    let mut groups: Vec<Group> = Vec::new();
    let mut i: usize = 0;
    let ghost rv = rows_of_vecs(rows@);
    while i < rows.len()
        invariant
            i <= rows@.len(),
            rv == rows_of_vecs(rows@),
            forall|k: int| 0 <= k < i ==> has_cols(#[trigger] rows@[k]@, idx@),
            groups_view(groups@) == group_rows(rv.take(i as int), idx@),
        decreases rows@.len() - i,
    {
        let row = &rows[i];
        let key = match project_values(row.as_slice(), idx.as_slice()) {
            Ok(k) => k,
            Err(e) => {
                return Err(e);
            },
        };
        assert(key@ =~= key_of(row@, idx@));
        assert(rv.take(i + 1).drop_last() =~= rv.take(i as int));
        assert(rv.take(i + 1).last() == row@);
        insert_into_groups(&mut groups, key, clone_row(row.as_slice()));
        i = i + 1;
    }
    assert(rv.take(rows@.len() as int) =~= rv);
    Ok(groups)
}

} // verus!

verus! {

// ── HashAggregate ─────────────────────────────────────────────────────

/// GROUP BY + aggregates: materializes on the first call, then emits one row
/// per group (the key values followed by the aggregates) in ascending key
/// order.
pub struct HashAggregate<I> {
    pub input: I,
    pub group_idx: Vec<usize>,
    pub aggs: Vec<(AggFn, Option<usize>)>,
    pub groups: Option<Vec<Group>>,
    pub next: usize,
}

/// Emitting group `n` of `gs`: the key followed by the aggregates, or the
/// end when all groups were emitted; `n2` is the next group to emit.
pub open spec fn emit_group(
    gs: Seq<GroupV>,
    n: nat,
    aggs: Seq<(AggFn, Option<usize>)>,
    r: Result<Option<Row>, String>,
    n2: nat,
) -> bool {
    if n >= gs.len() {
        r == Ok::<Option<Row>, String>(None) && n2 == n
    } else {
        &&& n2 == n + 1
        &&& match agg_row(aggs, gs[n as int].1) {
            Some(vals) => r matches Ok(Some(out)) && out@ == gs[n as int].0 + vals,
            None => r is Err,
        }
    }
}

impl<I: Operator> HashAggregate<I> {
    /// Aggregate `input` grouped by the positions `group_idx`.
    pub fn new(input: I, group_idx: Vec<usize>, aggs: Vec<(AggFn, Option<usize>)>) -> (r: Self)
        ensures
            input.op_inv() ==> r.op_inv(),
            r.child() == input,
            r.key_positions() == group_idx@,
            r.aggregates() == aggs@,
            r.materialized() is None,
    {
        HashAggregate { input, group_idx, aggs, groups: None, next: 0 }
    }

    /// The input operator.
    pub open spec fn child(&self) -> I {
        self.input
    }

    /// Group key positions.
    pub open spec fn key_positions(&self) -> Seq<usize> {
        self.group_idx@
    }

    /// Aggregate descriptors.
    pub open spec fn aggregates(&self) -> Seq<(AggFn, Option<usize>)> {
        self.aggs@
    }

    /// The groups, once materialized.
    pub open spec fn materialized(&self) -> Option<Seq<GroupV>> {
        match self.groups {
            Some(g) => Some(groups_view(g@)),
            None => None,
        }
    }

    fn emit(&mut self) -> (r: Result<Option<Row>, String>)
        requires
            old(self).groups is Some,
        ensures
            final(self).groups == old(self).groups,
            final(self).input == old(self).input,
            final(self).group_idx@ == old(self).group_idx@,
            final(self).aggs@ == old(self).aggs@,
            emit_group(old(self).materialized()->0, old(self).next as nat, old(self).aggs@, r, final(self).next as nat),
    {
        let n = self.next;
        match &self.groups {
            Some(gs) => {
                if n >= gs.len() {
                    return Ok(None);
                }
                self.next = n + 1;
                let g = &gs[n];
                assert(groups_view(gs@)[n as int] == (g.0@, rows_of_vecs(g.1@)));
                match eval_aggs(&self.aggs, &g.1) {
                    Ok(vals) => {
                        let mut out = clone_row(g.0.as_slice());
                        let mut k: usize = 0;
                        let ghost base = out@;
                        while k < vals.len()
                            invariant
                                k <= vals@.len(),
                                out@ == base + vals@.take(k as int),
                            decreases vals@.len() - k,
                        {
                            out.push(clone_value(&vals[k]));
                            assert(vals@.take(k + 1) == vals@.take(k as int).push(vals@[k as int]));
                            k = k + 1;
                        }
                        assert(vals@.take(vals@.len() as int) == vals@);
                        Ok(Some(out))
                    },
                    Err(e) => Err(e),
                }
            },
            None => Ok(None),
        }
    }
}

impl<I: Operator> Operator for HashAggregate<I> {
    open spec fn op_inv(&self) -> bool {
        self.input.op_inv()
    }

    /// The first call drains the input and groups its rows (an input error
    /// is returned and leaves nothing materialized; a row lacking a key
    /// column is an error); every call then emits the next group.
    open spec fn step(&self, after: &Self, r: Result<Option<Row>, String>) -> bool {
        &&& after.group_idx@ == self.group_idx@
        &&& after.aggs@ == self.aggs@
        &&& match self.materialized() {
            Some(gs) => {
                &&& after.input == self.input
                &&& after.materialized() == Some(gs)
                &&& emit_group(gs, self.next as nat, self.aggs@, r, after.next as nat)
            },
            None => exists|rows: Seq<Row>, mid: I| #![trigger runs(self.input, mid, rows)]
                runs(self.input, mid, rows) && {
                ||| exists|e: String| #[trigger] mid.step(&after.input, Err(e))
                        && r == Err::<Option<Row>, String>(e) && after.materialized() is None
                ||| {
                    &&& mid.step(&after.input, Ok(None))
                    &&& if forall|k: int| 0 <= k < rows.len() ==> has_cols(#[trigger] rows[k]@, self.group_idx@) {
                        let gs = group_rows(rows_of_vecs(rows), self.group_idx@);
                        &&& after.materialized() == Some(gs)
                        &&& emit_group(gs, 0, self.aggs@, r, after.next as nat)
                    } else {
                        r is Err && after.materialized() is None
                    }
                }
                ||| rows.len() == PULL_BUDGET && after.input == mid && r is Err && after.materialized() is None
            },
        }
    }

    fn next(&mut self) -> (r: Result<Option<Row>, String>) {
        if self.groups.is_some() {
            return self.emit();
        }
        let ghost start = self.input;
        let ghost mut seen: Seq<Row> = Seq::empty();
        proof { lemma_runs_empty(start); }
        let mut rows: Vec<Row> = Vec::new();
        let mut pulled: u64 = 0;
        loop
            invariant
                self.input.op_inv(),
                self.groups is None,
                self.group_idx@ == old(self).group_idx@,
                self.aggs@ == old(self).aggs@,
                old(self).groups is None,
                start == old(self).input,
                pulled as nat == seen.len(),
                rows@ == seen,
                runs(start, self.input, seen),
            decreases PULL_BUDGET - pulled,
        {
            if pulled == PULL_BUDGET {
                return Err(msg("pull budget exhausted while aggregating"));
            }
            let ghost mid = self.input;
            let cr = self.input.next();
            assert(runs(start, mid, seen) && mid.step(&self.input, cr));
            match cr {
                Err(e) => {
                    return Err(e);
                },
                Ok(None) => {
                    match group_rows_exec(&rows, &self.group_idx) {
                        Ok(gs) => {
                            self.groups = Some(gs);
                            self.next = 0;
                            return self.emit();
                        },
                        Err(e) => {
                            return Err(e);
                        },
                    }
                },
                Ok(Some(row)) => {
                    proof {
                        lemma_runs_extend(start, mid, self.input, seen, row);
                        seen = seen.push(row);
                    }
                    rows.push(row);
                    pulled = pulled + 1;
                },
            }
        }
    }
}

} // verus!

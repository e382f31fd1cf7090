//! Batch-to-batch operators: a pull pipeline where each call yields a
//! batch of up to `batch_size` rows.
use vstd::prelude::*;
use vstd::string::*;
use crate::batch::{batch_of_rows, rows_of, rows_to_batch, rows_view, uniform_width, Batch, BatchV,
    SelectionVector, DEFAULT_BATCH_SIZE, decodable_rows};
use crate::codec::{clone_row, clone_value, decode_row, is_null_value, ColumnDef, SqlValue, ValueV};
use crate::executor::{AggFn, Row, PULL_BUDGET};

verus! {

/// A pull-based batch producer.
pub trait BatchOperator {
    /// Internal consistency of the operator state.
    spec fn bop_inv(&self) -> bool;

    /// `s.bstep(t, n, r)`: one call `next_batch(n)` on state `s` may return
    /// `r` and leave the operator in state `t`.
    spec fn bstep(&self, after: &Self, batch_size: usize, r: Result<Option<Batch>, String>) -> bool;

    /// Pull the next batch of up to `batch_size` rows; `Ok(None)` when the
    /// input is exhausted.
    fn next_batch(&mut self, batch_size: usize) -> (r: Result<Option<Batch>, String>)
        requires
            old(self).bop_inv(),
        ensures
            final(self).bop_inv(),
            old(self).bstep(&*final(self), batch_size, r),
    ;
}

impl<T: BatchOperator> BatchOperator for Box<T> {
    open spec fn bop_inv(&self) -> bool {
        (**self).bop_inv()
    }

    open spec fn bstep(&self, after: &Self, batch_size: usize, r: Result<Option<Batch>, String>) -> bool {
        (**self).bstep(&**after, batch_size, r)
    }

    fn next_batch(&mut self, batch_size: usize) -> (r: Result<Option<Batch>, String>) {
        (**self).next_batch(batch_size)
    }
}

/// Default batch size.
pub fn default_batch_size() -> (r: usize)
    ensures
        r == DEFAULT_BATCH_SIZE,
{
    DEFAULT_BATCH_SIZE
}

/// `states[k].bstep(states[k + 1], n, Ok(Some(batches[k])))` for every `k`.
pub open spec fn btrace<I: BatchOperator>(states: Seq<I>, n: usize, batches: Seq<Batch>) -> bool {
    &&& states.len() == batches.len() + 1
    &&& forall|k: int| 0 <= k < batches.len() ==>
        #[trigger] states[k].bstep(&states[k + 1], n, Ok(Some(batches[k])))
}

/// `batches` is what successive calls `next_batch(n)` returned (each
/// `Ok(Some(..))`) while the operator went from `a` to `b`.
pub open spec fn bruns<I: BatchOperator>(a: I, b: I, n: usize, batches: Seq<Batch>) -> bool {
    exists|states: Seq<I>| #[trigger] btrace(states, n, batches) && states[0] == a && states.last() == b
}

/// A run of pulls extends by one more pull that returned a batch.
pub proof fn lemma_bruns_extend<I: BatchOperator>(a: I, mid: I, b: I, n: usize, batches: Seq<Batch>, x: Batch)
    requires
        bruns(a, mid, n, batches),
        mid.bstep(&b, n, Ok(Some(x))),
    ensures
        bruns(a, b, n, batches.push(x)),
{
    let states = choose|states: Seq<I>| #[trigger] btrace(states, n, batches) && states[0] == a && states.last() == mid;
    let st2 = states.push(b);
    let b2 = batches.push(x);
    assert forall|k: int| 0 <= k < b2.len() implies #[trigger] st2[k].bstep(&st2[k + 1], n, Ok(Some(b2[k]))) by {
        if k < batches.len() {
            assert(st2[k] == states[k] && st2[k + 1] == states[k + 1] && b2[k] == batches[k]);
        } else {
            assert(st2[k] == mid && st2[k + 1] == b && b2[k] == x);
        }
    }
    assert(btrace(st2, n, b2));
    assert(st2[0] == a && st2.last() == b);
}

/// No pull is a run from an operator to itself.
pub proof fn lemma_bruns_empty<I: BatchOperator>(a: I, n: usize)
    ensures
        bruns(a, a, n, Seq::empty()),
{
    let st = seq![a];
    assert(btrace(st, n, Seq::<Batch>::empty()));
    assert(st[0] == a && st.last() == a);
}

/// All logical rows of a sequence of batches, in order.
pub open spec fn rows_of_batches(bs: Seq<Batch>) -> Seq<Seq<SqlValue>>
    decreases bs.len(),
{
    if bs.len() == 0 {
        Seq::empty()
    } else {
        rows_of_batches(bs.drop_last()) + rows_of(bs.last()@)
    }
}

/// The batch result for `rows`: none when empty, the rows column-wise when
/// they share a width, an error otherwise.
pub open spec fn batch_result(rows: Seq<Seq<SqlValue>>, r: Result<Option<Batch>, String>) -> bool {
    if rows.len() == 0 {
        r == Ok::<Option<Batch>, String>(None)
    } else if uniform_width(rows, rows[0].len()) {
        r matches Ok(Some(b)) && b@ == batch_of_rows(rows, rows[0].len())
    } else {
        r is Err
    }
}

fn msg(s: &str) -> (r: String)
    ensures
        r@ == s@,
{
    String::from_str(s)
}

/// Rows to a batch result (see [`batch_result`]).
fn finish_rows(rows: Vec<Row>) -> (r: Result<Option<Batch>, String>)
    ensures
        batch_result(rows_view(rows@), r),
{
    if rows.len() == 0 {
        return Ok(None);
    }
    match batch_from_rows(rows) {
        Ok(b) => Ok(Some(b)),
        Err(e) => Err(e),
    }
}

/// The batch of rows sharing a width (an empty batch with no columns for no
/// rows); rows of unequal width are an error.
pub open spec fn rows_batch(rows: Seq<Seq<SqlValue>>) -> Option<BatchV> {
    if rows.len() == 0 {
        Some(batch_of_rows(rows, 0))
    } else if uniform_width(rows, rows[0].len()) {
        Some(batch_of_rows(rows, rows[0].len()))
    } else {
        None
    }
}

/// Rows to a batch, checking that they share a width.
fn batch_from_rows(rows: Vec<Row>) -> (r: Result<Batch, String>)
    ensures
        match r {
            Ok(b) => rows_batch(rows_view(rows@)) == Some(b@),
            Err(_) => rows_batch(rows_view(rows@)) is None,
        },
{
    if rows.len() == 0 {
        return Ok(rows_to_batch(rows));
    }
    let w = rows[0].len();
    let mut i: usize = 0;
    while i < rows.len()
        invariant
            i <= rows@.len(),
            rows@.len() > 0,
            w == rows@[0]@.len(),
            forall|k: int| 0 <= k < i ==> (#[trigger] rows_view(rows@)[k]).len() == w,
        decreases rows@.len() - i,
    {
        if rows[i].len() != w {
            assert(rows_view(rows@)[i as int].len() != rows_view(rows@)[0].len());
            return Err(msg("rows of unequal width in one batch"));
        }
        i = i + 1;
    }
    Ok(rows_to_batch(rows))
}

// ── sources ───────────────────────────────────────────────────────────

/// Pre-materialized row scan.
pub struct BatchVecScan {
    /// Remaining rows, last row first.
    pub rev: Vec<Row>,
}

impl BatchVecScan {
    /// Rows still to come, in order.
    pub open spec fn pending(&self) -> Seq<Row> {
        self.rev@.reverse()
    }

    /// Scan over `rows` in order.
    pub fn new(rows: Vec<Row>) -> (r: Self)
        ensures
            r.bop_inv(),
            r.pending() == rows@,
    {
        let mut rows = rows;
        let mut rev: Vec<Row> = Vec::with_capacity(rows.len());
        let ghost all = rows@;
        while rows.len() > 0
            invariant
                all == rows@ + rev@.reverse(),
            decreases rows@.len(),
        {
            let ghost before_rows = rows@;
            let ghost before_rev = rev@;
            let r = rows.pop().unwrap();
            rev.push(r);
            assert(rev@.reverse() =~= seq![r] + before_rev.reverse());
            assert(before_rows =~= rows@.push(r));
            assert(all =~= rows@ + rev@.reverse());
        }
        assert(all =~= rev@.reverse());
        BatchVecScan { rev }
    }
}

impl BatchOperator for BatchVecScan {
    open spec fn bop_inv(&self) -> bool {
        true
    }

    /// The next `min(n, pending)` rows as one batch.
    open spec fn bstep(&self, after: &Self, n: usize, r: Result<Option<Batch>, String>) -> bool {
        let k = if self.pending().len() < n { self.pending().len() as int } else { n as int };
        &&& after.pending() == self.pending().skip(k)
        &&& batch_result(rows_view(self.pending().take(k)), r)
    }

    fn next_batch(&mut self, batch_size: usize) -> (r: Result<Option<Batch>, String>) {
        let ghost p0 = self.pending();
        let mut rows: Vec<Row> = Vec::new();
        let mut i: usize = 0;
        while i < batch_size && self.rev.len() > 0
            invariant
                i <= batch_size,
                i <= p0.len(),
                rows@ == p0.take(i as int),
                self.pending() == p0.skip(i as int),
            decreases batch_size - i,
        {
            let ghost before = self.pending();
            let r = self.rev.pop().unwrap();
            assert(self.pending() =~= before.drop_first());
            assert(before[0] == r);
            assert(before[0] == p0[i as int]);
            rows.push(r);
            assert(rows@ =~= p0.take(i + 1));
            assert(before.drop_first() =~= p0.skip(i + 1));
            i = i + 1;
        }
        finish_rows(rows)
    }
}

/// Every item of `items` is a possible `Ok(Some(..))` result of calling `f`.
pub open spec fn yields<T, F: FnMut() -> Result<Option<T>, String>>(f: F, items: Seq<T>) -> bool {
    forall|k: int| 0 <= k < items.len() ==> call_ensures(f, (), Ok::<Option<T>, String>(Some(#[trigger] items[k])))
}

/// Up to `n` items pulled from `f`: they all were yielded, and the pull
/// stopped because `n` were taken or `f` returned `Ok(None)`; or `f`
/// failed after yielding them.
pub open spec fn pulled_from<T, F: FnMut() -> Result<Option<T>, String>>(
    f: F,
    n: usize,
    items: Seq<T>,
    failed: Option<String>,
) -> bool {
    &&& yields(f, items)
    &&& items.len() <= n
    &&& match failed {
        Some(e) => items.len() < n && call_ensures(f, (), Err::<Option<T>, String>(e)),
        None => items.len() == n || call_ensures(f, (), Ok::<Option<T>, String>(None)),
    }
}

/// Row scan over a closure; produces batches without materializing all input.
pub struct BatchRowScan<F> {
    pub f: F,
}

impl<F> BatchRowScan<F> where F: FnMut() -> Result<Option<Row>, String> {
    /// Scan pulling rows from `f`.
    pub fn new(f: F) -> (r: Self)
        ensures
            call_requires(f, ()) ==> r.bop_inv(),
            r.source() == f,
    {
        BatchRowScan { f }
    }

    /// The closure the rows come from.
    pub open spec fn source(&self) -> F {
        self.f
    }
}

impl<F> BatchOperator for BatchRowScan<F> where F: FnMut() -> Result<Option<Row>, String> {
    open spec fn bop_inv(&self) -> bool {
        call_requires(self.f, ())
    }

    /// Up to `n` rows pulled from the closure, as one batch; an error of
    /// the closure is returned.
    open spec fn bstep(&self, after: &Self, n: usize, r: Result<Option<Batch>, String>) -> bool {
        &&& after.f == self.f
        &&& exists|rows: Seq<Row>, failed: Option<String>| #[trigger] pulled_from(self.f, n, rows, failed)
            && match failed {
                Some(e) => r == Err::<Option<Batch>, String>(e),
                None => batch_result(rows_view(rows), r),
            }
    }

    fn next_batch(&mut self, batch_size: usize) -> (r: Result<Option<Batch>, String>) {
        let mut rows: Vec<Row> = Vec::new();
        let mut i: usize = 0;
        while i < batch_size
            invariant
                i <= batch_size,
                rows@.len() == i,
                yields(self.f, rows@),
                call_requires(self.f, ()),
                self.f == old(self).f,
            decreases batch_size - i,
        {
            match (self.f)() {
                Err(e) => {
                    assert(pulled_from(self.f, batch_size, rows@, Some(e)));
                    return Err(e);
                },
                Ok(None) => {
                    assert(pulled_from(self.f, batch_size, rows@, None));
                    let r = finish_rows(rows);
                    return r;
                },
                Ok(Some(row)) => {
                    rows.push(row);
                    assert(yields(self.f, rows@)) by {
                        assert forall|k: int| 0 <= k < rows@.len() implies
                            call_ensures(self.f, (), Ok::<Option<Row>, String>(Some(#[trigger] rows@[k]))) by {
                            if k < rows@.len() - 1 {
                                assert(rows@[k] == rows@.drop_last()[k]);
                            }
                        }
                    }
                },
            }
            i = i + 1;
        }
        assert(pulled_from(self.f, batch_size, rows@, None));
        finish_rows(rows)
    }
}

/// Raw scan: the closure yields storage records, decoded straight into a
/// batch (malformed records are skipped).
pub struct BatchScanRaw<F> {
    pub f: F,
    pub schema: Vec<ColumnDef>,
}

impl<F> BatchScanRaw<F> where F: FnMut() -> Result<Option<Vec<u8>>, String> {
    /// Scan decoding the records `f` yields against `schema`.
    pub fn new(f: F, schema: Vec<ColumnDef>) -> (r: Self)
        ensures
            call_requires(f, ()) ==> r.bop_inv(),
            r.source() == f,
            r.width() == schema@.len(),
    {
        BatchScanRaw { f, schema }
    }

    /// The closure the records come from.
    pub open spec fn source(&self) -> F {
        self.f
    }

    /// Number of columns.
    pub open spec fn width(&self) -> nat {
        self.schema@.len()
    }
}

/// `b` holds the rows `rows` (of width `n`) column-wise, by value model.
pub open spec fn holds_rows(b: BatchV, rows: Seq<Seq<ValueV>>, n: nat) -> bool {
    &&& b.columns.len() == n
    &&& b.row_count == rows.len()
    &&& forall|c: int| 0 <= c < n ==> (#[trigger] b.columns[c]).len() == b.row_count
    &&& forall|c: int, k: int| 0 <= c < n && 0 <= k < b.row_count ==>
        (#[trigger] b.columns[c][k]).deep_view() == rows[k][c]
}

/// Why a raw scan stopped pulling records.
pub enum RawEnd {
    /// The batch is full.
    Full,
    /// The source returned `Ok(None)`.
    Ended,
    /// The source failed with this error.
    Failed(String),
    /// The pull budget ran out.
    Exhausted,
}

/// `raws` were pulled from `f` in order, and the pulling stopped for `end`.
pub open spec fn raw_pull<F: FnMut() -> Result<Option<Vec<u8>>, String>>(f: F, raws: Seq<Vec<u8>>, end: RawEnd) -> bool {
    &&& yields(f, raws)
    &&& match end {
        RawEnd::Ended => call_ensures(f, (), Ok::<Option<Vec<u8>>, String>(None)),
        RawEnd::Failed(e) => call_ensures(f, (), Err::<Option<Vec<u8>>, String>(e)),
        RawEnd::Exhausted => raws.len() == PULL_BUDGET,
        RawEnd::Full => true,
    }
}

impl<F> BatchOperator for BatchScanRaw<F> where F: FnMut() -> Result<Option<Vec<u8>>, String> {
    open spec fn bop_inv(&self) -> bool {
        call_requires(self.source(), ())
    }

    /// Records are pulled from the closure until `n` of them decode (the
    /// batch is full), the closure returns `Ok(None)`, or it fails;
    /// malformed records are skipped. `Ok(None)` only when the closure ran
    /// out with no decodable record (or `n` is 0); an error of the closure
    /// is returned.
    open spec fn bstep(&self, after: &Self, n: usize, r: Result<Option<Batch>, String>) -> bool {
        &&& after.source() == self.source()
        &&& after.width() == self.width()
        &&& if n == 0 {
            r == Ok::<Option<Batch>, String>(None) && after == self
        } else {
            exists|raws: Seq<Vec<u8>>, end: RawEnd| #[trigger] raw_pull(self.source(), raws, end) && {
                let rows = decodable_rows(raws.map_values(|b: Vec<u8>| b@), self.width());
                match end {
                    RawEnd::Full => rows.len() == n && (r matches Ok(Some(b)) && holds_rows(b@, rows, self.width())),
                    RawEnd::Ended => rows.len() < n && (if rows.len() == 0 {
                        r == Ok::<Option<Batch>, String>(None)
                    } else {
                        r matches Ok(Some(b)) && holds_rows(b@, rows, self.width())
                    }),
                    RawEnd::Failed(e) => rows.len() < n && r == Err::<Option<Batch>, String>(e),
                    RawEnd::Exhausted => rows.len() < n && r is Err,
                }
            }
        }
    }

    fn next_batch(&mut self, batch_size: usize) -> (r: Result<Option<Batch>, String>) {
        if batch_size == 0 {
            return Ok(None);
        }
        let mut batch = Batch::from_schema(self.schema.as_slice());
        let ghost n = self.schema@.len();
        let ghost mut raws: Seq<Vec<u8>> = Seq::empty();
        let mut pulled: u64 = 0;
        loop
            invariant
                batch_size > 0,
                pulled as nat == raws.len(),
                yields(self.f, raws),
                call_requires(self.f, ()),
                self.f == old(self).f,
                self.schema@ == old(self).schema@,
                n == self.schema@.len(),
                batch@.row_count < batch_size,
                holds_rows(batch@, decodable_rows(raws.map_values(|b: Vec<u8>| b@), n), n),
            decreases PULL_BUDGET - pulled,
        {
            if pulled == PULL_BUDGET {
                assert(raw_pull(old(self).source(), raws, RawEnd::Exhausted));
                return Err(msg("pull budget exhausted while scanning records"));
            }
            match (self.f)() {
                Err(e) => {
                    assert(raw_pull(old(self).source(), raws, RawEnd::Failed(e)));
                    return Err(e);
                },
                Ok(None) => {
                    assert(raw_pull(old(self).source(), raws, RawEnd::Ended));
                    if batch.is_empty() {
                        return Ok(None);
                    } else {
                        return Ok(Some(batch));
                    }
                },
                Ok(Some(raw)) => {
                    let ghost rv0 = raws.map_values(|b: Vec<u8>| b@);
                    proof {
                        let r2 = raws.push(raw);
                        assert(r2.map_values(|b: Vec<u8>| b@).drop_last() =~= rv0);
                        assert(r2.map_values(|b: Vec<u8>| b@).last() == raw@);
                        assert(yields(self.f, r2)) by {
                            assert forall|k: int| 0 <= k < r2.len() implies
                                call_ensures(self.f, (), Ok::<Option<Vec<u8>>, String>(Some(#[trigger] r2[k]))) by {
                                if k < raws.len() {
                                    assert(r2[k] == raws[k]);
                                }
                            }
                        }
                        raws = r2;
                    }
                    pulled = pulled + 1;
                    match decode_row(raw.as_slice(), self.schema.as_slice()) {
                        Some(row) => {
                            proof {
                                crate::batch::lemma_decode_len(raw@, 0, n);
                            }
                            let ghost prev = batch@;
                            batch.push_row(row.as_slice());
                            proof {
                                let d = decodable_rows(raws.map_values(|b: Vec<u8>| b@), n);
                                assert forall|c: int, k: int| 0 <= c < n && 0 <= k < batch@.row_count implies
                                    (#[trigger] batch@.columns[c][k]).deep_view() == d[k][c] by {
                                    assert(batch@.columns[c] == prev.columns[c].push(row@[c]));
                                    if k == batch@.row_count - 1 {
                                        assert(row.deep_view()[c] == row@[c].deep_view());
                                    }
                                }
                            }
                            if batch.num_rows() >= batch_size {
                                assert(raw_pull(old(self).source(), raws, RawEnd::Full));
                                return Ok(Some(batch));
                            }
                        },
                        None => {},
                    }
                },
            }
        }
    }
}

} // verus!

verus! {

// ── filter ────────────────────────────────────────────────────────────

/// `pred` may answer `res` for a row whose values are `row`.
pub open spec fn pred_says<F: Fn(&Row) -> Result<bool, String>>(pred: F, row: Seq<SqlValue>, res: Result<bool, String>) -> bool {
    exists|v: Row| v@ == row && #[trigger] call_ensures(pred, (&v,), res)
}

/// Every row was rejected by the predicate.
pub open spec fn batch_rows_rejected<F: Fn(&Row) -> Result<bool, String>>(pred: F, rows: Seq<Seq<SqlValue>>) -> bool {
    forall|i: int| 0 <= i < rows.len() ==> pred_says(pred, #[trigger] rows[i], Ok(false))
}

/// Indices (as 32-bit) of the `true` flags, in order.
pub open spec fn selected(flags: Seq<bool>) -> Seq<u32>
    decreases flags.len(),
{
    if flags.len() == 0 {
        Seq::empty()
    } else if flags.last() {
        selected(flags.drop_last()).push(((flags.len() - 1) as usize) as u32)
    } else {
        selected(flags.drop_last())
    }
}

/// The rows of `b` at the indices `sel` (see `Batch::apply_selection`).
pub open spec fn selection_of(b: BatchV, sel: Seq<u32>) -> BatchV {
    BatchV {
        columns: Seq::new(b.columns.len(), |c: int| Seq::new(sel.len(), |k: int| crate::batch::cell(b.columns, c, sel[k] as int))),
        row_count: sel.len(),
    }
}

/// Predicate answers for the first rows of a batch.
pub open spec fn answers<F: Fn(&Row) -> Result<bool, String>>(pred: F, b: BatchV, flags: Seq<bool>) -> bool {
    flags.len() <= b.row_count
    && forall|i: int| 0 <= i < flags.len() ==> pred_says(pred, crate::batch::row_of(b, i), Ok(#[trigger] flags[i]))
}

/// What the filter returns for one input batch `b`: an error of the
/// predicate, or the accepted rows (`None` when all were rejected).
pub open spec fn filter_batch_outcome<F: Fn(&Row) -> Result<bool, String>>(pred: F, b: BatchV, r: Result<Option<Batch>, String>) -> bool {
    ||| exists|flags: Seq<bool>, e: String|
        #![trigger answers(pred, b, flags), pred_says(pred, crate::batch::row_of(b, flags.len() as int), Err(e))]
        answers(pred, b, flags) && flags.len() < b.row_count
        && pred_says(pred, crate::batch::row_of(b, flags.len() as int), Err(e)) && r == Err::<Option<Batch>, String>(e)
    ||| exists|flags: Seq<bool>| #[trigger] answers(pred, b, flags) && flags.len() == b.row_count
        && selected(flags).len() > 0 && (r matches Ok(Some(out)) && out@ == selection_of(b, selected(flags)))
}

/// Batch filter: evaluates a predicate on each row and keeps the accepted
/// rows; batches with no accepted row are skipped.
pub struct BatchFilter<I, F> {
    pub input: I,
    pub pred: F,
}

impl<I: BatchOperator, F> BatchFilter<I, F> where F: Fn(&Row) -> Result<bool, String> {
    /// Filter `input` by `pred`.
    pub fn new(input: I, pred: F) -> (r: Self)
        ensures
            input.bop_inv() && (forall|row: &Row| call_requires(pred, (row,))) ==> r.bop_inv(),
            r.child() == input,
            r.predicate() == pred,
    {
        BatchFilter { input, pred }
    }

    /// The input operator.
    pub open spec fn child(&self) -> I {
        self.input
    }

    /// The predicate.
    pub open spec fn predicate(&self) -> F {
        self.pred
    }
}

impl<I: BatchOperator, F> BatchOperator for BatchFilter<I, F> where F: Fn(&Row) -> Result<bool, String> {
    open spec fn bop_inv(&self) -> bool {
        self.input.bop_inv() && forall|row: &Row| call_requires(self.pred, (row,))
    }

    /// Input batches whose rows are all rejected are skipped; the first
    /// batch with an accepted row yields those rows; the end of input or an
    /// error is returned as is.
    open spec fn bstep(&self, after: &Self, n: usize, r: Result<Option<Batch>, String>) -> bool {
        &&& after.pred == self.pred
        &&& exists|skipped: Seq<Batch>, mid: I| #![trigger bruns(self.input, mid, n, skipped)]
            bruns(self.input, mid, n, skipped)
            && batch_rows_rejected(self.pred, rows_of_batches(skipped))
            && {
                ||| exists|cr: Result<Option<Batch>, String>| #[trigger] mid.bstep(&after.input, n, cr) && match cr {
                        Err(e) => r == Err::<Option<Batch>, String>(e),
                        Ok(None) => r == Ok::<Option<Batch>, String>(None),
                        Ok(Some(b)) => filter_batch_outcome(self.pred, b@, r),
                    }
                ||| skipped.len() == PULL_BUDGET && after.input == mid && r is Err
            }
    }

    fn next_batch(&mut self, batch_size: usize) -> (r: Result<Option<Batch>, String>) {
        let ghost start = self.input;
        let ghost mut skipped: Seq<Batch> = Seq::empty();
        proof { lemma_bruns_empty(start, batch_size); }
        let mut pulled: u64 = 0;
        loop
            invariant
                pulled as nat == skipped.len(),
                self.input.bop_inv(),
                forall|row: &Row| call_requires(self.pred, (row,)),
                self.pred == old(self).pred,
                start == old(self).input,
                bruns(start, self.input, batch_size, skipped),
                batch_rows_rejected(self.pred, rows_of_batches(skipped)),
            decreases PULL_BUDGET - pulled,
        {
            if pulled == PULL_BUDGET {
                return Err(msg("pull budget exhausted while filtering batches"));
            }
            let ghost mid = self.input;
            let cr = self.input.next_batch(batch_size);
            assert(bruns(start, mid, batch_size, skipped) && mid.bstep(&self.input, batch_size, cr));
            match cr {
                Err(e) => {
                    return Err(e);
                },
                Ok(None) => {
                    return Ok(None);
                },
                Ok(Some(input_batch)) => {
                    let mut sel = SelectionVector::new();
                    let ghost mut flags: Seq<bool> = Seq::empty();
                    let mut i: usize = 0;
                    #[verifier::loop_isolation(false)]
                    while i < input_batch.num_rows()
                        invariant
                            i <= input_batch@.row_count,
                            flags.len() == i,
                            forall|row: &Row| call_requires(self.pred, (row,)),
                            answers(self.pred, input_batch@, flags),
                            sel@ == selected(flags),
                        decreases input_batch@.row_count - i,
                    {
                        let row = input_batch.row(i);
                        let res = (self.pred)(&row);
                        assert(pred_says(self.pred, crate::batch::row_of(input_batch@, i as int), res));
                        match res {
                            Err(e) => {
                                assert(filter_batch_outcome(self.pred, input_batch@, Err::<Option<Batch>, String>(e)));
                                return Err(e);
                            },
                            Ok(keep) => {
                                proof {
                                    let f2 = flags.push(keep);
                                    assert(f2.drop_last() == flags);
                                    assert forall|q: int| 0 <= q < f2.len() implies
                                        pred_says(self.pred, crate::batch::row_of(input_batch@, q), Ok(#[trigger] f2[q])) by {
                                        if q < flags.len() {
                                            assert(f2[q] == flags[q]);
                                        }
                                    }
                                    flags = f2;
                                }
                                if keep {
                                    sel.push(i);
                                }
                            },
                        }
                        i = i + 1;
                    }
                    if sel.is_empty() {
                        proof {
                            lemma_selected_empty(flags);
                            lemma_bruns_extend(start, mid, self.input, batch_size, skipped, input_batch);
                            let s2 = skipped.push(input_batch);
                            assert(s2.drop_last() == skipped);
                            assert(rows_of_batches(s2) == rows_of_batches(skipped) + rows_of(input_batch@));
                            assert forall|q: int| 0 <= q < rows_of_batches(s2).len() implies
                                pred_says(self.pred, #[trigger] rows_of_batches(s2)[q], Ok(false)) by {
                                if q >= rows_of_batches(skipped).len() {
                                    let k = q - rows_of_batches(skipped).len();
                                    assert(rows_of_batches(s2)[q] == rows_of(input_batch@)[k]);
                                    assert(flags[k] == false);
                                }
                            }
                            skipped = s2;
                        }
                        pulled = pulled + 1;
                        continue;
                    }
                    let out = input_batch.apply_selection(sel.as_slice());
                    assert(filter_batch_outcome(self.pred, input_batch@, Ok(Some(out))));
                    return Ok(Some(out));
                },
            }
        }
    }
}

proof fn lemma_selected_empty(flags: Seq<bool>)
    requires
        selected(flags).len() == 0,
    ensures
        forall|i: int| 0 <= i < flags.len() ==> !#[trigger] flags[i],
    decreases flags.len(),
{
    if flags.len() > 0 {
        if flags.last() {
            assert(selected(flags).len() > 0);
        }
        lemma_selected_empty(flags.drop_last());
        assert forall|i: int| 0 <= i < flags.len() implies !#[trigger] flags[i] by {
            if i < flags.len() - 1 {
                assert(flags[i] == flags.drop_last()[i]);
            }
        }
    }
}

// ── projection ────────────────────────────────────────────────────────

/// `Batch::project` of `b` onto `idx`.
pub open spec fn projection_of(b: BatchV, idx: Seq<usize>) -> BatchV {
    BatchV {
        columns: Seq::new(idx.len(), |j: int| b.columns[idx[j] as int].take(
            if b.columns[idx[j] as int].len() < b.row_count { b.columns[idx[j] as int].len() as int } else { b.row_count as int })),
        row_count: b.row_count,
    }
}

/// Column-index projection (reorder / prune) of each batch.
pub struct BatchProjectIdx<I> {
    pub input: I,
    pub indices: Vec<usize>,
}

impl<I: BatchOperator> BatchProjectIdx<I> {
    /// Project `input` onto the column positions `indices`.
    pub fn new(input: I, indices: Vec<usize>) -> (r: Self)
        ensures
            input.bop_inv() ==> r.bop_inv(),
            r.child() == input,
            r.positions() == indices@,
    {
        BatchProjectIdx { input, indices }
    }

    /// The input operator.
    pub open spec fn child(&self) -> I {
        self.input
    }

    /// The projected positions.
    pub open spec fn positions(&self) -> Seq<usize> {
        self.indices@
    }
}

impl<I: BatchOperator> BatchOperator for BatchProjectIdx<I> {
    open spec fn bop_inv(&self) -> bool {
        self.input.bop_inv()
    }

    /// The input's batch projected; a position outside the batch is an error.
    open spec fn bstep(&self, after: &Self, n: usize, r: Result<Option<Batch>, String>) -> bool {
        &&& after.indices@ == self.indices@
        &&& exists|cr: Result<Option<Batch>, String>| #[trigger] self.input.bstep(&after.input, n, cr) && match cr {
            Err(e) => r == Err::<Option<Batch>, String>(e),
            Ok(None) => r == Ok::<Option<Batch>, String>(None),
            Ok(Some(b)) => if forall|j: int| 0 <= j < self.indices@.len() ==> #[trigger] self.indices@[j] < b@.columns.len() {
                r matches Ok(Some(o)) && o@ == projection_of(b@, self.indices@)
            } else {
                r is Err
            },
        }
    }

    fn next_batch(&mut self, batch_size: usize) -> (r: Result<Option<Batch>, String>) {
        let ghost before = self.input;
        let cr = self.input.next_batch(batch_size);
        assert(before.bstep(&self.input, batch_size, cr));
        match cr {
            Err(e) => Err(e),
            Ok(None) => Ok(None),
            Ok(Some(batch)) => {
                let mut j: usize = 0;
                #[verifier::loop_isolation(false)]
                while j < self.indices.len()
                    invariant
                        j <= self.indices@.len(),
                        forall|q: int| 0 <= q < j ==> #[trigger] self.indices@[q] < batch@.columns.len(),
                    decreases self.indices@.len() - j,
                {
                    if self.indices[j] >= batch.num_columns() {
                        return Err(msg("projection column out of range"));
                    }
                    j = j + 1;
                }
                let out = batch.project(self.indices.as_slice());
                assert(out@.columns =~= projection_of(batch@, self.indices@).columns);
                Ok(Some(out))
            },
        }
    }
}

/// `transform` may map a row whose values are `row` to `res`.
pub open spec fn transform_says<F: Fn(&Row) -> Result<Row, String>>(f: F, row: Seq<SqlValue>, res: Result<Row, String>) -> bool {
    exists|v: Row| v@ == row && #[trigger] call_ensures(f, (&v,), res)
}

/// Outputs of the transform for the first rows of a batch.
pub open spec fn transformed<F: Fn(&Row) -> Result<Row, String>>(f: F, b: BatchV, outs: Seq<Row>) -> bool {
    outs.len() <= b.row_count
    && forall|i: int| 0 <= i < outs.len() ==> transform_says(f, crate::batch::row_of(b, i), Ok(#[trigger] outs[i]))
}

/// Expression projection: a row-level transform applied to every row.
pub struct BatchEvalProject<I, F> {
    pub input: I,
    pub transform: F,
}

impl<I: BatchOperator, F> BatchEvalProject<I, F> where F: Fn(&Row) -> Result<Row, String> {
    /// Apply `transform` to every row of `input`.
    pub fn new(input: I, transform: F) -> (r: Self)
        ensures
            input.bop_inv() && (forall|row: &Row| call_requires(transform, (row,))) ==> r.bop_inv(),
            r.child() == input,
            r.transformer() == transform,
    {
        BatchEvalProject { input, transform }
    }

    /// The input operator.
    pub open spec fn child(&self) -> I {
        self.input
    }

    /// The row transform.
    pub open spec fn transformer(&self) -> F {
        self.transform
    }
}

impl<I: BatchOperator, F> BatchOperator for BatchEvalProject<I, F> where F: Fn(&Row) -> Result<Row, String> {
    open spec fn bop_inv(&self) -> bool {
        self.input.bop_inv() && forall|row: &Row| call_requires(self.transform, (row,))
    }

    /// The input's batch with each row transformed (the outputs must share
    /// a width); an error of the transform is returned.
    open spec fn bstep(&self, after: &Self, n: usize, r: Result<Option<Batch>, String>) -> bool {
        &&& after.transform == self.transform
        &&& exists|cr: Result<Option<Batch>, String>| #[trigger] self.input.bstep(&after.input, n, cr) && match cr {
            Err(e) => r == Err::<Option<Batch>, String>(e),
            Ok(None) => r == Ok::<Option<Batch>, String>(None),
            Ok(Some(b)) => {
                ||| exists|outs: Seq<Row>, e: String|
                    #![trigger transformed(self.transform, b@, outs), transform_says(self.transform, crate::batch::row_of(b@, outs.len() as int), Err(e))]
                    transformed(self.transform, b@, outs)
                    && outs.len() < b@.row_count
                    && transform_says(self.transform, crate::batch::row_of(b@, outs.len() as int), Err(e))
                    && r == Err::<Option<Batch>, String>(e)
                ||| exists|outs: Seq<Row>| #[trigger] transformed(self.transform, b@, outs) && outs.len() == b@.row_count
                    && match rows_batch(rows_view(outs)) {
                        Some(ob) => r matches Ok(Some(o)) && o@ == ob,
                        None => r is Err,
                    }
            },
        }
    }

    fn next_batch(&mut self, batch_size: usize) -> (r: Result<Option<Batch>, String>) {
        let ghost before = self.input;
        let cr = self.input.next_batch(batch_size);
        assert(before.bstep(&self.input, batch_size, cr));
        match cr {
            Err(e) => Err(e),
            Ok(None) => Ok(None),
            Ok(Some(batch)) => {
                let mut out: Vec<Row> = Vec::with_capacity(batch.num_rows());
                let mut i: usize = 0;
                #[verifier::loop_isolation(false)]
                while i < batch.num_rows()
                    invariant
                        i <= batch@.row_count,
                        out@.len() == i,
                        forall|row: &Row| call_requires(self.transform, (row,)),
                        transformed(self.transform, batch@, out@),
                    decreases batch@.row_count - i,
                {
                    let row = batch.row(i);
                    let res = (self.transform)(&row);
                    assert(transform_says(self.transform, crate::batch::row_of(batch@, i as int), res));
                    match res {
                        Err(e) => {
                            return Err(e);
                        },
                        Ok(o) => {
                            let ghost before_out = out@;
                            out.push(o);
                            assert forall|q: int| 0 <= q < out@.len() implies
                                transform_says(self.transform, crate::batch::row_of(batch@, q), Ok(#[trigger] out@[q])) by {
                                if q < before_out.len() {
                                    assert(out@[q] == before_out[q]);
                                }
                            }
                        },
                    }
                    i = i + 1;
                }
                assert(transformed(self.transform, batch@, out@));
                let ghost outs = out@;
                match batch_from_rows(out) {
                    Ok(b) => Ok(Some(b)),
                    Err(e) => Err(e),
                }
            },
        }
    }
}

// ── limit ─────────────────────────────────────────────────────────────

/// The smaller of two sizes.
pub open spec fn min_size(a: usize, b: usize) -> usize {
    if a < b { a } else { b }
}

/// Passes through at most `n` rows in total.
pub struct BatchLimit<I> {
    pub input: I,
    pub remaining: usize,
}

impl<I: BatchOperator> BatchLimit<I> {
    /// Pass at most `n` rows of `input`.
    pub fn new(input: I, n: usize) -> (r: Self)
        ensures
            input.bop_inv() ==> r.bop_inv(),
            r.child() == input,
            r.remaining() == n,
    {
        BatchLimit { input, remaining: n }
    }

    /// The input operator.
    pub open spec fn child(&self) -> I {
        self.input
    }

    /// How many more rows may pass.
    pub open spec fn remaining(&self) -> nat {
        self.remaining as nat
    }
}

impl<I: BatchOperator> BatchOperator for BatchLimit<I> {
    open spec fn bop_inv(&self) -> bool {
        self.input.bop_inv()
    }

    /// With nothing left to pass the input is not pulled; otherwise the input
    /// is asked for `min(n, remaining)` rows and its batch is cut to that.
    open spec fn bstep(&self, after: &Self, n: usize, r: Result<Option<Batch>, String>) -> bool {
        let take = min_size(n, self.remaining);
        if self.remaining == 0 {
            r == Ok::<Option<Batch>, String>(None) && *after == *self
        } else {
            exists|cr: Result<Option<Batch>, String>| #[trigger] self.input.bstep(&after.input, take, cr) && match cr {
                Err(e) => r == Err::<Option<Batch>, String>(e) && after.remaining == self.remaining,
                Ok(None) => r == Ok::<Option<Batch>, String>(None) && after.remaining == self.remaining,
                Ok(Some(b)) => {
                    let k = if b@.row_count < take { b@.row_count } else { take as nat };
                    &&& after.remaining == self.remaining - k
                    &&& if k < b@.row_count {
                        r matches Ok(Some(o)) && o@ == rows_batch(rows_of(b@).take(k as int))->0
                    } else {
                        r == Ok::<Option<Batch>, String>(Some(b))
                    }
                },
            }
        }
    }

    #[verifier::spinoff_prover]
    #[verifier::rlimit(40)]
    fn next_batch(&mut self, batch_size: usize) -> (r: Result<Option<Batch>, String>) {
        if self.remaining == 0 {
            return Ok(None);
        }
        let take = if batch_size < self.remaining { batch_size } else { self.remaining };
        let ghost before = self.input;
        let cr = self.input.next_batch(take);
        assert(before.bstep(&self.input, take, cr));
        match cr {
            Err(e) => Err(e),
            Ok(None) => Ok(None),
            Ok(Some(batch)) => {
                let n = if batch.num_rows() < take { batch.num_rows() } else { take };
                self.remaining = self.remaining - n;
                if n < batch.num_rows() {
                    let mut rows: Vec<Row> = Vec::with_capacity(n);
                    let mut i: usize = 0;
                    while i < n
                        invariant
                            i <= n,
                            n < batch@.row_count,
                            rows_view(rows@) == rows_of(batch@).take(i as int),
                        decreases n - i,
                    {
                        let row = batch.row(i);
                        let ghost before_rows = rows@;
                        rows.push(row);
                        assert(rows_view(rows@) =~= rows_view(before_rows).push(row@));
                        assert(rows_of(batch@)[i as int] == crate::batch::row_of(batch@, i as int));
                        assert(rows_view(rows@) =~= rows_of(batch@).take(i + 1));
                        i = i + 1;
                    }
                    proof {
                        let rv = rows_view(rows@);
                        if rv.len() > 0 {
                            assert forall|q: int| 0 <= q < rv.len() implies #[trigger] rv[q].len() == rv[0].len() by {
                                assert(rv[q] == crate::batch::row_of(batch@, q));
                                assert(rv[0] == crate::batch::row_of(batch@, 0));
                            }
                        }
                    }
                    match batch_from_rows(rows) {
                        Ok(b) => Ok(Some(b)),
                        Err(e) => Err(e),
                    }
                } else {
                    Ok(Some(batch))
                }
            },
        }
    }
}

} // verus!

verus! {

// ── shared: draining and emitting ─────────────────────────────────────

/// The input, from state `a`, yields `batches` (asked with size `n`), then
/// ends with `end`, reaching state `b`.
pub open spec fn bdrains<I: BatchOperator>(a: I, b: I, n: usize, batches: Seq<Batch>, end: Result<Option<Batch>, String>) -> bool {
    exists|mid: I| #[trigger] bruns(a, mid, n, batches) && mid.bstep(&b, n, end)
}

/// Emitting up to `n` of the queued rows `q` (in order): the batch result
/// of the first ones, and what stays queued.
pub open spec fn emit_rows(q: Seq<Seq<SqlValue>>, n: usize, r: Result<Option<Batch>, String>, q2: Seq<Seq<SqlValue>>) -> bool {
    let k = if q.len() < n { q.len() as int } else { n as int };
    &&& q2 == q.skip(k)
    &&& batch_result(q.take(k), r)
}

/// Rows still queued, in order, from a reversed queue.
pub open spec fn queue_view(rev: Seq<Row>) -> Seq<Seq<SqlValue>> {
    rows_view(rev.reverse())
}

/// Pop up to `n` rows from a reversed queue into a batch result.
#[verifier::spinoff_prover]
#[verifier::rlimit(60)]
fn emit_from(queue: &mut Vec<Row>, n: usize) -> (r: Result<Option<Batch>, String>)
    ensures
        emit_rows(queue_view(old(queue)@), n, r, queue_view(final(queue)@)),
{
    let ghost q0 = queue_view(queue@);
    let mut rows: Vec<Row> = Vec::new();
    let mut i: usize = 0;
    while i < n && queue.len() > 0
        invariant
            i <= n,
            i <= q0.len(),
            rows_view(rows@) == q0.take(i as int),
            queue_view(queue@) == q0.skip(i as int),
        decreases n - i,
    {
        let ghost before = queue@;
        let x = queue.pop().unwrap();
        proof {
            assert(before.reverse() =~= seq![x] + queue@.reverse());
            assert(queue_view(before)[0] == x@);
            assert(queue_view(queue@) =~= queue_view(before).drop_first());
        }
        let ghost before_rows = rows@;
        rows.push(x);
        assert(rows_view(rows@) =~= rows_view(before_rows).push(x@));
        assert(rows_view(rows@) =~= q0.take(i + 1));
        assert(q0.skip(i as int).drop_first() =~= q0.skip(i + 1));
        i = i + 1;
    }
    finish_rows(rows)
}

/// A reversed queue holding `rows` (first row popped first).
fn into_queue(rows: Vec<Row>) -> (q: Vec<Row>)
    ensures
        queue_view(q@) == rows_view(rows@),
{
    let mut rows = rows;
    let mut q: Vec<Row> = Vec::with_capacity(rows.len());
    let ghost all = rows@;
    while rows.len() > 0
        invariant
            all == rows@ + q@.reverse(),
        decreases rows@.len(),
    {
        let ghost before_rows = rows@;
        let ghost before_q = q@;
        let x = rows.pop().unwrap();
        q.push(x);
        assert(q@.reverse() =~= seq![x] + before_q.reverse());
        assert(before_rows =~= rows@.push(x));
        assert(all =~= rows@ + q@.reverse());
    }
    assert(all =~= q@.reverse());
    q
}

/// Pull every batch of `input` (asked with the default size), appending their
/// rows to `buf`.
fn drain_into<I: BatchOperator>(input: &mut I, buf: &mut Vec<Row>) -> (r: Result<(), String>)
    requires
        old(input).bop_inv(),
    ensures
        final(input).bop_inv(),
        exists|batches: Seq<Batch>, mid: I| #![trigger bruns(*old(input), mid, DEFAULT_BATCH_SIZE, batches)]
            bruns(*old(input), mid, DEFAULT_BATCH_SIZE, batches)
            && rows_view(final(buf)@) == rows_view(old(buf)@) + rows_of_batches(batches)
            && match r {
                Ok(()) => mid.bstep(&*final(input), DEFAULT_BATCH_SIZE, Ok(None)),
                Err(e) => (mid.bstep(&*final(input), DEFAULT_BATCH_SIZE, Err(e))
                    || (batches.len() == PULL_BUDGET && *final(input) == mid)),
            },
{
    let batch_size = default_batch_size();
    let ghost start = *input;
    let ghost b0 = rows_view(buf@);
    let ghost mut batches: Seq<Batch> = Seq::empty();
    proof { lemma_bruns_empty(start, batch_size); }
    assert(rows_of_batches(batches) =~= Seq::<Seq<SqlValue>>::empty());
    assert(rows_view(buf@) =~= b0 + rows_of_batches(batches));
    let mut pulled: u64 = 0;
    loop
        invariant
            input.bop_inv(),
            batch_size == DEFAULT_BATCH_SIZE,
            pulled as nat == batches.len(),
            start == *old(input),
            b0 == rows_view(old(buf)@),
            bruns(start, *input, batch_size, batches),
            rows_view(buf@) == b0 + rows_of_batches(batches),
        decreases PULL_BUDGET - pulled,
    {
        if pulled == PULL_BUDGET {
            return Err(msg("pull budget exhausted while draining batches"));
        }
        let ghost mid = *input;
        let cr = input.next_batch(batch_size);
        assert(bruns(start, mid, batch_size, batches) && mid.bstep(&*input, batch_size, cr));
        match cr {
            Err(e) => {
                return Err(e);
            },
            Ok(None) => {
                return Ok(());
            },
            Ok(Some(batch)) => {
                let ghost before_buf = rows_view(buf@);
                let mut i: usize = 0;
                while i < batch.num_rows()
                    invariant
                        i <= batch@.row_count,
                        rows_view(buf@) == before_buf + rows_of(batch@).take(i as int),
                    decreases batch@.row_count - i,
                {
                    let row = batch.row(i);
                    let ghost bb = buf@;
                    buf.push(row);
                    assert(rows_view(buf@) =~= rows_view(bb).push(row@));
                    assert(rows_of(batch@)[i as int] == row@);
                    assert(rows_of(batch@).take(i + 1) =~= rows_of(batch@).take(i as int).push(row@));
                    i = i + 1;
                }
                proof {
                    assert(rows_of(batch@).take(batch@.row_count as int) =~= rows_of(batch@));
                    lemma_bruns_extend(start, mid, *input, batch_size, batches, batch);
                    let b2 = batches.push(batch);
                    assert(b2.drop_last() == batches);
                    assert(rows_of_batches(b2) == rows_of_batches(batches) + rows_of(batch@));
                    assert(rows_view(buf@) =~= b0 + rows_of_batches(b2));
                    batches = b2;
                }
                pulled = pulled + 1;
            },
        }
    }
}

} // verus!

verus! {

// ── aggregation ───────────────────────────────────────────────────────

/// Incremental state of one aggregate.
#[derive(Debug, Clone)]
pub enum AggState {
    Count { counted: u64, counted_not_null: bool },
    Sum { total: i128, empty: bool, n: u64 },
    Avg { total: i128, count: u64 },
    Min { val: Option<SqlValue> },
    Max { val: Option<SqlValue> },
}

/// The initial state of an aggregate.
pub open spec fn agg_state_new(func: AggFn) -> AggState {
    match func {
        AggFn::Count => AggState::Count { counted: 0, counted_not_null: false },
        AggFn::Sum => AggState::Sum { total: 0, empty: true, n: 0 },
        AggFn::Avg => AggState::Avg { total: 0, count: 0 },
        AggFn::Min => AggState::Min { val: None },
        AggFn::Max => AggState::Max { val: None },
    }
}

/// Integer totals are within what their counts allow.
pub open spec fn agg_state_bounded(st: AggState) -> bool {
    match st {
        AggState::Sum { total, n, .. } => -(n * 0x8000_0000_0000_0000) <= total <= n * 0x7fff_ffff_ffff_ffff,
        AggState::Avg { total, count } => -(count * 0x8000_0000_0000_0000) <= total <= count * 0x7fff_ffff_ffff_ffff,
        _ => true,
    }
}

/// Counters have room for one more value and totals are bounded.
pub open spec fn agg_state_ok(st: AggState) -> bool {
    &&& agg_state_bounded(st)
    &&& match st {
        AggState::Count { counted, .. } => counted < u64::MAX,
        AggState::Sum { n, .. } => n < u64::MAX,
        AggState::Avg { count, .. } => count < u64::MAX,
        _ => true,
    }
}

/// Feeding one value: COUNT counts non-NULL values (every value for
/// COUNT(*)); SUM and AVG take integers only; MIN/MAX keep the first
/// non-NULL value and replace it only by a smaller (larger) integer when it
/// is an integer.
pub open spec fn agg_state_feed(st: AggState, v: SqlValue, is_count_star: bool) -> AggState {
    match st {
        AggState::Count { counted, counted_not_null } => if is_count_star || !(v is Null) {
            AggState::Count { counted: (counted + 1) as u64, counted_not_null: if !is_count_star { true } else { counted_not_null } }
        } else {
            st
        },
        AggState::Sum { total, empty, n } => match v {
            SqlValue::Int(i) => AggState::Sum { total: (total + i) as i128, empty: false, n: (n + 1) as u64 },
            _ => st,
        },
        AggState::Avg { total, count } => match v {
            SqlValue::Int(i) => AggState::Avg { total: (total + i) as i128, count: (count + 1) as u64 },
            _ => st,
        },
        AggState::Min { val } => if v is Null { st } else {
            match val {
                None => AggState::Min { val: Some(v) },
                Some(b) => match (b, v) {
                    (SqlValue::Int(bi), SqlValue::Int(ni)) => if ni < bi { AggState::Min { val: Some(SqlValue::Int(ni)) } } else { st },
                    _ => st,
                },
            }
        },
        AggState::Max { val } => if v is Null { st } else {
            match val {
                None => AggState::Max { val: Some(v) },
                Some(b) => match (b, v) {
                    (SqlValue::Int(bi), SqlValue::Int(ni)) => if ni > bi { AggState::Max { val: Some(SqlValue::Int(ni)) } } else { st },
                    _ => st,
                },
            }
        },
    }
}

/// The final value of an aggregate; `None` when a SUM leaves the 64-bit range.
pub open spec fn agg_state_finish(st: AggState) -> Option<SqlValue> {
    match st {
        AggState::Count { counted, .. } => Some(SqlValue::Int(counted as i64)),
        AggState::Sum { total, empty, .. } => if empty {
            Some(SqlValue::Null)
        } else if i64::MIN <= total <= i64::MAX {
            Some(SqlValue::Int(total as i64))
        } else {
            None
        },
        AggState::Avg { total, count } => if count == 0 {
            Some(SqlValue::Null)
        } else {
            Some(SqlValue::Int(crate::executor::div_toward_zero(total as int, count as int) as i64))
        },
        AggState::Min { val } => Some(match val { Some(v) => v, None => SqlValue::Null }),
        AggState::Max { val } => Some(match val { Some(v) => v, None => SqlValue::Null }),
    }
}

/// Feeding a sequence of values in order.
pub open spec fn agg_state_fold(st: AggState, vals: Seq<SqlValue>, is_count_star: bool) -> AggState
    decreases vals.len(),
{
    if vals.len() == 0 {
        st
    } else {
        agg_state_feed(agg_state_fold(st, vals.drop_last(), is_count_star), vals.last(), is_count_star)
    }
}

impl AggState {
    fn new(func: AggFn) -> (r: Self)
        ensures
            r == agg_state_new(func),
    {
        match func {
            AggFn::Count => AggState::Count { counted: 0, counted_not_null: false },
            AggFn::Sum => AggState::Sum { total: 0, empty: true, n: 0 },
            AggFn::Avg => AggState::Avg { total: 0, count: 0 },
            AggFn::Min => AggState::Min { val: None },
            AggFn::Max => AggState::Max { val: None },
        }
    }

    fn feed(&mut self, v: &SqlValue, is_count_star: bool)
        requires
            agg_state_ok(*old(self)),
        ensures
            *final(self) == agg_state_feed(*old(self), *v, is_count_star),
            agg_state_bounded(*final(self)),
    {
        match self {
            AggState::Count { counted, counted_not_null } => {
                if is_count_star || !is_null_value(v) {
                    *counted = *counted + 1;
                    if !is_count_star {
                        *counted_not_null = true;
                    }
                }
            },
            AggState::Sum { total, empty, n } => {
                if let SqlValue::Int(i) = v {
                    *total = *total + (*i as i128);
                    *empty = false;
                    *n = *n + 1;
                }
            },
            AggState::Avg { total, count } => {
                if let SqlValue::Int(i) = v {
                    *total = *total + (*i as i128);
                    *count = *count + 1;
                }
            },
            AggState::Min { val } => {
                if !is_null_value(v) {
                    let replace = match &*val {
                        None => true,
                        Some(best) => match (best, v) {
                            (SqlValue::Int(b), SqlValue::Int(n)) => *n < *b,
                            _ => false,
                        },
                    };
                    if replace {
                        *val = Some(clone_value(v));
                    }
                }
            },
            AggState::Max { val } => {
                if !is_null_value(v) {
                    let replace = match &*val {
                        None => true,
                        Some(best) => match (best, v) {
                            (SqlValue::Int(b), SqlValue::Int(n)) => *n > *b,
                            _ => false,
                        },
                    };
                    if replace {
                        *val = Some(clone_value(v));
                    }
                }
            },
        }
    }

    fn finish(self) -> (r: Result<SqlValue, String>)
        requires
            agg_state_bounded(self),
        ensures
            match r {
                Ok(v) => agg_state_finish(self) == Some(v),
                Err(_) => agg_state_finish(self) is None,
            },
    {
        match self {
            AggState::Count { counted, .. } => Ok(SqlValue::Int(#[verifier::truncate] (counted as i64))),
            AggState::Sum { total, empty, .. } => {
                if empty {
                    Ok(SqlValue::Null)
                } else if total < (i64::MIN as i128) || total > (i64::MAX as i128) {
                    Err(msg("integer overflow in SUM"))
                } else {
                    Ok(SqlValue::Int(total as i64))
                }
            },
            AggState::Avg { total, count } => {
                if count == 0 {
                    Ok(SqlValue::Null)
                } else {
                    let c = count as i128;
                    proof {
                        crate::executor::lemma_quotient_bounds(total as int, count as int);
                    }
                    let q: i128 = if total >= 0 { total / c } else { -((-total) / c) };
                    Ok(SqlValue::Int(q as i64))
                }
            },
            AggState::Min { val } => match val {
                Some(v) => Ok(v),
                None => Ok(SqlValue::Null),
            },
            AggState::Max { val } => match val {
                Some(v) => Ok(v),
                None => Ok(SqlValue::Null),
            },
        }
    }
}

} // verus!

verus! {

/// One aggregate over a group as the batch pipeline computes it; `None`
/// when a row lacks the column or a SUM overflows.
pub open spec fn batch_agg_value(f: AggFn, col: Option<usize>, bucket: Seq<Seq<SqlValue>>) -> Option<SqlValue> {
    if f == AggFn::Count && col is None {
        Some(SqlValue::Int(bucket.len() as i64))
    } else {
        match col {
            Some(i) => if exists|k: int| 0 <= k < bucket.len() && (#[trigger] bucket[k]).len() <= i {
                None
            } else {
                agg_state_finish(agg_state_fold(agg_state_new(f), bucket.map_values(|r: Seq<SqlValue>| r[i as int]), false))
            },
            None => agg_state_finish(agg_state_feed(agg_state_new(f), SqlValue::Null, true)),
        }
    }
}

/// All aggregates over a group.
pub open spec fn batch_agg_row(aggs: Seq<(AggFn, Option<usize>)>, bucket: Seq<Seq<SqlValue>>) -> Option<Seq<SqlValue>>
    decreases aggs.len(),
{
    if aggs.len() == 0 {
        Some(Seq::empty())
    } else {
        match (batch_agg_row(aggs.drop_last(), bucket), batch_agg_value(aggs.last().0, aggs.last().1, bucket)) {
            (Some(vs), Some(v)) => Some(vs.push(v)),
            _ => None,
        }
    }
}

/// Output rows for groups: each key followed by its aggregates.
pub open spec fn group_outputs(gs: Seq<crate::executor::GroupV>, aggs: Seq<(AggFn, Option<usize>)>) -> Option<Seq<Seq<SqlValue>>>
    decreases gs.len(),
{
    if gs.len() == 0 {
        Some(Seq::empty())
    } else {
        match (group_outputs(gs.drop_last(), aggs), batch_agg_row(aggs, gs.last().1)) {
            (Some(outs), Some(vals)) => Some(outs.push(gs.last().0 + vals)),
            _ => None,
        }
    }
}

/// The aggregation output for all input rows; `None` when a row lacks a key
/// column or an aggregate fails.
pub open spec fn aggregate_output(rows: Seq<Seq<SqlValue>>, idx: Seq<usize>, aggs: Seq<(AggFn, Option<usize>)>) -> Option<Seq<Seq<SqlValue>>> {
    if forall|k: int| 0 <= k < rows.len() ==> crate::executor::has_cols(#[trigger] rows[k], idx) {
        group_outputs(crate::executor::group_rows(rows, idx), aggs)
    } else {
        None
    }
}

fn batch_agg(f: AggFn, col: Option<usize>, bucket: &Vec<Row>) -> (r: Result<SqlValue, String>)
    ensures
        match r {
            Ok(v) => batch_agg_value(f, col, crate::executor::rows_of_vecs(bucket@)) == Some(v),
            Err(_) => batch_agg_value(f, col, crate::executor::rows_of_vecs(bucket@)) is None,
        },
{
    let ghost bv = crate::executor::rows_of_vecs(bucket@);
    if matches!(f, AggFn::Count) && col.is_none() {
        return Ok(SqlValue::Int(#[verifier::truncate] (bucket.len() as i64)));
    }
    let mut state = AggState::new(f);
    match col {
        Some(idx) => {
            let ghost vals = bv.map_values(|r: Seq<SqlValue>| r[idx as int]);
            let mut k: usize = 0;
            while k < bucket.len()
                invariant
                    k <= bucket@.len(),
                    col == Some(idx),
                    bv == crate::executor::rows_of_vecs(bucket@),
                    vals == bv.map_values(|r: Seq<SqlValue>| r[idx as int]),
                    forall|q: int| 0 <= q < k ==> idx < (#[trigger] bucket@[q])@.len(),
                    state == agg_state_fold(agg_state_new(f), vals.take(k as int), false),
                    agg_state_bounded(state),
                    match state {
                        AggState::Count { counted, .. } => counted <= k,
                        AggState::Sum { n, .. } => n <= k,
                        AggState::Avg { count, .. } => count <= k,
                        _ => true,
                    },
                decreases bucket@.len() - k,
            {
                if bucket[k].len() <= idx {
                    assert(bv[k as int].len() <= idx);
                    return Err(msg("aggregate column out of range"));
                }
                assert(vals.take(k + 1).drop_last() =~= vals.take(k as int));
                assert(vals.take(k + 1).last() == bucket@[k as int]@[idx as int]);
                state.feed(&bucket[k][idx], false);
                k = k + 1;
            }
            assert(vals.take(bucket@.len() as int) =~= vals);
            assert forall|q: int| 0 <= q < bv.len() implies !((#[trigger] bv[q]).len() <= idx) by {
                assert(bv[q] == bucket@[q]@);
            }
        },
        None => {
            state.feed(&SqlValue::Null, true);
        },
    }
    state.finish()
}

fn batch_agg_row_exec(aggs: &Vec<(AggFn, Option<usize>)>, bucket: &Vec<Row>) -> (r: Result<Row, String>)
    ensures
        match r {
            Ok(out) => batch_agg_row(aggs@, crate::executor::rows_of_vecs(bucket@)) == Some(out@),
            Err(_) => batch_agg_row(aggs@, crate::executor::rows_of_vecs(bucket@)) is None,
        },
{
    let mut out: Row = Vec::with_capacity(aggs.len());
    let mut a: usize = 0;
    let ghost bv = crate::executor::rows_of_vecs(bucket@);
    while a < aggs.len()
        invariant
            a <= aggs@.len(),
            bv == crate::executor::rows_of_vecs(bucket@),
            batch_agg_row(aggs@.take(a as int), bv) == Some(out@),
        decreases aggs@.len() - a,
    {
        let (f, col) = aggs[a];
        assert(aggs@.take(a + 1).drop_last() =~= aggs@.take(a as int));
        assert(aggs@.take(a + 1).last() == aggs@[a as int]);
        match batch_agg(f, col, bucket) {
            Ok(v) => {
                out.push(v);
            },
            Err(e) => {
                proof {
                    lemma_batch_agg_row_fails(aggs@, a as int, bv);
                }
                return Err(e);
            },
        }
        a = a + 1;
    }
    assert(aggs@.take(aggs@.len() as int) =~= aggs@);
    Ok(out)
}

proof fn lemma_batch_agg_row_fails(aggs: Seq<(AggFn, Option<usize>)>, a: int, bucket: Seq<Seq<SqlValue>>)
    requires
        0 <= a < aggs.len(),
        batch_agg_value(aggs[a].0, aggs[a].1, bucket) is None,
    ensures
        batch_agg_row(aggs, bucket) is None,
    decreases aggs.len(),
{
    if a < aggs.len() - 1 {
        lemma_batch_agg_row_fails(aggs.drop_last(), a, bucket);
    }
}

proof fn lemma_group_outputs_fail(gs: Seq<crate::executor::GroupV>, aggs: Seq<(AggFn, Option<usize>)>, g: int)
    requires
        0 <= g < gs.len(),
        batch_agg_row(aggs, gs[g].1) is None,
    ensures
        group_outputs(gs, aggs) is None,
    decreases gs.len(),
{
    if g < gs.len() - 1 {
        lemma_group_outputs_fail(gs.drop_last(), aggs, g);
    }
}

/// Group `rows` by the key columns `idx` (groups in ascending key order)
/// and compute `aggs` for each: each output row is the key
/// followed by the aggregate values (see [`aggregate_output`]).
pub fn aggregate_rows(rows: &Vec<Row>, idx: &Vec<usize>, aggs: &Vec<(AggFn, Option<usize>)>) -> (r: Result<Vec<Row>, String>)
    ensures
        match aggregate_output(rows_view(rows@), idx@, aggs@) {
            Some(o) => r matches Ok(v) && rows_view(v@) == o,
            None => r is Err,
        },
{
    let ghost rv = rows_view(rows@);
    let groups = match crate::executor::group_rows_exec(rows, idx) {
        Ok(g) => g,
        Err(e) => {
            proof {
                let k = choose|k: int| 0 <= k < rows@.len() && !crate::executor::has_cols(#[trigger] rows@[k]@, idx@);
                assert(rv[k] == rows@[k]@);
            }
            return Err(e);
        },
    };
    assert(rv == crate::executor::rows_of_vecs(rows@));
    let ghost gs = crate::executor::groups_view(groups@);
    let mut outs: Vec<Row> = Vec::with_capacity(groups.len());
    let mut g: usize = 0;
    #[verifier::loop_isolation(false)]
    while g < groups.len()
        invariant
            g <= groups@.len(),
            gs == crate::executor::groups_view(groups@),
            group_outputs(gs.take(g as int), aggs@) == Some(rows_view(outs@)),
        decreases groups@.len() - g,
    {
        let grp = &groups[g];
        assert(gs.take(g + 1).drop_last() =~= gs.take(g as int));
        assert(gs.take(g + 1).last() == gs[g as int]);
        assert(gs[g as int] == (grp.0@, crate::executor::rows_of_vecs(grp.1@)));
        match batch_agg_row_exec(aggs, &grp.1) {
            Ok(vals) => {
                let mut out = clone_row(grp.0.as_slice());
                let mut k: usize = 0;
                let ghost base = out@;
                while k < vals.len()
                    invariant
                        k <= vals@.len(),
                        out@ == base + vals@.take(k as int),
                    decreases vals@.len() - k,
                {
                    out.push(clone_value(&vals[k]));
                    assert(vals@.take(k + 1) == vals@.take(k as int).push(vals@[k as int]));
                    k = k + 1;
                }
                assert(vals@.take(vals@.len() as int) == vals@);
                let ghost before = outs@;
                outs.push(out);
                assert(rows_view(outs@) =~= rows_view(before).push(out@));
            },
            Err(e) => {
                proof {
                    lemma_group_outputs_fail(gs, aggs@, g as int);
                }
                return Err(e);
            },
        }
        g = g + 1;
    }
    assert(gs.take(groups@.len() as int) =~= gs);
    Ok(outs)
}

/// GROUP BY aggregate over batches: materializes on the first pull (groups
/// in ascending key order), then emits the output rows in batches.
pub struct BatchAggregate<I> {
    pub input: I,
    pub group_idx: Vec<usize>,
    pub aggs: Vec<(AggFn, Option<usize>)>,
    /// Output rows still to emit, last first; `None` until materialized.
    pub output: Option<Vec<Row>>,
    /// Input rows buffered before grouping.
    pub input_buf: Vec<Row>,
}

impl<I: BatchOperator> BatchAggregate<I> {
    /// Aggregate `input` grouped by `group_idx`.
    pub fn new(input: I, group_idx: Vec<usize>, aggs: Vec<(AggFn, Option<usize>)>) -> (r: Self)
        ensures
            input.bop_inv() ==> r.bop_inv(),
            r.child() == input,
            r.key_positions() == group_idx@,
            r.aggregates() == aggs@,
            r.queued() is None,
    {
        BatchAggregate { input, group_idx, aggs, output: None, input_buf: Vec::new() }
    }

    /// The input operator.
    pub open spec fn child(&self) -> I {
        self.input
    }

    /// Group key positions.
    pub open spec fn key_positions(&self) -> Seq<usize> {
        self.group_idx@
    }

    /// Aggregate descriptors.
    pub open spec fn aggregates(&self) -> Seq<(AggFn, Option<usize>)> {
        self.aggs@
    }

    /// Output rows still to emit, once materialized.
    pub open spec fn queued(&self) -> Option<Seq<Seq<SqlValue>>> {
        match self.output {
            Some(q) => Some(queue_view(q@)),
            None => None,
        }
    }

    fn materialize(&mut self) -> (r: Result<(), String>)
        requires
            old(self).input.bop_inv(),
            old(self).output is None,
        ensures
            final(self).input.bop_inv(),
            final(self).group_idx@ == old(self).group_idx@,
            final(self).aggs@ == old(self).aggs@,
            exists|batches: Seq<Batch>, mid: I| #![trigger bruns(old(self).input, mid, DEFAULT_BATCH_SIZE, batches)]
                bruns(old(self).input, mid, DEFAULT_BATCH_SIZE, batches) && {
                let rows = rows_view(old(self).input_buf@) + rows_of_batches(batches);
                ||| (exists|e: String| #[trigger] mid.bstep(&final(self).input, DEFAULT_BATCH_SIZE, Err(e)))
                    && r is Err && final(self).output is None && rows_view(final(self).input_buf@) == rows
                ||| batches.len() == PULL_BUDGET && final(self).input == mid && r is Err
                    && final(self).output is None && rows_view(final(self).input_buf@) == rows
                ||| mid.bstep(&final(self).input, DEFAULT_BATCH_SIZE, Ok(None)) && final(self).input_buf@.len() == 0
                    && match aggregate_output(rows, old(self).group_idx@, old(self).aggs@) {
                        Some(outs) => r is Ok && final(self).queued() == Some(outs),
                        None => r is Err && final(self).output is None,
                    }
            },
    {
        let res = drain_into(&mut self.input, &mut self.input_buf);
        match res {
            Err(e) => {
                return Err(e);
            },
            Ok(()) => {},
        }
        let mut buf: Vec<Row> = Vec::new();
        std::mem::swap(&mut buf, &mut self.input_buf);
        match aggregate_rows(&buf, &self.group_idx, &self.aggs) {
            Ok(outs) => {
                self.output = Some(into_queue(outs));
                Ok(())
            },
            Err(e) => Err(e),
        }
    }
}

impl<I: BatchOperator> BatchOperator for BatchAggregate<I> {
    open spec fn bop_inv(&self) -> bool {
        self.input.bop_inv()
    }

    /// The first pull drains the input (asked with the default batch size)
    /// and computes one output row per group; every pull then emits up to
    /// `n` output rows.
    open spec fn bstep(&self, after: &Self, n: usize, r: Result<Option<Batch>, String>) -> bool {
        &&& after.group_idx@ == self.group_idx@
        &&& after.aggs@ == self.aggs@
        &&& match self.queued() {
            Some(q) => after.input == self.input && (after.queued() matches Some(q2) && emit_rows(q, n, r, q2)),
            None => exists|batches: Seq<Batch>, mid: I| #![trigger bruns(self.input, mid, DEFAULT_BATCH_SIZE, batches)]
                bruns(self.input, mid, DEFAULT_BATCH_SIZE, batches) && {
                let rows = rows_view(self.input_buf@) + rows_of_batches(batches);
                ||| (exists|e: String| #[trigger] mid.bstep(&after.input, DEFAULT_BATCH_SIZE, Err(e)))
                    && r is Err && after.queued() is None && rows_view(after.input_buf@) == rows
                ||| batches.len() == PULL_BUDGET && after.input == mid && r is Err
                    && after.queued() is None && rows_view(after.input_buf@) == rows
                ||| mid.bstep(&after.input, DEFAULT_BATCH_SIZE, Ok(None)) && after.input_buf@.len() == 0
                    && match aggregate_output(rows, self.group_idx@, self.aggs@) {
                        Some(outs) => (after.queued() matches Some(q2) && emit_rows(outs, n, r, q2)),
                        None => r is Err && after.queued() is None,
                    }
            },
        }
    }

    fn next_batch(&mut self, batch_size: usize) -> (r: Result<Option<Batch>, String>) {
        if self.output.is_none() {
            match self.materialize() {
                Ok(()) => {},
                Err(e) => {
                    return Err(e);
                },
            }
        }
        match &mut self.output {
            Some(q) => emit_from(q, batch_size),
            None => Ok(None),
        }
    }
}

} // verus!

verus! {

// ── sort ──────────────────────────────────────────────────────────────

/// Comparison of sort keys: position by position in the total order of
/// values (reversed where `desc` says so), the first difference decides;
/// keys equal on their common positions compare equal.
pub open spec fn keys_order(a: Seq<ValueV>, b: Seq<ValueV>, desc: Seq<bool>, i: nat) -> crate::order::ValueOrder
    decreases a.len() - i,
{
    if i >= a.len() || i >= b.len() {
        crate::order::ValueOrder::Equal
    } else {
        let o = crate::order::total_order(a[i as int], b[i as int]);
        let o2 = if i < desc.len() && desc[i as int] { o.flip() } else { o };
        if o2 != crate::order::ValueOrder::Equal {
            o2
        } else {
            keys_order(a, b, desc, i + 1)
        }
    }
}

/// A sort entry: key and row.
pub type Keyed = (Seq<ValueV>, Seq<SqlValue>);

/// `p` is where a new entry with key `k` goes: after every entry whose key
/// is not greater, before the first greater one (scanning from the front).
pub open spec fn is_sort_pos(s: Seq<Keyed>, k: Seq<ValueV>, desc: Seq<bool>, p: int) -> bool {
    &&& 0 <= p <= s.len()
    &&& forall|j: int| 0 <= j < p ==> keys_order((#[trigger] s[j]).0, k, desc, 0) != crate::order::ValueOrder::Greater
    &&& p < s.len() ==> keys_order(s[p].0, k, desc, 0) == crate::order::ValueOrder::Greater
}

/// Insertion position of a new entry.
pub open spec fn sort_pos(s: Seq<Keyed>, k: Seq<ValueV>, desc: Seq<bool>) -> int {
    choose|p: int| is_sort_pos(s, k, desc, p)
}

/// Stable insertion sort of entries by key.
pub open spec fn sort_entries(items: Seq<Keyed>, desc: Seq<bool>) -> Seq<Keyed>
    decreases items.len(),
{
    if items.len() == 0 {
        Seq::empty()
    } else {
        let s = sort_entries(items.drop_last(), desc);
        s.insert(sort_pos(s, items.last().0, desc), items.last())
    }
}

proof fn lemma_sort_pos_unique(s: Seq<Keyed>, k: Seq<ValueV>, desc: Seq<bool>, p: int)
    requires
        is_sort_pos(s, k, desc, p),
    ensures
        sort_pos(s, k, desc) == p,
{
    let q = sort_pos(s, k, desc);
    assert(is_sort_pos(s, k, desc, q));
    if q < p {
        assert(keys_order(s[q].0, k, desc, 0) != crate::order::ValueOrder::Greater);
    } else if p < q {
        assert(keys_order(s[p].0, k, desc, 0) != crate::order::ValueOrder::Greater);
    }
}

/// Exec form of [`keys_order`].
pub(crate) fn compare_keys(a: &Vec<SqlValue>, b: &Vec<SqlValue>, desc: &Vec<bool>) -> (r: crate::order::ValueOrder)
    ensures
        r == keys_order(a.deep_view(), b.deep_view(), desc@, 0),
{
    let mut i: usize = 0;
    while i < a.len() && i < b.len()
        invariant
            i <= a@.len(),
            i <= b@.len(),
            keys_order(a.deep_view(), b.deep_view(), desc@, 0) == keys_order(a.deep_view(), b.deep_view(), desc@, i as nat),
        decreases a@.len() - i,
    {
        let o = crate::order::compare_total(&a[i], &b[i]);
        let o2 = if i < desc.len() && desc[i] {
            match o {
                crate::order::ValueOrder::Less => crate::order::ValueOrder::Greater,
                crate::order::ValueOrder::Equal => crate::order::ValueOrder::Equal,
                crate::order::ValueOrder::Greater => crate::order::ValueOrder::Less,
            }
        } else {
            o
        };
        match o2 {
            crate::order::ValueOrder::Equal => {},
            _ => {
                return o2;
            },
        }
        i = i + 1;
    }
    crate::order::ValueOrder::Equal
}

/// Swapping two keys flips their order.
proof fn lemma_keys_order_flip(a: Seq<ValueV>, b: Seq<ValueV>, desc: Seq<bool>, i: nat)
    ensures
        keys_order(b, a, desc, i) == keys_order(a, b, desc, i).flip(),
    decreases a.len() - i,
{
    if i < a.len() && i < b.len() {
        crate::order::lemma_total_order_flip(a[i as int], b[i as int]);
        lemma_keys_order_flip(a, b, desc, i + 1);
    }
}

proof fn lemma_sort_pos_from(s: Seq<Keyed>, k: Seq<ValueV>, desc: Seq<bool>, i: int)
    requires
        0 <= i <= s.len(),
        forall|j: int| 0 <= j < i ==> keys_order((#[trigger] s[j]).0, k, desc, 0) != crate::order::ValueOrder::Greater,
    ensures
        is_sort_pos(s, k, desc, sort_pos(s, k, desc)),
    decreases s.len() - i,
{
    if i == s.len() || keys_order(s[i].0, k, desc, 0) == crate::order::ValueOrder::Greater {
        assert(is_sort_pos(s, k, desc, i));
    } else {
        lemma_sort_pos_from(s, k, desc, i + 1);
    }
}

/// Entries in order of their keys: no entry's key is greater than the
/// next one's.
pub open spec fn keys_sorted(s: Seq<Keyed>, desc: Seq<bool>) -> bool {
    forall|j: int| 0 <= j < s.len() - 1 ==> #[trigger] keys_order(s[j].0, s[j + 1].0, desc, 0) != crate::order::ValueOrder::Greater
}

proof fn lemma_insert_multiset<A>(t: Seq<A>, p: int, x: A)
    requires
        0 <= p <= t.len(),
    ensures
        t.insert(p, x).to_multiset() == t.to_multiset().insert(x),
{
    broadcast use vstd::multiset::group_multiset_axioms;
    let r = t.insert(p, x);
    t.insert_ensures(p, x);
    assert(r.remove(p) =~= t);
    r.to_multiset_ensures();
    assert(r.contains(x)) by {
        assert(r[p] == x);
    }
    assert(r.to_multiset() =~= t.to_multiset().insert(x));
}

proof fn lemma_push_multiset<A>(t: Seq<A>, x: A)
    ensures
        t.push(x).to_multiset() == t.to_multiset().insert(x),
{
    t.to_multiset_ensures();
}

#[verifier::rlimit(60)]
proof fn lemma_insert_sorted(s0: Seq<Keyed>, x: Keyed, desc: Seq<bool>)
    requires
        keys_sorted(s0, desc),
    ensures
        keys_sorted(s0.insert(sort_pos(s0, x.0, desc), x), desc),
{
    lemma_sort_pos_from(s0, x.0, desc, 0);
    let p = sort_pos(s0, x.0, desc);
    let r = s0.insert(p, x);
    s0.insert_ensures(p, x);
    assert forall|j: int| 0 <= j < r.len() - 1 implies #[trigger] keys_order(r[j].0, r[j + 1].0, desc, 0) != crate::order::ValueOrder::Greater by {
        if j + 1 < p {
            assert(r[j] == s0[j] && r[j + 1] == s0[j + 1]);
            assert(keys_order(s0[j].0, s0[j + 1].0, desc, 0) != crate::order::ValueOrder::Greater);
        } else if j + 1 == p {
            assert(r[j] == s0[j] && r[j + 1] == x);
        } else if j == p {
            assert(r[j] == x);
            assert(r[j + 1] == s0[p]);
            lemma_keys_order_flip(s0[p].0, x.0, desc, 0);
        } else {
            assert(r[(j - 1) + 1] == s0[j - 1]);
            assert(r[j + 1] == s0[j]);
            assert(keys_order(s0[j - 1].0, s0[(j - 1) + 1].0, desc, 0) != crate::order::ValueOrder::Greater);
        }
    }
}

/// The sort puts the entries in key order (no key greater than the next
/// one's; equal keys keep their input order, as insertion goes after every
/// entry that is not greater).
pub proof fn lemma_sort_entries_sorted(items: Seq<Keyed>, desc: Seq<bool>)
    ensures
        keys_sorted(sort_entries(items, desc), desc),
    decreases items.len(),
{
    if items.len() > 0 {
        lemma_sort_entries_sorted(items.drop_last(), desc);
        lemma_insert_sorted(sort_entries(items.drop_last(), desc), items.last(), desc);
    }
}

/// The sort is a permutation of the entries and of their rows.
pub proof fn lemma_sort_entries_permutation(items: Seq<Keyed>, desc: Seq<bool>)
    ensures
        sort_entries(items, desc).to_multiset() == items.to_multiset(),
        entry_rows(sort_entries(items, desc)).to_multiset() == entry_rows(items).to_multiset(),
    decreases items.len(),
{
    if items.len() == 0 {
        assert(items =~= Seq::<Keyed>::empty());
        assert(sort_entries(items, desc) == items);
    } else {
        let init = items.drop_last();
        let x = items.last();
        lemma_sort_entries_permutation(init, desc);
        let s0 = sort_entries(init, desc);
        lemma_sort_pos_from(s0, x.0, desc, 0);
        let p = sort_pos(s0, x.0, desc);
        let r = s0.insert(p, x);
        assert(sort_entries(items, desc) == r);
        lemma_insert_multiset(s0, p, x);
        assert(items =~= init.push(x));
        lemma_push_multiset(init, x);
        assert(entry_rows(r) =~= entry_rows(s0).insert(p, x.1));
        lemma_insert_multiset(entry_rows(s0), p, x.1);
        assert(entry_rows(items) =~= entry_rows(init).push(x.1));
        lemma_push_multiset(entry_rows(init), x.1);
    }
}

/// What a sort emits from its input rows and their keys is a permutation
/// of the rows, in key order (see [`lemma_sort_drains`] for the rows a
/// drained sort returns).
pub proof fn lemma_sorted_rows(rows: Seq<Seq<SqlValue>>, keys: Seq<Vec<SqlValue>>, desc: Seq<bool>)
    requires
        keys.len() == rows.len(),
    ensures
        entry_rows(sort_entries(entries_of(rows, keys), desc)).to_multiset() == rows.to_multiset(),
        keys_sorted(sort_entries(entries_of(rows, keys), desc), desc),
{
    let es = entries_of(rows, keys);
    lemma_sort_entries_permutation(es, desc);
    lemma_sort_entries_sorted(es, desc);
    assert(entry_rows(es) =~= rows);
}

/// Two sort keys compare at their first differing position: by the total
/// order of values there, reversed exactly when that position's ORDER BY
/// item is descending, whatever the directions of the other items.
pub proof fn lemma_keys_order_first_difference(a: Seq<ValueV>, b: Seq<ValueV>, desc: Seq<bool>, i: nat, start: nat)
    requires
        start <= i,
        i < a.len(),
        i < b.len(),
        forall|j: int| start <= j < i ==> crate::order::total_order(#[trigger] a[j], b[j]) == crate::order::ValueOrder::Equal,
        crate::order::total_order(a[i as int], b[i as int]) != crate::order::ValueOrder::Equal,
    ensures
        keys_order(a, b, desc, start) == (if i < desc.len() && desc[i as int] {
            crate::order::total_order(a[i as int], b[i as int]).flip()
        } else {
            crate::order::total_order(a[i as int], b[i as int])
        }),
    decreases i - start,
{
    if start < i {
        assert(crate::order::total_order(a[start as int], b[start as int]) == crate::order::ValueOrder::Equal);
        lemma_keys_order_first_difference(a, b, desc, i, start + 1);
    }
}

/// In sorted output, two neighbouring rows whose keys agree on every
/// position before `i` and differ at `i` are in ascending order there when
/// the `i`-th ORDER BY item is ascending, descending when it is DESC.
pub proof fn lemma_sorted_neighbours(items: Seq<Keyed>, desc: Seq<bool>, j: int, i: nat)
    requires
        0 <= j < sort_entries(items, desc).len() - 1,
        ({
            let s = sort_entries(items, desc);
            &&& i < s[j].0.len()
            &&& i < s[j + 1].0.len()
            &&& forall|q: int| 0 <= q < i ==> crate::order::total_order(#[trigger] s[j].0[q], s[j + 1].0[q]) == crate::order::ValueOrder::Equal
            &&& crate::order::total_order(s[j].0[i as int], s[j + 1].0[i as int]) != crate::order::ValueOrder::Equal
        }),
    ensures
        ({
            let s = sort_entries(items, desc);
            crate::order::total_order(s[j].0[i as int], s[j + 1].0[i as int]) == (if i < desc.len() && desc[i as int] {
                crate::order::ValueOrder::Greater
            } else {
                crate::order::ValueOrder::Less
            })
        }),
{
    let s = sort_entries(items, desc);
    lemma_sort_entries_sorted(items, desc);
    assert(keys_order(s[j].0, s[j + 1].0, desc, 0) != crate::order::ValueOrder::Greater);
    lemma_keys_order_first_difference(s[j].0, s[j + 1].0, desc, i, 0);
}

/// Entries of a sort, as models.
pub open spec fn keyed_view(v: Seq<(Vec<SqlValue>, Row)>) -> Seq<Keyed> {
    v.map_values(|e: (Vec<SqlValue>, Row)| (e.0.deep_view(), e.1@))
}

/// Insert an entry at its stable sorted position.
pub(crate) fn sort_insert(sorted: &mut Vec<(Vec<SqlValue>, Row)>, item: (Vec<SqlValue>, Row), desc: &Vec<bool>)
    ensures
        keyed_view(final(sorted)@) == keyed_view(old(sorted)@).insert(
            sort_pos(keyed_view(old(sorted)@), item.0.deep_view(), desc@), (item.0.deep_view(), item.1@)),
{
    let ghost sv = keyed_view(sorted@);
    let mut p: usize = 0;
    while p < sorted.len() && !matches!(compare_keys(&sorted[p].0, &item.0, desc), crate::order::ValueOrder::Greater)
        invariant
            p <= sorted@.len(),
            sv == keyed_view(sorted@),
            forall|j: int| 0 <= j < p ==> keys_order((#[trigger] sv[j]).0, item.0.deep_view(), desc@, 0)
                != crate::order::ValueOrder::Greater,
        decreases sorted@.len() - p,
    {
        assert(sv[p as int].0 == sorted@[p as int].0.deep_view());
        p = p + 1;
    }
    proof {
        if p < sorted@.len() {
            assert(sv[p as int].0 == sorted@[p as int].0.deep_view());
        }
        lemma_sort_pos_unique(sv, item.0.deep_view(), desc@, p as int);
    }
    let ghost iv = (item.0.deep_view(), item.1@);
    sorted.insert(p, item);
    assert(keyed_view(sorted@) =~= sv.insert(p as int, iv));
}

/// `key_fn` may map a row whose values are `row` to `res`.
pub open spec fn key_says<F: Fn(&Row) -> Result<Vec<SqlValue>, String>>(f: F, row: Seq<SqlValue>, res: Result<Vec<SqlValue>, String>) -> bool {
    exists|v: Row| v@ == row && #[trigger] call_ensures(f, (&v,), res)
}

/// Keys computed for the first rows.
pub open spec fn keyed_rows<F: Fn(&Row) -> Result<Vec<SqlValue>, String>>(f: F, rows: Seq<Seq<SqlValue>>, keys: Seq<Vec<SqlValue>>) -> bool {
    keys.len() <= rows.len()
    && forall|i: int| 0 <= i < keys.len() ==> key_says(f, rows[i], Ok(#[trigger] keys[i]))
}

/// Rows paired with their keys.
pub open spec fn entries_of(rows: Seq<Seq<SqlValue>>, keys: Seq<Vec<SqlValue>>) -> Seq<Keyed> {
    Seq::new(rows.len(), |i: int| (keys[i].deep_view(), rows[i]))
}

/// Materializing sort: buffers all input on the first pull, then emits the
/// rows in stable key order.
pub struct BatchSort<I, F> {
    pub input: I,
    pub key_fn: F,
    pub desc: Vec<bool>,
    /// Sorted rows still to emit, last first; `None` until materialized.
    pub output: Option<Vec<Row>>,
}

impl<I: BatchOperator, F> BatchSort<I, F> where F: Fn(&Row) -> Result<Vec<SqlValue>, String> {
    /// Sort `input` by the keys `key_fn` computes, descending where `desc`
    /// says so.
    pub fn new(input: I, desc: Vec<bool>, key_fn: F) -> (r: Self)
        ensures
            input.bop_inv() && (forall|row: &Row| call_requires(key_fn, (row,))) ==> r.bop_inv(),
            r.child() == input,
            r.descending() == desc@,
            r.key_function() == key_fn,
            r.queued() is None,
    {
        BatchSort { input, key_fn, desc, output: None }
    }

    /// The input operator.
    pub open spec fn child(&self) -> I {
        self.input
    }

    /// Descending flags per key position.
    pub open spec fn descending(&self) -> Seq<bool> {
        self.desc@
    }

    /// The key function.
    pub open spec fn key_function(&self) -> F {
        self.key_fn
    }

    /// Sorted rows still to emit, once materialized.
    pub open spec fn queued(&self) -> Option<Seq<Seq<SqlValue>>> {
        match self.output {
            Some(q) => Some(queue_view(q@)),
            None => None,
        }
    }
}

/// One emit step as rows: the batch holds the first rows of the queue and
/// the queue keeps the rest.
proof fn lemma_emit_step(q: Seq<Seq<SqlValue>>, n: usize, b: Batch, q2: Seq<Seq<SqlValue>>)
    requires
        emit_rows(q, n, Ok(Some(b)), q2),
    ensures
        rows_of(b@) + q2 == q,
{
    let k = if q.len() < n { q.len() as int } else { n as int };
    let t = q.take(k);
    assert(t.len() > 0);
    crate::batch::lemma_rows_batch_roundtrip(t, t[0].len());
    assert(t + q.skip(k) =~= q);
}

/// Once a sort has its sorted rows queued, the batches that successive
/// pulls return, up to the pull that answers `Ok(None)`, hold exactly
/// those rows, in order.
pub proof fn lemma_sort_emits_queue<I: BatchOperator, F: Fn(&Row) -> Result<Vec<SqlValue>, String>>(
    a: BatchSort<I, F>, b: BatchSort<I, F>, end: BatchSort<I, F>, n: usize, batches: Seq<Batch>,
)
    requires
        a.queued() is Some,
        n > 0,
        bruns(a, b, n, batches),
        b.bstep(&end, n, Ok(None)),
    ensures
        rows_of_batches(batches) == a.queued()->0,
{
    let states = choose|states: Seq<BatchSort<I, F>>| #[trigger] btrace(states, n, batches) && states[0] == a && states.last() == b;
    lemma_sort_trace_rows(states, n, batches, 0);
    assert(batches.subrange(0, batches.len() as int) =~= batches);
    let ql = b.queued()->0;
    assert(ql.len() == 0) by {
        if ql.len() > 0 {
            let k = if ql.len() < n { ql.len() as int } else { n as int };
            assert(ql.take(k).len() > 0);
        }
    }
    assert(rows_of_batches(batches) + ql =~= rows_of_batches(batches));
}

/// Pulling a sort from its start until it answers `Ok(None)`: when the
/// first pull returned a batch, the batches hold exactly the input's rows
/// sorted stably by their keys (see [`sort_outcome`]), in order.
pub proof fn lemma_sort_drains<I: BatchOperator, F: Fn(&Row) -> Result<Vec<SqlValue>, String>>(
    a: BatchSort<I, F>, b: BatchSort<I, F>, end: BatchSort<I, F>, n: usize, batches: Seq<Batch>,
)
    requires
        a.queued() is None,
        n > 0,
        batches.len() > 0,
        bruns(a, b, n, batches),
        b.bstep(&end, n, Ok(None)),
    ensures
        exists|s: Seq<Seq<SqlValue>>, e: I| #[trigger] sort_outcome(a.input, a.key_fn, a.desc@, e, true, Some(s))
            && rows_of_batches(batches) == s,
{
    let states = choose|states: Seq<BatchSort<I, F>>| #[trigger] btrace(states, n, batches) && states[0] == a && states.last() == b;
    let k0: int = 0;
    assert(states[k0].bstep(&states[k0 + 1], n, Ok(Some(batches[k0]))));
    let s1 = states[1];
    let sq = choose|sq: Seq<Seq<SqlValue>>| #[trigger] sort_outcome(a.input, a.key_fn, a.desc@, s1.input, true, Some(sq))
        && (s1.queued() matches Some(q2) && emit_rows(sq, n, Ok(Some(batches[0])), q2));
    let q2 = s1.queued()->0;
    lemma_emit_step(sq, n, batches[0], q2);
    let rest = batches.subrange(1, batches.len() as int);
    let st2 = states.subrange(1, states.len() as int);
    assert(btrace(st2, n, rest)) by {
        assert forall|k: int| 0 <= k < rest.len() implies #[trigger] st2[k].bstep(&st2[k + 1], n, Ok(Some(rest[k]))) by {
            assert(st2[k] == states[k + 1] && st2[k + 1] == states[k + 2] && rest[k] == batches[k + 1]);
        }
    }
    assert(st2[0] == s1 && st2.last() == b);
    lemma_sort_emits_queue(s1, b, end, n, rest);
    assert(batches =~= seq![batches[0]] + rest);
    lemma_rows_of_batches_cons(batches[0], rest);
}

proof fn lemma_rows_of_batches_cons(x: Batch, bs: Seq<Batch>)
    ensures
        rows_of_batches(seq![x] + bs) == rows_of(x@) + rows_of_batches(bs),
    decreases bs.len(),
{
    if bs.len() == 0 {
        assert(seq![x] + bs =~= seq![x]);
        assert(seq![x].drop_last() =~= Seq::<Batch>::empty());
        assert(rows_of(x@) + Seq::<Seq<SqlValue>>::empty() =~= rows_of(x@));
        assert(Seq::<Seq<SqlValue>>::empty() + rows_of(x@) =~= rows_of(x@));
        assert(rows_of_batches(Seq::<Batch>::empty()) == Seq::<Seq<SqlValue>>::empty());
        assert(rows_of_batches(seq![x]) == rows_of_batches(seq![x].drop_last()) + rows_of(seq![x].last()@));
        assert(rows_of_batches(bs) == Seq::<Seq<SqlValue>>::empty());
    } else {
        lemma_rows_of_batches_cons(x, bs.drop_last());
        assert((seq![x] + bs).drop_last() =~= seq![x] + bs.drop_last());
        assert((seq![x] + bs).last() == bs.last());
        assert(rows_of(x@) + rows_of_batches(bs.drop_last()) + rows_of(bs.last()@)
            =~= rows_of(x@) + (rows_of_batches(bs.drop_last()) + rows_of(bs.last()@)));
    }
}

proof fn lemma_sort_trace_rows<I: BatchOperator, F: Fn(&Row) -> Result<Vec<SqlValue>, String>>(
    states: Seq<BatchSort<I, F>>, n: usize, batches: Seq<Batch>, j: int,
)
    requires
        btrace(states, n, batches),
        0 <= j <= batches.len(),
        states[j].queued() is Some,
    ensures
        states.last().queued() is Some,
        states[j].queued()->0 == rows_of_batches(batches.subrange(j, batches.len() as int)) + states.last().queued()->0,
    decreases batches.len() - j,
{
    if j == batches.len() {
        assert(batches.subrange(j, j) =~= Seq::<Batch>::empty());
        assert(Seq::<Seq<SqlValue>>::empty() + states[j].queued()->0 =~= states[j].queued()->0);
    } else {
        assert(states[j].bstep(&states[j + 1], n, Ok(Some(batches[j]))));
        let qj = states[j].queued()->0;
        let qn = states[j + 1].queued()->0;
        lemma_emit_step(qj, n, batches[j], qn);
        lemma_sort_trace_rows(states, n, batches, j + 1);
        let rest = batches.subrange(j + 1, batches.len() as int);
        assert(batches.subrange(j, batches.len() as int) =~= seq![batches[j]] + rest);
        lemma_rows_of_batches_cons(batches[j], rest);
        assert(rows_of(batches[j]@) + (rows_of_batches(rest) + states.last().queued()->0)
            =~= rows_of(batches[j]@) + rows_of_batches(rest) + states.last().queued()->0);
    }
}

/// Once an aggregate has its output rows queued, the batches that successive
/// pulls return, up to the pull that answers `Ok(None)`, hold exactly
/// those rows, in order.
pub proof fn lemma_aggregate_emits_queue<I: BatchOperator>(
    a: BatchAggregate<I>, b: BatchAggregate<I>, end: BatchAggregate<I>, n: usize, batches: Seq<Batch>,
)
    requires
        a.queued() is Some,
        n > 0,
        bruns(a, b, n, batches),
        b.bstep(&end, n, Ok(None)),
    ensures
        rows_of_batches(batches) == a.queued()->0,
{
    let states = choose|states: Seq<BatchAggregate<I>>| #[trigger] btrace(states, n, batches) && states[0] == a && states.last() == b;
    lemma_aggregate_trace_rows(states, n, batches, 0);
    assert(batches.subrange(0, batches.len() as int) =~= batches);
    let ql = b.queued()->0;
    assert(ql.len() == 0) by {
        if ql.len() > 0 {
            let k = if ql.len() < n { ql.len() as int } else { n as int };
            assert(ql.take(k).len() > 0);
        }
    }
    assert(rows_of_batches(batches) + ql =~= rows_of_batches(batches));
}

proof fn lemma_aggregate_trace_rows<I: BatchOperator>(
    states: Seq<BatchAggregate<I>>, n: usize, batches: Seq<Batch>, j: int,
)
    requires
        btrace(states, n, batches),
        0 <= j <= batches.len(),
        states[j].queued() is Some,
    ensures
        states.last().queued() is Some,
        states[j].queued()->0 == rows_of_batches(batches.subrange(j, batches.len() as int)) + states.last().queued()->0,
    decreases batches.len() - j,
{
    if j == batches.len() {
        assert(batches.subrange(j, j) =~= Seq::<Batch>::empty());
        assert(Seq::<Seq<SqlValue>>::empty() + states[j].queued()->0 =~= states[j].queued()->0);
    } else {
        assert(states[j].bstep(&states[j + 1], n, Ok(Some(batches[j]))));
        let qj = states[j].queued()->0;
        let qn = states[j + 1].queued()->0;
        lemma_emit_step(qj, n, batches[j], qn);
        lemma_aggregate_trace_rows(states, n, batches, j + 1);
        let rest = batches.subrange(j + 1, batches.len() as int);
        assert(batches.subrange(j, batches.len() as int) =~= seq![batches[j]] + rest);
        lemma_rows_of_batches_cons(batches[j], rest);
        assert(rows_of(batches[j]@) + (rows_of_batches(rest) + states.last().queued()->0)
            =~= rows_of(batches[j]@) + rows_of_batches(rest) + states.last().queued()->0);
    }
}

/// The rows of entries.
pub open spec fn entry_rows(s: Seq<Keyed>) -> Seq<Seq<SqlValue>> {
    s.map_values(|e: Keyed| e.1)
}

/// What draining and sorting the input leaves, whatever the outcome: the
/// pulled batches, the input state before the last pull, and the result.
pub open spec fn sort_outcome<I: BatchOperator, F: Fn(&Row) -> Result<Vec<SqlValue>, String>>(
    start: I, f: F, desc: Seq<bool>, end_input: I, ok: bool, queued: Option<Seq<Seq<SqlValue>>>,
) -> bool {
    exists|batches: Seq<Batch>, mid: I| #![trigger bruns(start, mid, DEFAULT_BATCH_SIZE, batches)]
        bruns(start, mid, DEFAULT_BATCH_SIZE, batches) && {
        let rows = rows_of_batches(batches);
        ||| (exists|e: String| #[trigger] mid.bstep(&end_input, DEFAULT_BATCH_SIZE, Err(e)))
            && !ok && queued is None
        ||| batches.len() == PULL_BUDGET && end_input == mid && !ok && queued is None
        ||| batches.len() > 0 && end_input == mid && !ok && queued is None
            && exists|keys: Seq<Vec<SqlValue>>, e: String|
                #![trigger keyed_rows(f, rows, keys), key_says(f, rows[keys.len() as int], Err(e))]
                keyed_rows(f, rows, keys)
                && rows_of_batches(batches.drop_last()).len() <= keys.len() < rows.len()
                && key_says(f, rows[keys.len() as int], Err(e))
        ||| mid.bstep(&end_input, DEFAULT_BATCH_SIZE, Ok(None)) && ok && exists|keys: Seq<Vec<SqlValue>>|
                #[trigger] keyed_rows(f, rows, keys) && keys.len() == rows.len()
                && queued == Some(entry_rows(sort_entries(entries_of(rows, keys), desc)))
    }
}

impl<I: BatchOperator, F> BatchSort<I, F> where F: Fn(&Row) -> Result<Vec<SqlValue>, String> {
    #[verifier::rlimit(80)]
    fn materialize(&mut self) -> (r: Result<(), String>)
        requires
            old(self).input.bop_inv(),
            forall|row: &Row| call_requires(old(self).key_fn, (row,)),
            old(self).output is None,
        ensures
            final(self).input.bop_inv(),
            final(self).key_fn == old(self).key_fn,
            final(self).desc@ == old(self).desc@,
            sort_outcome(old(self).input, old(self).key_fn, old(self).desc@, final(self).input, r is Ok, final(self).queued()),
    {
        let ghost start = self.input;
        let ghost f = self.key_fn;
        let ghost d = self.desc@;
        let ghost mut batches: Seq<Batch> = Seq::empty();
        let ghost mut keys: Seq<Vec<SqlValue>> = Seq::empty();
        proof { lemma_bruns_empty(start, DEFAULT_BATCH_SIZE); }
        let bs = default_batch_size();
        let mut sorted: Vec<(Vec<SqlValue>, Row)> = Vec::new();
        let mut pulled: u64 = 0;
        assert(rows_of_batches(batches) =~= Seq::<Seq<SqlValue>>::empty());
        assert(entries_of(rows_of_batches(batches), keys) =~= Seq::<Keyed>::empty());
        loop
            invariant
                self.input.bop_inv(),
                forall|row: &Row| call_requires(f, (row,)),
                self.key_fn == f,
                self.desc@ == d,
                self.output is None,
                start == old(self).input,
                f == old(self).key_fn,
                d == old(self).desc@,
                bs == DEFAULT_BATCH_SIZE,
                pulled as nat == batches.len(),
                bruns(start, self.input, bs, batches),
                keyed_rows(f, rows_of_batches(batches), keys),
                keys.len() == rows_of_batches(batches).len(),
                keyed_view(sorted@) == sort_entries(entries_of(rows_of_batches(batches), keys), d),
            decreases PULL_BUDGET - pulled,
        {
            if pulled == PULL_BUDGET {
                return Err(msg("pull budget exhausted while sorting"));
            }
            let ghost mid = self.input;
            let cr = self.input.next_batch(bs);
            assert(bruns(start, mid, bs, batches) && mid.bstep(&self.input, bs, cr));
            match cr {
                Err(e) => {
                    assert(exists|e2: String| #[trigger] mid.bstep(&self.input, DEFAULT_BATCH_SIZE, Err(e2)));
                    return Err(e);
                },
                Ok(None) => {
                    let mut rows: Vec<Row> = Vec::with_capacity(sorted.len());
                    let mut k: usize = 0;
                    let ghost sv = keyed_view(sorted@);
                    while k < sorted.len()
                        invariant
                            k <= sorted@.len(),
                            sv == keyed_view(sorted@),
                            rows_view(rows@) == entry_rows(sv).take(k as int),
                        decreases sorted@.len() - k,
                    {
                        let ghost before = rows@;
                        rows.push(clone_row(sorted[k].1.as_slice()));
                        assert(rows_view(rows@) =~= rows_view(before).push(sv[k as int].1));
                        assert(entry_rows(sv).take(k + 1) =~= entry_rows(sv).take(k as int).push(sv[k as int].1));
                        k = k + 1;
                    }
                    assert(entry_rows(sv).take(sorted@.len() as int) =~= entry_rows(sv));
                    self.output = Some(into_queue(rows));
                    assert(keyed_rows(f, rows_of_batches(batches), keys));
                    return Ok(());
                },
                Ok(Some(batch)) => {
                    let ghost rows0 = rows_of_batches(batches);
                    proof {
                        lemma_bruns_extend(start, mid, self.input, bs, batches, batch);
                    }
                    let ghost b2 = batches.push(batch);
                    assert(b2.drop_last() == batches);
                    assert(rows_of_batches(b2) == rows0 + rows_of(batch@));
                    assert(entries_of(rows_of_batches(b2), keys).take(keys.len() as int) =~= entries_of(rows0, keys));
                    let mut i: usize = 0;
                    #[verifier::loop_isolation(false)]
                    while i < batch.num_rows()
                        invariant
                            i <= batch@.row_count,
                            rows_of_batches(b2) == rows0 + rows_of(batch@),
                            keys.len() == rows0.len() + i,
                            keyed_rows(f, rows_of_batches(b2), keys),
                            keyed_view(sorted@) == sort_entries(entries_of(rows_of_batches(b2), keys).take(keys.len() as int), d),
                            self.key_fn == f,
                            self.desc@ == d,
                            self.output is None,
                        decreases batch@.row_count - i,
                    {
                        let row = batch.row(i);
                        assert(rows_of_batches(b2)[keys.len() as int] == row@);
                        let kr = (self.key_fn)(&row);
                        assert(key_says(f, rows_of_batches(b2)[keys.len() as int], kr));
                        match kr {
                            Err(e) => {
                                proof {
                                    assert(keyed_rows(f, rows_of_batches(b2), keys));
                                    assert(rows_of_batches(b2.drop_last()).len() <= keys.len());
                                    assert(key_says(f, rows_of_batches(b2)[keys.len() as int], Err(e)));
                                    assert(bruns(start, self.input, DEFAULT_BATCH_SIZE, b2));
                                }
                                return Err(e);
                            },
                            Ok(key) => {
                                let ghost kv = key;
                                proof {
                                    let k2 = keys.push(kv);
                                    assert forall|q: int| 0 <= q < k2.len() implies
                                        key_says(f, rows_of_batches(b2)[q], Ok(#[trigger] k2[q])) by {
                                        if q < keys.len() {
                                            assert(k2[q] == keys[q]);
                                        }
                                    }
                                    let take_new = entries_of(rows_of_batches(b2), k2).take(k2.len() as int);
                                    let take_old = entries_of(rows_of_batches(b2), keys).take(keys.len() as int);
                                    assert(take_new.drop_last() =~= take_old);
                                    assert(take_new.last() == (kv.deep_view(), row@));
                                }
                                sort_insert(&mut sorted, (key, row), &self.desc);
                                proof {
                                    keys = keys.push(kv);
                                }
                            },
                        }
                        i = i + 1;
                    }
                    proof {
                        batches = b2;
                        assert(entries_of(rows_of_batches(batches), keys).take(keys.len() as int)
                            =~= entries_of(rows_of_batches(batches), keys));
                    }
                    pulled = pulled + 1;
                },
            }
        }
    }
}

impl<I: BatchOperator, F> BatchOperator for BatchSort<I, F> where F: Fn(&Row) -> Result<Vec<SqlValue>, String> {
    open spec fn bop_inv(&self) -> bool {
        self.input.bop_inv() && forall|row: &Row| call_requires(self.key_fn, (row,))
    }

    /// The first pull drains the input (asked with the default batch size),
    /// computing each row's key as its batch arrives (a key error stops the
    /// pull); the rows are stably sorted by key; every pull then emits up to
    /// `n` sorted rows.
    open spec fn bstep(&self, after: &Self, n: usize, r: Result<Option<Batch>, String>) -> bool {
        &&& after.key_fn == self.key_fn
        &&& after.desc@ == self.desc@
        &&& match self.queued() {
            Some(q) => after.input == self.input && (after.queued() matches Some(q2) && emit_rows(q, n, r, q2)),
            None => {
                ||| r is Err && sort_outcome(self.input, self.key_fn, self.desc@, after.input, false, after.queued())
                ||| exists|s: Seq<Seq<SqlValue>>| #[trigger] sort_outcome(self.input, self.key_fn, self.desc@, after.input, true, Some(s))
                    && (after.queued() matches Some(q2) && emit_rows(s, n, r, q2))
            },
        }
    }

    #[verifier::spinoff_prover]
    fn next_batch(&mut self, batch_size: usize) -> (r: Result<Option<Batch>, String>) {
        if self.output.is_none() {
            match self.materialize() {
                Ok(()) => {},
                Err(e) => {
                    return Err(e);
                },
            }
        }
        match &mut self.output {
            Some(q) => emit_from(q, batch_size),
            None => Ok(None),
        }
    }
}

} // verus!

verus! {

// ── hash join ─────────────────────────────────────────────────────────

/// Moving rows from the top (end) of the stack `p` onto `out` until `out`
/// holds `n` rows or the stack is empty: the stack and the output after.
pub open spec fn drain_stack(p: Seq<Seq<SqlValue>>, out: Seq<Seq<SqlValue>>, n: usize) -> (Seq<Seq<SqlValue>>, Seq<Seq<SqlValue>>) {
    let room: int = if out.len() < n { n - out.len() } else { 0 };
    let k: int = if p.len() < room { p.len() as int } else { room };
    (p.take(p.len() - k), out + p.skip(p.len() - k).reverse())
}

/// One probe row pushes its joined rows onto the stack, which is then
/// reversed as a whole, when the row has matches.
pub open spec fn probe_push(p: Seq<Seq<SqlValue>>, lrow: Seq<SqlValue>, lkey: usize, build: Seq<Row>, rkey: usize) -> Seq<Seq<SqlValue>> {
    let outs = crate::executor::join_output(lrow, lkey, build, rkey);
    if outs.len() > 0 {
        (p + outs).reverse()
    } else {
        p
    }
}

/// Probing rows in order from stack `p`; `None` when a row lacks the key
/// column.
pub open spec fn probe_rows(p: Seq<Seq<SqlValue>>, rows: Seq<Seq<SqlValue>>, lkey: usize, build: Seq<Row>, rkey: usize) -> Option<Seq<Seq<SqlValue>>>
    decreases rows.len(),
{
    if rows.len() == 0 {
        Some(p)
    } else {
        match probe_rows(p, rows.drop_last(), lkey, build, rkey) {
            Some(q) => if lkey < rows.last().len() {
                Some(probe_push(q, rows.last(), lkey, build, rkey))
            } else {
                None
            },
            None => None,
        }
    }
}

proof fn lemma_probe_rows_none(p: Seq<Seq<SqlValue>>, rows: Seq<Seq<SqlValue>>, lkey: usize, build: Seq<Row>, rkey: usize, i: int)
    requires
        0 <= i <= rows.len(),
        probe_rows(p, rows.take(i), lkey, build, rkey) is None,
    ensures
        probe_rows(p, rows, lkey, build, rkey) is None,
    decreases rows.len(),
{
    if i < rows.len() {
        assert(rows.drop_last().take(i) =~= rows.take(i));
        lemma_probe_rows_none(p, rows.drop_last(), lkey, build, rkey, i);
    } else {
        assert(rows.take(i) =~= rows);
    }
}

/// Stack `pending` moved onto `out` (see [`drain_stack`]).
fn pop_into(pending: &mut Vec<Row>, out: &mut Vec<Row>, n: usize)
    ensures
        (rows_view(final(pending)@), rows_view(final(out)@)) == drain_stack(rows_view(old(pending)@), rows_view(old(out)@), n),
{
    let ghost p0 = rows_view(pending@);
    let ghost o0 = rows_view(out@);
    let ghost room: int = if o0.len() < n { n - o0.len() } else { 0 };
    let ghost mut j: int = 0;
    while out.len() < n && pending.len() > 0
        invariant
            0 <= j <= p0.len(),
            j <= room,
            room == (if o0.len() < n { n - o0.len() } else { 0int }),
            p0.len() == pending@.len() + j,
            out@.len() == o0.len() + j,
            rows_view(pending@) == p0.take(p0.len() - j),
            rows_view(out@) == o0 + p0.skip(p0.len() - j).reverse(),
        decreases pending@.len(),
    {
        let ghost bp = pending@;
        let ghost bo = out@;
        let x = pending.pop().unwrap();
        out.push(x);
        proof {
            assert(bp =~= pending@.push(x));
            assert(rows_view(bp)[bp.len() - 1] == x@);
            assert(p0.take(p0.len() - j)[p0.len() - j - 1] == p0[p0.len() - j - 1]);
            assert(x@ == p0[p0.len() - j - 1]);
            assert(rows_view(pending@) =~= p0.take(p0.len() - (j + 1)));
            assert(rows_view(out@) =~= rows_view(bo).push(x@));
            assert(p0.skip(p0.len() - (j + 1)).reverse() =~= p0.skip(p0.len() - j).reverse().push(p0[p0.len() - j - 1]));
            j = j + 1;
        }
    }
}

/// The rows in reverse order.
fn reverse_rows(v: Vec<Row>) -> (r: Vec<Row>)
    ensures
        r@ == v@.reverse(),
{
    let mut v = v;
    let mut r: Vec<Row> = Vec::with_capacity(v.len());
    let ghost all = v@;
    while v.len() > 0
        invariant
            all == v@ + r@.reverse(),
        decreases v@.len(),
    {
        let ghost bv = v@;
        let ghost br = r@;
        let x = v.pop().unwrap();
        r.push(x);
        assert(r@.reverse() =~= seq![x] + br.reverse());
        assert(bv =~= v@.push(x));
        assert(all =~= v@ + r@.reverse());
    }
    assert(r@ =~= all.reverse());
    r
}

/// Probe every row of `batch` (see [`probe_rows`]); on a row without the
/// key column the stack is cleared and the probe fails.
fn probe_batch(pending: &mut Vec<Row>, batch: &Batch, build: &Vec<Row>, rkey: usize, lkey: usize) -> (r: Result<(), String>)
    requires
        forall|i: int| 0 <= i < build@.len() ==> rkey < (#[trigger] build@[i])@.len(),
    ensures
        match probe_rows(rows_view(old(pending)@), rows_of(batch@), lkey, build@, rkey) {
            Some(p2) => r is Ok && rows_view(final(pending)@) == p2,
            None => r is Err && final(pending)@.len() == 0,
        },
{
    let ghost p0 = rows_view(pending@);
    let ghost rows = rows_of(batch@);
    assert(rows.take(0) =~= Seq::<Seq<SqlValue>>::empty());
    let mut i: usize = 0;
    while i < batch.num_rows()
        invariant
            i <= batch@.row_count,
            rows == rows_of(batch@),
            forall|q: int| 0 <= q < build@.len() ==> rkey < (#[trigger] build@[q])@.len(),
            probe_rows(p0, rows.take(i as int), lkey, build@, rkey) == Some(rows_view(pending@)),
        decreases batch@.row_count - i,
    {
        let lrow = batch.row(i);
        assert(rows.take(i + 1).drop_last() =~= rows.take(i as int));
        assert(rows.take(i + 1).last() == lrow@);
        if lkey >= lrow.len() {
            proof {
                lemma_probe_rows_none(p0, rows, lkey, build@, rkey, i + 1);
            }
            pending.clear();
            return Err(msg("join key column out of range"));
        }
        let outs = crate::executor::join_probe(build, rkey, lkey, &lrow);
        if outs.len() > 0 {
            let mut outs = outs;
            let ghost before = pending@;
            let ghost ov = outs@.map_values(|x: Row| x@);
            pending.append(&mut outs);
            let mut tmp: Vec<Row> = Vec::new();
            std::mem::swap(&mut tmp, pending);
            let ghost joined = tmp@;
            *pending = reverse_rows(tmp);
            proof {
                assert(rows_view(joined) =~= rows_view(before) + ov);
                assert(rows_view(pending@) =~= rows_view(joined).reverse());
            }
        }
        i = i + 1;
    }
    assert(rows.take(batch@.row_count as int) =~= rows);
    Ok(())
}

/// One call of the join's `next_batch(n)` from stack `p` and output `out`:
/// stacked rows move to the output; once it holds `n` rows they are emitted;
/// otherwise the next probe batch is pulled (`batches` are the batches the
/// pulls returned, `end` how a last pull ended, if one did, and at most
/// `budget` pulls are made), its rows are probed, and the walk repeats.
/// The outcome is `Ok(Some(rows))` for emitted rows, `Ok(None)` when the
/// join is done, `Err(())` on failure, with the stack left behind; `None`
/// when the pulls do not fit this course.
pub open spec fn join_walk(
    p: Seq<Seq<SqlValue>>,
    out: Seq<Seq<SqlValue>>,
    n: usize,
    batches: Seq<Batch>,
    end: Option<Result<Option<Batch>, String>>,
    budget: nat,
    lkey: usize,
    build: Seq<Row>,
    rkey: usize,
) -> Option<(Result<Option<Seq<Seq<SqlValue>>>, ()>, Seq<Seq<SqlValue>>)>
    decreases batches.len(),
{
    let d = drain_stack(p, out, n);
    let p1 = d.0;
    let o1 = d.1;
    if o1.len() >= n {
        if batches.len() == 0 && end is None { Some((Ok(Some(o1)), p1)) } else { None }
    } else if budget == 0 {
        if batches.len() == 0 && end is None { Some((Err(()), p1)) } else { None }
    } else if batches.len() == 0 {
        match end {
            Some(Err(_)) => Some((Err(()), p1)),
            Some(Ok(None)) => Some((if o1.len() == 0 { Ok(None) } else { Ok(Some(o1)) }, p1)),
            _ => None,
        }
    } else {
        match probe_rows(p1, rows_of(batches[0]@), lkey, build, rkey) {
            Some(p2) => join_walk(p2, o1, n, batches.drop_first(), end, (budget - 1) as nat, lkey, build, rkey),
            None => if batches.len() == 1 && end is None { Some((Err(()), Seq::empty())) } else { None },
        }
    }
}

/// `r` is what a walk outcome returns: emitted rows as one batch (an error
/// when their widths differ), no batch when done, or an error.
pub open spec fn join_result(o: Result<Option<Seq<Seq<SqlValue>>>, ()>, r: Result<Option<Batch>, String>) -> bool {
    match o {
        Ok(Some(rows)) => match rows_batch(rows) {
            Some(bv) => r matches Ok(Some(b)) && b@ == bv,
            None => r is Err,
        },
        Ok(None) => r == Ok::<Option<Batch>, String>(None),
        Err(_) => r is Err,
    }
}

proof fn lemma_walk_batch(
    pc: Seq<Seq<SqlValue>>,
    oc: Seq<Seq<SqlValue>>,
    n: usize,
    batch: Batch,
    fut: Seq<Batch>,
    e: Option<Result<Option<Batch>, String>>,
    bud: nat,
    lkey: usize,
    build: Seq<Row>,
    rkey: usize,
)
    requires
        bud > 0,
        drain_stack(pc, oc, n).1.len() < n,
        probe_rows(drain_stack(pc, oc, n).0, rows_of(batch@), lkey, build, rkey) is Some,
    ensures
        join_walk(pc, oc, n, seq![batch] + fut, e, bud, lkey, build, rkey) == join_walk(
            probe_rows(drain_stack(pc, oc, n).0, rows_of(batch@), lkey, build, rkey)->0,
            drain_stack(pc, oc, n).1, n, fut, e, (bud - 1) as nat, lkey, build, rkey),
{
    assert((seq![batch] + fut).drop_first() =~= fut);
    assert((seq![batch] + fut)[0] == batch);
}

/// Building a join side from the batches of `right` failed with `e`: after
/// some batches, a pull returned the error `e` itself, or the pull budget
/// ran out, or the input ended and a row lacked the key column.
pub open spec fn batch_build_failed<R: BatchOperator>(right: R, rkey: usize, e: String) -> bool {
    exists|batches: Seq<Batch>, mid: R| #[trigger] bruns(right, mid, DEFAULT_BATCH_SIZE, batches) && {
        ||| exists|rend: R| #[trigger] mid.bstep(&rend, DEFAULT_BATCH_SIZE, Err(e))
        ||| batches.len() == PULL_BUDGET
        ||| (exists|rend: R| #[trigger] mid.bstep(&rend, DEFAULT_BATCH_SIZE, Ok(None)))
            && exists|k: int| 0 <= k < rows_of_batches(batches).len()
                && (#[trigger] rows_of_batches(batches)[k]).len() <= rkey
    }
}

// ── what a drained join returns ───────────────────────────────────────

proof fn lemma_ms_concat<A>(a: Seq<A>, b: Seq<A>)
    ensures
        (a + b).to_multiset() == a.to_multiset().add(b.to_multiset()),
{
    vstd::seq_lib::lemma_multiset_commutative(a, b);
}

proof fn lemma_ms_empty<A>(s: Seq<A>)
    requires
        s.len() == 0,
    ensures
        s.to_multiset() == vstd::multiset::Multiset::<A>::empty(),
{
    broadcast use vstd::multiset::group_multiset_axioms;
    s.to_multiset_ensures();
    assert(s.to_multiset() =~= vstd::multiset::Multiset::<A>::empty());
}

proof fn lemma_drain_stack_ms(p: Seq<Seq<SqlValue>>, out: Seq<Seq<SqlValue>>, n: usize)
    ensures
        drain_stack(p, out, n).0.to_multiset().add(drain_stack(p, out, n).1.to_multiset())
            == p.to_multiset().add(out.to_multiset()),
{
    broadcast use vstd::multiset::group_multiset_axioms;
    let room: int = if out.len() < n { n - out.len() } else { 0 };
    let k: int = if p.len() < room { p.len() as int } else { room };
    let m = p.len() - k;
    let t = p.take(m);
    let u = p.skip(m);
    assert(t + u =~= p);
    lemma_ms_concat(t, u);
    lemma_ms_concat(out, u.reverse());
    u.lemma_reverse_to_multiset();
    assert(t.to_multiset().add(out.to_multiset().add(u.to_multiset())) =~= p.to_multiset().add(out.to_multiset()));
}

proof fn lemma_probe_rows_ms(p: Seq<Seq<SqlValue>>, rows: Seq<Seq<SqlValue>>, lkey: usize, build: Seq<Row>, rkey: usize)
    requires
        probe_rows(p, rows, lkey, build, rkey) is Some,
    ensures
        probe_rows(p, rows, lkey, build, rkey)->0.to_multiset()
            == p.to_multiset().add(crate::query::join_all(rows, lkey, build, rkey).to_multiset()),
    decreases rows.len(),
{
    broadcast use vstd::multiset::group_multiset_axioms;
    if rows.len() == 0 {
        assert(crate::query::join_all(rows, lkey, build, rkey) =~= Seq::<Seq<SqlValue>>::empty());
        lemma_ms_empty(Seq::<Seq<SqlValue>>::empty());
        assert(p.to_multiset().add(Seq::<Seq<SqlValue>>::empty().to_multiset()) =~= p.to_multiset());
    } else {
        lemma_probe_rows_ms(p, rows.drop_last(), lkey, build, rkey);
        let q = probe_rows(p, rows.drop_last(), lkey, build, rkey)->0;
        let outs = crate::executor::join_output(rows.last(), lkey, build, rkey);
        let prev = crate::query::join_all(rows.drop_last(), lkey, build, rkey);
        lemma_ms_concat(prev, outs);
        if outs.len() > 0 {
            lemma_ms_concat(q, outs);
            (q + outs).lemma_reverse_to_multiset();
        } else {
            assert(outs =~= Seq::<Seq<SqlValue>>::empty());
            lemma_ms_empty(outs);
        }
        assert(p.to_multiset().add(prev.to_multiset()).add(outs.to_multiset())
            =~= p.to_multiset().add(prev.to_multiset().add(outs.to_multiset())));
    }
}

proof fn lemma_join_all_concat(a: Seq<Seq<SqlValue>>, b: Seq<Seq<SqlValue>>, lkey: usize, build: Seq<Row>, rkey: usize)
    ensures
        crate::query::join_all(a + b, lkey, build, rkey)
            == crate::query::join_all(a, lkey, build, rkey) + crate::query::join_all(b, lkey, build, rkey),
    decreases b.len(),
{
    if b.len() == 0 {
        assert(a + b =~= a);
        assert(crate::query::join_all(b, lkey, build, rkey) =~= Seq::<Seq<SqlValue>>::empty());
        assert(crate::query::join_all(a, lkey, build, rkey) + Seq::<Seq<SqlValue>>::empty()
            =~= crate::query::join_all(a, lkey, build, rkey));
    } else {
        lemma_join_all_concat(a, b.drop_last(), lkey, build, rkey);
        assert((a + b).drop_last() =~= a + b.drop_last());
        assert((a + b).last() == b.last());
        let ja = crate::query::join_all(a, lkey, build, rkey);
        let jb = crate::query::join_all(b.drop_last(), lkey, build, rkey);
        let o = crate::executor::join_output(b.last(), lkey, build, rkey);
        assert(ja + jb + o =~= ja + (jb + o));
    }
}

/// The rows of an outcome of a walk: the emitted rows, or none.
pub open spec fn walk_rows(o: Result<Option<Seq<Seq<SqlValue>>>, ()>) -> Seq<Seq<SqlValue>> {
    match o {
        Ok(Some(rows)) => rows,
        _ => Seq::empty(),
    }
}

proof fn lemma_join_walk_ms(
    p: Seq<Seq<SqlValue>>,
    out: Seq<Seq<SqlValue>>,
    n: usize,
    batches: Seq<Batch>,
    end: Option<Result<Option<Batch>, String>>,
    budget: nat,
    lkey: usize,
    build: Seq<Row>,
    rkey: usize,
)
    requires
        n > 0,
        join_walk(p, out, n, batches, end, budget, lkey, build, rkey) matches Some(w) && w.0 is Ok,
    ensures
        ({
            let w = join_walk(p, out, n, batches, end, budget, lkey, build, rkey)->0;
            &&& walk_rows(w.0).to_multiset().add(w.1.to_multiset())
                == p.to_multiset().add(out.to_multiset()).add(
                    crate::query::join_all(rows_of_batches(batches), lkey, build, rkey).to_multiset())
            &&& w.0 == Ok::<Option<Seq<Seq<SqlValue>>>, ()>(None) ==> w.1.len() == 0
        }),
    decreases batches.len(),
{
    broadcast use vstd::multiset::group_multiset_axioms;
    let d = drain_stack(p, out, n);
    lemma_drain_stack_ms(p, out, n);
    let w = join_walk(p, out, n, batches, end, budget, lkey, build, rkey)->0;
    if d.1.len() >= n || budget == 0 || batches.len() == 0 {
        assert(batches.len() == 0);
        assert(rows_of_batches(batches) =~= Seq::<Seq<SqlValue>>::empty());
        assert(crate::query::join_all(rows_of_batches(batches), lkey, build, rkey) =~= Seq::<Seq<SqlValue>>::empty());
        assert(walk_rows(w.0) == d.1 || (w.0 == Ok::<Option<Seq<Seq<SqlValue>>>, ()>(None) && d.1.len() == 0));
        if w.0 == Ok::<Option<Seq<Seq<SqlValue>>>, ()>(None) {
            assert(d.1 =~= Seq::<Seq<SqlValue>>::empty());
            assert(out.len() == 0);
        }
        lemma_ms_empty(Seq::<Seq<SqlValue>>::empty());
        if d.1.len() == 0 {
            assert(d.1 =~= Seq::<Seq<SqlValue>>::empty());
        }
        assert(walk_rows(w.0).to_multiset() =~= d.1.to_multiset());
        assert(p.to_multiset().add(out.to_multiset()).add(Seq::<Seq<SqlValue>>::empty().to_multiset())
            =~= p.to_multiset().add(out.to_multiset()));
    } else {
        let rows0 = rows_of(batches[0]@);
        let p2 = probe_rows(d.0, rows0, lkey, build, rkey)->0;
        lemma_probe_rows_ms(d.0, rows0, lkey, build, rkey);
        let rest = batches.drop_first();
        lemma_join_walk_ms(p2, d.1, n, rest, end, (budget - 1) as nat, lkey, build, rkey);
        assert(batches =~= seq![batches[0]] + rest);
        lemma_rows_of_batches_cons(batches[0], rest);
        lemma_join_all_concat(rows0, rows_of_batches(rest), lkey, build, rkey);
        lemma_ms_concat(crate::query::join_all(rows0, lkey, build, rkey), crate::query::join_all(rows_of_batches(rest), lkey, build, rkey));
    }
}

/// In one pull of join state `s`, the probe input returned the batches
/// `lb`.
pub open spec fn probe_took<L: BatchOperator>(s: BatchHashJoin<L>, lb: Seq<Batch>) -> bool {
    exists|mid: L| #[trigger] bruns(s.left, mid, DEFAULT_BATCH_SIZE, lb)
}

/// The rows a pull returned: those of its batch, or none.
pub open spec fn pulled_rows(r: Result<Option<Batch>, String>) -> Seq<Seq<SqlValue>> {
    match r {
        Ok(Some(b)) => rows_of(b@),
        _ => Seq::empty(),
    }
}

/// The rows of the batches the probe input returned, pull after pull.
pub open spec fn concat_rows(lbs: Seq<Seq<Batch>>) -> Seq<Seq<SqlValue>>
    decreases lbs.len(),
{
    if lbs.len() == 0 {
        Seq::empty()
    } else {
        concat_rows(lbs.drop_last()) + rows_of_batches(lbs.last())
    }
}

proof fn lemma_rows_batch_back(rows: Seq<Seq<SqlValue>>, bv: BatchV)
    requires
        rows_batch(rows) == Some(bv),
    ensures
        rows_of(bv) == rows,
{
    if rows.len() == 0 {
        assert(rows_of(bv) =~= rows);
    } else {
        crate::batch::lemma_rows_batch_roundtrip(rows, rows[0].len());
    }
}

/// One pull of a join, counted as multisets: what it returns and what it
/// keeps pending are what was pending and the joined rows of the probe
/// rows it pulled meanwhile; after `Ok(None)` nothing is pending.
proof fn lemma_join_call_ms<L: BatchOperator>(a: BatchHashJoin<L>, b: BatchHashJoin<L>, n: usize, r: Result<Option<Batch>, String>)
    requires
        n > 0,
        a.bstep(&b, n, r),
        r is Ok,
    ensures
        exists|lb: Seq<Batch>| #[trigger] probe_took(a, lb)
            && pulled_rows(r).to_multiset().add(rows_view(b.pending@).to_multiset())
                == rows_view(a.pending@).to_multiset().add(
                    crate::query::join_all(rows_of_batches(lb), a.lkey, a.build@, a.rkey).to_multiset()),
        r == Ok::<Option<Batch>, String>(None) ==> b.pending@.len() == 0,
{
    broadcast use vstd::multiset::group_multiset_axioms;
    let (lb, mid, end) = choose|batches: Seq<Batch>, mid: L, end: Option<Result<Option<Batch>, String>>|
        #![trigger bruns(a.left, mid, DEFAULT_BATCH_SIZE, batches), join_walk(rows_view(a.pending@), Seq::empty(), n, batches, end, PULL_BUDGET as nat, a.lkey, a.build@, a.rkey)]
        bruns(a.left, mid, DEFAULT_BATCH_SIZE, batches)
        && match end {
            None => b.left == mid,
            Some(e) => mid.bstep(&b.left, DEFAULT_BATCH_SIZE, e),
        }
        && (join_walk(rows_view(a.pending@), Seq::empty(), n, batches, end, PULL_BUDGET as nat, a.lkey, a.build@, a.rkey)
            matches Some(o) && o.1 == rows_view(b.pending@) && join_result(o.0, r));
    let w = join_walk(rows_view(a.pending@), Seq::empty(), n, lb, end, PULL_BUDGET as nat, a.lkey, a.build@, a.rkey)->0;
    assert(w.0 is Ok);
    lemma_join_walk_ms(rows_view(a.pending@), Seq::empty(), n, lb, end, PULL_BUDGET as nat, a.lkey, a.build@, a.rkey);
    lemma_ms_empty(Seq::<Seq<SqlValue>>::empty());
    match w.0 {
        Ok(Some(rows)) => {
            let bb = r->Ok_0->Some_0;
            lemma_rows_batch_back(rows, bb@);
        },
        _ => {},
    }
    assert(pulled_rows(r) == walk_rows(w.0));
    assert(rows_view(a.pending@).to_multiset().add(Seq::<Seq<SqlValue>>::empty().to_multiset())
        =~= rows_view(a.pending@).to_multiset());
    assert(bruns(a.left, mid, DEFAULT_BATCH_SIZE, lb));
    assert(probe_took(a, lb));
}

proof fn lemma_join_trace_ms<L: BatchOperator>(states: Seq<BatchHashJoin<L>>, n: usize, outs: Seq<Batch>)
    requires
        n > 0,
        btrace(states, n, outs),
    ensures
        forall|k: int| 0 <= k < states.len() ==> (#[trigger] states[k]).lkey == states[0].lkey
            && states[k].rkey == states[0].rkey && states[k].build == states[0].build,
        exists|lbs: Seq<Seq<Batch>>| {
            &&& lbs.len() == outs.len()
            &&& forall|k: int| 0 <= k < lbs.len() ==> #[trigger] probe_took(states[k], lbs[k])
            &&& rows_of_batches(outs).to_multiset().add(rows_view(states.last().pending@).to_multiset())
                == rows_view(states[0].pending@).to_multiset().add(
                    crate::query::join_all(concat_rows(lbs), states[0].lkey, states[0].build@, states[0].rkey).to_multiset())
        },
    decreases outs.len(),
{
    broadcast use vstd::multiset::group_multiset_axioms;
    if outs.len() == 0 {
        let lbs = Seq::<Seq<Batch>>::empty();
        assert(concat_rows(lbs) =~= Seq::<Seq<SqlValue>>::empty());
        assert(rows_of_batches(outs) =~= Seq::<Seq<SqlValue>>::empty());
        lemma_ms_empty(Seq::<Seq<SqlValue>>::empty());
        assert(crate::query::join_all(concat_rows(lbs), states[0].lkey, states[0].build@, states[0].rkey) =~= Seq::<Seq<SqlValue>>::empty());
        assert(states.last() == states[0]);
        assert(vstd::multiset::Multiset::<Seq<SqlValue>>::empty().add(rows_view(states[0].pending@).to_multiset())
            =~= rows_view(states[0].pending@).to_multiset().add(vstd::multiset::Multiset::<Seq<SqlValue>>::empty()));
    } else {
        let m = outs.len() - 1;
        let st2 = states.drop_last();
        let o2 = outs.drop_last();
        assert(btrace(st2, n, o2)) by {
            assert forall|k: int| 0 <= k < o2.len() implies #[trigger] st2[k].bstep(&st2[k + 1], n, Ok(Some(o2[k]))) by {
                assert(st2[k] == states[k] && st2[k + 1] == states[k + 1] && o2[k] == outs[k]);
                assert(states[k].bstep(&states[k + 1], n, Ok(Some(outs[k]))));
            }
        }
        lemma_join_trace_ms(st2, n, o2);
        let lbs2 = choose|lbs: Seq<Seq<Batch>>| {
            &&& lbs.len() == o2.len()
            &&& forall|k: int| 0 <= k < lbs.len() ==> #[trigger] probe_took(st2[k], lbs[k])
            &&& rows_of_batches(o2).to_multiset().add(rows_view(st2.last().pending@).to_multiset())
                == rows_view(st2[0].pending@).to_multiset().add(
                    crate::query::join_all(concat_rows(lbs), st2[0].lkey, st2[0].build@, st2[0].rkey).to_multiset())
        };
        let a = states[m];
        let b = states[m + 1];
        assert(a.bstep(&b, n, Ok(Some(outs[m]))));
        lemma_join_call_ms(a, b, n, Ok(Some(outs[m])));
        let lb = choose|lb: Seq<Batch>| #[trigger] probe_took(a, lb)
            && pulled_rows(Ok(Some(outs[m]))).to_multiset().add(rows_view(b.pending@).to_multiset())
                == rows_view(a.pending@).to_multiset().add(
                    crate::query::join_all(rows_of_batches(lb), a.lkey, a.build@, a.rkey).to_multiset());
        let lbs = lbs2.push(lb);
        assert(st2.last() == a);
        assert(st2[0] == states[0]);
        assert forall|k: int| 0 <= k < states.len() implies (#[trigger] states[k]).lkey == states[0].lkey
            && states[k].rkey == states[0].rkey && states[k].build == states[0].build by {
            if k < st2.len() {
                assert(states[k] == st2[k]);
            }
        }
        assert forall|k: int| 0 <= k < lbs.len() implies #[trigger] probe_took(states[k], lbs[k]) by {
            if k < m {
                assert(lbs[k] == lbs2[k] && states[k] == st2[k]);
            } else {
                assert(lbs[k] == lb);
            }
        }
        assert(lbs.drop_last() =~= lbs2);
        assert(concat_rows(lbs) == concat_rows(lbs2) + rows_of_batches(lb));
        let lk = states[0].lkey;
        let bd = states[0].build@;
        let rk = states[0].rkey;
        lemma_join_all_concat(concat_rows(lbs2), rows_of_batches(lb), lk, bd, rk);
        lemma_ms_concat(crate::query::join_all(concat_rows(lbs2), lk, bd, rk), crate::query::join_all(rows_of_batches(lb), lk, bd, rk));
        assert(outs.drop_last() =~= o2);
        lemma_ms_concat(rows_of_batches(o2), rows_of(outs[m]@));
        assert(rows_of_batches(outs) == rows_of_batches(o2) + rows_of(outs.last()@));
        assert(outs.last() == outs[m]);
        let A = rows_of_batches(o2).to_multiset();
        let X = rows_of(outs[m]@).to_multiset();
        let P0 = rows_view(states[0].pending@).to_multiset();
        let Pa = rows_view(a.pending@).to_multiset();
        let Pb = rows_view(b.pending@).to_multiset();
        let J2 = crate::query::join_all(concat_rows(lbs2), lk, bd, rk).to_multiset();
        let J1 = crate::query::join_all(rows_of_batches(lb), lk, bd, rk).to_multiset();
        assert(A.add(Pa) == P0.add(J2));
        assert(X.add(Pb) == Pa.add(J1));
        assert forall|v: Seq<SqlValue>| #[trigger] A.add(X).add(Pb).count(v) == P0.add(J2.add(J1)).count(v) by {
            assert(A.add(Pa).count(v) == P0.add(J2).count(v));
            assert(X.add(Pb).count(v) == Pa.add(J1).count(v));
        }
        assert(A.add(X).add(Pb) =~= P0.add(J2.add(J1)));
        assert(states.last() == b);
    }
}

/// Pulling a join that has nothing pending until it answers `Ok(None)`:
/// the rows of all the batches it returned are, as a multiset, the
/// nested-loop join of the probe rows it pulled (pull `k` took the batches
/// `lbs[k]` from the probe input), and nothing is left pending.
pub proof fn lemma_join_drains<L: BatchOperator>(states: Seq<BatchHashJoin<L>>, n: usize, outs: Seq<Batch>, last: BatchHashJoin<L>)
    requires
        n > 0,
        btrace(states, n, outs),
        states.last().bstep(&last, n, Ok(None)),
        states[0].pending@.len() == 0,
    ensures
        last.pending@.len() == 0,
        exists|lbs: Seq<Seq<Batch>>| {
            &&& lbs.len() == states.len()
            &&& forall|k: int| 0 <= k < lbs.len() ==> #[trigger] probe_took(states[k], lbs[k])
            &&& rows_of_batches(outs).to_multiset()
                == crate::query::join_all(concat_rows(lbs), states[0].lkey, states[0].build@, states[0].rkey).to_multiset()
        },
{
    broadcast use vstd::multiset::group_multiset_axioms;
    lemma_join_trace_ms(states, n, outs);
    let lbs2 = choose|lbs: Seq<Seq<Batch>>| {
        &&& lbs.len() == outs.len()
        &&& forall|k: int| 0 <= k < lbs.len() ==> #[trigger] probe_took(states[k], lbs[k])
        &&& rows_of_batches(outs).to_multiset().add(rows_view(states.last().pending@).to_multiset())
            == rows_view(states[0].pending@).to_multiset().add(
                crate::query::join_all(concat_rows(lbs), states[0].lkey, states[0].build@, states[0].rkey).to_multiset())
    };
    let a = states.last();
    lemma_join_call_ms(a, last, n, Ok(None));
    let lb = choose|lb: Seq<Batch>| #[trigger] probe_took(a, lb)
        && pulled_rows(Ok(None)).to_multiset().add(rows_view(last.pending@).to_multiset())
            == rows_view(a.pending@).to_multiset().add(
                crate::query::join_all(rows_of_batches(lb), a.lkey, a.build@, a.rkey).to_multiset());
    let lbs = lbs2.push(lb);
    let m = outs.len();
    assert(a == states[m as int]);
    assert(a.lkey == states[0].lkey && a.rkey == states[0].rkey && a.build == states[0].build);
    assert forall|k: int| 0 <= k < lbs.len() implies #[trigger] probe_took(states[k], lbs[k]) by {
        if k < m {
            assert(lbs[k] == lbs2[k]);
        } else {
            assert(lbs[k] == lb);
        }
    }
    assert(lbs.drop_last() =~= lbs2);
    let lk = states[0].lkey;
    let bd = states[0].build@;
    let rk = states[0].rkey;
    lemma_join_all_concat(concat_rows(lbs2), rows_of_batches(lb), lk, bd, rk);
    lemma_ms_concat(crate::query::join_all(concat_rows(lbs2), lk, bd, rk), crate::query::join_all(rows_of_batches(lb), lk, bd, rk));
    lemma_ms_empty(rows_view(states[0].pending@));
    lemma_ms_empty(rows_view(last.pending@));
    lemma_ms_empty(pulled_rows(Ok::<Option<Batch>, String>(None)));
    let A = rows_of_batches(outs).to_multiset();
    let Pa = rows_view(a.pending@).to_multiset();
    let J2 = crate::query::join_all(concat_rows(lbs2), lk, bd, rk).to_multiset();
    let J1 = crate::query::join_all(rows_of_batches(lb), lk, bd, rk).to_multiset();
    let E = vstd::multiset::Multiset::<Seq<SqlValue>>::empty();
    assert(A.add(Pa) == E.add(J2));
    assert(E.add(E) == Pa.add(J1));
    assert forall|v: Seq<SqlValue>| #[trigger] A.count(v) == J2.add(J1).count(v) by {
        assert(A.add(Pa).count(v) == E.add(J2).count(v));
        assert(E.add(E).count(v) == Pa.add(J1).count(v));
    }
    assert(A =~= J2.add(J1));
}

/// Inner equi-join over batches: materializes the right (build) input,
/// probes with the left batch by batch. NULL keys never match.
pub struct BatchHashJoin<L> {
    pub left: L,
    pub build: Vec<Row>,
    pub rkey: usize,
    /// Joined rows still to emit, a stack (the last row goes first).
    pub pending: Vec<Row>,
    pub lkey: usize,
    pub lcols: usize,
    /// Size asked of the probe input.
    pub batch_size: usize,
}

impl<L: BatchOperator> BatchHashJoin<L> {
    /// The probe operator.
    pub open spec fn probe(&self) -> L {
        self.left
    }

    /// The build rows.
    pub open spec fn build_rows(&self) -> Seq<Row> {
        self.build@
    }

    /// The stack of joined rows still to emit (the last one goes first).
    pub open spec fn stacked(&self) -> Seq<Seq<SqlValue>> {
        rows_view(self.pending@)
    }

    /// Key positions (probe, build).
    pub open spec fn keys(&self) -> (usize, usize) {
        (self.lkey, self.rkey)
    }

    /// Drain `right` (asked with the default batch size) into the build
    /// side, then probe with `left`. A right row without the key column is
    /// an error.
    pub fn new<R: BatchOperator>(left: L, right: R, lkey: usize, rkey: usize, lcols: usize) -> (res: Result<Self, String>)
        requires
            right.bop_inv(),
            left.bop_inv(),
        ensures
            match res {
                Ok(j) => {
                    &&& j.probe() == left
                    &&& j.keys() == (lkey, rkey)
                    &&& j.stacked().len() == 0
                    &&& j.bop_inv()
                    &&& exists|batches: Seq<Batch>, rend: R, rows: Seq<Row>|
                        #![trigger bdrains(right, rend, DEFAULT_BATCH_SIZE, batches, Ok(None)), rows_view(rows)]
                        bdrains(right, rend, DEFAULT_BATCH_SIZE, batches, Ok(None))
                        && rows_view(rows) == rows_of_batches(batches)
                        && (forall|i: int| 0 <= i < rows.len() ==> rkey < (#[trigger] rows[i])@.len())
                        && j.build_rows() == crate::executor::build_side(rows, rkey)
                },
                Err(x) => batch_build_failed(right, rkey, x),
            },
    {
        let mut right = right;
        let ghost start = right;
        let mut buf: Vec<Row> = Vec::new();
        let dr = drain_into(&mut right, &mut buf);
        assert(rows_view(Seq::<Row>::empty()) =~= Seq::<Seq<SqlValue>>::empty());
        let ghost rend = right;
        match dr {
            Err(e) => {
                assert(batch_build_failed(start, rkey, e));
                return Err(e);
            },
            Ok(()) => {},
        }
        let ghost all = buf@;
        let ghost (wb, wm) = choose|b: Seq<Batch>, m: R| #[trigger] bruns(start, m, DEFAULT_BATCH_SIZE, b)
            && rows_view(buf@) == rows_view(Seq::<Row>::empty()) + rows_of_batches(b)
            && m.bstep(&rend, DEFAULT_BATCH_SIZE, Ok(None));
        assert(bdrains(start, rend, DEFAULT_BATCH_SIZE, wb, Ok(None)));
        assert(rows_view(all) == rows_of_batches(wb));
        let mut rq = reverse_rows(buf);
        let mut build: Vec<Row> = Vec::new();
        let ghost mut i: int = 0;
        #[verifier::loop_isolation(false)]
        while rq.len() > 0
            invariant
                0 <= i <= all.len(),
                rq@.len() == all.len() - i,
                rq@.reverse() == all.skip(i),
                forall|q: int| 0 <= q < i ==> rkey < (#[trigger] all[q])@.len(),
                forall|q: int| 0 <= q < build@.len() ==> rkey < (#[trigger] build@[q])@.len(),
                build@ == crate::executor::build_side(all.take(i), rkey),
            decreases rq@.len(),
        {
            let ghost before = rq@;
            let row = rq.pop().unwrap();
            proof {
                assert(before =~= rq@.push(row));
                assert(before.reverse() =~= seq![row] + rq@.reverse());
                assert(before.reverse()[0] == row);
                assert(all.skip(i)[0] == all[i]);
                assert(all.skip(i + 1) =~= all.skip(i).drop_first());
                assert((seq![row] + rq@.reverse()).drop_first() =~= rq@.reverse());
                assert(rq@.reverse() =~= all.skip(i + 1));
            }
            if rkey >= row.len() {
                assert(rows_view(all)[i] == all[i]@);
                let m = msg("join key column out of range");
                assert(batch_build_failed(start, rkey, m));
                return Err(m);
            }
            proof {
                let t2 = all.take(i + 1);
                assert(t2.drop_last() =~= all.take(i));
                assert(crate::executor::build_side(t2, rkey) == if !(all[i]@[rkey as int] is Null) {
                    crate::executor::build_side(all.take(i), rkey).push(all[i])
                } else {
                    crate::executor::build_side(all.take(i), rkey)
                }) by {
                    reveal_with_fuel(Seq::filter, 1);
                    assert(t2.last() == all[i]);
                }
            }
            if !is_null_value(&row[rkey]) {
                build.push(row);
            }
            proof {
                i = i + 1;
            }
        }
        assert(all.take(all.len() as int) =~= all);
        let j = BatchHashJoin { left, build, rkey, pending: Vec::new(), lkey, lcols, batch_size: default_batch_size() };
        assert(j.stacked() =~= Seq::<Seq<SqlValue>>::empty());
        Ok(j)
    }
}

impl<L: BatchOperator> BatchOperator for BatchHashJoin<L> {
    open spec fn bop_inv(&self) -> bool {
        &&& self.left.bop_inv()
        &&& self.batch_size == DEFAULT_BATCH_SIZE
        &&& forall|i: int| 0 <= i < self.build@.len() ==> self.rkey < (#[trigger] self.build@[i])@.len()
    }

    /// See [`join_walk`]: the probe input is asked with the default batch
    /// size, and the stack that the walk leaves is kept for the next call.
    open spec fn bstep(&self, after: &Self, n: usize, r: Result<Option<Batch>, String>) -> bool {
        &&& after.build == self.build
        &&& after.lkey == self.lkey
        &&& after.rkey == self.rkey
        &&& after.batch_size == self.batch_size
        &&& exists|batches: Seq<Batch>, mid: L, end: Option<Result<Option<Batch>, String>>|
            #![trigger bruns(self.left, mid, DEFAULT_BATCH_SIZE, batches), join_walk(rows_view(self.pending@), Seq::empty(), n, batches, end, PULL_BUDGET as nat, self.lkey, self.build@, self.rkey)]
            bruns(self.left, mid, DEFAULT_BATCH_SIZE, batches)
            && match end {
                None => after.left == mid,
                Some(e) => mid.bstep(&after.left, DEFAULT_BATCH_SIZE, e),
            }
            && (join_walk(rows_view(self.pending@), Seq::empty(), n, batches, end, PULL_BUDGET as nat, self.lkey, self.build@, self.rkey)
                matches Some(o) && o.1 == rows_view(after.pending@) && join_result(o.0, r))
    }

    #[verifier::rlimit(80)]
    fn next_batch(&mut self, batch_size: usize) -> (r: Result<Option<Batch>, String>) {
        let ghost start = self.left;
        let ghost p0 = rows_view(self.pending@);
        let ghost e0: Seq<Seq<SqlValue>> = Seq::empty();
        let ghost mut batches: Seq<Batch> = Seq::empty();
        proof { lemma_bruns_empty(start, DEFAULT_BATCH_SIZE); }
        let mut out: Vec<Row> = Vec::new();
        let mut pulled: u64 = 0;
        assert(rows_view(out@) =~= e0);
        assert forall|fut: Seq<Batch>, e: Option<Result<Option<Batch>, String>>|
            #[trigger] join_walk(p0, e0, batch_size, batches + fut, e, PULL_BUDGET as nat, self.lkey, self.build@, self.rkey)
                == join_walk(rows_view(self.pending@), rows_view(out@), batch_size, fut, e, PULL_BUDGET as nat, self.lkey, self.build@, self.rkey) by {
            assert(batches + fut =~= fut);
        }
        loop
            invariant
                self.left.bop_inv(),
                self.batch_size == DEFAULT_BATCH_SIZE,
                self.batch_size == old(self).batch_size,
                self.build == old(self).build,
                self.lkey == old(self).lkey,
                self.rkey == old(self).rkey,
                forall|i: int| 0 <= i < self.build@.len() ==> self.rkey < (#[trigger] self.build@[i])@.len(),
                start == old(self).left,
                p0 == rows_view(old(self).pending@),
                e0 == Seq::<Seq<SqlValue>>::empty(),
                pulled as nat == batches.len(),
                pulled <= PULL_BUDGET,
                bruns(start, self.left, DEFAULT_BATCH_SIZE, batches),
                forall|fut: Seq<Batch>, e: Option<Result<Option<Batch>, String>>|
                    #[trigger] join_walk(p0, e0, batch_size, batches + fut, e, PULL_BUDGET as nat, self.lkey, self.build@, self.rkey)
                        == join_walk(rows_view(self.pending@), rows_view(out@), batch_size, fut, e, (PULL_BUDGET - pulled) as nat, self.lkey, self.build@, self.rkey),
            decreases PULL_BUDGET - pulled,
        {
            let ghost pc = rows_view(self.pending@);
            let ghost oc = rows_view(out@);
            let ghost bud: nat = (PULL_BUDGET - pulled) as nat;
            let ghost lk = self.lkey;
            let ghost bd = self.build@;
            let ghost rk = self.rkey;
            assert(batches + Seq::<Batch>::empty() =~= batches);
            pop_into(&mut self.pending, &mut out, batch_size);
            if out.len() >= batch_size {
                assert(join_walk(p0, e0, batch_size, batches + Seq::<Batch>::empty(), None, PULL_BUDGET as nat, lk, bd, rk)
                    == join_walk(pc, oc, batch_size, Seq::<Batch>::empty(), None, bud, lk, bd, rk));
                assert(drain_stack(pc, oc, batch_size).1.len() >= batch_size);
                assert(join_walk(pc, oc, batch_size, Seq::<Batch>::empty(), None, bud, lk, bd, rk)
                    == Some((Ok::<Option<Seq<Seq<SqlValue>>>, ()>(Some(rows_view(out@))), rows_view(self.pending@))));
                assert(join_walk(p0, Seq::empty(), batch_size, batches, None, PULL_BUDGET as nat, lk, bd, rk)
                    == Some((Ok::<Option<Seq<Seq<SqlValue>>>, ()>(Some(rows_view(out@))), rows_view(self.pending@))));
                let ghost ov = rows_view(out@);
                let res = match batch_from_rows(out) {
                    Ok(b) => Ok(Some(b)),
                    Err(e) => Err(e),
                };
                assert(join_result(Ok(Some(ov)), res));
                assert(join_walk(rows_view(old(self).pending@), Seq::empty(), batch_size, batches, None, PULL_BUDGET as nat, old(self).lkey, old(self).build@, old(self).rkey)
                    matches Some(o) && o.1 == rows_view(self.pending@) && join_result(o.0, res));
                assert(old(self).bstep(&*self, batch_size, res));
                return res;
            }
            if pulled == PULL_BUDGET {
                assert(join_walk(p0, e0, batch_size, batches + Seq::<Batch>::empty(), None, PULL_BUDGET as nat, lk, bd, rk)
                    == join_walk(pc, oc, batch_size, Seq::<Batch>::empty(), None, bud, lk, bd, rk));
                return Err(msg("pull budget exhausted while probing a join"));
            }
            let ghost mid = self.left;
            let cr = self.left.next_batch(self.batch_size);
            assert(bruns(start, mid, DEFAULT_BATCH_SIZE, batches) && mid.bstep(&self.left, DEFAULT_BATCH_SIZE, cr));
            match cr {
                Err(e) => {
                    let ghost end = Some(cr);
                    assert(join_walk(p0, e0, batch_size, batches + Seq::<Batch>::empty(), end, PULL_BUDGET as nat, lk, bd, rk)
                        == join_walk(pc, oc, batch_size, Seq::<Batch>::empty(), end, bud, lk, bd, rk));
                    return Err(e);
                },
                Ok(None) => {
                    let ghost end = Some(cr);
                    assert(join_walk(p0, e0, batch_size, batches + Seq::<Batch>::empty(), end, PULL_BUDGET as nat, lk, bd, rk)
                        == join_walk(pc, oc, batch_size, Seq::<Batch>::empty(), end, bud, lk, bd, rk));
                    if out.len() == 0 {
                        return Ok(None);
                    }
                    return match batch_from_rows(out) {
                        Ok(b) => Ok(Some(b)),
                        Err(e) => Err(e),
                    };
                },
                Ok(Some(batch)) => {
                    let ghost p1 = rows_view(self.pending@);
                    let pr = probe_batch(&mut self.pending, &batch, &self.build, self.rkey, self.lkey);
                    proof {
                        lemma_bruns_extend(start, mid, self.left, DEFAULT_BATCH_SIZE, batches, batch);
                    }
                    let ghost b2 = batches.push(batch);
                    match pr {
                        Err(e) => {
                            proof {
                                let fut1 = seq![batch];
                                assert(b2 =~= batches + fut1);
                                assert(join_walk(p0, e0, batch_size, batches + fut1, None, PULL_BUDGET as nat, lk, bd, rk)
                                    == join_walk(pc, oc, batch_size, fut1, None, bud, lk, bd, rk));
                                assert(fut1[0] == batch);
                                assert(rows_view(self.pending@) =~= Seq::<Seq<SqlValue>>::empty());
                            }
                            return Err(e);
                        },
                        Ok(()) => {},
                    }
                    proof {
                        assert forall|fut: Seq<Batch>, e: Option<Result<Option<Batch>, String>>|
                            #[trigger] join_walk(p0, e0, batch_size, b2 + fut, e, PULL_BUDGET as nat, lk, bd, rk)
                                == join_walk(rows_view(self.pending@), rows_view(out@), batch_size, fut, e, (bud - 1) as nat, lk, bd, rk) by {
                            assert(b2 + fut =~= batches + (seq![batch] + fut));
                            assert(join_walk(p0, e0, batch_size, batches + (seq![batch] + fut), e, PULL_BUDGET as nat, lk, bd, rk)
                                == join_walk(pc, oc, batch_size, seq![batch] + fut, e, bud, lk, bd, rk));
                            lemma_walk_batch(pc, oc, batch_size, batch, fut, e, bud, lk, bd, rk);
                        }
                        batches = b2;
                    }
                    pulled = pulled + 1;
                },
            }
        }
    }
}

} // verus!

//! Streaming query results: a batch operator read one batch at a time, so
//! that a large result never has to be resident in memory at once.
use vstd::prelude::*;
use crate::batch::{rows_view, Batch, DEFAULT_BATCH_SIZE};
use crate::batch_ops::{bruns, rows_of_batches, BatchOperator};
use crate::engine::ExecResult;
use crate::executor::{Row, PULL_BUDGET};

verus! {

/// Streaming query result over a batch operator.
pub struct QueryResult<I> {
    pub inner: I,
    pub batch_size: usize,
    pub exhausted: bool,
}

/// A pull that ends the stream: no batch, or an error.
pub open spec fn ends_stream(r: Result<Option<Batch>, String>) -> bool {
    !(r matches Ok(Some(_)))
}

impl<I: BatchOperator> QueryResult<I> {
    /// The operator read from.
    pub open spec fn stream(&self) -> I {
        self.inner
    }

    /// Rows asked of the operator per pull.
    pub open spec fn pull_size(&self) -> usize {
        self.batch_size
    }

    /// The stream has ended (no batch or an error came back).
    pub open spec fn ended(&self) -> bool {
        self.exhausted
    }

    /// Wrap a batch operator into a streaming result set (default batch
    /// size).
    pub fn new(inner: I) -> (r: Self)
        ensures
            r.stream() == inner,
            r.pull_size() == DEFAULT_BATCH_SIZE,
            !r.ended(),
    {
        QueryResult { inner, batch_size: DEFAULT_BATCH_SIZE, exhausted: false }
    }

    /// The same stream, pulling `batch_size` rows at a time.
    pub fn with_batch_size(self, batch_size: usize) -> (r: Self)
        ensures
            r.stream() == self.stream(),
            r.pull_size() == batch_size,
            r.ended() == self.ended(),
    {
        let mut s = self;
        s.batch_size = batch_size;
        s
    }

    /// The next batch of results; `None` once the stream has ended. A pull
    /// that returns no batch or an error ends the stream.
    pub fn next_batch(&mut self) -> (r: Option<Batch>)
        requires
            old(self).stream().bop_inv(),
        ensures
            final(self).stream().bop_inv(),
            final(self).pull_size() == old(self).pull_size(),
            old(self).ended() ==> r is None && *final(self) == *old(self),
            !old(self).ended() ==> match r {
                Some(b) => old(self).stream().bstep(&final(self).stream(), old(self).pull_size(), Ok(Some(b)))
                    && !final(self).ended(),
                None => final(self).ended() && exists|cr: Result<Option<Batch>, String>|
                    #[trigger] old(self).stream().bstep(&final(self).stream(), old(self).pull_size(), cr)
                    && ends_stream(cr),
            },
    {
        if self.exhausted {
            return None;
        }
        let ghost before = self.inner;
        let cr = self.inner.next_batch(self.batch_size);
        assert(before.bstep(&self.inner, self.batch_size, cr));
        match cr {
            Ok(Some(batch)) => Some(batch),
            Ok(None) => {
                self.exhausted = true;
                assert(old(self).stream().bstep(&self.stream(), old(self).pull_size(), cr) && ends_stream(cr));
                None
            },
            Err(_) => {
                self.exhausted = true;
                assert(old(self).stream().bstep(&self.stream(), old(self).pull_size(), cr) && ends_stream(cr));
                None
            },
        }
    }

    /// True when the stream has been fully consumed or an error occurred.
    pub fn is_exhausted(&self) -> (r: bool)
        ensures
            r == self.ended(),
    {
        self.exhausted
    }

    /// Consume the rest of the stream into one materialized result with
    /// the given column names.
    pub fn collect_all(self, columns: Vec<String>) -> (res: ExecResult)
        requires
            self.stream().bop_inv(),
        ensures
            res.columns == columns,
            res.rows_affected == 0,
            self.ended() ==> res.rows@.len() == 0,
            !self.ended() ==> exists|batches: Seq<Batch>, mid: I|
                #[trigger] bruns(self.stream(), mid, self.pull_size(), batches)
                && rows_view(res.rows@) == rows_of_batches(batches)
                && (batches.len() == PULL_BUDGET
                    || exists|fin: I, end: Result<Option<Batch>, String>|
                        #[trigger] mid.bstep(&fin, self.pull_size(), end) && ends_stream(end)),
    {
        let mut rows: Vec<Row> = Vec::new();
        let mut stream = self;
        if stream.exhausted {
            return ExecResult { columns, rows, rows_affected: 0 };
        }
        let ghost start = stream.inner;
        let ghost n = stream.batch_size;
        let ghost mut batches: Seq<Batch> = Seq::empty();
        proof { crate::batch_ops::lemma_bruns_empty(start, n); }
        assert(rows_view(rows@) =~= rows_of_batches(batches));
        let mut pulled: u64 = 0;
        loop
            invariant
                stream.inner.bop_inv(),
                stream.batch_size == n,
                !stream.exhausted,
                !self.exhausted,
                start == self.inner,
                n == self.batch_size,
                pulled as nat == batches.len(),
                bruns(start, stream.inner, n, batches),
                rows_view(rows@) == rows_of_batches(batches),
            decreases PULL_BUDGET - pulled,
        {
            if pulled == PULL_BUDGET {
                assert(bruns(self.stream(), stream.inner, self.pull_size(), batches));
                return ExecResult { columns, rows, rows_affected: 0 };
            }
            let ghost mid = stream.inner;
            match stream.next_batch() {
                Some(batch) => {
                    let ghost bv = batch;
                    let mut more = batch.into_rows();
                    let ghost before = rows@;
                    rows.append(&mut more);
                    proof {
                        crate::batch_ops::lemma_bruns_extend(start, mid, stream.inner, n, batches, bv);
                        let b2 = batches.push(bv);
                        assert(b2.drop_last() == batches);
                        assert(rows_view(rows@) =~= rows_view(before) + crate::batch::rows_of(bv@));
                        batches = b2;
                    }
                    pulled = pulled + 1;
                },
                None => {
                    let res = ExecResult { columns, rows, rows_affected: 0 };
                    assert(rows_view(res.rows@) == rows_of_batches(batches));
                    assert(bruns(self.stream(), mid, self.pull_size(), batches));
                    assert(exists|fin: I, end: Result<Option<Batch>, String>|
                        #[trigger] mid.bstep(&fin, self.pull_size(), end) && ends_stream(end));
                    return res;
                },
            }
        }
    }
}

} // verus!

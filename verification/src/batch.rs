//! Batch execution model (column-oriented).
//!
//! A `Batch` is `N` rows × `M` columns stored column-wise, with a
//! `SelectionVector` for lazy filtering and a dense `NullBitmap`.
use vstd::prelude::*;
use crate::codec::{clone_value, clone_row, decode_row, encode_row, ColumnDef, SqlValue, ValueV,
    decode_values, encode_values};
use crate::executor::Row;

verus! {

/// Logical row capacity bound of a batch.
pub const DEFAULT_BATCH_SIZE: usize = 2048;

/// One column of values (NULLs inline).
pub type ColumnVector = Vec<SqlValue>;

// ── NullBitmap ─────────────────────────────────────────────────────────

/// Dense null bitmap: bit `i` set means row `i` is NULL.
#[derive(Debug, Clone, Default)]
pub struct NullBitmap {
    bits: Vec<u64>,
    len: usize,
}

/// Bit `i` of a word sequence.
pub open spec fn word_bit(words: Seq<u64>, i: int) -> bool {
    (words[i / 64] >> ((i % 64) as u64)) & 1u64 == 1u64
}

proof fn lemma_set_bit(w: u64, s: u64, t: u64)
    requires
        s < 64,
        t < 64,
    ensures
        ((w | (1u64 << s)) >> t) & 1u64 == 1u64 <==> (t == s || (w >> t) & 1u64 == 1u64),
{
    assert(((w | (1u64 << s)) >> t) & 1u64 == 1u64 <==> (t == s || (w >> t) & 1u64 == 1u64)) by (bit_vector)
        requires s < 64, t < 64;
}

proof fn lemma_clear_bit(w: u64, s: u64, t: u64)
    requires
        s < 64,
        t < 64,
    ensures
        ((w & !(1u64 << s)) >> t) & 1u64 == 1u64 <==> (t != s && (w >> t) & 1u64 == 1u64),
{
    assert(((w & !(1u64 << s)) >> t) & 1u64 == 1u64 <==> (t != s && (w >> t) & 1u64 == 1u64)) by (bit_vector)
        requires s < 64, t < 64;
}

proof fn lemma_zero_bit(t: u64)
    requires
        t < 64,
    ensures
        (0u64 >> t) & 1u64 != 1u64,
{
    assert((0u64 >> t) & 1u64 != 1u64) by (bit_vector) requires t < 64;
}

impl NullBitmap {
    /// Logical length.
    pub closed spec fn spec_len(&self) -> nat {
        self.len as nat
    }

    /// Number of addressable bits (a multiple of 64, at least the length).
    pub closed spec fn capacity(&self) -> nat {
        self.bits@.len() * 64
    }

    /// Raw bit `i` (meaningful for `i < capacity()`).
    pub closed spec fn bit(&self, i: int) -> bool {
        word_bit(self.bits@, i)
    }

    /// Row `i` is marked NULL.
    pub open spec fn null_at(&self, i: int) -> bool {
        0 <= i < self.spec_len() && self.bit(i)
    }

    /// A bitmap of `len` rows, none NULL.
    pub fn new(len: usize) -> (r: Self)
        ensures
            r.spec_len() == len,
            r.capacity() == 64 * (len / 64 + if len % 64 == 0 { 0int } else { 1int }),
            forall|i: int| 0 <= i < r.capacity() ==> !#[trigger] r.bit(i),
    {
        let words = len / 64 + if len % 64 == 0 { 0 } else { 1 };
        let mut bits: Vec<u64> = Vec::with_capacity(words);
        let mut k: usize = 0;
        while k < words
            invariant
                k <= words,
                bits@.len() == k,
                forall|j: int| 0 <= j < k ==> bits@[j] == 0u64,
            decreases words - k,
        {
            bits.push(0u64);
            k = k + 1;
        }
        let r = NullBitmap { bits, len };
        assert forall|i: int| 0 <= i < r.capacity() implies !#[trigger] r.bit(i) by {
            assert(0 <= i / 64 < bits@.len());
            lemma_zero_bit((i % 64) as u64);
        }
        r
    }

    /// Mark row `i` NULL (no effect beyond the addressable bits).
    pub fn set_null(&mut self, i: usize)
        ensures
            final(self).spec_len() == old(self).spec_len(),
            final(self).capacity() == old(self).capacity(),
            forall|j: int| 0 <= j < old(self).capacity() ==>
                #[trigger] final(self).bit(j) == ((j == i && i < old(self).capacity()) || old(self).bit(j)),
    {
        if i / 64 < self.bits.len() {
            let w = self.bits[i / 64];
            let s = (i % 64) as u64;
            self.bits.set(i / 64, w | (1u64 << s));
            proof {
                assert forall|j: int| 0 <= j < old(self).capacity() implies
                    #[trigger] self.bit(j) == ((j == i && i < old(self).capacity()) || old(self).bit(j)) by {
                    if j / 64 == i / 64 {
                        lemma_set_bit(w, s, (j % 64) as u64);
                        assert(j == i <==> (j % 64) as u64 == s);
                    }
                }
            }
        }
    }

    /// Clear the NULL mark of row `i`.
    pub fn clear_null(&mut self, i: usize)
        ensures
            final(self).spec_len() == old(self).spec_len(),
            final(self).capacity() == old(self).capacity(),
            forall|j: int| 0 <= j < old(self).capacity() ==>
                #[trigger] final(self).bit(j) == (j != i && old(self).bit(j)),
    {
        if i / 64 < self.bits.len() {
            let w = self.bits[i / 64];
            let s = (i % 64) as u64;
            self.bits.set(i / 64, w & !(1u64 << s));
            proof {
                assert forall|j: int| 0 <= j < old(self).capacity() implies
                    #[trigger] self.bit(j) == (j != i && old(self).bit(j)) by {
                    if j / 64 == i / 64 {
                        lemma_clear_bit(w, s, (j % 64) as u64);
                        assert(j == i <==> (j % 64) as u64 == s);
                    }
                }
            }
        }
    }

    /// Whether row `i` is NULL.
    pub fn is_null(&self, i: usize) -> (r: bool)
        requires
            self.spec_len() <= self.capacity(),
        ensures
            r == self.null_at(i as int),
    {
        i < self.len && (self.bits[i / 64] >> ((i % 64) as u64)) & 1u64 == 1u64
    }

    /// Logical length.
    pub fn len(&self) -> (r: usize)
        ensures
            r == self.spec_len(),
    {
        self.len
    }

    /// True when the length is zero.
    pub fn is_empty(&self) -> (r: bool)
        ensures
            r == (self.spec_len() == 0),
    {
        self.len == 0
    }
}

// ── SelectionVector ───────────────────────────────────────────────────

/// Row indices surviving a predicate.
#[derive(Debug, Clone, Default)]
pub struct SelectionVector {
    indices: Vec<u32>,
}

impl View for SelectionVector {
    type V = Seq<u32>;

    closed spec fn view(&self) -> Seq<u32> {
        self.indices@
    }
}

impl SelectionVector {
    /// An empty selection.
    pub fn new() -> (r: Self)
        ensures
            r@ == Seq::<u32>::empty(),
    {
        SelectionVector { indices: Vec::new() }
    }

    /// Append a row index (stored as a 32-bit index).
    pub fn push(&mut self, row_index: usize)
        ensures
            final(self)@ == old(self)@.push(row_index as u32),
    {
        self.indices.push(#[verifier::truncate] (row_index as u32));
    }

    /// Number of selected rows.
    pub fn len(&self) -> (r: usize)
        ensures
            r == self@.len(),
    {
        self.indices.len()
    }

    /// True when nothing is selected.
    pub fn is_empty(&self) -> (r: bool)
        ensures
            r == (self@.len() == 0),
    {
        self.indices.len() == 0
    }

    /// The selected indices.
    pub fn as_slice(&self) -> (r: &[u32])
        ensures
            r@ == self@,
    {
        self.indices.as_slice()
    }

    /// Consume into the selected indices.
    pub fn into_vec(self) -> (r: Vec<u32>)
        ensures
            r@ == self@,
    {
        self.indices
    }
}

// ── Batch ─────────────────────────────────────────────────────────────

/// Model of a batch: its column vectors and its logical row count.
pub struct BatchV {
    pub columns: Seq<Seq<SqlValue>>,
    pub row_count: nat,
}

/// Value of column `c` at row `i`, NULL when the column is shorter.
pub open spec fn cell(columns: Seq<Seq<SqlValue>>, c: int, i: int) -> SqlValue {
    if 0 <= i < columns[c].len() {
        columns[c][i]
    } else {
        SqlValue::Null
    }
}

/// Row `i` of a batch: one value per column.
pub open spec fn row_of(b: BatchV, i: int) -> Seq<SqlValue> {
    Seq::new(b.columns.len(), |c: int| cell(b.columns, c, i))
}

/// All logical rows of a batch.
pub open spec fn rows_of(b: BatchV) -> Seq<Seq<SqlValue>> {
    Seq::new(b.row_count, |i: int| row_of(b, i))
}

/// Row views of a vector of rows.
pub open spec fn rows_view(rows: Seq<Row>) -> Seq<Seq<SqlValue>> {
    rows.map_values(|r: Row| r@)
}

/// The batch holding `rows` (each of width `ncols`) column-wise.
pub open spec fn batch_of_rows(rows: Seq<Seq<SqlValue>>, ncols: nat) -> BatchV {
    BatchV {
        columns: Seq::new(ncols, |c: int| Seq::new(rows.len(), |i: int| rows[i][c])),
        row_count: rows.len(),
    }
}

/// All rows have width `n`.
pub open spec fn uniform_width(rows: Seq<Seq<SqlValue>>, n: nat) -> bool {
    forall|i: int| 0 <= i < rows.len() ==> #[trigger] rows[i].len() == n
}

/// Column-oriented batch: `row_count` rows × `columns` column vectors.
#[derive(Debug, Clone, Default)]
pub struct Batch {
    columns: Vec<ColumnVector>,
    row_count: usize,
}

impl View for Batch {
    type V = BatchV;

    closed spec fn view(&self) -> BatchV {
        BatchV {
            columns: self.columns@.map_values(|c: ColumnVector| c@),
            row_count: self.row_count as nat,
        }
    }
}

impl Batch {
    /// Empty batch with `ncols` columns.
    pub fn new(ncols: usize) -> (r: Self)
        ensures
            r@.columns == Seq::new(ncols as nat, |c: int| Seq::<SqlValue>::empty()),
            r@.row_count == 0,
    {
        Self::with_capacity(ncols, 0)
    }

    /// Empty batch laid out for the given schema (one column per definition).
    pub fn from_schema(schema: &[ColumnDef]) -> (r: Self)
        ensures
            r@.columns == Seq::new(schema@.len(), |c: int| Seq::<SqlValue>::empty()),
            r@.row_count == 0,
    {
        Self::new(schema.len())
    }

    /// Empty batch whose columns are pre-sized for `capacity` rows.
    pub fn with_capacity(ncols: usize, capacity: usize) -> (r: Self)
        ensures
            r@.columns == Seq::new(ncols as nat, |c: int| Seq::<SqlValue>::empty()),
            r@.row_count == 0,
    {
        let mut columns: Vec<ColumnVector> = Vec::with_capacity(ncols);
        let mut k: usize = 0;
        while k < ncols
            invariant
                k <= ncols,
                columns@.len() == k,
                forall|j: int| 0 <= j < k ==> (#[trigger] columns@[j])@ == Seq::<SqlValue>::empty(),
            decreases ncols - k,
        {
            columns.push(Vec::with_capacity(capacity));
            k = k + 1;
        }
        let r = Batch { columns, row_count: 0 };
        assert(r@.columns =~= Seq::new(ncols as nat, |c: int| Seq::<SqlValue>::empty()));
        r
    }

    /// Logical number of rows.
    pub fn num_rows(&self) -> (r: usize)
        ensures
            r == self@.row_count,
    {
        self.row_count
    }

    /// True when the batch holds no rows.
    pub fn is_empty(&self) -> (r: bool)
        ensures
            r == (self@.row_count == 0),
    {
        self.row_count == 0
    }

    /// True when the batch holds at least `batch_size` rows.
    pub fn is_full(&self, batch_size: usize) -> (r: bool)
        ensures
            r == (self@.row_count >= batch_size),
    {
        self.row_count >= batch_size
    }

    /// Number of columns.
    pub fn num_columns(&self) -> (r: usize)
        ensures
            r == self@.columns.len(),
    {
        self.columns.len()
    }

    /// Column `i`.
    pub fn column(&self, i: usize) -> (r: &[SqlValue])
        requires
            i < self@.columns.len(),
        ensures
            r@ == self@.columns[i as int],
    {
        self.columns[i].as_slice()
    }

    /// Mutable access to column `i`.
    pub fn column_mut(&mut self, i: usize) -> (r: &mut ColumnVector)
        requires
            i < old(self)@.columns.len(),
        ensures
            (*r)@ == old(self)@.columns[i as int],
            final(self)@.columns == old(self)@.columns.update(i as int, (*final(r))@),
            final(self)@.row_count == old(self)@.row_count,
    {
        &mut self.columns[i]
    }

    /// Materialize row `i` (NULL where a column is too short).
    pub fn row(&self, i: usize) -> (r: Row)
        ensures
            r@ == row_of(self@, i as int),
    {
        let mut out: Row = Vec::with_capacity(self.columns.len());
        let mut c: usize = 0;
        while c < self.columns.len()
            invariant
                c <= self.columns@.len(),
                out@.len() == c,
                forall|k: int| 0 <= k < c ==> #[trigger] out@[k] == cell(self@.columns, k, i as int),
            decreases self.columns@.len() - c,
        {
            let col = &self.columns[c];
            assert(self@.columns[c as int] == col@);
            if i < col.len() {
                out.push(clone_value(&col[i]));
            } else {
                out.push(SqlValue::Null);
            }
            c = c + 1;
        }
        assert(out@ =~= row_of(self@, i as int));
        out
    }

    /// Append a row (one value per column).
    pub fn push_row(&mut self, row: &[SqlValue])
        requires
            row@.len() == old(self)@.columns.len(),
            old(self)@.row_count < usize::MAX,
        ensures
            final(self)@.columns == Seq::new(old(self)@.columns.len(),
                |c: int| old(self)@.columns[c].push(row@[c])),
            final(self)@.row_count == old(self)@.row_count + 1,
    {
        let ghost old_cols = self@.columns;
        let mut c: usize = 0;
        while c < self.columns.len()
            invariant
                c <= self.columns@.len(),
                self.columns@.len() == old_cols.len(),
                row@.len() == old_cols.len(),
                self.row_count == old(self).row_count,
                forall|k: int| 0 <= k < c ==> (#[trigger] self.columns@[k])@ == old_cols[k].push(row@[k]),
                forall|k: int| c <= k < old_cols.len() ==> (#[trigger] self.columns@[k])@ == old_cols[k],
            decreases self.columns@.len() - c,
        {
            let v = clone_value(&row[c]);
            let mut col: ColumnVector = Vec::new();
            std::mem::swap(&mut col, &mut self.columns[c]);
            col.push(v);
            self.columns.set(c, col);
            c = c + 1;
        }
        self.row_count = self.row_count + 1;
        assert(self@.columns =~= Seq::new(old_cols.len(), |c: int| old_cols[c].push(row@[c])));
    }

    /// All logical rows.
    pub fn into_rows(self) -> (r: Vec<Row>)
        ensures
            rows_view(r@) == rows_of(self@),
    {
        let mut out: Vec<Row> = Vec::with_capacity(self.row_count);
        let mut i: usize = 0;
        while i < self.row_count
            invariant
                i <= self.row_count,
                out@.len() == i,
                forall|k: int| 0 <= k < i ==> (#[trigger] out@[k])@ == row_of(self@, k),
            decreases self.row_count - i,
        {
            out.push(self.row(i));
            i = i + 1;
        }
        assert(rows_view(out@) =~= rows_of(self@));
        out
    }

    /// A new batch holding the selected rows, in selection order.
    pub fn apply_selection(&self, sel: &[u32]) -> (r: Batch)
        ensures
            r@.columns == Seq::new(self@.columns.len(),
                |c: int| Seq::new(sel@.len(), |k: int| cell(self@.columns, c, sel@[k] as int))),
            r@.row_count == sel@.len(),
    {
        let mut out = Batch::with_capacity(self.columns.len(), sel.len());
        let mut k: usize = 0;
        let ghost ncols = self@.columns.len();
        assert forall|c: int| 0 <= c < ncols implies #[trigger] out@.columns[c]
            =~= Seq::new(0nat, |j: int| cell(self@.columns, c, sel@[j] as int)) by {}
        assert(out@.columns =~= Seq::new(ncols,
            |c: int| Seq::new(0nat, |j: int| cell(self@.columns, c, sel@[j] as int))));
        while k < sel.len()
            invariant
                k <= sel@.len(),
                ncols == self@.columns.len(),
                out@.row_count == k,
                out@.columns == Seq::new(ncols,
                    |c: int| Seq::new(k as nat, |j: int| cell(self@.columns, c, sel@[j] as int))),
            decreases sel@.len() - k,
        {
            let row = self.row(sel[k] as usize);
            let ghost prev = out@.columns;
            out.push_row(row.as_slice());
            assert forall|c: int| 0 <= c < ncols implies #[trigger] out@.columns[c]
                =~= Seq::new((k + 1) as nat, |j: int| cell(self@.columns, c, sel@[j] as int)) by {
                assert(out@.columns[c] == prev[c].push(row@[c]));
            }
            assert(out@.columns =~= Seq::new(ncols,
                |c: int| Seq::new((k + 1) as nat, |j: int| cell(self@.columns, c, sel@[j] as int))));
            k = k + 1;
        }
        out
    }

    /// Project (and reorder) columns; each index must be a column.
    pub fn project(&self, indexes: &[usize]) -> (r: Batch)
        requires
            forall|j: int| 0 <= j < indexes@.len() ==> #[trigger] indexes@[j] < self@.columns.len(),
        ensures
            r@.columns == Seq::new(indexes@.len(),
                |j: int| self@.columns[indexes@[j] as int].take(
                    if self@.columns[indexes@[j] as int].len() < self@.row_count {
                        self@.columns[indexes@[j] as int].len() as int
                    } else {
                        self@.row_count as int
                    })),
            r@.row_count == self@.row_count,
    {
        let mut columns: Vec<ColumnVector> = Vec::with_capacity(indexes.len());
        let mut j: usize = 0;
        while j < indexes.len()
            invariant
                j <= indexes@.len(),
                columns@.len() == j,
                forall|q: int| 0 <= q < indexes@.len() ==> #[trigger] indexes@[q] < self@.columns.len(),
                forall|q: int| 0 <= q < j ==> (#[trigger] columns@[q])@ == self@.columns[indexes@[q] as int].take(
                    if self@.columns[indexes@[q] as int].len() < self@.row_count {
                        self@.columns[indexes@[q] as int].len() as int
                    } else {
                        self@.row_count as int
                    }),
            decreases indexes@.len() - j,
        {
            let src = &self.columns[indexes[j]];
            assert(self@.columns[indexes@[j as int] as int] == src@);
            let n = if src.len() < self.row_count { src.len() } else { self.row_count };
            let col = clone_row(slice_take(src.as_slice(), n));
            columns.push(col);
            j = j + 1;
        }
        let r = Batch { columns, row_count: self.row_count };
        assert(r@.columns =~= Seq::new(indexes@.len(),
                |j: int| self@.columns[indexes@[j] as int].take(
                    if self@.columns[indexes@[j] as int].len() < self@.row_count {
                        self@.columns[indexes@[j] as int].len() as int
                    } else {
                        self@.row_count as int
                    })));
        r
    }

    /// Clear all rows, keeping the columns.
    pub fn clear(&mut self)
        ensures
            final(self)@.columns == Seq::new(old(self)@.columns.len(), |c: int| Seq::<SqlValue>::empty()),
            final(self)@.row_count == 0,
    {
        let mut c: usize = 0;
        let ghost n = self.columns@.len();
        while c < self.columns.len()
            invariant
                c <= self.columns@.len(),
                self.columns@.len() == n,
                forall|k: int| 0 <= k < c ==> (#[trigger] self.columns@[k])@ == Seq::<SqlValue>::empty(),
            decreases self.columns@.len() - c,
        {
            let mut col: ColumnVector = Vec::new();
            std::mem::swap(&mut col, &mut self.columns[c]);
            col.clear();
            self.columns.set(c, col);
            c = c + 1;
        }
        self.row_count = 0;
        assert(self@.columns =~= Seq::new(n, |c: int| Seq::<SqlValue>::empty()));
    }

    /// Consume into the column vectors.
    pub fn into_columns(self) -> (r: Vec<ColumnVector>)
        ensures
            r@.map_values(|c: ColumnVector| c@) == self@.columns,
    {
        self.columns
    }

    /// A batch from column vectors; its row count is the first column's length.
    pub fn from_columns(columns: Vec<ColumnVector>) -> (r: Self)
        ensures
            r@.columns == columns@.map_values(|c: ColumnVector| c@),
            r@.row_count == if columns@.len() == 0 { 0 } else { columns@[0]@.len() },
    {
        let row_count = if columns.len() == 0 { 0 } else { columns[0].len() };
        Batch { columns, row_count }
    }
}

fn slice_take(s: &[SqlValue], n: usize) -> (r: &[SqlValue])
    requires
        n <= s@.len(),
    ensures
        r@ == s@.take(n as int),
{
    vstd::slice::slice_subrange(s, 0, n)
}

// ── row ↔ batch adapters ──────────────────────────────────────────────

/// Rows (all of equal width) to a column-oriented batch.
pub fn rows_to_batch(rows: Vec<Row>) -> (r: Batch)
    requires
        rows@.len() > 0 ==> uniform_width(rows_view(rows@), rows@[0]@.len()),
    ensures
        r@ == batch_of_rows(rows_view(rows@), if rows@.len() == 0 { 0 } else { rows@[0]@.len() }),
{
    let ncols = if rows.len() == 0 { 0 } else { rows[0].len() };
    let mut b = Batch::with_capacity(ncols, rows.len());
    let mut i: usize = 0;
    let ghost rv = rows_view(rows@);
    assert forall|c: int| 0 <= c < ncols implies #[trigger] b@.columns[c]
        =~= batch_of_rows(rv.take(0), ncols as nat).columns[c] by {}
    assert(b@.columns =~= batch_of_rows(rv.take(0), ncols as nat).columns);
    while i < rows.len()
        invariant
            i <= rows@.len(),
            rv == rows_view(rows@),
            rows@.len() > 0 ==> ncols == rows@[0]@.len(),
            rows@.len() > 0 ==> uniform_width(rv, ncols as nat),
            b@ == batch_of_rows(rv.take(i as int), ncols as nat),
        decreases rows@.len() - i,
    {
        assert(rv[i as int].len() == ncols);
        let ghost prev = b@.columns;
        b.push_row(rows[i].as_slice());
        assert forall|c: int| 0 <= c < ncols implies #[trigger] b@.columns[c]
            =~= batch_of_rows(rv.take(i + 1), ncols as nat).columns[c] by {
            assert(b@.columns[c] == prev[c].push(rows@[i as int]@[c]));
        }
        assert(b@.columns =~= batch_of_rows(rv.take(i + 1), ncols as nat).columns);
        i = i + 1;
    }
    assert(rv.take(rows@.len() as int) =~= rv);
    b
}

/// Storage records that decode under `n` columns, in order (malformed ones
/// are skipped).
pub open spec fn decodable_rows(raw: Seq<Seq<u8>>, n: nat) -> Seq<Seq<ValueV>>
    decreases raw.len(),
{
    if raw.len() == 0 {
        Seq::empty()
    } else {
        match decode_values(raw.last(), 0, n) {
            Some(row) => decodable_rows(raw.drop_last(), n).push(row),
            None => decodable_rows(raw.drop_last(), n),
        }
    }
}

/// Decode storage records into a batch, skipping malformed records.
pub fn raw_rows_to_batch(raw: Vec<Vec<u8>>, schema: &[ColumnDef]) -> (r: Batch)
    ensures
        r@.row_count == decodable_rows(raw@.map_values(|b: Vec<u8>| b@), schema@.len()).len(),
        r@.columns.len() == schema@.len(),
        forall|c: int, k: int| 0 <= c < schema@.len() && 0 <= k < r@.row_count ==>
            (#[trigger] r@.columns[c][k]).deep_view()
                == decodable_rows(raw@.map_values(|b: Vec<u8>| b@), schema@.len())[k][c],
        forall|c: int| 0 <= c < schema@.len() ==> (#[trigger] r@.columns[c]).len() == r@.row_count,
{
    let mut b = Batch::from_schema(schema);
    let ghost rv = raw@.map_values(|b: Vec<u8>| b@);
    let ghost n = schema@.len();
    let mut i: usize = 0;
    while i < raw.len()
        invariant
            i <= raw@.len(),
            rv == raw@.map_values(|b: Vec<u8>| b@),
            n == schema@.len(),
            b@.columns.len() == n,
            b@.row_count == decodable_rows(rv.take(i as int), n).len(),
            b@.row_count <= i,
            forall|c: int, k: int| 0 <= c < n && 0 <= k < b@.row_count ==>
                (#[trigger] b@.columns[c][k]).deep_view() == decodable_rows(rv.take(i as int), n)[k][c],
            forall|c: int| 0 <= c < n ==> (#[trigger] b@.columns[c]).len() == b@.row_count,
        decreases raw@.len() - i,
    {
        assert(rv.take(i + 1).drop_last() =~= rv.take(i as int));
        assert(rv.take(i + 1).last() == raw@[i as int]@);
        match decode_row(raw[i].as_slice(), schema) {
            Some(row) => {
                proof {
                    assert(row.deep_view().len() == n) by {
                        lemma_decode_len(raw@[i as int]@, 0, n);
                    }
                }
                b.push_row(row.as_slice());
                proof {
                    let d = decodable_rows(rv.take(i + 1), n);
                    assert forall|c: int, k: int| 0 <= c < n && 0 <= k < b@.row_count implies
                        (#[trigger] b@.columns[c][k]).deep_view() == d[k][c] by {
                        if k == b@.row_count - 1 {
                            assert(row.deep_view()[c] == row@[c].deep_view());
                        }
                    }
                }
            },
            None => {},
        }
        i = i + 1;
    }
    assert(rv.take(raw@.len() as int) =~= rv);
    b
}

/// Decoding `n` values yields `n` values.
pub proof fn lemma_decode_len(b: Seq<u8>, pos: int, n: nat)
    ensures
        decode_values(b, pos, n) matches Some(row) ==> row.len() == n,
    decreases n,
{
    if n > 0 {
        match decode_value_at_next(b, pos) {
            Some(next) => lemma_decode_len(b, next, (n - 1) as nat),
            None => {},
        }
    }
}

spec fn decode_value_at_next(b: Seq<u8>, pos: int) -> Option<int> {
    match crate::codec::decode_value_at(b, pos) {
        Some((v, next)) => Some(next),
        None => None,
    }
}

/// A batch to storage records (one encoded record per logical row).
pub fn batch_to_raw_rows(batch: &Batch) -> (r: Vec<Vec<u8>>)
    ensures
        r@.len() == batch@.row_count,
        forall|k: int| 0 <= k < batch@.row_count ==>
            (#[trigger] r@[k])@ == encode_values(row_of(batch@, k).map_values(|v: SqlValue| v.deep_view())),
{
    let mut out: Vec<Vec<u8>> = Vec::with_capacity(batch.num_rows());
    let mut i: usize = 0;
    while i < batch.num_rows()
        invariant
            i <= batch@.row_count,
            out@.len() == i,
            forall|k: int| 0 <= k < i ==>
                (#[trigger] out@[k])@ == encode_values(row_of(batch@, k).map_values(|v: SqlValue| v.deep_view())),
        decreases batch@.row_count - i,
    {
        let row = batch.row(i);
        let enc = encode_row(row.as_slice());
        assert(row.deep_view() =~= row_of(batch@, i as int).map_values(|v: SqlValue| v.deep_view()));
        out.push(enc);
        i = i + 1;
    }
    out
}

/// Round trip: turning equal-width rows into a batch and back yields the
/// same rows.
pub proof fn lemma_rows_batch_roundtrip(rows: Seq<Seq<SqlValue>>, ncols: nat)
    requires
        uniform_width(rows, ncols),
    ensures
        rows_of(batch_of_rows(rows, ncols)) == rows,
{
    let b = batch_of_rows(rows, ncols);
    assert forall|i: int| 0 <= i < rows.len() implies #[trigger] rows_of(b)[i] == rows[i] by {
        assert(rows_of(b)[i] =~= rows[i]);
    }
    assert(rows_of(b) =~= rows);
}

} // verus!

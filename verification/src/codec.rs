//! SQL values and the row <-> byte codec.
//!
//! Layout of a row's value bytes: for each column, in definition order,
//! - Int(i64): tag 0 + 8 little-endian bytes
//! - Text:     tag 1 + u32 little-endian byte length + UTF-8 bytes
//! - Null:     tag 2
//!
//! Row keys: `{table}\u{1}{row_id:020}` — lexicographic order equals
//! insertion (row id) order within a table.
use vstd::prelude::*;
use vstd::utf8::*;
use vstd::slice::slice_subrange;

verus! {

broadcast use vstd::utf8::group_utf8_lib;

/// A SQL value: 64-bit integer, text, or NULL.
#[derive(Debug, Clone, PartialEq, Eq, PartialOrd, Ord, Hash)]
pub enum SqlValue {
    Int(i64),
    Text(String),
    Null,
}

/// Mathematical model of a [`SqlValue`].
pub enum ValueV {
    Int(i64),
    Text(Seq<char>),
    Null,
}

impl DeepView for SqlValue {
    type V = ValueV;

    open spec fn deep_view(&self) -> ValueV {
        match self {
            SqlValue::Int(n) => ValueV::Int(*n),
            SqlValue::Text(s) => ValueV::Text(s@),
            SqlValue::Null => ValueV::Null,
        }
    }
}

/// Exact copy of a value.
pub fn clone_value(v: &SqlValue) -> (r: SqlValue)
    ensures
        r == *v,
{
    match v {
        SqlValue::Int(n) => SqlValue::Int(*n),
        SqlValue::Text(s) => SqlValue::Text(s.clone()),
        SqlValue::Null => SqlValue::Null,
    }
}

/// Exact copy of a row.
pub fn clone_row(row: &[SqlValue]) -> (r: Vec<SqlValue>)
    ensures
        r@ == row@,
{
    let mut out: Vec<SqlValue> = Vec::with_capacity(row.len());
    let mut i: usize = 0;
    while i < row.len()
        invariant
            i <= row@.len(),
            out@ == row@.take(i as int),
        decreases row@.len() - i,
    {
        out.push(clone_value(&row[i]));
        assert(row@.take(i + 1) == row@.take(i as int).push(row@[i as int]));
        i = i + 1;
    }
    assert(row@.take(row@.len() as int) == row@);
    out
}

/// Structural equality of two values (by their models).
pub fn value_eq(a: &SqlValue, b: &SqlValue) -> (r: bool)
    ensures
        r == (a.deep_view() == b.deep_view()),
{
    match (a, b) {
        (SqlValue::Int(x), SqlValue::Int(y)) => *x == *y,
        (SqlValue::Text(x), SqlValue::Text(y)) => x.eq(y),
        (SqlValue::Null, SqlValue::Null) => true,
        _ => false,
    }
}

/// True for SQL NULL.
pub fn is_null_value(v: &SqlValue) -> (r: bool)
    ensures
        r == (v.deep_view() is Null),
{
    match v {
        SqlValue::Null => true,
        _ => false,
    }
}

/// Column types of the SQL subset.
#[derive(Debug, Clone, Copy, PartialEq, Eq)]
pub enum ColumnType {
    Int,
    Text,
}

impl ColumnType {
    /// The SQL name of the type.
    pub fn name(self) -> (r: &'static str)
        ensures
            r@ == (match self {
                ColumnType::Int => "INTEGER"@,
                ColumnType::Text => "TEXT"@,
            }),
    {
        match self {
            ColumnType::Int => "INTEGER",
            ColumnType::Text => "TEXT",
        }
    }

    /// Whether `v` may be stored in a column of this type (NULL always may).
    pub fn check(self, v: &SqlValue) -> (r: bool)
        ensures
            r == type_accepts(self, v.deep_view()),
    {
        match (self, v) {
            (ColumnType::Int, SqlValue::Int(_)) => true,
            (ColumnType::Text, SqlValue::Text(_)) => true,
            (_, SqlValue::Null) => true,
            _ => false,
        }
    }
}

/// A column of type `t` accepts `v`.
pub open spec fn type_accepts(t: ColumnType, v: ValueV) -> bool {
    match v {
        ValueV::Int(_) => t == ColumnType::Int,
        ValueV::Text(_) => t == ColumnType::Text,
        ValueV::Null => true,
    }
}

/// A column accepts NULL and the values of its own type only: a non-NULL
/// value is accepted exactly when it is an integer in an INTEGER column or
/// a text in a TEXT column, so each non-NULL value fits exactly one type.
pub proof fn lemma_type_accepts(t: ColumnType, v: ValueV)
    ensures
        v is Null ==> type_accepts(t, v),
        v is Int ==> (type_accepts(t, v) <==> t == ColumnType::Int),
        v is Text ==> (type_accepts(t, v) <==> t == ColumnType::Text),
        !(v is Null) ==> type_accepts(ColumnType::Int, v) != type_accepts(ColumnType::Text, v),
{
}

/// A column definition.
#[derive(Debug, Clone)]
pub struct ColumnDef {
    pub name: String,
    pub ty: ColumnType,
    pub nullable: bool,
}

// ── byte encoding model ────────────────────────────────────────────────

/// Little-endian bytes of a 64-bit word.
pub open spec fn le64(u: u64) -> Seq<u8> {
    seq![u as u8, (u >> 8u64) as u8, (u >> 16u64) as u8, (u >> 24u64) as u8,
        (u >> 32u64) as u8, (u >> 40u64) as u8, (u >> 48u64) as u8, (u >> 56u64) as u8]
}

/// Little-endian bytes of a 32-bit word.
pub open spec fn le32(u: u32) -> Seq<u8> {
    seq![u as u8, (u >> 8u32) as u8, (u >> 16u32) as u8, (u >> 24u32) as u8]
}

/// The 64-bit word whose little-endian bytes are `b[0..8]`.
pub open spec fn from_le64(b: Seq<u8>) -> u64 {
    (b[0] as u64) | ((b[1] as u64) << 8u64) | ((b[2] as u64) << 16u64) | ((b[3] as u64) << 24u64)
        | ((b[4] as u64) << 32u64) | ((b[5] as u64) << 40u64) | ((b[6] as u64) << 48u64)
        | ((b[7] as u64) << 56u64)
}

/// The 32-bit word whose little-endian bytes are `b[0..4]`.
pub open spec fn from_le32(b: Seq<u8>) -> u32 {
    (b[0] as u32) | ((b[1] as u32) << 8u32) | ((b[2] as u32) << 16u32) | ((b[3] as u32) << 24u32)
}

/// Encoding of one value.
pub open spec fn encode_value(v: ValueV) -> Seq<u8> {
    match v {
        ValueV::Int(i) => seq![0u8] + le64(i as u64),
        ValueV::Text(s) => seq![1u8] + le32(encode_utf8(s).len() as u32) + encode_utf8(s),
        ValueV::Null => seq![2u8],
    }
}

/// Encoding of a row: the concatenation of its values' encodings.
pub open spec fn encode_values(row: Seq<ValueV>) -> Seq<u8>
    decreases row.len(),
{
    if row.len() == 0 {
        Seq::empty()
    } else {
        encode_values(row.drop_last()) + encode_value(row.last())
    }
}

/// What decoding makes of the UTF-8 bytes of a text value: the exact
/// characters when the bytes are valid UTF-8, else a lossy decoding.
pub open spec fn text_of_bytes(b: Seq<u8>) -> Seq<char> {
    if valid_utf8(b) {
        decode_utf8(b)
    } else {
        lossy_utf8(b)
    }
}

/// The characters that lossy UTF-8 decoding makes of invalid bytes.
pub uninterp spec fn lossy_utf8(b: Seq<u8>) -> Seq<char>;

/// Decoding one value at byte position `pos`: the value and the next position.
pub open spec fn decode_value_at(b: Seq<u8>, pos: int) -> Option<(ValueV, int)> {
    if pos < 0 || pos >= b.len() {
        None
    } else if b[pos] == 0u8 {
        if pos + 9 <= b.len() {
            Some((ValueV::Int(from_le64(b.subrange(pos + 1, pos + 9)) as i64), pos + 9))
        } else {
            None
        }
    } else if b[pos] == 1u8 {
        if pos + 5 <= b.len() {
            let n = from_le32(b.subrange(pos + 1, pos + 5)) as int;
            if pos + 5 + n <= b.len() {
                Some((ValueV::Text(text_of_bytes(b.subrange(pos + 5, pos + 5 + n))), pos + 5 + n))
            } else {
                None
            }
        } else {
            None
        }
    } else if b[pos] == 2u8 {
        Some((ValueV::Null, pos + 1))
    } else {
        None
    }
}

/// Decoding `n` consecutive values starting at `pos`.
pub open spec fn decode_values(b: Seq<u8>, pos: int, n: nat) -> Option<Seq<ValueV>>
    decreases n,
{
    if n == 0 {
        Some(Seq::empty())
    } else {
        match decode_value_at(b, pos) {
            None => None,
            Some((v, next)) => match decode_values(b, next, (n - 1) as nat) {
                None => None,
                Some(rest) => Some(seq![v] + rest),
            },
        }
    }
}

/// Every text of the row fits the 32-bit length prefix.
pub open spec fn row_fits(row: Seq<ValueV>) -> bool {
    forall|i: int| 0 <= i < row.len() ==> (#[trigger] row[i] matches ValueV::Text(s) ==> encode_utf8(s).len() <= u32::MAX)
}

// ── round trip ────────────────────────────────────────────────────────

proof fn lemma_le64_roundtrip(u: u64)
    ensures
        from_le64(le64(u)) == u,
{
    let b = le64(u);
    lemma_le64_bytes(b, u as u8, (u >> 8u64) as u8, (u >> 16u64) as u8, (u >> 24u64) as u8,
        (u >> 32u64) as u8, (u >> 40u64) as u8, (u >> 48u64) as u8, (u >> 56u64) as u8);
    assert(((u as u8) as u64) | ((((u >> 8u64) as u8) as u64) << 8u64) | ((((u >> 16u64) as u8) as u64) << 16u64)
        | ((((u >> 24u64) as u8) as u64) << 24u64) | ((((u >> 32u64) as u8) as u64) << 32u64)
        | ((((u >> 40u64) as u8) as u64) << 40u64) | ((((u >> 48u64) as u8) as u64) << 48u64)
        | ((((u >> 56u64) as u8) as u64) << 56u64) == u) by (bit_vector);
}

/// The four little-endian bytes of a 32-bit word read back as the word.
pub proof fn lemma_le32_roundtrip(u: u32)
    ensures
        from_le32(le32(u)) == u,
{
    let b = le32(u);
    assert(b[0] == u as u8 && b[1] == (u >> 8u32) as u8 && b[2] == (u >> 16u32) as u8 && b[3] == (u >> 24u32) as u8);
    assert(((u as u8) as u32) | ((((u >> 8u32) as u8) as u32) << 8u32) | ((((u >> 16u32) as u8) as u32) << 16u32)
        | ((((u >> 24u32) as u8) as u32) << 24u32) == u) by (bit_vector);
}

proof fn lemma_i64_u64(i: i64)
    ensures
        ((i as u64) as i64) == i,
{
    assert(((i as u64) as i64) == i) by (bit_vector);
}

/// `encode_values` read from the front.
proof fn lemma_encode_values_front(row: Seq<ValueV>)
    requires
        row.len() > 0,
    ensures
        encode_values(row) == encode_value(row[0]) + encode_values(row.drop_first()),
    decreases row.len(),
{
    if row.len() == 1 {
        assert(row.drop_last() =~= Seq::<ValueV>::empty());
        assert(row.drop_first() =~= Seq::<ValueV>::empty());
        assert(encode_values(row.drop_last()) =~= Seq::<u8>::empty());
        assert(encode_values(row.drop_first()) =~= Seq::<u8>::empty());
        assert(row.last() == row[0]);
        assert(encode_values(row) =~= encode_value(row[0]));
    } else {
        lemma_encode_values_front(row.drop_last());
        assert(row.drop_last().drop_first() =~= row.drop_first().drop_last());
        assert(row.drop_first().last() == row.last());
        assert(encode_values(row) =~= encode_value(row[0]) + encode_values(row.drop_first()));
    }
}

/// One encoded value decodes back to itself, wherever it stands.
proof fn lemma_value_roundtrip(pre: Seq<u8>, v: ValueV, post: Seq<u8>)
    requires
        v matches ValueV::Text(s) ==> encode_utf8(s).len() <= u32::MAX,
    ensures
        decode_value_at(pre + encode_value(v) + post, pre.len() as int)
            == Some((v, pre.len() + encode_value(v).len() as int)),
{
    let b = pre + encode_value(v) + post;
    let p = pre.len() as int;
    let e = encode_value(v);
    assert(b.subrange(p, p + e.len()) =~= e);
    match v {
        ValueV::Int(i) => {
            assert(b.subrange(p + 1, p + 9) =~= le64(i as u64));
            lemma_le64_roundtrip(i as u64);
            lemma_i64_u64(i);
        },
        ValueV::Text(s) => {
            let bytes = encode_utf8(s);
            let n = bytes.len();
            assert(b.subrange(p + 1, p + 5) =~= le32(n as u32));
            lemma_le32_roundtrip(n as u32);
            assert((n as u32) as int == n);
            assert(b.subrange(p + 5, p + 5 + n) =~= bytes);
            encode_utf8_valid_utf8(s);
            encode_utf8_decode_utf8(s);
        },
        ValueV::Null => {},
    }
}

proof fn lemma_values_roundtrip(pre: Seq<u8>, row: Seq<ValueV>, post: Seq<u8>)
    requires
        row_fits(row),
    ensures
        decode_values(pre + encode_values(row) + post, pre.len() as int, row.len()) == Some(row),
    decreases row.len(),
{
    if row.len() == 0 {
    } else {
        lemma_encode_values_front(row);
        let v = row[0];
        let rest = row.drop_first();
        assert(row[0] == v);
        let b = pre + encode_values(row) + post;
        assert(b =~= pre + encode_value(v) + (encode_values(rest) + post));
        lemma_value_roundtrip(pre, v, encode_values(rest) + post);
        assert(row_fits(rest)) by {
            assert forall|i: int| 0 <= i < rest.len() implies (#[trigger] rest[i] matches ValueV::Text(s) ==> encode_utf8(s).len() <= u32::MAX) by {
                assert(rest[i] == row[i + 1]);
            }
        }
        assert(b =~= (pre + encode_value(v)) + encode_values(rest) + post);
        lemma_values_roundtrip(pre + encode_value(v), rest, post);
        assert(seq![v] + rest =~= row);
    }
}

/// Round trip: decoding the encoding of a row, against a schema with one
/// column per value, gives the row back — NULLs and any Unicode text
/// included, and whatever bytes follow — provided every text's UTF-8
/// length fits the 32-bit length prefix.
pub proof fn lemma_row_roundtrip(row: Seq<ValueV>, trailing: Seq<u8>)
    requires
        row_fits(row),
    ensures
        decode_values(encode_values(row) + trailing, 0, row.len()) == Some(row),
{
    lemma_values_roundtrip(Seq::empty(), row, trailing);
    assert(Seq::<u8>::empty() + encode_values(row) + trailing =~= encode_values(row) + trailing);
}

// ── trusted: lossy UTF-8 decoding ─────────────────────────────────────

/// `String::from_utf8_lossy(bytes).into_owned()`. Claimed: on valid UTF-8
/// the result is exactly the decoded characters (std documents that valid
/// input is returned unchanged); on invalid input it is the named lossy
/// decoding of the bytes, which is not spelled out here.
#[verifier::external_body]
fn utf8_lossy(bytes: &[u8]) -> (r: String)
    ensures
        r@ == (if valid_utf8(bytes@) { decode_utf8(bytes@) } else { lossy_utf8(bytes@) }),
{
    String::from_utf8_lossy(bytes).into_owned()
}

// ── exec codec ────────────────────────────────────────────────────────

fn push_le64(out: &mut Vec<u8>, u: u64)
    ensures
        final(out)@ == old(out)@ + le64(u),
{
    out.push(u as u8);
    out.push((u >> 8u64) as u8);
    out.push((u >> 16u64) as u8);
    out.push((u >> 24u64) as u8);
    out.push((u >> 32u64) as u8);
    out.push((u >> 40u64) as u8);
    out.push((u >> 48u64) as u8);
    out.push((u >> 56u64) as u8);
    assert(final(out)@ =~= old(out)@ + le64(u));
}

pub(crate) fn push_le32(out: &mut Vec<u8>, u: u32)
    ensures
        final(out)@ == old(out)@ + le32(u),
{
    out.push(u as u8);
    out.push((u >> 8u32) as u8);
    out.push((u >> 16u32) as u8);
    out.push((u >> 24u32) as u8);
    assert(final(out)@ =~= old(out)@ + le32(u));
}

fn push_bytes(out: &mut Vec<u8>, b: &[u8])
    ensures
        final(out)@ == old(out)@ + b@,
{
    let mut i: usize = 0;
    while i < b.len()
        invariant
            i <= b@.len(),
            out@ == old(out)@ + b@.take(i as int),
        decreases b@.len() - i,
    {
        out.push(b[i]);
        assert(b@.take(i + 1) == b@.take(i as int).push(b@[i as int]));
        i = i + 1;
    }
    assert(b@.take(b@.len() as int) == b@);
}

/// Encode a row into its storage bytes.
pub fn encode_row(row: &[SqlValue]) -> (out: Vec<u8>)
    ensures
        out@ == encode_values(row.deep_view()),
{
    let mut out: Vec<u8> = Vec::with_capacity(32);
    let mut i: usize = 0;
    while i < row.len()
        invariant
            i <= row@.len(),
            out@ == encode_values(row.deep_view().take(i as int)),
        decreases row@.len() - i,
    {
        let ghost before = out@;
        assert(row.deep_view()[i as int] == row@[i as int].deep_view());
        match &row[i] {
            SqlValue::Int(n) => {
                out.push(0u8);
                push_le64(&mut out, #[verifier::truncate] (*n as u64));
                assert(out@ =~= before + encode_value(row.deep_view()[i as int]));
            },
            SqlValue::Text(s) => {
                out.push(1u8);
                let bytes = s.as_str().as_bytes();
                assert(bytes@ == encode_utf8(s@));
                let len = bytes.len();
                assert(len == encode_utf8(s@).len());
                push_le32(&mut out, #[verifier::truncate] (len as u32));
                push_bytes(&mut out, bytes);
                assert(out@ =~= before + encode_value(row.deep_view()[i as int]));
            },
            SqlValue::Null => {
                out.push(2u8);
                assert(out@ =~= before + encode_value(row.deep_view()[i as int]));
            },
        }
        assert(row.deep_view().take(i + 1).drop_last() == row.deep_view().take(i as int));
        i = i + 1;
    }
    assert(row.deep_view().take(row@.len() as int) == row.deep_view());
    out
}

proof fn lemma_le64_bytes(b: Seq<u8>, b0: u8, b1: u8, b2: u8, b3: u8, b4: u8, b5: u8, b6: u8, b7: u8)
    requires
        b.len() == 8,
        b[0] == b0, b[1] == b1, b[2] == b2, b[3] == b3,
        b[4] == b4, b[5] == b5, b[6] == b6, b[7] == b7,
    ensures
        from_le64(b) == ((b0 as u64) | ((b1 as u64) << 8u64) | ((b2 as u64) << 16u64) | ((b3 as u64) << 24u64)
        | ((b4 as u64) << 32u64) | ((b5 as u64) << 40u64) | ((b6 as u64) << 48u64)
        | ((b7 as u64) << 56u64)),
{
}

/// Decode row bytes against the table's columns; a truncated or malformed
/// stream is reported as `None`.
pub fn decode_row(bytes: &[u8], schema: &[ColumnDef]) -> (r: Option<Vec<SqlValue>>)
    ensures
        match r {
            Some(row) => decode_values(bytes@, 0, schema@.len()) == Some(row.deep_view()),
            None => decode_values(bytes@, 0, schema@.len()) is None,
        },
{
    let mut pos: usize = 0;
    let mut out: Vec<SqlValue> = Vec::with_capacity(schema.len());
    let mut k: usize = 0;
    let ghost b = bytes@;
    while k < schema.len()
        invariant
            k <= schema@.len(),
            pos <= b.len(),
            b == bytes@,
            // the remaining decode determines the overall result
            decode_values(b, 0, schema@.len()) == match decode_values(b, pos as int, (schema@.len() - k) as nat) {
                None => None,
                Some(rest) => Some(out.deep_view() + rest),
            },
        decreases schema@.len() - k,
    {
        let ghost rem = (schema@.len() - k) as nat;
        assert(decode_values(b, pos as int, rem) == match decode_value_at(b, pos as int) {
            None => None,
            Some((v, next)) => match decode_values(b, next, (rem - 1) as nat) {
                None => None,
                Some(rest) => Some(seq![v] + rest),
            },
        });
        if !schema[k].nullable && pos >= bytes.len() {
            return None;
        }
        if pos >= bytes.len() {
            return None;
        }
        let tag = bytes[pos];
        if tag == 0u8 {
            if bytes.len() - pos < 9 {
                return None;
            }
            let u: u64 = (bytes[pos + 1] as u64) | ((bytes[pos + 2] as u64) << 8u64)
                | ((bytes[pos + 3] as u64) << 16u64) | ((bytes[pos + 4] as u64) << 24u64)
                | ((bytes[pos + 5] as u64) << 32u64) | ((bytes[pos + 6] as u64) << 40u64)
                | ((bytes[pos + 7] as u64) << 48u64) | ((bytes[pos + 8] as u64) << 56u64);
            proof {
                lemma_le64_bytes(b.subrange(pos + 1, pos + 9), b[pos + 1], b[pos + 2], b[pos + 3],
                    b[pos + 4], b[pos + 5], b[pos + 6], b[pos + 7], b[pos + 8]);
            }
            let ghost old_out = out.deep_view();
            out.push(SqlValue::Int(u as i64));
            assert(out.deep_view() =~= old_out.push(ValueV::Int(u as i64)));
            pos = pos + 9;
        } else if tag == 1u8 {
            if bytes.len() - pos < 5 {
                return None;
            }
            let n: u32 = (bytes[pos + 1] as u32) | ((bytes[pos + 2] as u32) << 8u32)
                | ((bytes[pos + 3] as u32) << 16u32) | ((bytes[pos + 4] as u32) << 24u32);
            assert(n == from_le32(b.subrange(pos + 1, pos + 5)));
            if (n as usize) > bytes.len() - pos - 5 {
                return None;
            }
            let start = pos + 5;
            let end = pos + 5 + n as usize;
            let text = utf8_lossy(slice_subrange(bytes, start, end));
            let ghost old_out = out.deep_view();
            out.push(SqlValue::Text(text));
            assert(out.deep_view() =~= old_out.push(ValueV::Text(text_of_bytes(b.subrange(start as int, end as int)))));
            pos = end;
        } else if tag == 2u8 {
            let ghost old_out = out.deep_view();
            out.push(SqlValue::Null);
            assert(out.deep_view() =~= old_out.push(ValueV::Null));
            pos = pos + 1;
        } else {
            return None;
        }
        proof {
            let rem2 = (rem - 1) as nat;
            match decode_values(b, pos as int, rem2) {
                None => {},
                Some(rest) => {
                    let v = out.deep_view().last();
                    assert(out.deep_view().drop_last() + (seq![v] + rest) =~= out.deep_view() + rest);
                },
            }
        }
        k = k + 1;
    }
    assert(out.deep_view() + Seq::<ValueV>::empty() =~= out.deep_view());
    Some(out)
}

// ── row keys ──────────────────────────────────────────────────────────

/// Key of a row: the table name's bytes, byte 1, and the row id as 20
/// zero-padded decimal digits.
pub open spec fn row_key_spec(table: Seq<char>, row_id: u64) -> Seq<u8> {
    encode_utf8(table) + seq![1u8] + crate::order::digit_bytes(row_id as nat, 10, 20, 48)
}

/// Storage key of row `row_id` of `table`.
pub fn row_key(table: &str, row_id: u64) -> (r: Vec<u8>)
    ensures
        r@ == row_key_spec(table@, row_id),
{
    let tb = table.as_bytes();
    let mut out: Vec<u8> = Vec::new();
    let mut i: usize = 0;
    while i < tb.len()
        invariant
            i <= tb@.len(),
            out@ == tb@.take(i as int),
        decreases tb@.len() - i,
    {
        out.push(tb[i]);
        assert(out@ =~= tb@.take(i + 1));
        i = i + 1;
    }
    assert(tb@.take(tb@.len() as int) =~= tb@);
    out.push(1u8);
    let mut digits = crate::order::digit_bytes_exec(row_id, 10, 20, 48);
    let ghost pre = out@;
    out.append(&mut digits);
    assert(out@ =~= row_key_spec(table@, row_id));
    out
}

/// Within one table, row keys order (as byte strings) like the row ids.
pub proof fn lemma_row_key_order(table: Seq<char>, a: u64, b: u64)
    ensures
        crate::order::bytes_order(row_key_spec(table, a), row_key_spec(table, b))
            == crate::order::int_order(a as int, b as int),
{
    let p = encode_utf8(table) + seq![1u8];
    reveal_with_fuel(vstd::arithmetic::power::pow, 21);
    assert(vstd::arithmetic::power::pow(10, 20) == 100000000000000000000int);
    crate::order::lemma_digit_bytes_order(a as nat, b as nat, 10, 20, 48);
    crate::order::lemma_bytes_order_refl(p);
    crate::order::lemma_bytes_order_concat(p, p,
        crate::order::digit_bytes(a as nat, 10, 20, 48), crate::order::digit_bytes(b as nat, 10, 20, 48));
}

} // verus!

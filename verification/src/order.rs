//! Ordering of SQL values: the SQL comparison (same-type only) and the total
//! order used for sorting and grouping (integers, then texts, then NULL).
use vstd::prelude::*;
use vstd::utf8::*;
use crate::codec::{SqlValue, ValueV};

verus! {

/// Outcome of comparing two values.
#[derive(Debug, Clone, Copy, PartialEq, Eq, Structural)]
pub enum ValueOrder {
    Less,
    Equal,
    Greater,
}

impl ValueOrder {
    /// The opposite outcome.
    pub open spec fn flip(self) -> ValueOrder {
        match self {
            ValueOrder::Less => ValueOrder::Greater,
            ValueOrder::Equal => ValueOrder::Equal,
            ValueOrder::Greater => ValueOrder::Less,
        }
    }
}

/// Three-way comparison of integers.
pub open spec fn int_order(a: int, b: int) -> ValueOrder {
    if a < b {
        ValueOrder::Less
    } else if a == b {
        ValueOrder::Equal
    } else {
        ValueOrder::Greater
    }
}

/// Lexicographic order of byte strings (a proper prefix is smaller).
pub open spec fn bytes_order(a: Seq<u8>, b: Seq<u8>) -> ValueOrder
    decreases a.len(),
{
    if a.len() == 0 {
        if b.len() == 0 { ValueOrder::Equal } else { ValueOrder::Less }
    } else if b.len() == 0 {
        ValueOrder::Greater
    } else if a[0] < b[0] {
        ValueOrder::Less
    } else if a[0] > b[0] {
        ValueOrder::Greater
    } else {
        bytes_order(a.drop_first(), b.drop_first())
    }
}

/// Order of texts: lexicographic on their UTF-8 bytes (as `String` orders).
pub open spec fn text_order(a: Seq<char>, b: Seq<char>) -> ValueOrder {
    bytes_order(encode_utf8(a), encode_utf8(b))
}

/// SQL comparison: defined only between two integers or two texts; NULL or
/// mixed types compare as UNKNOWN (`None`).
pub open spec fn sql_order(a: ValueV, b: ValueV) -> Option<ValueOrder> {
    match (a, b) {
        (ValueV::Int(x), ValueV::Int(y)) => Some(int_order(x as int, y as int)),
        (ValueV::Text(x), ValueV::Text(y)) => Some(text_order(x, y)),
        _ => None,
    }
}

/// Rank of a value's kind in the total order.
pub open spec fn kind_rank(v: ValueV) -> int {
    match v {
        ValueV::Int(_) => 0,
        ValueV::Text(_) => 1,
        ValueV::Null => 2,
    }
}

/// Total order of values: integers < texts < NULL, then by content.
pub open spec fn total_order(a: ValueV, b: ValueV) -> ValueOrder {
    match sql_order(a, b) {
        Some(o) => o,
        None => if a is Null && b is Null {
            ValueOrder::Equal
        } else {
            int_order(kind_rank(a), kind_rank(b))
        },
    }
}

/// Lexicographic total order of value sequences (a proper prefix is smaller).
pub open spec fn values_order(a: Seq<ValueV>, b: Seq<ValueV>) -> ValueOrder
    decreases a.len(),
{
    if a.len() == 0 {
        if b.len() == 0 { ValueOrder::Equal } else { ValueOrder::Less }
    } else if b.len() == 0 {
        ValueOrder::Greater
    } else if total_order(a[0], b[0]) != ValueOrder::Equal {
        total_order(a[0], b[0])
    } else {
        values_order(a.drop_first(), b.drop_first())
    }
}

/// Lexicographic comparison of byte slices.
pub fn compare_bytes(a: &[u8], b: &[u8]) -> (r: ValueOrder)
    ensures
        r == bytes_order(a@, b@),
{
    let mut i: usize = 0;
    assert(a@.skip(0) =~= a@);
    assert(b@.skip(0) =~= b@);
    while i < a.len() && i < b.len()
        invariant
            i <= a@.len(),
            i <= b@.len(),
            bytes_order(a@, b@) == bytes_order(a@.skip(i as int), b@.skip(i as int)),
        decreases a@.len() - i,
    {
        assert(a@.skip(i as int)[0] == a@[i as int]);
        assert(b@.skip(i as int)[0] == b@[i as int]);
        if a[i] < b[i] {
            return ValueOrder::Less;
        }
        if a[i] > b[i] {
            return ValueOrder::Greater;
        }
        assert(a@.skip(i as int).drop_first() =~= a@.skip(i + 1));
        assert(b@.skip(i as int).drop_first() =~= b@.skip(i + 1));
        i = i + 1;
    }
    if i < a.len() {
        ValueOrder::Greater
    } else if i < b.len() {
        ValueOrder::Less
    } else {
        ValueOrder::Equal
    }
}

/// Three-way comparison of two texts.
pub fn compare_text(a: &String, b: &String) -> (r: ValueOrder)
    ensures
        r == text_order(a@, b@),
{
    compare_bytes(a.as_str().as_bytes(), b.as_str().as_bytes())
}

fn compare_ints(a: i64, b: i64) -> (r: ValueOrder)
    ensures
        r == int_order(a as int, b as int),
{
    if a < b {
        ValueOrder::Less
    } else if a == b {
        ValueOrder::Equal
    } else {
        ValueOrder::Greater
    }
}

/// SQL comparison of two values: `None` when either is NULL or the types
/// differ.
pub fn compare_same_type(a: &SqlValue, b: &SqlValue) -> (r: Option<ValueOrder>)
    ensures
        r == sql_order(a.deep_view(), b.deep_view()),
{
    match (a, b) {
        (SqlValue::Int(x), SqlValue::Int(y)) => Some(compare_ints(*x, *y)),
        (SqlValue::Text(x), SqlValue::Text(y)) => Some(compare_text(x, y)),
        _ => None,
    }
}

fn kind_rank_of(v: &SqlValue) -> (r: i64)
    ensures
        r == kind_rank(v.deep_view()),
{
    match v {
        SqlValue::Int(_) => 0,
        SqlValue::Text(_) => 1,
        SqlValue::Null => 2,
    }
}

/// Total-order comparison of two values.
pub fn compare_total(a: &SqlValue, b: &SqlValue) -> (r: ValueOrder)
    ensures
        r == total_order(a.deep_view(), b.deep_view()),
{
    match compare_same_type(a, b) {
        Some(o) => o,
        None => {
            match (a, b) {
                (SqlValue::Null, SqlValue::Null) => ValueOrder::Equal,
                _ => compare_ints(kind_rank_of(a), kind_rank_of(b)),
            }
        },
    }
}

/// Lexicographic total-order comparison of two value sequences.
pub fn compare_rows(a: &[SqlValue], b: &[SqlValue]) -> (r: ValueOrder)
    ensures
        r == values_order(a.deep_view(), b.deep_view()),
{
    let mut i: usize = 0;
    assert(a.deep_view().skip(0) =~= a.deep_view());
    assert(b.deep_view().skip(0) =~= b.deep_view());
    while i < a.len() && i < b.len()
        invariant
            i <= a@.len(),
            i <= b@.len(),
            a.deep_view().len() == a@.len(),
            b.deep_view().len() == b@.len(),
            values_order(a.deep_view(), b.deep_view())
                == values_order(a.deep_view().skip(i as int), b.deep_view().skip(i as int)),
        decreases a@.len() - i,
    {
        let ghost sa = a.deep_view().skip(i as int);
        let ghost sb = b.deep_view().skip(i as int);
        assert(sa[0] == a@[i as int].deep_view());
        assert(sb[0] == b@[i as int].deep_view());
        assert(sa.len() > 0 && sb.len() > 0);
        assert(values_order(sa, sb) == if total_order(sa[0], sb[0]) != ValueOrder::Equal {
            total_order(sa[0], sb[0])
        } else {
            values_order(sa.drop_first(), sb.drop_first())
        });
        let o = compare_total(&a[i], &b[i]);
        match o {
            ValueOrder::Equal => {},
            _ => {
                return o;
            },
        }
        assert(a.deep_view().skip(i as int).drop_first() =~= a.deep_view().skip(i + 1));
        assert(b.deep_view().skip(i as int).drop_first() =~= b.deep_view().skip(i + 1));
        i = i + 1;
    }
    if i < a.len() {
        ValueOrder::Greater
    } else if i < b.len() {
        ValueOrder::Less
    } else {
        ValueOrder::Equal
    }
}

/// Swapping the byte strings flips their order.
pub proof fn lemma_bytes_order_flip(a: Seq<u8>, b: Seq<u8>)
    ensures
        bytes_order(b, a) == bytes_order(a, b).flip(),
    decreases a.len(),
{
    if a.len() > 0 && b.len() > 0 && a[0] == b[0] {
        lemma_bytes_order_flip(a.drop_first(), b.drop_first());
    }
}

/// Swapping two values flips their total order.
pub proof fn lemma_total_order_flip(a: ValueV, b: ValueV)
    ensures
        total_order(b, a) == total_order(a, b).flip(),
{
    match (a, b) {
        (ValueV::Text(x), ValueV::Text(y)) => {
            lemma_bytes_order_flip(encode_utf8(x), encode_utf8(y));
        },
        _ => {},
    }
}

/// Byte order is transitive where one step is strict: `a <= b < c` gives
/// `a < c`.
pub proof fn lemma_bytes_order_trans(a: Seq<u8>, b: Seq<u8>, c: Seq<u8>)
    requires
        bytes_order(a, b) != ValueOrder::Greater,
        bytes_order(b, c) == ValueOrder::Less,
    ensures
        bytes_order(a, c) == ValueOrder::Less,
    decreases a.len(),
{
    if a.len() > 0 && b.len() > 0 && c.len() > 0 && a[0] == b[0] && b[0] == c[0] {
        lemma_bytes_order_trans(a.drop_first(), b.drop_first(), c.drop_first());
    }
}

/// Byte order is transitive where the first step is strict: `a < b <= c`
/// gives `a < c`.
pub proof fn lemma_bytes_order_trans_left(a: Seq<u8>, b: Seq<u8>, c: Seq<u8>)
    requires
        bytes_order(a, b) == ValueOrder::Less,
        bytes_order(b, c) != ValueOrder::Greater,
    ensures
        bytes_order(a, c) == ValueOrder::Less,
    decreases a.len(),
{
    if a.len() > 0 && b.len() > 0 && c.len() > 0 && a[0] == b[0] && b[0] == c[0] {
        lemma_bytes_order_trans_left(a.drop_first(), b.drop_first(), c.drop_first());
    }
}

// ── byte-string order laws ────────────────────────────────────────────

/// Every byte string is equal to itself in the byte order.
pub proof fn lemma_bytes_order_refl(a: Seq<u8>)
    ensures
        bytes_order(a, a) == ValueOrder::Equal,
    decreases a.len(),
{
    if a.len() > 0 {
        lemma_bytes_order_refl(a.drop_first());
    }
}

/// Comparing concatenations whose first parts have equal lengths: the first
/// parts decide unless they are equal, then the second parts do.
pub proof fn lemma_bytes_order_concat(a: Seq<u8>, b: Seq<u8>, c: Seq<u8>, d: Seq<u8>)
    requires
        a.len() == b.len(),
    ensures
        bytes_order(a + c, b + d) == (if bytes_order(a, b) != ValueOrder::Equal {
            bytes_order(a, b)
        } else {
            bytes_order(c, d)
        }),
    decreases a.len(),
{
    if a.len() == 0 {
        assert(a + c =~= c);
        assert(b + d =~= d);
    } else {
        assert((a + c).drop_first() =~= a.drop_first() + c);
        assert((b + d).drop_first() =~= b.drop_first() + d);
        assert((a + c)[0] == a[0]);
        assert((b + d)[0] == b[0]);
        lemma_bytes_order_concat(a.drop_first(), b.drop_first(), c, d);
    }
}

/// Big-endian base-`b` digits of `x` in `w` places (most significant
/// first), each as the byte `off + digit`.
pub open spec fn digit_bytes(x: nat, b: nat, w: nat, off: nat) -> Seq<u8>
    decreases w,
{
    if w == 0 {
        Seq::empty()
    } else {
        digit_bytes(x / b, b, (w - 1) as nat, off).push((off + x % b) as u8)
    }
}

proof fn lemma_digit_step(x: nat, y: nat, b: nat)
    requires
        b > 1,
    ensures
        x / b < y / b ==> x < y,
        x / b == y / b ==> int_order(x as int, y as int) == int_order((x % b) as int, (y % b) as int),
{
    assert(x == b * (x / b) + x % b) by (nonlinear_arith) requires b > 1;
    assert(y == b * (y / b) + y % b) by (nonlinear_arith) requires b > 1;
    assert(x % b < b) by (nonlinear_arith) requires b > 1;
    assert(y % b < b) by (nonlinear_arith) requires b > 1;
    if x / b < y / b {
        assert(b * (x / b) + b <= b * (y / b)) by (nonlinear_arith) requires x / b < y / b, b > 1;
    }
}

proof fn lemma_div_pow(x: nat, b: nat, w: nat)
    requires
        b > 1,
        w > 0,
        x < vstd::arithmetic::power::pow(b as int, w),
    ensures
        x / b < vstd::arithmetic::power::pow(b as int, (w - 1) as nat),
{
    let p = vstd::arithmetic::power::pow(b as int, (w - 1) as nat);
    reveal(vstd::arithmetic::power::pow);
    assert(vstd::arithmetic::power::pow(b as int, w) == b * p);
    assert(x / b < p) by (nonlinear_arith) requires x < b * p, b > 1;
}

/// Fixed-width big-endian digit strings order like the numbers they spell.
pub proof fn lemma_digit_bytes_order(x: nat, y: nat, b: nat, w: nat, off: nat)
    requires
        b > 1,
        off + b <= 256,
        x < vstd::arithmetic::power::pow(b as int, w),
        y < vstd::arithmetic::power::pow(b as int, w),
    ensures
        digit_bytes(x, b, w, off).len() == w,
        bytes_order(digit_bytes(x, b, w, off), digit_bytes(y, b, w, off)) == int_order(x as int, y as int),
    decreases w,
{
    if w == 0 {
        reveal(vstd::arithmetic::power::pow);
        assert(vstd::arithmetic::power::pow(b as int, 0) == 1);
    } else {
        lemma_div_pow(x, b, w);
        lemma_div_pow(y, b, w);
        lemma_digit_bytes_order(x / b, y / b, b, (w - 1) as nat, off);
        lemma_digit_bytes_order(y / b, y / b, b, (w - 1) as nat, off);
        let px = digit_bytes(x / b, b, (w - 1) as nat, off);
        let py = digit_bytes(y / b, b, (w - 1) as nat, off);
        let cx = (off + x % b) as u8;
        let cy = (off + y % b) as u8;
        assert(x % b < b && y % b < b) by (nonlinear_arith) requires b > 1;
        assert(px.push(cx) =~= px + seq![cx]);
        assert(py.push(cy) =~= py + seq![cy]);
        lemma_bytes_order_concat(px, py, seq![cx], seq![cy]);
        assert(seq![cx].drop_first() =~= Seq::<u8>::empty());
        assert(seq![cy].drop_first() =~= Seq::<u8>::empty());
        assert(bytes_order(seq![cx], seq![cy]) == int_order(cx as int, cy as int)) by {
            reveal_with_fuel(bytes_order, 2);
        }
        assert(cx as int == off + x % b && cy as int == off + y % b);
        lemma_digit_step(x, y, b);
        lemma_digit_step(y, x, b);
    }
}

/// Exec form of [`digit_bytes`].
pub fn digit_bytes_exec(x: u64, b: u64, w: usize, off: u8) -> (r: Vec<u8>)
    requires
        b > 1,
        off + b <= 256,
    ensures
        r@ == digit_bytes(x as nat, b as nat, w as nat, off as nat),
{
    let mut rev: Vec<u8> = Vec::with_capacity(w);
    let mut m: u64 = x;
    let mut k: usize = 0;
    assert(rev@.reverse() =~= Seq::<u8>::empty());
    assert(digit_bytes(x as nat, b as nat, w as nat, off as nat) =~= digit_bytes(m as nat, b as nat, (w - k) as nat, off as nat) + rev@.reverse());
    while k < w
        invariant
            k <= w,
            b > 1,
            off + b <= 256,
            digit_bytes(x as nat, b as nat, w as nat, off as nat)
                == digit_bytes(m as nat, b as nat, (w - k) as nat, off as nat) + rev@.reverse(),
        decreases w - k,
    {
        let d: u64 = m % b;
        let c: u8 = off + (d as u8);
        let ghost before = rev@;
        rev.push(c);
        assert(rev@.reverse() =~= seq![c] + before.reverse());
        assert(digit_bytes(m as nat, b as nat, (w - k) as nat, off as nat)
            == digit_bytes((m / b) as nat, b as nat, (w - k - 1) as nat, off as nat).push(c));
        assert(digit_bytes((m / b) as nat, b as nat, (w - k - 1) as nat, off as nat).push(c) + before.reverse()
            =~= digit_bytes((m / b) as nat, b as nat, (w - k - 1) as nat, off as nat) + rev@.reverse());
        m = m / b;
        k = k + 1;
    }
    assert(digit_bytes(m as nat, b as nat, 0, off as nat) =~= Seq::<u8>::empty());
    let mut out: Vec<u8> = Vec::with_capacity(w);
    let mut j: usize = rev.len();
    while j > 0
        invariant
            j <= rev@.len(),
            out@ == rev@.skip(j as int).reverse(),
        decreases j,
    {
        j = j - 1;
        out.push(rev[j]);
        assert(rev@.skip(j as int).reverse() =~= rev@.skip(j + 1).reverse().push(rev@[j as int]));
    }
    assert(rev@.skip(0) =~= rev@);
    out
}

} // verus!

//! Query-engine surface that needs no storage: results, index definitions,
//! expression evaluation and the planning helpers over parsed SQL.
use vstd::prelude::*;
use vstd::string::*;
use crate::codec::{clone_value, is_null_value, ColumnDef, SqlValue, ValueV};
use crate::order::{bytes_order, digit_bytes, int_order, sql_order, ValueOrder};
use vstd::utf8::*;
use crate::executor::{AggFn, Row};
use crate::parser::{exprs_of, lemma_exprs_view, BinOp, Expr, ExprV, Select, SelectItem, SelectItemV, UnaryOp};

verus! {

/// A materialized statement result.
#[derive(Debug)]
pub struct ExecResult {
    pub columns: Vec<String>,
    pub rows: Vec<Row>,
    pub rows_affected: u64,
}

impl ExecResult {
    /// A result with no columns, rows or affected rows.
    pub fn empty() -> (r: Self)
        ensures
            r.columns@.len() == 0,
            r.rows@.len() == 0,
            r.rows_affected == 0,
    {
        ExecResult { columns: Vec::new(), rows: Vec::new(), rows_affected: 0 }
    }
}

/// Secondary index definition. Indexes are single-column, non-NULL.
#[derive(Debug, Clone)]
pub struct IndexDef {
    pub name: String,
    pub table: String,
    pub column: String,
}

// ── outside helpers ───────────────────────────────────────────────────

/// What `str::to_uppercase` makes of a text (full Unicode case mapping).
pub uninterp spec fn upper_text(s: Seq<char>) -> Seq<char>;

/// What `str::to_lowercase` makes of a text (full Unicode case mapping).
pub uninterp spec fn lower_text(s: Seq<char>) -> Seq<char>;

/// Whether every character of a text is ASCII.
pub open spec fn ascii_text(s: Seq<char>) -> bool {
    forall|i: int| 0 <= i < s.len() ==> (s[i] as u32) < 128
}

/// ASCII upper case of a character (others unchanged).
pub open spec fn ascii_upper(c: char) -> char {
    if 'a' <= c && c <= 'z' { ((c as u32) - 32) as char } else { c }
}

/// ASCII lower case of a character (others unchanged).
pub open spec fn ascii_lower(c: char) -> char {
    if 'A' <= c && c <= 'Z' { ((c as u32) + 32) as char } else { c }
}

/// `str::to_uppercase`. Claimed: the result is [`upper_text`] of the text,
/// a function of the text alone, and on ASCII text it is the ASCII upper
/// case of each character; the full Unicode mapping is not spelled out.
#[verifier::external_body]
pub(crate) fn to_upper(s: &str) -> (r: String)
    ensures
        r@ == upper_text(s@),
        ascii_text(s@) ==> r@ == s@.map_values(|c: char| ascii_upper(c)),
{
    s.to_uppercase()
}

/// `str::to_lowercase`. Claimed: the result is [`lower_text`] of the text,
/// a function of the text alone, and on ASCII text it is the ASCII lower
/// case of each character; the full Unicode mapping is not spelled out.
#[verifier::external_body]
fn to_lower(s: &str) -> (r: String)
    ensures
        r@ == lower_text(s@),
        ascii_text(s@) ==> r@ == s@.map_values(|c: char| ascii_lower(c)),
{
    s.to_lowercase()
}

/// The upper case of a text, as expressions and labels see it: the text
/// [`upper_text`] names, which on ASCII text is each character's ASCII
/// upper case.
pub fn uppercase(s: &str) -> (r: String)
    ensures
        r@ == upper_text(s@),
        ascii_text(s@) ==> r@ == s@.map_values(|c: char| ascii_upper(c)),
{
    to_upper(s)
}

/// The lower case of a text, as the LOWER function sees it: the text
/// [`lower_text`] names, which on ASCII text is each character's ASCII
/// lower case.
pub fn lowercase(s: &str) -> (r: String)
    ensures
        r@ == lower_text(s@),
        ascii_text(s@) ==> r@ == s@.map_values(|c: char| ascii_lower(c)),
{
    to_lower(s)
}

/// The `Debug` rendering of a value, as `format!("{:?}", v)` gives it; it
/// only goes into error messages, and nothing is claimed of it.
#[verifier::external_body]
fn value_debug(v: &SqlValue) -> (r: String)
{
    format!("{v:?}")
}

/// The `Debug` rendering of an expression, as `format!("{:?}", e)` gives
/// it; it only goes into error messages, and nothing is claimed of it.
#[verifier::external_body]
fn expr_debug(e: &Expr) -> (r: String)
{
    format!("{e:?}")
}

pub(crate) fn msg(s: &str) -> (r: String)
    ensures
        r@ == s@,
{
    String::from_str(s)
}

/// `prefix` followed by `rest`.
pub(crate) fn join2(prefix: &str, rest: &str) -> (r: String)
    ensures
        r@ == prefix@ + rest@,
{
    let mut m = String::from_str(prefix);
    m.append(rest);
    m
}

// ── columns and three-valued logic ────────────────────────────────────

/// Index of the first column named `name` at or after `i`.
pub open spec fn col_from(schema: Seq<ColumnDef>, name: Seq<char>, i: int) -> Option<int>
    decreases schema.len() - i,
{
    if i < 0 || i >= schema.len() {
        None
    } else if schema[i].name@ == name {
        Some(i)
    } else {
        col_from(schema, name, i + 1)
    }
}

/// Position of the first column named `name`; an error naming it when
/// there is none.
pub fn col_pos(schema: &[ColumnDef], name: &str) -> (r: Result<usize, String>)
    ensures
        match col_from(schema@, name@, 0) {
            Some(i) => (r matches Ok(p) && p == i) && 0 <= i < schema@.len(),
            None => r matches Err(m) && m@ == "unknown column "@ + name@,
        },
{
    let mut i: usize = 0;
    while i < schema.len()
        invariant
            i <= schema@.len(),
            col_from(schema@, name@, 0) == col_from(schema@, name@, i as int),
        decreases schema@.len() - i,
    {
        if str_eq(schema[i].name.as_str(), name) {
            return Ok(i);
        }
        i = i + 1;
    }
    Err(join2("unknown column ", name))
}

/// `a` and `b` spell the same text.
pub(crate) fn str_eq(a: &str, b: &str) -> (r: bool)
    ensures
        r == (a@ == b@),
{
    let n = a.unicode_len();
    if n != b.unicode_len() {
        return false;
    }
    let mut i: usize = 0;
    while i < n
        invariant
            n == a@.len(),
            n == b@.len(),
            i <= n,
            forall|k: int| 0 <= k < i ==> a@[k] == b@[k],
        decreases n - i,
    {
        if a.get_char(i) != b.get_char(i) {
            return false;
        }
        i = i + 1;
    }
    assert(a@ =~= b@);
    true
}

/// SQL truth of a value: NULL is UNKNOWN (`None`), an integer is true
/// unless 0; a text is no truth value (`Err`).
pub open spec fn logic_of(v: ValueV) -> Result<Option<bool>, ()> {
    match v {
        ValueV::Null => Ok(None),
        ValueV::Int(n) => Ok(Some(n != 0)),
        ValueV::Text(_) => Err(()),
    }
}

/// SQL boolean coercion: NULL → UNKNOWN (`None`), integer 0 → false, any
/// other integer → true; a text is an error.
pub fn to_logic(v: &SqlValue) -> (r: Result<Option<bool>, String>)
    ensures
        match logic_of(v.deep_view()) {
            Ok(b) => r == Ok::<Option<bool>, String>(b),
            Err(_) => r is Err,
        },
{
    match v {
        SqlValue::Null => Ok(None),
        SqlValue::Int(n) => Ok(Some(*n != 0)),
        SqlValue::Text(_) => Err(join2("boolean predicate expected INTEGER, got ", value_debug(v).as_str())),
    }
}

/// Predicate truth for WHERE and JOIN ON: UNKNOWN counts as false.
pub fn is_true(v: &SqlValue) -> (r: Result<bool, String>)
    ensures
        match logic_of(v.deep_view()) {
            Ok(b) => r == Ok::<bool, String>(b == Some(true)),
            Err(_) => r is Err,
        },
{
    match to_logic(v) {
        Ok(b) => Ok(match b {
            Some(x) => x,
            None => false,
        }),
        Err(e) => Err(e),
    }
}

/// A truth value as an integer (1, 0) or NULL for UNKNOWN.
pub open spec fn logic_value(b: Option<bool>) -> ValueV {
    match b {
        Some(true) => ValueV::Int(1),
        Some(false) => ValueV::Int(0),
        None => ValueV::Null,
    }
}

fn logic_to_int(b: Option<bool>) -> (r: SqlValue)
    ensures
        r.deep_view() == logic_value(b),
{
    match b {
        Some(true) => SqlValue::Int(1),
        Some(false) => SqlValue::Int(0),
        None => SqlValue::Null,
    }
}

/// SQL AND: false wins, then UNKNOWN.
pub open spec fn and_logic(a: Option<bool>, b: Option<bool>) -> Option<bool> {
    if a == Some(false) || b == Some(false) {
        Some(false)
    } else if a == Some(true) && b == Some(true) {
        Some(true)
    } else {
        None
    }
}

/// SQL OR: true wins, then UNKNOWN.
pub open spec fn or_logic(a: Option<bool>, b: Option<bool>) -> Option<bool> {
    if a == Some(true) || b == Some(true) {
        Some(true)
    } else if a == Some(false) && b == Some(false) {
        Some(false)
    } else {
        None
    }
}

fn and3(a: Option<bool>, b: Option<bool>) -> (r: Option<bool>)
    ensures
        r == and_logic(a, b),
{
    match (a, b) {
        (Some(false), _) | (_, Some(false)) => Some(false),
        (Some(true), Some(true)) => Some(true),
        _ => None,
    }
}

fn or3(a: Option<bool>, b: Option<bool>) -> (r: Option<bool>)
    ensures
        r == or_logic(a, b),
{
    match (a, b) {
        (Some(true), _) | (_, Some(true)) => Some(true),
        (Some(false), Some(false)) => Some(false),
        _ => None,
    }
}

/// The three-valued AND and OR are commutative, and NOT (swapping true
/// and false, keeping UNKNOWN) turns each into the other (De Morgan).
pub proof fn lemma_three_valued_logic(a: Option<bool>, b: Option<bool>)
    ensures
        and_logic(a, b) == and_logic(b, a),
        or_logic(a, b) == or_logic(b, a),
        not_logic(and_logic(a, b)) == or_logic(not_logic(a), not_logic(b)),
        not_logic(or_logic(a, b)) == and_logic(not_logic(a), not_logic(b)),
{
}

/// SQL NOT: swaps true and false, keeps UNKNOWN.
pub open spec fn not_logic(a: Option<bool>) -> Option<bool> {
    match a {
        Some(x) => Some(!x),
        None => None,
    }
}

// ── LIKE ──────────────────────────────────────────────────────────────

/// `s` matches pattern `p`, where `%` matches any run of characters and
/// `_` any single character; other characters match themselves.
pub open spec fn like_spec(s: Seq<char>, p: Seq<char>) -> bool
    decreases s.len() + p.len(),
{
    if p.len() == 0 {
        s.len() == 0
    } else if p[0] == '_' {
        s.len() > 0 && like_spec(s.drop_first(), p.drop_first())
    } else if p[0] == '%' {
        like_spec(s, p.drop_first()) || (s.len() > 0 && like_spec(s.drop_first(), p))
    } else {
        s.len() > 0 && s[0] == p[0] && like_spec(s.drop_first(), p.drop_first())
    }
}

fn like_from(s: &Vec<char>, i: usize, p: &Vec<char>, j: usize) -> (r: bool)
    requires
        i <= s@.len(),
        j <= p@.len(),
    ensures
        r == like_spec(s@.skip(i as int), p@.skip(j as int)),
    decreases s@.len() - i + p@.len() - j,
{
    let ghost ss = s@.skip(i as int);
    let ghost ps = p@.skip(j as int);
    assert(ss.len() > 0 ==> ss.drop_first() =~= s@.skip(i + 1));
    assert(ps.len() > 0 ==> ps.drop_first() =~= p@.skip(j + 1));
    if j == p.len() {
        i == s.len()
    } else if p[j] == '_' {
        assert(ps[0] == p@[j as int]);
        i < s.len() && like_from(s, i + 1, p, j + 1)
    } else if p[j] == '%' {
        assert(ps[0] == p@[j as int]);
        like_from(s, i, p, j + 1) || (i < s.len() && like_from(s, i + 1, p, j))
    } else {
        assert(ps[0] == p@[j as int]);
        assert(i < s.len() ==> ss[0] == s@[i as int]);
        i < s.len() && s[i] == p[j] && like_from(s, i + 1, p, j + 1)
    }
}

/// SQL LIKE, case-sensitive: `%` matches any run, `_` one character.
pub fn like_matches(s: &str, pattern: &str) -> (r: bool)
    ensures
        r == like_spec(s@, pattern@),
{
    let sv = chars_of(s);
    let pv = chars_of(pattern);
    assert(sv@.skip(0) =~= sv@);
    assert(pv@.skip(0) =~= pv@);
    like_from(&sv, 0, &pv, 0)
}

/// The characters of a text.
fn chars_of(s: &str) -> (v: Vec<char>)
    ensures
        v@ == s@,
{
    let n = s.unicode_len();
    let mut v: Vec<char> = Vec::with_capacity(n);
    let mut i: usize = 0;
    while i < n
        invariant
            n == s@.len(),
            i <= n,
            v@ == s@.take(i as int),
        decreases n - i,
    {
        v.push(s.get_char(i));
        assert(v@ =~= s@.take(i + 1));
        i = i + 1;
    }
    assert(s@.take(n as int) =~= s@);
    v
}

// ── expressions: copies, equality, conjuncts ──────────────────────────

/// Exact copy of an expression.
pub fn clone_expr(e: &Expr) -> (r: Expr)
    ensures
        r@ == e@,
    decreases e,
{
    match e {
        Expr::Identifier(s) => Expr::Identifier(s.clone()),
        Expr::Literal(v) => Expr::Literal(clone_value(v)),
        Expr::Unary { op, expr } => Expr::Unary { op: *op, expr: Box::new(clone_expr(expr)) },
        Expr::BinaryOp { left, op, right } => Expr::BinaryOp {
            left: Box::new(clone_expr(left)),
            op: *op,
            right: Box::new(clone_expr(right)),
        },
        Expr::Between { expr, lo, hi } => Expr::Between {
            expr: Box::new(clone_expr(expr)),
            lo: Box::new(clone_expr(lo)),
            hi: Box::new(clone_expr(hi)),
        },
        Expr::InList { expr, list } => {
            let x = clone_expr(expr);
            let mut out: Vec<Expr> = Vec::with_capacity(list.len());
            let mut i: usize = 0;
            #[verifier::loop_isolation(false)]
            while i < list.len()
                invariant
                    i <= list@.len(),
                    exprs_of(out@) == exprs_of(list@.take(i as int)),
                decreases list@.len() - i,
            {
                assert(decreases_to!(e => list));
                assert(decreases_to!(list => list@));
                assert(decreases_to!(list@ => list@[i as int]));
                let c = clone_expr(&list[i]);
                let ghost before = out@;
                out.push(c);
                assert(exprs_of(out@) =~= exprs_of(before).push(c@));
                assert(list@.take(i + 1) =~= list@.take(i as int).push(list@[i as int]));
                assert(exprs_of(list@.take(i + 1)) =~= exprs_of(list@.take(i as int)).push(list@[i as int]@));
                i = i + 1;
            }
            assert(list@.take(list@.len() as int) =~= list@);
            proof {
                lemma_exprs_view(out@);
                lemma_exprs_view(list@);
            }
            Expr::InList { expr: Box::new(x), list: out }
        },
        Expr::Function { name, args } => {
            let mut out: Vec<Expr> = Vec::with_capacity(args.len());
            let mut i: usize = 0;
            #[verifier::loop_isolation(false)]
            while i < args.len()
                invariant
                    i <= args@.len(),
                    exprs_of(out@) == exprs_of(args@.take(i as int)),
                decreases args@.len() - i,
            {
                assert(decreases_to!(e => args));
                assert(decreases_to!(args => args@));
                assert(decreases_to!(args@ => args@[i as int]));
                let c = clone_expr(&args[i]);
                let ghost before = out@;
                out.push(c);
                assert(exprs_of(out@) =~= exprs_of(before).push(c@));
                assert(args@.take(i + 1) =~= args@.take(i as int).push(args@[i as int]));
                assert(exprs_of(args@.take(i + 1)) =~= exprs_of(args@.take(i as int)).push(args@[i as int]@));
                i = i + 1;
            }
            assert(args@.take(args@.len() as int) =~= args@);
            proof {
                lemma_exprs_view(out@);
                lemma_exprs_view(args@);
            }
            Expr::Function { name: name.clone(), args: out }
        },
    }
}

/// Structural equality of expressions (by their models).
pub fn expr_eq(a: &Expr, b: &Expr) -> (r: bool)
    ensures
        r == (a@ == b@),
    decreases a,
{
    match (a, b) {
        (Expr::Identifier(x), Expr::Identifier(y)) => str_eq(x.as_str(), y.as_str()),
        (Expr::Literal(x), Expr::Literal(y)) => crate::codec::value_eq(x, y),
        (Expr::Unary { op: o1, expr: e1 }, Expr::Unary { op: o2, expr: e2 }) => *o1 == *o2 && expr_eq(e1, e2),
        (Expr::BinaryOp { left: l1, op: o1, right: r1 }, Expr::BinaryOp { left: l2, op: o2, right: r2 }) =>
            *o1 == *o2 && expr_eq(l1, l2) && expr_eq(r1, r2),
        (Expr::Between { expr: e1, lo: lo1, hi: hi1 }, Expr::Between { expr: e2, lo: lo2, hi: hi2 }) =>
            expr_eq(e1, e2) && expr_eq(lo1, lo2) && expr_eq(hi1, hi2),
        (Expr::InList { expr: e1, list: l1 }, Expr::InList { expr: e2, list: l2 }) => {
            if !expr_eq(e1, e2) {
                return false;
            }
            proof {
                lemma_exprs_view(l1@);
                lemma_exprs_view(l2@);
            }
            if l1.len() != l2.len() {
                assert(exprs_of(l1@).len() != exprs_of(l2@).len());
                return false;
            }
            let mut i: usize = 0;
            #[verifier::loop_isolation(false)]
            while i < l1.len()
                invariant
                    i <= l1@.len(),
                    l1@.len() == l2@.len(),
                    forall|k: int| 0 <= k < i ==> l1@[k]@ == l2@[k]@,
                decreases l1@.len() - i,
            {
                assert(decreases_to!(a => l1));
                assert(decreases_to!(l1 => l1@));
                assert(decreases_to!(l1@ => l1@[i as int]));
                if !expr_eq(&l1[i], &l2[i]) {
                    assert(exprs_of(l1@)[i as int] != exprs_of(l2@)[i as int]);
                    return false;
                }
                i = i + 1;
            }
            assert(exprs_of(l1@) =~= exprs_of(l2@));
            true
        },
        (Expr::Function { name: n1, args: a1 }, Expr::Function { name: n2, args: a2 }) => {
            if !str_eq(n1.as_str(), n2.as_str()) {
                return false;
            }
            proof {
                lemma_exprs_view(a1@);
                lemma_exprs_view(a2@);
            }
            if a1.len() != a2.len() {
                assert(exprs_of(a1@).len() != exprs_of(a2@).len());
                return false;
            }
            let mut i: usize = 0;
            #[verifier::loop_isolation(false)]
            while i < a1.len()
                invariant
                    i <= a1@.len(),
                    a1@.len() == a2@.len(),
                    forall|k: int| 0 <= k < i ==> a1@[k]@ == a2@[k]@,
                decreases a1@.len() - i,
            {
                assert(decreases_to!(a => a1));
                assert(decreases_to!(a1 => a1@));
                assert(decreases_to!(a1@ => a1@[i as int]));
                if !expr_eq(&a1[i], &a2[i]) {
                    assert(exprs_of(a1@)[i as int] != exprs_of(a2@)[i as int]);
                    return false;
                }
                i = i + 1;
            }
            assert(exprs_of(a1@) =~= exprs_of(a2@));
            true
        },
        _ => false,
    }
}

/// The top-level AND conjuncts of a predicate, left to right.
pub open spec fn conj_spec(e: ExprV) -> Seq<ExprV>
    decreases e,
{
    match e {
        ExprV::BinaryOp { left, op: BinOp::And, right } => conj_spec(*left) + conj_spec(*right),
        _ => seq![e],
    }
}

/// `pred` with every top-level conjunct equal to `term` removed; `None`
/// when nothing is left.
pub open spec fn remove_spec(pred: ExprV, term: ExprV) -> Option<ExprV>
    decreases pred,
{
    match pred {
        ExprV::BinaryOp { left, op: BinOp::And, right } => match (remove_spec(*left, term), remove_spec(*right, term)) {
            (Some(l), Some(r)) => Some(ExprV::BinaryOp { left: Box::new(l), op: BinOp::And, right: Box::new(r) }),
            (Some(l), None) => Some(l),
            (None, Some(r)) => Some(r),
            (None, None) => None,
        },
        _ => if pred == term { None } else { Some(pred) },
    }
}

/// Removing a conjunct keeps exactly the other conjuncts, in order, and
/// gives `None` only when every conjunct was the removed one.
pub proof fn lemma_remove_conjunct(pred: ExprV, term: ExprV)
    ensures
        match remove_spec(pred, term) {
            Some(r) => conj_spec(r) == conj_spec(pred).filter(|c: ExprV| c != term),
            None => conj_spec(pred).filter(|c: ExprV| c != term).len() == 0,
        },
    decreases pred,
{
    let f = |c: ExprV| c != term;
    match pred {
        ExprV::BinaryOp { left, op: BinOp::And, right } => {
            lemma_remove_conjunct(*left, term);
            lemma_remove_conjunct(*right, term);
            Seq::filter_distributes_over_add(conj_spec(*left), conj_spec(*right), f);
            match (remove_spec(*left, term), remove_spec(*right, term)) {
                (Some(l), None) => {
                    assert(conj_spec(*left).filter(f) + conj_spec(*right).filter(f) =~= conj_spec(*left).filter(f));
                },
                (None, Some(r)) => {
                    assert(conj_spec(*left).filter(f) + conj_spec(*right).filter(f) =~= conj_spec(*right).filter(f));
                },
                _ => {},
            }
        },
        _ => {
            reveal_with_fuel(Seq::filter, 2);
            assert(seq![pred].drop_last() =~= Seq::<ExprV>::empty());
        },
    }
}

/// Split a predicate into its top-level AND conjuncts.
pub fn conjuncts(expr: &Expr) -> (r: Vec<Expr>)
    ensures
        exprs_of(r@) == conj_spec(expr@),
    decreases expr,
{
    match expr {
        Expr::BinaryOp { left, op: BinOp::And, right } => {
            let mut out = conjuncts(left);
            let mut rest = conjuncts(right);
            let ghost a = out@;
            let ghost b = rest@;
            out.append(&mut rest);
            assert(exprs_of(out@) =~= exprs_of(a) + exprs_of(b));
            out
        },
        _ => {
            let v = vec![clone_expr(expr)];
            assert(exprs_of(v@) =~= seq![expr@]);
            v
        },
    }
}

/// Rebuild `pred` with the top-level conjunct `term` removed; `None` only
/// when the predicate had no other conjunct.
pub fn remove_conjunct(pred: &Expr, term: &Expr) -> (r: Option<Expr>)
    ensures
        match remove_spec(pred@, term@) {
            Some(v) => r matches Some(e) && e@ == v,
            None => r is None,
        },
    decreases pred,
{
    match pred {
        Expr::BinaryOp { left, op: BinOp::And, right } => match (remove_conjunct(left, term), remove_conjunct(right, term)) {
            (Some(l), Some(r)) => Some(Expr::BinaryOp { left: Box::new(l), op: BinOp::And, right: Box::new(r) }),
            (Some(l), None) => Some(l),
            (None, Some(r)) => Some(r),
            (None, None) => None,
        },
        _ => {
            if expr_eq(pred, term) {
                None
            } else {
                Some(clone_expr(pred))
            }
        },
    }
}

/// The value of a literal expression; any other expression is an error.
pub fn literal_value(expr: &Expr) -> (r: Result<SqlValue, String>)
    ensures
        match expr@ {
            ExprV::Literal(v) => r matches Ok(x) && x.deep_view() == v,
            _ => r is Err,
        },
{
    match expr {
        Expr::Literal(v) => Ok(clone_value(v)),
        _ => Err(join2("unsupported literal ", expr_debug(expr).as_str())),
    }
}

/// The aggregate function names (compared in upper case).
pub open spec fn is_agg_name(name: Seq<char>) -> bool {
    let u = upper_text(name);
    u == "COUNT"@ || u == "SUM"@ || u == "AVG"@ || u == "MIN"@ || u == "MAX"@
}

/// An aggregate call occurs in the expression (through function arguments
/// and binary operands).
pub open spec fn has_agg(e: ExprV) -> bool
    decreases e, 0int,
{
    match e {
        ExprV::Function { name, args } => is_agg_name(name) || any_agg(args),
        ExprV::BinaryOp { left, right, .. } => has_agg(*left) || has_agg(*right),
        _ => false,
    }
}

/// An aggregate call occurs in one of the expressions.
pub open spec fn any_agg(s: Seq<ExprV>) -> bool
    decreases s, 1int,
{
    if s.len() == 0 {
        false
    } else {
        has_agg(s[0]) || any_agg(s.drop_first())
    }
}

fn agg_name(name: &str) -> (r: bool)
    ensures
        r == is_agg_name(name@),
{
    let up = to_upper(name);
    let u = up.as_str();
    str_eq(u, "COUNT") || str_eq(u, "SUM") || str_eq(u, "AVG") || str_eq(u, "MIN") || str_eq(u, "MAX")
}

/// Whether the expression calls an aggregate function.
pub fn contains_aggregate(e: &Expr) -> (r: bool)
    ensures
        r == has_agg(e@),
    decreases e,
{
    match e {
        Expr::Function { name, args } => {
            if agg_name(name.as_str()) {
                return true;
            }
            proof {
                lemma_exprs_view(args@);
            }
            let mut i: usize = 0;
            assert(exprs_of(args@).skip(0) =~= exprs_of(args@));
            #[verifier::loop_isolation(false)]
            while i < args.len()
                invariant
                    i <= args@.len(),
                    any_agg(exprs_of(args@)) == any_agg(exprs_of(args@).skip(i as int)),
                decreases args@.len() - i,
            {
                assert(decreases_to!(e => args));
                assert(decreases_to!(args => args@));
                assert(decreases_to!(args@ => args@[i as int]));
                let ghost sk = exprs_of(args@).skip(i as int);
                assert(sk[0] == args@[i as int]@);
                assert(sk.drop_first() =~= exprs_of(args@).skip(i + 1));
                if contains_aggregate(&args[i]) {
                    return true;
                }
                i = i + 1;
            }
            assert(exprs_of(args@).skip(args@.len() as int) =~= Seq::<ExprV>::empty());
            false
        },
        Expr::BinaryOp { left, right, .. } => contains_aggregate(left) || contains_aggregate(right),
        _ => false,
    }
}

// ── rendering expressions ─────────────────────────────────────────────

/// The decimal digit character for `d` (0 to 9).
pub open spec fn digit_char(d: int) -> char {
    (48 + d) as char
}

/// Decimal digits of a natural number, most significant first.
pub open spec fn digits_of(n: nat) -> Seq<char>
    decreases n,
{
    if n < 10 {
        seq![digit_char(n as int)]
    } else {
        digits_of(n / 10).push(digit_char((n % 10) as int))
    }
}

/// Decimal text of an integer (a leading `-` when negative).
pub open spec fn int_text(n: int) -> Seq<char> {
    if n < 0 {
        seq!['-'] + digits_of((-n) as nat)
    } else {
        digits_of(n as nat)
    }
}

/// The text a value displays as: an integer in decimal, a text as itself,
/// NULL as `NULL`.
pub open spec fn display_spec(v: ValueV) -> Seq<char> {
    match v {
        ValueV::Int(n) => int_text(n as int),
        ValueV::Text(s) => s,
        ValueV::Null => "NULL"@,
    }
}

/// How a value displays (see [`display_spec`]).
pub fn display_value(v: &SqlValue) -> (r: String)
    ensures
        r@ == display_spec(v.deep_view()),
{
    match v {
        SqlValue::Int(n) => int_to_string(*n),
        SqlValue::Text(s) => s.clone(),
        SqlValue::Null => {
            let r = String::from_str("NULL");
            proof { reveal_strlit("NULL"); }
            r
        },
    }
}

/// Decimal text of an integer.
pub fn int_to_string(n: i64) -> (r: String)
    ensures
        r@ == int_text(n as int),
{
    let neg = n < 0;
    let mag: u64 = if neg { (0i128 - (n as i128)) as u64 } else { n as u64 };
    let mut m: u64 = mag;
    let mut rev: Vec<char> = Vec::new();
    loop
        invariant_except_break
            digits_of(mag as nat) == digits_of(m as nat) + rev@.reverse(),
        ensures
            digits_of(mag as nat) == rev@.reverse(),
        decreases m,
    {
        let d: u64 = m % 10;
        let c: char = ((d as u8) + 48) as char;
        assert(c == digit_char(d as int));
        let ghost before = rev@;
        rev.push(c);
        assert(rev@.reverse() =~= seq![c] + before.reverse());
        if m < 10 {
            assert(digits_of(m as nat) == seq![c]);
            assert(digits_of(mag as nat) =~= rev@.reverse());
            break;
        }
        assert(digits_of(m as nat) == digits_of((m / 10) as nat).push(c));
        assert(digits_of((m / 10) as nat).push(c) + before.reverse() =~= digits_of((m / 10) as nat) + rev@.reverse());
        m = m / 10;
    }
    let mut out: Vec<char> = Vec::new();
    if neg {
        out.push('-');
    }
    let ghost base = out@;
    let mut k: usize = rev.len();
    while k > 0
        invariant
            k <= rev@.len(),
            out@ == base + rev@.skip(k as int).reverse(),
        decreases k,
    {
        k = k - 1;
        let ghost before = out@;
        out.push(rev[k]);
        assert(rev@.skip(k as int).reverse() =~= rev@.skip(k + 1).reverse().push(rev@[k as int]));
    }
    assert(rev@.skip(0) =~= rev@);
    proof {
        if neg {
            assert((-(n as int)) as nat == mag as nat);
        }
    }
    assert(out@ =~= int_text(n as int));
    crate::parser::string_from_chars(out.as_slice())
}

/// The symbol of a binary operator.
pub open spec fn op_symbol(op: BinOp) -> Seq<char> {
    match op {
        BinOp::Eq => "="@,
        BinOp::NotEq => "!="@,
        BinOp::Lt => "<"@,
        BinOp::LtEq => "<="@,
        BinOp::Gt => ">"@,
        BinOp::GtEq => ">="@,
        BinOp::And => "AND"@,
        BinOp::Or => "OR"@,
        BinOp::Like => "LIKE"@,
        BinOp::Add => "+"@,
        BinOp::Sub => "-"@,
        BinOp::Mul => "*"@,
        BinOp::Div => "/"@,
        BinOp::Mod => "%"@,
    }
}

fn op_sym(op: BinOp) -> (r: &'static str)
    ensures
        r@ == op_symbol(op),
{
    match op {
        BinOp::Eq => "=",
        BinOp::NotEq => "!=",
        BinOp::Lt => "<",
        BinOp::LtEq => "<=",
        BinOp::Gt => ">",
        BinOp::GtEq => ">=",
        BinOp::And => "AND",
        BinOp::Or => "OR",
        BinOp::Like => "LIKE",
        BinOp::Add => "+",
        BinOp::Sub => "-",
        BinOp::Mul => "*",
        BinOp::Div => "/",
        BinOp::Mod => "%",
    }
}

/// SQL text of an expression, as used for result column labels.
pub open spec fn render(e: ExprV) -> Seq<char>
    decreases e, 0int,
{
    match e {
        ExprV::Identifier(id) => id,
        ExprV::Literal(ValueV::Int(n)) => int_text(n as int),
        ExprV::Literal(ValueV::Text(s)) => "'"@ + s + "'"@,
        ExprV::Literal(ValueV::Null) => "NULL"@,
        ExprV::Unary { op: UnaryOp::Not, expr } => "(NOT "@ + render(*expr) + ")"@,
        ExprV::Unary { op: UnaryOp::Neg, expr } => "(-"@ + render(*expr) + ")"@,
        ExprV::BinaryOp { left, op, right } => "("@ + render(*left) + " "@ + op_symbol(op) + " "@ + render(*right) + ")"@,
        ExprV::Between { expr, lo, hi } => "("@ + render(*expr) + " BETWEEN "@ + render(*lo) + " AND "@ + render(*hi) + ")"@,
        ExprV::InList { expr, list } => "("@ + render(*expr) + " IN ("@ + render_list(list) + "))"@,
        ExprV::Function { name, args } => upper_text(name) + "("@ + render_list(args) + ")"@,
    }
}

/// SQL texts of expressions, joined by `, `.
pub open spec fn render_list(s: Seq<ExprV>) -> Seq<char>
    decreases s, 1int,
{
    if s.len() == 0 {
        Seq::empty()
    } else if s.len() == 1 {
        render(s[0])
    } else {
        render_list(s.drop_last()) + ", "@ + render(s.last())
    }
}

/// `s` followed by `t`.
fn push_str(s: &mut String, t: &str)
    ensures
        final(s)@ == old(s)@ + t@,
{
    s.append(t);
}

/// SQL texts of expressions joined by `, `, appended to `out`.
fn render_into(out: &mut String, list: &Vec<Expr>)
    ensures
        final(out)@ == old(out)@ + render_list(exprs_of(list@)),
    decreases list@, 0int,
{
    let ghost base = out@;
    let ghost ls = exprs_of(list@);
    let mut i: usize = 0;
    assert(ls.take(0) =~= Seq::<ExprV>::empty());
    while i < list.len()
        invariant
            i <= list@.len(),
            ls == exprs_of(list@),
            out@ == base + render_list(ls.take(i as int)),
        decreases list@.len() - i,
    {
        assert(decreases_to!(list@ => list@[i as int]));
        let piece = format_expr_inner(&list[i]);
        let ghost t = ls.take(i + 1);
        assert(t.last() == list@[i as int]@);
        assert(t.drop_last() =~= ls.take(i as int));
        if i > 0 {
            push_str(out, ", ");
        }
        push_str(out, piece.as_str());
        i = i + 1;
    }
    assert(ls.take(list@.len() as int) =~= ls);
}

fn format_expr_inner(e: &Expr) -> (r: String)
    ensures
        r@ == render(e@),
    decreases e, 1int,
{
    match e {
        Expr::Identifier(id) => id.clone(),
        Expr::Literal(SqlValue::Int(n)) => int_to_string(*n),
        Expr::Literal(SqlValue::Text(s)) => {
            let mut out = msg("'");
            push_str(&mut out, s.as_str());
            push_str(&mut out, "'");
            out
        },
        Expr::Literal(SqlValue::Null) => msg("NULL"),
        Expr::Unary { op: UnaryOp::Not, expr } => {
            let mut out = msg("(NOT ");
            push_str(&mut out, format_expr_inner(expr).as_str());
            push_str(&mut out, ")");
            out
        },
        Expr::Unary { op: UnaryOp::Neg, expr } => {
            let mut out = msg("(-");
            push_str(&mut out, format_expr_inner(expr).as_str());
            push_str(&mut out, ")");
            out
        },
        Expr::BinaryOp { left, op, right } => {
            let mut out = msg("(");
            push_str(&mut out, format_expr_inner(left).as_str());
            push_str(&mut out, " ");
            push_str(&mut out, op_sym(*op));
            push_str(&mut out, " ");
            push_str(&mut out, format_expr_inner(right).as_str());
            push_str(&mut out, ")");
            out
        },
        Expr::Between { expr, lo, hi } => {
            let mut out = msg("(");
            push_str(&mut out, format_expr_inner(expr).as_str());
            push_str(&mut out, " BETWEEN ");
            push_str(&mut out, format_expr_inner(lo).as_str());
            push_str(&mut out, " AND ");
            push_str(&mut out, format_expr_inner(hi).as_str());
            push_str(&mut out, ")");
            out
        },
        Expr::InList { expr, list } => {
            proof {
                lemma_exprs_view(list@);
            }
            let mut out = msg("(");
            push_str(&mut out, format_expr_inner(expr).as_str());
            push_str(&mut out, " IN (");
            assert(decreases_to!(e => list@));
            render_into(&mut out, list);
            push_str(&mut out, "))");
            out
        },
        Expr::Function { name, args } => {
            proof {
                lemma_exprs_view(args@);
            }
            let mut out = to_upper(name.as_str());
            push_str(&mut out, "(");
            assert(decreases_to!(e => args@));
            render_into(&mut out, args);
            push_str(&mut out, ")");
            out
        },
    }
}

/// Render an expression back to SQL text for result column labels.
pub fn format_expr(e: &Expr) -> (r: String)
    ensures
        r@ == render(e@),
{
    format_expr_inner(e)
}

// ── evaluation ────────────────────────────────────────────────────────

/// Division truncating toward zero (`d` not 0).
pub open spec fn trunc_div(x: int, d: int) -> int {
    if x == 0 {
        0
    } else if x > 0 && d > 0 {
        x / d
    } else if x < 0 && d < 0 {
        (-x) / (-d)
    } else if x < 0 {
        -((-x) / d)
    } else {
        -(x / (-d))
    }
}

/// Remainder of [`trunc_div`]: it takes the sign of `x`.
pub open spec fn trunc_rem(x: int, d: int) -> int {
    if x == 0 {
        0
    } else if x > 0 && d > 0 {
        x % d
    } else if x < 0 && d < 0 {
        -((-x) % (-d))
    } else if x < 0 {
        -((-x) % d)
    } else {
        x % (-d)
    }
}

/// 64-bit integer arithmetic: `None` on division by zero or when the
/// result leaves the 64-bit range (as `i64::MIN % -1` is taken to).
pub open spec fn arith_spec(op: BinOp, x: i64, y: i64) -> Option<i64> {
    let r: Option<int> = match op {
        BinOp::Add => Some(x + y),
        BinOp::Sub => Some(x - y),
        BinOp::Mul => Some(x * y),
        BinOp::Div => if y == 0 { None } else { Some(trunc_div(x as int, y as int)) },
        BinOp::Mod => if y == 0 || (x == i64::MIN && y == -1) { None } else { Some(trunc_rem(x as int, y as int)) },
        _ => None,
    };
    match r {
        Some(v) => if i64::MIN <= v <= i64::MAX { Some(v as i64) } else { None },
        None => None,
    }
}

/// Whether comparison operator `op` holds for the outcome `o`.
pub open spec fn compare_truth(op: BinOp, o: ValueOrder) -> bool {
    match op {
        BinOp::Eq => o == ValueOrder::Equal,
        BinOp::NotEq => o != ValueOrder::Equal,
        BinOp::Lt => o == ValueOrder::Less,
        BinOp::LtEq => o != ValueOrder::Greater,
        BinOp::Gt => o == ValueOrder::Greater,
        BinOp::GtEq => o != ValueOrder::Less,
        _ => false,
    }
}

/// 1 for true, 0 for false.
pub open spec fn bool_value(b: bool) -> ValueV {
    ValueV::Int(if b { 1 } else { 0 })
}

/// Value of an expression over a row of the schema; `None` for an error
/// (unknown or missing column, type error, integer overflow, division by
/// zero, unsupported function).
pub open spec fn eval_spec(e: ExprV, schema: Seq<ColumnDef>, row: Seq<SqlValue>) -> Option<ValueV>
    decreases e, 2int,
{
    match e {
        ExprV::Identifier(id) => match col_from(schema, id, 0) {
            Some(i) => if i < row.len() { Some(row[i].deep_view()) } else { None },
            None => None,
        },
        ExprV::Literal(v) => Some(v),
        ExprV::Unary { op: UnaryOp::Neg, expr } => match eval_spec(*expr, schema, row) {
            Some(ValueV::Int(n)) => if n == i64::MIN { None } else { Some(ValueV::Int((-n) as i64)) },
            Some(ValueV::Null) => Some(ValueV::Null),
            _ => None,
        },
        ExprV::Unary { op: UnaryOp::Not, expr } => match eval_spec(*expr, schema, row) {
            Some(v) => match logic_of(v) {
                Ok(Some(b)) => Some(bool_value(!b)),
                Ok(None) => Some(ValueV::Null),
                Err(_) => None,
            },
            None => None,
        },
        ExprV::Between { expr, lo, hi } => match (eval_spec(*expr, schema, row), eval_spec(*lo, schema, row), eval_spec(*hi, schema, row)) {
            (Some(v), Some(l), Some(h)) => Some(match (sql_order(v, l), sql_order(v, h)) {
                (Some(a), Some(b)) => bool_value(a != ValueOrder::Less && b != ValueOrder::Greater),
                _ => ValueV::Null,
            }),
            _ => None,
        },
        ExprV::InList { expr, list } => match eval_spec(*expr, schema, row) {
            Some(v) => if v is Null { Some(ValueV::Null) } else { in_spec(v, list, schema, row, false) },
            None => None,
        },
        ExprV::Function { name, args } => scalar_spec(name, args, schema, row),
        ExprV::BinaryOp { .. } => binary_spec(e, schema, row),
    }
}

/// `v IN list`: 1 at the first item equal to `v`, else NULL when an item was
/// NULL, else 0; items after the first equal one are not evaluated.
pub open spec fn in_spec(v: ValueV, list: Seq<ExprV>, schema: Seq<ColumnDef>, row: Seq<SqlValue>, saw_null: bool) -> Option<ValueV>
    decreases list, 1int,
{
    if list.len() == 0 {
        Some(if saw_null { ValueV::Null } else { ValueV::Int(0) })
    } else {
        match eval_spec(list[0], schema, row) {
            Some(iv) => if iv is Null {
                in_spec(v, list.drop_first(), schema, row, true)
            } else if iv == v {
                Some(ValueV::Int(1))
            } else {
                in_spec(v, list.drop_first(), schema, row, saw_null)
            },
            None => None,
        }
    }
}

/// The scalar functions UPPER, LOWER and LENGTH (name in any case) of one
/// argument; NULL gives NULL.
pub open spec fn scalar_spec(name: Seq<char>, args: Seq<ExprV>, schema: Seq<ColumnDef>, row: Seq<SqlValue>) -> Option<ValueV>
    decreases args, 1int,
{
    if args.len() != 1 {
        None
    } else {
        match eval_spec(args[0], schema, row) {
            Some(v) => {
                let f = upper_text(name);
                if f == "UPPER"@ {
                    match v {
                        ValueV::Text(s) => Some(ValueV::Text(upper_text(s))),
                        ValueV::Null => Some(ValueV::Null),
                        _ => None,
                    }
                } else if f == "LOWER"@ {
                    match v {
                        ValueV::Text(s) => Some(ValueV::Text(lower_text(s))),
                        ValueV::Null => Some(ValueV::Null),
                        _ => None,
                    }
                } else if f == "LENGTH"@ {
                    match v {
                        ValueV::Text(s) => Some(ValueV::Int(s.len() as i64)),
                        ValueV::Null => Some(ValueV::Null),
                        _ => None,
                    }
                } else {
                    None
                }
            },
            None => None,
        }
    }
}

/// Binary operators: three-valued AND / OR, LIKE on texts, 64-bit integer
/// arithmetic, and comparisons (UNKNOWN for NULL or mixed types); NULL
/// operands give NULL except where a type error comes first.
pub open spec fn binary_spec(e: ExprV, schema: Seq<ColumnDef>, row: Seq<SqlValue>) -> Option<ValueV>
    decreases e, 1int,
{
    match e {
        ExprV::BinaryOp { left, op, right } => match (eval_spec(*left, schema, row), eval_spec(*right, schema, row)) {
            (Some(a), Some(b)) => match op {
                BinOp::And | BinOp::Or => match (logic_of(a), logic_of(b)) {
                    (Ok(x), Ok(y)) => Some(logic_value(if op == BinOp::And { and_logic(x, y) } else { or_logic(x, y) })),
                    _ => None,
                },
                BinOp::Like => match (a, b) {
                    (ValueV::Text(s), ValueV::Text(p)) => Some(bool_value(like_spec(s, p))),
                    (ValueV::Null, _) => Some(ValueV::Null),
                    (_, ValueV::Null) => Some(ValueV::Null),
                    _ => None,
                },
                BinOp::Add | BinOp::Sub | BinOp::Mul | BinOp::Div | BinOp::Mod => match (a, b) {
                    (ValueV::Null, _) => Some(ValueV::Null),
                    (_, ValueV::Null) => Some(ValueV::Null),
                    (ValueV::Int(x), ValueV::Int(y)) => match arith_spec(op, x, y) {
                        Some(v) => Some(ValueV::Int(v)),
                        None => None,
                    },
                    _ => None,
                },
                _ => Some(match sql_order(a, b) {
                    Some(o) => bool_value(compare_truth(op, o)),
                    None => ValueV::Null,
                }),
            },
            _ => None,
        },
        _ => None,
    }
}

/// Evaluate an expression over a row of the given schema.
pub fn eval_expr(expr: &Expr, schema: &[ColumnDef], row: &[SqlValue]) -> (r: Result<SqlValue, String>)
    ensures
        match eval_spec(expr@, schema@, row@) {
            Some(v) => r matches Ok(x) && x.deep_view() == v,
            None => r is Err,
        },
        stated_error(expr@, schema@, row@) matches Some(m) ==> (r matches Err(x) && x@ == m),
    decreases expr, 2int,
{
    match expr {
        Expr::Identifier(id) => {
            let pos = match col_pos(schema, id.as_str()) {
                Ok(p) => p,
                Err(m) => {
                    return Err(m);
                },
            };
            assert(expr@ == ExprV::Identifier(id@));
            if pos < row.len() {
                Ok(clone_value(&row[pos]))
            } else {
                Err(join2("row missing column ", id.as_str()))
            }
        },
        Expr::Literal(v) => {
            assert(expr@ == ExprV::Literal(v.deep_view()));
            Ok(clone_value(v))
        },
        Expr::Unary { .. } => eval_unary(expr, schema, row),
        Expr::Between { .. } => eval_between(expr, schema, row),
        Expr::InList { .. } => eval_in(expr, schema, row),
        Expr::Function { name, args } => {
            proof {
                lemma_exprs_view(args@);
            }
            eval_scalar(name.as_str(), args, schema, row)
        },
        Expr::BinaryOp { .. } => eval_binary(expr, schema, row),
    }
}

fn eval_unary(e: &Expr, schema: &[ColumnDef], row: &[SqlValue]) -> (r: Result<SqlValue, String>)
    requires
        e@ is Unary,
    ensures
        match eval_spec(e@, schema@, row@) {
            Some(v) => r matches Ok(x) && x.deep_view() == v,
            None => r is Err,
        },
    decreases e, 1int,
{
    match e {
        Expr::Unary { op: UnaryOp::Neg, expr: inner } => match eval_expr(inner, schema, row) {
            Ok(SqlValue::Int(n)) => if n == i64::MIN {
                Err(msg("integer overflow in unary -"))
            } else {
                Ok(SqlValue::Int(-n))
            },
            Ok(SqlValue::Null) => Ok(SqlValue::Null),
            Ok(other) => Err(join2("unary - requires INTEGER, got ", value_debug(&other).as_str())),
            Err(m) => Err(m),
        },
        Expr::Unary { op: UnaryOp::Not, expr: inner } => {
            let v = match eval_expr(inner, schema, row) {
                Ok(v) => v,
                Err(m) => {
                    return Err(m);
                },
            };
            match to_logic(&v) {
                Ok(Some(b)) => Ok(SqlValue::Int(if b { 0 } else { 1 })),
                Ok(None) => Ok(SqlValue::Null),
                Err(m) => Err(m),
            }
        },
        _ => Err(msg("not a unary expression")),
    }
}

fn eval_between(e: &Expr, schema: &[ColumnDef], row: &[SqlValue]) -> (r: Result<SqlValue, String>)
    requires
        e@ is Between,
    ensures
        match eval_spec(e@, schema@, row@) {
            Some(v) => r matches Ok(x) && x.deep_view() == v,
            None => r is Err,
        },
    decreases e, 1int,
{
    match e {
        Expr::Between { expr: x, lo, hi } => {
            let v = match eval_expr(x, schema, row) {
                Ok(v) => v,
                Err(m) => {
                    return Err(m);
                },
            };
            let l = match eval_expr(lo, schema, row) {
                Ok(v) => v,
                Err(m) => {
                    return Err(m);
                },
            };
            let h = match eval_expr(hi, schema, row) {
                Ok(v) => v,
                Err(m) => {
                    return Err(m);
                },
            };
            match (crate::order::compare_same_type(&v, &l), crate::order::compare_same_type(&v, &h)) {
                (Some(a), Some(b)) => Ok(SqlValue::Int(
                    if !matches!(a, ValueOrder::Less) && !matches!(b, ValueOrder::Greater) { 1 } else { 0 },
                )),
                _ => Ok(SqlValue::Null),
            }
        },
        _ => Err(msg("not a BETWEEN expression")),
    }
}

fn eval_in(e: &Expr, schema: &[ColumnDef], row: &[SqlValue]) -> (r: Result<SqlValue, String>)
    requires
        e@ is InList,
    ensures
        match eval_spec(e@, schema@, row@) {
            Some(v) => r matches Ok(x) && x.deep_view() == v,
            None => r is Err,
        },
    decreases e, 1int,
{
    match e {
        Expr::InList { expr: x, list } => {
            let v = match eval_expr(x, schema, row) {
                Ok(v) => v,
                Err(m) => {
                    return Err(m);
                },
            };
            if is_null_value(&v) {
                return Ok(SqlValue::Null);
            }
            proof {
                lemma_exprs_view(list@);
            }
            let ghost ls = exprs_of(list@);
            let mut saw_null = false;
            let mut i: usize = 0;
            assert(ls.skip(0) =~= ls);
            #[verifier::loop_isolation(false)]
            while i < list.len()
                invariant
                    i <= list@.len(),
                    ls == exprs_of(list@),
                    in_spec(v.deep_view(), ls, schema@, row@, false)
                        == in_spec(v.deep_view(), ls.skip(i as int), schema@, row@, saw_null),
                decreases list@.len() - i,
            {
                assert(decreases_to!(e => list));
                assert(decreases_to!(list => list@));
                assert(decreases_to!(list@ => list@[i as int]));
                let ghost sk = ls.skip(i as int);
                assert(sk[0] == list@[i as int]@);
                assert(sk.drop_first() =~= ls.skip(i + 1));
                let iv = match eval_expr(&list[i], schema, row) {
                    Ok(x) => x,
                    Err(m) => {
                        return Err(m);
                    },
                };
                if crate::codec::is_null_value(&iv) {
                    saw_null = true;
                } else if crate::codec::value_eq(&iv, &v) {
                    return Ok(SqlValue::Int(1));
                }
                i = i + 1;
            }
            assert(ls.skip(list@.len() as int) =~= Seq::<ExprV>::empty());
            Ok(if saw_null { SqlValue::Null } else { SqlValue::Int(0) })
        },
        _ => Err(msg("not an IN expression")),
    }
}

/// Scalar (non-aggregate) function evaluation.
fn eval_scalar(name: &str, args: &Vec<Expr>, schema: &[ColumnDef], row: &[SqlValue]) -> (r: Result<SqlValue, String>)
    ensures
        match scalar_spec(name@, exprs_of(args@), schema@, row@) {
            Some(v) => r matches Ok(x) && x.deep_view() == v,
            None => r is Err,
        },
    decreases args@, 1int,
{
    let fname = to_upper(name);
    if args.len() != 1 {
        return Err(join2(name, " expects exactly one argument"));
    }
    assert(decreases_to!(args@ => args@[0]));
    assert(exprs_of(args@)[0] == args@[0]@);
    let v = match eval_expr(&args[0], schema, row) {
        Ok(v) => v,
        Err(m) => {
            return Err(m);
        },
    };
    let f = fname.as_str();
    if str_eq(f, "UPPER") {
        match v {
            SqlValue::Text(s) => Ok(SqlValue::Text(to_upper(s.as_str()))),
            SqlValue::Null => Ok(SqlValue::Null),
            other => Err(join2("UPPER expects TEXT, got ", value_debug(&other).as_str())),
        }
    } else if str_eq(f, "LOWER") {
        match v {
            SqlValue::Text(s) => Ok(SqlValue::Text(to_lower(s.as_str()))),
            SqlValue::Null => Ok(SqlValue::Null),
            other => Err(join2("LOWER expects TEXT, got ", value_debug(&other).as_str())),
        }
    } else if str_eq(f, "LENGTH") {
        match v {
            SqlValue::Text(s) => {
                let n = s.as_str().unicode_len();
                Ok(SqlValue::Int(n as i64))
            },
            SqlValue::Null => Ok(SqlValue::Null),
            other => Err(join2("LENGTH expects TEXT, got ", value_debug(&other).as_str())),
        }
    } else {
        Err(join2("unsupported function ", f))
    }
}

/// 64-bit integer arithmetic with overflow and division-by-zero errors.
/// The message of failed integer arithmetic.
pub open spec fn arith_fail_msg(op: BinOp, y: i64) -> Seq<char> {
    if (op == BinOp::Div || op == BinOp::Mod) && y == 0 { "division by zero"@ } else { "integer overflow in arithmetic"@ }
}

/// Whether `op` is arithmetic.
pub open spec fn is_arith_op(op: BinOp) -> bool {
    op == BinOp::Add || op == BinOp::Sub || op == BinOp::Mul || op == BinOp::Div || op == BinOp::Mod
}

/// The message of a failed arithmetic operation on evaluated operands.
pub open spec fn arith_error(op: BinOp, a: ValueV, b: ValueV) -> Option<Seq<char>> {
    match (a, b) {
        (ValueV::Null, _) => None,
        (_, ValueV::Null) => None,
        (ValueV::Int(x), ValueV::Int(y)) => if arith_spec(op, x, y) is None { Some(arith_fail_msg(op, y)) } else { None },
        _ => Some("arithmetic requires INTEGER operands"@),
    }
}

/// The message an expression fails with, where it is stated: an unknown
/// column, and arithmetic whose operands evaluated (division by zero,
/// overflow, a non-integer operand).
pub open spec fn stated_error(e: ExprV, schema: Seq<ColumnDef>, row: Seq<SqlValue>) -> Option<Seq<char>> {
    match e {
        ExprV::Identifier(id) => if col_from(schema, id, 0) is None { Some("unknown column "@ + id) } else { None },
        ExprV::BinaryOp { left, op, right } => if is_arith_op(op) {
            match (eval_spec(*left, schema, row), eval_spec(*right, schema, row)) {
                (Some(a), Some(b)) => arith_error(op, a, b),
                _ => None,
            }
        } else {
            None
        },
        _ => None,
    }
}

fn arith(op: BinOp, x: i64, y: i64) -> (r: Result<i64, String>)
    requires
        op == BinOp::Add || op == BinOp::Sub || op == BinOp::Mul || op == BinOp::Div || op == BinOp::Mod,
    ensures
        match arith_spec(op, x, y) {
            Some(v) => r == Ok::<i64, String>(v),
            None => r matches Err(m) && m@ == arith_fail_msg(op, y),
        },
{
    let n = match op {
        BinOp::Add => x.checked_add(y),
        BinOp::Sub => x.checked_sub(y),
        BinOp::Mul => x.checked_mul(y),
        BinOp::Div => {
            if y == 0 {
                return Err(msg("division by zero"));
            }
            x.checked_div(y)
        },
        _ => {
            if y == 0 {
                return Err(msg("division by zero"));
            }
            x.checked_rem(y)
        },
    };
    match n {
        Some(v) => Ok(v),
        None => Err(msg("integer overflow in arithmetic")),
    }
}

fn eval_binary(e: &Expr, schema: &[ColumnDef], row: &[SqlValue]) -> (r: Result<SqlValue, String>)
    requires
        e is BinaryOp,
    ensures
        match binary_spec(e@, schema@, row@) {
            Some(v) => r matches Ok(x) && x.deep_view() == v,
            None => r is Err,
        },
        stated_error(e@, schema@, row@) matches Some(m) ==> (r matches Err(x) && x@ == m),
    decreases e, 1int,
{
    let (left, op, right) = match e {
        Expr::BinaryOp { left, op, right } => (left, *op, right),
        _ => {
            return Err(msg("not a binary expression"));
        },
    };
    let a = match eval_expr(left, schema, row) {
        Ok(v) => v,
        Err(m) => {
            return Err(m);
        },
    };
    let b = match eval_expr(right, schema, row) {
        Ok(v) => v,
        Err(m) => {
            return Err(m);
        },
    };
    match op {
        BinOp::And | BinOp::Or => {
            let x = match to_logic(&a) {
                Ok(x) => x,
                Err(m) => {
                    return Err(m);
                },
            };
            let y = match to_logic(&b) {
                Ok(y) => y,
                Err(m) => {
                    return Err(m);
                },
            };
            let t = if matches!(op, BinOp::And) { and3(x, y) } else { or3(x, y) };
            Ok(logic_to_int(t))
        },
        BinOp::Like => match (a, b) {
            (SqlValue::Text(s), SqlValue::Text(p)) => Ok(SqlValue::Int(if like_matches(s.as_str(), p.as_str()) { 1 } else { 0 })),
            (SqlValue::Null, _) => Ok(SqlValue::Null),
            (_, SqlValue::Null) => Ok(SqlValue::Null),
            _ => Err(msg("LIKE requires TEXT operands")),
        },
        BinOp::Add | BinOp::Sub | BinOp::Mul | BinOp::Div | BinOp::Mod => match (a, b) {
            (SqlValue::Null, _) => Ok(SqlValue::Null),
            (_, SqlValue::Null) => Ok(SqlValue::Null),
            (SqlValue::Int(x), SqlValue::Int(y)) => match arith(op, x, y) {
                Ok(v) => Ok(SqlValue::Int(v)),
                Err(m) => Err(m),
            },
            _ => Err(msg("arithmetic requires INTEGER operands")),
        },
        _ => {
            let truth = match crate::order::compare_same_type(&a, &b) {
                Some(o) => Some(match op {
                    BinOp::Eq => matches!(o, ValueOrder::Equal),
                    BinOp::NotEq => !matches!(o, ValueOrder::Equal),
                    BinOp::Lt => matches!(o, ValueOrder::Less),
                    BinOp::LtEq => !matches!(o, ValueOrder::Greater),
                    BinOp::Gt => matches!(o, ValueOrder::Greater),
                    _ => !matches!(o, ValueOrder::Less),
                }),
                None => None,
            };
            Ok(match truth {
                Some(true) => SqlValue::Int(1),
                Some(false) => SqlValue::Int(0),
                None => SqlValue::Null,
            })
        },
    }
}

// ── projections and ORDER BY over groups ──────────────────────────────

/// The expression of a projection item (an empty identifier for `*`).
pub open spec fn item_expr(i: SelectItemV) -> ExprV {
    match i {
        SelectItemV::Expr(e) => e,
        SelectItemV::Star => ExprV::Identifier(Seq::empty()),
    }
}

/// Expressions and column labels of a projection: `*` alone is every
/// column of the schema by name; otherwise each item's expression and its
/// rendered text; `None` when `*` stands beside other items.
pub open spec fn projection_spec(items: Seq<SelectItemV>, schema: Seq<ColumnDef>) -> Option<(Seq<ExprV>, Seq<Seq<char>>)> {
    if items.len() == 1 && items[0] is Star {
        Some((schema.map_values(|c: ColumnDef| ExprV::Identifier(c.name@)), schema.map_values(|c: ColumnDef| c.name@)))
    } else if exists|k: int| 0 <= k < items.len() && items[k] is Star {
        None
    } else {
        Some((items.map_values(|i: SelectItemV| item_expr(i)), items.map_values(|i: SelectItemV| render(item_expr(i)))))
    }
}

/// Resolve a projection list into per-row expressions and column labels.
pub fn projection_specs(sel: &Select, schema: &[ColumnDef]) -> (r: Result<(Vec<Expr>, Vec<String>), String>)
    ensures
        match projection_spec(sel@.projection, schema@) {
            Some((es, ls)) => r matches Ok(p) && exprs_of(p.0@) == es && p.1@.map_values(|s: String| s@) == ls,
            None => r is Err,
        },
{
    let ghost items = sel@.projection;
    assert(items == sel.projection@.map_values(|i: SelectItem| i@));
    if sel.projection.len() == 1 && matches!(sel.projection[0], SelectItem::Star) {
        let mut exprs: Vec<Expr> = Vec::new();
        let mut cols: Vec<String> = Vec::new();
        let mut i: usize = 0;
        while i < schema.len()
            invariant
                i <= schema@.len(),
                exprs_of(exprs@) == schema@.take(i as int).map_values(|c: ColumnDef| ExprV::Identifier(c.name@)),
                cols@.map_values(|s: String| s@) == schema@.take(i as int).map_values(|c: ColumnDef| c.name@),
            decreases schema@.len() - i,
        {
            let ghost e0 = exprs@;
            let ghost c0 = cols@;
            exprs.push(Expr::Identifier(schema[i].name.clone()));
            cols.push(schema[i].name.clone());
            assert(schema@.take(i + 1) =~= schema@.take(i as int).push(schema@[i as int]));
            assert(exprs_of(exprs@) =~= exprs_of(e0).push(ExprV::Identifier(schema@[i as int].name@)));
            assert(cols@.map_values(|s: String| s@) =~= c0.map_values(|s: String| s@).push(schema@[i as int].name@));
            assert(schema@.take(i + 1).map_values(|c: ColumnDef| ExprV::Identifier(c.name@))
                =~= schema@.take(i as int).map_values(|c: ColumnDef| ExprV::Identifier(c.name@)).push(ExprV::Identifier(schema@[i as int].name@)));
            assert(schema@.take(i + 1).map_values(|c: ColumnDef| c.name@)
                =~= schema@.take(i as int).map_values(|c: ColumnDef| c.name@).push(schema@[i as int].name@));
            i = i + 1;
        }
        assert(schema@.take(schema@.len() as int) =~= schema@);
        return Ok((exprs, cols));
    }
    let mut exprs: Vec<Expr> = Vec::new();
    let mut cols: Vec<String> = Vec::new();
    let mut i: usize = 0;
    while i < sel.projection.len()
        invariant
            i <= items.len(),
            items == sel.projection@.map_values(|i: SelectItem| i@),
            !(items.len() == 1 && items[0] is Star),
            forall|k: int| 0 <= k < i ==> !(items[k] is Star),
            exprs_of(exprs@) == items.take(i as int).map_values(|i: SelectItemV| item_expr(i)),
            cols@.map_values(|s: String| s@) == items.take(i as int).map_values(|i: SelectItemV| render(item_expr(i))),
        decreases items.len() - i,
    {
        match &sel.projection[i] {
            SelectItem::Expr(e) => {
                assert(items[i as int] == SelectItemV::Expr(e@));
                let ghost e0 = exprs@;
                let ghost c0 = cols@;
                exprs.push(clone_expr(e));
                cols.push(format_expr(e));
                assert(items.take(i + 1) =~= items.take(i as int).push(items[i as int]));
                assert(exprs_of(exprs@) =~= exprs_of(e0).push(e@));
                assert(cols@.map_values(|s: String| s@) =~= c0.map_values(|s: String| s@).push(render(e@)));
                assert(items.take(i + 1).map_values(|i: SelectItemV| item_expr(i))
                    =~= items.take(i as int).map_values(|i: SelectItemV| item_expr(i)).push(e@));
                assert(items.take(i + 1).map_values(|i: SelectItemV| render(item_expr(i)))
                    =~= items.take(i as int).map_values(|i: SelectItemV| render(item_expr(i))).push(render(e@)));
            },
            SelectItem::Star => {
                assert(items[i as int] is Star);
                return Err(msg("unsupported projection"));
            },
        }
        i = i + 1;
    }
    assert(items.take(items.len() as int) =~= items);
    Ok((exprs, cols))
}

/// Index of the first of `cols` equal to `x`.
pub open spec fn first_index(cols: Seq<Seq<char>>, x: Seq<char>, i: int) -> Option<int>
    decreases cols.len() - i,
{
    if i < 0 || i >= cols.len() {
        None
    } else if cols[i] == x {
        Some(i)
    } else {
        first_index(cols, x, i + 1)
    }
}

/// Position of the first output column named `x`.
fn position_of(cols: &[String], x: &str) -> (r: Option<usize>)
    ensures
        match first_index(cols@.map_values(|s: String| s@), x@, 0) {
            Some(i) => r matches Some(p) && p == i,
            None => r is None,
        },
{
    let ghost cs = cols@.map_values(|s: String| s@);
    let mut i: usize = 0;
    while i < cols.len()
        invariant
            i <= cols@.len(),
            cs == cols@.map_values(|s: String| s@),
            first_index(cs, x@, 0) == first_index(cs, x@, i as int),
        decreases cols@.len() - i,
    {
        if str_eq(cols[i].as_str(), x) {
            return Some(i);
        }
        i = i + 1;
    }
    None
}

/// The output column an ORDER BY expression of a grouped query names: a
/// group key by name, an aggregate by its rendered label.
pub open spec fn grouped_order_spec(e: ExprV, cols: Seq<Seq<char>>) -> Option<int> {
    match e {
        ExprV::Identifier(id) => first_index(cols, id, 0),
        ExprV::Function { .. } => first_index(cols, render(e), 0),
        _ => None,
    }
}

/// Resolve an ORDER BY expression of a grouped query against the output
/// column labels.
pub fn grouped_order_index(e: &Expr, out_cols: &[String]) -> (r: Result<usize, String>)
    ensures
        match grouped_order_spec(e@, out_cols@.map_values(|s: String| s@)) {
            Some(i) => r matches Ok(p) && p == i,
            None => r is Err,
        },
{
    match e {
        Expr::Identifier(id) => match position_of(out_cols, id.as_str()) {
            Some(p) => Ok(p),
            None => Err(join2("unknown ORDER BY column ", id.as_str())),
        },
        Expr::Function { .. } => {
            let label = format_expr(e);
            match position_of(out_cols, label.as_str()) {
                Some(p) => Ok(p),
                None => Err(join2("unknown ORDER BY expression ", label.as_str())),
            }
        },
        _ => Err(join2("unsupported ORDER BY expression ", expr_debug(e).as_str())),
    }
}

// ── index keys ────────────────────────────────────────────────────────

/// Index key of a value: tag 0 and the sign-flipped integer in 8
/// big-endian bytes; tag 1 and the UTF-8 bytes of a text; NULL is not
/// indexed (`None`).
pub open spec fn index_key_spec(v: ValueV) -> Option<Seq<u8>> {
    match v {
        ValueV::Null => None,
        ValueV::Int(n) => Some(seq![0u8] + digit_bytes((n + 0x8000_0000_0000_0000int) as nat, 256, 8, 0)),
        ValueV::Text(s) => Some(seq![1u8] + encode_utf8(s)),
    }
}

/// Order-preserving index key for one column value; NULL is an error
/// (NULLs are not indexed).
pub fn index_key_encode(v: &SqlValue) -> (r: Result<Vec<u8>, String>)
    ensures
        match index_key_spec(v.deep_view()) {
            Some(k) => r matches Ok(x) && x@ == k,
            None => r matches Err(m) && m@ == "NULL values are not indexed"@,
        },
{
    match v {
        SqlValue::Null => Err(msg("NULL values are not indexed")),
        SqlValue::Int(n) => {
            let u: u64 = ((*n as i128) + 0x8000_0000_0000_0000i128) as u64;
            let mut key: Vec<u8> = Vec::new();
            key.push(0u8);
            let mut d = crate::order::digit_bytes_exec(u, 256, 8, 0);
            key.append(&mut d);
            assert(key@ =~= seq![0u8] + digit_bytes((*n as int + 0x8000_0000_0000_0000int) as nat, 256, 8, 0));
            Ok(key)
        },
        SqlValue::Text(s) => {
            let bytes = s.as_str().as_bytes();
            let mut key: Vec<u8> = Vec::new();
            key.push(1u8);
            let ghost pre = key@;
            let mut i: usize = 0;
            while i < bytes.len()
                invariant
                    i <= bytes@.len(),
                    key@ == pre + bytes@.take(i as int),
                decreases bytes@.len() - i,
            {
                key.push(bytes[i]);
                assert(key@ =~= pre + bytes@.take(i + 1));
                i = i + 1;
            }
            assert(bytes@.take(bytes@.len() as int) =~= bytes@);
            assert(key@ =~= seq![1u8] + encode_utf8(s@));
            Ok(key)
        },
    }
}

/// Index keys order like the values they index: byte order of the keys of
/// two non-NULL values is the total order of the values (integers by
/// value, before every text; texts by their characters).
pub proof fn lemma_index_key_order(a: ValueV, b: ValueV)
    requires
        !(a is Null),
        !(b is Null),
    ensures
        bytes_order(index_key_spec(a)->0, index_key_spec(b)->0) == crate::order::total_order(a, b),
{
    let ka = index_key_spec(a)->0;
    let kb = index_key_spec(b)->0;
    crate::order::lemma_bytes_order_refl(seq![0u8]);
    crate::order::lemma_bytes_order_refl(seq![1u8]);
    match (a, b) {
        (ValueV::Int(x), ValueV::Int(y)) => {
            let ua = (x + 0x8000_0000_0000_0000int) as nat;
            let ub = (y + 0x8000_0000_0000_0000int) as nat;
            reveal_with_fuel(vstd::arithmetic::power::pow, 9);
            assert(vstd::arithmetic::power::pow(256, 8) == 0x1_0000_0000_0000_0000int);
            crate::order::lemma_digit_bytes_order(ua, ub, 256, 8, 0);
            crate::order::lemma_bytes_order_concat(seq![0u8], seq![0u8], digit_bytes(ua, 256, 8, 0), digit_bytes(ub, 256, 8, 0));
        },
        (ValueV::Text(s), ValueV::Text(t)) => {
            crate::order::lemma_bytes_order_concat(seq![1u8], seq![1u8], encode_utf8(s), encode_utf8(t));
        },
        _ => {
            assert(ka[0] != kb[0]);
            assert(ka.len() > 0 && kb.len() > 0);
        },
    }
}

// ── aggregates of grouped and plain SELECTs ───────────────────────────

/// One aggregate of a projection: its output label, function and column
/// (`None` for `*`).
pub struct Aggregate {
    pub label: String,
    pub func: AggFn,
    pub col: Option<usize>,
}

/// The integers among values, in order.
pub open spec fn ints_of(vals: Seq<ValueV>) -> Seq<i64>
    decreases vals.len(),
{
    if vals.len() == 0 {
        Seq::empty()
    } else {
        let rest = ints_of(vals.drop_last());
        match vals.last() {
            ValueV::Int(n) => rest.push(n),
            _ => rest,
        }
    }
}

/// The texts among values, in order.
pub open spec fn texts_of(vals: Seq<ValueV>) -> Seq<Seq<char>>
    decreases vals.len(),
{
    if vals.len() == 0 {
        Seq::empty()
    } else {
        let rest = texts_of(vals.drop_last());
        match vals.last() {
            ValueV::Text(t) => rest.push(t),
            _ => rest,
        }
    }
}

/// Sum of integers.
pub open spec fn sum_of(s: Seq<i64>) -> int
    decreases s.len(),
{
    if s.len() == 0 { 0 } else { sum_of(s.drop_last()) + s.last() }
}

/// Every running sum stays in the 64-bit range.
pub open spec fn sums_fit(s: Seq<i64>) -> bool {
    forall|k: int| 0 <= k <= s.len() ==> i64::MIN <= #[trigger] sum_of(s.take(k)) <= i64::MAX
}

/// Least (`want_min`) or greatest of non-empty integers.
pub open spec fn int_best(s: Seq<i64>, want_min: bool) -> i64
    decreases s.len(),
{
    if s.len() <= 1 {
        s[0]
    } else {
        let b = int_best(s.drop_last(), want_min);
        let v = s.last();
        if (want_min && v < b) || (!want_min && v > b) { v } else { b }
    }
}

/// Least (`want_min`) or greatest of non-empty texts (first one on ties).
pub open spec fn text_best(s: Seq<Seq<char>>, want_min: bool) -> Seq<char>
    decreases s.len(),
{
    if s.len() <= 1 {
        s[0]
    } else {
        let b = text_best(s.drop_last(), want_min);
        let v = s.last();
        let o = crate::order::text_order(v, b);
        if (want_min && o == ValueOrder::Less) || (!want_min && o == ValueOrder::Greater) { v } else { b }
    }
}

/// The non-NULL values of column `idx`.
pub open spec fn column_values(rows: Seq<Seq<SqlValue>>, idx: int) -> Seq<ValueV> {
    rows.map_values(|r: Seq<SqlValue>| r[idx].deep_view()).filter(|v: ValueV| !(v is Null))
}

/// An aggregate over rows: COUNT(*) counts rows; COUNT counts non-NULL
/// values; SUM of integers (NULL with no value, an error for texts only);
/// AVG as the sum divided by the count, truncated (NULL with no integer);
/// MIN / MAX over integers or over texts (NULL with no value, an error
/// when both occur).
pub open spec fn aggregate_spec(func: AggFn, col: Option<usize>, rows: Seq<Seq<SqlValue>>) -> Option<ValueV> {
    if col is None {
        if func == AggFn::Count { Some(ValueV::Int(rows.len() as i64)) } else { None }
    } else if exists|k: int| 0 <= k < rows.len() && col->0 >= (#[trigger] rows[k]).len() {
        None
    } else {
        let vals = column_values(rows, col->0 as int);
        let ints = ints_of(vals);
        let texts = texts_of(vals);
        match func {
            AggFn::Count => Some(ValueV::Int((ints.len() + texts.len()) as i64)),
            AggFn::Sum => if ints.len() == 0 && texts.len() == 0 {
                Some(ValueV::Null)
            } else if ints.len() > 0 {
                if sums_fit(ints) { Some(ValueV::Int(sum_of(ints) as i64)) } else { None }
            } else {
                None
            },
            AggFn::Avg => if ints.len() == 0 {
                Some(ValueV::Null)
            } else if sums_fit(ints) {
                Some(ValueV::Int(trunc_div(sum_of(ints), ints.len() as int) as i64))
            } else {
                None
            },
            _ => if ints.len() == 0 && texts.len() == 0 {
                Some(ValueV::Null)
            } else if ints.len() > 0 && texts.len() > 0 {
                None
            } else if ints.len() > 0 {
                Some(ValueV::Int(int_best(ints, func == AggFn::Min)))
            } else {
                Some(ValueV::Text(text_best(texts, func == AggFn::Min)))
            },
        }
    }
}

/// Whether every row has column `idx`.
fn column_present(rows: &[Vec<SqlValue>], idx: usize) -> (r: bool)
    ensures
        r == forall|k: int| 0 <= k < rows@.len() ==> idx < (#[trigger] rows@[k])@.len(),
{
    let mut w: usize = 0;
    while w < rows.len()
        invariant
            w <= rows@.len(),
            forall|k: int| 0 <= k < w ==> idx < (#[trigger] rows@[k])@.len(),
        decreases rows@.len() - w,
    {
        if idx >= rows[w].len() {
            assert(idx >= rows@[w as int]@.len());
            return false;
        }
        w = w + 1;
    }
    true
}

/// The sum of the integers, when every running sum fits in 64 bits.
fn checked_sum(ints: &Vec<i64>) -> (r: Option<i64>)
    ensures
        sums_fit(ints@) ==> (r matches Some(x) && x as int == sum_of(ints@)),
        !sums_fit(ints@) ==> r is None,
{
    let mut sum: i64 = 0;
    let mut k: usize = 0;
    assert(ints@.take(0) =~= Seq::<i64>::empty());
    while k < ints.len()
        invariant
            k <= ints@.len(),
            sum as int == sum_of(ints@.take(k as int)),
            forall|j: int| 0 <= j <= k ==> i64::MIN <= #[trigger] sum_of(ints@.take(j)) <= i64::MAX,
        decreases ints@.len() - k,
    {
        assert(ints@.take(k + 1).drop_last() =~= ints@.take(k as int));
        sum = match sum.checked_add(ints[k]) {
            Some(x) => x,
            None => {
                assert(sum_of(ints@.take(k + 1)) == sum + ints@[k as int]);
                assert(!(i64::MIN <= sum_of(ints@.take(k + 1)) <= i64::MAX));
                return None;
            },
        };
        k = k + 1;
    }
    assert(ints@.take(ints@.len() as int) =~= ints@);
    Some(sum)
}

impl Aggregate {
    /// Evaluate the aggregate over a group's rows: an error for an aggregate
    /// other than COUNT without a column, a row that lacks the column, or a
    /// SUM or AVG whose running sum leaves the 64-bit range.
    #[verifier::rlimit(40)]
    pub fn evaluate(&self, rows: &[Vec<SqlValue>]) -> (r: Result<SqlValue, String>)
        requires
            rows@.len() <= i64::MAX,
        ensures
            match aggregate_spec(self.func, self.col, crate::batch::rows_view(rows@)) {
                Some(v) => r matches Ok(x) && x.deep_view() == v,
                None => r is Err,
            },
    {
        if matches!(self.func, AggFn::Count) && self.col.is_none() {
            return Ok(SqlValue::Int(rows.len() as i64));
        }
        let idx = match self.col {
            Some(i) => i,
            None => {
                return Err(msg("an aggregate needs a column"));
            },
        };
        if !column_present(rows, idx) {
            proof {
                let k = choose|k: int| 0 <= k < rows@.len() && !(idx < (#[trigger] rows@[k])@.len());
                assert(crate::batch::rows_view(rows@)[k] == rows@[k]@);
            }
            return Err(msg("a row lacks the aggregate column"));
        }
        let ghost all = rows@.map_values(|r: Vec<SqlValue>| r@[idx as int].deep_view());
        let ghost nonnull = |v: ValueV| !(v is Null);
        let mut ints: Vec<i64> = Vec::new();
        let mut texts: Vec<String> = Vec::new();
        let mut i: usize = 0;
        while i < rows.len()
            invariant
                i <= rows@.len(),
                forall|k: int| 0 <= k < rows@.len() ==> idx < (#[trigger] rows@[k])@.len(),
                all == rows@.map_values(|r: Vec<SqlValue>| r@[idx as int].deep_view()),
                nonnull == (|v: ValueV| !(v is Null)),
                ints@ == ints_of(all.take(i as int).filter(nonnull)),
                texts@.map_values(|t: String| t@) == texts_of(all.take(i as int).filter(nonnull)),
                ints@.len() + texts@.len() <= i,
                rows@.len() <= i64::MAX,
            decreases rows@.len() - i,
        {
            let ghost t0 = all.take(i as int);
            let ghost t1 = all.take(i + 1);
            assert(t1.drop_last() =~= t0);
            assert(t1.last() == rows@[i as int]@[idx as int].deep_view());
            proof {
                reveal_with_fuel(Seq::filter, 1);
            }
            let ghost tv = texts@;
            match &rows[i][idx] {
                SqlValue::Null => {},
                SqlValue::Int(v) => {
                    ints.push(*v);
                    assert(t1.filter(nonnull).drop_last() =~= t0.filter(nonnull));
                },
                SqlValue::Text(v) => {
                    texts.push(v.clone());
                    assert(t1.filter(nonnull).drop_last() =~= t0.filter(nonnull));
                    assert(texts@.map_values(|t: String| t@) =~= tv.map_values(|t: String| t@).push(v@));
                },
            }
            i = i + 1;
        }
        assert(all.take(rows@.len() as int) =~= all);
        let ghost vals = column_values(crate::batch::rows_view(rows@), idx as int);
        assert(crate::batch::rows_view(rows@).map_values(|r: Seq<SqlValue>| r[idx as int].deep_view()) =~= all);
        assert(vals == all.filter(nonnull));
        match self.func {
            AggFn::Count => {
                assert(texts@.map_values(|t: String| t@).len() == texts@.len());
                Ok(SqlValue::Int((ints.len() + texts.len()) as i64))
            },
            AggFn::Sum | AggFn::Avg => {
                if ints.len() == 0 {
                    if matches!(self.func, AggFn::Sum) && texts.len() > 0 {
                        return Err(msg("SUM requires INTEGER column"));
                    }
                    return Ok(SqlValue::Null);
                }
                let sum: i64 = match checked_sum(&ints) {
                    Some(x) => x,
                    None => {
                        return Err(msg("integer overflow in SUM"));
                    },
                };
                assert(ints@.take(ints@.len() as int) =~= ints@);
                if matches!(self.func, AggFn::Sum) {
                    Ok(SqlValue::Int(sum))
                } else {
                    let n: i64 = ints.len() as i64;
                    assert(n as int == ints@.len());
                    let q: i64 = match sum.checked_div(n) {
                        Some(q) => q,
                        None => {
                            return Err(msg("integer overflow in AVG"));
                        },
                    };
                    Ok(SqlValue::Int(q))
                }
            },
            _ => {
                let want_min = matches!(self.func, AggFn::Min);
                if ints.len() == 0 && texts.len() == 0 {
                    return Ok(SqlValue::Null);
                }
                if ints.len() > 0 && texts.len() > 0 {
                    return Err(msg("mixed types in MIN/MAX"));
                }
                if ints.len() > 0 {
                    let mut best: i64 = ints[0];
                    let mut k: usize = 1;
                    assert(ints@.take(1).len() == 1);
                    while k < ints.len()
                        invariant
                            1 <= k <= ints@.len(),
                            best == int_best(ints@.take(k as int), want_min),
                        decreases ints@.len() - k,
                    {
                        assert(ints@.take(k + 1).drop_last() =~= ints@.take(k as int));
                        let v = ints[k];
                        if (want_min && v < best) || (!want_min && v > best) {
                            best = v;
                        }
                        k = k + 1;
                    }
                    assert(ints@.take(ints@.len() as int) =~= ints@);
                    Ok(SqlValue::Int(best))
                } else {
                    let ghost ts = texts@.map_values(|t: String| t@);
                    let mut bi: usize = 0;
                    let mut k: usize = 1;
                    assert(ts.take(1).len() == 1);
                    while k < texts.len()
                        invariant
                            1 <= k <= texts@.len(),
                            bi < k,
                            ts == texts@.map_values(|t: String| t@),
                            texts@[bi as int]@ == text_best(ts.take(k as int), want_min),
                        decreases texts@.len() - k,
                    {
                        assert(ts.take(k + 1).drop_last() =~= ts.take(k as int));
                        let o = crate::order::compare_text(&texts[k], &texts[bi]);
                        if (want_min && matches!(o, ValueOrder::Less)) || (!want_min && matches!(o, ValueOrder::Greater)) {
                            bi = k;
                        }
                        k = k + 1;
                    }
                    assert(ts.take(texts@.len() as int) =~= ts);
                    Ok(SqlValue::Text(texts[bi].clone()))
                }
            },
        }
    }
}

/// What one projection item contributes to an aggregate query.
pub enum AggItem {
    /// Not an aggregate query.
    Stop,
    /// Left out (a scalar function).
    Skip,
    /// An aggregate whose argument is neither a column nor `*`, or names no
    /// column.
    Bad,
    /// An aggregate: label, function, column.
    Agg(Seq<char>, AggFn, Option<usize>),
}

/// The aggregate function an upper-case name denotes.
pub open spec fn agg_func_of(u: Seq<char>) -> Option<AggFn> {
    if u == "COUNT"@ {
        Some(AggFn::Count)
    } else if u == "SUM"@ {
        Some(AggFn::Sum)
    } else if u == "AVG"@ {
        Some(AggFn::Avg)
    } else if u == "MIN"@ {
        Some(AggFn::Min)
    } else if u == "MAX"@ {
        Some(AggFn::Max)
    } else {
        None
    }
}

/// The BETWEEN expression over three expressions.
pub open spec fn between_expr(e: ExprV, lo: ExprV, hi: ExprV) -> ExprV {
    ExprV::Between { expr: Box::new(e), lo: Box::new(lo), hi: Box::new(hi) }
}

/// BETWEEN is inclusive at both ends: with integer operands, `x BETWEEN lo
/// AND hi` is 1 exactly when `lo <= x <= hi`, else 0.
pub proof fn lemma_between_ints(e: ExprV, lo: ExprV, hi: ExprV, schema: Seq<ColumnDef>, row: Seq<SqlValue>, x: i64, l: i64, h: i64)
    requires
        eval_spec(e, schema, row) == Some(ValueV::Int(x)),
        eval_spec(lo, schema, row) == Some(ValueV::Int(l)),
        eval_spec(hi, schema, row) == Some(ValueV::Int(h)),
    ensures
        eval_spec(between_expr(e, lo, hi), schema, row) == Some(ValueV::Int(if l <= x && x <= h { 1 } else { 0 })),
{
}

/// With text operands, BETWEEN is 1 exactly when neither bound lies beyond
/// the value in text order (both ends included), else 0.
pub proof fn lemma_between_texts(e: ExprV, lo: ExprV, hi: ExprV, schema: Seq<ColumnDef>, row: Seq<SqlValue>, x: Seq<char>, l: Seq<char>, h: Seq<char>)
    requires
        eval_spec(e, schema, row) == Some(ValueV::Text(x)),
        eval_spec(lo, schema, row) == Some(ValueV::Text(l)),
        eval_spec(hi, schema, row) == Some(ValueV::Text(h)),
    ensures
        eval_spec(between_expr(e, lo, hi), schema, row) == Some(ValueV::Int(
            if crate::order::text_order(l, x) != ValueOrder::Greater && crate::order::text_order(x, h) != ValueOrder::Greater { 1 } else { 0 })),
{
    crate::order::lemma_bytes_order_flip(encode_utf8(l), encode_utf8(x));
}

/// A NULL value is neither inside nor outside a range: BETWEEN gives NULL.
pub proof fn lemma_between_null(e: ExprV, lo: ExprV, hi: ExprV, schema: Seq<ColumnDef>, row: Seq<SqlValue>)
    requires
        eval_spec(e, schema, row) == Some(ValueV::Null),
        eval_spec(lo, schema, row) is Some,
        eval_spec(hi, schema, row) is Some,
    ensures
        eval_spec(between_expr(e, lo, hi), schema, row) == Some(ValueV::Null),
{
}

/// MAX over integers is one of them and no smaller than any; MIN is one
/// of them and no greater than any.
pub proof fn lemma_int_best(s: Seq<i64>, want_min: bool)
    requires
        s.len() > 0,
    ensures
        s.contains(int_best(s, want_min)),
        forall|k: int| 0 <= k < s.len() ==> if want_min { int_best(s, want_min) <= #[trigger] s[k] } else { s[k] <= int_best(s, want_min) },
    decreases s.len(),
{
    if s.len() > 1 {
        let init = s.drop_last();
        lemma_int_best(init, want_min);
        let b = int_best(init, want_min);
        let j = choose|j: int| 0 <= j < init.len() && init[j] == b;
        assert(s[j] == b);
        assert forall|k: int| 0 <= k < s.len() implies if want_min { int_best(s, want_min) <= #[trigger] s[k] } else { s[k] <= int_best(s, want_min) } by {
            if k < init.len() {
                assert(s[k] == init[k]);
            }
        }
    } else {
        assert(s[0] == int_best(s, want_min));
    }
}

/// MAX over texts is one of them and none is greater in text order; MIN
/// is one of them and none is smaller.
pub proof fn lemma_text_best(s: Seq<Seq<char>>, want_min: bool)
    requires
        s.len() > 0,
    ensures
        s.contains(text_best(s, want_min)),
        forall|k: int| 0 <= k < s.len() ==> if want_min {
            crate::order::text_order(#[trigger] s[k], text_best(s, want_min)) != ValueOrder::Less
        } else {
            crate::order::text_order(s[k], text_best(s, want_min)) != ValueOrder::Greater
        },
    decreases s.len(),
{
    let t = text_best(s, want_min);
    if s.len() > 1 {
        let init = s.drop_last();
        lemma_text_best(init, want_min);
        let b = text_best(init, want_min);
        let v = s.last();
        let j = choose|j: int| 0 <= j < init.len() && init[j] == b;
        assert(s[j] == b);
        assert(s[s.len() - 1] == v);
        crate::order::lemma_bytes_order_flip(encode_utf8(v), encode_utf8(b));
        crate::order::lemma_bytes_order_refl(encode_utf8(v));
        assert forall|k: int| 0 <= k < s.len() implies if want_min {
            crate::order::text_order(#[trigger] s[k], t) != ValueOrder::Less
        } else {
            crate::order::text_order(s[k], t) != ValueOrder::Greater
        } by {
            let u = s[k];
            if k < init.len() {
                assert(u == init[k]);
                if t == v && t != b {
                    if want_min {
                        // u >= b > v
                        crate::order::lemma_bytes_order_flip(encode_utf8(u), encode_utf8(b));
                        crate::order::lemma_bytes_order_flip(encode_utf8(u), encode_utf8(v));
                        crate::order::lemma_bytes_order_trans_left(encode_utf8(v), encode_utf8(b), encode_utf8(u));
                    } else {
                        crate::order::lemma_bytes_order_flip(encode_utf8(b), encode_utf8(v));
                        crate::order::lemma_bytes_order_trans(encode_utf8(u), encode_utf8(b), encode_utf8(v));
                    }
                }
            }
        }
    } else {
        assert(s[0] == t);
        crate::order::lemma_bytes_order_refl(encode_utf8(t));
    }
}

/// MIN and MAX over a column of texts: the result is one of the column's
/// texts, and no text of the column is smaller (MIN) or greater (MAX).
pub proof fn lemma_aggregate_text_extreme(f: AggFn, c: usize, rows: Seq<Seq<SqlValue>>, t: Seq<char>)
    requires
        f == AggFn::Min || f == AggFn::Max,
        aggregate_spec(f, Some(c), rows) == Some(ValueV::Text(t)),
    ensures
        texts_of(column_values(rows, c as int)).contains(t),
        forall|k: int| 0 <= k < texts_of(column_values(rows, c as int)).len() ==> if f == AggFn::Min {
            crate::order::text_order(#[trigger] texts_of(column_values(rows, c as int))[k], t) != ValueOrder::Less
        } else {
            crate::order::text_order(texts_of(column_values(rows, c as int))[k], t) != ValueOrder::Greater
        },
{
    lemma_text_best(texts_of(column_values(rows, c as int)), f == AggFn::Min);
}

/// MIN and MAX over a column of integers: the result is one of the
/// column's integers, and none is smaller (MIN) or greater (MAX).
pub proof fn lemma_aggregate_int_extreme(f: AggFn, c: usize, rows: Seq<Seq<SqlValue>>, x: i64)
    requires
        f == AggFn::Min || f == AggFn::Max,
        aggregate_spec(f, Some(c), rows) == Some(ValueV::Int(x)),
    ensures
        ints_of(column_values(rows, c as int)).contains(x),
        forall|k: int| 0 <= k < ints_of(column_values(rows, c as int)).len() ==> if f == AggFn::Min {
            x <= #[trigger] ints_of(column_values(rows, c as int))[k]
        } else {
            ints_of(column_values(rows, c as int))[k] <= x
        },
{
    lemma_int_best(ints_of(column_values(rows, c as int)), f == AggFn::Min);
}

/// Integer arithmetic is exact or refused: `+`, `-` and `*` give the
/// mathematical result whenever it fits 64 bits (and fail otherwise);
/// division by zero fails; otherwise the quotient `q` and remainder `m`
/// satisfy `x == q * y + m`, with `|m| < |y|` and `m` zero or of the sign
/// of `x` (division truncates toward zero).
pub proof fn lemma_arith_laws(x: i64, y: i64)
    ensures
        arith_spec(BinOp::Add, x, y) == (if i64::MIN <= x + y <= i64::MAX { Some((x + y) as i64) } else { None::<i64> }),
        arith_spec(BinOp::Sub, x, y) == (if i64::MIN <= x - y <= i64::MAX { Some((x - y) as i64) } else { None::<i64> }),
        arith_spec(BinOp::Mul, x, y) == (if i64::MIN <= x * y <= i64::MAX { Some((x * y) as i64) } else { None::<i64> }),
        y == 0 ==> arith_spec(BinOp::Div, x, y) is None && arith_spec(BinOp::Mod, x, y) is None,
        match (arith_spec(BinOp::Div, x, y), arith_spec(BinOp::Mod, x, y)) {
            (Some(q), Some(m)) => {
                &&& x == q * y + m
                &&& (if m >= 0 { m as int } else { -m }) < (if y >= 0 { y as int } else { -y })
                &&& (m == 0 || (m > 0) == (x > 0))
            },
            _ => true,
        },
{
    if y != 0 {
        let xi = x as int;
        let yi = y as int;
        let ax = if xi >= 0 { xi } else { -xi };
        let ay = if yi >= 0 { yi } else { -yi };
        vstd::arithmetic::div_mod::lemma_fundamental_div_mod(ax, ay);
        vstd::arithmetic::div_mod::lemma_mod_bound(ax, ay);
        let q0 = ax / ay;
        let r0 = ax % ay;
        assert(ax == ay * q0 + r0);
        if xi > 0 && yi > 0 {
            assert(trunc_div(xi, yi) == q0 && trunc_rem(xi, yi) == r0);
            assert(xi == trunc_div(xi, yi) * yi + trunc_rem(xi, yi)) by (nonlinear_arith)
                requires xi == yi * q0 + r0, trunc_div(xi, yi) == q0, trunc_rem(xi, yi) == r0;
        } else if xi < 0 && yi < 0 {
            assert(trunc_div(xi, yi) == q0 && trunc_rem(xi, yi) == -r0);
            assert(xi == trunc_div(xi, yi) * yi + trunc_rem(xi, yi)) by (nonlinear_arith)
                requires -xi == (-yi) * q0 + r0, trunc_div(xi, yi) == q0, trunc_rem(xi, yi) == -r0;
        } else if xi < 0 {
            assert(trunc_div(xi, yi) == -q0 && trunc_rem(xi, yi) == -r0);
            assert(xi == trunc_div(xi, yi) * yi + trunc_rem(xi, yi)) by (nonlinear_arith)
                requires -xi == yi * q0 + r0, trunc_div(xi, yi) == -q0, trunc_rem(xi, yi) == -r0;
        } else if xi > 0 {
            assert(trunc_div(xi, yi) == -q0 && trunc_rem(xi, yi) == r0);
            assert(xi == trunc_div(xi, yi) * yi + trunc_rem(xi, yi)) by (nonlinear_arith)
                requires xi == (-yi) * q0 + r0, trunc_div(xi, yi) == -q0, trunc_rem(xi, yi) == r0;
        } else {
            assert(trunc_div(xi, yi) == 0 && trunc_rem(xi, yi) == 0);
        }
    }
}

/// Comparisons of integers are the mathematical relations, and swapping
/// the operands of `<` gives `>` (of `<=`, `>=`): for operands that
/// evaluate to integers, the comparison gives 1 when the relation holds and
/// 0 when it does not.
pub proof fn lemma_compare_ints(l: ExprV, op: BinOp, r: ExprV, schema: Seq<ColumnDef>, row: Seq<SqlValue>, x: i64, y: i64)
    requires
        op == BinOp::Eq || op == BinOp::NotEq || op == BinOp::Lt || op == BinOp::LtEq || op == BinOp::Gt || op == BinOp::GtEq,
        eval_spec(l, schema, row) == Some(ValueV::Int(x)),
        eval_spec(r, schema, row) == Some(ValueV::Int(y)),
    ensures
        eval_spec(ExprV::BinaryOp { left: Box::new(l), op, right: Box::new(r) }, schema, row) == Some(ValueV::Int(
            if (match op {
                BinOp::Eq => x == y,
                BinOp::NotEq => x != y,
                BinOp::Lt => x < y,
                BinOp::LtEq => x <= y,
                BinOp::Gt => x > y,
                _ => x >= y,
            }) { 1 } else { 0 })),
{
    let e = ExprV::BinaryOp { left: Box::new(l), op, right: Box::new(r) };
    assert(eval_spec(e, schema, row) == binary_spec(e, schema, row));
    assert(sql_order(ValueV::Int(x), ValueV::Int(y)) == Some(int_order(x as int, y as int)));
}

/// Swapping the operands of a comparison swaps `<` with `>` and `<=` with
/// `>=` (and keeps `=` and `!=`), whatever the values compared.
pub proof fn lemma_compare_swap(l: ExprV, r: ExprV, schema: Seq<ColumnDef>, row: Seq<SqlValue>)
    requires
        eval_spec(l, schema, row) is Some,
        eval_spec(r, schema, row) is Some,
    ensures
        eval_spec(ExprV::BinaryOp { left: Box::new(l), op: BinOp::Lt, right: Box::new(r) }, schema, row)
            == eval_spec(ExprV::BinaryOp { left: Box::new(r), op: BinOp::Gt, right: Box::new(l) }, schema, row),
        eval_spec(ExprV::BinaryOp { left: Box::new(l), op: BinOp::LtEq, right: Box::new(r) }, schema, row)
            == eval_spec(ExprV::BinaryOp { left: Box::new(r), op: BinOp::GtEq, right: Box::new(l) }, schema, row),
        eval_spec(ExprV::BinaryOp { left: Box::new(l), op: BinOp::Eq, right: Box::new(r) }, schema, row)
            == eval_spec(ExprV::BinaryOp { left: Box::new(r), op: BinOp::Eq, right: Box::new(l) }, schema, row),
{
    let a = eval_spec(l, schema, row)->0;
    let b = eval_spec(r, schema, row)->0;
    match (a, b) {
        (ValueV::Text(x), ValueV::Text(y)) => {
            crate::order::lemma_bytes_order_flip(encode_utf8(x), encode_utf8(y));
        },
        _ => {},
    }
    let e1 = ExprV::BinaryOp { left: Box::new(l), op: BinOp::Lt, right: Box::new(r) };
    let e2 = ExprV::BinaryOp { left: Box::new(r), op: BinOp::Gt, right: Box::new(l) };
    let e3 = ExprV::BinaryOp { left: Box::new(l), op: BinOp::LtEq, right: Box::new(r) };
    let e4 = ExprV::BinaryOp { left: Box::new(r), op: BinOp::GtEq, right: Box::new(l) };
    let e5 = ExprV::BinaryOp { left: Box::new(l), op: BinOp::Eq, right: Box::new(r) };
    let e6 = ExprV::BinaryOp { left: Box::new(r), op: BinOp::Eq, right: Box::new(l) };
    assert(eval_spec(e1, schema, row) == binary_spec(e1, schema, row));
    assert(eval_spec(e2, schema, row) == binary_spec(e2, schema, row));
    assert(eval_spec(e3, schema, row) == binary_spec(e3, schema, row));
    assert(eval_spec(e4, schema, row) == binary_spec(e4, schema, row));
    assert(eval_spec(e5, schema, row) == binary_spec(e5, schema, row));
    assert(eval_spec(e6, schema, row) == binary_spec(e6, schema, row));
    match (a, b) {
        (ValueV::Int(x), ValueV::Int(y)) => {
            assert(sql_order(b, a) == Some(sql_order(a, b)->0.flip()));
        },
        (ValueV::Text(x), ValueV::Text(y)) => {
            assert(sql_order(b, a) == Some(sql_order(a, b)->0.flip()));
        },
        _ => {
            assert(sql_order(a, b) is None && sql_order(b, a) is None);
        },
    }
}

/// A column name resolves to the first column with that name; it fails
/// exactly when no column has it.
pub proof fn lemma_col_from(schema: Seq<ColumnDef>, name: Seq<char>, i: int)
    requires
        0 <= i,
    ensures
        col_from(schema, name, i) matches Some(k) ==> i <= k < schema.len() && schema[k].name@ == name
            && forall|j: int| i <= j < k ==> (#[trigger] schema[j]).name@ != name,
        col_from(schema, name, i) is None ==> forall|j: int| i <= j < schema.len() ==> (#[trigger] schema[j]).name@ != name,
    decreases schema.len() - i,
{
    if i < schema.len() && schema[i].name@ != name {
        lemma_col_from(schema, name, i + 1);
    }
}

/// `%` alone matches every text.
pub proof fn lemma_like_percent(s: Seq<char>)
    ensures
        like_spec(s, seq!['%']),
    decreases s.len(),
{
    let p = seq!['%'];
    assert(p.drop_first() =~= Seq::<char>::empty());
    assert(p[0] == '%');
    assert(like_spec(s, p) == (like_spec(s, p.drop_first()) || (s.len() > 0 && like_spec(s.drop_first(), p))));
    if s.len() > 0 {
        lemma_like_percent(s.drop_first());
    } else {
        assert(like_spec(s, p.drop_first()));
    }
}

/// `_` alone matches exactly the texts of one character.
pub proof fn lemma_like_underscore(s: Seq<char>)
    ensures
        like_spec(s, seq!['_']) <==> s.len() == 1,
{
    let p = seq!['_'];
    assert(p.drop_first() =~= Seq::<char>::empty());
    assert(p[0] == '_');
    assert(like_spec(s, p) == (s.len() > 0 && like_spec(s.drop_first(), p.drop_first())));
    if s.len() > 0 {
        assert(like_spec(s.drop_first(), p.drop_first()) == (s.drop_first().len() == 0));
    }
}

/// A pattern without `%` or `_` matches exactly the text it spells.
pub proof fn lemma_like_plain(s: Seq<char>, p: Seq<char>)
    requires
        forall|k: int| 0 <= k < p.len() ==> #[trigger] p[k] != '%' && p[k] != '_',
    ensures
        like_spec(s, p) <==> s == p,
    decreases s.len() + p.len(),
{
    if p.len() > 0 && s.len() > 0 {
        assert forall|k: int| 0 <= k < p.drop_first().len() implies #[trigger] p.drop_first()[k] != '%' && p.drop_first()[k] != '_' by {
            assert(p.drop_first()[k] == p[k + 1]);
        }
        lemma_like_plain(s.drop_first(), p.drop_first());
        if s[0] == p[0] && s.drop_first() == p.drop_first() {
            assert(s.len() == p.len());
            assert forall|k: int| 0 <= k < s.len() implies s[k] == p[k] by {
                if k > 0 {
                    assert(s[k] == s.drop_first()[k - 1]);
                    assert(p[k] == p.drop_first()[k - 1]);
                }
            }
            assert(s =~= p);
        }
        if s == p {
            assert(s.drop_first() =~= p.drop_first());
        }
    } else if p.len() > 0 {
        assert(p[0] != '%');
    } else if s.len() > 0 {
        assert(s != p);
    } else {
        assert(s =~= p);
    }
}

/// A plain prefix followed by `%` matches exactly the texts that start
/// with that prefix.
pub proof fn lemma_like_prefix(s: Seq<char>, p: Seq<char>)
    requires
        forall|k: int| 0 <= k < p.len() ==> #[trigger] p[k] != '%' && p[k] != '_',
    ensures
        like_spec(s, p + seq!['%']) <==> (p.len() <= s.len() && s.take(p.len() as int) == p),
    decreases p.len(),
{
    if p.len() == 0 {
        assert(p + seq!['%'] =~= seq!['%']);
        lemma_like_percent(s);
        assert(s.take(0) =~= p);
    } else {
        let q = p + seq!['%'];
        assert(q[0] == p[0]);
        assert(q.drop_first() =~= p.drop_first() + seq!['%']);
        assert forall|k: int| 0 <= k < p.drop_first().len() implies #[trigger] p.drop_first()[k] != '%' && p.drop_first()[k] != '_' by {
            assert(p.drop_first()[k] == p[k + 1]);
        }
        assert(p[0] != '%' && p[0] != '_');
        if s.len() > 0 {
            lemma_like_prefix(s.drop_first(), p.drop_first());
            if p.len() <= s.len() {
                assert(s.take(p.len() as int) == p <==> (s[0] == p[0] && s.drop_first().take(p.drop_first().len() as int) == p.drop_first())) by {
                    if s.take(p.len() as int) == p {
                        assert(s.drop_first().take(p.drop_first().len() as int) =~= p.drop_first()) by {
                            assert forall|k: int| 0 <= k < p.drop_first().len() implies s.drop_first().take(p.drop_first().len() as int)[k] == p.drop_first()[k] by {
                                assert(s.take(p.len() as int)[k + 1] == p[k + 1]);
                            }
                        }
                        assert(s.take(p.len() as int)[0] == p[0]);
                    }
                    if s[0] == p[0] && s.drop_first().take(p.drop_first().len() as int) == p.drop_first() {
                        assert forall|k: int| 0 <= k < p.len() implies s.take(p.len() as int)[k] == p[k] by {
                            if k > 0 {
                                assert(s.drop_first().take(p.drop_first().len() as int)[k - 1] == p.drop_first()[k - 1]);
                            }
                        }
                        assert(s.take(p.len() as int) =~= p);
                    }
                }
            }
        }
    }
}

/// With a non-NULL left side and items that all evaluate, `v IN (..)` is 1
/// exactly when some item equals `v`; otherwise NULL when some item is NULL,
/// else 0.
pub proof fn lemma_in_list(v: ValueV, list: Seq<ExprV>, schema: Seq<ColumnDef>, row: Seq<SqlValue>)
    requires
        !(v is Null),
        forall|k: int| 0 <= k < list.len() ==> (#[trigger] eval_spec(list[k], schema, row)) is Some,
    ensures
        in_spec(v, list, schema, row, false) == Some(
            if exists|k: int| 0 <= k < list.len() && #[trigger] eval_spec(list[k], schema, row) == Some(v) {
                ValueV::Int(1)
            } else if exists|k: int| 0 <= k < list.len() && #[trigger] eval_spec(list[k], schema, row) == Some(ValueV::Null) {
                ValueV::Null
            } else {
                ValueV::Int(0)
            }
        ),
{
    lemma_in_list_from(v, list, schema, row, false);
}

proof fn lemma_in_list_from(v: ValueV, list: Seq<ExprV>, schema: Seq<ColumnDef>, row: Seq<SqlValue>, saw_null: bool)
    requires
        !(v is Null),
        forall|k: int| 0 <= k < list.len() ==> (#[trigger] eval_spec(list[k], schema, row)) is Some,
    ensures
        in_spec(v, list, schema, row, saw_null) == Some(
            if exists|k: int| 0 <= k < list.len() && #[trigger] eval_spec(list[k], schema, row) == Some(v) {
                ValueV::Int(1)
            } else if saw_null || exists|k: int| 0 <= k < list.len() && #[trigger] eval_spec(list[k], schema, row) == Some(ValueV::Null) {
                ValueV::Null
            } else {
                ValueV::Int(0)
            }
        ),
    decreases list.len(),
{
    if list.len() > 0 {
        let t = list.drop_first();
        assert forall|k: int| 0 <= k < t.len() implies (#[trigger] eval_spec(t[k], schema, row)) is Some by {
            assert(t[k] == list[k + 1]);
            assert(eval_spec(list[k + 1], schema, row) is Some);
        }
        let iv = eval_spec(list[0], schema, row);
        assert(iv is Some);
        let w = iv->0;
        lemma_in_list_from(v, t, schema, row, saw_null || w is Null);
        let eq_t = exists|k: int| 0 <= k < t.len() && #[trigger] eval_spec(t[k], schema, row) == Some(v);
        let eq_l = exists|k: int| 0 <= k < list.len() && #[trigger] eval_spec(list[k], schema, row) == Some(v);
        let nu_t = exists|k: int| 0 <= k < t.len() && #[trigger] eval_spec(t[k], schema, row) == Some(ValueV::Null);
        let nu_l = exists|k: int| 0 <= k < list.len() && #[trigger] eval_spec(list[k], schema, row) == Some(ValueV::Null);
        if eq_t {
            let k = choose|k: int| 0 <= k < t.len() && #[trigger] eval_spec(t[k], schema, row) == Some(v);
            assert(t[k] == list[k + 1]);
        }
        if nu_t {
            let k = choose|k: int| 0 <= k < t.len() && #[trigger] eval_spec(t[k], schema, row) == Some(ValueV::Null);
            assert(t[k] == list[k + 1]);
        }
        if eq_l {
            let k = choose|k: int| 0 <= k < list.len() && #[trigger] eval_spec(list[k], schema, row) == Some(v);
            if k > 0 {
                assert(t[k - 1] == list[k]);
            }
        }
        if nu_l {
            let k = choose|k: int| 0 <= k < list.len() && #[trigger] eval_spec(list[k], schema, row) == Some(ValueV::Null);
            if k > 0 {
                assert(t[k - 1] == list[k]);
            }
        }
        assert(eq_l <==> (w == v || eq_t));
        assert(nu_l <==> (w is Null || nu_t));
    }
}

/// What one projection item contributes to an ungrouped aggregate query.
pub open spec fn agg_item(item: SelectItemV, schema: Seq<ColumnDef>) -> AggItem {
    match item {
        SelectItemV::Star => AggItem::Stop,
        SelectItemV::Expr(e) => match e {
            ExprV::Function { name, args } => match agg_func_of(upper_text(name)) {
                None => AggItem::Skip,
                Some(f) => if args.len() == 0 {
                    AggItem::Agg(render(e), f, None)
                } else {
                    match args[0] {
                        ExprV::Identifier(c) => if c == "*"@ {
                            AggItem::Agg(render(e), f, None)
                        } else {
                            match col_from(schema, c, 0) {
                                Some(i) => AggItem::Agg(render(e), f, Some(i as usize)),
                                None => AggItem::Bad,
                            }
                        },
                        _ => AggItem::Bad,
                    }
                },
            },
            _ => AggItem::Stop,
        },
    }
}

/// The aggregates of a projection from item `i` on, after `acc`: `Ok(None)`
/// when it is not an aggregate query (a non-function item, or no aggregate
/// at all), `Err` for a bad aggregate argument.
pub open spec fn parse_aggs(items: Seq<SelectItemV>, schema: Seq<ColumnDef>, i: int, acc: Seq<(Seq<char>, AggFn, Option<usize>)>)
    -> Result<Option<Seq<(Seq<char>, AggFn, Option<usize>)>>, ()>
    decreases items.len() - i,
{
    if i < 0 || i >= items.len() {
        Ok(if acc.len() == 0 { None } else { Some(acc) })
    } else {
        match agg_item(items[i], schema) {
            AggItem::Stop => Ok(None),
            AggItem::Bad => Err(()),
            AggItem::Skip => parse_aggs(items, schema, i + 1, acc),
            AggItem::Agg(l, f, c) => parse_aggs(items, schema, i + 1, acc.push((l, f, c))),
        }
    }
}

/// Model of an aggregate.
pub open spec fn agg_view(a: Aggregate) -> (Seq<char>, AggFn, Option<usize>) {
    (a.label@, a.func, a.col)
}

pub(crate) fn agg_func(name: &str) -> (r: Option<AggFn>)
    ensures
        r == agg_func_of(upper_text(name@)),
{
    let up = to_upper(name);
    let u = up.as_str();
    if str_eq(u, "COUNT") {
        Some(AggFn::Count)
    } else if str_eq(u, "SUM") {
        Some(AggFn::Sum)
    } else if str_eq(u, "AVG") {
        Some(AggFn::Avg)
    } else if str_eq(u, "MIN") {
        Some(AggFn::Min)
    } else if str_eq(u, "MAX") {
        Some(AggFn::Max)
    } else {
        None
    }
}

/// The aggregates of a projection, when it is an aggregate query.
pub fn try_parse_aggregates(projection: &[SelectItem], schema: &[ColumnDef]) -> (r: Result<Option<Vec<Aggregate>>, String>)
    ensures
        match parse_aggs(projection@.map_values(|i: SelectItem| i@), schema@, 0, Seq::empty()) {
            Ok(Some(v)) => r matches Ok(Some(x)) && x@.map_values(|a: Aggregate| agg_view(a)) == v,
            Ok(None) => r matches Ok(None),
            Err(_) => r is Err,
        },
{
    let ghost items = projection@.map_values(|i: SelectItem| i@);
    let mut out: Vec<Aggregate> = Vec::new();
    let mut i: usize = 0;
    assert(out@.map_values(|a: Aggregate| agg_view(a)) =~= Seq::<(Seq<char>, AggFn, Option<usize>)>::empty());
    while i < projection.len()
        invariant
            i <= projection@.len(),
            items == projection@.map_values(|i: SelectItem| i@),
            parse_aggs(items, schema@, 0, Seq::empty())
                == parse_aggs(items, schema@, i as int, out@.map_values(|a: Aggregate| agg_view(a))),
        decreases projection@.len() - i,
    {
        let ghost acc = out@.map_values(|a: Aggregate| agg_view(a));
        let expr = match &projection[i] {
            SelectItem::Expr(e) => e,
            SelectItem::Star => {
                return Ok(None);
            },
        };
        assert(items[i as int] == SelectItemV::Expr(expr@));
        let (name, args) = match expr {
            Expr::Function { name, args } => (name, args),
            _ => {
                return Ok(None);
            },
        };
        proof {
            lemma_exprs_view(args@);
        }
        let func = match agg_func(name.as_str()) {
            Some(f) => f,
            None => {
                i = i + 1;
                continue;
            },
        };
        let col = if args.len() == 0 {
            None
        } else {
            assert(exprs_of(args@)[0] == args@[0]@);
            match &args[0] {
                Expr::Identifier(col_name) => {
                    if str_eq(col_name.as_str(), "*") {
                        None
                    } else {
                        match col_pos(schema, col_name.as_str()) {
                            Ok(p) => Some(p),
                            Err(m) => {
                                return Err(m);
                            },
                        }
                    }
                },
                _ => {
                    let fname = to_upper(name.as_str());
                    return Err(join2(fname.as_str(), " requires a column or *"));
                },
            }
        };
        let label = format_expr(expr);
        let a = Aggregate { label, func, col };
        out.push(a);
        assert(out@.map_values(|a: Aggregate| agg_view(a)) =~= acc.push(agg_view(a)));
        i = i + 1;
    }
    if out.len() == 0 {
        return Ok(None);
    }
    Ok(Some(out))
}

} // verus!

//! Handwritten SQL tokenizer and recursive-descent parser for the engine's
//! SQL subset.
use vstd::prelude::*;
use vstd::string::*;
use vstd::std_specs::iter::IteratorSpec;
use crate::codec::{SqlValue, ValueV};

verus! {

// ── tokens ────────────────────────────────────────────────────────────

/// A lexical token. Keywords carry their canonical upper-case spelling.
#[derive(Debug, Clone, PartialEq, Eq)]
pub enum Token {
    Keyword(&'static str),
    Ident(String),
    Int(i64),
    Str(String),
    LParen,
    RParen,
    Comma,
    Star,
    Slash,
    Percent,
    Semicolon,
    Plus,
    Minus,
    Eq,
    NotEq,
    Lt,
    LtEq,
    Gt,
    GtEq,
    Eof,
}

/// Mathematical model of a [`Token`].
pub enum TokenV {
    Keyword(Seq<char>),
    Ident(Seq<char>),
    Int(i64),
    Str(Seq<char>),
    LParen,
    RParen,
    Comma,
    Star,
    Slash,
    Percent,
    Semicolon,
    Plus,
    Minus,
    Eq,
    NotEq,
    Lt,
    LtEq,
    Gt,
    GtEq,
    Eof,
}

impl View for Token {
    type V = TokenV;

    open spec fn view(&self) -> TokenV {
        match self {
            Token::Keyword(k) => TokenV::Keyword(k@),
            Token::Ident(s) => TokenV::Ident(s@),
            Token::Int(n) => TokenV::Int(*n),
            Token::Str(s) => TokenV::Str(s@),
            Token::LParen => TokenV::LParen,
            Token::RParen => TokenV::RParen,
            Token::Comma => TokenV::Comma,
            Token::Star => TokenV::Star,
            Token::Slash => TokenV::Slash,
            Token::Percent => TokenV::Percent,
            Token::Semicolon => TokenV::Semicolon,
            Token::Plus => TokenV::Plus,
            Token::Minus => TokenV::Minus,
            Token::Eq => TokenV::Eq,
            Token::NotEq => TokenV::NotEq,
            Token::Lt => TokenV::Lt,
            Token::LtEq => TokenV::LtEq,
            Token::Gt => TokenV::Gt,
            Token::GtEq => TokenV::GtEq,
            Token::Eof => TokenV::Eof,
        }
    }
}

/// Models of a token sequence.
pub open spec fn tokens_view(ts: Seq<Token>) -> Seq<TokenV> {
    ts.map_values(|t: Token| t@)
}

// ── character classes ─────────────────────────────────────────────────

/// ASCII whitespace: space, tab, line feed, form feed, carriage return.
pub open spec fn is_ws(c: char) -> bool {
    c == ' ' || c == '\t' || c == '\n' || c == '\x0C' || c == '\r'
}

/// ASCII decimal digit.
pub open spec fn is_digit(c: char) -> bool {
    '0' <= c && c <= '9'
}

/// ASCII letter.
pub open spec fn is_alpha(c: char) -> bool {
    ('a' <= c && c <= 'z') || ('A' <= c && c <= 'Z')
}

/// A character that may continue a word: ASCII letter, digit or `_`.
pub open spec fn is_word_char(c: char) -> bool {
    is_alpha(c) || is_digit(c) || c == '_'
}

/// ASCII upper case of a character (others unchanged).
pub open spec fn upper_char(c: char) -> char {
    if 'a' <= c && c <= 'z' {
        ((c as u32) - 32) as char
    } else {
        c
    }
}

/// ASCII upper case of a word.
pub open spec fn upper(s: Seq<char>) -> Seq<char> {
    s.map_values(|c: char| upper_char(c))
}

fn ws_char(c: char) -> (r: bool)
    ensures
        r == is_ws(c),
{
    c == ' ' || c == '\t' || c == '\n' || c == '\x0C' || c == '\r'
}

fn digit_char(c: char) -> (r: bool)
    ensures
        r == is_digit(c),
{
    '0' <= c && c <= '9'
}

fn alpha_char(c: char) -> (r: bool)
    ensures
        r == is_alpha(c),
{
    ('a' <= c && c <= 'z') || ('A' <= c && c <= 'Z')
}

fn upper_ascii(c: char) -> (r: char)
    ensures
        r == upper_char(c),
{
    if 'a' <= c && c <= 'z' {
        let b: u32 = (c as u32) - 32;
        assert(b < 128);
        let x: u8 = b as u8;
        x as char
    } else {
        c
    }
}

// ── tokenizer ─────────────────────────────────────────────────────────

/// The canonical keyword for an upper-case word, if it is one (type names
/// have synonyms: INT and BIGINT are INTEGER; VARCHAR and STRING are TEXT).
pub open spec fn keyword_of(u: Seq<char>) -> Option<Seq<char>> {
    if u == "CREATE"@ { Some("CREATE"@) }
    else if u == "TABLE"@ { Some("TABLE"@) }
    else if u == "INSERT"@ { Some("INSERT"@) }
    else if u == "INTO"@ { Some("INTO"@) }
    else if u == "VALUES"@ { Some("VALUES"@) }
    else if u == "SELECT"@ { Some("SELECT"@) }
    else if u == "FROM"@ { Some("FROM"@) }
    else if u == "WHERE"@ { Some("WHERE"@) }
    else if u == "AND"@ { Some("AND"@) }
    else if u == "OR"@ { Some("OR"@) }
    else if u == "NOT"@ { Some("NOT"@) }
    else if u == "LIKE"@ { Some("LIKE"@) }
    else if u == "IN"@ { Some("IN"@) }
    else if u == "BETWEEN"@ { Some("BETWEEN"@) }
    else if u == "ORDER"@ { Some("ORDER"@) }
    else if u == "ASC"@ { Some("ASC"@) }
    else if u == "DESC"@ { Some("DESC"@) }
    else if u == "LIMIT"@ { Some("LIMIT"@) }
    else if u == "INDEX"@ { Some("INDEX"@) }
    else if u == "DROP"@ { Some("DROP"@) }
    else if u == "JOIN"@ { Some("JOIN"@) }
    else if u == "INNER"@ { Some("INNER"@) }
    else if u == "ON"@ { Some("ON"@) }
    else if u == "GROUP"@ { Some("GROUP"@) }
    else if u == "BY"@ { Some("BY"@) }
    else if u == "SHOW"@ { Some("SHOW"@) }
    else if u == "TABLES"@ { Some("TABLES"@) }
    else if u == "IF"@ { Some("IF"@) }
    else if u == "EXISTS"@ { Some("EXISTS"@) }
    else if u == "INTEGER"@ { Some("INTEGER"@) }
    else if u == "INT"@ { Some("INTEGER"@) }
    else if u == "BIGINT"@ { Some("INTEGER"@) }
    else if u == "TEXT"@ { Some("TEXT"@) }
    else if u == "VARCHAR"@ { Some("TEXT"@) }
    else if u == "STRING"@ { Some("TEXT"@) }
    else if u == "NULL"@ { Some("NULL"@) }
    else if u == "COUNT"@ { Some("COUNT"@) }
    else if u == "SUM"@ { Some("SUM"@) }
    else if u == "AVG"@ { Some("AVG"@) }
    else if u == "MIN"@ { Some("MIN"@) }
    else if u == "MAX"@ { Some("MAX"@) }
    else if u == "BEGIN"@ { Some("BEGIN"@) }
    else if u == "COMMIT"@ { Some("COMMIT"@) }
    else if u == "ROLLBACK"@ { Some("ROLLBACK"@) }
    else if u == "TRANSACTION"@ { Some("TRANSACTION"@) }
    else if u == "WORK"@ { Some("WORK"@) }
    else { None }
}

/// `u` spells `s`.
fn chars_are(u: &Vec<char>, s: &str) -> (r: bool)
    ensures
        r == (u@ == s@),
{
    let n = s.unicode_len();
    if u.len() != n {
        return false;
    }
    let mut i: usize = 0;
    while i < n
        invariant
            n == s@.len(),
            u@.len() == n,
            i <= n,
            forall|k: int| 0 <= k < i ==> u@[k] == s@[k],
        decreases n - i,
    {
        if u[i] != s.get_char(i) {
            return false;
        }
        i = i + 1;
    }
    assert(u@ =~= s@);
    true
}

/// Exec form of [`keyword_of`].
fn lookup_keyword(u: &Vec<char>) -> (r: Option<&'static str>)
    ensures
        match r {
            Some(k) => keyword_of(u@) == Some(k@),
            None => keyword_of(u@) is None,
        },
{
    if chars_are(u, "CREATE") { Some("CREATE") }
    else if chars_are(u, "TABLE") { Some("TABLE") }
    else if chars_are(u, "INSERT") { Some("INSERT") }
    else if chars_are(u, "INTO") { Some("INTO") }
    else if chars_are(u, "VALUES") { Some("VALUES") }
    else if chars_are(u, "SELECT") { Some("SELECT") }
    else if chars_are(u, "FROM") { Some("FROM") }
    else if chars_are(u, "WHERE") { Some("WHERE") }
    else if chars_are(u, "AND") { Some("AND") }
    else if chars_are(u, "OR") { Some("OR") }
    else if chars_are(u, "NOT") { Some("NOT") }
    else if chars_are(u, "LIKE") { Some("LIKE") }
    else if chars_are(u, "IN") { Some("IN") }
    else if chars_are(u, "BETWEEN") { Some("BETWEEN") }
    else if chars_are(u, "ORDER") { Some("ORDER") }
    else if chars_are(u, "ASC") { Some("ASC") }
    else if chars_are(u, "DESC") { Some("DESC") }
    else if chars_are(u, "LIMIT") { Some("LIMIT") }
    else if chars_are(u, "INDEX") { Some("INDEX") }
    else if chars_are(u, "DROP") { Some("DROP") }
    else if chars_are(u, "JOIN") { Some("JOIN") }
    else if chars_are(u, "INNER") { Some("INNER") }
    else if chars_are(u, "ON") { Some("ON") }
    else if chars_are(u, "GROUP") { Some("GROUP") }
    else if chars_are(u, "BY") { Some("BY") }
    else if chars_are(u, "SHOW") { Some("SHOW") }
    else if chars_are(u, "TABLES") { Some("TABLES") }
    else if chars_are(u, "IF") { Some("IF") }
    else if chars_are(u, "EXISTS") { Some("EXISTS") }
    else if chars_are(u, "INTEGER") { Some("INTEGER") }
    else if chars_are(u, "INT") { Some("INTEGER") }
    else if chars_are(u, "BIGINT") { Some("INTEGER") }
    else if chars_are(u, "TEXT") { Some("TEXT") }
    else if chars_are(u, "VARCHAR") { Some("TEXT") }
    else if chars_are(u, "STRING") { Some("TEXT") }
    else if chars_are(u, "NULL") { Some("NULL") }
    else if chars_are(u, "COUNT") { Some("COUNT") }
    else if chars_are(u, "SUM") { Some("SUM") }
    else if chars_are(u, "AVG") { Some("AVG") }
    else if chars_are(u, "MIN") { Some("MIN") }
    else if chars_are(u, "MAX") { Some("MAX") }
    else if chars_are(u, "BEGIN") { Some("BEGIN") }
    else if chars_are(u, "COMMIT") { Some("COMMIT") }
    else if chars_are(u, "ROLLBACK") { Some("ROLLBACK") }
    else if chars_are(u, "TRANSACTION") { Some("TRANSACTION") }
    else if chars_are(u, "WORK") { Some("WORK") }
    else { None }
}

/// The characters of `s`, in order.
fn chars_of(s: &str) -> (v: Vec<char>)
    ensures
        v@ == s@,
{
    broadcast use vstd::string::axiom_spec_iter, vstd::string::next_postcondition;
    let mut it = s.chars();
    let mut v: Vec<char> = Vec::new();
    loop
        invariant
            it.obeys_prophetic_iter_laws(),
            v@ + it.remaining() == s@,
            it.decrease() is Some,
        decreases it.decrease()->0,
    {
        let ghost before = it.remaining();
        match it.next() {
            Some(c) => {
                v.push(c);
                assert(v@ + it.remaining() =~= s@) by {
                    assert(before == seq![c] + it.remaining());
                }
            },
            None => {
                assert(v@ =~= s@);
                return v;
            },
        }
    }
}

/// End of the run of digits from `i`.
pub open spec fn digits_end(cs: Seq<char>, i: int) -> int
    decreases cs.len() - i,
{
    if 0 <= i < cs.len() && is_digit(cs[i]) {
        digits_end(cs, i + 1)
    } else {
        i
    }
}

/// End of the run of word characters from `i`.
pub open spec fn word_end(cs: Seq<char>, i: int) -> int
    decreases cs.len() - i,
{
    if 0 <= i < cs.len() && is_word_char(cs[i]) {
        word_end(cs, i + 1)
    } else {
        i
    }
}

/// The body of a string literal whose opening quote is just before `j`,
/// and the position after its closing quote: a doubled quote `''` stands
/// for one quote character, a single quote ends the literal; `None` when
/// no quote ends it.
pub open spec fn str_body(cs: Seq<char>, j: int) -> Option<(Seq<char>, int)>
    decreases cs.len() - j,
{
    if j < 0 || j >= cs.len() {
        None
    } else if cs[j] == '\'' {
        if j + 1 < cs.len() && cs[j + 1] == '\'' {
            match str_body(cs, j + 2) {
                Some((b, e)) => Some((seq!['\''] + b, e)),
                None => None,
            }
        } else {
            Some((Seq::empty(), j + 1))
        }
    } else {
        match str_body(cs, j + 1) {
            Some((b, e)) => Some((seq![cs[j]] + b, e)),
            None => None,
        }
    }
}

/// The run of digits from `i` stays within the text and holds only digits.
pub proof fn lemma_digits_end(cs: Seq<char>, i: int)
    requires
        0 <= i <= cs.len(),
    ensures
        i <= digits_end(cs, i) <= cs.len(),
        i < cs.len() && is_digit(cs[i]) ==> digits_end(cs, i) > i,
        forall|k: int| i <= k < digits_end(cs, i) ==> is_digit(#[trigger] cs[k]),
    decreases cs.len() - i,
{
    if i < cs.len() && is_digit(cs[i]) {
        lemma_digits_end(cs, i + 1);
    }
}

/// The run of word characters from `i` stays within the text, and is not
/// empty when it starts with one.
pub proof fn lemma_word_end(cs: Seq<char>, i: int)
    requires
        0 <= i <= cs.len(),
    ensures
        i <= word_end(cs, i) <= cs.len(),
        i < cs.len() && is_word_char(cs[i]) ==> word_end(cs, i) > i,
    decreases cs.len() - i,
{
    if i < cs.len() && is_word_char(cs[i]) {
        lemma_word_end(cs, i + 1);
    }
}

/// A string literal's end lies after its start and within the text.
pub proof fn lemma_str_body_end(cs: Seq<char>, j: int)
    requires
        0 <= j,
        str_body(cs, j) is Some,
    ensures
        match str_body(cs, j) {
            Some((_, e)) => j < e <= cs.len(),
            None => true,
        },
    decreases cs.len() - j,
{
    if j < cs.len() {
        if cs[j] == '\'' {
            if j + 1 < cs.len() && cs[j + 1] == '\'' {
                lemma_str_body_end(cs, j + 2);
            }
        } else {
            lemma_str_body_end(cs, j + 1);
        }
    }
}


/// The value of a run of decimal digits.
pub open spec fn decimal_value(ds: Seq<char>) -> int
    decreases ds.len(),
{
    if ds.len() == 0 {
        0
    } else {
        decimal_value(ds.drop_last()) * 10 + ((ds.last() as int) - ('0' as int))
    }
}

proof fn lemma_decimal_prefix(ds: Seq<char>, m: int)
    requires
        0 <= m <= ds.len(),
        forall|k: int| 0 <= k < ds.len() ==> is_digit(#[trigger] ds[k]),
    ensures
        0 <= decimal_value(ds.take(m)) <= decimal_value(ds),
    decreases ds.len(),
{
    if m == ds.len() {
        assert(ds.take(m) =~= ds);
        if ds.len() > 0 {
            lemma_decimal_prefix(ds.drop_last(), 0);
        }
    } else {
        let d = ds.drop_last();
        assert(d.take(m) =~= ds.take(m));
        lemma_decimal_prefix(d, m);
        assert(is_digit(ds[ds.len() - 1]));
    }
}

/// Prepend a token to a scan result.
pub open spec fn push_front(t: TokenV, r: Option<Seq<TokenV>>) -> Option<Seq<TokenV>> {
    match r {
        Some(s) => Some(seq![t] + s),
        None => None,
    }
}

/// Prepend tokens to a scan result.
pub open spec fn prepend_all(p: Seq<TokenV>, r: Option<Seq<TokenV>>) -> Option<Seq<TokenV>> {
    match r {
        Some(s) => Some(p + s),
        None => None,
    }
}

/// The token for a word: its keyword when its upper case is one, else an
/// identifier spelled as written.
pub open spec fn word_token(w: Seq<char>) -> TokenV {
    match keyword_of(upper(w)) {
        Some(k) => TokenV::Keyword(k),
        None => TokenV::Ident(w),
    }
}

/// Tokens of `cs` from position `i` (without the final end marker); `None`
/// on an unterminated string, an integer beyond the 64-bit range or an
/// unexpected character. In a `'...'` string a doubled quote is one quote
/// character (see [`str_body`]); `-`
/// directly before a digit starts a negative integer.
pub open spec fn scan(cs: Seq<char>, i: int) -> Option<Seq<TokenV>>
    decreases cs.len() - i,
{
    if i < 0 || i >= cs.len() {
        Some(Seq::empty())
    } else {
        let c = cs[i];
        let two = i + 1 < cs.len() && cs[i + 1] == '=';
        if is_ws(c) {
            scan(cs, i + 1)
        } else if c == '(' {
            push_front(TokenV::LParen, scan(cs, i + 1))
        } else if c == ')' {
            push_front(TokenV::RParen, scan(cs, i + 1))
        } else if c == ',' {
            push_front(TokenV::Comma, scan(cs, i + 1))
        } else if c == '*' {
            push_front(TokenV::Star, scan(cs, i + 1))
        } else if c == '/' {
            push_front(TokenV::Slash, scan(cs, i + 1))
        } else if c == '%' {
            push_front(TokenV::Percent, scan(cs, i + 1))
        } else if c == '+' {
            push_front(TokenV::Plus, scan(cs, i + 1))
        } else if c == ';' {
            push_front(TokenV::Semicolon, scan(cs, i + 1))
        } else if c == '=' {
            push_front(TokenV::Eq, scan(cs, i + 1))
        } else if c == '!' && two {
            push_front(TokenV::NotEq, scan(cs, i + 2))
        } else if c == '<' && two {
            push_front(TokenV::LtEq, scan(cs, i + 2))
        } else if c == '<' {
            push_front(TokenV::Lt, scan(cs, i + 1))
        } else if c == '>' && two {
            push_front(TokenV::GtEq, scan(cs, i + 2))
        } else if c == '>' {
            push_front(TokenV::Gt, scan(cs, i + 1))
        } else if c == '\'' {
            match str_body(cs, i + 1) {
                Some((b, e)) => {
                    proof {
                        lemma_str_body_end(cs, i + 1);
                    }
                    push_front(TokenV::Str(b), scan(cs, e))
                },
                None => None,
            }
        } else if is_digit(c) || (c == '-' && i + 1 < cs.len() && is_digit(cs[i + 1])) {
            let s = if c == '-' { i + 1 } else { i };
            let e = digits_end(cs, s);
            proof {
                lemma_digits_end(cs, s);
            }
            let v = decimal_value(cs.subrange(s, e));
            if v > i64::MAX {
                None
            } else {
                push_front(TokenV::Int((if c == '-' { -v } else { v }) as i64), scan(cs, e))
            }
        } else if c == '-' {
            push_front(TokenV::Minus, scan(cs, i + 1))
        } else if is_alpha(c) || c == '_' {
            let e = word_end(cs, i);
            proof {
                lemma_word_end(cs, i);
            }
            push_front(word_token(cs.subrange(i, e)), scan(cs, e))
        } else {
            None
        }
    }
}

/// Tokens of a whole input, ending with [`TokenV::Eof`].
pub open spec fn tokenize_spec(cs: Seq<char>) -> Option<Seq<TokenV>> {
    match scan(cs, 0) {
        Some(ts) => Some(ts.push(TokenV::Eof)),
        None => None,
    }
}

/// `String::from_iter` over characters. Claimed: the string spells exactly
/// those characters, in order.
#[verifier::external_body]
pub(crate) fn string_from_chars(cs: &[char]) -> (r: String)
    ensures
        r@ == cs@,
{
    String::from_iter(cs.iter())
}

/// The message for an unexpected character: the character in quotes.
fn unexpected_char_message(c: char) -> (r: String)
    ensures
        r@ == "unexpected character: '"@ + seq![c] + "'"@,
{
    let cs: [char; 1] = [c];
    let one = string_from_chars(&cs);
    let mut m = String::from_str("unexpected character: '");
    m.append(one.as_str());
    m.append("'");
    assert(cs@ =~= seq![c]);
    m
}

fn msg(s: &str) -> (r: String)
    ensures
        r@ == s@,
{
    String::from_str(s)
}

proof fn lemma_prepend_step(tv: Seq<TokenV>, t: TokenV, r: Option<Seq<TokenV>>)
    ensures
        prepend_all(tv, push_front(t, r)) == prepend_all(tv.push(t), r),
{
    match r {
        Some(s) => {
            assert(tv + (seq![t] + s) =~= tv.push(t) + s);
        },
        None => {},
    }
}

/// `pre` followed by a string body outcome.
pub open spec fn body_after(pre: Seq<char>, o: Option<(Seq<char>, int)>) -> Option<(Seq<char>, int)> {
    match o {
        Some((b, e)) => Some((pre + b, e)),
        None => None,
    }
}

/// A string literal starting with the quote at `i`: its token and the
/// position after the closing quote (see [`str_body`]); `None` when
/// unterminated.
fn scan_string(chars: &Vec<char>, i: usize) -> (r: Option<(Token, usize)>)
    requires
        i < chars@.len(),
    ensures
        match str_body(chars@, i + 1) {
            Some((b, e)) => r matches Some((t, j)) && j == e && t@ == TokenV::Str(b) && i < j <= chars@.len(),
            None => r is None,
        },
{
    let ghost cs = chars@;
    let _n = chars.len();
    let mut j: usize = i + 1;
    let mut body: Vec<char> = Vec::new();
    assert(body@ + Seq::<char>::empty() =~= body@);
    loop
        invariant
            cs == chars@,
            i < cs.len(),
            i + 1 <= j,
            str_body(cs, i + 1) == body_after(body@, str_body(cs, j as int)),
        decreases cs.len() + 2 - j,
    {
        if j >= chars.len() {
            return None;
        }
        if chars[j] == '\'' {
            if j + 1 < chars.len() && chars[j + 1] == '\'' {
                let ghost b0 = body@;
                body.push('\'');
                proof {
                    match str_body(cs, j + 2) {
                        Some((b, e)) => {
                            assert(b0 + (seq!['\''] + b) =~= body@ + b);
                        },
                        None => {},
                    }
                }
                j = j + 2;
            } else {
                assert(body@ + Seq::<char>::empty() =~= body@);
                proof { lemma_str_body_end(cs, i + 1); }
                let s = string_from_chars(body.as_slice());
                return Some((Token::Str(s), j + 1));
            }
        } else {
            let ghost b0 = body@;
            body.push(chars[j]);
            proof {
                match str_body(cs, j + 1) {
                    Some((b, e)) => {
                        assert(b0 + (seq![cs[j as int]] + b) =~= body@ + b);
                    },
                    None => {},
                }
            }
            j = j + 1;
        }
    }
}

/// A word starting at `i`: its token and the position after it.
fn scan_word(chars: &Vec<char>, i: usize) -> (r: (Token, usize))
    requires
        i < chars@.len(),
        is_word_char(chars@[i as int]),
    ensures
        r.1 == word_end(chars@, i as int),
        i < r.1 <= chars@.len(),
        r.0@ == word_token(chars@.subrange(i as int, word_end(chars@, i as int))),
{
    let ghost cs = chars@;
    proof {
        lemma_word_end(cs, i as int);
    }
    let mut j: usize = i;
    let mut word: Vec<char> = Vec::new();
    let mut up: Vec<char> = Vec::new();
    while j < chars.len() && (alpha_char(chars[j]) || digit_char(chars[j]) || chars[j] == '_')
        invariant
            cs == chars@,
            i <= j <= cs.len(),
            word_end(cs, i as int) == word_end(cs, j as int),
            word@ == cs.subrange(i as int, j as int),
            up@ == upper(word@),
        decreases cs.len() - j,
    {
        let c = chars[j];
        proof {
            lemma_word_end(cs, j + 1);
        }
        word.push(c);
        up.push(upper_ascii(c));
        assert(word@ =~= cs.subrange(i as int, j + 1));
        assert(up@ =~= upper(word@));
        j = j + 1;
    }
    let t = match lookup_keyword(&up) {
        Some(k) => Token::Keyword(k),
        None => Token::Ident(string_from_chars(word.as_slice())),
    };
    (t, j)
}

/// An integer starting at `i` (a leading `-` when `neg`): its token and the
/// position after its digits; an error beyond the 64-bit range.
fn scan_number(chars: &Vec<char>, i: usize, neg: bool) -> (r: Result<(Token, usize), String>)
    requires
        (if neg { i + 1 } else { i as int }) < chars@.len(),
        is_digit(chars@[if neg { i + 1 } else { i as int }]),
    ensures
        ({
            let s = if neg { i + 1 } else { i as int };
            let e = digits_end(chars@, s);
            let v = decimal_value(chars@.subrange(s, e));
            match r {
                Ok((t, j)) => j == e && i < j <= chars@.len() && v <= i64::MAX && t@ == TokenV::Int((if neg { -v } else { v }) as i64),
                Err(m) => v > i64::MAX && m@.len() > 0,
            }
        }),
{
    let ghost cs = chars@;
    let _n = chars.len();
    let start: usize = if neg { i + 1 } else { i };
    proof {
        lemma_digits_end(cs, start as int);
    }
    let ghost e = digits_end(cs, start as int);
    let mut j: usize = start;
    let mut digits: Vec<char> = Vec::new();
    let mut n: i64 = 0;
    let mut overflow = false;
    while j < chars.len() && digit_char(chars[j])
        invariant
            cs == chars@,
            start <= j <= e,
            e == digits_end(cs, start as int),
            digits_end(cs, start as int) == digits_end(cs, j as int),
            e <= cs.len(),
            forall|k: int| start <= k < e ==> is_digit(#[trigger] cs[k]),
            digits@ == cs.subrange(start as int, j as int),
            !overflow ==> n == decimal_value(digits@),
            overflow ==> decimal_value(cs.subrange(start as int, e)) > i64::MAX,
        decreases cs.len() - j,
    {
        let c = chars[j];
        proof {
            lemma_digits_end(cs, j + 1);
        }
        let d: i64 = ((c as u32) - ('0' as u32)) as i64;
        let ghost before = digits@;
        digits.push(c);
        assert(digits@ =~= cs.subrange(start as int, j + 1));
        assert(digits@.drop_last() =~= before);
        if !overflow {
            match n.checked_mul(10) {
                Some(m) => match m.checked_add(d) {
                    Some(v) => {
                        n = v;
                    },
                    None => {
                        overflow = true;
                    },
                },
                None => {
                    overflow = true;
                },
            }
            if overflow {
                proof {
                    let all = cs.subrange(start as int, e);
                    assert(all.take(j + 1 - start) =~= digits@);
                    lemma_decimal_prefix(all, j + 1 - start);
                }
            }
        }
        j = j + 1;
    }
    assert(j == e) by {
        if j < e {
            assert(is_digit(cs[j as int]));
        }
    }
    if overflow {
        proof {
            reveal_strlit("invalid number: ");
        }
        let mut m = msg("invalid number: ");
        let ds = string_from_chars(digits.as_slice());
        m.append(ds.as_str());
        return Err(m);
    }
    proof {
        assert(digits@ =~= cs.subrange(start as int, e));
        lemma_decimal_prefix(digits@, digits@.len() as int);
        assert(digits@.take(digits@.len() as int) =~= digits@);
    }
    let v = if neg { -n } else { n };
    Ok((Token::Int(v), j))
}

/// Split SQL text into tokens, ending with [`Token::Eof`].
pub fn tokenize(sql: &str) -> (r: Result<Vec<Token>, String>)
    ensures
        match r {
            Ok(ts) => tokenize_spec(sql@) == Some(tokens_view(ts@)),
            Err(e) => tokenize_spec(sql@) is None && e@.len() > 0,
        },
{
    let chars = chars_of(sql);
    let ghost cs = chars@;
    let len = chars.len();
    let mut tokens: Vec<Token> = Vec::new();
    let mut i: usize = 0;
    assert(tokens_view(tokens@) =~= Seq::<TokenV>::empty());
    assert(prepend_all(Seq::<TokenV>::empty(), scan(cs, 0)) =~= scan(cs, 0)) by {
        match scan(cs, 0) {
            Some(s) => { assert(Seq::<TokenV>::empty() + s =~= s); },
            None => {},
        }
    }
    while i < len
        invariant
            cs == chars@,
            cs == sql@,
            len == cs.len(),
            i <= len,
            scan(cs, 0) == prepend_all(tokens_view(tokens@), scan(cs, i as int)),
        decreases len - i,
    {
        let c = chars[i];
        let two = i + 1 < len && chars[i + 1] == '=';
        let ghost tv = tokens_view(tokens@);
        if ws_char(c) {
            i = i + 1;
        } else {
            let (tok, next): (Token, usize) = if c == '(' {
                (Token::LParen, i + 1)
            } else if c == ')' {
                (Token::RParen, i + 1)
            } else if c == ',' {
                (Token::Comma, i + 1)
            } else if c == '*' {
                (Token::Star, i + 1)
            } else if c == '/' {
                (Token::Slash, i + 1)
            } else if c == '%' {
                (Token::Percent, i + 1)
            } else if c == '+' {
                (Token::Plus, i + 1)
            } else if c == ';' {
                (Token::Semicolon, i + 1)
            } else if c == '=' {
                (Token::Eq, i + 1)
            } else if c == '!' && two {
                (Token::NotEq, i + 2)
            } else if c == '<' && two {
                (Token::LtEq, i + 2)
            } else if c == '<' {
                (Token::Lt, i + 1)
            } else if c == '>' && two {
                (Token::GtEq, i + 2)
            } else if c == '>' {
                (Token::Gt, i + 1)
            } else if c == '\'' {
                match scan_string(&chars, i) {
                    Some(p) => p,
                    None => {
                        proof {
                            reveal_strlit("unterminated string literal");
                            assert(scan(cs, i as int) is None);
                        }
                        return Err(msg("unterminated string literal"));
                    },
                }
            } else if digit_char(c) || (c == '-' && i + 1 < len && digit_char(chars[i + 1])) {
                match scan_number(&chars, i, c == '-') {
                    Ok(p) => p,
                    Err(e) => {
                        assert(scan(cs, i as int) is None);
                        return Err(e);
                    },
                }
            } else if c == '-' {
                (Token::Minus, i + 1)
            } else if alpha_char(c) || c == '_' {
                scan_word(&chars, i)
            } else {
                let m = unexpected_char_message(c);
                assert(m@.len() > 0);
                assert(scan(cs, i as int) is None);
                return Err(m);
            };
            proof {
                assert(scan(cs, i as int) == push_front(tok@, scan(cs, next as int)));
                lemma_prepend_step(tv, tok@, scan(cs, next as int));
            }
            tokens.push(tok);
            assert(tokens_view(tokens@) =~= tv.push(tok@));
            i = next;
        }
    }
    assert(scan(cs, i as int) == Some(Seq::<TokenV>::empty()));
    let ghost tv = tokens_view(tokens@);
    assert(tv + Seq::<TokenV>::empty() =~= tv);
    tokens.push(Token::Eof);
    assert(tokens_view(tokens@) =~= tv.push(TokenV::Eof));
    Ok(tokens)
}

// ── AST ───────────────────────────────────────────────────────────────

/// A parsed statement.
#[derive(Debug, PartialEq, Eq)]
pub enum Statement {
    CreateTable { name: String, columns: Vec<Column>, if_not_exists: bool },
    CreateIndex { name: String, table: String, columns: Vec<String> },
    DropIndex { name: String },
    Insert { table: String, rows: Vec<Vec<Expr>> },
    Select(Select),
    ShowTables,
    Begin,
    Commit,
    Rollback,
}

/// A column definition of CREATE TABLE.
#[derive(Debug, Clone, PartialEq, Eq)]
pub struct Column {
    pub name: String,
    pub data_type: DataType,
    pub not_null: bool,
}

/// Column types.
#[derive(Debug, Clone, Copy, PartialEq, Eq, Structural)]
pub enum DataType {
    Integer,
    Text,
}

/// A SELECT statement.
#[derive(Debug, PartialEq, Eq)]
pub struct Select {
    pub projection: Vec<SelectItem>,
    pub from: TableRef,
    pub selection: Option<Expr>,
    pub group_by: Vec<Expr>,
    pub order_by: Vec<OrderBy>,
    pub limit: Option<usize>,
}

/// One ORDER BY key; `asc` is false for DESC.
#[derive(Debug, PartialEq, Eq)]
pub struct OrderBy {
    pub expr: Expr,
    pub asc: bool,
}

/// A projection item.
#[derive(Debug, PartialEq, Eq)]
pub enum SelectItem {
    Star,
    Expr(Expr),
}

/// A FROM clause: a table, or a chain of inner joins.
#[derive(Debug, PartialEq, Eq)]
pub enum TableRef {
    Table(String),
    Join { left: Box<TableRef>, right: String, on: Expr },
}

/// An expression.
#[derive(Debug, PartialEq, Eq)]
pub enum Expr {
    Identifier(String),
    Literal(SqlValue),
    Unary { op: UnaryOp, expr: Box<Expr> },
    BinaryOp { left: Box<Expr>, op: BinOp, right: Box<Expr> },
    Between { expr: Box<Expr>, lo: Box<Expr>, hi: Box<Expr> },
    InList { expr: Box<Expr>, list: Vec<Expr> },
    Function { name: String, args: Vec<Expr> },
}

/// Unary operators.
#[derive(Debug, Clone, Copy, PartialEq, Eq, Structural)]
pub enum UnaryOp {
    Not,
    Neg,
}

/// Binary operators.
#[derive(Debug, Clone, Copy, PartialEq, Eq, Structural)]
pub enum BinOp {
    Eq,
    NotEq,
    Lt,
    LtEq,
    Gt,
    GtEq,
    And,
    Or,
    Like,
    Add,
    Sub,
    Mul,
    Div,
    Mod,
}

/// Model of an [`Expr`].
pub enum ExprV {
    Identifier(Seq<char>),
    Literal(ValueV),
    Unary { op: UnaryOp, expr: Box<ExprV> },
    BinaryOp { left: Box<ExprV>, op: BinOp, right: Box<ExprV> },
    Between { expr: Box<ExprV>, lo: Box<ExprV>, hi: Box<ExprV> },
    InList { expr: Box<ExprV>, list: Seq<ExprV> },
    Function { name: Seq<char>, args: Seq<ExprV> },
}

/// Models of a sequence of expressions.
pub open spec fn exprs_view(s: Seq<Expr>) -> Seq<ExprV>
    decreases s, 1int,
{
    if s.len() == 0 {
        Seq::empty()
    } else {
        seq![expr_view(s[0])] + exprs_view(s.drop_first())
    }
}

/// Model of an expression.
pub open spec fn expr_view(e: Expr) -> ExprV
    decreases e, 0int,
{
    match e {
        Expr::Identifier(s) => ExprV::Identifier(s@),
        Expr::Literal(v) => ExprV::Literal(v.deep_view()),
        Expr::Unary { op, expr } => ExprV::Unary { op, expr: Box::new(expr_view(*expr)) },
        Expr::BinaryOp { left, op, right } => ExprV::BinaryOp {
            left: Box::new(expr_view(*left)),
            op,
            right: Box::new(expr_view(*right)),
        },
        Expr::Between { expr, lo, hi } => ExprV::Between {
            expr: Box::new(expr_view(*expr)),
            lo: Box::new(expr_view(*lo)),
            hi: Box::new(expr_view(*hi)),
        },
        Expr::InList { expr, list } => ExprV::InList { expr: Box::new(expr_view(*expr)), list: exprs_view(list@) },
        Expr::Function { name, args } => ExprV::Function { name: name@, args: exprs_view(args@) },
    }
}

impl View for Expr {
    type V = ExprV;

    open spec fn view(&self) -> ExprV {
        expr_view(*self)
    }
}

/// Model of a [`Column`].
pub struct ColumnV {
    pub name: Seq<char>,
    pub data_type: DataType,
    pub not_null: bool,
}

impl View for Column {
    type V = ColumnV;

    open spec fn view(&self) -> ColumnV {
        ColumnV { name: self.name@, data_type: self.data_type, not_null: self.not_null }
    }
}

/// Model of a [`SelectItem`].
pub enum SelectItemV {
    Star,
    Expr(ExprV),
}

impl View for SelectItem {
    type V = SelectItemV;

    open spec fn view(&self) -> SelectItemV {
        match self {
            SelectItem::Star => SelectItemV::Star,
            SelectItem::Expr(e) => SelectItemV::Expr(e@),
        }
    }
}

/// Model of a [`TableRef`].
pub enum TableRefV {
    Table(Seq<char>),
    Join { left: Box<TableRefV>, right: Seq<char>, on: ExprV },
}

/// Model of a FROM clause.
pub open spec fn table_ref_view(t: TableRef) -> TableRefV
    decreases t,
{
    match t {
        TableRef::Table(s) => TableRefV::Table(s@),
        TableRef::Join { left, right, on } => TableRefV::Join {
            left: Box::new(table_ref_view(*left)),
            right: right@,
            on: on@,
        },
    }
}

impl View for TableRef {
    type V = TableRefV;

    open spec fn view(&self) -> TableRefV {
        table_ref_view(*self)
    }
}

/// Model of an [`OrderBy`].
pub struct OrderByV {
    pub expr: ExprV,
    pub asc: bool,
}

impl View for OrderBy {
    type V = OrderByV;

    open spec fn view(&self) -> OrderByV {
        OrderByV { expr: self.expr@, asc: self.asc }
    }
}

/// Model of a [`Select`].
pub struct SelectV {
    pub projection: Seq<SelectItemV>,
    pub from: TableRefV,
    pub selection: Option<ExprV>,
    pub group_by: Seq<ExprV>,
    pub order_by: Seq<OrderByV>,
    pub limit: Option<usize>,
}

impl View for Select {
    type V = SelectV;

    open spec fn view(&self) -> SelectV {
        SelectV {
            projection: self.projection@.map_values(|i: SelectItem| i@),
            from: self.from@,
            selection: match self.selection {
                Some(e) => Some(e@),
                None => None,
            },
            group_by: self.group_by@.map_values(|e: Expr| e@),
            order_by: self.order_by@.map_values(|o: OrderBy| o@),
            limit: self.limit,
        }
    }
}

/// Model of a [`Statement`].
pub enum StatementV {
    CreateTable { name: Seq<char>, columns: Seq<ColumnV>, if_not_exists: bool },
    CreateIndex { name: Seq<char>, table: Seq<char>, columns: Seq<Seq<char>> },
    DropIndex { name: Seq<char> },
    Insert { table: Seq<char>, rows: Seq<Seq<ExprV>> },
    Select(SelectV),
    ShowTables,
    Begin,
    Commit,
    Rollback,
}

impl View for Statement {
    type V = StatementV;

    open spec fn view(&self) -> StatementV {
        match self {
            Statement::CreateTable { name, columns, if_not_exists } => StatementV::CreateTable {
                name: name@,
                columns: columns@.map_values(|c: Column| c@),
                if_not_exists: *if_not_exists,
            },
            Statement::CreateIndex { name, table, columns } => StatementV::CreateIndex {
                name: name@,
                table: table@,
                columns: columns@.map_values(|c: String| c@),
            },
            Statement::DropIndex { name } => StatementV::DropIndex { name: name@ },
            Statement::Insert { table, rows } => StatementV::Insert {
                table: table@,
                rows: rows@.map_values(|r: Vec<Expr>| r@.map_values(|e: Expr| e@)),
            },
            Statement::Select(s) => StatementV::Select(s@),
            Statement::ShowTables => StatementV::ShowTables,
            Statement::Begin => StatementV::Begin,
            Statement::Commit => StatementV::Commit,
            Statement::Rollback => StatementV::Rollback,
        }
    }
}

// ── grammar ───────────────────────────────────────────────────────────
//
// Each rule reads tokens from a position and gives the parsed value and the
// position after it, or `None` for a syntax error. Precedence, loosest
// first: OR, AND, NOT / comparison / LIKE / IN / BETWEEN, + -, * / %,
// unary minus, primary. A guard `advanced(t, p, q)` stands where a rule
// goes on from a position another rule returned: it always holds (every
// rule that succeeds consumes a token) and keeps the recursion well founded.

/// The token at `p` (the end marker past the end).
pub open spec fn peek(t: Seq<TokenV>, p: int) -> TokenV {
    if 0 <= p < t.len() {
        t[p]
    } else {
        TokenV::Eof
    }
}

/// The token is keyword `k`.
pub open spec fn is_kw(tok: TokenV, k: Seq<char>) -> bool {
    tok matches TokenV::Keyword(s) && s == k
}

/// `q` lies after `p`, within the tokens.
pub open spec fn advanced(t: Seq<TokenV>, p: int, q: int) -> bool {
    p < q <= t.len()
}

/// Keyword `k` at `p`.
pub open spec fn expect_kw(t: Seq<TokenV>, p: int, k: Seq<char>) -> Option<int> {
    if is_kw(peek(t, p), k) {
        Some(p + 1)
    } else {
        None
    }
}

/// An identifier at `p`.
pub open spec fn expect_ident(t: Seq<TokenV>, p: int) -> Option<(Seq<char>, int)> {
    match peek(t, p) {
        TokenV::Ident(s) => Some((s, p + 1)),
        _ => None,
    }
}

/// The aggregate function keywords.
pub open spec fn agg_kw(tok: TokenV) -> bool {
    is_kw(tok, "COUNT"@) || is_kw(tok, "SUM"@) || is_kw(tok, "AVG"@) || is_kw(tok, "MIN"@) || is_kw(tok, "MAX"@)
}

/// The keywords that start a postfix predicate.
pub open spec fn post_kw(tok: TokenV) -> bool {
    is_kw(tok, "LIKE"@) || is_kw(tok, "IN"@) || is_kw(tok, "BETWEEN"@)
}

/// A comparison operator token.
pub open spec fn compare_op(tok: TokenV) -> Option<BinOp> {
    match tok {
        TokenV::Eq => Some(BinOp::Eq),
        TokenV::NotEq => Some(BinOp::NotEq),
        TokenV::Lt => Some(BinOp::Lt),
        TokenV::LtEq => Some(BinOp::LtEq),
        TokenV::Gt => Some(BinOp::Gt),
        TokenV::GtEq => Some(BinOp::GtEq),
        _ => None,
    }
}

/// Each comparison token parses to its own operator: the operator's symbol,
/// as rendered in labels, scans back to exactly that token (so `<=` is
/// `LtEq`, never `Lt`).
pub proof fn lemma_compare_op_symbol(t: TokenV)
    requires
        compare_op(t) is Some,
    ensures
        scan(crate::engine::op_symbol(compare_op(t)->0), 0) == Some(seq![t]),
{
    reveal_strlit("=");
    reveal_strlit("!=");
    reveal_strlit("<");
    reveal_strlit("<=");
    reveal_strlit(">");
    reveal_strlit(">=");
    let cs = crate::engine::op_symbol(compare_op(t)->0);
    assert(seq![t] + Seq::<TokenV>::empty() =~= seq![t]);
    if cs.len() == 1 {
        assert(scan(cs, 1) == Some(Seq::<TokenV>::empty()));
    } else {
        assert(scan(cs, 2) == Some(Seq::<TokenV>::empty()));
    }
}

/// An additive operator token.
pub open spec fn add_op(tok: TokenV) -> Option<BinOp> {
    match tok {
        TokenV::Plus => Some(BinOp::Add),
        TokenV::Minus => Some(BinOp::Sub),
        _ => None,
    }
}

/// A multiplicative operator token.
pub open spec fn mul_op(tok: TokenV) -> Option<BinOp> {
    match tok {
        TokenV::Star => Some(BinOp::Mul),
        TokenV::Slash => Some(BinOp::Div),
        TokenV::Percent => Some(BinOp::Mod),
        _ => None,
    }
}

/// The binary expression `l op r`.
pub open spec fn bin(l: ExprV, op: BinOp, r: ExprV) -> ExprV {
    ExprV::BinaryOp { left: Box::new(l), op, right: Box::new(r) }
}

/// An expression.
pub open spec fn p_expr(t: Seq<TokenV>, p: int) -> Option<(ExprV, int)>
    decreases t.len() - p, 20int,
{
    p_or(t, p)
}

/// `and (OR and)*`.
pub open spec fn p_or(t: Seq<TokenV>, p: int) -> Option<(ExprV, int)>
    decreases t.len() - p, 19int,
{
    match p_and(t, p) {
        Some((l, q)) => if advanced(t, p, q) { or_tail(t, l, q) } else { None },
        None => None,
    }
}

/// The rest of an OR chain after `l`.
pub open spec fn or_tail(t: Seq<TokenV>, l: ExprV, p: int) -> Option<(ExprV, int)>
    decreases t.len() - p, 17int,
{
    if is_kw(peek(t, p), "OR"@) {
        match p_and(t, p + 1) {
            Some((r, q)) => if advanced(t, p, q) { or_tail(t, bin(l, BinOp::Or, r), q) } else { None },
            None => None,
        }
    } else {
        Some((l, p))
    }
}

/// `comparison (AND comparison)*`.
pub open spec fn p_and(t: Seq<TokenV>, p: int) -> Option<(ExprV, int)>
    decreases t.len() - p, 18int,
{
    match p_comparison(t, p) {
        Some((l, q)) => if advanced(t, p, q) { and_tail(t, l, q) } else { None },
        None => None,
    }
}

/// The rest of an AND chain after `l`.
pub open spec fn and_tail(t: Seq<TokenV>, l: ExprV, p: int) -> Option<(ExprV, int)>
    decreases t.len() - p, 15int,
{
    if is_kw(peek(t, p), "AND"@) {
        match p_comparison(t, p + 1) {
            Some((r, q)) => if advanced(t, p, q) { and_tail(t, bin(l, BinOp::And, r), q) } else { None },
            None => None,
        }
    } else {
        Some((l, p))
    }
}

/// `NOT comparison`, or an additive expression with an optional postfix
/// predicate and an optional comparison `op add`.
pub open spec fn p_comparison(t: Seq<TokenV>, p: int) -> Option<(ExprV, int)>
    decreases t.len() - p, 16int,
{
    if is_kw(peek(t, p), "NOT"@) {
        match p_comparison(t, p + 1) {
            Some((e, q)) => Some((ExprV::Unary { op: UnaryOp::Not, expr: Box::new(e) }, q)),
            None => None,
        }
    } else {
        match p_add(t, p) {
            Some((left, q)) => if !advanced(t, p, q) {
                None
            } else {
                match p_postfix(t, left, q) {
                    Some((e, q2)) => if advanced(t, p, q2) { p_compare_tail(t, e, q2) } else { None },
                    None => None,
                }
            },
            None => None,
        }
    }
}

/// After `left`, an optional postfix predicate: `[NOT] LIKE add`,
/// `[NOT] IN (list)` or `[NOT] BETWEEN add AND add` (NOT wraps the whole).
pub open spec fn p_postfix(t: Seq<TokenV>, left: ExprV, q: int) -> Option<(ExprV, int)>
    decreases t.len() - q, 14int,
{
    let negated = is_kw(peek(t, q), "NOT"@) && q + 1 < t.len() && post_kw(t[q + 1]);
    let plain = !is_kw(peek(t, q), "NOT"@) && post_kw(peek(t, q));
    if negated || plain {
        let kq = if negated { q + 1 } else { q };
        let k = peek(t, kq);
        let r = if is_kw(k, "LIKE"@) {
            p_like(t, left, kq + 1)
        } else if is_kw(k, "IN"@) {
            p_in(t, left, kq + 1)
        } else {
            p_between(t, left, kq + 1)
        };
        match r {
            Some((e, q2)) => Some((if negated { ExprV::Unary { op: UnaryOp::Not, expr: Box::new(e) } } else { e }, q2)),
            None => None,
        }
    } else {
        Some((left, q))
    }
}

/// After `left LIKE`: the pattern.
pub open spec fn p_like(t: Seq<TokenV>, left: ExprV, p: int) -> Option<(ExprV, int)>
    decreases t.len() - p, 13int,
{
    match p_add(t, p) {
        Some((right, q)) => Some((bin(left, BinOp::Like, right), q)),
        None => None,
    }
}

/// After `left IN`: `( list )`.
pub open spec fn p_in(t: Seq<TokenV>, left: ExprV, p: int) -> Option<(ExprV, int)>
    decreases t.len() - p, 13int,
{
    if peek(t, p) is LParen {
        match p_list(t, p + 1) {
            Some((list, q)) => if peek(t, q) is RParen {
                Some((ExprV::InList { expr: Box::new(left), list }, q + 1))
            } else {
                None
            },
            None => None,
        }
    } else {
        None
    }
}

/// After `left BETWEEN`: `lo AND hi`.
pub open spec fn p_between(t: Seq<TokenV>, left: ExprV, p: int) -> Option<(ExprV, int)>
    decreases t.len() - p, 13int,
{
    match p_add(t, p) {
        Some((lo, q)) => if advanced(t, p, q) && is_kw(peek(t, q), "AND"@) {
            match p_add(t, q + 1) {
                Some((hi, q2)) => Some((ExprV::Between { expr: Box::new(left), lo: Box::new(lo), hi: Box::new(hi) }, q2)),
                None => None,
            }
        } else {
            None
        },
        None => None,
    }
}

/// After `e`, an optional comparison `op add`.
pub open spec fn p_compare_tail(t: Seq<TokenV>, e: ExprV, q: int) -> Option<(ExprV, int)>
    decreases t.len() - q, 13int,
{
    match compare_op(peek(t, q)) {
        Some(op) => match p_add(t, q + 1) {
            Some((right, q3)) => Some((bin(e, op, right), q3)),
            None => None,
        },
        None => Some((e, q)),
    }
}

/// `mul ((+|-) mul)*`.
pub open spec fn p_add(t: Seq<TokenV>, p: int) -> Option<(ExprV, int)>
    decreases t.len() - p, 12int,
{
    match p_mul(t, p) {
        Some((l, q)) => if advanced(t, p, q) { add_tail(t, l, q) } else { None },
        None => None,
    }
}

/// The rest of an additive chain after `l`.
pub open spec fn add_tail(t: Seq<TokenV>, l: ExprV, p: int) -> Option<(ExprV, int)>
    decreases t.len() - p, 11int,
{
    match add_op(peek(t, p)) {
        Some(op) => match p_mul(t, p + 1) {
            Some((r, q)) => if advanced(t, p, q) { add_tail(t, bin(l, op, r), q) } else { None },
            None => None,
        },
        None => Some((l, p)),
    }
}

/// `unary ((*|/|%) unary)*`.
pub open spec fn p_mul(t: Seq<TokenV>, p: int) -> Option<(ExprV, int)>
    decreases t.len() - p, 10int,
{
    match p_unary(t, p) {
        Some((l, q)) => if advanced(t, p, q) { mul_tail(t, l, q) } else { None },
        None => None,
    }
}

/// The rest of a multiplicative chain after `l`.
pub open spec fn mul_tail(t: Seq<TokenV>, l: ExprV, p: int) -> Option<(ExprV, int)>
    decreases t.len() - p, 9int,
{
    match mul_op(peek(t, p)) {
        Some(op) => match p_unary(t, p + 1) {
            Some((r, q)) => if advanced(t, p, q) { mul_tail(t, bin(l, op, r), q) } else { None },
            None => None,
        },
        None => Some((l, p)),
    }
}

/// `- unary` (folded into an integer literal, an error for the smallest
/// integer) or a primary.
pub open spec fn p_unary(t: Seq<TokenV>, p: int) -> Option<(ExprV, int)>
    decreases t.len() - p, 8int,
{
    if peek(t, p) is Minus {
        match p_unary(t, p + 1) {
            Some((e, q)) => match e {
                ExprV::Literal(ValueV::Int(n)) => if n == i64::MIN {
                    None
                } else {
                    Some((ExprV::Literal(ValueV::Int((-n) as i64)), q))
                },
                _ => Some((ExprV::Unary { op: UnaryOp::Neg, expr: Box::new(e) }, q)),
            },
            None => None,
        }
    } else {
        p_primary(t, p)
    }
}

/// `AGG ( * | expr )` at `p` (the keyword's position): the call and the
/// position after it.
pub open spec fn p_agg_call(t: Seq<TokenV>, p: int) -> Option<(ExprV, int)>
    decreases t.len() - p, 6int,
{
    match peek(t, p) {
        TokenV::Keyword(k) => if peek(t, p + 1) is LParen {
            let arg = if peek(t, p + 2) is Star {
                Some((ExprV::Identifier("*"@), p + 3))
            } else {
                p_expr(t, p + 2)
            };
            match arg {
                Some((a, q)) => if peek(t, q) is RParen {
                    Some((ExprV::Function { name: k, args: seq![a] }, q + 1))
                } else {
                    None
                },
                None => None,
            }
        } else {
            None
        },
        _ => None,
    }
}

/// Identifier, function call `name(args)`, aggregate call, integer,
/// string, NULL, or a parenthesized expression.
pub open spec fn p_primary(t: Seq<TokenV>, p: int) -> Option<(ExprV, int)>
    decreases t.len() - p, 7int,
{
    match peek(t, p) {
        TokenV::Ident(name) => p_after_ident(t, name, p + 1),
        TokenV::Int(n) => Some((ExprV::Literal(ValueV::Int(n)), p + 1)),
        TokenV::Str(s) => Some((ExprV::Literal(ValueV::Text(s)), p + 1)),
        TokenV::LParen => p_paren(t, p + 1),
        TokenV::Keyword(k) => if agg_kw(peek(t, p)) {
            p_agg_call(t, p)
        } else if k == "NULL"@ {
            Some((ExprV::Literal(ValueV::Null), p + 1))
        } else {
            None
        },
        _ => None,
    }
}

/// After identifier `name`: a call `(args)` or the identifier itself.
pub open spec fn p_after_ident(t: Seq<TokenV>, name: Seq<char>, p: int) -> Option<(ExprV, int)>
    decreases t.len() - p, 5int,
{
    if peek(t, p) is LParen {
        if peek(t, p + 1) is RParen {
            Some((ExprV::Function { name, args: Seq::empty() }, p + 2))
        } else {
            match p_list(t, p + 1) {
                Some((args, q)) => if peek(t, q) is RParen {
                    Some((ExprV::Function { name, args }, q + 1))
                } else {
                    None
                },
                None => None,
            }
        }
    } else {
        Some((ExprV::Identifier(name), p))
    }
}

/// After `(`: an expression and `)`.
pub open spec fn p_paren(t: Seq<TokenV>, p: int) -> Option<(ExprV, int)>
    decreases t.len() - p, 23int,
{
    match p_expr(t, p) {
        Some((e, q)) => if peek(t, q) is RParen { Some((e, q + 1)) } else { None },
        None => None,
    }
}

/// `expr (, expr)*`.
pub open spec fn p_list(t: Seq<TokenV>, p: int) -> Option<(Seq<ExprV>, int)>
    decreases t.len() - p, 21int,
{
    match p_expr(t, p) {
        Some((e, q)) => if advanced(t, p, q) { list_tail(t, seq![e], q) } else { None },
        None => None,
    }
}

/// The rest of an expression list after `acc`.
pub open spec fn list_tail(t: Seq<TokenV>, acc: Seq<ExprV>, p: int) -> Option<(Seq<ExprV>, int)>
    decreases t.len() - p, 22int,
{
    if peek(t, p) is Comma {
        match p_expr(t, p + 1) {
            Some((e, q)) => if advanced(t, p, q) { list_tail(t, acc.push(e), q) } else { None },
            None => None,
        }
    } else {
        Some((acc, p))
    }
}

/// `ident (, ident)*` from `p`, after the names `acc`.
pub open spec fn ident_tail(t: Seq<TokenV>, acc: Seq<Seq<char>>, p: int) -> Option<(Seq<Seq<char>>, int)>
    decreases t.len() - p,
{
    if peek(t, p) is Comma {
        match peek(t, p + 1) {
            TokenV::Ident(s) => ident_tail(t, acc.push(s), p + 2),
            _ => None,
        }
    } else {
        Some((acc, p))
    }
}

/// `ident (, ident)*`.
pub open spec fn p_idents(t: Seq<TokenV>, p: int) -> Option<(Seq<Seq<char>>, int)> {
    match peek(t, p) {
        TokenV::Ident(s) => ident_tail(t, seq![s], p + 1),
        _ => None,
    }
}

/// The data type keyword at `p`.
pub open spec fn p_data_type(t: Seq<TokenV>, p: int) -> Option<(DataType, int)> {
    if is_kw(peek(t, p), "INTEGER"@) {
        Some((DataType::Integer, p + 1))
    } else if is_kw(peek(t, p), "TEXT"@) {
        Some((DataType::Text, p + 1))
    } else {
        None
    }
}

/// `name type [NOT NULL]`.
pub open spec fn p_column(t: Seq<TokenV>, p: int) -> Option<(ColumnV, int)> {
    match expect_ident(t, p) {
        Some((name, q)) => match p_data_type(t, q) {
            Some((dt, q2)) => if is_kw(peek(t, q2), "NOT"@) {
                if is_kw(peek(t, q2 + 1), "NULL"@) {
                    Some((ColumnV { name, data_type: dt, not_null: true }, q2 + 2))
                } else {
                    None
                }
            } else {
                Some((ColumnV { name, data_type: dt, not_null: false }, q2))
            },
            None => None,
        },
        None => None,
    }
}

/// The rest of a column list after `acc`.
pub open spec fn column_tail(t: Seq<TokenV>, acc: Seq<ColumnV>, p: int) -> Option<(Seq<ColumnV>, int)>
    decreases t.len() - p,
{
    if peek(t, p) is Comma {
        match p_column(t, p + 1) {
            Some((c, q)) => if advanced(t, p, q) { column_tail(t, acc.push(c), q) } else { None },
            None => None,
        }
    } else {
        Some((acc, p))
    }
}

/// `( column (, column)* )` after the opening parenthesis at `p`.
pub open spec fn p_columns(t: Seq<TokenV>, p: int) -> Option<(Seq<ColumnV>, int)> {
    match p_column(t, p) {
        Some((c, q)) => if advanced(t, p, q) { column_tail(t, seq![c], q) } else { None },
        None => None,
    }
}

/// `CREATE TABLE [IF NOT EXISTS] name ( columns )`.
pub open spec fn p_create_table(t: Seq<TokenV>, p: int) -> Option<(StatementV, int)> {
    if is_kw(peek(t, p), "CREATE"@) && is_kw(peek(t, p + 1), "TABLE"@) {
        let ine = is_kw(peek(t, p + 2), "IF"@);
        let q = if ine { p + 5 } else { p + 2 };
        if ine && !(is_kw(peek(t, p + 3), "NOT"@) && is_kw(peek(t, p + 4), "EXISTS"@)) {
            None
        } else {
            match expect_ident(t, q) {
                Some((name, q1)) => if peek(t, q1) is LParen {
                    match p_columns(t, q1 + 1) {
                        Some((columns, q2)) => if peek(t, q2) is RParen {
                            Some((StatementV::CreateTable { name, columns, if_not_exists: ine }, q2 + 1))
                        } else {
                            None
                        },
                        None => None,
                    }
                } else {
                    None
                },
                None => None,
            }
        }
    } else {
        None
    }
}

/// `CREATE INDEX name ON table ( idents )`.
pub open spec fn p_create_index(t: Seq<TokenV>, p: int) -> Option<(StatementV, int)> {
    if is_kw(peek(t, p), "CREATE"@) && is_kw(peek(t, p + 1), "INDEX"@) {
        match (peek(t, p + 2), peek(t, p + 4)) {
            (TokenV::Ident(name), TokenV::Ident(table)) => if is_kw(peek(t, p + 3), "ON"@) && peek(t, p + 5) is LParen {
                match p_idents(t, p + 6) {
                    Some((columns, q)) => if peek(t, q) is RParen {
                        Some((StatementV::CreateIndex { name, table, columns }, q + 1))
                    } else {
                        None
                    },
                    None => None,
                }
            } else {
                None
            },
            _ => None,
        }
    } else {
        None
    }
}

/// `( expr (, expr)* )`.
pub open spec fn p_row(t: Seq<TokenV>, p: int) -> Option<(Seq<ExprV>, int)> {
    if peek(t, p) is LParen {
        match p_list(t, p + 1) {
            Some((row, q)) => if peek(t, q) is RParen { Some((row, q + 1)) } else { None },
            None => None,
        }
    } else {
        None
    }
}

/// The rest of a VALUES list after `acc`.
pub open spec fn row_tail(t: Seq<TokenV>, acc: Seq<Seq<ExprV>>, p: int) -> Option<(Seq<Seq<ExprV>>, int)>
    decreases t.len() - p,
{
    if peek(t, p) is Comma {
        match p_row(t, p + 1) {
            Some((r, q)) => if advanced(t, p, q) { row_tail(t, acc.push(r), q) } else { None },
            None => None,
        }
    } else {
        Some((acc, p))
    }
}

/// `INSERT INTO table VALUES row (, row)*`.
pub open spec fn p_insert(t: Seq<TokenV>, p: int) -> Option<(StatementV, int)> {
    if is_kw(peek(t, p), "INSERT"@) && is_kw(peek(t, p + 1), "INTO"@) {
        match peek(t, p + 2) {
            TokenV::Ident(table) => if is_kw(peek(t, p + 3), "VALUES"@) {
                match p_row(t, p + 4) {
                    Some((r, q)) => if advanced(t, p, q) {
                        match row_tail(t, seq![r], q) {
                            Some((rows, q2)) => Some((StatementV::Insert { table, rows }, q2)),
                            None => None,
                        }
                    } else {
                        None
                    },
                    None => None,
                }
            } else {
                None
            },
            _ => None,
        }
    } else {
        None
    }
}

/// A projection item: an aggregate call, or an expression.
pub open spec fn p_select_item(t: Seq<TokenV>, p: int) -> Option<(SelectItemV, int)> {
    let r = if agg_kw(peek(t, p)) { p_agg_call(t, p) } else { p_expr(t, p) };
    match r {
        Some((e, q)) => Some((SelectItemV::Expr(e), q)),
        None => None,
    }
}

/// The rest of a projection list after `acc`.
pub open spec fn item_tail(t: Seq<TokenV>, acc: Seq<SelectItemV>, p: int) -> Option<(Seq<SelectItemV>, int)>
    decreases t.len() - p,
{
    if peek(t, p) is Comma {
        match p_select_item(t, p + 1) {
            Some((i, q)) => if advanced(t, p, q) { item_tail(t, acc.push(i), q) } else { None },
            None => None,
        }
    } else {
        Some((acc, p))
    }
}

/// `*`, or `item (, item)*`.
pub open spec fn p_select_list(t: Seq<TokenV>, p: int) -> Option<(Seq<SelectItemV>, int)> {
    if peek(t, p) is Star {
        Some((seq![SelectItemV::Star], p + 1))
    } else {
        match p_select_item(t, p) {
            Some((i, q)) => if advanced(t, p, q) { item_tail(t, seq![i], q) } else { None },
            None => None,
        }
    }
}

/// The joins after `left`: `[INNER] JOIN table ON expr`, repeated.
pub open spec fn join_tail(t: Seq<TokenV>, left: TableRefV, p: int) -> Option<(TableRefV, int)>
    decreases t.len() - p,
{
    let inner = is_kw(peek(t, p), "INNER"@);
    if inner || is_kw(peek(t, p), "JOIN"@) {
        let j = if inner { p + 1 } else { p };
        if is_kw(peek(t, j), "JOIN"@) && is_kw(peek(t, j + 2), "ON"@) {
            match peek(t, j + 1) {
                TokenV::Ident(right) => match p_expr(t, j + 3) {
                    Some((on, q)) => if advanced(t, p, q) {
                        join_tail(t, TableRefV::Join { left: Box::new(left), right, on }, q)
                    } else {
                        None
                    },
                    None => None,
                },
                _ => None,
            }
        } else {
            None
        }
    } else {
        Some((left, p))
    }
}

/// `FROM table joins`.
pub open spec fn p_from(t: Seq<TokenV>, p: int) -> Option<(TableRefV, int)> {
    if is_kw(peek(t, p), "FROM"@) {
        match peek(t, p + 1) {
            TokenV::Ident(name) => join_tail(t, TableRefV::Table(name), p + 2),
            _ => None,
        }
    } else {
        None
    }
}

/// `expr [ASC | DESC]`.
pub open spec fn p_order_item(t: Seq<TokenV>, p: int) -> Option<(OrderByV, int)> {
    match p_expr(t, p) {
        Some((e, q)) => if is_kw(peek(t, q), "ASC"@) {
            Some((OrderByV { expr: e, asc: true }, q + 1))
        } else if is_kw(peek(t, q), "DESC"@) {
            Some((OrderByV { expr: e, asc: false }, q + 1))
        } else {
            Some((OrderByV { expr: e, asc: true }, q))
        },
        None => None,
    }
}

/// The rest of an ORDER BY list after `acc`.
pub open spec fn order_tail(t: Seq<TokenV>, acc: Seq<OrderByV>, p: int) -> Option<(Seq<OrderByV>, int)>
    decreases t.len() - p,
{
    if peek(t, p) is Comma {
        match p_order_item(t, p + 1) {
            Some((o, q)) => if advanced(t, p, q) { order_tail(t, acc.push(o), q) } else { None },
            None => None,
        }
    } else {
        Some((acc, p))
    }
}

/// `[WHERE expr]`.
pub open spec fn p_where(t: Seq<TokenV>, p: int) -> Option<(Option<ExprV>, int)> {
    if is_kw(peek(t, p), "WHERE"@) {
        match p_expr(t, p + 1) {
            Some((e, q)) => Some((Some(e), q)),
            None => None,
        }
    } else {
        Some((None, p))
    }
}

/// `[GROUP BY list]`.
pub open spec fn p_group_by(t: Seq<TokenV>, p: int) -> Option<(Seq<ExprV>, int)> {
    if is_kw(peek(t, p), "GROUP"@) {
        if is_kw(peek(t, p + 1), "BY"@) { p_list(t, p + 2) } else { None }
    } else {
        Some((Seq::empty(), p))
    }
}

/// `[ORDER BY item (, item)*]`.
pub open spec fn p_order_by(t: Seq<TokenV>, p: int) -> Option<(Seq<OrderByV>, int)> {
    if is_kw(peek(t, p), "ORDER"@) {
        if is_kw(peek(t, p + 1), "BY"@) {
            match p_order_item(t, p + 2) {
                Some((first, q)) => if advanced(t, p, q) { order_tail(t, seq![first], q) } else { None },
                None => None,
            }
        } else {
            None
        }
    } else {
        Some((Seq::empty(), p))
    }
}

/// `[LIMIT n]`, n a non-negative integer.
pub open spec fn p_limit(t: Seq<TokenV>, p: int) -> Option<(Option<usize>, int)> {
    if is_kw(peek(t, p), "LIMIT"@) {
        match peek(t, p + 1) {
            TokenV::Int(n) => if n >= 0 { Some((Some(n as usize), p + 2)) } else { None },
            _ => None,
        }
    } else {
        Some((None, p))
    }
}

/// `SELECT list FROM .. [WHERE expr] [GROUP BY list] [ORDER BY items]
/// [LIMIT n]`.
pub open spec fn p_select(t: Seq<TokenV>, p: int) -> Option<(SelectV, int)> {
    if !is_kw(peek(t, p), "SELECT"@) {
        None
    } else {
        match p_select_list(t, p + 1) {
            Some((projection, q1)) => match p_from(t, q1) {
                Some((from, q2)) => match p_where(t, q2) {
                    Some((selection, q3)) => match p_group_by(t, q3) {
                        Some((group_by, q4)) => match p_order_by(t, q4) {
                            Some((order_by, q5)) => match p_limit(t, q5) {
                                Some((limit, q6)) => Some((
                                    SelectV { projection, from, selection, group_by, order_by, limit },
                                    q6,
                                )),
                                None => None,
                            },
                            None => None,
                        },
                        None => None,
                    },
                    None => None,
                },
                None => None,
            },
            None => None,
        }
    }
}

/// `KW [TRANSACTION | WORK]`.
pub open spec fn p_txn(t: Seq<TokenV>, p: int, k: Seq<char>, st: StatementV) -> Option<(StatementV, int)> {
    if is_kw(peek(t, p), k) {
        if is_kw(peek(t, p + 1), "TRANSACTION"@) || is_kw(peek(t, p + 1), "WORK"@) {
            Some((st, p + 2))
        } else {
            Some((st, p + 1))
        }
    } else {
        None
    }
}

/// One statement, chosen by its first keyword.
pub open spec fn p_statement(t: Seq<TokenV>, p: int) -> Option<(StatementV, int)> {
    let k = peek(t, p);
    if is_kw(k, "CREATE"@) {
        if p + 1 < t.len() && is_kw(t[p + 1], "INDEX"@) { p_create_index(t, p) } else { p_create_table(t, p) }
    } else if is_kw(k, "DROP"@) {
        if is_kw(peek(t, p + 1), "INDEX"@) {
            match peek(t, p + 2) {
                TokenV::Ident(name) => Some((StatementV::DropIndex { name }, p + 3)),
                _ => None,
            }
        } else {
            None
        }
    } else if is_kw(k, "INSERT"@) {
        p_insert(t, p)
    } else if is_kw(k, "SELECT"@) {
        match p_select(t, p) {
            Some((s, q)) => Some((StatementV::Select(s), q)),
            None => None,
        }
    } else if is_kw(k, "SHOW"@) {
        if is_kw(peek(t, p + 1), "TABLES"@) { Some((StatementV::ShowTables, p + 2)) } else { None }
    } else if is_kw(k, "BEGIN"@) {
        p_txn(t, p, "BEGIN"@, StatementV::Begin)
    } else if is_kw(k, "COMMIT"@) {
        p_txn(t, p, "COMMIT"@, StatementV::Commit)
    } else if is_kw(k, "ROLLBACK"@) {
        p_txn(t, p, "ROLLBACK"@, StatementV::Rollback)
    } else {
        None
    }
}

/// Parsing at the end marker (or past the tokens).
pub open spec fn at_end(t: Seq<TokenV>, p: int) -> bool {
    p >= t.len() || t[p] is Eof
}

/// Statements from `p` after `acc`, each optionally followed by `;`.
pub open spec fn p_statements(t: Seq<TokenV>, acc: Seq<StatementV>, p: int) -> Option<Seq<StatementV>>
    decreases t.len() - p,
{
    if p < 0 || at_end(t, p) {
        Some(acc)
    } else {
        match p_statement(t, p) {
            Some((st, q)) => if advanced(t, p, q) {
                let q2 = if peek(t, q) is Semicolon { q + 1 } else { q };
                if q2 <= t.len() { p_statements(t, acc.push(st), q2) } else { None }
            } else {
                None
            },
            None => None,
        }
    }
}

/// The statements of a SQL text: `None` on a lexical or syntax error or
/// when there is no statement.
pub open spec fn parse_spec(sql: Seq<char>) -> Option<Seq<StatementV>> {
    match tokenize_spec(sql) {
        Some(t) => match p_statements(t, Seq::empty(), 0) {
            Some(stmts) => if stmts.len() == 0 { None } else { Some(stmts) },
            None => None,
        },
        None => None,
    }
}

// ── parser ────────────────────────────────────────────────────────────

/// `a` and `b` spell the same text.
fn str_eq(a: &str, b: &str) -> (r: bool)
    ensures
        r == (a@ == b@),
{
    let n = a.unicode_len();
    if n != b.unicode_len() {
        return false;
    }
    let mut i: usize = 0;
    while i < n
        invariant
            n == a@.len(),
            n == b@.len(),
            i <= n,
            forall|k: int| 0 <= k < i ==> a@[k] == b@[k],
        decreases n - i,
    {
        if a.get_char(i) != b.get_char(i) {
            return false;
        }
        i = i + 1;
    }
    assert(a@ =~= b@);
    true
}

/// The `Debug` rendering of a token, as `format!("{:?}", t)` gives it; it
/// only goes into error messages, and nothing is claimed of it.
#[verifier::external_body]
fn token_debug(t: &Token) -> (r: String)
{
    format!("{t:?}")
}

/// Model of parsed expressions.
pub open spec fn exprs_of(v: Seq<Expr>) -> Seq<ExprV> {
    v.map_values(|e: Expr| e@)
}

/// A parse result matches a grammar outcome: the value's model and the
/// end position on success, an error otherwise.
pub open spec fn expr_outcome(s: Option<(ExprV, int)>, r: Result<Expr, String>, end: int) -> bool {
    match s {
        Some((v, q)) => (r matches Ok(e) && e@ == v) && end == q,
        None => r is Err,
    }
}

/// As [`expr_outcome`], for expression lists.
pub open spec fn list_outcome(s: Option<(Seq<ExprV>, int)>, r: Result<Vec<Expr>, String>, end: int) -> bool {
    match s {
        Some((v, q)) => (r matches Ok(e) && exprs_of(e@) == v) && end == q,
        None => r is Err,
    }
}

/// Recursive-descent parser over a token list.
pub struct Parser {
    tokens: Vec<Token>,
    pos: usize,
}

impl Parser {
    /// Models of the tokens.
    spec fn toks(&self) -> Seq<TokenV> {
        tokens_view(self.tokens@)
    }

    /// The tokens end with the end marker and the position is on a token.
    spec fn wf(&self) -> bool {
        &&& self.tokens@.len() > 0
        &&& self.tokens@.last()@ is Eof
        &&& self.pos < self.tokens@.len()
    }

    /// The same tokens, a well-formed state.
    spec fn kept(&self, before: &Parser) -> bool {
        self.tokens == before.tokens && self.wf() && before.pos <= self.pos
    }

    fn peek_kw(&self, k: &str) -> (r: bool)
        requires
            self.wf(),
        ensures
            r == is_kw(peek(self.toks(), self.pos as int), k@),
    {
        match &self.tokens[self.pos] {
            Token::Keyword(s) => str_eq(s, k),
            _ => false,
        }
    }

    /// Keyword `k` one past the position.
    fn peek_next_kw(&self, k: &str) -> (r: bool)
        requires
            self.wf(),
        ensures
            r == is_kw(peek(self.toks(), self.pos + 1), k@),
    {
        let n = self.tokens.len();
        if self.pos < n - 1 {
            match &self.tokens[self.pos + 1] {
                Token::Keyword(s) => str_eq(s, k),
                _ => false,
            }
        } else {
            false
        }
    }

    /// The token at the position.
    fn cur(&self) -> (r: &Token)
        requires
            self.wf(),
        ensures
            r@ == peek(self.toks(), self.pos as int),
    {
        &self.tokens[self.pos]
    }

    /// Step over the current token, which is not the end marker.
    fn bump(&mut self)
        requires
            old(self).wf(),
            !(peek(old(self).toks(), old(self).pos as int) is Eof),
        ensures
            final(self).kept(old(self)),
            final(self).pos == old(self).pos + 1,
    {
        assert(self.tokens@[self.pos as int]@ == peek(self.toks(), self.pos as int));
        let _n = self.tokens.len();
        self.pos = self.pos + 1;
    }

    /// A message naming what was expected and the token found instead.
    fn err_got(&self, expected: &str) -> (m: String)
        requires
            self.wf(),
        ensures
            m@.len() > 0,
    {
        proof {
            reveal_strlit(", got ");
        }
        let mut m = String::from_str(expected);
        m.append(", got ");
        let d = token_debug(&self.tokens[self.pos]);
        m.append(d.as_str());
        m
    }

    fn expect_keyword(&mut self, k: &str) -> (r: Result<(), String>)
        requires
            old(self).wf(),
        ensures
            final(self).kept(old(self)),
            match expect_kw(old(self).toks(), old(self).pos as int, k@) {
                Some(q) => r is Ok && final(self).pos == q,
                None => r is Err,
            },
            r matches Err(m) ==> m@.len() > 0,
    {
        if self.peek_kw(k) {
            self.bump();
            Ok(())
        } else {
            let mut what = String::from_str("expected '");
            what.append(k);
            what.append("'");
            Err(self.err_got(what.as_str()))
        }
    }

    fn expect_ident(&mut self) -> (r: Result<String, String>)
        requires
            old(self).wf(),
        ensures
            final(self).kept(old(self)),
            match expect_ident(old(self).toks(), old(self).pos as int) {
                Some((s, q)) => (r matches Ok(n) && n@ == s) && final(self).pos == q,
                None => r is Err,
            },
            r matches Err(m) ==> m@.len() > 0,
    {
        match self.cur() {
            Token::Ident(s) => {
                let name = s.clone();
                self.bump();
                Ok(name)
            },
            _ => Err(self.err_got("expected identifier")),
        }
    }

    fn expect_paren_open(&mut self) -> (r: Result<(), String>)
        requires
            old(self).wf(),
        ensures
            final(self).kept(old(self)),
            peek(old(self).toks(), old(self).pos as int) is LParen ==> r is Ok && final(self).pos == old(self).pos + 1,
            !(peek(old(self).toks(), old(self).pos as int) is LParen) ==> r is Err,
            r matches Err(m) ==> m@.len() > 0,
    {
        match self.cur() {
            Token::LParen => {
                self.bump();
                Ok(())
            },
            _ => Err(self.err_got("expected '('")),
        }
    }

    fn expect_paren_close(&mut self) -> (r: Result<(), String>)
        requires
            old(self).wf(),
        ensures
            final(self).kept(old(self)),
            peek(old(self).toks(), old(self).pos as int) is RParen ==> r is Ok && final(self).pos == old(self).pos + 1,
            !(peek(old(self).toks(), old(self).pos as int) is RParen) ==> r is Err,
            r matches Err(m) ==> m@.len() > 0,
    {
        match self.cur() {
            Token::RParen => {
                self.bump();
                Ok(())
            },
            _ => Err(self.err_got("expected ')'")),
        }
    }
}

/// The two models of an expression list agree.
pub proof fn lemma_exprs_view(s: Seq<Expr>)
    ensures
        exprs_view(s) == exprs_of(s),
    decreases s.len(),
{
    if s.len() > 0 {
        lemma_exprs_view(s.drop_first());
        assert(exprs_of(s) =~= seq![expr_view(s[0])] + exprs_of(s.drop_first()));
    } else {
        assert(exprs_of(s) =~= Seq::<ExprV>::empty());
    }
}

impl Parser {
    fn cur_is_agg(&self) -> (r: bool)
        requires
            self.wf(),
        ensures
            r == agg_kw(peek(self.toks(), self.pos as int)),
    {
        self.peek_kw("COUNT") || self.peek_kw("SUM") || self.peek_kw("AVG") || self.peek_kw("MIN") || self.peek_kw("MAX")
    }

    fn cur_is_post(&self) -> (r: bool)
        requires
            self.wf(),
        ensures
            r == post_kw(peek(self.toks(), self.pos as int)),
    {
        self.peek_kw("LIKE") || self.peek_kw("IN") || self.peek_kw("BETWEEN")
    }

    fn next_is_post(&self) -> (r: bool)
        requires
            self.wf(),
        ensures
            r == post_kw(peek(self.toks(), self.pos + 1)),
    {
        self.peek_next_kw("LIKE") || self.peek_next_kw("IN") || self.peek_next_kw("BETWEEN")
    }

    fn cur_compare_op(&self) -> (r: Option<BinOp>)
        requires
            self.wf(),
        ensures
            r == compare_op(peek(self.toks(), self.pos as int)),
    {
        match self.cur() {
            Token::Eq => Some(BinOp::Eq),
            Token::NotEq => Some(BinOp::NotEq),
            Token::Lt => Some(BinOp::Lt),
            Token::LtEq => Some(BinOp::LtEq),
            Token::Gt => Some(BinOp::Gt),
            Token::GtEq => Some(BinOp::GtEq),
            _ => None,
        }
    }

    fn cur_add_op(&self) -> (r: Option<BinOp>)
        requires
            self.wf(),
        ensures
            r == add_op(peek(self.toks(), self.pos as int)),
    {
        match self.cur() {
            Token::Plus => Some(BinOp::Add),
            Token::Minus => Some(BinOp::Sub),
            _ => None,
        }
    }

    fn cur_mul_op(&self) -> (r: Option<BinOp>)
        requires
            self.wf(),
        ensures
            r == mul_op(peek(self.toks(), self.pos as int)),
    {
        match self.cur() {
            Token::Star => Some(BinOp::Mul),
            Token::Slash => Some(BinOp::Div),
            Token::Percent => Some(BinOp::Mod),
            _ => None,
        }
    }

    fn parse_expr(&mut self) -> (r: Result<Expr, String>)
        requires
            old(self).wf(),
        ensures
            final(self).kept(old(self)),
            expr_outcome(p_expr(old(self).toks(), old(self).pos as int), r, final(self).pos as int),
            r is Ok ==> old(self).pos < final(self).pos,
            r matches Err(m) ==> m@.len() > 0,
        decreases old(self).tokens@.len() - old(self).pos, 20int,
    {
        self.parse_or()
    }

    fn parse_or(&mut self) -> (r: Result<Expr, String>)
        requires
            old(self).wf(),
        ensures
            final(self).kept(old(self)),
            expr_outcome(p_or(old(self).toks(), old(self).pos as int), r, final(self).pos as int),
            r is Ok ==> old(self).pos < final(self).pos,
            r matches Err(m) ==> m@.len() > 0,
        decreases old(self).tokens@.len() - old(self).pos, 19int,
    {
        let ghost t = self.toks();
        let ghost p0 = self.pos as int;
        let mut left = match self.parse_and_expr() {
            Ok(e) => e,
            Err(m) => {
                return Err(m);
            },
        };
        loop
            invariant
                self.kept(old(self)),
                t == self.toks(),
                p0 == old(self).pos,
                p0 < self.pos,
                p_or(t, p0) == or_tail(t, left@, self.pos as int),
            decreases self.tokens@.len() - self.pos,
        {
            if !self.peek_kw("OR") {
                return Ok(left);
            }
            self.bump();
            let right = match self.parse_and_expr() {
                Ok(e) => e,
                Err(m) => {
                    return Err(m);
                },
            };
            left = Expr::BinaryOp { left: Box::new(left), op: BinOp::Or, right: Box::new(right) };
        }
    }

    fn parse_and_expr(&mut self) -> (r: Result<Expr, String>)
        requires
            old(self).wf(),
        ensures
            final(self).kept(old(self)),
            expr_outcome(p_and(old(self).toks(), old(self).pos as int), r, final(self).pos as int),
            r is Ok ==> old(self).pos < final(self).pos,
            r matches Err(m) ==> m@.len() > 0,
        decreases old(self).tokens@.len() - old(self).pos, 18int,
    {
        let ghost t = self.toks();
        let ghost p0 = self.pos as int;
        let mut left = match self.parse_comparison() {
            Ok(e) => e,
            Err(m) => {
                return Err(m);
            },
        };
        loop
            invariant
                self.kept(old(self)),
                t == self.toks(),
                p0 == old(self).pos,
                p0 < self.pos,
                p_and(t, p0) == and_tail(t, left@, self.pos as int),
            decreases self.tokens@.len() - self.pos,
        {
            if !self.peek_kw("AND") {
                return Ok(left);
            }
            self.bump();
            let right = match self.parse_comparison() {
                Ok(e) => e,
                Err(m) => {
                    return Err(m);
                },
            };
            left = Expr::BinaryOp { left: Box::new(left), op: BinOp::And, right: Box::new(right) };
        }
    }

    fn parse_additive(&mut self) -> (r: Result<Expr, String>)
        requires
            old(self).wf(),
        ensures
            final(self).kept(old(self)),
            expr_outcome(p_add(old(self).toks(), old(self).pos as int), r, final(self).pos as int),
            r is Ok ==> old(self).pos < final(self).pos,
            r matches Err(m) ==> m@.len() > 0,
        decreases old(self).tokens@.len() - old(self).pos, 12int,
    {
        let ghost t = self.toks();
        let ghost p0 = self.pos as int;
        let mut left = match self.parse_multiplicative() {
            Ok(e) => e,
            Err(m) => {
                return Err(m);
            },
        };
        loop
            invariant
                self.kept(old(self)),
                t == self.toks(),
                p0 == old(self).pos,
                p0 < self.pos,
                p_add(t, p0) == add_tail(t, left@, self.pos as int),
            decreases self.tokens@.len() - self.pos,
        {
            let op = match self.cur_add_op() {
                Some(op) => op,
                None => {
                    return Ok(left);
                },
            };
            self.bump();
            let right = match self.parse_multiplicative() {
                Ok(e) => e,
                Err(m) => {
                    return Err(m);
                },
            };
            left = Expr::BinaryOp { left: Box::new(left), op, right: Box::new(right) };
        }
    }

    fn parse_multiplicative(&mut self) -> (r: Result<Expr, String>)
        requires
            old(self).wf(),
        ensures
            final(self).kept(old(self)),
            expr_outcome(p_mul(old(self).toks(), old(self).pos as int), r, final(self).pos as int),
            r is Ok ==> old(self).pos < final(self).pos,
            r matches Err(m) ==> m@.len() > 0,
        decreases old(self).tokens@.len() - old(self).pos, 10int,
    {
        let ghost t = self.toks();
        let ghost p0 = self.pos as int;
        let mut left = match self.parse_unary() {
            Ok(e) => e,
            Err(m) => {
                return Err(m);
            },
        };
        loop
            invariant
                self.kept(old(self)),
                t == self.toks(),
                p0 == old(self).pos,
                p0 < self.pos,
                p_mul(t, p0) == mul_tail(t, left@, self.pos as int),
            decreases self.tokens@.len() - self.pos,
        {
            let op = match self.cur_mul_op() {
                Some(op) => op,
                None => {
                    return Ok(left);
                },
            };
            self.bump();
            let right = match self.parse_unary() {
                Ok(e) => e,
                Err(m) => {
                    return Err(m);
                },
            };
            left = Expr::BinaryOp { left: Box::new(left), op, right: Box::new(right) };
        }
    }

    fn parse_unary(&mut self) -> (r: Result<Expr, String>)
        requires
            old(self).wf(),
        ensures
            final(self).kept(old(self)),
            expr_outcome(p_unary(old(self).toks(), old(self).pos as int), r, final(self).pos as int),
            r is Ok ==> old(self).pos < final(self).pos,
            r matches Err(m) ==> m@.len() > 0,
        decreases old(self).tokens@.len() - old(self).pos, 8int,
    {
        if matches!(self.cur(), Token::Minus) {
            self.bump();
            let e = match self.parse_unary() {
                Ok(e) => e,
                Err(m) => {
                    return Err(m);
                },
            };
            match e {
                Expr::Literal(SqlValue::Int(n)) => {
                    if n == i64::MIN {
                        proof {
                            reveal_strlit("integer overflow in literal");
                        }
                        return Err(msg("integer overflow in literal"));
                    }
                    Ok(Expr::Literal(SqlValue::Int(-n)))
                },
                other => Ok(Expr::Unary { op: UnaryOp::Neg, expr: Box::new(other) }),
            }
        } else {
            self.parse_primary()
        }
    }

    #[verifier::spinoff_prover]
    #[verifier::rlimit(100)]
    fn parse_agg_call(&mut self) -> (r: Result<Expr, String>)
        requires
            old(self).wf(),
        ensures
            final(self).kept(old(self)),
            expr_outcome(p_agg_call(old(self).toks(), old(self).pos as int), r, final(self).pos as int),
            r is Ok ==> old(self).pos < final(self).pos,
            r matches Err(m) ==> m@.len() > 0,
        decreases old(self).tokens@.len() - old(self).pos, 6int,
    {
        let name = match self.cur() {
            Token::Keyword(k) => String::from_str(k),
            _ => {
                return Err(self.err_got("expected an aggregate function"));
            },
        };
        self.bump();
        match self.expect_paren_open() {
            Ok(()) => {},
            Err(m) => {
                return Err(m);
            },
        }
        let arg = if matches!(self.cur(), Token::Star) {
            self.bump();
            Expr::Identifier(String::from_str("*"))
        } else {
            match self.parse_expr() {
                Ok(e) => e,
                Err(m) => {
                    return Err(m);
                },
            }
        };
        match self.expect_paren_close() {
            Ok(()) => {},
            Err(m) => {
                return Err(m);
            },
        }
        let args = vec![arg];
        proof {
            lemma_exprs_view(args@);
            assert(exprs_of(args@) =~= seq![args@[0]@]);
        }
        Ok(Expr::Function { name, args })
    }

    fn parse_primary(&mut self) -> (r: Result<Expr, String>)
        requires
            old(self).wf(),
        ensures
            final(self).kept(old(self)),
            expr_outcome(p_primary(old(self).toks(), old(self).pos as int), r, final(self).pos as int),
            r is Ok ==> old(self).pos < final(self).pos,
            r matches Err(m) ==> m@.len() > 0,
        decreases old(self).tokens@.len() - old(self).pos, 7int,
    {
        match self.cur() {
            Token::Ident(s) => {
                let name = s.clone();
                self.bump();
                self.parse_after_ident(name)
            },
            Token::Int(n) => {
                let v = *n;
                self.bump();
                Ok(Expr::Literal(SqlValue::Int(v)))
            },
            Token::Str(s) => {
                let v = s.clone();
                self.bump();
                Ok(Expr::Literal(SqlValue::Text(v)))
            },
            Token::LParen => {
                self.bump();
                self.parse_paren()
            },
            Token::Keyword(k) => {
                let kw: &'static str = *k;
                if self.cur_is_agg() {
                    self.parse_agg_call()
                } else if str_eq(kw, "NULL") {
                    self.bump();
                    Ok(Expr::Literal(SqlValue::Null))
                } else {
                    Err(self.err_got("unexpected token in expression"))
                }
            },
            _ => Err(self.err_got("unexpected token in expression")),
        }
    }

    #[verifier::spinoff_prover]
    #[verifier::rlimit(100)]
    fn parse_after_ident(&mut self, name: String) -> (r: Result<Expr, String>)
        requires
            old(self).wf(),
        ensures
            final(self).kept(old(self)),
            expr_outcome(p_after_ident(old(self).toks(), name@, old(self).pos as int), r, final(self).pos as int),
            r is Ok ==> old(self).pos <= final(self).pos,
            r matches Err(m) ==> m@.len() > 0,
        decreases old(self).tokens@.len() - old(self).pos, 5int,
    {
        if !matches!(self.cur(), Token::LParen) {
            return Ok(Expr::Identifier(name));
        }
        self.bump();
        if matches!(self.cur(), Token::RParen) {
            self.bump();
            let args: Vec<Expr> = Vec::new();
            proof {
                lemma_exprs_view(args@);
                assert(exprs_of(args@) =~= Seq::<ExprV>::empty());
            }
            return Ok(Expr::Function { name, args });
        }
        let args = match self.parse_list() {
            Ok(a) => a,
            Err(m) => {
                return Err(m);
            },
        };
        match self.expect_paren_close() {
            Ok(()) => {},
            Err(m) => {
                return Err(m);
            },
        }
        proof {
            lemma_exprs_view(args@);
        }
        Ok(Expr::Function { name, args })
    }

    fn parse_paren(&mut self) -> (r: Result<Expr, String>)
        requires
            old(self).wf(),
        ensures
            final(self).kept(old(self)),
            expr_outcome(p_paren(old(self).toks(), old(self).pos as int), r, final(self).pos as int),
            r is Ok ==> old(self).pos < final(self).pos,
            r matches Err(m) ==> m@.len() > 0,
        decreases old(self).tokens@.len() - old(self).pos, 23int,
    {
        let e = match self.parse_expr() {
            Ok(e) => e,
            Err(m) => {
                return Err(m);
            },
        };
        match self.expect_paren_close() {
            Ok(()) => {},
            Err(m) => {
                return Err(m);
            },
        }
        Ok(e)
    }

    fn parse_list(&mut self) -> (r: Result<Vec<Expr>, String>)
        requires
            old(self).wf(),
        ensures
            final(self).kept(old(self)),
            list_outcome(p_list(old(self).toks(), old(self).pos as int), r, final(self).pos as int),
            r is Ok ==> old(self).pos < final(self).pos,
            r matches Err(m) ==> m@.len() > 0,
        decreases old(self).tokens@.len() - old(self).pos, 21int,
    {
        let ghost t = self.toks();
        let ghost p0 = self.pos as int;
        let first = match self.parse_expr() {
            Ok(e) => e,
            Err(m) => {
                return Err(m);
            },
        };
        let mut items: Vec<Expr> = Vec::new();
        items.push(first);
        assert(exprs_of(items@) =~= seq![items@[0]@]);
        loop
            invariant
                self.kept(old(self)),
                t == self.toks(),
                p0 == old(self).pos,
                p0 < self.pos,
                p_list(t, p0) == list_tail(t, exprs_of(items@), self.pos as int),
            decreases self.tokens@.len() - self.pos,
        {
            if !matches!(self.cur(), Token::Comma) {
                return Ok(items);
            }
            self.bump();
            let e = match self.parse_expr() {
                Ok(e) => e,
                Err(m) => {
                    return Err(m);
                },
            };
            let ghost before = items@;
            items.push(e);
            assert(exprs_of(items@) =~= exprs_of(before).push(e@));
        }
    }
}

impl Parser {
    fn parse_comparison(&mut self) -> (r: Result<Expr, String>)
        requires
            old(self).wf(),
        ensures
            final(self).kept(old(self)),
            expr_outcome(p_comparison(old(self).toks(), old(self).pos as int), r, final(self).pos as int),
            r is Ok ==> old(self).pos < final(self).pos,
            r matches Err(m) ==> m@.len() > 0,
        decreases old(self).tokens@.len() - old(self).pos, 16int,
    {
        if self.peek_kw("NOT") {
            self.bump();
            let inner = match self.parse_comparison() {
                Ok(e) => e,
                Err(m) => {
                    return Err(m);
                },
            };
            return Ok(Expr::Unary { op: UnaryOp::Not, expr: Box::new(inner) });
        }
        let left = match self.parse_additive() {
            Ok(e) => e,
            Err(m) => {
                return Err(m);
            },
        };
        let e = match self.parse_postfix(left) {
            Ok(e) => e,
            Err(m) => {
                return Err(m);
            },
        };
        self.parse_compare_tail(e)
    }

    fn parse_postfix(&mut self, left: Expr) -> (r: Result<Expr, String>)
        requires
            old(self).wf(),
        ensures
            final(self).kept(old(self)),
            expr_outcome(p_postfix(old(self).toks(), left@, old(self).pos as int), r, final(self).pos as int),
            r is Ok ==> old(self).pos <= final(self).pos,
            r matches Err(m) ==> m@.len() > 0,
        decreases old(self).tokens@.len() - old(self).pos, 14int,
    {
        let at_not = self.peek_kw("NOT");
        let negated = at_not && self.next_is_post();
        let plain = !at_not && self.cur_is_post();
        if !(negated || plain) {
            return Ok(left);
        }
        if negated {
            self.bump();
        }
        let is_like = self.peek_kw("LIKE");
        let is_in = self.peek_kw("IN");
        self.bump();
        let r = if is_like {
            self.parse_like(left)
        } else if is_in {
            self.parse_in(left)
        } else {
            self.parse_between(left)
        };
        match r {
            Ok(e) => if negated {
                Ok(Expr::Unary { op: UnaryOp::Not, expr: Box::new(e) })
            } else {
                Ok(e)
            },
            Err(m) => Err(m),
        }
    }

    fn parse_like(&mut self, left: Expr) -> (r: Result<Expr, String>)
        requires
            old(self).wf(),
        ensures
            final(self).kept(old(self)),
            expr_outcome(p_like(old(self).toks(), left@, old(self).pos as int), r, final(self).pos as int),
            r is Ok ==> old(self).pos < final(self).pos,
            r matches Err(m) ==> m@.len() > 0,
        decreases old(self).tokens@.len() - old(self).pos, 13int,
    {
        let right = match self.parse_additive() {
            Ok(e) => e,
            Err(m) => {
                return Err(m);
            },
        };
        Ok(Expr::BinaryOp { left: Box::new(left), op: BinOp::Like, right: Box::new(right) })
    }

    fn parse_in(&mut self, left: Expr) -> (r: Result<Expr, String>)
        requires
            old(self).wf(),
        ensures
            final(self).kept(old(self)),
            expr_outcome(p_in(old(self).toks(), left@, old(self).pos as int), r, final(self).pos as int),
            r is Ok ==> old(self).pos < final(self).pos,
            r matches Err(m) ==> m@.len() > 0,
        decreases old(self).tokens@.len() - old(self).pos, 13int,
    {
        match self.expect_paren_open() {
            Ok(()) => {},
            Err(m) => {
                return Err(m);
            },
        }
        let list = match self.parse_list() {
            Ok(l) => l,
            Err(m) => {
                return Err(m);
            },
        };
        match self.expect_paren_close() {
            Ok(()) => {},
            Err(m) => {
                return Err(m);
            },
        }
        proof {
            lemma_exprs_view(list@);
        }
        Ok(Expr::InList { expr: Box::new(left), list })
    }

    fn parse_between(&mut self, left: Expr) -> (r: Result<Expr, String>)
        requires
            old(self).wf(),
        ensures
            final(self).kept(old(self)),
            expr_outcome(p_between(old(self).toks(), left@, old(self).pos as int), r, final(self).pos as int),
            r is Ok ==> old(self).pos < final(self).pos,
            r matches Err(m) ==> m@.len() > 0,
        decreases old(self).tokens@.len() - old(self).pos, 13int,
    {
        let lo = match self.parse_additive() {
            Ok(e) => e,
            Err(m) => {
                return Err(m);
            },
        };
        match self.expect_keyword("AND") {
            Ok(()) => {},
            Err(m) => {
                return Err(m);
            },
        }
        let hi = match self.parse_additive() {
            Ok(e) => e,
            Err(m) => {
                return Err(m);
            },
        };
        Ok(Expr::Between { expr: Box::new(left), lo: Box::new(lo), hi: Box::new(hi) })
    }

    fn parse_compare_tail(&mut self, e: Expr) -> (r: Result<Expr, String>)
        requires
            old(self).wf(),
        ensures
            final(self).kept(old(self)),
            expr_outcome(p_compare_tail(old(self).toks(), e@, old(self).pos as int), r, final(self).pos as int),
            r is Ok ==> old(self).pos <= final(self).pos,
            r matches Err(m) ==> m@.len() > 0,
        decreases old(self).tokens@.len() - old(self).pos, 13int,
    {
        match self.cur_compare_op() {
            Some(op) => {
                self.bump();
                let right = match self.parse_additive() {
                    Ok(x) => x,
                    Err(m) => {
                        return Err(m);
                    },
                };
                Ok(Expr::BinaryOp { left: Box::new(e), op, right: Box::new(right) })
            },
            None => Ok(e),
        }
    }
}

/// Model of a list of names.
pub open spec fn names_of(v: Seq<String>) -> Seq<Seq<char>> {
    v.map_values(|s: String| s@)
}

impl Parser {
    fn parse_idents(&mut self) -> (r: Result<Vec<String>, String>)
        requires
            old(self).wf(),
        ensures
            final(self).kept(old(self)),
            match p_idents(old(self).toks(), old(self).pos as int) {
                Some((v, q)) => (r matches Ok(x) && names_of(x@) == v) && final(self).pos == q,
                None => r is Err,
            },
            r matches Err(m) ==> m@.len() > 0,
    {
        let ghost t = self.toks();
        let first = match self.expect_ident() {
            Ok(n) => n,
            Err(m) => {
                return Err(m);
            },
        };
        let mut names: Vec<String> = Vec::new();
        names.push(first);
        assert(names_of(names@) =~= seq![names@[0]@]);
        loop
            invariant
                self.kept(old(self)),
                t == self.toks(),
                p_idents(t, old(self).pos as int) == ident_tail(t, names_of(names@), self.pos as int),
            decreases self.tokens@.len() - self.pos,
        {
            if !matches!(self.cur(), Token::Comma) {
                return Ok(names);
            }
            self.bump();
            let n = match self.expect_ident() {
                Ok(n) => n,
                Err(m) => {
                    return Err(m);
                },
            };
            let ghost before = names@;
            names.push(n);
            assert(names_of(names@) =~= names_of(before).push(n@));
        }
    }

    fn parse_column_def(&mut self) -> (r: Result<Column, String>)
        requires
            old(self).wf(),
        ensures
            final(self).kept(old(self)),
            match p_column(old(self).toks(), old(self).pos as int) {
                Some((v, q)) => (r matches Ok(x) && x@ == v) && final(self).pos == q,
                None => r is Err,
            },
            r matches Err(m) ==> m@.len() > 0,
    {
        let name = match self.expect_ident() {
            Ok(n) => n,
            Err(m) => {
                return Err(m);
            },
        };
        let data_type = if self.peek_kw("INTEGER") {
            self.bump();
            DataType::Integer
        } else if self.peek_kw("TEXT") {
            self.bump();
            DataType::Text
        } else {
            return Err(self.err_got("unsupported data type"));
        };
        let mut not_null = false;
        if self.peek_kw("NOT") {
            self.bump();
            match self.expect_keyword("NULL") {
                Ok(()) => {},
                Err(m) => {
                    return Err(m);
                },
            }
            not_null = true;
        }
        Ok(Column { name, data_type, not_null })
    }

    fn parse_columns(&mut self) -> (r: Result<Vec<Column>, String>)
        requires
            old(self).wf(),
        ensures
            final(self).kept(old(self)),
            match p_columns(old(self).toks(), old(self).pos as int) {
                Some((v, q)) => (r matches Ok(x) && x@.map_values(|c: Column| c@) == v) && final(self).pos == q,
                None => r is Err,
            },
            r matches Err(m) ==> m@.len() > 0,
    {
        let ghost t = self.toks();
        let first = match self.parse_column_def() {
            Ok(c) => c,
            Err(m) => {
                return Err(m);
            },
        };
        let mut cols: Vec<Column> = Vec::new();
        cols.push(first);
        assert(cols@.map_values(|c: Column| c@) =~= seq![cols@[0]@]);
        loop
            invariant
                self.kept(old(self)),
                t == self.toks(),
                old(self).pos < self.pos,
                p_columns(t, old(self).pos as int) == column_tail(t, cols@.map_values(|c: Column| c@), self.pos as int),
            decreases self.tokens@.len() - self.pos,
        {
            if !matches!(self.cur(), Token::Comma) {
                return Ok(cols);
            }
            self.bump();
            let c = match self.parse_column_def() {
                Ok(c) => c,
                Err(m) => {
                    return Err(m);
                },
            };
            let ghost before = cols@;
            cols.push(c);
            assert(cols@.map_values(|c: Column| c@) =~= before.map_values(|c: Column| c@).push(c@));
        }
    }

    fn parse_create_table(&mut self) -> (r: Result<Statement, String>)
        requires
            old(self).wf(),
        ensures
            final(self).kept(old(self)),
            match p_create_table(old(self).toks(), old(self).pos as int) {
                Some((v, q)) => (r matches Ok(x) && x@ == v) && final(self).pos == q,
                None => r is Err,
            },
            r is Ok ==> old(self).pos < final(self).pos,
            r matches Err(m) ==> m@.len() > 0,
    {
        match self.expect_keyword("CREATE") {
            Ok(()) => {},
            Err(m) => {
                return Err(m);
            },
        }
        match self.expect_keyword("TABLE") {
            Ok(()) => {},
            Err(m) => {
                return Err(m);
            },
        }
        let mut if_not_exists = false;
        if self.peek_kw("IF") {
            self.bump();
            match self.expect_keyword("NOT") {
                Ok(()) => {},
                Err(m) => {
                    return Err(m);
                },
            }
            match self.expect_keyword("EXISTS") {
                Ok(()) => {},
                Err(m) => {
                    return Err(m);
                },
            }
            if_not_exists = true;
        }
        let name = match self.expect_ident() {
            Ok(n) => n,
            Err(m) => {
                return Err(m);
            },
        };
        match self.expect_paren_open() {
            Ok(()) => {},
            Err(m) => {
                return Err(m);
            },
        }
        let columns = match self.parse_columns() {
            Ok(c) => c,
            Err(m) => {
                return Err(m);
            },
        };
        match self.expect_paren_close() {
            Ok(()) => {},
            Err(m) => {
                return Err(m);
            },
        }
        Ok(Statement::CreateTable { name, columns, if_not_exists })
    }

    fn parse_create_index(&mut self) -> (r: Result<Statement, String>)
        requires
            old(self).wf(),
        ensures
            final(self).kept(old(self)),
            match p_create_index(old(self).toks(), old(self).pos as int) {
                Some((v, q)) => (r matches Ok(x) && x@ == v) && final(self).pos == q,
                None => r is Err,
            },
            r is Ok ==> old(self).pos < final(self).pos,
            r matches Err(m) ==> m@.len() > 0,
    {
        match self.expect_keyword("CREATE") {
            Ok(()) => {},
            Err(m) => {
                return Err(m);
            },
        }
        match self.expect_keyword("INDEX") {
            Ok(()) => {},
            Err(m) => {
                return Err(m);
            },
        }
        let name = match self.expect_ident() {
            Ok(n) => n,
            Err(m) => {
                return Err(m);
            },
        };
        match self.expect_keyword("ON") {
            Ok(()) => {},
            Err(m) => {
                return Err(m);
            },
        }
        let table = match self.expect_ident() {
            Ok(n) => n,
            Err(m) => {
                return Err(m);
            },
        };
        match self.expect_paren_open() {
            Ok(()) => {},
            Err(m) => {
                return Err(m);
            },
        }
        let columns = match self.parse_idents() {
            Ok(c) => c,
            Err(m) => {
                return Err(m);
            },
        };
        match self.expect_paren_close() {
            Ok(()) => {},
            Err(m) => {
                return Err(m);
            },
        }
        Ok(Statement::CreateIndex { name, table, columns })
    }

    fn parse_row(&mut self) -> (r: Result<Vec<Expr>, String>)
        requires
            old(self).wf(),
        ensures
            final(self).kept(old(self)),
            list_outcome(p_row(old(self).toks(), old(self).pos as int), r, final(self).pos as int),
            r is Ok ==> old(self).pos < final(self).pos,
            r matches Err(m) ==> m@.len() > 0,
    {
        match self.expect_paren_open() {
            Ok(()) => {},
            Err(m) => {
                return Err(m);
            },
        }
        let row = match self.parse_list() {
            Ok(l) => l,
            Err(m) => {
                return Err(m);
            },
        };
        match self.expect_paren_close() {
            Ok(()) => {},
            Err(m) => {
                return Err(m);
            },
        }
        Ok(row)
    }

    fn parse_insert(&mut self) -> (r: Result<Statement, String>)
        requires
            old(self).wf(),
        ensures
            final(self).kept(old(self)),
            match p_insert(old(self).toks(), old(self).pos as int) {
                Some((v, q)) => (r matches Ok(x) && x@ == v) && final(self).pos == q,
                None => r is Err,
            },
            r is Ok ==> old(self).pos < final(self).pos,
            r matches Err(m) ==> m@.len() > 0,
    {
        let ghost t = self.toks();
        let ghost p0 = self.pos as int;
        match self.expect_keyword("INSERT") {
            Ok(()) => {},
            Err(m) => {
                return Err(m);
            },
        }
        match self.expect_keyword("INTO") {
            Ok(()) => {},
            Err(m) => {
                return Err(m);
            },
        }
        let table = match self.expect_ident() {
            Ok(n) => n,
            Err(m) => {
                return Err(m);
            },
        };
        match self.expect_keyword("VALUES") {
            Ok(()) => {},
            Err(m) => {
                return Err(m);
            },
        }
        let first = match self.parse_row() {
            Ok(r) => r,
            Err(m) => {
                return Err(m);
            },
        };
        let mut rows: Vec<Vec<Expr>> = Vec::new();
        rows.push(first);
        assert(rows@.map_values(|r: Vec<Expr>| exprs_of(r@)) =~= seq![exprs_of(rows@[0]@)]);
        loop
            invariant
                self.kept(old(self)),
                t == self.toks(),
                p0 == old(self).pos,
                p0 < self.pos,
                match p_insert(t, p0) {
                    Some((v, q)) => row_tail(t, rows@.map_values(|r: Vec<Expr>| exprs_of(r@)), self.pos as int)
                        == Some((match v { StatementV::Insert { rows, .. } => rows, _ => Seq::empty() }, q))
                        && (v matches StatementV::Insert { table: tn, .. } && tn == table@),
                    None => row_tail(t, rows@.map_values(|r: Vec<Expr>| exprs_of(r@)), self.pos as int) is None,
                },
            decreases self.tokens@.len() - self.pos,
        {
            if !matches!(self.cur(), Token::Comma) {
                let ghost rv = rows@.map_values(|r: Vec<Expr>| exprs_of(r@));
                let st = Statement::Insert { table, rows };
                assert(st@ == StatementV::Insert { table: table@, rows: rv }) by {
                    assert(rows@.map_values(|r: Vec<Expr>| r@.map_values(|e: Expr| e@)) =~= rv);
                }
                return Ok(st);
            }
            self.bump();
            let row = match self.parse_row() {
                Ok(r) => r,
                Err(m) => {
                    return Err(m);
                },
            };
            let ghost before = rows@;
            rows.push(row);
            assert(rows@.map_values(|r: Vec<Expr>| exprs_of(r@)) =~= before.map_values(|r: Vec<Expr>| exprs_of(r@)).push(exprs_of(row@)));
        }
    }
}

/// Model of projection items.
pub open spec fn items_of(v: Seq<SelectItem>) -> Seq<SelectItemV> {
    v.map_values(|i: SelectItem| i@)
}

/// Model of ORDER BY items.
pub open spec fn orders_of(v: Seq<OrderBy>) -> Seq<OrderByV> {
    v.map_values(|o: OrderBy| o@)
}

impl Parser {
    fn parse_select_item(&mut self) -> (r: Result<SelectItem, String>)
        requires
            old(self).wf(),
        ensures
            final(self).kept(old(self)),
            match p_select_item(old(self).toks(), old(self).pos as int) {
                Some((v, q)) => (r matches Ok(x) && x@ == v) && final(self).pos == q,
                None => r is Err,
            },
            r is Ok ==> old(self).pos < final(self).pos,
            r matches Err(m) ==> m@.len() > 0,
    {
        let e = if self.cur_is_agg() { self.parse_agg_call() } else { self.parse_expr() };
        match e {
            Ok(e) => Ok(SelectItem::Expr(e)),
            Err(m) => Err(m),
        }
    }

    fn parse_select_list(&mut self) -> (r: Result<Vec<SelectItem>, String>)
        requires
            old(self).wf(),
        ensures
            final(self).kept(old(self)),
            match p_select_list(old(self).toks(), old(self).pos as int) {
                Some((v, q)) => (r matches Ok(x) && items_of(x@) == v) && final(self).pos == q,
                None => r is Err,
            },
            r matches Err(m) ==> m@.len() > 0,
    {
        let ghost t = self.toks();
        if matches!(self.cur(), Token::Star) {
            self.bump();
            let v = vec![SelectItem::Star];
            assert(items_of(v@) =~= seq![SelectItemV::Star]);
            return Ok(v);
        }
        let first = match self.parse_select_item() {
            Ok(i) => i,
            Err(m) => {
                return Err(m);
            },
        };
        let mut items: Vec<SelectItem> = Vec::new();
        items.push(first);
        assert(items_of(items@) =~= seq![items@[0]@]);
        loop
            invariant
                self.kept(old(self)),
                t == self.toks(),
                old(self).pos < self.pos,
                !(peek(t, old(self).pos as int) is Star),
                p_select_list(t, old(self).pos as int) == item_tail(t, items_of(items@), self.pos as int),
            decreases self.tokens@.len() - self.pos,
        {
            if !matches!(self.cur(), Token::Comma) {
                return Ok(items);
            }
            self.bump();
            let i = match self.parse_select_item() {
                Ok(i) => i,
                Err(m) => {
                    return Err(m);
                },
            };
            let ghost before = items@;
            items.push(i);
            assert(items_of(items@) =~= items_of(before).push(i@));
        }
    }

    #[verifier::spinoff_prover]
    #[verifier::rlimit(50)]
    fn parse_from(&mut self) -> (r: Result<TableRef, String>)
        requires
            old(self).wf(),
        ensures
            final(self).kept(old(self)),
            match p_from(old(self).toks(), old(self).pos as int) {
                Some((v, q)) => (r matches Ok(x) && x@ == v) && final(self).pos == q,
                None => r is Err,
            },
            r matches Err(m) ==> m@.len() > 0,
    {
        let ghost t = self.toks();
        match self.expect_keyword("FROM") {
            Ok(()) => {},
            Err(m) => {
                return Err(m);
            },
        }
        let name = match self.expect_ident() {
            Ok(n) => n,
            Err(m) => {
                return Err(m);
            },
        };
        let mut left = TableRef::Table(name);
        loop
            invariant
                self.kept(old(self)),
                t == self.toks(),
                p_from(t, old(self).pos as int) == join_tail(t, left@, self.pos as int),
            decreases self.tokens@.len() - self.pos,
        {
            let inner = self.peek_kw("INNER");
            if !(inner || self.peek_kw("JOIN")) {
                return Ok(left);
            }
            let ghost p = self.pos as int;
            if inner {
                self.bump();
            }
            match self.expect_keyword("JOIN") {
                Ok(()) => {},
                Err(m) => {
                    return Err(m);
                },
            }
            let right = match self.expect_ident() {
                Ok(n) => n,
                Err(m) => {
                    return Err(m);
                },
            };
            match self.expect_keyword("ON") {
                Ok(()) => {},
                Err(m) => {
                    return Err(m);
                },
            }
            let on = match self.parse_expr() {
                Ok(e) => e,
                Err(m) => {
                    return Err(m);
                },
            };
            left = TableRef::Join { left: Box::new(left), right, on };
        }
    }

    fn parse_order_item(&mut self) -> (r: Result<OrderBy, String>)
        requires
            old(self).wf(),
        ensures
            final(self).kept(old(self)),
            match p_order_item(old(self).toks(), old(self).pos as int) {
                Some((v, q)) => (r matches Ok(x) && x@ == v) && final(self).pos == q,
                None => r is Err,
            },
            r is Ok ==> old(self).pos < final(self).pos,
            r matches Err(m) ==> m@.len() > 0,
    {
        let expr = match self.parse_expr() {
            Ok(e) => e,
            Err(m) => {
                return Err(m);
            },
        };
        let asc = if self.peek_kw("ASC") {
            self.bump();
            true
        } else if self.peek_kw("DESC") {
            self.bump();
            false
        } else {
            true
        };
        Ok(OrderBy { expr, asc })
    }

    fn parse_order_by(&mut self) -> (r: Result<Vec<OrderBy>, String>)
        requires
            old(self).wf(),
        ensures
            final(self).kept(old(self)),
            match p_order_by(old(self).toks(), old(self).pos as int) {
                Some((v, q)) => (r matches Ok(x) && orders_of(x@) == v) && final(self).pos == q,
                None => r is Err,
            },
            r matches Err(m) ==> m@.len() > 0,
    {
        let ghost t = self.toks();
        if !self.peek_kw("ORDER") {
            let v: Vec<OrderBy> = Vec::new();
            assert(orders_of(v@) =~= Seq::<OrderByV>::empty());
            return Ok(v);
        }
        self.bump();
        match self.expect_keyword("BY") {
            Ok(()) => {},
            Err(m) => {
                return Err(m);
            },
        }
        let first = match self.parse_order_item() {
            Ok(o) => o,
            Err(m) => {
                return Err(m);
            },
        };
        let mut items: Vec<OrderBy> = Vec::new();
        items.push(first);
        assert(orders_of(items@) =~= seq![items@[0]@]);
        loop
            invariant
                self.kept(old(self)),
                t == self.toks(),
                old(self).pos < self.pos,
                is_kw(peek(t, old(self).pos as int), "ORDER"@),
                is_kw(peek(t, old(self).pos + 1), "BY"@),
                p_order_by(t, old(self).pos as int) == order_tail(t, orders_of(items@), self.pos as int),
            decreases self.tokens@.len() - self.pos,
        {
            if !matches!(self.cur(), Token::Comma) {
                return Ok(items);
            }
            self.bump();
            let o = match self.parse_order_item() {
                Ok(o) => o,
                Err(m) => {
                    return Err(m);
                },
            };
            let ghost before = items@;
            items.push(o);
            assert(orders_of(items@) =~= orders_of(before).push(o@));
        }
    }

    fn parse_where(&mut self) -> (r: Result<Option<Expr>, String>)
        requires
            old(self).wf(),
        ensures
            final(self).kept(old(self)),
            match p_where(old(self).toks(), old(self).pos as int) {
                Some((v, q)) => (r matches Ok(x) && v == match x {
                    Some(e) => Some(e@),
                    None => None::<ExprV>,
                }) && final(self).pos == q,
                None => r is Err,
            },
            r matches Err(m) ==> m@.len() > 0,
    {
        if !self.peek_kw("WHERE") {
            return Ok(None);
        }
        self.bump();
        match self.parse_expr() {
            Ok(e) => Ok(Some(e)),
            Err(m) => Err(m),
        }
    }

    fn parse_group_by(&mut self) -> (r: Result<Vec<Expr>, String>)
        requires
            old(self).wf(),
        ensures
            final(self).kept(old(self)),
            list_outcome(p_group_by(old(self).toks(), old(self).pos as int), r, final(self).pos as int),
            r matches Err(m) ==> m@.len() > 0,
    {
        if !self.peek_kw("GROUP") {
            let v: Vec<Expr> = Vec::new();
            assert(exprs_of(v@) =~= Seq::<ExprV>::empty());
            return Ok(v);
        }
        self.bump();
        match self.expect_keyword("BY") {
            Ok(()) => {},
            Err(m) => {
                return Err(m);
            },
        }
        self.parse_list()
    }

    fn parse_limit(&mut self) -> (r: Result<Option<usize>, String>)
        requires
            old(self).wf(),
        ensures
            final(self).kept(old(self)),
            match p_limit(old(self).toks(), old(self).pos as int) {
                Some((v, q)) => r == Ok::<Option<usize>, String>(v) && final(self).pos == q,
                None => r is Err,
            },
            r matches Err(m) ==> m@.len() > 0,
    {
        if !self.peek_kw("LIMIT") {
            return Ok(None);
        }
        self.bump();
        match self.cur() {
            Token::Int(n) => {
                let v = *n;
                if v >= 0 {
                    self.bump();
                    return Ok(Some(v as usize));
                }
            },
            _ => {},
        }
        Err(self.err_got("LIMIT must be a non-negative integer"))
    }

    fn parse_select(&mut self) -> (r: Result<Select, String>)
        requires
            old(self).wf(),
        ensures
            final(self).kept(old(self)),
            match p_select(old(self).toks(), old(self).pos as int) {
                Some((v, q)) => (r matches Ok(x) && x@ == v) && final(self).pos == q,
                None => r is Err,
            },
            r is Ok ==> old(self).pos < final(self).pos,
            r matches Err(m) ==> m@.len() > 0,
    {
        match self.expect_keyword("SELECT") {
            Ok(()) => {},
            Err(m) => {
                return Err(m);
            },
        }
        let projection = match self.parse_select_list() {
            Ok(p) => p,
            Err(m) => {
                return Err(m);
            },
        };
        let from = match self.parse_from() {
            Ok(f) => f,
            Err(m) => {
                return Err(m);
            },
        };
        let selection = match self.parse_where() {
            Ok(w) => w,
            Err(m) => {
                return Err(m);
            },
        };
        let group_by = match self.parse_group_by() {
            Ok(g) => g,
            Err(m) => {
                return Err(m);
            },
        };
        let order_by = match self.parse_order_by() {
            Ok(o) => o,
            Err(m) => {
                return Err(m);
            },
        };
        let limit = match self.parse_limit() {
            Ok(l) => l,
            Err(m) => {
                return Err(m);
            },
        };
        let sel = Select { projection, from, selection, group_by, order_by, limit };
        assert(sel@.projection == items_of(sel.projection@));
        Ok(sel)
    }
}

/// Model of statements.
pub open spec fn statements_of(v: Seq<Statement>) -> Seq<StatementV> {
    v.map_values(|s: Statement| s@)
}

impl Parser {
    fn at_end(&self) -> (r: bool)
        requires
            self.wf(),
        ensures
            r == at_end(self.toks(), self.pos as int),
    {
        matches!(self.cur(), Token::Eof)
    }

    fn parse_txn(&mut self, k: &str, st: Statement) -> (r: Result<Statement, String>)
        requires
            old(self).wf(),
        ensures
            final(self).kept(old(self)),
            match p_txn(old(self).toks(), old(self).pos as int, k@, st@) {
                Some((v, q)) => (r matches Ok(x) && x@ == v) && final(self).pos == q,
                None => r is Err,
            },
            r is Ok ==> old(self).pos < final(self).pos,
            r matches Err(m) ==> m@.len() > 0,
    {
        match self.expect_keyword(k) {
            Ok(()) => {},
            Err(m) => {
                return Err(m);
            },
        }
        if self.peek_kw("TRANSACTION") || self.peek_kw("WORK") {
            self.bump();
        }
        Ok(st)
    }

    fn parse_statement(&mut self) -> (r: Result<Statement, String>)
        requires
            old(self).wf(),
        ensures
            final(self).kept(old(self)),
            match p_statement(old(self).toks(), old(self).pos as int) {
                Some((v, q)) => (r matches Ok(x) && x@ == v) && final(self).pos == q,
                None => r is Err,
            },
            r is Ok ==> old(self).pos < final(self).pos,
            r matches Err(m) ==> m@.len() > 0,
    {
        if self.peek_kw("CREATE") {
            if self.peek_next_kw("INDEX") {
                self.parse_create_index()
            } else {
                self.parse_create_table()
            }
        } else if self.peek_kw("DROP") {
            self.bump();
            match self.expect_keyword("INDEX") {
                Ok(()) => {},
                Err(m) => {
                    return Err(m);
                },
            }
            match self.expect_ident() {
                Ok(name) => Ok(Statement::DropIndex { name }),
                Err(m) => Err(m),
            }
        } else if self.peek_kw("INSERT") {
            self.parse_insert()
        } else if self.peek_kw("SELECT") {
            match self.parse_select() {
                Ok(s) => Ok(Statement::Select(s)),
                Err(m) => Err(m),
            }
        } else if self.peek_kw("SHOW") {
            self.bump();
            match self.expect_keyword("TABLES") {
                Ok(()) => Ok(Statement::ShowTables),
                Err(m) => Err(m),
            }
        } else if self.peek_kw("BEGIN") {
            self.parse_txn("BEGIN", Statement::Begin)
        } else if self.peek_kw("COMMIT") {
            self.parse_txn("COMMIT", Statement::Commit)
        } else if self.peek_kw("ROLLBACK") {
            self.parse_txn("ROLLBACK", Statement::Rollback)
        } else {
            Err(self.err_got("unsupported statement"))
        }
    }

    /// Parse SQL text into its statements (separated by optional `;`).
    /// Fails on a lexical or syntax error, or when there is no statement;
    /// every error message is non-empty.
    #[verifier::spinoff_prover]
    #[verifier::rlimit(50)]
    pub fn parse(sql: &str) -> (r: Result<Vec<Statement>, String>)
        ensures
            match parse_spec(sql@) {
                Some(v) => r matches Ok(x) && statements_of(x@) == v,
                None => r is Err,
            },
            r matches Err(m) ==> m@.len() > 0,
            (tokenize_spec(sql@) matches Some(t) && p_statements(t, Seq::empty(), 0) == Some(Seq::<StatementV>::empty()))
                ==> (r matches Err(m) && m@ == "empty statement"@),
    {
        let tokens = match tokenize(sql) {
            Ok(t) => t,
            Err(e) => {
                return Err(e);
            },
        };
        let mut p = Parser { tokens, pos: 0 };
        let ghost t = p.toks();
        assert(p.tokens@.last()@ == t.last());
        let mut stmts: Vec<Statement> = Vec::new();
        assert(statements_of(stmts@) =~= Seq::<StatementV>::empty());
        while !p.at_end()
            invariant
                p.wf(),
                t == p.toks(),
                tokenize_spec(sql@) == Some(t),
                p_statements(t, Seq::empty(), 0) == p_statements(t, statements_of(stmts@), p.pos as int),
            decreases p.tokens@.len() - p.pos,
        {
            let st = match p.parse_statement() {
                Ok(s) => s,
                Err(m) => {
                    return Err(m);
                },
            };
            let ghost before = stmts@;
            stmts.push(st);
            assert(statements_of(stmts@) =~= statements_of(before).push(st@));
            if matches!(p.cur(), Token::Semicolon) {
                p.bump();
            }
        }
        if stmts.len() == 0 {
            proof {
                reveal_strlit("empty statement");
            }
            return Err(msg("empty statement"));
        }
        Ok(stmts)
    }
}

} // verus!

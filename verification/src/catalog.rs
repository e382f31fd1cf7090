//! The catalog that recovery rebuilds from the log: tables and indexes by
//! name, from the DDL records in log order, and the entries of an index
//! rebuilt from committed rows.
use vstd::prelude::*;
use crate::codec::ColumnDef;
use vstd::utf8::encode_utf8;
use crate::dbdir::MetaError;
use crate::engine::{col_from, col_pos, index_key_encode, index_key_spec, join2, str_eq, IndexDef};
use crate::executor::Row;

verus! {

/// A log record as the catalog sees it.
pub enum CatalogRecord {
    /// A table was created.
    CreateTable { name: String, columns: Vec<ColumnDef> },
    /// An index was created.
    CreateIndex { name: String, table: String, column: String },
    /// An index was dropped.
    DropIndex { name: String },
    /// Any record that does not change the catalog.
    Data,
}

/// Tables by name: a later entry of a name wins.
pub open spec fn table_map(v: Seq<(String, Vec<ColumnDef>)>) -> Map<Seq<char>, Seq<ColumnDef>>
    decreases v.len(),
{
    if v.len() == 0 {
        Map::empty()
    } else {
        table_map(v.drop_last()).insert(v.last().0@, v.last().1@)
    }
}

/// Indexes by name (table and column): a later entry of a name wins.
pub open spec fn index_map(v: Seq<IndexDef>) -> Map<Seq<char>, (Seq<char>, Seq<char>)>
    decreases v.len(),
{
    if v.len() == 0 {
        Map::empty()
    } else {
        index_map(v.drop_last()).insert(v.last().name@, (v.last().table@, v.last().column@))
    }
}

/// No two tables share a name.
pub open spec fn tables_unique(v: Seq<(String, Vec<ColumnDef>)>) -> bool {
    forall|i: int, j: int| 0 <= i < v.len() && 0 <= j < v.len() && i != j ==> (#[trigger] v[i]).0@ != (#[trigger] v[j]).0@
}

/// No two indexes share a name.
pub open spec fn indexes_unique(v: Seq<IndexDef>) -> bool {
    forall|i: int, j: int| 0 <= i < v.len() && 0 <= j < v.len() && i != j ==> (#[trigger] v[i]).name@ != (#[trigger] v[j]).name@
}

/// The tables after replaying DDL records in order: CREATE TABLE defines
/// (or redefines) a name.
pub open spec fn replay_tables(recs: Seq<CatalogRecord>) -> Map<Seq<char>, Seq<ColumnDef>>
    decreases recs.len(),
{
    if recs.len() == 0 {
        Map::empty()
    } else {
        let m = replay_tables(recs.drop_last());
        match recs.last() {
            CatalogRecord::CreateTable { name, columns } => m.insert(name@, columns@),
            _ => m,
        }
    }
}

/// The indexes after replaying DDL records in order: CREATE INDEX defines
/// (or redefines) a name, DROP INDEX removes it.
pub open spec fn replay_indexes(recs: Seq<CatalogRecord>) -> Map<Seq<char>, (Seq<char>, Seq<char>)>
    decreases recs.len(),
{
    if recs.len() == 0 {
        Map::empty()
    } else {
        let m = replay_indexes(recs.drop_last());
        match recs.last() {
            CatalogRecord::CreateIndex { name, table, column } => m.insert(name@, (table@, column@)),
            CatalogRecord::DropIndex { name } => m.remove(name@),
            _ => m,
        }
    }
}

proof fn lemma_table_map_has(v: Seq<(String, Vec<ColumnDef>)>, i: int)
    requires
        tables_unique(v),
        0 <= i < v.len(),
    ensures
        table_map(v).contains_key(v[i].0@),
        table_map(v)[v[i].0@] == v[i].1@,
    decreases v.len(),
{
    if i < v.len() - 1 {
        lemma_table_map_has(v.drop_last(), i);
        assert(v.drop_last()[i] == v[i]);
        assert(v[v.len() - 1].0@ != v[i].0@);
    }
}

proof fn lemma_table_map_keys(v: Seq<(String, Vec<ColumnDef>)>, k: Seq<char>)
    ensures
        table_map(v).contains_key(k) <==> exists|i: int| 0 <= i < v.len() && (#[trigger] v[i]).0@ == k,
    decreases v.len(),
{
    if v.len() > 0 {
        lemma_table_map_keys(v.drop_last(), k);
        if table_map(v.drop_last()).contains_key(k) {
            let i = choose|i: int| 0 <= i < v.drop_last().len() && (#[trigger] v.drop_last()[i]).0@ == k;
            assert(v[i] == v.drop_last()[i]);
        }
        if exists|i: int| 0 <= i < v.len() && (#[trigger] v[i]).0@ == k {
            let i = choose|i: int| 0 <= i < v.len() && (#[trigger] v[i]).0@ == k;
            if i < v.len() - 1 {
                assert(v.drop_last()[i] == v[i]);
            }
        }
    }
}

proof fn lemma_table_map_update(v: Seq<(String, Vec<ColumnDef>)>, i: int, x: (String, Vec<ColumnDef>))
    requires
        tables_unique(v),
        0 <= i < v.len(),
        v[i].0@ == x.0@,
    ensures
        table_map(v.update(i, x)) == table_map(v).insert(x.0@, x.1@),
        tables_unique(v.update(i, x)),
{
    let w = v.update(i, x);
    assert(tables_unique(w)) by {
        assert forall|a: int, b: int| 0 <= a < w.len() && 0 <= b < w.len() && a != b implies (#[trigger] w[a]).0@ != (#[trigger] w[b]).0@ by {
            assert(v[a].0@ != v[b].0@);
        }
    }
    assert forall|k: Seq<char>| #[trigger] table_map(w).contains_key(k) <==> table_map(v).insert(x.0@, x.1@).contains_key(k) by {
        lemma_table_map_keys(w, k);
        lemma_table_map_keys(v, k);
        if exists|a: int| 0 <= a < v.len() && (#[trigger] v[a]).0@ == k {
            let a = choose|a: int| 0 <= a < v.len() && (#[trigger] v[a]).0@ == k;
            assert(w[a].0@ == k);
        }
        if exists|a: int| 0 <= a < w.len() && (#[trigger] w[a]).0@ == k {
            let a = choose|a: int| 0 <= a < w.len() && (#[trigger] w[a]).0@ == k;
            assert(v[a].0@ == k);
        }
    }
    assert forall|k: Seq<char>| #[trigger] table_map(w).contains_key(k) implies table_map(w)[k] == table_map(v).insert(x.0@, x.1@)[k] by {
        lemma_table_map_keys(w, k);
        let a = choose|a: int| 0 <= a < w.len() && (#[trigger] w[a]).0@ == k;
        lemma_table_map_has(w, a);
        lemma_table_map_has(v, a);
    }
    assert(table_map(w) =~= table_map(v).insert(x.0@, x.1@));
}

proof fn lemma_index_map_has(v: Seq<IndexDef>, i: int)
    requires
        indexes_unique(v),
        0 <= i < v.len(),
    ensures
        index_map(v).contains_key(v[i].name@),
        index_map(v)[v[i].name@] == (v[i].table@, v[i].column@),
    decreases v.len(),
{
    if i < v.len() - 1 {
        lemma_index_map_has(v.drop_last(), i);
        assert(v.drop_last()[i] == v[i]);
        assert(v[v.len() - 1].name@ != v[i].name@);
    }
}

proof fn lemma_index_map_keys(v: Seq<IndexDef>, k: Seq<char>)
    ensures
        index_map(v).contains_key(k) <==> exists|i: int| 0 <= i < v.len() && (#[trigger] v[i]).name@ == k,
    decreases v.len(),
{
    if v.len() > 0 {
        lemma_index_map_keys(v.drop_last(), k);
        if index_map(v.drop_last()).contains_key(k) {
            let i = choose|i: int| 0 <= i < v.drop_last().len() && (#[trigger] v.drop_last()[i]).name@ == k;
            assert(v[i] == v.drop_last()[i]);
        }
        if exists|i: int| 0 <= i < v.len() && (#[trigger] v[i]).name@ == k {
            let i = choose|i: int| 0 <= i < v.len() && (#[trigger] v[i]).name@ == k;
            if i < v.len() - 1 {
                assert(v.drop_last()[i] == v[i]);
            }
        }
    }
}

proof fn lemma_index_map_update(v: Seq<IndexDef>, i: int, x: IndexDef)
    requires
        indexes_unique(v),
        0 <= i < v.len(),
        v[i].name@ == x.name@,
    ensures
        index_map(v.update(i, x)) == index_map(v).insert(x.name@, (x.table@, x.column@)),
        indexes_unique(v.update(i, x)),
{
    let w = v.update(i, x);
    assert(indexes_unique(w)) by {
        assert forall|a: int, b: int| 0 <= a < w.len() && 0 <= b < w.len() && a != b implies (#[trigger] w[a]).name@ != (#[trigger] w[b]).name@ by {
            assert(v[a].name@ != v[b].name@);
        }
    }
    let m = index_map(v).insert(x.name@, (x.table@, x.column@));
    assert forall|k: Seq<char>| #[trigger] index_map(w).contains_key(k) <==> m.contains_key(k) by {
        lemma_index_map_keys(w, k);
        lemma_index_map_keys(v, k);
        if exists|a: int| 0 <= a < v.len() && (#[trigger] v[a]).name@ == k {
            let a = choose|a: int| 0 <= a < v.len() && (#[trigger] v[a]).name@ == k;
            assert(w[a].name@ == k);
        }
        if exists|a: int| 0 <= a < w.len() && (#[trigger] w[a]).name@ == k {
            let a = choose|a: int| 0 <= a < w.len() && (#[trigger] w[a]).name@ == k;
            assert(v[a].name@ == k);
        }
    }
    assert forall|k: Seq<char>| #[trigger] index_map(w).contains_key(k) implies index_map(w)[k] == m[k] by {
        lemma_index_map_keys(w, k);
        let a = choose|a: int| 0 <= a < w.len() && (#[trigger] w[a]).name@ == k;
        lemma_index_map_has(w, a);
        lemma_index_map_has(v, a);
    }
    assert(index_map(w) =~= m);
}

proof fn lemma_index_map_remove(v: Seq<IndexDef>, i: int)
    requires
        indexes_unique(v),
        0 <= i < v.len(),
    ensures
        index_map(v.remove(i)) == index_map(v).remove(v[i].name@),
        indexes_unique(v.remove(i)),
{
    let w = v.remove(i);
    let name = v[i].name@;
    assert forall|a: int| 0 <= a < w.len() implies #[trigger] w[a] == (if a < i { v[a] } else { v[a + 1] }) by {}
    assert(indexes_unique(w)) by {
        assert forall|a: int, b: int| 0 <= a < w.len() && 0 <= b < w.len() && a != b implies (#[trigger] w[a]).name@ != (#[trigger] w[b]).name@ by {
            let a2 = if a < i { a } else { a + 1 };
            let b2 = if b < i { b } else { b + 1 };
            assert(w[a] == v[a2] && w[b] == v[b2]);
            assert(v[a2].name@ != v[b2].name@);
        }
    }
    let m = index_map(v).remove(name);
    assert forall|k: Seq<char>| #[trigger] index_map(w).contains_key(k) <==> m.contains_key(k) by {
        lemma_index_map_keys(w, k);
        lemma_index_map_keys(v, k);
        lemma_index_map_has(v, i);
        if exists|a: int| 0 <= a < w.len() && (#[trigger] w[a]).name@ == k {
            let a = choose|a: int| 0 <= a < w.len() && (#[trigger] w[a]).name@ == k;
            let a2 = if a < i { a } else { a + 1 };
            assert(w[a] == v[a2]);
            assert(a2 != i);
            assert(v[a2].name@ != v[i].name@);
        }
        if k != name && exists|a: int| 0 <= a < v.len() && (#[trigger] v[a]).name@ == k {
            let a = choose|a: int| 0 <= a < v.len() && (#[trigger] v[a]).name@ == k;
            assert(a != i);
            let a2 = if a < i { a } else { a - 1 };
            assert(w[a2] == v[a]);
        }
    }
    assert forall|k: Seq<char>| #[trigger] index_map(w).contains_key(k) implies index_map(w)[k] == m[k] by {
        lemma_index_map_keys(w, k);
        let a = choose|a: int| 0 <= a < w.len() && (#[trigger] w[a]).name@ == k;
        let a2 = if a < i { a } else { a + 1 };
        assert(w[a] == v[a2]);
        lemma_index_map_has(w, a);
        lemma_index_map_has(v, a2);
    }
    assert(index_map(w) =~= m);
}

fn find_table(v: &Vec<(String, Vec<ColumnDef>)>, name: &str) -> (r: Option<usize>)
    ensures
        match r {
            Some(i) => i < v@.len() && v@[i as int].0@ == name@,
            None => forall|i: int| 0 <= i < v@.len() ==> (#[trigger] v@[i]).0@ != name@,
        },
{
    let mut i: usize = 0;
    while i < v.len()
        invariant
            i <= v@.len(),
            forall|j: int| 0 <= j < i ==> (#[trigger] v@[j]).0@ != name@,
        decreases v@.len() - i,
    {
        if str_eq(v[i].0.as_str(), name) {
            return Some(i);
        }
        i = i + 1;
    }
    None
}

fn find_index_named(v: &Vec<IndexDef>, name: &str) -> (r: Option<usize>)
    ensures
        match r {
            Some(i) => i < v@.len() && v@[i as int].name@ == name@,
            None => forall|i: int| 0 <= i < v@.len() ==> (#[trigger] v@[i]).name@ != name@,
        },
{
    let mut i: usize = 0;
    while i < v.len()
        invariant
            i <= v@.len(),
            forall|j: int| 0 <= j < i ==> (#[trigger] v@[j]).name@ != name@,
        decreases v@.len() - i,
    {
        if str_eq(v[i].name.as_str(), name) {
            return Some(i);
        }
        i = i + 1;
    }
    None
}

/// Replay the DDL records of the log, in order, into the catalog: the
/// tables and the indexes by name (see [`replay_tables`] and
/// [`replay_indexes`]); names are unique in both.
pub fn replay_catalog(records: &Vec<CatalogRecord>) -> (r: (Vec<(String, Vec<ColumnDef>)>, Vec<IndexDef>))
    ensures
        table_map(r.0@) == replay_tables(records@),
        index_map(r.1@) == replay_indexes(records@),
        tables_unique(r.0@),
        indexes_unique(r.1@),
{
    let mut tables: Vec<(String, Vec<ColumnDef>)> = Vec::new();
    let mut indexes: Vec<IndexDef> = Vec::new();
    let mut i: usize = 0;
    assert(table_map(tables@) =~= Map::<Seq<char>, Seq<ColumnDef>>::empty());
    assert(index_map(indexes@) =~= Map::<Seq<char>, (Seq<char>, Seq<char>)>::empty());
    while i < records.len()
        invariant
            i <= records@.len(),
            table_map(tables@) == replay_tables(records@.take(i as int)),
            index_map(indexes@) == replay_indexes(records@.take(i as int)),
            tables_unique(tables@),
            indexes_unique(indexes@),
        decreases records@.len() - i,
    {
        assert(records@.take(i + 1).drop_last() =~= records@.take(i as int));
        assert(records@.take(i + 1).last() == records@[i as int]);
        match &records[i] {
            CatalogRecord::CreateTable { name, columns } => {
                let mut cols: Vec<ColumnDef> = Vec::new();
                crate::query::clone_schema(columns.as_slice(), &mut cols);
                assert(cols@ =~= columns@);
                let x = (name.clone(), cols);
                match find_table(&tables, name.as_str()) {
                    Some(k) => {
                        proof { lemma_table_map_update(tables@, k as int, x); }
                        tables.set(k, x);
                    },
                    None => {
                        let ghost t0 = tables@;
                        tables.push(x);
                        assert(tables@.drop_last() =~= t0);
                        assert(tables_unique(tables@)) by {
                            assert forall|a: int, b: int| 0 <= a < tables@.len() && 0 <= b < tables@.len() && a != b
                                implies (#[trigger] tables@[a]).0@ != (#[trigger] tables@[b]).0@ by {
                                if a < t0.len() && b < t0.len() {
                                    assert(t0[a].0@ != t0[b].0@);
                                } else if a < t0.len() {
                                    assert(t0[a].0@ != name@);
                                } else {
                                    assert(t0[b].0@ != name@);
                                }
                            }
                        }
                    },
                }
            },
            CatalogRecord::CreateIndex { name, table, column } => {
                let x = IndexDef { name: name.clone(), table: table.clone(), column: column.clone() };
                match find_index_named(&indexes, name.as_str()) {
                    Some(k) => {
                        proof { lemma_index_map_update(indexes@, k as int, x); }
                        indexes.set(k, x);
                    },
                    None => {
                        let ghost d0 = indexes@;
                        indexes.push(x);
                        assert(indexes@.drop_last() =~= d0);
                        assert(indexes_unique(indexes@)) by {
                            assert forall|a: int, b: int| 0 <= a < indexes@.len() && 0 <= b < indexes@.len() && a != b
                                implies (#[trigger] indexes@[a]).name@ != (#[trigger] indexes@[b]).name@ by {
                                if a < d0.len() && b < d0.len() {
                                    assert(d0[a].name@ != d0[b].name@);
                                } else if a < d0.len() {
                                    assert(d0[a].name@ != name@);
                                } else {
                                    assert(d0[b].name@ != name@);
                                }
                            }
                        }
                    },
                }
            },
            CatalogRecord::DropIndex { name } => {
                match find_index_named(&indexes, name.as_str()) {
                    Some(k) => {
                        proof { lemma_index_map_remove(indexes@, k as int); }
                        indexes.remove(k);
                    },
                    None => {
                        proof {
                            lemma_index_map_keys(indexes@, name@);
                            assert(index_map(indexes@).remove(name@) =~= index_map(indexes@));
                        }
                    },
                }
            },
            CatalogRecord::Data => {},
        }
        i = i + 1;
    }
    assert(records@.take(records@.len() as int) =~= records@);
    (tables, indexes)
}

/// The column an index reads: its table must be in the catalog and have
/// the column.
pub open spec fn index_source_spec(tables: Map<Seq<char>, Seq<ColumnDef>>, table: Seq<char>, column: Seq<char>) -> Option<int> {
    if tables.contains_key(table) {
        col_from(tables[table], column, 0)
    } else {
        None
    }
}

/// Resolve the column of an index against the recovered catalog; a missing
/// table or column is catalog corruption.
pub fn index_source(tables: &Vec<(String, Vec<ColumnDef>)>, idx: &IndexDef) -> (r: Result<usize, MetaError>)
    requires
        tables_unique(tables@),
    ensures
        match index_source_spec(table_map(tables@), idx.table@, idx.column@) {
            Some(i) => r == Ok::<usize, MetaError>(i as usize),
            None => r matches Err(MetaError::CatalogCorrupt { .. }),
        },
{
    match find_table(tables, idx.table.as_str()) {
        None => {
            proof { lemma_table_map_keys(tables@, idx.table@); }
            Err(MetaError::CatalogCorrupt {
                table: idx.table.clone(),
                reason: join2("an index references a missing table: ", idx.name.as_str()),
            })
        },
        Some(k) => {
            proof { lemma_table_map_has(tables@, k as int); }
            match col_pos(tables[k].1.as_slice(), idx.column.as_str()) {
                Ok(p) => Ok(p),
                Err(e) => Err(MetaError::CatalogCorrupt { table: idx.table.clone(), reason: e }),
            }
        },
    }
}

/// The entries of an index rebuilt from committed rows: for each row, in
/// order, whose value in the column is not NULL, the value's key and the
/// row id.
pub open spec fn index_entries_spec(rows: Seq<(u64, Row)>, col: usize) -> Seq<(Seq<u8>, u64)>
    decreases rows.len(),
{
    if rows.len() == 0 {
        Seq::empty()
    } else {
        let rest = index_entries_spec(rows.drop_last(), col);
        let (rid, row) = rows.last();
        match index_key_spec(row@[col as int].deep_view()) {
            Some(k) => rest.push((k, rid)),
            None => rest,
        }
    }
}

/// Rebuild the entries of an index from committed rows that all have the
/// column (see [`index_entries_spec`]).
pub fn index_entries(rows: &Vec<(u64, Row)>, col: usize) -> (r: Vec<(Vec<u8>, u64)>)
    requires
        forall|k: int| 0 <= k < rows@.len() ==> col < (#[trigger] rows@[k]).1@.len(),
    ensures
        r@.map_values(|e: (Vec<u8>, u64)| (e.0@, e.1)) == index_entries_spec(rows@, col),
{
    let mut out: Vec<(Vec<u8>, u64)> = Vec::new();
    let mut i: usize = 0;
    while i < rows.len()
        invariant
            i <= rows@.len(),
            forall|k: int| 0 <= k < rows@.len() ==> col < (#[trigger] rows@[k]).1@.len(),
            out@.map_values(|e: (Vec<u8>, u64)| (e.0@, e.1)) == index_entries_spec(rows@.take(i as int), col),
        decreases rows@.len() - i,
    {
        assert(rows@.take(i + 1).drop_last() =~= rows@.take(i as int));
        assert(rows@.take(i + 1).last() == rows@[i as int]);
        let v = &rows[i].1[col];
        match index_key_encode(v) {
            Ok(key) => {
                let ghost o0 = out@.map_values(|e: (Vec<u8>, u64)| (e.0@, e.1));
                let ghost kv = key@;
                out.push((key, rows[i].0));
                assert(out@.map_values(|e: (Vec<u8>, u64)| (e.0@, e.1)) =~= o0.push((kv, rows@[i as int].0)));
            },
            Err(_) => {},
        }
        i = i + 1;
    }
    assert(rows@.take(rows@.len() as int) =~= rows@);
    out
}

// ── row-id counters ───────────────────────────────────────────────────

/// Whether a byte is an ASCII digit.
pub open spec fn is_digit_byte(b: u8) -> bool {
    48 <= b <= 57
}

/// The value of a non-empty run of ASCII digits; `None` for an empty run
/// or one with another byte.
pub open spec fn digits_value(s: Seq<u8>) -> Option<nat>
    decreases s.len(),
{
    if s.len() == 0 || !is_digit_byte(s.last()) {
        None
    } else if s.len() == 1 {
        Some((s.last() - 48) as nat)
    } else {
        match digits_value(s.drop_last()) {
            Some(v) => Some(v * 10 + (s.last() - 48) as nat),
            None => None,
        }
    }
}

/// The value of a decimal numeral as an unsigned 64-bit number reads it:
/// an optional `+`, then digits; `None` when it is no numeral or too large.
pub open spec fn numeral_value(s: Seq<u8>) -> Option<u64> {
    let v = if s.len() > 0 && s[0] == 43u8 { digits_value(s.drop_first()) } else { digits_value(s) };
    match v {
        Some(x) => if x <= u64::MAX { Some(x as u64) } else { None },
        None => None,
    }
}

/// The row-key prefix of a table: its UTF-8 name and byte 1.
pub open spec fn row_prefix(table: Seq<char>) -> Seq<u8> {
    vstd::utf8::encode_utf8(table) + seq![1u8]
}

/// The largest row id among keys (each starting with the prefix): the
/// numerals after the prefix.
pub open spec fn max_row_id(keys: Seq<Seq<u8>>, plen: nat) -> Option<u64>
    decreases keys.len(),
{
    if keys.len() == 0 {
        None
    } else {
        let m = max_row_id(keys.drop_last(), plen);
        match numeral_value(keys.last().skip(plen as int)) {
            None => m,
            Some(v) => match m {
                None => Some(v),
                Some(w) => Some(if v > w { v } else { w }),
            },
        }
    }
}

proof fn lemma_digits_grow(s: Seq<u8>, j: int)
    requires
        1 <= j <= s.len(),
        digits_value(s.take(j)) is Some,
        digits_value(s) is Some,
    ensures
        digits_value(s)->0 >= digits_value(s.take(j))->0,
    decreases s.len() - j,
{
    if j < s.len() {
        assert(s.drop_last().take(j) =~= s.take(j));
        assert(s.len() > 1);
        lemma_digits_grow(s.drop_last(), j);
    } else {
        assert(s.take(j) =~= s);
    }
}

/// Read a numeral from `s` at `start` (see [`numeral_value`]).
fn read_numeral(s: &[u8], start: usize) -> (r: Option<u64>)
    requires
        start <= s@.len(),
    ensures
        r == numeral_value(s@.skip(start as int)),
{
    let ghost t = s@.skip(start as int);
    let mut a: usize = start;
    if a < s.len() && s[a] == 43u8 {
        a = a + 1;
    }
    let ghost d = s@.subrange(a as int, s@.len() as int);
    assert(d =~= (if t.len() > 0 && t[0] == 43u8 { t.drop_first() } else { t }));
    if a >= s.len() {
        assert(d.len() == 0);
        return None;
    }
    let mut v: u64 = 0;
    let mut i: usize = a;
    while i < s.len()
        invariant
            start <= a < s@.len(),
            a <= i <= s@.len(),
            d == s@.subrange(a as int, s@.len() as int),
            t == s@.skip(start as int),
            d == (if t.len() > 0 && t[0] == 43u8 { t.drop_first() } else { t }),
            i > a ==> digits_value(s@.subrange(a as int, i as int)) == Some(v as nat),
            i == a ==> v == 0,
        decreases s@.len() - i,
    {
        let b = s[i];
        assert(s@.subrange(a as int, i + 1).drop_last() =~= s@.subrange(a as int, i as int));
        assert(s@.subrange(a as int, i + 1).last() == b);
        if b < 48u8 || b > 57u8 {
            proof {
                let j = (i + 1 - a) as int;
                assert(d.take(j) =~= s@.subrange(a as int, i + 1));
                assert(digits_value(s@.subrange(a as int, i + 1)) is None);
                lemma_digits_none_extends(d, j);
                assert(numeral_value(t) is None);
            }
            return None;
        }
        let dig: u64 = (b - 48u8) as u64;
        if v > 1844674407370955161u64 || (v == 1844674407370955161u64 && dig > 5) {
            proof {
                let j = (i + 1 - a) as int;
                assert(d.take(j) =~= s@.subrange(a as int, i + 1));
                assert(d.take(j) =~= s@.subrange(a as int, i + 1));
                if i == a {
                    assert(v == 0);
                    assert(digits_value(d.take(j)) == Some(dig as nat));
                } else {
                    assert(d.take(j).drop_last() =~= s@.subrange(a as int, i as int));
                    assert(digits_value(d.take(j)) == Some(v as nat * 10 + dig as nat));
                }
                if digits_value(d) is Some {
                    lemma_digits_grow(d, j);
                }
                assert(numeral_value(t) is None);
            }
            return None;
        }
        v = v * 10 + dig;
        i = i + 1;
    }
    assert(s@.subrange(a as int, s@.len() as int) =~= d);
    Some(v)
}

proof fn lemma_digits_none_extends(s: Seq<u8>, j: int)
    requires
        1 <= j <= s.len(),
        digits_value(s.take(j)) is None,
    ensures
        digits_value(s) is None,
    decreases s.len() - j,
{
    if j < s.len() {
        assert(s.drop_last().take(j) =~= s.take(j));
        lemma_digits_none_extends(s.drop_last(), j);
    } else {
        assert(s.take(j) =~= s);
    }
}

/// The next row id of a table after recovery: one more than the largest
/// committed row id read from its row keys (the numeral after the table's
/// name and byte 1), or 0 when there is none; one more than the largest
/// 64-bit id wraps to 0.
pub fn next_row_id(table: &str, keys: &Vec<Vec<u8>>) -> (r: u64)
    requires
        forall|k: int| 0 <= k < keys@.len() ==> (#[trigger] keys@[k])@.len() >= row_prefix(table@).len()
            && keys@[k]@.take(row_prefix(table@).len() as int) == row_prefix(table@),
    ensures
        r == match max_row_id(keys@.map_values(|k: Vec<u8>| k@), row_prefix(table@).len()) {
            Some(m) => if m == u64::MAX { 0u64 } else { (m + 1) as u64 },
            None => 0u64,
        },
{
    if keys.len() == 0 {
        return 0;
    }
    let tb = table.as_bytes();
    let k0: usize = keys[0].len();
    assert(k0 >= row_prefix(table@).len());
    assert(tb@.len() == encode_utf8(table@).len());
    let plen: usize = tb.len() + 1;
    let ghost kv = keys@.map_values(|k: Vec<u8>| k@);
    let mut best: Option<u64> = None;
    let mut i: usize = 0;
    while i < keys.len()
        invariant
            i <= keys@.len(),
            plen == row_prefix(table@).len(),
            kv == keys@.map_values(|k: Vec<u8>| k@),
            forall|k: int| 0 <= k < keys@.len() ==> (#[trigger] keys@[k])@.len() >= row_prefix(table@).len(),
            best == max_row_id(kv.take(i as int), plen as nat),
        decreases keys@.len() - i,
    {
        assert(kv.take(i + 1).drop_last() =~= kv.take(i as int));
        assert(kv.take(i + 1).last() == keys@[i as int]@);
        let key = &keys[i];
        match read_numeral(key.as_slice(), plen) {
            Some(v) => {
                best = match best {
                    None => Some(v),
                    Some(w) => Some(if v > w { v } else { w }),
                };
            },
            None => {},
        }
        i = i + 1;
    }
    assert(kv.take(keys@.len() as int) =~= kv);
    match best {
        Some(m) => if m == u64::MAX { 0 } else { m + 1 },
        None => 0,
    }
}

} // verus!

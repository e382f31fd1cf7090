//! Database directory layout names and the versioned metadata record.
//!
//! `db.meta` holds the magic `QMDBMETA` and five little-endian 32-bit
//! numbers: the metadata encoding version, then the database, storage
//! format, WAL and catalog versions (28 bytes). Opening a database checks
//! every version against the current one and refuses a mismatch.
use vstd::prelude::*;
use crate::codec::{from_le32, le32, push_le32};

verus! {

/// Version of the `db.meta` encoding itself.
pub const META_VERSION: u32 = 1;
/// Application database version.
pub const DB_VERSION: u32 = 1;
/// On-disk storage format version.
pub const FORMAT_VERSION: u32 = 1;
/// WAL frame/record format version.
pub const WAL_VERSION: u32 = 1;
/// Catalog record format version.
pub const CATALOG_VERSION: u32 = 1;

/// Canonical subdirectory and file names of a database root.
pub const WAL_DIR: &'static str = "wal";
pub const CATALOG_DIR: &'static str = "catalog";
pub const TABLES_DIR: &'static str = "tables";
pub const INDEXES_DIR: &'static str = "indexes";
pub const COLUMNAR_DIR: &'static str = "columnar";
pub const CHECKPOINTS_DIR: &'static str = "checkpoints";
pub const META_FILE: &'static str = "db.meta";
pub const WAL_FILE: &'static str = "wal.log";

/// The magic prefix of `db.meta`: the ASCII bytes of `QMDBMETA`.
pub open spec fn meta_magic() -> Seq<u8> {
    seq![81u8, 77u8, 68u8, 66u8, 77u8, 69u8, 84u8, 65u8]
}

/// The magic prefix of `db.meta`.
pub fn meta_magic_bytes() -> (r: Vec<u8>)
    ensures
        r@ == meta_magic(),
{
    let r = vec![81u8, 77u8, 68u8, 66u8, 77u8, 69u8, 84u8, 65u8];
    assert(r@ =~= meta_magic());
    r
}

/// Versioned metadata persisted in `db.meta`.
#[derive(Debug, Clone, Copy, PartialEq, Eq, Structural)]
pub struct DbMeta {
    pub db_version: u32,
    pub format_version: u32,
    pub wal_version: u32,
    pub catalog_version: u32,
}

/// Why metadata was refused.
#[derive(Debug, Clone, PartialEq, Eq)]
pub enum MetaError {
    /// Not a database of this engine (for `table`, with `reason`).
    CatalogCorrupt { table: String, reason: String },
    /// A version this build does not support.
    UnsupportedFormat { entity: &'static str, found: u32, expected: u32 },
}

/// The encoding of metadata: magic, then the five versions.
pub open spec fn meta_bytes(m: DbMeta) -> Seq<u8> {
    meta_magic() + le32(META_VERSION) + le32(m.db_version) + le32(m.format_version) + le32(m.wal_version)
        + le32(m.catalog_version)
}

/// Decoding `db.meta` bytes: `None` for a short input or wrong magic, the
/// found encoding version when it is not supported, else the metadata.
pub open spec fn meta_of_bytes(b: Seq<u8>) -> Result<DbMeta, Option<u32>> {
    if b.len() < 28 || b.subrange(0, 8) != meta_magic() {
        Err(None)
    } else if from_le32(b.subrange(8, 12)) != META_VERSION {
        Err(Some(from_le32(b.subrange(8, 12))))
    } else {
        Ok(DbMeta {
            db_version: from_le32(b.subrange(12, 16)),
            format_version: from_le32(b.subrange(16, 20)),
            wal_version: from_le32(b.subrange(20, 24)),
            catalog_version: from_le32(b.subrange(24, 28)),
        })
    }
}

/// The 32-bit word at `o` (little-endian).
fn read_le32(b: &[u8], o: usize) -> (r: u32)
    requires
        o + 4 <= b@.len(),
    ensures
        r == from_le32(b@.subrange(o as int, o + 4)),
{
    let ghost s = b@.subrange(o as int, o + 4);
    assert(s[0] == b@[o as int] && s[1] == b@[o + 1] && s[2] == b@[o + 2] && s[3] == b@[o + 3]);
    (b[o] as u32) | ((b[o + 1] as u32) << 8u32) | ((b[o + 2] as u32) << 16u32) | ((b[o + 3] as u32) << 24u32)
}

impl DbMeta {
    /// The versions this build writes and accepts.
    pub fn current() -> (r: Self)
        ensures
            r == (DbMeta {
                db_version: DB_VERSION,
                format_version: FORMAT_VERSION,
                wal_version: WAL_VERSION,
                catalog_version: CATALOG_VERSION,
            }),
    {
        DbMeta {
            db_version: DB_VERSION,
            format_version: FORMAT_VERSION,
            wal_version: WAL_VERSION,
            catalog_version: CATALOG_VERSION,
        }
    }

    /// The 28-byte encoding.
    pub fn encode(&self) -> (r: Vec<u8>)
        ensures
            r@ == meta_bytes(*self),
    {
        let mut out = meta_magic_bytes();
        push_le32(&mut out, META_VERSION);
        push_le32(&mut out, self.db_version);
        push_le32(&mut out, self.format_version);
        push_le32(&mut out, self.wal_version);
        push_le32(&mut out, self.catalog_version);
        out
    }

    /// Decode `db.meta` bytes (trailing bytes are ignored).
    pub fn decode(bytes: &[u8]) -> (r: Result<Self, MetaError>)
        ensures
            match meta_of_bytes(bytes@) {
                Ok(m) => r == Ok::<DbMeta, MetaError>(m),
                Err(None) => r matches Err(MetaError::CatalogCorrupt { .. }),
                Err(Some(v)) => r matches Err(MetaError::UnsupportedFormat { entity, found, expected })
                    && entity@ == "db.meta"@ && found == v && expected == META_VERSION,
            },
    {
        let magic = meta_magic_bytes();
        let mut ok = bytes.len() >= 28;
        if ok {
            let mut i: usize = 0;
            while i < 8
                invariant
                    bytes@.len() >= 28,
                    i <= 8,
                    magic@ == meta_magic(),
                    ok == (forall|k: int| 0 <= k < i ==> bytes@[k] == magic@[k]),
                decreases 8 - i,
            {
                if bytes[i] != magic[i] {
                    ok = false;
                }
                i = i + 1;
            }
            assert(ok == (bytes@.subrange(0, 8) =~= meta_magic()));
        }
        if !ok {
            return Err(MetaError::CatalogCorrupt {
                table: String::from_str("<database>"),
                reason: String::from_str("db.meta magic mismatch (not a QuantsMind database)"),
            });
        }
        let meta_version = read_le32(bytes, 8);
        if meta_version != META_VERSION {
            return Err(MetaError::UnsupportedFormat { entity: "db.meta", found: meta_version, expected: META_VERSION });
        }
        Ok(DbMeta {
            db_version: read_le32(bytes, 12),
            format_version: read_le32(bytes, 16),
            wal_version: read_le32(bytes, 20),
            catalog_version: read_le32(bytes, 24),
        })
    }
}

/// The version check of one entity.
pub open spec fn version_ok(found: u32, expected: u32) -> bool {
    found == expected
}

fn validate_one(entity: &'static str, found: u32, expected: u32) -> (r: Result<(), MetaError>)
    ensures
        found == expected ==> r is Ok,
        found != expected ==> r == Err::<(), MetaError>(MetaError::UnsupportedFormat { entity, found, expected }),
{
    if found != expected {
        return Err(MetaError::UnsupportedFormat { entity, found, expected });
    }
    Ok(())
}

/// Reject metadata written by an incompatible engine version: the first
/// mismatch, in the order database, storage format, WAL, catalog.
pub fn validate(meta: &DbMeta) -> (r: Result<(), MetaError>)
    ensures
        r is Ok <==> *meta == DbMeta::current_spec(),
        meta.db_version != DB_VERSION ==> (r matches Err(MetaError::UnsupportedFormat { entity, found, expected })
            && entity@ == "database"@ && found == meta.db_version && expected == DB_VERSION),
        meta.db_version == DB_VERSION && meta.format_version != FORMAT_VERSION
            ==> (r matches Err(MetaError::UnsupportedFormat { entity, found, expected })
            && entity@ == "storage format"@ && found == meta.format_version && expected == FORMAT_VERSION),
        meta.db_version == DB_VERSION && meta.format_version == FORMAT_VERSION && meta.wal_version != WAL_VERSION
            ==> (r matches Err(MetaError::UnsupportedFormat { entity, found, expected })
            && entity@ == "WAL"@ && found == meta.wal_version && expected == WAL_VERSION),
        meta.db_version == DB_VERSION && meta.format_version == FORMAT_VERSION && meta.wal_version == WAL_VERSION
            && meta.catalog_version != CATALOG_VERSION
            ==> (r matches Err(MetaError::UnsupportedFormat { entity, found, expected })
            && entity@ == "catalog"@ && found == meta.catalog_version && expected == CATALOG_VERSION),
{
    let cur = DbMeta::current();
    match validate_one("database", meta.db_version, cur.db_version) {
        Ok(()) => {},
        Err(e) => {
            return Err(e);
        },
    }
    match validate_one("storage format", meta.format_version, cur.format_version) {
        Ok(()) => {},
        Err(e) => {
            return Err(e);
        },
    }
    match validate_one("WAL", meta.wal_version, cur.wal_version) {
        Ok(()) => {},
        Err(e) => {
            return Err(e);
        },
    }
    validate_one("catalog", meta.catalog_version, cur.catalog_version)
}

impl DbMeta {
    /// The current versions.
    pub open spec fn current_spec() -> DbMeta {
        DbMeta {
            db_version: DB_VERSION,
            format_version: FORMAT_VERSION,
            wal_version: WAL_VERSION,
            catalog_version: CATALOG_VERSION,
        }
    }
}

/// Decode and validate `db.meta` bytes: what opening a database accepts.
pub fn check_meta(bytes: &[u8]) -> (r: Result<DbMeta, MetaError>)
    ensures
        r is Ok <==> meta_of_bytes(bytes@) == Ok::<DbMeta, Option<u32>>(DbMeta::current_spec()),
        r is Ok ==> r == Ok::<DbMeta, MetaError>(DbMeta::current_spec()),
        meta_of_bytes(bytes@) == Err::<DbMeta, Option<u32>>(None) ==> r matches Err(MetaError::CatalogCorrupt { .. }),
        meta_of_bytes(bytes@) matches Err(Some(v)) ==> (r matches Err(MetaError::UnsupportedFormat { entity, found, expected })
            && entity@ == "db.meta"@ && found == v && expected == META_VERSION),
        meta_of_bytes(bytes@) matches Ok(m) && m != DbMeta::current_spec() ==> r matches Err(MetaError::UnsupportedFormat { .. }),
{
    let meta = match DbMeta::decode(bytes) {
        Ok(m) => m,
        Err(e) => {
            return Err(e);
        },
    };
    match validate(&meta) {
        Ok(()) => Ok(meta),
        Err(e) => Err(e),
    }
}

proof fn lemma_le32_bytes(b: Seq<u8>)
    requires
        b.len() == 4,
    ensures
        le32(from_le32(b)) == b,
{
    let (b0, b1, b2, b3) = (b[0], b[1], b[2], b[3]);
    let u = from_le32(b);
    assert(u == (b0 as u32) | ((b1 as u32) << 8u32) | ((b2 as u32) << 16u32) | ((b3 as u32) << 24u32));
    assert(((((b0 as u32) | ((b1 as u32) << 8u32) | ((b2 as u32) << 16u32) | ((b3 as u32) << 24u32))) as u8) == b0
        && ((((b0 as u32) | ((b1 as u32) << 8u32) | ((b2 as u32) << 16u32) | ((b3 as u32) << 24u32)) >> 8u32) as u8) == b1
        && ((((b0 as u32) | ((b1 as u32) << 8u32) | ((b2 as u32) << 16u32) | ((b3 as u32) << 24u32)) >> 16u32) as u8) == b2
        && ((((b0 as u32) | ((b1 as u32) << 8u32) | ((b2 as u32) << 16u32) | ((b3 as u32) << 24u32)) >> 24u32) as u8) == b3)
        by (bit_vector);
    assert(le32(u) =~= b);
}

/// Metadata decodes back from its encoding.
pub proof fn lemma_meta_roundtrip(m: DbMeta)
    ensures
        meta_of_bytes(meta_bytes(m)) == Ok::<DbMeta, Option<u32>>(m),
{
    let b = meta_bytes(m);
    crate::codec::lemma_le32_roundtrip(META_VERSION);
    crate::codec::lemma_le32_roundtrip(m.db_version);
    crate::codec::lemma_le32_roundtrip(m.format_version);
    crate::codec::lemma_le32_roundtrip(m.wal_version);
    crate::codec::lemma_le32_roundtrip(m.catalog_version);
    assert(b.subrange(0, 8) =~= meta_magic());
    assert(b.subrange(8, 12) =~= le32(META_VERSION));
    assert(b.subrange(12, 16) =~= le32(m.db_version));
    assert(b.subrange(16, 20) =~= le32(m.format_version));
    assert(b.subrange(20, 24) =~= le32(m.wal_version));
    assert(b.subrange(24, 28) =~= le32(m.catalog_version));
}

/// Bytes that decode are, in their first 28 bytes, the encoding of what
/// they decode to.
pub proof fn lemma_meta_decode_encodes(b: Seq<u8>)
    requires
        meta_of_bytes(b) is Ok,
    ensures
        meta_bytes(meta_of_bytes(b)->Ok_0) == b.subrange(0, 28),
{
    let m = meta_of_bytes(b)->Ok_0;
    lemma_le32_bytes(b.subrange(8, 12));
    lemma_le32_bytes(b.subrange(12, 16));
    lemma_le32_bytes(b.subrange(16, 20));
    lemma_le32_bytes(b.subrange(20, 24));
    lemma_le32_bytes(b.subrange(24, 28));
    assert(meta_bytes(m) =~= b.subrange(0, 28));
}

/// What this build writes, it opens: the current metadata's encoding passes
/// the check.
pub proof fn lemma_current_meta_accepted()
    ensures
        meta_of_bytes(meta_bytes(DbMeta::current_spec())) == Ok::<DbMeta, Option<u32>>(DbMeta::current_spec()),
{
    lemma_meta_roundtrip(DbMeta::current_spec());
}

} // verus!

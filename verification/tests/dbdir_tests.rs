use qmind_sql::dbdir::{check_meta, meta_magic_bytes, validate, DbMeta, MetaError, META_VERSION};

#[test]
fn meta_encode_layout_and_roundtrip() {
    let m = DbMeta { db_version: 1, format_version: 2, wal_version: 3, catalog_version: 0x01020304 };
    let bytes = m.encode();
    assert_eq!(bytes.len(), 28);
    assert_eq!(&bytes[..8], b"QMDBMETA");
    assert_eq!(&bytes[8..12], &META_VERSION.to_le_bytes());
    assert_eq!(&bytes[24..28], &[4, 3, 2, 1]);
    assert_eq!(DbMeta::decode(&bytes), Ok(m));
    let mut longer = bytes.clone();
    longer.extend_from_slice(b"trailing");
    assert_eq!(DbMeta::decode(&longer), Ok(m));
}

#[test]
fn meta_magic_is_ascii_name() {
    assert_eq!(meta_magic_bytes(), b"QMDBMETA".to_vec());
}

#[test]
fn meta_decode_rejects_bad_magic_and_short_input() {
    let mut bytes = DbMeta::current().encode();
    bytes[0] = b'X';
    assert!(matches!(DbMeta::decode(&bytes), Err(MetaError::CatalogCorrupt { .. })));
    let good = DbMeta::current().encode();
    assert!(matches!(DbMeta::decode(&good[..27]), Err(MetaError::CatalogCorrupt { .. })));
    assert!(matches!(check_meta(&[]), Err(MetaError::CatalogCorrupt { .. })));
}

#[test]
fn meta_decode_rejects_unknown_meta_version() {
    let mut bytes = DbMeta::current().encode();
    bytes[8] = 9;
    assert_eq!(
        DbMeta::decode(&bytes),
        Err(MetaError::UnsupportedFormat { entity: "db.meta", found: 9, expected: META_VERSION })
    );
}

#[test]
fn validate_reports_first_mismatch() {
    assert_eq!(validate(&DbMeta::current()), Ok(()));
    let m = DbMeta { db_version: 1, format_version: 1, wal_version: 7, catalog_version: 8 };
    assert_eq!(validate(&m), Err(MetaError::UnsupportedFormat { entity: "WAL", found: 7, expected: 1 }));
    let m = DbMeta { db_version: 5, format_version: 6, wal_version: 7, catalog_version: 8 };
    assert_eq!(validate(&m), Err(MetaError::UnsupportedFormat { entity: "database", found: 5, expected: 1 }));
    let m = DbMeta { db_version: 1, format_version: 1, wal_version: 1, catalog_version: 2 };
    assert_eq!(validate(&m), Err(MetaError::UnsupportedFormat { entity: "catalog", found: 2, expected: 1 }));
}

#[test]
fn check_meta_accepts_what_this_build_writes() {
    let bytes = DbMeta::current().encode();
    assert_eq!(check_meta(&bytes), Ok(DbMeta::current()));
    let other = DbMeta { db_version: 1, format_version: 4, wal_version: 1, catalog_version: 1 }.encode();
    assert_eq!(
        check_meta(&other),
        Err(MetaError::UnsupportedFormat { entity: "storage format", found: 4, expected: 1 })
    );
}

use cb_core::models::{ClipboardEntry, ContentType, StorageError};
use cb_core::migrate::prepare_attach_statement;
use cb_core::sanitize::build_fts_query;
use cb_core::schema::{needs_fts_rebuild, normalize_timestamp};
use cb_core::store::Storage;

fn text_row(id: i64, text: &str, created_at: i64, copy_count: i64, first_copied_at: i64) -> ClipboardEntry {
    ClipboardEntry {
        id,
        content_type: ContentType::PlainText,
        text_content: Some(text.to_string()),
        image_data: None,
        source_app: Some("App".to_string()),
        created_at,
        copy_count,
        first_copied_at,
    }
}

#[test]
fn test_content_type_names_round_trip() {
    for ct in [
        ContentType::PlainText,
        ContentType::RichText,
        ContentType::Image,
        ContentType::FilePath,
    ] {
        assert_eq!(ContentType::from_str(ct.as_str()), ct);
    }
    assert_eq!(ContentType::PlainText.as_str(), "PlainText");
    assert_eq!(ContentType::RichText.as_str(), "RichText");
    assert_eq!(ContentType::Image.as_str(), "Image");
    assert_eq!(ContentType::FilePath.as_str(), "FilePath");
    // unknown names fall back to plain text
    assert_eq!(ContentType::from_str("Video"), ContentType::PlainText);
    assert_eq!(ContentType::from_str(""), ContentType::PlainText);
}

#[test]
fn test_normalize_timestamp_heuristic() {
    // positive values below ten billion are taken for seconds
    assert_eq!(normalize_timestamp(1_600_000_000), 1_600_000_000_000);
    assert_eq!(normalize_timestamp(1), 1_000);
    assert_eq!(normalize_timestamp(9_999_999_999), 9_999_999_999_000);
    // everything else is already milliseconds, or not a timestamp at all
    assert_eq!(normalize_timestamp(10_000_000_000), 10_000_000_000);
    assert_eq!(normalize_timestamp(1_600_000_000_000), 1_600_000_000_000);
    assert_eq!(normalize_timestamp(0), 0);
    assert_eq!(normalize_timestamp(-5), -5);
}

#[test]
fn test_needs_fts_rebuild_on_mismatch() {
    assert!(!needs_fts_rebuild(3, 3));
    assert!(needs_fts_rebuild(2, 3));
    assert!(needs_fts_rebuild(3, 0));
    assert!(!needs_fts_rebuild(0, 0));
}

#[test]
fn test_prepare_attach_statement_builds_batch() {
    let sql = prepare_attach_statement("/tmp/enc.db", "secret-key").unwrap();
    assert_eq!(
        sql,
        "ATTACH DATABASE '/tmp/enc.db' AS encrypted KEY 'secret-key'; \
         SELECT sqlcipher_export('encrypted'); DETACH DATABASE encrypted;"
    );
}

#[test]
fn test_prepare_attach_statement_rejects_bad_input() {
    assert_eq!(
        prepare_attach_statement("bad'path.db", "key"),
        Err(StorageError::InvalidPath)
    );
    assert_eq!(
        prepare_attach_statement("path\0.db", "key"),
        Err(StorageError::InvalidPath)
    );
    assert_eq!(
        prepare_attach_statement("path.db", "bad'key"),
        Err(StorageError::InvalidKey)
    );
    assert_eq!(
        prepare_attach_statement("path.db", "bad\0key"),
        Err(StorageError::InvalidKey)
    );
}

#[test]
fn test_build_fts_query_sanitizes() {
    let chars = |s: &str| s.chars().collect::<Vec<char>>();

    // trimmed, stars stripped, wrapped as a quoted prefix phrase
    assert_eq!(build_fts_query(&chars("  hel*lo ")).unwrap(), "\"hello\"*");
    // embedded quotes are doubled
    assert_eq!(build_fts_query(&chars("he\"llo")).unwrap(), "\"he\"\"llo\"*");
    // nothing searchable left means no query at all
    assert!(build_fts_query(&chars("")).is_none());
    assert!(build_fts_query(&chars("   ")).is_none());
    assert!(build_fts_query(&chars("***")).is_none());
    // stripping happens after trimming, so an inner space survives
    assert_eq!(build_fts_query(&chars(" * * ")).unwrap(), "\" \"*");
}

#[test]
fn test_from_rows_normalizes_legacy_rows() {
    // a row written in second granularity, before the copy-count and
    // first-copied columns existed
    let legacy = ClipboardEntry {
        copy_count: 0,
        first_copied_at: 0,
        ..text_row(7, "old text", 1_600_000_000, 0, 0)
    };
    let modern = text_row(3, "new text", 1_700_000_000_000, 2, 1_650_000_000_000);
    let storage = Storage::from_rows(vec![legacy, modern]).unwrap();

    let entries = storage.get_recent_entries(10).unwrap();
    assert_eq!(entries.len(), 2);
    // the modern row is newer and lists first
    assert_eq!(entries[0].id, 3);
    assert_eq!(entries[1].id, 7);
    // the legacy row was brought to milliseconds, backfilled and clamped
    assert_eq!(entries[1].created_at, 1_600_000_000_000);
    assert_eq!(entries[1].first_copied_at, 1_600_000_000_000);
    assert_eq!(entries[1].copy_count, 1);

    // ids resume past the largest loaded id
    let mut storage = storage;
    let next = storage
        .insert_text_entry(&ContentType::PlainText, "fresh", "App")
        .unwrap();
    assert!(next > 7);
}

#[test]
fn test_from_rows_refuses_bad_rows() {
    // a repeated id
    let r = Storage::from_rows(vec![
        text_row(1, "a", 1_000, 1, 1_000),
        text_row(1, "b", 2_000, 1, 2_000),
    ]);
    assert_eq!(r.err(), Some(StorageError::InvalidRow));

    // a non-positive id
    let r = Storage::from_rows(vec![text_row(0, "a", 1_000, 1, 1_000)]);
    assert_eq!(r.err(), Some(StorageError::InvalidRow));

    // both payloads at once
    let mut both = text_row(2, "a", 1_000, 1, 1_000);
    both.image_data = Some(vec![1, 2, 3]);
    let r = Storage::from_rows(vec![both]);
    assert_eq!(r.err(), Some(StorageError::InvalidRow));

    // a negative timestamp
    let r = Storage::from_rows(vec![text_row(2, "a", -1, 1, 0)]);
    assert_eq!(r.err(), Some(StorageError::InvalidRow));

    // a binary payload on a non-image row
    let mut wrong_type = text_row(2, "a", 1_000, 1, 1_000);
    wrong_type.text_content = None;
    wrong_type.image_data = Some(vec![1]);
    let r = Storage::from_rows(vec![wrong_type]);
    assert_eq!(r.err(), Some(StorageError::InvalidRow));
}

#[test]
fn test_from_rows_empty_is_fresh_store() {
    let mut storage = Storage::from_rows(Vec::new()).unwrap();
    assert_eq!(storage.get_recent_entries(10).unwrap().len(), 0);
    let id = storage
        .insert_text_entry(&ContentType::PlainText, "first", "App")
        .unwrap();
    assert_eq!(id, 1);
}

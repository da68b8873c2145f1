use cb_core::models::ContentType;
use cb_core::store::Storage;

#[test]
fn test_search_entries_basic() {
    let mut storage = Storage::new_in_memory().unwrap();
    storage
        .insert_text_entry(&ContentType::PlainText, "Hello world", "App")
        .unwrap();
    storage
        .insert_text_entry(&ContentType::PlainText, "Goodbye", "App")
        .unwrap();

    let results = storage.search_entries("Hello", 10).unwrap();
    assert_eq!(results.len(), 1);
    assert_eq!(results[0].text_content.as_deref(), Some("Hello world"));
}

#[test]
fn test_search_entries_prefix_match() {
    let mut storage = Storage::new_in_memory().unwrap();
    storage
        .insert_text_entry(&ContentType::PlainText, "Testing prefix", "App")
        .unwrap();
    storage
        .insert_text_entry(&ContentType::PlainText, "Another test", "App")
        .unwrap();

    let results = storage.search_entries("test", 10).unwrap();
    assert_eq!(results.len(), 2);
}

#[test]
fn test_search_entries_empty_query_fallback() {
    let mut storage = Storage::new_in_memory().unwrap();
    storage
        .insert_text_entry(&ContentType::PlainText, "Entry 1", "App")
        .unwrap();
    storage
        .insert_text_entry(&ContentType::PlainText, "Entry 2", "App")
        .unwrap();

    let results = storage.search_entries("", 10).unwrap();
    assert_eq!(results.len(), 2);

    let results_whitespace = storage.search_entries("   ", 10).unwrap();
    assert_eq!(results_whitespace.len(), 2);
}

#[test]
fn test_search_entries_delete_sync() {
    let mut storage = Storage::new_in_memory().unwrap();
    let id = storage
        .insert_text_entry(&ContentType::PlainText, "Delete me", "App")
        .unwrap();

    let results_before = storage.search_entries("Delete", 10).unwrap();
    assert_eq!(results_before.len(), 1);

    storage.delete_entry(id).unwrap();

    let results_after = storage.search_entries("Delete", 10).unwrap();
    assert_eq!(results_after.len(), 0);
}

#[test]
fn test_search_excludes_image_typed_entries() {
    let mut storage = Storage::new_in_memory().unwrap();
    storage
        .insert_text_entry(&ContentType::PlainText, "test document", "App")
        .unwrap();
    // an entry classified as an image never surfaces in search, even
    // when it happens to carry text-like metadata
    storage
        .insert_text_entry(&ContentType::Image, "test metadata", "App")
        .unwrap();
    let image_data = vec![1u8, 2, 3];
    storage.insert_image_entry(&image_data, "App").unwrap();

    let results = storage.search_entries("test", 10).unwrap();
    assert_eq!(results.len(), 1);
    assert_eq!(results[0].text_content.as_deref(), Some("test document"));
}

#[test]
fn test_search_is_case_insensitive_and_word_anchored() {
    let mut storage = Storage::new_in_memory().unwrap();
    storage
        .insert_text_entry(&ContentType::PlainText, "Rustacean notes", "App")
        .unwrap();
    storage
        .insert_text_entry(&ContentType::PlainText, "trust me", "App")
        .unwrap();

    // matches a word prefix regardless of case, but not the middle of a word
    let results = storage.search_entries("rust", 10).unwrap();
    assert_eq!(results.len(), 1);
    assert_eq!(results[0].text_content.as_deref(), Some("Rustacean notes"));
}

#[test]
fn test_search_strips_wildcard_stars() {
    let mut storage = Storage::new_in_memory().unwrap();
    storage
        .insert_text_entry(&ContentType::PlainText, "Hello world", "App")
        .unwrap();
    storage
        .insert_text_entry(&ContentType::PlainText, "Goodbye", "App")
        .unwrap();

    // the prefix-wildcard operator is stripped, not interpreted
    let results = storage.search_entries("He*llo", 10).unwrap();
    assert_eq!(results.len(), 1);
    assert_eq!(results[0].text_content.as_deref(), Some("Hello world"));

    // a query of nothing but operators falls back to the listing
    let results = storage.search_entries("***", 10).unwrap();
    assert_eq!(results.len(), 2);
}

#[test]
fn test_get_entries_before_with_cursor() {
    let mut storage = Storage::new_in_memory().unwrap();

    // Insert 5 entries with controlled timestamps
    let base = 1_000_000_000_000i64;
    let mut timestamps = Vec::new();
    for i in 0..5i64 {
        let ts = base + i;
        storage
            .insert_text_at(&ContentType::PlainText, &format!("Entry {i}"), "App", ts)
            .unwrap();
        timestamps.push(ts);
    }

    // Get entries before the 3rd entry's timestamp (should return entries 0 and 1)
    let entries = storage.get_entries_before(timestamps[2], 10).unwrap();
    assert_eq!(entries.len(), 2);
    assert_eq!(entries[0].text_content.as_deref(), Some("Entry 1"));
    assert_eq!(entries[1].text_content.as_deref(), Some("Entry 0"));
}

#[test]
fn test_get_entries_before_zero_timestamp() {
    let mut storage = Storage::new_in_memory().unwrap();
    storage
        .insert_text_entry(&ContentType::PlainText, "Entry 1", "App")
        .unwrap();
    storage
        .insert_text_entry(&ContentType::PlainText, "Entry 2", "App")
        .unwrap();

    // before_timestamp=0 should behave like get_recent_entries
    let entries = storage.get_entries_before(0, 10).unwrap();
    assert_eq!(entries.len(), 2);
}

#[test]
fn test_get_entries_before_empty_db() {
    let storage = Storage::new_in_memory().unwrap();
    let entries = storage.get_entries_before(999999999, 10).unwrap();
    assert_eq!(entries.len(), 0);
}

#[test]
fn test_get_entries_before_boundary() {
    let mut storage = Storage::new_in_memory().unwrap();

    // Insert 3 entries with same timestamp
    let ts = 1_000_000_000_000i64;
    for i in 0..3 {
        storage
            .insert_text_at(&ContentType::PlainText, &format!("Entry {i}"), "App", ts)
            .unwrap();
    }

    // Query with that exact timestamp should exclude all entries
    let entries = storage.get_entries_before(ts, 10).unwrap();
    assert_eq!(entries.len(), 0);

    // Query with timestamp+1 should include all entries
    let entries = storage.get_entries_before(ts + 1, 10).unwrap();
    assert_eq!(entries.len(), 3);
}

#[test]
fn test_millisecond_precision_ordering() {
    let mut storage = Storage::new_in_memory().unwrap();
    // Insert entries with 1ms difference
    let base_ts = 1_000_000_000_000i64;
    for i in 0..3i64 {
        storage
            .insert_text_at(&ContentType::PlainText, &format!("Entry {i}"), "App", base_ts + i)
            .unwrap();
    }

    let entries = storage.get_recent_entries(10).unwrap();
    assert_eq!(entries.len(), 3);
    assert_eq!(entries[0].text_content.as_deref(), Some("Entry 2"));
    assert_eq!(entries[2].text_content.as_deref(), Some("Entry 0"));
}

#[test]
fn test_recent_ties_broken_by_id() {
    let mut storage = Storage::new_in_memory().unwrap();
    let ts = 42_000i64;
    let a = storage
        .insert_text_at(&ContentType::PlainText, "older id", "App", ts)
        .unwrap();
    let b = storage
        .insert_text_at(&ContentType::PlainText, "newer id", "App", ts)
        .unwrap();
    assert!(b > a);

    let entries = storage.get_recent_entries(10).unwrap();
    assert_eq!(entries[0].id, b);
    assert_eq!(entries[1].id, a);
}

#[test]
fn test_negative_limit_means_no_bound() {
    let mut storage = Storage::new_in_memory().unwrap();
    for i in 0..4 {
        storage
            .insert_text_entry(&ContentType::PlainText, &format!("Entry {i}"), "App")
            .unwrap();
    }
    let entries = storage.get_recent_entries(-1).unwrap();
    assert_eq!(entries.len(), 4);
}

#[test]
fn test_search_unicode_whitespace_fallback() {
    let mut storage = Storage::new_in_memory().unwrap();
    storage
        .insert_text_entry(&ContentType::PlainText, "hello", "App")
        .unwrap();

    // queries of nothing but Unicode whitespace fall back to the listing
    let results = storage.search_entries("\u{a0}", 10).unwrap();
    assert_eq!(results.len(), 1);
    let results = storage.search_entries("\u{2003}\u{a0}\u{3000}", 10).unwrap();
    assert_eq!(results.len(), 1);
}

#[test]
fn test_search_trims_unicode_whitespace() {
    let mut storage = Storage::new_in_memory().unwrap();
    storage
        .insert_text_entry(&ContentType::PlainText, "hello world", "App")
        .unwrap();
    storage
        .insert_text_entry(&ContentType::PlainText, "goodbye", "App")
        .unwrap();

    // Unicode whitespace at the edges is trimmed off the phrase
    let results = storage.search_entries("\u{a0}hello\u{3000}", 10).unwrap();
    assert_eq!(results.len(), 1);
    assert_eq!(results[0].text_content.as_deref(), Some("hello world"));
}

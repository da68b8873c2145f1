use cb_core::models::ContentType;
use cb_core::store::Storage;

#[test]
fn test_insert_and_get_text_entry() {
    let mut storage = Storage::new_in_memory().unwrap();
    let id = storage
        .insert_text_entry(&ContentType::PlainText, "Hello, world!", "TestApp")
        .unwrap();
    assert!(id > 0);

    let entries = storage.get_recent_entries(10).unwrap();
    assert_eq!(entries.len(), 1);
    assert_eq!(entries[0].text_content.as_deref(), Some("Hello, world!"));
    assert_eq!(entries[0].source_app.as_deref(), Some("TestApp"));
}

#[test]
fn test_insert_and_get_image_entry() {
    let mut storage = Storage::new_in_memory().unwrap();
    let image_data = vec![0xFF, 0xD8, 0xFF, 0xE0];
    let id = storage.insert_image_entry(&image_data, "Preview").unwrap();
    assert!(id > 0);

    let entries = storage.get_recent_entries(10).unwrap();
    assert_eq!(entries.len(), 1);
    assert!(entries[0].image_data.is_none()); // list queries don't fetch image_data
    let fetched = storage.get_entry_image(entries[0].id).unwrap();
    assert_eq!(fetched.as_deref(), Some(image_data.as_slice()));
}

#[test]
fn test_delete_entry() {
    let mut storage = Storage::new_in_memory().unwrap();
    let id = storage
        .insert_text_entry(&ContentType::PlainText, "Delete me", "TestApp")
        .unwrap();

    assert!(storage.delete_entry(id).unwrap());
    assert!(!storage.delete_entry(id).unwrap());

    let entries = storage.get_recent_entries(10).unwrap();
    assert_eq!(entries.len(), 0);
}

#[test]
fn test_get_entry_text() {
    let mut storage = Storage::new_in_memory().unwrap();
    let id = storage
        .insert_text_entry(&ContentType::PlainText, "Find me", "TestApp")
        .unwrap();

    let text = storage.get_entry_text(id).unwrap();
    assert_eq!(text.as_deref(), Some("Find me"));

    let missing = storage.get_entry_text(9999).unwrap();
    assert!(missing.is_none());
}

#[test]
fn test_get_entry_image() {
    let mut storage = Storage::new_in_memory().unwrap();
    let image_data = vec![0xFF, 0xD8, 0xFF, 0xE0];
    let id = storage.insert_image_entry(&image_data, "Preview").unwrap();

    let data = storage.get_entry_image(id).unwrap();
    assert_eq!(data.as_deref(), Some(image_data.as_slice()));

    let missing = storage.get_entry_image(9999).unwrap();
    assert!(missing.is_none());
}

#[test]
fn test_get_entry_image_for_text_entry() {
    let mut storage = Storage::new_in_memory().unwrap();
    let id = storage
        .insert_text_entry(&ContentType::PlainText, "Hello", "App")
        .unwrap();

    let data = storage.get_entry_image(id).unwrap();
    assert!(data.is_none());
}

#[test]
fn test_empty_database() {
    let storage = Storage::new_in_memory().unwrap();
    let entries = storage.get_recent_entries(10).unwrap();
    assert_eq!(entries.len(), 0);
}

#[test]
fn test_limit() {
    let mut storage = Storage::new_in_memory().unwrap();
    for i in 0..5 {
        storage
            .insert_text_entry(&ContentType::PlainText, &format!("Entry {i}"), "TestApp")
            .unwrap();
    }

    let entries = storage.get_recent_entries(3).unwrap();
    assert_eq!(entries.len(), 3);
}

#[test]
fn test_ordering() {
    let mut storage = Storage::new_in_memory().unwrap();
    storage
        .insert_text_at(&ContentType::PlainText, "First", "App", 1_000)
        .unwrap();
    storage
        .insert_text_at(&ContentType::PlainText, "Second", "App", 2_000)
        .unwrap();

    let entries = storage.get_recent_entries(10).unwrap();
    assert_eq!(entries[0].text_content.as_deref(), Some("Second"));
    assert_eq!(entries[1].text_content.as_deref(), Some("First"));
}

#[test]
fn test_touch_entry() {
    let mut storage = Storage::new_in_memory().unwrap();
    let id = storage
        .insert_text_at(&ContentType::PlainText, "Touch me", "App", 1_000)
        .unwrap();

    let entries = storage.get_recent_entries(10).unwrap();
    assert_eq!(entries[0].copy_count, 1);
    let original_first_copied = entries[0].first_copied_at;

    assert!(storage.touch_at(id, 2_000).unwrap());

    let entries = storage.get_recent_entries(10).unwrap();
    assert_eq!(entries[0].copy_count, 2);
    assert!(entries[0].created_at > original_first_copied);
    assert_eq!(entries[0].first_copied_at, original_first_copied);
}

#[test]
fn test_touch_entry_moves_to_top() {
    let mut storage = Storage::new_in_memory().unwrap();
    let id1 = storage
        .insert_text_at(&ContentType::PlainText, "First", "App", 1_000)
        .unwrap();
    storage
        .insert_text_at(&ContentType::PlainText, "Second", "App", 2_000)
        .unwrap();

    // Second is on top
    let entries = storage.get_recent_entries(10).unwrap();
    assert_eq!(entries[0].text_content.as_deref(), Some("Second"));

    // Touch first, it should move to top
    storage.touch_at(id1, 3_000).unwrap();
    let entries = storage.get_recent_entries(10).unwrap();
    assert_eq!(entries[0].text_content.as_deref(), Some("First"));
    assert_eq!(entries[0].copy_count, 2);
}

#[test]
fn test_touch_nonexistent_entry() {
    let mut storage = Storage::new_in_memory().unwrap();
    assert!(!storage.touch_entry(9999).unwrap());
}

#[test]
fn test_new_entry_has_copy_count_and_first_copied() {
    let mut storage = Storage::new_in_memory().unwrap();
    storage
        .insert_text_entry(&ContentType::PlainText, "Hello", "App")
        .unwrap();

    let entries = storage.get_recent_entries(10).unwrap();
    assert_eq!(entries[0].copy_count, 1);
    assert_eq!(entries[0].first_copied_at, entries[0].created_at);
}

#[test]
fn test_cleanup_old_entries() {
    let mut storage = Storage::new_in_memory().unwrap();

    // Insert old entry (simulate old timestamp, 100 days ago)
    let old_timestamp = cb_core::store::now_millis() - (100 * 86_400_000);
    storage
        .insert_text_at(&ContentType::PlainText, "Old entry", "App", old_timestamp)
        .unwrap();

    // Insert recent entry
    storage
        .insert_text_entry(&ContentType::PlainText, "Recent entry", "App")
        .unwrap();

    // Cleanup entries older than 30 days
    let deleted = storage.cleanup_old_entries(30).unwrap();
    assert_eq!(deleted, 1);

    let entries = storage.get_recent_entries(10).unwrap();
    assert_eq!(entries.len(), 1);
    assert_eq!(entries[0].text_content.as_deref(), Some("Recent entry"));
}

#[test]
fn test_cleanup_preserves_recent() {
    let mut storage = Storage::new_in_memory().unwrap();
    storage
        .insert_text_entry(&ContentType::PlainText, "Entry 1", "App")
        .unwrap();
    storage
        .insert_text_entry(&ContentType::PlainText, "Entry 2", "App")
        .unwrap();

    let deleted = storage.cleanup_old_entries(30).unwrap();
    assert_eq!(deleted, 0);

    let entries = storage.get_recent_entries(10).unwrap();
    assert_eq!(entries.len(), 2);
}

#[test]
fn test_cleanup_empty_db() {
    let mut storage = Storage::new_in_memory().unwrap();
    let deleted = storage.cleanup_old_entries(30).unwrap();
    assert_eq!(deleted, 0);
}

#[test]
fn test_cleanup_at_is_exact_and_idempotent() {
    let mut storage = Storage::new_in_memory().unwrap();
    storage
        .insert_text_at(&ContentType::PlainText, "old", "App", 1_000)
        .unwrap();
    storage
        .insert_text_at(&ContentType::PlainText, "kept", "App", 5_000)
        .unwrap();
    storage
        .insert_text_at(&ContentType::PlainText, "boundary", "App", 2_000)
        .unwrap();

    // strictly-older-than semantics: the entry at the cutoff survives
    let removed = storage.cleanup_at(2_000).unwrap();
    assert_eq!(removed, 1);
    let entries = storage.get_recent_entries(10).unwrap();
    assert_eq!(entries.len(), 2);
    assert_eq!(entries[0].text_content.as_deref(), Some("kept"));
    assert_eq!(entries[1].text_content.as_deref(), Some("boundary"));

    // running it again removes nothing
    assert_eq!(storage.cleanup_at(2_000).unwrap(), 0);
}

#[test]
fn test_insert_ids_are_positive_and_unique() {
    let mut storage = Storage::new_in_memory().unwrap();
    let mut ids = Vec::new();
    for i in 0..6 {
        let id = storage
            .insert_text_entry(&ContentType::PlainText, &format!("Entry {i}"), "App")
            .unwrap();
        assert!(id > 0);
        assert!(!ids.contains(&id));
        ids.push(id);
    }
    // an id freed by deletion is never assigned again
    let freed = ids[2];
    assert!(storage.delete_entry(freed).unwrap());
    let new_id = storage
        .insert_text_entry(&ContentType::PlainText, "Another", "App")
        .unwrap();
    assert_ne!(new_id, freed);
    assert!(!ids.contains(&new_id));
}

#[test]
fn test_touch_does_not_move_time_backwards() {
    let mut storage = Storage::new_in_memory().unwrap();
    let id = storage
        .insert_text_at(&ContentType::PlainText, "Hello", "App", 5_000)
        .unwrap();
    // a promotion stamped before the original copy time is clamped to it
    assert!(storage.touch_at(id, 1_000).unwrap());
    let entries = storage.get_recent_entries(10).unwrap();
    assert_eq!(entries[0].created_at, 5_000);
    assert_eq!(entries[0].first_copied_at, 5_000);
    assert_eq!(entries[0].copy_count, 2);
}

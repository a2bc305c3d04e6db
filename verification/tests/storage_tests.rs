use clipstack::entry::ClipboardEntryKind;
use clipstack::settings::{current_timestamp_ms, AppSettings};
use clipstack::storage::Storage;

fn storage() -> Storage {
    let media_dir = format!("clipstack-tests-{}", current_timestamp_ms());
    let mut storage = Storage::new(media_dir);
    storage.initialize().expect("schema");
    storage
}

#[test]
fn insert_skips_empty_values() {
    let mut storage = storage();
    let entry = storage.insert_text_entry("   ").expect("insert");
    assert!(entry.is_none());
}

#[test]
fn duplicate_text_updates_copy_count() {
    let mut storage = storage();
    let first = storage.insert_text_entry("hello world").expect("first");
    let second = storage.insert_text_entry("hello world").expect("second");
    assert!(first.is_some());
    assert!(second.is_some());
    let history = storage.get_history(None, Some(10)).expect("history");
    assert_eq!(history.len(), 1);
    assert_eq!(history[0].copy_count, 2);
}

#[test]
fn pin_and_delete_update_rows() {
    let mut storage = storage();
    let first = storage
        .insert_text_entry("pin me")
        .expect("insert")
        .expect("entry");
    storage.toggle_pin(first.id).expect("pin");
    let history = storage.get_history(None, Some(10)).expect("history");
    assert!(history[0].pinned);

    storage.delete_entry(first.id).expect("delete");
    let history = storage.get_history(None, Some(10)).expect("history");
    assert!(history.is_empty());
}

#[test]
fn cleanup_removes_oldest_unpinned_first() {
    let mut storage = storage();
    let settings = AppSettings {
        history_limit: 2,
        retention_days: 30,
        capture_enabled: true,
        launch_on_login: true,
        paste_on_select: true,
        hide_after_copy: true,
        show_on_launch: true,
    };

    let base = current_timestamp_ms();
    storage
        .insert_row("text", "text:one", "one", base, 0)
        .expect("seed one");
    storage
        .insert_row("text", "text:two", "two", base + 1, 0)
        .expect("seed two");
    storage
        .insert_row("text", "text:three", "three", base + 2, 0)
        .expect("seed three");

    storage.cleanup(&settings).expect("cleanup");
    let history = storage.get_history(None, Some(10)).expect("history");
    assert_eq!(history.len(), 2);
    assert!(history.iter().all(|entry| entry.content != "one"));
}

#[test]
fn cleanup_respects_pinned_rows() {
    let mut storage = storage();
    let first = storage
        .insert_text_entry("pinned")
        .expect("insert")
        .expect("entry");
    storage.toggle_pin(first.id).expect("pin");
    storage
        .insert_row(
            "text",
            "text:stale",
            "stale",
            current_timestamp_ms() - 90 * 24 * 60 * 60 * 1000_i64,
            0,
        )
        .expect("seed stale");

    let settings = AppSettings {
        history_limit: 250,
        retention_days: 30,
        capture_enabled: true,
        launch_on_login: true,
        paste_on_select: true,
        hide_after_copy: true,
        show_on_launch: true,
    };

    storage.cleanup(&settings).expect("cleanup");
    let history = storage.get_history(None, Some(10)).expect("history");
    assert_eq!(history.len(), 1);
    assert_eq!(history[0].content, "pinned");
    assert!(history[0].pinned);
}

#[test]
fn image_entries_are_stored_as_image_kind() {
    let mut storage = storage();
    let pixels = vec![
        255_u8, 0, 0, 255, 0, 255, 0, 255, 0, 0, 255, 255, 255, 255, 255, 255,
    ];
    let image = storage
        .insert_image_entry(&pixels, 2, 2)
        .expect("insert")
        .expect("entry");
    assert_eq!(image.kind, ClipboardEntryKind::Image);
    assert!(image.image_path.is_some());
    assert_eq!(image.image_width, Some(2));
    assert_eq!(image.image_height, Some(2));
}

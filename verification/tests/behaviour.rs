use clipstack::clipboard_monitor::{capture_at, is_new_clip, record_clip};
use clipstack::commands::{after_copy, apply_settings_at, prepare_copy_at};
use clipstack::entry::{bool_to_string, kind_from_db, kind_to_db, ClipboardEntry, ClipboardEntryKind, EntryRow};
use clipstack::export::{export_file_name, parse_export_format, to_csv, ExportFormat};
use clipstack::media::{encode_rgba_as_png, hash_image};
use clipstack::numtext::{i64_to_string, parse_u32, u64_to_string, IntParseError};
use clipstack::pattern::{like_matches, text_less};
use clipstack::settings::{current_timestamp_ms, timestamp_from_elapsed, AppSettings};
use clipstack::storage::{MediaFile, SettingRow, Storage};
use clipstack::text::trim;
use clipstack::tray::toggle_capture;

fn fresh() -> Storage {
    let mut storage = Storage::new("media".to_string());
    storage.initialize().expect("initialize");
    storage
}

fn settings(history_limit: u32, retention_days: u32) -> AppSettings {
    AppSettings {
        history_limit,
        retention_days,
        capture_enabled: true,
        launch_on_login: true,
        paste_on_select: true,
        hide_after_copy: true,
        show_on_launch: true,
    }
}

fn row(id: i64, kind: &str, key: &str, content: &str, created_at: i64, pinned: i64, copy_count: i64) -> EntryRow {
    EntryRow {
        id,
        kind: kind.to_string(),
        entry_key: key.to_string(),
        content: content.to_string(),
        image_path: None,
        image_width: None,
        image_height: None,
        created_at,
        pinned,
        last_copied_at: None,
        copy_count,
    }
}

fn contents(entries: &[ClipboardEntry]) -> Vec<String> {
    entries.iter().map(|e| e.content.clone()).collect()
}

#[test]
fn sanitized_clamps_both_limits() {
    let s = AppSettings { history_limit: 10, retention_days: 0, ..settings(0, 0) }.sanitized();
    assert_eq!(s.history_limit, 25);
    assert_eq!(s.retention_days, 1);
    let s = settings(600, 400).sanitized();
    assert_eq!(s.history_limit, 500);
    assert_eq!(s.retention_days, 365);
    let s = settings(100, 7).sanitized();
    assert_eq!(s, settings(100, 7));
    assert_eq!(s.sanitized(), s);
}

#[test]
fn default_settings_values() {
    let d = AppSettings::default();
    assert_eq!(d, settings(250, 30));
}

#[test]
fn settings_round_trip_through_the_table() {
    let mut storage = fresh();
    let wanted = AppSettings {
        history_limit: 1000,
        retention_days: 0,
        capture_enabled: false,
        launch_on_login: false,
        paste_on_select: true,
        hide_after_copy: false,
        show_on_launch: true,
    };
    storage.save_settings(&wanted).expect("save");
    assert_eq!(storage.load_settings().expect("load"), wanted.sanitized());
    assert_eq!(storage.get_setting_u32("history_limit").unwrap(), Some(500));
    assert_eq!(storage.get_setting_bool("capture_enabled").unwrap(), Some(false));
    assert_eq!(storage.get_setting_bool("missing").unwrap(), None);
}

#[test]
fn initialize_stores_defaults() {
    let storage = fresh();
    assert_eq!(storage.load_settings().unwrap(), AppSettings::default());
    assert_eq!(storage.settings_table().len(), 7);
}

fn storage_with_setting(key: &str, value: &str) -> Storage {
    Storage::from_parts(
        "media".to_string(),
        Vec::new(),
        0,
        vec![SettingRow { key: key.to_string(), value: value.to_string() }],
        Vec::new(),
    )
    .expect("parts")
}

#[test]
fn unreadable_numbers_are_errors() {
    assert_eq!(
        storage_with_setting("history_limit", "abc").load_settings().unwrap_err(),
        "invalid digit found in string"
    );
    assert_eq!(
        storage_with_setting("retention_days", "").load_settings().unwrap_err(),
        "cannot parse integer from empty string"
    );
    assert_eq!(
        storage_with_setting("history_limit", "99999999999").load_settings().unwrap_err(),
        "number too large to fit in target type"
    );
    assert_eq!(storage_with_setting("history_limit", "+42").load_settings().unwrap().history_limit, 42);
    assert_eq!(storage_with_setting("show_on_launch", "TRUE").load_settings().unwrap().show_on_launch, false);
}

#[test]
fn parse_u32_follows_str_parse() {
    assert_eq!(parse_u32("0"), Ok(0));
    assert_eq!(parse_u32("4294967295"), Ok(u32::MAX));
    assert_eq!(parse_u32("4294967296"), Err(IntParseError::PosOverflow));
    assert_eq!(parse_u32(""), Err(IntParseError::Empty));
    assert_eq!(parse_u32("+"), Err(IntParseError::InvalidDigit));
    assert_eq!(parse_u32("-1"), Err(IntParseError::InvalidDigit));
    assert_eq!(parse_u32(" 1"), Err(IntParseError::InvalidDigit));
    assert_eq!(parse_u32("99999999999x"), Err(IntParseError::PosOverflow));
    for text in ["7", "+007", "12a", "", "5000000000"] {
        assert_eq!(parse_u32(text).ok(), text.parse::<u32>().ok());
    }
}

#[test]
fn decimal_notation() {
    assert_eq!(u64_to_string(0), "0");
    assert_eq!(u64_to_string(u64::MAX), u64::MAX.to_string());
    assert_eq!(i64_to_string(-42), "-42");
    assert_eq!(i64_to_string(i64::MIN), i64::MIN.to_string());
    assert_eq!(i64_to_string(i64::MAX), i64::MAX.to_string());
}

#[test]
fn trim_removes_unicode_white_space() {
    assert_eq!(trim("  hi \n"), "hi");
    assert_eq!(trim("\u{3000}x\u{2009}y\t"), "x\u{2009}y");
    assert_eq!(trim(" \t "), "");
    for text in ["\u{85}a\u{a0}", "a b", "", "\u{200b}z"] {
        assert_eq!(trim(text), text.trim());
    }
}

#[test]
fn kinds_and_flags_as_stored() {
    assert_eq!(kind_from_db("image".to_string()), ClipboardEntryKind::Image);
    assert_eq!(kind_from_db("IMAGE".to_string()), ClipboardEntryKind::Image);
    assert_eq!(kind_from_db("text".to_string()), ClipboardEntryKind::Text);
    assert_eq!(kind_from_db("images".to_string()), ClipboardEntryKind::Text);
    assert_eq!(kind_to_db(&ClipboardEntryKind::Image), "image");
    assert_eq!(kind_to_db(&ClipboardEntryKind::Text), "text");
    assert_eq!(bool_to_string(true), "true");
    assert_eq!(bool_to_string(false), "false");
}

#[test]
fn text_is_trimmed_and_keyed() {
    let mut storage = fresh();
    let e = storage.insert_text_entry_at("  hi  ", 100).unwrap().unwrap();
    assert_eq!(e.content, "hi");
    assert_eq!(e.kind, ClipboardEntryKind::Text);
    assert_eq!(e.created_at, 100);
    assert_eq!(e.copy_count, 1);
    assert_eq!(e.last_copied_at, None);
    assert!(!e.pinned);
    assert_eq!(storage.rows()[0].entry_key, "text:hi");
    assert_eq!(storage.rows()[0].kind, "text");
}

#[test]
fn blank_text_leaves_store_alone() {
    let mut storage = fresh();
    assert!(storage.insert_text_entry_at("\t \n", 5).unwrap().is_none());
    assert!(storage.rows().is_empty());
    assert_eq!(storage.last_id(), 0);
}

#[test]
fn recopy_updates_times_and_count() {
    let mut storage = fresh();
    let first = storage.insert_text_entry_at("hello", 10).unwrap().unwrap();
    let second = storage.insert_text_entry_at(" hello ", 20).unwrap().unwrap();
    assert_eq!(first.id, second.id);
    assert_eq!(second.copy_count, 2);
    assert_eq!(second.created_at, 20);
    assert_eq!(second.last_copied_at, Some(20));
    assert_eq!(storage.rows().len(), 1);
    let other = storage.insert_text_entry_at("world", 30).unwrap().unwrap();
    assert_eq!(other.id, first.id + 1);
}

#[test]
fn history_lists_pinned_then_newest() {
    let mut storage = fresh();
    let a = storage.insert_text_entry_at("alpha", 1).unwrap().unwrap();
    storage.insert_text_entry_at("beta", 2).unwrap();
    storage.insert_text_entry_at("gamma", 3).unwrap();
    storage.toggle_pin(a.id).unwrap();
    let h = storage.get_history(None, None).unwrap();
    assert_eq!(contents(&h), vec!["alpha", "gamma", "beta"]);
    assert!(h[0].pinned && !h[1].pinned);
}

#[test]
fn history_search_is_case_insensitive_substring() {
    let mut storage = fresh();
    storage.insert_text_entry_at("Hello World", 1).unwrap();
    storage.insert_text_entry_at("goodbye", 2).unwrap();
    storage.insert_text_entry_at("say hello", 3).unwrap();
    let h = storage.get_history(Some("  HELLO "), None).unwrap();
    assert_eq!(contents(&h), vec!["say hello", "Hello World"]);
    let h = storage.get_history(Some("xyz"), None).unwrap();
    assert!(h.is_empty());
    let h = storage.get_history(Some("   "), None).unwrap();
    assert_eq!(h.len(), 3);
    // `_` and `%` keep their LIKE meaning
    let h = storage.get_history(Some("g_odb"), None).unwrap();
    assert_eq!(contents(&h), vec!["goodbye"]);
    let h = storage.get_history(Some("h%d"), None).unwrap();
    assert_eq!(contents(&h), vec!["Hello World"]);
}

#[test]
fn history_limit_is_clamped() {
    let mut storage = fresh();
    for (i, text) in ["a", "b", "c"].iter().enumerate() {
        storage.insert_text_entry_at(text, i as i64).unwrap();
    }
    assert_eq!(storage.get_history(None, Some(0)).unwrap().len(), 1);
    assert_eq!(storage.get_history(None, Some(2)).unwrap().len(), 2);
    assert_eq!(storage.get_history(None, Some(u32::MAX)).unwrap().len(), 3);
    assert_eq!(storage.export_history().unwrap().len(), 3);
}

#[test]
fn rows_sharing_a_key_are_one_entry() {
    let storage = Storage::from_parts(
        "media".to_string(),
        vec![
            row(3, "text", "text:x", "x", 50, 0, 2),
            row(1, "text", "text:x", "x", 70, 1, 3),
            row(2, "text", "text:y", "y", 60, 0, 1),
        ],
        3,
        Vec::new(),
        Vec::new(),
    )
    .unwrap();
    let h = storage.get_history(None, None).unwrap();
    assert_eq!(h.len(), 2);
    assert_eq!(h[0].id, 1);
    assert_eq!(h[0].copy_count, 5);
    assert_eq!(h[0].created_at, 70);
    assert!(h[0].pinned);
    assert_eq!(h[1].content, "y");
}

#[test]
fn copy_count_total_overflow_is_an_error() {
    let storage = Storage::from_parts(
        "media".to_string(),
        vec![row(1, "text", "text:x", "x", 1, 0, i64::MAX), row(2, "text", "text:x", "x", 2, 0, 1)],
        2,
        Vec::new(),
        Vec::new(),
    )
    .unwrap();
    assert_eq!(storage.get_history(None, None).unwrap_err(), "integer overflow");
    assert_eq!(storage.export_history().unwrap_err(), "integer overflow");
}

#[test]
fn saturated_copy_count_refuses_recopy() {
    let mut storage = Storage::from_parts(
        "media".to_string(),
        vec![row(1, "text", "text:x", "x", 1, 0, i64::MAX)],
        1,
        Vec::new(),
        Vec::new(),
    )
    .unwrap();
    assert_eq!(storage.insert_text_entry_at("x", 5).unwrap_err(), "integer overflow");
    assert_eq!(storage.rows()[0].created_at, 1);
}

#[test]
fn exhausted_ids_refuse_new_entries() {
    let mut storage = Storage::from_parts("media".to_string(), Vec::new(), i64::MAX, Vec::new(), Vec::new()).unwrap();
    assert_eq!(storage.insert_text_entry_at("x", 5).unwrap_err(), "database or disk is full");
    assert_eq!(storage.insert_row("text", "text:x", "x", 5, 0).unwrap_err(), "database or disk is full");
    assert!(storage.rows().is_empty());
}

#[test]
fn parts_are_checked() {
    assert!(Storage::from_parts("m".to_string(), vec![row(1, "text", "a", "a", 1, 0, 1), row(1, "text", "b", "b", 1, 0, 1)], 5, Vec::new(), Vec::new()).is_err());
    assert!(Storage::from_parts("m".to_string(), vec![row(9, "text", "a", "a", 1, 0, 1)], 5, Vec::new(), Vec::new()).is_err());
    assert!(Storage::from_parts(
        "m".to_string(),
        Vec::new(),
        0,
        vec![SettingRow { key: "k".to_string(), value: "1".to_string() }, SettingRow { key: "k".to_string(), value: "2".to_string() }],
        Vec::new()
    )
    .is_err());
    assert!(Storage::from_parts(
        "m".to_string(),
        Vec::new(),
        0,
        Vec::new(),
        vec![MediaFile { path: "p".to_string(), bytes: vec![1] }, MediaFile { path: "p".to_string(), bytes: vec![2] }]
    )
    .is_err());
}

#[test]
fn toggle_pin_twice_restores() {
    let mut storage = fresh();
    let e = storage.insert_text_entry_at("pin", 1).unwrap().unwrap();
    storage.toggle_pin(e.id).unwrap();
    assert_eq!(storage.rows()[0].pinned, 1);
    storage.toggle_pin(e.id).unwrap();
    assert_eq!(storage.rows()[0].pinned, 0);
    storage.toggle_pin(12345).unwrap();
    assert_eq!(storage.rows()[0].pinned, 0);
}

#[test]
fn delete_removes_only_that_entry() {
    let mut storage = fresh();
    let a = storage.insert_text_entry_at("a", 1).unwrap().unwrap();
    let b = storage.insert_text_entry_at("b", 2).unwrap().unwrap();
    storage.delete_entry(a.id).unwrap();
    assert!(storage.get_entry(a.id).unwrap().is_none());
    assert_eq!(storage.get_entry(b.id).unwrap().unwrap().content, "b");
    storage.delete_entry(999).unwrap();
    assert_eq!(storage.rows().len(), 1);
}

#[test]
fn clear_unpinned_keeps_pinned() {
    let mut storage = fresh();
    let a = storage.insert_text_entry_at("keep", 1).unwrap().unwrap();
    storage.insert_text_entry_at("drop", 2).unwrap();
    storage.toggle_pin(a.id).unwrap();
    storage.clear_unpinned().unwrap();
    assert_eq!(contents(&storage.get_history(None, None).unwrap()), vec!["keep"]);
}

#[test]
fn touch_marks_copy_time() {
    let mut storage = fresh();
    let a = storage.insert_text_entry_at("a", 1).unwrap().unwrap();
    storage.touch_last_copied_at(a.id, 77).unwrap();
    assert_eq!(storage.get_entry(a.id).unwrap().unwrap().last_copied_at, Some(77));
    assert_eq!(storage.get_entry_content(a.id).unwrap(), Some("a".to_string()));
    assert_eq!(storage.get_entry_content(a.id + 1).unwrap(), None);
}

#[test]
fn cleanup_retention_and_limit_at_fixed_time() {
    let mut storage = fresh();
    let day = 86_400_000i64;
    let now = 100 * day;
    storage.insert_row("text", "text:old", "old", now - 31 * day, 0).unwrap();
    storage.insert_row("text", "text:oldpin", "oldpin", now - 31 * day, 1).unwrap();
    storage.insert_row("text", "text:a", "a", now - 3, 0).unwrap();
    storage.insert_row("text", "text:b", "b", now - 2, 0).unwrap();
    storage.insert_row("text", "text:c", "c", now - 1, 0).unwrap();
    storage.cleanup_at(&settings(2, 30), now).unwrap();
    // "old" is past retention; of the rest, two entries remain: the pinned one and the newest
    assert_eq!(contents(&storage.get_history(None, None).unwrap()), vec!["oldpin", "c"]);
}

#[test]
fn cleanup_keeps_pinned_above_limit() {
    let mut storage = fresh();
    for (i, text) in ["p1", "p2", "p3"].iter().enumerate() {
        storage.insert_row("text", &format!("text:{text}"), text, i as i64, 1).unwrap();
    }
    storage.insert_row("text", "text:u", "u", 10, 0).unwrap();
    storage.cleanup_at(&settings(1, 365), 20).unwrap();
    assert_eq!(contents(&storage.get_history(None, None).unwrap()), vec!["p3", "p2", "p1"]);
}

#[test]
fn initialize_repairs_rows_and_prunes_media() {
    let mut storage = Storage::from_parts(
        "media".to_string(),
        vec![row(1, "  ", "", "legacy", 1, 0, 1), {
            let mut r = row(2, "image", "image:abc", "Image • 1×1", 2, 0, 1);
            r.image_path = Some("media/abc.png".to_string());
            r
        }],
        2,
        Vec::new(),
        vec![
            MediaFile { path: "media/abc.png".to_string(), bytes: vec![1] },
            MediaFile { path: "media/stray.png".to_string(), bytes: vec![2] },
        ],
    )
    .unwrap();
    storage.initialize().unwrap();
    assert_eq!(storage.rows()[0].kind, "text");
    assert_eq!(storage.rows()[0].entry_key, "text:legacy");
    assert_eq!(storage.media_files().len(), 1);
    assert_eq!(storage.media_files()[0].path, "media/abc.png");
    storage.delete_entry(2).unwrap();
    assert!(storage.media_files().is_empty());
}

#[test]
fn image_entries_deduplicate_by_digest() {
    let mut storage = fresh();
    let pixels = vec![1u8, 2, 3, 4];
    let a = storage.insert_image_entry_at(&pixels, 1, 1, 10).unwrap().unwrap();
    let b = storage.insert_image_entry_at(&pixels, 1, 1, 20).unwrap().unwrap();
    assert_eq!(a.id, b.id);
    assert_eq!(b.copy_count, 2);
    assert_eq!(a.content, "Image • 1×1");
    assert_eq!(storage.media_files().len(), 1);
    let png = encode_rgba_as_png(&pixels, 1, 1).unwrap();
    let hash = hash_image(&png);
    assert_eq!(storage.rows()[0].entry_key, format!("image:{hash}"));
    assert!(a.image_path.unwrap().ends_with(&format!("{hash}.png")));
    assert_eq!(storage.media_files()[0].bytes, png);
}

#[test]
fn image_edge_cases() {
    let mut storage = fresh();
    assert!(storage.insert_image_entry_at(&[], 2, 2, 1).unwrap().is_none());
    assert!(storage.insert_image_entry_at(&[1, 2, 3, 4], 0, 1, 1).unwrap().is_none());
    assert_eq!(
        storage.insert_image_entry_at(&[1, 2, 3], 1, 1, 1).unwrap_err(),
        "invalid clipboard image dimensions"
    );
    assert!(storage.rows().is_empty());
    assert!(storage.media_files().is_empty());
}

#[test]
fn png_and_digest_are_real() {
    let png = encode_rgba_as_png(&[0, 0, 0, 255], 1, 1).unwrap();
    assert_eq!(&png[..8], &[0x89, b'P', b'N', b'G', 0x0d, 0x0a, 0x1a, 0x0a]);
    assert_eq!(
        hash_image(&[]),
        "e3b0c44298fc1c149afbf4c8996fb92427ae41e4649b934ca495991b7852b855"
    );
    assert_eq!(hash_image(b"abc").len(), 64);
}

#[test]
fn csv_export_quotes_content() {
    let entries = vec![
        ClipboardEntry {
            id: 1,
            kind: ClipboardEntryKind::Text,
            content: "say \"hi\"".to_string(),
            image_path: None,
            image_width: None,
            image_height: None,
            created_at: 5,
            pinned: true,
            last_copied_at: Some(9),
            copy_count: 2,
        },
        ClipboardEntry {
            id: 2,
            kind: ClipboardEntryKind::Text,
            content: "x".to_string(),
            image_path: None,
            image_width: None,
            image_height: None,
            created_at: -1,
            pinned: false,
            last_copied_at: None,
            copy_count: 1,
        },
    ];
    assert_eq!(
        to_csv(&entries),
        "id,content,created_at,pinned,last_copied_at,copy_count\n1,\"say \"\"hi\"\"\",5,true,9,2\n2,\"x\",-1,false,,1\n"
    );
    assert_eq!(to_csv(&[]), "id,content,created_at,pinned,last_copied_at,copy_count\n");
}

#[test]
fn export_format_names() {
    assert_eq!(parse_export_format(None), Ok(ExportFormat::Json));
    assert_eq!(parse_export_format(Some(" CSV ".to_string())), Ok(ExportFormat::Csv));
    assert_eq!(parse_export_format(Some("Json".to_string())), Ok(ExportFormat::Json));
    assert_eq!(parse_export_format(Some("xml".to_string())), Err("unsupported export format".to_string()));
    assert_eq!(export_file_name(123, "csv"), "clipstack-history-123.csv");
}

#[test]
fn like_pattern_semantics() {
    let chars = |s: &str| s.chars().collect::<Vec<char>>();
    assert!(like_matches(&chars("%ab%"), &chars("xxABxx")));
    assert!(like_matches(&chars("a_c"), &chars("abc")));
    assert!(!like_matches(&chars("a_c"), &chars("ac")));
    assert!(like_matches(&chars("%"), &chars("")));
    assert!(!like_matches(&chars(""), &chars("a")));
    assert!(!like_matches(&chars("%é%"), &chars("É")));
    assert!(text_less("abc", "abd"));
    assert!(text_less("ab", "abc"));
    assert!(!text_less("b", "abc"));
}

#[test]
fn clock_and_timestamps() {
    assert!(current_timestamp_ms() > 1_600_000_000_000);
    assert_eq!(timestamp_from_elapsed(None), 0);
    assert_eq!(timestamp_from_elapsed(Some(42)), 42);
}

#[test]
fn monitor_records_new_text() {
    assert!(is_new_clip(&"a".to_string(), &"b".to_string(), true));
    assert!(!is_new_clip(&"a".to_string(), &"a".to_string(), true));
    assert!(!is_new_clip(&"  ".to_string(), &"b".to_string(), true));
    assert!(!is_new_clip(&"a".to_string(), &"b".to_string(), false));
    let mut storage = fresh();
    assert!(capture_at(&mut storage, &"copied".to_string(), 10, 11));
    assert!(!capture_at(&mut storage, &"  ".to_string(), 12, 13));
    assert_eq!(storage.rows().len(), 1);
}

#[test]
fn tray_toggle_persists_capture_flag() {
    let mut storage = fresh();
    assert!(!toggle_capture(&mut storage, true));
    assert!(!storage.load_settings().unwrap().capture_enabled);
    assert!(toggle_capture(&mut storage, false));
    assert!(storage.load_settings().unwrap().capture_enabled);
}

#[test]
fn copy_preparation_and_followups() {
    let mut storage = fresh();
    assert_eq!(prepare_copy_at(&mut storage, 1, 5).unwrap_err(), "clipboard item not found");
    let e = storage.insert_text_entry_at("paste me", 1).unwrap().unwrap();
    let (content, s) = prepare_copy_at(&mut storage, e.id, 5).unwrap();
    assert_eq!(content, "paste me");
    assert_eq!(s, AppSettings::default());
    assert_eq!(storage.rows()[0].last_copied_at, Some(5));
    assert_eq!(after_copy(&s), (true, true));
    let quiet = AppSettings { hide_after_copy: false, paste_on_select: false, ..s };
    assert_eq!(after_copy(&quiet), (false, false));
    let hide_only = AppSettings { hide_after_copy: true, paste_on_select: false, ..s };
    assert_eq!(after_copy(&hide_only), (true, false));
}

#[test]
fn applying_settings_sanitizes_and_prunes() {
    let mut storage = fresh();
    for i in 0..30 {
        storage.insert_text_entry_at(&format!("t{i}"), i).unwrap();
    }
    let applied = apply_settings_at(&mut storage, settings(1, 365), 40).unwrap();
    assert_eq!(applied.history_limit, 25);
    assert_eq!(storage.get_history(None, None).unwrap().len(), 25);
    assert_eq!(storage.load_settings().unwrap(), applied);
}

#[test]
fn paused_monitor_records_nothing() {
    let mut storage = fresh();
    let mut last_seen = String::new();
    assert!(!record_clip(&mut storage, &"copied".to_string(), &mut last_seen, false));
    assert!(storage.rows().is_empty());
    assert_eq!(last_seen, "");
    assert!(record_clip(&mut storage, &"copied".to_string(), &mut last_seen, true));
    assert_eq!(storage.rows().len(), 1);
    assert_eq!(last_seen, "copied");
    assert!(!record_clip(&mut storage, &"copied".to_string(), &mut last_seen, true));
    assert_eq!(storage.rows()[0].copy_count, 1);
}

#[test]
fn pruning_compares_paths_not_text() {
    let mut storage = Storage::from_parts(
        "media".to_string(),
        vec![{
            let mut r = row(1, "image", "image:a", "Image • 1×1", 1, 0, 1);
            r.image_path = Some("media//a.png".to_string());
            r
        }],
        1,
        Vec::new(),
        vec![
            MediaFile { path: "media/a.png".to_string(), bytes: vec![1] },
            MediaFile { path: "media/./b.png".to_string(), bytes: vec![2] },
        ],
    )
    .unwrap();
    storage.clear_unpinned().unwrap();
    assert!(storage.media_files().is_empty());
    let mut storage = Storage::from_parts(
        "media".to_string(),
        vec![{
            let mut r = row(1, "image", "image:a", "Image • 1×1", 1, 1, 1);
            r.image_path = Some("media//a.png".to_string());
            r
        }],
        1,
        Vec::new(),
        vec![
            MediaFile { path: "media/a.png".to_string(), bytes: vec![1] },
            MediaFile { path: "media/b.png".to_string(), bytes: vec![2] },
        ],
    )
    .unwrap();
    storage.clear_unpinned().unwrap();
    assert_eq!(storage.media_files().len(), 1);
    assert_eq!(storage.media_files()[0].path, "media/a.png");
}

#[test]
fn valid_image_is_stored_under_its_hash() {
    let mut storage = Storage::new("media".to_string());
    let pixels = vec![255u8, 0, 0, 255, 0, 255, 0, 255, 0, 0, 255, 255, 255, 255, 255, 255];
    let png = encode_rgba_as_png(&pixels, 2, 2).unwrap();
    assert_eq!(&png[..8], &[0x89, b'P', b'N', b'G', 0x0D, 0x0A, 0x1A, 0x0A]);
    let hash = hash_image(&png);
    let e = storage.insert_image_entry(&pixels, 2, 2).unwrap().unwrap();
    assert_eq!(e.kind, ClipboardEntryKind::Image);
    assert_eq!(e.content, "Image • 2×2");
    assert_eq!(e.image_width, Some(2));
    assert_eq!(e.image_height, Some(2));
    let expected = std::path::Path::new("media").join(format!("{hash}.png")).to_string_lossy().to_string();
    assert_eq!(e.image_path, Some(expected.clone()));
    assert_eq!(storage.media_files().len(), 1);
    assert_eq!(storage.media_files()[0].path, expected);
    assert_eq!(storage.media_files()[0].bytes, png);
    assert_eq!(storage.rows()[0].entry_key, format!("image:{hash}"));
}

#[test]
fn zero_sized_image_does_not_encode() {
    assert!(encode_rgba_as_png(&[], 0, 3).is_err());
    assert!(encode_rgba_as_png(&[], 3, 0).is_err());
    assert_eq!(encode_rgba_as_png(&[1, 2, 3], 1, 1).unwrap_err(), "invalid clipboard image dimensions");
}

#[test]
fn same_trimmed_text_bumps_the_same_entry() {
    let mut storage = fresh();
    let a = storage.insert_text_entry_at("x", 1).unwrap().unwrap();
    let b = storage.insert_text_entry_at("  x\n", 2).unwrap().unwrap();
    assert_eq!(a.id, b.id);
    assert_eq!(b.content, "x");
    assert_eq!(b.copy_count, a.copy_count + 1);
    assert_eq!(storage.rows().len(), 1);
}

#[test]
fn export_matches_full_history() {
    let mut storage = fresh();
    storage.insert_text_entry_at("one", 1).unwrap();
    storage.insert_text_entry_at("two", 2).unwrap();
    storage.insert_text_entry_at("three", 3).unwrap();
    let e2 = storage.insert_text_entry_at("two", 4).unwrap().unwrap();
    storage.toggle_pin(e2.id).unwrap();
    let exported = storage.export_history().unwrap();
    let listed = storage.get_history(None, Some(5000)).unwrap();
    let key = |e: &ClipboardEntry| (e.id, e.content.clone(), e.created_at, e.pinned, e.copy_count);
    assert_eq!(exported.iter().map(key).collect::<Vec<_>>(), listed.iter().map(key).collect::<Vec<_>>());
    assert_eq!(contents(&exported), vec!["two", "three", "one"]);
}

#[test]
fn saved_settings_survive_initialize() {
    let mut storage = fresh();
    let chosen = AppSettings {
        history_limit: 100,
        retention_days: 7,
        capture_enabled: false,
        launch_on_login: false,
        paste_on_select: false,
        hide_after_copy: false,
        show_on_launch: false,
    };
    storage.save_settings(&chosen).unwrap();
    storage.initialize().unwrap();
    assert_eq!(storage.load_settings().unwrap(), chosen);
    assert_eq!(storage.settings_table().len(), 7);
}

#[test]
fn initialize_fills_only_missing_settings() {
    let mut storage = storage_with_setting("launch_on_login", "false");
    storage.initialize().unwrap();
    let loaded = storage.load_settings().unwrap();
    assert!(!loaded.launch_on_login);
    assert_eq!(loaded.history_limit, AppSettings::default().history_limit);
    assert_eq!(storage.settings_table().len(), 7);
}

#[test]
fn pruning_removes_files_no_row_names() {
    let mut storage = Storage::from_parts(
        "C:\\media".to_string(),
        vec![{
            let mut r = row(1, "image", "image:a", "Image • 1×1", 1, 1, 1);
            r.image_path = Some("C:\\media\\a.png".to_string());
            r
        }],
        1,
        Vec::new(),
        vec![
            MediaFile { path: "C:\\media\\a.png".to_string(), bytes: vec![1] },
            MediaFile { path: "C:\\media\\b.png".to_string(), bytes: vec![2] },
        ],
    )
    .unwrap();
    storage.clear_unpinned().unwrap();
    assert_eq!(storage.media_files().len(), 1);
    assert_eq!(storage.media_files()[0].path, "C:\\media\\a.png");
}

#[test]
fn image_path_after_a_trailing_slash() {
    let mut storage = Storage::new("media/".to_string());
    let pixels = vec![9u8, 8, 7, 6];
    let png = encode_rgba_as_png(&pixels, 1, 1).unwrap();
    let hash = hash_image(&png);
    let e = storage.insert_image_entry_at(&pixels, 1, 1, 5).unwrap().unwrap();
    assert_eq!(e.image_path, Some(format!("media/{hash}.png")));
}

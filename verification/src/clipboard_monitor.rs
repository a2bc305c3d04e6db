use vstd::prelude::*;

use crate::settings::{current_timestamp_ms, default_settings, AppSettings};
use crate::storage::{
    cleaned_rows, insert_text_spec, loaded_settings, media_pruned, Storage, StorageView,
};
use crate::text::{trim, trim_spec};

verus! {

/// Whether clipboard text is worth recording: capture is on, the text is
/// not only white space, and it differs from the text seen last.
pub open spec fn is_new_clip_spec(content: Seq<char>, last_seen: Seq<char>, capture_enabled: bool) -> bool {
    capture_enabled && trim_spec(content).len() > 0 && content != last_seen
}

/// See [`is_new_clip_spec`].
pub fn is_new_clip(content: &String, last_seen: &String, capture_enabled: bool) -> (r: bool)
    ensures
        r == is_new_clip_spec(content@, last_seen@, capture_enabled),
{
    if !capture_enabled {
        return false;
    }
    let trimmed = trim(content.as_str());
    !trimmed.as_str().is_empty() && *content != *last_seen
}

/// The settings the monitor works with: the stored ones, or the defaults
/// when they cannot be read.
pub open spec fn monitor_settings(s: Seq<(Seq<char>, Seq<char>)>) -> AppSettings {
    match loaded_settings(s) {
        Ok(st) => st,
        Err(_) => default_settings(),
    }
}

/// `after` and `r` are the store after the monitor records `content`, and
/// whether it recorded an entry: one copy of the text at `inserted_at`;
/// when that produced an entry, the retention rules of the settings then
/// run at `cleaned_at`. A refused copy leaves the store as it was.
pub open spec fn captured(
    v: StorageView,
    content: Seq<char>,
    inserted_at: i64,
    cleaned_at: i64,
    after: StorageView,
    r: bool,
) -> bool {
    let st = monitor_settings(v.settings);
    match insert_text_spec(v, content, inserted_at) {
        Ok((w, Some(_))) => {
            &&& r
            &&& after.rows == cleaned_rows(w.rows, st, cleaned_at)
            &&& media_pruned(after.rows, w.media, after.media)
            &&& after.last_id == w.last_id
            &&& after.settings == w.settings
            &&& after.media_dir == w.media_dir
        },
        Ok((w, None)) => after == w && !r,
        Err(_) => after == v && !r,
    }
}

/// Records clipboard text as the monitor does (see [`captured`]) and
/// tells whether an entry was recorded.
pub fn capture_at(storage: &mut Storage, content: &String, inserted_at: i64, cleaned_at: i64) -> (r: bool)
    requires
        old(storage)@.wf(),
    ensures
        final(storage)@.wf(),
        captured(old(storage)@, content@, inserted_at, cleaned_at, final(storage)@, r),
{
    let settings = match storage.load_settings() {
        Ok(s) => s,
        Err(_) => AppSettings::default(),
    };
    let result = match storage.insert_text_entry_at(content.as_str(), inserted_at) {
        Ok(Some(entry)) => Some(entry),
        _ => None,
    };
    if result.is_some() {
        let _ = storage.cleanup_at(&settings, cleaned_at);
        true
    } else {
        false
    }
}

/// Records clipboard text as the monitor does, at the clock's times.
pub fn capture(storage: &mut Storage, content: &String) -> (r: bool)
    requires
        old(storage)@.wf(),
    ensures
        final(storage)@.wf(),
        exists|t1: i64, t2: i64| #[trigger] captured(old(storage)@, content@, t1, t2, final(storage)@, r),
{
    let t1 = current_timestamp_ms();
    let t2 = current_timestamp_ms();
    capture_at(storage, content, t1, t2)
}

/// One step of the monitor on clipboard text it read: when the text is worth
/// recording (see [`is_new_clip_spec`]), it becomes the text seen last and
/// is recorded at the clock's times; otherwise nothing changes. Tells
/// whether an entry was recorded.
pub fn record_clip(storage: &mut Storage, content: &String, last_seen: &mut String, capture_enabled: bool) -> (r: bool)
    requires
        old(storage)@.wf(),
    ensures
        final(storage)@.wf(),
        !is_new_clip_spec(content@, old(last_seen)@, capture_enabled) ==> {
            &&& final(storage)@ == old(storage)@
            &&& final(last_seen)@ == old(last_seen)@
            &&& !r
        },
        is_new_clip_spec(content@, old(last_seen)@, capture_enabled) ==> {
            &&& final(last_seen)@ == content@
            &&& exists|t1: i64, t2: i64| #[trigger] captured(old(storage)@, content@, t1, t2, final(storage)@, r)
        },
{
    if !is_new_clip(content, last_seen, capture_enabled) {
        return false;
    }
    *last_seen = content.clone();
    capture(storage, content)
}

} // verus!

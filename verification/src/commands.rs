use vstd::prelude::*;

use crate::settings::{sanitized_spec, AppSettings};
use crate::storage::{
    cleaned_rows, entry_with_id, loaded_settings, media_pruned, saved_settings, touch_rows,
    Storage, StorageView,
};
use crate::numtext::int_parse_message;

verus! {

pub open spec fn not_found_message() -> Seq<char> {
    "clipboard item not found"@
}

/// The first half of copying an entry back to the clipboard: the content of
/// row `id` (an error when there is none), the entry marked as copied at
/// `now`, and the settings that decide what follows.
pub fn prepare_copy_at(storage: &mut Storage, id: i64, now: i64) -> (r: Result<(String, AppSettings), String>)
    requires
        old(storage)@.wf(),
    ensures
        final(storage)@.wf(),
        match entry_with_id(old(storage)@.rows, id) {
            None => final(storage)@ == old(storage)@ && (r matches Err(m) && m@ == not_found_message()),
            Some(e) => {
                &&& final(storage)@ == (StorageView { rows: touch_rows(old(storage)@.rows, id, now), ..old(storage)@ })
                &&& match loaded_settings(final(storage)@.settings) {
                    Ok(st) => r matches Ok((c, s)) && c@ == e.content && s == st,
                    Err(k) => r matches Err(m) && m@ == int_parse_message(k),
                }
            },
        },
{
    let content = match storage.get_entry_content(id)? {
        Some(c) => c,
        None => return Err(String::from_str("clipboard item not found")),
    };
    storage.touch_last_copied_at(id, now)?;
    let settings = storage.load_settings()?;
    Ok((content, settings))
}

/// What follows a copy: whether the window hides, and whether the paste
/// shortcut is sent to the active application.
pub open spec fn after_copy_spec(settings: AppSettings) -> (bool, bool) {
    (settings.hide_after_copy || settings.paste_on_select, settings.paste_on_select)
}

/// See [`after_copy_spec`].
pub fn after_copy(settings: &AppSettings) -> (r: (bool, bool))
    ensures
        r == after_copy_spec(*settings),
{
    (settings.hide_after_copy || settings.paste_on_select, settings.paste_on_select)
}

/// Applies new settings: they are sanitized, saved, and the retention rules
/// run with them at `now`; the sanitized settings are returned.
pub fn apply_settings_at(storage: &mut Storage, settings: AppSettings, now: i64) -> (r: Result<AppSettings, String>)
    requires
        old(storage)@.wf(),
    ensures
        final(storage)@.wf(),
        r == Ok::<AppSettings, String>(sanitized_spec(settings)),
        final(storage)@.settings == saved_settings(old(storage)@.settings, sanitized_spec(settings)),
        final(storage)@.rows == cleaned_rows(old(storage)@.rows, sanitized_spec(settings), now),
        media_pruned(final(storage)@.rows, old(storage)@.media, final(storage)@.media),
        final(storage)@.last_id == old(storage)@.last_id,
        final(storage)@.media_dir == old(storage)@.media_dir,
{
    let next_settings = settings.sanitized();
    storage.save_settings(&next_settings)?;
    storage.cleanup_at(&next_settings, now)?;
    Ok(next_settings)
}

} // verus!

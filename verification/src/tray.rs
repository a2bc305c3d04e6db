use vstd::prelude::*;

use crate::settings::AppSettings;
use crate::storage::{loaded_settings, saved_settings, Storage, StorageView};

verus! {

/// Pauses or resumes capture from the tray menu: the new state is the
/// opposite of `current_enabled`, and it is stored in the settings when they
/// can be read (otherwise the store is left alone).
pub fn toggle_capture(storage: &mut Storage, current_enabled: bool) -> (r: bool)
    requires
        old(storage)@.wf(),
    ensures
        r == !current_enabled,
        final(storage)@.wf(),
        match loaded_settings(old(storage)@.settings) {
            Ok(st) => final(storage)@ == (StorageView {
                settings: saved_settings(
                    old(storage)@.settings,
                    AppSettings { capture_enabled: !current_enabled, ..st },
                ),
                ..old(storage)@
            }),
            Err(_) => final(storage)@ == old(storage)@,
        },
{
    let next_enabled = !current_enabled;
    if let Ok(mut settings) = storage.load_settings() {
        settings.capture_enabled = next_enabled;
        let _ = storage.save_settings(&settings);
    }
    next_enabled
}

} // verus!

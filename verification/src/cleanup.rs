use vstd::prelude::*;

use crate::settings::AppSettings;
use crate::storage::{cleaned_rows, media_pruned, Storage};

verus! {

/// Applies the retention rules of `settings` to the store at the current time.
pub fn prune(storage: &mut Storage, settings: &AppSettings) -> (r: Result<(), String>)
    requires
        old(storage)@.wf(),
    ensures
        r is Ok,
        final(storage)@.wf(),
        exists|now: i64| final(storage)@.rows == #[trigger] cleaned_rows(old(storage)@.rows, *settings, now),
        media_pruned(final(storage)@.rows, old(storage)@.media, final(storage)@.media),
        final(storage)@.last_id == old(storage)@.last_id,
        final(storage)@.settings == old(storage)@.settings,
        final(storage)@.media_dir == old(storage)@.media_dir,
{
    storage.cleanup(settings)
}

} // verus!

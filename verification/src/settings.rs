use std::time::{Duration, SystemTime, UNIX_EPOCH};

use vstd::prelude::*;

verus! {

/// The user-facing preferences of ClipStack.
#[derive(Debug, Clone, Copy, PartialEq, Eq)]
pub struct AppSettings {
    pub history_limit: u32,
    pub retention_days: u32,
    pub capture_enabled: bool,
    pub launch_on_login: bool,
    pub paste_on_select: bool,
    pub hide_after_copy: bool,
    pub show_on_launch: bool,
}

/// `v` limited to the closed range `[lo, hi]`.
pub open spec fn clamp_spec(v: u32, lo: u32, hi: u32) -> u32 {
    if v < lo {
        lo
    } else if v > hi {
        hi
    } else {
        v
    }
}

/// The settings a fresh installation starts with.
pub open spec fn default_settings() -> AppSettings {
    AppSettings {
        history_limit: 250,
        retention_days: 30,
        capture_enabled: true,
        launch_on_login: true,
        paste_on_select: true,
        hide_after_copy: true,
        show_on_launch: true,
    }
}

/// The settings with both numeric limits brought into their accepted ranges.
pub open spec fn sanitized_spec(s: AppSettings) -> AppSettings {
    AppSettings {
        history_limit: clamp_spec(s.history_limit, 25, 500),
        retention_days: clamp_spec(s.retention_days, 1, 365),
        ..s
    }
}

impl Default for AppSettings {
    fn default() -> (r: Self)
        ensures
            r == default_settings(),
    {
        AppSettings {
            history_limit: 250,
            retention_days: 30,
            capture_enabled: true,
            launch_on_login: true,
            paste_on_select: true,
            hide_after_copy: true,
            show_on_launch: true,
        }
    }
}

/// `v` limited to `[lo, hi]` (`Ord::clamp`).
pub fn clamp_u32(v: u32, lo: u32, hi: u32) -> (r: u32)
    requires
        lo <= hi,
    ensures
        r == clamp_spec(v, lo, hi),
{
    if v < lo {
        lo
    } else if v > hi {
        hi
    } else {
        v
    }
}

impl AppSettings {
    /// Brings `history_limit` into 25..=500 and `retention_days` into 1..=365;
    /// the flags are kept as they are.
    pub fn sanitized(self) -> (r: Self)
        ensures
            r == sanitized_spec(self),
    {
        AppSettings {
            history_limit: clamp_u32(self.history_limit, 25, 500),
            retention_days: clamp_u32(self.retention_days, 1, 365),
            capture_enabled: self.capture_enabled,
            launch_on_login: self.launch_on_login,
            paste_on_select: self.paste_on_select,
            hide_after_copy: self.hide_after_copy,
            show_on_launch: self.show_on_launch,
        }
    }
}

/// The system clock's time type.
#[verifier::external_type_specification]
#[verifier::external_body]
pub struct ExSystemTime(SystemTime);

/// The current time of the system clock (`SystemTime::now`); nothing is
/// claimed of it.
#[verifier::external_body]
fn clock_now() -> SystemTime {
    SystemTime::now()
}

/// The time from the Unix epoch to `t` (`SystemTime::duration_since`), or
/// `None` when `t` is before the epoch; nothing more is claimed of it.
#[verifier::external_body]
fn since_unix_epoch(t: &SystemTime) -> Option<Duration> {
    match t.duration_since(UNIX_EPOCH) {
        Ok(d) => Some(d),
        Err(_) => None,
    }
}

/// The whole milliseconds of `d` (`Duration::as_millis`); nothing is claimed of it.
#[verifier::external_body]
fn whole_millis(d: &Duration) -> u128 {
    d.as_millis()
}

/// The timestamp for an elapsed time since the epoch in milliseconds: the
/// number taken to `i64` by truncation, or 0 when the clock was before the epoch.
pub open spec fn timestamp_of(elapsed_ms: Option<u128>) -> i64 {
    match elapsed_ms {
        Some(ms) => ms as i64,
        None => 0,
    }
}

/// See [`timestamp_of`].
pub fn timestamp_from_elapsed(elapsed_ms: Option<u128>) -> (r: i64)
    ensures
        r == timestamp_of(elapsed_ms),
{
    match elapsed_ms {
        Some(ms) => ms as i64,
        None => 0,
    }
}

/// The current time in milliseconds since the Unix epoch, 0 when the clock
/// is before the epoch. The value comes from the clock, so nothing is
/// claimed of it; the conversion is [`timestamp_from_elapsed`].
pub fn current_timestamp_ms() -> i64 {
    let now = clock_now();
    let elapsed = match since_unix_epoch(&now) {
        Some(d) => Some(whole_millis(&d)),
        None => None,
    };
    timestamp_from_elapsed(elapsed)
}

} // verus!

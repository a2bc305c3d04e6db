//! ClipStack's clipboard-history engine: the entry table, its grouping,
//! search, pinning and retention rules, and the settings that drive them.

pub mod settings;
pub mod text;
pub mod numtext;
pub mod pattern;
pub mod entry;
pub mod history;
pub mod storage;
pub mod media;
pub mod paths;
pub mod cleanup;
pub mod export;
pub mod commands;
pub mod clipboard_monitor;
pub mod tray;
pub mod laws;

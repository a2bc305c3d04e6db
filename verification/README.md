# clipstack

The core of a clipboard history manager, written in Verus. The functions in
`src/` carry contracts that Verus proves; the few that call the standard
library or an outside crate (`sha2`, `image`, the clock, `Path`) are trusted,
and each says in its doc comment what it claims.

- `src/settings.rs`: user settings, their defaults and sanitising, the clock.
- `src/entry.rs`: clipboard entries and the rows they are stored as.
- `src/history.rs`: grouping rows into entries and ordering the history list.
- `src/storage.rs`: the history store (entries, settings, media files) and its
  operations: record, pin, touch, delete, clear, clean up, list, export.
- `src/pattern.rs`, `src/text.rs`, `src/numtext.rs`: `LIKE` matching,
  trimming, and decimal/hex text.
- `src/media.rs`: hashing and PNG encoding of copied images.
- `src/paths.rs`: comparing paths and joining the media directory to a file
  name.
- `src/export.rs`: the export formats, CSV text and the export file name
  (the JSON text itself is written by `serde_json` in `app/`).
- `src/commands.rs`, `src/clipboard_monitor.rs`, `src/tray.rs`: the decisions
  behind the app's commands, the clipboard poller and the tray menu.
- `src/laws.rs`: properties that span several operations, proved.

The store keeps its three tables (entries, settings, media files) in
memory, and the queries that the app runs on them (grouping by key, `LIKE`
search, ordering, the cleanup) are this library's own verified logic.
`app/` loads the tables from the SQLite file when the app starts and writes
them back after each change, so the database file is plain I/O.

`app/` holds the desktop shell around the library: the window, tray, clipboard
access, the SQLite file and the JSON/CSV files on disk. `tests/` runs the
library on concrete values.

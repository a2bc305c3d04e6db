use vstd::prelude::*;

use crate::entry::{
    bool_text, bool_to_string, copy_opt_string, entry_of_row, kind_name, kind_to_db, ClipboardEntry,
    ClipboardEntryKind, EntryRow, EntryView, RowView,
};
use crate::history::{
    entries_view, filter_view, group_entries, group_rows, groups_view, list_entries, listing,
    rows_view, sort_by_order, sort_groups, GroupOrder, GroupView,
};
use crate::numtext::{
    decimal_spec, int_parse_error_message, int_parse_message, parse_u32, parse_u32_spec,
    u64_to_string, IntParseError,
};
use crate::settings::{clamp_spec, clamp_u32, current_timestamp_ms, default_settings, sanitized_spec, AppSettings};
use crate::text::{trim, trim_spec};
use crate::media::{
    encode_rgba_as_png, hash_image, image_file_name, image_hash, invalid_dimensions_message,
    lemma_image_file_name, png_rgba8,
};
use crate::paths::{
    last_piece, media_file_path, media_path_for, name_piece, path_components, plain_path, same_path,
};

verus! {

/// One row of the settings table.
#[derive(Debug)]
pub struct SettingRow {
    pub key: String,
    pub value: String,
}

/// One file of the media directory.
#[derive(Debug)]
pub struct MediaFile {
    pub path: String,
    pub bytes: Vec<u8>,
}

/// The clipboard history store: the entry table, the settings table and the
/// files of the media directory that image entries point to.
pub struct Storage {
    rows: Vec<EntryRow>,
    last_id: i64,
    settings: Vec<SettingRow>,
    media_dir: String,
    media: Vec<MediaFile>,
}

/// The mathematical value of a [`Storage`].
pub struct StorageView {
    pub rows: Seq<RowView>,
    pub last_id: i64,
    pub settings: Seq<(Seq<char>, Seq<char>)>,
    pub media_dir: Seq<char>,
    pub media: Seq<(Seq<char>, Seq<u8>)>,
}

pub open spec fn settings_view(s: Seq<SettingRow>) -> Seq<(Seq<char>, Seq<char>)> {
    s.map_values(|r: SettingRow| (r.key@, r.value@))
}

pub open spec fn media_view(m: Seq<MediaFile>) -> Seq<(Seq<char>, Seq<u8>)> {
    m.map_values(|f: MediaFile| (f.path@, f.bytes@))
}

impl View for Storage {
    type V = StorageView;

    closed spec fn view(&self) -> StorageView {
        StorageView {
            rows: rows_view(self.rows@),
            last_id: self.last_id,
            settings: settings_view(self.settings@),
            media_dir: self.media_dir@,
            media: media_view(self.media@),
        }
    }
}

/// Row ids are distinct and none is above the last id handed out.
pub open spec fn ids_ok(rows: Seq<RowView>, last_id: i64) -> bool {
    &&& forall|i: int| 0 <= i < rows.len() ==> (#[trigger] rows[i]).id <= last_id
    &&& forall|i: int, j: int|
        0 <= i < j < rows.len() ==> (#[trigger] rows[i]).id != (#[trigger] rows[j]).id
}

/// No two settings share a key.
pub open spec fn setting_keys_unique(s: Seq<(Seq<char>, Seq<char>)>) -> bool {
    forall|i: int, j: int| 0 <= i < j < s.len() ==> (#[trigger] s[i]).0 != (#[trigger] s[j]).0
}

/// No two media files share a path.
pub open spec fn media_paths_unique(m: Seq<(Seq<char>, Seq<u8>)>) -> bool {
    forall|i: int, j: int| 0 <= i < j < m.len() ==> (#[trigger] m[i]).0 != (#[trigger] m[j]).0
}

impl StorageView {
    /// The store's invariant: the entry table's ids are a primary key below
    /// the id counter, and settings keys and media paths are unique.
    pub open spec fn wf(self) -> bool {
        &&& ids_ok(self.rows, self.last_id)
        &&& setting_keys_unique(self.settings)
        &&& media_paths_unique(self.media)
    }
}

/// Everything but the entry table is the same in `a` and `b`.
pub open spec fn same_but_rows(a: StorageView, b: StorageView) -> bool {
    &&& a.last_id == b.last_id
    &&& a.settings == b.settings
    &&& a.media_dir == b.media_dir
    &&& a.media == b.media
}

/// The elements of `s` whose flag in `keep` is set, in their order.
pub open spec fn kept<T>(s: Seq<T>, keep: Seq<bool>) -> Seq<T>
    decreases s.len(),
{
    if s.len() == 0 || keep.len() == 0 {
        Seq::empty()
    } else {
        let rest = kept(s.drop_last(), keep.drop_last());
        if keep.last() {
            rest.push(s.last())
        } else {
            rest
        }
    }
}

proof fn lemma_kept_member<T>(s: Seq<T>, keep: Seq<bool>)
    requires
        keep.len() == s.len(),
    ensures
        forall|q: int| 0 <= q < kept(s, keep).len() ==> s.contains(#[trigger] kept(s, keep)[q]),
    decreases s.len(),
{
    if s.len() > 0 {
        let p = s.drop_last();
        lemma_kept_member(p, keep.drop_last());
        let rest = kept(p, keep.drop_last());
        assert forall|q: int| 0 <= q < kept(s, keep).len() implies s.contains(#[trigger] kept(s, keep)[q]) by {
            if q < rest.len() {
                assert(p.contains(rest[q]));
                let i = choose|i: int| 0 <= i < p.len() && p[i] == rest[q];
                assert(s[i] == p[i]);
                assert(kept(s, keep)[q] == rest[q]);
            } else {
                assert(kept(s, keep)[q] == s[s.len() - 1]);
            }
        }
    }
}

/// What `kept` holds: exactly the elements whose flag is set.
pub(crate) proof fn lemma_kept_contains<T>(s: Seq<T>, keep: Seq<bool>)
    requires
        keep.len() == s.len(),
    ensures
        forall|i: int| 0 <= i < s.len() && keep[i] ==> kept(s, keep).contains(#[trigger] s[i]),
        forall|x: T| kept(s, keep).contains(x) ==> exists|i: int| 0 <= i < s.len() && keep[i] && s[i] == x,
    decreases s.len(),
{
    if s.len() > 0 {
        let p = s.drop_last();
        let kp = keep.drop_last();
        lemma_kept_contains(p, kp);
        let rest = kept(p, kp);
        let k = kept(s, keep);
        assert forall|i: int| 0 <= i < s.len() && keep[i] implies k.contains(#[trigger] s[i]) by {
            if i < s.len() - 1 {
                assert(p[i] == s[i] && kp[i] == keep[i]);
                assert(rest.contains(p[i]));
                let q = choose|q: int| 0 <= q < rest.len() && rest[q] == p[i];
                assert(k[q] == rest[q]);
            } else {
                assert(k[k.len() - 1] == s[i]);
            }
        }
        assert forall|x: T| k.contains(x) implies exists|i: int| 0 <= i < s.len() && keep[i] && s[i] == x by {
            let q = choose|q: int| 0 <= q < k.len() && k[q] == x;
            if q < rest.len() {
                assert(k[q] == rest[q]);
                assert(rest.contains(x));
                let i = choose|i: int| 0 <= i < p.len() && kp[i] && p[i] == x;
                assert(keep[i] && s[i] == x);
            } else {
                assert(keep[s.len() - 1] && s[s.len() - 1] == x);
            }
        }
    }
}

proof fn lemma_kept_filter<T>(s: Seq<T>, keep: Seq<bool>, pred: spec_fn(T) -> bool)
    requires
        keep.len() == s.len(),
        forall|i: int| 0 <= i < s.len() ==> keep[i] == pred(#[trigger] s[i]),
    ensures
        kept(s, keep) == s.filter(pred),
    decreases s.len(),
{
    reveal(Seq::filter);
    if s.len() > 0 {
        lemma_kept_filter(s.drop_last(), keep.drop_last(), pred);
        assert(keep.last() == pred(s.last()));
    }
}

proof fn lemma_kept_ids(s: Seq<RowView>, keep: Seq<bool>, last_id: i64)
    requires
        keep.len() == s.len(),
        ids_ok(s, last_id),
    ensures
        ids_ok(kept(s, keep), last_id),
    decreases s.len(),
{
    lemma_kept_member(s, keep);
    if s.len() > 0 {
        let p = s.drop_last();
        lemma_kept_ids(p, keep.drop_last(), last_id);
        lemma_kept_member(p, keep.drop_last());
        let rest = kept(p, keep.drop_last());
        let k = kept(s, keep);
        assert forall|i: int| 0 <= i < k.len() implies (#[trigger] k[i]).id <= last_id by {
            assert(s.contains(k[i]));
        }
        if keep.last() {
            assert forall|i: int, j: int| 0 <= i < j < k.len() implies (#[trigger] k[i]).id != (#[trigger] k[j]).id by {
                if j < rest.len() {
                    assert(k[i] == rest[i] && k[j] == rest[j]);
                } else {
                    assert(p.contains(rest[i]));
                    let a = choose|a: int| 0 <= a < p.len() && p[a] == rest[i];
                    assert(k[i] == s[a]);
                    assert(k[j] == s[s.len() - 1]);
                }
            }
        }
    }
}

proof fn lemma_kept_paths(s: Seq<(Seq<char>, Seq<u8>)>, keep: Seq<bool>)
    requires
        keep.len() == s.len(),
        media_paths_unique(s),
    ensures
        media_paths_unique(kept(s, keep)),
    decreases s.len(),
{
    if s.len() > 0 {
        let p = s.drop_last();
        lemma_kept_paths(p, keep.drop_last());
        lemma_kept_member(p, keep.drop_last());
        let rest = kept(p, keep.drop_last());
        let k = kept(s, keep);
        if keep.last() {
            assert forall|i: int, j: int| 0 <= i < j < k.len() implies (#[trigger] k[i]).0 != (#[trigger] k[j]).0 by {
                if j < rest.len() {
                    assert(k[i] == rest[i] && k[j] == rest[j]);
                } else {
                    assert(p.contains(rest[i]));
                    let a = choose|a: int| 0 <= a < p.len() && p[a] == rest[i];
                    assert(k[i] == s[a]);
                    assert(k[j] == s[s.len() - 1]);
                }
            }
        }
    }
}

proof fn lemma_filter_all<T>(s: Seq<T>, pred: spec_fn(T) -> bool)
    requires
        forall|i: int| 0 <= i < s.len() ==> pred(#[trigger] s[i]),
    ensures
        s.filter(pred) == s,
    decreases s.len(),
{
    reveal(Seq::filter);
    if s.len() > 0 {
        lemma_filter_all(s.drop_last(), pred);
        assert(s.drop_last().push(s.last()) =~= s);
    }
}

/// The position of the first row at or after `i` with id `id`, or -1.
pub open spec fn find_id(rows: Seq<RowView>, id: i64, i: int) -> int
    decreases rows.len() - i,
{
    if i < 0 || i >= rows.len() {
        -1
    } else if rows[i].id == id {
        i
    } else {
        find_id(rows, id, i + 1)
    }
}

/// The key of the row with id `id`, if there is one.
pub open spec fn key_of_id(rows: Seq<RowView>, id: i64) -> Option<Seq<char>> {
    let i = find_id(rows, id, 0);
    if i < 0 {
        None
    } else {
        Some(rows[i].entry_key)
    }
}

/// The entry of the row with id `id`, if there is one.
pub open spec fn entry_with_id(rows: Seq<RowView>, id: i64) -> Option<EntryView> {
    let i = find_id(rows, id, 0);
    if i < 0 {
        None
    } else {
        Some(entry_of_row(rows[i]))
    }
}

/// `rows` with `f` applied to every row whose key is `k`.
pub open spec fn map_key(rows: Seq<RowView>, k: Seq<char>, f: spec_fn(RowView) -> RowView) -> Seq<
    RowView,
> {
    Seq::new(rows.len(), |i: int| if rows[i].entry_key == k { f(rows[i]) } else { rows[i] })
}

/// A row with its pin flipped: 1 becomes 0, anything else 1.
pub open spec fn toggled(r: RowView) -> RowView {
    RowView { pinned: if r.pinned == 1 { 0 } else { 1 }, ..r }
}

/// A row marked as copied at `now`.
pub open spec fn touched(r: RowView, now: i64) -> RowView {
    RowView { last_copied_at: Some(now), ..r }
}

/// The new column values that a repeated copy writes into every row of its entry.
pub struct Refresh {
    pub kind: String,
    pub content: String,
    pub image_path: Option<String>,
    pub image_width: Option<u32>,
    pub image_height: Option<u32>,
    pub now: i64,
}

/// A change applied to every row of one entry.
pub enum RowChange {
    TogglePin,
    Touch(i64),
    Refresh(Refresh),
}

/// A row seen again at `now` with the given columns: one more copy.
pub open spec fn recopied(
    r: RowView,
    kind: Seq<char>,
    content: Seq<char>,
    image_path: Option<Seq<char>>,
    image_width: Option<u32>,
    image_height: Option<u32>,
    now: i64,
) -> RowView {
    RowView {
        kind,
        content,
        image_path,
        image_width,
        image_height,
        created_at: now,
        last_copied_at: Some(now),
        copy_count: (r.copy_count + 1) as i64,
        ..r
    }
}

pub open spec fn refreshed(r: RowView, f: Refresh) -> RowView {
    recopied(
        r,
        f.kind@,
        f.content@,
        crate::entry::opt_text(f.image_path),
        f.image_width,
        f.image_height,
        f.now,
    )
}

/// The position of the most recent row with key `k` (the first of equally
/// recent ones), or -1.
pub open spec fn latest_with_key(rows: Seq<RowView>, k: Seq<char>) -> int
    decreases rows.len(),
{
    if rows.len() == 0 {
        -1
    } else {
        let b = latest_with_key(rows.drop_last(), k);
        let r = rows.last();
        if r.entry_key == k && (b < 0 || rows[b].created_at < r.created_at) {
            rows.len() - 1
        } else {
            b
        }
    }
}

/// A row as a first copy creates it.
pub open spec fn fresh_row(
    id: i64,
    kind: Seq<char>,
    entry_key: Seq<char>,
    content: Seq<char>,
    image_path: Option<Seq<char>>,
    image_width: Option<u32>,
    image_height: Option<u32>,
    now: i64,
) -> RowView {
    RowView {
        id,
        kind,
        entry_key,
        content,
        image_path,
        image_width,
        image_height,
        created_at: now,
        pinned: 0,
        last_copied_at: None,
        copy_count: 1,
    }
}

pub open spec fn overflow_message() -> Seq<char> {
    "integer overflow"@
}

pub open spec fn full_message() -> Seq<char> {
    "database or disk is full"@
}

/// Whether some row with key `k` has reached the largest copy count.
pub open spec fn count_saturated(rows: Seq<RowView>, k: Seq<char>) -> bool {
    exists|q: int| 0 <= q < rows.len() && (#[trigger] rows[q]).entry_key == k && rows[q].copy_count == i64::MAX
}

/// Recording one copy of an entry with key `k`: when rows with that key
/// exist, all of them take the new columns, `now` as creation and copy time,
/// and one more copy, and the result is the most recent of them; otherwise a
/// new row with the next id is added and is the result. Refused when a copy
/// count or the id counter is at its largest value.
pub open spec fn upsert_spec(
    v: StorageView,
    kind: ClipboardEntryKind,
    k: Seq<char>,
    content: Seq<char>,
    image_path: Option<Seq<char>>,
    image_width: Option<u32>,
    image_height: Option<u32>,
    now: i64,
) -> Result<(StorageView, EntryView), Seq<char>> {
    let b = latest_with_key(v.rows, k);
    if b >= 0 {
        if count_saturated(v.rows, k) {
            Err(overflow_message())
        } else {
            let rows = map_key(
                v.rows,
                k,
                |r: RowView| recopied(r, kind_name(kind), content, image_path, image_width, image_height, now),
            );
            Ok((StorageView { rows, ..v }, entry_of_row(rows[b])))
        }
    } else if v.last_id == i64::MAX {
        Err(full_message())
    } else {
        let r = fresh_row(
            (v.last_id + 1) as i64,
            kind_name(kind),
            k,
            content,
            image_path,
            image_width,
            image_height,
            now,
        );
        Ok((StorageView { rows: v.rows.push(r), last_id: r.id, ..v }, entry_of_row(r)))
    }
}

/// The key under which a text entry is stored.
pub open spec fn text_key(text: Seq<char>) -> Seq<char> {
    "text:"@ + text
}

/// Recording a copy of `content` at `now`: nothing for text that is only
/// white space, otherwise one copy of the trimmed text under its text key.
pub open spec fn insert_text_spec(v: StorageView, content: Seq<char>, now: i64) -> Result<
    (StorageView, Option<EntryView>),
    Seq<char>,
> {
    let t = trim_spec(content);
    if t.len() == 0 {
        Ok((v, None))
    } else {
        match upsert_spec(v, ClipboardEntryKind::Text, text_key(t), t, None, None, None, now) {
            Ok((w, e)) => Ok((w, Some(e))),
            Err(m) => Err(m),
        }
    }
}

/// How many entries a history request may list: the limit asked for (250
/// when none), kept within 1..=5000.
pub open spec fn history_cap(limit: Option<u32>) -> u32 {
    clamp_spec(
        match limit {
            Some(l) => l,
            None => 250,
        },
        1,
        5000,
    )
}

pub open spec fn opt_str(q: Option<&str>) -> Option<Seq<char>> {
    match q {
        Some(s) => Some(s@),
        None => None,
    }
}

/// The search filter of a query: none when the trimmed query is empty,
/// otherwise the pattern `%query%`.
pub open spec fn history_filter(query: Option<Seq<char>>) -> Option<Seq<char>> {
    let t = trim_spec(
        match query {
            Some(q) => q,
            None => Seq::empty(),
        },
    );
    if t.len() == 0 {
        None
    } else {
        Some(seq!['%'] + t + seq!['%'])
    }
}

/// The creation time before which unpinned rows are too old to keep.
pub open spec fn retention_cutoff(retention_days: u32, now: i64) -> int {
    now - retention_days * 86_400_000
}

/// Whether a row is unpinned and older than the cutoff.
pub open spec fn expired(r: RowView, cutoff: int) -> bool {
    r.pinned == 0 && r.created_at < cutoff
}

/// The number of distinct keys in the table.
pub open spec fn key_count(rows: Seq<RowView>) -> int {
    group_rows(rows, None).len() as int
}

/// The entries that the cleanup may evict, least recent first: one aggregate
/// per key over the unpinned rows, recency taken over those rows.
pub open spec fn eviction_candidates(rows: Seq<RowView>) -> Seq<GroupView> {
    sort_by_order(GroupOrder::Oldest, group_rows(rows.filter(|r: RowView| r.pinned == 0), None))
}

/// How many entries the cleanup evicts: as many as there are keys above
/// `limit`, or all the candidates if there are fewer.
pub open spec fn eviction_count(rows: Seq<RowView>, limit: u32) -> int {
    let over = key_count(rows) - limit;
    let c = eviction_candidates(rows).len() as int;
    if over <= 0 {
        0
    } else if over < c {
        over
    } else {
        c
    }
}

/// The keys the cleanup removes to bring the table down to `limit` keys:
/// the first [`eviction_count`] of the [`eviction_candidates`].
pub open spec fn evicted_keys(rows: Seq<RowView>, limit: u32) -> Seq<Seq<char>> {
    eviction_candidates(rows).take(eviction_count(rows, limit)).map_values(|g: GroupView| g.entry_key)
}

/// The table after the cleanup at `now`: expired rows removed, then every
/// row of the evicted keys.
pub open spec fn cleaned_rows(rows: Seq<RowView>, settings: AppSettings, now: i64) -> Seq<RowView> {
    let cutoff = retention_cutoff(settings.retention_days, now);
    let fresh = rows.filter(|r: RowView| !expired(r, cutoff));
    let gone = evicted_keys(fresh, settings.history_limit);
    fresh.filter(|r: RowView| !gone.contains(r.entry_key))
}

/// The text shown for an image entry of the given size.
pub open spec fn image_label(width: u32, height: u32) -> Seq<char> {
    "Image • "@ + decimal_spec(width as nat) + "×"@ + decimal_spec(height as nat)
}

/// The key under which an image entry is stored.
pub open spec fn image_key(hash: Seq<char>) -> Seq<char> {
    "image:"@ + hash
}

/// The media files with `bytes` added at `path`, unless a file is there already.
pub open spec fn with_media_file(media: Seq<(Seq<char>, Seq<u8>)>, path: Seq<char>, bytes: Seq<u8>) -> Seq<
    (Seq<char>, Seq<u8>),
> {
    if exists|i: int| 0 <= i < media.len() && (#[trigger] media[i]).0 == path {
        media
    } else {
        media.push((path, bytes))
    }
}

/// Recording a copy of an image whose PNG file is `png`, kept at `path`: the
/// file is added if missing, then one copy of the entry keyed by the file's
/// digest, labelled with the size. An error still leaves the file added.
pub open spec fn store_image_spec(
    v: StorageView,
    png: Seq<u8>,
    path: Seq<char>,
    width: u32,
    height: u32,
    now: i64,
) -> Result<(StorageView, EntryView), (StorageView, Seq<char>)> {
    let v1 = StorageView { media: with_media_file(v.media, path, png), ..v };
    match upsert_spec(
        v1,
        ClipboardEntryKind::Image,
        image_key(image_hash(png)),
        image_label(width, height),
        Some(path),
        Some(width),
        Some(height),
        now,
    ) {
        Ok((w, e)) => Ok((w, e)),
        Err(m) => Err((v1, m)),
    }
}

/// Whether a text is made of spaces only (SQLite's `TRIM` leaves it empty).
pub open spec fn all_spaces(s: Seq<char>) -> bool {
    forall|i: int| 0 <= i < s.len() ==> s[i] == ' '
}

/// A row brought up to date: a blank kind becomes `text`, and an empty key
/// becomes the text key of the content.
pub open spec fn normalized_row(r: RowView) -> RowView {
    RowView {
        kind: if all_spaces(r.kind) {
            crate::entry::text_word()
        } else {
            r.kind
        },
        entry_key: if r.entry_key.len() == 0 {
            text_key(r.content)
        } else {
            r.entry_key
        },
        ..r
    }
}

pub open spec fn change_row(c: RowChange, r: RowView) -> RowView {
    match c {
        RowChange::TogglePin => toggled(r),
        RowChange::Touch(now) => touched(r, now),
        RowChange::Refresh(f) => refreshed(r, f),
    }
}

pub open spec fn key_history_limit() -> Seq<char> {
    "history_limit"@
}

pub open spec fn key_retention_days() -> Seq<char> {
    "retention_days"@
}

pub open spec fn key_capture_enabled() -> Seq<char> {
    "capture_enabled"@
}

pub open spec fn key_launch_on_login() -> Seq<char> {
    "launch_on_login"@
}

pub open spec fn key_paste_on_select() -> Seq<char> {
    "paste_on_select"@
}

pub open spec fn key_hide_after_copy() -> Seq<char> {
    "hide_after_copy"@
}

pub open spec fn key_show_on_launch() -> Seq<char> {
    "show_on_launch"@
}

/// The position of the first setting at or after `i` with key `k`, or -1.
pub open spec fn find_setting(s: Seq<(Seq<char>, Seq<char>)>, k: Seq<char>, i: int) -> int
    decreases s.len() - i,
{
    if i < 0 || i >= s.len() {
        -1
    } else if s[i].0 == k {
        i
    } else {
        find_setting(s, k, i + 1)
    }
}

/// The stored value of setting `k`, if there is one.
pub open spec fn setting_value(s: Seq<(Seq<char>, Seq<char>)>, k: Seq<char>) -> Option<Seq<char>> {
    let i = find_setting(s, k, 0);
    if i < 0 {
        None
    } else {
        Some(s[i].1)
    }
}

/// The settings table with `k` set to `v` (updated in place, or added at the end).
pub open spec fn put_setting(s: Seq<(Seq<char>, Seq<char>)>, k: Seq<char>, v: Seq<char>) -> Seq<
    (Seq<char>, Seq<char>),
> {
    let i = find_setting(s, k, 0);
    if i < 0 {
        s.push((k, v))
    } else {
        s.update(i, (k, v))
    }
}

/// The settings table after saving `st`: its sanitized values, the numbers
/// in decimal and the flags as `true` or `false`.
pub open spec fn saved_settings(s: Seq<(Seq<char>, Seq<char>)>, st: AppSettings) -> Seq<
    (Seq<char>, Seq<char>),
> {
    let t = sanitized_spec(st);
    let s1 = put_setting(s, key_history_limit(), decimal_spec(t.history_limit as nat));
    let s2 = put_setting(s1, key_retention_days(), decimal_spec(t.retention_days as nat));
    let s3 = put_setting(s2, key_capture_enabled(), bool_text(t.capture_enabled));
    let s4 = put_setting(s3, key_launch_on_login(), bool_text(t.launch_on_login));
    let s5 = put_setting(s4, key_paste_on_select(), bool_text(t.paste_on_select));
    let s6 = put_setting(s5, key_hide_after_copy(), bool_text(t.hide_after_copy));
    put_setting(s6, key_show_on_launch(), bool_text(t.show_on_launch))
}

/// The settings table with `v` stored under `k` only when `k` has no value yet.
pub open spec fn put_default(s: Seq<(Seq<char>, Seq<char>)>, k: Seq<char>, v: Seq<char>) -> Seq<
    (Seq<char>, Seq<char>),
> {
    if setting_value(s, k) is None {
        put_setting(s, k, v)
    } else {
        s
    }
}

/// The settings table with every setting that has no value given its
/// default: the numbers in decimal and the flags as `true` or `false`.
/// Settings that have a value keep it.
pub open spec fn defaults_filled(s: Seq<(Seq<char>, Seq<char>)>) -> Seq<(Seq<char>, Seq<char>)> {
    let d = default_settings();
    let s1 = put_default(s, key_history_limit(), decimal_spec(d.history_limit as nat));
    let s2 = put_default(s1, key_retention_days(), decimal_spec(d.retention_days as nat));
    let s3 = put_default(s2, key_capture_enabled(), bool_text(d.capture_enabled));
    let s4 = put_default(s3, key_launch_on_login(), bool_text(d.launch_on_login));
    let s5 = put_default(s4, key_paste_on_select(), bool_text(d.paste_on_select));
    let s6 = put_default(s5, key_hide_after_copy(), bool_text(d.hide_after_copy));
    put_default(s6, key_show_on_launch(), bool_text(d.show_on_launch))
}

/// A numeric setting: absent, a `u32`, or an unreadable value.
pub open spec fn read_u32_setting(s: Seq<(Seq<char>, Seq<char>)>, k: Seq<char>) -> Result<
    Option<u32>,
    IntParseError,
> {
    match setting_value(s, k) {
        None => Ok(None),
        Some(v) => match parse_u32_spec(v) {
            Ok(n) => Ok(Some(n)),
            Err(e) => Err(e),
        },
    }
}

/// A flag setting: absent, or set exactly when the stored value is `true`.
pub open spec fn read_bool_setting(s: Seq<(Seq<char>, Seq<char>)>, k: Seq<char>) -> Option<bool> {
    match setting_value(s, k) {
        None => None,
        Some(v) => Some(v == bool_text(true)),
    }
}

pub open spec fn or_u32(o: Option<u32>, d: u32) -> u32 {
    match o {
        Some(v) => v,
        None => d,
    }
}

pub open spec fn or_bool(o: Option<bool>, d: bool) -> bool {
    match o {
        Some(v) => v,
        None => d,
    }
}

/// The settings read from the table: every stored value overrides the
/// default, then the result is sanitized; an unreadable number is an error
/// (the history limit is read first).
pub open spec fn loaded_settings(s: Seq<(Seq<char>, Seq<char>)>) -> Result<AppSettings, IntParseError> {
    let d = default_settings();
    match read_u32_setting(s, key_history_limit()) {
        Err(e) => Err(e),
        Ok(hl) => match read_u32_setting(s, key_retention_days()) {
            Err(e) => Err(e),
            Ok(rd) => Ok(
                sanitized_spec(
                    AppSettings {
                        history_limit: or_u32(hl, d.history_limit),
                        retention_days: or_u32(rd, d.retention_days),
                        capture_enabled: or_bool(
                            read_bool_setting(s, key_capture_enabled()),
                            d.capture_enabled,
                        ),
                        launch_on_login: or_bool(
                            read_bool_setting(s, key_launch_on_login()),
                            d.launch_on_login,
                        ),
                        paste_on_select: or_bool(
                            read_bool_setting(s, key_paste_on_select()),
                            d.paste_on_select,
                        ),
                        hide_after_copy: or_bool(
                            read_bool_setting(s, key_hide_after_copy()),
                            d.hide_after_copy,
                        ),
                        show_on_launch: or_bool(read_bool_setting(s, key_show_on_launch()), d.show_on_launch),
                    },
                ),
            ),
        },
    }
}

proof fn lemma_find_setting(s: Seq<(Seq<char>, Seq<char>)>, k: Seq<char>, i: int)
    requires
        0 <= i <= s.len(),
    ensures
        find_setting(s, k, i) == -1 || (i <= find_setting(s, k, i) < s.len() && s[find_setting(s, k, i)].0 == k),
        forall|j: int| i <= j < s.len() && (find_setting(s, k, i) == -1 || j < find_setting(s, k, i)) ==> (#[trigger] s[j]).0 != k,
    decreases s.len() - i,
{
    if i < s.len() && s[i].0 != k {
        lemma_find_setting(s, k, i + 1);
    }
}

proof fn lemma_put_setting(s: Seq<(Seq<char>, Seq<char>)>, k: Seq<char>, v: Seq<char>)
    requires
        setting_keys_unique(s),
    ensures
        setting_keys_unique(put_setting(s, k, v)),
        forall|k2: Seq<char>| #[trigger] setting_value(put_setting(s, k, v), k2) == if k2 == k { Some(v) } else { setting_value(s, k2) },
{
    let t = put_setting(s, k, v);
    lemma_find_setting(s, k, 0);
    let ik = find_setting(s, k, 0);
    assert forall|i: int, j: int| 0 <= i < j < t.len() implies (#[trigger] t[i]).0 != (#[trigger] t[j]).0 by {
        if ik < 0 {
            if j == s.len() {
                assert(t[i] == s[i]);
            } else {
                assert(t[i] == s[i] && t[j] == s[j]);
            }
        } else {
            if i == ik {
                assert(t[j] == s[j]);
                assert(s[ik].0 == k);
            } else if j == ik {
                assert(t[i] == s[i]);
                assert(s[ik].0 == k);
            } else {
                assert(t[i] == s[i] && t[j] == s[j]);
            }
        }
    }
    assert forall|k2: Seq<char>| #[trigger] setting_value(t, k2) == if k2 == k { Some(v) } else { setting_value(s, k2) } by {
        lemma_find_setting(s, k2, 0);
        lemma_find_setting(t, k2, 0);
        let a = find_setting(s, k2, 0);
        let b = find_setting(t, k2, 0);
        if ik < 0 {
            if k2 == k {
                assert(t[s.len() as int].0 == k);
                if b >= 0 && b < s.len() {
                    assert(t[b] == s[b]);
                }
                assert(b == s.len());
            } else {
                if a >= 0 {
                    assert(t[a] == s[a]);
                    if b >= 0 && b < a {
                        assert(t[b] == s[b]);
                    }
                    assert(b == a);
                } else {
                    if b >= 0 {
                        if b < s.len() {
                            assert(t[b] == s[b]);
                        } else {
                            assert(t[b].0 == k);
                        }
                    }
                    assert(b == -1);
                }
            }
        } else {
            if k2 == k {
                assert(t[ik].0 == k);
                if b >= 0 && b < ik {
                    assert(t[b] == s[b]);
                }
                assert(b == ik);
            } else {
                if a >= 0 {
                    assert(a != ik);
                    assert(t[a] == s[a]);
                    if b >= 0 && b < a {
                        if b != ik {
                            assert(t[b] == s[b]);
                        }
                    }
                    assert(b == a);
                } else {
                    if b >= 0 {
                        if b != ik {
                            assert(t[b] == s[b]);
                        }
                    }
                    assert(b == -1);
                }
            }
        }
    }
}

/// Saving settings and reading them back gives the saved settings, sanitized.
pub proof fn lemma_settings_round_trip(s: Seq<(Seq<char>, Seq<char>)>, st: AppSettings)
    requires
        setting_keys_unique(s),
    ensures
        loaded_settings(saved_settings(s, st)) == Ok::<AppSettings, IntParseError>(sanitized_spec(st)),
        setting_value(saved_settings(s, st), key_history_limit()) is Some,
        setting_value(saved_settings(s, st), key_retention_days()) is Some,
        setting_value(saved_settings(s, st), key_capture_enabled()) is Some,
        setting_value(saved_settings(s, st), key_launch_on_login()) is Some,
        setting_value(saved_settings(s, st), key_paste_on_select()) is Some,
        setting_value(saved_settings(s, st), key_hide_after_copy()) is Some,
        setting_value(saved_settings(s, st), key_show_on_launch()) is Some,
{
    reveal_strlit("history_limit");
    reveal_strlit("retention_days");
    reveal_strlit("capture_enabled");
    reveal_strlit("launch_on_login");
    reveal_strlit("paste_on_select");
    reveal_strlit("hide_after_copy");
    reveal_strlit("show_on_launch");
    let t = sanitized_spec(st);
    let s1 = put_setting(s, key_history_limit(), decimal_spec(t.history_limit as nat));
    let s2 = put_setting(s1, key_retention_days(), decimal_spec(t.retention_days as nat));
    let s3 = put_setting(s2, key_capture_enabled(), bool_text(t.capture_enabled));
    let s4 = put_setting(s3, key_launch_on_login(), bool_text(t.launch_on_login));
    let s5 = put_setting(s4, key_paste_on_select(), bool_text(t.paste_on_select));
    let s6 = put_setting(s5, key_hide_after_copy(), bool_text(t.hide_after_copy));
    let s7 = put_setting(s6, key_show_on_launch(), bool_text(t.show_on_launch));
    lemma_put_setting(s, key_history_limit(), decimal_spec(t.history_limit as nat));
    lemma_put_setting(s1, key_retention_days(), decimal_spec(t.retention_days as nat));
    lemma_put_setting(s2, key_capture_enabled(), bool_text(t.capture_enabled));
    lemma_put_setting(s3, key_launch_on_login(), bool_text(t.launch_on_login));
    lemma_put_setting(s4, key_paste_on_select(), bool_text(t.paste_on_select));
    lemma_put_setting(s5, key_hide_after_copy(), bool_text(t.hide_after_copy));
    lemma_put_setting(s6, key_show_on_launch(), bool_text(t.show_on_launch));
    assert(key_history_limit()[0] == 'h' && key_history_limit()[2] == 's');
    assert(key_retention_days()[0] == 'r' && key_retention_days()[2] == 't');
    assert(key_capture_enabled()[0] == 'c' && key_capture_enabled()[2] == 'p');
    assert(key_launch_on_login()[0] == 'l' && key_launch_on_login()[2] == 'u');
    assert(key_paste_on_select()[0] == 'p' && key_paste_on_select()[2] == 's');
    assert(key_hide_after_copy()[0] == 'h' && key_hide_after_copy()[2] == 'd');
    assert(key_show_on_launch()[0] == 's' && key_show_on_launch()[2] == 'o');
    assert(key_history_limit() != key_retention_days());
    assert(key_history_limit() != key_capture_enabled());
    assert(key_history_limit() != key_launch_on_login());
    assert(key_history_limit() != key_paste_on_select());
    assert(key_history_limit() != key_hide_after_copy());
    assert(key_history_limit() != key_show_on_launch());
    assert(key_retention_days() != key_capture_enabled());
    assert(key_retention_days() != key_launch_on_login());
    assert(key_retention_days() != key_paste_on_select());
    assert(key_retention_days() != key_hide_after_copy());
    assert(key_retention_days() != key_show_on_launch());
    assert(key_capture_enabled() != key_launch_on_login());
    assert(key_capture_enabled() != key_paste_on_select());
    assert(key_capture_enabled() != key_hide_after_copy());
    assert(key_capture_enabled() != key_show_on_launch());
    assert(key_launch_on_login() != key_paste_on_select());
    assert(key_launch_on_login() != key_hide_after_copy());
    assert(key_launch_on_login() != key_show_on_launch());
    assert(key_paste_on_select() != key_hide_after_copy());
    assert(key_paste_on_select() != key_show_on_launch());
    assert(key_hide_after_copy() != key_show_on_launch());
    assert(setting_value(s7, key_history_limit()) == Some(decimal_spec(t.history_limit as nat)));
    assert(setting_value(s7, key_retention_days()) == Some(decimal_spec(t.retention_days as nat)));
    assert(setting_value(s7, key_capture_enabled()) == Some(bool_text(t.capture_enabled)));
    assert(setting_value(s7, key_launch_on_login()) == Some(bool_text(t.launch_on_login)));
    assert(setting_value(s7, key_paste_on_select()) == Some(bool_text(t.paste_on_select)));
    assert(setting_value(s7, key_hide_after_copy()) == Some(bool_text(t.hide_after_copy)));
    assert(setting_value(s7, key_show_on_launch()) == Some(bool_text(t.show_on_launch)));
    crate::numtext::lemma_parse_decimal(t.history_limit);
    crate::numtext::lemma_parse_decimal(t.retention_days);
    assert(bool_text(false) != bool_text(true)) by {
        assert(bool_text(false).len() != bool_text(true).len());
    }
}

/// Preparing a store keeps saved settings: filling in defaults after a save
/// changes nothing, and reading the settings back gives the saved ones,
/// sanitized.
pub proof fn lemma_saved_settings_survive_defaults(s: Seq<(Seq<char>, Seq<char>)>, st: AppSettings)
    requires
        setting_keys_unique(s),
    ensures
        defaults_filled(saved_settings(s, st)) == saved_settings(s, st),
        loaded_settings(defaults_filled(saved_settings(s, st))) == Ok::<AppSettings, IntParseError>(sanitized_spec(st)),
{
    lemma_settings_round_trip(s, st);
}

/// Whether some row points at the image file `path` (an empty path counts as none).
pub open spec fn is_referenced(rows: Seq<RowView>, path: Seq<char>) -> bool {
    path.len() > 0 && exists|i: int| 0 <= i < rows.len() && (#[trigger] rows[i]).image_path == Some(path)
}

/// The image path of a row, when it has a non-empty one.
pub open spec fn row_image_path(r: RowView) -> Option<Seq<char>> {
    match r.image_path {
        Some(p) => if p.len() > 0 { Some(p) } else { None },
        None => None,
    }
}

/// What comparing the paths `p` and `f` as paths may give when it says they
/// are the same: plain paths then have the same components, and paths whose
/// last pieces are names have the same last piece.
pub open spec fn may_be_same_path(p: Seq<char>, f: Seq<char>) -> bool {
    &&& plain_path(p) && plain_path(f) ==> path_components(p) == path_components(f)
    &&& name_piece(last_piece(p)) && name_piece(last_piece(f)) ==> last_piece(p) == last_piece(f)
}

/// What comparing the paths `p` and `f` as paths may give when it says they
/// differ: the texts differ, and plain paths then differ in their components.
pub open spec fn may_differ_path(p: Seq<char>, f: Seq<char>) -> bool {
    &&& p != f
    &&& plain_path(p) && plain_path(f) ==> path_components(p) != path_components(f)
}

/// Row `r` has a non-empty image path that may be the same path as `f`.
pub open spec fn row_path_same(r: RowView, f: Seq<char>) -> bool {
    match row_image_path(r) {
        Some(p) => may_be_same_path(p, f),
        None => false,
    }
}

/// Row `r` has no non-empty image path, or one that may differ from `f`.
pub open spec fn row_path_differs(r: RowView, f: Seq<char>) -> bool {
    match row_image_path(r) {
        Some(p) => may_differ_path(p, f),
        None => true,
    }
}

/// Flags for the media files, one per file, that comparing each file's path
/// with the rows' non-empty image paths can give: a set flag comes from a
/// row whose path is the same path, a clear one from rows whose paths all
/// differ from it.
pub open spec fn media_marks(rows: Seq<RowView>, media: Seq<(Seq<char>, Seq<u8>)>, marks: Seq<bool>) -> bool {
    &&& marks.len() == media.len()
    &&& forall|i: int| 0 <= i < media.len() && #[trigger] marks[i] ==> exists|j: int|
        0 <= j < rows.len() && #[trigger] row_path_same(rows[j], media[i].0)
    &&& forall|i: int, j: int| 0 <= i < media.len() && 0 <= j < rows.len() && !marks[i]
        ==> #[trigger] row_path_differs(rows[j], (#[trigger] media[i]).0)
}

/// `after` is `before` without the media files whose path is not the path
/// of any row's image.
pub open spec fn media_pruned(
    rows: Seq<RowView>,
    before: Seq<(Seq<char>, Seq<u8>)>,
    after: Seq<(Seq<char>, Seq<u8>)>,
) -> bool {
    exists|marks: Seq<bool>| media_marks(rows, before, marks) && after == kept(before, marks)
}

/// The table without the entry that holds row `id`.
pub open spec fn delete_rows(rows: Seq<RowView>, id: i64) -> Seq<RowView> {
    match key_of_id(rows, id) {
        Some(k) => rows.filter(|r: RowView| r.entry_key != k),
        None => rows,
    }
}

/// The table without its unpinned rows.
pub open spec fn unpinned_cleared(rows: Seq<RowView>) -> Seq<RowView> {
    rows.filter(|r: RowView| r.pinned != 0)
}

/// The table after toggling the pin of the entry that holds row `id`.
pub open spec fn toggle_pin_rows(rows: Seq<RowView>, id: i64) -> Seq<RowView> {
    match key_of_id(rows, id) {
        Some(k) => map_key(rows, k, |r: RowView| toggled(r)),
        None => rows,
    }
}

/// The table after marking the entry that holds row `id` as copied at `now`.
pub open spec fn touch_rows(rows: Seq<RowView>, id: i64, now: i64) -> Seq<RowView> {
    match key_of_id(rows, id) {
        Some(k) => map_key(rows, k, |r: RowView| touched(r, now)),
        None => rows,
    }
}

impl Storage {
    /// An empty store whose image files live in `media_dir`.
    pub fn new(media_dir: String) -> (s: Storage)
        ensures
            s@.wf(),
            s@.rows.len() == 0,
            s@.last_id == 0,
            s@.settings.len() == 0,
            s@.media.len() == 0,
            s@.media_dir == media_dir@,
    {
        let s = Storage {
            rows: Vec::new(),
            last_id: 0,
            settings: Vec::new(),
            media_dir,
            media: Vec::new(),
        };
        assert(s@.rows =~= Seq::<RowView>::empty());
        assert(s@.settings =~= Seq::<(Seq<char>, Seq<char>)>::empty());
        assert(s@.media =~= Seq::<(Seq<char>, Seq<u8>)>::empty());
        s
    }

    fn row_index(&self, id: i64) -> (r: Option<usize>)
        ensures
            match r {
                Some(i) => i < self@.rows.len() && find_id(self@.rows, id, 0) == i,
                None => find_id(self@.rows, id, 0) == -1,
            },
    {
        let ghost rv = self@.rows;
        let mut i: usize = 0;
        while i < self.rows.len()
            invariant
                rv == self@.rows,
                rv == rows_view(self.rows@),
                i <= self.rows@.len(),
                find_id(rv, id, 0) == find_id(rv, id, i as int),
            decreases self.rows@.len() - i,
        {
            if self.rows[i].id == id {
                return Some(i);
            }
            i = i + 1;
        }
        None
    }

    /// The entry of row `id` as stored in that row, or `None` if no row has it.
    pub fn get_entry(&self, id: i64) -> (r: Result<Option<ClipboardEntry>, String>)
        ensures
            r is Ok,
            r matches Ok(o) ==> match o {
                Some(e) => entry_with_id(self@.rows, id) == Some(e@),
                None => entry_with_id(self@.rows, id) is None,
            },
    {
        match self.row_index(id) {
            Some(i) => Ok(Some(self.rows[i].to_entry())),
            None => Ok(None),
        }
    }

    fn change_rows_with_key(&mut self, key: &String, change: &RowChange)
        requires
            old(self)@.wf(),
            change is Refresh ==> forall|q: int|
                0 <= q < old(self)@.rows.len() && (#[trigger] old(self)@.rows[q]).entry_key == key@
                    ==> old(self)@.rows[q].copy_count < i64::MAX,
        ensures
            final(self)@.wf(),
            final(self)@ == (StorageView {
                rows: map_key(old(self)@.rows, key@, |r: RowView| change_row(*change, r)),
                ..old(self)@
            }),
    {
        let ghost k = key@;
        let ghost old_rows = self@.rows;
        let mut j: usize = 0;
        while j < self.rows.len()
            invariant
                j <= self.rows@.len(),
                self.rows@.len() == old_rows.len(),
                same_but_rows(self@, old(self)@),
                old(self)@.wf(),
                old_rows == old(self)@.rows,
                key@ == k,
                change is Refresh ==> forall|q: int|
                    0 <= q < old_rows.len() && (#[trigger] old_rows[q]).entry_key == k
                        ==> old_rows[q].copy_count < i64::MAX,
                forall|q: int|
                    0 <= q < j ==> #[trigger] rows_view(self.rows@)[q] == (if old_rows[q].entry_key
                        == k {
                        change_row(*change, old_rows[q])
                    } else {
                        old_rows[q]
                    }),
                forall|q: int| j <= q < old_rows.len() ==> #[trigger] rows_view(self.rows@)[q] == old_rows[q],
            decreases self.rows@.len() - j,
        {
            proof {
                assert(rows_view(self.rows@)[j as int] == self.rows@[j as int]@);
            }
            if self.rows[j].entry_key == *key {
                let mut row = self.rows[j].duplicate();
                match change {
                    RowChange::TogglePin => {
                        row.pinned = if row.pinned == 1 {
                            0
                        } else {
                            1
                        };
                    },
                    RowChange::Touch(now) => {
                        row.last_copied_at = Some(*now);
                    },
                    RowChange::Refresh(f) => {
                        row.kind = f.kind.clone();
                        row.content = f.content.clone();
                        row.image_path = copy_opt_string(&f.image_path);
                        row.image_width = f.image_width;
                        row.image_height = f.image_height;
                        row.created_at = f.now;
                        row.last_copied_at = Some(f.now);
                        row.copy_count = row.copy_count + 1;
                    },
                }
                let ghost before = self.rows@;
                self.rows.set(j, row);
                proof {
                    assert forall|q: int| 0 <= q < self.rows@.len() implies #[trigger] rows_view(
                        self.rows@,
                    )[q] == (if q == j {
                        row@
                    } else {
                        rows_view(before)[q]
                    }) by {
                        assert(rows_view(before)[q] == before[q]@);
                    }
                }
            }
            j = j + 1;
        }
        proof {
            let m = map_key(old_rows, k, |r: RowView| change_row(*change, r));
            assert(rows_view(self.rows@) =~= m);
            assert forall|i: int| 0 <= i < m.len() implies #[trigger] m[i].id == old_rows[i].id by {}
        }
    }

    fn setting_index(&self, key: &String) -> (r: Option<usize>)
        ensures
            match r {
                Some(i) => i < self@.settings.len() && find_setting(self@.settings, key@, 0) == i,
                None => find_setting(self@.settings, key@, 0) == -1,
            },
    {
        let ghost sv = self@.settings;
        let mut i: usize = 0;
        while i < self.settings.len()
            invariant
                i <= self.settings@.len(),
                sv == self@.settings,
                sv == settings_view(self.settings@),
                find_setting(sv, key@, 0) == find_setting(sv, key@, i as int),
            decreases self.settings@.len() - i,
        {
            assert(sv[i as int] == (self.settings@[i as int].key@, self.settings@[i as int].value@));
            if self.settings[i].key == *key {
                return Some(i);
            }
            i = i + 1;
        }
        None
    }

    fn put_setting(&mut self, key: String, value: String)
        requires
            old(self)@.wf(),
        ensures
            final(self)@.wf(),
            final(self)@ == (StorageView { settings: put_setting(old(self)@.settings, key@, value@), ..old(self)@ }),
    {
        proof {
            lemma_put_setting(self@.settings, key@, value@);
        }
        let ghost before = self@.settings;
        match self.setting_index(&key) {
            Some(i) => {
                self.settings.set(i, SettingRow { key, value });
                assert(self@.settings =~= before.update(i as int, (key@, value@)));
            },
            None => {
                self.settings.push(SettingRow { key, value });
                assert(self@.settings =~= before.push((key@, value@)));
            },
        }
    }

    fn put_setting_default(&mut self, key: String, value: String)
        requires
            old(self)@.wf(),
        ensures
            final(self)@.wf(),
            final(self)@ == (StorageView { settings: put_default(old(self)@.settings, key@, value@), ..old(self)@ }),
    {
        match self.setting_index(&key) {
            Some(_) => {},
            None => self.put_setting(key, value),
        }
    }

    /// Stores the sanitized `settings`, one row per setting.
    pub fn save_settings(&mut self, settings: &AppSettings) -> (r: Result<(), String>)
        requires
            old(self)@.wf(),
        ensures
            r is Ok,
            final(self)@.wf(),
            final(self)@ == (StorageView { settings: saved_settings(old(self)@.settings, *settings), ..old(self)@ }),
    {
        let st = settings.sanitized();
        self.put_setting(String::from_str("history_limit"), u64_to_string(st.history_limit as u64));
        self.put_setting(String::from_str("retention_days"), u64_to_string(st.retention_days as u64));
        self.put_setting(String::from_str("capture_enabled"), bool_to_string(st.capture_enabled));
        self.put_setting(String::from_str("launch_on_login"), bool_to_string(st.launch_on_login));
        self.put_setting(String::from_str("paste_on_select"), bool_to_string(st.paste_on_select));
        self.put_setting(String::from_str("hide_after_copy"), bool_to_string(st.hide_after_copy));
        self.put_setting(String::from_str("show_on_launch"), bool_to_string(st.show_on_launch));
        Ok(())
    }

    /// Reads the numeric setting `key`: `None` when absent, an error message
    /// when its value is not the decimal notation of a `u32`.
    pub fn get_setting_u32(&self, key: &str) -> (r: Result<Option<u32>, String>)
        ensures
            match read_u32_setting(self@.settings, key@) {
                Ok(o) => r == Ok::<Option<u32>, String>(o),
                Err(e) => r is Err && r->Err_0@ == int_parse_message(e),
            },
    {
        let k = String::from_str(key);
        match self.setting_index(&k) {
            None => Ok(None),
            Some(i) => {
                assert(self@.settings[i as int] == (self.settings@[i as int].key@, self.settings@[i as int].value@));
                match parse_u32(self.settings[i].value.as_str()) {
                    Ok(n) => Ok(Some(n)),
                    Err(e) => Err(int_parse_error_message(e)),
                }
            },
        }
    }

    /// Reads the flag setting `key`: `None` when absent, otherwise whether
    /// its value is exactly `true`.
    pub fn get_setting_bool(&self, key: &str) -> (r: Result<Option<bool>, String>)
        ensures
            r == Ok::<Option<bool>, String>(read_bool_setting(self@.settings, key@)),
    {
        let k = String::from_str(key);
        match self.setting_index(&k) {
            None => Ok(None),
            Some(i) => {
                assert(self@.settings[i as int] == (self.settings@[i as int].key@, self.settings@[i as int].value@));
                let t = bool_to_string(true);
                Ok(Some(self.settings[i].value == t))
            },
        }
    }

    /// The stored settings over the defaults, sanitized; an error message when
    /// a numeric setting cannot be read.
    pub fn load_settings(&self) -> (r: Result<AppSettings, String>)
        ensures
            match loaded_settings(self@.settings) {
                Ok(st) => r == Ok::<AppSettings, String>(st),
                Err(e) => r is Err && r->Err_0@ == int_parse_message(e),
            },
    {
        let mut settings = AppSettings::default();
        let history_limit = self.get_setting_u32("history_limit")?;
        let retention_days = self.get_setting_u32("retention_days")?;
        let capture_enabled = self.get_setting_bool("capture_enabled")?;
        let launch_on_login = self.get_setting_bool("launch_on_login")?;
        let paste_on_select = self.get_setting_bool("paste_on_select")?;
        let hide_after_copy = self.get_setting_bool("hide_after_copy")?;
        let show_on_launch = self.get_setting_bool("show_on_launch")?;
        if let Some(value) = history_limit {
            settings.history_limit = value;
        }
        if let Some(value) = retention_days {
            settings.retention_days = value;
        }
        if let Some(value) = capture_enabled {
            settings.capture_enabled = value;
        }
        if let Some(value) = launch_on_login {
            settings.launch_on_login = value;
        }
        if let Some(value) = paste_on_select {
            settings.paste_on_select = value;
        }
        if let Some(value) = hide_after_copy {
            settings.hide_after_copy = value;
        }
        if let Some(value) = show_on_launch {
            settings.show_on_launch = value;
        }
        Ok(settings.sanitized())
    }

    fn retain_rows(&mut self, keep: &Vec<bool>)
        requires
            old(self)@.wf(),
            keep@.len() == old(self)@.rows.len(),
        ensures
            final(self)@.wf(),
            same_but_rows(final(self)@, old(self)@),
            final(self)@.rows == kept(old(self)@.rows, keep@),
    {
        let mut out: Vec<EntryRow> = Vec::new();
        let mut i: usize = 0;
        while i < self.rows.len()
            invariant
                i <= self.rows@.len(),
                keep@.len() == self.rows@.len(),
                rows_view(out@) == kept(rows_view(self.rows@.take(i as int)), keep@.take(i as int)),
            decreases self.rows@.len() - i,
        {
            proof {
                assert(rows_view(self.rows@.take(i + 1)).drop_last() =~= rows_view(self.rows@.take(i as int)));
                assert(keep@.take(i + 1).drop_last() =~= keep@.take(i as int));
                assert(rows_view(self.rows@.take(i + 1)).last() == self.rows@[i as int]@);
            }
            if keep[i] {
                let r = self.rows[i].duplicate();
                let ghost before = rows_view(out@);
                out.push(r);
                assert(rows_view(out@) =~= before.push(r@));
            }
            i = i + 1;
        }
        proof {
            assert(self.rows@.take(i as int) =~= self.rows@);
            assert(keep@.take(i as int) =~= keep@);
            lemma_kept_ids(self@.rows, keep@, self@.last_id);
        }
        self.rows = out;
    }

    fn prune_media_directory(&mut self)
        requires
            old(self)@.wf(),
        ensures
            final(self)@.wf(),
            media_pruned(old(self)@.rows, old(self)@.media, final(self)@.media),
            final(self)@.rows == old(self)@.rows,
            final(self)@.last_id == old(self)@.last_id,
            final(self)@.settings == old(self)@.settings,
            final(self)@.media_dir == old(self)@.media_dir,
    {
        let ghost rv = self@.rows;
        let ghost mv = self@.media;
        let mut keep: Vec<bool> = Vec::new();
        let mut i: usize = 0;
        while i < self.media.len()
            invariant
                i <= self.media@.len(),
                rv == self@.rows,
                rv == rows_view(self.rows@),
                mv == media_view(self.media@),
                keep@.len() == i,
                forall|q: int| 0 <= q < i && #[trigger] keep@[q] ==> exists|j: int|
                    0 <= j < rv.len() && #[trigger] row_path_same(rv[j], mv[q].0),
                forall|q: int, j: int| 0 <= q < i && 0 <= j < rv.len() && !keep@[q]
                    ==> #[trigger] row_path_differs(rv[j], (#[trigger] mv[q]).0),
            decreases self.media@.len() - i,
        {
            let path = &self.media[i].path;
            assert(mv[i as int].0 == path@);
            let mut found = false;
            let mut j: usize = 0;
            while j < self.rows.len() && !found
                invariant
                    j <= self.rows@.len(),
                    rv == rows_view(self.rows@),
                    found ==> exists|k: int| 0 <= k < rv.len() && #[trigger] row_path_same(rv[k], path@),
                    !found ==> forall|k: int| 0 <= k < j ==> #[trigger] row_path_differs(rv[k], path@),
                decreases self.rows@.len() - j,
            {
                assert(rv[j as int] == self.rows@[j as int]@);
                let hit = match &self.rows[j].image_path {
                    Some(p) => !p.as_str().is_empty() && same_path(p, path),
                    None => false,
                };
                if hit {
                    found = true;
                    assert(row_path_same(rv[j as int], path@));
                } else {
                    assert(row_path_differs(rv[j as int], path@));
                }
                j = j + 1;
            }
            let ghost before = keep@;
            keep.push(found);
            proof {
                assert forall|q: int, k: int| 0 <= q <= i && 0 <= k < rv.len() && !keep@[q]
                    implies #[trigger] row_path_differs(rv[k], (#[trigger] mv[q]).0) by {
                    if q < i {
                        assert(keep@[q] == before[q]);
                    } else {
                        assert(j == self.rows@.len());
                    }
                }
                assert forall|q: int| 0 <= q <= i && #[trigger] keep@[q] implies exists|k: int|
                    0 <= k < rv.len() && #[trigger] row_path_same(rv[k], mv[q].0) by {
                    if q < i {
                        assert(keep@[q] == before[q]);
                    }
                }
            }
            i = i + 1;
        }
        proof {
            assert(media_marks(rv, mv, keep@));
            lemma_kept_paths(mv, keep@);
        }
        let mut out: Vec<MediaFile> = Vec::new();
        let mut k: usize = 0;
        while k < self.media.len()
            invariant
                k <= self.media@.len(),
                keep@.len() == self.media@.len(),
                mv == media_view(self.media@),
                media_view(out@) == kept(mv.take(k as int), keep@.take(k as int)),
            decreases self.media@.len() - k,
        {
            proof {
                assert(mv.take(k + 1).drop_last() =~= mv.take(k as int));
                assert(keep@.take(k + 1).drop_last() =~= keep@.take(k as int));
                assert(mv.take(k + 1).last() == mv[k as int]);
            }
            if keep[k] {
                let f = MediaFile { path: self.media[k].path.clone(), bytes: self.media[k].bytes.clone() };
                let ghost before = media_view(out@);
                out.push(f);
                assert(media_view(out@) =~= before.push((f.path@, f.bytes@)));
            }
            k = k + 1;
        }
        proof {
            assert(mv.take(k as int) =~= mv);
            assert(keep@.take(k as int) =~= keep@);
        }
        self.media = out;
    }

    /// Deletes every row of the entry that holds row `id`, then the image
    /// files that no row points at any more.
    pub fn delete_entry(&mut self, id: i64) -> (r: Result<(), String>)
        requires
            old(self)@.wf(),
        ensures
            r is Ok,
            final(self)@.wf(),
            final(self)@.rows == delete_rows(old(self)@.rows, id),
            media_pruned(final(self)@.rows, old(self)@.media, final(self)@.media),
            final(self)@.last_id == old(self)@.last_id,
            final(self)@.settings == old(self)@.settings,
            final(self)@.media_dir == old(self)@.media_dir,
    {
        if let Some(i) = self.row_index(id) {
            let key = self.rows[i].entry_key.clone();
            let ghost rv = self@.rows;
            let mut keep: Vec<bool> = Vec::new();
            let mut j: usize = 0;
            while j < self.rows.len()
                invariant
                    j <= self.rows@.len(),
                    rv == rows_view(self.rows@),
                    keep@.len() == j,
                    forall|q: int| 0 <= q < j ==> #[trigger] keep@[q] == (rv[q].entry_key != key@),
                decreases self.rows@.len() - j,
            {
                assert(rv[j as int] == self.rows@[j as int]@);
                keep.push(self.rows[j].entry_key != key);
                j = j + 1;
            }
            proof {
                lemma_kept_filter(rv, keep@, |r: RowView| r.entry_key != key@);
            }
            self.retain_rows(&keep);
        }
        self.prune_media_directory();
        Ok(())
    }

    /// Deletes every unpinned row, then the image files that no row points
    /// at any more.
    pub fn clear_unpinned(&mut self) -> (r: Result<(), String>)
        requires
            old(self)@.wf(),
        ensures
            r is Ok,
            final(self)@.wf(),
            final(self)@.rows == unpinned_cleared(old(self)@.rows),
            media_pruned(final(self)@.rows, old(self)@.media, final(self)@.media),
            final(self)@.last_id == old(self)@.last_id,
            final(self)@.settings == old(self)@.settings,
            final(self)@.media_dir == old(self)@.media_dir,
    {
        let ghost rv = self@.rows;
        let mut keep: Vec<bool> = Vec::new();
        let mut j: usize = 0;
        while j < self.rows.len()
            invariant
                j <= self.rows@.len(),
                rv == rows_view(self.rows@),
                keep@.len() == j,
                forall|q: int| 0 <= q < j ==> #[trigger] keep@[q] == (rv[q].pinned != 0),
            decreases self.rows@.len() - j,
        {
            assert(rv[j as int] == self.rows@[j as int]@);
            keep.push(self.rows[j].pinned != 0);
            j = j + 1;
        }
        proof {
            lemma_kept_filter(rv, keep@, |r: RowView| r.pinned != 0);
        }
        self.retain_rows(&keep);
        self.prune_media_directory();
        Ok(())
    }

    fn latest_index(&self, key: &String) -> (r: Option<usize>)
        ensures
            match r {
                Some(i) => i < self@.rows.len() && latest_with_key(self@.rows, key@) == i,
                None => latest_with_key(self@.rows, key@) == -1,
            },
    {
        let ghost rv = self@.rows;
        let mut best: Option<usize> = None;
        let mut i: usize = 0;
        while i < self.rows.len()
            invariant
                i <= self.rows@.len(),
                rv == rows_view(self.rows@),
                match best {
                    Some(b) => b < i && latest_with_key(rv.take(i as int), key@) == b,
                    None => latest_with_key(rv.take(i as int), key@) == -1,
                },
            decreases self.rows@.len() - i,
        {
            proof {
                assert(rv.take(i + 1).drop_last() =~= rv.take(i as int));
                assert(rv.take(i + 1).last() == self.rows@[i as int]@);
                match best {
                    Some(b) => {
                        assert(rv.take(i + 1)[b as int] == rv[b as int]);
                        assert(rv[b as int] == self.rows@[b as int]@);
                    },
                    None => {},
                }
            }
            if self.rows[i].entry_key == *key {
                let newer = match best {
                    None => true,
                    Some(b) => self.rows[b].created_at < self.rows[i].created_at,
                };
                if newer {
                    best = Some(i);
                }
            }
            i = i + 1;
        }
        proof {
            assert(rv.take(i as int) =~= rv);
        }
        best
    }

    fn any_count_saturated(&self, key: &String) -> (r: bool)
        ensures
            r == count_saturated(self@.rows, key@),
    {
        let ghost rv = self@.rows;
        let mut i: usize = 0;
        while i < self.rows.len()
            invariant
                i <= self.rows@.len(),
                rv == rows_view(self.rows@),
                forall|q: int| 0 <= q < i ==> !((#[trigger] rv[q]).entry_key == key@ && rv[q].copy_count == i64::MAX),
            decreases self.rows@.len() - i,
        {
            assert(rv[i as int] == self.rows@[i as int]@);
            if self.rows[i].entry_key == *key && self.rows[i].copy_count == i64::MAX {
                return true;
            }
            i = i + 1;
        }
        false
    }

    /// Records one copy of the entry with key `entry_key` at time `now` (see
    /// [`upsert_spec`]).
    pub fn upsert_entry_at(
        &mut self,
        kind: ClipboardEntryKind,
        entry_key: &str,
        content: &str,
        image_path: Option<String>,
        image_width: Option<u32>,
        image_height: Option<u32>,
        now: i64,
    ) -> (r: Result<Option<ClipboardEntry>, String>)
        requires
            old(self)@.wf(),
        ensures
            final(self)@.wf(),
            match upsert_spec(old(self)@, kind, entry_key@, content@, crate::entry::opt_text(image_path), image_width, image_height, now) {
                Ok((v, e)) => {
                    &&& final(self)@ == v
                    &&& r matches Ok(Some(x)) && x@ == e
                },
                Err(m) => {
                    &&& final(self)@ == old(self)@
                    &&& r matches Err(x) && x@ == m
                },
            },
    {
        let key = String::from_str(entry_key);
        let kind_str = String::from_str(kind_to_db(&kind));
        match self.latest_index(&key) {
            Some(b) => {
                if self.any_count_saturated(&key) {
                    return Err(String::from_str("integer overflow"));
                }
                let change = RowChange::Refresh(Refresh {
                    kind: kind_str,
                    content: String::from_str(content),
                    image_path,
                    image_width,
                    image_height,
                    now,
                });
                self.change_rows_with_key(&key, &change);
                let ghost expected = map_key(
                    old(self)@.rows,
                    key@,
                    |r: RowView| recopied(r, kind_name(kind), content@, crate::entry::opt_text(image_path), image_width, image_height, now),
                );
                assert(self@.rows =~= expected);
                assert(self@.rows[b as int] == self.rows@[b as int]@);
                Ok(Some(self.rows[b].to_entry()))
            },
            None => {
                if self.last_id == i64::MAX {
                    return Err(String::from_str("database or disk is full"));
                }
                let id = self.last_id + 1;
                let row = EntryRow {
                    id,
                    kind: kind_str,
                    entry_key: key,
                    content: String::from_str(content),
                    image_path,
                    image_width,
                    image_height,
                    created_at: now,
                    pinned: 0,
                    last_copied_at: None,
                    copy_count: 1,
                };
                let entry = row.to_entry();
                let ghost before = self@.rows;
                self.rows.push(row);
                self.last_id = id;
                assert(self@.rows =~= before.push(row@));
                Ok(Some(entry))
            },
        }
    }

    /// Records a copy of the text `content` made at `now` (see [`insert_text_spec`]).
    pub fn insert_text_entry_at(&mut self, content: &str, now: i64) -> (r: Result<
        Option<ClipboardEntry>,
        String,
    >)
        requires
            old(self)@.wf(),
        ensures
            final(self)@.wf(),
            match insert_text_spec(old(self)@, content@, now) {
                Ok((v, e)) => {
                    &&& final(self)@ == v
                    &&& r is Ok
                    &&& match e {
                        Some(x) => r matches Ok(Some(y)) && y@ == x,
                        None => r matches Ok(None),
                    }
                },
                Err(m) => {
                    &&& final(self)@ == old(self)@
                    &&& r matches Err(x) && x@ == m
                },
            },
    {
        let trimmed = trim(content);
        if trimmed.as_str().is_empty() {
            return Ok(None);
        }
        let entry_key = String::from_str("text:").concat(trimmed.as_str());
        self.upsert_entry_at(
            ClipboardEntryKind::Text,
            entry_key.as_str(),
            trimmed.as_str(),
            None,
            None,
            None,
            now,
        )
    }

    /// Records a copy of the text `content` made now: nothing for text that is
    /// only white space, otherwise one copy of the trimmed text (see
    /// [`insert_text_spec`], at the time the clock gave).
    pub fn insert_text_entry(&mut self, content: &str) -> (r: Result<Option<ClipboardEntry>, String>)
        requires
            old(self)@.wf(),
        ensures
            final(self)@.wf(),
            exists|now: i64|
                match #[trigger] insert_text_spec(old(self)@, content@, now) {
                    Ok((v, e)) => {
                        &&& final(self)@ == v
                        &&& r is Ok
                        &&& match e {
                            Some(x) => r matches Ok(Some(y)) && y@ == x,
                            None => r matches Ok(None),
                        }
                    },
                    Err(m) => {
                        &&& final(self)@ == old(self)@
                        &&& r matches Err(x) && x@ == m
                    },
                },
    {
        let now = current_timestamp_ms();
        self.insert_text_entry_at(content, now)
    }

    /// Adds one row as it is: the next id, the given kind, key, content,
    /// creation time and pin value, no image, never copied, one copy.
    /// Refused when the id counter is at its largest value.
    pub fn insert_row(
        &mut self,
        kind: &str,
        entry_key: &str,
        content: &str,
        created_at: i64,
        pinned: i64,
    ) -> (r: Result<i64, String>)
        requires
            old(self)@.wf(),
        ensures
            final(self)@.wf(),
            old(self)@.last_id == i64::MAX ==> {
                &&& final(self)@ == old(self)@
                &&& r matches Err(m) && m@ == full_message()
            },
            old(self)@.last_id < i64::MAX ==> r == Ok::<i64, String>((old(self)@.last_id + 1) as i64)
                && final(self)@ == (StorageView {
                rows: old(self)@.rows.push(
                    RowView {
                        pinned,
                        ..fresh_row(
                            (old(self)@.last_id + 1) as i64,
                            kind@,
                            entry_key@,
                            content@,
                            None,
                            None,
                            None,
                            created_at,
                        )
                    },
                ),
                last_id: (old(self)@.last_id + 1) as i64,
                ..old(self)@
            }),
    {
        if self.last_id == i64::MAX {
            return Err(String::from_str("database or disk is full"));
        }
        let id = self.last_id + 1;
        let row = EntryRow {
            id,
            kind: String::from_str(kind),
            entry_key: String::from_str(entry_key),
            content: String::from_str(content),
            image_path: None,
            image_width: None,
            image_height: None,
            created_at,
            pinned,
            last_copied_at: None,
            copy_count: 1,
        };
        let ghost before = self@.rows;
        self.rows.push(row);
        self.last_id = id;
        assert(self@.rows =~= before.push(row@));
        Ok(id)
    }

    /// The history: one entry per key among the rows whose content matches
    /// the query (all rows for an empty one), pinned first, then the most
    /// recent, at most [`history_cap`] of them; an error when a copy-count
    /// total leaves the range of `i64`.
    pub fn get_history(&self, query: Option<&str>, limit: Option<u32>) -> (r: Result<
        Vec<ClipboardEntry>,
        String,
    >)
        ensures
            match listing(self@.rows, history_filter(opt_str(query)), history_cap(limit) as int) {
                Some(es) => r matches Ok(v) && entries_view(v@) == es,
                None => r matches Err(m) && m@ == overflow_message(),
            },
    {
        let wanted: u32 = match limit {
            Some(l) => l,
            None => 250,
        };
        let capped_limit = clamp_u32(wanted, 1, 5000);
        let raw: &str = match query {
            Some(q) => q,
            None => "",
        };
        proof {
            reveal_strlit("");
        }
        let trimmed = trim(raw);
        let filter: Option<Vec<char>> = if trimmed.as_str().is_empty() {
            None
        } else {
            let cs = crate::text::chars_of(trimmed.as_str());
            let mut p: Vec<char> = Vec::new();
            p.push('%');
            let mut i: usize = 0;
            while i < cs.len()
                invariant
                    i <= cs@.len(),
                    p@ == seq!['%'] + cs@.take(i as int),
                decreases cs@.len() - i,
            {
                p.push(cs[i]);
                proof {
                    assert(cs@.take(i + 1) =~= cs@.take(i as int).push(cs@[i as int]));
                    assert(p@ =~= seq!['%'] + cs@.take(i + 1));
                }
                i = i + 1;
            }
            p.push('%');
            assert(cs@.take(cs@.len() as int) =~= cs@);
            assert(p@ =~= seq!['%'] + trimmed@ + seq!['%']);
            Some(p)
        };
        assert(filter_view(filter) == history_filter(opt_str(query)));
        match list_entries(&self.rows, &filter, capped_limit as usize) {
            Some(v) => Ok(v),
            None => Err(String::from_str("integer overflow")),
        }
    }

    /// Every entry of the history, pinned first, then the most recent; an
    /// error when a copy-count total leaves the range of `i64`.
    pub fn export_history(&self) -> (r: Result<Vec<ClipboardEntry>, String>)
        ensures
            match listing(self@.rows, None, usize::MAX as int) {
                Some(es) => r matches Ok(v) && entries_view(v@) == es,
                None => r matches Err(m) && m@ == overflow_message(),
            },
    {
        match list_entries(&self.rows, &None, usize::MAX) {
            Some(v) => Ok(v),
            None => Err(String::from_str("integer overflow")),
        }
    }

    fn unpinned_rows(&self) -> (r: Vec<EntryRow>)
        ensures
            rows_view(r@) == self@.rows.filter(|r: RowView| r.pinned == 0),
    {
        let ghost rv = self@.rows;
        let ghost keep: Seq<bool> = Seq::new(rv.len(), |i: int| rv[i].pinned == 0);
        let mut out: Vec<EntryRow> = Vec::new();
        let mut i: usize = 0;
        while i < self.rows.len()
            invariant
                i <= self.rows@.len(),
                rv == rows_view(self.rows@),
                keep == Seq::new(rv.len(), |i: int| rv[i].pinned == 0),
                rows_view(out@) == kept(rv.take(i as int), keep.take(i as int)),
            decreases self.rows@.len() - i,
        {
            proof {
                assert(rv.take(i + 1).drop_last() =~= rv.take(i as int));
                assert(keep.take(i + 1).drop_last() =~= keep.take(i as int));
                assert(rv.take(i + 1).last() == self.rows@[i as int]@);
            }
            if self.rows[i].pinned == 0 {
                let r = self.rows[i].duplicate();
                let ghost before = rows_view(out@);
                out.push(r);
                assert(rows_view(out@) =~= before.push(r@));
            }
            i = i + 1;
        }
        proof {
            assert(rv.take(i as int) =~= rv);
            assert(keep.take(i as int) =~= keep);
            lemma_kept_filter(rv, keep, |r: RowView| r.pinned == 0);
        }
        out
    }

    /// Applies the retention rules at time `now` (see [`cleaned_rows`]), then
    /// deletes the image files that no row points at any more. The settings
    /// are taken as given.
    pub fn cleanup_at(&mut self, settings: &AppSettings, now: i64) -> (r: Result<(), String>)
        requires
            old(self)@.wf(),
        ensures
            r is Ok,
            final(self)@.wf(),
            final(self)@.rows == cleaned_rows(old(self)@.rows, *settings, now),
            media_pruned(final(self)@.rows, old(self)@.media, final(self)@.media),
            final(self)@.last_id == old(self)@.last_id,
            final(self)@.settings == old(self)@.settings,
            final(self)@.media_dir == old(self)@.media_dir,
    {
        let cutoff: i128 = now as i128 - settings.retention_days as i128 * 86_400_000i128;
        let ghost c = retention_cutoff(settings.retention_days, now);
        assert(cutoff == c);
        let ghost rv0 = self@.rows;
        let mut keep: Vec<bool> = Vec::new();
        let mut j: usize = 0;
        while j < self.rows.len()
            invariant
                j <= self.rows@.len(),
                rv0 == rows_view(self.rows@),
                cutoff == c,
                keep@.len() == j,
                forall|q: int| 0 <= q < j ==> #[trigger] keep@[q] == !expired(rv0[q], c),
            decreases self.rows@.len() - j,
        {
            assert(rv0[j as int] == self.rows@[j as int]@);
            keep.push(!(self.rows[j].pinned == 0 && (self.rows[j].created_at as i128) < cutoff));
            j = j + 1;
        }
        proof {
            lemma_kept_filter(rv0, keep@, |r: RowView| !expired(r, c));
        }
        self.retain_rows(&keep);
        let ghost fresh = self@.rows;
        let groups = group_entries(&self.rows, &None);
        let total: i128 = groups.len() as i128;
        let overflow: i128 = total - settings.history_limit as i128;
        let ghost gone = evicted_keys(fresh, settings.history_limit);
        if overflow > 0 {
            let unpinned = self.unpinned_rows();
            let candidates = sort_groups(group_entries(&unpinned, &None), GroupOrder::Oldest);
            let n: usize = if overflow < candidates.len() as i128 {
                overflow as usize
            } else {
                candidates.len()
            };
            let ghost cv = groups_view(candidates@);
            assert(gone =~= cv.take(n as int).map_values(|g: GroupView| g.entry_key));
            let mut keep2: Vec<bool> = Vec::new();
            let mut k: usize = 0;
            while k < self.rows.len()
                invariant
                    k <= self.rows@.len(),
                    fresh == rows_view(self.rows@),
                    n <= candidates@.len(),
                    cv == groups_view(candidates@),
                    gone == cv.take(n as int).map_values(|g: GroupView| g.entry_key),
                    keep2@.len() == k,
                    forall|q: int| 0 <= q < k ==> #[trigger] keep2@[q] == !gone.contains(fresh[q].entry_key),
                decreases self.rows@.len() - k,
            {
                let mut hit = false;
                let mut e: usize = 0;
                while e < n && !hit
                    invariant
                        e <= n,
                        n <= candidates@.len(),
                        k < self.rows@.len(),
                        fresh == rows_view(self.rows@),
                        cv == groups_view(candidates@),
                        gone == cv.take(n as int).map_values(|g: GroupView| g.entry_key),
                        hit ==> gone.contains(fresh[k as int].entry_key),
                        !hit ==> forall|q: int| 0 <= q < e ==> gone[q] != fresh[k as int].entry_key,
                    decreases n - e,
                {
                    assert(gone[e as int] == candidates@[e as int]@.entry_key);
                    assert(fresh[k as int] == self.rows@[k as int]@);
                    if candidates[e].entry_key == self.rows[k].entry_key {
                        hit = true;
                        assert(gone[e as int] == fresh[k as int].entry_key);
                    }
                    e = e + 1;
                }
                keep2.push(!hit);
                k = k + 1;
            }
            proof {
                lemma_kept_filter(fresh, keep2@, |r: RowView| !gone.contains(r.entry_key));
            }
            self.retain_rows(&keep2);
        } else {
            assert(gone =~= Seq::<Seq<char>>::empty());
            proof {
                reveal(Seq::filter);
                lemma_filter_all(fresh, |r: RowView| !gone.contains(r.entry_key));
            }
        }
        self.prune_media_directory();
        Ok(())
    }

    /// Applies the retention rules at the clock's current time (see
    /// [`Storage::cleanup_at`]).
    pub fn cleanup(&mut self, settings: &AppSettings) -> (r: Result<(), String>)
        requires
            old(self)@.wf(),
        ensures
            r is Ok,
            final(self)@.wf(),
            exists|now: i64| final(self)@.rows == #[trigger] cleaned_rows(old(self)@.rows, *settings, now),
            media_pruned(final(self)@.rows, old(self)@.media, final(self)@.media),
            final(self)@.last_id == old(self)@.last_id,
            final(self)@.settings == old(self)@.settings,
            final(self)@.media_dir == old(self)@.media_dir,
    {
        let now = current_timestamp_ms();
        self.cleanup_at(settings, now)
    }

    fn add_media_file(&mut self, path: &String, bytes: Vec<u8>)
        requires
            old(self)@.wf(),
        ensures
            final(self)@.wf(),
            final(self)@ == (StorageView { media: with_media_file(old(self)@.media, path@, bytes@), ..old(self)@ }),
    {
        let ghost mv = self@.media;
        let mut i: usize = 0;
        while i < self.media.len()
            invariant
                i <= self.media@.len(),
                mv == media_view(self.media@),
                self@ == old(self)@,
                old(self)@.wf(),
                forall|q: int| 0 <= q < i ==> (#[trigger] mv[q]).0 != path@,
            decreases self.media@.len() - i,
        {
            assert(mv[i as int] == (self.media@[i as int].path@, self.media@[i as int].bytes@));
            if self.media[i].path == *path {
                assert(mv[i as int].0 == path@);
                return;
            }
            i = i + 1;
        }
        let f = MediaFile { path: path.clone(), bytes };
        self.media.push(f);
        assert(self@.media =~= mv.push((path@, bytes@)));
    }

    fn store_image(&mut self, png: Vec<u8>, file_path: String, width: u32, height: u32, now: i64) -> (r: Result<Option<ClipboardEntry>, String>)
        requires
            old(self)@.wf(),
        ensures
            final(self)@.wf(),
            match store_image_spec(old(self)@, png@, file_path@, width, height, now) {
                Ok((v, e)) => {
                    &&& final(self)@ == v
                    &&& r matches Ok(Some(x)) && x@ == e
                },
                Err((v, m)) => {
                    &&& final(self)@ == v
                    &&& r matches Err(x) && x@ == m
                },
            },
    {
        let hash = hash_image(png.as_slice());
        let ghost png_view = png@;
        self.add_media_file(&file_path, png);
        let entry_key = String::from_str("image:").concat(hash.as_str());
        let mut label = String::from_str("Image • ");
        crate::numtext::push_decimal(&mut label, width as u64);
        label.append("×");
        crate::numtext::push_decimal(&mut label, height as u64);
        assert(label@ =~= image_label(width, height));
        self.upsert_entry_at(
            ClipboardEntryKind::Image,
            entry_key.as_str(),
            label.as_str(),
            Some(file_path),
            Some(width),
            Some(height),
            now,
        )
    }

    /// Records a copy of an RGBA image made at `now`: nothing for an empty
    /// image; the message `invalid clipboard image dimensions` when the pixels
    /// are fewer than the size needs; otherwise the image is encoded as PNG
    /// and its file, named by its digest and joined to the media directory,
    /// is added with one copy of its entry (see [`store_image_spec`]).
    pub fn insert_image_entry_at(&mut self, rgba_bytes: &[u8], width: u32, height: u32, now: i64) -> (r: Result<
        Option<ClipboardEntry>,
        String,
    >)
        requires
            old(self)@.wf(),
            rgba_bytes@.len() == 0 || width == 0 || height == 0 || rgba_bytes@.len() <= 4 * (width as int) * (height as int),
        ensures
            final(self)@.wf(),
            rgba_bytes@.len() == 0 || width == 0 || height == 0 ==> {
                &&& final(self)@ == old(self)@
                &&& r matches Ok(None)
            },
            !(rgba_bytes@.len() == 0 || width == 0 || height == 0) && rgba_bytes@.len() < 4 * (width as int) * (height as int) ==> {
                &&& final(self)@ == old(self)@
                &&& r matches Err(m) && m@ == invalid_dimensions_message()
            },
            !(rgba_bytes@.len() == 0 || width == 0 || height == 0) && rgba_bytes@.len() == 4 * (width as int) * (height as int) ==> exists|path: Seq<char>| {
                &&& media_path_for(old(self)@.media_dir, image_file_name(png_rgba8(width, height, rgba_bytes@)), path)
                &&& match #[trigger] store_image_spec(old(self)@, png_rgba8(width, height, rgba_bytes@), path, width, height, now) {
                    Ok((v, e)) => {
                        &&& final(self)@ == v
                        &&& r matches Ok(Some(x)) && x@ == e
                    },
                    Err((v, m)) => {
                        &&& final(self)@ == v
                        &&& r matches Err(x) && x@ == m
                    },
                }
            },
    {
        if rgba_bytes.len() == 0 || width == 0 || height == 0 {
            return Ok(None);
        }
        let png_bytes = encode_rgba_as_png(rgba_bytes, width, height)?;
        let hash = hash_image(png_bytes.as_slice());
        let file_name = hash.concat(".png");
        proof {
            reveal_strlit(".png");
            lemma_image_file_name(png_bytes@);
            assert(file_name@ == image_file_name(png_bytes@));
        }
        let file_path = media_file_path(&self.media_dir, &file_name);
        self.store_image(png_bytes, file_path, width, height, now)
    }

    /// Records a copy of an RGBA image made now (see
    /// [`Storage::insert_image_entry_at`], at the time the clock gave).
    pub fn insert_image_entry(&mut self, rgba_bytes: &[u8], width: u32, height: u32) -> (r: Result<
        Option<ClipboardEntry>,
        String,
    >)
        requires
            old(self)@.wf(),
            rgba_bytes@.len() == 0 || width == 0 || height == 0 || rgba_bytes@.len() <= 4 * (width as int) * (height as int),
        ensures
            final(self)@.wf(),
            rgba_bytes@.len() == 0 || width == 0 || height == 0 ==> {
                &&& final(self)@ == old(self)@
                &&& r matches Ok(None)
            },
            !(rgba_bytes@.len() == 0 || width == 0 || height == 0) && rgba_bytes@.len() < 4 * (width as int) * (height as int) ==> {
                &&& final(self)@ == old(self)@
                &&& r matches Err(m) && m@ == invalid_dimensions_message()
            },
            !(rgba_bytes@.len() == 0 || width == 0 || height == 0) && rgba_bytes@.len() == 4 * (width as int) * (height as int) ==> exists|path: Seq<char>, now: i64| {
                &&& media_path_for(old(self)@.media_dir, image_file_name(png_rgba8(width, height, rgba_bytes@)), path)
                &&& match #[trigger] store_image_spec(old(self)@, png_rgba8(width, height, rgba_bytes@), path, width, height, now) {
                    Ok((v, e)) => {
                        &&& final(self)@ == v
                        &&& r matches Ok(Some(x)) && x@ == e
                    },
                    Err((v, m)) => {
                        &&& final(self)@ == v
                        &&& r matches Err(x) && x@ == m
                    },
                }
            },
    {
        let now = current_timestamp_ms();
        self.insert_image_entry_at(rgba_bytes, width, height, now)
    }

    /// Prepares a store for use: rows with a blank kind become text rows, rows
    /// without a key get the text key of their content, each setting without
    /// a value gets its default (saved settings are kept), and image files
    /// that no row points at are deleted.
    pub fn initialize(&mut self) -> (r: Result<(), String>)
        requires
            old(self)@.wf(),
        ensures
            r is Ok,
            final(self)@.wf(),
            final(self)@.rows == old(self)@.rows.map_values(|r: RowView| normalized_row(r)),
            final(self)@.settings == defaults_filled(old(self)@.settings),
            media_pruned(final(self)@.rows, old(self)@.media, final(self)@.media),
            final(self)@.last_id == old(self)@.last_id,
            final(self)@.media_dir == old(self)@.media_dir,
    {
        let ghost old_rows = self@.rows;
        let mut j: usize = 0;
        while j < self.rows.len()
            invariant
                j <= self.rows@.len(),
                self.rows@.len() == old_rows.len(),
                same_but_rows(self@, old(self)@),
                old(self)@.wf(),
                old_rows == old(self)@.rows,
                forall|q: int| 0 <= q < j ==> #[trigger] rows_view(self.rows@)[q] == normalized_row(old_rows[q]),
                forall|q: int| j <= q < old_rows.len() ==> #[trigger] rows_view(self.rows@)[q] == old_rows[q],
            decreases self.rows@.len() - j,
        {
            proof {
                assert(rows_view(self.rows@)[j as int] == self.rows@[j as int]@);
            }
            let mut row = self.rows[j].duplicate();
            let kc = crate::text::chars_of(row.kind.as_str());
            assert(row@ == old_rows[j as int]);
            let mut blank = true;
            let mut i: usize = 0;
            while i < kc.len()
                invariant
                    i <= kc@.len(),
                    blank == forall|q: int| 0 <= q < i ==> kc@[q] == ' ',
                decreases kc@.len() - i,
            {
                if kc[i] != ' ' {
                    blank = false;
                }
                i = i + 1;
            }
            assert(blank == all_spaces(old_rows[j as int].kind));
            if blank {
                row.kind = String::from_str("text");
                proof {
                    reveal_strlit("text");
                    assert("text"@ =~= crate::entry::text_word());
                }
            }
            if row.entry_key.as_str().is_empty() {
                row.entry_key = String::from_str("text:").concat(row.content.as_str());
            }
            let ghost before = self.rows@;
            self.rows.set(j, row);
            proof {
                assert(row@ == normalized_row(old_rows[j as int]));
                assert forall|q: int| 0 <= q < self.rows@.len() implies #[trigger] rows_view(
                    self.rows@,
                )[q] == (if q == j {
                    row@
                } else {
                    rows_view(before)[q]
                }) by {
                    assert(rows_view(before)[q] == before[q]@);
                }
            }
            j = j + 1;
        }
        proof {
            let m = old_rows.map_values(|r: RowView| normalized_row(r));
            assert(rows_view(self.rows@) =~= m);
            assert forall|i: int| 0 <= i < m.len() implies #[trigger] m[i].id == old_rows[i].id by {}
        }
        let d = AppSettings::default();
        self.put_setting_default(String::from_str("history_limit"), u64_to_string(d.history_limit as u64));
        self.put_setting_default(String::from_str("retention_days"), u64_to_string(d.retention_days as u64));
        self.put_setting_default(String::from_str("capture_enabled"), bool_to_string(d.capture_enabled));
        self.put_setting_default(String::from_str("launch_on_login"), bool_to_string(d.launch_on_login));
        self.put_setting_default(String::from_str("paste_on_select"), bool_to_string(d.paste_on_select));
        self.put_setting_default(String::from_str("hide_after_copy"), bool_to_string(d.hide_after_copy));
        self.put_setting_default(String::from_str("show_on_launch"), bool_to_string(d.show_on_launch));
        self.prune_media_directory();
        Ok(())
    }

    /// A store made of stored parts; refused when an id repeats or exceeds
    /// `last_id`, or when a setting key or a media path repeats.
    pub fn from_parts(
        media_dir: String,
        rows: Vec<EntryRow>,
        last_id: i64,
        settings: Vec<SettingRow>,
        media: Vec<MediaFile>,
    ) -> (r: Result<Storage, String>)
        ensures
            r matches Ok(st) ==> st@.wf() && st@ == (StorageView {
                rows: rows_view(rows@),
                last_id,
                settings: settings_view(settings@),
                media_dir: media_dir@,
                media: media_view(media@),
            }),
            r is Err <==> !(StorageView {
                rows: rows_view(rows@),
                last_id,
                settings: settings_view(settings@),
                media_dir: media_dir@,
                media: media_view(media@),
            }).wf(),
    {
        let ghost rv = rows_view(rows@);
        let mut i: usize = 0;
        while i < rows.len()
            invariant
                i <= rows@.len(),
                rv == rows_view(rows@),
                forall|a: int| 0 <= a < i ==> (#[trigger] rv[a]).id <= last_id,
                forall|a: int, b: int| 0 <= a < b < i ==> (#[trigger] rv[a]).id != (#[trigger] rv[b]).id,
            decreases rows@.len() - i,
        {
            assert(rv[i as int] == rows@[i as int]@);
            if rows[i].id > last_id {
                return Err(String::from_str("entry id above the id counter"));
            }
            let mut j: usize = 0;
            while j < i
                invariant
                    j <= i < rows@.len(),
                    rv == rows_view(rows@),
                    forall|a: int| 0 <= a < j ==> (#[trigger] rv[a]).id != rv[i as int].id,
                decreases i - j,
            {
                assert(rv[j as int] == rows@[j as int]@);
                if rows[j].id == rows[i].id {
                    return Err(String::from_str("duplicate entry id"));
                }
                j = j + 1;
            }
            i = i + 1;
        }
        let ghost sv = settings_view(settings@);
        let mut i: usize = 0;
        while i < settings.len()
            invariant
                i <= settings@.len(),
                sv == settings_view(settings@),
                ids_ok(rv, last_id),
                forall|a: int, b: int| 0 <= a < b < i ==> (#[trigger] sv[a]).0 != (#[trigger] sv[b]).0,
            decreases settings@.len() - i,
        {
            assert(sv[i as int].0 == settings@[i as int].key@);
            let mut j: usize = 0;
            while j < i
                invariant
                    j <= i < settings@.len(),
                    sv == settings_view(settings@),
                    sv[i as int].0 == settings@[i as int].key@,
                    forall|a: int| 0 <= a < j ==> (#[trigger] sv[a]).0 != sv[i as int].0,
                decreases i - j,
            {
                assert(sv[j as int].0 == settings@[j as int].key@);
                if settings[j].key == settings[i].key {
                    return Err(String::from_str("duplicate setting key"));
                }
                j = j + 1;
            }
            i = i + 1;
        }
        let ghost mv = media_view(media@);
        let mut i: usize = 0;
        while i < media.len()
            invariant
                i <= media@.len(),
                mv == media_view(media@),
                ids_ok(rv, last_id),
                setting_keys_unique(sv),
                forall|a: int, b: int| 0 <= a < b < i ==> (#[trigger] mv[a]).0 != (#[trigger] mv[b]).0,
            decreases media@.len() - i,
        {
            assert(mv[i as int].0 == media@[i as int].path@);
            let mut j: usize = 0;
            while j < i
                invariant
                    j <= i < media@.len(),
                    mv == media_view(media@),
                    mv[i as int].0 == media@[i as int].path@,
                    forall|a: int| 0 <= a < j ==> (#[trigger] mv[a]).0 != mv[i as int].0,
                decreases i - j,
            {
                assert(mv[j as int].0 == media@[j as int].path@);
                if media[j].path == media[i].path {
                    return Err(String::from_str("duplicate media path"));
                }
                j = j + 1;
            }
            i = i + 1;
        }
        Ok(Storage { rows, last_id, settings, media_dir, media })
    }

    /// The rows of the entry table, in table order.
    pub fn rows(&self) -> (r: &Vec<EntryRow>)
        ensures
            rows_view(r@) == self@.rows,
    {
        &self.rows
    }

    /// The largest id handed out so far.
    pub fn last_id(&self) -> (r: i64)
        ensures
            r == self@.last_id,
    {
        self.last_id
    }

    /// The rows of the settings table.
    pub fn settings_table(&self) -> (r: &Vec<SettingRow>)
        ensures
            settings_view(r@) == self@.settings,
    {
        &self.settings
    }

    /// The files of the media directory.
    pub fn media_files(&self) -> (r: &Vec<MediaFile>)
        ensures
            media_view(r@) == self@.media,
    {
        &self.media
    }

    /// The media directory.
    pub fn media_dir(&self) -> (r: &String)
        ensures
            r@ == self@.media_dir,
    {
        &self.media_dir
    }

    /// The content of row `id`, or `None` if no row has that id.
    pub fn get_entry_content(&self, id: i64) -> (r: Result<Option<String>, String>)
        ensures
            r is Ok,
            r matches Ok(o) ==> match o {
                Some(c) => entry_with_id(self@.rows, id) matches Some(e) && e.content == c@,
                None => entry_with_id(self@.rows, id) is None,
            },
    {
        match self.row_index(id) {
            Some(i) => Ok(Some(self.rows[i].content.clone())),
            None => Ok(None),
        }
    }

    /// Flips the pin of every row of the entry that holds row `id`; nothing
    /// changes if no row has that id.
    pub fn toggle_pin(&mut self, id: i64) -> (r: Result<(), String>)
        requires
            old(self)@.wf(),
        ensures
            r is Ok,
            final(self)@.wf(),
            final(self)@ == (StorageView { rows: toggle_pin_rows(old(self)@.rows, id), ..old(self)@ }),
    {
        if let Some(i) = self.row_index(id) {
            let key = self.rows[i].entry_key.clone();
            self.change_rows_with_key(&key, &RowChange::TogglePin);
            assert(self@.rows =~= toggle_pin_rows(old(self)@.rows, id));
        }
        Ok(())
    }

    /// Marks every row of the entry that holds row `id` as copied now (see
    /// [`Storage::touch_last_copied_at`], at the time the clock gave).
    pub fn touch_last_copied(&mut self, id: i64) -> (r: Result<(), String>)
        requires
            old(self)@.wf(),
        ensures
            r is Ok,
            final(self)@.wf(),
            exists|now: i64| final(self)@ == (StorageView { rows: #[trigger] touch_rows(old(self)@.rows, id, now), ..old(self)@ }),
    {
        let now = current_timestamp_ms();
        self.touch_last_copied_at(id, now)
    }

    /// Marks every row of the entry that holds row `id` as copied at `now`;
    /// nothing changes if no row has that id.
    pub fn touch_last_copied_at(&mut self, id: i64, now: i64) -> (r: Result<(), String>)
        requires
            old(self)@.wf(),
        ensures
            r is Ok,
            final(self)@.wf(),
            final(self)@ == (StorageView { rows: touch_rows(old(self)@.rows, id, now), ..old(self)@ }),
    {
        if let Some(i) = self.row_index(id) {
            let key = self.rows[i].entry_key.clone();
            self.change_rows_with_key(&key, &RowChange::Touch(now));
            assert(self@.rows =~= touch_rows(old(self)@.rows, id, now));
        }
        Ok(())
    }
}

} // verus!

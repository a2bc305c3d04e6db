//! Properties that hold across the operations of the store.
use vstd::prelude::*;

use crate::entry::{entry_of_row, kind_name, kind_of_name, ClipboardEntryKind, EntryView, RowView};
use crate::history::{
    entry_of_group, group_rows, lemma_group_count_push, lemma_group_keys, lemma_group_keys_cover,
    lemma_group_keys_distinct, lemma_group_keys_only, lemma_group_values, lemma_sort_by_order,
    lemma_sort_keys_distinct, lemma_sorted_contains, lemma_group_kinds, listing, precedes, rank_sort, sort_by_order,
    GroupOrder, GroupView,
};
use crate::pattern::{contains_folded, lemma_search_is_substring, like_match, no_wildcards};
use crate::settings::{sanitized_spec, AppSettings};
use crate::storage::{
    cleaned_rows, delete_rows, entry_with_id, evicted_keys, eviction_candidates, eviction_count,
    expired, find_id, history_filter, insert_text_spec, is_referenced, key_count, key_of_id,
    latest_with_key, map_key, media_pruned, media_marks, media_paths_unique, kept, lemma_kept_contains,
    row_image_path, row_path_differs, row_path_same, retention_cutoff, toggle_pin_rows, toggled,
    unpinned_cleared, upsert_spec, StorageView, history_cap, text_key, count_saturated, overflow_message,
    store_image_spec, with_media_file, image_key,
};
use crate::text::trim_spec;
use crate::commands::after_copy_spec;
use crate::media::image_hash;
use crate::numtext::decimal_spec;
use crate::paths::{last_piece, name_piece, path_components, plain_path};

verus! {

proof fn lemma_sorted_member(order: GroupOrder, s: Seq<GroupView>, k: int)
    requires
        0 <= k < sort_by_order(order, s).len(),
    ensures
        s.contains(sort_by_order(order, s)[k]),
{
    broadcast use vstd::seq_lib::group_to_multiset_ensures;

    lemma_sort_by_order(order, s);
    let t = sort_by_order(order, s);
    assert(t.contains(t[k]));
    assert(t.to_multiset().count(t[k]) > 0);
    assert(s.to_multiset().count(t[k]) > 0);
}

/// The history lists at most the number of entries asked for.
pub proof fn lemma_listing_within_cap(rows: Seq<RowView>, filter: Option<Seq<char>>, cap: int)
    requires
        0 <= cap,
    ensures
        listing(rows, filter, cap) matches Some(es) ==> es.len() <= cap,
{
}

/// Every entry that a search lists has content that matches the search
/// pattern.
pub proof fn lemma_listing_matches_filter(rows: Seq<RowView>, pattern: Seq<char>, cap: int)
    requires
        0 <= cap,
    ensures
        listing(rows, Some(pattern), cap) matches Some(es) ==> forall|k: int|
            0 <= k < es.len() ==> like_match(pattern, #[trigger] es[k].content),
{
    let filter = Some(pattern);
    let gs = group_rows(rows, filter);
    if let Some(es) = listing(rows, filter, cap) {
        let sorted = rank_sort(gs);
        let n = if cap < sorted.len() { cap } else { sorted.len() as int };
        assert(es == sorted.take(n).map_values(|g: GroupView| entry_of_group(g)));
        lemma_group_values(rows, filter);
        assert forall|k: int| 0 <= k < es.len() implies like_match(pattern, #[trigger] es[k].content) by {
            assert(es[k] == entry_of_group(sorted.take(n)[k]));
            lemma_sorted_member(GroupOrder::Listing, gs, k);
            let g = sorted[k];
            assert(es[k] == entry_of_group(g));
            let i = choose|i: int| 0 <= i < gs.len() && gs[i] == g;
            assert(gs[i] == gs[i]);
            let q = choose|q: int| 0 <= q < rows.len() && crate::history::row_selected(#[trigger] rows[q], filter) && rows[q].content == gs[i].max_content;
        }
    }
}

/// Pins are 0 or 1 in every row.
pub open spec fn pins_are_flags(rows: Seq<RowView>) -> bool {
    forall|q: int| 0 <= q < rows.len() ==> (#[trigger] rows[q]).pinned == 0 || rows[q].pinned == 1
}

/// When pins are flags, the history lists pinned entries before unpinned
/// ones, and newer entries before older ones with the same pin.
pub proof fn lemma_listing_order(rows: Seq<RowView>, filter: Option<Seq<char>>, cap: int)
    requires
        0 <= cap,
        pins_are_flags(rows),
    ensures
        listing(rows, filter, cap) matches Some(es) ==> forall|i: int, j: int|
            0 <= i < j < es.len() ==> {
                &&& ((#[trigger] es[i]).pinned || !(#[trigger] es[j]).pinned)
                &&& (es[i].pinned == es[j].pinned ==> es[i].created_at >= es[j].created_at)
            },
{
    let gs = group_rows(rows, filter);
    if let Some(es) = listing(rows, filter, cap) {
        let sorted = rank_sort(gs);
        let n = if cap < sorted.len() { cap } else { sorted.len() as int };
        assert(es == sorted.take(n).map_values(|g: GroupView| entry_of_group(g)));
        lemma_sort_by_order(GroupOrder::Listing, gs);
        lemma_group_values(rows, filter);
        assert forall|i: int, j: int| 0 <= i < j < es.len() implies {
            &&& ((#[trigger] es[i]).pinned || !(#[trigger] es[j]).pinned)
            &&& (es[i].pinned == es[j].pinned ==> es[i].created_at >= es[j].created_at)
        } by {
            assert(es[i] == entry_of_group(sorted.take(n)[i]));
            assert(es[j] == entry_of_group(sorted.take(n)[j]));
            lemma_sorted_member(GroupOrder::Listing, gs, i);
            lemma_sorted_member(GroupOrder::Listing, gs, j);
            let a = sorted[i];
            let b = sorted[j];
            assert(es[i] == entry_of_group(a));
            assert(es[j] == entry_of_group(b));
            assert(!precedes(GroupOrder::Listing, b, a));
            let ia = choose|x: int| 0 <= x < gs.len() && gs[x] == a;
            let ib = choose|x: int| 0 <= x < gs.len() && gs[x] == b;
            assert(gs[ia] == gs[ia]);
            assert(gs[ib] == gs[ib]);
            let qa = choose|q: int| 0 <= q < rows.len() && (#[trigger] rows[q]).pinned == gs[ia].max_pinned;
            let qb = choose|q: int| 0 <= q < rows.len() && (#[trigger] rows[q]).pinned == gs[ib].max_pinned;
        }
    }
}

/// Sanitizing settings puts both limits in range and changes nothing more
/// when done twice.
pub proof fn lemma_sanitized(st: AppSettings)
    ensures
        25 <= sanitized_spec(st).history_limit <= 500,
        1 <= sanitized_spec(st).retention_days <= 365,
        sanitized_spec(sanitized_spec(st)) == sanitized_spec(st),
{
}

/// Reading back the stored name of a kind gives the kind.
pub proof fn lemma_kind_round_trip(kind: ClipboardEntryKind)
    ensures
        kind_of_name(kind_name(kind)) == kind,
{
    match kind {
        ClipboardEntryKind::Image => {
            assert(forall|k: int| 0 <= k < 5 ==> crate::pattern::ascii_fold(#[trigger] kind_name(kind)[k]) == crate::entry::image_word()[k]);
        },
        ClipboardEntryKind::Text => {
        },
    }
}

proof fn lemma_find_id_map_key(rows: Seq<RowView>, k: Seq<char>, f: spec_fn(RowView) -> RowView, id: i64, i: int)
    requires
        0 <= i <= rows.len(),
        forall|r: RowView| #[trigger] f(r).id == r.id,
    ensures
        find_id(map_key(rows, k, f), id, i) == find_id(rows, id, i),
    decreases rows.len() - i,
{
    let m = map_key(rows, k, f);
    if i < rows.len() {
        if rows[i].entry_key == k {
            assert(f(rows[i]).id == rows[i].id);
        }
        assert(m[i].id == rows[i].id);
        lemma_find_id_map_key(rows, k, f, id, i + 1);
    }
}

proof fn lemma_find_id_result(rows: Seq<RowView>, id: i64, i: int)
    requires
        0 <= i <= rows.len(),
    ensures
        find_id(rows, id, i) == -1 || (i <= find_id(rows, id, i) < rows.len() && rows[find_id(rows, id, i)].id == id),
        find_id(rows, id, i) == -1 ==> forall|j: int| i <= j < rows.len() ==> (#[trigger] rows[j]).id != id,
    decreases rows.len() - i,
{
    if i < rows.len() && rows[i].id != id {
        lemma_find_id_result(rows, id, i + 1);
    }
}

/// Toggling the pin of an entry twice restores it, when its rows' pins are 0 or 1.
pub proof fn lemma_toggle_pin_twice(rows: Seq<RowView>, id: i64)
    requires
        forall|q: int|
            0 <= q < rows.len() && key_of_id(rows, id) == Some(#[trigger] rows[q].entry_key) ==> rows[q].pinned == 0
                || rows[q].pinned == 1,
    ensures
        toggle_pin_rows(toggle_pin_rows(rows, id), id) == rows,
{
    match key_of_id(rows, id) {
        None => {},
        Some(k) => {
            let f = |r: RowView| toggled(r);
            let once = map_key(rows, k, f);
            lemma_find_id_map_key(rows, k, f, id, 0);
            lemma_find_id_result(rows, id, 0);
            let i = find_id(rows, id, 0);
            assert(once[i] == toggled(rows[i]));
            assert(key_of_id(once, id) == Some(k));
            let twice = map_key(once, k, f);
            assert forall|q: int| 0 <= q < rows.len() implies #[trigger] twice[q] == rows[q] by {
                if rows[q].entry_key == k {
                    assert(key_of_id(rows, id) == Some(rows[q].entry_key));
                }
            }
            assert(twice =~= rows);
        },
    }
}

/// After an entry is deleted, no row has its key and the row that named it
/// is gone; rows of other entries stay.
pub proof fn lemma_delete_removes_entry(rows: Seq<RowView>, id: i64)
    requires
        forall|a: int, b: int| 0 <= a < b < rows.len() ==> (#[trigger] rows[a]).id != (#[trigger] rows[b]).id,
    ensures
        entry_with_id(delete_rows(rows, id), id) is None,
        key_of_id(rows, id) matches Some(k) ==> forall|q: int|
            0 <= q < delete_rows(rows, id).len() ==> (#[trigger] delete_rows(rows, id)[q]).entry_key != k,
        forall|q: int|
            0 <= q < rows.len() && key_of_id(rows, id) != Some(#[trigger] rows[q].entry_key) ==> delete_rows(rows, id).contains(rows[q]),
{
    broadcast use vstd::seq_lib::group_filter_ensures;

    lemma_find_id_result(rows, id, 0);
    match key_of_id(rows, id) {
        None => {
            lemma_find_id_result(rows, id, 0);
        },
        Some(k) => {
            let d = rows.filter(|r: RowView| r.entry_key != k);
            let i = find_id(rows, id, 0);
            lemma_find_id_result(d, id, 0);
            if find_id(d, id, 0) >= 0 {
                let j = find_id(d, id, 0);
                assert(d[j].entry_key != k);
                assert(d.contains(d[j]));
                rows.lemma_filter_contains_rev(|r: RowView| r.entry_key != k, d[j]);
                assert(rows.contains(d[j]));
                let q = choose|q: int| 0 <= q < rows.len() && rows[q] == d[j];
                assert(rows[q].id == id);
                lemma_first_id_key(rows, id, q);
            }
        },
    }
}

proof fn lemma_first_id_key(rows: Seq<RowView>, id: i64, q: int)
    requires
        0 <= q < rows.len(),
        rows[q].id == id,
        forall|a: int, b: int| 0 <= a < b < rows.len() ==> (#[trigger] rows[a]).id != (#[trigger] rows[b]).id,
    ensures
        find_id(rows, id, 0) == q,
{
    lemma_find_id_result(rows, id, 0);
    lemma_find_id_upto(rows, id, 0, q);
}

proof fn lemma_find_id_upto(rows: Seq<RowView>, id: i64, i: int, q: int)
    requires
        0 <= i <= q < rows.len(),
        rows[q].id == id,
        forall|a: int, b: int| 0 <= a < b < rows.len() ==> (#[trigger] rows[a]).id != (#[trigger] rows[b]).id,
    ensures
        find_id(rows, id, i) == q,
    decreases q - i,
{
    if i < q {
        assert(rows[i].id != rows[q].id);
        lemma_find_id_upto(rows, id, i + 1, q);
    }
}

/// Clearing unpinned entries keeps exactly the pinned rows.
pub proof fn lemma_clear_unpinned(rows: Seq<RowView>)
    ensures
        forall|q: int| 0 <= q < unpinned_cleared(rows).len() ==> (#[trigger] unpinned_cleared(rows)[q]).pinned != 0,
        forall|q: int| 0 <= q < rows.len() && (#[trigger] rows[q]).pinned != 0 ==> unpinned_cleared(rows).contains(rows[q]),
{
    broadcast use vstd::seq_lib::group_filter_ensures;

}

/// After the cleanup no unpinned row older than the retention period is left.
pub proof fn lemma_cleanup_retention(rows: Seq<RowView>, st: AppSettings, now: i64)
    ensures
        forall|q: int|
            0 <= q < cleaned_rows(rows, st, now).len() ==> !expired(
                #[trigger] cleaned_rows(rows, st, now)[q],
                retention_cutoff(st.retention_days, now),
            ),
{
    broadcast use vstd::seq_lib::group_filter_ensures;

    let cutoff = retention_cutoff(st.retention_days, now);
    let fresh = rows.filter(|r: RowView| !expired(r, cutoff));
    let gone = evicted_keys(fresh, st.history_limit);
    let out = fresh.filter(|r: RowView| !gone.contains(r.entry_key));
    assert forall|q: int| 0 <= q < out.len() implies !expired(#[trigger] out[q], cutoff) by {
        assert(out.contains(out[q]));
        fresh.lemma_filter_contains_rev(|r: RowView| !gone.contains(r.entry_key), out[q]);
        let j = choose|j: int| 0 <= j < fresh.len() && fresh[j] == out[q];
    }
}

/// A pinned row survives the cleanup when no row of its entry is unpinned.
pub proof fn lemma_cleanup_keeps_pinned(rows: Seq<RowView>, st: AppSettings, now: i64, q: int)
    requires
        0 <= q < rows.len(),
        rows[q].pinned != 0,
        forall|j: int| 0 <= j < rows.len() && (#[trigger] rows[j]).entry_key == rows[q].entry_key ==> rows[j].pinned != 0,
    ensures
        cleaned_rows(rows, st, now).contains(rows[q]),
{
    broadcast use vstd::seq_lib::group_filter_ensures;

    let cutoff = retention_cutoff(st.retention_days, now);
    let pf = |r: RowView| !expired(r, cutoff);
    let fresh = rows.filter(pf);
    assert(fresh.contains(rows[q]));
    let gone = evicted_keys(fresh, st.history_limit);
    if gone.contains(rows[q].entry_key) {
        let unp = |r: RowView| r.pinned == 0;
        let gs = group_rows(fresh.filter(unp), None);
        let cands = eviction_candidates(fresh);
        let n = eviction_count(fresh, st.history_limit);
        lemma_sort_by_order(GroupOrder::Oldest, gs);
        let i = choose|i: int| 0 <= i < gone.len() && gone[i] == rows[q].entry_key;
        assert(gone[i] == cands.take(n)[i].entry_key);
        lemma_sorted_member(GroupOrder::Oldest, gs, i);
        let g = cands[i];
        let a = choose|a: int| 0 <= a < gs.len() && gs[a] == g;
        lemma_group_keys(fresh.filter(unp), None);
        assert(gs[a] == gs[a]);
        let b = choose|b: int| 0 <= b < fresh.filter(unp).len() && crate::history::row_selected(#[trigger] fresh.filter(unp)[b], None) && fresh.filter(unp)[b].entry_key == gs[a].entry_key;
        let r = fresh.filter(unp)[b];
        assert(fresh.filter(unp).contains(r));
        fresh.lemma_filter_contains_rev(unp, r);
        rows.lemma_filter_contains_rev(pf, r);
        let c = choose|c: int| 0 <= c < rows.len() && rows[c] == r;
        assert(false);
    }
}

/// The cleanup evicts the least recent candidates: no evicted entry is more
/// recent than a candidate that stays.
pub proof fn lemma_cleanup_evicts_oldest(rows: Seq<RowView>, limit: u32, i: int, j: int)
    requires
        0 <= i < eviction_count(rows, limit) <= j < eviction_candidates(rows).len(),
    ensures
        eviction_candidates(rows)[i].max_created_at <= eviction_candidates(rows)[j].max_created_at,
        evicted_keys(rows, limit)[i] == eviction_candidates(rows)[i].entry_key,
{
    lemma_sort_by_order(GroupOrder::Oldest, group_rows(rows.filter(|r: RowView| r.pinned == 0), None));
}

proof fn lemma_latest_with_key(rows: Seq<RowView>, k: Seq<char>)
    ensures
        latest_with_key(rows, k) >= 0 ==> latest_with_key(rows, k) < rows.len() && rows[latest_with_key(rows, k)].entry_key == k,
        latest_with_key(rows, k) < 0 ==> forall|q: int| 0 <= q < rows.len() ==> (#[trigger] rows[q]).entry_key != k,
        latest_with_key(rows, k) >= -1,
    decreases rows.len(),
{
    if rows.len() > 0 {
        let p = rows.drop_last();
        lemma_latest_with_key(p, k);
        if latest_with_key(rows, k) < 0 {
            assert forall|q: int| 0 <= q < rows.len() implies (#[trigger] rows[q]).entry_key != k by {
                if q < p.len() {
                    assert(rows[q] == p[q]);
                }
            }
        }
    }
}

/// Recording a copy of an entry that has rows adds no entry and counts one
/// more copy on each of its rows; recording a copy of an entry without rows
/// adds exactly one entry. The recorded entry carries the time of the copy.
pub proof fn lemma_upsert_entries(
    v: StorageView,
    kind: ClipboardEntryKind,
    k: Seq<char>,
    content: Seq<char>,
    image_path: Option<Seq<char>>,
    image_width: Option<u32>,
    image_height: Option<u32>,
    now: i64,
)
    ensures
        upsert_spec(v, kind, k, content, image_path, image_width, image_height, now) matches Ok((w, e)) ==> {
            &&& e.created_at == now
            &&& e.content == content
            &&& e.kind == kind
            &&& (exists|q: int| 0 <= q < v.rows.len() && (#[trigger] v.rows[q]).entry_key == k) ==> {
                &&& w.rows.len() == v.rows.len()
                &&& key_count(w.rows) == key_count(v.rows)
                &&& forall|q: int|
                    0 <= q < v.rows.len() ==> if (#[trigger] v.rows[q]).entry_key == k {
                        w.rows[q].copy_count == v.rows[q].copy_count + 1
                    } else {
                        w.rows[q] == v.rows[q]
                    }
            }
            &&& (forall|q: int| 0 <= q < v.rows.len() ==> (#[trigger] v.rows[q]).entry_key != k) ==> {
                &&& key_count(w.rows) == key_count(v.rows) + 1
                &&& e.copy_count == 1
            }
        },
{
    lemma_latest_with_key(v.rows, k);
    lemma_kind_round_trip(kind);
    let b = latest_with_key(v.rows, k);
    if let Ok((w, e)) = upsert_spec(v, kind, k, content, image_path, image_width, image_height, now) {
        if b >= 0 {
            assert forall|q: int| 0 <= q < w.rows.len() implies (#[trigger] w.rows[q]).entry_key == v.rows[q].entry_key by {}
            lemma_group_keys_only(w.rows, v.rows);
            assert(!(forall|q: int| 0 <= q < v.rows.len() ==> (#[trigger] v.rows[q]).entry_key != k)) by {
                assert(v.rows[b].entry_key == k);
            }
        } else {
            let r = w.rows.last();
            assert(w.rows == v.rows.push(r));
            lemma_group_count_push(v.rows, r);
        }
    }
}

/// No two rows carry the key `k`.
pub open spec fn at_most_one_row(rows: Seq<RowView>, k: Seq<char>) -> bool {
    forall|p: int, q: int| 0 <= p < q < rows.len() ==> !((#[trigger] rows[p]).entry_key == k && (#[trigger] rows[q]).entry_key == k)
}

proof fn lemma_latest_unique(rows: Seq<RowView>, k: Seq<char>, q: int)
    requires
        0 <= q < rows.len(),
        rows[q].entry_key == k,
        at_most_one_row(rows, k),
    ensures
        latest_with_key(rows, k) == q,
{
    lemma_latest_with_key(rows, k);
    let b = latest_with_key(rows, k);
    if b < 0 {
        assert(rows[q].entry_key != k);
    }
    if b < q {
        assert(!(rows[b].entry_key == k && rows[q].entry_key == k));
    } else if b > q {
        assert(!(rows[q].entry_key == k && rows[b].entry_key == k));
    }
}

/// Copying text again whose trimmed form is the same as text just recorded
/// counts one more copy of the same entry, with the same id and trimmed
/// content, and adds no entry, when the entry's key had at most one row; it
/// is refused when the entry's copy count is already at its largest value.
pub proof fn lemma_recopy_same_text(
    v: StorageView,
    a: Seq<char>,
    b: Seq<char>,
    t1: i64,
    t2: i64,
    w: StorageView,
    e1: EntryView,
)
    requires
        trim_spec(a) == trim_spec(b),
        at_most_one_row(v.rows, text_key(trim_spec(a))),
        insert_text_spec(v, a, t1) == Ok::<(StorageView, Option<EntryView>), Seq<char>>((w, Some(e1))),
    ensures
        e1.copy_count < i64::MAX ==> (insert_text_spec(w, b, t2) matches Ok((w2, Some(e2))) && {
            &&& e2.id == e1.id
            &&& e2.content == trim_spec(a)
            &&& e2.copy_count == e1.copy_count + 1
            &&& key_count(w2.rows) == key_count(w.rows)
        }),
        e1.copy_count == i64::MAX ==> insert_text_spec(w, b, t2) == Err::<(StorageView, Option<EntryView>), Seq<char>>(overflow_message()),
{
    let t = trim_spec(a);
    let k = text_key(t);
    lemma_latest_with_key(v.rows, k);
    let b1 = latest_with_key(v.rows, k);
    let q: int = if b1 >= 0 { b1 } else { v.rows.len() as int };
    assert(w.rows[q].entry_key == k);
    assert(e1 == entry_of_row(w.rows[q]));
    assert(at_most_one_row(w.rows, k)) by {
        assert forall|p: int, r: int| 0 <= p < r < w.rows.len() implies !((#[trigger] w.rows[p]).entry_key == k && (#[trigger] w.rows[r]).entry_key == k) by {
            if b1 >= 0 {
                assert(w.rows[p].entry_key == v.rows[p].entry_key);
                assert(w.rows[r].entry_key == v.rows[r].entry_key);
                assert(!(v.rows[p].entry_key == k && v.rows[r].entry_key == k));
            } else if r < v.rows.len() {
                assert(w.rows[p] == v.rows[p] && w.rows[r] == v.rows[r]);
                assert(v.rows[r].entry_key != k);
            } else {
                assert(w.rows[p] == v.rows[p]);
                assert(v.rows[p].entry_key != k);
            }
        }
    }
    lemma_latest_unique(w.rows, k, q);
    assert(count_saturated(w.rows, k) <==> w.rows[q].copy_count == i64::MAX) by {
        if count_saturated(w.rows, k) {
            let p = choose|p: int| 0 <= p < w.rows.len() && (#[trigger] w.rows[p]).entry_key == k && w.rows[p].copy_count == i64::MAX;
            if p < q {
                assert(!(w.rows[p].entry_key == k && w.rows[q].entry_key == k));
            } else if p > q {
                assert(!(w.rows[q].entry_key == k && w.rows[p].entry_key == k));
            }
        }
    }
    lemma_upsert_entries(w, ClipboardEntryKind::Text, k, t, None, None, None, t2);
}

/// The export lists every entry, and, when there are at most 5000 entries,
/// exactly what the history lists when asked for 5000 entries without a
/// query.
pub proof fn lemma_export_is_full_history(rows: Seq<RowView>)
    ensures
        listing(rows, None, usize::MAX as int) matches Some(es) ==> es.len() == key_count(rows) || usize::MAX < key_count(rows),
        key_count(rows) <= 5000 ==> listing(rows, None, usize::MAX as int) == listing(
            rows,
            history_filter(None),
            history_cap(Some(5000u32)) as int,
        ),
{
    lemma_sort_by_order(GroupOrder::Listing, group_rows(rows, None));
    assert(trim_spec(Seq::<char>::empty()).len() == 0);
    assert(history_filter(None) == None::<Seq<char>>);
    assert(history_cap(Some(5000u32)) == 5000);
}

/// Text that is only white space is never recorded, and the store stays as it was.
pub proof fn lemma_blank_text_ignored(v: StorageView, content: Seq<char>, now: i64)
    requires
        trim_spec(content).len() == 0,
    ensures
        insert_text_spec(v, content, now) == Ok::<(StorageView, Option<crate::entry::EntryView>), Seq<char>>((v, None)),
{
}

/// Row `r` has no non-empty image path, or a plain one.
pub open spec fn row_path_plain(r: RowView) -> bool {
    match row_image_path(r) {
        Some(p) => plain_path(p),
        None => true,
    }
}

/// Row `r` has a non-empty image path with the components of `f`.
pub open spec fn row_path_agrees(r: RowView, f: Seq<char>) -> bool {
    match row_image_path(r) {
        Some(p) => path_components(p) == path_components(f),
        None => false,
    }
}

/// Row `r` has no non-empty image path, or one whose last piece is a name
/// other than the last piece of `f`.
pub open spec fn row_names_other(r: RowView, f: Seq<char>) -> bool {
    match row_image_path(r) {
        Some(p) => name_piece(last_piece(p)) && last_piece(p) != last_piece(f),
        None => true,
    }
}

/// Pruning keeps every media file whose path is, as text, a row's image
/// path; keeps only files whose path is the same path as some row's image
/// path; removes a file whose name no row's image path ends with; and keeps
/// a file with a plain path, when every row's image path is plain, exactly
/// when some row's image path has the same components.
pub proof fn lemma_pruned_media(
    rows: Seq<RowView>,
    before: Seq<(Seq<char>, Seq<u8>)>,
    after: Seq<(Seq<char>, Seq<u8>)>,
)
    requires
        media_paths_unique(before),
        media_pruned(rows, before, after),
    ensures
        forall|i: int| 0 <= i < before.len() && is_referenced(rows, (#[trigger] before[i]).0) ==> after.contains(before[i]),
        forall|x: (Seq<char>, Seq<u8>)| #[trigger] after.contains(x) ==> before.contains(x) && exists|j: int|
            0 <= j < rows.len() && #[trigger] row_path_same(rows[j], x.0),
        forall|i: int|
            0 <= i < before.len() && plain_path((#[trigger] before[i]).0)
                && (forall|j: int| 0 <= j < rows.len() ==> #[trigger] row_path_plain(rows[j]))
                ==> (after.contains(before[i]) <==> exists|j: int| 0 <= j < rows.len() && #[trigger] row_path_agrees(rows[j], before[i].0)),
        forall|i: int|
            0 <= i < before.len() && name_piece(last_piece((#[trigger] before[i]).0))
                && (forall|j: int| 0 <= j < rows.len() ==> #[trigger] row_names_other(rows[j], before[i].0))
                ==> !after.contains(before[i]),
{
    let marks = choose|marks: Seq<bool>| media_marks(rows, before, marks) && after == kept(before, marks);
    lemma_kept_contains(before, marks);
    assert forall|i: int| 0 <= i < before.len() && is_referenced(rows, (#[trigger] before[i]).0) implies after.contains(before[i]) by {
        let j = choose|j: int| 0 <= j < rows.len() && (#[trigger] rows[j]).image_path == Some(before[i].0);
        assert(row_image_path(rows[j]) == Some(before[i].0));
        if !marks[i] {
            assert(row_path_differs(rows[j], before[i].0));
        }
    }
    assert forall|x: (Seq<char>, Seq<u8>)| #[trigger] after.contains(x) implies before.contains(x) && exists|j: int|
        0 <= j < rows.len() && #[trigger] row_path_same(rows[j], x.0) by {
        let i = choose|i: int| 0 <= i < before.len() && marks[i] && before[i] == x;
        assert(marks[i]);
    }
    assert forall|i: int|
        0 <= i < before.len() && plain_path((#[trigger] before[i]).0)
            && (forall|j: int| 0 <= j < rows.len() ==> #[trigger] row_path_plain(rows[j]))
        implies (after.contains(before[i]) <==> exists|j: int| 0 <= j < rows.len() && #[trigger] row_path_agrees(rows[j], before[i].0)) by {
        if after.contains(before[i]) {
            let q = choose|q: int| 0 <= q < before.len() && marks[q] && before[q] == before[i];
            if q != i {
                if q < i {
                    assert(before[q].0 != before[i].0);
                } else {
                    assert(before[i].0 != before[q].0);
                }
            }
            assert(marks[i]);
            let j = choose|j: int| 0 <= j < rows.len() && #[trigger] row_path_same(rows[j], before[i].0);
            assert(row_path_plain(rows[j]));
            assert(row_path_agrees(rows[j], before[i].0));
        }
        if exists|j: int| 0 <= j < rows.len() && #[trigger] row_path_agrees(rows[j], before[i].0) {
            let j = choose|j: int| 0 <= j < rows.len() && #[trigger] row_path_agrees(rows[j], before[i].0);
            if !marks[i] {
                assert(row_path_plain(rows[j]));
                assert(row_path_differs(rows[j], before[i].0));
            }
        }
    }
    assert forall|i: int|
        0 <= i < before.len() && name_piece(last_piece((#[trigger] before[i]).0))
            && (forall|j: int| 0 <= j < rows.len() ==> #[trigger] row_names_other(rows[j], before[i].0))
        implies !after.contains(before[i]) by {
        if after.contains(before[i]) {
            let q = choose|q: int| 0 <= q < before.len() && marks[q] && before[q] == before[i];
            if q != i {
                if q < i {
                    assert(before[q].0 != before[i].0);
                } else {
                    assert(before[i].0 != before[q].0);
                }
            }
            assert(marks[i]);
            let j = choose|j: int| 0 <= j < rows.len() && #[trigger] row_path_same(rows[j], before[i].0);
            assert(row_names_other(rows[j], before[i].0));
        }
    }
}

/// Every entry that a search lists contains the trimmed query, ASCII letters
/// compared regardless of case, when the query holds no `LIKE` wildcard.
pub proof fn lemma_search_finds_query(rows: Seq<RowView>, query: Seq<char>, cap: int)
    requires
        0 <= cap,
        trim_spec(query).len() > 0,
        no_wildcards(trim_spec(query)),
    ensures
        listing(rows, history_filter(Some(query)), cap) matches Some(es) ==> forall|k: int|
            0 <= k < es.len() ==> contains_folded((#[trigger] es[k]).content, trim_spec(query)),
{
    let t = trim_spec(query);
    let p = seq!['%'] + t + seq!['%'];
    assert(history_filter(Some(query)) == Some(p));
    lemma_listing_matches_filter(rows, p, cap);
    if let Some(es) = listing(rows, Some(p), cap) {
        assert forall|k: int| 0 <= k < es.len() implies contains_folded((#[trigger] es[k]).content, t) by {
            lemma_search_is_substring(t, es[k].content);
        }
    }
}

/// The set of keys of the rows.
pub open spec fn key_set(rows: Seq<RowView>) -> Set<Seq<char>> {
    rows.map_values(|r: RowView| r.entry_key).to_set()
}

/// The number of entries is the number of distinct keys.
pub proof fn lemma_key_count_is_key_set(rows: Seq<RowView>)
    ensures
        key_set(rows).finite(),
        key_count(rows) == key_set(rows).len(),
{
    broadcast use vstd::seq_lib::seq_to_set_is_finite;

    let gs = group_rows(rows, None);
    let ks = gs.map_values(|g: GroupView| g.entry_key);
    lemma_group_keys_distinct(rows, None);
    assert(ks.no_duplicates()) by {
        assert forall|i: int, j: int| 0 <= i < ks.len() && 0 <= j < ks.len() && i != j implies ks[i] != ks[j] by {
            if i < j {
                assert(gs[i].entry_key != gs[j].entry_key);
            } else {
                assert(gs[j].entry_key != gs[i].entry_key);
            }
        }
    }
    ks.unique_seq_to_set();
    lemma_group_keys(rows, None);
    lemma_group_keys_cover(rows);
    let rk = rows.map_values(|r: RowView| r.entry_key);
    assert forall|x: Seq<char>| ks.to_set().contains(x) <==> key_set(rows).contains(x) by {
        if ks.to_set().contains(x) {
            assert(ks.contains(x));
            let i = choose|i: int| 0 <= i < ks.len() && ks[i] == x;
            assert(gs[i] == gs[i]);
            let q = choose|q: int| 0 <= q < rows.len() && crate::history::row_selected(#[trigger] rows[q], None) && rows[q].entry_key == gs[i].entry_key;
            assert(rk[q] == x);
            assert(rk.contains(x));
        }
        if key_set(rows).contains(x) {
            assert(rk.contains(x));
            let q = choose|q: int| 0 <= q < rk.len() && rk[q] == x;
            assert(rows[q].entry_key == x);
            let i = choose|i: int| 0 <= i < gs.len() && (#[trigger] gs[i]).entry_key == rows[q].entry_key;
            assert(ks[i] == x);
            assert(ks.contains(x));
        }
    }
    assert(ks.to_set() =~= key_set(rows));
}

/// After the cleanup at most `history_limit` entries are left, unless every
/// row left is pinned; the cleanup takes exactly the evicted entries out of
/// those that survive the retention period.
#[verifier::rlimit(40)]
pub proof fn lemma_cleanup_limit(rows: Seq<RowView>, st: AppSettings, now: i64)
    ensures
        key_count(cleaned_rows(rows, st, now)) <= st.history_limit || forall|q: int|
            0 <= q < cleaned_rows(rows, st, now).len() ==> (#[trigger] cleaned_rows(rows, st, now)[q]).pinned != 0,
        key_count(cleaned_rows(rows, st, now)) == key_count(
            rows.filter(|r: RowView| !expired(r, retention_cutoff(st.retention_days, now))),
        ) - eviction_count(
            rows.filter(|r: RowView| !expired(r, retention_cutoff(st.retention_days, now))),
            st.history_limit,
        ),
{
    broadcast use vstd::seq_lib::group_filter_ensures;
    broadcast use vstd::seq_lib::seq_to_set_is_finite;
    broadcast use vstd::seq_lib::group_to_multiset_ensures;

    let cutoff = retention_cutoff(st.retention_days, now);
    let fresh = rows.filter(|r: RowView| !expired(r, cutoff));
    let gone = evicted_keys(fresh, st.history_limit);
    let keep = |r: RowView| !gone.contains(r.entry_key);
    let res = fresh.filter(keep);
    let unp = |r: RowView| r.pinned == 0;
    let fu = fresh.filter(unp);
    let gu = group_rows(fu, None);
    let cands = eviction_candidates(fresh);
    let n = eviction_count(fresh, st.history_limit);
    lemma_sort_by_order(GroupOrder::Oldest, gu);
    lemma_group_keys_distinct(fu, None);
    lemma_sort_keys_distinct(GroupOrder::Oldest, gu);
    lemma_group_keys(fu, None);
    lemma_group_keys_cover(fu);
    lemma_key_count_is_key_set(fresh);
    lemma_key_count_is_key_set(res);
    assert(0 <= n <= cands.len());
    assert(gone.len() == n);
    // the evicted keys are distinct keys of unpinned rows
    assert(gone.no_duplicates()) by {
        assert forall|i: int, j: int| 0 <= i < gone.len() && 0 <= j < gone.len() && i != j implies gone[i] != gone[j] by {
            assert(gone[i] == cands[i].entry_key && gone[j] == cands[j].entry_key);
            if i < j {
                assert(cands[i].entry_key != cands[j].entry_key);
            } else {
                assert(cands[j].entry_key != cands[i].entry_key);
            }
        }
    }
    gone.unique_seq_to_set();
    let gset = gone.to_set();
    let fset = key_set(fresh);
    assert(gset.subset_of(fset)) by {
        assert forall|x: Seq<char>| gset.contains(x) implies fset.contains(x) by {
            let i = choose|i: int| 0 <= i < gone.len() && gone[i] == x;
            assert(gone[i] == cands[i].entry_key);
            assert(cands.contains(cands[i]));
            lemma_sorted_contains(GroupOrder::Oldest, gu, cands[i]);
            let a = choose|a: int| 0 <= a < gu.len() && gu[a] == cands[i];
            assert(gu[a] == gu[a]);
            let b = choose|b: int| 0 <= b < fu.len() && crate::history::row_selected(#[trigger] fu[b], None) && fu[b].entry_key == gu[a].entry_key;
            assert(fu.contains(fu[b]));
            fresh.lemma_filter_contains_rev(unp, fu[b]);
            let c = choose|c: int| 0 <= c < fresh.len() && fresh[c] == fu[b];
            let fk = fresh.map_values(|r: RowView| r.entry_key);
            assert(fk[c] == x);
            assert(fk.contains(x));
        }
    }
    // the keys left are the surviving keys without the evicted ones
    assert(key_set(res) =~= fset.difference(gset)) by {
        let rk = res.map_values(|r: RowView| r.entry_key);
        let fk = fresh.map_values(|r: RowView| r.entry_key);
        assert forall|x: Seq<char>| key_set(res).contains(x) <==> fset.difference(gset).contains(x) by {
            if key_set(res).contains(x) {
                assert(rk.contains(x));
                let q = choose|q: int| 0 <= q < rk.len() && rk[q] == x;
                assert(res.contains(res[q]));
                fresh.lemma_filter_contains_rev(keep, res[q]);
                let c = choose|c: int| 0 <= c < fresh.len() && fresh[c] == res[q];
                assert(fk[c] == x);
                assert(fk.contains(x));
                assert(keep(res[q]));
                assert(!gone.contains(x));
            }
            if fset.difference(gset).contains(x) {
                assert(fk.contains(x));
                let c = choose|c: int| 0 <= c < fk.len() && fk[c] == x;
                assert(keep(fresh[c]));
                assert(res.contains(fresh[c]));
                let q = choose|q: int| 0 <= q < res.len() && res[q] == fresh[c];
                assert(rk[q] == x);
                assert(rk.contains(x));
            }
        }
    }
    vstd::set_lib::lemma_set_difference_len(fset, gset);
    assert(fset.intersect(gset) =~= gset);
    assert(key_count(res) == key_count(fresh) - n);
    let over = key_count(fresh) - st.history_limit;
    if over > 0 && over >= cands.len() {
        // every unpinned entry was evicted
        assert forall|q: int| 0 <= q < res.len() implies (#[trigger] res[q]).pinned != 0 by {
            if res[q].pinned == 0 {
                assert(res.contains(res[q]));
                fresh.lemma_filter_contains_rev(keep, res[q]);
                assert(fu.contains(res[q]));
                let b = choose|b: int| 0 <= b < fu.len() && fu[b] == res[q];
                let a = choose|a: int| 0 <= a < gu.len() && (#[trigger] gu[a]).entry_key == fu[b].entry_key;
                assert(gu.contains(gu[a]));
                assert(gu.to_multiset().count(gu[a]) > 0);
                assert(cands.to_multiset().count(gu[a]) > 0);
                assert(cands.contains(gu[a]));
                let i = choose|i: int| 0 <= i < cands.len() && cands[i] == gu[a];
                assert(gone[i] == cands[i].entry_key);
                assert(gone.contains(res[q].entry_key));
                assert(keep(res[q]));
            }
        }
    }
}

/// After a copy the window is hidden when the settings ask to hide it or to
/// paste, and stays otherwise; the paste shortcut is sent exactly when
/// paste-on-select is set, and the window is then always hidden, so the
/// shortcut reaches the application underneath.
pub proof fn lemma_after_copy(s: AppSettings)
    ensures
        after_copy_spec(s).1 == s.paste_on_select,
        after_copy_spec(s).1 ==> after_copy_spec(s).0,
        s.hide_after_copy ==> after_copy_spec(s).0,
        !s.hide_after_copy && !s.paste_on_select ==> !after_copy_spec(s).0,
{
}

/// Recording another copy of an entry that has rows keeps every row's id,
/// key and pin, so a pinned entry stays pinned; the returned entry is one of
/// those rows, with that row's pin. A first copy is unpinned.
pub proof fn lemma_recopy_keeps_pins(
    v: StorageView,
    kind: ClipboardEntryKind,
    k: Seq<char>,
    content: Seq<char>,
    image_path: Option<Seq<char>>,
    image_width: Option<u32>,
    image_height: Option<u32>,
    now: i64,
)
    ensures
        upsert_spec(v, kind, k, content, image_path, image_width, image_height, now) matches Ok((w, e)) ==> {
            &&& (exists|q: int| 0 <= q < v.rows.len() && (#[trigger] v.rows[q]).entry_key == k) ==> {
                &&& w.rows.len() == v.rows.len()
                &&& forall|q: int| 0 <= q < v.rows.len() ==> {
                    &&& (#[trigger] w.rows[q]).id == v.rows[q].id
                    &&& w.rows[q].entry_key == v.rows[q].entry_key
                    &&& w.rows[q].pinned == v.rows[q].pinned
                }
                &&& exists|q: int| 0 <= q < v.rows.len() && (#[trigger] v.rows[q]).id == e.id && v.rows[q].entry_key == k
                    && e.pinned == (v.rows[q].pinned == 1)
            }
            &&& (forall|q: int| 0 <= q < v.rows.len() ==> (#[trigger] v.rows[q]).entry_key != k) ==> !e.pinned
        },
{
    lemma_latest_with_key(v.rows, k);
    let b = latest_with_key(v.rows, k);
    if let Ok((w, e)) = upsert_spec(v, kind, k, content, image_path, image_width, image_height, now) {
        if b >= 0 {
            assert(v.rows[b].id == e.id && v.rows[b].entry_key == k);
        } else {
            assert(!(exists|q: int| 0 <= q < v.rows.len() && (#[trigger] v.rows[q]).entry_key == k));
        }
    }
}

/// An image entry is labelled with its width first, then its height, and
/// carries that size, its file's path and the image kind.
pub proof fn lemma_image_entry_label(
    v: StorageView,
    png: Seq<u8>,
    path: Seq<char>,
    width: u32,
    height: u32,
    now: i64,
)
    ensures
        store_image_spec(v, png, path, width, height, now) matches Ok((w, e)) ==> {
            &&& e.content == "Image • "@ + decimal_spec(width as nat) + "×"@ + decimal_spec(height as nat)
            &&& e.kind == ClipboardEntryKind::Image
            &&& e.image_width == Some(width)
            &&& e.image_height == Some(height)
            &&& e.image_path == Some(path)
        },
{
    let v1 = StorageView { media: with_media_file(v.media, path, png), ..v };
    let label = "Image • "@ + decimal_spec(width as nat) + "×"@ + decimal_spec(height as nat);
    lemma_upsert_entries(v1, ClipboardEntryKind::Image, image_key(image_hash(png)), label, Some(path), Some(width), Some(height), now);
    lemma_latest_with_key(v1.rows, image_key(image_hash(png)));
}

/// Every entry the history lists has an id of one of the rows and the kind
/// stored in a row with that row's key; so an entry whose rows all store the
/// same kind is listed with that kind (an image as an image).
pub proof fn lemma_listed_kind(rows: Seq<RowView>, filter: Option<Seq<char>>, cap: int)
    requires
        0 <= cap,
    ensures
        listing(rows, filter, cap) matches Some(es) ==> forall|k: int|
            0 <= k < es.len() ==> exists|p: int, q: int|
                #![trigger rows[p], rows[q]]
                0 <= p < rows.len() && 0 <= q < rows.len() && rows[p].id == (#[trigger] es[k]).id
                    && rows[q].entry_key == rows[p].entry_key && es[k].kind == kind_of_name(rows[q].kind),
{
    let gs = group_rows(rows, filter);
    if let Some(es) = listing(rows, filter, cap) {
        let sorted = rank_sort(gs);
        let n = if cap < sorted.len() { cap } else { sorted.len() as int };
        assert(es == sorted.take(n).map_values(|g: GroupView| entry_of_group(g)));
        lemma_group_kinds(rows, filter);
        assert forall|k: int| 0 <= k < es.len() implies exists|p: int, q: int|
            #![trigger rows[p], rows[q]]
            0 <= p < rows.len() && 0 <= q < rows.len() && rows[p].id == (#[trigger] es[k]).id
                && rows[q].entry_key == rows[p].entry_key && es[k].kind == kind_of_name(rows[q].kind) by {
            assert(es[k] == entry_of_group(sorted.take(n)[k]));
            lemma_sorted_member(GroupOrder::Listing, gs, k);
            let g = sorted[k];
            let i = choose|i: int| 0 <= i < gs.len() && gs[i] == g;
            assert(gs[i] == gs[i]);
            let q = choose|q: int| 0 <= q < rows.len() && crate::history::row_selected(#[trigger] rows[q], filter)
                && rows[q].entry_key == gs[i].entry_key && rows[q].kind == gs[i].max_kind;
            let p = choose|p: int| 0 <= p < rows.len() && (#[trigger] rows[p]).entry_key == gs[i].entry_key
                && rows[p].id == gs[i].min_id;
            assert(rows[p].id == es[k].id && rows[q].entry_key == rows[p].entry_key && es[k].kind == kind_of_name(rows[q].kind));
        }
    }
}

/// The cleanup at `now` removes every unpinned row created more than
/// `retention_days` whole days (of 86 400 000 ms) before `now`; and when the
/// table holds no more entries than the history limit, every other row stays.
pub proof fn lemma_cleanup_by_retention_days(rows: Seq<RowView>, st: AppSettings, now: i64)
    ensures
        forall|q: int| 0 <= q < cleaned_rows(rows, st, now).len() ==> {
            let r = #[trigger] cleaned_rows(rows, st, now)[q];
            r.pinned != 0 || r.created_at >= now - st.retention_days * 86_400_000
        },
        key_count(rows) <= st.history_limit ==> forall|q: int| 0 <= q < rows.len()
            && ((#[trigger] rows[q]).pinned != 0 || rows[q].created_at >= now - st.retention_days * 86_400_000)
            ==> cleaned_rows(rows, st, now).contains(rows[q]),
{
    broadcast use vstd::seq_lib::group_filter_ensures;

    lemma_cleanup_retention(rows, st, now);
    let cutoff = retention_cutoff(st.retention_days, now);
    let fresh = rows.filter(|r: RowView| !expired(r, cutoff));
    let gone = evicted_keys(fresh, st.history_limit);
    let out = fresh.filter(|r: RowView| !gone.contains(r.entry_key));
    assert forall|q: int| 0 <= q < out.len() implies {
        let r = #[trigger] out[q];
        r.pinned != 0 || r.created_at >= now - st.retention_days * 86_400_000
    } by {
        assert(!expired(out[q], cutoff));
    }
    if key_count(rows) <= st.history_limit {
        lemma_key_count_is_key_set(rows);
        lemma_key_count_is_key_set(fresh);
        assert(key_set(fresh).subset_of(key_set(rows))) by {
            assert forall|x: Seq<char>| key_set(fresh).contains(x) implies key_set(rows).contains(x) by {
                let ms = fresh.map_values(|r: RowView| r.entry_key);
                assert(ms.contains(x));
                let i = choose|i: int| 0 <= i < ms.len() && ms[i] == x;
                assert(fresh.contains(fresh[i]));
                rows.lemma_filter_contains_rev(|r: RowView| !expired(r, cutoff), fresh[i]);
                let j = choose|j: int| 0 <= j < rows.len() && rows[j] == fresh[i];
                let mr = rows.map_values(|r: RowView| r.entry_key);
                assert(mr[j] == x);
                assert(mr.contains(x));
            }
        }
        vstd::set_lib::lemma_len_subset(key_set(fresh), key_set(rows));
        assert(eviction_count(fresh, st.history_limit) == 0);
        assert(gone.len() == 0);
        assert forall|q: int| 0 <= q < rows.len()
            && ((#[trigger] rows[q]).pinned != 0 || rows[q].created_at >= now - st.retention_days * 86_400_000)
            implies out.contains(rows[q]) by {
            assert(!expired(rows[q], cutoff));
            assert(fresh.contains(rows[q])) by {
                assert(rows.contains(rows[q]));
            }
            assert(!gone.contains(rows[q].entry_key));
        }
    }
}

} // verus!

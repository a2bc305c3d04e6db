use vstd::multiset::Multiset;
use vstd::prelude::*;

use crate::entry::{
    copy_opt_string, kind_from_db, kind_of_name, opt_text, ClipboardEntry, EntryRow,
    EntryView, RowView,
};
use crate::pattern::{like_match, like_matches, text_less, text_lt};
use crate::text::chars_of;

verus! {

/// The aggregate of the rows that share one `entry_key`, column by column:
/// the smallest id, the greatest value of every other column (absent values
/// ignored), and the running total of the copy counts, with `overflow` set
/// once that total has left the range of `i64`.
pub struct GroupView {
    pub entry_key: Seq<char>,
    pub min_id: i64,
    pub max_kind: Seq<char>,
    pub max_content: Seq<char>,
    pub max_image_path: Option<Seq<char>>,
    pub max_image_width: Option<u32>,
    pub max_image_height: Option<u32>,
    pub max_created_at: i64,
    pub max_pinned: i64,
    pub max_last_copied_at: Option<i64>,
    pub copy_sum: i64,
    pub overflow: bool,
}

/// The running aggregate of one `entry_key` while the rows are read.
pub struct Group {
    pub entry_key: String,
    pub min_id: i64,
    pub max_kind: String,
    pub max_content: String,
    pub max_image_path: Option<String>,
    pub max_image_width: Option<u32>,
    pub max_image_height: Option<u32>,
    pub max_created_at: i64,
    pub max_pinned: i64,
    pub max_last_copied_at: Option<i64>,
    pub copy_sum: i64,
    pub overflow: bool,
}

impl View for Group {
    type V = GroupView;

    open spec fn view(&self) -> GroupView {
        GroupView {
            entry_key: self.entry_key@,
            min_id: self.min_id,
            max_kind: self.max_kind@,
            max_content: self.max_content@,
            max_image_path: opt_text(self.max_image_path),
            max_image_width: self.max_image_width,
            max_image_height: self.max_image_height,
            max_created_at: self.max_created_at,
            max_pinned: self.max_pinned,
            max_last_copied_at: self.max_last_copied_at,
            copy_sum: self.copy_sum,
            overflow: self.overflow,
        }
    }
}

pub open spec fn rows_view(rows: Seq<EntryRow>) -> Seq<RowView> {
    rows.map_values(|r: EntryRow| r@)
}

pub open spec fn groups_view(gs: Seq<Group>) -> Seq<GroupView> {
    gs.map_values(|g: Group| g@)
}

pub open spec fn entries_view(es: Seq<ClipboardEntry>) -> Seq<EntryView> {
    es.map_values(|e: ClipboardEntry| e@)
}

/// The greater of two texts.
pub open spec fn text_max(a: Seq<char>, b: Seq<char>) -> Seq<char> {
    if text_lt(a, b) {
        b
    } else {
        a
    }
}

/// The greater of two optional texts, an absent one ignored.
pub open spec fn opt_text_max(a: Option<Seq<char>>, b: Option<Seq<char>>) -> Option<Seq<char>> {
    match (a, b) {
        (Some(x), Some(y)) => Some(text_max(x, y)),
        (Some(x), None) => Some(x),
        (None, _) => b,
    }
}

pub open spec fn opt_u32_max(a: Option<u32>, b: Option<u32>) -> Option<u32> {
    match (a, b) {
        (Some(x), Some(y)) => Some(if x < y { y } else { x }),
        (Some(x), None) => Some(x),
        (None, _) => b,
    }
}

pub open spec fn opt_i64_max(a: Option<i64>, b: Option<i64>) -> Option<i64> {
    match (a, b) {
        (Some(x), Some(y)) => Some(if x < y { y } else { x }),
        (Some(x), None) => Some(x),
        (None, _) => b,
    }
}

/// The aggregate of a single row.
pub open spec fn group_of_row(r: RowView) -> GroupView {
    GroupView {
        entry_key: r.entry_key,
        min_id: r.id,
        max_kind: r.kind,
        max_content: r.content,
        max_image_path: r.image_path,
        max_image_width: r.image_width,
        max_image_height: r.image_height,
        max_created_at: r.created_at,
        max_pinned: r.pinned,
        max_last_copied_at: r.last_copied_at,
        copy_sum: r.copy_count,
        overflow: false,
    }
}

pub open spec fn fits_i64(v: int) -> bool {
    i64::MIN <= v <= i64::MAX
}

/// The aggregate after one more row of the same key.
pub open spec fn group_add(g: GroupView, r: RowView) -> GroupView {
    let total = g.copy_sum + r.copy_count;
    GroupView {
        entry_key: g.entry_key,
        min_id: if r.id < g.min_id { r.id } else { g.min_id },
        max_kind: text_max(g.max_kind, r.kind),
        max_content: text_max(g.max_content, r.content),
        max_image_path: opt_text_max(g.max_image_path, r.image_path),
        max_image_width: opt_u32_max(g.max_image_width, r.image_width),
        max_image_height: opt_u32_max(g.max_image_height, r.image_height),
        max_created_at: if g.max_created_at < r.created_at { r.created_at } else { g.max_created_at },
        max_pinned: if g.max_pinned < r.pinned { r.pinned } else { g.max_pinned },
        max_last_copied_at: opt_i64_max(g.max_last_copied_at, r.last_copied_at),
        copy_sum: if g.overflow || !fits_i64(total) { g.copy_sum } else { total as i64 },
        overflow: g.overflow || !fits_i64(total),
    }
}

/// The position of the first aggregate at or after `i` with key `k`, or -1.
pub open spec fn find_group(gs: Seq<GroupView>, k: Seq<char>, i: int) -> int
    decreases gs.len() - i,
{
    if i < 0 || i >= gs.len() {
        -1
    } else if gs[i].entry_key == k {
        i
    } else {
        find_group(gs, k, i + 1)
    }
}

/// Whether a row passes the search filter (none, or a `LIKE` pattern on the content).
pub open spec fn row_selected(r: RowView, filter: Option<Seq<char>>) -> bool {
    match filter {
        None => true,
        Some(p) => like_match(p, r.content),
    }
}

/// The selected rows gathered by `entry_key`, one aggregate per key in the
/// order in which the keys first occur.
pub open spec fn group_rows(rows: Seq<RowView>, filter: Option<Seq<char>>) -> Seq<GroupView>
    decreases rows.len(),
{
    if rows.len() == 0 {
        Seq::empty()
    } else {
        let gs = group_rows(rows.drop_last(), filter);
        let r = rows.last();
        if !row_selected(r, filter) {
            gs
        } else {
            let i = find_group(gs, r.entry_key, 0);
            if i < 0 {
                gs.push(group_of_row(r))
            } else {
                gs.update(i, group_add(gs[i], r))
            }
        }
    }
}

/// The two orders in which aggregates are arranged.
#[derive(Clone, Copy, PartialEq, Eq, Structural)]
pub enum GroupOrder {
    /// Pinned first, then the most recent (the history listing).
    Listing,
    /// The least recent first (the eviction order of the cleanup).
    Oldest,
}

/// Whether `a` must come before `b` in the given order.
pub open spec fn precedes(order: GroupOrder, a: GroupView, b: GroupView) -> bool {
    match order {
        GroupOrder::Listing => ranks_before(a, b),
        GroupOrder::Oldest => a.max_created_at < b.max_created_at,
    }
}

/// Whether `a` is listed before `b`: pinned first, then the most recent.
pub open spec fn ranks_before(a: GroupView, b: GroupView) -> bool {
    a.max_pinned > b.max_pinned || (a.max_pinned == b.max_pinned && a.max_created_at
        > b.max_created_at)
}

/// `s` with `g` placed before the first element that it must precede.
pub open spec fn insert_ordered(order: GroupOrder, g: GroupView, s: Seq<GroupView>) -> Seq<GroupView>
    decreases s.len(),
{
    if s.len() == 0 {
        seq![g]
    } else if precedes(order, g, s[0]) {
        seq![g] + s
    } else {
        seq![s[0]] + insert_ordered(order, g, s.drop_first())
    }
}

/// The aggregates arranged in the given order; those that tie keep their order.
pub open spec fn sort_by_order(order: GroupOrder, s: Seq<GroupView>) -> Seq<GroupView>
    decreases s.len(),
{
    if s.len() == 0 {
        s
    } else {
        insert_ordered(order, s.last(), sort_by_order(order, s.drop_last()))
    }
}

/// No element of `s` must come before an earlier one.
pub open spec fn ordered(order: GroupOrder, s: Seq<GroupView>) -> bool {
    forall|i: int, j: int| 0 <= i < j < s.len() ==> !precedes(order, #[trigger] s[j], #[trigger] s[i])
}

proof fn lemma_precedes_strict(order: GroupOrder, a: GroupView, b: GroupView, c: GroupView)
    ensures
        precedes(order, a, b) ==> !precedes(order, b, a),
        precedes(order, a, b) && precedes(order, b, c) ==> precedes(order, a, c),
        precedes(order, a, c) ==> precedes(order, a, b) || precedes(order, b, c),
{
}

proof fn lemma_insert_ordered(order: GroupOrder, g: GroupView, s: Seq<GroupView>)
    requires
        ordered(order, s),
    ensures
        ordered(order, insert_ordered(order, g, s)),
        insert_ordered(order, g, s).len() == s.len() + 1,
        insert_ordered(order, g, s).to_multiset() == s.to_multiset().insert(g),
    decreases s.len(),
{
    broadcast use vstd::multiset::group_multiset_axioms;

    let r = insert_ordered(order, g, s);
    if s.len() == 0 {
        assert(r =~= seq![g]);
        assert(s =~= Seq::<GroupView>::empty());
        assert(seq![g].to_multiset() =~= Seq::<GroupView>::empty().to_multiset().insert(g)) by {
            broadcast use vstd::seq_lib::group_to_multiset_ensures;
            assert(seq![g] =~= Seq::<GroupView>::empty().push(g));
        }
    } else if precedes(order, g, s[0]) {
        assert(r =~= seq![g] + s);
        assert forall|i: int, j: int| 0 <= i < j < r.len() implies !precedes(order, #[trigger] r[j], #[trigger] r[i]) by {
            if i == 0 {
                lemma_precedes_strict(order, g, s[0], r[j]);
                lemma_precedes_strict(order, r[j], g, s[0]);
                lemma_precedes_strict(order, r[j], s[0], g);
                if j > 1 {
                    assert(r[j] == s[j - 1]);
                    assert(!precedes(order, s[j - 1], s[0]));
                }
            } else {
                assert(r[i] == s[i - 1] && r[j] == s[j - 1]);
            }
        }
        assert(r.to_multiset() =~= s.to_multiset().insert(g)) by {
            broadcast use vstd::seq_lib::group_to_multiset_ensures;
            vstd::seq_lib::lemma_multiset_commutative(seq![g], s);
            assert(seq![g].to_multiset() =~= Multiset::<GroupView>::empty().insert(g)) by {
                assert(seq![g] =~= Seq::<GroupView>::empty().push(g));
            }
        }
    } else {
        let t = s.drop_first();
        assert forall|i: int, j: int| 0 <= i < j < t.len() implies !precedes(order, #[trigger] t[j], #[trigger] t[i]) by {
            assert(t[i] == s[i + 1] && t[j] == s[j + 1]);
        }
        lemma_insert_ordered(order, g, t);
        let u = insert_ordered(order, g, t);
        assert(r =~= seq![s[0]] + u);
        assert forall|i: int, j: int| 0 <= i < j < r.len() implies !precedes(order, #[trigger] r[j], #[trigger] r[i]) by {
            if i == 0 {
                assert(r[i] == s[0]);
                assert(r[j] == u[j - 1]);
                assert(u.to_multiset().count(u[j - 1]) > 0) by {
                    broadcast use vstd::seq_lib::group_to_multiset_ensures;
                    assert(u.contains(u[j - 1]));
                }
                assert(t.to_multiset().insert(g).count(u[j - 1]) > 0);
                if u[j - 1] != g {
                    assert(t.to_multiset().count(u[j - 1]) > 0);
                    assert(t.contains(u[j - 1])) by {
                        broadcast use vstd::seq_lib::group_to_multiset_ensures;
                    }
                    let k = choose|k: int| 0 <= k < t.len() && t[k] == u[j - 1];
                    assert(s[k + 1] == t[k]);
                }
            } else {
                assert(r[i] == u[i - 1] && r[j] == u[j - 1]);
            }
        }
        assert(r.to_multiset() =~= s.to_multiset().insert(g)) by {
            broadcast use vstd::seq_lib::group_to_multiset_ensures;
            vstd::seq_lib::lemma_multiset_commutative(seq![s[0]], u);
            vstd::seq_lib::lemma_multiset_commutative(seq![s[0]], t);
            assert(seq![s[0]] + t =~= s);
            assert(seq![s[0]].to_multiset().add(t.to_multiset().insert(g)) =~= seq![s[0]].to_multiset().add(t.to_multiset()).insert(g));
        }
    }
}

/// Arranging aggregates in an order yields them in that order, each as
/// often as before.
pub proof fn lemma_sort_by_order(order: GroupOrder, s: Seq<GroupView>)
    ensures
        ordered(order, sort_by_order(order, s)),
        sort_by_order(order, s).len() == s.len(),
        sort_by_order(order, s).to_multiset() == s.to_multiset(),
    decreases s.len(),
{
    if s.len() > 0 {
        lemma_sort_by_order(order, s.drop_last());
        lemma_insert_ordered(order, s.last(), sort_by_order(order, s.drop_last()));
        assert(s.to_multiset() =~= s.drop_last().to_multiset().insert(s.last())) by {
            broadcast use vstd::seq_lib::group_to_multiset_ensures;
            assert(s.drop_last().push(s.last()) =~= s);
        }
    } else {
        assert(sort_by_order(order, s).to_multiset() =~= s.to_multiset());
    }
}

/// The aggregates in listing order.
pub open spec fn rank_sort(s: Seq<GroupView>) -> Seq<GroupView> {
    sort_by_order(GroupOrder::Listing, s)
}

/// The entry that the history shows for an aggregate.
pub open spec fn entry_of_group(g: GroupView) -> EntryView {
    EntryView {
        id: g.min_id,
        kind: kind_of_name(g.max_kind),
        content: g.max_content,
        image_path: g.max_image_path,
        image_width: g.max_image_width,
        image_height: g.max_image_height,
        created_at: g.max_created_at,
        pinned: g.max_pinned == 1,
        last_copied_at: g.max_last_copied_at,
        copy_count: g.copy_sum,
    }
}

pub open spec fn some_overflow(gs: Seq<GroupView>) -> bool {
    exists|i: int| 0 <= i < gs.len() && (#[trigger] gs[i]).overflow
}

/// The listing of the selected rows: one entry per key, pinned first, then
/// the most recent, at most `cap` of them; `None` when a copy-count total
/// leaves the range of `i64`.
pub open spec fn listing(rows: Seq<RowView>, filter: Option<Seq<char>>, cap: int) -> Option<
    Seq<EntryView>,
> {
    let gs = group_rows(rows, filter);
    if some_overflow(gs) {
        None
    } else {
        let sorted = rank_sort(gs);
        let n = if cap < sorted.len() { cap } else { sorted.len() as int };
        Some(sorted.take(n).map_values(|g: GroupView| entry_of_group(g)))
    }
}

proof fn lemma_text_max_is_arg(a: Seq<char>, b: Seq<char>)
    ensures
        text_max(a, b) == a || text_max(a, b) == b,
{
}

proof fn lemma_find_group(gs: Seq<GroupView>, k: Seq<char>, i: int)
    requires
        0 <= i <= gs.len(),
    ensures
        find_group(gs, k, i) == -1 || (i <= find_group(gs, k, i) < gs.len() && gs[find_group(gs, k, i)].entry_key == k),
    decreases gs.len() - i,
{
    if i < gs.len() && gs[i].entry_key != k {
        lemma_find_group(gs, k, i + 1);
    }
}

/// Each aggregate's content is the content of a selected row, and its pin
/// value is a pin value of one of its rows.
pub proof fn lemma_group_values(rows: Seq<RowView>, filter: Option<Seq<char>>)
    ensures
        forall|i: int|
            #![trigger group_rows(rows, filter)[i]]
            0 <= i < group_rows(rows, filter).len() ==> exists|q: int|
                0 <= q < rows.len() && row_selected(#[trigger] rows[q], filter) && rows[q].content
                    == group_rows(rows, filter)[i].max_content,
        forall|i: int|
            #![trigger group_rows(rows, filter)[i]]
            0 <= i < group_rows(rows, filter).len() ==> exists|q: int|
                0 <= q < rows.len() && (#[trigger] rows[q]).pinned == group_rows(rows, filter)[i].max_pinned,
    decreases rows.len(),
{
    if rows.len() > 0 {
        let p = rows.drop_last();
        let r = rows.last();
        lemma_group_values(p, filter);
        let gp = group_rows(p, filter);
        let gs = group_rows(rows, filter);
        lemma_find_group(gp, r.entry_key, 0);
        assert forall|i: int|
            #![trigger gs[i]]
            0 <= i < gs.len() implies (exists|q: int|
                0 <= q < rows.len() && row_selected(#[trigger] rows[q], filter) && rows[q].content == gs[i].max_content) && (exists|q: int|
                0 <= q < rows.len() && (#[trigger] rows[q]).pinned == gs[i].max_pinned) by {
            let last = rows.len() - 1;
            assert(rows[last] == r);
            if i < gp.len() && (gs[i] == gp[i]) {
                assert(gp[i] == gp[i]);
                let q1 = choose|q: int| 0 <= q < p.len() && row_selected(#[trigger] p[q], filter) && p[q].content == gp[i].max_content;
                let q2 = choose|q: int| 0 <= q < p.len() && (#[trigger] p[q]).pinned == gp[i].max_pinned;
                assert(rows[q1] == p[q1]);
                assert(rows[q2] == p[q2]);
            } else if i < gp.len() {
                // the aggregate that took the last row
                assert(gs[i] == group_add(gp[i], r));
                assert(gp[i] == gp[i]);
                let q1 = choose|q: int| 0 <= q < p.len() && row_selected(#[trigger] p[q], filter) && p[q].content == gp[i].max_content;
                let q2 = choose|q: int| 0 <= q < p.len() && (#[trigger] p[q]).pinned == gp[i].max_pinned;
                assert(rows[q1] == p[q1]);
                assert(rows[q2] == p[q2]);
                lemma_text_max_is_arg(gp[i].max_content, r.content);
            } else {
                assert(gs[i] == group_of_row(r));
            }
        }
    }
}

/// Each aggregate's kind is the kind of a selected row of its key, and its
/// id is the id of a row of its key.
pub proof fn lemma_group_kinds(rows: Seq<RowView>, filter: Option<Seq<char>>)
    ensures
        forall|i: int|
            #![trigger group_rows(rows, filter)[i]]
            0 <= i < group_rows(rows, filter).len() ==> exists|q: int|
                0 <= q < rows.len() && row_selected(#[trigger] rows[q], filter) && rows[q].entry_key
                    == group_rows(rows, filter)[i].entry_key && rows[q].kind == group_rows(rows, filter)[i].max_kind,
        forall|i: int|
            #![trigger group_rows(rows, filter)[i]]
            0 <= i < group_rows(rows, filter).len() ==> exists|q: int|
                0 <= q < rows.len() && (#[trigger] rows[q]).entry_key == group_rows(rows, filter)[i].entry_key
                    && rows[q].id == group_rows(rows, filter)[i].min_id,
    decreases rows.len(),
{
    if rows.len() > 0 {
        let p = rows.drop_last();
        let r = rows.last();
        lemma_group_kinds(p, filter);
        let gp = group_rows(p, filter);
        let gs = group_rows(rows, filter);
        lemma_find_group(gp, r.entry_key, 0);
        let last = rows.len() - 1;
        assert(rows[last] == r);
        assert forall|i: int|
            #![trigger gs[i]]
            0 <= i < gs.len() implies (exists|q: int|
                0 <= q < rows.len() && row_selected(#[trigger] rows[q], filter) && rows[q].entry_key == gs[i].entry_key
                    && rows[q].kind == gs[i].max_kind) && (exists|q: int|
                0 <= q < rows.len() && (#[trigger] rows[q]).entry_key == gs[i].entry_key && rows[q].id == gs[i].min_id) by {
            if i < gp.len() && (gs[i] == gp[i]) {
                assert(gp[i] == gp[i]);
                let q1 = choose|q: int| 0 <= q < p.len() && row_selected(#[trigger] p[q], filter) && p[q].entry_key
                    == gp[i].entry_key && p[q].kind == gp[i].max_kind;
                let q2 = choose|q: int| 0 <= q < p.len() && (#[trigger] p[q]).entry_key == gp[i].entry_key && p[q].id == gp[i].min_id;
                assert(rows[q1] == p[q1]);
                assert(rows[q2] == p[q2]);
            } else if i < gp.len() {
                assert(gs[i] == group_add(gp[i], r));
                assert(gp[i].entry_key == r.entry_key);
                assert(row_selected(r, filter));
                assert(gp[i] == gp[i]);
                let q1 = choose|q: int| 0 <= q < p.len() && row_selected(#[trigger] p[q], filter) && p[q].entry_key
                    == gp[i].entry_key && p[q].kind == gp[i].max_kind;
                let q2 = choose|q: int| 0 <= q < p.len() && (#[trigger] p[q]).entry_key == gp[i].entry_key && p[q].id == gp[i].min_id;
                assert(rows[q1] == p[q1]);
                assert(rows[q2] == p[q2]);
                lemma_text_max_is_arg(gp[i].max_kind, r.kind);
                if gs[i].max_kind == r.kind {
                    assert(row_selected(rows[last], filter) && rows[last].entry_key == gs[i].entry_key);
                }
                if gs[i].min_id == r.id {
                    assert(rows[last].entry_key == gs[i].entry_key);
                }
            } else {
                assert(gs[i] == group_of_row(r));
                assert(row_selected(rows[last], filter));
            }
        }
    }
}

/// Each aggregate's key is the key of a selected row.
pub proof fn lemma_group_keys(rows: Seq<RowView>, filter: Option<Seq<char>>)
    ensures
        forall|i: int|
            #![trigger group_rows(rows, filter)[i]]
            0 <= i < group_rows(rows, filter).len() ==> exists|q: int|
                0 <= q < rows.len() && row_selected(#[trigger] rows[q], filter) && rows[q].entry_key
                    == group_rows(rows, filter)[i].entry_key,
    decreases rows.len(),
{
    if rows.len() > 0 {
        let p = rows.drop_last();
        let r = rows.last();
        lemma_group_keys(p, filter);
        let gp = group_rows(p, filter);
        let gs = group_rows(rows, filter);
        lemma_find_group(gp, r.entry_key, 0);
        assert forall|i: int|
            #![trigger gs[i]]
            0 <= i < gs.len() implies exists|q: int|
                0 <= q < rows.len() && row_selected(#[trigger] rows[q], filter) && rows[q].entry_key == gs[i].entry_key by {
            let last = rows.len() - 1;
            assert(rows[last] == r);
            if i < gp.len() {
                assert(gs[i].entry_key == gp[i].entry_key);
                assert(gp[i] == gp[i]);
                let q1 = choose|q: int| 0 <= q < p.len() && row_selected(#[trigger] p[q], filter) && p[q].entry_key == gp[i].entry_key;
                assert(rows[q1] == p[q1]);
            } else {
                assert(gs[i] == group_of_row(r));
            }
        }
    }
}

proof fn lemma_find_group_keys(a: Seq<GroupView>, b: Seq<GroupView>, k: Seq<char>, i: int)
    requires
        a.len() == b.len(),
        forall|j: int| 0 <= j < a.len() ==> (#[trigger] a[j]).entry_key == b[j].entry_key,
    ensures
        find_group(a, k, i) == find_group(b, k, i),
    decreases a.len() - i,
{
    if 0 <= i < a.len() && a[i].entry_key != k {
        lemma_find_group_keys(a, b, k, i + 1);
    }
}

/// The keys of the aggregates depend on the keys of the rows only.
pub proof fn lemma_group_keys_only(a: Seq<RowView>, b: Seq<RowView>)
    requires
        a.len() == b.len(),
        forall|j: int| 0 <= j < a.len() ==> (#[trigger] a[j]).entry_key == b[j].entry_key,
    ensures
        group_rows(a, None).len() == group_rows(b, None).len(),
        forall|j: int|
            0 <= j < group_rows(a, None).len() ==> (#[trigger] group_rows(a, None)[j]).entry_key
                == group_rows(b, None)[j].entry_key,
    decreases a.len(),
{
    if a.len() > 0 {
        let pa = a.drop_last();
        let pb = b.drop_last();
        assert forall|j: int| 0 <= j < pa.len() implies (#[trigger] pa[j]).entry_key == pb[j].entry_key by {
            assert(a[j] == pa[j] && b[j] == pb[j]);
        }
        lemma_group_keys_only(pa, pb);
        let ga = group_rows(pa, None);
        let gb = group_rows(pb, None);
        assert(a.last().entry_key == b.last().entry_key);
        lemma_find_group_keys(ga, gb, a.last().entry_key, 0);
        lemma_find_group(ga, a.last().entry_key, 0);
        let f = find_group(ga, a.last().entry_key, 0);
        let sa = group_rows(a, None);
        let sb = group_rows(b, None);
        if f < 0 {
            assert(sa == ga.push(group_of_row(a.last())));
            assert(sb == gb.push(group_of_row(b.last())));
        } else {
            assert(sa == ga.update(f, group_add(ga[f], a.last())));
            assert(sb == gb.update(f, group_add(gb[f], b.last())));
        }
        assert forall|j: int| 0 <= j < sa.len() implies (#[trigger] sa[j]).entry_key == sb[j].entry_key by {
            if j < ga.len() {
                assert(ga[j].entry_key == gb[j].entry_key);
            }
        }
    }
}

/// Adding a row with a key that no row has adds one aggregate; adding a row
/// with a key that a row has adds none.
pub proof fn lemma_group_count_push(rows: Seq<RowView>, r: RowView)
    ensures
        (exists|q: int| 0 <= q < rows.len() && (#[trigger] rows[q]).entry_key == r.entry_key) ==> group_rows(rows.push(r), None).len() == group_rows(rows, None).len(),
        (forall|q: int| 0 <= q < rows.len() ==> (#[trigger] rows[q]).entry_key != r.entry_key) ==> group_rows(rows.push(r), None).len() == group_rows(rows, None).len() + 1,
{
    let gs = group_rows(rows, None);
    assert(rows.push(r).drop_last() =~= rows);
    lemma_find_group(gs, r.entry_key, 0);
    lemma_group_keys(rows, None);
    lemma_group_keys_cover(rows);
    if exists|q: int| 0 <= q < rows.len() && (#[trigger] rows[q]).entry_key == r.entry_key {
        let q = choose|q: int| 0 <= q < rows.len() && (#[trigger] rows[q]).entry_key == r.entry_key;
        let i = choose|i: int| 0 <= i < gs.len() && gs[i].entry_key == rows[q].entry_key;
        lemma_find_group_found(gs, r.entry_key, 0, i);
    } else {
        if find_group(gs, r.entry_key, 0) >= 0 {
            let i = find_group(gs, r.entry_key, 0);
            assert(gs[i] == gs[i]);
            let q = choose|q: int| 0 <= q < rows.len() && row_selected(#[trigger] rows[q], None) && rows[q].entry_key == gs[i].entry_key;
            assert(false);
        }
    }
}

proof fn lemma_find_group_found(gs: Seq<GroupView>, k: Seq<char>, i: int, j: int)
    requires
        0 <= i <= j < gs.len(),
        gs[j].entry_key == k,
    ensures
        find_group(gs, k, i) >= 0,
    decreases j - i,
{
    if gs[i].entry_key != k {
        lemma_find_group_found(gs, k, i + 1, j);
    }
}

/// Every key of a row has an aggregate.
pub proof fn lemma_group_keys_cover(rows: Seq<RowView>)
    ensures
        forall|q: int|
            0 <= q < rows.len() ==> exists|i: int|
                0 <= i < group_rows(rows, None).len() && (#[trigger] group_rows(rows, None)[i]).entry_key == (#[trigger] rows[q]).entry_key,
    decreases rows.len(),
{
    if rows.len() > 0 {
        let p = rows.drop_last();
        let r = rows.last();
        lemma_group_keys_cover(p);
        let gp = group_rows(p, None);
        let gs = group_rows(rows, None);
        lemma_find_group(gp, r.entry_key, 0);
        assert forall|q: int| 0 <= q < rows.len() implies exists|i: int|
            0 <= i < gs.len() && (#[trigger] gs[i]).entry_key == (#[trigger] rows[q]).entry_key by {
            if q < p.len() {
                assert(rows[q] == p[q]);
                let i = choose|i: int| 0 <= i < gp.len() && (#[trigger] gp[i]).entry_key == p[q].entry_key;
                assert(gs[i].entry_key == gp[i].entry_key);
            } else {
                let f = find_group(gp, r.entry_key, 0);
                if f < 0 {
                    assert(gs[gp.len() as int].entry_key == r.entry_key);
                } else {
                    assert(gs[f].entry_key == r.entry_key);
                }
            }
        }
    }
}

/// No two aggregates share a key.
pub open spec fn keys_distinct(s: Seq<GroupView>) -> bool {
    forall|i: int, j: int| 0 <= i < j < s.len() ==> (#[trigger] s[i]).entry_key != (#[trigger] s[j]).entry_key
}

/// The aggregates have distinct keys.
pub proof fn lemma_group_keys_distinct(rows: Seq<RowView>, filter: Option<Seq<char>>)
    ensures
        keys_distinct(group_rows(rows, filter)),
    decreases rows.len(),
{
    if rows.len() > 0 {
        let p = rows.drop_last();
        let r = rows.last();
        lemma_group_keys_distinct(p, filter);
        let gp = group_rows(p, filter);
        lemma_find_group(gp, r.entry_key, 0);
        let gs = group_rows(rows, filter);
        if row_selected(r, filter) {
            let f = find_group(gp, r.entry_key, 0);
            if f < 0 {
                lemma_find_group_none(gp, r.entry_key, 0);
                assert forall|i: int, j: int| 0 <= i < j < gs.len() implies (#[trigger] gs[i]).entry_key != (#[trigger] gs[j]).entry_key by {
                    if j == gp.len() {
                        assert(gs[i] == gp[i]);
                    } else {
                        assert(gs[i] == gp[i] && gs[j] == gp[j]);
                    }
                }
            } else {
                assert forall|i: int, j: int| 0 <= i < j < gs.len() implies (#[trigger] gs[i]).entry_key != (#[trigger] gs[j]).entry_key by {
                    assert(gs[i].entry_key == gp[i].entry_key && gs[j].entry_key == gp[j].entry_key);
                }
            }
        }
    }
}

proof fn lemma_find_group_none(gs: Seq<GroupView>, k: Seq<char>, i: int)
    requires
        0 <= i <= gs.len(),
        find_group(gs, k, i) < 0,
    ensures
        forall|j: int| i <= j < gs.len() ==> (#[trigger] gs[j]).entry_key != k,
    decreases gs.len() - i,
{
    if i < gs.len() {
        lemma_find_group_none(gs, k, i + 1);
    }
}

proof fn lemma_member_of_insert(order: GroupOrder, g: GroupView, s: Seq<GroupView>, x: GroupView)
    requires
        insert_ordered(order, g, s).contains(x),
    ensures
        x == g || s.contains(x),
    decreases s.len(),
{
    let r = insert_ordered(order, g, s);
    let k = choose|k: int| 0 <= k < r.len() && r[k] == x;
    if s.len() == 0 {
        assert(r =~= seq![g]);
    } else if precedes(order, g, s[0]) {
        assert(r =~= seq![g] + s);
        if k > 0 {
            assert(s[k - 1] == x);
        }
    } else {
        let t = s.drop_first();
        let u = insert_ordered(order, g, t);
        assert(r =~= seq![s[0]] + u);
        if k > 0 {
            assert(u[k - 1] == x);
            assert(u.contains(x));
            lemma_member_of_insert(order, g, t, x);
            if t.contains(x) {
                let m = choose|m: int| 0 <= m < t.len() && t[m] == x;
                assert(s[m + 1] == x);
            }
        } else {
            assert(s[0] == x);
        }
    }
}

proof fn lemma_member_of_sort(order: GroupOrder, s: Seq<GroupView>, x: GroupView)
    requires
        sort_by_order(order, s).contains(x),
    ensures
        s.contains(x),
    decreases s.len(),
{
    if s.len() > 0 {
        let p = s.drop_last();
        lemma_member_of_insert(order, s.last(), sort_by_order(order, p), x);
        if x != s.last() {
            lemma_member_of_sort(order, p, x);
            let m = choose|m: int| 0 <= m < p.len() && p[m] == x;
            assert(s[m] == x);
        } else {
            assert(s[s.len() - 1] == x);
        }
    }
}

proof fn lemma_insert_keys_distinct(order: GroupOrder, g: GroupView, s: Seq<GroupView>)
    requires
        keys_distinct(s),
        forall|i: int| 0 <= i < s.len() ==> (#[trigger] s[i]).entry_key != g.entry_key,
    ensures
        keys_distinct(insert_ordered(order, g, s)),
    decreases s.len(),
{
    let r = insert_ordered(order, g, s);
    if s.len() == 0 {
        assert(r =~= seq![g]);
    } else if precedes(order, g, s[0]) {
        assert(r =~= seq![g] + s);
        assert forall|i: int, j: int| 0 <= i < j < r.len() implies (#[trigger] r[i]).entry_key != (#[trigger] r[j]).entry_key by {
            assert(r[j] == s[j - 1]);
            if i > 0 {
                assert(r[i] == s[i - 1]);
            }
        }
    } else {
        let t = s.drop_first();
        assert forall|i: int, j: int| 0 <= i < j < t.len() implies (#[trigger] t[i]).entry_key != (#[trigger] t[j]).entry_key by {
            assert(t[i] == s[i + 1] && t[j] == s[j + 1]);
        }
        assert forall|i: int| 0 <= i < t.len() implies (#[trigger] t[i]).entry_key != g.entry_key by {
            assert(t[i] == s[i + 1]);
        }
        lemma_insert_keys_distinct(order, g, t);
        let u = insert_ordered(order, g, t);
        assert(r =~= seq![s[0]] + u);
        assert forall|i: int, j: int| 0 <= i < j < r.len() implies (#[trigger] r[i]).entry_key != (#[trigger] r[j]).entry_key by {
            if i == 0 {
                assert(r[j] == u[j - 1]);
                assert(u.contains(u[j - 1]));
                lemma_member_of_insert(order, g, t, u[j - 1]);
                if u[j - 1] != g {
                    let m = choose|m: int| 0 <= m < t.len() && t[m] == u[j - 1];
                    assert(t[m] == s[m + 1]);
                }
            } else {
                assert(r[i] == u[i - 1] && r[j] == u[j - 1]);
            }
        }
    }
}

/// Arranging aggregates keeps their keys distinct.
pub proof fn lemma_sort_keys_distinct(order: GroupOrder, s: Seq<GroupView>)
    requires
        keys_distinct(s),
    ensures
        keys_distinct(sort_by_order(order, s)),
    decreases s.len(),
{
    if s.len() > 0 {
        let p = s.drop_last();
        assert forall|i: int, j: int| 0 <= i < j < p.len() implies (#[trigger] p[i]).entry_key != (#[trigger] p[j]).entry_key by {
            assert(p[i] == s[i] && p[j] == s[j]);
        }
        lemma_sort_keys_distinct(order, p);
        let sp = sort_by_order(order, p);
        assert forall|i: int| 0 <= i < sp.len() implies (#[trigger] sp[i]).entry_key != s.last().entry_key by {
            assert(sp.contains(sp[i]));
            lemma_member_of_sort(order, p, sp[i]);
            let m = choose|m: int| 0 <= m < p.len() && p[m] == sp[i];
            assert(s[m] == p[m]);
        }
        lemma_insert_keys_distinct(order, s.last(), sp);
    }
}

/// Every aggregate of a sorted sequence is one of the sequence's aggregates.
pub proof fn lemma_sorted_contains(order: GroupOrder, s: Seq<GroupView>, x: GroupView)
    requires
        sort_by_order(order, s).contains(x),
    ensures
        s.contains(x),
{
    lemma_member_of_sort(order, s, x);
}

fn max_text(a: &String, b: &String) -> (r: String)
    ensures
        r@ == text_max(a@, b@),
{
    if text_less(a.as_str(), b.as_str()) {
        b.clone()
    } else {
        a.clone()
    }
}

fn max_opt_text(a: &Option<String>, b: &Option<String>) -> (r: Option<String>)
    ensures
        opt_text(r) == opt_text_max(opt_text(*a), opt_text(*b)),
{
    match (a, b) {
        (Some(x), Some(y)) => Some(max_text(x, y)),
        (Some(x), None) => Some(x.clone()),
        (None, _) => copy_opt_string(b),
    }
}

fn max_opt_u32(a: Option<u32>, b: Option<u32>) -> (r: Option<u32>)
    ensures
        r == opt_u32_max(a, b),
{
    match (a, b) {
        (Some(x), Some(y)) => Some(if x < y { y } else { x }),
        (Some(x), None) => Some(x),
        (None, _) => b,
    }
}

fn max_opt_i64(a: Option<i64>, b: Option<i64>) -> (r: Option<i64>)
    ensures
        r == opt_i64_max(a, b),
{
    match (a, b) {
        (Some(x), Some(y)) => Some(if x < y { y } else { x }),
        (Some(x), None) => Some(x),
        (None, _) => b,
    }
}

impl Group {
    fn from_row(r: &EntryRow) -> (g: Group)
        ensures
            g@ == group_of_row(r@),
    {
        Group {
            entry_key: r.entry_key.clone(),
            min_id: r.id,
            max_kind: r.kind.clone(),
            max_content: r.content.clone(),
            max_image_path: copy_opt_string(&r.image_path),
            max_image_width: r.image_width,
            max_image_height: r.image_height,
            max_created_at: r.created_at,
            max_pinned: r.pinned,
            max_last_copied_at: r.last_copied_at,
            copy_sum: r.copy_count,
            overflow: false,
        }
    }

    fn add(&self, r: &EntryRow) -> (g: Group)
        ensures
            g@ == group_add(self@, r@),
    {
        let (copy_sum, overflow) = if self.overflow {
            (self.copy_sum, true)
        } else {
            match self.copy_sum.checked_add(r.copy_count) {
                Some(t) => (t, false),
                None => (self.copy_sum, true),
            }
        };
        Group {
            entry_key: self.entry_key.clone(),
            min_id: if r.id < self.min_id {
                r.id
            } else {
                self.min_id
            },
            max_kind: max_text(&self.max_kind, &r.kind),
            max_content: max_text(&self.max_content, &r.content),
            max_image_path: max_opt_text(&self.max_image_path, &r.image_path),
            max_image_width: max_opt_u32(self.max_image_width, r.image_width),
            max_image_height: max_opt_u32(self.max_image_height, r.image_height),
            max_created_at: if self.max_created_at < r.created_at {
                r.created_at
            } else {
                self.max_created_at
            },
            max_pinned: if self.max_pinned < r.pinned {
                r.pinned
            } else {
                self.max_pinned
            },
            max_last_copied_at: max_opt_i64(self.max_last_copied_at, r.last_copied_at),
            copy_sum,
            overflow,
        }
    }

    /// The entry that the history shows for this aggregate.
    pub fn to_entry(&self) -> (e: ClipboardEntry)
        ensures
            e@ == entry_of_group(self@),
    {
        ClipboardEntry {
            id: self.min_id,
            kind: kind_from_db(self.max_kind.clone()),
            content: self.max_content.clone(),
            image_path: copy_opt_string(&self.max_image_path),
            image_width: self.max_image_width,
            image_height: self.max_image_height,
            created_at: self.max_created_at,
            pinned: self.max_pinned == 1,
            last_copied_at: self.max_last_copied_at,
            copy_count: self.copy_sum,
        }
    }
}

fn find_group_index(gs: &Vec<Group>, key: &String) -> (r: Option<usize>)
    ensures
        match r {
            Some(i) => i < gs@.len() && find_group(groups_view(gs@), key@, 0) == i,
            None => find_group(groups_view(gs@), key@, 0) == -1,
        },
{
    let ghost gv = groups_view(gs@);
    let mut i: usize = 0;
    while i < gs.len()
        invariant
            i <= gs@.len(),
            gv == groups_view(gs@),
            find_group(gv, key@, 0) == find_group(gv, key@, i as int),
        decreases gs@.len() - i,
    {
        if gs[i].entry_key == *key {
            return Some(i);
        }
        i = i + 1;
    }
    None
}

fn selected(r: &EntryRow, filter: &Option<Vec<char>>) -> (b: bool)
    ensures
        b == row_selected(r@, match filter {
            Some(p) => Some(p@),
            None => None,
        }),
{
    match filter {
        None => true,
        Some(p) => {
            let content = chars_of(r.content.as_str());
            like_matches(p, &content)
        },
    }
}

pub open spec fn filter_view(filter: Option<Vec<char>>) -> Option<Seq<char>> {
    match filter {
        Some(p) => Some(p@),
        None => None,
    }
}

/// Gathers the selected rows by key, in the order in which keys first occur.
pub fn group_entries(rows: &Vec<EntryRow>, filter: &Option<Vec<char>>) -> (gs: Vec<Group>)
    ensures
        groups_view(gs@) == group_rows(rows_view(rows@), filter_view(*filter)),
{
    let ghost fv = filter_view(*filter);
    let mut gs: Vec<Group> = Vec::new();
    let mut i: usize = 0;
    while i < rows.len()
        invariant
            i <= rows@.len(),
            fv == filter_view(*filter),
            groups_view(gs@) == group_rows(rows_view(rows@.take(i as int)), fv),
        decreases rows@.len() - i,
    {
        let r = &rows[i];
        proof {
            assert(rows_view(rows@.take(i + 1)).drop_last() =~= rows_view(rows@.take(i as int)));
            assert(rows_view(rows@.take(i + 1)).last() == r@);
        }
        if selected(r, filter) {
            match find_group_index(&gs, &r.entry_key) {
                None => {
                    gs.push(Group::from_row(r));
                    proof {
                        assert(groups_view(gs@) =~= group_rows(rows_view(rows@.take(i as int)), fv).push(
                            group_of_row(r@),
                        ));
                    }
                },
                Some(k) => {
                    let g = gs[k].add(r);
                    gs.set(k, g);
                    proof {
                        let prev = group_rows(rows_view(rows@.take(i as int)), fv);
                        assert(groups_view(gs@) =~= prev.update(k as int, group_add(prev[k as int], r@)));
                    }
                },
            }
        }
        i = i + 1;
    }
    assert(rows@.take(rows@.len() as int) =~= rows@);
    gs
}


fn goes_first(order: GroupOrder, a: &Group, b: &Group) -> (r: bool)
    ensures
        r == precedes(order, a@, b@),
{
    match order {
        GroupOrder::Listing => a.max_pinned > b.max_pinned || (a.max_pinned == b.max_pinned
            && a.max_created_at > b.max_created_at),
        GroupOrder::Oldest => a.max_created_at < b.max_created_at,
    }
}

proof fn lemma_insert_at(order: GroupOrder, g: GroupView, s: Seq<GroupView>, p: int)
    requires
        0 <= p <= s.len(),
        forall|q: int| 0 <= q < p ==> !precedes(order, g, #[trigger] s[q]),
        p < s.len() ==> precedes(order, g, s[p]),
    ensures
        insert_ordered(order, g, s) == s.take(p).push(g) + s.skip(p),
    decreases p,
{
    if p == 0 {
        assert(s.skip(0) =~= s);
        if s.len() == 0 {
            assert(s.take(0).push(g) + s.skip(0) =~= seq![g]);
        } else {
            assert(s.take(0).push(g) + s.skip(0) =~= seq![g] + s);
        }
    } else {
        assert(!precedes(order, g, s[0]));
        let t = s.drop_first();
        assert forall|q: int| 0 <= q < p - 1 implies !precedes(order, g, #[trigger] t[q]) by {
            assert(t[q] == s[q + 1]);
        }
        if p - 1 < t.len() {
            assert(t[p - 1] == s[p]);
        }
        lemma_insert_at(order, g, t, p - 1);
        assert(seq![s[0]] + (t.take(p - 1).push(g) + t.skip(p - 1)) =~= s.take(p).push(g) + s.skip(p));
    }
}

/// The aggregates arranged in the given order, ties kept in their order.
pub fn sort_groups(gs: Vec<Group>, order: GroupOrder) -> (r: Vec<Group>)
    ensures
        groups_view(r@) == sort_by_order(order, groups_view(gs@)),
{
    let ghost orig = groups_view(gs@);
    let mut rest = gs;
    let mut sorted: Vec<Group> = Vec::new();
    let ghost mut done: int = 0;
    while rest.len() > 0
        invariant
            0 <= done <= orig.len(),
            groups_view(rest@) == orig.skip(done),
            groups_view(sorted@) == sort_by_order(order, orig.take(done)),
        decreases rest@.len(),
    {
        let ghost old_rest = groups_view(rest@);
        proof {
            assert(old_rest.len() == rest@.len());
            assert(old_rest[0] == rest@[0]@);
            assert(orig.skip(done)[0] == orig[done]);
        }
        let ghost old_vec = rest@;
        let g = rest.remove(0);
        proof {
            assert(rest@ =~= old_vec.subrange(1, old_vec.len() as int));
            assert forall|q: int| 0 <= q < rest@.len() implies #[trigger] groups_view(rest@)[q] == orig.skip(done + 1)[q] by {
                assert(groups_view(rest@)[q] == rest@[q]@);
                assert(rest@[q] == old_vec[q + 1]);
                assert(old_rest[q + 1] == old_vec[q + 1]@);
            }
            assert(groups_view(rest@) =~= orig.skip(done + 1));
            assert(g@ == orig[done]);
        }
        let mut p: usize = 0;
        while p < sorted.len() && !goes_first(order, &g, &sorted[p])
            invariant
                p <= sorted@.len(),
                forall|q: int| 0 <= q < p ==> !precedes(order, g@, #[trigger] groups_view(sorted@)[q]),
            decreases sorted@.len() - p,
        {
            p = p + 1;
        }
        proof {
            let sv = groups_view(sorted@);
            if p < sorted@.len() {
                assert(precedes(order, g@, sv[p as int]));
            }
            lemma_insert_at(order, g@, sv, p as int);
            assert(orig.take(done + 1).drop_last() =~= orig.take(done));
            assert(orig.take(done + 1).last() == g@);
        }
        let ghost before = groups_view(sorted@);
        sorted.insert(p, g);
        proof {
            assert(groups_view(sorted@) =~= before.take(p as int).push(g@) + before.skip(p as int));
            done = done + 1;
        }
    }
    proof {
        assert(orig.take(done) =~= orig);
    }
    sorted
}

/// The listing of the selected rows, at most `cap` entries; `None` when a
/// copy-count total leaves the range of `i64`.
pub fn list_entries(rows: &Vec<EntryRow>, filter: &Option<Vec<char>>, cap: usize) -> (r: Option<
    Vec<ClipboardEntry>,
>)
    ensures
        match r {
            Some(v) => listing(rows_view(rows@), filter_view(*filter), cap as int) == Some(
                entries_view(v@),
            ),
            None => listing(rows_view(rows@), filter_view(*filter), cap as int) is None,
        },
{
    let gs = group_entries(rows, filter);
    let ghost gv = groups_view(gs@);
    let mut i: usize = 0;
    while i < gs.len()
        invariant
            i <= gs@.len(),
            gv == groups_view(gs@),
            gv == group_rows(rows_view(rows@), filter_view(*filter)),
            forall|q: int| 0 <= q < i ==> !(#[trigger] gv[q]).overflow,
        decreases gs@.len() - i,
    {
        if gs[i].overflow {
            assert(gv[i as int].overflow);
            return None;
        }
        i = i + 1;
    }
    let sorted = sort_groups(gs, GroupOrder::Listing);
    let n = if cap < sorted.len() {
        cap
    } else {
        sorted.len()
    };
    let mut out: Vec<ClipboardEntry> = Vec::new();
    let mut k: usize = 0;
    while k < n
        invariant
            k <= n <= sorted@.len(),
            entries_view(out@) == groups_view(sorted@).take(k as int).map_values(
                |g: GroupView| entry_of_group(g),
            ),
        decreases n - k,
    {
        let e = sorted[k].to_entry();
        let ghost before = entries_view(out@);
        out.push(e);
        proof {
            assert(groups_view(sorted@)[k as int] == sorted@[k as int]@);
            assert(entries_view(out@) =~= before.push(e@));
            assert(entries_view(out@) =~= groups_view(sorted@).take(k + 1).map_values(
                |g: GroupView| entry_of_group(g),
            ));
        }
        k = k + 1;
    }
    Some(out)
}

} // verus!

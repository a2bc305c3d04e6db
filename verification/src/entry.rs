use vstd::prelude::*;

use crate::pattern::{ascii_fold, fold};
use crate::text::chars_of;

verus! {

/// What an entry of the history holds.
#[derive(Debug, Clone, Copy, PartialEq, Eq, Structural)]
pub enum ClipboardEntryKind {
    Text,
    Image,
}

/// One entry of the clipboard history as the user sees it.
#[derive(Debug)]
pub struct ClipboardEntry {
    pub id: i64,
    pub kind: ClipboardEntryKind,
    pub content: String,
    pub image_path: Option<String>,
    pub image_width: Option<u32>,
    pub image_height: Option<u32>,
    pub created_at: i64,
    pub pinned: bool,
    pub last_copied_at: Option<i64>,
    pub copy_count: i64,
}

/// One row of the entry table, with the columns as they are stored.
/// Rows that share an `entry_key` are one entry of the history.
#[derive(Debug)]
pub struct EntryRow {
    pub id: i64,
    pub kind: String,
    pub entry_key: String,
    pub content: String,
    pub image_path: Option<String>,
    pub image_width: Option<u32>,
    pub image_height: Option<u32>,
    pub created_at: i64,
    pub pinned: i64,
    pub last_copied_at: Option<i64>,
    pub copy_count: i64,
}

/// The mathematical value of a [`ClipboardEntry`].
pub struct EntryView {
    pub id: i64,
    pub kind: ClipboardEntryKind,
    pub content: Seq<char>,
    pub image_path: Option<Seq<char>>,
    pub image_width: Option<u32>,
    pub image_height: Option<u32>,
    pub created_at: i64,
    pub pinned: bool,
    pub last_copied_at: Option<i64>,
    pub copy_count: i64,
}

/// The mathematical value of an [`EntryRow`].
pub struct RowView {
    pub id: i64,
    pub kind: Seq<char>,
    pub entry_key: Seq<char>,
    pub content: Seq<char>,
    pub image_path: Option<Seq<char>>,
    pub image_width: Option<u32>,
    pub image_height: Option<u32>,
    pub created_at: i64,
    pub pinned: i64,
    pub last_copied_at: Option<i64>,
    pub copy_count: i64,
}

pub open spec fn opt_text(o: Option<String>) -> Option<Seq<char>> {
    match o {
        Some(s) => Some(s@),
        None => None,
    }
}

impl View for ClipboardEntry {
    type V = EntryView;

    open spec fn view(&self) -> EntryView {
        EntryView {
            id: self.id,
            kind: self.kind,
            content: self.content@,
            image_path: opt_text(self.image_path),
            image_width: self.image_width,
            image_height: self.image_height,
            created_at: self.created_at,
            pinned: self.pinned,
            last_copied_at: self.last_copied_at,
            copy_count: self.copy_count,
        }
    }
}

impl View for EntryRow {
    type V = RowView;

    open spec fn view(&self) -> RowView {
        RowView {
            id: self.id,
            kind: self.kind@,
            entry_key: self.entry_key@,
            content: self.content@,
            image_path: opt_text(self.image_path),
            image_width: self.image_width,
            image_height: self.image_height,
            created_at: self.created_at,
            pinned: self.pinned,
            last_copied_at: self.last_copied_at,
            copy_count: self.copy_count,
        }
    }
}

pub open spec fn image_word() -> Seq<char> {
    seq!['i', 'm', 'a', 'g', 'e']
}

pub open spec fn text_word() -> Seq<char> {
    seq!['t', 'e', 'x', 't']
}

/// The kind that a stored kind name stands for: `image` in any mix of ASCII
/// case is an image, everything else text.
pub open spec fn kind_of_name(v: Seq<char>) -> ClipboardEntryKind {
    if v.len() == 5 && forall|k: int| 0 <= k < 5 ==> ascii_fold(#[trigger] v[k]) == image_word()[k] {
        ClipboardEntryKind::Image
    } else {
        ClipboardEntryKind::Text
    }
}

/// The name under which a kind is stored.
pub open spec fn kind_name(kind: ClipboardEntryKind) -> Seq<char> {
    match kind {
        ClipboardEntryKind::Text => text_word(),
        ClipboardEntryKind::Image => image_word(),
    }
}

/// The entry that one row shows on its own.
pub open spec fn entry_of_row(r: RowView) -> EntryView {
    EntryView {
        id: r.id,
        kind: kind_of_name(r.kind),
        content: r.content,
        image_path: r.image_path,
        image_width: r.image_width,
        image_height: r.image_height,
        created_at: r.created_at,
        pinned: r.pinned == 1,
        last_copied_at: r.last_copied_at,
        copy_count: r.copy_count,
    }
}

/// The text `true` or `false`.
pub open spec fn bool_text(value: bool) -> Seq<char> {
    if value {
        seq!['t', 'r', 'u', 'e']
    } else {
        seq!['f', 'a', 'l', 's', 'e']
    }
}

/// Reads a stored kind name: `image`, compared without regard to ASCII case,
/// is an image; anything else is text.
pub fn kind_from_db(value: String) -> (r: ClipboardEntryKind)
    ensures
        r == kind_of_name(value@),
{
    let cs = chars_of(value.as_str());
    if cs.len() != 5 {
        return ClipboardEntryKind::Text;
    }
    let is_image = fold(cs[0]) == 'i' && fold(cs[1]) == 'm' && fold(cs[2]) == 'a'
        && fold(cs[3]) == 'g' && fold(cs[4]) == 'e';
    proof {
        if is_image {
            assert forall|k: int| 0 <= k < 5 implies ascii_fold(#[trigger] value@[k])
                == image_word()[k] by {
                if k == 0 {
                } else if k == 1 {
                } else if k == 2 {
                } else if k == 3 {
                } else {
                }
            }
        } else {
            if value@.len() == 5 && forall|k: int|
                0 <= k < 5 ==> ascii_fold(#[trigger] value@[k]) == image_word()[k] {
                assert(ascii_fold(value@[0]) == image_word()[0]);
                assert(ascii_fold(value@[1]) == image_word()[1]);
                assert(ascii_fold(value@[2]) == image_word()[2]);
                assert(ascii_fold(value@[3]) == image_word()[3]);
                assert(ascii_fold(value@[4]) == image_word()[4]);
            }
        }
    }
    if is_image {
        ClipboardEntryKind::Image
    } else {
        ClipboardEntryKind::Text
    }
}

/// The name under which a kind is stored: `text` or `image`.
pub fn kind_to_db(kind: &ClipboardEntryKind) -> (r: &'static str)
    ensures
        r@ == kind_name(*kind),
{
    match kind {
        ClipboardEntryKind::Text => {
            proof {
                reveal_strlit("text");
            }
            "text"
        },
        ClipboardEntryKind::Image => {
            proof {
                reveal_strlit("image");
            }
            "image"
        },
    }
}

/// `true` or `false`, as a setting is stored.
pub fn bool_to_string(value: bool) -> (r: String)
    ensures
        r@ == bool_text(value),
{
    if value {
        proof {
            reveal_strlit("true");
        }
        String::from_str("true")
    } else {
        proof {
            reveal_strlit("false");
        }
        String::from_str("false")
    }
}

/// A copy of an optional string.
pub fn copy_opt_string(o: &Option<String>) -> (r: Option<String>)
    ensures
        r == *o,
{
    match o {
        Some(s) => Some(s.clone()),
        None => None,
    }
}

impl EntryRow {
    /// A copy of the row.
    pub fn duplicate(&self) -> (r: EntryRow)
        ensures
            r == *self,
    {
        EntryRow {
            id: self.id,
            kind: self.kind.clone(),
            entry_key: self.entry_key.clone(),
            content: self.content.clone(),
            image_path: copy_opt_string(&self.image_path),
            image_width: self.image_width,
            image_height: self.image_height,
            created_at: self.created_at,
            pinned: self.pinned,
            last_copied_at: self.last_copied_at,
            copy_count: self.copy_count,
        }
    }

    /// The entry this row shows on its own.
    pub fn to_entry(&self) -> (r: ClipboardEntry)
        ensures
            r@ == entry_of_row(self@),
    {
        ClipboardEntry {
            id: self.id,
            kind: kind_from_db(self.kind.clone()),
            content: self.content.clone(),
            image_path: copy_opt_string(&self.image_path),
            image_width: self.image_width,
            image_height: self.image_height,
            created_at: self.created_at,
            pinned: self.pinned == 1,
            last_copied_at: self.last_copied_at,
            copy_count: self.copy_count,
        }
    }
}

} // verus!

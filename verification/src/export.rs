use vstd::prelude::*;

use crate::entry::{bool_text, bool_to_string, ClipboardEntry, EntryView};
use crate::numtext::{i64_to_string, signed_decimal_spec};
use crate::pattern::{ascii_fold, fold};
use crate::text::{chars_of, push_char, trim, trim_spec};

verus! {

/// The formats in which the history can be exported.
#[derive(Debug, Clone, Copy, PartialEq, Eq, Structural)]
pub enum ExportFormat {
    Csv,
    Json,
}

/// The first line of a CSV export.
pub open spec fn csv_header() -> Seq<char> {
    "id,content,created_at,pinned,last_copied_at,copy_count\n"@
}

/// `s` with every double quote doubled.
pub open spec fn csv_escape(s: Seq<char>) -> Seq<char>
    decreases s.len(),
{
    if s.len() == 0 {
        s
    } else if s.last() == '"' {
        csv_escape(s.drop_last()) + seq!['"', '"']
    } else {
        csv_escape(s.drop_last()).push(s.last())
    }
}

/// The CSV line of one entry: id, quoted content, creation time, pin flag,
/// last copy time (empty when never copied) and copy count.
pub open spec fn csv_line(e: EntryView) -> Seq<char> {
    signed_decimal_spec(e.id as int) + ",\""@ + csv_escape(e.content) + "\","@ + signed_decimal_spec(
        e.created_at as int,
    ) + ","@ + bool_text(e.pinned) + ","@ + match e.last_copied_at {
        Some(t) => signed_decimal_spec(t as int),
        None => Seq::empty(),
    } + ","@ + signed_decimal_spec(e.copy_count as int) + "\n"@
}

/// The lines of the entries, in order.
pub open spec fn csv_lines(es: Seq<EntryView>) -> Seq<char>
    decreases es.len(),
{
    if es.len() == 0 {
        Seq::empty()
    } else {
        csv_lines(es.drop_last()) + csv_line(es.last())
    }
}

/// The CSV export of the entries: the header, then one line per entry.
pub open spec fn csv_spec(es: Seq<EntryView>) -> Seq<char> {
    csv_header() + csv_lines(es)
}

fn push_escaped(out: &mut String, s: &String)
    ensures
        final(out)@ == old(out)@ + csv_escape(s@),
{
    let cs = chars_of(s.as_str());
    let mut i: usize = 0;
    while i < cs.len()
        invariant
            i <= cs@.len(),
            cs@ == s@,
            out@ == old(out)@ + csv_escape(cs@.take(i as int)),
        decreases cs@.len() - i,
    {
        proof {
            assert(cs@.take(i + 1).drop_last() =~= cs@.take(i as int));
            assert(cs@.take(i + 1).last() == cs@[i as int]);
        }
        let c = cs[i];
        if c == '"' {
            push_char(out, '"');
            push_char(out, '"');
            assert(out@ =~= old(out)@ + csv_escape(cs@.take(i + 1)));
        } else {
            push_char(out, c);
            assert(out@ =~= old(out)@ + csv_escape(cs@.take(i + 1)));
        }
        i = i + 1;
    }
    assert(cs@.take(cs@.len() as int) =~= cs@);
}

fn push_csv_line(out: &mut String, e: &ClipboardEntry)
    ensures
        final(out)@ == old(out)@ + csv_line(e@),
{
    out.append(i64_to_string(e.id).as_str());
    out.append(",\"");
    push_escaped(out, &e.content);
    out.append("\",");
    out.append(i64_to_string(e.created_at).as_str());
    out.append(",");
    out.append(bool_to_string(e.pinned).as_str());
    out.append(",");
    match e.last_copied_at {
        Some(t) => out.append(i64_to_string(t).as_str()),
        None => {},
    }
    out.append(",");
    out.append(i64_to_string(e.copy_count).as_str());
    out.append("\n");
    assert(out@ =~= old(out)@ + csv_line(e@));
}

/// The history as CSV: a header line, then one line per entry.
pub fn to_csv(entries: &[ClipboardEntry]) -> (r: String)
    ensures
        r@ == csv_spec(entries@.map_values(|e: ClipboardEntry| e@)),
{
    let mut output = String::from_str("id,content,created_at,pinned,last_copied_at,copy_count\n");
    let ghost ev = entries@.map_values(|e: ClipboardEntry| e@);
    let mut i: usize = 0;
    while i < entries.len()
        invariant
            i <= entries@.len(),
            ev == entries@.map_values(|e: ClipboardEntry| e@),
            output@ == csv_header() + csv_lines(ev.take(i as int)),
        decreases entries@.len() - i,
    {
        proof {
            assert(ev.take(i + 1).drop_last() =~= ev.take(i as int));
            assert(ev.take(i + 1).last() == entries@[i as int]@);
        }
        push_csv_line(&mut output, &entries[i]);
        assert(output@ =~= csv_header() + csv_lines(ev.take(i + 1)));
        i = i + 1;
    }
    assert(ev.take(entries@.len() as int) =~= ev);
    output
}

/// `s` with ASCII letters in lower case.
pub open spec fn ascii_lower(s: Seq<char>) -> Seq<char> {
    s.map_values(|c: char| ascii_fold(c))
}

/// The export format named by a request: `json` when none is given,
/// otherwise the name trimmed and compared without regard to ASCII case;
/// `None` for an unknown name.
pub open spec fn export_format_spec(name: Option<Seq<char>>) -> Option<ExportFormat> {
    let n = ascii_lower(
        trim_spec(
            match name {
                Some(s) => s,
                None => "json"@,
            },
        ),
    );
    if n == "csv"@ {
        Some(ExportFormat::Csv)
    } else if n == "json"@ {
        Some(ExportFormat::Json)
    } else {
        None
    }
}

pub open spec fn unsupported_format_message() -> Seq<char> {
    "unsupported export format"@
}

/// Reads the export format of a request (see [`export_format_spec`]); the
/// message `unsupported export format` for an unknown one.
pub fn parse_export_format(format: Option<String>) -> (r: Result<ExportFormat, String>)
    ensures
        match export_format_spec(
            match format {
                Some(s) => Some(s@),
                None => None,
            },
        ) {
            Some(f) => r == Ok::<ExportFormat, String>(f),
            None => r matches Err(m) && m@ == unsupported_format_message(),
        },
{
    let raw = match format {
        Some(s) => s,
        None => String::from_str("json"),
    };
    let trimmed = chars_of(trim(raw.as_str()).as_str());
    let mut lower = String::new();
    let mut i: usize = 0;
    while i < trimmed.len()
        invariant
            i <= trimmed@.len(),
            lower@ == ascii_lower(trimmed@.take(i as int)),
        decreases trimmed@.len() - i,
    {
        push_char(&mut lower, fold(trimmed[i]));
        assert(lower@ =~= ascii_lower(trimmed@.take(i + 1)));
        i = i + 1;
    }
    assert(trimmed@.take(trimmed@.len() as int) =~= trimmed@);
    let csv = String::from_str("csv");
    let json = String::from_str("json");
    if lower == csv {
        Ok(ExportFormat::Csv)
    } else if lower == json {
        Ok(ExportFormat::Json)
    } else {
        Err(String::from_str("unsupported export format"))
    }
}

/// The file extension of a format.
pub fn format_extension(format: ExportFormat) -> (r: &'static str)
    ensures
        r@ == match format {
            ExportFormat::Csv => "csv"@,
            ExportFormat::Json => "json"@,
        },
{
    match format {
        ExportFormat::Csv => "csv",
        ExportFormat::Json => "json",
    }
}

/// The name of the export file written at `timestamp`.
pub fn export_file_name(timestamp: i64, extension: &str) -> (r: String)
    ensures
        r@ == "clipstack-history-"@ + signed_decimal_spec(timestamp as int) + "."@ + extension@,
{
    let mut name = String::from_str("clipstack-history-");
    name.append(i64_to_string(timestamp).as_str());
    name.append(".");
    name.append(extension);
    name
}

} // verus!

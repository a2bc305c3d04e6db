use std::path::Path;

use vstd::prelude::*;

verus! {

/// Whether `c` separates the parts of a path on some platform (`/`
/// everywhere, `\` on Windows).
pub open spec fn is_separator(c: char) -> bool {
    c == '/' || c == '\\'
}

/// A path read the same way on every platform: no `\`, no `:` (so no
/// Windows drive or verbatim prefix), and not starting with two `/` (which
/// Windows reads as a network share).
pub open spec fn plain_path(p: Seq<char>) -> bool {
    &&& forall|i: int| 0 <= i < p.len() ==> #[trigger] p[i] != '\\' && p[i] != ':'
    &&& !(p.len() >= 2 && p[0] == '/' && p[1] == '/')
}

/// The pieces of `p` between its `/` separators, empty pieces included.
pub open spec fn slash_pieces(p: Seq<char>) -> Seq<Seq<char>>
    decreases p.len(),
{
    if p.len() == 0 {
        seq![Seq::empty()]
    } else {
        let rest = slash_pieces(p.drop_last());
        if p.last() == '/' {
            rest.push(Seq::empty())
        } else {
            rest.update(rest.len() - 1, rest.last().push(p.last()))
        }
    }
}

/// The components of a plain path as `Path::components` documents them:
/// whether it starts at the root, whether it starts with a `.` piece, and
/// its other pieces, where empty pieces (repeated or trailing separators)
/// and `.` pieces are left out.
pub open spec fn path_components(p: Seq<char>) -> (bool, bool, Seq<Seq<char>>) {
    let pieces = slash_pieces(p);
    let rooted = p.len() > 0 && p[0] == '/';
    (
        rooted,
        !rooted && pieces[0] == seq!['.'],
        pieces.filter(|s: Seq<char>| s.len() > 0 && s != seq!['.']),
    )
}

/// The text after the last `/` or `\` of `p`; all of `p` when it has neither.
pub open spec fn last_piece(p: Seq<char>) -> Seq<char>
    decreases p.len(),
{
    if p.len() == 0 {
        p
    } else if is_separator(p.last()) {
        Seq::empty()
    } else {
        last_piece(p.drop_last()).push(p.last())
    }
}

/// A last piece that is the path's final component on every platform: not
/// empty (the path does not end in a separator), not `.`, and without `:`
/// (so it is no Windows drive).
pub open spec fn name_piece(t: Seq<char>) -> bool {
    &&& t.len() > 0
    &&& t != seq!['.']
    &&& forall|i: int| 0 <= i < t.len() ==> #[trigger] t[i] != ':'
}

/// Whether `a` and `b` are the same path (`Path`'s `==`, which compares the
/// two paths' components). Claimed: a path is the same as itself; two
/// plain paths are the same exactly when their components agree; and two
/// paths whose last pieces are both names and differ are not the same, since
/// their final components differ. Beyond that, for paths with `\` or `:`
/// or starting with `//`, the answer depends on the platform and is not
/// stated.
#[verifier::external_body]
pub(crate) fn same_path(a: &String, b: &String) -> (r: bool)
    ensures
        a@ == b@ ==> r,
        plain_path(a@) && plain_path(b@) ==> (r <==> path_components(a@) == path_components(b@)),
        name_piece(last_piece(a@)) && name_piece(last_piece(b@)) && last_piece(a@) != last_piece(b@) ==> !r,
{
    Path::new(a.as_str()) == Path::new(b.as_str())
}

/// A file name that names a file in the directory it is joined to: not
/// empty, not `.` or `..`, and without separators or `:`.
pub open spec fn plain_file_name(name: Seq<char>) -> bool {
    &&& name.len() > 0
    &&& name != seq!['.']
    &&& name != seq!['.', '.']
    &&& forall|i: int| 0 <= i < name.len() ==> !is_separator(#[trigger] name[i]) && name[i] != ':'
}

/// A directory path with a Windows verbatim prefix (`\\?\`), which
/// `PathBuf::push` rewrites when it adds to it.
pub open spec fn verbatim_path(p: Seq<char>) -> bool {
    p.len() >= 4 && p[0] == '\\' && p[1] == '\\' && p[2] == '?' && p[3] == '\\'
}

/// `path` is the directory `dir`, one separator, and the file name `name`.
pub open spec fn joined_with_separator(dir: Seq<char>, name: Seq<char>, path: Seq<char>) -> bool {
    exists|c: char| is_separator(c) && path == dir + seq![c] + name
}

/// `path` is the directory `dir` joined with the file name `name`: the two
/// put together, with one separator between them or none.
pub open spec fn joined_path(dir: Seq<char>, name: Seq<char>, path: Seq<char>) -> bool {
    ||| path == dir + name
    ||| joined_with_separator(dir, name, path)
}

/// A directory to which a file name is joined with nothing between: empty,
/// or ending in `/`.
pub open spec fn ends_without_join(dir: Seq<char>) -> bool {
    dir.len() == 0 || dir.last() == '/'
}

/// A directory to which a file name is joined with a separator between: it
/// ends in neither separator and is not two characters ending in `:` (a bare
/// Windows drive).
pub open spec fn needs_separator(dir: Seq<char>) -> bool {
    &&& dir.len() > 0
    &&& !is_separator(dir.last())
    &&& !(dir.len() == 2 && dir[1] == ':')
}

/// `path` is a place where `Path::join` puts the file `name` of the
/// directory `dir` (see [`media_file_path`]); nothing is said of a directory
/// with a verbatim prefix.
pub open spec fn media_path_for(dir: Seq<char>, name: Seq<char>, path: Seq<char>) -> bool {
    !verbatim_path(dir) ==> {
        &&& joined_path(dir, name, path)
        &&& ends_without_join(dir) ==> path == dir + name
        &&& needs_separator(dir) ==> joined_with_separator(dir, name, path)
    }
}

/// `Path::join` of a directory and a file name, as text (`to_string_lossy`,
/// which loses nothing on text that came from a `String`). Claimed, as
/// `PathBuf::push` documents for a name that is neither absolute nor has a
/// prefix: the directory, at most one separator, then the name; no separator
/// after an empty directory or one that ends in `/`; and one after a
/// directory that ends in neither separator and is not two characters ending
/// in `:` (a bare Windows drive). Which separator is added depends on the
/// platform, and nothing is claimed for a directory with a verbatim prefix.
#[verifier::external_body]
pub(crate) fn media_file_path(dir: &String, file_name: &String) -> (r: String)
    requires
        plain_file_name(file_name@),
    ensures
        !verbatim_path(dir@) ==> joined_path(dir@, file_name@, r@),
        !verbatim_path(dir@) && ends_without_join(dir@) ==> r@ == dir@ + file_name@,
        !verbatim_path(dir@) && needs_separator(dir@) ==> joined_with_separator(dir@, file_name@, r@),
{
    Path::new(dir.as_str()).join(file_name.as_str()).to_string_lossy().to_string()
}

} // verus!

//! Names that a directory listing never shows.

use crate::text::{chars_of, matches_word, split, split_spans};
use vstd::prelude::*;

verus! {

/// Is `name` the name of a file that the system or a tool keeps for itself?
pub open spec fn is_system_name(name: Seq<char>) -> bool {
    ||| name == "."@
    ||| name == ".."@
    ||| name == ".DS_Store"@
    ||| name == ".chunks"@
    ||| name == "Thumbs.db"@
    ||| name == "__pycache__"@
    ||| name == ".git"@
    ||| name == ".svn"@
    ||| name == "node_modules"@
    ||| name == ".gitkeep"@
    ||| name == "desktop.ini"@
    ||| name == ".storkitty"@
}

/// The last piece of `path` between slashes: the file's own name.
pub open spec fn file_name_of(path: Seq<char>) -> Seq<char> {
    split(path, '/').last()
}

/// Decides whether the file at `path` is hidden from listings: whether its
/// own name, the part after the last slash, is a system name.
pub fn is_system_file(path: &str) -> (hidden: bool)
    ensures
        hidden == is_system_name(file_name_of(path@)),
{
    let v = chars_of(path);
    let spans = split_spans(&v, '/');
    let (from, to) = spans[spans.len() - 1];
    assert(v@.subrange(from as int, to as int) == file_name_of(path@));
    matches_word(&v, from, to, ".")
        || matches_word(&v, from, to, "..")
        || matches_word(&v, from, to, ".DS_Store")
        || matches_word(&v, from, to, ".chunks")
        || matches_word(&v, from, to, "Thumbs.db")
        || matches_word(&v, from, to, "__pycache__")
        || matches_word(&v, from, to, ".git")
        || matches_word(&v, from, to, ".svn")
        || matches_word(&v, from, to, "node_modules")
        || matches_word(&v, from, to, ".gitkeep")
        || matches_word(&v, from, to, "desktop.ini")
        || matches_word(&v, from, to, ".storkitty")
}

} // verus!

//! Validation of single names and of composite paths.
//!
//! Both checks are pure; they run before anything touches the file system or
//! the storage registry.

use crate::text::{
    byte_len, control, is_control, is_whitespace, lemma_byte_len_push, lemma_byte_len_take,
    matches_ignoring_case, same_ignoring_ascii_case, split, split_spans, chars_of, whitespace,
    width_of,
};
use vstd::prelude::*;

verus! {

/// Longest name accepted, in bytes.
pub const MAX_NAME_BYTES: usize = 255;

/// A character that separates path components on some system.
pub open spec fn is_separator(c: char) -> bool {
    c == '/' || c == '\\'
}

/// A character that no file name may hold.
pub open spec fn is_forbidden(c: char) -> bool {
    c == '<' || c == '>' || c == ':' || c == '"' || c == '|' || c == '?' || c == '*'
}

/// Is `name` the name of a device on some system, whatever the case of its
/// letters?
pub open spec fn is_device_name(name: Seq<char>) -> bool {
    ||| same_ignoring_ascii_case(name, "CON"@)
    ||| same_ignoring_ascii_case(name, "PRN"@)
    ||| same_ignoring_ascii_case(name, "AUX"@)
    ||| same_ignoring_ascii_case(name, "NUL"@)
    ||| same_ignoring_ascii_case(name, "COM1"@)
    ||| same_ignoring_ascii_case(name, "COM2"@)
    ||| same_ignoring_ascii_case(name, "COM3"@)
    ||| same_ignoring_ascii_case(name, "COM4"@)
    ||| same_ignoring_ascii_case(name, "COM5"@)
    ||| same_ignoring_ascii_case(name, "COM6"@)
    ||| same_ignoring_ascii_case(name, "COM7"@)
    ||| same_ignoring_ascii_case(name, "COM8"@)
    ||| same_ignoring_ascii_case(name, "COM9"@)
    ||| same_ignoring_ascii_case(name, "LPT1"@)
    ||| same_ignoring_ascii_case(name, "LPT2"@)
    ||| same_ignoring_ascii_case(name, "LPT3"@)
    ||| same_ignoring_ascii_case(name, "LPT4"@)
    ||| same_ignoring_ascii_case(name, "LPT5"@)
    ||| same_ignoring_ascii_case(name, "LPT6"@)
    ||| same_ignoring_ascii_case(name, "LPT7"@)
    ||| same_ignoring_ascii_case(name, "LPT8"@)
    ||| same_ignoring_ascii_case(name, "LPT9"@)
}

/// Is `name` one of the names that a system keeps for itself: `.`, `..` or
/// the name of a device?
pub open spec fn is_reserved(name: Seq<char>) -> bool {
    ||| same_ignoring_ascii_case(name, "."@)
    ||| same_ignoring_ascii_case(name, ".."@)
    ||| is_device_name(name)
}

/// Does `name` consist of white space only? (The empty name does.)
pub open spec fn is_blank(name: Seq<char>) -> bool {
    forall|i: int| 0 <= i < name.len() ==> is_whitespace(#[trigger] name[i])
}

/// Is every character of `name` free to stand in a file name?
pub open spec fn has_clean_chars(name: Seq<char>) -> bool {
    forall|i: int|
        0 <= i < name.len() ==> {
            &&& !is_separator(#[trigger] name[i])
            &&& !is_control(name[i])
            &&& !is_forbidden(name[i])
        }
}

/// A name that may be given to a file or a folder.
pub open spec fn name_valid(name: Seq<char>) -> bool {
    &&& name.len() > 0
    &&& !is_blank(name)
    &&& byte_len(name) <= MAX_NAME_BYTES
    &&& !is_reserved(name)
    &&& has_clean_chars(name)
    &&& name.last() != ' '
    &&& name.last() != '.'
}

/// Does `path` hold two dots in a row anywhere?
pub open spec fn has_dot_dot(path: Seq<char>) -> bool {
    exists|i: int| 0 <= i && i + 1 < path.len() && #[trigger] path[i] == '.' && path[i + 1] == '.'
}

/// Does `path` start in the user's home directory?
pub open spec fn is_home_relative(path: Seq<char>) -> bool {
    path.len() >= 2 && path[0] == '~' && path[1] == '/'
}

/// Does `path` start as a path on a drive does: with one character of one
/// byte and a colon, and something behind them?
pub open spec fn has_drive_prefix(path: Seq<char>) -> bool {
    path.len() > 2 && (path[0] as u32) < 0x80 && path[1] == ':'
}

/// Is every non-empty piece of `path` between slashes a valid name?
pub open spec fn segments_valid(path: Seq<char>) -> bool {
    forall|j: int|
        0 <= j < split(path, '/').len() && (#[trigger] split(path, '/')[j]).len() > 0
            ==> name_valid(split(path, '/')[j])
}

/// A path that may be followed below a storage root.
pub open spec fn path_valid(path: Seq<char>) -> bool {
    &&& path.len() > 0
    &&& !is_home_relative(path)
    &&& !has_drive_prefix(path)
    &&& !has_dot_dot(path)
    &&& segments_valid(path)
}

/// A valid name is one component of a path: it is not empty, it is neither
/// `.` nor `..`, and it holds no separator.
pub proof fn law_valid_name_is_one_component(name: Seq<char>)
    requires
        name_valid(name),
    ensures
        name.len() > 0,
        name != "."@,
        name != ".."@,
        forall|i: int| 0 <= i < name.len() ==> name[i] != '/' && name[i] != '\\',
{
    assert forall|i: int| 0 <= i < name.len() implies name[i] != '/' && name[i] != '\\' by {
        assert(!is_separator(name[i]));
    }
}

/// A valid path holds no `..`, whatever else it holds.
pub proof fn law_valid_path_has_no_dot_dot(path: Seq<char>)
    requires
        has_dot_dot(path),
    ensures
        !path_valid(path),
{
}

/// A letter or digit of ASCII, or one of `_`, `-` and `.`.
pub open spec fn is_plain_char(c: char) -> bool {
    ||| 'a' <= c <= 'z'
    ||| 'A' <= c <= 'Z'
    ||| '0' <= c <= '9'
    ||| c == '_'
    ||| c == '-'
    ||| c == '.'
}

/// Is `name` made of plain characters only?
pub open spec fn is_plain(name: Seq<char>) -> bool {
    forall|i: int| 0 <= i < name.len() ==> is_plain_char(#[trigger] name[i])
}

/// No reserved name is as long as `name` when that has five characters or
/// more.
pub(crate) proof fn lemma_long_name_not_reserved(name: Seq<char>)
    requires
        name.len() >= 5,
    ensures
        !is_reserved(name),
        !is_device_name(name),
{
    reveal_strlit(".");
    reveal_strlit("..");
    reveal_strlit("CON");
    reveal_strlit("PRN");
    reveal_strlit("AUX");
    reveal_strlit("NUL");
    reveal_strlit("COM1");
    reveal_strlit("COM2");
    reveal_strlit("COM3");
    reveal_strlit("COM4");
    reveal_strlit("COM5");
    reveal_strlit("COM6");
    reveal_strlit("COM7");
    reveal_strlit("COM8");
    reveal_strlit("COM9");
    reveal_strlit("LPT1");
    reveal_strlit("LPT2");
    reveal_strlit("LPT3");
    reveal_strlit("LPT4");
    reveal_strlit("LPT5");
    reveal_strlit("LPT6");
    reveal_strlit("LPT7");
    reveal_strlit("LPT8");
    reveal_strlit("LPT9");
}

/// A name of plain characters is valid when it is 5 to 255 characters long
/// and does not end in a dot.
pub(crate) proof fn lemma_plain_name_valid(name: Seq<char>)
    requires
        5 <= name.len() <= MAX_NAME_BYTES,
        is_plain(name),
        name.last() != '.',
    ensures
        name_valid(name),
{
    lemma_long_name_not_reserved(name);
    assert(is_plain_char(name[0]));
    assert(!is_whitespace(name[0]));
    assert(is_plain_char(name.last()));
    assert(vstd::utf8::is_ascii_chars(name)) by {
        assert forall|i: int| 0 <= i < name.len() implies '\0' <= #[trigger] name[i] <= '\u{7f}' by {
            assert(is_plain_char(name[i]));
        }
    }
    vstd::utf8::is_ascii_chars_encode_utf8(name);
    assert forall|i: int| 0 <= i < name.len() implies {
        &&& !is_separator(#[trigger] name[i])
        &&& !is_control(name[i])
        &&& !is_forbidden(name[i])
    } by {
        assert(is_plain_char(name[i]));
    }
}

/// Is `v[from..to]` the name of a device?
pub(crate) fn device_name_in(v: &Vec<char>, from: usize, to: usize) -> (yes: bool)
    requires
        from <= to <= v.len(),
    ensures
        yes == is_device_name(v@.subrange(from as int, to as int)),
{
    matches_ignoring_case(v, from, to, "CON")
        || matches_ignoring_case(v, from, to, "PRN")
        || matches_ignoring_case(v, from, to, "AUX")
        || matches_ignoring_case(v, from, to, "NUL")
        || matches_ignoring_case(v, from, to, "COM1")
        || matches_ignoring_case(v, from, to, "COM2")
        || matches_ignoring_case(v, from, to, "COM3")
        || matches_ignoring_case(v, from, to, "COM4")
        || matches_ignoring_case(v, from, to, "COM5")
        || matches_ignoring_case(v, from, to, "COM6")
        || matches_ignoring_case(v, from, to, "COM7")
        || matches_ignoring_case(v, from, to, "COM8")
        || matches_ignoring_case(v, from, to, "COM9")
        || matches_ignoring_case(v, from, to, "LPT1")
        || matches_ignoring_case(v, from, to, "LPT2")
        || matches_ignoring_case(v, from, to, "LPT3")
        || matches_ignoring_case(v, from, to, "LPT4")
        || matches_ignoring_case(v, from, to, "LPT5")
        || matches_ignoring_case(v, from, to, "LPT6")
        || matches_ignoring_case(v, from, to, "LPT7")
        || matches_ignoring_case(v, from, to, "LPT8")
        || matches_ignoring_case(v, from, to, "LPT9")
}

fn reserved(v: &Vec<char>, from: usize, to: usize) -> (yes: bool)
    requires
        from <= to <= v.len(),
    ensures
        yes == is_reserved(v@.subrange(from as int, to as int)),
{
    matches_ignoring_case(v, from, to, ".")
        || matches_ignoring_case(v, from, to, "..")
        || device_name_in(v, from, to)
}

fn blank(v: &Vec<char>, from: usize, to: usize) -> (yes: bool)
    requires
        from <= to <= v.len(),
    ensures
        yes == is_blank(v@.subrange(from as int, to as int)),
{
    let ghost name = v@.subrange(from as int, to as int);
    let mut i: usize = from;
    while i < to
        invariant
            from <= i <= to <= v.len(),
            name == v@.subrange(from as int, to as int),
            forall|k: int| 0 <= k < i - from ==> is_whitespace(#[trigger] name[k]),
        decreases to - i,
    {
        if !whitespace(v[i]) {
            assert(!is_whitespace(name[i - from]));
            return false;
        }
        i += 1;
    }
    true
}

fn fits(v: &Vec<char>, from: usize, to: usize) -> (yes: bool)
    requires
        from <= to <= v.len(),
    ensures
        yes == (byte_len(v@.subrange(from as int, to as int)) <= MAX_NAME_BYTES),
{
    let ghost name = v@.subrange(from as int, to as int);
    let mut bytes: usize = 0;
    let mut i: usize = from;
    proof {
        assert(name.take(0) == Seq::<char>::empty());
    }
    while i < to
        invariant
            from <= i <= to <= v.len(),
            name == v@.subrange(from as int, to as int),
            bytes == byte_len(name.take(i - from)),
            bytes <= MAX_NAME_BYTES,
        decreases to - i,
    {
        let w = width_of(v[i]);
        proof {
            assert(name.take(i - from + 1) == name.take(i - from).push(v@[i as int]));
            lemma_byte_len_push(name.take(i - from), v@[i as int]);
        }
        if bytes + w > MAX_NAME_BYTES {
            proof {
                lemma_byte_len_take(name, i - from + 1);
            }
            return false;
        }
        bytes = bytes + w;
        i += 1;
    }
    proof {
        assert(name.take(to - from) == name);
    }
    true
}

fn clean_chars(v: &Vec<char>, from: usize, to: usize) -> (yes: bool)
    requires
        from <= to <= v.len(),
    ensures
        yes == has_clean_chars(v@.subrange(from as int, to as int)),
{
    let ghost name = v@.subrange(from as int, to as int);
    let mut i: usize = from;
    while i < to
        invariant
            from <= i <= to <= v.len(),
            name == v@.subrange(from as int, to as int),
            forall|k: int|
                0 <= k < i - from ==> {
                    &&& !is_separator(#[trigger] name[k])
                    &&& !is_control(name[k])
                    &&& !is_forbidden(name[k])
                },
        decreases to - i,
    {
        let c = v[i];
        if c == '/' || c == '\\' || control(c) || c == '<' || c == '>' || c == ':' || c == '"'
            || c == '|' || c == '?' || c == '*' {
            assert(name[i - from] == c);
            return false;
        }
        i += 1;
    }
    true
}

/// Is `v[from..to]` a valid name?
pub(crate) fn valid_name_in(v: &Vec<char>, from: usize, to: usize) -> (ok: bool)
    requires
        from <= to <= v.len(),
    ensures
        ok == name_valid(v@.subrange(from as int, to as int)),
{
    if from == to {
        return false;
    }
    if blank(v, from, to) {
        return false;
    }
    if !fits(v, from, to) {
        return false;
    }
    if reserved(v, from, to) {
        return false;
    }
    if !clean_chars(v, from, to) {
        return false;
    }
    let last = v[to - 1];
    assert(v@.subrange(from as int, to as int).last() == last);
    last != ' ' && last != '.'
}

/// Decides whether `name` may be given to a file or a folder.
///
/// A name is refused when it is empty or blank, takes more than 255 bytes,
/// is a reserved name in any case of letters, holds a path separator, a
/// control character or one of `< > : " | ? *`, or ends in a space or a dot.
pub fn validate_name(name: &str) -> (ok: bool)
    ensures
        ok == name_valid(name@),
        byte_len(name@) > MAX_NAME_BYTES ==> !ok,
{
    let v = chars_of(name);
    assert(v@.subrange(0, v@.len() as int) == v@);
    valid_name_in(&v, 0, v.len())
}

fn dot_dot(v: &Vec<char>) -> (yes: bool)
    ensures
        yes == has_dot_dot(v@),
{
    if v.len() < 2 {
        return false;
    }
    let mut i: usize = 0;
    while i + 1 < v.len()
        invariant
            v.len() >= 2,
            0 <= i < v.len(),
            forall|k: int| 0 <= k < i ==> !(#[trigger] v@[k] == '.' && v@[k + 1] == '.'),
        decreases v.len() - i,
    {
        if v[i] == '.' && v[i + 1] == '.' {
            return true;
        }
        i += 1;
    }
    false
}

/// Decides whether `path` may be followed below a storage root.
///
/// A path is refused when it is empty, starts with `~/` or with a drive
/// letter, holds `..` anywhere, or has a non-empty piece between slashes
/// that is not a valid name.
pub fn validate_path(path: &str) -> (ok: bool)
    ensures
        ok == path_valid(path@),
        has_dot_dot(path@) ==> !ok,
{
    let v = chars_of(path);
    valid_path_chars(&v)
}

/// `validate_path` on characters already collected.
pub(crate) fn valid_path_chars(v: &Vec<char>) -> (ok: bool)
    ensures
        ok == path_valid(v@),
{
    if v.len() == 0 {
        return false;
    }
    if v.len() >= 2 && v[0] == '~' && v[1] == '/' {
        return false;
    }
    if v.len() > 2 && (v[0] as u32) < 0x80 && v[1] == ':' {
        return false;
    }
    if dot_dot(v) {
        return false;
    }
    let spans = split_spans(v, '/');
    let mut j: usize = 0;
    while j < spans.len()
        invariant
            0 <= j <= spans.len(),
            spans@.len() == split(v@, '/').len(),
            forall|k: int|
                0 <= k < spans@.len() ==> {
                    &&& (#[trigger] spans@[k]).0 <= spans@[k].1 <= v@.len()
                    &&& v@.subrange(spans@[k].0 as int, spans@[k].1 as int) == split(v@, '/')[k]
                },
            forall|k: int|
                0 <= k < j && (#[trigger] split(v@, '/')[k]).len() > 0 ==> name_valid(
                    split(v@, '/')[k],
                ),
        decreases spans.len() - j,
    {
        let (from, to) = spans[j];
        assert(spans@[j as int].0 == from && spans@[j as int].1 == to);
        if from < to && !valid_name_in(v, from, to) {
            assert(split(v@, '/')[j as int].len() > 0);
            assert(!name_valid(split(v@, '/')[j as int]));
            return false;
        }
        j += 1;
    }
    true
}

} // verus!

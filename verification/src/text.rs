//! Character-level helpers shared by the validators and parsers.
//!
//! Strings are modelled by their sequence of characters. The executable
//! helpers work on a `Vec<char>` so that every position is reached in
//! constant time.

use vstd::prelude::*;
use vstd::std_specs::iter::IteratorSpec;
use vstd::utf8::{encode_scalar, encode_utf8};

verus! {

/// Number of bytes that `c` takes in UTF-8.
pub open spec fn char_width(c: char) -> nat {
    encode_scalar(c as u32).len()
}

/// Number of bytes that `s` takes in UTF-8: what `str::len` reports.
pub open spec fn byte_len(s: Seq<char>) -> nat {
    encode_utf8(s).len()
}

/// The pieces of `s` between occurrences of `sep`, in order. There is always
/// at least one piece; a separator at either end gives an empty piece there.
pub open spec fn split(s: Seq<char>, sep: char) -> Seq<Seq<char>>
    decreases s.len(),
{
    if s.len() == 0 {
        seq![Seq::<char>::empty()]
    } else {
        let before = split(s.drop_last(), sep);
        if s.last() == sep {
            before.push(Seq::<char>::empty())
        } else {
            before.drop_last().push(before.last().push(s.last()))
        }
    }
}

/// The pieces of `parts` put back together with `sep` between neighbours.
pub open spec fn join(parts: Seq<Seq<char>>, sep: char) -> Seq<char>
    decreases parts.len(),
{
    if parts.len() == 0 {
        Seq::<char>::empty()
    } else if parts.len() == 1 {
        parts[0]
    } else {
        join(parts.drop_last(), sep).push(sep) + parts.last()
    }
}

/// Position of the first `c` in `s`, or the length of `s` where there is none.
pub open spec fn first_index_of(s: Seq<char>, c: char) -> int
    decreases s.len(),
{
    if s.len() == 0 {
        0
    } else if s[0] == c {
        0
    } else {
        1 + first_index_of(s.drop_first(), c)
    }
}

/// `c` with an ASCII capital letter replaced by its small letter.
pub open spec fn ascii_lower(c: char) -> char {
    if 'A' <= c <= 'Z' {
        ((c as u32) + 32) as char
    } else {
        c
    }
}

/// Equality of two strings up to the case of ASCII letters.
pub open spec fn same_ignoring_ascii_case(a: Seq<char>, b: Seq<char>) -> bool {
    &&& a.len() == b.len()
    &&& forall|i: int| 0 <= i < a.len() ==> ascii_lower(#[trigger] a[i]) == ascii_lower(b[i])
}

/// White space as Unicode defines it: what `str::trim` removes.
pub open spec fn is_whitespace(c: char) -> bool {
    let code = c as u32;
    ||| 0x09 <= code <= 0x0d
    ||| code == 0x20
    ||| code == 0x85
    ||| code == 0xa0
    ||| code == 0x1680
    ||| 0x2000 <= code <= 0x200a
    ||| code == 0x2028
    ||| code == 0x2029
    ||| code == 0x202f
    ||| code == 0x205f
    ||| code == 0x3000
}

/// A control code: the C0 block, DEL and the C1 block.
pub open spec fn is_control(c: char) -> bool {
    let code = c as u32;
    code <= 0x1f || 0x7f <= code <= 0x9f
}

/// `s` without the white space at its start.
pub open spec fn trim_start(s: Seq<char>) -> Seq<char>
    decreases s.len(),
{
    if s.len() > 0 && is_whitespace(s[0]) {
        trim_start(s.drop_first())
    } else {
        s
    }
}

/// `s` without the white space at its end.
pub open spec fn trim_end(s: Seq<char>) -> Seq<char>
    decreases s.len(),
{
    if s.len() > 0 && is_whitespace(s.last()) {
        trim_end(s.drop_last())
    } else {
        s
    }
}

/// `s` without the white space at either end.
pub open spec fn trim(s: Seq<char>) -> Seq<char> {
    trim_end(trim_start(s))
}

/// `s` without the run of `c` at its start.
pub open spec fn strip_leading(s: Seq<char>, c: char) -> Seq<char>
    decreases s.len(),
{
    if s.len() > 0 && s[0] == c {
        strip_leading(s.drop_first(), c)
    } else {
        s
    }
}

/// `split` never returns an empty list, and no piece holds the separator.
pub proof fn law_split_pieces(s: Seq<char>, sep: char)
    ensures
        split(s, sep).len() >= 1,
        forall|j: int, k: int|
            0 <= j < split(s, sep).len() && 0 <= k < split(s, sep)[j].len() ==> #[trigger] split(
                s,
                sep,
            )[j][k] != sep,
    decreases s.len(),
{
    if s.len() > 0 {
        law_split_pieces(s.drop_last(), sep);
    }
}

/// Joining the pieces of a split gives the string back.
pub proof fn law_join_inverts_split(s: Seq<char>, sep: char)
    ensures
        join(split(s, sep), sep) == s,
    decreases s.len(),
{
    if s.len() > 0 {
        let t = s.drop_last();
        let before = split(t, sep);
        law_join_inverts_split(t, sep);
        law_split_pieces(t, sep);
        if s.last() == sep {
            let after = before.push(Seq::<char>::empty());
            assert(after.drop_last() == before);
            assert(join(after, sep) == join(before, sep).push(sep) + Seq::<char>::empty());
            assert(join(before, sep).push(sep) == s);
        } else {
            let grown = before.last().push(s.last());
            let after = before.drop_last().push(grown);
            if before.len() == 1 {
                assert(before[0] == t);
                assert(after[0] == s);
            } else {
                assert(after.drop_last() == before.drop_last());
                assert(join(before, sep) == join(before.drop_last(), sep).push(sep)
                    + before.last());
                assert(join(after, sep) == join(before.drop_last(), sep).push(sep) + grown);
                assert(join(after, sep) == (join(before.drop_last(), sep).push(sep)
                    + before.last()).push(s.last()));
                assert(t.push(s.last()) == s);
            }
        }
    }
}

/// A piece of a split stands in the text between two positions; the last
/// piece reaches to the end of the text.
pub(crate) proof fn lemma_piece_span(s: Seq<char>, sep: char, j: int) -> (span: (int, int))
    requires
        0 <= j < split(s, sep).len(),
    ensures
        0 <= span.0 <= span.1 <= s.len(),
        split(s, sep)[j] == s.subrange(span.0, span.1),
        j == split(s, sep).len() - 1 ==> span.1 == s.len(),
    decreases s.len(),
{
    if s.len() == 0 {
        assert(s.subrange(0, 0) == Seq::<char>::empty());
        (0, 0)
    } else {
        let head = s.drop_last();
        let before = split(head, sep);
        law_split_pieces(head, sep);
        if s.last() == sep {
            if j == before.len() {
                assert(s.subrange(s.len() as int, s.len() as int) == Seq::<char>::empty());
                (s.len() as int, s.len() as int)
            } else {
                let inner = lemma_piece_span(head, sep, j);
                assert(head.subrange(inner.0, inner.1) == s.subrange(inner.0, inner.1));
                inner
            }
        } else {
            let inner = lemma_piece_span(head, sep, j);
            if j == before.len() - 1 {
                assert(head.subrange(inner.0, head.len() as int).push(s.last()) == s.subrange(
                    inner.0,
                    s.len() as int,
                ));
                (inner.0, s.len() as int)
            } else {
                assert(head.subrange(inner.0, inner.1) == s.subrange(inner.0, inner.1));
                inner
            }
        }
    }
}

/// Every character of a text that is not the separator stands in one of the
/// pieces of the split.
pub(crate) proof fn lemma_char_in_piece(s: Seq<char>, sep: char, k: int) -> (at: (int, int))
    requires
        0 <= k < s.len(),
        s[k] != sep,
    ensures
        0 <= at.0 < split(s, sep).len(),
        0 <= at.1 < split(s, sep)[at.0].len(),
        split(s, sep)[at.0][at.1] == s[k],
    decreases s.len(),
{
    let head = s.drop_last();
    let before = split(head, sep);
    law_split_pieces(head, sep);
    if k == s.len() - 1 {
        (before.len() - 1, before.last().len() as int)
    } else {
        let inner = lemma_char_in_piece(head, sep, k);
        inner
    }
}

/// The pieces of a text that holds the separator at `at` are the pieces of
/// what stands before it, followed by the pieces of what stands behind it.
pub(crate) proof fn lemma_split_at_separator(s: Seq<char>, sep: char, at: int)
    requires
        0 <= at < s.len(),
        s[at] == sep,
    ensures
        split(s, sep) == split(s.take(at), sep) + split(s.skip(at + 1), sep),
    decreases s.len(),
{
    let head = s.drop_last();
    let behind = s.skip(at + 1);
    let first = split(s.take(at), sep);
    if s.len() == at + 1 {
        assert(head == s.take(at));
        assert(behind == Seq::<char>::empty());
        assert(split(s, sep) =~= first + split(behind, sep));
    } else {
        lemma_split_at_separator(head, sep, at);
        assert(head.take(at) == s.take(at));
        assert(behind.drop_last() == head.skip(at + 1));
        assert(behind.last() == s.last());
        let second = split(head.skip(at + 1), sep);
        law_split_pieces(head.skip(at + 1), sep);
        assert(split(head, sep) == first + second);
        if s.last() == sep {
            assert(split(s, sep) =~= first + second.push(Seq::<char>::empty()));
        } else {
            assert((first + second).drop_last() =~= first + second.drop_last());
            assert((first + second).last() == second.last());
            assert(split(s, sep) =~= first + second.drop_last().push(
                second.last().push(s.last()),
            ));
        }
    }
}

/// Trimming at the start leaves the text from some position on, and only
/// white space stands before that position.
pub(crate) proof fn lemma_trim_start_span(s: Seq<char>) -> (from: int)
    ensures
        0 <= from <= s.len(),
        trim_start(s) == s.skip(from),
        forall|k: int| 0 <= k < from ==> is_whitespace(#[trigger] s[k]),
    decreases s.len(),
{
    if s.len() > 0 && is_whitespace(s[0]) {
        let inner = lemma_trim_start_span(s.drop_first());
        assert(s.drop_first().skip(inner) == s.skip(inner + 1));
        assert forall|k: int| 0 <= k < inner + 1 implies is_whitespace(#[trigger] s[k]) by {
            if k > 0 {
                assert(s[k] == s.drop_first()[k - 1]);
            }
        }
        inner + 1
    } else {
        assert(s.skip(0) == s);
        0
    }
}

/// Trimming at the end leaves the text up to some position: all of it
/// where it does not end in white space.
pub(crate) proof fn lemma_trim_end_span(s: Seq<char>) -> (to: int)
    ensures
        0 <= to <= s.len(),
        trim_end(s) == s.take(to),
        s.len() > 0 && !is_whitespace(s.last()) ==> to == s.len(),
    decreases s.len(),
{
    if s.len() > 0 && is_whitespace(s.last()) {
        let inner = lemma_trim_end_span(s.drop_last());
        assert(s.drop_last().take(inner) == s.take(inner));
        inner
    } else {
        assert(s.take(s.len() as int) == s);
        s.len() as int
    }
}

/// Stripping a run at the start leaves the text from some position on.
pub(crate) proof fn lemma_strip_leading_span(s: Seq<char>, c: char) -> (from: int)
    ensures
        0 <= from <= s.len(),
        strip_leading(s, c) == s.skip(from),
    decreases s.len(),
{
    if s.len() > 0 && s[0] == c {
        let inner = lemma_strip_leading_span(s.drop_first(), c);
        assert(s.drop_first().skip(inner) == s.skip(inner + 1));
        inner + 1
    } else {
        assert(s.skip(0) == s);
        0
    }
}

/// Where `first_index_of` points, and that nothing before it is `c`.
pub(crate) proof fn lemma_first_index_bounds(s: Seq<char>, c: char)
    ensures
        0 <= first_index_of(s, c) <= s.len(),
        first_index_of(s, c) < s.len() ==> s[first_index_of(s, c)] == c,
        forall|k: int| 0 <= k < first_index_of(s, c) ==> #[trigger] s[k] != c,
    decreases s.len(),
{
    if s.len() > 0 && s[0] != c {
        let rest = s.drop_first();
        lemma_first_index_bounds(rest, c);
        assert forall|k: int| 0 <= k < first_index_of(s, c) implies #[trigger] s[k] != c by {
            if k > 0 {
                assert(s[k] == rest[k - 1]);
            }
        }
    }
}

/// The first position that holds `c` is where `first_index_of` points.
pub(crate) proof fn lemma_first_index_is(s: Seq<char>, c: char, at: int)
    requires
        0 <= at <= s.len(),
        forall|k: int| 0 <= k < at ==> #[trigger] s[k] != c,
        at < s.len() ==> s[at] == c,
    ensures
        first_index_of(s, c) == at,
{
    lemma_first_index_bounds(s, c);
    let found = first_index_of(s, c);
    if found < at {
        assert(s[found] == c);
    } else if found > at {
        assert(s[at] != c);
    }
}

/// Appending one character adds its width to the byte length.
pub(crate) proof fn lemma_byte_len_push(s: Seq<char>, c: char)
    ensures
        byte_len(s.push(c)) == byte_len(s) + char_width(c),
    decreases s.len(),
{
    let t = s.push(c);
    if s.len() == 0 {
        assert(t.drop_first() == Seq::<char>::empty());
        assert(encode_utf8(t.drop_first()).len() == 0);
        assert(t[0] == c);
    } else {
        assert(t.drop_first() == s.drop_first().push(c));
        assert(t[0] == s[0]);
        lemma_byte_len_push(s.drop_first(), c);
    }
}

/// The byte length of a prefix never exceeds that of the whole.
pub(crate) proof fn lemma_byte_len_take(s: Seq<char>, n: int)
    requires
        0 <= n <= s.len(),
    ensures
        byte_len(s.take(n)) <= byte_len(s),
    decreases s.len() - n,
{
    if n < s.len() {
        lemma_byte_len_take(s, n + 1);
        assert(s.take(n + 1) == s.take(n).push(s[n]));
        lemma_byte_len_push(s.take(n), s[n]);
    } else {
        assert(s.take(n) == s);
    }
}

/// Collects the characters of `s` into a vector.
pub(crate) fn chars_of(s: &str) -> (v: Vec<char>)
    ensures
        v@ == s@,
{
    let mut v: Vec<char> = Vec::new();
    let mut it = s.chars();
    loop
        invariant
            it.obeys_prophetic_iter_laws(),
            it.decrease() is Some,
            v@ + it.remaining() == s@,
        ensures
            v@ == s@,
        decreases it.decrease()->0,
    {
        match it.next() {
            Some(c) => {
                v.push(c);
            },
            None => {
                break ;
            },
        }
    }
    v
}

/// Builds a string from the characters of `v` in `from..to`.
pub(crate) fn string_of(v: &Vec<char>, from: usize, to: usize) -> (s: String)
    requires
        from <= to <= v.len(),
    ensures
        s@ == v@.subrange(from as int, to as int),
{
    let mut s = String::new();
    let mut i: usize = from;
    while i < to
        invariant
            from <= i <= to <= v.len(),
            s@ == v@.subrange(from as int, i as int),
        decreases to - i,
    {
        s.push(v[i]);
        i += 1;
    }
    s
}

/// Number of UTF-8 bytes of one character.
pub(crate) fn width_of(c: char) -> (w: usize)
    ensures
        w == char_width(c),
        1 <= w <= 4,
{
    let code: u32 = c as u32;
    if code < 0x80 {
        1
    } else if code < 0x800 {
        2
    } else if code < 0x10000 {
        3
    } else {
        4
    }
}

/// Code point of `c` after lowering an ASCII capital letter.
pub(crate) fn lower_code(c: char) -> (code: u32)
    ensures
        code == ascii_lower(c) as u32,
{
    let code: u32 = c as u32;
    if 65 <= code && code <= 90 {
        code + 32
    } else {
        code
    }
}

/// Is `v[from..to]` equal to `word`, up to the case of ASCII letters?
pub(crate) fn matches_ignoring_case(v: &Vec<char>, from: usize, to: usize, word: &str) -> (same: bool)
    requires
        from <= to <= v.len(),
    ensures
        same == same_ignoring_ascii_case(v@.subrange(from as int, to as int), word@),
{
    let w = chars_of(word);
    if w.len() != to - from {
        return false;
    }
    let ghost a = v@.subrange(from as int, to as int);
    let mut i: usize = 0;
    while i < w.len()
        invariant
            from <= to <= v.len(),
            w.len() == to - from,
            w@ == word@,
            a == v@.subrange(from as int, to as int),
            0 <= i <= w.len(),
            forall|k: int| 0 <= k < i ==> ascii_lower(#[trigger] a[k]) == ascii_lower(w@[k]),
        decreases w.len() - i,
    {
        if lower_code(v[from + i]) != lower_code(w[i]) {
            assert(ascii_lower(a[i as int]) != ascii_lower(w@[i as int]));
            return false;
        }
        i += 1;
    }
    true
}

/// Is `v[from..to]` exactly `word`?
pub(crate) fn matches_word(v: &Vec<char>, from: usize, to: usize, word: &str) -> (same: bool)
    requires
        from <= to <= v.len(),
    ensures
        same == (v@.subrange(from as int, to as int) == word@),
{
    let w = chars_of(word);
    if w.len() != to - from {
        return false;
    }
    let ghost a = v@.subrange(from as int, to as int);
    let mut i: usize = 0;
    while i < w.len()
        invariant
            from <= to <= v.len(),
            w.len() == to - from,
            w@ == word@,
            a == v@.subrange(from as int, to as int),
            0 <= i <= w.len(),
            forall|k: int| 0 <= k < i ==> #[trigger] a[k] == w@[k],
        decreases w.len() - i,
    {
        if v[from + i] != w[i] {
            assert(a[i as int] != w@[i as int]);
            return false;
        }
        i += 1;
    }
    assert(a =~= w@);
    true
}

/// Does `char::is_whitespace` hold of `c`?
pub(crate) fn whitespace(c: char) -> (yes: bool)
    ensures
        yes == is_whitespace(c),
{
    let code: u32 = c as u32;
    (0x09 <= code && code <= 0x0d) || code == 0x20 || code == 0x85 || code == 0xa0 || code
        == 0x1680 || (0x2000 <= code && code <= 0x200a) || code == 0x2028 || code == 0x2029
        || code == 0x202f || code == 0x205f || code == 0x3000
}

/// Does `char::is_control` hold of `c`?
pub(crate) fn control(c: char) -> (yes: bool)
    ensures
        yes == is_control(c),
{
    let code: u32 = c as u32;
    code <= 0x1f || (0x7f <= code && code <= 0x9f)
}

/// The pieces of `v` between occurrences of `sep`, each as a pair of
/// positions: where it starts and where it ends.
pub(crate) fn split_spans(v: &Vec<char>, sep: char) -> (spans: Vec<(usize, usize)>)
    ensures
        spans@.len() == split(v@, sep).len(),
        forall|j: int|
            0 <= j < spans@.len() ==> {
                &&& (#[trigger] spans@[j]).0 <= spans@[j].1 <= v@.len()
                &&& v@.subrange(spans@[j].0 as int, spans@[j].1 as int) == split(v@, sep)[j]
            },
{
    let mut spans: Vec<(usize, usize)> = Vec::new();
    let mut start: usize = 0;
    let mut i: usize = 0;
    proof {
        assert(v@.take(0) == Seq::<char>::empty());
        assert(v@.subrange(0, 0) == Seq::<char>::empty());
    }
    while i < v.len()
        invariant
            0 <= start <= i <= v.len(),
            spans@.len() + 1 == split(v@.take(i as int), sep).len(),
            split(v@.take(i as int), sep).last() == v@.subrange(start as int, i as int),
            forall|j: int|
                0 <= j < spans@.len() ==> {
                    &&& (#[trigger] spans@[j]).0 <= spans@[j].1 <= v@.len()
                    &&& v@.subrange(spans@[j].0 as int, spans@[j].1 as int) == split(
                        v@.take(i as int),
                        sep,
                    )[j]
                },
        decreases v.len() - i,
    {
        let c = v[i];
        proof {
            let next = v@.take(i as int + 1);
            assert(next.drop_last() == v@.take(i as int));
            assert(next.last() == c);
            assert(v@.subrange(start as int, i as int).push(c) == v@.subrange(
                start as int,
                i as int + 1,
            ));
            assert(v@.subrange(i as int + 1, i as int + 1) == Seq::<char>::empty());
        }
        if c == sep {
            spans.push((start, i));
            start = i + 1;
        }
        i += 1;
    }
    proof {
        assert(v@.take(v@.len() as int) == v@);
    }
    spans.push((start, i));
    spans
}

} // verus!

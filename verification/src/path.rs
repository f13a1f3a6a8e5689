//! Splitting a request path into the storage it names and the rest.

use crate::text::{
    chars_of, first_index_of, is_whitespace, lemma_first_index_bounds, lemma_first_index_is,
    lemma_strip_leading_span, lemma_trim_end_span, lemma_trim_start_span, string_of,
    strip_leading, trim, trim_end, trim_start, whitespace,
};
use vstd::prelude::*;

verus! {

/// The part of a request path that is looked at: without white space at
/// either end, and then without the slashes it starts with.
pub open spec fn request_body(path: Seq<char>) -> Seq<char> {
    strip_leading(trim(path), '/')
}

/// The storage that a request path names: what stands before the first slash.
pub open spec fn storage_part(path: Seq<char>) -> Seq<char> {
    let body = request_body(path);
    body.take(first_index_of(body, '/'))
}

/// The path below the storage: what follows the first slash, if there is one.
pub open spec fn relative_part(path: Seq<char>) -> Option<Seq<char>> {
    let body = request_body(path);
    let at = first_index_of(body, '/');
    if at < body.len() {
        Some(body.skip(at + 1))
    } else {
        None
    }
}

/// The characters of an optional string.
pub open spec fn option_view(s: Option<String>) -> Option<Seq<char>> {
    match s {
        Some(s) => Some(s@),
        None => None,
    }
}

/// The path below the storage stands in the request path between two
/// positions. A slash stands before it, and it reaches to the end of the
/// request path where that does not end in white space.
pub(crate) proof fn lemma_relative_part_span(path: Seq<char>) -> (span: (int, int))
    requires
        relative_part(path) is Some,
    ensures
        1 <= span.0 <= span.1 <= path.len(),
        relative_part(path)->0 == path.subrange(span.0, span.1),
        path[span.0 - 1] == '/',
        !is_whitespace(path.last()) ==> span.1 == path.len(),
{
    let from = lemma_trim_start_span(path);
    let started = path.skip(from);
    let to = lemma_trim_end_span(started);
    let trimmed = started.take(to);
    let skipped = lemma_strip_leading_span(trimmed, '/');
    let body = trimmed.skip(skipped);
    lemma_first_index_bounds(body, '/');
    let at = first_index_of(body, '/');
    assert(body.skip(at + 1) == path.subrange(from + skipped + at + 1, from + to));
    assert(body[at] == path[from + skipped + at]);
    if !is_whitespace(path.last()) {
        assert(from < path.len());
        assert(started.last() == path.last());
    }
    (from + skipped + at + 1, from + to)
}

/// Splits a request path into the storage it names and the path below it.
///
/// White space at either end and slashes at the start are dropped first.
/// The second part is `None` where no slash follows the storage's name.
pub fn split_path(path: &str) -> (parts: (String, Option<String>))
    ensures
        parts.0@ == storage_part(path@),
        option_view(parts.1) == relative_part(path@),
{
    let v = chars_of(path);
    let n = v.len();
    let mut from: usize = 0;
    assert(v@.skip(0) == v@);
    while from < n && whitespace(v[from])
        invariant
            0 <= from <= n == v.len(),
            trim_start(v@) == trim_start(v@.skip(from as int)),
        decreases n - from,
    {
        proof {
            assert(v@.skip(from as int).drop_first() == v@.skip(from as int + 1));
        }
        from += 1;
    }
    let ghost started = v@.skip(from as int);
    assert(trim_start(v@) == started);
    let mut to: usize = n;
    proof {
        assert(started.take(n - from) == started);
    }
    while to > from && whitespace(v[to - 1])
        invariant
            from <= to <= n == v.len(),
            started == v@.skip(from as int),
            trim_end(started) == trim_end(started.take(to - from)),
        decreases to - from,
    {
        proof {
            assert(started.take(to - from).last() == v@[to - 1]);
            assert(started.take(to - from).drop_last() == started.take(to - from - 1));
        }
        to -= 1;
    }
    let ghost trimmed = v@.subrange(from as int, to as int);
    proof {
        assert(started.take(to - from) == trimmed);
        if to > from {
            assert(trimmed.last() == v@[to - 1]);
        }
        assert(trim(v@) == trimmed);
    }
    while from < to && v[from] == '/'
        invariant
            from <= to <= n == v.len(),
            strip_leading(trimmed, '/') == strip_leading(v@.subrange(from as int, to as int), '/'),
        decreases to - from,
    {
        proof {
            assert(v@.subrange(from as int, to as int).drop_first() == v@.subrange(
                from as int + 1,
                to as int,
            ));
        }
        from += 1;
    }
    let ghost body = v@.subrange(from as int, to as int);
    assert(request_body(v@) == body);
    let mut at: usize = from;
    while at < to && v[at] != '/'
        invariant
            from <= at <= to <= n == v.len(),
            body == v@.subrange(from as int, to as int),
            forall|k: int| 0 <= k < at - from ==> #[trigger] body[k] != '/',
        decreases to - at,
    {
        at += 1;
    }
    proof {
        lemma_first_index_is(body, '/', at - from);
        assert(body.take(at - from) == v@.subrange(from as int, at as int));
    }
    let storage = string_of(&v, from, at);
    if at < to {
        proof {
            assert(body.skip(at - from + 1) == v@.subrange(at as int + 1, to as int));
        }
        let rest = string_of(&v, at + 1, to);
        (storage, Some(rest))
    } else {
        (storage, None)
    }
}

} // verus!

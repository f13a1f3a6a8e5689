//! Paths that are bound to a storage root.
//!
//! A [`SafePath`] keeps the root it belongs to and, apart from it, the names
//! that lead from the root to the target. No name in that list is empty,
//! holds `..` or a separator, or is the name of a device, so the path it
//! stands for cannot leave the root.

use crate::error::AppError;
use crate::text::{
    chars_of, law_split_pieces, lemma_char_in_piece, lemma_piece_span, split, split_spans,
    string_of,
};
use crate::validate::{
    device_name_in, has_dot_dot, is_device_name, is_plain, is_separator,
    lemma_long_name_not_reserved, name_valid, path_valid, valid_path_chars,
};
use vstd::prelude::*;
use vstd::string::StringExecFns;

verus! {

/// What a [`SafePath`] stands for: a root and the names below it.
pub struct SafePathView {
    pub root: Seq<char>,
    pub segments: Seq<Seq<char>>,
}

/// Is a separator needed between `base` and a name that follows it?
pub open spec fn needs_separator(base: Seq<char>) -> bool {
    base.len() > 0 && base.last() != '/'
}

/// `base` with the component `name` behind it.
pub open spec fn push_component(base: Seq<char>, name: Seq<char>) -> Seq<char> {
    if needs_separator(base) {
        base.push('/') + name
    } else {
        base + name
    }
}

/// The path that leads from `root` along `segments`.
pub open spec fn resolve_under(root: Seq<char>, segments: Seq<Seq<char>>) -> Seq<char>
    decreases segments.len(),
{
    if segments.len() == 0 {
        root
    } else {
        push_component(resolve_under(root, segments.drop_last()), segments.last())
    }
}

/// `parts` without its empty members.
pub open spec fn drop_empty(parts: Seq<Seq<char>>) -> Seq<Seq<char>>
    decreases parts.len(),
{
    if parts.len() == 0 {
        parts
    } else if parts.last().len() == 0 {
        drop_empty(parts.drop_last())
    } else {
        drop_empty(parts.drop_last()).push(parts.last())
    }
}

/// The names that `path` leads through: its non-empty pieces between slashes.
pub open spec fn components(path: Seq<char>) -> Seq<Seq<char>> {
    drop_empty(split(path, '/'))
}

/// Does `name` hold no separator?
pub open spec fn has_no_separator(name: Seq<char>) -> bool {
    forall|i: int| 0 <= i < name.len() ==> !is_separator(#[trigger] name[i])
}

/// May `name` be one step of a path below a root? It may unless it is
/// empty, holds two dots in a row or a separator, or is the name of a
/// device.
pub open spec fn is_component(name: Seq<char>) -> bool {
    &&& name.len() > 0
    &&& !has_dot_dot(name)
    &&& has_no_separator(name)
    &&& !is_device_name(name)
}

/// Is every member of `names` a component?
pub open spec fn all_components(names: Seq<Seq<char>>) -> bool {
    forall|i: int| 0 <= i < names.len() ==> is_component(#[trigger] names[i])
}

impl SafePathView {
    /// The absolute form of the path.
    pub open spec fn resolved(self) -> Seq<char> {
        resolve_under(self.root, self.segments)
    }

    /// The path that `child` leads to from here.
    pub open spec fn joined(self, child: Seq<char>) -> SafePathView {
        SafePathView { root: self.root, segments: self.segments + components(child) }
    }

    /// Does the path lead through components only?
    pub open spec fn wf(self) -> bool {
        all_components(self.segments)
    }
}

/// The characters of each string of `names`.
pub open spec fn views_of(names: Seq<String>) -> Seq<Seq<char>> {
    Seq::new(names.len(), |i: int| names[i]@)
}

/// A path below a storage root.
pub struct SafePath {
    root: String,
    segments: Vec<String>,
}

impl View for SafePath {
    type V = SafePathView;

    closed spec fn view(&self) -> SafePathView {
        SafePathView { root: self.root@, segments: views_of(self.segments@) }
    }
}

/// Every member of `drop_empty(parts)` is a non-empty member of `parts`.
pub(crate) proof fn lemma_drop_empty_members(parts: Seq<Seq<char>>)
    ensures
        forall|i: int|
            0 <= i < drop_empty(parts).len() ==> (#[trigger] drop_empty(parts)[i]).len() > 0
                && parts.contains(drop_empty(parts)[i]),
    decreases parts.len(),
{
    if parts.len() > 0 {
        let head = parts.drop_last();
        lemma_drop_empty_members(head);
        assert forall|i: int| 0 <= i < drop_empty(parts).len() implies (#[trigger] drop_empty(
            parts,
        )[i]).len() > 0 && parts.contains(drop_empty(parts)[i]) by {
            if i < drop_empty(head).len() {
                let found = drop_empty(head)[i];
                assert(head.contains(found));
                let at = choose|at: int| 0 <= at < head.len() && head[at] == found;
                assert(parts[at] == found);
            } else {
                assert(parts[parts.len() - 1] == parts.last());
            }
        }
    }
}

/// Every non-empty member of `parts` is kept by `drop_empty`.
proof fn lemma_drop_empty_keeps(parts: Seq<Seq<char>>, at: int)
    requires
        0 <= at < parts.len(),
        parts[at].len() > 0,
    ensures
        drop_empty(parts).contains(parts[at]),
    decreases parts.len(),
{
    let head = parts.drop_last();
    if at == parts.len() - 1 {
        assert(drop_empty(parts).last() == parts[at]);
    } else {
        lemma_drop_empty_keeps(head, at);
        let w = choose|w: int| 0 <= w < drop_empty(head).len() && drop_empty(head)[w] == head[at];
        assert(drop_empty(parts)[w] == parts[at]);
    }
}

/// A text holds neither two dots in a row nor a backslash.
pub open spec fn is_tidy(text: Seq<char>) -> bool {
    &&& !has_dot_dot(text)
    &&& forall|k: int| 0 <= k < text.len() ==> #[trigger] text[k] != '\\'
}

/// A valid path is tidy.
pub(crate) proof fn lemma_valid_path_is_tidy(path: Seq<char>)
    requires
        path_valid(path),
    ensures
        is_tidy(path),
{
    assert forall|k: int| 0 <= k < path.len() implies #[trigger] path[k] != '\\' by {
        if path[k] != '/' {
            let at = lemma_char_in_piece(path, '/', k);
            let piece = split(path, '/')[at.0];
            assert(name_valid(piece));
            assert(!is_separator(piece[at.1]));
        }
    }
}

/// The components of a part of a tidy text are not empty and hold neither
/// two dots in a row nor a separator.
pub(crate) proof fn lemma_components_of_part(text: Seq<char>, from: int, to: int)
    requires
        is_tidy(text),
        0 <= from <= to <= text.len(),
    ensures
        forall|i: int|
            0 <= i < components(text.subrange(from, to)).len() ==> {
                &&& (#[trigger] components(text.subrange(from, to))[i]).len() > 0
                &&& !has_dot_dot(components(text.subrange(from, to))[i])
                &&& has_no_separator(components(text.subrange(from, to))[i])
            },
{
    let part = text.subrange(from, to);
    let parts = split(part, '/');
    lemma_drop_empty_members(parts);
    law_split_pieces(part, '/');
    assert forall|i: int| 0 <= i < components(part).len() implies {
        &&& (#[trigger] components(part)[i]).len() > 0
        &&& !has_dot_dot(components(part)[i])
        &&& has_no_separator(components(part)[i])
    } by {
        let name = components(part)[i];
        assert(parts.contains(name));
        let j = choose|j: int| 0 <= j < parts.len() && parts[j] == name;
        let span = lemma_piece_span(part, '/', j);
        assert(name == text.subrange(from + span.0, from + span.1));
        assert forall|k: int| 0 <= k < name.len() implies !is_separator(#[trigger] name[k]) by {
            assert(parts[j][k] != '/');
            assert(name[k] == text[from + span.0 + k]);
        }
        if has_dot_dot(name) {
            let k = choose|k: int|
                0 <= k && k + 1 < name.len() && #[trigger] name[k] == '.' && name[k + 1] == '.';
            assert(text[from + span.0 + k] == '.' && text[from + span.0 + k + 1] == '.');
        }
    }
}

/// The components of a valid path may all be steps of a path.
pub(crate) proof fn lemma_components_valid(path: Seq<char>)
    requires
        path_valid(path),
    ensures
        all_components(components(path)),
{
    let parts = split(path, '/');
    lemma_drop_empty_members(parts);
    lemma_valid_path_is_tidy(path);
    lemma_components_of_part(path, 0, path.len() as int);
    assert(path.subrange(0, path.len() as int) == path);
    assert forall|i: int| 0 <= i < components(path).len() implies is_component(
        #[trigger] components(path)[i],
    ) by {
        let name = components(path)[i];
        assert(parts.contains(name));
        let at = choose|at: int| 0 <= at < parts.len() && parts[at] == name;
        assert(parts[at].len() > 0);
        assert(name_valid(name));
    }
}

/// A name of five plain characters or more is a component if no dot stands
/// in it behind the first place.
pub(crate) proof fn lemma_plain_name_is_component(name: Seq<char>)
    requires
        name.len() >= 5,
        is_plain(name),
        forall|i: int| 1 <= i < name.len() ==> #[trigger] name[i] != '.',
    ensures
        is_component(name),
{
    lemma_long_name_not_reserved(name);
    assert forall|i: int| 0 <= i < name.len() implies !is_separator(#[trigger] name[i]) by {
        assert(crate::validate::is_plain_char(name[i]));
    }
    if has_dot_dot(name) {
        let k = choose|k: int|
            0 <= k && k + 1 < name.len() && #[trigger] name[k] == '.' && name[k + 1] == '.';
        assert(name[k + 1] != '.');
    }
}

/// A path along more names starts with the path along the first of them.
pub(crate) proof fn lemma_resolve_prefix(root: Seq<char>, first: Seq<Seq<char>>, more: Seq<Seq<char>>)
    ensures
        resolve_under(root, first).is_prefix_of(resolve_under(root, first + more)),
        root.is_prefix_of(resolve_under(root, first)),
    decreases more.len(),
{
    lemma_root_prefix(root, first);
    if more.len() == 0 {
        assert(first + more == first);
    } else {
        let all = first + more;
        assert(all.drop_last() == first + more.drop_last());
        lemma_resolve_prefix(root, first, more.drop_last());
        let inner = resolve_under(root, all.drop_last());
        assert(inner.is_prefix_of(push_component(inner, all.last())));
    }
}

proof fn lemma_root_prefix(root: Seq<char>, segments: Seq<Seq<char>>)
    ensures
        root.is_prefix_of(resolve_under(root, segments)),
    decreases segments.len(),
{
    if segments.len() > 0 {
        lemma_root_prefix(root, segments.drop_last());
        let inner = resolve_under(root, segments.drop_last());
        assert(inner.is_prefix_of(push_component(inner, segments.last())));
    }
}

/// Joining a valid child to a well-formed path gives a well-formed path of
/// the same root, whose absolute form starts with the root and with the
/// absolute form of the path joined to.
pub proof fn law_join_stays_under_root(base: SafePathView, child: Seq<char>)
    requires
        base.wf(),
        path_valid(child),
    ensures
        base.joined(child).wf(),
        base.joined(child).root == base.root,
        base.root.is_prefix_of(base.joined(child).resolved()),
        base.resolved().is_prefix_of(base.joined(child).resolved()),
{
    lemma_components_valid(child);
    lemma_resolve_prefix(base.root, base.segments, components(child));
    lemma_root_prefix(base.root, base.joined(child).segments);
}

impl SafePath {
    #[verifier::type_invariant]
    spec fn holds_components(self) -> bool {
        all_components(views_of(self.segments@))
    }

    /// The path of the root itself.
    pub fn new(root: String) -> (path: SafePath)
        ensures
            path@.root == root@,
            path@.segments == Seq::<Seq<char>>::empty(),
            path@.wf(),
    {
        let path = SafePath { root, segments: Vec::new() };
        assert(path@.segments =~= Seq::<Seq<char>>::empty());
        path
    }

    /// Joins `input` to this path. The input is validated as a path first;
    /// the new path keeps the root of this one.
    pub fn safe_join(&self, input: &str) -> (joined: Result<SafePath, AppError>)
        ensures
            self@.wf(),
            match joined {
                Ok(path) => path_valid(input@) && path@ == self@.joined(input@) && path@.wf(),
                Err(e) => !path_valid(input@) && e == AppError::InvalidPath,
            },
    {
        proof {
            use_type_invariant(self);
        }
        let v = chars_of(input);
        if !valid_path_chars(&v) {
            return Err(AppError::InvalidPath);
        }
        proof {
            lemma_components_valid(input@);
        }
        match self.extended(&v) {
            Some(path) => Ok(path),
            None => Err(AppError::InvalidPath),
        }
    }

    /// The absolute form of this path.
    pub fn get_path(&self) -> (path: String)
        ensures
            path@ == self@.resolved(),
            self@.root.is_prefix_of(path@),
            self@.wf(),
    {
        proof {
            use_type_invariant(self);
            lemma_root_prefix(self@.root, self@.segments);
        }
        let mut path = self.root.clone();
        let root_chars = chars_of(self.root.as_str());
        let mut separate = root_chars.len() > 0 && root_chars[root_chars.len() - 1] != '/';
        let mut i: usize = 0;
        assert(self@.segments.take(0) == Seq::<Seq<char>>::empty());
        while i < self.segments.len()
            invariant
                0 <= i <= self.segments.len(),
                all_components(self@.segments),
                self@.segments.len() == self.segments.len(),
                path@ == resolve_under(self@.root, self@.segments.take(i as int)),
                separate == needs_separator(path@),
            decreases self.segments.len() - i,
        {
            let ghost name = self@.segments[i as int];
            proof {
                assert(self@.segments.take(i as int + 1).drop_last() == self@.segments.take(
                    i as int,
                ));
                assert(self@.segments.take(i as int + 1).last() == name);
                assert(is_component(name));
                assert(!is_separator(name.last()));
                assert(self.segments@[i as int]@ == name);
            }
            if separate {
                path.push('/');
            }
            path.append(self.segments[i].as_str());
            proof {
                assert(path@.last() == name.last());
            }
            separate = true;
            i += 1;
        }
        assert(self@.segments.take(self.segments.len() as int) == self@.segments);
        path
    }

    /// The root that this path is bound to.
    pub fn root(&self) -> (root: String)
        ensures
            root@ == self@.root,
    {
        self.root.clone()
    }

    /// The last name of the path; `None` for the root itself.
    pub fn last_name(&self) -> (name: Option<String>)
        ensures
            match name {
                Some(name) => self@.segments.len() > 0 && name@ == self@.segments.last(),
                None => self@.segments.len() == 0,
            },
    {
        if self.segments.len() == 0 {
            None
        } else {
            Some(self.segments[self.segments.len() - 1].clone())
        }
    }

    /// A copy of this path.
    pub fn duplicate(&self) -> (copy: SafePath)
        ensures
            copy@ == self@,
            copy@.wf(),
    {
        proof {
            use_type_invariant(self);
        }
        let segments = copy_names(&self.segments);
        assert(views_of(segments@) =~= views_of(self.segments@));
        SafePath { root: self.root.clone(), segments }
    }

    /// This path with the component `name` behind it.
    pub(crate) fn child(&self, name: &str) -> (longer: SafePath)
        requires
            is_component(name@),
        ensures
            longer@.root == self@.root,
            longer@.segments == self@.segments.push(name@),
            longer@.wf(),
    {
        proof {
            use_type_invariant(self);
        }
        let mut segments = copy_names(&self.segments);
        let ghost before = views_of(segments@);
        segments.push(String::from_str(name));
        assert(views_of(segments@) =~= before.push(name@));
        SafePath { root: self.root.clone(), segments }
    }

    /// This path with the components of `v` behind it, unless one of them
    /// may not be a step of a path.
    pub(crate) fn extended(&self, v: &Vec<char>) -> (longer: Option<SafePath>)
        ensures
            self@.wf(),
            longer is Some == all_components(components(v@)),
            longer matches Some(path) ==> path@ == self@.joined(v@) && path@.wf(),
    {
        proof {
            use_type_invariant(self);
        }
        let mut segments = copy_names(&self.segments);
        let spans = split_spans(v, '/');
        let ghost parts = split(v@, '/');
        let mut j: usize = 0;
        proof {
            assert(parts.take(0) == Seq::<Seq<char>>::empty());
            assert(views_of(segments@) =~= self@.segments + drop_empty(parts.take(0)));
        }
        while j < spans.len()
            invariant
                0 <= j <= spans.len(),
                parts == split(v@, '/'),
                spans@.len() == parts.len(),
                forall|k: int|
                    0 <= k < spans@.len() ==> {
                        &&& (#[trigger] spans@[k]).0 <= spans@[k].1 <= v@.len()
                        &&& v@.subrange(spans@[k].0 as int, spans@[k].1 as int) == parts[k]
                    },
                all_components(self@.segments),
                all_components(drop_empty(parts.take(j as int))),
                views_of(segments@) == self@.segments + drop_empty(parts.take(j as int)),
            decreases spans.len() - j,
        {
            let (from, to) = spans[j];
            proof {
                assert(spans@[j as int].0 == from && spans@[j as int].1 == to);
                assert(parts.take(j as int + 1).drop_last() == parts.take(j as int));
                assert(parts.take(j as int + 1).last() == parts[j as int]);
            }
            if from < to {
                if !component_in(v, from, to) {
                    proof {
                        lemma_drop_empty_keeps(parts, j as int);
                        let w = choose|w: int|
                            0 <= w < components(v@).len() && components(v@)[w] == parts[j as int];
                        assert(!is_component(components(v@)[w]));
                    }
                    return None;
                }
                let name = string_of(v, from, to);
                let ghost before = views_of(segments@);
                segments.push(name);
                proof {
                    assert(views_of(segments@) =~= before.push(parts[j as int]));
                    assert(views_of(segments@) =~= self@.segments + drop_empty(
                        parts.take(j as int + 1),
                    ));
                }
            }
            j += 1;
        }
        proof {
            assert(parts.take(parts.len() as int) == parts);
        }
        Some(SafePath { root: self.root.clone(), segments })
    }
}

/// May `v[from..to]` be one step of a path below a root?
pub(crate) fn component_in(v: &Vec<char>, from: usize, to: usize) -> (ok: bool)
    requires
        from <= to <= v.len(),
    ensures
        ok == is_component(v@.subrange(from as int, to as int)),
{
    if from == to {
        return false;
    }
    let ghost name = v@.subrange(from as int, to as int);
    let mut i: usize = from;
    while i < to
        invariant
            from <= i <= to <= v.len(),
            from < to,
            name == v@.subrange(from as int, to as int),
            forall|k: int| 0 <= k < i - from ==> !is_separator(#[trigger] name[k]),
            forall|k: int|
                0 <= k && k + 1 < i - from ==> !(#[trigger] name[k] == '.' && name[k + 1] == '.'),
        decreases to - i,
    {
        let c = v[i];
        assert(name[i - from] == c);
        if c == '/' || c == '\\' {
            return false;
        }
        if c == '.' && i > from && v[i - 1] == '.' {
            assert(name[i - from - 1] == '.' && name[i - from] == '.');
            return false;
        }
        i += 1;
    }
    !device_name_in(v, from, to)
}

/// A copy of `names`.
pub(crate) fn copy_names(names: &Vec<String>) -> (copy: Vec<String>)
    ensures
        views_of(copy@) == views_of(names@),
{
    let mut copy: Vec<String> = Vec::new();
    let mut i: usize = 0;
    while i < names.len()
        invariant
            0 <= i <= names.len(),
            copy@.len() == i,
            forall|k: int| 0 <= k < i ==> (#[trigger] copy@[k])@ == names@[k]@,
        decreases names.len() - i,
    {
        copy.push(names[i].clone());
        i += 1;
    }
    assert(views_of(copy@) =~= views_of(names@));
    copy
}

} // verus!

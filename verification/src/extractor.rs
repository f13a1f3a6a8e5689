//! From a request path to a path below a storage root.
//!
//! A request path names a storage and, after the first slash, a path below
//! it. It is validated before anything else happens; then the storage is
//! looked up, and the path below it is bound to the storage's root.

use crate::error::{AppError, ErrorKind};
use crate::path::{
    lemma_relative_part_span, option_view, relative_part, split_path, storage_part,
};
use crate::safe_path::{
    all_components, components, is_component, lemma_components_of_part,
    lemma_drop_empty_members, lemma_resolve_prefix, lemma_valid_path_is_tidy, SafePath,
    SafePathView,
};
use crate::storage::{find_storage, Registry, StorageDatabase};
use crate::text::{chars_of, is_whitespace, lemma_split_at_separator, split};
use crate::validate::{is_device_name, name_valid, path_valid, validate_path};
use vstd::prelude::*;

verus! {

/// A request path that passed validation, in its two parts.
pub struct StorageRequest {
    /// The name of the storage.
    pub storage: String,
    /// The path below the storage, where the request gives one.
    pub relative: Option<String>,
}

/// The target of a request.
pub struct StoragePath(pub SafePath);

/// The target of a request together with the root of its storage.
pub struct Storage {
    pub path: SafePath,
    pub root: String,
}

/// The names that lead from the root to the target.
pub open spec fn relative_components(relative: Option<Seq<char>>) -> Seq<Seq<char>> {
    match relative {
        Some(path) => components(path),
        None => Seq::empty(),
    }
}

/// What binding a relative path to the looked-up storage gives.
pub open spec fn binding(found: Option<StorageDatabase>, relative: Option<Seq<char>>) -> Result<
    SafePathView,
    AppError,
> {
    match found {
        None => Err(AppError::StorageNotFound),
        Some(storage) => if storage.disabled {
            Err(AppError::StorageDisabled)
        } else if !all_components(relative_components(relative)) {
            Err(AppError::InvalidPath)
        } else {
            Ok(
                SafePathView {
                    root: storage.local_path@,
                    segments: relative_components(relative),
                },
            )
        },
    }
}

/// What resolving the request path `raw` against the records `rows` gives.
pub open spec fn resolution(rows: Seq<StorageDatabase>, raw: Seq<char>) -> Result<
    SafePathView,
    AppError,
> {
    if !path_valid(raw) {
        Err(AppError::InvalidStoragePath)
    } else {
        binding(find_storage(rows, storage_part(raw)), relative_part(raw))
    }
}

/// The record that a lookup returned, as a value.
pub open spec fn found_record(found: Option<&StorageDatabase>) -> Option<StorageDatabase> {
    match found {
        Some(storage) => Some(*storage),
        None => None,
    }
}

/// Does `resolved` report what `expected` says?
pub open spec fn reports(resolved: Result<Storage, AppError>, expected: Result<
    SafePathView,
    AppError,
>) -> bool {
    match resolved {
        Ok(storage) => expected == Ok::<SafePathView, AppError>(storage.path@)
            && storage.root@ == storage.path@.root && storage.path@.wf(),
        Err(e) => expected == Err::<SafePathView, AppError>(e),
    }
}

/// A request under a disabled storage is refused as forbidden, whatever
/// path it gives below the storage.
pub proof fn law_disabled_storage_is_forbidden(rows: Seq<StorageDatabase>, raw: Seq<char>)
    requires
        path_valid(raw),
        find_storage(rows, storage_part(raw)) is Some,
        find_storage(rows, storage_part(raw))->0.disabled,
    ensures
        resolution(rows, raw) == Err::<SafePathView, AppError>(AppError::StorageDisabled),
        AppError::StorageDisabled.kind_of() == ErrorKind::Forbidden,
{
}

/// Does none of `names` name a device?
pub open spec fn names_no_device(names: Seq<Seq<char>>) -> bool {
    forall|i: int| 0 <= i < names.len() ==> !is_device_name(#[trigger] names[i])
}

/// A request path that passed validation is resolved whenever its storage is
/// there and enabled: the target is the root of the storage followed by the
/// components of the path below the storage. The one exception is a path
/// that, once the white space at its end is dropped, runs through the name
/// of a device: that one is refused as `InvalidPath`.
pub proof fn law_valid_request_resolves(rows: Seq<StorageDatabase>, raw: Seq<char>)
    requires
        path_valid(raw),
        find_storage(rows, storage_part(raw)) is Some,
        !find_storage(rows, storage_part(raw))->0.disabled,
    ensures
        names_no_device(relative_components(relative_part(raw))) ==> resolution(rows, raw) == Ok::<
            SafePathView,
            AppError,
        >(
            SafePathView {
                root: find_storage(rows, storage_part(raw))->0.local_path@,
                segments: relative_components(relative_part(raw)),
            },
        ),
        !names_no_device(relative_components(relative_part(raw))) ==> resolution(rows, raw) == Err::<
            SafePathView,
            AppError,
        >(AppError::InvalidPath),
{
    let names = relative_components(relative_part(raw));
    if relative_part(raw) is Some {
        let span = lemma_relative_part_span(raw);
        lemma_valid_path_is_tidy(raw);
        lemma_components_of_part(raw, span.0, span.1);
    }
    if names_no_device(names) {
        assert forall|i: int| 0 <= i < names.len() implies is_component(#[trigger] names[i]) by {
            assert(!is_device_name(names[i]));
        }
    } else {
        let i = choose|i: int| 0 <= i < names.len() && is_device_name(#[trigger] names[i]);
        assert(!is_component(names[i]));
    }
}

/// A request path that passed validation and does not end in white space is
/// resolved whenever its storage is there and enabled: nothing is dropped
/// from it, so every name below the storage is one that was validated.
pub proof fn law_untrimmed_request_resolves(rows: Seq<StorageDatabase>, raw: Seq<char>)
    requires
        path_valid(raw),
        !is_whitespace(raw.last()),
        find_storage(rows, storage_part(raw)) is Some,
        !find_storage(rows, storage_part(raw))->0.disabled,
    ensures
        resolution(rows, raw) == Ok::<SafePathView, AppError>(
            SafePathView {
                root: find_storage(rows, storage_part(raw))->0.local_path@,
                segments: relative_components(relative_part(raw)),
            },
        ),
{
    let names = relative_components(relative_part(raw));
    if relative_part(raw) is Some {
        let rest = relative_part(raw)->0;
        let span = lemma_relative_part_span(raw);
        assert(rest == raw.skip(span.0));
        lemma_split_at_separator(raw, '/', span.0 - 1);
        let before = split(raw.take(span.0 - 1), '/');
        let pieces = split(rest, '/');
        lemma_drop_empty_members(pieces);
        assert forall|i: int| 0 <= i < names.len() implies !is_device_name(#[trigger] names[i]) by {
            let name = names[i];
            assert(pieces.contains(name));
            let j = choose|j: int| 0 <= j < pieces.len() && pieces[j] == name;
            assert(split(raw, '/')[before.len() + j] == name);
            assert(name_valid(name));
        }
    }
    law_valid_request_resolves(rows, raw);
}

/// A resolved path starts with the root of its storage.
pub proof fn law_resolved_under_root(rows: Seq<StorageDatabase>, raw: Seq<char>)
    requires
        resolution(rows, raw) is Ok,
    ensures
        find_storage(rows, storage_part(raw)) is Some,
        resolution(rows, raw)->Ok_0.root == find_storage(rows, storage_part(raw))->0.local_path@,
        resolution(rows, raw)->Ok_0.wf(),
        resolution(rows, raw)->Ok_0.root.is_prefix_of(resolution(rows, raw)->Ok_0.resolved()),
{
    let target = resolution(rows, raw)->Ok_0;
    lemma_resolve_prefix(target.root, target.segments, Seq::empty());
}

/// Validates a request path and splits it into the storage's name and the
/// path below the storage. Nothing is looked up.
pub fn parse_request(raw_path: &str) -> (parsed: Result<StorageRequest, AppError>)
    ensures
        match parsed {
            Ok(request) => {
                &&& path_valid(raw_path@)
                &&& request.storage@ == storage_part(raw_path@)
                &&& option_view(request.relative) == relative_part(raw_path@)
            },
            Err(e) => !path_valid(raw_path@) && e == AppError::InvalidStoragePath,
        },
{
    if !validate_path(raw_path) {
        return Err(AppError::InvalidStoragePath);
    }
    let (storage, relative) = split_path(raw_path);
    Ok(StorageRequest { storage, relative })
}

/// Binds the path below a storage to the storage that the lookup returned.
///
/// No record is `StorageNotFound`; a disabled one is `StorageDisabled`,
/// whatever the path; a path with a piece that may not be a step of a path,
/// because it holds `..` or a backslash or is the name of a device, is
/// `InvalidPath`.
pub fn bind_storage(found: Option<&StorageDatabase>, relative: &Option<String>) -> (bound: Result<
    Storage,
    AppError,
>)
    ensures
        reports(bound, binding(found_record(found), option_view(*relative))),
        found is Some && found->0.disabled ==> bound == Err::<Storage, AppError>(
            AppError::StorageDisabled,
        ),
{
    let storage = match found {
        Some(storage) => storage,
        None => {
            return Err(AppError::StorageNotFound);
        },
    };
    if storage.disabled {
        return Err(AppError::StorageDisabled);
    }
    let root = SafePath::new(storage.local_path.clone());
    let path = match relative {
        Some(relative) => {
            let v = chars_of(relative.as_str());
            match root.extended(&v) {
                Some(path) => {
                    assert(path@.segments =~= components(relative@));
                    path
                },
                None => {
                    return Err(AppError::InvalidPath);
                },
            }
        },
        None => root,
    };
    Ok(Storage { path, root: storage.local_path.clone() })
}

/// Resolves a request path against the registry.
///
/// The path is validated first: an invalid one is `InvalidStoragePath`, and
/// the registry is not consulted. Then the storage is looked up and the rest
/// of the path is bound to its root, as `bind_storage` does.
pub fn resolve_storage(registry: &Registry, raw_path: &str) -> (resolved: Result<
    Storage,
    AppError,
>)
    ensures
        reports(resolved, resolution(registry.storages@, raw_path@)),
        !path_valid(raw_path@) ==> resolved == Err::<Storage, AppError>(
            AppError::InvalidStoragePath,
        ),
        path_valid(raw_path@) && find_storage(registry.storages@, storage_part(raw_path@)) is Some
            && find_storage(registry.storages@, storage_part(raw_path@))->0.disabled ==> resolved
            == Err::<Storage, AppError>(AppError::StorageDisabled),
{
    let request = match parse_request(raw_path) {
        Ok(request) => request,
        Err(e) => {
            return Err(e);
        },
    };
    let found = registry.lookup(request.storage.as_str());
    bind_storage(found, &request.relative)
}

impl Storage {
    /// The target alone.
    pub fn into_path(self) -> (target: StoragePath)
        ensures
            target.0@ == self.path@,
    {
        StoragePath(self.path)
    }
}

} // verus!

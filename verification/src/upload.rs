//! The upload assembler: from the fields of one chunk request to the plan of
//! what to write and where, and from a listing of the staging directory to
//! the decision whether to merge.

use crate::chunk::{
    all_present, chunk_file_name, chunk_name, content_hash, enumerated, hash_chunk, in_index_order,
    lemma_chunk_name_valid, ChunkSet,
};
use crate::codec::{percent_decode, percent_decoded};
use crate::error::AppError;
use crate::extractor::Storage;
use crate::locks::SessionKey;
use crate::number::{parse_index, parse_usize};
use crate::ops::Probe;
use crate::safe_path::{
    components, is_component, lemma_plain_name_is_component, views_of, SafePath, SafePathView,
};
use crate::validate::{is_plain_char, path_valid};
use vstd::prelude::*;

verus! {

/// How long an abort waits before it removes the staging directory, in
/// milliseconds. The delay makes a clash with a merge in flight less likely.
pub const ABORT_DELAY_MS: u64 = 3000;

/// The fields of a chunk request as they were read, each absent or present.
pub struct UploadFields {
    /// The index of the chunk, as text.
    pub chunk: Option<String>,
    /// The declared number of chunks, as text.
    pub total: Option<String>,
    /// The bytes of the chunk.
    pub file: Option<Vec<u8>>,
    /// The name of the destination file, percent-encoded.
    pub filename: Option<String>,
}

/// One chunk request with all its fields.
pub struct ChunkRequest {
    pub index: usize,
    pub total: usize,
    pub bytes: Vec<u8>,
    /// The name of the destination file, percent-encoded.
    pub filename: String,
}

/// The request to abort an upload.
pub struct AbortFileDto {
    /// The name of the destination file.
    pub file: String,
}

/// What is to be done for one chunk, decided before any disk access.
pub struct ChunkPlan {
    pub index: usize,
    pub total: usize,
    /// The content hash of the chunk: the answer to the client.
    pub hash: String,
    /// The name of the chunk's file in the staging directory.
    pub chunk_name: String,
    /// The staging directory of the upload.
    pub staging: SafePath,
    /// The chunk's file.
    pub chunk_path: SafePath,
    /// The file that the merged chunks go to.
    pub destination: SafePath,
}

/// What is to be done to abort an upload.
pub struct AbortPlan {
    /// The staging directory to remove.
    pub staging: SafePath,
    /// How long to wait before removing it, in milliseconds.
    pub delay_ms: u64,
}

/// What follows from a listing of the staging directory.
pub enum Assembly {
    /// A chunk is missing: nothing is merged.
    Receiving,
    /// Every chunk is there: the files named are appended to the
    /// destination in this order, then the staging directory is removed.
    Merge { order: Vec<String> },
}

/// The number that `text` stands for, or `fallback` where it stands for none.
pub open spec fn number_or(text: Seq<char>, fallback: usize) -> usize {
    match parse_usize(text) {
        Some(n) => n,
        None => fallback,
    }
}

/// The names that lead from a storage root to the staging directory of the
/// upload of `filename`.
pub open spec fn staging_segments(filename: Seq<char>) -> Seq<Seq<char>> {
    seq![".storkitty"@, "chunks"@] + components(filename)
}

/// The staging directory of the upload of `filename` below `root`.
pub open spec fn staging_of(root: Seq<char>, filename: Seq<char>) -> SafePathView {
    SafePathView { root, segments: staging_segments(filename) }
}

/// Is `plan` the plan for the chunk `index` of `total` with the content
/// `bytes`, for the destination `filename` below `target`, in the storage
/// rooted at `root`?
pub open spec fn is_plan_for(
    plan: ChunkPlan,
    root: Seq<char>,
    target: SafePathView,
    index: usize,
    total: usize,
    bytes: Seq<u8>,
    filename: Seq<char>,
) -> bool {
    &&& plan.index == index
    &&& plan.total == total
    &&& plan.hash@ == content_hash(bytes)
    &&& plan.chunk_name@ == chunk_name(index as nat, content_hash(bytes))
    &&& plan.staging@ == staging_of(root, filename)
    &&& plan.chunk_path@.root == root
    &&& plan.chunk_path@.segments == staging_segments(filename).push(plan.chunk_name@)
    &&& plan.destination@ == target.joined(filename)
    &&& plan.staging@.wf()
    &&& plan.chunk_path@.wf()
    &&& plan.destination@.wf()
}

/// The names of the hidden directories may be steps of a path.
proof fn lemma_marker_names_valid()
    ensures
        is_component(".storkitty"@),
        is_component("chunks"@),
{
    reveal_strlit(".storkitty");
    reveal_strlit("chunks");
    let marker = ".storkitty"@;
    let chunks = "chunks"@;
    assert forall|i: int| 0 <= i < marker.len() implies is_plain_char(#[trigger] marker[i])
        && (i >= 1 ==> marker[i] != '.') by {
        if i == 0 {
        } else if i == 1 {
        } else if i == 2 {
        } else if i == 3 {
        } else if i == 4 {
        } else if i == 5 {
        } else if i == 6 {
        } else if i == 7 {
        } else if i == 8 {
        } else {
        }
    }
    assert forall|i: int| 0 <= i < chunks.len() implies is_plain_char(#[trigger] chunks[i])
        && chunks[i] != '.' by {
        if i == 0 {
        } else if i == 1 {
        } else if i == 2 {
        } else if i == 3 {
        } else if i == 4 {
        } else {
        }
    }
    lemma_plain_name_is_component(marker);
    lemma_plain_name_is_component(chunks);
}

/// Collects the fields of a chunk request. All four have to be there. An
/// index that is no number counts as 0, a total that is no number as 1.
pub fn read_fields(fields: UploadFields) -> (read: Result<ChunkRequest, AppError>)
    ensures
        match read {
            Ok(request) => {
                &&& fields.chunk is Some
                &&& fields.total is Some
                &&& fields.file is Some
                &&& fields.filename is Some
                &&& request.index == number_or(fields.chunk->0@, 0)
                &&& request.total == number_or(fields.total->0@, 1)
                &&& request.bytes@ == fields.file->0@
                &&& request.filename@ == fields.filename->0@
            },
            Err(e) => {
                &&& e == AppError::MissingFields
                &&& (fields.chunk is None || fields.total is None || fields.file is None
                    || fields.filename is None)
            },
        },
{
    match (fields.chunk, fields.total, fields.file, fields.filename) {
        (Some(chunk), Some(total), Some(bytes), Some(filename)) => {
            let index = match parse_index(chunk.as_str()) {
                Some(n) => n,
                None => 0,
            };
            let total = match parse_index(total.as_str()) {
                Some(n) => n,
                None => 1,
            };
            Ok(ChunkRequest { index, total, bytes, filename })
        },
        _ => Err(AppError::MissingFields),
    }
}

/// Decides whether a chunk may be uploaded into the target directory, from
/// what was found on disk: whether the target exists and, where it has a
/// parent, whether that exists.
pub fn check_upload_target(target_exists: bool, parent_exists: Option<bool>) -> (checked: Result<
    (),
    AppError,
>)
    ensures
        match checked {
            Ok(_) => target_exists || parent_exists != Some(false),
            Err(e) => e == AppError::TargetDirectoryMissing && !target_exists && parent_exists
                == Some(false),
        },
{
    if !target_exists {
        match parent_exists {
            Some(false) => {
                return Err(AppError::TargetDirectoryMissing);
            },
            _ => {},
        }
    }
    Ok(())
}

/// The staging directory is created only where nothing is at its path.
pub fn staging_decision(found: Probe) -> (create: bool)
    ensures
        create == (found == Probe::Missing),
{
    match found {
        Probe::Missing => true,
        _ => false,
    }
}

/// A chunk is written only where no file of its name exists: a chunk that
/// is sent again is not written again.
pub fn store_decision(found: Probe) -> (write: bool)
    ensures
        write == (found == Probe::Missing),
{
    match found {
        Probe::Missing => true,
        _ => false,
    }
}

/// The staging directory for the upload of `filename` in the storage rooted
/// at `root`. The file name is validated as a path.
pub fn staging_dir(root: &str, filename: &str) -> (staging: Result<SafePath, AppError>)
    ensures
        match staging {
            Ok(dir) => path_valid(filename@) && dir@ == staging_of(root@, filename@) && dir@.wf(),
            Err(e) => !path_valid(filename@) && e == AppError::InvalidPath,
        },
{
    proof {
        lemma_marker_names_valid();
    }
    let base = SafePath::new(String::from_str(root)).child(".storkitty").child("chunks");
    match base.safe_join(filename) {
        Ok(dir) => {
            assert(dir@.segments =~= staging_segments(filename@));
            Ok(dir)
        },
        Err(e) => Err(e),
    }
}

/// Plans the upload of one chunk once the name of the destination file has
/// been decoded. The name is validated as a path: an invalid one is
/// `InvalidPath`.
pub fn plan_decoded(storage: &Storage, request: &ChunkRequest, filename: &str) -> (planned: Result<
    ChunkPlan,
    AppError,
>)
    ensures
        match planned {
            Ok(plan) => path_valid(filename@) && is_plan_for(
                plan,
                storage.root@,
                storage.path@,
                request.index,
                request.total,
                request.bytes@,
                filename@,
            ),
            Err(e) => !path_valid(filename@) && e == AppError::InvalidPath,
        },
{
    let staging = match staging_dir(storage.root.as_str(), filename) {
        Ok(dir) => dir,
        Err(e) => {
            return Err(e);
        },
    };
    let destination = match storage.path.safe_join(filename) {
        Ok(path) => path,
        Err(e) => {
            return Err(e);
        },
    };
    let hash = hash_chunk(request.bytes.as_slice());
    let chunk_name = chunk_file_name(request.index, hash.as_str());
    proof {
        lemma_chunk_name_valid(request.index, request.bytes@);
    }
    let chunk_path = staging.child(chunk_name.as_str());
    Ok(
        ChunkPlan {
            index: request.index,
            total: request.total,
            hash,
            chunk_name,
            staging,
            chunk_path,
            destination,
        },
    )
}

/// Plans the upload of one chunk: decodes the name of the destination file,
/// hashes the chunk and names the paths involved. Nothing on disk is
/// touched. A name that cannot be decoded is `UndecodableFilename`; a
/// decoded name that is no valid path is `InvalidPath`.
pub fn plan_chunk(storage: &Storage, request: &ChunkRequest) -> (planned: Result<
    ChunkPlan,
    AppError,
>)
    ensures
        match planned {
            Ok(plan) => {
                &&& percent_decoded(request.filename@) is Some
                &&& path_valid(percent_decoded(request.filename@)->0)
                &&& is_plan_for(
                    plan,
                    storage.root@,
                    storage.path@,
                    request.index,
                    request.total,
                    request.bytes@,
                    percent_decoded(request.filename@)->0,
                )
            },
            Err(e) => match percent_decoded(request.filename@) {
                None => e == AppError::UndecodableFilename,
                Some(filename) => !path_valid(filename) && e == AppError::InvalidPath,
            },
        },
{
    let filename = match percent_decode(request.filename.as_str()) {
        Ok(plain) => plain,
        Err(_) => {
            return Err(AppError::UndecodableFilename);
        },
    };
    plan_decoded(storage, request, filename.as_str())
}

/// Everything that is decided about a chunk request before the disk is
/// touched: the fields are collected, and the upload of the chunk is
/// planned. Fields that are missing are reported first, then a file name
/// that cannot be decoded, then one that is no valid path.
pub fn prepare_upload(storage: &Storage, fields: UploadFields) -> (prepared: Result<
    (ChunkRequest, ChunkPlan),
    AppError,
>)
    ensures
        match prepared {
            Ok((request, plan)) => {
                &&& fields.chunk is Some
                &&& fields.total is Some
                &&& fields.file is Some
                &&& fields.filename is Some
                &&& request.index == number_or(fields.chunk->0@, 0)
                &&& request.total == number_or(fields.total->0@, 1)
                &&& request.bytes@ == fields.file->0@
                &&& request.filename@ == fields.filename->0@
                &&& percent_decoded(request.filename@) is Some
                &&& path_valid(percent_decoded(request.filename@)->0)
                &&& is_plan_for(
                    plan,
                    storage.root@,
                    storage.path@,
                    request.index,
                    request.total,
                    request.bytes@,
                    percent_decoded(request.filename@)->0,
                )
            },
            Err(e) => if fields.chunk is None || fields.total is None || fields.file is None
                || fields.filename is None {
                e == AppError::MissingFields
            } else {
                match percent_decoded(fields.filename->0@) {
                    None => e == AppError::UndecodableFilename,
                    Some(filename) => !path_valid(filename) && e == AppError::InvalidPath,
                }
            },
        },
{
    let request = match read_fields(fields) {
        Ok(request) => request,
        Err(e) => {
            return Err(e);
        },
    };
    match plan_chunk(storage, &request) {
        Ok(plan) => Ok((request, plan)),
        Err(e) => Err(e),
    }
}

/// Plans the abort of the upload of the file that `dto` names.
pub fn plan_abort(storage: &Storage, dto: &AbortFileDto) -> (planned: Result<AbortPlan, AppError>)
    ensures
        match planned {
            Ok(plan) => {
                &&& path_valid(dto.file@)
                &&& plan.staging@ == staging_of(storage.root@, dto.file@)
                &&& plan.staging@.wf()
                &&& plan.delay_ms == ABORT_DELAY_MS
            },
            Err(e) => !path_valid(dto.file@) && e == AppError::InvalidPath,
        },
{
    match staging_dir(storage.root.as_str(), dto.file.as_str()) {
        Ok(staging) => Ok(AbortPlan { staging, delay_ms: ABORT_DELAY_MS }),
        Err(e) => Err(e),
    }
}

/// The key of the token that guards the staging directory `staging`: every
/// request that changes the directory takes the token first.
pub fn session_key(staging: &SafePath) -> (key: SessionKey)
    ensures
        key@.root == staging@.root,
        key@.destination == staging@.resolved(),
{
    SessionKey { root: staging.root(), destination: staging.get_path() }
}

/// Decides from a listing of the staging directory whether the upload is
/// complete. If it is, the chunk files are to be merged by rising index,
/// whatever the order of the listing is.
pub fn assemble(listing: &Vec<String>, total: usize) -> (decided: Assembly)
    ensures
        match decided {
            Assembly::Receiving => !all_present(enumerated(views_of(listing@), total), total),
            Assembly::Merge { order } => {
                &&& all_present(enumerated(views_of(listing@), total), total)
                &&& views_of(order@) == in_index_order(
                    enumerated(views_of(listing@), total),
                    total,
                )
            },
        },
{
    let chunks = ChunkSet::enumerate(listing, total);
    match chunks.merge_order() {
        Some(order) => Assembly::Merge { order },
        None => Assembly::Receiving,
    }
}

} // verus!

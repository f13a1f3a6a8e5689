//! The rules of the file and folder operations.
//!
//! Each operation first turns the names of a request into paths below the
//! target of the request, and then decides from what is found on disk
//! whether to go on. Looking at the disk and changing it is left to the
//! caller.

use crate::error::AppError;
use crate::safe_path::{views_of, SafePath, SafePathView};
use crate::validate::{name_valid, path_valid, validate_name};
use vstd::prelude::*;
use vstd::string::StringExecFns;

verus! {

/// What was found at a path.
#[derive(Clone, Copy, Debug, PartialEq, Eq, Structural)]
pub enum Probe {
    /// Nothing is there.
    Missing,
    /// A regular file.
    File,
    /// A directory.
    Directory,
    /// Something else.
    Other,
}

/// What to do with one target of a batch.
#[derive(Clone, Copy, Debug, PartialEq, Eq, Structural)]
pub enum BatchStep {
    /// Leave the target alone and go on with the next.
    Skip,
    /// Remove the target.
    Remove,
}

/// The request to create a file.
pub struct CreateFileDto {
    pub name: String,
}

/// The request to create a folder.
pub struct CreateFolderDto {
    pub name: String,
}

/// The request to rename a file.
pub struct RenameFileDto {
    pub from: String,
    pub to: String,
}

/// The request to delete files.
pub struct DeleteFileDto {
    pub targets: Vec<String>,
}

/// The request to delete folders.
pub struct DeleteFolderDto {
    pub targets: Vec<String>,
}

/// The paths of a batch: those of the targets up to the first one that is
/// refused, and the error for that one.
pub struct BatchPlan {
    /// The targets to work on, in the order of the request.
    pub targets: Vec<SafePath>,
    /// The error that ends the batch after those targets, if a name was
    /// refused.
    pub rejected: Option<AppError>,
}

/// How many of `names` stand before the first that is no valid path.
pub open spec fn valid_prefix_len(names: Seq<Seq<char>>) -> nat
    decreases names.len(),
{
    if names.len() == 0 || !path_valid(names[0]) {
        0
    } else {
        1 + valid_prefix_len(names.drop_first())
    }
}

/// Is `plan` the plan for the batch `names` below `base`?
pub open spec fn is_batch_plan(plan: BatchPlan, base: SafePathView, names: Seq<Seq<char>>) -> bool {
    &&& plan.targets@.len() == valid_prefix_len(names)
    &&& forall|i: int|
        0 <= i < plan.targets@.len() ==> (#[trigger] plan.targets@[i])@ == base.joined(names[i])
            && plan.targets@[i]@.wf()
    &&& plan.rejected == if valid_prefix_len(names) < names.len() {
        Some(AppError::InvalidPath)
    } else {
        None
    }
}

proof fn lemma_valid_prefix(names: Seq<Seq<char>>, upto: int)
    requires
        0 <= upto <= names.len(),
        forall|i: int| 0 <= i < upto ==> path_valid(#[trigger] names[i]),
        upto < names.len() ==> !path_valid(names[upto]),
    ensures
        valid_prefix_len(names) == upto,
    decreases upto,
{
    if upto > 0 {
        let rest = names.drop_first();
        assert forall|i: int| 0 <= i < upto - 1 implies path_valid(#[trigger] rest[i]) by {
            assert(rest[i] == names[i + 1]);
        }
        if upto - 1 < rest.len() {
            assert(rest[upto - 1] == names[upto]);
        }
        assert(path_valid(names[0]));
        lemma_valid_prefix(rest, upto - 1);
    }
}

/// The path of a new file or folder called `name` below `base`. The name
/// has to be a valid name and, as `safe_join` asks, a valid path.
fn named_target(base: &SafePath, name: &str, refusal: AppError) -> (target: Result<
    SafePath,
    AppError,
>)
    ensures
        match target {
            Ok(path) => name_valid(name@) && path_valid(name@) && path@ == base@.joined(name@)
                && path@.wf(),
            Err(e) => if !name_valid(name@) {
                e == refusal
            } else {
                !path_valid(name@) && e == AppError::InvalidPath
            },
        },
{
    if !validate_name(name) {
        return Err(refusal);
    }
    base.safe_join(name)
}

/// The path of the file that `dto` asks to create below `base`.
///
/// A name that is no valid name is `InvalidFileName`; a valid name that is
/// no valid path, because it holds two dots in a row, is `InvalidPath`.
pub fn create_file_target(base: &SafePath, dto: &CreateFileDto) -> (target: Result<
    SafePath,
    AppError,
>)
    ensures
        match target {
            Ok(path) => name_valid(dto.name@) && path_valid(dto.name@) && path@ == base@.joined(
                dto.name@,
            ) && path@.wf(),
            Err(e) => if !name_valid(dto.name@) {
                e == AppError::InvalidFileName
            } else {
                !path_valid(dto.name@) && e == AppError::InvalidPath
            },
        },
{
    named_target(base, dto.name.as_str(), AppError::InvalidFileName)
}

/// The path of the folder that `dto` asks to create below `base`.
///
/// A name that is no valid name is `InvalidFolderName`; a valid name that
/// is no valid path, because it holds two dots in a row, is `InvalidPath`.
pub fn create_folder_target(base: &SafePath, dto: &CreateFolderDto) -> (target: Result<
    SafePath,
    AppError,
>)
    ensures
        match target {
            Ok(path) => name_valid(dto.name@) && path_valid(dto.name@) && path@ == base@.joined(
                dto.name@,
            ) && path@.wf(),
            Err(e) => if !name_valid(dto.name@) {
                e == AppError::InvalidFolderName
            } else {
                !path_valid(dto.name@) && e == AppError::InvalidPath
            },
        },
{
    named_target(base, dto.name.as_str(), AppError::InvalidFolderName)
}

/// A file is created only where nothing exists yet.
pub fn create_file_decision(found: Probe) -> (decided: Result<(), AppError>)
    ensures
        decided == if found == Probe::Missing {
            Ok::<(), AppError>(())
        } else {
            Err::<(), AppError>(AppError::FileExists)
        },
{
    match found {
        Probe::Missing => Ok(()),
        _ => Err(AppError::FileExists),
    }
}

/// A folder is created only where nothing exists yet.
pub fn create_folder_decision(found: Probe) -> (decided: Result<(), AppError>)
    ensures
        decided == if found == Probe::Missing {
            Ok::<(), AppError>(())
        } else {
            Err::<(), AppError>(AppError::FolderExists)
        },
{
    match found {
        Probe::Missing => Ok(()),
        _ => Err(AppError::FolderExists),
    }
}

/// The content of a target is read or written only where the target exists
/// and is no folder.
pub fn content_decision(found: Probe) -> (decided: Result<(), AppError>)
    ensures
        decided == match found {
            Probe::Missing => Err::<(), AppError>(AppError::FileNotFound),
            Probe::Directory => Err::<(), AppError>(AppError::IsFolder),
            _ => Ok::<(), AppError>(()),
        },
{
    match found {
        Probe::Missing => Err(AppError::FileNotFound),
        Probe::Directory => Err(AppError::IsFolder),
        _ => Ok(()),
    }
}

/// A target is sent for download only where it is a regular file.
pub fn download_decision(found: Probe) -> (decided: Result<(), AppError>)
    ensures
        decided == if found == Probe::File {
            Ok::<(), AppError>(())
        } else {
            Err::<(), AppError>(AppError::DownloadNotFound)
        },
{
    match found {
        Probe::File => Ok(()),
        _ => Err(AppError::DownloadNotFound),
    }
}

/// A directory is listed only where it exists.
pub fn list_decision(found: Probe) -> (decided: Result<(), AppError>)
    ensures
        decided == if found == Probe::Missing {
            Err::<(), AppError>(AppError::TargetNotFound)
        } else {
            Ok::<(), AppError>(())
        },
{
    match found {
        Probe::Missing => Err(AppError::TargetNotFound),
        _ => Ok(()),
    }
}

/// The path of the file that `dto` asks to rename.
pub fn rename_source(base: &SafePath, dto: &RenameFileDto) -> (source: Result<SafePath, AppError>)
    ensures
        match source {
            Ok(path) => path_valid(dto.from@) && path@ == base@.joined(dto.from@) && path@.wf(),
            Err(e) => !path_valid(dto.from@) && e == AppError::InvalidPath,
        },
{
    base.safe_join(dto.from.as_str())
}

/// Only a regular file that exists is renamed.
pub fn rename_source_decision(found: Probe) -> (decided: Result<(), AppError>)
    ensures
        decided == match found {
            Probe::Missing => Err::<(), AppError>(AppError::FileNotFound),
            Probe::File => Ok::<(), AppError>(()),
            _ => Err::<(), AppError>(AppError::NotFile),
        },
{
    match found {
        Probe::Missing => Err(AppError::FileNotFound),
        Probe::File => Ok(()),
        _ => Err(AppError::NotFile),
    }
}

/// The path that `dto` asks to rename the file to.
pub fn rename_destination(base: &SafePath, dto: &RenameFileDto) -> (destination: Result<
    SafePath,
    AppError,
>)
    ensures
        match destination {
            Ok(path) => path_valid(dto.to@) && path@ == base@.joined(dto.to@) && path@.wf(),
            Err(e) => !path_valid(dto.to@) && e == AppError::InvalidPath,
        },
{
    base.safe_join(dto.to.as_str())
}

/// A file is renamed only to a path where nothing exists yet.
pub fn rename_destination_decision(found: Probe) -> (decided: Result<(), AppError>)
    ensures
        decided == if found == Probe::Missing {
            Ok::<(), AppError>(())
        } else {
            Err::<(), AppError>(AppError::FileExists)
        },
{
    match found {
        Probe::Missing => Ok(()),
        _ => Err(AppError::FileExists),
    }
}

/// The paths of the targets `names` below `base`, up to the first name that
/// is no valid path.
pub fn plan_batch(base: &SafePath, names: &Vec<String>) -> (plan: BatchPlan)
    ensures
        is_batch_plan(plan, base@, views_of(names@)),
{
    let mut targets: Vec<SafePath> = Vec::new();
    let ghost listed = views_of(names@);
    let mut i: usize = 0;
    while i < names.len()
        invariant
            0 <= i <= names.len(),
            listed == views_of(names@),
            targets@.len() == i,
            forall|k: int| 0 <= k < i ==> path_valid(#[trigger] listed[k]),
            forall|k: int|
                0 <= k < i ==> (#[trigger] targets@[k])@ == base@.joined(listed[k])
                    && targets@[k]@.wf(),
        decreases names.len() - i,
    {
        assert(listed[i as int] == names@[i as int]@);
        match base.safe_join(names[i].as_str()) {
            Ok(path) => {
                targets.push(path);
            },
            Err(e) => {
                proof {
                    lemma_valid_prefix(listed, i as int);
                }
                return BatchPlan { targets, rejected: Some(e) };
            },
        }
        i += 1;
    }
    proof {
        lemma_valid_prefix(listed, names.len() as int);
    }
    BatchPlan { targets, rejected: None }
}

/// The paths of the files that `dto` asks to delete.
pub fn delete_file_targets(base: &SafePath, dto: &DeleteFileDto) -> (plan: BatchPlan)
    ensures
        is_batch_plan(plan, base@, views_of(dto.targets@)),
{
    plan_batch(base, &dto.targets)
}

/// The paths of the folders that `dto` asks to delete.
pub fn delete_folder_targets(base: &SafePath, dto: &DeleteFolderDto) -> (plan: BatchPlan)
    ensures
        is_batch_plan(plan, base@, views_of(dto.targets@)),
{
    plan_batch(base, &dto.targets)
}

/// Of the targets of a file deletion, one that is missing or a directory is
/// passed over; anything else is removed.
pub fn delete_file_decision(found: Probe) -> (step: BatchStep)
    ensures
        step == match found {
            Probe::Missing => BatchStep::Skip,
            Probe::Directory => BatchStep::Skip,
            _ => BatchStep::Remove,
        },
{
    match found {
        Probe::Missing => BatchStep::Skip,
        Probe::Directory => BatchStep::Skip,
        _ => BatchStep::Remove,
    }
}

/// Of the targets of a folder deletion, one that is missing or a regular
/// file is passed over; anything else is removed.
pub fn delete_folder_decision(found: Probe) -> (step: BatchStep)
    ensures
        step == match found {
            Probe::Missing => BatchStep::Skip,
            Probe::File => BatchStep::Skip,
            _ => BatchStep::Remove,
        },
{
    match found {
        Probe::Missing => BatchStep::Skip,
        Probe::File => BatchStep::Skip,
        _ => BatchStep::Remove,
    }
}

/// The name under which a download is offered: the last name of the path,
/// or `download` for the root of a storage.
pub open spec fn download_name(target: SafePathView) -> Seq<char> {
    if target.segments.len() > 0 {
        target.segments.last()
    } else {
        "download"@
    }
}

/// The value of the `Content-Disposition` header of a download.
pub open spec fn disposition_of(target: SafePathView) -> Seq<char> {
    ("attachment; filename=\""@ + download_name(target)).push('"')
}

/// The value of the `Content-Disposition` header for the download of
/// `target`.
pub fn content_disposition(target: &SafePath) -> (header: String)
    ensures
        header@ == disposition_of(target@),
{
    let mut header = String::from_str("attachment; filename=\"");
    match target.last_name() {
        Some(name) => {
            header.append(name.as_str());
        },
        None => {
            header.append("download");
        },
    }
    header.push('"');
    header
}

} // verus!

//! The errors that the library reports, and the class each belongs to.

use vstd::prelude::*;

verus! {

/// The classes of failure that a caller tells apart.
#[derive(Clone, Copy, Debug, PartialEq, Eq, Structural)]
pub enum ErrorKind {
    /// The request itself is malformed.
    BadRequest,
    /// The storage or the target of the operation does not exist.
    NotFound,
    /// The storage is disabled.
    Forbidden,
    /// The target exists where it has to be created.
    Conflict,
    /// Reading, writing or renaming failed.
    IOFailure,
    /// Anything that was not expected.
    Internal,
}

/// A rejection, by its cause.
#[derive(Clone, Copy, Debug, PartialEq, Eq, Structural)]
pub enum AppError {
    /// The request path failed validation.
    InvalidStoragePath,
    /// A path to be joined failed validation.
    InvalidPath,
    /// The name of a new file failed validation.
    InvalidFileName,
    /// The name of a new folder failed validation.
    InvalidFolderName,
    /// The path of a new storage holds a character that is not allowed.
    InvalidStorageName,
    /// An upload lacks the chunk, the total, the file or the file name.
    MissingFields,
    /// The file name of an upload cannot be decoded.
    UndecodableFilename,
    /// No storage has the name that the request gives.
    StorageNotFound,
    /// The file to work on does not exist.
    FileNotFound,
    /// The file to download does not exist.
    DownloadNotFound,
    /// The directory to list does not exist.
    TargetNotFound,
    /// The directory to upload into does not exist.
    TargetDirectoryMissing,
    /// The storage is disabled.
    StorageDisabled,
    /// A file of that name exists already.
    FileExists,
    /// A folder of that name exists already.
    FolderExists,
    /// The target is a folder where a file is needed.
    IsFolder,
    /// The target is no regular file.
    NotFile,
    /// The file system reported an error.
    Io,
    /// Anything that was not expected.
    Internal,
}

impl AppError {
    /// The class that this error belongs to.
    pub open spec fn kind_of(self) -> ErrorKind {
        match self {
            AppError::InvalidStoragePath => ErrorKind::BadRequest,
            AppError::InvalidPath => ErrorKind::BadRequest,
            AppError::InvalidFileName => ErrorKind::BadRequest,
            AppError::InvalidFolderName => ErrorKind::BadRequest,
            AppError::InvalidStorageName => ErrorKind::BadRequest,
            AppError::MissingFields => ErrorKind::BadRequest,
            AppError::UndecodableFilename => ErrorKind::BadRequest,
            AppError::IsFolder => ErrorKind::BadRequest,
            AppError::NotFile => ErrorKind::BadRequest,
            AppError::StorageNotFound => ErrorKind::NotFound,
            AppError::FileNotFound => ErrorKind::NotFound,
            AppError::DownloadNotFound => ErrorKind::NotFound,
            AppError::TargetNotFound => ErrorKind::NotFound,
            AppError::TargetDirectoryMissing => ErrorKind::NotFound,
            AppError::StorageDisabled => ErrorKind::Forbidden,
            AppError::FileExists => ErrorKind::Conflict,
            AppError::FolderExists => ErrorKind::Conflict,
            AppError::Io => ErrorKind::IOFailure,
            AppError::Internal => ErrorKind::Internal,
        }
    }

    /// The message shown to the user for this error. It depends on the cause
    /// alone: no path of the server and no detail of a failure is part of it.
    pub open spec fn message_of(self) -> Seq<char> {
        match self {
            AppError::InvalidStoragePath => "存储路径不合法"@,
            AppError::InvalidPath => "路径不合法"@,
            AppError::InvalidFileName => "文件名称不合法"@,
            AppError::InvalidFolderName => "文件夹名称不合法"@,
            AppError::InvalidStorageName => "应用路径只能包含英文或数字"@,
            AppError::MissingFields => "Missing required fields: chunk, total, file, or filename"@,
            AppError::UndecodableFilename => "Failed to decode filename"@,
            AppError::StorageNotFound => "存储不存在"@,
            AppError::FileNotFound => "文件不存在"@,
            AppError::DownloadNotFound => "File not found"@,
            AppError::TargetNotFound => "目标不存在"@,
            AppError::TargetDirectoryMissing => "Target directory does not exist"@,
            AppError::StorageDisabled => "存储已禁用"@,
            AppError::FileExists => "文件已存在"@,
            AppError::FolderExists => "目录已存在"@,
            AppError::IsFolder => "目标是文件夹"@,
            AppError::NotFile => "目标不是文件"@,
            AppError::Io => "File operation failed"@,
            AppError::Internal => "Internal error"@,
        }
    }

    /// The class that this error belongs to.
    pub fn kind(&self) -> (kind: ErrorKind)
        ensures
            kind == self.kind_of(),
    {
        match self {
            AppError::InvalidStoragePath
            | AppError::InvalidPath
            | AppError::InvalidFileName
            | AppError::InvalidFolderName
            | AppError::InvalidStorageName
            | AppError::MissingFields
            | AppError::UndecodableFilename
            | AppError::IsFolder
            | AppError::NotFile => ErrorKind::BadRequest,
            AppError::StorageNotFound
            | AppError::FileNotFound
            | AppError::DownloadNotFound
            | AppError::TargetNotFound
            | AppError::TargetDirectoryMissing => ErrorKind::NotFound,
            AppError::StorageDisabled => ErrorKind::Forbidden,
            AppError::FileExists | AppError::FolderExists => ErrorKind::Conflict,
            AppError::Io => ErrorKind::IOFailure,
            AppError::Internal => ErrorKind::Internal,
        }
    }

    /// The message shown to the user for this error.
    pub fn message(&self) -> (text: &'static str)
        ensures
            text@ == self.message_of(),
    {
        match self {
            AppError::InvalidStoragePath => "存储路径不合法",
            AppError::InvalidPath => "路径不合法",
            AppError::InvalidFileName => "文件名称不合法",
            AppError::InvalidFolderName => "文件夹名称不合法",
            AppError::InvalidStorageName => "应用路径只能包含英文或数字",
            AppError::MissingFields => "Missing required fields: chunk, total, file, or filename",
            AppError::UndecodableFilename => "Failed to decode filename",
            AppError::StorageNotFound => "存储不存在",
            AppError::FileNotFound => "文件不存在",
            AppError::DownloadNotFound => "File not found",
            AppError::TargetNotFound => "目标不存在",
            AppError::TargetDirectoryMissing => "Target directory does not exist",
            AppError::StorageDisabled => "存储已禁用",
            AppError::FileExists => "文件已存在",
            AppError::FolderExists => "目录已存在",
            AppError::IsFolder => "目标是文件夹",
            AppError::NotFile => "目标不是文件",
            AppError::Io => "File operation failed",
            AppError::Internal => "Internal error",
        }
    }
}

} // verus!

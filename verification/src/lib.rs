//! Path safety and chunked-upload assembly for a file manager that maps
//! named storages onto directories.
//!
//! Request paths come from clients and are not trusted. The library turns
//! them into paths that cannot leave the root of their storage
//! ([`validate`], [`path`], [`storage`], [`safe_path`], [`extractor`]), and it
//! decides how the chunks of an upload are named, when an upload is complete
//! and in which order its chunks are merged ([`chunk`], [`upload`],
//! [`session`], [`locks`]). The rules of the plain file operations and of
//! directory listings are in [`ops`], [`file`] and [`listing`].
//!
//! The library looks at no disk and no database. Its functions take what the
//! caller found there and say what is to be done.

pub mod error;
pub mod codec;
pub mod text;
pub mod number;
pub mod validate;
pub mod path;
pub mod file;
pub mod storage;
pub mod safe_path;
pub mod extractor;
pub mod chunk;
pub mod upload;
pub mod session;
pub mod locks;
pub mod ops;
pub mod listing;

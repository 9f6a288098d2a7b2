//! Reading of tar archives from a shared, seekable byte stream.
//!
//! An archive is a sequence of 512-byte header blocks, each followed by the
//! payload of its member padded to the next block boundary.  The traversal
//! ([`AsyncEntries`]) validates each header, keeps the block-aligned offset of
//! the next one, folds GNU long-name and PAX headers into the member that
//! follows them, and hands out one [`AsyncEntry`] per member.  Every entry
//! reads its payload through the same [`AsyncMutexReader`] by absolute offset,
//! so entries may be consumed in any order.
//!
//! The library touches no file system: unpacking gives the list of steps
//! ([`Unpacked`]) that materialise the members, in the order in which they
//! are to be done.
//!
//! The modules, from the bytes up:
//!
//! - [`octal`]: numeric header fields;
//! - [`entry_type`], [`header`]: the header block, its fields and its checksum;
//! - [`async_utils`]: the shared stream handle;
//! - [`async_traits`], [`async_entry`]: entries;
//! - [`async_archive`]: the archive and the traversal of its members;
//! - [`unpack`]: the steps of unpacking and their order;
//! - [`builder`]: writing archives;
//! - [`gzip`]: archives that come compressed;
//! - [`error`]: what can go wrong.

pub mod async_archive;
pub mod async_entry;
pub mod async_traits;
pub mod async_utils;
pub mod builder;
pub mod entry_type;
pub mod error;
pub mod gzip;
pub mod header;
pub mod octal;
pub mod unpack;

pub use async_archive::{
    scan_block, AsyncArchive, AsyncArchiveReader, AsyncEntries, EntriesState, RawMember,
};
pub use async_entry::AsyncEntryReader;
pub use async_traits::{AsyncEntry, AsyncEntryFields, AsyncEntryTrait, SeekFrom};
pub use async_utils::{try_read_all_async, AsyncMutexReader};
pub use builder::Builder;
pub use entry_type::EntryType;
pub use error::{ArchiveError, ErrorClass};
pub use gzip::has_gz_extension;
pub use header::Header;
pub use octal::parse_octal;
pub use unpack::{join_path, path_le, UnpackStep, Unpacked};

//! Archives that come compressed: gzip data is decoded before it is read as
//! an archive.

use vstd::prelude::*;
use crate::async_archive::{ArchiveView, AsyncArchiveReader};
use crate::async_traits::view_bytes;
use crate::error::ArchiveError;

verus! {

/// What the gzip member at the start of `bytes` holds, once decoded; `None`
/// if `bytes` does not start with a well-formed gzip member.
pub uninterp spec fn gz_decoded(bytes: Seq<u8>) -> Option<Seq<u8>>;

/// Decodes gzip data: reads a `flate2::read::GzDecoder` on `bytes` to its end.
///
/// The decoder parses the gzip header, inflates the data that follows and
/// checks it against the checksum and the length behind it; it decodes one
/// member and does not look at what follows it.  This is not proved here:
/// the contract only gives the outcome a name, `gz_decoded`, which says
/// nothing of it but that the same bytes decode to the same bytes.
#[verifier::external_body]
fn gunzip(bytes: &[u8]) -> (r: Option<Vec<u8>>)
    ensures
        view_bytes(r) == gz_decoded(bytes@),
{
    let mut out = Vec::new();
    let mut decoder = flate2::read::GzDecoder::new(bytes);
    match std::io::Read::read_to_end(&mut decoder, &mut out) {
        Ok(_) => Some(out),
        Err(_) => None,
    }
}

/// Whether the file name at the end of `path` has the extension `gz`: it
/// ends in `.gz`, and the dot is not its first byte.
pub open spec fn spec_has_gz_extension(path: Seq<u8>) -> bool {
    let n = path.len() as int;
    &&& n >= 4
    &&& path[n - 3] == 0x2e
    &&& path[n - 2] == 0x67
    &&& path[n - 1] == 0x7a
    &&& path[n - 4] != 0x2f
}

/// Whether the file name at the end of `path` has the extension `gz`.
pub fn has_gz_extension(path: &[u8]) -> (r: bool)
    ensures
        r == spec_has_gz_extension(path@),
{
    let n = path.len();
    n >= 4 && path[n - 3] == 0x2e && path[n - 2] == 0x67 && path[n - 1] == 0x7a && path[n - 4]
        != 0x2f
}

/// The bytes of the archive in a file named `path` with the contents
/// `contents`: the decoded contents if the name has the extension `gz`, else
/// the contents as they are.
pub open spec fn archive_bytes(path: Seq<u8>, contents: Seq<u8>) -> Option<Seq<u8>> {
    if spec_has_gz_extension(path) {
        gz_decoded(contents)
    } else {
        Some(contents)
    }
}

impl AsyncArchiveReader {
    /// An archive on a new stream that holds what the gzip data `bytes`
    /// decodes to.  Fails if `bytes` is no gzip data.
    pub fn from_gzip(bytes: &[u8]) -> (r: Result<AsyncArchiveReader, ArchiveError>)
        ensures
            match gz_decoded(bytes@) {
                Some(data) => r matches Ok(a) && a@ == ArchiveView::fresh(data),
                None => r matches Err(e) && e == ArchiveError::InvalidGzip,
            },
    {
        match gunzip(bytes) {
            Some(data) => Ok(AsyncArchiveReader::new(data)),
            None => Err(ArchiveError::InvalidGzip),
        }
    }

    /// The archive in a file named `path` with the contents `contents`,
    /// decoded first if the name has the extension `gz`.
    pub fn open(path: &[u8], contents: Vec<u8>) -> (r: Result<AsyncArchiveReader, ArchiveError>)
        ensures
            match archive_bytes(path@, contents@) {
                Some(data) => r matches Ok(a) && a@ == ArchiveView::fresh(data),
                None => r matches Err(e) && e == ArchiveError::InvalidGzip,
            },
    {
        if has_gz_extension(path) {
            AsyncArchiveReader::from_gzip(contents.as_slice())
        } else {
            Ok(AsyncArchiveReader::new(contents))
        }
    }
}

} // verus!

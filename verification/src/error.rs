//! What can go wrong while an archive is read or a header is built.

use vstd::prelude::*;

verus! {

/// The broad kinds of failure.
#[derive(Clone, Copy, Debug, PartialEq, Eq, Structural)]
pub enum ErrorClass {
    /// The archive's bytes are not a well-formed archive.
    MalformedInput,
    /// The archive ends inside a header block or inside a payload.
    Truncation,
    /// A value handed to the library, or found in a member, cannot be used.
    InvalidInput,
}

/// Why an archive cannot be read, or a header cannot be written.
#[derive(Clone, Copy, Debug, PartialEq, Eq, Structural)]
pub enum ArchiveError {
    /// The first block of the archive is missing, short, or all zero.
    InvalidHeader,
    /// A zero block was met while trailing zero blocks are not taken as the end.
    ZeroHeader,
    /// Fewer than 512 bytes are left where a header block should stand.
    TruncatedHeader,
    /// A header byte is neither printable ASCII nor zero.
    InvalidBytes,
    /// The magic field holds neither the ustar nor the GNU value.
    UnrecognizedMagic,
    /// The checksum field holds a byte that is no octal digit, space or NUL.
    InvalidChecksumField,
    /// The checksum field holds no number.
    InvalidChecksum,
    /// The checksum field does not equal the checksum of the header.
    ChecksumMismatch,
    /// The size field holds no number.
    InvalidSize,
    /// The mode field holds no number.
    InvalidMode,
    /// The member's payload would end beyond the largest offset.
    SizeOverflow,
    /// A second long-name, long-link or PAX header before any member.
    DuplicateMetadata,
    /// The archive ends after a long-name, long-link or PAX header.
    OrphanedMetadata,
    /// The stream ends before the declared size of a payload.
    TruncatedPayload,
    /// A symbolic link without a target.
    MissingLinkTarget,
    /// A number too large for its header field.
    ValueTooLarge,
    /// A name too long for its header field.
    ValueTooLong,
    /// A name with a NUL byte inside.
    EmbeddedNul,
    /// A move of the stream to before its start or beyond the largest position.
    InvalidSeek,
    /// Compressed data that is no gzip data.
    InvalidGzip,
}

impl ArchiveError {
    /// The kind of failure that this error belongs to.
    pub open spec fn spec_class(self) -> ErrorClass {
        match self {
            ArchiveError::TruncatedHeader | ArchiveError::TruncatedPayload => ErrorClass::Truncation,
            ArchiveError::MissingLinkTarget
            | ArchiveError::ValueTooLarge
            | ArchiveError::ValueTooLong
            | ArchiveError::EmbeddedNul
            | ArchiveError::InvalidSeek => ErrorClass::InvalidInput,
            _ => ErrorClass::MalformedInput,
        }
    }

    /// The kind of failure that this error belongs to.
    pub fn class(&self) -> (c: ErrorClass)
        ensures
            c == self.spec_class(),
    {
        match self {
            ArchiveError::TruncatedHeader | ArchiveError::TruncatedPayload => ErrorClass::Truncation,
            ArchiveError::MissingLinkTarget
            | ArchiveError::ValueTooLarge
            | ArchiveError::ValueTooLong
            | ArchiveError::EmbeddedNul
            | ArchiveError::InvalidSeek => ErrorClass::InvalidInput,
            _ => ErrorClass::MalformedInput,
        }
    }

    /// The text that describes this error.
    pub open spec fn spec_message(self) -> Seq<char> {
        match self {
            ArchiveError::InvalidHeader => "archive has invalid header"@,
            ArchiveError::ZeroHeader => "archive header all zeros but ignore_zeros is true"@,
            ArchiveError::TruncatedHeader => "archive header is truncated"@,
            ArchiveError::InvalidBytes => "archive header contains invalid bytes"@,
            ArchiveError::UnrecognizedMagic => "archive header not recognized"@,
            ArchiveError::InvalidChecksumField => "archive header checksum field contains invalid characters"@,
            ArchiveError::InvalidChecksum => "invalid header checksum"@,
            ArchiveError::ChecksumMismatch => "archive header checksum mismatch"@,
            ArchiveError::InvalidSize => "archive header size field is not a number"@,
            ArchiveError::InvalidMode => "archive header mode field is not a number"@,
            ArchiveError::SizeOverflow => "archive member size overflows the offset range"@,
            ArchiveError::DuplicateMetadata => "two metadata entries describing the same member"@,
            ArchiveError::OrphanedMetadata => "metadata entry describes no member"@,
            ArchiveError::TruncatedPayload => "archive is truncated inside a member"@,
            ArchiveError::MissingLinkTarget => "symlink missing target"@,
            ArchiveError::ValueTooLarge => "provided value is too large"@,
            ArchiveError::ValueTooLong => "provided value is too long"@,
            ArchiveError::EmbeddedNul => "provided value contains a nul byte"@,
            ArchiveError::InvalidSeek => "invalid seek to a negative or overflowing position"@,
            ArchiveError::InvalidGzip => "invalid gzip data"@,
        }
    }

    /// The text that describes this error.
    pub fn message(&self) -> (s: &'static str)
        ensures
            s@ == self.spec_message(),
    {
        match self {
            ArchiveError::InvalidHeader => "archive has invalid header",
            ArchiveError::ZeroHeader => "archive header all zeros but ignore_zeros is true",
            ArchiveError::TruncatedHeader => "archive header is truncated",
            ArchiveError::InvalidBytes => "archive header contains invalid bytes",
            ArchiveError::UnrecognizedMagic => "archive header not recognized",
            ArchiveError::InvalidChecksumField => "archive header checksum field contains invalid characters",
            ArchiveError::InvalidChecksum => "invalid header checksum",
            ArchiveError::ChecksumMismatch => "archive header checksum mismatch",
            ArchiveError::InvalidSize => "archive header size field is not a number",
            ArchiveError::InvalidMode => "archive header mode field is not a number",
            ArchiveError::SizeOverflow => "archive member size overflows the offset range",
            ArchiveError::DuplicateMetadata => "two metadata entries describing the same member",
            ArchiveError::OrphanedMetadata => "metadata entry describes no member",
            ArchiveError::TruncatedPayload => "archive is truncated inside a member",
            ArchiveError::MissingLinkTarget => "symlink missing target",
            ArchiveError::ValueTooLarge => "provided value is too large",
            ArchiveError::ValueTooLong => "provided value is too long",
            ArchiveError::EmbeddedNul => "provided value contains a nul byte",
            ArchiveError::InvalidSeek => "invalid seek to a negative or overflowing position",
            ArchiveError::InvalidGzip => "invalid gzip data",
        }
    }
}

} // verus!

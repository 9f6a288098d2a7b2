//! The archive and the traversal of its members.

use vstd::prelude::*;
use crate::async_traits::{
    strip_nul, view_bytes, AsyncEntry, AsyncEntryFields, AsyncEntryTrait, EntryView,
};
use crate::async_utils::{available, read_len, try_read_all_async, AsyncMutexReader};
use crate::entry_type::EntryType;
use crate::error::ArchiveError;
use crate::header::{
    block_is_zero, bytes_valid, checksum, cksum_field_valid, fits_u32,
    lemma_zero_block_has_no_magic, magic_recognized, spec_cksum, spec_entry_type, spec_size,
    validation_error, Header,
};
use crate::octal::fits_u64;
use crate::unpack::{plan, StepView, Unpacked, UnpackedView};

verus! {

/// What an archive is, as plain values: the bytes of its stream and how it
/// is to be read and unpacked.
pub struct ArchiveView {
    /// The bytes of the stream.
    pub bytes: Seq<u8>,
    /// Whether extended attributes are unpacked.
    pub unpack_xattrs: bool,
    /// Whether permission bits are set on what is unpacked.
    pub preserve_permissions: bool,
    /// Whether modification times are preserved.
    pub preserve_mtime: bool,
    /// Whether owners are preserved.
    pub preserve_ownerships: bool,
    /// Whether existing files are overwritten.
    pub overwrite: bool,
    /// Whether a zero block is a failure, and not the end of the archive.
    pub ignore_zeros: bool,
    /// The permission bits that are not set on what is unpacked.
    pub mask: u32,
}

impl ArchiveView {
    /// An archive as it is made: permissions, times and owners are
    /// preserved, extended attributes are not unpacked, nothing is
    /// overwritten, and a zero block ends the archive.
    pub open spec fn fresh(bytes: Seq<u8>) -> ArchiveView {
        ArchiveView {
            bytes,
            unpack_xattrs: false,
            preserve_permissions: true,
            preserve_mtime: true,
            preserve_ownerships: true,
            overwrite: false,
            ignore_zeros: false,
            mask: 0,
        }
    }
}

struct ArchiveInner {
    obj: AsyncMutexReader,
    unpack_xattrs: bool,
    preserve_permissions: bool,
    preserve_mtime: bool,
    preserve_ownerships: bool,
    overwrite: bool,
    ignore_zeros: bool,
    mask: u32,
}

/// A tar archive on a shared stream.
pub struct AsyncArchiveReader {
    inner: ArchiveInner,
}

impl View for AsyncArchiveReader {
    type V = ArchiveView;

    closed spec fn view(&self) -> ArchiveView {
        ArchiveView {
            bytes: self.inner.obj@,
            unpack_xattrs: self.inner.unpack_xattrs,
            preserve_permissions: self.inner.preserve_permissions,
            preserve_mtime: self.inner.preserve_mtime,
            preserve_ownerships: self.inner.preserve_ownerships,
            overwrite: self.inner.overwrite,
            ignore_zeros: self.inner.ignore_zeros,
            mask: self.inner.mask,
        }
    }
}

impl Clone for AsyncArchiveReader {
    /// Another archive on the same stream, with the same settings.
    fn clone(&self) -> (r: Self)
        ensures
            r@ == self@,
    {
        AsyncArchiveReader {
            inner: ArchiveInner {
                obj: self.inner.obj.clone(),
                unpack_xattrs: self.inner.unpack_xattrs,
                preserve_permissions: self.inner.preserve_permissions,
                preserve_mtime: self.inner.preserve_mtime,
                preserve_ownerships: self.inner.preserve_ownerships,
                overwrite: self.inner.overwrite,
                ignore_zeros: self.inner.ignore_zeros,
                mask: self.inner.mask,
            },
        }
    }
}

impl AsyncArchiveReader {
    /// An archive on a new stream that holds `obj`.  Permissions, times and
    /// owners are preserved, extended attributes are not unpacked, nothing
    /// is overwritten, and a zero block ends the archive.
    pub fn new(obj: Vec<u8>) -> (r: AsyncArchiveReader)
        ensures
            r@ == ArchiveView::fresh(obj@),
    {
        AsyncArchiveReader {
            inner: ArchiveInner {
                obj: AsyncMutexReader::new(obj),
                unpack_xattrs: false,
                preserve_permissions: true,
                preserve_mtime: true,
                preserve_ownerships: true,
                overwrite: false,
                ignore_zeros: false,
                mask: 0,
            },
        }
    }

    /// Indicates whether extended file attributes (xattrs) should be unpacked.
    pub fn set_unpack_xattrs(&mut self, unpack_xattrs: bool) -> (r: &mut Self)
        ensures
            *final(r) == *final(self),
            r@ == (ArchiveView { unpack_xattrs, ..old(self)@ }),
    {
        self.inner.unpack_xattrs = unpack_xattrs;
        self
    }

    /// Indicates whether permission bits are set on what is unpacked.
    pub fn set_preserve_permissions(&mut self, preserve: bool) -> (r: &mut Self)
        ensures
            *final(r) == *final(self),
            r@ == (ArchiveView { preserve_permissions: preserve, ..old(self)@ }),
    {
        self.inner.preserve_permissions = preserve;
        self
    }

    /// Indicates whether modification times should be preserved.
    pub fn set_preserve_mtime(&mut self, preserve: bool) -> (r: &mut Self)
        ensures
            *final(r) == *final(self),
            r@ == (ArchiveView { preserve_mtime: preserve, ..old(self)@ }),
    {
        self.inner.preserve_mtime = preserve;
        self
    }

    /// Indicates whether owners should be preserved.
    pub fn set_preserve_ownerships(&mut self, preserve: bool) -> (r: &mut Self)
        ensures
            *final(r) == *final(self),
            r@ == (ArchiveView { preserve_ownerships: preserve, ..old(self)@ }),
    {
        self.inner.preserve_ownerships = preserve;
        self
    }

    /// Indicates whether existing files should be overwritten.
    pub fn set_overwrite(&mut self, overwrite: bool) -> (r: &mut Self)
        ensures
            *final(r) == *final(self),
            r@ == (ArchiveView { overwrite, ..old(self)@ }),
    {
        self.inner.overwrite = overwrite;
        self
    }

    /// Indicates whether zero blocks are not to be taken as the end of the
    /// archive.
    ///
    /// Without this setting a zero block after the first block ends the
    /// archive, and nothing behind it is read.  With it a zero block is not
    /// an end, and since it is no header either, the traversal fails at it:
    /// the setting is for archives that end with their stream, not for
    /// skipping zero blocks between members.
    pub fn set_ignore_zeros(&mut self, ignore: bool) -> (r: &mut Self)
        ensures
            *final(r) == *final(self),
            r@ == (ArchiveView { ignore_zeros: ignore, ..old(self)@ }),
    {
        self.inner.ignore_zeros = ignore;
        self
    }

    /// Whether a zero block after the first is a failure.
    pub fn ignore_zeros(&self) -> (r: bool)
        ensures
            r == self@.ignore_zeros,
    {
        self.inner.ignore_zeros
    }

    /// Whether existing files are overwritten.
    pub fn overwrite(&self) -> (r: bool)
        ensures
            r == self@.overwrite,
    {
        self.inner.overwrite
    }

    /// Whether modification times are preserved.
    pub fn preserve_mtime(&self) -> (r: bool)
        ensures
            r == self@.preserve_mtime,
    {
        self.inner.preserve_mtime
    }

    /// Whether owners are preserved.
    pub fn preserve_ownerships(&self) -> (r: bool)
        ensures
            r == self@.preserve_ownerships,
    {
        self.inner.preserve_ownerships
    }

    /// Whether extended attributes are unpacked.
    pub fn unpack_xattrs(&self) -> (r: bool)
        ensures
            r == self@.unpack_xattrs,
    {
        self.inner.unpack_xattrs
    }

    /// A handle on the stream of the archive.
    pub fn stream(&self) -> (r: AsyncMutexReader)
        ensures
            r@ == self@.bytes,
    {
        self.inner.obj.clone()
    }

    /// Sets the permission bits that are left out when permissions are set;
    /// `None` leaves none out.
    pub fn set_mask(&mut self, mask: Option<u32>) -> (r: &mut Self)
        ensures
            *final(r) == *final(self),
            r@ == (ArchiveView {
                mask: match mask {
                    Some(m) => m,
                    None => 0,
                },
                ..old(self)@
            }),
    {
        self.inner.mask = match mask {
            Some(m) => m,
            None => 0,
        };
        self
    }
}

/// What stands where a header is looked for.
pub enum RawStep {
    /// The end of the archive.
    End,
    /// Something that is no archive.
    Fail(ArchiveError),
    /// A header, the declared size of its payload, and where the next header
    /// is looked for.
    Member { header: Seq<u8>, size: nat, next: nat },
}

/// One header with the declared size of its payload and the offset of the
/// block after the payload.
pub struct RawMember {
    /// The header block.
    pub header: Header,
    /// The declared length of the payload.
    pub size: u64,
    /// Where the next header is looked for.
    pub next: u64,
}

/// `size` rounded up to whole blocks.
pub open spec fn round_up_block(size: nat) -> nat {
    ((size + 511) / 512 * 512) as nat
}

/// What the block `block`, read at `offset`, says of the archive.
///
/// `block` is what reading 512 bytes gave: nothing at the end of the stream,
/// fewer than 512 bytes if the stream ends inside a block.
pub open spec fn block_step(block: Seq<u8>, offset: nat, ignore_zeros: bool) -> RawStep {
    if block.len() == 0 {
        RawStep::End
    } else if block.len() < 512 {
        RawStep::Fail(ArchiveError::TruncatedHeader)
    } else {
        let header = block.subrange(0, 512);
        if block_is_zero(header) {
            if offset == 0 {
                RawStep::Fail(ArchiveError::InvalidHeader)
            } else if ignore_zeros {
                RawStep::Fail(ArchiveError::ZeroHeader)
            } else {
                RawStep::End
            }
        } else {
            match validation_error(header) {
                Some(e) => RawStep::Fail(e),
                None => match fits_u64(spec_size(header)) {
                    None => RawStep::Fail(ArchiveError::InvalidSize),
                    Some(size) => if offset + 512 + round_up_block(size as nat) > u64::MAX {
                        RawStep::Fail(ArchiveError::SizeOverflow)
                    } else {
                        RawStep::Member {
                            header,
                            size: size as nat,
                            next: offset + 512 + round_up_block(size as nat),
                        }
                    },
                },
            }
        }
    }
}

/// What reading one block of `bytes` at `offset` gives.
pub open spec fn block_at(bytes: Seq<u8>, offset: nat) -> Seq<u8> {
    let n = read_len(bytes, offset, 512);
    if n == 0 {
        Seq::empty()
    } else {
        bytes.subrange(offset as int, (offset + n) as int)
    }
}

/// What stands at `offset` in the archive `bytes`.
pub open spec fn raw_step(bytes: Seq<u8>, offset: nat, ignore_zeros: bool) -> RawStep {
    block_step(block_at(bytes, offset), offset, ignore_zeros)
}

/// Decides what a block says of the archive: its end, a failure, or a
/// member.  `block` is what reading 512 bytes at `offset` gave.
pub fn scan_block(block: &[u8], offset: u64, ignore_zeros: bool) -> (res: Result<
    Option<RawMember>,
    ArchiveError,
>)
    ensures
        match block_step(block@, offset as nat, ignore_zeros) {
            RawStep::End => res matches Ok(None),
            RawStep::Fail(e) => res matches Err(x) && x == e,
            RawStep::Member { header, size, next } => res matches Ok(Some(m)) && m.header@
                == header && m.size == size && m.next == next,
        },
{
    if block.len() == 0 {
        return Ok(None);
    }
    if block.len() < 512 {
        return Err(ArchiveError::TruncatedHeader);
    }
    let header = Header::from_byte_slice(&block[0..512]);
    if header.is_zero() {
        if offset == 0 {
            return Err(ArchiveError::InvalidHeader);
        }
        if ignore_zeros {
            return Err(ArchiveError::ZeroHeader);
        }
        return Ok(None);
    }
    match header.validate() {
        Err(e) => {
            return Err(e);
        },
        Ok(()) => {},
    }
    let size = match header.size() {
        Err(e) => {
            return Err(e);
        },
        Ok(size) => size,
    };
    if size > u64::MAX - 511 {
        return Err(ArchiveError::SizeOverflow);
    }
    let padded: u64 = (size + 511) / 512 * 512;
    if offset > u64::MAX - 512 {
        return Err(ArchiveError::SizeOverflow);
    }
    let start: u64 = offset + 512;
    if padded > u64::MAX - start {
        return Err(ArchiveError::SizeOverflow);
    }
    Ok(Some(RawMember { header, size, next: start + padded }))
}

/// Where a traversal stands.
#[derive(Clone, Copy, Debug, PartialEq, Eq, Structural)]
pub enum EntriesState {
    /// More members may follow.
    Scanning,
    /// The end of the archive was reached.
    Done,
    /// The archive is malformed or truncated.
    Failed(ArchiveError),
}

/// What a traversal is, as plain values.
pub struct EntriesView {
    /// Where the next header is looked for.
    pub offset: nat,
    /// Whether the traversal goes on, is done, or has failed.
    pub state: EntriesState,
    /// Whether long-name, long-link and PAX headers are handed out as they
    /// are, and not folded into the member after them.
    pub raw: bool,
    /// The archive that is traversed.
    pub archive: ArchiveView,
}

/// What long-name, long-link and PAX headers have said of the member to come.
pub struct Pending {
    /// The payload of a long-name header.
    pub long_pathname: Option<Seq<u8>>,
    /// The payload of a long-link header.
    pub long_linkname: Option<Seq<u8>>,
    /// The payload of a PAX header.
    pub pax_extensions: Option<Seq<u8>>,
}

impl Pending {
    /// Nothing said yet.
    pub open spec fn none() -> Pending {
        Pending { long_pathname: None, long_linkname: None, pax_extensions: None }
    }

    /// Whether anything was said of the member to come.
    pub open spec fn any(self) -> bool {
        self.long_pathname is Some || self.long_linkname is Some || self.pax_extensions is Some
    }

    /// Whether a header of type `t` was met already.
    pub open spec fn holds(self, t: EntryType) -> bool {
        match t {
            EntryType::GNULongName => self.long_pathname is Some,
            EntryType::GNULongLink => self.long_linkname is Some,
            EntryType::XHeader => self.pax_extensions is Some,
            _ => false,
        }
    }

    /// With the payload `data` of a header of type `t`.
    pub open spec fn with(self, t: EntryType, data: Seq<u8>) -> Pending {
        match t {
            EntryType::GNULongName => Pending { long_pathname: Some(data), ..self },
            EntryType::GNULongLink => Pending { long_linkname: Some(data), ..self },
            EntryType::XHeader => Pending { pax_extensions: Some(data), ..self },
            _ => self,
        }
    }
}

/// What a traversal finds next.
pub enum Resolved {
    /// The end of the archive.
    End,
    /// A failure, and where the traversal stands after it.
    Fail { error: ArchiveError, offset: nat },
    /// A member, and where the next header is looked for.
    Yield { entry: EntryView, next: nat },
}

impl ArchiveView {
    /// The entry for the header `header` at `offset`, before anything is read
    /// from it.
    pub open spec fn raw_entry(self, offset: nat, header: Seq<u8>, size: nat) -> EntryView {
        EntryView {
            header,
            size,
            pos: 0,
            header_pos: offset,
            file_pos: offset + 512,
            archive: self.bytes,
            pax_extensions: None,
            long_pathname: None,
            long_linkname: None,
            preserve_permissions: self.preserve_permissions,
            mask: self.mask,
        }
    }

    /// What a raw traversal finds at `offset`: every header is a member.
    pub open spec fn resolve_raw(self, offset: nat) -> Resolved {
        match raw_step(self.bytes, offset, self.ignore_zeros) {
            RawStep::End => Resolved::End,
            RawStep::Fail(error) => Resolved::Fail { error, offset },
            RawStep::Member { header, size, next } => Resolved::Yield {
                entry: self.raw_entry(offset, header, size),
                next,
            },
        }
    }

    /// What a traversal finds at `offset`, with `pending` gathered so far.
    ///
    /// A long-name, long-link or PAX header is no member: its payload is
    /// kept for the member that follows, and the search goes on behind it.
    /// A second header of the same kind before a member is a failure, and so
    /// are a payload that the stream does not hold to its end, and the end of
    /// the archive while something is kept.
    pub open spec fn resolve(self, offset: nat, pending: Pending) -> Resolved
        decreases available(self.bytes.len(), offset),
    {
        match raw_step(self.bytes, offset, self.ignore_zeros) {
            RawStep::End => if pending.any() {
                Resolved::Fail { error: ArchiveError::OrphanedMetadata, offset }
            } else {
                Resolved::End
            },
            RawStep::Fail(error) => Resolved::Fail { error, offset },
            RawStep::Member { header, size, next } => {
                let entry = self.raw_entry(offset, header, size);
                let t = spec_entry_type(header);
                if t.spec_is_metadata() {
                    if pending.holds(t) {
                        Resolved::Fail { error: ArchiveError::DuplicateMetadata, offset: next }
                    } else if !entry.rest_is_present() {
                        Resolved::Fail { error: ArchiveError::TruncatedPayload, offset: next }
                    } else {
                        self.resolve(next, pending.with(t, entry.next_bytes(size)))
                    }
                } else {
                    Resolved::Yield {
                        entry: EntryView {
                            long_pathname: pending.long_pathname,
                            long_linkname: pending.long_linkname,
                            pax_extensions: pending.pax_extensions,
                            ..entry
                        },
                        next,
                    }
                }
            },
        }
    }
}

/// A traversal goes forward: the member that it finds stands at or after
/// the place where it looked, whole header within the stream, and the next
/// header is looked for behind the member's payload.  From a block boundary
/// it comes to block boundaries only.
pub proof fn lemma_resolve_progress(a: ArchiveView, offset: nat, pending: Pending)
    ensures
        match a.resolve(offset, pending) {
            Resolved::Yield { entry, next } => {
                &&& offset <= entry.header_pos
                &&& entry.header_pos + 512 <= a.bytes.len()
                &&& entry.file_pos == entry.header_pos + 512
                &&& entry.pos == 0
                &&& entry.wf()
                &&& entry.archive == a.bytes
                &&& next == entry.file_pos + round_up_block(entry.size)
                &&& entry.file_pos + entry.size <= next <= u64::MAX
                &&& (offset % 512 == 0 ==> entry.header_pos % 512 == 0 && next % 512 == 0)
            },
            Resolved::Fail { error, offset: at } => {
                &&& offset <= at
                &&& (offset % 512 == 0 ==> at % 512 == 0)
            },
            Resolved::End => true,
        },
    decreases available(a.bytes.len(), offset),
{
    match raw_step(a.bytes, offset, a.ignore_zeros) {
        RawStep::Member { header, size, next } => {
            let entry = a.raw_entry(offset, header, size);
            let t = spec_entry_type(header);
            if t.spec_is_metadata() && !pending.holds(t) && entry.rest_is_present() {
                lemma_resolve_progress(a, next, pending.with(t, entry.next_bytes(size)));
            }
        },
        _ => {},
    }
}

/// The same of a raw traversal.
pub proof fn lemma_resolve_raw_progress(a: ArchiveView, offset: nat)
    ensures
        match a.resolve_raw(offset) {
            Resolved::Yield { entry, next } => {
                &&& offset == entry.header_pos
                &&& entry.header_pos + 512 <= a.bytes.len()
                &&& entry.file_pos == entry.header_pos + 512
                &&& entry.pos == 0
                &&& entry.wf()
                &&& entry.archive == a.bytes
                &&& next == entry.file_pos + round_up_block(entry.size)
                &&& entry.file_pos + entry.size <= next <= u64::MAX
                &&& (offset % 512 == 0 ==> next % 512 == 0)
            },
            Resolved::Fail { error, offset: at } => offset == at,
            Resolved::End => true,
        },
{
}

/// Members come in the order in which they stand in the archive: a member
/// that is found after another starts behind the other's payload, so no two
/// payloads overlap.
pub proof fn lemma_members_in_order(a: ArchiveView, offset: nat)
    requires
        a.resolve(offset, Pending::none()) is Yield,
        a.resolve(a.resolve(offset, Pending::none())->next, Pending::none()) is Yield,
    ensures
        ({
            let first = a.resolve(offset, Pending::none());
            let second = a.resolve(first->next, Pending::none());
            &&& first->entry.file_pos + first->entry.size <= first->next
            &&& first->next <= second->entry.header_pos
            &&& second->entry.header_pos < second->entry.file_pos
            &&& first->next < second->next
        }),
{
    lemma_resolve_progress(a, offset, Pending::none());
    lemma_resolve_progress(a, a.resolve(offset, Pending::none())->next, Pending::none());
}

/// A header whose checksum field holds another number than the checksum of
/// the header is no member: the traversal fails there with a checksum
/// mismatch, and hands out no entry.
pub proof fn lemma_checksum_mismatch_fails(a: ArchiveView, offset: nat, pending: Pending)
    requires
        offset + 512 <= a.bytes.len(),
        ({
            let h = a.bytes.subrange(offset as int, (offset + 512) as int);
            &&& bytes_valid(h)
            &&& magic_recognized(h)
            &&& cksum_field_valid(h)
            &&& fits_u32(spec_cksum(h)) matches Some(c) && c != checksum(h)
        }),
    ensures
        a.resolve(offset, pending) == (Resolved::Fail {
            error: ArchiveError::ChecksumMismatch,
            offset,
        }),
        a.resolve_raw(offset) == (Resolved::Fail { error: ArchiveError::ChecksumMismatch, offset }),
{
    let h = a.bytes.subrange(offset as int, (offset + 512) as int);
    assert(block_at(a.bytes, offset) =~= h);
    assert(h.subrange(0, 512) =~= h);
    if block_is_zero(h) {
        lemma_zero_block_has_no_magic(h);
    }
}

/// A long-name header and a member behind it are one entry: the member,
/// with the payload of the long-name header in place of its path.
pub proof fn lemma_long_name_is_path(a: ArchiveView, offset: nat)
    requires
        raw_step(a.bytes, offset, a.ignore_zeros) is Member,
        ({
            let first = raw_step(a.bytes, offset, a.ignore_zeros);
            let second = raw_step(a.bytes, first->next, a.ignore_zeros);
            &&& spec_entry_type(first->header) == EntryType::GNULongName
            &&& offset + 512 + first->size <= a.bytes.len()
            &&& second is Member
            &&& !spec_entry_type(second->header).spec_is_metadata()
        }),
    ensures
        ({
            let first = raw_step(a.bytes, offset, a.ignore_zeros);
            let second = raw_step(a.bytes, first->next, a.ignore_zeros);
            let name = a.raw_entry(offset, first->header, first->size).next_bytes(first->size);
            &&& a.resolve(offset, Pending::none()) == (Resolved::Yield {
                entry: EntryView {
                    long_pathname: Some(name),
                    ..a.raw_entry(first->next, second->header, second->size)
                },
                next: second->next,
            })
            &&& a.resolve(offset, Pending::none())->entry.path() == strip_nul(name)
            &&& first->size > 0 ==> name == a.bytes.subrange(
                (offset + 512) as int,
                (offset + 512 + first->size) as int,
            )
        }),
{
    let first = raw_step(a.bytes, offset, a.ignore_zeros);
    let t = spec_entry_type(first->header);
    let entry = a.raw_entry(offset, first->header, first->size);
    let pending = Pending::none().with(t, entry.next_bytes(first->size));
    assert(a.resolve(offset, Pending::none()) == a.resolve(first->next, pending));
}

impl ArchiveView {
    /// The steps that unpack the members from `offset` on below the
    /// directory `dst`, in the order of the members, and why they end before
    /// the end of the archive, if they do: the failure of the traversal, or
    /// that of the first member that cannot be unpacked.
    pub open spec fn steps_from(self, offset: nat, dst: Seq<u8>) -> (
        Seq<StepView>,
        Option<ArchiveError>,
    )
        decreases available(self.bytes.len(), offset),
    {
        match self.resolve(offset, Pending::none()) {
            Resolved::End => (Seq::empty(), None),
            Resolved::Fail { error, .. } => (Seq::empty(), Some(error)),
            Resolved::Yield { entry, next } => match entry.unpack_step(dst) {
                Err(e) => (Seq::empty(), Some(e)),
                Ok(step) => {
                    proof {
                        lemma_resolve_progress(self, offset, Pending::none());
                    }
                    let rest = self.steps_from(next, dst);
                    (seq![step] + rest.0, rest.1)
                },
            },
        }
    }

    /// What unpacking the archive below the directory `dst` gives: the steps
    /// of its members, directories last, and why they end early, if they do.
    pub open spec fn unpacked(self, dst: Seq<u8>) -> UnpackedView {
        if !first_block_ok(self.bytes) {
            UnpackedView { failure: Some(ArchiveError::InvalidHeader), ..UnpackedView::empty() }
        } else {
            let found = self.steps_from(0, dst);
            UnpackedView { failure: found.1, ..plan(found.0) }
        }
    }
}

impl EntriesView {
    /// The next header is looked for at a block boundary.
    pub open spec fn wf(self) -> bool {
        self.offset % 512 == 0 && self.offset <= u64::MAX
    }

    /// What the traversal finds next.
    pub open spec fn resolved(self) -> Resolved {
        if self.raw {
            self.archive.resolve_raw(self.offset)
        } else {
            self.archive.resolve(self.offset, Pending::none())
        }
    }
}

pub(crate) struct AsyncEntriesFields {
    pub(crate) offset: u64,
    pub(crate) state: EntriesState,
    pub(crate) raw: bool,
    pub(crate) obj: AsyncArchiveReader,
}

/// The traversal of the members of an archive, in the order in which they
/// stand in it.
pub struct AsyncEntries {
    pub(crate) fields: AsyncEntriesFields,
}

impl View for AsyncEntries {
    type V = EntriesView;

    closed spec fn view(&self) -> EntriesView {
        EntriesView {
            offset: self.fields.offset as nat,
            state: self.fields.state,
            raw: self.fields.raw,
            archive: self.fields.obj@,
        }
    }
}

/// What `next` does.
///
/// A traversal that is done or has failed stays as it is and says so again.
/// Else the traversal goes to what it finds next: at the end of the archive
/// it is done, at a failure it has failed, and at a member it hands out the
/// entry and stands behind the member's payload.
pub open spec fn next_post(
    pre: EntriesView,
    post: EntriesView,
    res: Result<Option<AsyncEntry>, ArchiveError>,
) -> bool {
    &&& post.wf()
    &&& match pre.state {
        EntriesState::Done => res matches Ok(None) && post == pre,
        EntriesState::Failed(e) => res matches Err(x) && x == e && post == pre,
        EntriesState::Scanning => match pre.resolved() {
            Resolved::End => res matches Ok(None) && post == (EntriesView {
                state: EntriesState::Done,
                ..pre
            }),
            Resolved::Fail { error, offset } => res matches Err(x) && x == error && post == (
            EntriesView { state: EntriesState::Failed(error), offset, ..pre }),
            Resolved::Yield { entry, next } => res matches Ok(Some(e)) && e@ == entry && e@.wf()
                && post == (EntriesView { offset: next, ..pre }),
        },
    }
}

/// A traversal only goes forward, and ends for good.
///
/// Whatever `next` returns, the offset of the traversal has not gone back
/// and is a block boundary again; an entry that is handed out stands at or
/// after the old offset and ends at or before the new one; and a traversal
/// that is done or has failed stays exactly as it is.
pub proof fn lemma_next_goes_forward(
    pre: EntriesView,
    post: EntriesView,
    res: Result<Option<AsyncEntry>, ArchiveError>,
)
    requires
        pre.wf(),
        next_post(pre, post, res),
    ensures
        pre.offset <= post.offset,
        post.wf(),
        pre.state != EntriesState::Scanning ==> post == pre,
        post.state == EntriesState::Scanning ==> res matches Ok(Some(_)),
        res matches Ok(Some(e)) ==> {
            &&& pre.offset <= e@.header_pos
            &&& e@.header_pos + 512 == e@.file_pos
            &&& e@.file_pos + e@.size <= post.offset
            &&& e@.pos == 0
            &&& e@.archive == pre.archive.bytes
        },
        res matches Ok(None) ==> post.state == EntriesState::Done,
        res matches Err(e) ==> post.state == EntriesState::Failed(e),
{
    lemma_resolve_progress(pre.archive, pre.offset, Pending::none());
    lemma_resolve_raw_progress(pre.archive, pre.offset);
}

impl AsyncEntries {
    #[verifier::type_invariant]
    spec fn block_aligned(&self) -> bool {
        self.fields.offset % 512 == 0
    }

    /// Sets whether long-name, long-link and PAX headers are handed out as
    /// they are.
    pub fn raw(self, raw: bool) -> (r: AsyncEntries)
        ensures
            r@ == (EntriesView { raw, ..self@ }),
    {
        proof {
            use_type_invariant(&self);
        }
        let AsyncEntries { fields } = self;
        AsyncEntries {
            fields: AsyncEntriesFields {
                offset: fields.offset,
                state: fields.state,
                raw,
                obj: fields.obj,
            },
        }
    }

    /// Where the next header is looked for: a multiple of 512.
    pub fn offset(&self) -> (n: u64)
        ensures
            n == self@.offset,
            self@.wf(),
    {
        proof {
            use_type_invariant(self);
        }
        self.fields.offset
    }

    /// Where the traversal stands.
    pub fn state(&self) -> (s: EntriesState)
        ensures
            s == self@.state,
    {
        self.fields.state
    }

    /// Advances the traversal, and returns the next entry: `Ok(None)` at the
    /// end of the archive, an error where the archive is malformed or
    /// truncated.  After either, every further call returns the same.
    pub fn next(&mut self) -> (res: Result<Option<AsyncEntry>, ArchiveError>)
        ensures
            next_post(old(self)@, final(self)@, res),
    {
        proof {
            use_type_invariant(&*self);
        }
        match self.fields.state {
            EntriesState::Done => {
                return Ok(None);
            },
            EntriesState::Failed(e) => {
                return Err(e);
            },
            EntriesState::Scanning => {},
        }
        let found = if self.fields.raw {
            self.next_entry_raw()
        } else {
            self.next_entry()
        };
        match found {
            Ok(Some(entry)) => Ok(Some(entry)),
            Ok(None) => {
                self.fields.state = EntriesState::Done;
                Ok(None)
            },
            Err(e) => {
                self.fields.state = EntriesState::Failed(e);
                Err(e)
            },
        }
    }

    /// Reads the header at the offset of the traversal, checks it, and moves
    /// the traversal behind the payload that it declares.
    fn next_entry_raw(&mut self) -> (res: Result<Option<AsyncEntry>, ArchiveError>)
        ensures
            final(self)@.wf(),
            match old(self)@.archive.resolve_raw(old(self)@.offset) {
                Resolved::End => res matches Ok(None) && final(self)@ == old(self)@,
                Resolved::Fail { error, offset } => res matches Err(e) && e == error
                    && final(self)@ == old(self)@,
                Resolved::Yield { entry, next } => res matches Ok(Some(e)) && e@ == entry
                    && e@.wf() && final(self)@ == (EntriesView { offset: next, ..old(self)@ }),
            },
    {
        proof {
            use_type_invariant(&*self);
        }
        let header_pos = self.fields.offset;
        let mut block = [0u8;512];
        let got = try_read_all_async(&self.fields.obj.inner.obj, &mut block, header_pos);
        assert(block@.subrange(0, got as int) =~= block_at(
            self@.archive.bytes,
            header_pos as nat,
        ));
        let member = match scan_block(
            &block[0..got],
            header_pos,
            self.fields.obj.inner.ignore_zeros,
        ) {
            Err(e) => {
                return Err(e);
            },
            Ok(None) => {
                return Ok(None);
            },
            Ok(Some(member)) => member,
        };
        let mut fields = match AsyncEntryFields::new(
            member.header,
            member.size,
            header_pos,
            header_pos + 512,
            self.fields.obj.inner.obj.clone(),
        ) {
            Err(e) => {
                return Err(e);
            },
            Ok(fields) => fields,
        };
        fields.set_permissions(
            self.fields.obj.inner.preserve_permissions,
            self.fields.obj.inner.mask,
        );
        self.fields.offset = member.next;
        Ok(Some(AsyncEntry::from_fields(fields)))
    }

    /// Finds the next member: reads headers until one is a member, and keeps
    /// what long-name, long-link and PAX headers before it say of it.
    fn next_entry(&mut self) -> (res: Result<Option<AsyncEntry>, ArchiveError>)
        ensures
            final(self)@.wf(),
            match old(self)@.archive.resolve(old(self)@.offset, Pending::none()) {
                Resolved::End => res matches Ok(None) && final(self)@ == old(self)@,
                Resolved::Fail { error, offset } => res matches Err(e) && e == error
                    && final(self)@ == (EntriesView { offset, ..old(self)@ }),
                Resolved::Yield { entry, next } => res matches Ok(Some(e)) && e@ == entry
                    && e@.wf() && final(self)@ == (EntriesView { offset: next, ..old(self)@ }),
            },
    {
        let mut long_pathname: Option<Vec<u8>> = None;
        let mut long_linkname: Option<Vec<u8>> = None;
        let mut pax_extensions: Option<Vec<u8>> = None;
        loop
            invariant
                self@ == (EntriesView { offset: self@.offset, ..old(self)@ }),
                old(self)@.archive.resolve(old(self)@.offset, Pending::none())
                    == self@.archive.resolve(
                    self@.offset,
                    Pending {
                        long_pathname: view_bytes(long_pathname),
                        long_linkname: view_bytes(long_linkname),
                        pax_extensions: view_bytes(pax_extensions),
                    },
                ),
                long_pathname is None && long_linkname is None && pax_extensions is None
                    ==> self@.offset == old(self)@.offset,
            decreases available(self@.archive.bytes.len(), self@.offset),
        {
            proof {
                use_type_invariant(&*self);
            }
            let mut entry = match self.next_entry_raw() {
                Err(e) => {
                    return Err(e);
                },
                Ok(None) => {
                    if long_pathname.is_some() || long_linkname.is_some()
                        || pax_extensions.is_some() {
                        return Err(ArchiveError::OrphanedMetadata);
                    }
                    return Ok(None);
                },
                Ok(Some(entry)) => entry,
            };
            let t = entry.header().entry_type();
            if t.is_metadata() {
                let twice = match t {
                    EntryType::GNULongName => long_pathname.is_some(),
                    EntryType::GNULongLink => long_linkname.is_some(),
                    _ => pax_extensions.is_some(),
                };
                if twice {
                    return Err(ArchiveError::DuplicateMetadata);
                }
                let data = match entry.read_all() {
                    Err(e) => {
                        return Err(e);
                    },
                    Ok(data) => data,
                };
                match t {
                    EntryType::GNULongName => {
                        long_pathname = Some(data);
                    },
                    EntryType::GNULongLink => {
                        long_linkname = Some(data);
                    },
                    _ => {
                        pax_extensions = Some(data);
                    },
                }
            } else {
                match long_pathname {
                    Some(p) => {
                        entry.set_long_pathname(p);
                    },
                    None => {},
                }
                match long_linkname {
                    Some(l) => {
                        entry.set_long_linkname(l);
                    },
                    None => {},
                }
                match pax_extensions {
                    Some(x) => {
                        entry.set_pax_extensions(x);
                    },
                    None => {},
                }
                return Ok(Some(entry));
            }
        }
    }
}

/// Whether a stream starts with a block that may be a header: a whole
/// block, and not all zero.
pub open spec fn first_block_ok(bytes: Seq<u8>) -> bool {
    bytes.len() >= 512 && !block_is_zero(bytes.subrange(0, 512))
}

/// What `entries` does: it gives a traversal that stands at the start of the
/// archive, if the stream starts with a block that may be a header.
pub open spec fn entries_post(
    pre: ArchiveView,
    post: ArchiveView,
    res: Result<AsyncEntries, ArchiveError>,
) -> bool {
    &&& post == pre
    &&& match res {
        Ok(entries) => first_block_ok(pre.bytes) && entries@ == (EntriesView {
            offset: 0,
            state: EntriesState::Scanning,
            raw: false,
            archive: pre,
        }),
        Err(e) => !first_block_ok(pre.bytes) && e == ArchiveError::InvalidHeader,
    }
}

/// Reading a tar archive.
pub trait AsyncArchive: View<V = ArchiveView> + Sized {
    /// A traversal of the members of the archive, from its start.  Fails if
    /// the stream does not start with a whole block, or starts with a zero
    /// block: an empty stream is no archive.
    fn entries(&mut self) -> (res: Result<AsyncEntries, ArchiveError>)
        ensures
            entries_post(old(self)@, final(self)@, res),
    ;

    /// Unpacks the archive below the directory `dst`: goes through its
    /// members and gives the steps that materialise them, those of the
    /// directories last and deepest first, so that no directory gets its
    /// final permissions before what is inside it was created.  Where the
    /// traversal or a member fails, the steps end there, and the failure is
    /// kept with them.
    fn unpack(&mut self, dst: &[u8]) -> (res: Unpacked)
        ensures
            final(self)@ == old(self)@,
            res@ == old(self)@.unpacked(dst@),
            res@.wf(),
    ;
}

impl AsyncArchive for AsyncArchiveReader {
    fn entries(&mut self) -> (res: Result<AsyncEntries, ArchiveError>) {
        let mut block = [0u8;512];
        let got = try_read_all_async(&self.inner.obj, &mut block, 0);
        if got < 512 {
            return Err(ArchiveError::InvalidHeader);
        }
        assert(block@ =~= self@.bytes.subrange(0, 512));
        if Header::from_byte_slice(block.as_slice()).is_zero() {
            return Err(ArchiveError::InvalidHeader);
        }
        self.inner.obj.seek_absolute(0);
        Ok(
            AsyncEntries {
                fields: AsyncEntriesFields {
                    offset: 0,
                    state: EntriesState::Scanning,
                    raw: false,
                    obj: self.clone(),
                },
            },
        )
    }

    fn unpack(&mut self, dst: &[u8]) -> (res: Unpacked) {
        let mut out = Unpacked::new();
        let mut entries = match self.entries() {
            Err(e) => {
                out.fail(e);
                return out;
            },
            Ok(entries) => entries,
        };
        let ghost a = self@;
        let ghost mut done: Seq<StepView> = Seq::empty();
        assert(done + a.steps_from(0, dst@).0 =~= a.steps_from(0, dst@).0);
        loop
            invariant
                entries@ == (EntriesView {
                    offset: entries@.offset,
                    state: EntriesState::Scanning,
                    raw: false,
                    archive: a,
                }),
                self@ == a,
                old(self)@ == a,
                first_block_ok(a.bytes),
                out@ == plan(done),
                out@.failure is None,
                out@.wf(),
                a.steps_from(0, dst@).0 == done + a.steps_from(entries@.offset, dst@).0,
                a.steps_from(0, dst@).1 == a.steps_from(entries@.offset, dst@).1,
            decreases available(a.bytes.len(), entries@.offset),
        {
            let ghost at = entries@.offset;
            proof {
                lemma_resolve_progress(a, at, Pending::none());
            }
            let mut entry = match entries.next() {
                Err(e) => {
                    out.fail(e);
                    assert(done + Seq::<StepView>::empty() =~= done);
                    return out;
                },
                Ok(None) => {
                    assert(done + Seq::<StepView>::empty() =~= done);
                    return out;
                },
                Ok(Some(entry)) => entry,
            };
            let step = match entry.unpack(dst) {
                Err(e) => {
                    out.fail(e);
                    assert(done + Seq::<StepView>::empty() =~= done);
                    return out;
                },
                Ok(step) => step,
            };
            out.route(step);
            proof {
                let rest = a.steps_from(entries@.offset, dst@);
                assert(done.push(step@).drop_last() =~= done);
                assert(done + (seq![step@] + rest.0) =~= done.push(step@) + rest.0);
                done = done.push(step@);
            }
        }
    }
}

} // verus!

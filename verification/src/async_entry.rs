//! An entry that is made from its parts.

use vstd::prelude::*;
use crate::async_traits::{
    view_bytes, AsyncEntryFields, AsyncEntryTrait, EntryView, SeekFrom,
};
use crate::async_utils::AsyncMutexReader;
use crate::error::ArchiveError;
use crate::header::Header;
use crate::unpack::UnpackStep;

verus! {

/// An entry within a tar archive: a view of one member's payload on a shared
/// stream.
pub struct AsyncEntryReader {
    fields: AsyncEntryFields,
}

impl View for AsyncEntryReader {
    type V = EntryView;

    closed spec fn view(&self) -> EntryView {
        self.fields@
    }
}

impl AsyncEntryReader {
    /// An entry for the member with the header `header`, whose payload of
    /// `size` bytes starts at `file_pos` in the stream `archive`.  The cursor
    /// stands at the start of the payload.  Fails if the payload would end
    /// beyond the largest offset.
    pub fn new(
        header: Header,
        size: u64,
        header_pos: u64,
        file_pos: u64,
        archive: AsyncMutexReader,
    ) -> (r: Result<AsyncEntryReader, ArchiveError>)
        ensures
            match r {
                Ok(entry) => {
                    &&& file_pos + size <= u64::MAX
                    &&& entry@.wf()
                    &&& entry@ == (EntryView {
                        header: header@,
                        size: size as nat,
                        pos: 0,
                        header_pos: header_pos as nat,
                        file_pos: file_pos as nat,
                        archive: archive@,
                        pax_extensions: None,
                        long_pathname: None,
                        long_linkname: None,
                        preserve_permissions: true,
                        mask: 0,
                    })
                },
                Err(e) => file_pos + size > u64::MAX && e == ArchiveError::SizeOverflow,
            },
    {
        match AsyncEntryFields::new(header, size, header_pos, file_pos, archive) {
            Ok(fields) => Ok(AsyncEntryReader { fields }),
            Err(e) => Err(e),
        }
    }

    /// Returns the header of this entry.
    pub fn header(&self) -> (h: &Header)
        ensures
            h@ == self@.header,
            self@.wf(),
    {
        self.fields.header()
    }

    /// Returns the path name for this entry: its long name if one was set,
    /// else the path of its header.
    pub fn path(&self) -> (p: Vec<u8>)
        ensures
            p@ == self@.path(),
    {
        self.fields.path()
    }

    /// Returns the link name for this entry, if any: its long link name if
    /// one was set, else the link name of its header.
    pub fn link_name(&self) -> (l: Option<Vec<u8>>)
        ensures
            view_bytes(l) == self@.link_name(),
    {
        self.fields.link_name()
    }

    /// Returns the size of the file this entry represents.
    pub fn size(&self) -> (n: u64)
        ensures
            n == self@.size,
    {
        self.fields.size()
    }

    /// The cursor.
    pub fn position(&self) -> (n: u64)
        ensures
            n == self@.pos,
            n <= self@.size,
    {
        self.fields.position()
    }

    /// Sets the PAX extensions for this entry.
    pub fn set_pax_extensions(&mut self, pax: Vec<u8>)
        ensures
            final(self)@ == (EntryView { pax_extensions: Some(pax@), ..old(self)@ }),
            final(self)@.wf(),
    {
        self.fields.set_pax_extensions(pax)
    }

    /// Sets the long pathname for this entry.
    pub fn set_long_pathname(&mut self, pathname: Vec<u8>)
        ensures
            final(self)@ == (EntryView { long_pathname: Some(pathname@), ..old(self)@ }),
            final(self)@.wf(),
    {
        self.fields.set_long_pathname(pathname)
    }

    /// Sets the long linkname for this entry.
    pub fn set_long_linkname(&mut self, linkname: Vec<u8>)
        ensures
            final(self)@ == (EntryView { long_linkname: Some(linkname@), ..old(self)@ }),
            final(self)@.wf(),
    {
        self.fields.set_long_linkname(linkname)
    }

    /// Moves the cursor within the payload, and returns where it stands then.
    pub fn seek(&mut self, to: SeekFrom) -> (r: u64)
        ensures
            r == old(self)@.seek_target(to),
            final(self)@ == (EntryView { pos: r as nat, ..old(self)@ }),
            final(self)@.wf(),
    {
        self.fields.seek(to)
    }
}

impl AsyncEntryTrait for AsyncEntryReader {
    fn read(&mut self, buf: &mut [u8]) -> (res: Result<usize, ArchiveError>) {
        self.fields.read(buf)
    }

    fn read_all(&mut self) -> (res: Result<Vec<u8>, ArchiveError>) {
        self.fields.read_all()
    }

    fn unpack(&mut self, dst: &[u8]) -> (res: Result<UnpackStep, ArchiveError>) {
        self.fields.unpack(dst)
    }
}

} // verus!

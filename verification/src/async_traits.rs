//! Entries: views of one member's payload, each with a cursor of its own;
//! and the two interfaces of the library, for archives and for entries.

use vstd::prelude::*;
pub use crate::async_archive::{AsyncArchive, AsyncEntries};
use crate::async_utils::{available, read_len, AsyncMutexReader};
use crate::entry_type::EntryType;
use crate::error::ArchiveError;
use crate::header::{fits_u32, spec_entry_type, spec_link_name, spec_mode, spec_path, Header};
pub use crate::unpack::Unpacked;
use crate::unpack::{join_path, spec_join_path, StepView, UnpackStep};

verus! {

/// Where a cursor is moved to: counted from the start of the payload, from
/// the cursor, or from the end of the payload.
#[derive(Clone, Copy, Debug, PartialEq, Eq, Structural)]
pub enum SeekFrom {
    /// So many bytes after the start of the payload.
    Start(u64),
    /// So many bytes after the cursor, or, if negative, before it.
    Current(i64),
    /// So many bytes after the end of the payload, or, if negative, before it.
    End(i64),
}

/// `p` without one NUL byte at its end, if it has one there.
pub open spec fn strip_nul(p: Seq<u8>) -> Seq<u8> {
    if p.len() > 0 && p.last() == 0 {
        p.drop_last()
    } else {
        p
    }
}

/// What an entry is, as plain values.
pub struct EntryView {
    /// The header block of the member.
    pub header: Seq<u8>,
    /// The declared length of the payload.
    pub size: nat,
    /// The cursor: how many bytes of the payload have been consumed.
    pub pos: nat,
    /// Where the header block stands in the stream.
    pub header_pos: nat,
    /// Where the payload starts in the stream.
    pub file_pos: nat,
    /// The bytes of the stream.
    pub archive: Seq<u8>,
    /// The payload of the PAX header that came before the member, if one did.
    pub pax_extensions: Option<Seq<u8>>,
    /// The payload of the long-name header that came before the member, if
    /// one did: it stands for the path.
    pub long_pathname: Option<Seq<u8>>,
    /// The payload of the long-link header that came before the member, if
    /// one did: it stands for the link target.
    pub long_linkname: Option<Seq<u8>>,
    /// Whether permission bits are set on what the member is unpacked to.
    pub preserve_permissions: bool,
    /// The permission bits that are not set.
    pub mask: u32,
}

impl EntryView {
    /// The cursor lies within the payload, and the payload within the offsets
    /// that a stream can have.
    pub open spec fn wf(self) -> bool {
        &&& self.header.len() == 512
        &&& self.pos <= self.size
        &&& self.file_pos + self.size <= u64::MAX
    }

    /// What is left of the payload after the cursor.
    pub open spec fn left(self) -> nat {
        (self.size - self.pos) as nat
    }

    /// How many bytes a read into a buffer of `want` bytes gives: what is
    /// wanted, cut down to what the payload has left and to what the stream
    /// holds of it.
    pub open spec fn read_count(self, want: nat) -> nat {
        read_len(
            self.archive,
            self.file_pos + self.pos,
            if want <= self.left() {
                want
            } else {
                self.left()
            },
        )
    }

    /// The `n` bytes after the cursor.
    pub open spec fn next_bytes(self, n: nat) -> Seq<u8> {
        if n == 0 {
            Seq::empty()
        } else {
            self.archive.subrange(
                (self.file_pos + self.pos) as int,
                (self.file_pos + self.pos + n) as int,
            )
        }
    }

    /// The buffer `buf` after a read: the bytes read, then the rest of the
    /// buffer as it was.
    pub open spec fn read_result(self, buf: Seq<u8>) -> Seq<u8> {
        let n = self.read_count(buf.len());
        if n == 0 {
            buf
        } else {
            self.next_bytes(n) + buf.subrange(n as int, buf.len() as int)
        }
    }

    /// The entry with its cursor `n` bytes further.
    pub open spec fn advanced(self, n: nat) -> EntryView {
        EntryView { pos: self.pos + n, ..self }
    }

    /// Whether the stream holds all that is left of the payload.
    pub open spec fn rest_is_present(self) -> bool {
        self.left() <= available(self.archive.len(), self.file_pos + self.pos)
    }

    /// Where a seek moves the cursor: to the position asked for, but not out
    /// of the payload.
    pub open spec fn seek_target(self, to: SeekFrom) -> nat {
        let asked: int = match to {
            SeekFrom::Start(n) => n as int,
            SeekFrom::Current(d) => self.pos + d,
            SeekFrom::End(d) => self.size + d,
        };
        if asked < 0 {
            0
        } else if asked > self.size {
            self.size
        } else {
            asked as nat
        }
    }

    /// The path of the member: the long name that came before it, if one
    /// did, else the path of its header.
    pub open spec fn path(self) -> Seq<u8> {
        match self.long_pathname {
            Some(p) => strip_nul(p),
            None => spec_path(self.header),
        }
    }

    /// The link target of the member: the long link name that came before
    /// it, if one did, else the link name of its header.
    pub open spec fn link_name(self) -> Option<Seq<u8>> {
        match self.long_linkname {
            Some(l) => Some(strip_nul(l)),
            None => spec_link_name(self.header),
        }
    }

    /// The permission bits to set on what the member is unpacked to, if any
    /// are to be set.
    pub open spec fn mode_to_apply(self) -> Option<u32> {
        if self.preserve_permissions {
            match fits_u32(spec_mode(self.header)) {
                Some(m) => Some(m & !self.mask),
                None => None,
            }
        } else {
            None
        }
    }

    /// The step that unpacks the member below the directory `dst`, or why
    /// there is none: a regular file whose payload the stream does not hold
    /// to its end, or a symbolic link without a target.
    pub open spec fn unpack_step(self, dst: Seq<u8>) -> Result<StepView, ArchiveError> {
        let path = spec_join_path(dst, self.path());
        let mode = self.mode_to_apply();
        match spec_entry_type(self.header) {
            EntryType::Regular => if self.rest_is_present() {
                Ok(StepView::File { path, contents: self.next_bytes(self.left()), mode })
            } else {
                Err(ArchiveError::TruncatedPayload)
            },
            EntryType::Directory => Ok(StepView::Directory { path, mode }),
            EntryType::Symlink => match self.link_name() {
                Some(target) => Ok(StepView::Symlink { path, target, mode }),
                None => Err(ArchiveError::MissingLinkTarget),
            },
            _ => Ok(StepView::Nothing { path }),
        }
    }

    /// The entry after it was unpacked: the payload of a regular file is
    /// consumed as far as the stream holds it, other members are untouched.
    pub open spec fn unpacked(self) -> EntryView {
        if spec_entry_type(self.header) == EntryType::Regular {
            self.advanced(self.read_count(self.left()))
        } else {
            self
        }
    }
}

/// What `read` does: it gives as many bytes as `read_count` says, puts them
/// at the start of the buffer, and moves the cursor past them.
pub open spec fn read_post(
    pre: EntryView,
    post: EntryView,
    buf_pre: Seq<u8>,
    buf_post: Seq<u8>,
    res: Result<usize, ArchiveError>,
) -> bool {
    &&& res == Ok::<usize, ArchiveError>(pre.read_count(buf_pre.len()) as usize)
    &&& pre.read_count(buf_pre.len()) <= buf_pre.len()
    &&& post == pre.advanced(pre.read_count(buf_pre.len()))
    &&& post.wf()
    &&& buf_post == pre.read_result(buf_pre)
}

/// What `read_all` does: it gives all that is left of the payload and moves
/// the cursor to its end, if the stream holds it all; else it fails, and the
/// cursor stands where the stream ended.
pub open spec fn read_all_post(
    pre: EntryView,
    post: EntryView,
    res: Result<Vec<u8>, ArchiveError>,
) -> bool {
    &&& post.wf()
    &&& match res {
        Ok(data) => {
            &&& pre.rest_is_present()
            &&& data@ == pre.next_bytes(pre.left())
            &&& post == pre.advanced(pre.left())
        },
        Err(e) => {
            &&& !pre.rest_is_present()
            &&& e == ArchiveError::TruncatedPayload
            &&& post == pre.advanced(pre.read_count(pre.left()))
        },
    }
}

/// What `unpack` does: it gives the step that `unpack_step` says, or fails
/// as `unpack_step` says, and consumes the payload of a regular file.
pub open spec fn unpack_post(
    pre: EntryView,
    post: EntryView,
    dst: Seq<u8>,
    res: Result<UnpackStep, ArchiveError>,
) -> bool {
    &&& post.wf()
    &&& post == pre.unpacked()
    &&& match res {
        Ok(step) => pre.unpack_step(dst) == Ok::<StepView, ArchiveError>(step@),
        Err(e) => pre.unpack_step(dst) == Err::<StepView, ArchiveError>(e),
    }
}

/// The bytes of `v`, if there are any.
pub open spec fn view_bytes(v: Option<Vec<u8>>) -> Option<Seq<u8>> {
    match v {
        Some(b) => Some(b@),
        None => None,
    }
}

/// The state of an entry.
pub struct AsyncEntryFields {
    pub(crate) header: Header,
    pub(crate) size: u64,
    pub(crate) pos: u64,
    pub(crate) header_pos: u64,
    pub(crate) file_pos: u64,
    pub(crate) obj: AsyncMutexReader,
    pub(crate) pax_extensions: Option<Vec<u8>>,
    pub(crate) long_pathname: Option<Vec<u8>>,
    pub(crate) long_linkname: Option<Vec<u8>>,
    pub(crate) preserve_permissions: bool,
    pub(crate) mask: u32,
}

impl View for AsyncEntryFields {
    type V = EntryView;

    closed spec fn view(&self) -> EntryView {
        EntryView {
            header: self.header@,
            size: self.size as nat,
            pos: self.pos as nat,
            header_pos: self.header_pos as nat,
            file_pos: self.file_pos as nat,
            archive: self.obj@,
            pax_extensions: view_bytes(self.pax_extensions),
            long_pathname: view_bytes(self.long_pathname),
            long_linkname: view_bytes(self.long_linkname),
            preserve_permissions: self.preserve_permissions,
            mask: self.mask,
        }
    }
}

/// A copy of `v`.
pub fn copy_bytes(v: &[u8]) -> (r: Vec<u8>)
    ensures
        r@ == v@,
{
    let mut r: Vec<u8> = Vec::new();
    let mut i: usize = 0;
    while i < v.len()
        invariant
            0 <= i <= v@.len(),
            r@ == v@.subrange(0, i as int),
        decreases v@.len() - i,
    {
        r.push(v[i]);
        i += 1;
        assert(r@ =~= v@.subrange(0, i as int));
    }
    assert(v@.subrange(0, v@.len() as int) =~= v@);
    r
}

/// `p` without one NUL byte at its end, if it has one there.
pub fn without_final_nul(p: &[u8]) -> (r: Vec<u8>)
    ensures
        r@ == strip_nul(p@),
{
    let n = p.len();
    if n > 0 && p[n - 1] == 0 {
        let r = copy_bytes(&p[0..n - 1]);
        assert(p@.subrange(0, n - 1) =~= p@.drop_last());
        r
    } else {
        copy_bytes(p)
    }
}

impl AsyncEntryFields {
    #[verifier::type_invariant]
    spec fn cursor_in_payload(&self) -> bool {
        &&& self.pos <= self.size
        &&& self.file_pos + self.size <= u64::MAX
    }

    /// The state of an entry at the start of a payload of `size` bytes that
    /// begins at `file_pos`.  Fails if the payload would end beyond the
    /// largest offset.
    pub fn new(
        header: Header,
        size: u64,
        header_pos: u64,
        file_pos: u64,
        archive: AsyncMutexReader,
    ) -> (r: Result<AsyncEntryFields, ArchiveError>)
        ensures
            match r {
                Ok(f) => {
                    &&& file_pos + size <= u64::MAX
                    &&& f@.wf()
                    &&& f@ == (EntryView {
                        header: header@,
                        size: size as nat,
                        pos: 0,
                        header_pos: header_pos as nat,
                        file_pos: file_pos as nat,
                        archive: archive@,
                        pax_extensions: None,
                        long_pathname: None,
                        long_linkname: None,
                        preserve_permissions: true,
                        mask: 0,
                    })
                },
                Err(e) => file_pos + size > u64::MAX && e == ArchiveError::SizeOverflow,
            },
    {
        if size > u64::MAX - file_pos {
            return Err(ArchiveError::SizeOverflow);
        }
        proof {
            header.lemma_len();
        }
        Ok(
            AsyncEntryFields {
                header,
                size,
                pos: 0,
                header_pos,
                file_pos,
                obj: archive,
                pax_extensions: None,
                long_pathname: None,
                long_linkname: None,
                preserve_permissions: true,
                mask: 0,
            },
        )
    }

    /// The header of the member.
    pub fn header(&self) -> (h: &Header)
        ensures
            h@ == self@.header,
            self@.wf(),
    {
        proof {
            use_type_invariant(self);
            self.header.lemma_len();
        }
        &self.header
    }

    /// The declared length of the payload.
    pub fn size(&self) -> (n: u64)
        ensures
            n == self@.size,
    {
        self.size
    }

    /// The cursor.
    pub fn position(&self) -> (n: u64)
        ensures
            n == self@.pos,
            n <= self@.size,
    {
        proof {
            use_type_invariant(self);
        }
        self.pos
    }

    /// Where the header block of the member stands in the stream.
    pub fn raw_header_position(&self) -> (n: u64)
        ensures
            n == self@.header_pos,
    {
        self.header_pos
    }

    /// Where the payload of the member starts in the stream.
    pub fn raw_file_position(&self) -> (n: u64)
        ensures
            n == self@.file_pos,
    {
        self.file_pos
    }

    /// The path of the member.
    pub fn path(&self) -> (p: Vec<u8>)
        ensures
            p@ == self@.path(),
    {
        match &self.long_pathname {
            Some(p) => without_final_nul(p.as_slice()),
            None => self.header.path(),
        }
    }

    /// The link target of the member, if it has one.
    pub fn link_name(&self) -> (l: Option<Vec<u8>>)
        ensures
            view_bytes(l) == self@.link_name(),
    {
        match &self.long_linkname {
            Some(l) => Some(without_final_nul(l.as_slice())),
            None => self.header.link_name(),
        }
    }

    /// The PAX extensions that came before the member, if any did.
    pub fn pax_extensions(&self) -> (x: Option<Vec<u8>>)
        ensures
            view_bytes(x) == self@.pax_extensions,
    {
        match &self.pax_extensions {
            Some(x) => Some(copy_bytes(x.as_slice())),
            None => None,
        }
    }

    /// The permission bits to set on what the member is unpacked to.
    pub fn mode_to_apply(&self) -> (m: Option<u32>)
        ensures
            m == self@.mode_to_apply(),
    {
        if self.preserve_permissions {
            match self.header.mode() {
                Ok(m) => Some(m & !self.mask),
                Err(_) => None,
            }
        } else {
            None
        }
    }

    /// Reads from the cursor on into `buf`, and moves the cursor past what
    /// was read.  Returns how many bytes were read: 0 once the payload is
    /// consumed, or where the stream holds no more of it.
    pub fn read(&mut self, buf: &mut [u8]) -> (res: Result<usize, ArchiveError>)
        ensures
            res == Ok::<usize, ArchiveError>(old(self)@.read_count(old(buf)@.len()) as usize),
            old(self)@.read_count(old(buf)@.len()) <= old(buf)@.len(),
            final(self)@ == old(self)@.advanced(old(self)@.read_count(old(buf)@.len())),
            final(self)@.wf(),
            final(buf)@ == old(self)@.read_result(old(buf)@),
    {
        proof {
            use_type_invariant(&*self);
            self.header.lemma_len();
        }
        if self.pos >= self.size {
            return Ok(0);
        }
        let left: u64 = self.size - self.pos;
        let amt: usize = if buf.len() as u64 <= left {
            buf.len()
        } else {
            left as usize
        };
        let (head, _) = buf.split_at_mut(amt);
        let n = self.obj.read_at(head, self.file_pos + self.pos);
        assert(buf@ =~= old(self)@.read_result(old(buf)@));
        self.pos = self.pos + n as u64;
        Ok(n)
    }

    /// Reads all that is left of the payload.  If the stream ends before the
    /// declared size, this is an error, and the cursor stands where the
    /// stream ended.
    pub fn read_all(&mut self) -> (res: Result<Vec<u8>, ArchiveError>)
        ensures
            final(self)@.wf(),
            match res {
                Ok(data) => {
                    &&& old(self)@.rest_is_present()
                    &&& data@ == old(self)@.next_bytes(old(self)@.left())
                    &&& final(self)@ == old(self)@.advanced(old(self)@.left())
                },
                Err(e) => {
                    &&& !old(self)@.rest_is_present()
                    &&& e == ArchiveError::TruncatedPayload
                    &&& final(self)@ == old(self)@.advanced(
                        old(self)@.read_count(old(self)@.left()),
                    )
                },
            },
    {
        let mut data: Vec<u8> = Vec::new();
        let mut chunk = [0u8;8192];
        proof {
            use_type_invariant(&*self);
            self.header.lemma_len();
            assert(data@ =~= old(self)@.next_bytes(0));
        }
        loop
            invariant
                old(self)@.wf(),
                self@ == old(self)@.advanced(data@.len()),
                data@ == old(self)@.next_bytes(data@.len()),
                data@.len() <= old(self)@.read_count(old(self)@.left()),
                chunk@.len() == 8192,
            ensures
                self@.read_count(8192) == 0,
            decreases self@.left(),
        {
            proof {
                use_type_invariant(&*self);
            }
            let ghost before = self@;
            let ghost so_far = data@;
            let n = match self.read(&mut chunk) {
                Ok(n) => n,
                Err(e) => {
                    return Err(e);
                },
            };
            if n == 0 {
                break ;
            }
            data.extend_from_slice(&chunk[0..n]);
            proof {
                assert(chunk@.subrange(0, n as int) =~= before.next_bytes(n as nat));
                assert(data@ =~= so_far + before.next_bytes(n as nat));
                assert(data@ =~= old(self)@.next_bytes(data@.len()));
            }
        }
        if self.pos < self.size {
            Err(ArchiveError::TruncatedPayload)
        } else {
            Ok(data)
        }
    }

    /// Moves the cursor, and returns where it stands then.  The cursor does
    /// not leave the payload: a position before its start is its start, one
    /// after its end is its end.
    pub fn seek(&mut self, to: SeekFrom) -> (r: u64)
        ensures
            r == old(self)@.seek_target(to),
            final(self)@ == (EntryView { pos: r as nat, ..old(self)@ }),
            final(self)@.wf(),
    {
        proof {
            use_type_invariant(&*self);
            self.header.lemma_len();
        }
        let target = match to {
            SeekFrom::Start(n) => if n > self.size {
                self.size
            } else {
                n
            },
            SeekFrom::Current(d) => offset_within(self.pos, d, self.size),
            SeekFrom::End(d) => offset_within(self.size, d, self.size),
        };
        self.pos = target;
        target
    }
}

impl AsyncEntryFields {
    /// The step that unpacks the member below the directory `dst`.
    ///
    /// A regular file gives its payload from the cursor on, read in chunks;
    /// a directory and a symbolic link give their paths; any other member
    /// gives a step that creates nothing.
    pub fn unpack(&mut self, dst: &[u8]) -> (res: Result<UnpackStep, ArchiveError>)
        ensures
            unpack_post(old(self)@, final(self)@, dst@, res),
    {
        proof {
            use_type_invariant(&*self);
            self.header.lemma_len();
        }
        let path = join_path(dst, self.path().as_slice());
        let mode = self.mode_to_apply();
        match self.header.entry_type() {
            EntryType::Regular => {
                match self.read_all() {
                    Ok(contents) => Ok(UnpackStep::File { path, contents, mode }),
                    Err(e) => Err(e),
                }
            },
            EntryType::Directory => Ok(UnpackStep::Directory { path, mode }),
            EntryType::Symlink => {
                match self.link_name() {
                    Some(target) => Ok(UnpackStep::Symlink { path, target, mode }),
                    None => Err(ArchiveError::MissingLinkTarget),
                }
            },
            _ => Ok(UnpackStep::Nothing { path }),
        }
    }

    /// Sets the PAX extensions that describe the member.
    pub fn set_pax_extensions(&mut self, pax: Vec<u8>)
        ensures
            final(self)@ == (EntryView { pax_extensions: Some(pax@), ..old(self)@ }),
            final(self)@.wf(),
    {
        proof {
            use_type_invariant(&*self);
            self.header.lemma_len();
        }
        self.pax_extensions = Some(pax);
    }

    /// Sets the long name that stands for the path of the member.
    pub fn set_long_pathname(&mut self, pathname: Vec<u8>)
        ensures
            final(self)@ == (EntryView { long_pathname: Some(pathname@), ..old(self)@ }),
            final(self)@.wf(),
    {
        proof {
            use_type_invariant(&*self);
            self.header.lemma_len();
        }
        self.long_pathname = Some(pathname);
    }

    /// Sets the long name that stands for the link target of the member.
    pub fn set_long_linkname(&mut self, linkname: Vec<u8>)
        ensures
            final(self)@ == (EntryView { long_linkname: Some(linkname@), ..old(self)@ }),
            final(self)@.wf(),
    {
        proof {
            use_type_invariant(&*self);
            self.header.lemma_len();
        }
        self.long_linkname = Some(linkname);
    }

    /// Sets whether permission bits are set on what is unpacked, and which
    /// of them are left out.
    pub fn set_permissions(&mut self, preserve_permissions: bool, mask: u32)
        ensures
            final(self)@ == (EntryView { preserve_permissions, mask, ..old(self)@ }),
            final(self)@.wf(),
    {
        proof {
            use_type_invariant(&*self);
            self.header.lemma_len();
        }
        self.preserve_permissions = preserve_permissions;
        self.mask = mask;
    }
}

/// Reading and unpacking one entry.
pub trait AsyncEntryTrait: View<V = EntryView> {
    /// Reads from the cursor on into `buf`, and moves the cursor past what
    /// was read.  Returns how many bytes were read; 0 is the end, no error.
    fn read(&mut self, buf: &mut [u8]) -> (res: Result<usize, ArchiveError>)
        ensures
            read_post(old(self)@, final(self)@, old(buf)@, final(buf)@, res),
    ;

    /// Reads all that is left of the payload; fails if the stream ends
    /// before the declared size.
    fn read_all(&mut self) -> (res: Result<Vec<u8>, ArchiveError>)
        ensures
            read_all_post(old(self)@, final(self)@, res),
    ;

    /// The step that unpacks this entry below the directory `dst`.
    fn unpack(&mut self, dst: &[u8]) -> (res: Result<UnpackStep, ArchiveError>)
        ensures
            unpack_post(old(self)@, final(self)@, dst@, res),
    ;
}

/// An entry of an archive, as the traversal hands it out.
pub struct AsyncEntry {
    pub(crate) fields: AsyncEntryFields,
}

impl View for AsyncEntry {
    type V = EntryView;

    closed spec fn view(&self) -> EntryView {
        self.fields@
    }
}

impl AsyncEntry {
    /// The entry with the state `fields`.
    pub fn from_fields(fields: AsyncEntryFields) -> (r: AsyncEntry)
        ensures
            r@ == fields@,
    {
        AsyncEntry { fields }
    }

    /// The header of the member.
    pub fn header(&self) -> (h: &Header)
        ensures
            h@ == self@.header,
            self@.wf(),
    {
        self.fields.header()
    }

    /// The path of the member: its long name if one came before it, else the
    /// path of its header.
    pub fn path(&self) -> (p: Vec<u8>)
        ensures
            p@ == self@.path(),
    {
        self.fields.path()
    }

    /// The link target of the member, if it has one.
    pub fn link_name(&self) -> (l: Option<Vec<u8>>)
        ensures
            view_bytes(l) == self@.link_name(),
    {
        self.fields.link_name()
    }

    /// The PAX extensions that came before the member, if any did.
    pub fn pax_extensions(&self) -> (x: Option<Vec<u8>>)
        ensures
            view_bytes(x) == self@.pax_extensions,
    {
        self.fields.pax_extensions()
    }

    /// The declared length of the payload.
    pub fn size(&self) -> (n: u64)
        ensures
            n == self@.size,
    {
        self.fields.size()
    }

    /// The cursor.
    pub fn position(&self) -> (n: u64)
        ensures
            n == self@.pos,
            n <= self@.size,
    {
        self.fields.position()
    }

    /// Where the header block of the member stands in the stream.
    pub fn raw_header_position(&self) -> (n: u64)
        ensures
            n == self@.header_pos,
    {
        self.fields.raw_header_position()
    }

    /// Where the payload of the member starts in the stream.
    pub fn raw_file_position(&self) -> (n: u64)
        ensures
            n == self@.file_pos,
    {
        self.fields.raw_file_position()
    }

    /// Moves the cursor within the payload, and returns where it stands then.
    pub fn seek(&mut self, to: SeekFrom) -> (r: u64)
        ensures
            r == old(self)@.seek_target(to),
            final(self)@ == (EntryView { pos: r as nat, ..old(self)@ }),
            final(self)@.wf(),
    {
        self.fields.seek(to)
    }

    /// Sets the PAX extensions that describe the member.
    pub fn set_pax_extensions(&mut self, pax: Vec<u8>)
        ensures
            final(self)@ == (EntryView { pax_extensions: Some(pax@), ..old(self)@ }),
            final(self)@.wf(),
    {
        self.fields.set_pax_extensions(pax)
    }

    /// Sets the long name that stands for the path of the member.
    pub fn set_long_pathname(&mut self, pathname: Vec<u8>)
        ensures
            final(self)@ == (EntryView { long_pathname: Some(pathname@), ..old(self)@ }),
            final(self)@.wf(),
    {
        self.fields.set_long_pathname(pathname)
    }

    /// Sets the long name that stands for the link target of the member.
    pub fn set_long_linkname(&mut self, linkname: Vec<u8>)
        ensures
            final(self)@ == (EntryView { long_linkname: Some(linkname@), ..old(self)@ }),
            final(self)@.wf(),
    {
        self.fields.set_long_linkname(linkname)
    }
}

impl AsyncEntryTrait for AsyncEntry {
    fn read(&mut self, buf: &mut [u8]) -> (res: Result<usize, ArchiveError>) {
        self.fields.read(buf)
    }

    fn read_all(&mut self) -> (res: Result<Vec<u8>, ArchiveError>) {
        self.fields.read_all()
    }

    fn unpack(&mut self, dst: &[u8]) -> (res: Result<UnpackStep, ArchiveError>) {
        self.fields.unpack(dst)
    }
}

/// The position `delta` away from `base`, but not below 0 nor above `limit`.
fn offset_within(base: u64, delta: i64, limit: u64) -> (r: u64)
    requires
        base <= limit,
    ensures
        r == (if base + delta < 0 {
            0
        } else if base + delta > limit {
            limit as int
        } else {
            base + delta
        }),
{
    if delta >= 0 {
        let d = delta as u64;
        if d >= limit - base {
            limit
        } else {
            base + d
        }
    } else {
        let d: u64 = if delta == i64::MIN {
            0x8000_0000_0000_0000
        } else {
            (-delta) as u64
        };
        if d >= base {
            0
        } else {
            base - d
        }
    }
}

/// Reads of two entries on one stream do not disturb each other.
///
/// What a read gives is decided by the entry and by the bytes of the stream,
/// which no read changes: not by where the stream stands, and so not by what
/// another entry has read.  Two reads of `a` with a read of `b` between them
/// give the bytes that one read of `a` gives, in order, and each entry gets
/// bytes of its own payload only.
pub proof fn lemma_interleaved_reads(
    a: EntryView,
    b: EntryView,
    want_a1: nat,
    want_b: nat,
    want_a2: nat,
)
    requires
        a.wf(),
        b.wf(),
        a.archive == b.archive,
    ensures
        ({
            let n1 = a.read_count(want_a1);
            let a1 = a.advanced(n1);
            let nb = b.read_count(want_b);
            let n2 = a1.read_count(want_a2);
            &&& a1.wf() && a1.advanced(n2).wf() && b.advanced(nb).wf()
            &&& a1.advanced(n2) == a.advanced(n1 + n2)
            &&& a.next_bytes(n1) + a1.next_bytes(n2) == a.next_bytes(n1 + n2)
            &&& a.pos + n1 + n2 <= a.size
            &&& b.pos + nb <= b.size
            &&& n1 + n2 > 0 ==> a.file_pos + a.pos + n1 + n2 <= a.archive.len()
            &&& nb > 0 ==> b.file_pos + b.pos + nb <= b.archive.len()
        }),
{
    let n1 = a.read_count(want_a1);
    let a1 = a.advanced(n1);
    let n2 = a1.read_count(want_a2);
    assert(a.next_bytes(n1) + a1.next_bytes(n2) =~= a.next_bytes(n1 + n2));
}

/// Reading in pieces gives what reading at once gives: a read of `want`
/// bytes and then a read of all the rest give the rest of the payload.
pub proof fn lemma_read_then_rest(a: EntryView, want: nat)
    requires
        a.wf(),
        a.rest_is_present(),
    ensures
        ({
            let n = a.read_count(want);
            let a1 = a.advanced(n);
            &&& n == (if want <= a.left() {
                want
            } else {
                a.left()
            })
            &&& a1.rest_is_present()
            &&& a.next_bytes(n) + a1.next_bytes(a1.left()) == a.next_bytes(a.left())
        }),
{
    let n = a.read_count(want);
    let a1 = a.advanced(n);
    assert(a.next_bytes(n) + a1.next_bytes(a1.left()) =~= a.next_bytes(a.left()));
}

} // verus!

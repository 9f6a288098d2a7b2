//! The shared stream handle: one stream, one physical position, many readers.
//!
//! A stream has a single position.  The traversal and every entry keep a
//! position of their own, so none of them may rely on where the stream
//! stands: each access goes through [`AsyncMutexReader::read_at`], which
//! takes the stream for itself, moves it to the offset asked for, reads, and
//! lets it go.

use std::sync::Arc;
use vstd::prelude::*;
use vstd::rwlock::RwLock;
use crate::error::ArchiveError;

verus! {

/// An in-memory stream: its bytes, and the position of its next read.
pub struct Stream {
    data: Vec<u8>,
    pos: u64,
}

impl Stream {
    /// The bytes of the stream.
    pub closed spec fn bytes(self) -> Seq<u8> {
        self.data@
    }
}

/// What the lock of a handle on `bytes` guards: a stream of these bytes,
/// wherever it stands.
pub open spec fn holds(bytes: Seq<u8>) -> spec_fn(Stream) -> bool {
    |s: Stream| s.bytes() == bytes
}

/// How many bytes a stream of `len` bytes has from `offset` on.
pub open spec fn available(len: nat, offset: nat) -> nat {
    if offset < len {
        (len - offset) as nat
    } else {
        0
    }
}

/// How many bytes one read at `offset` into a buffer of `want` bytes gives.
pub open spec fn read_len(bytes: Seq<u8>, offset: nat, want: nat) -> nat {
    if want <= available(bytes.len(), offset) {
        want
    } else {
        available(bytes.len(), offset)
    }
}

/// The buffer `buf` after one read at `offset`: the bytes read, then the
/// rest of the buffer as it was.
pub open spec fn read_into(bytes: Seq<u8>, offset: nat, buf: Seq<u8>) -> Seq<u8> {
    let n = read_len(bytes, offset, buf.len());
    if n == 0 {
        buf
    } else {
        bytes.subrange(offset as int, (offset + n) as int) + buf.subrange(
            n as int,
            buf.len() as int,
        )
    }
}

/// A handle on a stream that is shared with other handles.
///
/// Its view is the bytes of the stream, which no handle changes.  The
/// position of the stream is shared too, and is not part of the view: another
/// handle may move it between any two calls.
pub struct AsyncMutexReader {
    inner: Arc<RwLock<Stream, spec_fn(Stream) -> bool>>,
    bytes: Ghost<Seq<u8>>,
}

impl View for AsyncMutexReader {
    type V = Seq<u8>;

    closed spec fn view(&self) -> Seq<u8> {
        self.bytes@
    }
}

impl Clone for AsyncMutexReader {
    /// Another handle on the same stream.
    fn clone(&self) -> (r: Self)
        ensures
            r@ == self@,
    {
        proof {
            use_type_invariant(self);
        }
        AsyncMutexReader { inner: self.inner.clone(), bytes: Ghost(self.bytes@) }
    }
}

impl AsyncMutexReader {
    #[verifier::type_invariant]
    spec fn guards_its_bytes(&self) -> bool {
        &&& self.inner.pred() == holds(self.bytes@)
        &&& self.bytes@.len() <= usize::MAX
    }

    /// A handle on a new stream that holds `data` and stands at its start.
    pub fn new(data: Vec<u8>) -> (r: Self)
        ensures
            r@ == data@,
    {
        let ghost bytes = data@;
        let len = data.len();
        assert(bytes.len() == len);
        let stream = Stream { data, pos: 0 };
        let lock = RwLock::<Stream, spec_fn(Stream) -> bool>::new(stream, Ghost(holds(bytes)));
        AsyncMutexReader { inner: Arc::new(lock), bytes: Ghost(bytes) }
    }

    /// The length of the stream.
    pub fn len(&self) -> (n: usize)
        ensures
            n == self@.len(),
    {
        proof {
            use_type_invariant(self);
        }
        let handle = self.inner.acquire_read();
        let n = handle.borrow().data.len();
        handle.release_read();
        n
    }

    /// Reads at `offset`: moves the stream there unless it stands there,
    /// reads once into `buf`, and returns how many bytes were read.  No other
    /// handle gets at the stream in between.
    pub fn read_at(&self, buf: &mut [u8], offset: u64) -> (n: usize)
        ensures
            n == read_len(self@, offset as nat, old(buf)@.len()),
            final(buf)@ == read_into(self@, offset as nat, old(buf)@),
    {
        proof {
            use_type_invariant(self);
        }
        let (mut stream, handle) = self.inner.acquire_write();
        if stream.pos != offset {
            stream.seek_to(offset);
        }
        let n = stream.read(buf);
        handle.release_write(stream);
        n
    }

    /// Moves the stream to `pos`, and returns where it stands then.
    ///
    /// The position belongs to the stream, which all handles share: it is
    /// no part of what a handle knows of the stream, and another handle may
    /// move the stream again at once.  So the contract gives the position in
    /// the one place where it is known, the result, which is read from the
    /// stream while this handle still has it for itself.
    pub fn seek_absolute(&self, pos: u64) -> (r: u64)
        ensures
            r == pos,
    {
        proof {
            use_type_invariant(self);
        }
        let (mut stream, handle) = self.inner.acquire_write();
        stream.seek_to(pos);
        let r = stream.pos;
        handle.release_write(stream);
        r
    }

    /// Moves the stream by `delta` from where it stands, and returns where it
    /// stands then.  Where it stood is not known to the caller: other handles
    /// move the stream too.  A move to before the start, or beyond the
    /// largest position, fails and leaves the stream where it was.
    pub fn seek_relative(&self, delta: i64) -> (r: Result<u64, ArchiveError>)
        ensures
            match r {
                Ok(p) => 0 <= p - delta <= u64::MAX,
                Err(e) => e == ArchiveError::InvalidSeek && delta != 0,
            },
    {
        proof {
            use_type_invariant(self);
        }
        let (mut stream, handle) = self.inner.acquire_write();
        let r = stream.moved(delta);
        match r {
            Some(p) => {
                stream.seek_to(p);
            },
            None => {},
        }
        handle.release_write(stream);
        match r {
            Some(p) => Ok(p),
            None => Err(ArchiveError::InvalidSeek),
        }
    }

    /// Reads once from where the stream stands.  Where that is, is not known
    /// to the caller: what is read is what a read at some offset gives.
    pub fn read(&self, buf: &mut [u8]) -> (n: usize)
        ensures
            exists|offset: u64|
                n == #[trigger] read_len(self@, offset as nat, old(buf)@.len()) && final(buf)@
                    == read_into(self@, offset as nat, old(buf)@),
    {
        proof {
            use_type_invariant(self);
        }
        let (mut stream, handle) = self.inner.acquire_write();
        let ghost at = stream.pos;
        let n = stream.read(buf);
        handle.release_write(stream);
        assert(n == read_len(self@, at as nat, old(buf)@.len()));
        n
    }
}

impl Stream {
    /// Moves the stream to `pos`.  Its bytes stay as they are.
    fn seek_to(&mut self, pos: u64)
        ensures
            final(self).pos == pos,
            final(self).bytes() == old(self).bytes(),
    {
        self.pos = pos;
    }

    /// The position `delta` away from this one, if it is a position.
    fn moved(&self, delta: i64) -> (r: Option<u64>)
        ensures
            r == (if 0 <= self.pos + delta <= u64::MAX {
                Some((self.pos + delta) as u64)
            } else {
                None
            }),
    {
        if delta >= 0 {
            let d = delta as u64;
            if d <= u64::MAX - self.pos {
                Some(self.pos + d)
            } else {
                None
            }
        } else {
            let d: u64 = if delta == i64::MIN {
                0x8000_0000_0000_0000
            } else {
                (-delta) as u64
            };
            if d <= self.pos {
                Some(self.pos - d)
            } else {
                None
            }
        }
    }

    /// Reads once from the position: copies what fits into `buf` and moves
    /// the position past it.
    fn read(&mut self, buf: &mut [u8]) -> (n: usize)
        ensures
            n == read_len(old(self).bytes(), old(self).pos as nat, old(buf)@.len()),
            final(buf)@ == read_into(old(self).bytes(), old(self).pos as nat, old(buf)@),
            final(self).bytes() == old(self).bytes(),
            final(self).pos == old(self).pos + n,
    {
        let len = self.data.len();
        if self.pos >= len as u64 {
            return 0;
        }
        let start: usize = self.pos as usize;
        let left: usize = len - start;
        let n: usize = if buf.len() <= left {
            buf.len()
        } else {
            left
        };
        let mut i: usize = 0;
        while i < n
            invariant
                0 <= i <= n,
                start + n <= len,
                len == self.data@.len(),
                n <= buf@.len(),
                buf@.len() == old(buf)@.len(),
                forall|j: int| 0 <= j < i ==> #[trigger] buf@[j] == self.data@[start + j],
                forall|j: int| i <= j < buf@.len() ==> #[trigger] buf@[j] == old(buf)@[j],
            decreases n - i,
        {
            buf[i] = self.data[start + i];
            i += 1;
        }
        assert(buf@ =~= read_into(self.bytes(), self.pos as nat, old(buf)@));
        self.pos = self.pos + n as u64;
        n
    }
}

/// Fills `buf` from `offset` on, by as many reads as it takes, and returns
/// how many bytes were read: all of `buf`, unless the stream ends before.
pub fn try_read_all_async(reader: &AsyncMutexReader, buf: &mut [u8], offset: u64) -> (n: usize)
    ensures
        n == read_len(reader@, offset as nat, old(buf)@.len()),
        final(buf)@ == read_into(reader@, offset as nat, old(buf)@),
{
    let total = buf.len();
    let mut read: usize = 0;
    let mut ended = false;
    proof {
        use_type_invariant(reader);
    }
    while read < total && !ended
        invariant
            0 <= read <= total,
            reader@.len() <= usize::MAX,
            total == old(buf)@.len(),
            buf@.len() == total,
            read == read_len(reader@, offset as nat, read as nat),
            buf@ == read_into(reader@, offset as nat, old(buf)@.subrange(0, read as int))
                + old(buf)@.subrange(read as int, total as int),
            ended ==> read == read_len(reader@, offset as nat, total as nat),
        decreases total - read, (if ended { 0int } else { 1int }),
    {
        let ghost before = buf@;
        let (_, rest) = buf.split_at_mut(read);
        let n = reader.read_at(rest, offset + read as u64);
        if n == 0 {
            ended = true;
        } else {
            read = read + n;
        }
        assert(buf@ =~= read_into(reader@, offset as nat, old(buf)@.subrange(0, read as int))
            + old(buf)@.subrange(read as int, total as int));
    }
    assert(buf@ =~= read_into(reader@, offset as nat, old(buf)@));
    read
}

} // verus!

//! Writing archives: members are appended to an archive in memory.

use vstd::prelude::*;
use crate::async_archive::{
    block_at, lemma_long_name_is_path, raw_step, round_up_block, ArchiveView, Pending, RawStep,
    Resolved,
};
use crate::async_traits::{copy_bytes, strip_nul};
use crate::entry_type::EntryType;
use crate::error::ArchiveError;
use crate::header::{
    block_is_zero, bytes_valid, checksum, contains_nul, gnu_magic, has_nul, is_cksum_byte,
    is_header_byte, is_ustar, lemma_pow8_values, lemma_same_path, lemma_subrange_has_no_nul,
    lemma_with_cksum_decodes, lemma_with_path_bytes, lemma_with_path_decodes,
    lemma_with_size_decodes, lemma_zero_block_has_no_magic, magic_recognized, path_fits,
    spec_entry_type, spec_new_gnu, spec_path, spec_size, ustar_magic, validation_error,
    with_cksum, with_entry_type, with_path, with_size, Header,
};
use crate::octal::{is_octal_digit, lemma_octal_digits_len, octal_digits, pow8};

verus! {

/// `n` zero bytes.
pub open spec fn zeros(n: nat) -> Seq<u8> {
    Seq::new(n, |i: int| 0u8)
}

/// How many bytes are missing after `len` bytes to the next block boundary.
pub open spec fn padding(len: nat) -> nat {
    (round_up_block(len) - len) as nat
}

/// A member as it stands in an archive: its header, its payload, and zero
/// bytes up to the next block boundary.
pub open spec fn member_bytes(header: Seq<u8>, data: Seq<u8>) -> Seq<u8> {
    header + data + zeros(padding(data.len()))
}

/// The name that the header of a long name carries: `././@LongLink`.
pub open spec fn long_link_name() -> Seq<u8> {
    seq![
        0x2eu8, 0x2fu8, 0x2eu8, 0x2fu8, 0x40u8, 0x4cu8, 0x6fu8, 0x6eu8, 0x67u8, 0x4cu8, 0x69u8,
        0x6eu8, 0x6bu8,
    ]
}

/// The header of a long name of `size` bytes.
pub open spec fn long_name_header(size: nat) -> Seq<u8> {
    with_cksum(
        with_size(
            with_entry_type(with_path(spec_new_gnu(), long_link_name()), EntryType::GNULongName),
            size,
        ),
    )
}

/// The first 100 bytes of `path`, or all of it.
pub open spec fn short_path(path: Seq<u8>) -> Seq<u8> {
    if path.len() > 100 {
        path.subrange(0, 100)
    } else {
        path
    }
}

/// The path that the header of a member gets: `path`, if the header `base`
/// can hold it, else its first 100 bytes.
pub open spec fn header_path(base: Seq<u8>, path: Seq<u8>) -> Seq<u8> {
    if path_fits(base, path) {
        path
    } else {
        short_path(path)
    }
}

/// The header `base` with the path `path`, the size `size`, and the checksum
/// of the result.
pub open spec fn filled_header(base: Seq<u8>, path: Seq<u8>, size: nat) -> Seq<u8> {
    with_cksum(with_size(with_path(base, path), size))
}

/// The header that `append_data` writes: `base` with the path, as far as
/// `base` can hold it, the size, and the checksum.
pub open spec fn data_header(base: Seq<u8>, path: Seq<u8>, size: nat) -> Seq<u8> {
    filled_header(base, header_path(base, path), size)
}

/// What `append_data` writes: the member with its header filled in, and
/// before it, if the header cannot hold the path, a long-name member that
/// holds the path and a NUL.
pub open spec fn data_member(base: Seq<u8>, path: Seq<u8>, data: Seq<u8>) -> Seq<u8> {
    let member = member_bytes(data_header(base, path, data.len()), data);
    if path_fits(base, path) {
        member
    } else {
        member_bytes(long_name_header(path.len() + 1), path.push(0u8)) + member
    }
}

/// An archive that is being written.
pub struct Builder {
    data: Vec<u8>,
}

impl View for Builder {
    type V = Seq<u8>;

    closed spec fn view(&self) -> Seq<u8> {
        self.data@
    }
}

impl Builder {
    #[verifier::type_invariant]
    spec fn whole_blocks(&self) -> bool {
        self.data@.len() % 512 == 0
    }

    /// An archive without members.
    pub fn new() -> (r: Builder)
        ensures
            r@ == Seq::<u8>::empty(),
    {
        Builder { data: Vec::new() }
    }

    /// How many bytes were written: a multiple of 512.
    pub fn len(&self) -> (n: usize)
        ensures
            n == self@.len(),
            n % 512 == 0,
    {
        proof {
            use_type_invariant(self);
        }
        self.data.len()
    }

    /// Appends a member: the header as it is, the payload, and the padding.
    /// Fails, and appends nothing, if the header does not declare the length
    /// of the payload as its size.
    pub fn append(&mut self, header: &Header, data: &[u8]) -> (r: Result<(), ArchiveError>)
        ensures
            match r {
                Ok(()) => {
                    &&& spec_size(header@) == Some(data@.len())
                    &&& final(self)@ == old(self)@ + member_bytes(header@, data@)
                },
                Err(e) => {
                    &&& spec_size(header@) != Some(data@.len())
                    &&& e == ArchiveError::InvalidSize
                    &&& final(self)@ == old(self)@
                },
            },
    {
        proof {
            use_type_invariant(&*self);
            header.lemma_len();
        }
        let len = data.len();
        match header.size() {
            Ok(size) => {
                if size != len as u64 {
                    return Err(ArchiveError::InvalidSize);
                }
            },
            Err(_) => {
                return Err(ArchiveError::InvalidSize);
            },
        }
        let mut out: Vec<u8> = Vec::new();
        core::mem::swap(&mut self.data, &mut out);
        let ghost start = out@;
        extend(&mut out, header.as_bytes().as_slice());
        extend(&mut out, data);
        let ghost body = out@;
        let pad: usize = (512 - data.len() % 512) % 512;
        let mut i: usize = 0;
        while i < pad
            invariant
                0 <= i <= pad,
                out@ == body + zeros(i as nat),
            decreases pad - i,
        {
            out.push(0);
            i += 1;
            assert(out@ =~= body + zeros(i as nat));
        }
        assert(pad == padding(data@.len()));
        assert(out@ =~= start + member_bytes(header@, data@));
        core::mem::swap(&mut self.data, &mut out);
        Ok(())
    }

    /// Appends a member with the path `path` and the payload `data`.
    ///
    /// Writes the path, the length of the payload and the checksum into
    /// `header`, whose other fields stay, and appends the member.  Where the
    /// header cannot hold the path, it gets the first 100 bytes of it, and a
    /// long-name member with the whole path goes before the member.  Fails,
    /// and changes nothing, if the path holds a NUL byte or if a length does
    /// not fit its header.
    pub fn append_data(&mut self, header: &mut Header, path: &[u8], data: &[u8]) -> (r: Result<
        (),
        ArchiveError,
    >)
        ensures
            match r {
                Ok(()) => {
                    &&& !has_nul(path@)
                    &&& data@.len() < 0x2_0000_0000
                    &&& path@.len() < 0x1_ffff_ffff
                    &&& final(header)@ == data_header(old(header)@, path@, data@.len())
                    &&& final(self)@ == old(self)@ + data_member(old(header)@, path@, data@)
                },
                Err(e) => {
                    &&& final(header)@ == old(header)@
                    &&& final(self)@ == old(self)@
                    &&& e == (if has_nul(path@) {
                        ArchiveError::EmbeddedNul
                    } else {
                        ArchiveError::ValueTooLarge
                    })
                    &&& (has_nul(path@) || data@.len() >= 0x2_0000_0000 || path@.len()
                        >= 0x1_ffff_ffff)
                },
            },
    {
        proof {
            header.lemma_len();
        }
        if contains_nul(path) {
            return Err(ArchiveError::EmbeddedNul);
        }
        if data.len() as u64 >= 0x2_0000_0000 || path.len() as u64 >= 0x1_ffff_ffff {
            return Err(ArchiveError::ValueTooLarge);
        }
        let ghost start = self@;
        match header.set_path(path) {
            Ok(()) => {},
            Err(_) => {
                let name: [u8; 13] = [
                    0x2e,
                    0x2f,
                    0x2e,
                    0x2f,
                    0x40,
                    0x4c,
                    0x6f,
                    0x6e,
                    0x67,
                    0x4c,
                    0x69,
                    0x6e,
                    0x6b,
                ];
                assert(name@ =~= long_link_name());
                let mut long = Header::new_gnu();
                proof {
                    lemma_new_gnu_is_printable();
                }
                long.set_path(name.as_slice()).unwrap();
                long.set_entry_type(EntryType::GNULongName);
                long.set_size(path.len() as u64 + 1).unwrap();
                proof {
                    long.lemma_len();
                    lemma_cksum_keeps_size(long@);
                }
                long.set_cksum();
                let mut payload = copy_bytes(path);
                payload.push(0);
                assert(payload@ =~= path@.push(0u8));
                self.append(&long, payload.as_slice()).unwrap();
                proof {
                    lemma_subrange_has_no_nul(path@, 0, 100);
                }
                header.set_path(&path[0..100]).unwrap();
            },
        }
        header.set_size(data.len() as u64).unwrap();
        proof {
            header.lemma_len();
            lemma_cksum_keeps_size(header@);
        }
        header.set_cksum();
        self.append(header, data).unwrap();
        assert(self@ =~= start + data_member(old(header)@, path@, data@));
        Ok(())
    }

    /// The archive: what was written, and two zero blocks that end it.
    pub fn into_inner(self) -> (r: Vec<u8>)
        ensures
            r@ == self@ + zeros(1024),
    {
        let Builder { data } = self;
        let mut out = data;
        let ghost start = out@;
        let mut i: usize = 0;
        while i < 1024
            invariant
                0 <= i <= 1024,
                out@ == start + zeros(i as nat),
            decreases 1024 - i,
        {
            out.push(0);
            i += 1;
            assert(out@ =~= start + zeros(i as nat));
        }
        out
    }
}

/// Appends the bytes of `more` to `out`.
pub fn extend(out: &mut Vec<u8>, more: &[u8])
    ensures
        final(out)@ == old(out)@ + more@,
{
    let mut i: usize = 0;
    while i < more.len()
        invariant
            0 <= i <= more@.len(),
            out@ == old(out)@ + more@.subrange(0, i as int),
        decreases more@.len() - i,
    {
        out.push(more[i]);
        i += 1;
        assert(out@ =~= old(out)@ + more@.subrange(0, i as int));
    }
    assert(more@.subrange(0, more@.len() as int) =~= more@);
}

/// Writing the checksum leaves the size as it is.
pub proof fn lemma_cksum_keeps_size(b: Seq<u8>)
    requires
        b.len() == 512,
    ensures
        spec_size(with_cksum(b)) == spec_size(b),
        spec_path(with_cksum(b)) == spec_path(b),
        with_cksum(b)[156] == b[156],
{
    lemma_octal_digits_len(checksum(b), 7);
    assert(with_cksum(b).subrange(124, 136) =~= b.subrange(124, 136));
    assert(with_cksum(b).subrange(0, 100) =~= b.subrange(0, 100));
    assert(with_cksum(b).subrange(345, 500) =~= b.subrange(345, 500));
    assert(with_cksum(b).subrange(257, 265) =~= b.subrange(257, 265));
    lemma_same_path(with_cksum(b), b);
}

/// A byte that is printable ASCII.
pub open spec fn is_printable(x: u8) -> bool {
    0x20 <= x && x <= 0x7e
}

/// Whether every byte of `s` is printable ASCII.
pub open spec fn all_printable(s: Seq<u8>) -> bool {
    forall|i: int| 0 <= i < s.len() ==> is_printable(#[trigger] s[i])
}

/// A header that was filled in is a valid header that holds the path and
/// the size, if the header it was made from has valid bytes and a magic and
/// can hold the path, and the path is printable.
pub proof fn lemma_filled_header_is_valid(base: Seq<u8>, path: Seq<u8>, size: nat)
    requires
        base.len() == 512,
        bytes_valid(base),
        magic_recognized(base),
        path_fits(base, path),
        all_printable(path),
        size < pow8(11),
    ensures
        filled_header(base, path, size).len() == 512,
        validation_error(filled_header(base, path, size)) is None,
        !block_is_zero(filled_header(base, path, size)),
        spec_size(filled_header(base, path, size)) == Some(size),
        spec_path(filled_header(base, path, size)) == path,
        filled_header(base, path, size)[156] == base[156],
{
    let h1 = with_path(base, path);
    let h2 = with_size(h1, size);
    let h3 = with_cksum(h2);
    lemma_with_path_decodes(base, path);
    lemma_with_size_decodes(h1, size);
    lemma_with_cksum_decodes(h2);
    lemma_cksum_keeps_size(h2);
    lemma_pow8_values();
    lemma_octal_digits_len(size, 11);
    lemma_octal_digits_len(checksum(h2), 7);
    assert(h2.subrange(0, 100) =~= h1.subrange(0, 100));
    assert(h2.subrange(345, 500) =~= h1.subrange(345, 500));
    assert(h2.subrange(257, 265) =~= h1.subrange(257, 265));
    lemma_same_path(h2, h1);
    assert forall|i: int| 0 <= i < 512 implies is_header_byte(#[trigger] h3[i]) by {
        assert(is_header_byte(base[i]));
        if 148 <= i < 156 {
            if i < 155 {
                assert(is_octal_digit(octal_digits(checksum(h2), 7)[i - 148]));
            }
        } else if 124 <= i < 136 {
            if i < 135 {
                assert(is_octal_digit(octal_digits(size, 11)[i - 124]));
            }
        } else {
            assert(h3[i] == h1[i]);
            lemma_with_path_bytes(base, path, i);
            if path.contains(h1[i]) {
                let j = choose|j: int| 0 <= j < path.len() && path[j] == h1[i];
                assert(is_printable(path[j]));
            }
        }
    }
    assert forall|i: int| 148 <= i < 156 implies is_cksum_byte(#[trigger] h3[i]) by {
        if i < 155 {
            assert(is_octal_digit(octal_digits(checksum(h2), 7)[i - 148]));
        }
    }
    assert(h3.subrange(257, 265) =~= base.subrange(257, 265));
    if block_is_zero(h3) {
        lemma_zero_block_has_no_magic(h3);
    }
}

/// A printable string holds no NUL byte, and neither do its parts.
pub proof fn lemma_printable_has_no_nul(s: Seq<u8>)
    requires
        all_printable(s),
    ensures
        !has_nul(s),
        all_printable(short_path(s)),
        !has_nul(short_path(s)),
{
    if has_nul(s) {
        let i = choose|i: int| 0 <= i < s.len() && s[i] == 0;
        assert(is_printable(s[i]));
    }
    let t = short_path(s);
    assert forall|i: int| 0 <= i < t.len() implies is_printable(#[trigger] t[i]) by {
        assert(t[i] == s[i]);
    }
    if has_nul(t) {
        let i = choose|i: int| 0 <= i < t.len() && t[i] == 0;
        assert(is_printable(t[i]));
    }
}

/// What is written is read back: where a member stands at a block boundary
/// of an archive, with a valid header that declares the length of its
/// payload, the traversal finds that header there, and the entry for it
/// reads that payload.
pub proof fn lemma_member_is_read_back(
    before: Seq<u8>,
    header: Seq<u8>,
    data: Seq<u8>,
    after: Seq<u8>,
    ignore_zeros: bool,
)
    requires
        header.len() == 512,
        validation_error(header) is None,
        spec_size(header) == Some(data.len()),
        before.len() + 512 + round_up_block(data.len()) <= u64::MAX,
    ensures
        ({
            let bytes = before + member_bytes(header, data) + after;
            let at = before.len();
            &&& raw_step(bytes, at, ignore_zeros) == (RawStep::Member {
                header,
                size: data.len(),
                next: at + 512 + round_up_block(data.len()),
            })
            &&& at + 512 + round_up_block(data.len()) == at + member_bytes(header, data).len()
            &&& data.len() > 0 ==> bytes.subrange(
                (at + 512) as int,
                (at + 512 + data.len()) as int,
            ) == data
        }),
{
    let bytes = before + member_bytes(header, data) + after;
    let at = before.len();
    assert(block_at(bytes, at) =~= header);
    assert(header.subrange(0, 512) =~= header);
    if block_is_zero(header) {
        lemma_zero_block_has_no_magic(header);
    }
    if data.len() > 0 {
        assert(bytes.subrange((at + 512) as int, (at + 512 + data.len()) as int) =~= data);
    }
}

/// A new GNU header has valid bytes and a magic.
pub proof fn lemma_new_gnu_is_printable()
    ensures
        spec_new_gnu().len() == 512,
        bytes_valid(spec_new_gnu()),
        magic_recognized(spec_new_gnu()),
        !is_ustar(spec_new_gnu()),
{
    let b = spec_new_gnu();
    assert(b.subrange(257, 265) =~= gnu_magic());
    assert(b.subrange(257, 265)[5] == 0x20);
    assert(ustar_magic()[5] == 0x00);
    assert forall|i: int| 0 <= i < 512 implies is_header_byte(#[trigger] b[i]) by {
        if 257 <= i < 265 {
            assert(b[i] == gnu_magic()[i - 257]);
        }
    }
}

/// The header of a long name is a valid header of type long name that
/// declares its size.
pub proof fn lemma_long_name_header_is_valid(size: nat)
    requires
        size < pow8(11),
    ensures
        long_name_header(size).len() == 512,
        validation_error(long_name_header(size)) is None,
        spec_size(long_name_header(size)) == Some(size),
        spec_entry_type(long_name_header(size)) == EntryType::GNULongName,
{
    lemma_new_gnu_is_printable();
    let base = with_entry_type(spec_new_gnu(), EntryType::GNULongName);
    let name = long_link_name();
    assert(base.subrange(257, 265) =~= spec_new_gnu().subrange(257, 265));
    assert forall|i: int| 0 <= i < 512 implies is_header_byte(#[trigger] base[i]) by {
        assert(is_header_byte(spec_new_gnu()[i]));
    }
    assert(with_path(base, name) =~= with_entry_type(
        with_path(spec_new_gnu(), name),
        EntryType::GNULongName,
    ));
    assert(!has_nul(name)) by {
        if has_nul(name) {
            let i = choose|i: int| 0 <= i < name.len() && name[i] == 0;
            assert(name[i] != 0);
        }
    }
    assert(all_printable(name));
    assert(long_name_header(size) == filled_header(base, name, size));
    lemma_filled_header_is_valid(base, name, size);
}

/// A member with a valid header that is no long-name, long-link or PAX
/// header, at a block boundary of an archive: the traversal finds it there.
proof fn lemma_member_is_found(
    a: ArchiveView,
    before: Seq<u8>,
    header: Seq<u8>,
    data: Seq<u8>,
    after: Seq<u8>,
)
    requires
        a.bytes == before + member_bytes(header, data) + after,
        header.len() == 512,
        validation_error(header) is None,
        spec_size(header) == Some(data.len()),
        !spec_entry_type(header).spec_is_metadata(),
        before.len() + member_bytes(header, data).len() <= u64::MAX,
    ensures
        a.resolve(before.len(), Pending::none()) == (
        Resolved::Yield {
            entry: a.raw_entry(before.len(), header, data.len()),
            next: before.len() + member_bytes(header, data).len(),
        }),
        a.raw_entry(before.len(), header, data.len()).rest_is_present(),
        a.raw_entry(before.len(), header, data.len()).next_bytes(data.len()) == data,
{
    lemma_member_is_read_back(before, header, data, after, a.ignore_zeros);
    let entry = a.raw_entry(before.len(), header, data.len());
    if data.len() == 0 {
        assert(entry.next_bytes(0) =~= data);
    }
}

/// A long-name member and a member behind it, at a block boundary of an
/// archive: the traversal finds the member, with the long name as its path.
proof fn lemma_long_member_is_found(
    a: ArchiveView,
    before: Seq<u8>,
    path: Seq<u8>,
    header: Seq<u8>,
    data: Seq<u8>,
    after: Seq<u8>,
)
    requires
        a.bytes == before + (member_bytes(long_name_header(path.len() + 1), path.push(0u8))
            + member_bytes(header, data)) + after,
        path.len() + 1 < pow8(11),
        header.len() == 512,
        validation_error(header) is None,
        spec_size(header) == Some(data.len()),
        !spec_entry_type(header).spec_is_metadata(),
        before.len() + member_bytes(long_name_header(path.len() + 1), path.push(0u8)).len()
            + member_bytes(header, data).len() <= u64::MAX,
    ensures
        a.resolve(before.len(), Pending::none()) is Yield,
        ({
            let found = a.resolve(before.len(), Pending::none());
            let entry = found->entry;
            &&& entry.path() == path
            &&& entry.header == header
            &&& entry.size == data.len()
            &&& entry.pos == 0
            &&& entry.rest_is_present()
            &&& entry.next_bytes(entry.size) == data
            &&& found->next == before.len() + member_bytes(
                long_name_header(path.len() + 1),
                path.push(0u8),
            ).len() + member_bytes(header, data).len()
        }),
{
    let size = path.len() + 1;
    let long = long_name_header(size);
    let name = path.push(0u8);
    let first = member_bytes(long, name);
    let second = member_bytes(header, data);
    lemma_long_name_header_is_valid(size);
    assert(a.bytes == before + first + (second + after)) by {
        assert(before + (first + second) + after =~= before + first + (second + after));
    }
    lemma_member_is_read_back(before, long, name, second + after, a.ignore_zeros);
    assert(a.bytes == (before + first) + second + after) by {
        assert(before + (first + second) + after =~= (before + first) + second + after);
    }
    lemma_member_is_read_back(before + first, header, data, after, a.ignore_zeros);
    lemma_long_name_is_path(a, before.len());
    assert(strip_nul(name) == path) by {
        assert(name.drop_last() =~= path);
    }
    let entry = a.raw_entry(before.len() + first.len(), header, data.len());
    if data.len() == 0 {
        assert(entry.next_bytes(0) =~= data);
    }
}

/// The zero blocks that end an archive end the traversal: behind the last
/// member it finds the end, unless zero blocks are not taken as the end.
pub proof fn lemma_end_is_found(a: ArchiveView, before: Seq<u8>, after: Seq<u8>)
    requires
        a.bytes == before + zeros(1024) + after,
        before.len() > 0,
    ensures
        a.resolve(before.len(), Pending::none()) == (if a.ignore_zeros {
            Resolved::Fail { error: ArchiveError::ZeroHeader, offset: before.len() }
        } else {
            Resolved::End
        }),
{
    let block = block_at(a.bytes, before.len());
    assert(block =~= zeros(512));
    assert(block.subrange(0, 512) =~= zeros(512));
}

/// What `append_data` writes, the traversal reads: where the bytes that it
/// writes for a path and a payload stand at a block boundary of an archive,
/// the traversal finds one member there, with that path and that payload,
/// and goes on behind it.  The header that was filled in must have had
/// valid bytes and a magic, and the path must be printable.
pub proof fn lemma_appended_data_is_found(
    a: ArchiveView,
    before: Seq<u8>,
    base: Seq<u8>,
    path: Seq<u8>,
    data: Seq<u8>,
    after: Seq<u8>,
)
    requires
        a.bytes == before + data_member(base, path, data) + after,
        base.len() == 512,
        bytes_valid(base),
        magic_recognized(base),
        !spec_entry_type(base).spec_is_metadata(),
        all_printable(path),
        path.len() < 0x1_ffff_ffff,
        data.len() < 0x2_0000_0000,
        before.len() + data_member(base, path, data).len() <= u64::MAX,
    ensures
        a.resolve(before.len(), Pending::none()) is Yield,
        ({
            let found = a.resolve(before.len(), Pending::none());
            let entry = found->entry;
            &&& entry.path() == path
            &&& entry.header == data_header(base, path, data.len())
            &&& entry.size == data.len()
            &&& entry.pos == 0
            &&& entry.rest_is_present()
            &&& entry.next_bytes(entry.size) == data
            &&& found->next == before.len() + data_member(base, path, data).len()
        }),
{
    lemma_pow8_values();
    lemma_printable_has_no_nul(path);
    let h = data_header(base, path, data.len());
    lemma_filled_header_is_valid(base, header_path(base, path), data.len());
    assert(spec_entry_type(h) == spec_entry_type(base));
    if path_fits(base, path) {
        lemma_member_is_found(a, before, h, data, after);
    } else {
        lemma_long_member_is_found(a, before, path, h, data, after);
    }
}

} // verus!

//! The 512-byte header block of a member and its fields.

use vstd::prelude::*;
use crate::entry_type::EntryType;
use crate::error::ArchiveError;
use crate::octal::{
    encoded_field, fits_u64, is_octal_digit, lemma_encoded_field_round_trip, lemma_nul_pos,
    lemma_nul_pos_bounds, lemma_octal_digits_index, lemma_octal_digits_len,
    lemma_pow8_positive, octal_digits, octal_field, parse_octal, pow8, truncate_nul,
};

verus! {

/// Size of a block: headers are one block, payloads are padded to blocks.
pub const BLOCK_SIZE: u64 = 512;

/// First byte of the name field.
pub const NAME_START: usize = 0;

/// End of the name field.
pub const NAME_END: usize = 100;

/// First byte of the mode field.
pub const MODE_START: usize = 100;

/// End of the mode field.
pub const MODE_END: usize = 108;

/// First byte of the size field.
pub const SIZE_START: usize = 124;

/// End of the size field.
pub const SIZE_END: usize = 136;

/// First byte of the checksum field.
pub const CKSUM_START: usize = 148;

/// End of the checksum field.
pub const CKSUM_END: usize = 156;

/// The byte that holds the type tag.
pub const TYPE_AT: usize = 156;

/// First byte of the link name field.
pub const LINK_START: usize = 157;

/// End of the link name field.
pub const LINK_END: usize = 257;

/// First byte of the magic and version fields.
pub const MAGIC_START: usize = 257;

/// End of the magic and version fields.
pub const MAGIC_END: usize = 265;

/// First byte of the prefix field of a ustar header.
pub const PREFIX_START: usize = 345;

/// End of the prefix field of a ustar header.
pub const PREFIX_END: usize = 500;

/// `"ustar  \0"`: magic and version of a GNU header.
pub open spec fn gnu_magic() -> Seq<u8> {
    seq![0x75u8, 0x73u8, 0x74u8, 0x61u8, 0x72u8, 0x20u8, 0x20u8, 0x00u8]
}

/// `"ustar\0"` and `"00"`: magic and version of a ustar header.
pub open spec fn ustar_magic() -> Seq<u8> {
    seq![0x75u8, 0x73u8, 0x74u8, 0x61u8, 0x72u8, 0x00u8, 0x30u8, 0x30u8]
}

/// Whether every byte of the block is zero.
pub open spec fn block_is_zero(b: Seq<u8>) -> bool {
    forall|i: int| 0 <= i < b.len() ==> #[trigger] b[i] == 0
}

/// A byte that may stand in a header: printable ASCII or zero.
pub open spec fn is_header_byte(x: u8) -> bool {
    x == 0 || (0x20 <= x && x <= 0x7e)
}

/// Whether every byte of the block may stand in a header.
pub open spec fn bytes_valid(b: Seq<u8>) -> bool {
    forall|i: int| 0 <= i < b.len() ==> is_header_byte(#[trigger] b[i])
}

/// Whether the block carries the GNU or the ustar magic.
pub open spec fn magic_recognized(b: Seq<u8>) -> bool {
    let m = b.subrange(257, 265);
    m == gnu_magic() || m == ustar_magic()
}

/// A byte that may stand in the checksum field: an octal digit, a space, or
/// the NUL byte that ends the number.
pub open spec fn is_cksum_byte(x: u8) -> bool {
    x == 0x20 || x == 0 || is_octal_digit(x)
}

/// Whether every byte of the checksum field may stand there.
pub open spec fn cksum_field_valid(b: Seq<u8>) -> bool {
    forall|i: int| 148 <= i < 156 ==> is_cksum_byte(#[trigger] b[i])
}

/// The sum of the bytes of `s`.
pub open spec fn byte_sum(s: Seq<u8>) -> nat
    decreases s.len(),
{
    if s.len() == 0 {
        0
    } else {
        byte_sum(s.drop_last()) + s.last() as nat
    }
}

/// The checksum of a header block: the sum of its bytes, with each of the
/// eight bytes of the checksum field counted as a space.
pub open spec fn checksum(b: Seq<u8>) -> nat {
    byte_sum(b.subrange(0, 148)) + 8 * 32 + byte_sum(b.subrange(156, 512))
}

/// Whether the block carries the ustar magic: such a header may hold the
/// start of a long path in its prefix field.
pub open spec fn is_ustar(b: Seq<u8>) -> bool {
    b.subrange(257, 265) == ustar_magic()
}

/// What the name field holds.
pub open spec fn spec_name(b: Seq<u8>) -> Seq<u8> {
    truncate_nul(b.subrange(0, 100))
}

/// What the prefix field holds.
pub open spec fn spec_prefix(b: Seq<u8>) -> Seq<u8> {
    truncate_nul(b.subrange(345, 500))
}

/// The path of the member: the name, and before it, in a ustar header with
/// a prefix, the prefix and a slash.
pub open spec fn spec_path(b: Seq<u8>) -> Seq<u8> {
    if is_ustar(b) && spec_prefix(b).len() > 0 {
        spec_prefix(b).push(0x2fu8) + spec_name(b)
    } else {
        spec_name(b)
    }
}

/// Whether `path` can be split at `k` into a prefix and a name: a slash
/// stands at `k`, with at least one and at most 155 bytes before it and at
/// most 100 bytes after it.
pub open spec fn split_ok(path: Seq<u8>, k: int) -> bool {
    0 < k < path.len() && k <= 155 && path[k] == 0x2f && path.len() - k - 1 <= 100
}

/// The last place at or before `k` at which `path` can be split; 0 if there
/// is none.
pub open spec fn split_from(path: Seq<u8>, k: int) -> int
    decreases k,
{
    if k <= 0 {
        0
    } else if split_ok(path, k) {
        k
    } else {
        split_from(path, k - 1)
    }
}

/// The last place at which `path` can be split into a prefix and a name; 0
/// if there is none.
pub open spec fn ustar_split(path: Seq<u8>) -> int {
    split_from(
        path,
        if path.len() - 1 < 155 {
            path.len() - 1
        } else {
            155
        },
    )
}

/// Whether the header `b` can hold `path`: it has no NUL byte, and it fits
/// the name field, or `b` is a ustar header and `path` can be split.
pub open spec fn path_fits(b: Seq<u8>, path: Seq<u8>) -> bool {
    !has_nul(path) && (path.len() <= 100 || (is_ustar(b) && ustar_split(path) > 0))
}

/// The link target that the block holds, if it holds one.
pub open spec fn spec_link_name(b: Seq<u8>) -> Option<Seq<u8>> {
    let l = truncate_nul(b.subrange(157, 257));
    if l.len() == 0 {
        None
    } else {
        Some(l)
    }
}

/// The number in the size field, if it holds one.
pub open spec fn spec_size(b: Seq<u8>) -> Option<nat> {
    octal_field(b.subrange(124, 136))
}

/// The number in the mode field, if it holds one.
pub open spec fn spec_mode(b: Seq<u8>) -> Option<nat> {
    octal_field(b.subrange(100, 108))
}

/// The number in the checksum field, if it holds one.
pub open spec fn spec_cksum(b: Seq<u8>) -> Option<nat> {
    octal_field(b.subrange(148, 156))
}

/// The type that the type tag of the block stands for.
pub open spec fn spec_entry_type(b: Seq<u8>) -> EntryType {
    EntryType::spec_new(b[156])
}

/// A field value as far as it fits in 32 bits.
pub open spec fn fits_u32(v: Option<nat>) -> Option<u32> {
    match v {
        Some(n) => if n <= u32::MAX {
            Some(n as u32)
        } else {
            None
        },
        None => None,
    }
}

/// Why a block is no valid header, if it is none: the first of the checks
/// that fails, in the order bytes, magic, checksum field, checksum.
pub open spec fn validation_error(b: Seq<u8>) -> Option<ArchiveError> {
    if !bytes_valid(b) {
        Some(ArchiveError::InvalidBytes)
    } else if !magic_recognized(b) {
        Some(ArchiveError::UnrecognizedMagic)
    } else if !cksum_field_valid(b) {
        Some(ArchiveError::InvalidChecksumField)
    } else {
        match fits_u32(spec_cksum(b)) {
            None => Some(ArchiveError::InvalidChecksum),
            Some(c) => if c == checksum(b) {
                None
            } else {
                Some(ArchiveError::ChecksumMismatch)
            },
        }
    }
}

/// `b` with the bytes from `start` on replaced by `field`.
pub open spec fn with_field(b: Seq<u8>, start: int, field: Seq<u8>) -> Seq<u8> {
    Seq::new(
        b.len(),
        |i: int|
            if start <= i < start + field.len() {
                field[i - start]
            } else {
                b[i]
            },
    )
}

/// `s` followed by NUL bytes up to `width` bytes.
pub open spec fn pad_nul(s: Seq<u8>, width: nat) -> Seq<u8> {
    Seq::new(
        width,
        |i: int|
            if i < s.len() {
                s[i]
            } else {
                0u8
            },
    )
}

/// Whether a NUL byte stands in `s`.
pub open spec fn has_nul(s: Seq<u8>) -> bool {
    exists|i: int| 0 <= i < s.len() && #[trigger] s[i] == 0
}

/// A zero block that holds nothing but the GNU magic.
pub open spec fn spec_new_gnu() -> Seq<u8> {
    with_field(Seq::new(512, |i: int| 0u8), 257, gnu_magic())
}

/// A zero block that holds nothing but the ustar magic.
pub open spec fn spec_new_ustar() -> Seq<u8> {
    with_field(Seq::new(512, |i: int| 0u8), 257, ustar_magic())
}

/// `b` with `path` written into it: into the name field where it fits
/// there, with the prefix field of a ustar header cleared; else, in a ustar
/// header, into the prefix field and the name field, split at its last slash
/// that allows it.
pub open spec fn with_path(b: Seq<u8>, path: Seq<u8>) -> Seq<u8> {
    if !is_ustar(b) {
        with_field(b, 0, pad_nul(path, 100))
    } else if path.len() <= 100 {
        with_field(with_field(b, 0, pad_nul(path, 100)), 345, pad_nul(Seq::empty(), 155))
    } else {
        let k = ustar_split(path);
        with_field(
            with_field(b, 0, pad_nul(path.subrange(k + 1, path.len() as int), 100)),
            345,
            pad_nul(path.subrange(0, k), 155),
        )
    }
}

/// `b` with `link`, padded with NUL bytes, as its link name field.
pub open spec fn with_link_name(b: Seq<u8>, link: Seq<u8>) -> Seq<u8> {
    with_field(b, 157, pad_nul(link, 100))
}

/// `b` with `size` written into its size field.
pub open spec fn with_size(b: Seq<u8>, size: nat) -> Seq<u8> {
    with_field(b, 124, encoded_field(size, 12))
}

/// `b` with `mode` written into its mode field.
pub open spec fn with_mode(b: Seq<u8>, mode: nat) -> Seq<u8> {
    with_field(b, 100, encoded_field(mode, 8))
}

/// `b` with the tag of `t` as its type tag.
pub open spec fn with_entry_type(b: Seq<u8>, t: EntryType) -> Seq<u8> {
    b.update(156, t.spec_as_byte())
}

/// `b` with its checksum written into its checksum field.
pub open spec fn with_cksum(b: Seq<u8>) -> Seq<u8> {
    with_field(b, 148, encoded_field(checksum(b), 8))
}

/// One header block.
#[derive(Clone, Copy, Debug)]
pub struct Header {
    bytes: [u8; 512],
}

impl View for Header {
    type V = Seq<u8>;

    closed spec fn view(&self) -> Seq<u8> {
        self.bytes@
    }
}

impl Header {
    /// A header is 512 bytes.
    pub proof fn lemma_len(self)
        ensures
            self@.len() == 512,
    {
    }

    /// A new GNU header: all zero but for the magic.
    pub fn new_gnu() -> (h: Header)
        ensures
            h@ == spec_new_gnu(),
    {
        let mut bytes = [0u8;512];
        bytes[257] = 0x75;
        bytes[258] = 0x73;
        bytes[259] = 0x74;
        bytes[260] = 0x61;
        bytes[261] = 0x72;
        bytes[262] = 0x20;
        bytes[263] = 0x20;
        bytes[264] = 0x00;
        let h = Header { bytes };
        assert(h@ =~= spec_new_gnu());
        h
    }

    /// A new ustar header: all zero but for the magic.
    pub fn new_ustar() -> (h: Header)
        ensures
            h@ == spec_new_ustar(),
    {
        let mut bytes = [0u8;512];
        bytes[257] = 0x75;
        bytes[258] = 0x73;
        bytes[259] = 0x74;
        bytes[260] = 0x61;
        bytes[261] = 0x72;
        bytes[262] = 0x00;
        bytes[263] = 0x30;
        bytes[264] = 0x30;
        let h = Header { bytes };
        assert(h@ =~= spec_new_ustar());
        h
    }

    /// The header that a block of 512 bytes holds.
    pub fn from_byte_slice(block: &[u8]) -> (h: Header)
        requires
            block@.len() == 512,
        ensures
            h@ == block@,
    {
        let mut bytes = [0u8;512];
        let mut i: usize = 0;
        while i < 512
            invariant
                0 <= i <= 512,
                block@.len() == 512,
                forall|j: int| 0 <= j < i ==> bytes@[j] == block@[j],
            decreases 512 - i,
        {
            bytes[i] = block[i];
            i += 1;
        }
        let h = Header { bytes };
        assert(h@ =~= block@);
        h
    }

    /// The block itself.
    pub fn as_bytes(&self) -> (b: &[u8; 512])
        ensures
            b@ == self@,
    {
        &self.bytes
    }

    /// Whether every byte of the block is zero.
    pub fn is_zero(&self) -> (r: bool)
        ensures
            r == block_is_zero(self@),
    {
        let mut i: usize = 0;
        while i < 512
            invariant
                0 <= i <= 512,
                forall|j: int| 0 <= j < i ==> self.bytes@[j] == 0,
            decreases 512 - i,
        {
            if self.bytes[i] != 0 {
                return false;
            }
            i += 1;
        }
        true
    }

    /// The bytes of the field `[start, end)` before its first NUL.
    fn read_str(&self, start: usize, end: usize) -> (r: Vec<u8>)
        requires
            start <= end <= 512,
        ensures
            r@ == truncate_nul(self@.subrange(start as int, end as int)),
    {
        let ghost field = self@.subrange(start as int, end as int);
        let mut r: Vec<u8> = Vec::new();
        let mut i: usize = start;
        while i < end && self.bytes[i] != 0
            invariant
                start <= i <= end <= 512,
                field == self@.subrange(start as int, end as int),
                r@ == field.subrange(0, i - start),
                forall|j: int| 0 <= j < i - start ==> field[j] != 0,
            decreases end - i,
        {
            r.push(self.bytes[i]);
            i += 1;
            assert(r@ =~= field.subrange(0, i - start));
        }
        proof {
            lemma_nul_pos(field, 0, i - start);
        }
        r
    }

    /// The number in the field `[start, end)`.
    fn read_octal(&self, start: usize, end: usize) -> (r: Option<u64>)
        requires
            start <= end <= 512,
        ensures
            r == fits_u64(octal_field(self@.subrange(start as int, end as int))),
    {
        let block = self.bytes.as_slice();
        parse_octal(&block[start..end])
    }

    /// Whether the header carries the ustar magic.
    pub fn is_ustar(&self) -> (r: bool)
        ensures
            r == is_ustar(self@),
    {
        let b = &self.bytes;
        let r = b[257] == 0x75 && b[258] == 0x73 && b[259] == 0x74 && b[260] == 0x61 && b[261]
            == 0x72 && b[262] == 0x00 && b[263] == 0x30 && b[264] == 0x30;
        proof {
            let m = self@.subrange(257, 265);
            if m == ustar_magic() {
                assert(m[0] == 0x75 && m[1] == 0x73 && m[2] == 0x74 && m[3] == 0x61 && m[4]
                    == 0x72 && m[5] == 0x00 && m[6] == 0x30 && m[7] == 0x30);
            }
            if r {
                assert(m =~= ustar_magic());
            }
        }
        r
    }

    /// The path of the member: the name field up to its first NUL, and
    /// before it, in a ustar header with a prefix, the prefix and a slash.
    pub fn path(&self) -> (p: Vec<u8>)
        ensures
            p@ == spec_path(self@),
    {
        let name = self.read_str(NAME_START, NAME_END);
        if self.is_ustar() {
            let mut path = self.read_str(PREFIX_START, PREFIX_END);
            if path.len() > 0 {
                path.push(0x2f);
                let ghost head = path@;
                let mut i: usize = 0;
                while i < name.len()
                    invariant
                        0 <= i <= name@.len(),
                        path@ == head + name@.subrange(0, i as int),
                    decreases name@.len() - i,
                {
                    path.push(name[i]);
                    i += 1;
                    assert(path@ =~= head + name@.subrange(0, i as int));
                }
                assert(name@.subrange(0, name@.len() as int) =~= name@);
                return path;
            }
        }
        name
    }

    /// The link target of the member, if the link field holds one.
    pub fn link_name(&self) -> (l: Option<Vec<u8>>)
        ensures
            match l {
                Some(v) => spec_link_name(self@) == Some(v@),
                None => spec_link_name(self@) is None,
            },
    {
        let v = self.read_str(LINK_START, LINK_END);
        if v.len() == 0 {
            None
        } else {
            Some(v)
        }
    }

    /// The type of the member.
    pub fn entry_type(&self) -> (t: EntryType)
        ensures
            t == spec_entry_type(self@),
            t.wf(),
    {
        EntryType::new(self.bytes[TYPE_AT])
    }

    /// The declared size of the payload.
    pub fn size(&self) -> (r: Result<u64, ArchiveError>)
        ensures
            r == match fits_u64(spec_size(self@)) {
                Some(v) => Ok::<u64, ArchiveError>(v),
                None => Err(ArchiveError::InvalidSize),
            },
    {
        match self.read_octal(SIZE_START, SIZE_END) {
            Some(v) => Ok(v),
            None => Err(ArchiveError::InvalidSize),
        }
    }

    /// The permission bits of the member.
    pub fn mode(&self) -> (r: Result<u32, ArchiveError>)
        ensures
            r == match fits_u32(spec_mode(self@)) {
                Some(v) => Ok::<u32, ArchiveError>(v),
                None => Err(ArchiveError::InvalidMode),
            },
    {
        match self.read_octal(MODE_START, MODE_END) {
            Some(v) => if v <= 0xffff_ffff {
                Ok(v as u32)
            } else {
                Err(ArchiveError::InvalidMode)
            },
            None => Err(ArchiveError::InvalidMode),
        }
    }

    /// The checksum that the header declares.
    pub fn cksum(&self) -> (r: Result<u32, ArchiveError>)
        ensures
            r == match fits_u32(spec_cksum(self@)) {
                Some(v) => Ok::<u32, ArchiveError>(v),
                None => Err(ArchiveError::InvalidChecksum),
            },
    {
        match self.read_octal(CKSUM_START, CKSUM_END) {
            Some(v) => if v <= 0xffff_ffff {
                Ok(v as u32)
            } else {
                Err(ArchiveError::InvalidChecksum)
            },
            None => Err(ArchiveError::InvalidChecksum),
        }
    }

    /// Sum of the bytes of `[start, end)`.
    fn sum_range(&self, start: usize, end: usize) -> (s: u32)
        requires
            start <= end <= 512,
        ensures
            s == byte_sum(self@.subrange(start as int, end as int)),
            s <= 255 * (end - start),
    {
        let mut s: u32 = 0;
        let mut i: usize = start;
        assert(byte_sum(self@.subrange(start as int, start as int)) == 0);
        while i < end
            invariant
                start <= i <= end <= 512,
                s == byte_sum(self@.subrange(start as int, i as int)),
                s <= 255 * (i - start),
            decreases end - i,
        {
            proof {
                let next = self@.subrange(start as int, i + 1);
                assert(next.drop_last() =~= self@.subrange(start as int, i as int));
                assert(next.last() == self@[i as int]);
            }
            s = s + self.bytes[i] as u32;
            i += 1;
        }
        s
    }

    /// The checksum of the block as it stands.
    pub fn compute_cksum(&self) -> (s: u32)
        ensures
            s == checksum(self@),
            s <= 130560,
    {
        let a = self.sum_range(0, CKSUM_START);
        let b = self.sum_range(CKSUM_END, 512);
        a + 256 + b
    }

    /// Checks the block as a header: its bytes, its magic, the bytes of its
    /// checksum field, and the checksum itself, in this order.
    pub fn validate(&self) -> (r: Result<(), ArchiveError>)
        ensures
            r == match validation_error(self@) {
                Some(e) => Err::<(), ArchiveError>(e),
                None => Ok(()),
            },
    {
        let mut i: usize = 0;
        while i < 512
            invariant
                0 <= i <= 512,
                forall|j: int| 0 <= j < i ==> is_header_byte(#[trigger] self.bytes@[j]),
            decreases 512 - i,
        {
            let x = self.bytes[i];
            if !(x == 0 || (0x20 <= x && x <= 0x7e)) {
                return Err(ArchiveError::InvalidBytes);
            }
            i += 1;
        }
        let b = &self.bytes;
        let common = b[257] == 0x75 && b[258] == 0x73 && b[259] == 0x74 && b[260] == 0x61 && b[261]
            == 0x72;
        let gnu = common && b[262] == 0x20 && b[263] == 0x20 && b[264] == 0x00;
        let ustar = common && b[262] == 0x00 && b[263] == 0x30 && b[264] == 0x30;
        proof {
            let m = self@.subrange(257, 265);
            assert(gnu <==> m =~= gnu_magic()) by {
                if m =~= gnu_magic() {
                    assert(forall|j: int| 0 <= j < 8 ==> m[j] == gnu_magic()[j]);
                    assert(m[0] == 0x75 && m[1] == 0x73 && m[2] == 0x74 && m[3] == 0x61 && m[4]
                        == 0x72 && m[5] == 0x20 && m[6] == 0x20 && m[7] == 0x00);
                }
            }
            assert(ustar <==> m =~= ustar_magic()) by {
                if m =~= ustar_magic() {
                    assert(forall|j: int| 0 <= j < 8 ==> m[j] == ustar_magic()[j]);
                    assert(m[0] == 0x75 && m[1] == 0x73 && m[2] == 0x74 && m[3] == 0x61 && m[4]
                        == 0x72 && m[5] == 0x00 && m[6] == 0x30 && m[7] == 0x30);
                }
            }
        }
        if !gnu && !ustar {
            return Err(ArchiveError::UnrecognizedMagic);
        }
        let mut k: usize = CKSUM_START;
        while k < CKSUM_END
            invariant
                148 <= k <= 156,
                bytes_valid(self@),
                magic_recognized(self@),
                forall|j: int| 148 <= j < k ==> is_cksum_byte(#[trigger] self@[j]),
            decreases 156 - k,
        {
            let x = self.bytes[k];
            if !(x == 0x20 || x == 0 || (0x30 <= x && x <= 0x37)) {
                assert(!is_cksum_byte(self@[k as int]));
                return Err(ArchiveError::InvalidChecksumField);
            }
            k += 1;
        }
        match self.cksum() {
            Err(e) => Err(e),
            Ok(declared) => {
                if declared == self.compute_cksum() {
                    Ok(())
                } else {
                    Err(ArchiveError::ChecksumMismatch)
                }
            },
        }
    }

    /// Writes `value` and NUL bytes after it into the field of `width` bytes at `start`.
    fn write_str(&mut self, start: usize, width: usize, value: &[u8])
        requires
            value@.len() <= width,
            start + width <= 512,
        ensures
            final(self)@ == with_field(old(self)@, start as int, pad_nul(value@, width as nat)),
    {
        let mut i: usize = 0;
        while i < width
            invariant
                0 <= i <= width,
                start + width <= 512,
                value@.len() <= width,
                forall|j: int|
                    0 <= j < 512 ==> #[trigger] self@[j] == (if start <= j < start + i {
                        pad_nul(value@, width as nat)[j - start]
                    } else {
                        old(self)@[j]
                    }),
            decreases width - i,
        {
            let b = if i < value.len() {
                value[i]
            } else {
                0
            };
            let ghost before = self@;
            self.bytes[start + i] = b;
            assert(self@ == before.update(start + i, b));
            assert(pad_nul(value@, width as nat)[i as int] == b);
            i += 1;
        }
        assert(self@ =~= with_field(old(self)@, start as int, pad_nul(value@, width as nat)));
    }

    /// Writes `value` as `width - 1` octal digits and a NUL into the field at `start`.
    fn write_octal(&mut self, start: usize, width: usize, value: u64)
        requires
            2 <= width,
            start + width <= 512,
        ensures
            final(self)@ == with_field(
                old(self)@,
                start as int,
                encoded_field(value as nat, width as nat),
            ),
    {
        let n: usize = width - 1;
        let ghost digits = octal_digits(value as nat, n as nat);
        proof {
            lemma_octal_digits_len(value as nat, n as nat);
        }
        self.bytes[start + n] = 0;
        let mut v: u64 = value;
        let mut j: usize = 0;
        while j < n
            invariant
                0 <= j <= n,
                n == width - 1,
                start + width <= 512,
                digits == octal_digits(value as nat, n as nat),
                digits.len() == n,
                v == value as nat / pow8(j as nat),
                self@[start + n] == 0,
                forall|i: int|
                    0 <= i < 512 && !(start <= i < start + width) ==> #[trigger] self@[i] == old(
                        self,
                    )@[i],
                forall|t: int| n - j <= t < n ==> #[trigger] self@[start + t] == digits[t],
            decreases n - j,
        {
            let d: u8 = (v % 8) as u8;
            let t: usize = n - 1 - j;
            proof {
                lemma_octal_digits_index(value as nat, n as nat, t as int);
                lemma_pow8_positive(j as nat);
                vstd::arithmetic::div_mod::lemma_div_denominator(
                    value as int,
                    pow8(j as nat) as int,
                    8,
                );
                assert(pow8((j + 1) as nat) == 8 * pow8(j as nat));
                assert(pow8(j as nat) * 8 == 8 * pow8(j as nat)) by (nonlinear_arith);
                assert((n - 1 - t) as nat == j as nat);
            }
            let ghost before = self@;
            self.bytes[start + t] = 0x30 + d;
            assert(self@ == before.update(start + t, (0x30 + d) as u8));
            v = v / 8;
            j += 1;
        }
        proof {
            let field = encoded_field(value as nat, width as nat);
            let after = with_field(old(self)@, start as int, field);
            assert(field.len() == width);
            assert forall|i: int| 0 <= i < 512 implies self@[i] == after[i] by {
                if start <= i < start + n {
                    assert(self@[start + (i - start)] == digits[i - start]);
                    assert(field[i - start] == digits[i - start]);
                } else if i == start + n {
                    assert(field[n as int] == 0);
                }
            }
        }
        assert(self@ =~= with_field(
            old(self)@,
            start as int,
            encoded_field(value as nat, width as nat),
        ));
    }

    /// Sets the path of the member.
    ///
    /// The path must hold no NUL byte and fit the header: the name field
    /// takes 100 bytes; a ustar header takes a longer path if it can be split
    /// at a slash into at most 155 bytes for the prefix field and at most 100
    /// for the name field.  The last such slash is taken.
    pub fn set_path(&mut self, path: &[u8]) -> (r: Result<(), ArchiveError>)
        ensures
            match r {
                Ok(()) => {
                    &&& path_fits(old(self)@, path@)
                    &&& final(self)@ == with_path(old(self)@, path@)
                    &&& spec_path(final(self)@) == path@
                },
                Err(e) => {
                    &&& !path_fits(old(self)@, path@)
                    &&& final(self)@ == old(self)@
                    &&& e == (if has_nul(path@) {
                        ArchiveError::EmbeddedNul
                    } else {
                        ArchiveError::ValueTooLong
                    })
                },
            },
    {
        if contains_nul(path) {
            return Err(ArchiveError::EmbeddedNul);
        }
        let ustar = self.is_ustar();
        let len = path.len();
        proof {
            self.lemma_len();
        }
        if len <= 100 {
            proof {
                lemma_with_path_decodes(self@, path@);
            }
            self.write_str(NAME_START, 100, path);
            if ustar {
                let none: [u8; 0] = [];
                assert(none@ =~= Seq::<u8>::empty());
                self.write_str(PREFIX_START, 155, none.as_slice());
            }
            return Ok(());
        }
        if !ustar {
            return Err(ArchiveError::ValueTooLong);
        }
        let top: usize = if len - 1 < 155 {
            len - 1
        } else {
            155
        };
        let mut k: usize = top;
        while k > 0 && !(path[k] == 0x2f && len - k - 1 <= 100)
            invariant
                0 <= k <= top < len,
                top <= 155,
                len == path@.len(),
                split_from(path@, top as int) == split_from(path@, k as int),
            decreases k,
        {
            k -= 1;
        }
        if k == 0 {
            return Err(ArchiveError::ValueTooLong);
        }
        proof {
            lemma_with_path_decodes(self@, path@);
        }
        self.write_str(NAME_START, 100, &path[k + 1..len]);
        self.write_str(PREFIX_START, 155, &path[0..k]);
        Ok(())
    }

    /// Sets the link target of the member; an empty target means none.
    ///
    /// The target must fit the link field (100 bytes) and hold no NUL byte.
    pub fn set_link_name(&mut self, link: &[u8]) -> (r: Result<(), ArchiveError>)
        ensures
            match r {
                Ok(()) => {
                    &&& link@.len() <= 100
                    &&& !has_nul(link@)
                    &&& final(self)@ == with_link_name(old(self)@, link@)
                    &&& spec_link_name(final(self)@) == (if link@.len() == 0 {
                        None
                    } else {
                        Some(link@)
                    })
                },
                Err(e) => {
                    &&& final(self)@ == old(self)@
                    &&& e == (if has_nul(link@) {
                        ArchiveError::EmbeddedNul
                    } else {
                        ArchiveError::ValueTooLong
                    })
                    &&& (link@.len() > 100 || has_nul(link@))
                },
            },
    {
        if contains_nul(link) {
            return Err(ArchiveError::EmbeddedNul);
        }
        if link.len() > 100 {
            return Err(ArchiveError::ValueTooLong);
        }
        proof {
            self.lemma_len();
            lemma_with_link_name_decodes(self@, link@);
        }
        self.write_str(LINK_START, 100, link);
        Ok(())
    }

    /// Sets the declared size of the payload: eleven octal digits, so less than `8^11`.
    pub fn set_size(&mut self, size: u64) -> (r: Result<(), ArchiveError>)
        ensures
            match r {
                Ok(()) => {
                    &&& size < 0x2_0000_0000
                    &&& final(self)@ == with_size(old(self)@, size as nat)
                    &&& spec_size(final(self)@) == Some(size as nat)
                },
                Err(e) => {
                    &&& size >= 0x2_0000_0000
                    &&& e == ArchiveError::ValueTooLarge
                    &&& final(self)@ == old(self)@
                },
            },
    {
        if size >= 0x2_0000_0000 {
            return Err(ArchiveError::ValueTooLarge);
        }
        proof {
            self.lemma_len();
            lemma_pow8_values();
            lemma_with_size_decodes(self@, size as nat);
        }
        self.write_octal(SIZE_START, 12, size);
        Ok(())
    }

    /// Sets the permission bits: seven octal digits, so less than `8^7`.
    pub fn set_mode(&mut self, mode: u32) -> (r: Result<(), ArchiveError>)
        ensures
            match r {
                Ok(()) => {
                    &&& mode < 0x20_0000
                    &&& final(self)@ == with_mode(old(self)@, mode as nat)
                    &&& spec_mode(final(self)@) == Some(mode as nat)
                },
                Err(e) => {
                    &&& mode >= 0x20_0000
                    &&& e == ArchiveError::ValueTooLarge
                    &&& final(self)@ == old(self)@
                },
            },
    {
        if mode >= 0x20_0000 {
            return Err(ArchiveError::ValueTooLarge);
        }
        proof {
            self.lemma_len();
            lemma_pow8_values();
            lemma_with_mode_decodes(self@, mode as nat);
        }
        self.write_octal(MODE_START, 8, mode as u64);
        Ok(())
    }

    /// Sets the type of the member.
    pub fn set_entry_type(&mut self, t: EntryType)
        ensures
            final(self)@ == with_entry_type(old(self)@, t),
            t.wf() ==> spec_entry_type(final(self)@) == t,
    {
        self.bytes[TYPE_AT] = t.as_byte();
        assert(self@ =~= with_entry_type(old(self)@, t));
    }

    /// Writes the checksum of the block into its checksum field.
    pub fn set_cksum(&mut self)
        ensures
            final(self)@ == with_cksum(old(self)@),
            spec_cksum(final(self)@) == Some(checksum(final(self)@)),
    {
        let sum = self.compute_cksum();
        proof {
            self.lemma_len();
            lemma_with_cksum_decodes(self@);
        }
        self.write_octal(CKSUM_START, 8, sum as u64);
    }
}

/// Whether a NUL byte stands in `s`.
pub fn contains_nul(s: &[u8]) -> (r: bool)
    ensures
        r == has_nul(s@),
{
    let mut i: usize = 0;
    while i < s.len()
        invariant
            0 <= i <= s@.len(),
            forall|j: int| 0 <= j < i ==> s@[j] != 0,
        decreases s@.len() - i,
    {
        if s[i] == 0 {
            return true;
        }
        i += 1;
    }
    false
}

/// The bounds of the mode field and of the size field.
pub proof fn lemma_pow8_values()
    ensures
        pow8(7) == 0x20_0000,
        pow8(11) == 0x2_0000_0000,
{
    reveal_with_fuel(pow8, 12);
}

/// No byte counts for more than 255.
pub proof fn lemma_byte_sum_bound(s: Seq<u8>)
    ensures
        byte_sum(s) <= 255 * s.len(),
    decreases s.len(),
{
    if s.len() > 0 {
        lemma_byte_sum_bound(s.drop_last());
    }
}

/// A field that is written does not change what stands outside it.
pub proof fn lemma_with_field_frame(b: Seq<u8>, start: int, field: Seq<u8>, lo: int, hi: int)
    requires
        0 <= lo <= hi <= b.len(),
        hi <= start || start + field.len() <= lo,
    ensures
        with_field(b, start, field).subrange(lo, hi) == b.subrange(lo, hi),
{
    assert(with_field(b, start, field).subrange(lo, hi) =~= b.subrange(lo, hi));
}

/// A field that is written can be read back.
pub proof fn lemma_with_field_read(b: Seq<u8>, start: int, field: Seq<u8>)
    requires
        0 <= start,
        start + field.len() <= b.len(),
    ensures
        with_field(b, start, field).subrange(start, start + field.len()) == field,
{
    assert(with_field(b, start, field).subrange(start, start + field.len()) =~= field);
}

/// A name that is padded with NUL bytes is read back as it was.
pub proof fn lemma_pad_nul_truncates(s: Seq<u8>, width: nat)
    requires
        s.len() <= width,
        !has_nul(s),
    ensures
        truncate_nul(pad_nul(s, width)) == s,
{
    let f = pad_nul(s, width);
    assert forall|i: int| 0 <= i < s.len() implies f[i] != 0 by {
        assert(f[i] == s[i]);
    }
    lemma_nul_pos(f, 0, s.len() as int);
    assert(f.subrange(0, s.len() as int) =~= s);
}

/// A string without a NUL byte has none in its parts.
pub proof fn lemma_subrange_has_no_nul(s: Seq<u8>, i: int, j: int)
    requires
        !has_nul(s),
        0 <= i <= j <= s.len(),
    ensures
        !has_nul(s.subrange(i, j)),
{
    if has_nul(s.subrange(i, j)) {
        let k = choose|k: int| 0 <= k < j - i && s.subrange(i, j)[k] == 0;
        assert(s[i + k] == 0);
    }
}

/// Where the search for a split ends, the path can be split, and nowhere
/// after it up to where the search began.
pub proof fn lemma_split_from(path: Seq<u8>, k: int)
    ensures
        0 <= split_from(path, k),
        split_from(path, k) <= k || k < 0,
        split_from(path, k) > 0 ==> split_ok(path, split_from(path, k)),
        forall|j: int| split_from(path, k) < j <= k ==> !split_ok(path, j),
    decreases k,
{
    if k > 0 && !split_ok(path, k) {
        lemma_split_from(path, k - 1);
    }
}

/// A path that can be split somewhere has a last split.
pub proof fn lemma_split_exists(path: Seq<u8>, j: int)
    requires
        split_ok(path, j),
    ensures
        ustar_split(path) >= j,
        split_ok(path, ustar_split(path)),
{
    let top = if path.len() - 1 < 155 {
        path.len() - 1
    } else {
        155
    };
    lemma_split_from(path, top);
}

/// Two blocks with the same name field, prefix field and magic hold the
/// same path.
pub proof fn lemma_same_path(a: Seq<u8>, b: Seq<u8>)
    requires
        a.subrange(0, 100) == b.subrange(0, 100),
        a.subrange(345, 500) == b.subrange(345, 500),
        a.subrange(257, 265) == b.subrange(257, 265),
    ensures
        spec_path(a) == spec_path(b),
        is_ustar(a) == is_ustar(b),
{
}

/// Writing a path brings no bytes into a block but those of the path, and
/// zero.
pub proof fn lemma_with_path_bytes(b: Seq<u8>, path: Seq<u8>, i: int)
    requires
        b.len() == 512,
        path_fits(b, path),
        0 <= i < 512,
    ensures
        with_path(b, path)[i] == b[i] || with_path(b, path)[i] == 0 || path.contains(
            with_path(b, path)[i],
        ),
{
    let w = with_path(b, path);
    if !is_ustar(b) || path.len() <= 100 {
        if i < path.len() && i < 100 {
            assert(w[i] == path[i]);
        }
    } else {
        let k = ustar_split(path);
        lemma_split_from(
            path,
            if path.len() - 1 < 155 {
                path.len() - 1
            } else {
                155
            },
        );
        if 345 <= i < 345 + k {
            assert(w[i] == path[i - 345]);
        } else if i < path.len() - k - 1 {
            assert(w[i] == path[k + 1 + i]);
        }
    }
}

/// A path that is written can be read back.
pub proof fn lemma_with_path_decodes(b: Seq<u8>, path: Seq<u8>)
    requires
        b.len() == 512,
        path_fits(b, path),
    ensures
        with_path(b, path).len() == 512,
        spec_path(with_path(b, path)) == path,
        with_path(b, path).subrange(257, 265) == b.subrange(257, 265),
        forall|i: int|
            100 <= i < 345 || 500 <= i < 512 ==> #[trigger] with_path(b, path)[i] == b[i],
{
    let h = with_path(b, path);
    assert(h.subrange(257, 265) =~= b.subrange(257, 265));
    if !is_ustar(b) {
        lemma_with_field_read(b, 0, pad_nul(path, 100));
        lemma_pad_nul_truncates(path, 100);
    } else if path.len() <= 100 {
        let none = Seq::<u8>::empty();
        let h1 = with_field(b, 0, pad_nul(path, 100));
        lemma_with_field_read(b, 0, pad_nul(path, 100));
        lemma_with_field_read(h1, 345, pad_nul(none, 155));
        lemma_with_field_frame(h1, 345, pad_nul(none, 155), 0, 100);
        lemma_pad_nul_truncates(path, 100);
        lemma_pad_nul_truncates(none, 155);
    } else {
        let k = ustar_split(path);
        lemma_split_from(
            path,
            if path.len() - 1 < 155 {
                path.len() - 1
            } else {
                155
            },
        );
        let name = path.subrange(k + 1, path.len() as int);
        let prefix = path.subrange(0, k);
        let h1 = with_field(b, 0, pad_nul(name, 100));
        lemma_subrange_has_no_nul(path, k + 1, path.len() as int);
        lemma_subrange_has_no_nul(path, 0, k);
        lemma_with_field_read(b, 0, pad_nul(name, 100));
        lemma_with_field_read(h1, 345, pad_nul(prefix, 155));
        lemma_with_field_frame(h1, 345, pad_nul(prefix, 155), 0, 100);
        lemma_pad_nul_truncates(name, 100);
        lemma_pad_nul_truncates(prefix, 155);
        assert(prefix.push(0x2fu8) + name =~= path);
    }
}

/// A link name that is written can be read back.
pub proof fn lemma_with_link_name_decodes(b: Seq<u8>, link: Seq<u8>)
    requires
        b.len() == 512,
        link.len() <= 100,
        !has_nul(link),
    ensures
        spec_link_name(with_link_name(b, link)) == (if link.len() == 0 {
            None
        } else {
            Some(link)
        }),
{
    lemma_with_field_read(b, 157, pad_nul(link, 100));
    lemma_pad_nul_truncates(link, 100);
}

/// A size that is written can be read back.
pub proof fn lemma_with_size_decodes(b: Seq<u8>, size: nat)
    requires
        b.len() == 512,
        size < pow8(11),
    ensures
        spec_size(with_size(b, size)) == Some(size),
{
    lemma_encoded_field_round_trip(size, 12);
    lemma_with_field_read(b, 124, encoded_field(size, 12));
}

/// A mode that is written can be read back.
pub proof fn lemma_with_mode_decodes(b: Seq<u8>, mode: nat)
    requires
        b.len() == 512,
        mode < pow8(7),
    ensures
        spec_mode(with_mode(b, mode)) == Some(mode),
{
    lemma_encoded_field_round_trip(mode, 8);
    lemma_with_field_read(b, 100, encoded_field(mode, 8));
}

/// The checksum does not depend on what the checksum field holds, and a
/// checksum that is written can be read back.
pub proof fn lemma_with_cksum_decodes(b: Seq<u8>)
    requires
        b.len() == 512,
    ensures
        checksum(with_cksum(b)) == checksum(b),
        checksum(b) < pow8(7),
        spec_cksum(with_cksum(b)) == Some(checksum(b)),
{
    let field = encoded_field(checksum(b), 8);
    lemma_pow8_values();
    lemma_byte_sum_bound(b.subrange(0, 148));
    lemma_byte_sum_bound(b.subrange(156, 512));
    lemma_encoded_field_round_trip(checksum(b), 8);
    lemma_with_field_read(b, 148, field);
    lemma_with_field_frame(b, 148, field, 0, 148);
    lemma_with_field_frame(b, 148, field, 156, 512);
}

/// The fields of a header that this library reads and writes.
pub struct HeaderFields {
    /// The path of the member.
    pub path: Seq<u8>,
    /// The link target of the member, if it has one.
    pub link_name: Option<Seq<u8>>,
    /// The declared length of the payload, if the size field holds a number.
    pub size: Option<nat>,
    /// The permission bits, if the mode field holds a number.
    pub mode: Option<nat>,
    /// The type of the member.
    pub entry_type: EntryType,
}

impl HeaderFields {
    /// Fields that the header `base` can hold: a path that fits it, a link
    /// name of at most 100 bytes without a NUL, a size below `8^11` and a
    /// mode below `8^7`.
    pub open spec fn encodable(self, base: Seq<u8>) -> bool {
        &&& path_fits(base, self.path)
        &&& match self.link_name {
            Some(l) => 0 < l.len() <= 100 && !has_nul(l),
            None => true,
        }
        &&& match self.size {
            Some(s) => s < pow8(11),
            None => false,
        }
        &&& match self.mode {
            Some(m) => m < pow8(7),
            None => false,
        }
        &&& self.entry_type.wf()
    }
}

/// The fields that the block `b` holds.
pub open spec fn spec_fields(b: Seq<u8>) -> HeaderFields {
    HeaderFields {
        path: spec_path(b),
        link_name: spec_link_name(b),
        size: spec_size(b),
        mode: spec_mode(b),
        entry_type: spec_entry_type(b),
    }
}

/// The block `base` with the fields `f` and the matching checksum written into it.
pub open spec fn spec_build(base: Seq<u8>, f: HeaderFields) -> Seq<u8> {
    let link = match f.link_name {
        Some(l) => l,
        None => Seq::empty(),
    };
    with_cksum(
        with_entry_type(
            with_mode(
                with_size(with_link_name(with_path(base, f.path), link), f.size->0),
                f.mode->0,
            ),
            f.entry_type,
        ),
    )
}

/// Encoding, then decoding: a header built from fields holds these fields,
/// and its checksum field holds its checksum.
pub proof fn lemma_header_round_trip(base: Seq<u8>, f: HeaderFields)
    requires
        base.len() == 512,
        f.encodable(base),
    ensures
        spec_build(base, f).len() == 512,
        spec_fields(spec_build(base, f)) == f,
        spec_cksum(spec_build(base, f)) == Some(checksum(spec_build(base, f))),
{
    let link = match f.link_name {
        Some(l) => l,
        None => Seq::empty(),
    };
    let h1 = with_path(base, f.path);
    let h2 = with_link_name(h1, link);
    let h3 = with_size(h2, f.size->0);
    let h4 = with_mode(h3, f.mode->0);
    let h5 = with_entry_type(h4, f.entry_type);
    let h6 = with_cksum(h5);
    lemma_with_path_decodes(base, f.path);
    lemma_with_link_name_decodes(h1, link);
    lemma_with_size_decodes(h2, f.size->0);
    lemma_with_mode_decodes(h3, f.mode->0);
    lemma_with_cksum_decodes(h5);
    crate::entry_type::lemma_entry_type_round_trip(f.entry_type);
    lemma_octal_digits_len(f.size->0, 11);
    lemma_octal_digits_len(f.mode->0, 7);
    lemma_octal_digits_len(checksum(h5), 7);
    assert(h6.subrange(0, 100) =~= h1.subrange(0, 100));
    assert(h6.subrange(345, 500) =~= h1.subrange(345, 500));
    assert(h6.subrange(257, 265) =~= h1.subrange(257, 265));
    lemma_same_path(h6, h1);
    assert(h6.subrange(157, 257) =~= h2.subrange(157, 257));
    assert(h6.subrange(124, 136) =~= h3.subrange(124, 136));
    assert(h6.subrange(100, 108) =~= h4.subrange(100, 108));
    assert(h6[156] == f.entry_type.spec_as_byte());
    assert(spec_link_name(h6) == f.link_name);
}

/// Decoding, encoding, decoding: a header built from the fields that were
/// read from a block holds the same fields again, provided it is of the same
/// kind as the block, and the two numbers can be written (a size field of
/// twelve digits, say, cannot).
pub proof fn lemma_header_resynthesis(h: Seq<u8>, base: Seq<u8>)
    requires
        h.len() == 512,
        base.len() == 512,
        base.subrange(257, 265) == h.subrange(257, 265),
        spec_size(h) matches Some(s) && s < pow8(11),
        spec_mode(h) matches Some(m) && m < pow8(7),
    ensures
        spec_fields(h).encodable(base),
        spec_fields(spec_build(base, spec_fields(h))) == spec_fields(h),
        validation_cksum_holds(spec_build(base, spec_fields(h))),
{
    let f = spec_fields(h);
    let name = spec_name(h);
    let prefix = spec_prefix(h);
    lemma_nul_pos_bounds(h.subrange(0, 100), 0);
    lemma_nul_pos_bounds(h.subrange(345, 500), 0);
    lemma_nul_pos_bounds(h.subrange(157, 257), 0);
    crate::entry_type::lemma_tag_round_trip(h[156]);
    assert(!has_nul(name));
    assert(!has_nul(prefix));
    if is_ustar(h) && prefix.len() > 0 {
        let path = prefix.push(0x2fu8) + name;
        assert(!has_nul(path)) by {
            if has_nul(path) {
                let i = choose|i: int| 0 <= i < path.len() && path[i] == 0;
                if i < prefix.len() {
                    assert(prefix[i] == 0);
                } else if i > prefix.len() {
                    assert(name[i - prefix.len() - 1] == 0);
                }
            }
        }
        if path.len() > 100 {
            assert(split_ok(path, prefix.len() as int));
            lemma_split_exists(path, prefix.len() as int);
        }
    }
    lemma_header_round_trip(base, f);
}

/// The checksum field of `b` holds the checksum of `b`.
pub open spec fn validation_cksum_holds(b: Seq<u8>) -> bool {
    spec_cksum(b) == Some(checksum(b))
}

/// A changed byte changes the sum by its difference.
pub proof fn lemma_byte_sum_update(s: Seq<u8>, i: int, x: u8)
    requires
        0 <= i < s.len(),
    ensures
        byte_sum(s.update(i, x)) == byte_sum(s) - s[i] + x,
    decreases s.len(),
{
    let t = s.update(i, x);
    if i == s.len() - 1 {
        assert(t.drop_last() =~= s.drop_last());
    } else {
        assert(t.drop_last() =~= s.drop_last().update(i, x));
        lemma_byte_sum_update(s.drop_last(), i, x);
    }
}

/// A zero block is no header: it has no magic.
pub proof fn lemma_zero_block_has_no_magic(b: Seq<u8>)
    requires
        b.len() == 512,
        block_is_zero(b),
    ensures
        !magic_recognized(b),
        validation_error(b) == Some(ArchiveError::UnrecognizedMagic),
{
    let m = b.subrange(257, 265);
    assert(m[0] == b[257]);
    assert(gnu_magic()[0] == 0x75);
    assert(ustar_magic()[0] == 0x75);
    assert forall|i: int| 0 <= i < b.len() implies is_header_byte(#[trigger] b[i]) by {
        assert(b[i] == 0);
    }
}

/// The checksum guards the header: a valid header with one byte outside
/// its checksum field changed is no valid header.
pub proof fn lemma_corruption_is_detected(h: Seq<u8>, i: int, x: u8)
    requires
        h.len() == 512,
        validation_error(h) is None,
        0 <= i < 512,
        !(148 <= i < 156),
        x != h[i],
    ensures
        validation_error(h.update(i, x)) is Some,
        bytes_valid(h.update(i, x)) && magic_recognized(h.update(i, x)) ==> validation_error(
            h.update(i, x),
        ) == Some(ArchiveError::ChecksumMismatch),
{
    let g = h.update(i, x);
    assert(g.subrange(148, 156) =~= h.subrange(148, 156));
    assert forall|j: int| 148 <= j < 156 implies is_cksum_byte(#[trigger] g[j]) by {
        assert(g[j] == h[j]);
    }
    if i < 148 {
        assert(g.subrange(0, 148) =~= h.subrange(0, 148).update(i, x));
        assert(g.subrange(156, 512) =~= h.subrange(156, 512));
        lemma_byte_sum_update(h.subrange(0, 148), i, x);
    } else {
        assert(g.subrange(0, 148) =~= h.subrange(0, 148));
        assert(g.subrange(156, 512) =~= h.subrange(156, 512).update(i - 156, x));
        lemma_byte_sum_update(h.subrange(156, 512), i - 156, x);
    }
    assert(checksum(g) != checksum(h));
}

} // verus!

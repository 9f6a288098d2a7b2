//! The type tag of a member: one byte of its header.

use vstd::prelude::*;

verus! {

/// What kind of member a header describes.
#[derive(Clone, Copy, Debug, PartialEq, Eq, Structural)]
pub enum EntryType {
    /// Regular file (`'0'` or NUL).
    Regular,
    /// Hard link (`'1'`).
    Link,
    /// Symbolic link (`'2'`).
    Symlink,
    /// Character device (`'3'`).
    Char,
    /// Block device (`'4'`).
    Block,
    /// Directory (`'5'`).
    Directory,
    /// Named pipe (`'6'`).
    Fifo,
    /// Contiguous file (`'7'`).
    Continuous,
    /// GNU long name (`'L'`): the payload is the path of the next member.
    GNULongName,
    /// GNU long link (`'K'`): the payload is the link target of the next member.
    GNULongLink,
    /// GNU sparse file (`'S'`).
    GNUSparse,
    /// PAX global extensions (`'g'`).
    XGlobalHeader,
    /// PAX extensions of the next member (`'x'`).
    XHeader,
    /// Any other tag.
    Other(u8),
}

/// Whether `b` is one of the tags that have a variant of their own.
pub open spec fn is_known_tag(b: u8) -> bool {
    b == 0 || (0x30 <= b && b <= 0x37) || b == 0x4c || b == 0x4b || b == 0x53 || b == 0x67 || b
        == 0x78
}

impl EntryType {
    /// `Other` holds no tag that has a variant of its own.
    pub open spec fn wf(self) -> bool {
        match self {
            EntryType::Other(b) => !is_known_tag(b),
            _ => true,
        }
    }

    /// The type that the tag `b` stands for.
    pub open spec fn spec_new(b: u8) -> EntryType {
        if b == 0 || b == 0x30 {
            EntryType::Regular
        } else if b == 0x31 {
            EntryType::Link
        } else if b == 0x32 {
            EntryType::Symlink
        } else if b == 0x33 {
            EntryType::Char
        } else if b == 0x34 {
            EntryType::Block
        } else if b == 0x35 {
            EntryType::Directory
        } else if b == 0x36 {
            EntryType::Fifo
        } else if b == 0x37 {
            EntryType::Continuous
        } else if b == 0x4c {
            EntryType::GNULongName
        } else if b == 0x4b {
            EntryType::GNULongLink
        } else if b == 0x53 {
            EntryType::GNUSparse
        } else if b == 0x67 {
            EntryType::XGlobalHeader
        } else if b == 0x78 {
            EntryType::XHeader
        } else {
            EntryType::Other(b)
        }
    }

    /// The tag that is written for this type.
    pub open spec fn spec_as_byte(self) -> u8 {
        match self {
            EntryType::Regular => 0x30,
            EntryType::Link => 0x31,
            EntryType::Symlink => 0x32,
            EntryType::Char => 0x33,
            EntryType::Block => 0x34,
            EntryType::Directory => 0x35,
            EntryType::Fifo => 0x36,
            EntryType::Continuous => 0x37,
            EntryType::GNULongName => 0x4c,
            EntryType::GNULongLink => 0x4b,
            EntryType::GNUSparse => 0x53,
            EntryType::XGlobalHeader => 0x67,
            EntryType::XHeader => 0x78,
            EntryType::Other(b) => b,
        }
    }

    /// A header that describes the member after it, and is no member itself.
    pub open spec fn spec_is_metadata(self) -> bool {
        self == EntryType::GNULongName || self == EntryType::GNULongLink || self
            == EntryType::XHeader
    }

    /// The type that the tag `b` stands for.
    pub fn new(b: u8) -> (t: EntryType)
        ensures
            t == Self::spec_new(b),
            t.wf(),
    {
        if b == 0 || b == 0x30 {
            EntryType::Regular
        } else if b == 0x31 {
            EntryType::Link
        } else if b == 0x32 {
            EntryType::Symlink
        } else if b == 0x33 {
            EntryType::Char
        } else if b == 0x34 {
            EntryType::Block
        } else if b == 0x35 {
            EntryType::Directory
        } else if b == 0x36 {
            EntryType::Fifo
        } else if b == 0x37 {
            EntryType::Continuous
        } else if b == 0x4c {
            EntryType::GNULongName
        } else if b == 0x4b {
            EntryType::GNULongLink
        } else if b == 0x53 {
            EntryType::GNUSparse
        } else if b == 0x67 {
            EntryType::XGlobalHeader
        } else if b == 0x78 {
            EntryType::XHeader
        } else {
            EntryType::Other(b)
        }
    }

    /// The tag that is written for this type.
    pub fn as_byte(&self) -> (b: u8)
        ensures
            b == self.spec_as_byte(),
    {
        match self {
            EntryType::Regular => 0x30,
            EntryType::Link => 0x31,
            EntryType::Symlink => 0x32,
            EntryType::Char => 0x33,
            EntryType::Block => 0x34,
            EntryType::Directory => 0x35,
            EntryType::Fifo => 0x36,
            EntryType::Continuous => 0x37,
            EntryType::GNULongName => 0x4c,
            EntryType::GNULongLink => 0x4b,
            EntryType::GNUSparse => 0x53,
            EntryType::XGlobalHeader => 0x67,
            EntryType::XHeader => 0x78,
            EntryType::Other(b) => *b,
        }
    }

    /// Whether this is a regular file.
    pub fn is_file(&self) -> (r: bool)
        ensures
            r == (*self == EntryType::Regular),
    {
        matches!(self, EntryType::Regular)
    }

    /// Whether this is a directory.
    pub fn is_dir(&self) -> (r: bool)
        ensures
            r == (*self == EntryType::Directory),
    {
        matches!(self, EntryType::Directory)
    }

    /// Whether this is a symbolic link.
    pub fn is_symlink(&self) -> (r: bool)
        ensures
            r == (*self == EntryType::Symlink),
    {
        matches!(self, EntryType::Symlink)
    }

    /// Whether this is a GNU long name.
    pub fn is_gnu_longname(&self) -> (r: bool)
        ensures
            r == (*self == EntryType::GNULongName),
    {
        matches!(self, EntryType::GNULongName)
    }

    /// Whether this is a GNU long link.
    pub fn is_gnu_longlink(&self) -> (r: bool)
        ensures
            r == (*self == EntryType::GNULongLink),
    {
        matches!(self, EntryType::GNULongLink)
    }

    /// Whether these are the PAX extensions of the next member.
    pub fn is_pax_local_extensions(&self) -> (r: bool)
        ensures
            r == (*self == EntryType::XHeader),
    {
        matches!(self, EntryType::XHeader)
    }

    /// Whether a header of this type describes the member after it.
    pub fn is_metadata(&self) -> (r: bool)
        ensures
            r == self.spec_is_metadata(),
    {
        matches!(self, EntryType::GNULongName | EntryType::GNULongLink | EntryType::XHeader)
    }
}

/// Writing a type's tag and reading it back gives the type.
pub proof fn lemma_entry_type_round_trip(t: EntryType)
    requires
        t.wf(),
    ensures
        EntryType::spec_new(t.spec_as_byte()) == t,
{
}

/// Reading a tag and writing it back gives the tag, but for NUL, which is
/// written as `'0'`.
pub proof fn lemma_tag_round_trip(b: u8)
    ensures
        EntryType::spec_new(b).wf(),
        b != 0 ==> EntryType::spec_new(b).spec_as_byte() == b,
        b == 0 ==> EntryType::spec_new(b).spec_as_byte() == 0x30,
{
}

} // verus!

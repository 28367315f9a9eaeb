//! The header of an entry, as far as it matters to the entry.
use vstd::prelude::*;

verus! {

/// What an entry is, by the type flag in its header.
#[derive(Debug, Clone, Copy, PartialEq, Eq, Structural)]
pub enum EntryType {
    /// A regular file.
    Regular,
    /// A hard link.
    Link,
    /// A symbolic link.
    Symlink,
    /// A character device.
    Char,
    /// A block device.
    Block,
    /// A directory.
    Directory,
    /// A named pipe.
    Fifo,
    /// A regular file that is to be stored in one piece.
    Continuous,
    /// Pax records for the next entry.
    XHeader,
    /// Pax records for the next entry, as Solaris marks them.
    SolarisXHeader,
    /// Pax records for all entries that follow.
    XGlobalHeader,
    /// The long path of the next entry.
    GNULongName,
    /// The long link target of the next entry.
    GNULongLink,
    /// A sparse file.
    GNUSparse,
    /// Any other type flag.
    Other(u8),
}

impl EntryType {
    /// What a type flag stands for.
    pub open spec fn of_flag(flag: u8) -> EntryType {
        if flag == 0x30 || flag == 0 {
            EntryType::Regular
        } else if flag == 0x31 {
            EntryType::Link
        } else if flag == 0x32 {
            EntryType::Symlink
        } else if flag == 0x33 {
            EntryType::Char
        } else if flag == 0x34 {
            EntryType::Block
        } else if flag == 0x35 {
            EntryType::Directory
        } else if flag == 0x36 {
            EntryType::Fifo
        } else if flag == 0x37 {
            EntryType::Continuous
        } else if flag == 0x78 {
            EntryType::XHeader
        } else if flag == 0x58 {
            EntryType::SolarisXHeader
        } else if flag == 0x67 {
            EntryType::XGlobalHeader
        } else if flag == 0x4c {
            EntryType::GNULongName
        } else if flag == 0x4b {
            EntryType::GNULongLink
        } else if flag == 0x53 {
            EntryType::GNUSparse
        } else {
            EntryType::Other(flag)
        }
    }

    /// The type that a type flag stands for.
    pub fn new(flag: u8) -> (kind: EntryType)
        ensures
            kind == EntryType::of_flag(flag),
    {
        match flag {
            0x30 | 0 => EntryType::Regular,
            0x31 => EntryType::Link,
            0x32 => EntryType::Symlink,
            0x33 => EntryType::Char,
            0x34 => EntryType::Block,
            0x35 => EntryType::Directory,
            0x36 => EntryType::Fifo,
            0x37 => EntryType::Continuous,
            0x78 => EntryType::XHeader,
            0x58 => EntryType::SolarisXHeader,
            0x67 => EntryType::XGlobalHeader,
            0x4c => EntryType::GNULongName,
            0x4b => EntryType::GNULongLink,
            0x53 => EntryType::GNUSparse,
            other => EntryType::Other(other),
        }
    }
}

/// The type flags: `0` and NUL stand for a regular file, every other known flag for a type of its
/// own, and a flag that is not known for itself.
pub proof fn law_type_flags(flag: u8, other: u8)
    ensures
        EntryType::of_flag(flag) == EntryType::Regular <==> flag == 0 || flag == 0x30,
        EntryType::of_flag(flag) == EntryType::Link <==> flag == 0x31,
        EntryType::of_flag(flag) == EntryType::Symlink <==> flag == 0x32,
        EntryType::of_flag(flag) == EntryType::Char <==> flag == 0x33,
        EntryType::of_flag(flag) == EntryType::Block <==> flag == 0x34,
        EntryType::of_flag(flag) == EntryType::Directory <==> flag == 0x35,
        EntryType::of_flag(flag) == EntryType::Fifo <==> flag == 0x36,
        EntryType::of_flag(flag) == EntryType::Continuous <==> flag == 0x37,
        EntryType::of_flag(flag) == EntryType::XHeader <==> flag == 0x78,
        EntryType::of_flag(flag) == EntryType::SolarisXHeader <==> flag == 0x58,
        EntryType::of_flag(flag) == EntryType::XGlobalHeader <==> flag == 0x67,
        EntryType::of_flag(flag) == EntryType::GNULongName <==> flag == 0x4c,
        EntryType::of_flag(flag) == EntryType::GNULongLink <==> flag == 0x4b,
        EntryType::of_flag(flag) == EntryType::GNUSparse <==> flag == 0x53,
        EntryType::of_flag(flag) matches EntryType::Other(kept) ==> kept == flag,
        EntryType::of_flag(flag) == EntryType::of_flag(other) && flag != 0 && other != 0 ==> flag
            == other,
{
}

/// The format of a header.
#[derive(Debug, Clone, Copy, PartialEq, Eq, Structural)]
pub enum HeaderFormat {
    /// The format of Unix V7, without a magic number.
    Old,
    /// The POSIX format.
    Ustar,
    /// The format of GNU tar.
    Gnu,
}

/// A header after decoding.
#[derive(Debug)]
pub struct Header {
    /// What the entry is.
    pub entry_type: EntryType,
    /// Which format the header has.
    pub format: HeaderFormat,
    /// The path of the entry.
    pub path: Vec<u8>,
    /// The link target, if the header holds one.
    pub link_name: Option<Vec<u8>>,
    /// The name of the owner, if the format has one.
    pub username: Option<Vec<u8>>,
    /// The name of the owner's group, if the format has one.
    pub groupname: Option<Vec<u8>>,
    /// The permissions, if the field can be read.
    pub mode: Option<u32>,
    /// The modification time in seconds of Unix time, if the field can be read.
    pub mtime: Option<u64>,
}

impl Header {
    /// Whether the entry holds pax records for the next entry. The Solaris flag has this meaning
    /// in POSIX headers only.
    pub open spec fn holds_local_pax(&self) -> bool {
        self.entry_type == EntryType::XHeader || (self.entry_type == EntryType::SolarisXHeader
            && self.format == HeaderFormat::Ustar)
    }

    /// Whether the entry holds pax records for the next entry.
    pub fn is_pax_local_extensions(&self) -> (does: bool)
        ensures
            does == self.holds_local_pax(),
    {
        self.entry_type == EntryType::XHeader || (self.entry_type == EntryType::SolarisXHeader
            && self.format == HeaderFormat::Ustar)
    }
}

/// What a byte string that may be missing means is the byte string, if it is there.
pub proof fn law_missing_bytes_are_none(bytes: Option<Vec<u8>>, slice: Option<&[u8]>)
    ensures
        bytes matches Some(b) ==> bytes_view(bytes) == Some(b@),
        bytes is None ==> bytes_view(bytes) is None,
        slice matches Some(b) ==> slice_view(slice) == Some(b@),
        slice is None ==> slice_view(slice) is None,
{
}

/// The meaning of a byte string that may be missing.
pub open spec fn bytes_view(bytes: Option<Vec<u8>>) -> Option<Seq<u8>> {
    match bytes {
        Some(b) => Some(b@),
        None => None,
    }
}

/// The meaning of a borrowed byte string that may be missing.
pub open spec fn slice_view(bytes: Option<&[u8]>) -> Option<Seq<u8>> {
    match bytes {
        Some(b) => Some(b@),
        None => None,
    }
}

/// Borrows a byte string that may be missing.
pub fn as_slice_option(bytes: &Option<Vec<u8>>) -> (slice: Option<&[u8]>)
    ensures
        slice_view(slice) == bytes_view(*bytes),
{
    match bytes {
        Some(b) => Some(b.as_slice()),
        None => None,
    }
}

} // verus!

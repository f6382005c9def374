use vstd::prelude::*;

verus! {

/// Software library version: major in the upper 16 bits, minor in the lower.
pub const LFS_VERSION: u32 = 0x0002000a;
pub const LFS_VERSION_MAJOR: u32 = 0xffff & (LFS_VERSION >> 16);
pub const LFS_VERSION_MINOR: u32 = 0xffff & LFS_VERSION;

/// On-disk data structure version.
pub const LFS_DISK_VERSION: u32 = 0x00020001;
pub const LFS_DISK_VERSION_MAJOR: u32 = 0xffff & (LFS_DISK_VERSION >> 16);
pub const LFS_DISK_VERSION_MINOR: u32 = 0xffff & LFS_DISK_VERSION;

/// Version of the older on-disk format that can still be migrated.
pub const LFS1_DISK_VERSION: u32 = 0x00010001;
pub const LFS1_DISK_VERSION_MAJOR: u32 = 0xffff & (LFS1_DISK_VERSION >> 16);
pub const LFS1_DISK_VERSION_MINOR: u32 = 0xffff & LFS1_DISK_VERSION;

pub type LfsSize = u32;
pub type LfsOff = u32;
pub type LfsSsize = i32;
pub type LfsSoff = i32;
pub type LfsBlock = u32;
pub type LfsTag = u32;
pub type LfsStag = i32;

/// Maximum name size in bytes.
pub const LFS_NAME_MAX: u32 = 255;
/// Maximum file size in bytes.
pub const LFS_FILE_MAX: u32 = 2147483647;
/// Maximum size of a custom attribute in bytes.
pub const LFS_ATTR_MAX: u32 = 1022;

/// The block address that means "no block".
pub const LFS_BLOCK_NULL: LfsBlock = 0xffffffff;
/// The block address that means "stored inline in the metadata".
pub const LFS_BLOCK_INLINE: LfsBlock = 0xfffffffe;

/// Possible error codes.
#[derive(Debug, Clone, Copy, PartialEq, Eq, Structural)]
pub enum LfsError {
    Io,
    Corrupt,
    NoEnt,
    Exist,
    NotDir,
    IsDir,
    NotEmpty,
    BadF,
    FBig,
    Inval,
    NoSpc,
    NoMem,
    NoAttr,
    NameTooLong,
}

impl LfsError {
    /// The negative code of this error.
    pub open spec fn spec_code(self) -> int {
        match self {
            LfsError::Io => -5,
            LfsError::Corrupt => -84,
            LfsError::NoEnt => -2,
            LfsError::Exist => -17,
            LfsError::NotDir => -20,
            LfsError::IsDir => -21,
            LfsError::NotEmpty => -39,
            LfsError::BadF => -9,
            LfsError::FBig => -27,
            LfsError::Inval => -22,
            LfsError::NoSpc => -28,
            LfsError::NoMem => -12,
            LfsError::NoAttr => -61,
            LfsError::NameTooLong => -36,
        }
    }

    /// The negative code of this error.
    pub fn code(&self) -> (c: i32)
        ensures
            c == self.spec_code(),
    {
        match self {
            LfsError::Io => -5,
            LfsError::Corrupt => -84,
            LfsError::NoEnt => -2,
            LfsError::Exist => -17,
            LfsError::NotDir => -20,
            LfsError::IsDir => -21,
            LfsError::NotEmpty => -39,
            LfsError::BadF => -9,
            LfsError::FBig => -27,
            LfsError::Inval => -22,
            LfsError::NoSpc => -28,
            LfsError::NoMem => -12,
            LfsError::NoAttr => -61,
            LfsError::NameTooLong => -36,
        }
    }

    /// The error with the given negative code; a code that names no error is an I/O error.
    pub fn from_code(c: i32) -> (e: LfsError)
        ensures
            e.spec_code() == c || (e == LfsError::Io && !Self::is_known_code(c)),
            Self::is_known_code(c) ==> e.spec_code() == c,
    {
        if c == -5 { LfsError::Io }
        else if c == -84 { LfsError::Corrupt }
        else if c == -2 { LfsError::NoEnt }
        else if c == -17 { LfsError::Exist }
        else if c == -20 { LfsError::NotDir }
        else if c == -21 { LfsError::IsDir }
        else if c == -39 { LfsError::NotEmpty }
        else if c == -9 { LfsError::BadF }
        else if c == -27 { LfsError::FBig }
        else if c == -22 { LfsError::Inval }
        else if c == -28 { LfsError::NoSpc }
        else if c == -12 { LfsError::NoMem }
        else if c == -61 { LfsError::NoAttr }
        else if c == -36 { LfsError::NameTooLong }
        else { LfsError::Io }
    }

    pub open spec fn is_known_code(c: i32) -> bool {
        exists|e: LfsError| e.spec_code() == c
    }
}

/// File and metadata types.
#[derive(Debug, Clone, Copy, PartialEq, Eq, Structural)]
pub enum LfsType {
    Reg,
    Dir,
    Splice,
    Name,
    Struct,
    UserAttr,
    From,
    Tail,
    Globals,
    Crc,
    Create,
    Delete,
    SuperBlock,
    DirStruct,
    CtzStruct,
    InlineStruct,
    SoftTail,
    HardTail,
    MoveState,
    CCrc,
    FCrc,
    FromNoop,
    FromMove,
    FromUserAttrs,
}

impl LfsType {
    pub open spec fn spec_value(self) -> u16 {
        match self {
            LfsType::Reg => 0x001,
            LfsType::Dir => 0x002,
            LfsType::Splice => 0x400,
            LfsType::Name => 0x000,
            LfsType::Struct => 0x200,
            LfsType::UserAttr => 0x300,
            LfsType::From => 0x100,
            LfsType::Tail => 0x600,
            LfsType::Globals => 0x700,
            LfsType::Crc => 0x500,
            LfsType::Create => 0x401,
            LfsType::Delete => 0x4ff,
            LfsType::SuperBlock => 0x0ff,
            LfsType::DirStruct => 0x200,
            LfsType::CtzStruct => 0x202,
            LfsType::InlineStruct => 0x201,
            LfsType::SoftTail => 0x600,
            LfsType::HardTail => 0x601,
            LfsType::MoveState => 0x7ff,
            LfsType::CCrc => 0x500,
            LfsType::FCrc => 0x5ff,
            LfsType::FromNoop => 0x000,
            LfsType::FromMove => 0x101,
            LfsType::FromUserAttrs => 0x102,
        }
    }

    /// The 11-bit numeric value of this type.
    pub fn value(&self) -> (v: u16)
        ensures
            v == self.spec_value(),
            v < 0x800,
    {
        match self {
            LfsType::Reg => 0x001,
            LfsType::Dir => 0x002,
            LfsType::Splice => 0x400,
            LfsType::Name => 0x000,
            LfsType::Struct => 0x200,
            LfsType::UserAttr => 0x300,
            LfsType::From => 0x100,
            LfsType::Tail => 0x600,
            LfsType::Globals => 0x700,
            LfsType::Crc => 0x500,
            LfsType::Create => 0x401,
            LfsType::Delete => 0x4ff,
            LfsType::SuperBlock => 0x0ff,
            LfsType::DirStruct => 0x200,
            LfsType::CtzStruct => 0x202,
            LfsType::InlineStruct => 0x201,
            LfsType::SoftTail => 0x600,
            LfsType::HardTail => 0x601,
            LfsType::MoveState => 0x7ff,
            LfsType::CCrc => 0x500,
            LfsType::FCrc => 0x5ff,
            LfsType::FromNoop => 0x000,
            LfsType::FromMove => 0x101,
            LfsType::FromUserAttrs => 0x102,
        }
    }
}

/// File open flags.
#[derive(Debug, Clone, Copy, PartialEq, Eq, Structural)]
pub enum LfsOpenFlags {
    RdOnly,
    WrOnly,
    RdWr,
    Creat,
    Excl,
    Trunc,
    Append,
    Dirty,
    Writing,
    Reading,
    Erred,
    Inline,
}

impl LfsOpenFlags {
    pub open spec fn spec_bits(self) -> u32 {
        match self {
            LfsOpenFlags::RdOnly => 1,
            LfsOpenFlags::WrOnly => 2,
            LfsOpenFlags::RdWr => 3,
            LfsOpenFlags::Creat => 0x0100,
            LfsOpenFlags::Excl => 0x0200,
            LfsOpenFlags::Trunc => 0x0400,
            LfsOpenFlags::Append => 0x0800,
            LfsOpenFlags::Dirty => 0x010000,
            LfsOpenFlags::Writing => 0x020000,
            LfsOpenFlags::Reading => 0x040000,
            LfsOpenFlags::Erred => 0x080000,
            LfsOpenFlags::Inline => 0x100000,
        }
    }

    /// The bit pattern of this flag.
    pub fn bits(&self) -> (b: u32)
        ensures
            b == self.spec_bits(),
    {
        match self {
            LfsOpenFlags::RdOnly => 1,
            LfsOpenFlags::WrOnly => 2,
            LfsOpenFlags::RdWr => 3,
            LfsOpenFlags::Creat => 0x0100,
            LfsOpenFlags::Excl => 0x0200,
            LfsOpenFlags::Trunc => 0x0400,
            LfsOpenFlags::Append => 0x0800,
            LfsOpenFlags::Dirty => 0x010000,
            LfsOpenFlags::Writing => 0x020000,
            LfsOpenFlags::Reading => 0x040000,
            LfsOpenFlags::Erred => 0x080000,
            LfsOpenFlags::Inline => 0x100000,
        }
    }
}

/// File seek origins.
#[derive(Debug, Clone, Copy, PartialEq, Eq, Structural)]
pub enum LfsWhenceFlags {
    SeekSet,
    SeekCur,
    SeekEnd,
}

/// Result codes of metadata operations that succeed with a side effect.
#[derive(Debug, Clone, Copy, PartialEq, Eq, Structural)]
pub enum LfsOk {
    Relocated,
    Dropped,
    Orphaned,
}

/// Three-way comparison result.
#[derive(Debug, Clone, Copy, PartialEq, Eq, Structural)]
pub enum LfsCmp {
    Eq,
    Lt,
    Gt,
}

/// Configuration of a filesystem instance.
#[derive(Debug, Clone, Copy)]
pub struct LfsConfig {
    pub read_size: LfsSize,
    pub prog_size: LfsSize,
    pub block_size: LfsSize,
    pub block_count: LfsSize,
    pub block_cycles: i32,
    pub cache_size: LfsSize,
    pub lookahead_size: LfsSize,
    pub compact_thresh: LfsSize,
    pub name_max: LfsSize,
    pub file_max: LfsSize,
    pub attr_max: LfsSize,
    pub metadata_max: LfsSize,
    pub inline_max: LfsSize,
    pub disk_version: u32,
}

/// Information about a file or directory.
#[derive(Debug, Clone)]
pub struct LfsInfo {
    pub type_: u8,
    pub size: LfsSize,
    /// The name, without a terminating zero.
    pub name: Vec<u8>,
}

/// Information about the filesystem as a whole.
#[derive(Debug, Clone, Copy)]
pub struct LfsFsinfo {
    pub disk_version: u32,
    pub block_size: LfsSize,
    pub block_count: LfsSize,
    pub name_max: LfsSize,
    pub file_max: LfsSize,
    pub attr_max: LfsSize,
}

/// A custom attribute.
#[derive(Debug, Clone)]
pub struct LfsAttr {
    pub type_: u8,
    pub buffer: Vec<u8>,
}

/// A cache of part of one block: `size` bytes at `off` held in `buffer`.
#[derive(Debug)]
pub struct LfsCache {
    pub block: LfsBlock,
    pub off: LfsOff,
    pub size: LfsSize,
    pub buffer: Vec<u8>,
}

/// A metadata pair as held in memory.
#[derive(Debug, Clone, Copy)]
pub struct LfsMdir {
    pub pair: [LfsBlock; 2],
    pub rev: u32,
    pub off: LfsOff,
    pub etag: u32,
    pub count: u16,
    pub erased: bool,
    pub split: bool,
    pub tail: [LfsBlock; 2],
}

/// An open directory.
#[derive(Debug, Clone, Copy)]
pub struct LfsDir {
    pub id: u16,
    pub type_: u8,
    pub m: LfsMdir,
    pub pos: LfsOff,
    pub head: [LfsBlock; 2],
}

/// The head and size of a file's skip-list.
#[derive(Debug, Clone, Copy, PartialEq, Eq, Structural)]
pub struct LfsCtz {
    pub head: LfsBlock,
    pub size: LfsSize,
}

/// The superblock.
#[derive(Debug, Clone, Copy, PartialEq, Eq, Structural)]
pub struct LfsSuperblock {
    pub version: u32,
    pub block_size: LfsSize,
    pub block_count: LfsSize,
    pub name_max: LfsSize,
    pub file_max: LfsSize,
    pub attr_max: LfsSize,
}

/// Global state: pending orphans, a pending move and superblock need.
#[derive(Debug, Clone, Copy)]
pub struct LfsGstate {
    pub tag: u32,
    pub pair: [LfsBlock; 2],
}

/// An entry of the list of open files and directories.
#[derive(Debug, Clone, Copy)]
pub struct LfsMlist {
    pub id: u16,
    pub type_: u8,
    pub m: LfsMdir,
}

/// The lookahead window of the block allocator: a bitmap of `size` blocks
/// from `start`, one bit per block, set for blocks in use.
#[derive(Debug)]
pub struct LfsLookahead {
    pub start: LfsBlock,
    pub size: LfsBlock,
    pub next: LfsBlock,
    pub ckpoint: LfsBlock,
    pub buffer: Vec<u8>,
}

/// A location on disk.
#[derive(Debug, Clone, Copy, PartialEq, Eq, Structural)]
pub struct LfsDiskoff {
    pub block: LfsBlock,
    pub off: LfsOff,
}

/// The checksum of the next prog unit after a commit.
#[derive(Debug, Clone, Copy, PartialEq, Eq, Structural)]
pub struct LfsFcrc {
    pub size: LfsSize,
    pub crc: u32,
}

/// State of a commit in progress.
#[derive(Debug, Clone, Copy, PartialEq, Eq, Structural)]
pub struct LfsCommit {
    pub block: LfsBlock,
    pub off: LfsOff,
    pub ptag: LfsTag,
    pub crc: u32,
    pub begin: LfsOff,
    pub end: LfsOff,
}

/// State of Brent's cycle detection over a list of metadata pairs.
#[derive(Debug, Clone, Copy)]
pub struct LfsTortoise {
    pub pair: [LfsBlock; 2],
    pub i: LfsSize,
    pub period: LfsSize,
}

} // verus!

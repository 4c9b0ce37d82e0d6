//! Flag sets and the stat record: page-table entry permission bits, open
//! flags, file-type tags, and the user-visible `Stat` structure.

use vstd::prelude::*;

verus! {

/// Page-table entry bit: the mapping is valid.
pub const PTE_V: u8 = 1;
/// Page-table entry bit: the page may be read.
pub const PTE_R: u8 = 2;
/// Page-table entry bit: the page may be written.
pub const PTE_W: u8 = 4;
/// Page-table entry bit: the page may be executed.
pub const PTE_X: u8 = 8;
/// Page-table entry bit: the page is reachable from user mode.
pub const PTE_U: u8 = 16;

/// Open flag: read-only access (the low two bits are zero).
pub const OPEN_RDONLY: u32 = 0;
/// Open flag: write-only access.
pub const OPEN_WRONLY: u32 = 1;
/// Open flag: read-write access.
pub const OPEN_RDWR: u32 = 2;
/// Open flag: create the file, truncating it if it already exists.
pub const OPEN_CREATE: u32 = 512;
/// Open flag: truncate an existing file to length zero.
pub const OPEN_TRUNC: u32 = 1024;

/// File-type tag: no type recorded.
pub const STAT_MODE_NULL: u32 = 0;
/// File-type tag: directory.
pub const STAT_MODE_DIR: u32 = 0o040000;
/// File-type tag: ordinary regular file.
pub const STAT_MODE_FILE: u32 = 0o100000;

/// The record a stat syscall fills: device id, inode number, file-type tag,
/// and hard-link count, followed by reserved padding.
pub struct Stat {
    /// Device the file lives on; always reported as 0.
    pub dev: u64,
    /// Backing inode number of the file.
    pub ino: u64,
    /// File-type tag.
    pub mode: u32,
    /// Number of hard links to the inode.
    pub nlink: u32,
    /// Reserved for layout compatibility.
    pub pad: [u64; 7],
}

impl Stat {
    /// A fresh record: device 0, inode 0, a regular file with one link.
    pub fn new() -> (s: Self)
        ensures
            s.dev == 0,
            s.ino == 0,
            s.mode == STAT_MODE_FILE,
            s.nlink == 1,
    {
        Stat { dev: 0, ino: 0, mode: STAT_MODE_FILE, nlink: 1, pad: [0; 7] }
    }
}

} // verus!

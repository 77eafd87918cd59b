use vstd::prelude::*;

verus! {

pub const READ_ONLY: u8 = 0x01;

pub const HIDDEN: u8 = 0x02;

pub const SYSTEM: u8 = 0x04;

pub const VOLUME_ID: u8 = 0x08;

pub const DIRECTORY: u8 = 0x10;

pub const ARCHIVE: u8 = 0x20;

/// The attribute value that marks a slot as a long-file-name fragment:
/// read-only, hidden, system and volume-id together.
pub const LFN: u8 = 0x0F;

/// FAT file attributes: the attribute byte of a directory slot, every bit kept.
#[derive(Clone, Copy, Debug, PartialEq, Eq, Structural)]
pub struct FileAttributes {
    pub bits: u8,
}

impl FileAttributes {
    /// Every flag of `flags` is set.
    pub open spec fn has(&self, flags: u8) -> bool {
        self.bits & flags == flags
    }

    pub fn from_bits(bits: u8) -> (r: FileAttributes)
        ensures
            r.bits == bits,
    {
        FileAttributes { bits }
    }

    pub fn bits(&self) -> (r: u8)
        ensures
            r == self.bits,
    {
        self.bits
    }

    pub fn contains(&self, flags: u8) -> (r: bool)
        ensures
            r == self.has(flags),
    {
        self.bits & flags == flags
    }
}

impl Default for FileAttributes {
    fn default() -> (r: FileAttributes)
        ensures
            r.bits == 0,
    {
        FileAttributes { bits: 0 }
    }
}

} // verus!

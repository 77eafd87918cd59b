use vstd::prelude::*;

verus! {

/// The ways in which a directory operation can fail.
#[derive(Clone, Copy, Debug, PartialEq, Eq, Structural)]
pub enum Error {
    /// A path component names no entry, or names an entry of the wrong kind.
    NotFound,
    /// A file name is longer than 255 UTF-16 code units.
    InvalidInput,
    /// The directory stream ended before a whole slot could be read.
    CorruptedDirectory,
    /// A directory that still holds entries other than `.` and `..` was to be removed.
    DirectoryNotEmpty,
    /// The directory stream has no room for the slots of a new entry.
    NoSpace,
}

} // verus!

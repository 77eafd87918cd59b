//! Directory subsystem of a FAT12/FAT16/FAT32 filesystem.
//!
//! A directory is a stream of 32-byte slots. A slot holds the record of a
//! file or subdirectory, or one fragment of a long file name; a run of
//! fragments and the record behind them make a logical entry. This library
//! decodes and encodes slots, assembles long names, makes short names,
//! iterates over the entries of a directory, finds entries by name and by
//! path, and creates and removes entries.
//!
//! The streams of the directories of a volume are held in memory, in a
//! [`fs::FileSystem`]. Reading them from a disk and writing them back,
//! allocating clusters and reading the contents of files are left to the
//! caller.
//!
//! The modules, leaves first:
//!
//! - [`attrs`], [`time`], [`error`]: attribute bits, DOS dates and times, errors;
//! - [`endian`], [`raw`]: the codec of a slot;
//! - [`lfn`]: the checksum and the assembler of long names;
//! - [`short_name`], [`text`], [`path`]: short names, UTF-16, comparison of
//!   names, splitting of paths;
//! - [`stream`], [`fs`]: the stream of a directory and the volume;
//! - [`entry`], [`scan`], [`sequence`], [`walk`]: logical entries, what a
//!   scan of a directory gives, what a sequence of fragments spells, what a
//!   path leads to;
//! - [`group`], [`dir`]: the slots of a new entry, and the operations on
//!   directories;
//! - [`locality`], [`creation`], [`laws`]: what is proved of all this.

pub mod attrs;
pub mod creation;
pub mod dir;
pub mod endian;
pub mod entry;
pub mod error;
pub mod fs;
pub mod group;
pub mod laws;
pub mod lfn;
pub mod locality;
pub mod path;
pub mod raw;
pub mod scan;
pub mod sequence;
pub mod short_name;
pub mod stream;
pub mod text;
pub mod time;
pub mod walk;

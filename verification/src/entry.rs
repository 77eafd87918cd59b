use crate::attrs::FileAttributes;
use crate::raw::DirFileEntryData;
use crate::stream::StreamView;
use crate::text::{
    decode_utf16_lossy, short_name_string, short_name_text, string_from_chars, utf16_lossy,
};
use crate::time::{Date, DateTime};
use vstd::prelude::*;

verus! {

/// A logical entry as the bytes of a directory give it: the short slot, the
/// long name that the fragments before it spell (empty where they spell
/// none), and the byte range of the directory that the entry takes.
pub struct EntryView {
    pub slot: Seq<u8>,
    pub lfn: Seq<u16>,
    pub begin: int,
    pub end: int,
}

impl EntryView {
    /// The name of the entry: its long name where it has one, else the text
    /// of its short name.
    pub open spec fn file_name(self) -> Seq<char> {
        name_text(self.lfn, self.slot.subrange(0, 11))
    }

    /// The entry is a directory.
    pub open spec fn is_dir(self) -> bool {
        self.slot[11] & crate::attrs::DIRECTORY == crate::attrs::DIRECTORY
    }

    /// The number of the first cluster, 0 where there is none.
    pub open spec fn cluster(self) -> int {
        crate::endian::from_le16(self.slot, 20) * 65536 + crate::endian::from_le16(self.slot, 26)
    }
}

/// The long name as text where there is one, else the text of the short name.
pub open spec fn name_text(lfn: Seq<u16>, short_name: Seq<u8>) -> Seq<char> {
    if lfn.len() > 0 {
        utf16_lossy(lfn)
    } else {
        short_name_text(short_name)
    }
}

/// What a file's handle needs to write its record back: the record and its
/// position on the volume.
#[derive(Clone, Copy, Debug)]
pub struct FileEntryInfo {
    pub data: DirFileEntryData,
    pub pos: u64,
}

/// The handle of a file: the first cluster of its chain, if it has one, and
/// the record that it came from.
#[derive(Clone, Copy, Debug)]
pub struct File {
    pub first_cluster: Option<u32>,
    pub entry: Option<FileEntryInfo>,
}

impl File {
    /// The handle is that of the file which the logical entry `e` of the
    /// stream `s` stands for.
    pub open spec fn opens(&self, e: EntryView, s: StreamView) -> bool {
        &&& e.cluster() == 0 ==> self.first_cluster is None
        &&& e.cluster() != 0 ==> self.first_cluster == Some(e.cluster() as u32)
        &&& self.entry is Some
        &&& self.entry->Some_0.data.encoding() == e.slot
        &&& self.entry->Some_0.data.holds(e.slot)
        &&& self.entry->Some_0.pos == s.abs_of(e.end - 32)
    }

    pub fn new(first_cluster: Option<u32>, entry: Option<FileEntryInfo>) -> (r: File)
        ensures
            r.first_cluster == first_cluster,
            r.entry == entry,
    {
        File { first_cluster, entry }
    }
}

/// The handle of a directory: the first cluster of its chain, 0 for the root
/// directory.
#[derive(Clone, Copy, Debug, PartialEq, Eq, Structural)]
pub struct Dir {
    pub first_cluster: u32,
}

/// FAT directory entry: one short slot with the long name that stood before it.
#[derive(Clone, Debug)]
pub struct DirEntry {
    pub data: DirFileEntryData,
    pub lfn: Vec<u16>,
    pub entry_pos: u64,
    pub begin_offset: u64,
    pub end_offset: u64,
}

impl View for DirEntry {
    type V = EntryView;

    open spec fn view(&self) -> EntryView {
        EntryView {
            slot: self.data.encoding(),
            lfn: self.lfn@,
            begin: self.begin_offset as int,
            end: self.end_offset as int,
        }
    }
}

impl DirEntry {
    /// The entry is the logical entry `e` of the stream `s`, and its position
    /// is that of its short slot on the volume.
    pub open spec fn describes(&self, e: EntryView, s: StreamView) -> bool {
        &&& self@ == e
        &&& self.data.holds(e.slot)
        &&& self.entry_pos == s.abs_of(e.end - 32)
    }

    /// Returns short file name.
    pub fn short_file_name(&self) -> (r: String)
        ensures
            r@ == short_name_text(self.data.name@),
    {
        short_name_string(&self.data.name)
    }

    /// Returns long file name or if it doesn't exist fallbacks to short file name.
    pub fn file_name(&self) -> (r: String)
        ensures
            r@ == name_text(self.lfn@, self.data.name@),
    {
        if self.lfn.len() > 0 {
            string_from_chars(decode_utf16_lossy(self.lfn.as_slice()))
        } else {
            self.short_file_name()
        }
    }

    /// Returns file attributes.
    pub fn attributes(&self) -> (r: FileAttributes)
        ensures
            r == self.data.attrs,
    {
        self.data.attrs
    }

    /// Checks if entry belongs to directory.
    pub fn is_dir(&self) -> (r: bool)
        ensures
            r == self.data.spec_is_dir(),
    {
        self.data.is_dir()
    }

    /// Checks if entry belongs to regular file.
    pub fn is_file(&self) -> (r: bool)
        ensures
            r == !self.data.spec_is_dir(),
    {
        self.data.is_file()
    }

    pub fn first_cluster(&self) -> (r: Option<u32>)
        ensures
            self.data.cluster_number() == 0 ==> r is None,
            self.data.cluster_number() != 0 ==> r == Some(self.data.cluster_number() as u32),
    {
        self.data.first_cluster()
    }

    pub fn entry_info(&self) -> (r: FileEntryInfo)
        ensures
            r.data == self.data,
            r.pos == self.entry_pos,
    {
        FileEntryInfo { data: self.data, pos: self.entry_pos }
    }

    /// The file handle of the entry.
    pub open spec fn file(&self) -> File {
        File {
            first_cluster: if self.data.cluster_number() == 0 {
                None
            } else {
                Some(self.data.cluster_number() as u32)
            },
            entry: Some(FileEntryInfo { data: self.data, pos: self.entry_pos }),
        }
    }

    /// Returns the file handle for this entry, which must not be a directory.
    pub fn to_file(&self) -> (r: File)
        requires
            !self.data.spec_is_dir(),
        ensures
            r == self.file(),
    {
        File::new(self.first_cluster(), Some(self.entry_info()))
    }

    /// Returns the directory handle for this entry, which must be a
    /// directory. An entry without a first cluster stands for the root directory.
    pub fn to_dir(&self) -> (r: Dir)
        requires
            self.data.spec_is_dir(),
        ensures
            r.first_cluster == self.data.cluster_number(),
    {
        match self.first_cluster() {
            Some(n) => Dir { first_cluster: n },
            None => Dir { first_cluster: 0 },
        }
    }

    /// Returns file size or 0 for directory.
    pub fn len(&self) -> (r: u64)
        ensures
            r == self.data.size,
    {
        self.data.size as u64
    }

    /// Returns file creation date and time.
    pub fn created(&self) -> (r: DateTime)
        ensures
            r == DateTime::unpacked(self.data.create_date, self.data.create_time_1),
    {
        DateTime::from_u16(self.data.create_date, self.data.create_time_1)
    }

    /// Returns file last access date.
    pub fn accessed(&self) -> (r: Date)
        ensures
            r == Date::unpacked(self.data.access_date),
    {
        Date::from_u16(self.data.access_date)
    }

    /// Returns file last modification date and time.
    pub fn modified(&self) -> (r: DateTime)
        ensures
            r == DateTime::unpacked(self.data.modify_date, self.data.modify_time),
    {
        DateTime::from_u16(self.data.modify_date, self.data.modify_time)
    }
}

} // verus!

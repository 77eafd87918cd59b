use crate::attrs::VOLUME_ID;
use crate::entry::{Dir, DirEntry, EntryView, File};
use crate::error::Error;
use crate::fs::{FileSystem, FsView};
use crate::group::{
    entry_group, fragments_of, lemma_blank_encoding, lemma_group_slot, lemma_overwritten_next,
    lfn_fragment, with_group,
};
use crate::lfn::{lfn_checksum, LongNameBuilder};
use crate::path::{lemma_rest_is_shorter, split_path};
use crate::raw::{DirEntryData, DirFileEntryData, LFN_PART_LEN};
use crate::scan::{
    find_from, first_byte, first_room, free_run, freed, lemma_find_from, lemma_no_room_at_end,
    lemma_no_room_up_to_live, lemma_read_entry, next_entry, no_end_before, no_place,
    only_dots_from, placed_at, read_entry, reaches_end, room_at, run_start, Step,
};
use crate::short_name::{gen_short_name, short_name_of, uppercase};
use crate::stream::{overwritten, DirRawStream, StreamView};
use crate::text::{encode_utf16, eq_ignore_ascii_case, utf16_of};
use crate::walk::{lookup, parent_of};
use vstd::prelude::*;
use vstd::string::StringExecFns;

verus! {

/// What a directory iterator is: the stream that it reads, with its cursor,
/// and whether it has come to its end.
pub struct IterView {
    pub stream: StreamView,
    pub finished: bool,
}

/// Directory entries iterator.
pub struct DirIter {
    stream: DirRawStream,
    finished: bool,
}

impl View for DirIter {
    type V = IterView;

    closed spec fn view(&self) -> IterView {
        IterView { stream: self.stream@, finished: self.finished }
    }
}

impl DirIter {
    /// An iterator that reads `stream` from its cursor on.
    pub fn new(stream: DirRawStream) -> (r: DirIter)
        ensures
            r@ == (IterView { stream: stream@, finished: false }),
    {
        DirIter { stream, finished: false }
    }

    fn read_dir_entry(&mut self) -> (r: Result<Option<DirEntry>, Error>)
        requires
            old(self).stream@.wf(),
        ensures
            final(self).stream@.wf(),
            final(self).finished == old(self).finished,
            final(self).stream@ == (StreamView { pos: final(self).stream@.pos, ..old(self).stream@ }),
            match next_entry(old(self).stream@.bytes, old(self).stream@.pos as int) {
                Step::Entry(e) => {
                    &&& r is Ok
                    &&& r->Ok_0 is Some
                    &&& r->Ok_0->Some_0.describes(e, old(self).stream@)
                    &&& final(self).stream@.pos == e.end
                },
                Step::End => r == Ok::<Option<DirEntry>, Error>(None),
                Step::Fail => r == Err::<Option<DirEntry>, Error>(Error::CorruptedDirectory),
            },
    {
        let mut lfn_buf = LongNameBuilder::new();
        let mut offset: u64 = self.stream.position();
        let mut begin_offset: u64 = offset;
        let ghost bytes = self.stream@.bytes;
        let ghost start = self.stream@.pos as int;
        loop
            invariant
                self.stream@.wf(),
                self.finished == old(self).finished,
                self.stream@ == (StreamView { pos: offset as nat, ..old(self).stream@ }),
                bytes == old(self).stream@.bytes,
                start == old(self).stream@.pos,
                lfn_buf@.wf(),
                start <= begin_offset <= offset,
                next_entry(bytes, start) == read_entry(
                    bytes,
                    offset as int,
                    lfn_buf@,
                    begin_offset as int,
                ),
            decreases bytes.len() - offset,
        {
            let raw_entry = match self.stream.read() {
                Ok(data) => data,
                Err(e) => {
                    return Err(e);
                },
            };
            offset = offset + 32;
            match raw_entry {
                DirEntryData::File(data) => {
                    // Check if this is end of dir
                    if data.is_end() {
                        return Ok(None);
                    }
                    // Check if this is deleted or volume ID entry
                    if data.is_free() || data.attrs.contains(VOLUME_ID) {
                        lfn_buf.clear();
                        begin_offset = offset;
                        continue ;
                    }
                    // Get entry position on volume
                    proof {
                        lemma_read_entry(bytes, offset - 32, lfn_buf@, begin_offset as int);
                    }
                    let entry_pos = self.stream.abs_pos_at(offset - 32);
                    // Check if LFN checksum is valid
                    proof {
                        assert(data.name@.subrange(0, 11) =~= data.name@);
                    }
                    lfn_buf.validate_chksum(&data.name);
                    return Ok(
                        Some(
                            DirEntry {
                                data,
                                lfn: lfn_buf.to_vec(),
                                entry_pos: entry_pos.unwrap(),
                                begin_offset,
                                end_offset: offset,
                            },
                        ),
                    );
                },
                DirEntryData::Lfn(data) => {
                    // Check if this is deleted entry
                    if data.is_free() {
                        lfn_buf.clear();
                        begin_offset = offset;
                        continue ;
                    }
                    // Append to LFN buffer
                    lfn_buf.process(&data);
                },
            }
        }
    }

    /// Gives the next logical entry and moves the cursor behind it. At the
    /// end mark, and at an error, the cursor stays where it was, and the
    /// iterator gives nothing more.
    pub fn next(&mut self) -> (r: Option<Result<DirEntry, Error>>)
        requires
            old(self)@.stream.wf(),
        ensures
            final(self)@.stream.wf(),
            final(self)@.stream == (StreamView {
                pos: final(self)@.stream.pos,
                ..old(self)@.stream
            }),
            old(self)@.finished ==> r is None && final(self)@ == old(self)@,
            !old(self)@.finished ==> match next_entry(
                old(self)@.stream.bytes,
                old(self)@.stream.pos as int,
            ) {
                Step::Entry(e) => {
                    &&& r is Some
                    &&& r->Some_0 is Ok
                    &&& r->Some_0->Ok_0.describes(e, old(self)@.stream)
                    &&& final(self)@ == (IterView {
                        stream: StreamView { pos: e.end as nat, ..old(self)@.stream },
                        finished: false,
                    })
                },
                Step::End => r is None && final(self)@ == (IterView {
                    finished: true,
                    ..old(self)@
                }),
                Step::Fail => r == Some(Err::<DirEntry, Error>(Error::CorruptedDirectory))
                    && final(self)@ == (IterView { finished: true, ..old(self)@ }),
            },
    {
        if self.finished {
            return None;
        }
        let start: u64 = self.stream.position();
        let r = self.read_dir_entry();
        match r {
            Ok(Some(e)) => {
                proof {
                    lemma_read_entry(
                        old(self)@.stream.bytes,
                        start as int,
                        crate::lfn::LfnState::empty(),
                        start as int,
                    );
                }
                Some(Ok(e))
            },
            Ok(None) => {
                let _ = self.stream.seek(start);
                self.finished = true;
                None
            },
            Err(err) => {
                let _ = self.stream.seek(start);
                self.finished = true;
                Some(Err(err))
            },
        }
    }
}

/// What the creation of an entry for `name` in the directory `dir` does to a
/// volume, and what it gives.
///
/// A name of more than 255 UTF-16 code units is refused with `InvalidInput`.
/// Else the group of the entry is placed at the first slot with room for it,
/// and the volume differs in the bytes of that directory alone; where no
/// such slot is left within the stream, the creation fails with `NoSpace`. A
/// failure leaves the volume as it was.
pub open spec fn creates(
    before: FsView,
    after: FsView,
    dir: u32,
    name: Seq<char>,
    r: Result<DirEntry, Error>,
) -> bool {
    let bytes = before.bytes_of(dir);
    let num = fragments_of(utf16_of(name).len() as int) + 1;
    let short_name = short_name_of(vstd::utf8::encode_utf8(uppercase(name)));
    if utf16_of(name).len() > 255 {
        r == Err::<DirEntry, Error>(Error::InvalidInput) && after == before
    } else {
        match r {
            Ok(e) => {
                &&& e.begin_offset % 32 == 0
                &&& placed_at(bytes, e.begin_offset as int / 32, num)
                &&& e.end_offset == e.begin_offset + 32 * num
                &&& e.lfn@ == Seq::<u16>::empty()
                &&& e.data.name@ == short_name
                &&& e.data.is_blank()
                &&& e.entry_pos == before.stream_of(dir).abs_of(e.end_offset - 32)
                &&& after == (FsView {
                    dirs: before.dirs.insert(
                        dir,
                        StreamView {
                            bytes: with_group(
                                bytes,
                                e.begin_offset as int,
                                entry_group(utf16_of(name), short_name),
                                !free_run(bytes, e.begin_offset as int / 32, num),
                            ),
                            ..before.stream_of(dir)
                        },
                    ),
                    ..before
                })
            },
            Err(err) => {
                &&& err == Error::NoSpace
                &&& after == before
                &&& no_place(bytes, num)
            },
        }
    }
}

/// What the removal of the entry `e` of the directory `d` does to a volume,
/// and what it gives.
///
/// A directory that holds an entry other than `.` and `..` is refused with
/// `DirectoryNotEmpty`, and one whose entries cannot be read to their end
/// with the error of that reading. A failure leaves the volume as it was.
/// Else every slot in the range of the entry is marked free, and the chain
/// of the entry, where it has one, is released.
pub open spec fn removes_entry(
    before: FsView,
    after: FsView,
    d: u32,
    e: EntryView,
    r: Result<(), Error>,
) -> bool {
    let inside = only_dots_from(before.bytes_of(e.cluster() as u32), 0);
    if e.is_dir() && inside is Err {
        r == Err::<(), Error>(inside->Err_0) && after == before
    } else if e.is_dir() && inside == Ok::<bool, Error>(false) {
        r == Err::<(), Error>(Error::DirectoryNotEmpty) && after == before
    } else {
        &&& r is Ok
        &&& after == (FsView {
            dirs: before.dirs.insert(
                d,
                StreamView {
                    bytes: freed(before.bytes_of(d), e.begin, e.end),
                    ..before.stream_of(d)
                },
            ),
            released: if e.cluster() != 0 {
                before.released.push(e.cluster() as u32)
            } else {
                before.released
            },
        })
    }
}

/// What the removal of the entry that `path` names does to a volume, and
/// what it gives: where the path names no entry the removal fails as the
/// lookup does and leaves the volume as it was, and else it is the removal
/// of the entry that the path names.
pub open spec fn removes(
    before: FsView,
    after: FsView,
    dir: u32,
    path: Seq<char>,
    r: Result<(), Error>,
) -> bool {
    match lookup(before, dir, path) {
        Err(err) => r == Err::<(), Error>(err) && after == before,
        Ok((d, e)) => removes_entry(before, after, d, e, r),
    }
}

/// Marks every slot of the range from `begin` to `end` free: reads each,
/// sets its free flag and writes it back.
fn free_slots(stream: &mut DirRawStream, begin: u64, end: u64)
    requires
        old(stream)@.wf(),
        begin <= end <= old(stream)@.bytes.len(),
        (end - begin) % 32 == 0,
    ensures
        final(stream)@.wf(),
        final(stream)@ == (StreamView {
            bytes: freed(old(stream)@.bytes, begin as int, end as int),
            pos: end as nat,
            ..old(stream)@
        }),
{
    let ghost orig = stream@;
    let ghost bytes = stream@.bytes;
    let _ = stream.seek(begin);
    let num: u64 = (end - begin) / 32;
    let mut k: u64 = 0;
    assert(freed(bytes, begin as int, begin as int) =~= bytes);
    while k < num
        invariant
            k <= num,
            begin + 32 * num == end,
            end <= bytes.len(),
            orig.wf(),
            orig.bytes == bytes,
            stream@.wf(),
            stream@ == (StreamView {
                bytes: freed(bytes, begin as int, begin + 32 * k),
                pos: (begin + 32 * k) as nat,
                ..orig
            }),
        decreases num - k,
    {
        let ghost cur = stream@.bytes;
        let ghost at = begin + 32 * k;
        let mut data = match stream.read() {
            Ok(data) => data,
            Err(_) => {
                return ;
            },
        };
        data.set_free();
        let _ = stream.seek(begin + 32 * k);
        let _ = stream.write(&data);
        proof {
            let slot = cur.subrange(at, at + 32);
            assert forall|i: int| 0 <= i < bytes.len() implies stream@.bytes[i] == freed(
                bytes,
                begin as int,
                at + 32,
            )[i] by {
                if at <= i < at + 32 {
                    vstd::arithmetic::div_mod::lemma_fundamental_div_mod_converse(
                        i - begin,
                        32,
                        k as int,
                        i - at,
                    );
                    assert(((i - begin) % 32 == 0) == (i == at));
                    assert(slot.update(0, 0xE5u8)[i - at] == (if i == at {
                        0xE5u8
                    } else {
                        cur[i]
                    }));
                    assert(cur[i] == bytes[i]);
                } else {
                    assert(stream@.bytes[i] == cur[i]);
                }
            }
            assert(stream@.bytes =~= freed(bytes, begin as int, at + 32));
        }
        k = k + 1;
    }
}

/// Takes an entry out of its directory: releases its chain, where it has
/// one, and marks every slot of its range free.
fn unlink(fs: &mut FileSystem, dir: Dir, e: &DirEntry)
    requires
        old(fs).wf(),
        e.begin_offset <= e.end_offset <= old(fs)@.bytes_of(dir.first_cluster).len(),
        (e.end_offset - e.begin_offset) % 32 == 0,
    ensures
        final(fs).wf(),
        final(fs)@ == (FsView {
            dirs: old(fs)@.dirs.insert(
                dir.first_cluster,
                StreamView {
                    bytes: freed(
                        old(fs)@.bytes_of(dir.first_cluster),
                        e.begin_offset as int,
                        e.end_offset as int,
                    ),
                    ..old(fs)@.stream_of(dir.first_cluster)
                },
            ),
            released: if e.data.cluster_number() != 0 {
                old(fs)@.released.push(e.data.cluster_number() as u32)
            } else {
                old(fs)@.released
            },
        }),
{
    let mut stream = fs.stream(dir.first_cluster);
    match e.first_cluster() {
        Some(n) => {
            fs.release(n);
        },
        None => {},
    }
    free_slots(&mut stream, e.begin_offset, e.end_offset);
    fs.add_dir(dir.first_cluster, stream);
}

/// Removes an entry of the directory `dir`, unless it is a directory that
/// still holds entries.
fn remove_entry(fs: &mut FileSystem, dir: Dir, e: &DirEntry) -> (r: Result<(), Error>)
    requires
        old(fs).wf(),
        e.data.holds(e@.slot),
        e.begin_offset <= e.end_offset <= old(fs)@.bytes_of(dir.first_cluster).len(),
        (e.end_offset - e.begin_offset) % 32 == 0,
    ensures
        final(fs).wf(),
        removes_entry(old(fs)@, final(fs)@, dir.first_cluster, e@, r),
{
    if e.is_dir() {
        match e.to_dir().is_empty(fs) {
            Ok(true) => {},
            Ok(false) => {
                return Err(Error::DirectoryNotEmpty);
            },
            Err(err) => {
                return Err(err);
            },
        }
    }
    unlink(fs, dir, e);
    Ok(())
}

/// Where a new group of slots can be written: the offset of its first slot,
/// and whether the group will cover the end mark of the directory.
#[derive(Clone, Copy, Debug)]
pub struct FreeRun {
    pub offset: u64,
    pub at_end: bool,
}

impl Dir {
    /// The handle of the directory whose chain starts at `first_cluster`, 0
    /// for the root directory.
    pub fn new(first_cluster: u32) -> (r: Dir)
        ensures
            r.first_cluster == first_cluster,
    {
        Dir { first_cluster }
    }

    /// Creates directory entries iterator.
    pub fn iter(&self, fs: &FileSystem) -> (r: DirIter)
        requires
            fs.wf(),
        ensures
            r@ == (IterView { stream: fs@.stream_of(self.first_cluster), finished: false }),
            r@.stream.wf(),
            r@.stream.pos == 0,
    {
        DirIter::new(fs.stream(self.first_cluster))
    }

    /// Finds the first entry whose name is `name`, the case of ASCII letters
    /// left aside.
    pub fn find_entry(&self, fs: &FileSystem, name: &str) -> (r: Result<DirEntry, Error>)
        requires
            fs.wf(),
        ensures
            match find_from(fs@.bytes_of(self.first_cluster), 0, name@) {
                Ok(e) => r is Ok && r->Ok_0.describes(e, fs@.stream_of(self.first_cluster)),
                Err(err) => r == Err::<DirEntry, Error>(err),
            },
    {
        let mut it = self.iter(fs);
        let ghost bytes = fs@.bytes_of(self.first_cluster);
        let ghost stream = fs@.stream_of(self.first_cluster);
        loop
            invariant
                it@.stream.wf(),
                !it@.finished,
                it@.stream == (StreamView { pos: it@.stream.pos, ..stream }),
                bytes == stream.bytes,
                bytes == fs@.bytes_of(self.first_cluster),
                stream == fs@.stream_of(self.first_cluster),
                find_from(bytes, 0, name@) == find_from(bytes, it@.stream.pos as int, name@),
            decreases bytes.len() - it@.stream.pos,
        {
            let ghost pos = it@.stream.pos as int;
            proof {
                lemma_read_entry(bytes, pos, crate::lfn::LfnState::empty(), pos);
            }
            match it.next() {
                None => {
                    return Err(Error::NotFound);
                },
                Some(Err(err)) => {
                    return Err(err);
                },
                Some(Ok(e)) => {
                    let file_name: String = e.file_name();
                    proof {
                        e.data.lemma_encoding();
                    }
                    if eq_ignore_ascii_case(file_name.as_str(), name) {
                        return Ok(e);
                    }
                },
            }
        }
    }

    /// Whether the directory holds no entry but `.` and `..`.
    pub fn is_empty(&self, fs: &FileSystem) -> (r: Result<bool, Error>)
        requires
            fs.wf(),
        ensures
            r == only_dots_from(fs@.bytes_of(self.first_cluster), 0),
    {
        let mut it = self.iter(fs);
        let ghost bytes = fs@.bytes_of(self.first_cluster);
        let ghost stream = fs@.stream_of(self.first_cluster);
        let dot: String = String::from_str(".");
        let dot_dot: String = String::from_str("..");
        proof {
            reveal_strlit(".");
            reveal_strlit("..");
            assert(dot@ =~= seq!['.']);
            assert(dot_dot@ =~= seq!['.', '.']);
        }
        loop
            invariant
                it@.stream.wf(),
                !it@.finished,
                it@.stream == (StreamView { pos: it@.stream.pos, ..stream }),
                bytes == stream.bytes,
                bytes == fs@.bytes_of(self.first_cluster),
                stream == fs@.stream_of(self.first_cluster),
                dot@ == seq!['.'],
                dot_dot@ == seq!['.', '.'],
                only_dots_from(bytes, 0) == only_dots_from(bytes, it@.stream.pos as int),
            decreases bytes.len() - it@.stream.pos,
        {
            let ghost pos = it@.stream.pos as int;
            proof {
                lemma_read_entry(bytes, pos, crate::lfn::LfnState::empty(), pos);
            }
            match it.next() {
                None => {
                    return Ok(true);
                },
                Some(Err(err)) => {
                    return Err(err);
                },
                Some(Ok(e)) => {
                    let name: String = e.file_name();
                    proof {
                        e.data.lemma_encoding();
                    }
                    if !(name == dot) && !(name == dot_dot) {
                        return Ok(false);
                    }
                },
            }
        }
    }

    /// Finds room for `num_entries` slots: the first run of free slots that
    /// either has that many slots or reaches the end mark of the directory.
    /// Fails with `NoSpace` where the stream ends before either.
    #[verifier::rlimit(30)]
    pub fn find_free_entries(&self, fs: &FileSystem, num_entries: usize) -> (r: Result<
        FreeRun,
        Error,
    >)
        requires
            fs.wf(),
        ensures
            match r {
                Ok(run) => {
                    &&& run.offset % 32 == 0
                    &&& first_room(
                        fs@.bytes_of(self.first_cluster),
                        run.offset as int / 32,
                        num_entries as int,
                    )
                    &&& run.at_end == !free_run(
                        fs@.bytes_of(self.first_cluster),
                        run.offset as int / 32,
                        num_entries as int,
                    )
                },
                Err(err) => {
                    &&& err == Error::NoSpace
                    &&& forall|s: int|
                        !room_at(fs@.bytes_of(self.first_cluster), s, num_entries as int)
                },
            },
    {
        let ghost bytes = fs@.bytes_of(self.first_cluster);
        if num_entries == 0 {
            return Ok(FreeRun { offset: 0, at_end: false });
        }
        let mut stream = fs.stream(self.first_cluster);
        let ghost orig = stream@;
        let ghost num = num_entries as int;
        let mut first_free: usize = 0;
        let mut num_free: usize = 0;
        let mut i: usize = 0;
        loop
            invariant
                stream@.wf(),
                stream@ == (StreamView { pos: stream@.pos, ..orig }),
                orig.bytes == bytes,
                bytes == fs@.bytes_of(self.first_cluster),
                num == num_entries,
                num >= 1,
                stream@.pos == 32 * i,
                no_end_before(bytes, i as int),
                num_free < num_entries,
                num_free > 0 ==> first_free + num_free == i,
                num_free == 0 ==> run_start(bytes, i as int),
                num_free > 0 ==> run_start(bytes, first_free as int),
                forall|k: int| i - num_free <= k < i ==> #[trigger] first_byte(bytes, k) == 0xE5,
                forall|r: int| 0 <= r < i - num_free ==> !room_at(bytes, r, num),
            decreases bytes.len() - stream@.pos,
        {
            let ghost lo = i - num_free;
            let data = match stream.read() {
                Ok(data) => data,
                Err(_) => {
                    proof {
                        lemma_no_room_at_end(bytes, lo, i as int, num);
                    }
                    return Err(Error::NoSpace);
                },
            };
            proof {
                let slot = bytes.subrange(32 * i, 32 * i + 32);
                assert(slot[0] == first_byte(bytes, i as int));
            }
            if data.is_free() {
                if num_free == 0 {
                    first_free = i;
                }
                num_free = num_free + 1;
                if num_free == num_entries {
                    proof {
                        assert(free_run(bytes, first_free as int, num));
                        assert(room_at(bytes, first_free as int, num));
                    }
                    return Ok(FreeRun { offset: first_free as u64 * 32, at_end: false });
                }
            } else if data.is_end() {
                if num_free == 0 {
                    first_free = i;
                }
                proof {
                    let s = first_free as int;
                    assert(free_run(bytes, s, i - s));
                    assert(first_byte(bytes, i as int) == 0);
                    assert(reaches_end(bytes, s, num));
                    assert(room_at(bytes, s, num));
                    if free_run(bytes, s, num) {
                        assert(first_byte(bytes, i as int) == 0xE5);
                    }
                }
                return Ok(FreeRun { offset: first_free as u64 * 32, at_end: true });
            } else {
                proof {
                    lemma_no_room_up_to_live(bytes, lo, i as int, num);
                }
                num_free = 0;
            }
            i = i + 1;
        }
    }

    /// Writes a new entry for `name` into the directory: the fragments of the
    /// long name, then a short slot with the generated short name and every
    /// other field zero. The group goes to the first room that
    /// `find_free_entries` finds for it. Where it covers the end mark and a
    /// slot follows it, that slot becomes the end mark.
    ///
    /// Fails with `InvalidInput` where the name has more than 255 UTF-16 code
    /// units, and with `NoSpace` where the directory has no room or the group
    /// would reach beyond the end of its stream; the volume is then unchanged.
    #[verifier::rlimit(30)]
    pub fn create_file_entry(&self, fs: &mut FileSystem, name: &str) -> (r: Result<DirEntry, Error>)
        requires
            old(fs).wf(),
        ensures
            final(fs).wf(),
            creates(old(fs)@, final(fs)@, self.first_cluster, name@, r),
    {
        let lfn_utf16: Vec<u16> = encode_utf16(name);
        if lfn_utf16.len() > 255 {
            return Err(Error::InvalidInput);
        }
        let num_lfn_entries: usize = (lfn_utf16.len() + LFN_PART_LEN - 1) / LFN_PART_LEN;
        let num_entries: usize = num_lfn_entries + 1;  // multiple lfn entries + one file entry
        let ghost bytes = fs@.bytes_of(self.first_cluster);
        let ghost units = lfn_utf16@;
        let ghost num = num_entries as int;
        let run = match self.find_free_entries(fs, num_entries) {
            Ok(run) => run,
            Err(err) => {
                return Err(err);
            },
        };
        let mut stream = fs.stream(self.first_cluster);
        let ghost orig = stream@;
        let start_pos: u64 = run.offset;
        let ghost s = start_pos as int / 32;
        proof {
            crate::scan::lemma_room_within(bytes, s, num);
            crate::scan::lemma_first_room_unique(bytes, s, num);
        }
        if stream.len() as u64 - start_pos < 32 * num_entries as u64 {
            return Err(Error::NoSpace);
        }
        let end_pos: u64 = start_pos + 32 * num_entries as u64;
        let _ = stream.seek(start_pos);
        let short_name: [u8; 11] = gen_short_name(name);
        let lfn_chsum: u8 = lfn_checksum(&short_name);
        assert(short_name@.subrange(0, 11) =~= short_name@);
        let ghost group = entry_group(units, short_name@);
        proof {
            lemma_group_slot(units, short_name@, 0);
            assert(group.subrange(0, 0) =~= Seq::<u8>::empty());
            assert(overwritten(bytes, start_pos as int, group.subrange(0, 0)) =~= bytes);
        }
        let mut i: usize = 0;
        while i < num_lfn_entries
            invariant
                i <= num_lfn_entries,
                num_lfn_entries == fragments_of(units.len() as int),
                num_lfn_entries <= 20,
                units == lfn_utf16@,
                units.len() <= 255,
                short_name@.len() == 11,
                lfn_chsum == crate::lfn::checksum_of(short_name@),
                group == entry_group(units, short_name@),
                group.len() == 32 * (num_lfn_entries + 1),
                start_pos + group.len() <= bytes.len(),
                orig.wf(),
                orig.bytes == bytes,
                stream@.wf(),
                stream@ == (StreamView {
                    bytes: overwritten(bytes, start_pos as int, group.subrange(0, 32 * i)),
                    pos: (start_pos + 32 * i) as nat,
                    ..orig
                }),
            decreases num_lfn_entries - i,
        {
            let lfn_index: usize = num_lfn_entries - i;
            let lfn_entry = lfn_fragment(&lfn_utf16, num_lfn_entries, lfn_index, lfn_chsum);
            proof {
                lemma_group_slot(units, short_name@, i as int);
                lemma_overwritten_next(bytes, start_pos as int, group, 32 * i, 32 * i + 32);
            }
            let _ = stream.write(&DirEntryData::Lfn(lfn_entry));
            i = i + 1;
        }
        let raw_entry = DirFileEntryData::with_name(short_name);
        proof {
            lemma_blank_encoding(raw_entry);
            lemma_group_slot(units, short_name@, num_lfn_entries as int);
            lemma_overwritten_next(
                bytes,
                start_pos as int,
                group,
                32 * num_lfn_entries,
                32 * num_lfn_entries + 32,
            );
            assert(group.subrange(0, 32 * num_lfn_entries + 32) =~= group);
        }
        let _ = stream.write(&DirEntryData::File(raw_entry));
        if run.at_end {
            let _ = stream.write_end();
        }
        let entry_pos = stream.abs_pos_at(end_pos - 32);
        fs.add_dir(self.first_cluster, stream);
        Ok(
            DirEntry {
                data: raw_entry,
                lfn: Vec::new(),
                entry_pos: entry_pos.unwrap(),
                begin_offset: start_pos,
                end_offset: end_pos,
            },
        )
    }

    /// Walks all components of `path` but the last, and gives the directory
    /// in which the last is to be looked up, with that component.
    pub fn resolve_parent<'a>(&self, fs: &FileSystem, path: &'a str) -> (r: Result<
        (Dir, &'a str),
        Error,
    >)
        requires
            fs.wf(),
        ensures
            match parent_of(fs@, self.first_cluster, path@) {
                Ok((d, name)) => r is Ok && r->Ok_0.0.first_cluster == d && r->Ok_0.1@ == name,
                Err(err) => r is Err && r->Err_0 == err,
            },
    {
        let mut dir: Dir = *self;
        let mut rest_path: &str = path;
        loop
            invariant
                fs.wf(),
                parent_of(fs@, self.first_cluster, path@) == parent_of(
                    fs@,
                    dir.first_cluster,
                    rest_path@,
                ),
            decreases rest_path@.len(),
        {
            let (name, rest_opt) = split_path(rest_path);
            match rest_opt {
                None => {
                    return Ok((dir, name));
                },
                Some(rest) => {
                    proof {
                        lemma_rest_is_shorter(rest_path@);
                    }
                    let e = match dir.find_entry(fs, name) {
                        Ok(e) => e,
                        Err(err) => {
                            return Err(err);
                        },
                    };
                    if !e.is_dir() {
                        return Err(Error::NotFound);
                    }
                    dir = e.to_dir();
                    rest_path = rest;
                },
            }
        }
    }

    /// Finds the entry that `path` names, and the directory that holds it.
    pub fn find_by_path(&self, fs: &FileSystem, path: &str) -> (r: Result<(Dir, DirEntry), Error>)
        requires
            fs.wf(),
        ensures
            match lookup(fs@, self.first_cluster, path@) {
                Ok((d, e)) => {
                    &&& r is Ok
                    &&& r->Ok_0.0.first_cluster == d
                    &&& r->Ok_0.1.describes(e, fs@.stream_of(d))
                    &&& e.begin + 32 <= e.end <= fs@.bytes_of(d).len()
                    &&& e.begin % 32 == 0
                    &&& (e.end - e.begin) % 32 == 0
                },
                Err(err) => r is Err && r->Err_0 == err,
            },
    {
        let (dir, name) = match self.resolve_parent(fs, path) {
            Ok(found) => found,
            Err(err) => {
                return Err(err);
            },
        };
        let e = match dir.find_entry(fs, name) {
            Ok(e) => e,
            Err(err) => {
                return Err(err);
            },
        };
        proof {
            lemma_find_from(fs@.bytes_of(dir.first_cluster), 0, name@);
        }
        Ok((dir, e))
    }

    /// Opens existing directory.
    pub fn open_dir(&self, fs: &FileSystem, path: &str) -> (r: Result<Dir, Error>)
        requires
            fs.wf(),
        ensures
            match lookup(fs@, self.first_cluster, path@) {
                Ok((d, e)) => if e.is_dir() {
                    r == Ok::<Dir, Error>(Dir { first_cluster: e.cluster() as u32 })
                } else {
                    r == Err::<Dir, Error>(Error::NotFound)
                },
                Err(err) => r == Err::<Dir, Error>(err),
            },
    {
        let (_, e) = match self.find_by_path(fs, path) {
            Ok(found) => found,
            Err(err) => {
                return Err(err);
            },
        };
        if e.is_dir() {
            Ok(e.to_dir())
        } else {
            Err(Error::NotFound)
        }
    }

    /// Opens existing file.
    pub fn open_file(&self, fs: &FileSystem, path: &str) -> (r: Result<File, Error>)
        requires
            fs.wf(),
        ensures
            match lookup(fs@, self.first_cluster, path@) {
                Ok((d, e)) => if e.is_dir() {
                    r == Err::<File, Error>(Error::NotFound)
                } else {
                    r is Ok && r->Ok_0.opens(e, fs@.stream_of(d))
                },
                Err(err) => r == Err::<File, Error>(err),
            },
    {
        let (_, e) = match self.find_by_path(fs, path) {
            Ok(found) => found,
            Err(err) => {
                return Err(err);
            },
        };
        if e.is_dir() {
            Err(Error::NotFound)
        } else {
            Ok(e.to_file())
        }
    }

    /// Creates new file or opens existing.
    ///
    /// Where the last component of `path` names an entry, the file of that
    /// entry is opened, and a directory is refused with `NotFound`. Where the
    /// search for it fails, an entry is created for it.
    pub fn create_file(&self, fs: &mut FileSystem, path: &str) -> (r: Result<File, Error>)
        requires
            old(fs).wf(),
        ensures
            final(fs).wf(),
            match parent_of(old(fs)@, self.first_cluster, path@) {
                Err(err) => r == Err::<File, Error>(err) && final(fs)@ == old(fs)@,
                Ok((d, name)) => match find_from(old(fs)@.bytes_of(d), 0, name) {
                    Ok(e) => {
                        &&& final(fs)@ == old(fs)@
                        &&& e.is_dir() ==> r == Err::<File, Error>(Error::NotFound)
                        &&& !e.is_dir() ==> r is Ok && r->Ok_0.opens(e, old(fs)@.stream_of(d))
                    },
                    Err(_) => match r {
                        Ok(file) => exists|e: DirEntry|
                            creates(old(fs)@, final(fs)@, d, name, Ok(e)) && file == e.file(),
                        Err(err) => creates(
                            old(fs)@,
                            final(fs)@,
                            d,
                            name,
                            Err::<DirEntry, Error>(err),
                        ),
                    },
                },
            },
    {
        let (dir, name) = match self.resolve_parent(fs, path) {
            Ok(found) => found,
            Err(err) => {
                return Err(err);
            },
        };
        match dir.find_entry(fs, name) {
            Ok(e) => {
                if e.is_dir() {
                    Err(Error::NotFound)
                } else {
                    Ok(e.to_file())
                }
            },
            Err(_) => {
                match dir.create_file_entry(fs, name) {
                    Ok(e) => {
                        assert(0u8 & 0x10 != 0x10) by (bit_vector);
                        Ok(e.to_file())
                    },
                    Err(err) => Err(err),
                }
            },
        }
    }

    /// Removes existing file or directory.
    ///
    /// Make sure there is no handle of this file left, or the filesystem can
    /// be corrupted.
    pub fn remove(&self, fs: &mut FileSystem, path: &str) -> (r: Result<(), Error>)
        requires
            old(fs).wf(),
        ensures
            final(fs).wf(),
            removes(old(fs)@, final(fs)@, self.first_cluster, path@, r),
    {
        let (dir, e) = match self.find_by_path(fs, path) {
            Ok(found) => found,
            Err(err) => {
                return Err(err);
            },
        };
        remove_entry(fs, dir, &e)
    }
}

} // verus!

use rfat::dir::DirIter;
use rfat::entry::{Dir, DirEntry};
use rfat::error::Error;
use rfat::fs::FileSystem;
use rfat::stream::DirRawStream;

const DIRECTORY: u8 = 0x10;
const ARCHIVE: u8 = 0x20;
const VOLUME_ID: u8 = 0x08;

fn checksum(short: &[u8; 11]) -> u8 {
    let mut c: u8 = 0;
    for b in short.iter() {
        c = (if c & 1 == 1 { 0x80u8 } else { 0 }).wrapping_add(c >> 1).wrapping_add(*b);
    }
    c
}

fn short_slot(short: &[u8; 11], attrs: u8, cluster: u32, size: u32) -> Vec<u8> {
    let mut s = vec![0u8; 32];
    s[..11].copy_from_slice(short);
    s[11] = attrs;
    s[20..22].copy_from_slice(&((cluster >> 16) as u16).to_le_bytes());
    s[26..28].copy_from_slice(&((cluster & 0xFFFF) as u16).to_le_bytes());
    s[28..32].copy_from_slice(&size.to_le_bytes());
    s
}

fn lfn_slots(name: &str, short: &[u8; 11]) -> Vec<u8> {
    let units: Vec<u16> = name.encode_utf16().collect();
    let total = (units.len() + 12) / 13;
    let mut out = Vec::new();
    for index in (1..=total).rev() {
        let mut part = [0xFFFFu16; 13];
        for j in 0..13 {
            let p = 13 * (index - 1) + j;
            if p < units.len() {
                part[j] = units[p];
            } else if p == units.len() {
                part[j] = 0;
            }
        }
        let mut s = vec![0u8; 32];
        s[0] = index as u8 | if index == total { 0x40 } else { 0 };
        for j in 0..5 {
            s[1 + 2 * j..3 + 2 * j].copy_from_slice(&part[j].to_le_bytes());
        }
        s[11] = 0x0F;
        s[13] = checksum(short);
        for j in 0..6 {
            s[14 + 2 * j..16 + 2 * j].copy_from_slice(&part[5 + j].to_le_bytes());
        }
        for j in 0..2 {
            s[28 + 2 * j..30 + 2 * j].copy_from_slice(&part[11 + j].to_le_bytes());
        }
        out.extend_from_slice(&s);
    }
    out
}

fn entry(name: &str, short: &[u8; 11], attrs: u8, cluster: u32, size: u32) -> Vec<u8> {
    let mut out = lfn_slots(name, short);
    out.extend_from_slice(&short_slot(short, attrs, cluster, size));
    out
}

fn padded(mut data: Vec<u8>, len: usize) -> Vec<u8> {
    assert!(data.len() <= len);
    data.resize(len, 0);
    data
}

fn stream(data: Vec<u8>, at: u64, growable: bool) -> DirRawStream {
    let len = data.len();
    DirRawStream::new(data, len, vec![at], growable).unwrap()
}

fn dots(own: u32, parent: u32) -> Vec<u8> {
    let mut out = short_slot(b".          ", DIRECTORY, own, 0);
    out.extend_from_slice(&short_slot(b"..         ", DIRECTORY, parent, 0));
    out
}

/// A volume with `long.txt`, `short.txt`, `very` and `very-long-dir-name` in
/// its root directory, and `very/long/path/test.txt`.
fn sample_volume() -> FileSystem {
    let mut root = Vec::new();
    root.extend_from_slice(&short_slot(b"Test!      ", VOLUME_ID, 0, 0));
    root.extend_from_slice(&entry("long.txt", b"LONG    TXT", ARCHIVE, 7, 14000));
    root.extend_from_slice(&entry("short.txt", b"SHORT   TXT", ARCHIVE, 8, 14));
    root.extend_from_slice(&entry("very", b"VERY       ", DIRECTORY, 3, 0));
    root.extend_from_slice(&entry("very-long-dir-name", b"VERY-L~1   ", DIRECTORY, 6, 0));
    let mut fs = FileSystem::new(stream(padded(root, 512 * 32), 0x4000, false));

    let mut very = dots(3, 0);
    very.extend_from_slice(&entry("long", b"LONG       ", DIRECTORY, 4, 0));
    fs.add_dir(3, stream(padded(very, 2048), 0x10000, true));

    let mut long = dots(4, 3);
    long.extend_from_slice(&entry("path", b"PATH       ", DIRECTORY, 5, 0));
    fs.add_dir(4, stream(padded(long, 2048), 0x10800, true));

    let mut path = dots(5, 4);
    path.extend_from_slice(&entry("test.txt", b"TEST    TXT", ARCHIVE, 9, 14));
    fs.add_dir(5, stream(padded(path, 2048), 0x11000, true));

    let mut named = dots(6, 0);
    named.extend_from_slice(&entry(
        "very-long-file-name.txt",
        b"VERY-L~1TXT",
        ARCHIVE,
        10,
        14,
    ));
    fs.add_dir(6, stream(padded(named, 2048), 0x11800, true));
    fs
}

fn collect(mut it: DirIter) -> Vec<Result<DirEntry, Error>> {
    let mut out = Vec::new();
    while let Some(r) = it.next() {
        out.push(r);
    }
    out
}

fn names(dir: &Dir, fs: &FileSystem) -> Vec<String> {
    collect(dir.iter(fs)).into_iter().map(|r| r.unwrap().file_name()).collect()
}

#[test]
fn test_root_dir() {
    let fs = sample_volume();
    let root_dir = Dir::new(0);
    let entries: Vec<DirEntry> =
        collect(root_dir.iter(&fs)).into_iter().map(|r| r.unwrap()).collect();
    let short_names: Vec<String> = entries.iter().map(|e| e.short_file_name()).collect();
    assert_eq!(short_names, ["LONG.TXT", "SHORT.TXT", "VERY", "VERY-L~1"]);
    let names1: Vec<String> = entries.iter().map(|e| e.file_name()).collect();
    assert_eq!(names1, ["long.txt", "short.txt", "very", "very-long-dir-name"]);
    // Try read again
    let names2 = names(&root_dir, &fs);
    assert_eq!(names2, names1);
}

#[test]
fn test_get_dir_by_path() {
    let fs = sample_volume();
    let root_dir = Dir::new(0);
    let dir = root_dir.open_dir(&fs, "very/long/path/").unwrap();
    assert_eq!(dir, Dir::new(5));
    assert_eq!(names(&dir, &fs), [".", "..", "test.txt"]);
}

#[test]
fn test_get_file_by_path() {
    let fs = sample_volume();
    let root_dir = Dir::new(0);
    let file = root_dir.open_file(&fs, "very/long/path/test.txt").unwrap();
    assert_eq!(file.first_cluster, Some(9));
    let info = file.entry.unwrap();
    assert_eq!(info.data.size, 14);
    // third slot of the directory's stream: after `.`, `..` and one fragment
    assert_eq!(info.pos, 0x11000 + 3 * 32);

    let file = root_dir.open_file(&fs, "very-long-dir-name/very-long-file-name.txt").unwrap();
    assert_eq!(file.first_cluster, Some(10));
    assert_eq!(file.entry.unwrap().pos, 0x11800 + 4 * 32);
}

#[test]
fn entry_fields_and_ranges() {
    let fs = sample_volume();
    let entries: Vec<DirEntry> =
        collect(Dir::new(0).iter(&fs)).into_iter().map(|r| r.unwrap()).collect();
    // the volume label takes slot 0 and belongs to no entry
    assert_eq!((entries[0].begin_offset, entries[0].end_offset), (32, 96));
    assert_eq!((entries[1].begin_offset, entries[1].end_offset), (96, 160));
    assert_eq!((entries[3].begin_offset, entries[3].end_offset), (224, 320));
    assert_eq!(entries[0].entry_pos, 0x4000 + 64);
    assert_eq!(entries[0].len(), 14000);
    assert!(entries[0].is_file() && !entries[0].is_dir());
    assert!(entries[2].is_dir() && !entries[2].is_file());
    assert_eq!(entries[2].len(), 0);
    assert_eq!(entries[0].attributes().bits(), ARCHIVE);
    assert_eq!(entries[0].first_cluster(), Some(7));
    assert_eq!(entries[2].to_dir(), Dir::new(3));
    assert_eq!(entries[0].to_file().first_cluster, Some(7));
}

#[test]
fn find_entry_ignores_ascii_case() {
    let fs = sample_volume();
    let root = Dir::new(0);
    let a = root.find_entry(&fs, "long.txt").unwrap();
    let b = root.find_entry(&fs, "LONG.TXT").unwrap();
    let c = root.find_entry(&fs, "Long.Txt").unwrap();
    assert_eq!(a.entry_pos, b.entry_pos);
    assert_eq!(a.entry_pos, c.entry_pos);
    assert_eq!(root.find_entry(&fs, "missing.txt").unwrap_err(), Error::NotFound);
}

#[test]
fn open_reports_missing_and_wrong_kind() {
    let fs = sample_volume();
    let root = Dir::new(0);
    assert_eq!(root.open_dir(&fs, "nothing/here").unwrap_err(), Error::NotFound);
    assert_eq!(root.open_dir(&fs, "very/nothing").unwrap_err(), Error::NotFound);
    // a file in the middle of a path, a file opened as a directory, a directory as a file
    assert_eq!(root.open_dir(&fs, "short.txt/x").unwrap_err(), Error::NotFound);
    assert_eq!(root.open_dir(&fs, "short.txt").unwrap_err(), Error::NotFound);
    assert_eq!(root.open_file(&fs, "very").unwrap_err(), Error::NotFound);
    // `..` of a directory below the root leads back to the root
    assert_eq!(root.open_dir(&fs, "very/..").unwrap(), Dir::new(0));
}

#[test]
fn iteration_stops_at_end_mark_and_stays_stopped() {
    let mut data = entry("a", b"A          ", ARCHIVE, 0, 0);
    data.extend_from_slice(&[0u8; 32]);
    data.extend_from_slice(&entry("ghost", b"GHOST      ", ARCHIVE, 0, 0));
    let fs = FileSystem::new(stream(padded(data, 512), 0, false));
    let mut it = Dir::new(0).iter(&fs);
    assert_eq!(it.next().unwrap().unwrap().file_name(), "a");
    assert!(it.next().is_none());
    assert!(it.next().is_none());
}

#[test]
fn iteration_fails_once_without_end_mark() {
    let data = entry("a", b"A          ", ARCHIVE, 0, 0);
    let fs = FileSystem::new(stream(data, 0, false));
    let mut it = Dir::new(0).iter(&fs);
    assert_eq!(it.next().unwrap().unwrap().file_name(), "a");
    assert_eq!(it.next().unwrap().unwrap_err(), Error::CorruptedDirectory);
    assert!(it.next().is_none());
    // a directory whose stream the volume does not hold reads the same way
    let mut it = Dir::new(77).iter(&fs);
    assert_eq!(it.next().unwrap().unwrap_err(), Error::CorruptedDirectory);
}

#[test]
fn checksum_mismatch_falls_back_to_short_name() {
    let mut data = lfn_slots("long-name.txt", b"OTHER   TXT");
    data.extend_from_slice(&short_slot(b"LONG-N~1TXT", ARCHIVE, 0, 0));
    let fs = FileSystem::new(stream(padded(data, 512), 0, false));
    let entries = collect(Dir::new(0).iter(&fs));
    assert_eq!(entries.len(), 1);
    let e = entries[0].as_ref().unwrap();
    assert_eq!(e.file_name(), "LONG-N~1.TXT");
    assert_eq!((e.begin_offset, e.end_offset), (0, 64));
}

#[test]
fn free_slots_cut_a_long_name_off() {
    // fragment, free slot, short slot: the fragment does not reach the entry
    let mut data = lfn_slots("name", b"NAME       ");
    let mut free = short_slot(b"GONE       ", ARCHIVE, 0, 0);
    free[0] = 0xE5;
    data.extend_from_slice(&free);
    data.extend_from_slice(&short_slot(b"NAME       ", ARCHIVE, 0, 0));
    let fs = FileSystem::new(stream(padded(data, 512), 0, false));
    let entries = collect(Dir::new(0).iter(&fs));
    let e = entries[0].as_ref().unwrap();
    assert_eq!(e.file_name(), "NAME");
    assert_eq!((e.begin_offset, e.end_offset), (64, 96));
}

#[test]
fn test_create_then_find() {
    let mut fs = sample_volume();
    let root = Dir::new(0);
    let file = root.create_file(&mut fs, "newfile-with-long-name.dat").unwrap();
    assert_eq!(file.first_cluster, None);
    let info = file.entry.unwrap();
    assert_eq!(info.data.size, 0);
    assert_eq!(&info.data.name, b"NEWFILE-DAT");
    // 10 slots were taken; the name needs two fragments and the short slot
    assert_eq!(info.pos, 0x4000 + 12 * 32);
    let e = root.find_entry(&fs, "newfile-with-long-name.dat").unwrap();
    assert!(!e.is_dir());
    assert_eq!(e.file_name(), "newfile-with-long-name.dat");
    assert_eq!((e.begin_offset, e.end_offset), (320, 416));
    let opened = root.open_file(&fs, "newfile-with-long-name.dat").unwrap();
    assert_eq!(opened.entry.unwrap().data.size, 0);
    assert_eq!(
        names(&root, &fs),
        ["long.txt", "short.txt", "very", "very-long-dir-name", "newfile-with-long-name.dat"]
    );
    // what was written is what an independent encoder gives
    let bytes = fs.stream(0);
    assert_eq!(
        &bytes.bytes()[320..416],
        &entry("newfile-with-long-name.dat", b"NEWFILE-DAT", 0, 0, 0)[..]
    );
}

#[test]
fn create_opens_what_exists() {
    let mut fs = sample_volume();
    let before = fs.stream(0).bytes().clone();
    let file = Dir::new(0).create_file(&mut fs, "SHORT.TXT").unwrap();
    assert_eq!(file.first_cluster, Some(8));
    assert_eq!(fs.stream(0).bytes(), &before);
    assert_eq!(Dir::new(0).create_file(&mut fs, "very").unwrap_err(), Error::NotFound);
    assert_eq!(Dir::new(0).create_file(&mut fs, "nothing/new.txt").unwrap_err(), Error::NotFound);
}

#[test]
fn create_in_nested_directory() {
    let mut fs = sample_volume();
    let root = Dir::new(0);
    root.create_file(&mut fs, "/very/long/path/new.bin").unwrap();
    let dir = root.open_dir(&fs, "very/long/path").unwrap();
    assert_eq!(names(&dir, &fs), [".", "..", "test.txt", "new.bin"]);
}

#[test]
fn create_rejects_long_names() {
    let mut fs = sample_volume();
    let name: String = std::iter::repeat('x').take(256).collect();
    assert_eq!(Dir::new(0).create_file(&mut fs, &name).unwrap_err(), Error::InvalidInput);
    let name: String = std::iter::repeat('x').take(255).collect();
    let file = Dir::new(0).create_file(&mut fs, &name).unwrap();
    assert_eq!(file.entry.unwrap().pos, 0x4000 + (10 + 20) * 32);
    assert_eq!(Dir::new(0).find_entry(&fs, &name).unwrap().file_name(), name);
}

#[test]
fn create_reuses_the_first_free_run() {
    let mut fs = sample_volume();
    let root = Dir::new(0);
    root.remove(&mut fs, "short.txt").unwrap();
    // two free slots at 96..160: room for a name of one fragment
    let file = root.create_file(&mut fs, "tiny.txt").unwrap();
    assert_eq!(file.entry.unwrap().pos, 0x4000 + 128);
    assert_eq!(names(&root, &fs), ["long.txt", "tiny.txt", "very", "very-long-dir-name"]);
    // no room there for two fragments: the next group goes to the end mark
    root.remove(&mut fs, "tiny.txt").unwrap();
    let file = root.create_file(&mut fs, "a-name-of-two-fragments").unwrap();
    assert_eq!(file.entry.unwrap().pos, 0x4000 + 12 * 32);
}

#[test]
fn create_fails_without_room() {
    let mut data = entry("a", b"A          ", ARCHIVE, 0, 0);
    data.extend_from_slice(&[0u8; 32]);
    let mut fs = FileSystem::new(stream(data.clone(), 0, false));
    // three slots in all, the end mark in the third: two are needed
    assert_eq!(Dir::new(0).create_file(&mut fs, "b").unwrap_err(), Error::NoSpace);
    assert_eq!(fs.stream(0).bytes(), &data);
    // after the stream has grown by a chunk there is room
    let mut s = fs.stream(0);
    assert_eq!(s.grow(4096).unwrap_err(), Error::NoSpace);
    let mut s = DirRawStream::new(data, 96, vec![0], true).unwrap();
    s.grow(4096).unwrap();
    let mut fs = FileSystem::new(s);
    let file = Dir::new(0).create_file(&mut fs, "b").unwrap();
    // the short slot is the first of the second chunk
    assert_eq!(file.entry.unwrap().pos, 4096);
    assert_eq!(names(&Dir::new(0), &fs), ["a", "b"]);
}

#[test]
fn create_sets_end_mark_behind_the_group() {
    let mut data = entry("a", b"A          ", ARCHIVE, 0, 0);
    data.extend_from_slice(&[0u8; 32]);
    // stale slots behind the end mark
    data.extend_from_slice(&entry("stale", b"STALE      ", ARCHIVE, 0, 0));
    data.extend_from_slice(&entry("older", b"OLDER      ", ARCHIVE, 0, 0));
    let mut fs = FileSystem::new(stream(padded(data, 512), 0, false));
    Dir::new(0).create_file(&mut fs, "b").unwrap();
    assert_eq!(names(&Dir::new(0), &fs), ["a", "b"]);
    assert_eq!(&fs.stream(0).bytes()[128..160], &[0u8; 32]);
}

#[test]
fn remove_marks_every_slot_free() {
    let mut fs = sample_volume();
    let root = Dir::new(0);
    let before = fs.stream(0).bytes().clone();
    let e = root.find_entry(&fs, "very-long-dir-name").unwrap();
    assert_eq!((e.begin_offset, e.end_offset), (224, 320));
    root.remove(&mut fs, "very-long-dir-name/very-long-file-name.txt").unwrap();
    root.remove(&mut fs, "very-long-dir-name").unwrap();
    let after = fs.stream(0).bytes().clone();
    for i in 0..before.len() {
        if (224..320).contains(&i) && i % 32 == 0 {
            assert_eq!(after[i], 0xE5);
        } else {
            assert_eq!(after[i], before[i]);
        }
    }
    assert_eq!(fs.released(), &vec![10, 6]);
    assert_eq!(names(&root, &fs), ["long.txt", "short.txt", "very"]);
    // a second attempt finds nothing and changes nothing
    assert_eq!(root.remove(&mut fs, "very-long-dir-name").unwrap_err(), Error::NotFound);
    assert_eq!(fs.stream(0).bytes(), &after);
    assert_eq!(fs.take_released(), vec![10, 6]);
    assert!(fs.released().is_empty());
}

#[test]
fn remove_refuses_directory_with_entries() {
    let mut fs = sample_volume();
    let root = Dir::new(0);
    let before = fs.stream(0).bytes().clone();
    assert_eq!(root.remove(&mut fs, "very").unwrap_err(), Error::DirectoryNotEmpty);
    assert_eq!(fs.stream(0).bytes(), &before);
    assert!(fs.released().is_empty());
    assert_eq!(root.remove(&mut fs, "very/long/path/none").unwrap_err(), Error::NotFound);
    assert_eq!(Dir::new(5).is_empty(&fs), Ok(false));
    root.remove(&mut fs, "very/long/path/test.txt").unwrap();
    assert_eq!(Dir::new(5).is_empty(&fs), Ok(true));
    root.remove(&mut fs, "very/long/path").unwrap();
    assert_eq!(names(&Dir::new(4), &fs), [".", ".."]);
}

#[test]
fn find_free_entries_finds_first_run() {
    let mut data = Vec::new();
    let mut free = short_slot(b"GONE       ", ARCHIVE, 0, 0);
    free[0] = 0xE5;
    data.extend_from_slice(&short_slot(b"A          ", ARCHIVE, 0, 0));
    data.extend_from_slice(&free);
    data.extend_from_slice(&short_slot(b"B          ", ARCHIVE, 0, 0));
    data.extend_from_slice(&free);
    data.extend_from_slice(&free);
    data.extend_from_slice(&short_slot(b"C          ", ARCHIVE, 0, 0));
    data.extend_from_slice(&free);
    data.extend_from_slice(&[0u8; 32]);
    let fs = FileSystem::new(stream(data, 0, false));
    let dir = Dir::new(0);
    let run = dir.find_free_entries(&fs, 1).unwrap();
    assert_eq!((run.offset, run.at_end), (32, false));
    let run = dir.find_free_entries(&fs, 2).unwrap();
    assert_eq!((run.offset, run.at_end), (96, false));
    // no run of three: the run before the end mark counts as reaching it
    let run = dir.find_free_entries(&fs, 3).unwrap();
    assert_eq!((run.offset, run.at_end), (192, true));
    let fs = FileSystem::new(stream(short_slot(b"A          ", ARCHIVE, 0, 0), 0, false));
    assert_eq!(Dir::new(0).find_free_entries(&fs, 1).unwrap_err(), Error::NoSpace);
}

#[test]
fn stream_positions_follow_the_chunks() {
    let s = DirRawStream::new(vec![0u8; 128], 64, vec![1000, 5000], true).unwrap();
    assert_eq!(s.abs_pos_at(0), Some(1000));
    assert_eq!(s.abs_pos_at(63), Some(1063));
    assert_eq!(s.abs_pos_at(64), Some(5000));
    assert_eq!(s.abs_pos_at(127), Some(5063));
    assert_eq!(s.abs_pos_at(128), None);
    assert!(DirRawStream::new(vec![0u8; 100], 64, vec![0, 64], true).is_none());
    assert!(DirRawStream::new(vec![0u8; 48], 48, vec![0], true).is_none());
    assert!(DirRawStream::new(vec![0u8; 64], 64, vec![u64::MAX - 10], true).is_none());
    let mut s = DirRawStream::new(vec![0u8; 64], 64, vec![0], true).unwrap();
    assert_eq!(s.seek(65).unwrap_err(), Error::InvalidInput);
    assert_eq!(s.seek(64), Ok(64));
    assert_eq!(s.read().unwrap_err(), Error::CorruptedDirectory);
    assert_eq!(s.grow(u64::MAX - 10).unwrap_err(), Error::InvalidInput);
}

#[test]
fn second_removal_takes_an_entry_of_the_same_name() {
    let mut data = entry("twin.txt", b"TWIN    TXT", ARCHIVE, 11, 1);
    data.extend_from_slice(&entry("TWIN.TXT", b"TWIN~1  TXT", ARCHIVE, 12, 2));
    let mut fs = FileSystem::new(stream(padded(data, 512), 0, false));
    let root = Dir::new(0);
    root.remove(&mut fs, "twin.txt").unwrap();
    assert_eq!(names(&root, &fs), ["TWIN.TXT"]);
    root.remove(&mut fs, "twin.txt").unwrap();
    assert_eq!(fs.released(), &vec![11, 12]);
    assert_eq!(root.remove(&mut fs, "twin.txt").unwrap_err(), Error::NotFound);
}

#[test]
fn entry_whose_short_name_starts_with_the_free_flag_is_not_listed() {
    // U+5348 is E5 8D 88 in UTF-8: the short slot reads as a free slot
    let mut fs = sample_volume();
    let root = Dir::new(0);
    let file = root.create_file(&mut fs, "\u{5348}").unwrap();
    assert_eq!(file.entry.unwrap().data.name[0], 0xE5);
    assert_eq!(names(&root, &fs), ["long.txt", "short.txt", "very", "very-long-dir-name"]);
}

#[test]
fn lookup_does_not_fold_letters_beyond_ascii() {
    let mut fs = sample_volume();
    let root = Dir::new(0);
    root.create_file(&mut fs, "caf\u{e9}.txt").unwrap();
    assert!(root.find_entry(&fs, "CAF\u{e9}.TXT").is_ok());
    assert_eq!(root.find_entry(&fs, "CAF\u{c9}.TXT").unwrap_err(), Error::NotFound);
}

use rfat::attrs::{FileAttributes, ARCHIVE, DIRECTORY, LFN, READ_ONLY};
use rfat::error::Error;
use rfat::group::lfn_fragment;
use rfat::lfn::{lfn_checksum, LongNameBuilder};
use rfat::raw::{DirEntryData, DirFileEntryData, DirLfnEntryData};
use rfat::time::{Date, DateTime, Time};

fn units(s: &str) -> Vec<u16> {
    s.encode_utf16().collect()
}

fn assemble(name: &str, short: &[u8; 11]) -> Vec<u16> {
    let u = units(name);
    let total = (u.len() + 12) / 13;
    let mut b = LongNameBuilder::new();
    for index in (1..=total).rev() {
        b.process(&lfn_fragment(&u, total, index, lfn_checksum(short)));
    }
    b.validate_chksum(short);
    b.to_vec()
}

#[test]
fn checksum_of_known_names() {
    // rotate right, add: worked by hand for a name of one letter and ten spaces
    let mut c: u16 = b'A' as u16;
    for _ in 0..10 {
        c = (((c & 1) << 7) + (c >> 1) + 0x20) & 0xFF;
    }
    assert_eq!(lfn_checksum(b"A          ") as u16, c);
    assert_eq!(lfn_checksum(&[0u8; 11]), 0);
    assert_ne!(lfn_checksum(b"LONG    TXT"), lfn_checksum(b"SHORT   TXT"));
}

#[test]
fn fragments_spell_the_name_back() {
    for name in ["a", "thirteen-char", "fourteen-chars", "a-name-of-exactly-26-chars", "very-long-dir-name"] {
        assert_eq!(assemble(name, b"SOME    BIN"), units(name));
    }
    let long: String = std::iter::repeat("0123456789").take(25).collect::<String>() + "abcde";
    assert_eq!(long.len(), 255);
    assert_eq!(assemble(&long, b"SOME    BIN"), units(&long));
}

#[test]
fn fragment_layout() {
    let u = units("fourteen-chars");
    let last = lfn_fragment(&u, 2, 2, 0xAB);
    assert_eq!(last.order, 0x42);
    assert_eq!(last.attrs.bits(), LFN);
    assert_eq!(last.checksum, 0xAB);
    assert_eq!(last.entry_type, 0);
    assert_eq!(last.name_0, [b's' as u16, 0, 0xFFFF, 0xFFFF, 0xFFFF]);
    assert_eq!(last.name_1, [0xFFFF; 6]);
    assert_eq!(last.name_2, [0xFFFF; 2]);
    let first = lfn_fragment(&u, 2, 1, 0xAB);
    assert_eq!(first.order, 0x01);
    assert_eq!(first.name_0, [b'f' as u16, b'o' as u16, b'u' as u16, b'r' as u16, b't' as u16]);
    assert_eq!(first.name_2, [b'a' as u16, b'r' as u16]);
    // a name that fills its fragments gets no padding
    let full = lfn_fragment(&units("thirteen-char"), 1, 1, 0);
    assert_eq!(full.order, 0x41);
    assert_eq!(full.name_2, [b'a' as u16, b'r' as u16]);
}

#[test]
fn builder_gives_nothing_for_broken_sequences() {
    let u = units("a-name-of-three-fragments-long");
    let c = lfn_checksum(b"A-NAME~1   ");
    let frag = |index: usize| lfn_fragment(&u, 3, index, c);

    // a fragment is missing
    let mut b = LongNameBuilder::new();
    b.process(&frag(3));
    b.process(&frag(1));
    assert!(b.to_vec().is_empty());

    // the sequence does not start with its last fragment
    let mut b = LongNameBuilder::new();
    b.process(&frag(2));
    b.process(&frag(1));
    assert!(b.to_vec().is_empty());

    // not all fragments have come
    let mut b = LongNameBuilder::new();
    b.process(&frag(3));
    b.process(&frag(2));
    assert!(b.to_vec().is_empty());

    // a fragment with another checksum
    let mut b = LongNameBuilder::new();
    b.process(&frag(3));
    b.process(&lfn_fragment(&u, 3, 2, c.wrapping_add(1)));
    b.process(&frag(1));
    assert!(b.to_vec().is_empty());

    // index 0
    let mut b = LongNameBuilder::new();
    let mut zero = frag(3);
    zero.order = 0x40;
    b.process(&zero);
    assert!(b.to_vec().is_empty());

    // the short name has another checksum
    let mut b = LongNameBuilder::new();
    b.process(&frag(3));
    b.process(&frag(2));
    b.process(&frag(1));
    b.validate_chksum(b"OTHER      ");
    assert!(b.to_vec().is_empty());

    // cleared by hand
    let mut b = LongNameBuilder::new();
    b.process(&frag(3));
    b.process(&frag(2));
    b.process(&frag(1));
    b.clear();
    assert!(b.to_vec().is_empty());

    // a new sequence after a broken one is taken whole
    let mut b = LongNameBuilder::new();
    b.process(&frag(3));
    b.process(&frag(1));
    b.process(&frag(3));
    b.process(&frag(2));
    b.process(&frag(1));
    b.validate_chksum(b"A-NAME~1   ");
    assert_eq!(b.to_vec(), u);
}

#[test]
fn builder_strips_padding_only_at_the_end() {
    let u: Vec<u16> = vec![0x41, 0, 0xFFFF, 0x42, 0, 0xFFFF, 0xFFFF];
    let mut b = LongNameBuilder::new();
    b.process(&lfn_fragment(&u, 1, 1, lfn_checksum(b"X          ")));
    b.validate_chksum(b"X          ");
    assert_eq!(b.to_vec(), [0x41, 0, 0xFFFF, 0x42]);
}

#[test]
fn decoding_tells_the_shapes_apart() {
    let mut slot = [0u8; 32];
    slot[0] = b'A';
    slot[11] = 0x0F;
    assert!(matches!(DirEntryData::deserialize(&slot), Ok(DirEntryData::Lfn(_))));
    slot[11] = 0x3F;
    assert!(matches!(DirEntryData::deserialize(&slot), Ok(DirEntryData::Lfn(_))));
    slot[11] = 0x0E;
    assert!(matches!(DirEntryData::deserialize(&slot), Ok(DirEntryData::File(_))));
    slot[11] = 0x20;
    assert!(matches!(DirEntryData::deserialize(&slot), Ok(DirEntryData::File(_))));
    assert_eq!(DirEntryData::deserialize(&slot[..31]).unwrap_err(), Error::CorruptedDirectory);
    assert_eq!(DirEntryData::deserialize(&[]).unwrap_err(), Error::CorruptedDirectory);
}

#[test]
fn decoding_reads_little_endian_fields() {
    let mut slot = [0u8; 32];
    slot[..11].copy_from_slice(b"FILE    BIN");
    slot[11] = 0xE0 | ARCHIVE;
    slot[12] = 1;
    slot[13] = 2;
    slot[14..16].copy_from_slice(&[0x34, 0x12]);
    slot[16..18].copy_from_slice(&[0x78, 0x56]);
    slot[18..20].copy_from_slice(&[0xBC, 0x9A]);
    slot[20..22].copy_from_slice(&[0x02, 0x01]);
    slot[22..24].copy_from_slice(&[0x11, 0x22]);
    slot[24..26].copy_from_slice(&[0x33, 0x44]);
    slot[26..28].copy_from_slice(&[0x04, 0x03]);
    slot[28..32].copy_from_slice(&[0x78, 0x56, 0x34, 0x12]);
    let data = match DirEntryData::deserialize(&slot).unwrap() {
        DirEntryData::File(data) => data,
        DirEntryData::Lfn(_) => panic!("a file slot"),
    };
    assert_eq!(&data.name, b"FILE    BIN");
    // every bit of the attribute byte is kept
    assert_eq!(data.attrs.bits(), 0xE0 | ARCHIVE);
    assert_eq!((data.reserved_0, data.create_time_0), (1, 2));
    assert_eq!(data.create_time_1, 0x1234);
    assert_eq!(data.create_date, 0x5678);
    assert_eq!(data.access_date, 0x9ABC);
    assert_eq!(data.first_cluster_hi, 0x0102);
    assert_eq!(data.modify_time, 0x2211);
    assert_eq!(data.modify_date, 0x4433);
    assert_eq!(data.first_cluster_lo, 0x0304);
    assert_eq!(data.size, 0x12345678);
    assert_eq!(data.first_cluster(), Some(0x01020304));
    assert_eq!(data.size(), Some(0x12345678));
    let mut out = Vec::new();
    data.serialize(&mut out);
    assert_eq!(out, slot);
}

#[test]
fn decoding_reads_fragment_fields() {
    let mut slot = [0u8; 32];
    for (i, b) in slot.iter_mut().enumerate() {
        *b = i as u8 + 1;
    }
    slot[11] = 0x0F;
    let data = match DirEntryData::deserialize(&slot).unwrap() {
        DirEntryData::Lfn(data) => data,
        DirEntryData::File(_) => panic!("a fragment"),
    };
    assert_eq!(data.order, 1);
    assert_eq!(data.name_0, [0x0302, 0x0504, 0x0706, 0x0908, 0x0B0A]);
    assert_eq!((data.entry_type, data.checksum), (13, 14));
    assert_eq!(data.name_1, [0x100F, 0x1211, 0x1413, 0x1615, 0x1817, 0x1A19]);
    assert_eq!(data.reserved_0, 0x1C1B);
    assert_eq!(data.name_2, [0x1E1D, 0x201F]);
    let mut out = vec![0xEE];
    DirEntryData::Lfn(data).serialize(&mut out);
    assert_eq!(&out[1..], &slot);
    assert_eq!(out[0], 0xEE);
}

#[test]
fn every_slot_round_trips() {
    // a sweep over the attribute byte, which decides the shape, with varied content
    for attr in 0..=255u8 {
        let mut slot = [0u8; 32];
        for (i, b) in slot.iter_mut().enumerate() {
            *b = attr.wrapping_mul(31).wrapping_add((i as u8).wrapping_mul(17));
        }
        slot[11] = attr;
        let mut data = DirEntryData::deserialize(&slot).unwrap();
        let mut out = Vec::new();
        data.serialize(&mut out);
        assert_eq!(out, slot);
        assert_eq!(data.is_free(), slot[0] == 0xE5);
        assert_eq!(data.is_end(), slot[0] == 0);
        data.set_free();
        let mut out = Vec::new();
        data.serialize(&mut out);
        assert_eq!(out[0], 0xE5);
        assert_eq!(&out[1..], &slot[1..]);
        assert!(data.is_free());
    }
}

#[test]
fn record_accessors() {
    let mut data = DirFileEntryData::with_name(*b"NAME    EXT");
    assert_eq!(data.first_cluster(), None);
    assert!(data.is_file() && !data.is_dir());
    assert_eq!(data.size(), Some(0));
    data.set_first_cluster(Some(0x0012_3456));
    assert_eq!((data.first_cluster_hi, data.first_cluster_lo), (0x0012, 0x3456));
    assert_eq!(data.first_cluster(), Some(0x0012_3456));
    data.set_first_cluster(None);
    assert_eq!(data.first_cluster(), None);
    data.set_size(77);
    assert_eq!(data.size(), Some(77));
    data.attrs = FileAttributes::from_bits(DIRECTORY | READ_ONLY);
    assert!(data.is_dir() && !data.is_file());
    assert_eq!(data.size(), None);
    assert!(data.attrs.contains(DIRECTORY));
    assert!(data.attrs.contains(DIRECTORY | READ_ONLY));
    assert!(!data.attrs.contains(ARCHIVE));
    assert_eq!(FileAttributes::default().bits(), 0);
    data.set_modified(DateTime {
        date: Date { year: 2017, month: 10, day: 6 },
        time: Time { hour: 13, min: 45, sec: 31 },
    });
    assert_eq!(data.modify_date, (37 << 9) | (10 << 5) | 6);
    assert_eq!(data.modify_time, (13 << 11) | (45 << 5) | 15);
    assert!(!data.is_free() && !data.is_end());
}

#[test]
fn dates_and_times_at_their_limits() {
    let d = Date::from_u16(0);
    assert_eq!((d.year, d.month, d.day), (1980, 0, 0));
    let d = Date::from_u16(0xFFFF);
    assert_eq!((d.year, d.month, d.day), (2107, 15, 31));
    assert_eq!(d.to_u16(), 0xFFFF);
    let t = Time::from_u16(0xFFFF);
    assert_eq!((t.hour, t.min, t.sec), (31, 63, 62));
    assert_eq!(t.to_u16(), 0xFFFF);
    let dt = DateTime::from_u16(0x4B46, 0x6DEF);
    assert_eq!((dt.date.year, dt.date.month, dt.date.day), (2017, 10, 6));
    assert_eq!((dt.time.hour, dt.time.min, dt.time.sec), (13, 47, 30));
    // an odd second is rounded down
    assert_eq!(Time { hour: 1, min: 2, sec: 7 }.to_u16(), (1 << 11) | (2 << 5) | 3);
}

use rfat::lfn::lfn_checksum;
use rfat::raw::{DirEntryData, DirFileEntryData};
use rfat::short_name::gen_short_name;
use rfat::time::{Date, Time};

#[test]
fn date_unpacks_fields() {
    // 2017-10-06: (37 << 9) | (10 << 5) | 6
    let d = Date::from_u16((37 << 9) | (10 << 5) | 6);
    assert_eq!((d.year, d.month, d.day), (2017, 10, 6));
    assert_eq!(d.to_u16(), (37 << 9) | (10 << 5) | 6);
}

#[test]
fn time_unpacks_fields() {
    let t = Time::from_u16((13 << 11) | (45 << 5) | 15);
    assert_eq!((t.hour, t.min, t.sec), (13, 45, 30));
    assert_eq!(t.to_u16(), (13 << 11) | (45 << 5) | 15);
}

#[test]
fn short_name_of_long_name() {
    assert_eq!(&gen_short_name("long.txt"), b"LONG    TXT");
    assert_eq!(&gen_short_name("newfile-with-long-name.dat"), b"NEWFILE-DAT");
    assert_eq!(&gen_short_name("very"), b"VERY       ");
}

#[test]
fn checksum_of_known_name() {
    let mut c: u8 = 0;
    for b in b"LONG    TXT" {
        c = (if c & 1 == 1 { 0x80u8 } else { 0 }).wrapping_add(c >> 1).wrapping_add(*b);
    }
    assert_eq!(lfn_checksum(b"LONG    TXT"), c);
}

#[test]
fn slot_round_trip() {
    let mut slot = [0u8; 32];
    for (i, b) in slot.iter_mut().enumerate() {
        *b = (i as u8).wrapping_mul(7).wrapping_add(3);
    }
    let data = DirEntryData::deserialize(&slot).unwrap();
    let mut out = Vec::new();
    data.serialize(&mut out);
    assert_eq!(out, slot);
    let file = DirFileEntryData::with_name(*b"SHORT   TXT");
    let mut out = Vec::new();
    file.serialize(&mut out);
    assert_eq!(&out[..11], b"SHORT   TXT");
    assert!(out[11..].iter().all(|b| *b == 0));
}

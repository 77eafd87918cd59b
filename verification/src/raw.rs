use crate::attrs::{FileAttributes, DIRECTORY, LFN, VOLUME_ID};
use crate::endian::{
    from_le16, from_le32, le16, le16_seq, le32, lemma_le16_bytes, lemma_le16_round_trip,
    lemma_le32_bytes, lemma_le32_round_trip, push_u16_le, push_u32_le, read_u16_le, read_u32_le,
};
use crate::error::Error;
use crate::time::DateTime;
use vstd::prelude::*;

verus! {

/// Number of UTF-16 code units that one long-file-name fragment carries.
pub const LFN_PART_LEN: usize = 13;

/// Size of a directory slot in bytes.
pub const DIR_ENTRY_SIZE: u64 = 32;

/// First byte of a slot that was in use and is free again.
pub const DIR_ENTRY_FREE_FLAG: u8 = 0xE5;

/// Bit of the order byte that marks the fragment holding the end of the name,
/// which is the first of its sequence in the slot stream.
pub const LFN_ENTRY_LAST_FLAG: u8 = 0x40;

/// A slot's attribute byte says that it is a long-file-name fragment.
pub open spec fn slot_is_lfn(slot: Seq<u8>) -> bool {
    slot[11] & LFN == LFN
}

/// A slot is marked free.
pub open spec fn slot_is_free(slot: Seq<u8>) -> bool {
    slot[0] == DIR_ENTRY_FREE_FLAG
}

/// A slot's first byte is the end-of-directory mark.
pub open spec fn slot_is_end(slot: Seq<u8>) -> bool {
    slot[0] == 0
}

/// A short slot carries the volume-id attribute.
pub open spec fn slot_is_volume_id(slot: Seq<u8>) -> bool {
    slot[11] & VOLUME_ID == VOLUME_ID
}

/// The 13 code units that a long-file-name slot carries, in name order.
pub open spec fn slot_lfn_units(slot: Seq<u8>) -> Seq<u16> {
    Seq::new(
        13,
        |i: int|
            if i < 5 {
                from_le16(slot, 1 + 2 * i)
            } else if i < 11 {
                from_le16(slot, 14 + 2 * (i - 5))
            } else {
                from_le16(slot, 28 + 2 * (i - 11))
            },
    )
}

/// The record of a file or a subdirectory, as one slot holds it.
#[derive(Clone, Copy, Debug)]
pub struct DirFileEntryData {
    pub name: [u8; 11],
    pub attrs: FileAttributes,
    pub reserved_0: u8,
    pub create_time_0: u8,
    pub create_time_1: u16,
    pub create_date: u16,
    pub access_date: u16,
    pub first_cluster_hi: u16,
    pub modify_time: u16,
    pub modify_date: u16,
    pub first_cluster_lo: u16,
    pub size: u32,
}

impl DirFileEntryData {
    /// The 32 bytes of the slot.
    pub open spec fn encoding(&self) -> Seq<u8> {
        self.name@ + seq![self.attrs.bits, self.reserved_0, self.create_time_0] + le16(
            self.create_time_1,
        ) + le16(self.create_date) + le16(self.access_date) + le16(self.first_cluster_hi) + le16(
            self.modify_time,
        ) + le16(self.modify_date) + le16(self.first_cluster_lo) + le32(self.size)
    }

    /// The number of the first cluster, 0 where there is none.
    pub open spec fn cluster_number(&self) -> int {
        self.first_cluster_hi * 65536 + self.first_cluster_lo
    }

    pub open spec fn spec_is_dir(&self) -> bool {
        self.attrs.has(DIRECTORY)
    }

    /// Every field but the name is zero.
    pub open spec fn is_blank(&self) -> bool {
        &&& self.attrs.bits == 0
        &&& self.reserved_0 == 0
        &&& self.create_time_0 == 0
        &&& self.create_time_1 == 0
        &&& self.create_date == 0
        &&& self.access_date == 0
        &&& self.first_cluster_hi == 0
        &&& self.modify_time == 0
        &&& self.modify_date == 0
        &&& self.first_cluster_lo == 0
        &&& self.size == 0
    }

    /// A record with the given short name and every other field zero.
    pub fn with_name(name: [u8; 11]) -> (r: DirFileEntryData)
        ensures
            r.name == name,
            r.is_blank(),
    {
        DirFileEntryData {
            name,
            attrs: FileAttributes { bits: 0 },
            reserved_0: 0,
            create_time_0: 0,
            create_time_1: 0,
            create_date: 0,
            access_date: 0,
            first_cluster_hi: 0,
            modify_time: 0,
            modify_date: 0,
            first_cluster_lo: 0,
            size: 0,
        }
    }

    /// Every field holds what the bytes of `b` give it, in the layout of a slot.
    pub open spec fn holds(&self, b: Seq<u8>) -> bool {
        &&& self.name@ == b.subrange(0, 11)
        &&& self.attrs.bits == b[11]
        &&& self.reserved_0 == b[12]
        &&& self.create_time_0 == b[13]
        &&& self.create_time_1 == from_le16(b, 14)
        &&& self.create_date == from_le16(b, 16)
        &&& self.access_date == from_le16(b, 18)
        &&& self.first_cluster_hi == from_le16(b, 20)
        &&& self.modify_time == from_le16(b, 22)
        &&& self.modify_date == from_le16(b, 24)
        &&& self.first_cluster_lo == from_le16(b, 26)
        &&& self.size == from_le32(b, 28)
    }

    /// The slot of a record has 32 bytes, the first 11 of them its name and
    /// the next its attributes.
    pub proof fn lemma_encoding(&self)
        ensures
            self.encoding().len() == 32,
            self.encoding().subrange(0, 11) == self.name@,
            self.encoding()[0] == self.name@[0],
            self.encoding()[11] == self.attrs.bits,
    {
        assert(self.encoding().subrange(0, 11) =~= self.name@);
    }

    /// A record holds the fields of its own slot, so that decoding the slot
    /// of a record gives a record with the same fields.
    pub proof fn lemma_holds_own_slot(&self)
        ensures
            self.holds(self.encoding()),
    {
        let b = self.encoding();
        assert(b.subrange(0, 11) =~= self.name@);
        lemma_le16_round_trip(self.create_time_1);
        lemma_le16_round_trip(self.create_date);
        lemma_le16_round_trip(self.access_date);
        lemma_le16_round_trip(self.first_cluster_hi);
        lemma_le16_round_trip(self.modify_time);
        lemma_le16_round_trip(self.modify_date);
        lemma_le16_round_trip(self.first_cluster_lo);
        lemma_le32_round_trip(self.size);
        assert(b.subrange(14, 16) =~= le16(self.create_time_1));
        assert(b.subrange(16, 18) =~= le16(self.create_date));
        assert(b.subrange(18, 20) =~= le16(self.access_date));
        assert(b.subrange(20, 22) =~= le16(self.first_cluster_hi));
        assert(b.subrange(22, 24) =~= le16(self.modify_time));
        assert(b.subrange(24, 26) =~= le16(self.modify_date));
        assert(b.subrange(26, 28) =~= le16(self.first_cluster_lo));
        assert(b.subrange(28, 32) =~= le32(self.size));
        assert(self.create_time_1 == from_le16(b, 14)) by {
            assert(from_le16(b, 14) == from_le16(b.subrange(14, 16), 0));
        }
        assert(self.create_date == from_le16(b, 16)) by {
            assert(from_le16(b, 16) == from_le16(b.subrange(16, 18), 0));
        }
        assert(self.access_date == from_le16(b, 18)) by {
            assert(from_le16(b, 18) == from_le16(b.subrange(18, 20), 0));
        }
        assert(self.first_cluster_hi == from_le16(b, 20)) by {
            assert(from_le16(b, 20) == from_le16(b.subrange(20, 22), 0));
        }
        assert(self.modify_time == from_le16(b, 22)) by {
            assert(from_le16(b, 22) == from_le16(b.subrange(22, 24), 0));
        }
        assert(self.modify_date == from_le16(b, 24)) by {
            assert(from_le16(b, 24) == from_le16(b.subrange(24, 26), 0));
        }
        assert(self.first_cluster_lo == from_le16(b, 26)) by {
            assert(from_le16(b, 26) == from_le16(b.subrange(26, 28), 0));
        }
        assert(self.size == from_le32(b, 28)) by {
            assert(from_le32(b, 28) == from_le32(b.subrange(28, 32), 0));
        }
    }

    /// A record that holds the fields of a slot encodes to that slot.
    pub proof fn lemma_holds_encodes(&self, b: Seq<u8>)
        requires
            b.len() >= 32,
            self.holds(b),
        ensures
            self.encoding() == b.subrange(0, 32),
    {
        let upto14 = self.name@ + seq![self.attrs.bits, self.reserved_0, self.create_time_0];
        assert(upto14 =~= b.subrange(0, 14));
        lemma_le16_bytes(b, 14);
        let upto16 = upto14 + le16(self.create_time_1);
        assert(upto16 =~= b.subrange(0, 16));
        lemma_le16_bytes(b, 16);
        let upto18 = upto16 + le16(self.create_date);
        assert(upto18 =~= b.subrange(0, 18));
        lemma_le16_bytes(b, 18);
        let upto20 = upto18 + le16(self.access_date);
        assert(upto20 =~= b.subrange(0, 20));
        lemma_le16_bytes(b, 20);
        let upto22 = upto20 + le16(self.first_cluster_hi);
        assert(upto22 =~= b.subrange(0, 22));
        lemma_le16_bytes(b, 22);
        let upto24 = upto22 + le16(self.modify_time);
        assert(upto24 =~= b.subrange(0, 24));
        lemma_le16_bytes(b, 24);
        let upto26 = upto24 + le16(self.modify_date);
        assert(upto26 =~= b.subrange(0, 26));
        lemma_le16_bytes(b, 26);
        let upto28 = upto26 + le16(self.first_cluster_lo);
        assert(upto28 =~= b.subrange(0, 28));
        lemma_le32_bytes(b, 28);
        let upto32 = upto28 + le32(self.size);
        assert(upto32 =~= b.subrange(0, 32));
    }

    pub fn first_cluster(&self) -> (r: Option<u32>)
        ensures
            self.cluster_number() == 0 ==> r is None,
            self.cluster_number() != 0 ==> r == Some(self.cluster_number() as u32),
    {
        let hi: u16 = self.first_cluster_hi;
        let lo: u16 = self.first_cluster_lo;
        assert((((hi as u32) << 16) | (lo as u32)) == hi * 65536 + lo) by (bit_vector);
        let n: u32 = ((hi as u32) << 16) | (lo as u32);
        if n == 0 {
            None
        } else {
            Some(n)
        }
    }

    pub fn set_first_cluster(&mut self, cluster: Option<u32>)
        ensures
            final(self).cluster_number() == (match cluster {
                Some(n) => n as int,
                None => 0,
            }),
            *final(self) == (DirFileEntryData {
                first_cluster_hi: final(self).first_cluster_hi,
                first_cluster_lo: final(self).first_cluster_lo,
                ..*old(self)
            }),
    {
        let n: u32 = match cluster {
            Some(n) => n,
            None => 0,
        };
        assert((n >> 16) == n / 65536 && (n & 0xFFFF) == n % 65536) by (bit_vector);
        self.first_cluster_hi = (n >> 16) as u16;
        self.first_cluster_lo = (n & 0xFFFF) as u16;
    }

    pub fn size(&self) -> (r: Option<u32>)
        ensures
            r == (if self.spec_is_dir() {
                None
            } else {
                Some(self.size)
            }),
    {
        if self.is_file() {
            Some(self.size)
        } else {
            None
        }
    }

    pub fn set_size(&mut self, size: u32)
        ensures
            *final(self) == (DirFileEntryData { size, ..*old(self) }),
    {
        self.size = size;
    }

    pub fn is_dir(&self) -> (r: bool)
        ensures
            r == self.spec_is_dir(),
    {
        self.attrs.contains(DIRECTORY)
    }

    pub fn is_file(&self) -> (r: bool)
        ensures
            r == !self.spec_is_dir(),
    {
        !self.is_dir()
    }

    pub fn set_modified(&mut self, date_time: DateTime)
        requires
            date_time.wf(),
        ensures
            *final(self) == (DirFileEntryData {
                modify_date: date_time.date.packed() as u16,
                modify_time: date_time.time.packed() as u16,
                ..*old(self)
            }),
    {
        self.modify_date = date_time.date.to_u16();
        self.modify_time = date_time.time.to_u16();
    }

    /// Appends the 32 bytes of the slot to `wrt`.
    pub fn serialize(&self, wrt: &mut Vec<u8>)
        ensures
            final(wrt)@ == old(wrt)@ + self.encoding(),
            self.encoding().len() == 32,
    {
        let mut i: usize = 0;
        while i < 11
            invariant
                i <= 11,
                wrt@ == old(wrt)@ + self.name@.subrange(0, i as int),
            decreases 11 - i,
        {
            wrt.push(self.name[i]);
            i = i + 1;
            assert(wrt@ =~= old(wrt)@ + self.name@.subrange(0, i as int));
        }
        assert(self.name@.subrange(0, 11) =~= self.name@);
        wrt.push(self.attrs.bits());
        wrt.push(self.reserved_0);
        wrt.push(self.create_time_0);
        assert(wrt@ =~= old(wrt)@ + (self.name@ + seq![
            self.attrs.bits,
            self.reserved_0,
            self.create_time_0,
        ]));
        push_u16_le(wrt, self.create_time_1);
        push_u16_le(wrt, self.create_date);
        push_u16_le(wrt, self.access_date);
        push_u16_le(wrt, self.first_cluster_hi);
        push_u16_le(wrt, self.modify_time);
        push_u16_le(wrt, self.modify_date);
        push_u16_le(wrt, self.first_cluster_lo);
        push_u32_le(wrt, self.size);
        assert(wrt@ =~= old(wrt)@ + self.encoding());
    }

    pub fn is_free(&self) -> (r: bool)
        ensures
            r == slot_is_free(self.encoding()),
    {
        self.name[0] == DIR_ENTRY_FREE_FLAG
    }

    pub fn is_end(&self) -> (r: bool)
        ensures
            r == slot_is_end(self.encoding()),
    {
        self.name[0] == 0
    }
}

/// One fragment of a long file name, as one slot holds it.
#[derive(Clone, Copy, Debug)]
pub struct DirLfnEntryData {
    pub order: u8,
    pub name_0: [u16; 5],
    pub attrs: FileAttributes,
    pub entry_type: u8,
    pub checksum: u8,
    pub name_1: [u16; 6],
    pub reserved_0: u16,
    pub name_2: [u16; 2],
}

impl DirLfnEntryData {
    /// The 32 bytes of the slot.
    pub open spec fn encoding(&self) -> Seq<u8> {
        seq![self.order] + le16_seq(self.name_0@) + seq![
            self.attrs.bits,
            self.entry_type,
            self.checksum,
        ] + le16_seq(self.name_1@) + le16(self.reserved_0) + le16_seq(self.name_2@)
    }

    /// The 13 code units of the fragment, in name order.
    pub open spec fn units(&self) -> Seq<u16> {
        self.name_0@ + self.name_1@ + self.name_2@
    }

    /// Every field holds what the bytes of `b` give it, in the layout of a slot.
    pub open spec fn holds(&self, b: Seq<u8>) -> bool {
        &&& self.order == b[0]
        &&& self.units() == slot_lfn_units(b)
        &&& self.attrs.bits == b[11]
        &&& self.entry_type == b[12]
        &&& self.checksum == b[13]
        &&& self.reserved_0 == from_le16(b, 26)
    }

    /// A fragment holds the fields of its own slot, so that decoding the slot
    /// of a fragment gives a fragment with the same fields.
    pub proof fn lemma_holds_own_slot(&self)
        ensures
            self.holds(self.encoding()),
    {
        let b = self.encoding();
        let u = self.units();
        assert(self.name_0@.len() == 5 && self.name_1@.len() == 6 && self.name_2@.len() == 2);
        lemma_le16_round_trip(self.reserved_0);
        assert(b.subrange(26, 28) =~= le16(self.reserved_0));
        assert(from_le16(b, 26) == from_le16(b.subrange(26, 28), 0));
        assert forall|i: int| 0 <= i < 13 implies slot_lfn_units(b)[i] == u[i] by {
            let at = if i < 5 {
                1 + 2 * i
            } else if i < 11 {
                14 + 2 * (i - 5)
            } else {
                28 + 2 * (i - 11)
            };
            assert(b[at] == (u[i] % 256) as u8);
            assert(b[at + 1] == (u[i] / 256) as u8);
        }
        assert(slot_lfn_units(b) =~= u);
    }

    /// A fragment that holds the fields of a slot encodes to that slot.
    pub proof fn lemma_holds_encodes(&self, b: Seq<u8>)
        requires
            b.len() >= 32,
            self.holds(b),
        ensures
            self.encoding() == b.subrange(0, 32),
    {
        let u = self.units();
        assert(self.name_0@.len() == 5 && self.name_1@.len() == 6 && self.name_2@.len() == 2);
        assert forall|i: int| 0 <= i < 5 implies self.name_0@[i] == from_le16(b, 1 + 2 * i) by {
            assert(u[i] == self.name_0@[i]);
        }
        assert forall|i: int| 0 <= i < 6 implies self.name_1@[i] == from_le16(b, 14 + 2 * i) by {
            assert(u[i + 5] == self.name_1@[i]);
        }
        assert forall|i: int| 0 <= i < 2 implies self.name_2@[i] == from_le16(b, 28 + 2 * i) by {
            assert(u[i + 11] == self.name_2@[i]);
        }
        let upto11 = seq![self.order] + le16_seq(self.name_0@);
        assert(upto11 =~= b.subrange(0, 11));
        let upto14 = upto11 + seq![self.attrs.bits, self.entry_type, self.checksum];
        assert(upto14 =~= b.subrange(0, 14));
        let upto26 = upto14 + le16_seq(self.name_1@);
        assert(upto26 =~= b.subrange(0, 26));
        lemma_le16_bytes(b, 26);
        let upto28 = upto26 + le16(self.reserved_0);
        assert(upto28 =~= b.subrange(0, 28));
        let upto30 = upto28 + le16_seq(self.name_2@);
        assert(upto30 =~= b.subrange(0, 32));
    }

    /// Appends the 32 bytes of the slot to `wrt`.
    pub fn serialize(&self, wrt: &mut Vec<u8>)
        ensures
            final(wrt)@ == old(wrt)@ + self.encoding(),
            self.encoding().len() == 32,
    {
        wrt.push(self.order);
        assert(wrt@ =~= old(wrt)@ + seq![self.order]);
        let mut i: usize = 0;
        while i < 5
            invariant
                i <= 5,
                wrt@ == old(wrt)@ + (seq![self.order] + le16_seq(self.name_0@.subrange(0, i as int))),
            decreases 5 - i,
        {
            push_u16_le(wrt, self.name_0[i]);
            i = i + 1;
            assert(wrt@ =~= old(wrt)@ + (seq![self.order] + le16_seq(
                self.name_0@.subrange(0, i as int),
            )));
        }
        assert(self.name_0@.subrange(0, 5) =~= self.name_0@);
        wrt.push(self.attrs.bits());
        wrt.push(self.entry_type);
        wrt.push(self.checksum);
        let ghost head: Seq<u8> = seq![self.order] + le16_seq(self.name_0@) + seq![
            self.attrs.bits,
            self.entry_type,
            self.checksum,
        ];
        assert(wrt@ =~= old(wrt)@ + head);
        let mut j: usize = 0;
        while j < 6
            invariant
                j <= 6,
                wrt@ == old(wrt)@ + (head + le16_seq(self.name_1@.subrange(0, j as int))),
            decreases 6 - j,
        {
            push_u16_le(wrt, self.name_1[j]);
            j = j + 1;
            assert(wrt@ =~= old(wrt)@ + (head + le16_seq(self.name_1@.subrange(0, j as int))));
        }
        assert(self.name_1@.subrange(0, 6) =~= self.name_1@);
        push_u16_le(wrt, self.reserved_0);
        let ghost mid: Seq<u8> = head + le16_seq(self.name_1@) + le16(self.reserved_0);
        assert(wrt@ =~= old(wrt)@ + mid);
        let mut k: usize = 0;
        while k < 2
            invariant
                k <= 2,
                wrt@ == old(wrt)@ + (mid + le16_seq(self.name_2@.subrange(0, k as int))),
            decreases 2 - k,
        {
            push_u16_le(wrt, self.name_2[k]);
            k = k + 1;
            assert(wrt@ =~= old(wrt)@ + (mid + le16_seq(self.name_2@.subrange(0, k as int))));
        }
        assert(self.name_2@.subrange(0, 2) =~= self.name_2@);
        assert(wrt@ =~= old(wrt)@ + self.encoding());
    }

    pub fn is_free(&self) -> (r: bool)
        ensures
            r == slot_is_free(self.encoding()),
    {
        self.order == DIR_ENTRY_FREE_FLAG
    }

    pub fn is_end(&self) -> (r: bool)
        ensures
            r == slot_is_end(self.encoding()),
    {
        self.order == 0
    }
}

/// What one slot holds: a file record or a fragment of a long name.
#[derive(Clone, Copy, Debug)]
pub enum DirEntryData {
    File(DirFileEntryData),
    Lfn(DirLfnEntryData),
}

impl DirEntryData {
    /// The 32 bytes of the slot.
    pub open spec fn encoding(&self) -> Seq<u8> {
        match self {
            DirEntryData::File(file) => file.encoding(),
            DirEntryData::Lfn(lfn) => lfn.encoding(),
        }
    }

    /// Every field holds what the bytes of `b` give it, in the layout of its shape.
    pub open spec fn holds(&self, b: Seq<u8>) -> bool {
        match self {
            DirEntryData::File(file) => file.holds(b),
            DirEntryData::Lfn(lfn) => lfn.holds(b),
        }
    }

    /// Appends the 32 bytes of the slot to `wrt`.
    pub fn serialize(&self, wrt: &mut Vec<u8>)
        ensures
            final(wrt)@ == old(wrt)@ + self.encoding(),
            self.encoding().len() == 32,
    {
        match self {
            DirEntryData::File(file) => file.serialize(wrt),
            DirEntryData::Lfn(lfn) => lfn.serialize(wrt),
        }
    }

    /// Decodes the first 32 bytes of `bytes`. The attribute byte decides the
    /// shape; encoding the result gives those 32 bytes again.
    pub fn deserialize(bytes: &[u8]) -> (r: Result<DirEntryData, Error>)
        ensures
            bytes@.len() < 32 ==> r == Err::<DirEntryData, Error>(Error::CorruptedDirectory),
            bytes@.len() >= 32 ==> r is Ok,
            r is Ok ==> {
                &&& r->Ok_0.encoding() == bytes@.subrange(0, 32)
                &&& r->Ok_0 is Lfn <==> slot_is_lfn(bytes@)
                &&& r->Ok_0.holds(bytes@)
            },
    {
        if bytes.len() < 32 {
            return Err(Error::CorruptedDirectory);
        }
        let attrs = FileAttributes::from_bits(bytes[11]);
        if attrs.contains(LFN) {
            let data = DirLfnEntryData {
                order: bytes[0],
                name_0: [
                    read_u16_le(bytes, 1),
                    read_u16_le(bytes, 3),
                    read_u16_le(bytes, 5),
                    read_u16_le(bytes, 7),
                    read_u16_le(bytes, 9),
                ],
                attrs,
                entry_type: bytes[12],
                checksum: bytes[13],
                name_1: [
                    read_u16_le(bytes, 14),
                    read_u16_le(bytes, 16),
                    read_u16_le(bytes, 18),
                    read_u16_le(bytes, 20),
                    read_u16_le(bytes, 22),
                    read_u16_le(bytes, 24),
                ],
                reserved_0: read_u16_le(bytes, 26),
                name_2: [read_u16_le(bytes, 28), read_u16_le(bytes, 30)],
            };
            proof {
                assert(data.units() =~= slot_lfn_units(bytes@));
                data.lemma_holds_encodes(bytes@);
            }
            Ok(DirEntryData::Lfn(data))
        } else {
            let data = DirFileEntryData {
                name: [
                    bytes[0],
                    bytes[1],
                    bytes[2],
                    bytes[3],
                    bytes[4],
                    bytes[5],
                    bytes[6],
                    bytes[7],
                    bytes[8],
                    bytes[9],
                    bytes[10],
                ],
                attrs,
                reserved_0: bytes[12],
                create_time_0: bytes[13],
                create_time_1: read_u16_le(bytes, 14),
                create_date: read_u16_le(bytes, 16),
                access_date: read_u16_le(bytes, 18),
                first_cluster_hi: read_u16_le(bytes, 20),
                modify_time: read_u16_le(bytes, 22),
                modify_date: read_u16_le(bytes, 24),
                first_cluster_lo: read_u16_le(bytes, 26),
                size: read_u32_le(bytes, 28),
            };
            proof {
                assert(data.name@ =~= bytes@.subrange(0, 11));
                data.lemma_holds_encodes(bytes@);
            }
            Ok(DirEntryData::File(data))
        }
    }

    /// Marks the slot free: the free flag goes where the first byte of the
    /// slot is, the first byte of the name or the order byte.
    pub fn set_free(&mut self)
        ensures
            final(self).encoding() == old(self).encoding().update(0, DIR_ENTRY_FREE_FLAG),
            (*final(self)) is Lfn <==> (*old(self)) is Lfn,
    {
        match self {
            DirEntryData::File(file) => {
                let mut data: DirFileEntryData = *file;
                data.name[0] = DIR_ENTRY_FREE_FLAG;
                proof {
                    assert(data.name@ =~= file.name@.update(0, DIR_ENTRY_FREE_FLAG));
                    assert(data.encoding() =~= file.encoding().update(0, DIR_ENTRY_FREE_FLAG));
                }
                *self = DirEntryData::File(data);
            },
            DirEntryData::Lfn(lfn) => {
                let mut data: DirLfnEntryData = *lfn;
                data.order = DIR_ENTRY_FREE_FLAG;
                proof {
                    assert(data.encoding() =~= lfn.encoding().update(0, DIR_ENTRY_FREE_FLAG));
                }
                *self = DirEntryData::Lfn(data);
            },
        }
    }

    pub fn is_free(&self) -> (r: bool)
        ensures
            r == slot_is_free(self.encoding()),
    {
        match self {
            DirEntryData::File(file) => file.is_free(),
            DirEntryData::Lfn(lfn) => lfn.is_free(),
        }
    }

    pub fn is_end(&self) -> (r: bool)
        ensures
            r == slot_is_end(self.encoding()),
    {
        match self {
            DirEntryData::File(file) => file.is_end(),
            DirEntryData::Lfn(lfn) => lfn.is_end(),
        }
    }
}

} // verus!

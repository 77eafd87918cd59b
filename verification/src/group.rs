use crate::attrs::{FileAttributes, LFN};
use crate::endian::{le16, le16_seq};
use crate::lfn::checksum_of;
use crate::raw::{DirFileEntryData, DirLfnEntryData, LFN_ENTRY_LAST_FLAG};
use crate::stream::overwritten;
use vstd::prelude::*;

verus! {

/// The number of fragments that a long name of `len` code units takes.
pub open spec fn fragments_of(len: int) -> int {
    (len + 12) / 13
}

/// The 13 code units of the fragment with the 1-based `index`: those of the
/// name from `13 * (index - 1)` on, then one 0x0000 where the name has ended,
/// then 0xFFFF.
pub open spec fn lfn_part(units: Seq<u16>, index: int) -> Seq<u16> {
    Seq::new(
        13,
        |j: int|
            if 13 * (index - 1) + j < units.len() {
                units[13 * (index - 1) + j]
            } else if 13 * (index - 1) + j == units.len() {
                0u16
            } else {
                0xFFFFu16
            },
    )
}

/// The order byte of the fragment `index` of `total`: the index, with the
/// last-flag on the fragment that holds the end of the name.
pub open spec fn lfn_order(total: int, index: int) -> u8 {
    if index == total {
        (index as u8) | LFN_ENTRY_LAST_FLAG
    } else {
        index as u8
    }
}

/// The 32 bytes of the fragment `index` of `total` for a name and a checksum.
pub open spec fn lfn_slot(units: Seq<u16>, total: int, index: int, chksum: u8) -> Seq<u8> {
    seq![lfn_order(total, index)] + le16_seq(lfn_part(units, index).subrange(0, 5)) + seq![
        LFN,
        0u8,
        chksum,
    ] + le16_seq(lfn_part(units, index).subrange(5, 11)) + le16(0) + le16_seq(
        lfn_part(units, index).subrange(11, 13),
    )
}

/// The 32 bytes of a short slot with the given name and every other field zero.
pub open spec fn short_slot(short_name: Seq<u8>) -> Seq<u8> {
    short_name + Seq::new(21, |i: int| 0u8)
}

/// The bytes of a new entry: the fragments of the long name from the last to
/// the first, each with the checksum of the short name, then the short slot.
pub open spec fn entry_group(units: Seq<u16>, short_name: Seq<u8>) -> Seq<u8> {
    Seq::new(
        (32 * (fragments_of(units.len() as int) + 1)) as nat,
        |i: int|
            if i / 32 < fragments_of(units.len() as int) {
                lfn_slot(
                    units,
                    fragments_of(units.len() as int),
                    fragments_of(units.len() as int) - i / 32,
                    checksum_of(short_name),
                )[i % 32]
            } else {
                short_slot(short_name)[i % 32]
            },
    )
}

/// The bytes of a directory after a group was written at `start`. Where the
/// group covers the end mark and a slot follows it, that slot becomes the end
/// mark.
pub open spec fn with_group(bytes: Seq<u8>, start: int, group: Seq<u8>, at_end: bool) -> Seq<u8> {
    if at_end && start + group.len() + 32 <= bytes.len() {
        overwritten(
            overwritten(bytes, start, group),
            start + group.len(),
            Seq::new(32, |i: int| 0u8),
        )
    } else {
        overwritten(bytes, start, group)
    }
}

/// Slot `k` of a group is the fragment with the index `total - k`, and the
/// short slot behind the fragments.
pub proof fn lemma_group_slot(units: Seq<u16>, short_name: Seq<u8>, k: int)
    requires
        short_name.len() == 11,
        0 <= k <= fragments_of(units.len() as int),
    ensures
        entry_group(units, short_name).len() == 32 * (fragments_of(units.len() as int) + 1),
        k < fragments_of(units.len() as int) ==> entry_group(units, short_name).subrange(
            32 * k,
            32 * k + 32,
        ) == lfn_slot(
            units,
            fragments_of(units.len() as int),
            fragments_of(units.len() as int) - k,
            checksum_of(short_name),
        ),
        k == fragments_of(units.len() as int) ==> entry_group(units, short_name).subrange(
            32 * k,
            32 * k + 32,
        ) == short_slot(short_name),
{
    let total = fragments_of(units.len() as int);
    let g = entry_group(units, short_name);
    let part = g.subrange(32 * k, 32 * k + 32);
    if k < total {
        let want = lfn_slot(units, total, total - k, checksum_of(short_name));
        assert(want.len() == 32);
        assert forall|j: int| 0 <= j < 32 implies part[j] == want[j] by {
            vstd::arithmetic::div_mod::lemma_fundamental_div_mod_converse(32 * k + j, 32, k, j);
            assert(part[j] == g[32 * k + j]);
        }
        assert(part =~= want);
    } else {
        let want = short_slot(short_name);
        assert forall|j: int| 0 <= j < 32 implies part[j] == want[j] by {
            vstd::arithmetic::div_mod::lemma_fundamental_div_mod_converse(32 * k + j, 32, k, j);
            assert(part[j] == g[32 * k + j]);
        }
        assert(part =~= want);
    }
}

/// Writing a sequence piece by piece is writing it whole.
pub proof fn lemma_overwritten_next(bytes: Seq<u8>, start: int, group: Seq<u8>, a: int, b: int)
    requires
        0 <= start,
        0 <= a <= b <= group.len(),
        start + group.len() <= bytes.len(),
    ensures
        overwritten(
            overwritten(bytes, start, group.subrange(0, a)),
            start + a,
            group.subrange(a, b),
        ) == overwritten(bytes, start, group.subrange(0, b)),
{
    assert(overwritten(
        overwritten(bytes, start, group.subrange(0, a)),
        start + a,
        group.subrange(a, b),
    ) =~= overwritten(bytes, start, group.subrange(0, b)));
}

/// A blank record with a name encodes to the short slot of that name.
pub proof fn lemma_blank_encoding(data: DirFileEntryData)
    requires
        data.is_blank(),
    ensures
        data.encoding() == short_slot(data.name@),
{
    assert(le16(0) =~= seq![0u8, 0u8]);
    assert(crate::endian::le32(0) =~= seq![0u8, 0u8, 0u8, 0u8]);
    assert(data.encoding() =~= short_slot(data.name@));
}

/// Makes the fragment `index` of `total` for a long name.
pub fn lfn_fragment(units: &Vec<u16>, total: usize, index: usize, chksum: u8) -> (r:
    DirLfnEntryData)
    requires
        1 <= index <= total <= 255,
        13 * (index - 1) <= units@.len(),
    ensures
        r.encoding() == lfn_slot(units@, total as int, index as int, chksum),
        r.units() == lfn_part(units@, index as int),
        r.order == lfn_order(total as int, index as int),
        r.checksum == chksum,
        r.attrs.bits == LFN,
        r.entry_type == 0,
        r.reserved_0 == 0,
{
    let mut order: u8 = index as u8;
    if index == total {
        order = order | LFN_ENTRY_LAST_FLAG;
    }
    let lfn_pos: usize = (index - 1) * 13;
    let len: usize = units.len();
    let mut buf: [u16; 13] = [0xFFFFu16; 13];
    let mut j: usize = 0;
    while j < 13
        invariant
            j <= 13,
            lfn_pos == 13 * (index - 1),
            lfn_pos <= len,
            len == units@.len(),
            forall|k: int| 0 <= k < j ==> buf@[k] == lfn_part(units@, index as int)[k],
            forall|k: int| j <= k < 13 ==> buf@[k] == 0xFFFF,
        decreases 13 - j,
    {
        if len - lfn_pos > j {
            buf[j] = units[lfn_pos + j];
        } else if len - lfn_pos == j {
            buf[j] = 0;
        }
        j = j + 1;
    }
    assert(buf@ =~= lfn_part(units@, index as int));
    let r = DirLfnEntryData {
        order,
        name_0: [buf[0], buf[1], buf[2], buf[3], buf[4]],
        attrs: FileAttributes::from_bits(LFN),
        entry_type: 0,
        checksum: chksum,
        name_1: [
            buf[5],
            buf[6],
            buf[7],
            buf[8],
            buf[9],
            buf[10],
        ],
        reserved_0: 0,
        name_2: [buf[11], buf[12]],
    };
    proof {
        let part = lfn_part(units@, index as int);
        assert(r.name_0@ =~= part.subrange(0, 5));
        assert(r.name_1@ =~= part.subrange(5, 11));
        assert(r.name_2@ =~= part.subrange(11, 13));
        assert(r.units() =~= part);
    }
    r
}

} // verus!

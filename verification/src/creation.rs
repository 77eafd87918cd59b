use crate::entry::EntryView;
use crate::group::{
    entry_group, fragments_of, lemma_group_slot, lfn_order, lfn_part, lfn_slot, short_slot,
};
use crate::lfn::{checksum_of, without_padding, LfnState};
use crate::raw::{slot_is_free, slot_is_lfn, slot_is_volume_id, slot_lfn_units};
use crate::scan::{
    entries_from, first_byte, lemma_read_entry_stops, next_entry, read_entry, slot_of, Step,
};
use crate::sequence::{
    is_fragment, is_whole_sequence, lemma_reads_sequence_from_start, sequence_units,
};
use crate::text::{utf16_of, utf16_of_char};
use vstd::prelude::*;

verus! {

/// The code units of a name as its fragments hold them: the name, then one
/// 0x0000 where there is room for it, then 0xFFFF up to `len`.
pub open spec fn padded(units: Seq<u16>, len: int) -> Seq<u16> {
    Seq::new(
        len as nat,
        |p: int|
            if p < units.len() {
                units[p]
            } else if p == units.len() {
                0u16
            } else {
                0xFFFFu16
            },
    )
}

/// Without its padding, a padded name is the name, where the name does not
/// itself end with a code unit that counts as padding.
pub proof fn lemma_strip_padding(units: Seq<u16>, len: int)
    requires
        units.len() > 0,
        units.last() != 0,
        units.last() != 0xFFFF,
        units.len() <= len,
    ensures
        without_padding(padded(units, len)) == units,
    decreases len - units.len(),
{
    let p = padded(units, len);
    if len == units.len() {
        assert(p =~= units);
    } else {
        assert(p.last() == 0 || p.last() == 0xFFFF);
        assert(p.drop_last() =~= padded(units, len - 1));
        lemma_strip_padding(units, len - 1);
    }
}

/// The last code unit of a name that does not end with U+0000 or U+FFFF is
/// neither 0x0000 nor 0xFFFF.
pub proof fn lemma_last_unit(name: Seq<char>)
    requires
        name.len() > 0,
        name.last() as u32 != 0,
        name.last() as u32 != 0xFFFF,
    ensures
        utf16_of(name).len() > 0,
        utf16_of(name).last() != 0,
        utf16_of(name).last() != 0xFFFF,
    decreases name.len(),
{
    let head = utf16_of_char(name[0]);
    let rest = name.drop_first();
    vstd::utf8::char_is_scalar(name[0]);
    if rest.len() == 0 {
        assert(utf16_of(rest) =~= Seq::<u16>::empty());
        assert(utf16_of(name) =~= head);
        assert(name[0] == name.last());
    } else {
        assert(rest.last() == name.last());
        lemma_last_unit(rest);
        assert(utf16_of(name).last() == utf16_of(rest).last());
    }
}

/// What the order byte of a fragment tells: its index, and whether it is the
/// first of its sequence in the slot stream. It is never the free flag.
pub proof fn lemma_order_bits(n: u8)
    requires
        1 <= n <= 20,
    ensures
        (n | 0x40) & 0x1F == n,
        (n | 0x40) & 0x40 != 0,
        n & 0x1F == n,
        n & 0x40 == 0,
        (n | 0x40) != 0xE5,
        (n | 0x40) != 0,
{
    assert((n | 0x40) & 0x1F == n && (n | 0x40) & 0x40 != 0 && n & 0x1F == n && n & 0x40 == 0 && (n
        | 0x40) != 0xE5 && (n | 0x40) != 0) by (bit_vector)
        requires
            1 <= n <= 20,
    ;
}

/// What a reading sees in slot `k` of a group: a fragment that is not free,
/// with its order byte, the checksum of the short name and its 13 code units.
#[verifier::rlimit(30)]
pub proof fn lemma_fragment_slot(units: Seq<u16>, short_name: Seq<u8>, k: int)
    requires
        short_name.len() == 11,
        0 <= k < fragments_of(units.len() as int),
    ensures
        ({
            let total = fragments_of(units.len() as int);
            let slot = entry_group(units, short_name).subrange(32 * k, 32 * k + 32);
            &&& slot_is_lfn(slot)
            &&& slot[0] == lfn_order(total, total - k)
            &&& slot[13] == checksum_of(short_name)
            &&& slot_lfn_units(slot) == lfn_part(units, total - k)
        }),
{
    let total = fragments_of(units.len() as int);
    lemma_group_slot(units, short_name, k);
    let slot = lfn_slot(units, total, total - k, checksum_of(short_name));
    let part = lfn_part(units, total - k);
    assert(slot[11] == 0x0Fu8);
    assert(0x0Fu8 & 0x0F == 0x0F) by (bit_vector);
    assert forall|i: int| 0 <= i < 13 implies slot_lfn_units(slot)[i] == part[i] by {
        let at = if i < 5 {
            1 + 2 * i
        } else if i < 11 {
            14 + 2 * (i - 5)
        } else {
            28 + 2 * (i - 11)
        };
        assert(slot[at] == (part[i] % 256) as u8);
        assert(slot[at + 1] == (part[i] / 256) as u8);
    }
    assert(slot_lfn_units(slot) =~= part);
}

/// What a reading sees in the last slot of a group: a short slot with the
/// short name, no attribute set.
pub proof fn lemma_short_slot(units: Seq<u16>, short_name: Seq<u8>)
    requires
        short_name.len() == 11,
    ensures
        ({
            let total = fragments_of(units.len() as int);
            let slot = entry_group(units, short_name).subrange(32 * total, 32 * total + 32);
            &&& slot == short_slot(short_name)
            &&& !slot_is_lfn(slot)
            &&& !slot_is_volume_id(slot)
            &&& slot[0] == short_name[0]
            &&& slot.subrange(0, 11) == short_name
        }),
{
    let total = fragments_of(units.len() as int);
    lemma_group_slot(units, short_name, total);
    let slot = short_slot(short_name);
    assert(slot[11] == 0u8);
    assert(0u8 & 0x0F != 0x0F && 0u8 & 0x08 != 0x08) by (bit_vector);
    assert(slot.subrange(0, 11) =~= short_name);
}

/// The bytes hold the group of a name from slot `s` on.
pub open spec fn holds_group(bytes: Seq<u8>, s: int, units: Seq<u16>, short_name: Seq<u8>) -> bool {
    &&& 0 <= s
    &&& 32 * s + entry_group(units, short_name).len() <= bytes.len()
    &&& bytes.subrange(32 * s, 32 * s + entry_group(units, short_name).len()) == entry_group(
        units,
        short_name,
    )
}

/// The entry that a group stands for.
pub open spec fn group_entry(s: int, units: Seq<u16>, short_name: Seq<u8>, begin: int) -> EntryView {
    EntryView {
        slot: short_slot(short_name),
        lfn: units,
        begin,
        end: 32 * (s + fragments_of(units.len() as int) + 1),
    }
}

/// The name is one that a group can hold and give back: it has between 1
/// and 255 code units, the last of them not padding, and its short name
/// starts neither with the end mark nor with the free flag.
pub open spec fn listable(units: Seq<u16>, short_name: Seq<u8>) -> bool {
    &&& 0 < units.len() <= 255
    &&& units.last() != 0
    &&& units.last() != 0xFFFF
    &&& short_name.len() == 11
    &&& short_name[0] != 0
    &&& short_name[0] != 0xE5
}

/// Slot `k` of the group at slot `s`, as a part of the bytes.
proof fn lemma_slot_of_group(bytes: Seq<u8>, s: int, units: Seq<u16>, short_name: Seq<u8>, k: int)
    requires
        holds_group(bytes, s, units, short_name),
        short_name.len() == 11,
        0 <= k <= fragments_of(units.len() as int),
    ensures
        32 * (s + k) + 32 <= bytes.len(),
        bytes.subrange(32 * (s + k), 32 * (s + k) + 32) == entry_group(units, short_name).subrange(
            32 * k,
            32 * k + 32,
        ),
{
    let g = entry_group(units, short_name);
    lemma_group_slot(units, short_name, k);
    let whole = bytes.subrange(32 * s, 32 * s + g.len());
    assert(bytes.subrange(32 * (s + k), 32 * (s + k) + 32) =~= whole.subrange(32 * k, 32 * k + 32));
}

/// A group in the bytes is a whole sequence of fragments with its short
/// slot, and the code units of the sequence are the padded name.
#[verifier::rlimit(30)]
pub proof fn lemma_group_is_whole_sequence(
    bytes: Seq<u8>,
    s: int,
    units: Seq<u16>,
    short_name: Seq<u8>,
)
    requires
        holds_group(bytes, s, units, short_name),
        listable(units, short_name),
    ensures
        is_whole_sequence(bytes, s, fragments_of(units.len() as int)),
        sequence_units(bytes, s, fragments_of(units.len() as int)) == padded(
            units,
            13 * fragments_of(units.len() as int),
        ),
        slot_of(bytes, s + fragments_of(units.len() as int)) == short_slot(short_name),
{
    let total = fragments_of(units.len() as int);
    assert(1 <= total <= 20);
    lemma_slot_of_group(bytes, s, units, short_name, total);
    lemma_short_slot(units, short_name);
    let last = slot_of(bytes, s + total);
    assert(last == short_slot(short_name));
    let chksum = checksum_of(last.subrange(0, 11));
    assert(chksum == checksum_of(short_name));
    assert forall|k: int| 0 <= k < total implies #[trigger] is_fragment(
        bytes,
        s,
        total,
        k,
        chksum,
    ) by {
        lemma_slot_of_group(bytes, s, units, short_name, k);
        lemma_fragment_slot(units, short_name, k);
        lemma_order_bits((total - k) as u8);
        assert(0xE5u8 > 20);
    }
    let got = sequence_units(bytes, s, total);
    let want = padded(units, 13 * total);
    assert forall|p: int| 0 <= p < 13 * total implies got[p] == want[p] by {
        vstd::arithmetic::div_mod::lemma_fundamental_div_mod(p, 13);
        vstd::arithmetic::div_mod::lemma_mod_bound(p, 13);
        let k = total - 1 - p / 13;
        assert(0 <= p / 13 < total) by (nonlinear_arith)
            requires
                0 <= p < 13 * total,
                p == 13 * (p / 13) + p % 13,
                0 <= p % 13 < 13,
        ;
        lemma_slot_of_group(bytes, s, units, short_name, k);
        lemma_fragment_slot(units, short_name, k);
        assert(slot_lfn_units(slot_of(bytes, s + k)) == lfn_part(units, total - k));
    }
    assert(got =~= want);
}

/// A reading that comes to the first slot of a group gives the entry of the
/// group, whatever it has taken in before.
pub proof fn lemma_reads_group_from_start(
    bytes: Seq<u8>,
    s: int,
    units: Seq<u16>,
    short_name: Seq<u8>,
    st: LfnState,
    begin: int,
)
    requires
        holds_group(bytes, s, units, short_name),
        listable(units, short_name),
    ensures
        read_entry(bytes, 32 * s, st, begin) == Step::Entry(
            group_entry(s, units, short_name, begin),
        ),
{
    let total = fragments_of(units.len() as int);
    lemma_group_is_whole_sequence(bytes, s, units, short_name);
    lemma_reads_sequence_from_start(bytes, s, total, st, begin);
    lemma_strip_padding(units, 13 * total);
}

/// A reading from a slot before a group, where no slot up to the group
/// starts with the end mark, gives an entry that ends before the group or
/// the entry of the group.
pub proof fn lemma_reaches_group(
    bytes: Seq<u8>,
    j: int,
    st: LfnState,
    begin: int,
    s: int,
    units: Seq<u16>,
    short_name: Seq<u8>,
)
    requires
        0 <= j <= s,
        holds_group(bytes, s, units, short_name),
        listable(units, short_name),
        forall|k: int| j <= k < s ==> #[trigger] first_byte(bytes, k) != 0,
    ensures
        read_entry(bytes, 32 * j, st, begin) is Entry,
        read_entry(bytes, 32 * j, st, begin)->Entry_0.end <= 32 * s || exists|b: int|
            read_entry(bytes, 32 * j, st, begin) == Step::Entry(
                #[trigger] group_entry(s, units, short_name, b),
            ),
    decreases s - j,
{
    if j == s {
        lemma_reads_group_from_start(bytes, s, units, short_name, st, begin);
        assert(read_entry(bytes, 32 * j, st, begin) == Step::Entry(
            group_entry(s, units, short_name, begin),
        ));
    } else {
        let pos = 32 * j;
        let slot = bytes.subrange(pos, pos + 32);
        assert(slot[0] == first_byte(bytes, j));
        if slot_is_lfn(slot) {
            if slot_is_free(slot) {
                lemma_reaches_group(bytes, j + 1, st.cleared(), pos + 32, s, units, short_name);
            } else {
                lemma_reaches_group(
                    bytes,
                    j + 1,
                    st.processed(slot[0], slot[13], slot_lfn_units(slot)),
                    begin,
                    s,
                    units,
                    short_name,
                );
            }
        } else if slot_is_free(slot) || slot_is_volume_id(slot) {
            lemma_reaches_group(bytes, j + 1, st.cleared(), pos + 32, s, units, short_name);
        }
    }
}

/// One of the entries `es` has the long name `units` and ends at `end`.
pub open spec fn lists(es: Seq<EntryView>, units: Seq<u16>, end: int) -> bool {
    exists|i: int| 0 <= i < es.len() && (#[trigger] es[i]).lfn == units && es[i].end == end
}

/// The entries read from a slot before a group, where no slot up to the
/// group starts with the end mark, hold the entry of the group.
pub proof fn lemma_group_is_listed(
    bytes: Seq<u8>,
    j: int,
    s: int,
    units: Seq<u16>,
    short_name: Seq<u8>,
)
    requires
        0 <= j <= s,
        holds_group(bytes, s, units, short_name),
        listable(units, short_name),
        forall|k: int| j <= k < s ==> #[trigger] first_byte(bytes, k) != 0,
    ensures
        lists(
            entries_from(bytes, 32 * j),
            units,
            32 * (s + fragments_of(units.len() as int) + 1),
        ),
    decreases s - j,
{
    let es = entries_from(bytes, 32 * j);
    let end = 32 * (s + fragments_of(units.len() as int) + 1);
    lemma_reaches_group(bytes, j, LfnState::empty(), 32 * j, s, units, short_name);
    lemma_read_entry_stops(bytes, j, LfnState::empty(), 32 * j);
    let e = next_entry(bytes, 32 * j)->Entry_0;
    if e.end <= 32 * s {
        let m = choose|m: int|
            j <= m && e.end == 32 * (m + 1) && e.end <= bytes.len()
                && #[trigger] crate::scan::is_live_entry(bytes, m);
        let rest = entries_from(bytes, 32 * (m + 1));
        assert(es == seq![e] + rest);
        lemma_group_is_listed(bytes, m + 1, s, units, short_name);
        let i = choose|i: int| 0 <= i < rest.len() && (#[trigger] rest[i]).lfn == units && rest[i].end
            == end;
        assert(es[i + 1] == rest[i]);
    } else {
        assert(es[0] == e);
    }
}

} // verus!

use crate::creation::{holds_group, lemma_group_is_listed, lemma_last_unit, listable};
use crate::dir::{creates, removes};
use crate::entry::{DirEntry, EntryView};
use crate::error::Error;
use crate::fs::FsView;
use crate::group::{entry_group, fragments_of, lemma_group_slot, lfn_order, lfn_slot};
use crate::lfn::{checksum_of, without_padding, LfnState};
use crate::locality::lemma_find_after_removal;
use crate::path::{first_component, rest_of_path};
use crate::raw::{slot_is_lfn, DirEntryData};
use crate::scan::{
    entries, entries_from, find_from, first_byte, free_run, freed, is_end_mark, is_live_entry,
    lemma_read_entry_stops, next_entry, no_live_in, no_mark_in, read_entry, slot_of, Step,
};
use crate::sequence::{is_whole_sequence, lemma_reads_sequence_from_start, sequence_units};
use crate::short_name::{short_name_of, uppercase};
use crate::stream::StreamView;
use crate::text::{
    ascii_folded, lemma_same_names_match_alike, lemma_utf16_round_trip,
    same_ignoring_ascii_case, utf16_of,
};
use crate::walk::{lookup, parent_of};
use vstd::prelude::*;

verus! {

/// Encoding what was decoded gives the slot again: a record or a fragment
/// that holds the fields of a slot of 32 bytes encodes to that slot.
pub proof fn law_slot_round_trip(slot: Seq<u8>, data: DirEntryData)
    requires
        slot.len() == 32,
        data.holds(slot),
    ensures
        data.encoding() == slot,
{
    match data {
        DirEntryData::File(file) => file.lemma_holds_encodes(slot),
        DirEntryData::Lfn(lfn) => lfn.lemma_holds_encodes(slot),
    }
    assert(slot.subrange(0, 32) =~= slot);
}

/// Decoding what was encoded gives the fields again: a record or a fragment
/// holds the fields of its own slot.
pub proof fn law_fields_round_trip(data: DirEntryData)
    ensures
        data.holds(data.encoding()),
{
    match data {
        DirEntryData::File(file) => file.lemma_holds_own_slot(),
        DirEntryData::Lfn(lfn) => lfn.lemma_holds_own_slot(),
    }
}

/// The fragments of the group that is written for a name are a whole
/// sequence: each is a long-name slot that carries the checksum of the short
/// name made for that name, their indices count down to 1, and the first of
/// them alone has the last-flag.
pub proof fn law_fragments_carry_checksum(name: Seq<char>, k: int)
    requires
        0 <= k < fragments_of(utf16_of(name).len() as int),
    ensures
        ({
            let short_name = short_name_of(vstd::utf8::encode_utf8(uppercase(name)));
            let total = fragments_of(utf16_of(name).len() as int);
            let slot = entry_group(utf16_of(name), short_name).subrange(32 * k, 32 * k + 32);
            &&& slot_is_lfn(slot)
            &&& slot[13] == checksum_of(short_name)
            &&& slot[0] == lfn_order(total, total - k)
        }),
{
    let short_name = short_name_of(vstd::utf8::encode_utf8(uppercase(name)));
    let units = utf16_of(name);
    lemma_group_slot(units, short_name, k);
    let total = fragments_of(units.len() as int);
    let slot = lfn_slot(units, total, total - k, checksum_of(short_name));
    assert(slot[11] == 0x0Fu8);
    assert(0x0Fu8 & 0x0F == 0x0F) by (bit_vector);
    assert(slot[13] == checksum_of(short_name));
}

/// A string in which every small ASCII letter is replaced by its capital.
pub open spec fn ascii_uppercase(s: Seq<char>) -> Seq<char> {
    Seq::new(
        s.len(),
        |i: int|
            if 0x61 <= s[i] as u32 <= 0x7A {
                ((s[i] as u32 - 32) as u32) as char
            } else {
                s[i]
            },
    )
}

/// A string in which every capital ASCII letter is replaced by its small letter.
pub open spec fn ascii_lowercase(s: Seq<char>) -> Seq<char> {
    Seq::new(
        s.len(),
        |i: int|
            if 0x41 <= s[i] as u32 <= 0x5A {
                ((s[i] as u32 + 32) as u32) as char
            } else {
                s[i]
            },
    )
}

/// A string differs from its ASCII upper-case and lower-case forms in the
/// case of ASCII letters alone.
pub proof fn lemma_ascii_case_forms(s: Seq<char>)
    ensures
        same_ignoring_ascii_case(s, ascii_uppercase(s)),
        same_ignoring_ascii_case(s, ascii_lowercase(s)),
{
    assert forall|i: int| 0 <= i < s.len() implies ascii_folded(#[trigger] s[i]) == ascii_folded(
        ascii_uppercase(s)[i],
    ) by {
        let v = s[i] as u32;
        if 0x61 <= v <= 0x7A {
            let w = (v - 32) as u32;
            assert((w as char) as u32 == w);
        }
    }
    assert forall|i: int| 0 <= i < s.len() implies ascii_folded(#[trigger] s[i]) == ascii_folded(
        ascii_lowercase(s)[i],
    ) by {
        let v = s[i] as u32;
        if 0x41 <= v <= 0x5A {
            let w = (v + 32) as u32;
            assert((w as char) as u32 == w);
        }
    }
}

/// The search for a name gives the same for every name that differs from it
/// in the case of ASCII letters alone.
pub proof fn law_lookup_ignores_ascii_case(bytes: Seq<u8>, pos: int, n: Seq<char>, m: Seq<char>)
    requires
        same_ignoring_ascii_case(n, m),
    ensures
        find_from(bytes, pos, n) == find_from(bytes, pos, m),
    decreases bytes.len() - pos,
{
    match next_entry(bytes, pos) {
        Step::Entry(e) => {
            lemma_same_names_match_alike(e.file_name(), n, m);
            if !same_ignoring_ascii_case(e.file_name(), n) && pos < e.end <= bytes.len() {
                law_lookup_ignores_ascii_case(bytes, e.end, n, m);
            }
        },
        _ => {},
    }
}

/// The search for a name, for its ASCII upper-case form and for its ASCII
/// lower-case form give the same.
pub proof fn law_lookup_of_case_forms(bytes: Seq<u8>, name: Seq<char>)
    ensures
        find_from(bytes, 0, name) == find_from(bytes, 0, ascii_uppercase(name)),
        find_from(bytes, 0, name) == find_from(bytes, 0, ascii_lowercase(name)),
{
    lemma_ascii_case_forms(name);
    law_lookup_ignores_ascii_case(bytes, 0, name, ascii_uppercase(name));
    law_lookup_ignores_ascii_case(bytes, 0, name, ascii_lowercase(name));
}

/// The short slot of the entry `e` is slot `m`, the short slot of a live
/// entry within the bytes, and no end mark stands from slot `k` up to it.
pub open spec fn ends_at_live(bytes: Seq<u8>, k: int, e: EntryView, m: int) -> bool {
    &&& k <= m
    &&& e.end == 32 * (m + 1)
    &&& e.end <= bytes.len()
    &&& is_live_entry(bytes, m)
    &&& no_mark_in(bytes, k, m)
}

/// The entry `e` ends with the short slot of a live entry, and no end mark
/// stands from slot `k` up to that slot.
pub open spec fn is_visit(bytes: Seq<u8>, k: int, e: EntryView) -> bool {
    exists|m: int| #[trigger] ends_at_live(bytes, k, e, m)
}

/// One of the entries `es` has slot `m` for its short slot.
pub open spec fn visited(es: Seq<EntryView>, m: int) -> bool {
    exists|i: int| 0 <= i < es.len() && (#[trigger] es[i]).end == 32 * (m + 1)
}

/// The entries read from slot `k` on are the live entries from there up to
/// the first end mark, each once and in their order.
#[verifier::rlimit(30)]
pub proof fn lemma_entries_are_live_entries(bytes: Seq<u8>, k: int)
    requires
        0 <= k,
    ensures
        forall|i: int|
            0 <= i < entries_from(bytes, 32 * k).len() ==> is_visit(
                bytes,
                k,
                #[trigger] entries_from(bytes, 32 * k)[i],
            ),
        forall|i: int, j: int|
            0 <= i < j < entries_from(bytes, 32 * k).len() ==> (#[trigger] entries_from(
                bytes,
                32 * k,
            )[i]).end < (#[trigger] entries_from(bytes, 32 * k)[j]).end,
        forall|m: int|
            k <= m && 32 * (m + 1) <= bytes.len() && #[trigger] is_live_entry(bytes, m)
                && no_mark_in(bytes, k, m) ==> visited(entries_from(bytes, 32 * k), m),
    decreases bytes.len() - 32 * k,
{
    let es = entries_from(bytes, 32 * k);
    lemma_read_entry_stops(bytes, k, LfnState::empty(), 32 * k);
    match next_entry(bytes, 32 * k) {
        Step::Entry(e) => {
            let m0 = choose|m: int|
                {
                    &&& k <= m
                    &&& e.end == 32 * (m + 1)
                    &&& e.end <= bytes.len()
                    &&& #[trigger] is_live_entry(bytes, m)
                    &&& no_mark_in(bytes, k, m)
                    &&& no_live_in(bytes, k, m)
                };
            let rest = entries_from(bytes, 32 * (m0 + 1));
            assert(es == seq![e] + rest);
            lemma_entries_are_live_entries(bytes, m0 + 1);
            assert(ends_at_live(bytes, k, e, m0));
            assert(!is_end_mark(bytes, m0));
            assert forall|i: int| 0 <= i < es.len() implies is_visit(bytes, k, #[trigger] es[i]) by {
                if i == 0 {
                    assert(ends_at_live(bytes, k, es[0], m0));
                } else {
                    assert(es[i] == rest[i - 1]);
                    assert(is_visit(bytes, m0 + 1, rest[i - 1]));
                    let m = choose|m: int| #[trigger] ends_at_live(bytes, m0 + 1, rest[i - 1], m);
                    assert(no_mark_in(bytes, k, m));
                    assert(ends_at_live(bytes, k, es[i], m));
                }
            }
            assert forall|i: int, j: int| 0 <= i < j < es.len() implies (#[trigger] es[i]).end < (
            #[trigger] es[j]).end by {
                assert(es[j] == rest[j - 1]);
                assert(is_visit(bytes, m0 + 1, rest[j - 1]));
                let mj = choose|m: int| #[trigger] ends_at_live(bytes, m0 + 1, rest[j - 1], m);
                if i > 0 {
                    assert(es[i] == rest[i - 1]);
                }
            }
            assert forall|m: int|
                k <= m && 32 * (m + 1) <= bytes.len() && #[trigger] is_live_entry(bytes, m)
                    && no_mark_in(bytes, k, m) implies visited(es, m) by {
                if m < m0 {
                    assert(!is_live_entry(bytes, m));
                } else if m == m0 {
                    assert(es[0].end == 32 * (m + 1));
                } else {
                    assert(no_mark_in(bytes, m0 + 1, m));
                    assert(visited(rest, m));
                    let i = choose|i: int| 0 <= i < rest.len() && (#[trigger] rest[i]).end == 32 * (
                    m + 1);
                    assert(es[i + 1] == rest[i]);
                }
            }
        },
        Step::End => {
            let m0 = choose|m: int|
                {
                    &&& k <= m
                    &&& 32 * (m + 1) <= bytes.len()
                    &&& #[trigger] is_end_mark(bytes, m)
                    &&& no_mark_in(bytes, k, m)
                    &&& no_live_in(bytes, k, m)
                };
            assert forall|m: int|
                k <= m && 32 * (m + 1) <= bytes.len() && #[trigger] is_live_entry(bytes, m)
                    && no_mark_in(bytes, k, m) implies visited(es, m) by {
                if m < m0 {
                    assert(!is_live_entry(bytes, m));
                } else if m > m0 {
                    assert(!is_end_mark(bytes, m0));
                }
            }
        },
        Step::Fail => {
            assert forall|m: int| k <= m && 32 * (m + 1) <= bytes.len() implies !is_live_entry(
                bytes,
                m,
            ) by {
                assert(!is_end_mark(bytes, m));
            }
        },
    }
}

/// Scanning a directory until its first end mark visits every live entry
/// once: each entry that the scan gives ends with the short slot of a live
/// entry before which no end mark stands, the entries come in the order of
/// their slots, and every such slot is the short slot of one of them.
pub proof fn law_scan_visits_live_entries_once(bytes: Seq<u8>)
    ensures
        forall|i: int| 0 <= i < entries(bytes).len() ==> is_visit(bytes, 0, #[trigger] entries(bytes)[i]),
        forall|i: int, j: int|
            0 <= i < j < entries(bytes).len() ==> (#[trigger] entries(bytes)[i]).end < (
            #[trigger] entries(bytes)[j]).end,
        forall|m: int|
            0 <= m && 32 * (m + 1) <= bytes.len() && #[trigger] is_live_entry(bytes, m)
                && no_mark_in(bytes, 0, m) ==> visited(entries(bytes), m),
{
    let k: int = 0;
    lemma_entries_are_live_entries(bytes, k);
    assert(entries_from(bytes, 32 * k) == entries(bytes));
}

/// The volume `after` is the volume `before` but for the bytes of the
/// directory `d`, in which the slots of the entry `e` are marked free.
pub open spec fn differs_by_removal(before: FsView, after: FsView, d: u32, e: EntryView) -> bool {
    after.dirs == before.dirs.insert(
        d,
        StreamView { bytes: freed(before.bytes_of(d), e.begin, e.end), ..before.stream_of(d) },
    )
}

/// After the one entry with the name `name` was removed from the directory
/// `d`, a walk that led to that directory and name leads there still, or
/// fails with `NotFound` where it went through the removed entry.
pub proof fn lemma_walk_after_removal(
    before: FsView,
    after: FsView,
    c: u32,
    path: Seq<char>,
    d: u32,
    name: Seq<char>,
    e: EntryView,
)
    requires
        differs_by_removal(before, after, d, e),
        find_from(before.bytes_of(d), 0, name) == Ok::<EntryView, Error>(e),
        find_from(before.bytes_of(d), e.end, name) == Err::<EntryView, Error>(Error::NotFound),
        parent_of(before, c, path) == Ok::<(u32, Seq<char>), Error>((d, name)),
    ensures
        parent_of(after, c, path) == Ok::<(u32, Seq<char>), Error>((d, name)) || parent_of(
            after,
            c,
            path,
        ) == Err::<(u32, Seq<char>), Error>(Error::NotFound),
    decreases path.len(),
{
    match rest_of_path(path) {
        None => {},
        Some(rest) => {
            let comp = first_component(path);
            let found = find_from(before.bytes_of(c), 0, comp);
            let e1 = found->Ok_0;
            if c == d {
                assert(after.dirs.dom().contains(d));
                assert(after.bytes_of(d) == freed(before.bytes_of(d), e.begin, e.end));
                lemma_find_after_removal(before.bytes_of(d), 0, name, comp, e);
                if same_ignoring_ascii_case(comp, name) {
                    law_lookup_ignores_ascii_case(before.bytes_of(d), e.end, comp, name);
                } else {
                    lemma_walk_after_removal(before, after, e1.cluster() as u32, rest, d, name, e);
                }
            } else {
                assert(after.bytes_of(c) == before.bytes_of(c));
                lemma_walk_after_removal(before, after, e1.cluster() as u32, rest, d, name, e);
            }
        },
    }
}

/// A removed entry is gone: where the directory held no other entry with
/// its name, the path names nothing after the removal, so that a second
/// removal by the same path fails with `NotFound` and changes nothing.
pub proof fn law_removed_entry_is_gone(before: FsView, after: FsView, dir: u32, path: Seq<char>)
    requires
        removes(before, after, dir, path, Ok::<(), Error>(())),
        lookup(before, dir, path) is Ok ==> find_from(
            before.bytes_of(lookup(before, dir, path)->Ok_0.0),
            lookup(before, dir, path)->Ok_0.1.end,
            parent_of(before, dir, path)->Ok_0.1,
        ) == Err::<EntryView, Error>(Error::NotFound),
    ensures
        lookup(after, dir, path) == Err::<(u32, EntryView), Error>(Error::NotFound),
        forall|last: FsView, r: Result<(), Error>| #[trigger]
            removes(after, last, dir, path, r) ==> r == Err::<(), Error>(Error::NotFound) && last
                == after,
{
    let (d, e) = lookup(before, dir, path)->Ok_0;
    let name = parent_of(before, dir, path)->Ok_0.1;
    assert(parent_of(before, dir, path) == Ok::<(u32, Seq<char>), Error>((d, name)));
    assert(differs_by_removal(before, after, d, e));
    lemma_walk_after_removal(before, after, dir, path, d, name, e);
    assert(after.dirs.dom().contains(d));
    assert(after.bytes_of(d) == freed(before.bytes_of(d), e.begin, e.end));
    lemma_find_after_removal(before.bytes_of(d), 0, name, name, e);
    assert(same_ignoring_ascii_case(name, name));
}

/// The removal of an entry marks each slot of its range free and leaves
/// every other byte of the directory as it was.
pub proof fn law_removal_frees_range(before: FsView, after: FsView, dir: u32, path: Seq<char>)
    requires
        removes(before, after, dir, path, Ok::<(), Error>(())),
    ensures
        lookup(before, dir, path) is Ok,
        ({
            let (d, e) = lookup(before, dir, path)->Ok_0;
            let old_bytes = before.bytes_of(d);
            let new_bytes = after.bytes_of(d);
            &&& new_bytes.len() == old_bytes.len()
            &&& forall|i: int|
                0 <= i < old_bytes.len() ==> #[trigger] new_bytes[i] == (if e.begin <= i < e.end
                    && (i - e.begin) % 32 == 0 {
                    0xE5u8
                } else {
                    old_bytes[i]
                })
        }),
{
    let (d, e) = lookup(before, dir, path)->Ok_0;
    assert(after.dirs.dom().contains(d));
}

/// One of the entries `es` has the name `name` and ends at `end`.
pub open spec fn names_entry(es: Seq<EntryView>, name: Seq<char>, end: int) -> bool {
    exists|i: int| 0 <= i < es.len() && (#[trigger] es[i]).file_name() == name && es[i].end == end
}

/// A created entry is listed: after an entry was created for `name`, the
/// entries of the directory hold one with that name, which ends where the
/// created entry ends. This holds of every name that is not empty, does not
/// end with U+0000 or U+FFFF, and whose short name starts neither with the
/// end mark nor with the free flag.
pub proof fn law_created_entry_is_listed(
    before: FsView,
    after: FsView,
    dir: u32,
    name: Seq<char>,
    e: DirEntry,
)
    requires
        creates(before, after, dir, name, Ok::<DirEntry, Error>(e)),
        name.len() > 0,
        name.last() as u32 != 0,
        name.last() as u32 != 0xFFFF,
        short_name_of(vstd::utf8::encode_utf8(uppercase(name)))[0] != 0,
        short_name_of(vstd::utf8::encode_utf8(uppercase(name)))[0] != 0xE5,
    ensures
        names_entry(entries(after.bytes_of(dir)), name, e.end_offset as int),
{
    let units = utf16_of(name);
    let short_name = short_name_of(vstd::utf8::encode_utf8(uppercase(name)));
    let num = fragments_of(units.len() as int) + 1;
    let old_bytes = before.bytes_of(dir);
    let new_bytes = after.bytes_of(dir);
    let s = e.begin_offset as int / 32;
    lemma_last_unit(name);
    assert(listable(units, short_name));
    assert(after.dirs.dom().contains(dir));
    assert(e.begin_offset == 32 * s);
    let group = entry_group(units, short_name);
    lemma_group_slot(units, short_name, 0);
    assert(group.len() == 32 * num);
    assert(new_bytes.subrange(32 * s, 32 * s + group.len()) =~= group);
    assert(holds_group(new_bytes, s, units, short_name));
    assert forall|k: int| 0 <= k < s implies #[trigger] first_byte(new_bytes, k) != 0 by {
        assert(first_byte(new_bytes, k) == first_byte(old_bytes, k));
    }
    lemma_group_is_listed(new_bytes, 0, s, units, short_name);
    let k0: int = 0;
    let es = entries_from(new_bytes, 32 * k0);
    assert(es == entries(new_bytes));
    let i = choose|i: int|
        0 <= i < es.len() && (#[trigger] es[i]).lfn == units && es[i].end == 32 * (s
            + fragments_of(units.len() as int) + 1);
    lemma_utf16_round_trip(name);
    assert(es[i].file_name() == name);
}

/// A slot at or before slot `k` starts with the end mark.
pub open spec fn ended_by(bytes: Seq<u8>, k: int) -> bool {
    exists|t: int| 0 <= t <= k && #[trigger] first_byte(bytes, t) == 0
}

/// The creation of an entry takes free room only: every slot that it
/// changes started with the free flag, or stood at or behind a slot that
/// starts with the end mark.
pub proof fn law_creation_takes_free_room(
    before: FsView,
    after: FsView,
    dir: u32,
    name: Seq<char>,
    e: DirEntry,
    k: int,
)
    requires
        creates(before, after, dir, name, Ok::<DirEntry, Error>(e)),
        0 <= k,
        32 * (k + 1) <= before.bytes_of(dir).len(),
        slot_of(after.bytes_of(dir), k) != slot_of(before.bytes_of(dir), k),
    ensures
        first_byte(before.bytes_of(dir), k) == 0xE5 || ended_by(before.bytes_of(dir), k),
{
    let units = utf16_of(name);
    let short_name = short_name_of(vstd::utf8::encode_utf8(uppercase(name)));
    let num = fragments_of(units.len() as int) + 1;
    let old_bytes = before.bytes_of(dir);
    let new_bytes = after.bytes_of(dir);
    let s = e.begin_offset as int / 32;
    assert(after.dirs.dom().contains(dir));
    assert(e.begin_offset == 32 * s);
    lemma_group_slot(units, short_name, 0);
    if k < s || (k > s + num) || (k == s + num && free_run(old_bytes, s, num)) {
        assert(slot_of(new_bytes, k) =~= slot_of(old_bytes, k));
    } else if free_run(old_bytes, s, num) {
        assert(first_byte(old_bytes, k) == 0xE5);
    } else {
        let t = choose|t: int|
            s <= t < s + num && 32 * (t + 1) <= old_bytes.len() && free_run(old_bytes, s, t - s)
                && #[trigger] first_byte(old_bytes, t) == 0;
        if k < t {
            assert(first_byte(old_bytes, k) == 0xE5);
        }
    }
}

/// A whole sequence names its entry: where a run of fragments with the
/// indices `n` down to 1, the last-flag on the first alone and the checksum
/// of the short name stands before the short slot of a live entry, a reading
/// that comes to the first of them gives that entry, with the code units of
/// the fragments, less their padding, for its long name.
pub proof fn law_whole_sequence_names_entry(
    bytes: Seq<u8>,
    s: int,
    n: int,
    st: LfnState,
    begin: int,
)
    requires
        is_whole_sequence(bytes, s, n),
    ensures
        read_entry(bytes, 32 * s, st, begin) == Step::Entry(
            EntryView {
                slot: slot_of(bytes, s + n),
                lfn: without_padding(sequence_units(bytes, s, n)),
                begin,
                end: 32 * (s + n + 1),
            },
        ),
{
    lemma_reads_sequence_from_start(bytes, s, n, st, begin);
}

} // verus!

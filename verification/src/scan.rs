use crate::entry::EntryView;
use crate::error::Error;
use crate::lfn::LfnState;
use crate::raw::{slot_is_end, slot_is_free, slot_is_lfn, slot_is_volume_id, slot_lfn_units};
use crate::text::same_ignoring_ascii_case;
use vstd::prelude::*;

verus! {

/// How the reading of one logical entry ends.
pub enum Step {
    /// A live short slot was reached.
    Entry(EntryView),
    /// The end-of-directory mark was reached.
    End,
    /// The bytes ended before a whole slot could be read.
    Fail,
}

/// Reads slots from `pos` on until a live short slot, the end mark or the end
/// of the bytes. `st` is the state of the long-name assembler and `begin` the
/// offset at which the entry under way began. A free slot and a volume-id
/// slot give up the name gathered so far and let the entry begin behind them.
pub open spec fn read_entry(bytes: Seq<u8>, pos: int, st: LfnState, begin: int) -> Step
    decreases bytes.len() - pos,
{
    if pos < 0 || pos + 32 > bytes.len() {
        Step::Fail
    } else {
        let slot = bytes.subrange(pos, pos + 32);
        if slot_is_lfn(slot) {
            if slot_is_free(slot) {
                read_entry(bytes, pos + 32, st.cleared(), pos + 32)
            } else {
                read_entry(
                    bytes,
                    pos + 32,
                    st.processed(slot[0], slot[13], slot_lfn_units(slot)),
                    begin,
                )
            }
        } else if slot_is_end(slot) {
            Step::End
        } else if slot_is_free(slot) || slot_is_volume_id(slot) {
            read_entry(bytes, pos + 32, st.cleared(), pos + 32)
        } else {
            Step::Entry(
                EntryView {
                    slot,
                    lfn: st.validated(slot.subrange(0, 11)).name(),
                    begin,
                    end: pos + 32,
                },
            )
        }
    }
}

/// The logical entry that starts at or after `pos`.
pub open spec fn next_entry(bytes: Seq<u8>, pos: int) -> Step {
    read_entry(bytes, pos, LfnState::empty(), pos)
}

/// The logical entries from `pos` on, in their order, up to the end mark or
/// the end of the bytes.
pub open spec fn entries_from(bytes: Seq<u8>, pos: int) -> Seq<EntryView>
    decreases bytes.len() - pos,
{
    match next_entry(bytes, pos) {
        Step::Entry(e) => if pos < e.end <= bytes.len() {
            seq![e] + entries_from(bytes, e.end)
        } else {
            seq![e]
        },
        _ => Seq::empty(),
    }
}

/// The logical entries of a directory.
pub open spec fn entries(bytes: Seq<u8>) -> Seq<EntryView> {
    entries_from(bytes, 0)
}

/// Searches the entries from `pos` on for the first whose name is `name`, the
/// case of ASCII letters left aside. The search fails with `NotFound` at the
/// end mark and with `CorruptedDirectory` at the end of the bytes.
pub open spec fn find_from(bytes: Seq<u8>, pos: int, name: Seq<char>) -> Result<EntryView, Error>
    decreases bytes.len() - pos,
{
    match next_entry(bytes, pos) {
        Step::Entry(e) => if same_ignoring_ascii_case(e.file_name(), name) {
            Ok(e)
        } else if pos < e.end <= bytes.len() {
            find_from(bytes, e.end, name)
        } else {
            Err(Error::CorruptedDirectory)
        },
        Step::End => Err(Error::NotFound),
        Step::Fail => Err(Error::CorruptedDirectory),
    }
}

/// A name is `.` or `..`.
pub open spec fn is_dot_name(name: Seq<char>) -> bool {
    name == seq!['.'] || name == seq!['.', '.']
}

/// Whether the entries from `pos` on are all named `.` or `..`. The answer is
/// `false` at the first entry with another name, `true` at the end mark, and
/// there is none where the bytes end before either.
pub open spec fn only_dots_from(bytes: Seq<u8>, pos: int) -> Result<bool, Error>
    decreases bytes.len() - pos,
{
    match next_entry(bytes, pos) {
        Step::Entry(e) => if !is_dot_name(e.file_name()) {
            Ok(false)
        } else if pos < e.end <= bytes.len() {
            only_dots_from(bytes, e.end)
        } else {
            Err(Error::CorruptedDirectory)
        },
        Step::End => Ok(true),
        Step::Fail => Err(Error::CorruptedDirectory),
    }
}

/// What is known of the entry that a reading gives: its short slot is the
/// slot just before its end, it is live, and its range lies between the
/// start of the reading and its end.
pub proof fn lemma_read_entry(bytes: Seq<u8>, pos: int, st: LfnState, begin: int)
    requires
        0 <= begin <= pos,
    ensures
        read_entry(bytes, pos, st, begin) is Entry ==> {
            let e = read_entry(bytes, pos, st, begin)->Entry_0;
            &&& begin <= e.begin
            &&& e.begin + 32 <= e.end
            &&& pos + 32 <= e.end <= bytes.len()
            &&& e.slot == bytes.subrange(e.end - 32, e.end)
            &&& !slot_is_lfn(e.slot)
            &&& !slot_is_end(e.slot)
            &&& !slot_is_free(e.slot)
            &&& !slot_is_volume_id(e.slot)
        },
    decreases bytes.len() - pos,
{
    if !(pos < 0 || pos + 32 > bytes.len()) {
        let slot = bytes.subrange(pos, pos + 32);
        if slot_is_lfn(slot) {
            if slot_is_free(slot) {
                lemma_read_entry(bytes, pos + 32, st.cleared(), pos + 32);
            } else {
                lemma_read_entry(
                    bytes,
                    pos + 32,
                    st.processed(slot[0], slot[13], slot_lfn_units(slot)),
                    begin,
                );
            }
        } else if slot_is_end(slot) {
        } else if slot_is_free(slot) || slot_is_volume_id(slot) {
            lemma_read_entry(bytes, pos + 32, st.cleared(), pos + 32);
        }
    }
}


/// The first byte of slot `k`.
pub open spec fn first_byte(bytes: Seq<u8>, k: int) -> u8 {
    bytes[32 * k]
}

/// The slots from `s` on, `n` of them, all lie within the bytes and are marked free.
pub open spec fn free_run(bytes: Seq<u8>, s: int, n: int) -> bool {
    &&& 32 * (s + n) <= bytes.len()
    &&& forall|k: int| s <= k < s + n ==> #[trigger] first_byte(bytes, k) == 0xE5
}

/// No slot before `s` starts with the end mark.
pub open spec fn no_end_before(bytes: Seq<u8>, s: int) -> bool {
    forall|k: int| 0 <= k < s ==> #[trigger] first_byte(bytes, k) != 0
}

/// A run of free slots starts at `s`: the slot before it, if any, is not free.
pub open spec fn run_start(bytes: Seq<u8>, s: int) -> bool {
    s == 0 || first_byte(bytes, s - 1) != 0xE5
}

/// The free slots from `s` on reach a slot that starts with the end mark
/// before there are `num` of them.
pub open spec fn reaches_end(bytes: Seq<u8>, s: int, num: int) -> bool {
    exists|t: int|
        s <= t < s + num && 32 * (t + 1) <= bytes.len() && free_run(bytes, s, t - s)
            && #[trigger] first_byte(bytes, t) == 0
}

/// There is room for `num` slots at slot `s`: no end mark stands before `s`, a
/// run of free slots starts there, and it either has `num` slots or reaches
/// the end mark, behind which every slot counts as free.
pub open spec fn room_at(bytes: Seq<u8>, s: int, num: int) -> bool {
    &&& 0 <= s
    &&& run_start(bytes, s)
    &&& no_end_before(bytes, s)
    &&& free_run(bytes, s, num) || reaches_end(bytes, s, num)
}

/// `s` is the first slot with room for `num` slots.
pub open spec fn first_room(bytes: Seq<u8>, s: int, num: int) -> bool {
    &&& room_at(bytes, s, num)
    &&& forall|r: int| 0 <= r < s ==> !room_at(bytes, r, num)
}


/// After a live slot `i`, no slot from `lo` to `i` has room, where the slots
/// from `lo` up to `i` are a run of fewer than `num` free slots (or `lo` is `i`).
pub proof fn lemma_no_room_up_to_live(bytes: Seq<u8>, lo: int, i: int, num: int)
    requires
        0 <= lo <= i,
        num >= 1,
        i - lo < num,
        32 * (i + 1) <= bytes.len(),
        first_byte(bytes, i) != 0xE5,
        first_byte(bytes, i) != 0,
        forall|k: int| lo <= k < i ==> #[trigger] first_byte(bytes, k) == 0xE5,
    ensures
        forall|r: int| lo <= r <= i ==> !room_at(bytes, r, num),
{
    assert forall|r: int| lo <= r <= i implies !room_at(bytes, r, num) by {
        if r > lo {
            assert(first_byte(bytes, r - 1) == 0xE5);
        } else {
            if free_run(bytes, r, num) {
                assert(first_byte(bytes, i) == 0xE5);
            }
            if reaches_end(bytes, r, num) {
                let t = choose|t: int|
                    r <= t < r + num && 32 * (t + 1) <= bytes.len() && free_run(bytes, r, t - r)
                        && #[trigger] first_byte(bytes, t) == 0;
                if t < i {
                    assert(first_byte(bytes, t) == 0xE5);
                } else if t > i {
                    assert(first_byte(bytes, i) == 0xE5);
                }
            }
        }
    }
}

/// Where the bytes end behind slot `i - 1`, no slot from `lo` on has room, where
/// the slots from `lo` up to `i` are a run of fewer than `num` free slots (or
/// `lo` is `i`).
pub proof fn lemma_no_room_at_end(bytes: Seq<u8>, lo: int, i: int, num: int)
    requires
        0 <= lo <= i,
        num >= 1,
        i - lo < num,
        32 * i <= bytes.len() < 32 * (i + 1),
        forall|k: int| lo <= k < i ==> #[trigger] first_byte(bytes, k) == 0xE5,
    ensures
        forall|r: int| lo <= r ==> !room_at(bytes, r, num),
{
    assert forall|r: int| lo <= r implies !room_at(bytes, r, num) by {
        if lo < r <= i {
            assert(first_byte(bytes, r - 1) == 0xE5);
        } else {
            if reaches_end(bytes, r, num) {
                let t = choose|t: int|
                    r <= t < r + num && 32 * (t + 1) <= bytes.len() && free_run(bytes, r, t - r)
                        && #[trigger] first_byte(bytes, t) == 0;
                if t < i {
                    assert(first_byte(bytes, t) == 0xE5);
                }
            }
        }
    }
}


/// A group of `num` slots is placed at slot `s`: the first slot with room for
/// it, from which on the bytes hold `num` slots.
pub open spec fn placed_at(bytes: Seq<u8>, s: int, num: int) -> bool {
    first_room(bytes, s, num) && 32 * (s + num) <= bytes.len()
}

/// A group of `num` slots can be placed nowhere.
pub open spec fn no_place(bytes: Seq<u8>, num: int) -> bool {
    forall|s: int| !placed_at(bytes, s, num)
}

/// Where there is room at slot `s`, the slot lies within the bytes.
pub proof fn lemma_room_within(bytes: Seq<u8>, s: int, num: int)
    requires
        room_at(bytes, s, num),
        num >= 1,
    ensures
        32 * (s + 1) <= bytes.len(),
{
}

/// There is one first slot with room at most.
pub proof fn lemma_first_room_unique(bytes: Seq<u8>, s: int, num: int)
    requires
        first_room(bytes, s, num),
    ensures
        forall|r: int| first_room(bytes, r, num) ==> r == s,
{
}


/// The bytes of a directory after the slots of the range from `a` to `b` were
/// marked free: the first byte of each is the free flag, all else is as it was.
pub open spec fn freed(bytes: Seq<u8>, a: int, b: int) -> Seq<u8> {
    Seq::new(
        bytes.len(),
        |i: int|
            if a <= i < b && (i - a) % 32 == 0 {
                0xE5u8
            } else {
                bytes[i]
            },
    )
}

/// What is known of the range of an entry that a reading from a slot
/// boundary gives: it is a whole number of slots.
pub proof fn lemma_read_entry_range(bytes: Seq<u8>, pos: int, st: LfnState, begin: int)
    requires
        0 <= begin <= pos,
        begin % 32 == 0,
        pos % 32 == 0,
    ensures
        read_entry(bytes, pos, st, begin) is Entry ==> {
            let e = read_entry(bytes, pos, st, begin)->Entry_0;
            &&& e.begin % 32 == 0
            &&& e.end % 32 == 0
        },
    decreases bytes.len() - pos,
{
    if !(pos < 0 || pos + 32 > bytes.len()) {
        let slot = bytes.subrange(pos, pos + 32);
        if slot_is_lfn(slot) {
            if slot_is_free(slot) {
                lemma_read_entry_range(bytes, pos + 32, st.cleared(), pos + 32);
            } else {
                lemma_read_entry_range(
                    bytes,
                    pos + 32,
                    st.processed(slot[0], slot[13], slot_lfn_units(slot)),
                    begin,
                );
            }
        } else if slot_is_end(slot) {
        } else if slot_is_free(slot) || slot_is_volume_id(slot) {
            lemma_read_entry_range(bytes, pos + 32, st.cleared(), pos + 32);
        }
    }
}

/// What is known of an entry that a search from a slot boundary finds: its
/// range is a whole number of slots within the bytes, the last of them its
/// live short slot, and its name is the one looked for.
pub proof fn lemma_find_from(bytes: Seq<u8>, pos: int, name: Seq<char>)
    requires
        0 <= pos,
        pos % 32 == 0,
    ensures
        find_from(bytes, pos, name) is Ok ==> {
            let e = find_from(bytes, pos, name)->Ok_0;
            &&& pos <= e.begin
            &&& e.begin + 32 <= e.end <= bytes.len()
            &&& e.begin % 32 == 0
            &&& e.end % 32 == 0
            &&& (e.end - e.begin) % 32 == 0
            &&& e.slot == bytes.subrange(e.end - 32, e.end)
            &&& !slot_is_lfn(e.slot)
            &&& !slot_is_end(e.slot)
            &&& !slot_is_free(e.slot)
            &&& !slot_is_volume_id(e.slot)
            &&& same_ignoring_ascii_case(e.file_name(), name)
        },
    decreases bytes.len() - pos,
{
    lemma_read_entry(bytes, pos, LfnState::empty(), pos);
    lemma_read_entry_range(bytes, pos, LfnState::empty(), pos);
    match next_entry(bytes, pos) {
        Step::Entry(e) => {
            if !same_ignoring_ascii_case(e.file_name(), name) && pos < e.end <= bytes.len() {
                lemma_find_from(bytes, e.end, name);
            } else {
                assert((e.end - e.begin) % 32 == 0) by {
                    vstd::arithmetic::div_mod::lemma_sub_mod_noop(e.end, e.begin, 32);
                }
            }
        },
        _ => {},
    }
}


/// Slot `k` of a directory.
pub open spec fn slot_of(bytes: Seq<u8>, k: int) -> Seq<u8> {
    bytes.subrange(32 * k, 32 * k + 32)
}

/// Slot `k` is the end mark: a short slot whose first byte is zero.
pub open spec fn is_end_mark(bytes: Seq<u8>, k: int) -> bool {
    !slot_is_lfn(slot_of(bytes, k)) && slot_is_end(slot_of(bytes, k))
}

/// Slot `k` is the short slot of a live entry: neither a fragment of a long
/// name, nor the end mark, nor free, nor a volume id.
pub open spec fn is_live_entry(bytes: Seq<u8>, k: int) -> bool {
    &&& !slot_is_lfn(slot_of(bytes, k))
    &&& !slot_is_end(slot_of(bytes, k))
    &&& !slot_is_free(slot_of(bytes, k))
    &&& !slot_is_volume_id(slot_of(bytes, k))
}

/// No slot from `lo` up to `hi` is the end mark.
pub open spec fn no_mark_in(bytes: Seq<u8>, lo: int, hi: int) -> bool {
    forall|k: int| lo <= k < hi ==> !(#[trigger] is_end_mark(bytes, k))
}

/// No slot from `lo` up to `hi` is the short slot of a live entry.
pub open spec fn no_live_in(bytes: Seq<u8>, lo: int, hi: int) -> bool {
    forall|k: int| lo <= k < hi ==> !(#[trigger] is_live_entry(bytes, k))
}

/// How a reading from slot `k` on ends: at the first slot that is the short
/// slot of a live entry or the end mark, and by failing where the bytes hold
/// neither.
pub proof fn lemma_read_entry_stops(bytes: Seq<u8>, k: int, st: LfnState, begin: int)
    requires
        0 <= k,
    ensures
        match read_entry(bytes, 32 * k, st, begin) {
            Step::Entry(e) => exists|m: int|
                {
                    &&& k <= m
                    &&& e.end == 32 * (m + 1)
                    &&& e.end <= bytes.len()
                    &&& #[trigger] is_live_entry(bytes, m)
                    &&& no_mark_in(bytes, k, m)
                    &&& no_live_in(bytes, k, m)
                },
            Step::End => exists|m: int|
                {
                    &&& k <= m
                    &&& 32 * (m + 1) <= bytes.len()
                    &&& #[trigger] is_end_mark(bytes, m)
                    &&& no_mark_in(bytes, k, m)
                    &&& no_live_in(bytes, k, m)
                },
            Step::Fail => forall|m: int|
                k <= m && 32 * (m + 1) <= bytes.len() ==> !(#[trigger] is_end_mark(bytes, m))
                    && !is_live_entry(bytes, m),
        },
    decreases bytes.len() - 32 * k,
{
    let pos = 32 * k;
    if pos + 32 > bytes.len() {
    } else {
        let slot = bytes.subrange(pos, pos + 32);
        assert(slot == slot_of(bytes, k));
        let skipped = slot_is_lfn(slot) || (!slot_is_end(slot) && (slot_is_free(slot)
            || slot_is_volume_id(slot)));
        if skipped {
            let st2 = if slot_is_lfn(slot) && !slot_is_free(slot) {
                st.processed(slot[0], slot[13], slot_lfn_units(slot))
            } else {
                st.cleared()
            };
            let begin2 = if slot_is_lfn(slot) && !slot_is_free(slot) {
                begin
            } else {
                pos + 32
            };
            lemma_read_entry_stops(bytes, k + 1, st2, begin2);
            assert(read_entry(bytes, pos, st, begin) == read_entry(bytes, 32 * (k + 1), st2, begin2));
            assert(!is_end_mark(bytes, k) && !is_live_entry(bytes, k));
            match read_entry(bytes, pos, st, begin) {
                Step::Entry(e) => {
                    let m = choose|m: int|
                        {
                            &&& k + 1 <= m
                            &&& e.end == 32 * (m + 1)
                            &&& e.end <= bytes.len()
                            &&& #[trigger] is_live_entry(bytes, m)
                            &&& no_mark_in(bytes, k + 1, m)
                            &&& no_live_in(bytes, k + 1, m)
                        };
                    assert(no_mark_in(bytes, k, m));
                    assert(no_live_in(bytes, k, m));
                    assert(is_live_entry(bytes, m));
                },
                Step::End => {
                    let m = choose|m: int|
                        {
                            &&& k + 1 <= m
                            &&& 32 * (m + 1) <= bytes.len()
                            &&& #[trigger] is_end_mark(bytes, m)
                            &&& no_mark_in(bytes, k + 1, m)
                            &&& no_live_in(bytes, k + 1, m)
                        };
                    assert(no_mark_in(bytes, k, m));
                    assert(no_live_in(bytes, k, m));
                    assert(is_end_mark(bytes, m));
                },
                Step::Fail => {
                    assert forall|m: int|
                        k <= m && 32 * (m + 1) <= bytes.len() implies !(#[trigger] is_end_mark(
                        bytes,
                        m,
                    )) && !is_live_entry(bytes, m) by {
                        if m > k {
                            assert(k + 1 <= m);
                        }
                    }
                },
            }
        } else if slot_is_end(slot) {
            assert(is_end_mark(bytes, k));
            assert(no_mark_in(bytes, k, k));
            assert(no_live_in(bytes, k, k));
        } else {
            assert(is_live_entry(bytes, k));
            assert(no_mark_in(bytes, k, k));
            assert(no_live_in(bytes, k, k));
        }
    }
}

} // verus!

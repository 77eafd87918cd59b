use crate::entry::EntryView;
use crate::lfn::LfnState;
use crate::raw::{slot_is_end, slot_is_free, slot_is_lfn, slot_is_volume_id, slot_lfn_units};
use crate::scan::{find_from, freed, lemma_read_entry, lemma_read_entry_range, next_entry, read_entry, Step};
use crate::text::same_ignoring_ascii_case;
use vstd::prelude::*;

verus! {

/// Two states of the assembler from which every reading goes the same way:
/// they are equal, or neither has a sequence under way.
pub open spec fn alike(a: LfnState, b: LfnState) -> bool {
    a == b || (a.index == 0 && b.index == 0 && a.buf == b.buf)
}

/// From states that are alike, a reading gives the same.
pub proof fn lemma_alike_states(bytes: Seq<u8>, pos: int, a: LfnState, b: LfnState, begin: int)
    requires
        alike(a, b),
    ensures
        read_entry(bytes, pos, a, begin) == read_entry(bytes, pos, b, begin),
    decreases bytes.len() - pos,
{
    if !(pos < 0 || pos + 32 > bytes.len()) {
        let slot = bytes.subrange(pos, pos + 32);
        if slot_is_lfn(slot) {
            if slot_is_free(slot) {
                lemma_alike_states(bytes, pos + 32, a.cleared(), b.cleared(), pos + 32);
            } else {
                let a2 = a.processed(slot[0], slot[13], slot_lfn_units(slot));
                let b2 = b.processed(slot[0], slot[13], slot_lfn_units(slot));
                assert(alike(a2, b2));
                lemma_alike_states(bytes, pos + 32, a2, b2, begin);
            }
        } else if slot_is_end(slot) {
        } else if slot_is_free(slot) || slot_is_volume_id(slot) {
            lemma_alike_states(bytes, pos + 32, a.cleared(), b.cleared(), pos + 32);
        } else {
            let name = slot.subrange(0, 11);
            assert(a.validated(name).name() == b.validated(name).name());
        }
    }
}

/// Two sequences of bytes hold the same from `lo` up to `hi`.
pub open spec fn agree(x: Seq<u8>, y: Seq<u8>, lo: int, hi: int) -> bool {
    &&& x.len() == y.len()
    &&& forall|i: int| lo <= i < hi ==> x[i] == y[i]
}

/// A reading sees only the bytes up to its end: where two sequences agree
/// from `pos` up to `hi`, a reading from `pos` that ends with an entry within
/// `hi` gives the same in both, and so does every reading where `hi` is the
/// end of the bytes.
pub proof fn lemma_read_agree(
    x: Seq<u8>,
    y: Seq<u8>,
    pos: int,
    st: LfnState,
    begin: int,
    hi: int,
)
    requires
        0 <= begin <= pos,
        agree(x, y, pos, hi),
        hi <= x.len(),
    ensures
        hi == x.len() ==> read_entry(y, pos, st, begin) == read_entry(x, pos, st, begin),
        read_entry(x, pos, st, begin) is Entry && read_entry(x, pos, st, begin)->Entry_0.end <= hi
            ==> read_entry(y, pos, st, begin) == read_entry(x, pos, st, begin),
    decreases x.len() - pos,
{
    lemma_read_entry(x, pos, st, begin);
    if !(pos + 32 > x.len()) && pos + 32 <= hi {
        let slot = x.subrange(pos, pos + 32);
        assert(slot =~= y.subrange(pos, pos + 32));
        if slot_is_lfn(slot) {
            if slot_is_free(slot) {
                lemma_read_agree(x, y, pos + 32, st.cleared(), pos + 32, hi);
            } else {
                lemma_read_agree(
                    x,
                    y,
                    pos + 32,
                    st.processed(slot[0], slot[13], slot_lfn_units(slot)),
                    begin,
                    hi,
                );
            }
        } else if slot_is_end(slot) {
        } else if slot_is_free(slot) || slot_is_volume_id(slot) {
            lemma_read_agree(x, y, pos + 32, st.cleared(), pos + 32, hi);
        }
    }
}

/// Where two sequences agree from `pos` to their end, a search from `pos`
/// gives the same in both.
pub proof fn lemma_find_agree(x: Seq<u8>, y: Seq<u8>, pos: int, name: Seq<char>)
    requires
        0 <= pos,
        agree(x, y, pos, x.len() as int),
    ensures
        find_from(y, pos, name) == find_from(x, pos, name),
    decreases x.len() - pos,
{
    lemma_read_agree(x, y, pos, LfnState::empty(), pos, x.len() as int);
    lemma_read_entry(x, pos, LfnState::empty(), pos);
    match next_entry(x, pos) {
        Step::Entry(e) => {
            if !same_ignoring_ascii_case(e.file_name(), name) && pos < e.end <= x.len() {
                lemma_find_agree(x, y, e.end, name);
            }
        },
        _ => {},
    }
}

/// Two readings that give the same continue a search alike.
pub proof fn lemma_find_resumes(bytes: Seq<u8>, p: int, q: int, name: Seq<char>)
    requires
        0 <= p <= q,
        next_entry(bytes, p) == next_entry(bytes, q),
    ensures
        find_from(bytes, p, name) == find_from(bytes, q, name),
{
    lemma_read_entry(bytes, p, LfnState::empty(), p);
    lemma_read_entry(bytes, q, LfnState::empty(), q);
}

/// The first byte of the slot that lies `k` slots behind the offset `a`.
pub open spec fn marker(bytes: Seq<u8>, a: int, k: int) -> u8 {
    bytes[a + 32 * k]
}

/// A reading passes over slots that are marked free: from `pos`, where each
/// of the next `count` slots is marked free, it gives what a reading from
/// behind those slots gives.
pub proof fn lemma_skip_free(bytes: Seq<u8>, pos: int, st: LfnState, begin: int, count: int)
    requires
        0 <= pos,
        1 <= count,
        pos + 32 * count <= bytes.len(),
        forall|k: int| 0 <= k < count ==> #[trigger] marker(bytes, pos, k) == 0xE5,
    ensures
        read_entry(bytes, pos, st, begin) == next_entry(bytes, pos + 32 * count),
    decreases count,
{
    let slot = bytes.subrange(pos, pos + 32);
    assert(slot[0] == marker(bytes, pos, 0));
    assert(slot_is_free(slot));
    assert(!slot_is_end(slot));
    assert(read_entry(bytes, pos, st, begin) == read_entry(
        bytes,
        pos + 32,
        st.cleared(),
        pos + 32,
    ));
    if count > 1 {
        assert forall|k: int| 0 <= k < count - 1 implies #[trigger] marker(bytes, pos + 32, k)
            == 0xE5 by {
            assert(marker(bytes, pos + 32, k) == marker(bytes, pos, k + 1));
        }
        lemma_skip_free(bytes, pos + 32, st.cleared(), pos + 32, count - 1);
    } else {
        assert(st.cleared().buf =~= LfnState::empty().buf);
        lemma_alike_states(bytes, pos + 32, st.cleared(), LfnState::empty(), pos + 32);
    }
}

/// After the slots of a range were marked free, each of them starts with the
/// free flag and every other byte is as it was.
pub proof fn lemma_freed(bytes: Seq<u8>, a: int, count: int)
    requires
        0 <= a,
        0 <= count,
        a + 32 * count <= bytes.len(),
    ensures
        freed(bytes, a, a + 32 * count).len() == bytes.len(),
        forall|k: int|
            0 <= k < count ==> #[trigger] marker(freed(bytes, a, a + 32 * count), a, k) == 0xE5,
        agree(bytes, freed(bytes, a, a + 32 * count), 0, a),
        agree(bytes, freed(bytes, a, a + 32 * count), a + 32 * count, bytes.len() as int),
        forall|i: int|
            a <= i < a + 32 * count && (i - a) % 32 != 0 ==> freed(bytes, a, a + 32 * count)[i]
                == bytes[i],
{
    assert forall|k: int| 0 <= k < count implies #[trigger] marker(
        freed(bytes, a, a + 32 * count),
        a,
        k,
    ) == 0xE5 by {
        vstd::arithmetic::div_mod::lemma_mod_multiples_basic(k, 32);
        assert((a + 32 * k - a) % 32 == 0);
    }
}

/// After the slots of an entry were marked free, the reading that gave the
/// entry gives what the reading behind the entry gives. `gap` is the number
/// of slots from `pos` to the start of the entry and `count` the number of
/// slots of the entry.
pub proof fn lemma_removed_entry_skipped(
    bytes: Seq<u8>,
    pos: int,
    st: LfnState,
    begin: int,
    e: EntryView,
    gap: int,
    count: int,
)
    requires
        0 <= begin <= pos,
        read_entry(bytes, pos, st, begin) == Step::Entry(e),
        e.begin - pos == 32 * gap,
        e.end - e.begin == 32 * count,
    ensures
        read_entry(freed(bytes, e.begin, e.end), pos, st, begin) == next_entry(
            freed(bytes, e.begin, e.end),
            e.end,
        ),
    decreases bytes.len() - pos,
{
    let after = freed(bytes, e.begin, e.end);
    lemma_read_entry(bytes, pos, st, begin);
    lemma_freed(bytes, e.begin, count);
    if gap <= 0 {
        assert forall|k: int| 0 <= k < count + gap implies #[trigger] marker(after, pos, k)
            == 0xE5 by {
            assert(marker(after, pos, k) == marker(after, e.begin, k - gap));
        }
        lemma_skip_free(after, pos, st, begin, count + gap);
    } else {
        let slot = bytes.subrange(pos, pos + 32);
        assert(slot =~= after.subrange(pos, pos + 32));
        if slot_is_lfn(slot) {
            if slot_is_free(slot) {
                lemma_removed_entry_skipped(
                    bytes,
                    pos + 32,
                    st.cleared(),
                    pos + 32,
                    e,
                    gap - 1,
                    count,
                );
            } else {
                lemma_removed_entry_skipped(
                    bytes,
                    pos + 32,
                    st.processed(slot[0], slot[13], slot_lfn_units(slot)),
                    begin,
                    e,
                    gap - 1,
                    count,
                );
            }
        } else if slot_is_end(slot) {
        } else if slot_is_free(slot) || slot_is_volume_id(slot) {
            lemma_removed_entry_skipped(
                bytes,
                pos + 32,
                st.cleared(),
                pos + 32,
                e,
                gap - 1,
                count,
            );
        }
    }
}

/// What a search finds after the first entry with the name `name` was
/// removed: for a name that differs from `name` in more than the case of
/// ASCII letters, what it found before; for any other, what a search behind
/// the removed entry found before.
pub proof fn lemma_find_after_removal(
    bytes: Seq<u8>,
    pos: int,
    name: Seq<char>,
    n: Seq<char>,
    e: EntryView,
)
    requires
        0 <= pos,
        pos % 32 == 0,
        find_from(bytes, pos, name) == Ok::<EntryView, crate::error::Error>(e),
    ensures
        same_ignoring_ascii_case(n, name) ==> find_from(freed(bytes, e.begin, e.end), pos, n)
            == find_from(bytes, e.end, n),
        !same_ignoring_ascii_case(n, name) ==> find_from(freed(bytes, e.begin, e.end), pos, n)
            == find_from(bytes, pos, n),
    decreases bytes.len() - pos,
{
    let after = freed(bytes, e.begin, e.end);
    lemma_read_entry(bytes, pos, LfnState::empty(), pos);
    lemma_read_entry_range(bytes, pos, LfnState::empty(), pos);
    crate::scan::lemma_find_from(bytes, pos, name);
    let e1 = next_entry(bytes, pos)->Entry_0;
    if same_ignoring_ascii_case(e1.file_name(), name) {
        assert(e1 == e);
        let gap = (e.begin - pos) / 32;
        let count = (e.end - e.begin) / 32;
        lemma_removed_entry_skipped(bytes, pos, LfnState::empty(), pos, e, gap, count);
        lemma_freed(bytes, e.begin, count);
        lemma_read_agree(bytes, after, e.end, LfnState::empty(), e.end, bytes.len() as int);
        lemma_find_resumes(after, pos, e.end, n);
        lemma_find_agree(bytes, after, e.end, n);
        if same_ignoring_ascii_case(e.file_name(), n) {
            crate::text::lemma_matched_names_are_same(e.file_name(), n, name);
        }
    } else {
        crate::scan::lemma_find_from(bytes, e1.end, name);
        lemma_freed(bytes, e.begin, (e.end - e.begin) / 32);
        assert(agree(bytes, after, pos, e1.end));
        lemma_read_agree(bytes, after, pos, LfnState::empty(), pos, e1.end);
        assert(next_entry(after, pos) == Step::Entry(e1));
        lemma_find_after_removal(bytes, e1.end, name, n, e);
        if same_ignoring_ascii_case(n, name) {
            crate::text::lemma_same_names_match_alike(e1.file_name(), n, name);
        }
    }
}

} // verus!

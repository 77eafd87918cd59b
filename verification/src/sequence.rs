use crate::entry::EntryView;
use crate::lfn::{checksum_of, overlaid, resized, without_padding, LfnState};
use crate::raw::{slot_is_free, slot_is_lfn, slot_lfn_units};
use crate::scan::{is_live_entry, read_entry, slot_of, Step};
use vstd::prelude::*;

verus! {

/// Slot `s + k` is the fragment `k` of a whole sequence of `n` fragments for
/// the short slot behind them: a long-name slot that is not free, with the
/// index `n - k`, the last-flag if and only if it is the first of the
/// sequence, and the checksum `chksum`.
pub open spec fn is_fragment(bytes: Seq<u8>, s: int, n: int, k: int, chksum: u8) -> bool {
    let slot = slot_of(bytes, s + k);
    &&& slot_is_lfn(slot)
    &&& !slot_is_free(slot)
    &&& slot[0] & 0x1F == n - k
    &&& (slot[0] & 0x40 != 0) == (k == 0)
    &&& slot[13] == chksum
}

/// The slots from `s` on are a whole sequence of `n` fragments and the short
/// slot of a live entry: the indices of the fragments count down from `n` to
/// 1, the first alone has the last-flag, and all carry the checksum of the
/// short name.
pub open spec fn is_whole_sequence(bytes: Seq<u8>, s: int, n: int) -> bool {
    &&& 0 <= s
    &&& 1 <= n
    &&& 32 * (s + n + 1) <= bytes.len()
    &&& is_live_entry(bytes, s + n)
    &&& forall|k: int|
        0 <= k < n ==> #[trigger] is_fragment(
            bytes,
            s,
            n,
            k,
            checksum_of(slot_of(bytes, s + n).subrange(0, 11)),
        )
}

/// The code units of a sequence of `n` fragments from slot `s` on, in the
/// order of the name: the fragment that comes last in the stream holds the
/// first 13.
pub open spec fn sequence_units(bytes: Seq<u8>, s: int, n: int) -> Seq<u16> {
    Seq::new(
        (13 * n) as nat,
        |p: int| slot_lfn_units(slot_of(bytes, s + (n - 1 - p / 13)))[p % 13],
    )
}

/// The entry that a whole sequence stands for: its long name is made of the
/// code units of the fragments, without the padding at their end.
pub open spec fn sequence_entry(bytes: Seq<u8>, s: int, n: int, begin: int) -> EntryView {
    EntryView {
        slot: slot_of(bytes, s + n),
        lfn: without_padding(sequence_units(bytes, s, n)),
        begin,
        end: 32 * (s + n + 1),
    }
}

/// A reading that has taken in the first `k` fragments of a whole sequence
/// gives the entry of the sequence.
pub proof fn lemma_reads_sequence(
    bytes: Seq<u8>,
    s: int,
    n: int,
    k: int,
    st: LfnState,
    begin: int,
)
    requires
        is_whole_sequence(bytes, s, n),
        1 <= k <= n,
        st.index == n - k + 1,
        st.chksum == checksum_of(slot_of(bytes, s + n).subrange(0, 11)),
        st.buf.len() == 13 * n,
        forall|p: int|
            13 * (n - k) <= p < 13 * n ==> #[trigger] st.buf[p] == sequence_units(bytes, s, n)[p],
    ensures
        read_entry(bytes, 32 * (s + k), st, begin) == Step::Entry(
            sequence_entry(bytes, s, n, begin),
        ),
    decreases n - k,
{
    let pos = 32 * (s + k);
    let slot = bytes.subrange(pos, pos + 32);
    assert(slot == slot_of(bytes, s + k));
    let chksum = checksum_of(slot_of(bytes, s + n).subrange(0, 11));
    if k == n {
        assert(st.buf =~= sequence_units(bytes, s, n));
        assert(st.validated(slot.subrange(0, 11)) == st);
    } else {
        assert(is_fragment(bytes, s, n, k, chksum));
        let index: u8 = slot[0] & 0x1F;
        let part = slot_lfn_units(slot);
        let st2 = st.processed(slot[0], slot[13], part);
        assert(st2.index == index);
        assert(st2.buf == overlaid(st.buf, 13 * (index - 1), part));
        assert forall|p: int| 13 * (n - (k + 1)) <= p < 13 * n implies #[trigger] st2.buf[p]
            == sequence_units(bytes, s, n)[p] by {
            if p < 13 * (n - k) {
                vstd::arithmetic::div_mod::lemma_fundamental_div_mod_converse(
                    p,
                    13,
                    n - k - 1,
                    p - 13 * (n - k - 1),
                );
                assert(st2.buf[p] == part[p - 13 * (index - 1)]);
            } else {
                assert(st2.buf[p] == st.buf[p]);
            }
        }
        lemma_reads_sequence(bytes, s, n, k + 1, st2, begin);
    }
}

/// A reading that comes to the first slot of a whole sequence gives the
/// entry of the sequence, whatever it has taken in before.
pub proof fn lemma_reads_sequence_from_start(
    bytes: Seq<u8>,
    s: int,
    n: int,
    st: LfnState,
    begin: int,
)
    requires
        is_whole_sequence(bytes, s, n),
    ensures
        read_entry(bytes, 32 * s, st, begin) == Step::Entry(sequence_entry(bytes, s, n, begin)),
{
    let slot = bytes.subrange(32 * s, 32 * s + 32);
    assert(slot == slot_of(bytes, s + 0));
    let chksum = checksum_of(slot_of(bytes, s + n).subrange(0, 11));
    assert(is_fragment(bytes, s, n, 0, chksum));
    let index: u8 = slot[0] & 0x1F;
    let part = slot_lfn_units(slot);
    let st2 = st.processed(slot[0], slot[13], part);
    assert(st2.index == index);
    assert(st2.buf == overlaid(resized(st.buf, index * 13), 13 * (index - 1), part));
    assert forall|p: int| 13 * (n - 1) <= p < 13 * n implies #[trigger] st2.buf[p] == sequence_units(
        bytes,
        s,
        n,
    )[p] by {
        vstd::arithmetic::div_mod::lemma_fundamental_div_mod_converse(
            p,
            13,
            n - 1,
            p - 13 * (n - 1),
        );
        assert(st2.buf[p] == part[p - 13 * (index - 1)]);
    }
    assert(32 * (s + 1) == 32 * s + 32);
    lemma_reads_sequence(bytes, s, n, 1, st2, begin);
}

} // verus!

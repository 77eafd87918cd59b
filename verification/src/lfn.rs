use crate::raw::{DirLfnEntryData, LFN_ENTRY_LAST_FLAG, LFN_PART_LEN};
use vstd::prelude::*;

verus! {

/// One step of the long-file-name checksum: rotate right by one bit, then add
/// the next byte, modulo 256.
pub open spec fn checksum_step(c: u8, b: u8) -> u8 {
    (((if c % 2 == 1 {
        128int
    } else {
        0int
    }) + c / 2 + b) % 256) as u8
}

/// The checksum of a sequence of bytes, taken from the first byte to the last.
pub open spec fn checksum_of(bytes: Seq<u8>) -> u8
    decreases bytes.len(),
{
    if bytes.len() == 0 {
        0
    } else {
        checksum_step(checksum_of(bytes.drop_last()), bytes.last())
    }
}

/// The checksum that ties the fragments of a long name to the short name of
/// their entry, taken over the first 11 bytes of `short_name`.
pub fn lfn_checksum(short_name: &[u8]) -> (r: u8)
    requires
        short_name@.len() >= 11,
    ensures
        r == checksum_of(short_name@.subrange(0, 11)),
{
    let mut chksum: u8 = 0;
    let mut i: usize = 0;
    while i < 11
        invariant
            i <= 11,
            short_name@.len() >= 11,
            chksum == checksum_of(short_name@.subrange(0, i as int)),
        decreases 11 - i,
    {
        let carry: u16 = if chksum % 2 == 1 {
            0x80
        } else {
            0
        };
        let sum: u16 = carry + (chksum / 2) as u16 + short_name[i] as u16;
        proof {
            let next = short_name@.subrange(0, i + 1);
            assert(next.drop_last() =~= short_name@.subrange(0, i as int));
            assert(next.last() == short_name@[i as int]);
        }
        chksum = (sum % 256) as u8;
        i = i + 1;
    }
    chksum
}

/// `buf` cut or filled with zeros to the length `n`.
pub open spec fn resized(buf: Seq<u16>, n: int) -> Seq<u16> {
    Seq::new(
        n as nat,
        |i: int|
            if i < buf.len() {
                buf[i]
            } else {
                0u16
            },
    )
}

/// `buf` with `part` laid over it from `pos` on.
pub open spec fn overlaid(buf: Seq<u16>, pos: int, part: Seq<u16>) -> Seq<u16> {
    Seq::new(
        buf.len(),
        |i: int|
            if pos <= i < pos + part.len() {
                part[i - pos]
            } else {
                buf[i]
            },
    )
}

/// `buf` without the code units 0x0000 and 0xFFFF at its end.
pub open spec fn without_padding(buf: Seq<u16>) -> Seq<u16>
    decreases buf.len(),
{
    if buf.len() == 0 {
        buf
    } else if buf.last() == 0xFFFF || buf.last() == 0 {
        without_padding(buf.drop_last())
    } else {
        buf
    }
}

/// The state of the long-name assembler: the code units gathered so far, the
/// checksum that the sequence announced and the index of the fragment that
/// came last (0 when no sequence is under way).
pub struct LfnState {
    pub buf: Seq<u16>,
    pub chksum: u8,
    pub index: u8,
}

impl LfnState {
    /// The buffer has room for every fragment still to come.
    pub open spec fn wf(self) -> bool {
        &&& self.index * 13 <= self.buf.len()
        &&& self.index == 0 ==> self.buf.len() == 0
    }

    /// The state before any fragment.
    pub open spec fn empty() -> LfnState {
        LfnState { buf: Seq::empty(), chksum: 0, index: 0 }
    }

    /// The state after the sequence was given up.
    pub open spec fn cleared(self) -> LfnState {
        LfnState { buf: Seq::empty(), chksum: self.chksum, index: 0 }
    }

    /// The state after a fragment with the given order byte, checksum and code
    /// units. A fragment with the last-flag starts a sequence; any other must
    /// carry the index just below the one before it and the same checksum.
    pub open spec fn processed(self, order: u8, checksum: u8, units: Seq<u16>) -> LfnState {
        let index: u8 = order & 0x1F;
        if index == 0 {
            self.cleared()
        } else if order & LFN_ENTRY_LAST_FLAG != 0 {
            LfnState {
                buf: overlaid(resized(self.buf, index * 13), 13 * (index - 1), units),
                chksum: checksum,
                index,
            }
        } else if self.index == 0 || index != self.index - 1 || checksum != self.chksum {
            self.cleared()
        } else {
            LfnState {
                buf: overlaid(self.buf, 13 * (index - 1), units),
                chksum: self.chksum,
                index,
            }
        }
    }

    /// The state after the short name of the entry was seen: the sequence
    /// stands only if its checksum is that of the short name.
    pub open spec fn validated(self, short_name: Seq<u8>) -> LfnState {
        if checksum_of(short_name) != self.chksum {
            self.cleared()
        } else {
            self
        }
    }

    /// The long name: the gathered code units without their padding where
    /// every fragment has come, nothing otherwise.
    pub open spec fn name(self) -> Seq<u16> {
        if self.index == 1 {
            without_padding(self.buf)
        } else {
            Seq::empty()
        }
    }
}

/// Assembles a long file name from its fragments, which come last part first.
pub struct LongNameBuilder {
    buf: Vec<u16>,
    chksum: u8,
    index: u8,
}

impl View for LongNameBuilder {
    type V = LfnState;

    closed spec fn view(&self) -> LfnState {
        LfnState { buf: self.buf@, chksum: self.chksum, index: self.index }
    }
}

impl LongNameBuilder {
    pub fn new() -> (r: LongNameBuilder)
        ensures
            r@ == LfnState::empty(),
            r@.wf(),
    {
        LongNameBuilder { buf: Vec::<u16>::new(), chksum: 0, index: 0 }
    }

    pub fn clear(&mut self)
        ensures
            final(self)@ == old(self)@.cleared(),
            final(self)@.wf(),
    {
        self.buf.clear();
        self.index = 0;
    }

    pub fn to_vec(self) -> (r: Vec<u16>)
        ensures
            r@ == self@.name(),
    {
        let mut this = self;
        if this.index == 1 {
            this.truncate();
            this.buf
        } else {
            Vec::<u16>::new()
        }
    }

    /// Drops the padding code units 0x0000 and 0xFFFF from the end of the buffer.
    pub fn truncate(&mut self)
        ensures
            final(self)@ == (LfnState { buf: without_padding(old(self)@.buf), ..old(self)@ }),
    {
        let mut lfn_len: usize = self.buf.len();
        assert(self.buf@.subrange(0, lfn_len as int) =~= self.buf@);
        loop
            invariant
                lfn_len <= self.buf@.len(),
                *self == *old(self),
                without_padding(self.buf@) == without_padding(self.buf@.subrange(0, lfn_len as int)),
            ensures
                lfn_len <= self.buf@.len(),
                *self == *old(self),
                without_padding(self.buf@) == self.buf@.subrange(0, lfn_len as int),
            decreases lfn_len,
        {
            if lfn_len == 0 {
                break ;
            }
            let last: u16 = self.buf[lfn_len - 1];
            let ghost cur = self.buf@.subrange(0, lfn_len as int);
            if last == 0xFFFF || last == 0 {
                proof {
                    assert(cur.drop_last() =~= self.buf@.subrange(0, lfn_len - 1));
                }
                lfn_len = lfn_len - 1;
            } else {
                break ;
            }
        }
        self.buf.truncate(lfn_len);
    }

    /// Takes in one fragment.
    pub fn process(&mut self, data: &DirLfnEntryData)
        requires
            old(self)@.wf(),
        ensures
            final(self)@ == old(self)@.processed(data.order, data.checksum, data.units()),
            final(self)@.wf(),
    {
        let order: u8 = data.order;
        let is_last: bool = (order & LFN_ENTRY_LAST_FLAG) != 0;
        let index: u8 = order & 0x1F;
        assert(order & 0x1F <= 31) by (bit_vector);
        if index == 0 {
            self.clear();
            return ;
        }
        if is_last {
            self.index = index;
            self.chksum = data.checksum;
            self.buf.resize(index as usize * LFN_PART_LEN, 0);
            assert(self.buf@ =~= resized(old(self)@.buf, index * 13));
        } else if self.index == 0 || index != self.index - 1 || data.checksum != self.chksum {
            self.clear();
            return ;
        } else {
            self.index = self.index - 1;
        }
        let pos: usize = LFN_PART_LEN * (index - 1) as usize;
        let ghost base = self.buf@;
        let ghost units = data.units();
        let mut i: usize = 0;
        while i < 5
            invariant
                i <= 5,
                pos <= 13 * 31,
                pos + 13 <= self.buf@.len(),
                self.buf@.len() == base.len(),
                self.index == index,
                self.chksum == (if is_last { data.checksum } else { old(self).chksum }),
                units == data.units(),
                self.buf@ == overlaid(base, pos as int, units.subrange(0, i as int)),
            decreases 5 - i,
        {
            self.buf[pos + i] = data.name_0[i];
            i = i + 1;
            assert(self.buf@ =~= overlaid(base, pos as int, units.subrange(0, i as int)));
        }
        let mut j: usize = 0;
        while j < 6
            invariant
                j <= 6,
                pos <= 13 * 31,
                pos + 13 <= self.buf@.len(),
                self.buf@.len() == base.len(),
                self.index == index,
                self.chksum == (if is_last { data.checksum } else { old(self).chksum }),
                units == data.units(),
                self.buf@ == overlaid(base, pos as int, units.subrange(0, 5 + j)),
            decreases 6 - j,
        {
            self.buf[pos + 5 + j] = data.name_1[j];
            j = j + 1;
            assert(self.buf@ =~= overlaid(base, pos as int, units.subrange(0, 5 + j)));
        }
        let mut k: usize = 0;
        while k < 2
            invariant
                k <= 2,
                pos <= 13 * 31,
                pos + 13 <= self.buf@.len(),
                self.buf@.len() == base.len(),
                self.index == index,
                self.chksum == (if is_last { data.checksum } else { old(self).chksum }),
                units == data.units(),
                self.buf@ == overlaid(base, pos as int, units.subrange(0, 11 + k)),
            decreases 2 - k,
        {
            self.buf[pos + 11 + k] = data.name_2[k];
            k = k + 1;
            assert(self.buf@ =~= overlaid(base, pos as int, units.subrange(0, 11 + k)));
        }
        assert(units.subrange(0, 13) =~= units);
    }

    /// Gives the sequence up unless its checksum is that of `short_name`.
    pub fn validate_chksum(&mut self, short_name: &[u8])
        requires
            short_name@.len() >= 11,
        ensures
            final(self)@ == old(self)@.validated(short_name@.subrange(0, 11)),
            old(self)@.wf() ==> final(self)@.wf(),
    {
        let chksum: u8 = lfn_checksum(short_name);
        if chksum != self.chksum {
            self.clear();
        }
    }
}

} // verus!

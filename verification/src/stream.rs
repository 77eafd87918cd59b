use crate::error::Error;
use crate::raw::DirEntryData;
use vstd::prelude::*;

verus! {

/// What a directory stream is: its bytes, the place of each of its chunks on
/// the volume, whether it can grow, and where its cursor stands.
pub struct StreamView {
    pub bytes: Seq<u8>,
    pub chunk_len: nat,
    pub chunk_pos: Seq<u64>,
    pub growable: bool,
    pub pos: nat,
}

impl StreamView {
    /// The chunks are whole numbers of slots, they hold the bytes exactly, each
    /// lies within the volume's range of positions, and the cursor is not
    /// beyond the end.
    pub open spec fn wf(self) -> bool {
        &&& self.chunk_len > 0
        &&& self.chunk_len % 32 == 0
        &&& self.bytes.len() == self.chunk_pos.len() * self.chunk_len
        &&& forall|i: int|
            0 <= i < self.chunk_pos.len() ==> #[trigger] self.chunk_pos[i] + self.chunk_len
                <= u64::MAX
        &&& self.pos <= self.bytes.len()
        &&& self.bytes.len() <= usize::MAX
    }

    /// The position on the volume of the byte at `offset` of the stream.
    pub open spec fn abs_of(self, offset: int) -> int {
        self.chunk_pos[offset / (self.chunk_len as int)] + offset % (self.chunk_len as int)
    }

    /// The 32 bytes at `offset`.
    pub open spec fn slot_at(self, offset: int) -> Seq<u8> {
        self.bytes.subrange(offset, offset + 32)
    }
}

/// `bytes` with `part` written over it from `at` on.
pub open spec fn overwritten(bytes: Seq<u8>, at: int, part: Seq<u8>) -> Seq<u8> {
    Seq::new(
        bytes.len(),
        |i: int|
            if at <= i < at + part.len() {
                part[i - at]
            } else {
                bytes[i]
            },
    )
}

pub proof fn lemma_chunk_index(offset: int, chunk_len: int, chunks: int)
    requires
        0 <= offset < chunks * chunk_len,
        chunk_len > 0,
    ensures
        0 <= offset / chunk_len < chunks,
        0 <= offset % chunk_len < chunk_len,
{
    vstd::arithmetic::div_mod::lemma_fundamental_div_mod(offset, chunk_len);
    vstd::arithmetic::div_mod::lemma_mod_bound(offset, chunk_len);
    assert(0 <= offset / chunk_len < chunks) by (nonlinear_arith)
        requires
            0 <= offset < chunks * chunk_len,
            chunk_len > 0,
            offset == chunk_len * (offset / chunk_len) + offset % chunk_len,
            0 <= offset % chunk_len < chunk_len,
    ;
}

/// The bytes of one directory, held in memory as a seekable stream. The bytes
/// lie on the volume in chunks of one length: the clusters of a chain, or the
/// one fixed region of a FAT12/FAT16 root directory.
#[derive(Debug)]
pub struct DirRawStream {
    data: Vec<u8>,
    chunk_len: usize,
    chunk_pos: Vec<u64>,
    growable: bool,
    pos: usize,
}

impl View for DirRawStream {
    type V = StreamView;

    closed spec fn view(&self) -> StreamView {
        StreamView {
            bytes: self.data@,
            chunk_len: self.chunk_len as nat,
            chunk_pos: self.chunk_pos@,
            growable: self.growable,
            pos: self.pos as nat,
        }
    }
}

impl DirRawStream {
    /// A stream over `data`, which lies on the volume in chunks of `chunk_len`
    /// bytes at the positions `chunk_pos`. `None` where the chunks are not
    /// whole slots, do not hold `data` exactly or reach beyond the last position.
    pub fn new(data: Vec<u8>, chunk_len: usize, chunk_pos: Vec<u64>, growable: bool) -> (r: Option<
        DirRawStream,
    >)
        ensures
            r is Some <==> (StreamView {
                bytes: data@,
                chunk_len: chunk_len as nat,
                chunk_pos: chunk_pos@,
                growable,
                pos: 0,
            }).wf(),
            r is Some ==> r->Some_0@ == (StreamView {
                bytes: data@,
                chunk_len: chunk_len as nat,
                chunk_pos: chunk_pos@,
                growable,
                pos: 0,
            }),
    {
        if chunk_len == 0 || chunk_len % 32 != 0 {
            return None;
        }
        let chunks: usize = chunk_pos.len();
        if data.len() / chunk_len != chunks || data.len() % chunk_len != 0 {
            proof {
                if data@.len() == chunks * chunk_len {
                    vstd::arithmetic::div_mod::lemma_div_multiples_vanish(
                        chunks as int,
                        chunk_len as int,
                    );
                    vstd::arithmetic::div_mod::lemma_mod_multiples_basic(
                        chunks as int,
                        chunk_len as int,
                    );
                }
            }
            return None;
        }
        proof {
            vstd::arithmetic::div_mod::lemma_fundamental_div_mod(
                data@.len() as int,
                chunk_len as int,
            );
            assert(chunk_len * chunks == chunks * chunk_len) by (nonlinear_arith);
        }
        let mut i: usize = 0;
        while i < chunks
            invariant
                i <= chunks,
                chunks == chunk_pos@.len(),
                forall|j: int| 0 <= j < i ==> #[trigger] chunk_pos@[j] + chunk_len <= u64::MAX,
            decreases chunks - i,
        {
            if chunk_pos[i] > u64::MAX - chunk_len as u64 {
                return None;
            }
            i = i + 1;
        }
        Some(DirRawStream { data, chunk_len, chunk_pos, growable, pos: 0 })
    }

    /// A copy of the stream with its cursor at the start.
    pub fn rewound(&self) -> (r: DirRawStream)
        ensures
            r@ == (StreamView { pos: 0, ..self@ }),
    {
        DirRawStream {
            data: self.data.clone(),
            chunk_len: self.chunk_len,
            chunk_pos: self.chunk_pos.clone(),
            growable: self.growable,
            pos: 0,
        }
    }

    /// The bytes of the stream.
    pub fn bytes(&self) -> (r: &Vec<u8>)
        ensures
            r@ == self@.bytes,
    {
        &self.data
    }

    /// The length of the stream in bytes.
    pub fn len(&self) -> (r: usize)
        ensures
            r == self@.bytes.len(),
    {
        self.data.len()
    }

    /// The offset at which the cursor stands.
    pub fn position(&self) -> (r: u64)
        ensures
            r == self@.pos,
    {
        self.pos as u64
    }

    /// Whether chunks can be added to the stream.
    pub fn is_growable(&self) -> (r: bool)
        ensures
            r == self@.growable,
    {
        self.growable
    }

    /// The length of one chunk in bytes.
    pub fn chunk_len(&self) -> (r: usize)
        ensures
            r == self@.chunk_len,
    {
        self.chunk_len
    }

    /// The positions of the chunks on the volume.
    pub fn chunk_positions(&self) -> (r: &Vec<u64>)
        ensures
            r@ == self@.chunk_pos,
    {
        &self.chunk_pos
    }

    /// The position on the volume of the byte at `offset`, `None` where the
    /// stream has no such byte.
    pub fn abs_pos_at(&self, offset: u64) -> (r: Option<u64>)
        requires
            self@.wf(),
        ensures
            r is Some <==> offset < self@.bytes.len(),
            r is Some ==> r->Some_0 == self@.abs_of(offset as int),
    {
        if offset >= self.data.len() as u64 {
            return None;
        }
        let off: usize = offset as usize;
        proof {
            lemma_chunk_index(off as int, self.chunk_len as int, self.chunk_pos@.len() as int);
        }
        let chunk: usize = off / self.chunk_len;
        Some(self.chunk_pos[chunk] + (off % self.chunk_len) as u64)
    }

    /// The position on the volume of the byte at the cursor, `None` at the end.
    pub fn abs_pos(&self) -> (r: Option<u64>)
        requires
            self@.wf(),
        ensures
            r is Some <==> self@.pos < self@.bytes.len(),
            r is Some ==> r->Some_0 == self@.abs_of(self@.pos as int),
    {
        self.abs_pos_at(self.pos as u64)
    }

    /// Moves the cursor to `offset`. Fails, and leaves the cursor, where
    /// `offset` is beyond the end of the stream.
    pub fn seek(&mut self, offset: u64) -> (r: Result<u64, Error>)
        requires
            old(self)@.wf(),
        ensures
            offset <= old(self)@.bytes.len() ==> r == Ok::<u64, Error>(offset) && final(self)@ == (
            StreamView { pos: offset as nat, ..old(self)@ }),
            offset > old(self)@.bytes.len() ==> r == Err::<u64, Error>(Error::InvalidInput)
                && final(self)@ == old(self)@,
            final(self)@.wf(),
    {
        if offset > self.data.len() as u64 {
            return Err(Error::InvalidInput);
        }
        self.pos = offset as usize;
        Ok(offset)
    }

    /// Reads the slot at the cursor and moves the cursor behind it. Fails, and
    /// leaves the cursor, where fewer than 32 bytes are left.
    pub fn read(&mut self) -> (r: Result<DirEntryData, Error>)
        requires
            old(self)@.wf(),
        ensures
            old(self)@.pos + 32 > old(self)@.bytes.len() ==> r == Err::<DirEntryData, Error>(
                Error::CorruptedDirectory,
            ) && final(self)@ == old(self)@,
            old(self)@.pos + 32 <= old(self)@.bytes.len() ==> {
                &&& r is Ok
                &&& r->Ok_0.encoding() == old(self)@.slot_at(old(self)@.pos as int)
                &&& r->Ok_0.holds(old(self)@.slot_at(old(self)@.pos as int))
                &&& r->Ok_0 is Lfn <==> crate::raw::slot_is_lfn(
                    old(self)@.slot_at(old(self)@.pos as int),
                )
                &&& final(self)@ == (StreamView { pos: old(self)@.pos + 32, ..old(self)@ })
            },
            final(self)@.wf(),
    {
        if self.data.len() - self.pos < 32 {
            return Err(Error::CorruptedDirectory);
        }
        let slot: &[u8] = vstd::slice::slice_subrange(self.data.as_slice(), self.pos, self.pos + 32);
        let r = DirEntryData::deserialize(slot);
        proof {
            assert(slot@.subrange(0, 32) =~= slot@);
        }
        self.pos = self.pos + 32;
        r
    }

    /// Writes the 32 bytes of `data` over the slot at the cursor and moves the
    /// cursor behind it. Fails, and writes nothing, where fewer than 32 bytes
    /// are left.
    pub fn write(&mut self, data: &DirEntryData) -> (r: Result<(), Error>)
        requires
            old(self)@.wf(),
        ensures
            old(self)@.pos + 32 > old(self)@.bytes.len() ==> r == Err::<(), Error>(Error::NoSpace)
                && final(self)@ == old(self)@,
            old(self)@.pos + 32 <= old(self)@.bytes.len() ==> r is Ok && final(self)@ == (
            StreamView {
                bytes: overwritten(old(self)@.bytes, old(self)@.pos as int, data.encoding()),
                pos: old(self)@.pos + 32,
                ..old(self)@
            }),
            final(self)@.wf(),
    {
        if self.data.len() - self.pos < 32 {
            return Err(Error::NoSpace);
        }
        let mut buf: Vec<u8> = Vec::new();
        data.serialize(&mut buf);
        assert(buf@ =~= data.encoding());
        self.write_bytes(&buf);
        Ok(())
    }

    /// Writes a slot of 32 zero bytes, the end-of-directory mark, at the
    /// cursor and moves the cursor behind it. Fails, and writes nothing, where
    /// fewer than 32 bytes are left.
    pub fn write_end(&mut self) -> (r: Result<(), Error>)
        requires
            old(self)@.wf(),
        ensures
            old(self)@.pos + 32 > old(self)@.bytes.len() ==> r == Err::<(), Error>(Error::NoSpace)
                && final(self)@ == old(self)@,
            old(self)@.pos + 32 <= old(self)@.bytes.len() ==> r is Ok && final(self)@ == (
            StreamView {
                bytes: overwritten(
                    old(self)@.bytes,
                    old(self)@.pos as int,
                    Seq::new(32, |i: int| 0u8),
                ),
                pos: old(self)@.pos + 32,
                ..old(self)@
            }),
            final(self)@.wf(),
    {
        if self.data.len() - self.pos < 32 {
            return Err(Error::NoSpace);
        }
        let mut buf: Vec<u8> = Vec::new();
        let mut i: usize = 0;
        while i < 32
            invariant
                i <= 32,
                buf@ == Seq::new(i as nat, |k: int| 0u8),
            decreases 32 - i,
        {
            buf.push(0);
            i = i + 1;
            assert(buf@ =~= Seq::new(i as nat, |k: int| 0u8));
        }
        self.write_bytes(&buf);
        Ok(())
    }

    fn write_bytes(&mut self, buf: &Vec<u8>)
        requires
            old(self)@.wf(),
            old(self)@.pos + buf@.len() <= old(self)@.bytes.len(),
        ensures
            final(self)@ == (StreamView {
                bytes: overwritten(old(self)@.bytes, old(self)@.pos as int, buf@),
                pos: old(self)@.pos + buf@.len(),
                ..old(self)@
            }),
            final(self)@.wf(),
    {
        let n: usize = buf.len();
        let start: usize = self.pos;
        let total: usize = self.data.len();
        let mut i: usize = 0;
        while i < n
            invariant
                i <= n,
                n == buf@.len(),
                start + n <= total,
                total == self.data@.len(),
                self.data@ == overwritten(old(self)@.bytes, start as int, buf@.subrange(0, i as int)),
                self.chunk_len == old(self).chunk_len,
                self.chunk_pos == old(self).chunk_pos,
                self.growable == old(self).growable,
                self.pos == start,
                start == old(self).pos,
            decreases n - i,
        {
            self.data[start + i] = buf[i];
            i = i + 1;
            assert(self.data@ =~= overwritten(
                old(self)@.bytes,
                start as int,
                buf@.subrange(0, i as int),
            ));
        }
        assert(buf@.subrange(0, n as int) =~= buf@);
        self.pos = start + n;
    }

    /// Adds a chunk of zero bytes that lies at `at` on the volume. Fails, and
    /// changes nothing, with `NoSpace` where the stream cannot grow, and with
    /// `InvalidInput` where the chunk would reach beyond the last position.
    pub fn grow(&mut self, at: u64) -> (r: Result<(), Error>)
        requires
            old(self)@.wf(),
        ensures
            !old(self)@.growable || old(self)@.bytes.len() + old(self)@.chunk_len > usize::MAX
                ==> r == Err::<(), Error>(Error::NoSpace) && final(self)@ == old(self)@,
            old(self)@.growable && old(self)@.bytes.len() + old(self)@.chunk_len <= usize::MAX
                && at + old(self)@.chunk_len > u64::MAX ==> r == Err::<(), Error>(
                Error::InvalidInput,
            ) && final(self)@ == old(self)@,
            old(self)@.growable && old(self)@.bytes.len() + old(self)@.chunk_len <= usize::MAX
                && at + old(self)@.chunk_len <= u64::MAX ==> r is Ok && final(self)@ == (
            StreamView {
                bytes: old(self)@.bytes + Seq::new(old(self)@.chunk_len, |i: int| 0u8),
                chunk_pos: old(self)@.chunk_pos.push(at),
                ..old(self)@
            }),
            final(self)@.wf(),
    {
        if !self.growable || self.data.len() > usize::MAX - self.chunk_len {
            return Err(Error::NoSpace);
        }
        if at > u64::MAX - self.chunk_len as u64 {
            return Err(Error::InvalidInput);
        }
        let n: usize = self.chunk_len;
        let ghost before = self.data@;
        let mut i: usize = 0;
        while i < n
            invariant
                i <= n,
                n == self.chunk_len,
                self.data@ == before + Seq::new(i as nat, |k: int| 0u8),
                self.chunk_len == old(self).chunk_len,
                self.chunk_pos == old(self).chunk_pos,
                self.growable == old(self).growable,
                self.pos == old(self).pos,
            decreases n - i,
        {
            self.data.push(0);
            i = i + 1;
            assert(self.data@ =~= before + Seq::new(i as nat, |k: int| 0u8));
        }
        self.chunk_pos.push(at);
        proof {
            let chunks = old(self)@.chunk_pos.len() as int;
            let cl = n as int;
            assert((chunks + 1) * cl == chunks * cl + cl) by (nonlinear_arith);
        }
        Ok(())
    }
}

} // verus!

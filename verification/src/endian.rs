use byteorder::{ByteOrder, LittleEndian};
use vstd::prelude::*;

verus! {

/// The two bytes of a 16-bit value, least significant first.
pub open spec fn le16(n: u16) -> Seq<u8> {
    seq![(n % 256) as u8, (n / 256) as u8]
}

/// The four bytes of a 32-bit value, least significant first.
pub open spec fn le32(n: u32) -> Seq<u8> {
    seq![
        (n % 256) as u8,
        ((n / 256) % 256) as u8,
        ((n / 65536) % 256) as u8,
        (n / 16777216) as u8,
    ]
}

/// The 16-bit value whose little-endian bytes stand at `at` in `b`.
pub open spec fn from_le16(b: Seq<u8>, at: int) -> u16 {
    (b[at] + 256 * b[at + 1]) as u16
}

/// The 32-bit value whose little-endian bytes stand at `at` in `b`.
pub open spec fn from_le32(b: Seq<u8>, at: int) -> u32 {
    (b[at] + 256 * b[at + 1] + 65536 * b[at + 2] + 16777216 * b[at + 3]) as u32
}

/// The little-endian bytes of a sequence of 16-bit values, two for each.
pub open spec fn le16_seq(units: Seq<u16>) -> Seq<u8> {
    Seq::new(
        2 * units.len(),
        |i: int| if i % 2 == 0 { (units[i / 2] % 256) as u8 } else { (units[i / 2] / 256) as u8 },
    )
}

/// Calls `byteorder::LittleEndian::read_u16` on the bytes of `buf` from `at` on.
/// Trusted: the result is the value whose low byte is `buf[at]` and whose high
/// byte is `buf[at + 1]`; the outside function panics on fewer than two bytes.
#[verifier::external_body]
pub(crate) fn read_u16_le(buf: &[u8], at: usize) -> (r: u16)
    requires
        at + 2 <= buf@.len(),
    ensures
        r == from_le16(buf@, at as int),
{
    LittleEndian::read_u16(&buf[at..])
}

/// Calls `byteorder::LittleEndian::read_u32` on the bytes of `buf` from `at` on.
/// Trusted: the result is the value whose bytes, least significant first, are
/// `buf[at]` to `buf[at + 3]`; the outside function panics on fewer than four bytes.
#[verifier::external_body]
pub(crate) fn read_u32_le(buf: &[u8], at: usize) -> (r: u32)
    requires
        at + 4 <= buf@.len(),
    ensures
        r == from_le32(buf@, at as int),
{
    LittleEndian::read_u32(&buf[at..])
}

/// Calls `byteorder::LittleEndian::write_u16` on a buffer of two bytes.
/// Trusted: the buffer then holds the low byte of `n`, then its high byte.
#[verifier::external_body]
pub(crate) fn u16_le_bytes(n: u16) -> (r: [u8; 2])
    ensures
        r@ == le16(n),
{
    let mut b = [0u8; 2];
    LittleEndian::write_u16(&mut b, n);
    b
}

/// Calls `byteorder::LittleEndian::write_u32` on a buffer of four bytes.
/// Trusted: the buffer then holds the four bytes of `n`, least significant first.
#[verifier::external_body]
pub(crate) fn u32_le_bytes(n: u32) -> (r: [u8; 4])
    ensures
        r@ == le32(n),
{
    let mut b = [0u8; 4];
    LittleEndian::write_u32(&mut b, n);
    b
}

/// Appends the little-endian bytes of `n` to `out`.
pub fn push_u16_le(out: &mut Vec<u8>, n: u16)
    ensures
        final(out)@ == old(out)@ + le16(n),
{
    let b: [u8; 2] = u16_le_bytes(n);
    out.push(b[0]);
    out.push(b[1]);
    assert(out@ =~= old(out)@ + le16(n));
}

/// Appends the little-endian bytes of `n` to `out`.
pub fn push_u32_le(out: &mut Vec<u8>, n: u32)
    ensures
        final(out)@ == old(out)@ + le32(n),
{
    let b: [u8; 4] = u32_le_bytes(n);
    out.push(b[0]);
    out.push(b[1]);
    out.push(b[2]);
    out.push(b[3]);
    assert(out@ =~= old(out)@ + le32(n));
}

/// Reading back what was written gives the value again.
pub proof fn lemma_le16_round_trip(n: u16)
    ensures
        from_le16(le16(n), 0) == n,
{
}

/// Reading back what was written gives the value again.
pub proof fn lemma_le32_round_trip(n: u32)
    ensures
        from_le32(le32(n), 0) == n,
{
}

/// Writing what was read gives the bytes again.
pub proof fn lemma_le16_bytes(b: Seq<u8>, at: int)
    requires
        0 <= at,
        at + 2 <= b.len(),
    ensures
        le16(from_le16(b, at)) == b.subrange(at, at + 2),
{
    let v = b[at] + 256 * b[at + 1];
    vstd::arithmetic::div_mod::lemma_fundamental_div_mod_converse(v, 256, b[at + 1] as int, b[at] as int);
    assert(le16(from_le16(b, at)) =~= b.subrange(at, at + 2));
}

/// Writing what was read gives the bytes again.
pub proof fn lemma_le32_bytes(b: Seq<u8>, at: int)
    requires
        0 <= at,
        at + 4 <= b.len(),
    ensures
        le32(from_le32(b, at)) == b.subrange(at, at + 4),
{
    let b0 = b[at] as int;
    let b1 = b[at + 1] as int;
    let b2 = b[at + 2] as int;
    let b3 = b[at + 3] as int;
    let v = b0 + 256 * b1 + 65536 * b2 + 16777216 * b3;
    let q1 = b1 + 256 * b2 + 65536 * b3;
    let q2 = b2 + 256 * b3;
    vstd::arithmetic::div_mod::lemma_fundamental_div_mod_converse(v, 256, q1, b0);
    vstd::arithmetic::div_mod::lemma_fundamental_div_mod_converse(q1, 256, q2, b1);
    vstd::arithmetic::div_mod::lemma_fundamental_div_mod_converse(v, 65536, q2, b0 + 256 * b1);
    vstd::arithmetic::div_mod::lemma_fundamental_div_mod_converse(q2, 256, b3, b2);
    vstd::arithmetic::div_mod::lemma_fundamental_div_mod_converse(
        v,
        16777216,
        b3,
        b0 + 256 * b1 + 65536 * b2,
    );
    let w = from_le32(b, at);
    assert(w == v);
    assert(le32(w)[0] == b0);
    assert(le32(w)[1] == b1);
    assert(le32(w)[2] == b2);
    assert(le32(w)[3] == b3);
    assert(le32(from_le32(b, at)) =~= b.subrange(at, at + 4));
}

} // verus!

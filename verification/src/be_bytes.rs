//! Big-endian encoding of the fixed-width integers that the on-disk formats use.
use vstd::prelude::*;
use vstd::slice::slice_subrange;

verus! {

/// The two bytes of `x`, most significant first.
pub open spec fn be16(x: u16) -> Seq<u8> {
    seq![(x / 0x100) as u8, (x % 0x100) as u8]
}

/// The four bytes of `x`, most significant first.
pub open spec fn be32(x: u32) -> Seq<u8> {
    seq![
        (x / 0x100_0000) as u8,
        (x / 0x1_0000 % 0x100) as u8,
        (x / 0x100 % 0x100) as u8,
        (x % 0x100) as u8,
    ]
}

/// The eight bytes of `x`, most significant first.
pub open spec fn be64(x: u64) -> Seq<u8> {
    be32((x / 0x1_0000_0000) as u32) + be32((x % 0x1_0000_0000) as u32)
}

/// The number whose two big-endian bytes start `s`.
pub open spec fn from_be16(s: Seq<u8>) -> u16 {
    (s[0] * 0x100 + s[1]) as u16
}

/// The number whose four big-endian bytes start `s`.
pub open spec fn from_be32(s: Seq<u8>) -> u32 {
    (s[0] * 0x100_0000 + s[1] * 0x1_0000 + s[2] * 0x100 + s[3]) as u32
}

/// The number whose eight big-endian bytes start `s`.
pub open spec fn from_be64(s: Seq<u8>) -> u64 {
    (from_be32(s) * 0x1_0000_0000 + from_be32(s.skip(4))) as u64
}

/// Reading back the two bytes of a number gives the number, whatever follows them.
pub proof fn lemma_be16_round_trip(x: u16, rest: Seq<u8>)
    ensures
        be16(x).len() == 2,
        from_be16(be16(x) + rest) == x,
{
}

/// Reading back the four bytes of a number gives the number, whatever follows them.
pub proof fn lemma_be32_round_trip(x: u32, rest: Seq<u8>)
    ensures
        be32(x).len() == 4,
        from_be32(be32(x) + rest) == x,
{
    let s = be32(x) + rest;
    assert(s[0] == x / 0x100_0000);
    assert(s[1] == x / 0x1_0000 % 0x100);
    assert(s[2] == x / 0x100 % 0x100);
    assert(s[3] == x % 0x100);
}

/// Reading back the eight bytes of a number gives the number, whatever follows them.
pub proof fn lemma_be64_round_trip(x: u64, rest: Seq<u8>)
    ensures
        be64(x).len() == 8,
        from_be64(be64(x) + rest) == x,
{
    let hi = (x / 0x1_0000_0000) as u32;
    let lo = (x % 0x1_0000_0000) as u32;
    lemma_be32_round_trip(hi, be32(lo) + rest);
    lemma_be32_round_trip(lo, rest);
    assert(be64(x) + rest =~= be32(hi) + (be32(lo) + rest));
    assert((be64(x) + rest).skip(4) =~= be32(lo) + rest);
}

/// Appends `x` to `buf`.
pub fn push_be16(buf: &mut Vec<u8>, x: u16)
    ensures
        final(buf)@ == old(buf)@ + be16(x),
{
    buf.push((x / 0x100) as u8);
    buf.push((x % 0x100) as u8);
    assert(buf@ =~= old(buf)@ + be16(x));
}

/// Appends `x` to `buf`.
pub fn push_be32(buf: &mut Vec<u8>, x: u32)
    ensures
        final(buf)@ == old(buf)@ + be32(x),
{
    buf.push((x / 0x100_0000) as u8);
    buf.push((x / 0x1_0000 % 0x100) as u8);
    buf.push((x / 0x100 % 0x100) as u8);
    buf.push((x % 0x100) as u8);
    assert(buf@ =~= old(buf)@ + be32(x));
}

/// Appends `x` to `buf`.
pub fn push_be64(buf: &mut Vec<u8>, x: u64)
    ensures
        final(buf)@ == old(buf)@ + be64(x),
{
    push_be32(buf, (x / 0x1_0000_0000) as u32);
    push_be32(buf, (x % 0x1_0000_0000) as u32);
    assert(buf@ =~= old(buf)@ + be64(x));
}

/// Reads the number at `buf[at..at + 2]`.
pub fn read_be16(buf: &[u8], at: usize) -> (x: u16)
    requires
        at + 2 <= buf@.len(),
    ensures
        x == from_be16(buf@.skip(at as int)),
{
    buf[at] as u16 * 0x100 + buf[at + 1] as u16
}

/// Reads the number at `buf[at..at + 4]`.
pub fn read_be32(buf: &[u8], at: usize) -> (x: u32)
    requires
        at + 4 <= buf@.len(),
    ensures
        x == from_be32(buf@.skip(at as int)),
{
    buf[at] as u32 * 0x100_0000 + buf[at + 1] as u32 * 0x1_0000 + buf[at + 2] as u32 * 0x100
        + buf[at + 3] as u32
}

/// Reads the number at `buf[at..at + 8]`.
pub fn read_be64(buf: &[u8], at: usize) -> (x: u64)
    requires
        at + 8 <= buf@.len(),
    ensures
        x == from_be64(buf@.skip(at as int)),
{
    assert(at + 8 <= buf.len());
    assert(buf@.skip(at as int).skip(4) =~= buf@.skip(at + 4));
    read_be32(buf, at) as u64 * 0x1_0000_0000 + read_be32(buf, at + 4) as u64
}

/// Appends the bytes of `src` to `buf`.
pub fn push_bytes(buf: &mut Vec<u8>, src: &[u8])
    ensures
        final(buf)@ == old(buf)@ + src@,
{
    buf.extend_from_slice(src);
    assert(buf@ =~= old(buf)@ + src@);
}

/// The bytes of `buf` from `at` on.
pub fn bytes_from(buf: &[u8], at: usize) -> (rest: &[u8])
    requires
        at <= buf@.len(),
    ensures
        rest@ == buf@.skip(at as int),
{
    slice_subrange(buf, at, buf.len())
}

/// The low 32 bits of a length.
pub open spec fn low32(n: nat) -> u32 {
    (n % 0x1_0000_0000) as u32
}

/// The low 32 bits of a length.
pub fn low_u32(n: usize) -> (r: u32)
    ensures
        r == low32(n as nat),
{
    (n as u64 % 0x1_0000_0000) as u32
}

/// The bytes of a number are its digits to the base 256, the most significant first.
pub proof fn lemma_bytes_are_digits(x: u16, y: u32, z: u64)
    ensures
        be16(x).len() == 2,
        x == be16(x)[0] * 0x100 + be16(x)[1],
        be32(y).len() == 4,
        y == be32(y)[0] * 0x100_0000 + be32(y)[1] * 0x1_0000 + be32(y)[2] * 0x100 + be32(y)[3],
        be64(z).len() == 8,
        z == (be64(z)[0] * 0x100_0000 + be64(z)[1] * 0x1_0000 + be64(z)[2] * 0x100 + be64(z)[3])
            * 0x1_0000_0000 + (be64(z)[4] * 0x100_0000 + be64(z)[5] * 0x1_0000 + be64(z)[6] * 0x100
            + be64(z)[7]),
{
    lemma_be32_round_trip((z / 0x1_0000_0000) as u32, Seq::empty());
    lemma_be32_round_trip((z % 0x1_0000_0000) as u32, Seq::empty());
    let hi = be32((z / 0x1_0000_0000) as u32);
    let lo = be32((z % 0x1_0000_0000) as u32);
    assert(hi + Seq::<u8>::empty() =~= hi);
    assert(lo + Seq::<u8>::empty() =~= lo);
}

/// A number is read from its digits to the base 256, the most significant first, whatever follows.
pub proof fn lemma_digits_are_read(s: Seq<u8>)
    ensures
        s.len() >= 2 ==> from_be16(s) == s[0] * 0x100 + s[1],
        s.len() >= 4 ==> from_be32(s) == s[0] * 0x100_0000 + s[1] * 0x1_0000 + s[2] * 0x100 + s[3],
        s.len() >= 8 ==> from_be64(s) == (s[0] * 0x100_0000 + s[1] * 0x1_0000 + s[2] * 0x100
            + s[3]) * 0x1_0000_0000 + (s[4] * 0x100_0000 + s[5] * 0x1_0000 + s[6] * 0x100 + s[7]),
{
    if s.len() >= 8 {
        let t = s.skip(4);
        assert(t[0] == s[4] && t[1] == s[5] && t[2] == s[6] && t[3] == s[7]);
    }
}

/// A length that fits in 32 bits is kept, and any other loses a multiple of 2 to the 32.
pub proof fn lemma_low_bits(n: nat)
    ensures
        n <= u32::MAX ==> low32(n) == n,
        (n - low32(n)) % 0x1_0000_0000 == 0,
{
}

} // verus!

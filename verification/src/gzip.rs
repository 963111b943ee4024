//! The framing of gzip members as this library writes them.
use vstd::prelude::*;

verus! {

/// The header of every member that the library writes: no flags, no time, no
/// hint on the compressor, unknown system.
pub const GZIP_HEADER: [u8; 10] = [0x1f, 0x8b, 0x08, 0x00, 0x00, 0x00, 0x00, 0x00, 0x00, 0xff];

/// One bit of the CRC-32 division, by the reflected polynomial.
pub open spec fn crc_bit(c: u32) -> u32 {
    if c & 1 == 1 {
        (c >> 1) ^ 0xedb8_8320
    } else {
        c >> 1
    }
}

/// `n` bits of the CRC-32 division.
pub open spec fn crc_bits(c: u32, n: nat) -> u32
    decreases n,
{
    if n == 0 {
        c
    } else {
        crc_bits(crc_bit(c), (n - 1) as nat)
    }
}

/// The CRC-32 register after `data`.
pub open spec fn crc_register(data: Seq<u8>) -> u32
    decreases data.len(),
{
    if data.len() == 0 {
        0xffff_ffff
    } else {
        crc_bits(crc_register(data.drop_last()) ^ (data.last() as u32), 8)
    }
}

/// The CRC-32 (IEEE) checksum.
pub open spec fn crc32(data: Seq<u8>) -> u32 {
    crc_register(data) ^ 0xffff_ffff
}

/// `crc32fast::hash` computes the CRC-32 (IEEE) checksum of its argument.
pub assume_specification[ crc32fast::hash ](buf: &[u8]) -> (r: u32)
    ensures
        r == crc32(buf@),
;

/// The four bytes of a number, lowest first.
pub open spec fn le32(v: int) -> Seq<u8> {
    seq![
        (v % 256) as u8,
        (v / 256 % 256) as u8,
        (v / 65536 % 256) as u8,
        (v / 16777216 % 256) as u8,
    ]
}

/// Appends the four bytes of a number, lowest first.
fn push_le32(out: &mut Vec<u8>, v: u32)
    ensures
        final(out)@ == old(out)@ + le32(v as int),
{
    let ghost start = out@;
    out.push((v % 256) as u8);
    out.push((v / 256 % 256) as u8);
    out.push((v / 65536 % 256) as u8);
    out.push((v / 16777216 % 256) as u8);
    assert(out@ =~= start + le32(v as int));
}

/// The end of a member: checksum and size modulo `2^32`.
pub open spec fn trailer(original: Seq<u8>) -> Seq<u8> {
    le32(crc32(original) as int) + le32(original.len() as int % 0x1_0000_0000)
}

/// A member with the given DEFLATE stream for the given bytes.
pub open spec fn member(deflate: Seq<u8>, original: Seq<u8>) -> Seq<u8> {
    GZIP_HEADER@ + deflate + trailer(original)
}

/// Wraps a raw DEFLATE stream as a gzip member.
pub fn gzip_wrap(deflate: &[u8], original: &[u8]) -> (r: Vec<u8>)
    ensures
        r@ == member(deflate@, original@),
{
    let mut out: Vec<u8> = Vec::new();
    let header: [u8; 10] = GZIP_HEADER;
    out.extend_from_slice(&header);
    out.extend_from_slice(deflate);
    assert(out@ =~= GZIP_HEADER@ + deflate@);
    let crc: u32 = crc32fast::hash(original);
    push_le32(&mut out, crc);
    let size: u32 = (original.len() as u64 % 0x1_0000_0000) as u32;
    push_le32(&mut out, size);
    assert(out@ =~= member(deflate@, original@));
    out
}

/// The number that bytes stand for, lowest first.
pub open spec fn le_value(bytes: Seq<u8>) -> nat
    decreases bytes.len(),
{
    if bytes.len() == 0 {
        0
    } else {
        bytes[0] as nat + 256 * le_value(bytes.skip(1))
    }
}

/// A member is the header, the stream as it is given, the checksum of the bytes
/// and their number modulo `2^32`, and nothing else.
pub proof fn law_member_layout(deflate: &[u8], original: &[u8], r: Vec<u8>)
    requires
        call_ensures(gzip_wrap, (deflate, original), r),
    ensures
        r@.len() == deflate@.len() + 18,
        r@.take(10) == seq![0x1fu8, 0x8b, 8, 0, 0, 0, 0, 0, 0, 0xff],
        r@.subrange(10, 10 + deflate@.len() as int) == deflate@,
        le_value(r@.subrange(r@.len() - 8, r@.len() - 4)) == crc32(original@),
        le_value(r@.subrange(r@.len() - 4, r@.len() as int)) == original@.len() % 0x1_0000_0000,
{
    let n = r@.len() as int;
    assert(r@.take(10) =~= seq![0x1fu8, 0x8b, 8, 0, 0, 0, 0, 0, 0, 0xff]);
    assert(r@.subrange(10, 10 + deflate@.len() as int) =~= deflate@);
    assert(r@.subrange(n - 8, n - 4) =~= le32(crc32(original@) as int));
    assert(r@.subrange(n - 4, n) =~= le32(original@.len() as int % 0x1_0000_0000));
    lemma_le32(crc32(original@) as nat);
    lemma_le32(original@.len() % 0x1_0000_0000);
}

proof fn lemma_le32(v: nat)
    requires
        v < 0x1_0000_0000,
    ensures
        le_value(le32(v as int)) == v,
{
    let b = le32(v as int);
    reveal_with_fuel(le_value, 5);
    assert(b.skip(1).skip(1) =~= b.skip(2));
    assert(b.skip(2).skip(1) =~= b.skip(3));
    assert(b.skip(3).skip(1) =~= Seq::<u8>::empty());
    assert(b.skip(1)[0] == b[1] && b.skip(2)[0] == b[2] && b.skip(3)[0] == b[3]);
    assert(le_value(b) == b[0] + 256 * (b[1] + 256 * (b[2] + 256 * b[3])));
}

} // verus!

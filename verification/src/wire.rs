//! Little-endian integers, byte checksums and the packet frame of the serial link.
use vstd::prelude::*;

verus! {

/// Two bytes of `v`, least significant first.
pub open spec fn le16(v: u16) -> Seq<u8> {
    seq![(v & 0xff) as u8, (v >> 8) as u8]
}

/// Four bytes of `v`, least significant first.
pub open spec fn le32(v: u32) -> Seq<u8> {
    seq![(v & 0xff) as u8, ((v >> 8) & 0xff) as u8, ((v >> 16) & 0xff) as u8, (v >> 24) as u8]
}

/// The number that two little-endian bytes stand for.
pub open spec fn from_le16(lo: u8, hi: u8) -> int {
    lo + 256 * hi
}

/// The number that four little-endian bytes stand for.
pub open spec fn from_le32(b0: u8, b1: u8, b2: u8, b3: u8) -> int {
    b0 + 256 * b1 + 65536 * b2 + 16777216 * b3
}

/// Sum of all bytes of `s`, as an unbounded integer.
pub open spec fn byte_sum(s: Seq<u8>) -> nat
    decreases s.len(),
{
    if s.len() == 0 {
        0
    } else {
        byte_sum(s.drop_last()) + s.last() as nat
    }
}

/// The checksum byte of a payload: the sum of its bytes modulo 256.
pub open spec fn checksum(s: Seq<u8>) -> u8 {
    (byte_sum(s) % 256) as u8
}

/// A complete frame on the serial link: the sync bytes `0xAA 0x55`, the packet type,
/// the payload length as four little-endian bytes (taken modulo 2^32), the payload,
/// and the checksum byte.
pub open spec fn frame(kind: u8, payload: Seq<u8>) -> Seq<u8> {
    seq![0xAAu8, 0x55u8, kind] + le32(payload.len() as u32) + payload + seq![checksum(payload)]
}

/// The two bytes of `le16(v)` read back give `v`.
pub proof fn lemma_le16_round_trip(v: u16)
    ensures
        le16(v).len() == 2,
        from_le16(le16(v)[0], le16(v)[1]) == v,
{
    let lo = (v & 0xff) as u8;
    let hi = (v >> 8) as u8;
    assert(lo as int + 256 * (hi as int) == v as int) by (bit_vector)
        requires
            lo == (v & 0xff) as u8,
            hi == (v >> 8) as u8,
    ;
}

/// The four bytes of `le32(v)` read back give `v`.
pub proof fn lemma_le32_round_trip(v: u32)
    ensures
        le32(v).len() == 4,
        from_le32(le32(v)[0], le32(v)[1], le32(v)[2], le32(v)[3]) == v,
{
    let b0 = (v & 0xff) as u8;
    let b1 = ((v >> 8) & 0xff) as u8;
    let b2 = ((v >> 16) & 0xff) as u8;
    let b3 = (v >> 24) as u8;
    assert(b0 as int + 256 * (b1 as int) + 65536 * (b2 as int) + 16777216 * (b3 as int) == v as int)
        by (bit_vector)
        requires
            b0 == (v & 0xff) as u8,
            b1 == ((v >> 8) & 0xff) as u8,
            b2 == ((v >> 16) & 0xff) as u8,
            b3 == (v >> 24) as u8,
    ;
}

/// Appends the little-endian bytes of `v`.
pub fn push_le16(out: &mut Vec<u8>, v: u16)
    ensures
        final(out)@ == old(out)@ + le16(v),
{
    out.push((v & 0xff) as u8);
    out.push((v >> 8) as u8);
}

/// Appends the little-endian bytes of `v`.
pub fn push_le32(out: &mut Vec<u8>, v: u32)
    ensures
        final(out)@ == old(out)@ + le32(v),
{
    out.push((v & 0xff) as u8);
    out.push(((v >> 8) & 0xff) as u8);
    out.push(((v >> 16) & 0xff) as u8);
    out.push((v >> 24) as u8);
}

/// Appends all of `src`.
pub fn push_all(out: &mut Vec<u8>, src: &[u8])
    ensures
        final(out)@ == old(out)@ + src@,
{
    let ghost start = out@;
    let mut i: usize = 0;
    while i < src.len()
        invariant
            i <= src.len(),
            out@ == start + src@.take(i as int),
        decreases src.len() - i,
    {
        out.push(src[i]);
        i = i + 1;
        assert(src@.take(i as int) == src@.take(i - 1) + seq![src@[i - 1]]);
    }
    assert(src@.take(i as int) == src@);
}

/// The checksum of a payload: all bytes added with wrap-around.
pub fn payload_checksum(payload: &[u8]) -> (sum: u8)
    ensures
        sum == checksum(payload@),
{
    let mut acc: u8 = 0;
    let mut i: usize = 0;
    while i < payload.len()
        invariant
            i <= payload.len(),
            acc == checksum(payload@.take(i as int)),
        decreases payload.len() - i,
    {
        assert(payload@.take(i + 1).drop_last() == payload@.take(i as int));
        acc = acc.wrapping_add(payload[i]);
        i = i + 1;
    }
    assert(payload@.take(i as int) == payload@);
    acc
}

/// Frames `payload` as a packet of type `kind`.
pub fn build_packet_raw(kind: u8, payload: &[u8]) -> (packet: Vec<u8>)
    ensures
        packet@ == frame(kind, payload@),
{
    let mut packet: Vec<u8> = Vec::new();
    packet.push(0xAA);
    packet.push(0x55);
    packet.push(kind);
    let len = payload.len() as u32;
    push_le32(&mut packet, len);
    push_all(&mut packet, payload);
    let sum = payload_checksum(payload);
    packet.push(sum);
    packet
}

} // verus!

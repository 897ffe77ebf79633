//! The fixed RTP header and its wire layout.

use vstd::prelude::*;

verus! {

/// Largest datagram, header included, that the packetizer emits.
pub const MAX_RTP_BUF_SIZE: usize = 1400;

/// Length of the fixed RTP header.
pub const RTP_HEADER_SIZE: usize = 12;

/// RTP version carried in the two top bits of the first header byte.
pub const RTP_VERSION: u8 = 2;

/// Dynamic payload type under which H.264 is sent.
pub const RTP_PAYLOAD_TYPE: u8 = 96;

/// The first header byte: version 2 in the two top bits (`2 << 6`), and no
/// padding, no extension, no CSRC below them.
pub open spec fn version_byte() -> u8 {
    0x80
}

/// The second header byte: the marker in the top bit (`0x80`), payload type
/// 96 (`0x60`) in the seven bits below.
pub open spec fn marker_byte(marker: bool) -> u8 {
    if marker {
        0xE0
    } else {
        0x60
    }
}

/// The two bytes of `value`, most significant first.
pub open spec fn be16(value: u16) -> Seq<u8> {
    seq![(value / 0x100) as u8, (value % 0x100) as u8]
}

/// The four bytes of `value`, most significant first.
pub open spec fn be32(value: u32) -> Seq<u8> {
    seq![
        (value / 0x100_0000) as u8,
        (value / 0x1_0000 % 0x100) as u8,
        (value / 0x100 % 0x100) as u8,
        (value % 0x100) as u8,
    ]
}

/// The twelve header bytes of a packet, as they go on the wire.
pub open spec fn header_bytes(marker: bool, seq: u16, ts: u32, ssrc: u32) -> Seq<u8> {
    seq![version_byte(), marker_byte(marker)] + be16(seq) + be32(ts) + be32(ssrc)
}

/// The fields of one RTP header.
///
/// `byte1` and `byte2` are the first two octets as sent; the other fields are
/// serialized big-endian.
#[derive(Clone, Copy, Debug)]
pub struct RtpHeader {
    pub byte1: u8,
    pub byte2: u8,
    pub seq: u16,
    pub ts: u32,
    pub ssrc: u32,
}

impl RtpHeader {
    /// The wire image of this header.
    pub open spec fn wire(&self) -> Seq<u8> {
        seq![self.byte1, self.byte2] + be16(self.seq) + be32(self.ts) + be32(self.ssrc)
    }

    /// A header for an H.264 packet: version 2, payload type 96.
    pub fn new(marker: bool, seq: u16, ts: u32, ssrc: u32) -> (header: RtpHeader)
        ensures
            header.byte1 == version_byte(),
            header.byte2 == marker_byte(marker),
            header.seq == seq,
            header.ts == ts,
            header.ssrc == ssrc,
            header.wire() == header_bytes(marker, seq, ts, ssrc),
    {
        let mut byte2: u8 = RTP_PAYLOAD_TYPE;
        if marker {
            byte2 = byte2 | 0x80;
        }
        assert(96u8 | 0x80u8 == 0xE0u8) by (bit_vector);
        assert(2u8 << 6u8 == 0x80u8) by (bit_vector);
        RtpHeader { byte1: RTP_VERSION << 6, byte2, seq, ts, ssrc }
    }

    /// Serializes the header into its twelve wire bytes.
    pub fn copy_into_array(&self) -> (array: [u8; 12])
        ensures
            array@ == self.wire(),
    {
        let seq = self.seq;
        let ts = self.ts;
        let ssrc = self.ssrc;
        let mut array: [u8; 12] = [0u8; 12];
        array[0] = self.byte1;
        array[1] = self.byte2;
        array[2] = (seq >> 8) as u8;
        array[3] = (seq & 0xff) as u8;
        array[4] = (ts >> 24) as u8;
        array[5] = ((ts >> 16) & 0xff) as u8;
        array[6] = ((ts >> 8) & 0xff) as u8;
        array[7] = (ts & 0xff) as u8;
        array[8] = (ssrc >> 24) as u8;
        array[9] = ((ssrc >> 16) & 0xff) as u8;
        array[10] = ((ssrc >> 8) & 0xff) as u8;
        array[11] = (ssrc & 0xff) as u8;
        proof {
            lemma_be16_shifts(seq);
            lemma_be32_shifts(ts);
            lemma_be32_shifts(ssrc);
        }
        array
    }
}

proof fn lemma_be16_shifts(v: u16)
    ensures
        (v >> 8) == v / 0x100,
        (v & 0xff) == v % 0x100,
        v / 0x100 < 0x100,
{
    assert((v >> 8) == v / 0x100) by (bit_vector);
    assert((v & 0xff) == v % 0x100) by (bit_vector);
}

proof fn lemma_be32_shifts(v: u32)
    ensures
        (v >> 24) == v / 0x100_0000,
        ((v >> 16) & 0xff) == v / 0x1_0000 % 0x100,
        ((v >> 8) & 0xff) == v / 0x100 % 0x100,
        (v & 0xff) == v % 0x100,
        v / 0x100_0000 < 0x100,
{
    assert((v >> 24) == v / 0x100_0000) by (bit_vector);
    assert(((v >> 16) & 0xff) == v / 0x1_0000 % 0x100) by (bit_vector);
    assert(((v >> 8) & 0xff) == v / 0x100 % 0x100) by (bit_vector);
    assert((v & 0xff) == v % 0x100) by (bit_vector);
}

} // verus!

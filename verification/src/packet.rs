//! The datagrams that carry one NAL unit.
//!
//! A unit that fits the packet budget travels whole behind one RTP header. A
//! longer one is cut into FU-A fragments: each carries the RTP header, a
//! two-byte fragmentation header and a slice of the unit's bytes after its
//! header byte.
//!
//! The upper three bits of the FU indicator (the forbidden-zero bit and the
//! NRI bits) are copied from the header byte of the unit that is fragmented;
//! they are not looked up by type.

use crate::rtp::header_bytes;
use crate::rtp::MAX_RTP_BUF_SIZE;
use crate::rtp::RTP_HEADER_SIZE;
use vstd::prelude::*;

verus! {

/// Length of the fragmentation header: FU indicator and FU header.
pub const FU_A_SIZE: usize = 2;

/// NAL type number of an FU-A fragment.
pub const FU_A_TYPE: u8 = 28;

/// Most bytes of a unit that one fragment carries.
pub const MAX_FRAGMENT_SIZE: usize = MAX_RTP_BUF_SIZE - RTP_HEADER_SIZE - FU_A_SIZE;

/// The sequence number `n` steps on, counted modulo 65536.
pub open spec fn wrap_seq(n: int) -> u16 {
    (n % 0x1_0000) as u16
}

/// Whether a unit of `len` bytes is too long to travel in one packet.
pub open spec fn needs_fragmentation(len: int) -> bool {
    len + RTP_HEADER_SIZE > MAX_RTP_BUF_SIZE
}

/// The single packet that carries a whole unit: marker set, the unit behind
/// the header.
pub open spec fn single_packet(nal: Seq<u8>, seq: u16, ts: u32, ssrc: u32) -> Seq<u8> {
    header_bytes(true, seq, ts, ssrc) + nal
}

/// The FU indicator: the upper three bits of the unit's header byte, type 28.
pub open spec fn fu_indicator(header: u8) -> u8 {
    (header & 0xE0) | 28
}

/// The FU header: start bit, end bit, a zero bit, and the unit's type.
pub open spec fn fu_header(header: u8, first: bool, last: bool) -> u8 {
    (header & 0x1F) | (if first {
        0x80u8
    } else {
        0u8
    }) | (if last {
        0x40u8
    } else {
        0u8
    })
}

/// Number of fragments of a unit of `len` bytes: its bytes after the header
/// byte, in pieces of at most `MAX_FRAGMENT_SIZE` (1386), rounded up.
pub open spec fn fragment_count(len: int) -> int {
    (len - 1 + 1385) / 1386
}

/// Where fragment `k` begins in the unit: behind the header byte and `k`
/// pieces of `MAX_FRAGMENT_SIZE` (1386) bytes.
pub open spec fn fragment_begin(k: int) -> int {
    1 + k * 1386
}

/// Where fragment `k` of a unit of `len` bytes ends.
pub open spec fn fragment_end(len: int, k: int) -> int {
    if k + 1 == fragment_count(len) {
        len
    } else {
        fragment_begin(k + 1)
    }
}

/// A fragment as it goes on the wire: the RTP header, the fragmentation
/// header, and the bytes of the unit from `lo` up to `hi`.
pub open spec fn fragment_bytes(
    nal: Seq<u8>,
    lo: int,
    hi: int,
    first: bool,
    last: bool,
    seq: u16,
    ts: u32,
    ssrc: u32,
) -> Seq<u8> {
    header_bytes(last, seq, ts, ssrc) + seq![fu_indicator(nal[0]), fu_header(nal[0], first, last)]
        + nal.subrange(lo, hi)
}

/// Fragment `k` of a unit, where `first_seq` is the sequence number of
/// fragment 0. The marker goes with the end bit.
pub open spec fn fragment_packet(nal: Seq<u8>, k: int, first_seq: u16, ts: u32, ssrc: u32) -> Seq<
    u8,
> {
    fragment_bytes(
        nal,
        fragment_begin(k),
        fragment_end(nal.len() as int, k),
        k == 0,
        k + 1 == fragment_count(nal.len() as int),
        wrap_seq(first_seq + k),
        ts,
        ssrc,
    )
}

/// The datagrams that carry one unit, in the order in which they are sent.
pub open spec fn nal_packets(nal: Seq<u8>, first_seq: u16, ts: u32, ssrc: u32) -> Seq<Seq<u8>> {
    if needs_fragmentation(nal.len() as int) {
        Seq::new(
            fragment_count(nal.len() as int) as nat,
            |k: int| fragment_packet(nal, k, first_seq, ts, ssrc),
        )
    } else {
        seq![single_packet(nal, first_seq, ts, ssrc)]
    }
}

/// The datagrams that carry a run of units, one timestamp for each unit; the
/// sequence numbers run on from unit to unit.
pub open spec fn frame_packets(
    units: Seq<Seq<u8>>,
    stamps: Seq<u32>,
    first_seq: u16,
    ssrc: u32,
) -> Seq<Seq<u8>>
    decreases units.len(),
{
    if units.len() == 0 {
        Seq::empty()
    } else {
        let before = frame_packets(units.drop_last(), stamps.drop_last(), first_seq, ssrc);
        before + nal_packets(
            units.last(),
            wrap_seq(first_seq + before.len()),
            stamps.last(),
            ssrc,
        )
    }
}

/// The marker bit of a datagram.
pub open spec fn packet_marker(packet: Seq<u8>) -> bool {
    packet[1] & 0x80 == 0x80
}

/// The payload type of a datagram.
pub open spec fn packet_payload_type(packet: Seq<u8>) -> u8 {
    packet[1] & 0x7f
}

/// The sequence number of a datagram.
pub open spec fn packet_sequence(packet: Seq<u8>) -> int {
    packet[2] * 0x100 + packet[3]
}

/// The timestamp of a datagram.
pub open spec fn packet_timestamp(packet: Seq<u8>) -> int {
    ((packet[4] * 0x100 + packet[5]) * 0x100 + packet[6]) * 0x100 + packet[7]
}

/// The SSRC of a datagram.
pub open spec fn packet_ssrc(packet: Seq<u8>) -> int {
    ((packet[8] * 0x100 + packet[9]) * 0x100 + packet[10]) * 0x100 + packet[11]
}

/// The start bit of a fragment.
pub open spec fn fragment_start_bit(packet: Seq<u8>) -> bool {
    packet[13] & 0x80 == 0x80
}

/// The end bit of a fragment.
pub open spec fn fragment_end_bit(packet: Seq<u8>) -> bool {
    packet[13] & 0x40 == 0x40
}

/// The bytes of the unit that a fragment carries.
pub open spec fn fragment_payload(packet: Seq<u8>) -> Seq<u8> {
    packet.subrange(RTP_HEADER_SIZE + FU_A_SIZE, packet.len() as int)
}

/// How many fragments a long unit has: at least two, and as many as its
/// bytes after the header byte fill, the last one perhaps in part.
pub proof fn lemma_fragment_bounds(len: int)
    requires
        needs_fragmentation(len),
    ensures
        fragment_count(len) >= 2,
        (fragment_count(len) - 1) * 1386 < len - 1 <= fragment_count(len) * 1386,
{
}

/// Where fragment `k` of a long unit lies in it: a piece that is not empty
/// and no longer than `MAX_FRAGMENT_SIZE`, and the last one is the one that
/// reaches the end of the unit.
pub proof fn lemma_fragment_range(len: int, k: int)
    requires
        needs_fragmentation(len),
        0 <= k < fragment_count(len),
    ensures
        fragment_begin(k) == 1 + k * 1386,
        1 <= fragment_begin(k) < fragment_end(len, k) <= len,
        fragment_end(len, k) - fragment_begin(k) <= MAX_FRAGMENT_SIZE == 1386,
        k + 1 == fragment_count(len) <==> len - fragment_begin(k) <= 1386,
        k + 1 < fragment_count(len) ==> fragment_end(len, k) == fragment_begin(k) + 1386,
{
    lemma_fragment_bounds(len);
}

/// The datagrams of a long unit are its fragments, one for each index.
pub proof fn lemma_fragment_packets(nal: Seq<u8>, first_seq: u16, ts: u32, ssrc: u32)
    requires
        needs_fragmentation(nal.len() as int),
    ensures
        nal_packets(nal, first_seq, ts, ssrc).len() == fragment_count(nal.len() as int),
        forall|k: int|
            0 <= k < fragment_count(nal.len() as int) ==> #[trigger] nal_packets(
                nal,
                first_seq,
                ts,
                ssrc,
            )[k] == fragment_packet(nal, k, first_seq, ts, ssrc),
{
    lemma_fragment_bounds(nal.len() as int);
}

/// Counting `n` datagrams on and then `m` more is counting `n + m` on.
pub proof fn lemma_wrap_seq_add(first_seq: u16, n: int, m: int)
    requires
        0 <= n,
        0 <= m,
    ensures
        (wrap_seq(first_seq + n) + m) % 0x1_0000 == (first_seq + n + m) % 0x1_0000,
        wrap_seq(wrap_seq(first_seq + n) + m) == wrap_seq(first_seq + n + m),
        wrap_seq(first_seq + 0) == first_seq,
{
}

/// What the bits of a fragmentation header say, whatever the header byte of
/// the unit: the indicator has type 28 and the unit's upper three bits; the
/// FU header has the unit's type, the start and end bits as given, and the
/// reserved bit clear.
pub proof fn lemma_fu_bits(header: u8, first: bool, last: bool)
    ensures
        fu_indicator(header) & 0x1F == FU_A_TYPE,
        fu_indicator(header) & 0xE0 == header & 0xE0,
        fu_header(header, first, last) & 0x1F == header & 0x1F,
        fu_header(header, first, last) & 0x80 == 0x80 <==> first,
        fu_header(header, first, last) & 0x40 == 0x40 <==> last,
        fu_header(header, first, last) & 0x20 == 0,
{
    assert(((header & 0xE0) | 28) & 0x1F == 28) by (bit_vector);
    assert(((header & 0xE0) | 28) & 0xE0 == header & 0xE0) by (bit_vector);
    assert(forall|s: u8, e: u8|
        (s == 0 || s == 0x80) && (e == 0 || e == 0x40) ==> {
            &&& (#[trigger] ((header & 0x1F) | s | e)) & 0x1F == header & 0x1F
            &&& (((header & 0x1F) | s | e) & 0x80 == 0x80 <==> s == 0x80)
            &&& (((header & 0x1F) | s | e) & 0x40 == 0x40 <==> e == 0x40)
            &&& ((header & 0x1F) | s | e) & 0x20 == 0
        }) by (bit_vector);
}

/// What a receiver reads from a datagram that begins with a header: the
/// fields that went into the header, and behind them the payload.
pub proof fn lemma_header_fields(marker: bool, seq: u16, ts: u32, ssrc: u32, payload: Seq<u8>)
    ensures
        (header_bytes(marker, seq, ts, ssrc) + payload).len() == RTP_HEADER_SIZE + payload.len(),
        (header_bytes(marker, seq, ts, ssrc) + payload)[0] == 0x80,
        packet_marker(header_bytes(marker, seq, ts, ssrc) + payload) == marker,
        packet_payload_type(header_bytes(marker, seq, ts, ssrc) + payload) == 96,
        packet_sequence(header_bytes(marker, seq, ts, ssrc) + payload) == seq,
        packet_timestamp(header_bytes(marker, seq, ts, ssrc) + payload) == ts,
        packet_ssrc(header_bytes(marker, seq, ts, ssrc) + payload) == ssrc,
        (header_bytes(marker, seq, ts, ssrc) + payload).subrange(
            RTP_HEADER_SIZE as int,
            RTP_HEADER_SIZE + payload.len(),
        ) == payload,
{
    assert(0xE0u8 & 0x80 == 0x80 && 0xE0u8 & 0x7f == 96 && 0x60u8 & 0x80 == 0 && 0x60u8 & 0x7f
        == 96) by (bit_vector);
}

/// A unit that fits the packet budget travels in exactly one datagram: the
/// header with the marker set, then the unit, unchanged.
pub proof fn lemma_whole_unit(nal: Seq<u8>, first_seq: u16, ts: u32, ssrc: u32)
    requires
        nal.len() + 12 <= 1400,
    ensures
        nal_packets(nal, first_seq, ts, ssrc).len() == 1,
        nal_packets(nal, first_seq, ts, ssrc)[0].len() == nal.len() + 12,
        packet_marker(nal_packets(nal, first_seq, ts, ssrc)[0]),
        packet_sequence(nal_packets(nal, first_seq, ts, ssrc)[0]) == first_seq,
        packet_timestamp(nal_packets(nal, first_seq, ts, ssrc)[0]) == ts,
        nal_packets(nal, first_seq, ts, ssrc)[0].subrange(12, 12 + nal.len() as int) == nal,
{
    lemma_header_fields(true, first_seq, ts, ssrc, nal);
}

/// A unit that exceeds the packet budget travels in FU-A fragments.
///
/// There are as many as its bytes after the header byte need at 1386 to a
/// fragment, which is two at least. None exceeds the packet budget and none
/// is empty. The first alone has the start bit; the last alone has the end
/// bit and the marker. Every one names the unit's type and carries type 28
/// with the unit's upper three bits in its indicator.
pub proof fn lemma_fragmented_unit(nal: Seq<u8>, first_seq: u16, ts: u32, ssrc: u32)
    requires
        nal.len() + 12 > 1400,
    ensures
        nal_packets(nal, first_seq, ts, ssrc).len() == fragment_count(nal.len() as int),
        nal_packets(nal, first_seq, ts, ssrc).len() >= 2,
        (nal_packets(nal, first_seq, ts, ssrc).len() - 1) * 1386 < nal.len() - 1
            <= nal_packets(nal, first_seq, ts, ssrc).len() * 1386,
        forall|k: int|
            0 <= k < nal_packets(nal, first_seq, ts, ssrc).len() ==> {
                let packet = #[trigger] nal_packets(nal, first_seq, ts, ssrc)[k];
                let count = nal_packets(nal, first_seq, ts, ssrc).len();
                &&& 14 < packet.len() <= 1400
                &&& fragment_start_bit(packet) <==> k == 0
                &&& fragment_end_bit(packet) <==> k == count - 1
                &&& packet_marker(packet) <==> k == count - 1
                &&& packet[12] & 0x1F == FU_A_TYPE
                &&& packet[12] & 0xE0 == nal[0] & 0xE0
                &&& packet[13] & 0x1F == nal[0] & 0x1F
                &&& packet[13] & 0x20 == 0
                &&& fragment_payload(packet) == nal.subrange(
                    fragment_begin(k),
                    fragment_end(nal.len() as int, k),
                )
            },
{
    let packets = nal_packets(nal, first_seq, ts, ssrc);
    let count = fragment_count(nal.len() as int);
    lemma_fragment_bounds(nal.len() as int);
    assert forall|k: int| 0 <= k < packets.len() implies {
        let packet = #[trigger] packets[k];
        &&& 14 < packet.len() <= 1400
        &&& fragment_start_bit(packet) <==> k == 0
        &&& fragment_end_bit(packet) <==> k == count - 1
        &&& packet_marker(packet) <==> k == count - 1
        &&& packet[12] & 0x1F == FU_A_TYPE
        &&& packet[12] & 0xE0 == nal[0] & 0xE0
        &&& packet[13] & 0x1F == nal[0] & 0x1F
        &&& packet[13] & 0x20 == 0
        &&& fragment_payload(packet) == nal.subrange(
            fragment_begin(k),
            fragment_end(nal.len() as int, k),
        )
    } by {
        let last = k + 1 == count;
        let piece = nal.subrange(fragment_begin(k), fragment_end(nal.len() as int, k));
        let payload = seq![fu_indicator(nal[0]), fu_header(nal[0], k == 0, last)] + piece;
        lemma_fragment_range(nal.len() as int, k);
        lemma_fu_bits(nal[0], k == 0, last);
        lemma_header_fields(last, wrap_seq(first_seq + k), ts, ssrc, payload);
    }
}

/// The bytes that the first `n` of a run of fragments carry, joined in order.
pub open spec fn reassembled(packets: Seq<Seq<u8>>, n: int) -> Seq<u8>
    decreases n,
{
    if n <= 0 {
        Seq::empty()
    } else {
        reassembled(packets, n - 1) + fragment_payload(packets[n - 1])
    }
}

/// The fragments of a unit, joined in order, give back the unit's bytes
/// after its header byte; the header byte is the indicator's upper three bits
/// and the FU header's lower five.
pub proof fn lemma_fragments_reassemble(nal: Seq<u8>, first_seq: u16, ts: u32, ssrc: u32)
    requires
        nal.len() + 12 > 1400,
    ensures
        reassembled(
            nal_packets(nal, first_seq, ts, ssrc),
            nal_packets(nal, first_seq, ts, ssrc).len() as int,
        ) == nal.subrange(1, nal.len() as int),
        (nal_packets(nal, first_seq, ts, ssrc)[0][12] & 0xE0) | (nal_packets(
            nal,
            first_seq,
            ts,
            ssrc,
        )[0][13] & 0x1F) == nal[0],
{
    let packets = nal_packets(nal, first_seq, ts, ssrc);
    lemma_fragmented_unit(nal, first_seq, ts, ssrc);
    lemma_reassembled_prefix(nal, first_seq, ts, ssrc, packets.len() as int);
    lemma_fragment_range(nal.len() as int, packets.len() - 1);
    let header = nal[0];
    assert((header & 0xE0) | (header & 0x1F) == header) by (bit_vector);
}

proof fn lemma_reassembled_prefix(nal: Seq<u8>, first_seq: u16, ts: u32, ssrc: u32, n: int)
    requires
        nal.len() + 12 > 1400,
        1 <= n <= fragment_count(nal.len() as int),
    ensures
        reassembled(nal_packets(nal, first_seq, ts, ssrc), n) == nal.subrange(
            1,
            fragment_end(nal.len() as int, n - 1),
        ),
    decreases n,
{
    let packets = nal_packets(nal, first_seq, ts, ssrc);
    lemma_fragmented_unit(nal, first_seq, ts, ssrc);
    lemma_fragment_range(nal.len() as int, n - 1);
    if n > 1 {
        lemma_reassembled_prefix(nal, first_seq, ts, ssrc, n - 1);
        lemma_fragment_range(nal.len() as int, n - 2);
    } else {
        assert(reassembled(packets, 0) =~= Seq::<u8>::empty());
    }
}

/// The datagrams of one unit carry consecutive sequence numbers, counted
/// modulo 65536 from the first, and all of them the unit's timestamp and the
/// session's SSRC.
pub proof fn lemma_unit_header_fields(nal: Seq<u8>, first_seq: u16, ts: u32, ssrc: u32)
    ensures
        nal_packets(nal, first_seq, ts, ssrc).len() >= 1,
        forall|k: int|
            0 <= k < nal_packets(nal, first_seq, ts, ssrc).len() ==> {
                let packet = #[trigger] nal_packets(nal, first_seq, ts, ssrc)[k];
                &&& packet.len() >= 12
                &&& packet[0] == 0x80
                &&& packet_payload_type(packet) == 96
                &&& packet_sequence(packet) == (first_seq + k) % 0x1_0000
                &&& packet_timestamp(packet) == ts
                &&& packet_ssrc(packet) == ssrc
            },
{
    let packets = nal_packets(nal, first_seq, ts, ssrc);
    if needs_fragmentation(nal.len() as int) {
        lemma_fragment_bounds(nal.len() as int);
        assert forall|k: int| 0 <= k < packets.len() implies {
            let packet = #[trigger] packets[k];
            &&& packet.len() >= 12
            &&& packet[0] == 0x80
            &&& packet_payload_type(packet) == 96
            &&& packet_sequence(packet) == (first_seq + k) % 0x1_0000
            &&& packet_timestamp(packet) == ts
            &&& packet_ssrc(packet) == ssrc
        } by {
            let last = k + 1 == fragment_count(nal.len() as int);
            let payload = seq![fu_indicator(nal[0]), fu_header(nal[0], k == 0, last)]
                + nal.subrange(fragment_begin(k), fragment_end(nal.len() as int, k));
            lemma_header_fields(last, wrap_seq(first_seq + k), ts, ssrc, payload);
        }
    } else {
        lemma_header_fields(true, first_seq, ts, ssrc, nal);
    }
}

/// The datagrams of a run of units and of one more unit behind them.
pub proof fn lemma_frame_packets_push(
    units: Seq<Seq<u8>>,
    stamps: Seq<u32>,
    unit: Seq<u8>,
    stamp: u32,
    first_seq: u16,
    ssrc: u32,
)
    ensures
        frame_packets(units.push(unit), stamps.push(stamp), first_seq, ssrc) == frame_packets(
            units,
            stamps,
            first_seq,
            ssrc,
        ) + nal_packets(
            unit,
            wrap_seq(first_seq + frame_packets(units, stamps, first_seq, ssrc).len()),
            stamp,
            ssrc,
        ),
{
    assert(units.push(unit).drop_last() =~= units);
    assert(stamps.push(stamp).drop_last() =~= stamps);
}

/// The datagrams of two runs of units, the second sent behind the first, are
/// the datagrams of the one run that holds them all.
pub proof fn lemma_frame_packets_concat(
    units: Seq<Seq<u8>>,
    stamps: Seq<u32>,
    more_units: Seq<Seq<u8>>,
    more_stamps: Seq<u32>,
    first_seq: u16,
    ssrc: u32,
)
    requires
        stamps.len() == units.len(),
        more_stamps.len() == more_units.len(),
    ensures
        frame_packets(units + more_units, stamps + more_stamps, first_seq, ssrc) == frame_packets(
            units,
            stamps,
            first_seq,
            ssrc,
        ) + frame_packets(
            more_units,
            more_stamps,
            wrap_seq(first_seq + frame_packets(units, stamps, first_seq, ssrc).len()),
            ssrc,
        ),
    decreases more_units.len(),
{
    let first = frame_packets(units, stamps, first_seq, ssrc);
    let next = wrap_seq(first_seq + first.len());
    if more_units.len() == 0 {
        assert(units + more_units =~= units);
        assert(stamps + more_stamps =~= stamps);
        assert(first + frame_packets(more_units, more_stamps, next, ssrc) =~= first);
    } else {
        let head_units = more_units.drop_last();
        let head_stamps = more_stamps.drop_last();
        let head = frame_packets(head_units, head_stamps, next, ssrc);
        lemma_frame_packets_concat(units, stamps, head_units, head_stamps, first_seq, ssrc);
        assert((units + more_units).drop_last() =~= units + head_units);
        assert((stamps + more_stamps).drop_last() =~= stamps + head_stamps);
        lemma_wrap_seq_add(first_seq, first.len() as int, head.len() as int);
        let last = nal_packets(
            more_units.last(),
            wrap_seq(next + head.len()),
            more_stamps.last(),
            ssrc,
        );
        assert(first + head + last =~= first + (head + last));
    }
}

/// Across a run of units the sequence numbers are consecutive modulo 65536
/// from the first datagram to the last, whatever the units' boundaries.
pub proof fn lemma_frame_sequence_numbers(
    units: Seq<Seq<u8>>,
    stamps: Seq<u32>,
    first_seq: u16,
    ssrc: u32,
)
    ensures
        frame_packets(units, stamps, first_seq, ssrc).len() >= units.len(),
        forall|k: int|
            0 <= k < frame_packets(units, stamps, first_seq, ssrc).len() ==> packet_sequence(
                #[trigger] frame_packets(units, stamps, first_seq, ssrc)[k],
            ) == (first_seq + k) % 0x1_0000,
    decreases units.len(),
{
    if units.len() > 0 {
        let before = frame_packets(units.drop_last(), stamps.drop_last(), first_seq, ssrc);
        let next = wrap_seq(first_seq + before.len());
        let tail = nal_packets(units.last(), next, stamps.last(), ssrc);
        lemma_frame_sequence_numbers(units.drop_last(), stamps.drop_last(), first_seq, ssrc);
        lemma_unit_header_fields(units.last(), next, stamps.last(), ssrc);
        let all = frame_packets(units, stamps, first_seq, ssrc);
        assert forall|k: int| 0 <= k < all.len() implies packet_sequence(#[trigger] all[k]) == (
        first_seq + k) % 0x1_0000 by {
            if k >= before.len() {
                let j = k - before.len();
                lemma_wrap_seq_add(first_seq, before.len() as int, j);
            }
        }
    }
}

} // verus!

//! The packetizer session: a sequence counter, a scratch buffer, and the
//! rules that turn NAL units into datagrams.
//!
//! The session does not own a socket. It appends each datagram, complete and
//! in sending order, to an outbox that the caller hands in; the caller sends
//! them to `destination()`.

use crate::clock::get_timestamp;
use crate::clock::is_clock_stamp;
use crate::error::PushError;
use crate::nal::has_nal;
use crate::nal::lemma_short_buffer_has_no_nal;
use crate::nal::lemma_units_unfold;
use crate::nal::locate_nal;
use crate::nal::nal_units;
use crate::packet::frame_packets;
use crate::packet::fragment_begin;
use crate::packet::fragment_count;
use crate::packet::fragment_bytes;
use crate::packet::fragment_packet;
use crate::packet::lemma_fragment_bounds;
use crate::packet::lemma_fragment_packets;
use crate::packet::lemma_fragment_range;
use crate::packet::lemma_frame_packets_push;
use crate::packet::lemma_wrap_seq_add;
use crate::packet::nal_packets;
use crate::packet::needs_fragmentation;
use crate::packet::wrap_seq;
use crate::packet::FU_A_SIZE;
use crate::packet::FU_A_TYPE;
use crate::packet::MAX_FRAGMENT_SIZE;
use crate::rtp::header_bytes;
use crate::rtp::RtpHeader;
use crate::rtp::MAX_RTP_BUF_SIZE;
use crate::rtp::RTP_HEADER_SIZE;
use vstd::prelude::*;
use vstd::slice::slice_subrange;
use vstd::slice::slice_to_vec;

verus! {

/// SSRC of a session that was given none.
pub const DEFAULT_SSRC: u32 = 12345;

/// What a session is, as its contracts see it.
pub struct PusherView {
    /// Where the caller is to send the datagrams.
    pub destination: Seq<char>,
    /// The session's SSRC.
    pub ssrc: u32,
    /// Sequence number of the next datagram.
    pub sequence: u16,
    /// The datagram assembled last; empty before the first.
    pub packet: Seq<u8>,
}

impl PusherView {
    /// The session after it has emitted the datagrams `sent`.
    pub open spec fn after(self, sent: Seq<Seq<u8>>) -> PusherView {
        PusherView {
            destination: self.destination,
            ssrc: self.ssrc,
            sequence: wrap_seq(self.sequence + sent.len()),
            packet: if sent.len() == 0 {
                self.packet
            } else {
                sent.last()
            },
        }
    }
}

/// The bytes of each datagram in an outbox.
pub open spec fn datagrams(outbox: Seq<Vec<u8>>) -> Seq<Seq<u8>> {
    outbox.map_values(|datagram: Vec<u8>| datagram@)
}

/// What `send_frame` has done when it returns `done`: of the frame's
/// `units`, as many as there are `stamps` were packetized, each under its
/// stamp; the rest were not, and that is all of them exactly when the call
/// succeeded.
pub open spec fn frame_outcome(
    before: PusherView,
    after: PusherView,
    queued: Seq<Seq<u8>>,
    outbox: Seq<Seq<u8>>,
    units: Seq<Seq<u8>>,
    stamps: Seq<u32>,
    done: Result<(), PushError>,
) -> bool {
    let sent = frame_packets(
        units.take(stamps.len() as int),
        stamps,
        before.sequence,
        before.ssrc,
    );
    &&& stamps.len() <= units.len()
    &&& done is Ok <==> stamps.len() == units.len()
    &&& forall|k: int| 0 <= k < stamps.len() ==> is_clock_stamp(#[trigger] stamps[k])
    &&& outbox == queued + sent
    &&& after == before.after(sent)
}

/// An RTP packetizer for one H.264 stream.
pub struct H264RtpPusher {
    destination_address: String,
    ssrc: u32,
    rtp_buffer: [u8; MAX_RTP_BUF_SIZE],
    rtp_buffer_size: usize,
    rtp_seq: u16,
}

impl View for H264RtpPusher {
    type V = PusherView;

    closed spec fn view(&self) -> PusherView {
        PusherView {
            destination: self.destination_address@,
            ssrc: self.ssrc,
            sequence: self.rtp_seq,
            packet: self.rtp_buffer@.subrange(0, self.rtp_buffer_size as int),
        }
    }
}

impl H264RtpPusher {
    #[verifier::type_invariant]
    spec fn well_formed(&self) -> bool {
        self.rtp_buffer_size <= MAX_RTP_BUF_SIZE
    }

    /// What stands in the scratch buffer behind the place of the RTP header.
    spec fn payload(&self) -> Seq<u8> {
        self.rtp_buffer@.subrange(RTP_HEADER_SIZE as int, self.rtp_buffer_size as int)
    }

    /// A session that sends to `destination`, with the default SSRC and the
    /// sequence numbers starting at 0.
    pub fn new(destination: &str) -> (pusher: H264RtpPusher)
        ensures
            pusher@ == (PusherView {
                destination: destination@,
                ssrc: DEFAULT_SSRC,
                sequence: 0,
                packet: Seq::empty(),
            }),
    {
        H264RtpPusher::with_session(destination, DEFAULT_SSRC, 0)
    }

    /// A session that sends to `destination` under the given SSRC, with the
    /// sequence numbers starting at `first_sequence`.
    pub fn with_session(destination: &str, ssrc: u32, first_sequence: u16) -> (pusher:
        H264RtpPusher)
        ensures
            pusher@ == (PusherView {
                destination: destination@,
                ssrc,
                sequence: first_sequence,
                packet: Seq::empty(),
            }),
    {
        let pusher = H264RtpPusher {
            destination_address: destination.to_owned(),
            ssrc,
            rtp_buffer: [0u8; MAX_RTP_BUF_SIZE],
            rtp_buffer_size: 0,
            rtp_seq: first_sequence,
        };
        assert(pusher@.packet =~= Seq::<u8>::empty());
        pusher
    }

    /// Where the datagrams are to be sent.
    pub fn destination(&self) -> (destination: &str)
        ensures
            destination@ == self@.destination,
    {
        self.destination_address.as_str()
    }

    /// The session's SSRC.
    pub fn ssrc(&self) -> (ssrc: u32)
        ensures
            ssrc == self@.ssrc,
    {
        self.ssrc
    }

    /// Sequence number that the next datagram will carry.
    pub fn sequence(&self) -> (sequence: u16)
        ensures
            sequence == self@.sequence,
    {
        self.rtp_seq
    }

    /// The datagram assembled last, as it stands in the scratch buffer.
    pub fn last_packet(&self) -> (packet: &[u8])
        ensures
            packet@ == self@.packet,
    {
        proof {
            use_type_invariant(self);
        }
        slice_subrange(self.rtp_buffer.as_slice(), 0, self.rtp_buffer_size)
    }

    /// Packetizes one NAL unit under the given timestamp.
    ///
    /// A unit that fits the packet budget becomes one datagram with the
    /// marker set. A longer one becomes a run of FU-A fragments that share
    /// the timestamp; the first has the start bit, the last the end bit and
    /// the marker. Each datagram takes the next sequence number and is
    /// appended to `outbox`.
    pub fn packetize_nal(&mut self, nal_buf: &[u8], timestamp: u32, outbox: &mut Vec<Vec<u8>>)
        ensures
            datagrams(final(outbox)@) == datagrams(old(outbox)@) + nal_packets(
                nal_buf@,
                old(self)@.sequence,
                timestamp,
                old(self)@.ssrc,
            ),
            final(self)@ == old(self)@.after(
                nal_packets(nal_buf@, old(self)@.sequence, timestamp, old(self)@.ssrc),
            ),
    {
        if nal_buf.len() <= MAX_RTP_BUF_SIZE - RTP_HEADER_SIZE {
            self.push_whole(nal_buf, timestamp, outbox);
        } else {
            self.push_fragments(nal_buf, timestamp, outbox);
        }
    }

    /// Packetizes one NAL unit under a fresh timestamp from the wall clock,
    /// and returns that timestamp.
    ///
    /// Where the clock cannot be read, nothing is emitted and the session is
    /// left as it was.
    pub fn handle_nal(&mut self, nal_buf: &[u8], outbox: &mut Vec<Vec<u8>>) -> (done: Result<
        u32,
        PushError,
    >)
        ensures
            done matches Err(e) ==> e == PushError::ClockUnavailable && final(self)@ == old(
                self,
            )@ && final(outbox)@ == old(outbox)@,
            done matches Ok(stamp) ==> {
                &&& is_clock_stamp(stamp)
                &&& datagrams(final(outbox)@) == datagrams(old(outbox)@) + nal_packets(
                    nal_buf@,
                    old(self)@.sequence,
                    stamp,
                    old(self)@.ssrc,
                )
                &&& final(self)@ == old(self)@.after(
                    nal_packets(nal_buf@, old(self)@.sequence, stamp, old(self)@.ssrc),
                )
            },
    {
        match get_timestamp() {
            Ok(stamp) => {
                self.packetize_nal(nal_buf, stamp, outbox);
                Ok(stamp)
            },
            Err(e) => Err(e),
        }
    }

    /// Packetizes every NAL unit of a frame, each under a fresh timestamp.
    ///
    /// The frame is scanned unit by unit; the datagrams of each unit are
    /// appended to `outbox` in order. Where the clock cannot be read, the
    /// call stops there and reports it: the datagrams of the units before
    /// are in the outbox, and the session stands as it did after them.
    pub fn send_frame(&mut self, frame_buffer: &[u8], outbox: &mut Vec<Vec<u8>>) -> (done: Result<
        (),
        PushError,
    >)
        ensures
            done matches Err(e) ==> e == PushError::ClockUnavailable,
            frame_buffer@.len() <= 4 || !has_nal(frame_buffer@) ==> done is Ok && final(self)@
                == old(self)@ && datagrams(final(outbox)@) == datagrams(old(outbox)@),
            exists|stamps: Seq<u32>| #[trigger]
                frame_outcome(
                    old(self)@,
                    final(self)@,
                    datagrams(old(outbox)@),
                    datagrams(final(outbox)@),
                    nal_units(frame_buffer@),
                    stamps,
                    done,
                ),
    {
        let mut remaining = frame_buffer;
        let ghost queued = datagrams(outbox@);
        let ghost mut taken: Seq<Seq<u8>> = Seq::empty();
        let ghost mut stamps: Seq<u32> = Seq::empty();
        proof {
            lemma_progress_begins(self@, queued);
        }
        loop
            invariant
                queued == datagrams(old(outbox)@),
                nal_units(frame_buffer@) == taken + nal_units(remaining@),
                in_progress(old(self)@, self@, queued, datagrams(outbox@), taken, stamps),
            decreases remaining@.len(),
        {
            let found = locate_nal(remaining);
            if found.is_none() {
                let done = Ok(());
                proof {
                    lemma_progress_outcome(
                        old(self)@,
                        self@,
                        queued,
                        datagrams(outbox@),
                        frame_buffer@,
                        taken,
                        nal_units(remaining@),
                        stamps,
                        done,
                    );
                }
                return done;
            }
            let span = found.unwrap();
            let unit = slice_subrange(remaining, span.start, span.end);
            let rest = slice_subrange(remaining, span.end, remaining.len());
            proof {
                lemma_units_unfold(remaining@);
                lemma_take_unit(taken, unit@, nal_units(rest@));
            }
            let ghost middle = self@;
            let ghost outbox_middle = datagrams(outbox@);
            match self.handle_nal(unit, outbox) {
                Err(e) => {
                    let done = Err(e);
                    proof {
                        lemma_progress_outcome(
                            old(self)@,
                            self@,
                            queued,
                            datagrams(outbox@),
                            frame_buffer@,
                            taken,
                            nal_units(remaining@),
                            stamps,
                            done,
                        );
                    }
                    return done;
                },
                Ok(stamp) => {
                    proof {
                        lemma_progress_step(
                            old(self)@,
                            middle,
                            self@,
                            queued,
                            outbox_middle,
                            datagrams(outbox@),
                            taken,
                            stamps,
                            unit@,
                            stamp,
                        );
                        taken = taken.push(unit@);
                        stamps = stamps.push(stamp);
                    }
                },
            }
            if span.trailing {
                let done = Ok(());
                proof {
                    lemma_progress_outcome(
                        old(self)@,
                        self@,
                        queued,
                        datagrams(outbox@),
                        frame_buffer@,
                        taken,
                        nal_units(rest@),
                        stamps,
                        done,
                    );
                }
                return done;
            }
            remaining = rest;
        }
    }

    /// Emits the single datagram of a unit that fits the packet budget.
    fn push_whole(&mut self, nal_buf: &[u8], timestamp: u32, outbox: &mut Vec<Vec<u8>>)
        requires
            !needs_fragmentation(nal_buf@.len() as int),
        ensures
            datagrams(final(outbox)@) == datagrams(old(outbox)@) + nal_packets(
                nal_buf@,
                old(self)@.sequence,
                timestamp,
                old(self)@.ssrc,
            ),
            final(self)@ == old(self)@.after(
                nal_packets(nal_buf@, old(self)@.sequence, timestamp, old(self)@.ssrc),
            ),
    {
        self.fill(RTP_HEADER_SIZE, nal_buf);
        self.rtp_buffer_size = RTP_HEADER_SIZE + nal_buf.len();
        assert(self.payload() =~= nal_buf@);
        self.emit_packet(true, timestamp, outbox);
    }

    /// Emits the FU-A fragments of a unit that exceeds the packet budget.
    fn push_fragments(&mut self, nal_buf: &[u8], timestamp: u32, outbox: &mut Vec<Vec<u8>>)
        requires
            needs_fragmentation(nal_buf@.len() as int),
        ensures
            datagrams(final(outbox)@) == datagrams(old(outbox)@) + nal_packets(
                nal_buf@,
                old(self)@.sequence,
                timestamp,
                old(self)@.ssrc,
            ),
            final(self)@ == old(self)@.after(
                nal_packets(nal_buf@, old(self)@.sequence, timestamp, old(self)@.ssrc),
            ),
    {
        let len = nal_buf.len();
        let ghost packets = nal_packets(nal_buf@, self.rtp_seq, timestamp, self.ssrc);
        let ghost count = fragment_count(len as int);
        let ghost queued = datagrams(outbox@);
        let mut offset: usize = 1;
        let mut first = true;
        let ghost mut sent: int = 0;
        proof {
            lemma_fragment_bounds(len as int);
            lemma_fragment_range(len as int, 0);
            lemma_fragment_packets(nal_buf@, self.rtp_seq, timestamp, self.ssrc);
            lemma_take_next(queued, packets, 0);
            lemma_wrap_seq_add(self.rtp_seq, 0, 1);
        }
        while offset < len
            invariant
                len == nal_buf@.len(),
                needs_fragmentation(len as int),
                count == fragment_count(len as int),
                packets.len() == count,
                forall|k: int|
                    0 <= k < count ==> #[trigger] packets[k] == fragment_packet(
                        nal_buf@,
                        k,
                        old(self).rtp_seq,
                        timestamp,
                        old(self).ssrc,
                    ),
                0 <= sent <= count,
                sent < count ==> offset == fragment_begin(sent),
                sent == count ==> offset == len,
                first == (sent == 0),
                self.destination_address == old(self).destination_address,
                self.ssrc == old(self).ssrc,
                self.rtp_seq == wrap_seq(old(self).rtp_seq + sent),
                sent == 0 ==> self@.packet == old(self)@.packet,
                sent > 0 ==> self@.packet == packets[sent - 1],
                datagrams(outbox@) == queued + packets.take(sent),
            decreases len - offset,
        {
            let rest = len - offset;
            let last = rest <= MAX_FRAGMENT_SIZE;
            let size = if last {
                rest
            } else {
                MAX_FRAGMENT_SIZE
            };
            proof {
                lemma_fragment_range(len as int, sent);
                if sent + 1 < count {
                    lemma_fragment_range(len as int, sent + 1);
                }
                lemma_take_next(queued, packets, sent);
                lemma_wrap_seq_add(old(self).rtp_seq, sent, 1);
            }
            self.push_fragment(nal_buf, offset, size, first, last, timestamp, outbox);
            proof {
                sent = sent + 1;
            }
            offset += size;
            first = false;
        }
        proof {
            lemma_take_next(queued, packets, count - 1);
        }
    }

    /// Emits one FU-A fragment: the bytes of the unit from `offset` on, `size`
    /// of them, behind the fragmentation header.
    fn push_fragment(
        &mut self,
        nal_buf: &[u8],
        offset: usize,
        size: usize,
        first: bool,
        last: bool,
        timestamp: u32,
        outbox: &mut Vec<Vec<u8>>,
    )
        requires
            1 <= offset,
            offset + size <= nal_buf@.len(),
            size <= MAX_FRAGMENT_SIZE,
        ensures
            final(self).destination_address == old(self).destination_address,
            final(self).ssrc == old(self).ssrc,
            final(self).rtp_seq == wrap_seq(old(self).rtp_seq + 1),
            final(self)@.packet == fragment_bytes(
                nal_buf@,
                offset as int,
                offset + size,
                first,
                last,
                old(self).rtp_seq,
                timestamp,
                old(self).ssrc,
            ),
            datagrams(final(outbox)@) == datagrams(old(outbox)@).push(final(self)@.packet),
    {
        let nal_header = nal_buf[0];
        let indicator: u8 = (nal_header & 0xE0) | FU_A_TYPE;
        let start_bit: u8 = if first {
            0x80
        } else {
            0
        };
        let end_bit: u8 = if last {
            0x40
        } else {
            0
        };
        let header: u8 = (nal_header & 0x1F) | start_bit | end_bit;
        let chunk = slice_subrange(nal_buf, offset, offset + size);
        proof {
            use_type_invariant(&*self);
        }
        self.rtp_buffer[RTP_HEADER_SIZE] = indicator;
        self.rtp_buffer[RTP_HEADER_SIZE + 1] = header;
        self.fill(RTP_HEADER_SIZE + FU_A_SIZE, chunk);
        self.rtp_buffer_size = RTP_HEADER_SIZE + FU_A_SIZE + size;
        self.emit_packet(last, timestamp, outbox);
    }

    /// Completes the datagram whose payload stands in the scratch buffer:
    /// writes the header before it, takes the next sequence number, and
    /// appends a copy to the outbox.
    fn emit_packet(&mut self, marker: bool, timestamp: u32, outbox: &mut Vec<Vec<u8>>)
        requires
            RTP_HEADER_SIZE <= old(self).rtp_buffer_size <= MAX_RTP_BUF_SIZE,
        ensures
            final(self).destination_address == old(self).destination_address,
            final(self).ssrc == old(self).ssrc,
            final(self).rtp_buffer_size == old(self).rtp_buffer_size,
            final(self).rtp_seq == wrap_seq(old(self).rtp_seq + 1),
            final(self)@.packet == header_bytes(
                marker,
                old(self).rtp_seq,
                timestamp,
                old(self).ssrc,
            ) + old(self).payload(),
            datagrams(final(outbox)@) == datagrams(old(outbox)@).push(final(self)@.packet),
    {
        let header = RtpHeader::new(marker, self.rtp_seq, timestamp, self.ssrc);
        let image = header.copy_into_array();
        self.fill(0, image.as_slice());
        self.rtp_seq = self.rtp_seq.wrapping_add(1);
        let datagram = slice_to_vec(
            slice_subrange(self.rtp_buffer.as_slice(), 0, self.rtp_buffer_size),
        );
        outbox.push(datagram);
    }

    /// Writes `bytes` into the scratch buffer from index `at` on.
    fn fill(&mut self, at: usize, bytes: &[u8])
        requires
            at + bytes@.len() <= MAX_RTP_BUF_SIZE,
        ensures
            final(self).destination_address == old(self).destination_address,
            final(self).ssrc == old(self).ssrc,
            final(self).rtp_buffer_size == old(self).rtp_buffer_size,
            final(self).rtp_seq == old(self).rtp_seq,
            final(self).rtp_buffer@ == old(self).rtp_buffer@.subrange(0, at as int) + bytes@ + old(
                self,
            ).rtp_buffer@.subrange(at + bytes@.len(), MAX_RTP_BUF_SIZE as int),
    {
        let count = bytes.len();
        let mut index: usize = 0;
        while index < count
            invariant
                count == bytes@.len(),
                at + count <= MAX_RTP_BUF_SIZE,
                index <= count,
                self.destination_address == old(self).destination_address,
                self.ssrc == old(self).ssrc,
                self.rtp_buffer_size == old(self).rtp_buffer_size,
                self.rtp_seq == old(self).rtp_seq,
                self.rtp_buffer@ == old(self).rtp_buffer@.subrange(0, at as int) + bytes@.subrange(
                    0,
                    index as int,
                ) + old(self).rtp_buffer@.subrange(at + index, MAX_RTP_BUF_SIZE as int),
            decreases count - index,
        {
            proof {
                use_type_invariant(&*self);
            }
            self.rtp_buffer[at + index] = bytes[index];
            index += 1;
        }
    }
}

/// Emitting two runs of datagrams one after the other leaves the session as
/// emitting them in one run does.
pub proof fn lemma_after_concat(before: PusherView, first: Seq<Seq<u8>>, second: Seq<Seq<u8>>)
    ensures
        before.after(first).after(second) == before.after(first + second),
{
    lemma_wrap_seq_add(before.sequence, first.len() as int, second.len() as int);
    if second.len() > 0 {
        assert((first + second).last() == second.last());
    } else {
        assert(first + second =~= first);
    }
}

/// Where a call of `send_frame` stands when it has packetized the units
/// `taken`, each under its stamp.
#[verifier::opaque]
spec fn in_progress(
    before: PusherView,
    now: PusherView,
    queued: Seq<Seq<u8>>,
    outbox: Seq<Seq<u8>>,
    taken: Seq<Seq<u8>>,
    stamps: Seq<u32>,
) -> bool {
    &&& stamps.len() == taken.len()
    &&& forall|k: int| 0 <= k < stamps.len() ==> is_clock_stamp(#[trigger] stamps[k])
    &&& outbox == queued + frame_packets(taken, stamps, before.sequence, before.ssrc)
    &&& now == before.after(frame_packets(taken, stamps, before.sequence, before.ssrc))
}

/// A call begins with no unit taken.
proof fn lemma_progress_begins(before: PusherView, queued: Seq<Seq<u8>>)
    ensures
        in_progress(before, before, queued, queued, Seq::empty(), Seq::empty()),
{
    reveal(in_progress);
}

/// Packetizing one more unit carries a call from the units `taken` to those
/// and `unit`.
proof fn lemma_progress_step(
    before: PusherView,
    middle: PusherView,
    after: PusherView,
    queued: Seq<Seq<u8>>,
    outbox_middle: Seq<Seq<u8>>,
    outbox: Seq<Seq<u8>>,
    taken: Seq<Seq<u8>>,
    stamps: Seq<u32>,
    unit: Seq<u8>,
    stamp: u32,
)
    requires
        in_progress(before, middle, queued, outbox_middle, taken, stamps),
        is_clock_stamp(stamp),
        after == middle.after(nal_packets(unit, middle.sequence, stamp, middle.ssrc)),
        outbox == outbox_middle + nal_packets(unit, middle.sequence, stamp, middle.ssrc),
    ensures
        in_progress(before, after, queued, outbox, taken.push(unit), stamps.push(stamp)),
{
    reveal(in_progress);
    let sent = frame_packets(taken, stamps, before.sequence, before.ssrc);
    let more = nal_packets(unit, middle.sequence, stamp, middle.ssrc);
    lemma_frame_packets_push(taken, stamps, unit, stamp, before.sequence, before.ssrc);
    lemma_after_concat(before, sent, more);
    assert(queued + sent + more =~= queued + (sent + more));
}

/// A call that returns when it has packetized the units `taken` of a frame
/// and has left `rest` meets what `send_frame` promises.
proof fn lemma_progress_outcome(
    before: PusherView,
    after: PusherView,
    queued: Seq<Seq<u8>>,
    outbox: Seq<Seq<u8>>,
    frame: Seq<u8>,
    taken: Seq<Seq<u8>>,
    rest: Seq<Seq<u8>>,
    stamps: Seq<u32>,
    done: Result<(), PushError>,
)
    requires
        in_progress(before, after, queued, outbox, taken, stamps),
        nal_units(frame) == taken + rest,
        done is Ok <==> rest.len() == 0,
    ensures
        frame.len() <= 4 || !has_nal(frame) ==> done is Ok && after == before && outbox
            == queued,
        frame_outcome(before, after, queued, outbox, nal_units(frame), stamps, done),
{
    reveal(in_progress);
    if frame.len() <= 4 {
        lemma_short_buffer_has_no_nal(frame);
    }
    assert((taken + rest).take(stamps.len() as int) =~= taken);
}

/// A unit behind the units `taken`, and more behind it, are the units
/// `taken` with it, and more behind them.
proof fn lemma_take_unit(taken: Seq<Seq<u8>>, unit: Seq<u8>, rest: Seq<Seq<u8>>)
    ensures
        taken + (seq![unit] + rest) == taken.push(unit) + rest,
{
}

/// One more datagram behind the first `n` of a run is the first `n + 1` of it.
proof fn lemma_take_next(queued: Seq<Seq<u8>>, packets: Seq<Seq<u8>>, n: int)
    requires
        0 <= n < packets.len(),
    ensures
        (queued + packets.take(n)).push(packets[n]) == queued + packets.take(n + 1),
        queued + packets.take(0) == queued,
        queued + packets.take(packets.len() as int) == queued + packets,
{
}

} // verus!

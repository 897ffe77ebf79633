use rtp_transceive::packet::FU_A_SIZE;
use rtp_transceive::packet::FU_A_TYPE;
use rtp_transceive::packet::MAX_FRAGMENT_SIZE;
use rtp_transceive::pusher::H264RtpPusher;
use rtp_transceive::pusher::DEFAULT_SSRC;

// A unit of `len` bytes: the header byte, then bytes that tell their place.
fn unit(header: u8, len: usize) -> Vec<u8> {
    let mut bytes = Vec::with_capacity(len);
    for i in 0..len {
        bytes.push(if i == 0 { header } else { (i % 251) as u8 });
    }
    bytes
}

fn packetize(first_sequence: u16, nal: &[u8], timestamp: u32) -> (H264RtpPusher, Vec<Vec<u8>>) {
    let mut pusher = H264RtpPusher::with_session("127.0.0.1:7032", 0x0A0B_0C0D, first_sequence);
    let mut outbox = Vec::new();
    pusher.packetize_nal(nal, timestamp, &mut outbox);
    (pusher, outbox)
}

fn sequence_of(packet: &[u8]) -> u16 {
    u16::from_be_bytes([packet[2], packet[3]])
}

fn timestamp_of(packet: &[u8]) -> u32 {
    u32::from_be_bytes([packet[4], packet[5], packet[6], packet[7]])
}

#[test]
fn small_unit_travels_in_one_packet() {
    let mut pusher = H264RtpPusher::new("127.0.0.1:7032");
    let mut outbox = Vec::new();
    pusher.packetize_nal(&[0x67, 0xAA, 0xBB], 0x0102_0304, &mut outbox);
    assert_eq!(
        outbox,
        vec![vec![
            0x80, 0xE0, 0x00, 0x00, 0x01, 0x02, 0x03, 0x04, 0x00, 0x00, 0x30, 0x39, 0x67, 0xAA,
            0xBB
        ]]
    );
    assert_eq!(pusher.sequence(), 1);
}

#[test]
fn largest_unit_that_fits_travels_in_one_packet() {
    let nal = unit(0x65, 1388);
    let (pusher, outbox) = packetize(7, &nal, 90_000);
    assert_eq!(outbox.len(), 1);
    assert_eq!(outbox[0].len(), 1400);
    assert_eq!(outbox[0][1], 0xE0);
    assert_eq!(&outbox[0][12..], &nal[..]);
    assert_eq!(sequence_of(&outbox[0]), 7);
    assert_eq!(pusher.sequence(), 8);
}

#[test]
fn single_packet_is_twelve_bytes_longer_than_the_unit() {
    for len in [1usize, 2, 100, 1387, 1388] {
        let nal = unit(0x41, len);
        let (_, outbox) = packetize(0, &nal, 0);
        assert_eq!(outbox.len(), 1);
        assert_eq!(outbox[0].len(), len + 12);
        assert_eq!(outbox[0][1] & 0x80, 0x80);
        assert_eq!(outbox[0][1] & 0x7F, 96);
    }
}

#[test]
fn empty_unit_travels_as_a_bare_header() {
    let (pusher, outbox) = packetize(3, &[], 5);
    assert_eq!(outbox, vec![vec![0x80, 0xE0, 0, 3, 0, 0, 0, 5, 0x0A, 0x0B, 0x0C, 0x0D]]);
    assert_eq!(pusher.sequence(), 4);
}

#[test]
fn unit_one_byte_too_long_is_cut_in_two() {
    let nal = unit(0x65, 1389);
    let (pusher, outbox) = packetize(0, &nal, 0x0000_1000);
    assert_eq!(outbox.len(), 2);

    let first = &outbox[0];
    assert_eq!(first.len(), 1400);
    assert_eq!(&first[..12], &[0x80, 0x60, 0, 0, 0, 0, 0x10, 0, 0x0A, 0x0B, 0x0C, 0x0D]);
    assert_eq!(first[12], 0x7C);
    assert_eq!(first[13], 0x85);
    assert_eq!(&first[14..], &nal[1..1387]);

    let second = &outbox[1];
    assert_eq!(second.len(), 16);
    assert_eq!(&second[..12], &[0x80, 0xE0, 0, 1, 0, 0, 0x10, 0, 0x0A, 0x0B, 0x0C, 0x0D]);
    assert_eq!(second[12], 0x7C);
    assert_eq!(second[13], 0x45);
    assert_eq!(&second[14..], &nal[1387..]);

    assert_eq!(pusher.sequence(), 2);
}

#[test]
fn fragments_number_the_bytes_after_the_header_rounded_up() {
    // (length of the unit, fragments, length of the last datagram)
    let cases = [
        (1389usize, 2usize, 16usize),
        (2773, 2, 1400),
        (2774, 3, 15),
        (4159, 3, 1400),
        (4160, 4, 15),
        (10_000, 8, 311),
    ];
    for (len, count, last_len) in cases {
        let nal = unit(0x41, len);
        let (_, outbox) = packetize(0, &nal, 0);
        assert_eq!(outbox.len(), count);
        assert_eq!(outbox.len(), (len - 1).div_ceil(1400 - 12 - 2));
        for packet in &outbox[..count - 1] {
            assert_eq!(packet.len(), 1400);
        }
        assert_eq!(outbox[count - 1].len(), last_len);
    }
}

#[test]
fn only_the_first_fragment_has_the_start_bit() {
    let nal = unit(0x65, 4160);
    let (_, outbox) = packetize(0, &nal, 0);
    let starts: Vec<bool> = outbox.iter().map(|p| p[13] & 0x80 != 0).collect();
    assert_eq!(starts, vec![true, false, false, false]);
}

#[test]
fn only_the_last_fragment_has_the_end_bit_and_the_marker() {
    let nal = unit(0x65, 4160);
    let (_, outbox) = packetize(0, &nal, 0);
    let ends: Vec<bool> = outbox.iter().map(|p| p[13] & 0x40 != 0).collect();
    let markers: Vec<bool> = outbox.iter().map(|p| p[1] & 0x80 != 0).collect();
    assert_eq!(ends, vec![false, false, false, true]);
    assert_eq!(markers, vec![false, false, false, true]);
    let headers: Vec<u8> = outbox.iter().map(|p| p[13]).collect();
    assert_eq!(headers, vec![0x85, 0x05, 0x05, 0x45]);
}

#[test]
fn indicator_copies_the_upper_bits_of_the_unit_header() {
    // (header byte of the unit, FU indicator, FU header of the first fragment)
    let cases =
        [(0x65u8, 0x7Cu8, 0x85u8), (0x41, 0x5C, 0x81), (0x01, 0x1C, 0x81), (0xE7, 0xFC, 0x87)];
    for (header, indicator, first_fu) in cases {
        let nal = unit(header, 2000);
        let (_, outbox) = packetize(0, &nal, 0);
        assert_eq!(outbox.len(), 2);
        for packet in &outbox {
            assert_eq!(packet[12], indicator);
            assert_eq!(packet[12] & 0x1F, FU_A_TYPE);
            assert_eq!(packet[13] & 0x20, 0);
        }
        assert_eq!(outbox[0][13], first_fu);
    }
}

#[test]
fn fragments_give_back_the_unit() {
    let nal = unit(0x65, 5000);
    let (_, outbox) = packetize(0, &nal, 0);
    let mut rebuilt = vec![(outbox[0][12] & 0xE0) | (outbox[0][13] & 0x1F)];
    for packet in &outbox {
        assert!(packet.len() <= 1400);
        assert!(packet.len() > 12 + FU_A_SIZE);
        assert!(packet.len() - 12 - FU_A_SIZE <= MAX_FRAGMENT_SIZE);
        rebuilt.extend_from_slice(&packet[14..]);
    }
    assert_eq!(rebuilt, nal);
}

#[test]
fn fragments_share_the_timestamp() {
    let nal = unit(0x65, 6000);
    let (_, outbox) = packetize(0, &nal, 0xDEAD_BEEF);
    assert_eq!(outbox.len(), 5);
    for packet in &outbox {
        assert_eq!(timestamp_of(packet), 0xDEAD_BEEF);
    }
}

#[test]
fn sequence_numbers_are_consecutive() {
    let nal = unit(0x65, 6000);
    let (pusher, outbox) = packetize(1000, &nal, 0);
    let numbers: Vec<u16> = outbox.iter().map(|p| sequence_of(p)).collect();
    assert_eq!(numbers, vec![1000, 1001, 1002, 1003, 1004]);
    assert_eq!(pusher.sequence(), 1005);
}

#[test]
fn sequence_numbers_wrap_at_sixty_five_thousand() {
    let nal = unit(0x65, 4160);
    let (pusher, outbox) = packetize(65_534, &nal, 0);
    let numbers: Vec<u16> = outbox.iter().map(|p| sequence_of(p)).collect();
    assert_eq!(numbers, vec![65_534, 65_535, 0, 1]);
    assert_eq!(pusher.sequence(), 2);
}

#[test]
fn sequence_numbers_run_on_from_unit_to_unit() {
    let mut pusher = H264RtpPusher::with_session("127.0.0.1:7032", 1, 65_535);
    let mut outbox = Vec::new();
    pusher.packetize_nal(&unit(0x67, 10), 1, &mut outbox);
    pusher.packetize_nal(&unit(0x65, 3000), 2, &mut outbox);
    pusher.packetize_nal(&unit(0x41, 20), 3, &mut outbox);
    let numbers: Vec<u16> = outbox.iter().map(|p| sequence_of(p)).collect();
    assert_eq!(numbers, vec![65_535, 0, 1, 2, 3]);
    let stamps: Vec<u32> = outbox.iter().map(|p| timestamp_of(p)).collect();
    assert_eq!(stamps, vec![1, 2, 2, 2, 3]);
    let markers: Vec<bool> = outbox.iter().map(|p| p[1] & 0x80 != 0).collect();
    assert_eq!(markers, vec![true, false, false, true, true]);
    assert_eq!(pusher.sequence(), 4);
}

#[test]
fn datagrams_are_appended_behind_what_the_outbox_holds() {
    let mut pusher = H264RtpPusher::new("127.0.0.1:7032");
    let mut outbox = vec![vec![1u8, 2, 3]];
    pusher.packetize_nal(&[0x09, 0xF0], 0, &mut outbox);
    assert_eq!(outbox.len(), 2);
    assert_eq!(outbox[0], vec![1, 2, 3]);
    assert_eq!(outbox[1], vec![0x80, 0xE0, 0, 0, 0, 0, 0, 0, 0, 0, 0x30, 0x39, 0x09, 0xF0]);
}

#[test]
fn scratch_buffer_holds_the_last_datagram() {
    let mut pusher = H264RtpPusher::new("127.0.0.1:7032");
    assert_eq!(pusher.last_packet(), &[] as &[u8]);
    let mut outbox = Vec::new();
    pusher.packetize_nal(&unit(0x65, 3000), 9, &mut outbox);
    assert_eq!(pusher.last_packet(), &outbox[2][..]);
    // A shorter datagram leaves nothing of the longer one behind it.
    pusher.packetize_nal(&[0x68, 0xCE], 10, &mut outbox);
    assert_eq!(pusher.last_packet(), &outbox[3][..]);
    assert_eq!(pusher.last_packet().len(), 14);
}

#[test]
fn new_session_has_the_documented_defaults() {
    let pusher = H264RtpPusher::new("192.168.1.20:5004");
    assert_eq!(pusher.destination(), "192.168.1.20:5004");
    assert_eq!(pusher.ssrc(), 12345);
    assert_eq!(pusher.ssrc(), DEFAULT_SSRC);
    assert_eq!(pusher.sequence(), 0);
}

#[test]
fn session_keeps_what_it_was_configured_with() {
    let mut pusher = H264RtpPusher::with_session("[::1]:9000", 0xCAFE_F00D, 4321);
    assert_eq!(pusher.destination(), "[::1]:9000");
    assert_eq!(pusher.ssrc(), 0xCAFE_F00D);
    assert_eq!(pusher.sequence(), 4321);
    let mut outbox = Vec::new();
    pusher.packetize_nal(&unit(0x65, 2000), 0, &mut outbox);
    assert_eq!(pusher.destination(), "[::1]:9000");
    assert_eq!(pusher.ssrc(), 0xCAFE_F00D);
    for packet in &outbox {
        assert_eq!(&packet[8..12], &[0xCA, 0xFE, 0xF0, 0x0D]);
    }
}

use rtp_transceive::rtp::RtpHeader;
use rtp_transceive::rtp::MAX_RTP_BUF_SIZE;
use rtp_transceive::rtp::RTP_HEADER_SIZE;
use rtp_transceive::rtp::RTP_PAYLOAD_TYPE;
use rtp_transceive::rtp::RTP_VERSION;

#[test]
fn header_is_laid_out_big_endian() {
    let header = RtpHeader::new(true, 0x1234, 0x0102_0304, 12345);
    assert_eq!(
        header.copy_into_array(),
        [0x80, 0xE0, 0x12, 0x34, 0x01, 0x02, 0x03, 0x04, 0x00, 0x00, 0x30, 0x39]
    );
}

#[test]
fn header_without_marker_has_the_top_bit_of_the_second_byte_clear() {
    let header = RtpHeader::new(false, 0, 0, 0);
    assert_eq!(header.byte1, 0x80);
    assert_eq!(header.byte2, 0x60);
    assert_eq!(header.copy_into_array(), [0x80, 0x60, 0, 0, 0, 0, 0, 0, 0, 0, 0, 0]);
}

#[test]
fn header_with_marker_has_the_top_bit_of_the_second_byte_set() {
    let header = RtpHeader::new(true, 0, 0, 0);
    assert_eq!(header.byte1, 0x80);
    assert_eq!(header.byte2, 0xE0);
}

#[test]
fn header_holds_the_largest_values() {
    let header = RtpHeader::new(true, 0xFFFF, 0xFFFF_FFFF, 0xFFFF_FFFF);
    assert_eq!(
        header.copy_into_array(),
        [0x80, 0xE0, 0xFF, 0xFF, 0xFF, 0xFF, 0xFF, 0xFF, 0xFF, 0xFF, 0xFF, 0xFF]
    );
}

#[test]
fn header_puts_each_byte_in_its_place() {
    let header = RtpHeader::new(false, 0x00FF, 0xA1B2_C3D4, 0x0E0F_1011);
    assert_eq!(
        header.copy_into_array(),
        [0x80, 0x60, 0x00, 0xFF, 0xA1, 0xB2, 0xC3, 0xD4, 0x0E, 0x0F, 0x10, 0x11]
    );
}

#[test]
fn header_fields_are_sent_as_they_stand() {
    let header = RtpHeader { byte1: 0x12, byte2: 0x34, seq: 0x5678, ts: 0x9ABC_DEF0, ssrc: 1 };
    assert_eq!(
        header.copy_into_array(),
        [0x12, 0x34, 0x56, 0x78, 0x9A, 0xBC, 0xDE, 0xF0, 0x00, 0x00, 0x00, 0x01]
    );
}

#[test]
fn constants_have_their_documented_values() {
    assert_eq!(MAX_RTP_BUF_SIZE, 1400);
    assert_eq!(RTP_HEADER_SIZE, 12);
    assert_eq!(RTP_VERSION, 2);
    assert_eq!(RTP_PAYLOAD_TYPE, 96);
}

use rtp_transceive::get_nal;
use rtp_transceive::H264NalType;
use rtp_transceive::H264RtpPusher;
use rtp_transceive::PushError;
use rtp_transceive::RtpHeader;

#[test]
fn stream_is_scanned_and_packetized_from_the_crate_root() {
    let stream = [0x00, 0x00, 0x01, 0x67, 0x42, 0x00, 0x00, 0x00, 0x01, 0x65, 0x88];
    let (kind, unit, trailing) = get_nal(&stream).unwrap();
    assert_eq!(kind, H264NalType::Sps);
    assert_eq!(unit, &[0x67, 0x42]);
    assert!(!trailing);

    let mut pusher = H264RtpPusher::new("127.0.0.1:7032");
    let mut outbox = Vec::new();
    let done: Result<(), PushError> = pusher.send_frame(&stream, &mut outbox);
    assert_eq!(done, Ok(()));
    assert_eq!(outbox.len(), 2);

    let first = RtpHeader::new(true, 0, 0, 12345).copy_into_array();
    assert_eq!(&outbox[0][..4], &first[..4]);
    assert_eq!(&outbox[0][8..12], &first[8..]);
    assert_eq!(&outbox[0][12..], &[0x67, 0x42]);
    assert_eq!(&outbox[1][12..], &[0x65, 0x88]);
}

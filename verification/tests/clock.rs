use rtp_transceive::clock::get_timestamp;
use rtp_transceive::clock::read_clock;
use rtp_transceive::clock::timestamp_from_micros;
use rtp_transceive::clock::timestamp_from_reading;
use rtp_transceive::error::PushError;

#[test]
fn timestamp_rounds_to_the_nearest_millisecond() {
    assert_eq!(timestamp_from_micros(0), 0);
    assert_eq!(timestamp_from_micros(499), 0);
    assert_eq!(timestamp_from_micros(500), 90);
    assert_eq!(timestamp_from_micros(1_499), 90);
    assert_eq!(timestamp_from_micros(1_500), 180);
}

#[test]
fn timestamp_counts_ninety_ticks_to_the_millisecond() {
    assert_eq!(timestamp_from_micros(1_000_000), 90_000);
    assert_eq!(timestamp_from_micros(33_000), 2_970);
}

#[test]
fn timestamp_wraps_at_thirty_two_bits() {
    assert_eq!(timestamp_from_micros(47_721_858_000), 4_294_967_220);
    assert_eq!(timestamp_from_micros(47_721_859_000), 14);
    assert_eq!(timestamp_from_micros(1_700_000_000_000_000), 380_014_592);
}

#[test]
fn timestamp_is_computed_for_the_largest_readings() {
    assert_eq!(timestamp_from_micros(u64::MAX as u128), 2_748_779_104);
    assert_eq!(timestamp_from_micros(u128::MAX), 1_030_792_110);
}

#[test]
fn timestamps_of_later_readings_are_ahead_modulo_wrap() {
    let earlier = timestamp_from_micros(47_721_858_000);
    let later = timestamp_from_micros(47_721_859_000);
    assert_eq!(later.wrapping_sub(earlier), 90);
    let earlier = timestamp_from_micros(1_000_000);
    let later = timestamp_from_micros(1_033_000);
    assert!(earlier <= later);
    assert_eq!(later - earlier, 2_970);
}

#[test]
fn reading_in_microseconds_gives_its_timestamp() {
    assert_eq!(timestamp_from_reading(Some(1_000_000)), Ok(90_000));
    assert_eq!(timestamp_from_reading(Some(499)), Ok(0));
}

#[test]
fn missing_reading_is_reported_as_clock_unavailable() {
    assert_eq!(timestamp_from_reading(None), Err(PushError::ClockUnavailable));
}

#[test]
fn clock_is_read_as_time_since_the_epoch() {
    // The clock of a machine that runs this stands well after the year 2001.
    let reading = read_clock().unwrap();
    assert!(reading > 1_000_000_000_000_000);
    let again = read_clock().unwrap();
    // One hour either way covers any correction of the wall clock.
    assert!(again + 3_600_000_000 > reading);
    assert!(again < reading + 3_600_000_000);
}

#[test]
fn fresh_timestamp_lies_between_the_readings_around_it() {
    let before = timestamp_from_micros(read_clock().unwrap());
    let stamp = get_timestamp().unwrap();
    let after = timestamp_from_micros(read_clock().unwrap());
    assert!(stamp.wrapping_sub(before) <= after.wrapping_sub(before));
}

#[test]
fn error_has_a_message() {
    assert_eq!(
        PushError::ClockUnavailable.message(),
        "system clock unavailable: no RTP timestamp can be computed"
    );
}

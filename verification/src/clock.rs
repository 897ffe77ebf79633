//! The 90 kHz RTP clock, derived from wall-clock time.

use crate::error::PushError;
use std::time::Duration;
use std::time::SystemTime;
use std::time::SystemTimeError;
use std::time::UNIX_EPOCH;
use vstd::prelude::*;

verus! {

/// Milliseconds in `micros` microseconds, rounded to the nearest, halves up.
pub open spec fn rounded_millis(micros: int) -> int {
    (micros + 500) / 1000
}

/// Ticks of the 90 kHz clock at `micros` microseconds after the epoch, before
/// they are cut to 32 bits.
pub open spec fn clock_ticks(micros: int) -> int {
    rounded_millis(micros) * 90
}

/// The RTP timestamp at `micros` microseconds after the epoch: the clock's
/// ticks modulo 2^32.
pub open spec fn rtp_timestamp(micros: u128) -> u32 {
    (clock_ticks(micros as int) % 0x1_0000_0000) as u32
}

/// Whether a timestamp is one that the clock gives at some reading.
pub open spec fn is_clock_stamp(stamp: u32) -> bool {
    exists|micros: u128| stamp == rtp_timestamp(micros)
}

/// Computes the RTP timestamp for a wall-clock reading in microseconds.
pub fn timestamp_from_micros(micros: u128) -> (ts: u32)
    ensures
        ts == rtp_timestamp(micros),
{
    let whole: u128 = micros / 1000;
    let rest: u128 = micros % 1000;
    let millis: u128 = if rest >= 500 {
        whole + 1
    } else {
        whole
    };
    let ticks: u128 = millis * 90;
    (ticks % 0x1_0000_0000) as u32
}

/// The timestamp for what the clock returned: a reading in microseconds, or
/// nothing where the clock stands before the epoch.
pub fn timestamp_from_reading(reading: Option<u128>) -> (stamp: Result<u32, PushError>)
    ensures
        stamp == match reading {
            Some(micros) => Ok::<u32, PushError>(rtp_timestamp(micros)),
            None => Err::<u32, PushError>(PushError::ClockUnavailable),
        },
{
    match reading {
        Some(micros) => Ok(timestamp_from_micros(micros)),
        None => Err(PushError::ClockUnavailable),
    }
}

/// Reads the wall clock as microseconds since the Unix epoch; `None` where
/// the clock stands before the epoch.
pub fn read_clock() -> (reading: Option<u128>) {
    let now = system_now();
    match since_epoch(&now) {
        Ok(elapsed) => Some(whole_micros(&elapsed)),
        Err(_) => None,
    }
}

/// Computes a fresh RTP timestamp from the wall clock.
pub fn get_timestamp() -> (stamp: Result<u32, PushError>)
    ensures
        stamp matches Ok(ts) ==> is_clock_stamp(ts),
        stamp matches Err(e) ==> e == PushError::ClockUnavailable,
{
    timestamp_from_reading(read_clock())
}

/// Between two readings the clock's ticks do not go back, and while fewer
/// than 2^32 ticks lie between them, neither do the timestamps, counted
/// modulo 2^32: the later one is ahead by the ticks that passed.
pub proof fn lemma_timestamps_do_not_go_back(earlier: u128, later: u128)
    requires
        earlier <= later,
    ensures
        clock_ticks(earlier as int) <= clock_ticks(later as int),
        clock_ticks(later as int) - clock_ticks(earlier as int) < 0x1_0000_0000 ==> (rtp_timestamp(
            later,
        ) - rtp_timestamp(earlier)) % 0x1_0000_0000 == clock_ticks(later as int) - clock_ticks(
            earlier as int,
        ),
        clock_ticks(earlier as int) / 0x1_0000_0000 == clock_ticks(later as int) / 0x1_0000_0000
            ==> rtp_timestamp(earlier) <= rtp_timestamp(later),
{
}

/// `std::time::SystemTime`, carried through as an opaque value.
#[verifier::external_type_specification]
#[verifier::external_body]
pub struct ExSystemTime(std::time::SystemTime);

/// `std::time::SystemTimeError`, carried through as an opaque value.
#[verifier::external_type_specification]
#[verifier::external_body]
pub struct ExSystemTimeError(std::time::SystemTimeError);

/// `SystemTime::now`: the wall clock as it stands. Nothing is claimed of the
/// value.
#[verifier::external_body]
fn system_now() -> (now: SystemTime) {
    SystemTime::now()
}

/// `SystemTime::duration_since`, taken from the Unix epoch: the time that has
/// passed since then, or an error where `now` lies before it. Nothing is
/// claimed of which comes back.
#[verifier::external_body]
fn since_epoch(now: &SystemTime) -> (elapsed: Result<Duration, SystemTimeError>) {
    now.duration_since(UNIX_EPOCH)
}

/// `Duration::as_micros`: the whole microseconds in `elapsed`. Nothing is
/// claimed of the number.
#[verifier::external_body]
fn whole_micros(elapsed: &Duration) -> (micros: u128) {
    elapsed.as_micros()
}

} // verus!

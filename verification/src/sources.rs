//! Where the repository gets the current time and fresh serial codes. Both
//! are chosen when a repository is made, so that a caller can put fixed
//! ones in place of the system clock and the random generator.

use crate::text::push_char;
use rand::Rng;
use vstd::prelude::*;

verus! {

/// Gives the current instant, in milliseconds since the Unix epoch.
pub trait Clock {
    fn now_millis(&mut self) -> i64;
}

/// Gives serial codes for new registrations.
pub trait SerialSource {
    fn next_serial(&mut self) -> String;
}

/// How many characters a random serial code has.
pub const SERIAL_LENGTH: usize = 15;

/// An ASCII letter or digit.
pub open spec fn is_ascii_alphanumeric(c: char) -> bool {
    ('A' <= c && c <= 'Z') || ('a' <= c && c <= 'z') || ('0' <= c && c <= '9')
}

/// `std::time::SystemTime::now`, turned into a `chrono::DateTime<Utc>` by
/// chrono's `From<SystemTime>` and read by `DateTime::timestamp_millis`:
/// the system clock's reading, which is negative where the clock stands
/// before 1970. Nothing is claimed of the value.
#[verifier::external_body]
fn utc_now_millis() -> i64 {
    chrono::DateTime::<chrono::Utc>::from(std::time::SystemTime::now()).timestamp_millis()
}

/// `rand::Rng::sample` with `rand::distributions::Alphanumeric` on
/// `rand::thread_rng()`: a random byte, which is always an ASCII letter or
/// digit.
#[verifier::external_body]
fn sample_alphanumeric() -> (byte: u8)
    ensures
        is_ascii_alphanumeric(byte as char),
{
    rand::thread_rng().sample(rand::distributions::Alphanumeric)
}

/// The system clock.
#[derive(Debug, Clone, Copy)]
pub struct SystemClock;

impl Clock for SystemClock {
    fn now_millis(&mut self) -> i64 {
        utc_now_millis()
    }
}

/// Serial codes of `SERIAL_LENGTH` random ASCII letters and digits.
#[derive(Debug, Clone, Copy)]
pub struct RandomSerial;

/// A fresh random serial code.
pub fn generate_random_serial() -> (serial: String)
    ensures
        serial@.len() == SERIAL_LENGTH,
        forall|i: int| 0 <= i < serial@.len() ==> is_ascii_alphanumeric(#[trigger] serial@[i]),
{
    let mut serial = String::new();
    let mut i: usize = 0;
    while i < SERIAL_LENGTH
        invariant
            i <= SERIAL_LENGTH,
            serial@.len() == i,
            forall|j: int| 0 <= j < serial@.len() ==> is_ascii_alphanumeric(#[trigger] serial@[j]),
        decreases SERIAL_LENGTH - i,
    {
        let byte = sample_alphanumeric();
        push_char(&mut serial, byte as char);
        i += 1;
    }
    serial
}

impl SerialSource for RandomSerial {
    fn next_serial(&mut self) -> (serial: String)
        ensures
            serial@.len() == SERIAL_LENGTH,
            forall|i: int| 0 <= i < serial@.len() ==> is_ascii_alphanumeric(#[trigger] serial@[i]),
    {
        generate_random_serial()
    }
}

} // verus!

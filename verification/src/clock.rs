//! The wall clock, an external collaborator: the server stamps re-broadcast
//! chat messages with the time of the re-broadcast.
use vstd::prelude::*;

verus! {

/// Relies on `std::time::SystemTime::now` and
/// `SystemTime::duration_since(UNIX_EPOCH)`: the current wall-clock time in
/// whole milliseconds; a clock set before the epoch reads as zero. Nothing
/// further can be promised of a wall clock.
#[verifier::external_body]
fn system_millis() -> u64 {
    match std::time::SystemTime::now().duration_since(std::time::SystemTime::UNIX_EPOCH) {
        Ok(d) => d.as_millis() as u64,
        Err(_) => 0,
    }
}

/// Milliseconds since the Unix epoch, read from the system clock.
///
/// The reading depends on the machine, so callers take it as an argument
/// and are verified for every value of it.
pub fn current_time() -> u64 {
    system_millis()
}

} // verus!

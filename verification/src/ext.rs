//! Trusted declarations for the parts of std that the engine leans on and
//! that vstd gives no specification: the monotonic clock, the io error type
//! carried by `increment`'s result, and integer-to-decimal formatting.

use vstd::prelude::*;

verus! {

/// `std::time::Instant`, opaque to verification; the engine only carries
/// one as its session-start reference point.
#[verifier::external_type_specification]
#[verifier::external_body]
pub struct ExInstant(std::time::Instant);

/// `std::io::Error`, opaque to verification; it only occurs inside the
/// `std::io::Result` that `increment` returns, and never holds a value
/// there.
#[verifier::external_type_specification]
#[verifier::external_body]
pub struct ExIoError(std::io::Error);

/// Relies on `std::time::Instant::now` for the session-start reference
/// point.  Nothing is promised of the value: it stands for "now".
#[verifier::external_body]
pub(crate) fn instant_now() -> std::time::Instant {
    std::time::Instant::now()
}

/// Relies on `std::time::Instant::elapsed`: the time since `start`,
/// converted to whole microseconds (`Duration::as_micros`, truncated to 64
/// bits).  The clock's reading depends on when the call happens, so nothing
/// is promised of the value; callers state what holds of every outcome.
#[verifier::external_body]
pub(crate) fn elapsed_micros(start: &std::time::Instant) -> u64 {
    start.elapsed().as_micros() as u64
}

/// Relies on `u64`'s `Display` implementation, which std documents as the
/// decimal representation of the value: `ToString::to_string` returns
/// exactly the decimal digit characters of `n`.
#[verifier::external_body]
pub(crate) fn u64_to_string(n: u64) -> (r: String)
    ensures
        r@ == crate::event::decimal(n as nat),
{
    n.to_string()
}

} // verus!

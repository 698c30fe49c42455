//! What decisions take from the operating system: its numbers and its clock.
use vstd::prelude::*;

verus! {

/// `libc::EBUSY`, the code of a resource that is in use: 16 on Linux.
#[verifier::external_body]
pub(crate) fn busy_code() -> (r: i32)
    ensures
        r == 16,
{
    libc::EBUSY
}

/// `libc::ENODEV`, the code of a device that is not there: 19 on Linux.
#[verifier::external_body]
pub(crate) fn no_device_code() -> (r: i32)
    ensures
        r == 19,
{
    libc::ENODEV
}

/// `libc::EAGAIN`, the code of an operation that would have to wait: 11 on Linux.
#[verifier::external_body]
pub(crate) fn again_code() -> (r: i32)
    ensures
        r == 11,
{
    libc::EAGAIN
}

/// `libc::EINVAL`, the code of an argument that is refused: 22 on Linux.
#[verifier::external_body]
pub(crate) fn invalid_code() -> (r: i32)
    ensures
        r == 22,
{
    libc::EINVAL
}

/// `libc::SIGTERM`, the signal that asks a process to end: 15 on Linux.
#[verifier::external_body]
pub(crate) fn terminate_signal() -> (r: i32)
    ensures
        r == 15,
{
    libc::SIGTERM
}

/// `libc::SIGKILL`, the signal that ends a process: 9 on Linux.
#[verifier::external_body]
pub(crate) fn kill_signal() -> (r: i32)
    ensures
        r == 9,
{
    libc::SIGKILL
}

/// `std::time::SystemTime::elapsed` on the start of 1970, in milliseconds; none for a clock that is
/// set to an earlier time. Nothing is claimed of the result, which depends on when the call is made.
#[verifier::external_body]
pub(crate) fn clock_ms() -> (r: Option<u128>) {
    match std::time::UNIX_EPOCH.elapsed() {
        Ok(time) => Some(time.as_millis()),
        Err(_) => None,
    }
}

} // verus!

use vstd::prelude::*;

verus! {

/// `std::time::SystemTime`, carried through opaquely.
#[verifier::external_type_specification]
#[verifier::external_body]
pub struct ExSystemTime(std::time::SystemTime);

/// The system clock now. Wraps `std::time::SystemTime::now`; the value depends on the clock,
/// so nothing is claimed of it.
#[verifier::external_body]
fn system_now() -> std::time::SystemTime {
    std::time::SystemTime::now()
}

/// How long after the UNIX epoch `t` is, or `None` when `t` is before it. Wraps
/// `SystemTime::duration_since(UNIX_EPOCH)`, whose error case is mapped to `None`; nothing
/// is claimed of the value.
#[verifier::external_body]
fn since_epoch(t: &std::time::SystemTime) -> Option<core::time::Duration> {
    t.duration_since(std::time::UNIX_EPOCH).ok()
}

/// The whole seconds of a duration (`core::time::Duration::as_secs`); nothing is claimed of
/// the value, as a duration is opaque here.
pub assume_specification[ core::time::Duration::as_secs ](d: &core::time::Duration) -> u64;

/// Current UNIX time in seconds, 0 when the clock reads before the epoch.
pub(crate) fn unix_now_secs() -> u64 {
    let now = system_now();
    match since_epoch(&now) {
        Some(d) => d.as_secs(),
        None => 0,
    }
}

/// Current UNIX time in seconds as a signed timestamp (0 before the epoch, and saturated at
/// the largest `i64`).
pub(crate) fn unix_timestamp() -> (t: i64)
    ensures
        t >= 0,
{
    let s = unix_now_secs();
    if s > 0x7fff_ffff_ffff_ffffu64 {
        0x7fff_ffff_ffff_ffffi64
    } else {
        s as i64
    }
}

} // verus!

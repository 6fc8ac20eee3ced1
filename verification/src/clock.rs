//! Time as the relay counts it.
//!
//! Instants are nanoseconds of a monotonic clock that starts with the program.

use vstd::prelude::*;

verus! {

/// An operation that takes longer than this is worth a log line.
pub const SLOW_EVENT_MS: u64 = 10;

/// `nanos` in whole microseconds, modulo 2 to the 64.
pub open spec fn micros(nanos: int) -> u64 {
    ((nanos / 1000) % 0x1_0000_0000_0000_0000) as u64
}

/// The time from `since_ns` to `now_ns`; none if the latter is not later.
pub open spec fn elapsed(since_ns: u128, now_ns: u128) -> int {
    if now_ns > since_ns {
        now_ns - since_ns
    } else {
        0
    }
}

/// The whole milliseconds of an operation that took `dt_us`, if that is longer
/// than is worth a log line.
pub open spec fn slow(dt_us: u64) -> Option<u64> {
    if dt_us > SLOW_EVENT_MS * 1000 {
        Some((dt_us / 1000) as u64)
    } else {
        None
    }
}

/// A duration of `nanos` in whole microseconds.
pub fn us(nanos: u128) -> (r: u64)
    ensures
        r == micros(nanos as int),
        nanos / 1000 <= u64::MAX ==> r == nanos / 1000,
{
    let whole: u128 = nanos / 1000;
    assert(whole as u64 == whole % 0x1_0000_0000_0000_0000) by (bit_vector);
    whole as u64
}

/// The microseconds from `since_ns` to `now_ns`.
pub fn elapsed_us(since_ns: u128, now_ns: u128) -> (r: u64)
    ensures
        r == micros(elapsed(since_ns, now_ns)),
{
    us(now_ns.saturating_sub(since_ns))
}

/// The whole milliseconds of an operation that took `dt_us`, if it was slow.
pub fn slow_ms(dt_us: u64) -> (r: Option<u64>)
    ensures
        r == slow(dt_us),
        r == (if dt_us > SLOW_EVENT_MS * 1000 {
            Some((dt_us / 1000) as u64)
        } else {
            None
        }),
{
    if dt_us > SLOW_EVENT_MS * 1000 {
        Some(dt_us / 1000)
    } else {
        None
    }
}

/// A thousand nanoseconds are a microsecond, what is left over does not count, and
/// the count starts anew at 2 to the 64.
pub proof fn lemma_micros(whole: u64, rounds: nat, left: nat)
    requires
        left < 1000,
    ensures
        micros((whole + rounds * 0x1_0000_0000_0000_0000) * 1000 + left) == whole,
{
    let n = whole + rounds * 0x1_0000_0000_0000_0000;
    assert((n * 1000 + left) / 1000 == n);
    vstd::arithmetic::div_mod::lemma_mod_multiples_vanish(
        rounds as int,
        whole as int,
        0x1_0000_0000_0000_0000,
    );
    assert(0x1_0000_0000_0000_0000 * rounds + whole == n) by (nonlinear_arith)
        requires
            n == whole + rounds * 0x1_0000_0000_0000_0000,
    ;
}

/// From one instant to a later one is their distance; to an earlier one, nothing.
pub proof fn lemma_elapsed(since_ns: u128, now_ns: u128)
    ensures
        since_ns <= now_ns ==> since_ns + elapsed(since_ns, now_ns) == now_ns,
        since_ns >= now_ns ==> elapsed(since_ns, now_ns) == 0,
{
}

/// What takes more than 10 000 microseconds is slow, and nothing else; it took so
/// many whole milliseconds.
pub proof fn lemma_slow(dt_us: u64)
    ensures
        slow(dt_us) is Some <==> dt_us > 10_000,
        slow(dt_us) matches Some(ms) ==> ms * 1000 <= dt_us < ms * 1000 + 1000,
{
}

} // verus!

//! Monotonic clock readings.
//!
//! The library never decides anything from the clock directly: it reads the
//! time through the two functions below and hands the readings, as plain
//! millisecond counts, to functions whose contracts are exact.

use std::time::Instant;
use vstd::prelude::*;

verus! {

#[verifier::external_type_specification]
#[verifier::external_body]
pub struct ExInstant(Instant);

/// `std::time::Instant::now`: a reading of the monotonic clock.
/// Nothing is promised of the value, which depends on when it is called.
#[verifier::external_body]
pub(crate) fn instant_now() -> (t: Instant) {
    Instant::now()
}

/// `std::time::Instant::elapsed`, converted with `Duration::as_nanos`: the
/// nanoseconds that passed since `since`, which is all a `Duration` holds.
/// Nothing is promised of the value, which depends on when it is called.
#[verifier::external_body]
pub(crate) fn elapsed_nanos(since: &Instant) -> (ns: u128) {
    since.elapsed().as_nanos()
}

/// Whether `ns` nanoseconds are longer than `limit_ms` milliseconds.
pub open spec fn longer_than_ms(ns: int, limit_ms: int) -> bool {
    ns > limit_ms * 1_000_000
}

/// Nanoseconds as whole milliseconds, rounded up: a duration is longer than
/// a limit of whole milliseconds exactly when this is greater than it.
pub fn millis_rounded_up(ns: u128) -> (ms: u128)
    ensures
        ms == ns / 1_000_000 + if ns % 1_000_000 == 0 {
            0int
        } else {
            1int
        },
        forall|limit_ms: int|
            limit_ms >= 0 ==> (ms > limit_ms <==> #[trigger] longer_than_ms(ns as int, limit_ms)),
{
    let whole = ns / 1_000_000;
    let ms = if ns % 1_000_000 == 0 {
        whole
    } else {
        whole + 1
    };
    assert forall|limit_ms: int| limit_ms >= 0 implies (ms > limit_ms <==> #[trigger] longer_than_ms(
        ns as int,
        limit_ms,
    )) by {
        assert(ns == 1_000_000 * whole + ns % 1_000_000) by (nonlinear_arith)
            requires
                whole == ns / 1_000_000,
        ;
        if ms > limit_ms {
            assert(ns > limit_ms * 1_000_000) by (nonlinear_arith)
                requires
                    ns == 1_000_000 * whole + ns % 1_000_000,
                    ms > limit_ms,
                    ms == whole || (ms == whole + 1 && ns % 1_000_000 > 0),
                    ns % 1_000_000 < 1_000_000,
                    limit_ms >= 0,
            ;
        } else {
            assert(ns <= limit_ms * 1_000_000) by (nonlinear_arith)
                requires
                    ns == 1_000_000 * whole + ns % 1_000_000,
                    ms <= limit_ms,
                    ms == whole + 1 || (ms == whole && ns % 1_000_000 == 0),
                    ns % 1_000_000 < 1_000_000,
                    ns % 1_000_000 >= 0,
            ;
        }
    }
    ms
}

/// The time since `since`, read on the clock, in milliseconds rounded up
/// (`millis_rounded_up`). Nothing is promised of the value, which depends
/// on when it is called.
pub(crate) fn elapsed_millis(since: &Instant) -> (ms: u128) {
    millis_rounded_up(elapsed_nanos(since))
}

} // verus!

//! Timer arithmetic of the runtime that drives QUIC endpoints in the browser.
//!
//! Deadlines come from the QUIC stack as instants of one clock; the browser
//! timers run on another clock. A deadline is carried over by measuring how
//! far it lies ahead of "now" on the first clock and adding that distance to
//! "now" on the second clock. All instants here are nanosecond counts since
//! an arbitrary origin of their clock.

use vstd::prelude::*;

verus! {

/// The runtime that drives QUIC endpoints on top of browser timers and tasks.
#[derive(Debug, Clone, Copy)]
pub struct JsRuntime;

/// How far `input` lies ahead of `now`; zero when it is not ahead.
pub open spec fn remaining_until(input: u64, now: u64) -> nat {
    if input >= now {
        (input - now) as nat
    } else {
        0
    }
}

/// Carries the deadline `input` (on the clock where it is `now`) over to the
/// clock where it is `wasm_now`: the result lies as far after `wasm_now` as
/// `input` lies after `now`, and equals `wasm_now` for a deadline already
/// past.
pub fn instant_to_wasmtimer_instant(input: u64, now: u64, wasm_now: u64) -> (target: u64)
    requires
        input >= now ==> wasm_now + (input - now) <= u64::MAX,
    ensures
        target == wasm_now + remaining_until(input, now),
        input >= now ==> target == wasm_now + (input - now),
        input <= now ==> target == wasm_now,
{
    let remaining: u64 = if input >= now { input - now } else { 0 };
    wasm_now + remaining
}

/// Carrying deadlines over keeps their order: of two deadlines seen at the
/// same moment, the later one never fires earlier on the browser clock.
pub proof fn lemma_deadline_order_kept(a: u64, b: u64, now: u64, wasm_now: u64)
    requires
        a <= b,
    ensures
        wasm_now + remaining_until(a, now) <= wasm_now + remaining_until(b, now),
{
}

/// The distance to a deadline is measured exactly: a deadline not yet past
/// lies that distance after now, and a past one lies at no distance.
pub proof fn lemma_deadline_distance(input: u64, now: u64)
    ensures
        input >= now ==> now + remaining_until(input, now) == input,
        input <= now ==> remaining_until(input, now) == 0,
{
}

} // verus!

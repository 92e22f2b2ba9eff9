//! When a packet that was received leaves again.
use vstd::prelude::*;

use crate::time::{Duration, Instant};

verus! {

/// Calls `rand::random_range` on the range from `start` up to but not at `end`. The
/// call gives a number in that range and panics where the range is empty, which is ruled
/// out here. Which number it gives is left to chance. It also panics where the operating
/// system cannot seed the generator, which no argument can rule out.
#[verifier::external_body]
fn random_range(start: u64, end: u64) -> (r: u64)
    requires
        start < end,
    ensures
        start <= r < end,
{
    rand::random_range(start..end)
}

/// The number of different jitters, in whole microseconds, that `max_nanos` allows. It
/// is counted in sixty-four bits.
pub open spec fn jitter_choices(max_nanos: nat) -> nat {
    (max_nanos / 1_000) % 0x1_0000_0000_0000_0000
}

/// Whether `nanos` is a jitter that `max_nanos` allows: a whole number of microseconds
/// among the choices, or nothing where there is no choice.
pub open spec fn is_jitter(nanos: nat, max_nanos: nat) -> bool {
    let choices = jitter_choices(max_nanos);
    if choices == 0 {
        nanos == 0
    } else {
        nanos % 1_000 == 0 && nanos / 1_000 < choices
    }
}

/// The number of different jitters that a maximum allows.
pub fn max_micros(max_duration: Duration) -> (r: u64)
    ensures
        r == jitter_choices(max_duration@),
{
    (max_duration.as_micros() % 0x1_0000_0000_0000_0000) as u64
}

/// A random span of whole microseconds below `max_duration`, or none where it has not
/// even one.
pub fn random_duration(max_duration: Duration) -> (r: Duration)
    ensures
        is_jitter(r@, max_duration@),
{
    let max_micros: u64 = max_micros(max_duration);
    if max_micros == 0 {
        return Duration::from_micros(0);
    }
    let micros: u64 = random_range(0, max_micros);
    Duration::from_micros(micros)
}

/// When a packet leaves that was received at `recv_time`.
pub fn departure(recv_time: Instant, delay: Duration, jitter: Duration) -> (r: Instant)
    requires
        recv_time@ + delay@ + jitter@ <= u128::MAX,
    ensures
        r@ == recv_time@ + delay@ + jitter@,
{
    recv_time.plus(delay).plus(jitter)
}

/// Whether a packet that was received at `recv_time` may leave at `time`: after the
/// delay and some jitter.
pub open spec fn may_leave(time: nat, recv_time: nat, delay: nat, max_jitter: nat) -> bool {
    exists|jitter: nat| #[trigger]
        is_jitter(jitter, max_jitter) && time == recv_time + delay + jitter
}

/// When a packet leaves that was received at `recv_time`, with a jitter that is left to
/// chance.
pub fn schedule(recv_time: Instant, delay: Duration, max_jitter: Duration) -> (r: Instant)
    requires
        recv_time@ + delay@ + max_jitter@ <= u128::MAX,
    ensures
        may_leave(r@, recv_time@, delay@, max_jitter@),
{
    let jitter: Duration = random_duration(max_jitter);
    proof {
        law_jitter_is_bounded(jitter@, max_jitter@);
    }
    departure(recv_time, delay, jitter)
}

/// A packet leaves no earlier than its delay asks for, and no later than the jitter
/// allows; without jitter it leaves at one moment only.
pub proof fn law_departures_are_bounded(time: nat, recv_time: nat, delay: nat, max_jitter: nat)
    requires
        may_leave(time, recv_time, delay, max_jitter),
    ensures
        recv_time + delay <= time <= recv_time + delay + max_jitter,
        max_jitter < 1_000 ==> time == recv_time + delay,
{
    let jitter = choose|jitter: nat| #[trigger]
        is_jitter(jitter, max_jitter) && time == recv_time + delay + jitter;
    law_jitter_is_bounded(jitter, max_jitter);
}

/// A jitter is never more than its maximum, and less wherever the maximum has a
/// microsecond to choose from.
pub proof fn law_jitter_is_bounded(nanos: nat, max_nanos: nat)
    requires
        is_jitter(nanos, max_nanos),
    ensures
        nanos <= max_nanos,
        nanos > 0 ==> nanos < max_nanos,
        max_nanos < 1_000 ==> nanos == 0,
{
    let choices = jitter_choices(max_nanos);
    if choices > 0 {
        vstd::arithmetic::div_mod::lemma_mod_decreases(max_nanos / 1_000, 0x1_0000_0000_0000_0000);
    }
}

/// A maximum has a choice for each whole microsecond in it. A maximum of 2^64 microseconds
/// more has the same choices, since they are counted in sixty-four bits.
pub proof fn law_choices_are_whole_microseconds(max_nanos: nat)
    ensures
        max_nanos < 0x1_0000_0000_0000_0000 * 1_000 ==> jitter_choices(max_nanos) * 1_000
            <= max_nanos < (jitter_choices(max_nanos) + 1) * 1_000,
        jitter_choices(max_nanos + 0x1_0000_0000_0000_0000 * 1_000) == jitter_choices(max_nanos),
        jitter_choices(max_nanos) < 0x1_0000_0000_0000_0000,
{
    let micros = max_nanos / 1_000;
    assert((max_nanos + 0x1_0000_0000_0000_0000 * 1_000) / 1_000 == micros
        + 0x1_0000_0000_0000_0000);
    vstd::arithmetic::div_mod::lemma_mod_add_multiples_vanish(
        micros as int,
        0x1_0000_0000_0000_0000,
    );
}

/// Every whole number of microseconds below the maximum is a jitter that may be drawn, and
/// so is none at all.
pub proof fn law_every_microsecond_may_be_drawn(micros: nat, max_nanos: nat)
    ensures
        max_nanos < 0x1_0000_0000_0000_0000 * 1_000 && (micros + 1) * 1_000 <= max_nanos
            ==> is_jitter(micros * 1_000, max_nanos),
        is_jitter(0, max_nanos),
{
    if max_nanos < 0x1_0000_0000_0000_0000 * 1_000 && (micros + 1) * 1_000 <= max_nanos {
        law_choices_are_whole_microseconds(max_nanos);
        assert((micros * 1_000) / 1_000 == micros && (micros * 1_000) % 1_000 == 0);
    }
}

/// Nothing but whole microseconds is drawn, and at least a microsecond is left to the
/// maximum.
pub proof fn law_only_whole_microseconds_are_drawn(nanos: nat, max_nanos: nat)
    requires
        is_jitter(nanos, max_nanos),
    ensures
        nanos % 1_000 == 0,
        nanos == 0 || nanos + 1_000 <= max_nanos,
        is_jitter(nanos, max_nanos + 0x1_0000_0000_0000_0000 * 1_000),
{
    law_choices_are_whole_microseconds(max_nanos);
    let choices = jitter_choices(max_nanos);
    if choices > 0 {
        vstd::arithmetic::div_mod::lemma_mod_decreases(max_nanos / 1_000, 0x1_0000_0000_0000_0000);
    }
}

/// A packet may leave at just those moments that a jitter separates from the end of its
/// delay.
pub proof fn law_departure_is_delay_and_jitter(
    jitter: nat,
    recv_time: nat,
    delay: nat,
    max_jitter: nat,
)
    ensures
        may_leave(recv_time + delay + jitter, recv_time, delay, max_jitter) <==> is_jitter(
            jitter,
            max_jitter,
        ),
{
}

} // verus!

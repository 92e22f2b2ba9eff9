//! The token bucket that limits bandwidth: one token is one byte.
use vstd::prelude::*;

use crate::number::Number;
use crate::single::Single;
use crate::time::{Duration, Instant};

verus! {

/// What a bucket holds, and how it fills.
pub struct BucketState {
    pub current_val: Number,
    pub current_time: nat,
    pub refill_per_second: Number,
    pub max_val: Number,
}

impl BucketState {
    /// A bucket filled to the brim.
    pub open spec fn full(max_val: Number, refill_per_second: Number, now: nat) -> BucketState {
        BucketState { current_val: max_val, current_time: now, refill_per_second, max_val }
    }

    /// The bucket under a new limit. What is above the limit is lost; a higher limit
    /// adds nothing.
    pub open spec fn limited(self, new_limit: Number) -> BucketState {
        if new_limit.same(self.max_val) {
            self
        } else {
            BucketState {
                current_val: self.current_val.lesser(new_limit),
                current_time: self.current_time,
                refill_per_second: new_limit,
                max_val: new_limit,
            }
        }
    }

    /// The time that has passed at `time` since the bucket was last filled.
    pub open spec fn elapsed(self, time: nat) -> nat {
        if self.current_time <= time {
            (time - self.current_time) as nat
        } else {
            0
        }
    }

    /// The bucket once it has earned what the time since the last refill is worth.
    pub open spec fn refilled(self, time: nat) -> BucketState {
        BucketState {
            current_val: self.current_val.plus(
                Duration::seconds(self.elapsed(time)).times(self.refill_per_second),
            ).clamped(Number::zero(), self.max_val),
            current_time: time,
            ..self
        }
    }

    /// Whether the bucket holds `v` tokens at `time`.
    pub open spec fn affords(self, v: Number, time: nat) -> bool {
        v.at_most(self.refilled(time).current_val)
    }

    /// The bucket once `v` tokens were asked for at `time`: they are taken if they are
    /// there, and otherwise none is.
    pub open spec fn reserved(self, v: Number, time: nat) -> BucketState {
        let filled = self.refilled(time);
        if self.affords(v, time) {
            BucketState { current_val: filled.current_val.minus(v), ..filled }
        } else {
            filled
        }
    }

    /// Whether a limit can be kept to: it is a number and not negative.
    pub open spec fn is_limit(limit: Number) -> bool {
        Number::zero().at_most(limit)
    }
}

/// A token bucket.
#[derive(Clone, Copy, Debug)]
pub struct Bucket {
    pub current_val: Single,
    pub current_time: Instant,
    pub refill_per_second: Single,
    pub max_val: Single,
}

impl View for Bucket {
    type V = BucketState;

    open spec fn view(&self) -> BucketState {
        BucketState {
            current_val: self.current_val@,
            current_time: self.current_time@,
            refill_per_second: self.refill_per_second@,
            max_val: self.max_val@,
        }
    }
}

impl Bucket {
    /// A bucket that is full now.
    pub fn new_full(max_val: Single, refill_per_second: Single, now: Instant) -> (r: Bucket)
        ensures
            r@ == BucketState::full(max_val@, refill_per_second@, now@),
    {
        Bucket { current_val: max_val, current_time: now, refill_per_second, max_val }
    }

    /// Whether a limit can be kept to: it is a number and not negative.
    pub fn is_limit(limit: Single) -> (r: bool)
        ensures
            r == BucketState::is_limit(limit@),
    {
        Single::zero().at_most(limit)
    }

    /// Reacts to a change of the bandwidth limit. If the limit was lowered, the fill
    /// level is cut down at once, so that the next packet cannot burst above the new
    /// limit. If it was raised, the bucket earns its way up through [`Bucket::refill`]:
    /// there is no free burst.
    pub fn set_limit(&mut self, new_limit: Single)
        ensures
            final(self)@ == old(self)@.limited(new_limit@),
    {
        if new_limit.same(self.max_val) {
            return ;
        }
        self.max_val = new_limit;
        self.refill_per_second = new_limit;
        self.current_val = self.current_val.lesser(self.max_val);
    }

    /// Adds what the time since the last refill has earned, up to the limit.
    pub fn refill(&mut self, time: Instant)
        requires
            BucketState::is_limit(old(self).max_val@),
        ensures
            final(self)@ == old(self)@.refilled(time@),
    {
        let elapsed: Duration = time.saturating_duration_since(self.current_time);
        self.current_time = time;
        self.current_val = self.current_val.plus(
            elapsed.as_secs().times(self.refill_per_second),
        ).clamped(Single::zero(), self.max_val);
    }

    /// Takes `v` tokens if they are there at `time`, and says whether they were.
    pub fn try_reserve_at(&mut self, v: Single, time: Instant) -> (r: bool)
        requires
            BucketState::is_limit(old(self).max_val@),
        ensures
            r == old(self)@.affords(v@, time@),
            final(self)@ == old(self)@.reserved(v@, time@),
    {
        self.refill(time);
        if v.at_most(self.current_val) {
            self.current_val = self.current_val.minus(v);
            true
        } else {
            false
        }
    }
}

impl BucketState {
    /// A bucket as it is while its limits are finite: filled to between nothing and
    /// the limit, and filling at a finite rate.
    pub open spec fn sound(self) -> bool {
        &&& self.max_val.is_amount()
        &&& self.refill_per_second.is_amount()
        &&& self.current_val.is_amount()
        &&& self.current_val.at_most(self.max_val)
    }

    /// A bucket that starts full under a finite limit is sound and earns its limit in a
    /// second.
    pub proof fn law_full_is_sound(limit: Number, now: nat)
        requires
            limit.is_amount(),
        ensures
            BucketState::full(limit, limit, now).sound(),
            BucketState::full(limit, limit, now).paced(),
    {
    }

    /// A new finite limit keeps a bucket sound.
    pub proof fn law_limited_stays_sound(self, new_limit: Number)
        requires
            self.sound(),
            new_limit.is_amount(),
        ensures
            self.limited(new_limit).sound(),
            self.limited(new_limit).max_val.same(new_limit),
    {
    }

    /// A lowered limit cuts the fill level down to it at once.
    pub proof fn law_lowered_limit_cuts(self, new_limit: Number)
        requires
            new_limit.below(self.max_val),
        ensures
            self.limited(new_limit).current_val.at_most(new_limit),
    {
    }

    /// A raised limit grants nothing: the fill level stays as it was.
    pub proof fn law_raised_limit_grants_nothing(self, new_limit: Number)
        requires
            self.current_val.at_most(self.max_val),
            self.max_val.below(new_limit),
        ensures
            self.limited(new_limit).current_val == self.current_val,
    {
    }

    /// Setting the same limit again changes nothing more.
    pub proof fn law_limit_settles(self, new_limit: Number)
        requires
            new_limit !is Nan,
        ensures
            self.limited(new_limit).limited(new_limit) == self.limited(new_limit),
    {
    }

    /// Refilling keeps a bucket sound and never takes tokens away.
    pub proof fn law_refill_never_drains(self, time: nat)
        requires
            self.sound(),
            time <= u128::MAX,
        ensures
            self.refilled(time).sound(),
            self.current_val.at_most(self.refilled(time).current_val),
    {
        let seconds = Duration::seconds(self.elapsed(time));
        Duration::lemma_seconds(self.elapsed(time));
        seconds.lemma_times_grows(self.refill_per_second);
        self.current_val.lemma_plus_grows(seconds.times(self.refill_per_second));
    }

    /// While no time passes, or the clock is behind, a refill earns nothing.
    pub proof fn law_no_time_earns_nothing(self, time: nat)
        requires
            self.sound(),
            time <= self.current_time,
        ensures
            self.refilled(time).current_val.same(self.current_val),
    {
        let seconds = Duration::seconds(self.elapsed(time));
        Duration::lemma_seconds(self.elapsed(time));
        seconds.lemma_times_grows(self.refill_per_second);
        self.current_val.lemma_plus_same(seconds.times(self.refill_per_second));
    }

    /// What is admitted fits under the limit, whatever the bucket has been through: no
    /// packet bursts above it.
    pub proof fn law_admitted_is_within_limit(self, v: Number, time: nat)
        requires
            BucketState::is_limit(self.max_val),
            self.affords(v, time),
        ensures
            v.at_most(self.max_val),
    {
    }

    /// After a change of the limit, a packet above the new one is refused.
    pub proof fn law_no_burst_above_new_limit(self, new_limit: Number, v: Number, time: nat)
        requires
            BucketState::is_limit(new_limit),
            new_limit.below(v),
        ensures
            !self.limited(new_limit).affords(v, time),
    {
    }

    /// A reservation keeps a bucket sound. A refused one takes nothing.
    pub proof fn law_reserved_stays_sound(self, v: Number, time: nat)
        requires
            self.sound(),
            v.is_amount(),
            time <= u128::MAX,
        ensures
            self.reserved(v, time).sound(),
            self.reserved(v, time).current_val.at_most(self.refilled(time).current_val),
            !self.affords(v, time) ==> self.reserved(v, time) == self.refilled(time),
    {
        self.law_refill_never_drains(time);
        if self.affords(v, time) {
            self.refilled(time).current_val.lemma_minus_shrinks(v);
        }
    }
}

/// A packet that asks for its length in tokens at a moment.
pub struct Request {
    pub len: nat,
    pub time: nat,
}

impl BucketState {
    /// The bucket after a run of requests.
    pub open spec fn after(self, requests: Seq<Request>) -> BucketState
        decreases requests.len(),
    {
        if requests.len() == 0 {
            self
        } else {
            self.reserved(Number::whole(requests[0].len), requests[0].time).after(
                requests.drop_first(),
            )
        }
    }

    /// The bytes that a run of requests gets through.
    pub open spec fn spent(self, requests: Seq<Request>) -> nat
        decreases requests.len(),
    {
        if requests.len() == 0 {
            0
        } else {
            let v = Number::whole(requests[0].len);
            let time = requests[0].time;
            let rest = self.reserved(v, time).spent(requests.drop_first());
            if self.affords(v, time) {
                requests[0].len + rest
            } else {
                rest
            }
        }
    }

    /// What the time until `time` is worth at the rate at which the bucket fills, in
    /// units. Where that is too large a number, it counts as a full bucket.
    pub open spec fn worth(self, time: nat) -> int {
        match Duration::seconds(self.elapsed(time)).times(self.refill_per_second) {
            Number::Infinite { .. } => self.max_val.value(),
            product => product.value(),
        }
    }

    /// What the time during a run of requests is worth, in units.
    pub open spec fn due(self, requests: Seq<Request>) -> int
        decreases requests.len(),
    {
        if requests.len() == 0 {
            0
        } else {
            let v = Number::whole(requests[0].len);
            let time = requests[0].time;
            self.worth(time) + self.reserved(v, time).due(requests.drop_first())
        }
    }

    /// The spacing of numbers at the limit, in units: how finely a level can be told.
    pub open spec fn grain(self) -> nat {
        Number::spacing(self.max_val->units)
    }

    /// What the refills during a run of requests add, in units.
    pub open spec fn earned(self, requests: Seq<Request>) -> int
        decreases requests.len(),
    {
        if requests.len() == 0 {
            0
        } else {
            let v = Number::whole(requests[0].len);
            let time = requests[0].time;
            self.refilled(time).current_val.value() - self.current_val.value() + self.reserved(
                v,
                time,
            ).earned(requests.drop_first())
        }
    }

    /// Whether requests are for lengths that single precision holds exactly, at
    /// moments that can be counted.
    pub open spec fn countable(requests: Seq<Request>) -> bool {
        forall|i: int|
            0 <= i < requests.len() ==> #[trigger] requests[i].len <= 0x100_0000
                && requests[i].time <= u128::MAX
    }

    /// A bucket and requests that are counted exactly: the limit is at most 2^24 bytes.
    pub open spec fn exact(self, requests: Seq<Request>) -> bool {
        &&& self.sound()
        &&& self.max_val.at_most(Number::whole(0x100_0000))
        &&& BucketState::countable(requests)
    }

    /// Under a limit of up to 2^24 bytes every token is spent once: what gets through
    /// and what is left are together what was there and what was earned.
    pub proof fn law_tokens_are_spent_once(self, requests: Seq<Request>)
        requires
            self.exact(requests),
        ensures
            self.spent(requests) * Number::pow2(149) + self.after(requests).current_val.value()
                == self.current_val.value() + self.earned(requests),
            self.after(requests).sound(),
        decreases requests.len(),
    {
        if requests.len() > 0 {
            let len = requests[0].len;
            let time = requests[0].time;
            let v = Number::whole(len);
            let rest = requests.drop_first();
            Number::lemma_whole_finite(len);
            Number::lemma_whole_exact(len);
            self.law_refill_never_drains(time);
            self.law_reserved_stays_sound(v, time);
            let next = self.reserved(v, time);
            assert(next.max_val == self.max_val);
            assert forall|i: int| 0 <= i < rest.len() implies #[trigger] rest[i].len <= 0x100_0000
                && rest[i].time <= u128::MAX by {
                assert(rest[i] == requests[i + 1]);
            }
            next.law_tokens_are_spent_once(rest);
            if self.affords(v, time) {
                self.refilled(time).current_val.lemma_minus_whole_exact(len);
                let p = Number::pow2(149);
                let s = next.spent(rest);
                assert((len + s) * p == len * p + s * p) by (nonlinear_arith);
            }
        } else {
            assert(0 * Number::pow2(149) == 0) by (nonlinear_arith);
        }
    }

    /// Under a limit of up to 2^24 bytes, what gets through while no time passes is at
    /// most what the bucket held.
    pub proof fn law_burst_is_bounded(self, requests: Seq<Request>)
        requires
            self.exact(requests),
            forall|i: int| 0 <= i < requests.len() ==> #[trigger] requests[i].time
                == self.current_time,
        ensures
            self.spent(requests) * Number::pow2(149) <= self.current_val.value(),
    {
        self.law_tokens_are_spent_once(requests);
        self.lemma_no_time_earns_nothing(requests);
    }

    /// Requests at the moment of the last refill earn nothing.
    proof fn lemma_no_time_earns_nothing(self, requests: Seq<Request>)
        requires
            self.exact(requests),
            forall|i: int| 0 <= i < requests.len() ==> #[trigger] requests[i].time
                == self.current_time,
        ensures
            self.earned(requests) == 0,
        decreases requests.len(),
    {
        if requests.len() > 0 {
            let time = requests[0].time;
            let v = Number::whole(requests[0].len);
            let rest = requests.drop_first();
            Number::lemma_whole_finite(requests[0].len);
            self.law_no_time_earns_nothing(time);
            self.law_refill_never_drains(time);
            self.law_reserved_stays_sound(v, time);
            assert forall|i: int| 0 <= i < rest.len() implies #[trigger] rest[i].len <= 0x100_0000
                && rest[i].time == self.current_time by {
                assert(rest[i] == requests[i + 1]);
            }
            self.reserved(v, time).lemma_no_time_earns_nothing(rest);
        }
    }
}

impl BucketState {
    /// A refill adds what the time is worth, give or take half the grain, and less only
    /// where the bucket is full.
    #[verifier::spinoff_prover]
    pub proof fn law_refill_adds_its_worth(self, time: nat)
        requires
            self.sound(),
            time <= u128::MAX,
        ensures
            self.worth(time) >= 0,
            2 * self.refilled(time).current_val.value() <= 2 * (self.current_val.value()
                + self.worth(time)) + self.grain(),
            self.refilled(time).current_val.below(self.max_val) ==> 2 * self.refilled(
                time,
            ).current_val.value() + self.grain() >= 2 * (self.current_val.value() + self.worth(
                time,
            )),
    {
        let seconds = Duration::seconds(self.elapsed(time));
        let product = seconds.times(self.refill_per_second);
        Duration::lemma_seconds(self.elapsed(time));
        seconds.lemma_times_grows(self.refill_per_second);
        self.law_refill_never_drains(time);
        if product is Finite {
            assert(product.held()) by {
                let x = seconds->units * self.refill_per_second->units;
                Number::lemma_pow2_positive(149);
                Number::lemma_rounded_held(false, x, Number::pow2(149));
                Number::lemma_rounded_held(true, x, Number::pow2(149));
            }
            if self.current_val.value() + product.value() < self.max_val.value() {
                self.current_val.lemma_plus_error(product, self.max_val);
            } else {
                self.current_val.lemma_plus_reaches(product, self.max_val);
            }
        }
    }

    /// The bandwidth limit: what a run of requests gets through is at most what the
    /// bucket held and what the time was worth, and one grain for each request.
    #[verifier::spinoff_prover]
    pub proof fn law_bandwidth_is_limited(self, requests: Seq<Request>)
        requires
            self.sound(),
            BucketState::countable(requests),
        ensures
            self.spent(requests) * Number::pow2(149) <= self.current_val.value() + self.due(
                requests,
            ) + requests.len() * self.grain(),
        decreases requests.len(),
    {
        let p = Number::pow2(149);
        let g = self.grain();
        if requests.len() > 0 {
            let len = requests[0].len;
            let time = requests[0].time;
            let v = Number::whole(len);
            let rest = requests.drop_first();
            let filled = self.refilled(time).current_val;
            let next = self.reserved(v, time);
            Number::lemma_whole_finite(len);
            Number::lemma_whole_exact(len);
            self.law_refill_never_drains(time);
            self.law_refill_adds_its_worth(time);
            self.law_reserved_stays_sound(v, time);
            assert forall|i: int| 0 <= i < rest.len() implies #[trigger] rest[i].len <= 0x100_0000
                && rest[i].time <= u128::MAX by {
                assert(rest[i] == requests[i + 1]);
            }
            next.law_bandwidth_is_limited(rest);
            assert(requests.len() * g == rest.len() * g + g) by (nonlinear_arith)
                requires
                    requests.len() == rest.len() + 1,
            ;
            if self.affords(v, time) {
                filled.lemma_minus_error(v, self.max_val);
                let s = next.spent(rest);
                assert((len + s) * p == len * p + s * p) by (nonlinear_arith);
            }
        } else {
            assert(0 * p == 0) by (nonlinear_arith);
            assert(0 * g == 0) by (nonlinear_arith);
        }
    }
}

impl BucketState {
    /// How finely the laws on time count: a unit is cut into as many parts as make a rate
    /// of one unit per second earn 2^21 of them in a nanosecond.
    #[verifier::inline]
    pub open spec fn parts() -> nat {
        2_097_152_000_000_000
    }

    /// What the bucket earns in a span of nanoseconds at the rate at which it fills, were
    /// nothing rounded. One of this count is 2^21 parts of a unit.
    pub open spec fn earns(self, span: int) -> int {
        self.refill_per_second.value() * span
    }

    /// What time is worth is the rate for as long as it lasts, give or take one part in
    /// 2^21 and half a unit. It is less only where it counts as a full bucket.
    #[verifier::spinoff_prover]
    pub proof fn law_worth_is_rate_times_time(self, time: nat)
        requires
            self.sound(),
            time <= u128::MAX,
        ensures
            2 * (BucketState::parts() * self.worth(time) - 0x20_0001 * self.earns(
                self.elapsed(time) as int,
            )) <= BucketState::parts(),
            Duration::seconds(self.elapsed(time)).times(self.refill_per_second) is Finite ==> 2 * (
            0x1f_ffff * self.earns(self.elapsed(time) as int) - BucketState::parts() * self.worth(
                time,
            )) <= BucketState::parts(),
    {
        let p = Number::pow2(149);
        let elapsed = self.elapsed(time);
        let s = Duration::seconds(elapsed)->units;
        let r = self.refill_per_second->units;
        let x = Number::rounded_units(s * r, p);
        Number::lemma_pow2_positive(149);
        Duration::lemma_seconds(elapsed);
        Duration::law_seconds_are_close(elapsed);
        Number::law_rounding_is_close(s * r, p);
        let t = r * elapsed;
        assert(0x40_0000 * (1_000_000_000 * (s * r)) <= 0x40_0001 * (t * p)) by (nonlinear_arith)
            requires
                0x40_0000 * (1_000_000_000 * s) <= 0x40_0001 * (elapsed * p),
                t == r * elapsed,
                r >= 0,
        ;
        assert(0x3f_ffff * (t * p) <= 0x40_0000 * (1_000_000_000 * (s * r))) by (nonlinear_arith)
            requires
                0x3f_ffff * (elapsed * p) <= 0x40_0000 * (1_000_000_000 * s),
                t == r * elapsed,
                r >= 0,
        ;
        assert(0x20_0000 * (1_000_000_000 * (x * p)) <= 0x20_0001 * (t * p) + 0x10_0000 * (
        1_000_000_000 * p));
        assert(0x1f_ffff * (t * p) <= 0x20_0000 * (1_000_000_000 * (x * p)) + 0x10_0000 * (
        1_000_000_000 * p));
        assert(0x20_0000 * (1_000_000_000 * x) <= 0x20_0001 * t + 0x10_0000 * 1_000_000_000)
            by (nonlinear_arith)
            requires
                0x20_0000 * (1_000_000_000 * (x * p)) <= 0x20_0001 * (t * p) + 0x10_0000 * (
                1_000_000_000 * p),
                p > 0,
        ;
        assert(0x1f_ffff * t <= 0x20_0000 * (1_000_000_000 * x) + 0x10_0000 * 1_000_000_000)
            by (nonlinear_arith)
            requires
                0x1f_ffff * (t * p) <= 0x20_0000 * (1_000_000_000 * (x * p)) + 0x10_0000 * (
                1_000_000_000 * p),
                p > 0,
        ;
        Duration::seconds(elapsed).lemma_times_grows(self.refill_per_second);
    }

    /// A refill adds what the rate earns in the time that has passed, give or take one
    /// part in 2^21, half the grain and half a unit, and less only where the bucket is
    /// full.
    #[verifier::spinoff_prover]
    pub proof fn law_refill_adds_rate_times_time(self, time: nat)
        requires
            self.sound(),
            time <= u128::MAX,
        ensures
            ({
                let earned = self.earns(self.elapsed(time) as int);
                let added = self.refilled(time).current_val.value() - self.current_val.value();
                let slack = BucketState::parts() * (self.grain() + 1);
                &&& 2 * (BucketState::parts() * added - 0x20_0001 * earned) <= slack
                &&& self.refilled(time).current_val.below(self.max_val) ==> 2 * (0x1f_ffff * earned
                    - BucketState::parts() * added) <= slack
            }),
    {
        let was = self.current_val.value();
        let now = self.refilled(time).current_val.value();
        let worth = self.worth(time);
        let earned = self.earns(self.elapsed(time) as int);
        let grain = self.grain() as int;
        self.law_refill_adds_its_worth(time);
        self.law_worth_is_rate_times_time(time);
        BucketState::lemma_added_at_most(was, now, worth, earned, grain);
        if self.refilled(time).current_val.below(self.max_val) {
            assert(Duration::seconds(self.elapsed(time)).times(self.refill_per_second) is Finite) by {
                self.lemma_below_limit_is_finite(time);
            }
            BucketState::lemma_added_at_least(was, now, worth, earned, grain);
        }
    }

    /// A refill that leaves a bucket below its limit was for time that is worth a finite
    /// number.
    proof fn lemma_below_limit_is_finite(self, time: nat)
        requires
            self.sound(),
            time <= u128::MAX,
            self.refilled(time).current_val.below(self.max_val),
        ensures
            Duration::seconds(self.elapsed(time)).times(self.refill_per_second) is Finite,
    {
        let seconds = Duration::seconds(self.elapsed(time));
        let product = seconds.times(self.refill_per_second);
        Duration::lemma_seconds(self.elapsed(time));
        seconds.lemma_times_grows(self.refill_per_second);
        if product is Infinite {
            assert(self.current_val.plus(product) == product);
            assert(product.clamped(Number::zero(), self.max_val) == self.max_val);
        }
    }

    /// The two bounds on what a refill adds, from above.
    proof fn lemma_added_at_most(was: int, now: int, worth: int, earned: int, grain: int)
        requires
            2 * now <= 2 * (was + worth) + grain,
            2 * (BucketState::parts() * worth - 0x20_0001 * earned) <= BucketState::parts(),
        ensures
            2 * (BucketState::parts() * (now - was) - 0x20_0001 * earned) <= BucketState::parts() * (
            grain + 1),
    {
    }

    /// The two bounds on what a refill adds, from below.
    proof fn lemma_added_at_least(was: int, now: int, worth: int, earned: int, grain: int)
        requires
            2 * now + grain >= 2 * (was + worth),
            2 * (0x1f_ffff * earned - BucketState::parts() * worth) <= BucketState::parts(),
        ensures
            2 * (0x1f_ffff * earned - BucketState::parts() * (now - was)) <= BucketState::parts() * (
            grain + 1),
    {
    }

    /// Tokens come with time: what fits under the limit is there once the rate has earned
    /// what is missing, and one part in 2^21, half a grain and half a unit more.
    #[verifier::spinoff_prover]
    pub proof fn law_waiting_affords(self, v: Number, time: nat)
        requires
            self.sound(),
            v.is_amount(),
            v.at_most(self.max_val),
            time <= u128::MAX,
            2 * (BucketState::parts() * (v.value() - self.current_val.value())) + BucketState::parts()
                * (self.grain() + 1) <= 2 * (0x1f_ffff * self.earns(self.elapsed(time) as int)),
        ensures
            self.affords(v, time),
    {
        self.law_refill_never_drains(time);
        self.law_refill_adds_rate_times_time(time);
    }

    /// Refilling on the way changes next to nothing: the bucket holds what it would hold
    /// after one refill at the end, give or take two parts in 2^21 of what the time
    /// earns, and for each of the three refills half a grain and half a unit.
    #[verifier::spinoff_prover]
    pub proof fn law_refills_add_up(self, first: nat, second: nat)
        requires
            self.sound(),
            self.current_time <= first <= second <= u128::MAX,
        ensures
            ({
                let apart = self.refilled(first).refilled(second).current_val.value()
                    - self.refilled(second).current_val.value();
                let slack = BucketState::parts() * (self.grain() + 1);
                let bound = 4 * self.earns(second - self.current_time) + 3 * slack;
                -bound <= 2 * (BucketState::parts() * apart) <= bound
            }),
    {
        let middle = self.refilled(first);
        let max = self.max_val.value();
        let was = self.current_val.value();
        let twice = middle.refilled(second).current_val.value();
        let once = self.refilled(second).current_val.value();
        let rate = self.refill_per_second.value();
        let one = rate * (first - self.current_time);
        let two = rate * (second - first);
        self.law_refill_never_drains(first);
        self.law_refill_never_drains(second);
        middle.law_refill_never_drains(second);
        self.law_refill_adds_rate_times_time(first);
        self.law_refill_adds_rate_times_time(second);
        middle.law_refill_adds_rate_times_time(second);
        assert(one + two == rate * (second - self.current_time)) by (nonlinear_arith)
            requires
                one == rate * (first - self.current_time),
                two == rate * (second - first),
        ;
        assert(one + two >= 0) by (nonlinear_arith)
            requires
                one == rate * (first - self.current_time),
                two == rate * (second - first),
                rate >= 0,
                first >= self.current_time,
                second >= first,
        ;
        BucketState::lemma_steps_add_up(
            max,
            was,
            middle.current_val.value(),
            twice,
            once,
            one,
            two,
            (BucketState::parts() * (self.grain() + 1)) as int,
        );
    }

    /// The bounds on two refills after each other and on one in their place.
    proof fn lemma_steps_add_up(
        max: int,
        was: int,
        middle: int,
        twice: int,
        once: int,
        one: int,
        two: int,
        slack: int,
    )
        requires
            middle <= twice <= max,
            once <= max,
            one + two >= 0,
            slack >= 0,
            2 * (BucketState::parts() * (middle - was) - 0x20_0001 * one) <= slack,
            2 * (BucketState::parts() * (twice - middle) - 0x20_0001 * two) <= slack,
            2 * (BucketState::parts() * (once - was) - 0x20_0001 * (one + two)) <= slack,
            middle < max ==> 2 * (0x1f_ffff * one - BucketState::parts() * (middle - was)) <= slack,
            twice < max ==> 2 * (0x1f_ffff * two - BucketState::parts() * (twice - middle)) <= slack,
            once < max ==> 2 * (0x1f_ffff * (one + two) - BucketState::parts() * (once - was))
                <= slack,
        ensures
            2 * (BucketState::parts() * (twice - once)) <= 4 * (one + two) + 3 * slack,
            2 * (BucketState::parts() * (once - twice)) <= 4 * (one + two) + 3 * slack,
    {
        if once < max {
            assert(2 * (BucketState::parts() * (twice - once)) <= 4 * (one + two) + 3 * slack);
        }
        if twice < max {
            assert(2 * (BucketState::parts() * (once - twice)) <= 4 * (one + two) + 3 * slack);
        }
    }

    /// Whether requests come in the order of their moments.
    pub open spec fn in_order(requests: Seq<Request>) -> bool {
        forall|i: int, j: int|
            0 <= i <= j < requests.len() ==> (#[trigger] requests[i]).time <= (
            #[trigger] requests[j]).time
    }

    /// The time from the first request to the last one.
    pub open spec fn lasting(requests: Seq<Request>) -> int {
        if requests.len() == 0 {
            0
        } else {
            requests.last().time - requests[0].time
        }
    }

    /// What the time during a run of requests is worth is the rate for as long as it
    /// lasts, and at most one part in 2^21 and half a unit for each request more.
    #[verifier::spinoff_prover]
    pub proof fn law_due_is_rate_times_time(self, requests: Seq<Request>)
        requires
            self.sound(),
            BucketState::countable(requests),
            BucketState::in_order(requests),
            requests.len() > 0,
            self.current_time <= requests[0].time,
        ensures
            2 * (BucketState::parts() * self.due(requests) - 0x20_0001 * self.earns(
                requests.last().time - self.current_time,
            )) <= requests.len() * BucketState::parts(),
        decreases requests.len(),
    {
        let time = requests[0].time;
        let v = Number::whole(requests[0].len);
        let rest = requests.drop_first();
        let next = self.reserved(v, time);
        Number::lemma_whole_finite(requests[0].len);
        self.law_worth_is_rate_times_time(time);
        self.law_reserved_stays_sound(v, time);
        if rest.len() == 0 {
            assert(next.due(rest) == 0);
        } else {
            BucketState::lemma_rest(requests);
            next.law_due_is_rate_times_time(rest);
            let rate = self.refill_per_second.value();
            let last = requests.last().time;
            assert(rest.last() == requests.last());
            assert(rate * (time - self.current_time) + rate * (last - time) == rate * (last
                - self.current_time)) by (nonlinear_arith);
        }
    }

    /// The requests after the first one can be counted and are in order as well.
    proof fn lemma_rest(requests: Seq<Request>)
        requires
            BucketState::countable(requests),
            BucketState::in_order(requests),
            requests.len() > 0,
        ensures
            BucketState::countable(requests.drop_first()),
            BucketState::in_order(requests.drop_first()),
    {
        let rest = requests.drop_first();
        assert forall|i: int| 0 <= i < rest.len() implies #[trigger] rest[i].len <= 0x100_0000
            && rest[i].time <= u128::MAX by {
            assert(rest[i] == requests[i + 1]);
        }
        assert forall|i: int, j: int| 0 <= i <= j < rest.len() implies (#[trigger] rest[i]).time <= (
        #[trigger] rest[j]).time by {
            assert(requests[i + 1].time <= requests[j + 1].time);
        }
    }

    /// The bandwidth limit over time: what a run of requests gets through is at most a
    /// full bucket and what the rate earns from the first request to the last, one part
    /// in 2^21 of that, and a grain and half a unit for each request.
    #[verifier::spinoff_prover]
    pub proof fn law_bandwidth_is_rate_times_time(self, requests: Seq<Request>)
        requires
            self.sound(),
            BucketState::countable(requests),
            BucketState::in_order(requests),
        ensures
            2 * (BucketState::parts() * (self.spent(requests) * Number::pow2(149)
                - self.max_val.value() - requests.len() * self.grain()) - 0x20_0001 * self.earns(
                BucketState::lasting(requests),
            )) <= requests.len() * BucketState::parts(),
    {
        let p = Number::pow2(149);
        let g = self.grain();
        if requests.len() == 0 {
            assert(0 * p == 0) by (nonlinear_arith);
            assert(0 * g == 0) by (nonlinear_arith);
            assert(self.refill_per_second.value() * 0 == 0) by (nonlinear_arith);
        } else {
            let len = requests[0].len;
            let time = requests[0].time;
            let v = Number::whole(len);
            let rest = requests.drop_first();
            let filled = self.refilled(time).current_val;
            let next = self.reserved(v, time);
            Number::lemma_whole_finite(len);
            Number::lemma_whole_exact(len);
            self.law_refill_never_drains(time);
            self.law_reserved_stays_sound(v, time);
            BucketState::lemma_rest(requests);
            let s = next.spent(rest);
            next.law_bandwidth_is_limited(rest);
            if rest.len() == 0 {
                assert(next.due(rest) == 0);
                assert(self.refill_per_second.value() * 0 == 0) by (nonlinear_arith);
            } else {
                assert(rest.last() == requests.last());
                assert(rest[0] == requests[1]);
                next.law_due_is_rate_times_time(rest);
            }
            assert(requests.len() * g == rest.len() * g + g) by (nonlinear_arith)
                requires
                    requests.len() == rest.len() + 1,
            ;
            assert((len + s) * p == len * p + s * p) by (nonlinear_arith);
            if self.affords(v, time) {
                filled.lemma_minus_error(v, self.max_val);
            }
        }
    }
}

impl BucketState {
    /// Whether a bucket earns its limit in a second.
    pub open spec fn paced(self) -> bool {
        self.refill_per_second == self.max_val
    }

    /// Whether the bytes that a run of requests gets through keep to a limit of bytes per
    /// second. They are at most the limit, for a full bucket, and what the limit makes
    /// from the first request to the last, one part in 2^21 of that, and for each request
    /// the spacing of numbers at the limit and half a unit.
    pub open spec fn keeps_to(limit: Number, bytes: nat, requests: Seq<Request>) -> bool {
        2 * (BucketState::parts() * (bytes * Number::pow2(149) - limit.value() - requests.len()
            * Number::spacing(limit->units)) - 0x20_0001 * (limit.value() * BucketState::lasting(
            requests,
        ))) <= requests.len() * BucketState::parts()
    }

    /// Fewer bytes keep to a limit that more bytes keep to.
    pub proof fn law_less_keeps_to_limit(
        limit: Number,
        less: nat,
        more: nat,
        requests: Seq<Request>,
    )
        requires
            less <= more,
            BucketState::keeps_to(limit, more, requests),
        ensures
            BucketState::keeps_to(limit, less, requests),
    {
        let p = Number::pow2(149);
        assert(less * p <= more * p) by (nonlinear_arith)
            requires
                less <= more,
        ;
    }

    /// A bucket that earns its limit in a second keeps to its limit.
    pub proof fn law_limit_is_kept(self, limit: Number, requests: Seq<Request>)
        requires
            self.sound(),
            self.paced(),
            self.max_val.same(limit),
            BucketState::countable(requests),
            BucketState::in_order(requests),
        ensures
            BucketState::keeps_to(limit, self.spent(requests), requests),
    {
        self.law_bandwidth_is_rate_times_time(requests);
    }
}

impl BucketState {
    /// A limit can be kept to where it is a finite number that is not negative, or infinite.
    pub proof fn law_what_is_a_limit(limit: Number)
        ensures
            BucketState::is_limit(limit) <==> match limit {
                Number::Nan => false,
                Number::Infinite { neg } => !neg,
                Number::Finite { .. } => limit.value() >= 0,
            },
    {
    }

    /// A full bucket holds its whole limit from the start: at once and at any later moment it
    /// affords what is not above the limit, and nothing more.
    pub proof fn law_full_bucket_holds_its_limit(
        limit: Number,
        rate: Number,
        now: nat,
        v: Number,
        time: nat,
    )
        requires
            limit.is_amount(),
            rate.is_amount(),
            v.is_amount(),
            time <= u128::MAX,
        ensures
            BucketState::full(limit, rate, now).affords(v, time) <==> v.value() <= limit.value(),
            BucketState::full(limit, rate, now).current_val.value() == limit.value(),
            BucketState::full(limit, rate, now).max_val.value() == limit.value(),
            BucketState::full(limit, rate, now).refill_per_second.value() == rate.value(),
            BucketState::full(limit, rate, now).current_time == now,
    {
        BucketState::full(limit, rate, now).law_refill_never_drains(time);
    }

    /// Whatever the numbers, a full bucket starts at its limit, with the rate and at the
    /// moment that it is given.
    pub proof fn law_full_in_general(limit: Number, rate: Number, now: nat)
        ensures
            BucketState::full(limit, rate, now).current_val == BucketState::full(
                limit,
                rate,
                now,
            ).max_val,
            BucketState::full(limit, rate, now).max_val == limit,
            BucketState::full(limit, rate, now).refill_per_second == rate,
            BucketState::full(limit, rate, now).current_time == now,
    {
    }

    /// A new limit is the level at most and the rate from now on. What was there stays as far
    /// as it fits, and no time is lost. The limit that is already in force changes nothing.
    pub proof fn law_limited_keeps_what_fits(self, new_limit: Number)
        requires
            self.sound(),
            new_limit.is_amount(),
        ensures
            self.limited(new_limit).current_val.value() == if new_limit.value()
                < self.current_val.value() {
                new_limit.value()
            } else {
                self.current_val.value()
            },
            self.limited(new_limit).max_val.value() == new_limit.value(),
            self.limited(new_limit).current_time == self.current_time,
            new_limit.value() != self.max_val.value() ==> self.limited(
                new_limit,
            ).refill_per_second.value() == new_limit.value(),
            new_limit.value() == self.max_val.value() ==> self.limited(new_limit) == self,
    {
    }

    /// Whatever the numbers, a limit other than the one in force becomes the limit and the
    /// rate. The level stays, or it becomes the limit where that is lower or the level is no
    /// number.
    pub proof fn law_limited_in_general(self, new_limit: Number)
        ensures
            !new_limit.same(self.max_val) ==> self.limited(new_limit).max_val == new_limit
                && self.limited(new_limit).refill_per_second == new_limit,
            !new_limit.same(self.max_val) && (new_limit.below(self.current_val)
                || self.current_val is Nan) ==> self.limited(new_limit).current_val == new_limit,
            self.current_val.at_most(new_limit) || new_limit is Nan && self.current_val !is Nan
                ==> self.limited(new_limit).current_val == self.current_val,
            new_limit.same(self.max_val) ==> self.limited(new_limit) == self,
            self.limited(new_limit).current_time == self.current_time,
    {
    }

    /// A level that is no number is mended by a new limit: it becomes the limit.
    pub proof fn law_new_limit_mends(self, new_limit: Number)
        requires
            self.current_val is Nan,
            new_limit.is_amount(),
            !new_limit.same(self.max_val),
        ensures
            self.limited(new_limit).current_val.value() == new_limit.value(),
            self.limited(new_limit).current_val is Finite,
    {
    }

    /// The time that has passed and the moment of the last refill make the moment that is
    /// asked for. A clock that is behind has let no time pass.
    pub proof fn law_elapsed_is_the_difference(self, time: nat)
        ensures
            self.current_time <= time ==> self.current_time + self.elapsed(time) == time,
            time <= self.current_time ==> self.elapsed(time) == 0,
    {
    }

    /// A refill brings the bucket to the moment that is asked for, neither above its limit
    /// nor below what it held, and leaves limit and rate alone.
    pub proof fn law_refill_moves_on(self, time: nat)
        requires
            self.sound(),
            time <= u128::MAX,
        ensures
            self.refilled(time).current_time == time,
            self.refilled(time).max_val == self.max_val,
            self.refilled(time).refill_per_second == self.refill_per_second,
            self.current_val.value() <= self.refilled(time).current_val.value()
                <= self.max_val.value(),
    {
        self.law_refill_never_drains(time);
    }

    /// A bucket affords what is not above its level, and only then pays for it: the level
    /// falls by just that, as near as a number can say. Either way time has moved on.
    pub proof fn law_reservation_is_paid_for(self, v: Number, time: nat)
        requires
            self.sound(),
            v.is_amount(),
            time <= u128::MAX,
        ensures
            self.affords(v, time) <==> v.value() <= self.refilled(time).current_val.value(),
            self.affords(v, time) ==> self.reserved(v, time).current_val.stands_for(
                self.refilled(time).current_val.value() - v.value(),
                1,
            ),
            !self.affords(v, time) ==> self.reserved(v, time).current_val == self.refilled(
                time,
            ).current_val,
            self.reserved(v, time).current_time == time,
            self.reserved(v, time).max_val == self.max_val,
            self.reserved(v, time).refill_per_second == self.refill_per_second,
    {
        self.law_refill_never_drains(time);
        self.refilled(time).current_val.law_difference_is_nearest(v);
    }

    /// Under an infinite limit everything gets through for as long as time passes between
    /// one packet and the next. Where none has passed the level is no number any more, and
    /// nothing gets through.
    pub proof fn law_infinite_limit(self, v: Number, time: nat)
        requires
            self.max_val == (Number::Infinite { neg: false }),
            self.refill_per_second == (Number::Infinite { neg: false }),
            self.current_val == (Number::Infinite { neg: false }),
            v.is_amount(),
            time <= u128::MAX,
        ensures
            self.current_time < time ==> self.affords(v, time) && self.reserved(v, time).current_val
                == (Number::Infinite { neg: false }),
            time <= self.current_time ==> !self.affords(v, time) && self.reserved(
                v,
                time,
            ).current_val is Nan,
    {
        let elapsed = self.elapsed(time);
        let p = Number::pow2(149);
        Duration::lemma_seconds(elapsed);
        Duration::law_seconds_are_close(elapsed);
        Number::lemma_pow2_positive(149);
        if elapsed > 0 {
            assert(elapsed * p > 0) by (nonlinear_arith)
                requires
                    elapsed > 0,
                    p > 0,
            ;
            assert(Duration::seconds(elapsed).value() > 0);
        }
    }

    /// What is no number affords nothing, until a new limit mends it.
    pub proof fn law_no_number_affords_nothing(self, v: Number, time: nat)
        requires
            self.current_val is Nan,
        ensures
            !self.affords(v, time),
            self.reserved(v, time).current_val is Nan,
    {
    }
}

} // verus!

//! What can be set, before the engine starts and while it runs.
use vstd::prelude::*;

use crate::addr::SocketAddr;
use crate::single::Single;
use crate::time::Duration;

verus! {

/// A double-precision number (IEEE 754 binary64), by its bits. Nothing is computed
/// with it here: it is compared and handed on.
#[derive(Clone, Copy, Debug)]
pub struct Double {
    pub bits: u64,
}

impl Double {
    /// Whether the bits denote no number: every bit of the exponent is set, and some
    /// bit of the fraction.
    pub open spec fn nan(self) -> bool {
        self.bits % 0x8000_0000_0000_0000 > 0x7ff0_0000_0000_0000
    }

    /// Whether the bits denote one of the two zeros.
    pub open spec fn zero(self) -> bool {
        self.bits % 0x8000_0000_0000_0000 == 0
    }

    /// `self == other`: false where one is no number, and the two zeros are equal.
    pub open spec fn equals(self, other: Double) -> bool {
        !self.nan() && !other.nan() && (self.bits == other.bits || (self.zero() && other.zero()))
    }

    /// `self == other`
    pub fn same(self, other: Double) -> (r: bool)
        ensures
            r == self.equals(other),
    {
        let p: u64 = self.bits % 0x8000_0000_0000_0000;
        let q: u64 = other.bits % 0x8000_0000_0000_0000;
        p <= 0x7ff0_0000_0000_0000 && q <= 0x7ff0_0000_0000_0000 && (self.bits == other.bits || (p
            == 0 && q == 0))
    }
}

/// What is needed to set up the engine. Unlike a [`LiveConfig`] it cannot change
/// without binding sockets anew, so it stays fixed while an engine runs.
#[derive(Clone, Copy, Debug)]
pub struct EngineParams {
    pub bind_addr: SocketAddr,
    pub upstream: SocketAddr,
}

/// What can be changed while the proxy is running.
#[derive(Clone, Copy, Debug)]
pub struct LiveConfig {
    pub delay_up: Duration,
    pub delay_down: Duration,
    pub max_jitter: Duration,
    pub drop_probability: Double,
    pub limit_up: Single,
    pub limit_down: Single,
}

impl LiveConfig {
    /// Whether every setting is a number.
    pub open spec fn all_numbers(self) -> bool {
        !self.drop_probability.nan() && self.limit_up@ !is Nan && self.limit_down@ !is Nan
    }

    /// Whether two configurations are equal, setting by setting.
    pub open spec fn equals(self, other: LiveConfig) -> bool {
        &&& self.delay_up@ == other.delay_up@
        &&& self.delay_down@ == other.delay_down@
        &&& self.max_jitter@ == other.max_jitter@
        &&& self.drop_probability.equals(other.drop_probability)
        &&& self.limit_up@.same(other.limit_up@)
        &&& self.limit_down@.same(other.limit_down@)
    }

    /// A configuration equals itself, unless one of its settings is no number.
    pub proof fn law_equals_itself(self)
        ensures
            self.equals(self) <==> self.all_numbers(),
    {
    }
}

impl Double {
    /// What is no number has an exponent field of ones only and a fraction that is not zero.
    /// A zero has nothing but a sign.
    pub proof fn law_fields(self)
        ensures
            self.nan() <==> (self.bits / 0x10_0000_0000_0000) % 0x800 == 0x7ff && self.bits
                % 0x10_0000_0000_0000 != 0,
            self.zero() <==> self.bits == 0 || self.bits == 0x8000_0000_0000_0000,
    {
        let b = self.bits;
        let low = b % 0x8000_0000_0000_0000;
        assert((b / 0x10_0000_0000_0000) % 0x800 == low / 0x10_0000_0000_0000);
        assert(b % 0x10_0000_0000_0000 == low % 0x10_0000_0000_0000);
    }

    /// A number equals itself and nothing else, but for the two zeros.
    pub proof fn law_equality(self, other: Double)
        ensures
            self.equals(self) <==> !self.nan(),
            self.equals(other) <==> other.equals(self),
            self.equals(other) && self.bits != other.bits ==> self.zero() && other.zero(),
            self.zero() && other.zero() ==> self.equals(other),
            self.equals(other) ==> !self.nan() && !other.nan(),
    {
    }
}

impl LiveConfig {
    /// Equal configurations agree in every setting: a change of any one of them is a change.
    pub proof fn law_every_setting_counts(self, other: LiveConfig)
        ensures
            self.equals(other) ==> self.delay_up.nanos == other.delay_up.nanos
                && self.delay_down.nanos == other.delay_down.nanos && self.max_jitter.nanos
                == other.max_jitter.nanos,
            self.equals(other) ==> self.drop_probability.bits == other.drop_probability.bits || (
            self.drop_probability.zero() && other.drop_probability.zero()),
            self.equals(other) && self.limit_up@ is Finite ==> other.limit_up@ is Finite
                && self.limit_up@.value() == other.limit_up@.value(),
            self.equals(other) && self.limit_down@ is Finite ==> other.limit_down@ is Finite
                && self.limit_down@.value() == other.limit_down@.value(),
            self.equals(other) && self.limit_up@ is Infinite ==> self.limit_up@ == other.limit_up@,
            self.equals(other) && self.limit_down@ is Infinite ==> self.limit_down@
                == other.limit_down@,
            self.equals(other) ==> self.all_numbers() && other.all_numbers(),
            self.equals(other) <==> other.equals(self),
    {
    }

    /// Configurations with the same settings are equal, as far as these are numbers.
    pub proof fn law_nothing_else_counts(self, other: LiveConfig)
        requires
            self.delay_up.nanos == other.delay_up.nanos,
            self.delay_down.nanos == other.delay_down.nanos,
            self.max_jitter.nanos == other.max_jitter.nanos,
            self.drop_probability.bits == other.drop_probability.bits,
            self.limit_up.bits == other.limit_up.bits,
            self.limit_down.bits == other.limit_down.bits,
            (self.drop_probability.bits / 0x10_0000_0000_0000) % 0x800 != 0x7ff
                || self.drop_probability.bits % 0x10_0000_0000_0000 == 0,
            self.limit_up@ !is Nan,
            self.limit_down@ !is Nan,
        ensures
            self.equals(other),
    {
        self.drop_probability.law_fields();
    }
}

impl PartialEq for LiveConfig {
    fn eq(&self, other: &LiveConfig) -> (r: bool) {
        self.delay_up.nanos == other.delay_up.nanos && self.delay_down.nanos
            == other.delay_down.nanos && self.max_jitter.nanos == other.max_jitter.nanos
            && self.drop_probability.same(other.drop_probability) && self.limit_up.same(
            other.limit_up,
        ) && self.limit_down.same(other.limit_down)
    }
}

impl vstd::std_specs::cmp::PartialEqSpecImpl for LiveConfig {
    open spec fn obeys_eq_spec() -> bool {
        true
    }

    open spec fn eq_spec(&self, other: &LiveConfig) -> bool {
        self.equals(*other)
    }
}

} // verus!

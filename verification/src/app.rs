//! The window: its settings, what it shows, and what its buttons do.
use vstd::prelude::*;
use vstd::string::StringExecFns;

use crate::addr::SocketAddr;
use crate::config::{Double, EngineParams, LiveConfig};
use crate::single::Single;
use crate::time::Duration;

verus! {

/// The arguments of the program. Addresses are given as text.
pub struct Cli {
    pub from: String,
    pub to: String,
    pub delay: u64,
    pub delay_up: u64,
    pub delay_down: u64,
    pub jitter: u64,
    pub loss: Double,
    pub bandwidth_limit: Single,
    pub bandwidth_limit_up: Single,
    pub bandwidth_limit_down: Single,
}

/// What the button does.
#[derive(Clone, Copy, Debug, PartialEq, Eq, Structural)]
pub enum Toggle {
    Start,
    Stop,
}

/// How the window looks for the length of one frame.
#[derive(Clone, Copy, Debug, PartialEq, Eq, Structural)]
pub struct Controls {
    /// Whether the addresses can be edited.
    pub addresses_enabled: bool,
    /// What the button does.
    pub toggle: Toggle,
    /// Whether the window says that the engine is running.
    pub running: bool,
}

/// The window, around the handle of a running engine.
pub struct ProxyApp<H> {
    pub from_str: String,
    pub to_str: String,
    pub delay_ms: u64,
    pub delay_up_ms: u64,
    pub delay_down_ms: u64,
    pub jitter_ms: u64,
    pub loss: Double,
    pub bandwidth_limit: Single,
    pub bandwidth_limit_up: Single,
    pub bandwidth_limit_down: Single,
    pub engine: Option<H>,
    pub error: Option<String>,
    pub addr_parse_error: Option<String>,
}

/// The text of a message.
pub open spec fn text(message: Option<String>) -> Option<Seq<char>> {
    match message {
        Some(s) => Some(s@),
        None => None,
    }
}

/// A message about something that went wrong.
fn message(what: &str, why: &String) -> (r: String)
    ensures
        r@ == what@ + why@,
{
    let mut s: String = String::from_str(what);
    s.append(why.as_str());
    s
}

impl<H> ProxyApp<H> {
    /// Whether the settings are those of `other`.
    pub open spec fn same_settings(self, other: ProxyApp<H>) -> bool {
        &&& self.from_str == other.from_str
        &&& self.to_str == other.to_str
        &&& self.delay_ms == other.delay_ms
        &&& self.delay_up_ms == other.delay_up_ms
        &&& self.delay_down_ms == other.delay_down_ms
        &&& self.jitter_ms == other.jitter_ms
        &&& self.loss == other.loss
        &&& self.bandwidth_limit == other.bandwidth_limit
        &&& self.bandwidth_limit_up == other.bandwidth_limit_up
        &&& self.bandwidth_limit_down == other.bandwidth_limit_down
    }

    /// The configuration that the settings make. What is set for both directions and
    /// what is set for one add up, for delays, and the lower one holds, for limits.
    pub open spec fn makes(self, config: LiveConfig) -> bool {
        &&& config.delay_up@ == (self.delay_ms + self.delay_up_ms) * 1_000_000
        &&& config.delay_down@ == (self.delay_ms + self.delay_down_ms) * 1_000_000
        &&& config.max_jitter@ == self.jitter_ms * 1_000_000
        &&& config.drop_probability == self.loss
        &&& config.limit_up@ == self.bandwidth_limit@.lesser(self.bandwidth_limit_up@)
        &&& config.limit_down@ == self.bandwidth_limit@.lesser(self.bandwidth_limit_down@)
    }

    /// Whether a configuration equals the one that the settings make.
    pub open spec fn in_force(self, config: LiveConfig) -> bool {
        &&& config.delay_up@ == (self.delay_ms + self.delay_up_ms) * 1_000_000
        &&& config.delay_down@ == (self.delay_ms + self.delay_down_ms) * 1_000_000
        &&& config.max_jitter@ == self.jitter_ms * 1_000_000
        &&& config.drop_probability.equals(self.loss)
        &&& config.limit_up@.same(self.bandwidth_limit@.lesser(self.bandwidth_limit_up@))
        &&& config.limit_down@.same(self.bandwidth_limit@.lesser(self.bandwidth_limit_down@))
    }

    /// Once an engine has the configuration that the settings make, nothing more is
    /// sent to it until they change. A setting that is no number is sent again and again.
    pub proof fn law_updates_settle(self, config: LiveConfig)
        requires
            self.makes(config),
        ensures
            self.in_force(config) <==> config.all_numbers(),
    {
    }

    /// The limit of a direction is at most the common limit and at most its own, as far
    /// as these are numbers.
    pub proof fn law_lower_limit_holds(self, config: LiveConfig)
        requires
            self.makes(config),
        ensures
            self.bandwidth_limit@ !is Nan ==> config.limit_up@.at_most(self.bandwidth_limit@)
                && config.limit_down@.at_most(self.bandwidth_limit@),
            self.bandwidth_limit_up@ !is Nan ==> config.limit_up@.at_most(self.bandwidth_limit_up@),
            self.bandwidth_limit_down@ !is Nan ==> config.limit_down@.at_most(
                self.bandwidth_limit_down@,
            ),
    {
    }

    /// The delay of a direction is the common one and its own together, to the millisecond,
    /// and the largest jitter is the one that is set.
    pub proof fn law_delays_add_up(self, config: LiveConfig)
        requires
            self.makes(config),
        ensures
            config.delay_up.nanos % 1_000_000 == 0,
            config.delay_up.nanos / 1_000_000 - self.delay_ms == self.delay_up_ms,
            config.delay_down.nanos % 1_000_000 == 0,
            config.delay_down.nanos / 1_000_000 - self.delay_ms == self.delay_down_ms,
            config.max_jitter.nanos % 1_000_000 == 0,
            config.max_jitter.nanos / 1_000_000 == self.jitter_ms,
            config.delay_up.nanos - config.delay_down.nanos == (self.delay_up_ms
                - self.delay_down_ms) * 1_000_000,
    {
    }

    /// The loss is the one that is set, to the bit.
    pub proof fn law_loss_is_as_set(self, config: LiveConfig)
        requires
            self.makes(config),
        ensures
            config.drop_probability.bits == self.loss.bits,
    {
    }

    /// The limit of a direction is the common limit or its own, whichever is a number and
    /// lower. The limit of the other direction has no part in it.
    pub proof fn law_limit_is_one_of_its_own(self, config: LiveConfig)
        requires
            self.makes(config),
        ensures
            config.limit_up@ == self.bandwidth_limit@ || config.limit_up@
                == self.bandwidth_limit_up@,
            config.limit_down@ == self.bandwidth_limit@ || config.limit_down@
                == self.bandwidth_limit_down@,
            self.bandwidth_limit@.below(self.bandwidth_limit_up@) ==> config.limit_up@
                == self.bandwidth_limit@,
            self.bandwidth_limit_up@.below(self.bandwidth_limit@) ==> config.limit_up@
                == self.bandwidth_limit_up@,
            self.bandwidth_limit@.below(self.bandwidth_limit_down@) ==> config.limit_down@
                == self.bandwidth_limit@,
            self.bandwidth_limit_down@.below(self.bandwidth_limit@) ==> config.limit_down@
                == self.bandwidth_limit_down@,
            self.bandwidth_limit@ is Nan ==> config.limit_up@ == self.bandwidth_limit_up@
                && config.limit_down@ == self.bandwidth_limit_down@,
            self.bandwidth_limit_up@ is Nan ==> config.limit_up@ == self.bandwidth_limit@,
            self.bandwidth_limit_down@ is Nan ==> config.limit_down@ == self.bandwidth_limit@,
    {
    }

    /// A setting acts only where it belongs: what one setting makes of a configuration
    /// depends on no other setting.
    pub proof fn law_settings_act_where_they_belong(
        self,
        other: ProxyApp<H>,
        config: LiveConfig,
        changed: LiveConfig,
    )
        requires
            self.makes(config),
            other.makes(changed),
        ensures
            self.delay_ms == other.delay_ms && self.delay_up_ms == other.delay_up_ms
                ==> config.delay_up == changed.delay_up,
            self.delay_ms == other.delay_ms && self.delay_down_ms == other.delay_down_ms
                ==> config.delay_down == changed.delay_down,
            self.jitter_ms == other.jitter_ms ==> config.max_jitter == changed.max_jitter,
            self.loss == other.loss ==> config.drop_probability == changed.drop_probability,
            self.bandwidth_limit == other.bandwidth_limit && self.bandwidth_limit_up
                == other.bandwidth_limit_up ==> config.limit_up@ == changed.limit_up@,
            self.bandwidth_limit == other.bandwidth_limit && self.bandwidth_limit_down
                == other.bandwidth_limit_down ==> config.limit_down@ == changed.limit_down@,
    {
    }

    /// A configuration is in force when it equals the one that the settings make.
    pub proof fn law_in_force_is_equality(self, made: LiveConfig, current: LiveConfig)
        requires
            self.makes(made),
        ensures
            self.in_force(current) <==> current.equals(made),
            self.in_force(current) <==> made.equals(current),
    {
    }

    /// Windows with the same settings show the same addresses and make the same
    /// configurations.
    pub proof fn law_same_settings_make_the_same(self, other: ProxyApp<H>, config: LiveConfig)
        requires
            self.same_settings(other),
        ensures
            self.from_str == other.from_str,
            self.to_str == other.to_str,
            self.makes(config) <==> other.makes(config),
            self.in_force(config) <==> other.in_force(config),
            (self.delay_ms, self.delay_up_ms, self.delay_down_ms, self.jitter_ms) == (
                other.delay_ms,
                other.delay_up_ms,
                other.delay_down_ms,
                other.jitter_ms,
            ),
            (
                self.loss,
                self.bandwidth_limit,
                self.bandwidth_limit_up,
                self.bandwidth_limit_down,
            ) == (
                other.loss,
                other.bandwidth_limit,
                other.bandwidth_limit_up,
                other.bandwidth_limit_down,
            ),
    {
    }

    /// Whether the settings are those that the arguments give.
    pub open spec fn shows(self, args: Cli) -> bool {
        &&& self.from_str == args.from
        &&& self.to_str == args.to
        &&& self.delay_ms == args.delay
        &&& self.delay_up_ms == args.delay_up
        &&& self.delay_down_ms == args.delay_down
        &&& self.jitter_ms == args.jitter
        &&& self.loss == args.loss
        &&& self.bandwidth_limit == args.bandwidth_limit
        &&& self.bandwidth_limit_up == args.bandwidth_limit_up
        &&& self.bandwidth_limit_down == args.bandwidth_limit_down
    }

    /// The arguments make the configuration to start with: delays of both kinds add up for
    /// their direction, jitter and loss are as given, and the limit of a direction is at most
    /// the two that are given for it and equal to one of them.
    pub proof fn law_arguments_make_the_configuration(self, args: Cli, config: LiveConfig)
        requires
            self.shows(args),
            self.makes(config),
        ensures
            self.from_str@ == args.from@,
            self.to_str@ == args.to@,
            config.delay_up.nanos == args.delay * 1_000_000 + args.delay_up * 1_000_000,
            config.delay_down.nanos == args.delay * 1_000_000 + args.delay_down * 1_000_000,
            config.max_jitter.nanos == args.jitter * 1_000_000,
            config.drop_probability.bits == args.loss.bits,
            config.limit_up@ == args.bandwidth_limit@ || config.limit_up@
                == args.bandwidth_limit_up@,
            config.limit_down@ == args.bandwidth_limit@ || config.limit_down@
                == args.bandwidth_limit_down@,
            args.bandwidth_limit@ !is Nan ==> config.limit_up@.at_most(args.bandwidth_limit@)
                && config.limit_down@.at_most(args.bandwidth_limit@),
            args.bandwidth_limit_up@ !is Nan ==> config.limit_up@.at_most(args.bandwidth_limit_up@),
            args.bandwidth_limit_down@ !is Nan ==> config.limit_down@.at_most(
                args.bandwidth_limit_down@,
            ),
    {
        self.law_limit_is_one_of_its_own(config);
        self.law_lower_limit_holds(config);
    }

    /// A message reads as it was written.
    pub proof fn law_text_is_the_message(message: Option<String>)
        ensures
            message is None <==> text(message) is None,
            message matches Some(s) ==> text(message) == Some(s@),
    {
    }

    /// A window with the settings that the arguments give, and no engine running.
    pub fn new(args: Cli) -> (r: ProxyApp<H>)
        ensures
            r.from_str == args.from,
            r.to_str == args.to,
            r.delay_ms == args.delay,
            r.delay_up_ms == args.delay_up,
            r.delay_down_ms == args.delay_down,
            r.jitter_ms == args.jitter,
            r.loss == args.loss,
            r.bandwidth_limit == args.bandwidth_limit,
            r.bandwidth_limit_up == args.bandwidth_limit_up,
            r.bandwidth_limit_down == args.bandwidth_limit_down,
            r.shows(args),
            r.engine is None,
            r.error is None,
            r.addr_parse_error is None,
    {
        ProxyApp {
            from_str: args.from,
            to_str: args.to,
            delay_ms: args.delay,
            delay_up_ms: args.delay_up,
            delay_down_ms: args.delay_down,
            jitter_ms: args.jitter,
            loss: args.loss,
            bandwidth_limit: args.bandwidth_limit,
            bandwidth_limit_up: args.bandwidth_limit_up,
            bandwidth_limit_down: args.bandwidth_limit_down,
            engine: None,
            error: None,
            addr_parse_error: None,
        }
    }

    /// The configuration that the settings make.
    pub fn build_live_config(&self) -> (r: LiveConfig)
        ensures
            self.makes(r),
    {
        LiveConfig {
            delay_up: Duration::from_millis(self.delay_ms).plus(
                Duration::from_millis(self.delay_up_ms),
            ),
            delay_down: Duration::from_millis(self.delay_ms).plus(
                Duration::from_millis(self.delay_down_ms),
            ),
            max_jitter: Duration::from_millis(self.jitter_ms),
            drop_probability: self.loss,
            limit_up: self.bandwidth_limit.lesser(self.bandwidth_limit_up),
            limit_down: self.bandwidth_limit.lesser(self.bandwidth_limit_down),
        }
    }

    /// How the window looks. It stays so until the frame is drawn, also where a button
    /// is pressed meanwhile.
    pub fn ui(&self) -> (r: Controls)
        ensures
            r.running <==> self.engine is Some,
            r.addresses_enabled <==> self.engine is None,
            r.toggle == if self.engine is Some {
                Toggle::Stop
            } else {
                Toggle::Start
            },
    {
        let running: bool = self.engine.is_some();
        Controls {
            addresses_enabled: !running,
            toggle: if running {
                Toggle::Stop
            } else {
                Toggle::Start
            },
            running,
        }
    }

    /// Prepares a start with the addresses as they were read, or with what is wrong with
    /// their text. Gives what to start the engine with, or nothing where an address is
    /// wrong; the bind address is looked at first.
    pub fn start_engine(
        &mut self,
        from: Result<SocketAddr, String>,
        to: Result<SocketAddr, String>,
    ) -> (r: Option<(EngineParams, LiveConfig)>)
        ensures
            final(self).same_settings(*old(self)),
            final(self).engine == old(self).engine,
            final(self).error is None,
            text(final(self).addr_parse_error) == match (from, to) {
                (Err(e), _) => Some("invalid bind address: "@ + e@),
                (Ok(_), Err(e)) => Some("invalid upstream address: "@ + e@),
                (Ok(_), Ok(_)) => None,
            },
            match (from, to) {
                (Ok(bind_addr), Ok(upstream)) => r matches Some((params, config))
                    && params.bind_addr == bind_addr && params.upstream == upstream
                    && old(self).makes(config),
                _ => r is None,
            },
    {
        self.error = None;
        let bind_addr: SocketAddr = match from {
            Ok(addr) => addr,
            Err(err) => {
                self.addr_parse_error = Some(message("invalid bind address: ", &err));
                return None;
            },
        };
        let upstream: SocketAddr = match to {
            Ok(addr) => addr,
            Err(err) => {
                self.addr_parse_error = Some(message("invalid upstream address: ", &err));
                return None;
            },
        };
        self.addr_parse_error = None;
        Some((EngineParams { bind_addr, upstream }, self.build_live_config()))
    }

    /// Takes note of how a start ended: with the handle of the engine, or with what went
    /// wrong.
    pub fn engine_started(&mut self, outcome: Result<H, String>)
        ensures
            final(self).same_settings(*old(self)),
            final(self).addr_parse_error == old(self).addr_parse_error,
            match outcome {
                Ok(handle) => final(self).engine == Some(handle) && final(self).error
                    == old(self).error,
                Err(e) => final(self).engine == old(self).engine && text(final(self).error)
                    == Some("failed to start: "@ + e@),
            },
    {
        match outcome {
            Ok(handle) => {
                self.engine = Some(handle);
            },
            Err(err) => {
                self.error = Some(message("failed to start: ", &err));
            },
        }
    }

    /// Takes the engine out of the window, if one is running, so that it can be stopped.
    pub fn stop_engine(&mut self) -> (r: Option<H>)
        ensures
            final(self).same_settings(*old(self)),
            final(self).error == old(self).error,
            final(self).addr_parse_error == old(self).addr_parse_error,
            final(self).engine is None,
            r == old(self).engine,
    {
        let mut engine: Option<H> = None;
        std::mem::swap(&mut self.engine, &mut engine);
        engine
    }

    /// The configuration to send to a running engine that has `current`: the one that
    /// the settings make, where that is a change.
    pub fn live_config_update(&self, current: &LiveConfig) -> (r: Option<LiveConfig>)
        ensures
            r is Some <==> self.engine is Some && !self.in_force(*current),
            r matches Some(config) ==> self.makes(config),
    {
        if self.engine.is_none() {
            return None;
        }
        let config: LiveConfig = self.build_live_config();
        if *current != config {
            Some(config)
        } else {
            None
        }
    }
}

} // verus!

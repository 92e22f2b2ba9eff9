//! The senders: each takes packets from its queue, holds each back until its time has
//! come, and sends it.
use vstd::prelude::*;

use crate::addr::SocketAddr;
use crate::config::LiveConfig;
use crate::packet::{DownstreamPacket, UpstreamPacket};
use crate::schedule::schedule;
use crate::time::Instant;

verus! {

/// What a sender waits for.
pub enum SenderPhase<P> {
    /// The next packet in the queue.
    Dequeuing,
    /// The time at which the packet leaves.
    Holding { packet: P },
    /// The outcome of sending.
    Sending,
}

/// What has happened.
pub enum SenderEvent<P> {
    /// The queue is empty and no one can add to it any more.
    Closed,
    /// A packet was taken from the queue, and these were the settings at that time.
    Dequeued { packet: P, config: LiveConfig },
    /// The time has come.
    Woken,
    /// The packet was sent, or could not be sent.
    Sent { ok: bool },
}

/// What is to be done.
pub enum SenderAction<P> {
    /// Wait for a packet in the queue.
    Dequeue,
    /// Wait until this moment.
    SleepUntil { until: Instant },
    /// Send the packet.
    Send { packet: P, target: SocketAddr },
    /// Stop.
    Finish,
}

impl<P> SenderPhase<P> {
    /// Whether this is what the sender waits for.
    pub open spec fn expects(self, event: SenderEvent<P>) -> bool {
        match event {
            SenderEvent::Closed => self is Dequeuing,
            SenderEvent::Dequeued { .. } => self is Dequeuing,
            SenderEvent::Woken => self is Holding,
            SenderEvent::Sent { .. } => self is Sending,
        }
    }

    /// What the sender waits for after an event.
    pub open spec fn next(self, event: SenderEvent<P>) -> SenderPhase<P> {
        match event {
            SenderEvent::Closed => SenderPhase::Dequeuing,
            SenderEvent::Dequeued { packet, .. } => SenderPhase::Holding { packet },
            SenderEvent::Woken => SenderPhase::Sending,
            SenderEvent::Sent { .. } => SenderPhase::Dequeuing,
        }
    }
}

impl<P> SenderPhase<P> {
    /// What the sender waits for after a run of events.
    pub open spec fn after(self, events: Seq<SenderEvent<P>>) -> SenderPhase<P>
        decreases events.len(),
    {
        if events.len() == 0 {
            self
        } else {
            self.next(events[0]).after(events.drop_first())
        }
    }

    /// The packet that is being held back, if there is one.
    pub open spec fn held(self) -> Seq<P> {
        match self {
            SenderPhase::Holding { packet } => seq![packet],
            _ => Seq::empty(),
        }
    }
}

impl<P> SenderEvent<P> {
    /// The packets that are taken from the queue in a run of events.
    pub open spec fn taken(events: Seq<SenderEvent<P>>) -> Seq<P>
        decreases events.len(),
    {
        if events.len() == 0 {
            Seq::empty()
        } else {
            let rest = SenderEvent::taken(events.drop_first());
            match events[0] {
                SenderEvent::Dequeued { packet, .. } => seq![packet] + rest,
                _ => rest,
            }
        }
    }
}

impl<P> SenderAction<P> {
    /// The packets that are sent in a run of actions.
    pub open spec fn sent(actions: Seq<SenderAction<P>>) -> Seq<P>
        decreases actions.len(),
    {
        if actions.len() == 0 {
            Seq::empty()
        } else {
            let rest = SenderAction::sent(actions.drop_first());
            match actions[0] {
                SenderAction::Send { packet, .. } => seq![packet] + rest,
                _ => rest,
            }
        }
    }
}

/// The sender to clients.
pub struct DownstreamSender {
    pub phase: SenderPhase<DownstreamPacket>,
}

impl DownstreamSender {
    /// Whether something can be done after an event: a packet has to leave within the
    /// time that can be counted.
    pub open spec fn expects(self, event: SenderEvent<DownstreamPacket>) -> bool {
        &&& self.phase.expects(event)
        &&& event matches SenderEvent::Dequeued { packet, config } ==> packet.recv_time@
            + config.delay_down@ + config.max_jitter@ <= u128::MAX
    }

    /// Whether this is a right thing to do after an event. The moment until which a
    /// packet is held is left to chance, within the jitter.
    pub open spec fn allows(
        self,
        event: SenderEvent<DownstreamPacket>,
        action: SenderAction<DownstreamPacket>,
    ) -> bool {
        match event {
            SenderEvent::Closed => action is Finish,
            SenderEvent::Dequeued { packet, config } => action matches SenderAction::SleepUntil {
                until,
            } && crate::schedule::may_leave(
                until@,
                packet.recv_time@,
                config.delay_down@,
                config.max_jitter@,
            ),
            SenderEvent::Woken => self.phase matches SenderPhase::Holding { packet } && action == (
            SenderAction::Send { packet, target: packet.target }),
            SenderEvent::Sent { ok } => if ok {
                action is Dequeue
            } else {
                action is Finish
            },
        }
    }

    /// A sender that waits for the first packet.
    pub fn new() -> (r: DownstreamSender)
        ensures
            r.phase is Dequeuing,
    {
        DownstreamSender { phase: SenderPhase::Dequeuing }
    }

    /// Takes note of an event and says what to do next.
    pub fn step(&mut self, event: SenderEvent<DownstreamPacket>) -> (r: SenderAction<
        DownstreamPacket,
    >)
        requires
            old(self).expects(event),
        ensures
            final(self).phase == old(self).phase.next(event),
            old(self).allows(event, r),
    {
        let mut phase: SenderPhase<DownstreamPacket> = SenderPhase::Dequeuing;
        std::mem::swap(&mut self.phase, &mut phase);
        match event {
            SenderEvent::Closed => SenderAction::Finish,
            SenderEvent::Dequeued { packet, config } => {
                let until: Instant = schedule(
                    packet.recv_time,
                    config.delay_down,
                    config.max_jitter,
                );
                self.phase = SenderPhase::Holding { packet };
                SenderAction::SleepUntil { until }
            },
            SenderEvent::Woken => {
                self.phase = SenderPhase::Sending;
                match phase {
                    SenderPhase::Holding { packet } => {
                        let target: SocketAddr = packet.target;
                        SenderAction::Send { packet, target }
                    },
                    _ => SenderAction::Finish,
                }
            },
            SenderEvent::Sent { ok } => {
                if ok {
                    SenderAction::Dequeue
                } else {
                    SenderAction::Finish
                }
            },
        }
    }
}

impl DownstreamSender {
    /// What is sent after a packet was taken from the queue is that packet, to its
    /// client.
    pub proof fn law_sends_what_it_took(
        self,
        packet: DownstreamPacket,
        config: LiveConfig,
        holding: DownstreamSender,
        action: SenderAction<DownstreamPacket>,
    )
        requires
            self.expects(SenderEvent::Dequeued { packet, config }),
            holding.phase == self.phase.next(SenderEvent::Dequeued { packet, config }),
            holding.allows(SenderEvent::Woken, action),
        ensures
            action == (SenderAction::Send { packet, target: packet.target }),
    {
    }

    /// A packet that is taken from the queue is held back by the delay of its direction and
    /// at most the jitter, in whole microseconds; without jitter it leaves at one moment only.
    pub proof fn law_packets_are_held_back(
        self,
        packet: DownstreamPacket,
        config: LiveConfig,
        action: SenderAction<DownstreamPacket>,
    )
        requires
            self.allows(SenderEvent::Dequeued { packet, config }, action),
        ensures
            action matches SenderAction::SleepUntil { until } && ({
                let earliest = packet.recv_time.nanos + config.delay_down.nanos;
                &&& earliest <= until.nanos <= earliest + config.max_jitter.nanos
                &&& (until.nanos - earliest) % 1_000 == 0
                &&& config.max_jitter.nanos < 1_000 ==> until.nanos == earliest
                &&& until.nanos == earliest || until.nanos + 1_000 <= earliest
                    + config.max_jitter.nanos
            }),
    {
        if let SenderAction::SleepUntil { until } = action {
            let earliest = packet.recv_time@ + config.delay_down@;
            crate::schedule::law_departures_are_bounded(
                until@,
                packet.recv_time@,
                config.delay_down@,
                config.max_jitter@,
            );
            let jitter = (until@ - earliest) as nat;
            crate::schedule::law_departure_is_delay_and_jitter(
                jitter,
                packet.recv_time@,
                config.delay_down@,
                config.max_jitter@,
            );
            crate::schedule::law_only_whole_microseconds_are_drawn(jitter, config.max_jitter@);
        }
    }

    /// Any jitter below the maximum may be drawn for a packet, to the microsecond.
    pub proof fn law_any_jitter_may_be_drawn(
        self,
        packet: DownstreamPacket,
        config: LiveConfig,
        until: Instant,
        micros: nat,
    )
        requires
            until.nanos == packet.recv_time.nanos + config.delay_down.nanos + micros * 1_000,
            micros == 0 || (micros + 1) * 1_000 <= config.max_jitter.nanos,
            config.max_jitter.nanos < 0x1_0000_0000_0000_0000 * 1_000,
        ensures
            self.allows(
                SenderEvent::Dequeued { packet, config },
                SenderAction::SleepUntil { until },
            ),
    {
        crate::schedule::law_every_microsecond_may_be_drawn(micros, config.max_jitter@);
        crate::schedule::law_departure_is_delay_and_jitter(
            micros * 1_000,
            packet.recv_time@,
            config.delay_down@,
            config.max_jitter@,
        );
    }

    /// A packet that was held back is sent and nothing else is done. After that comes the
    /// next one, or the end where it could not be sent or the queue is closed.
    pub proof fn law_acts_in_turn(self, action: SenderAction<DownstreamPacket>)
        ensures
            self.phase matches SenderPhase::Holding { packet } ==> (self.allows(
                SenderEvent::Woken,
                action,
            ) <==> action == (SenderAction::Send { packet, target: packet.target })),
            self.allows(SenderEvent::Sent { ok: true }, action) <==> action is Dequeue,
            self.allows(SenderEvent::Sent { ok: false }, action) <==> action is Finish,
            self.allows(SenderEvent::Closed, action) <==> action is Finish,
    {
    }

    /// A sender takes any packet that leaves within the time that can be counted, or the end
    /// of the queue, then waits for the time to come, then for the outcome.
    pub proof fn law_waits_in_turn(self, event: SenderEvent<DownstreamPacket>)
        ensures
            self.expects(event) <==> match self.phase {
                SenderPhase::Dequeuing => match event {
                    SenderEvent::Dequeued { packet, config } => packet.recv_time.nanos
                        + config.delay_down.nanos + config.max_jitter.nanos <= u128::MAX,
                    other => other is Closed,
                },
                SenderPhase::Holding { .. } => event is Woken,
                SenderPhase::Sending => event is Sent,
            },
            self.phase.next(SenderEvent::Woken) is Sending,
            self.phase.next(SenderEvent::Sent { ok: true }) is Dequeuing,
            event matches SenderEvent::Dequeued { packet, .. } ==> self.phase.next(event) == (
            SenderPhase::Holding { packet }),
    {
    }

    /// Whether these may be the actions of the sender in a run of events, each of which is
    /// what it then waits for.
    pub open spec fn runs(
        self,
        events: Seq<SenderEvent<DownstreamPacket>>,
        actions: Seq<SenderAction<DownstreamPacket>>,
    ) -> bool
        decreases events.len(),
    {
        &&& events.len() == actions.len()
        &&& events.len() > 0 ==> {
            &&& self.expects(events[0])
            &&& self.allows(events[0], actions[0])
            &&& (DownstreamSender { phase: self.phase.next(events[0]) }).runs(
                events.drop_first(),
                actions.drop_first(),
            )
        }
    }

    /// What is sent in a run of events is what was taken from the queue: each packet once,
    /// in the order of the queue and to its client, but for one that is still held.
    pub proof fn law_sends_in_order(
        self,
        events: Seq<SenderEvent<DownstreamPacket>>,
        actions: Seq<SenderAction<DownstreamPacket>>,
    )
        requires
            self.runs(events, actions),
        ensures
            SenderAction::sent(actions) + self.phase.after(events).held() == self.phase.held()
                + SenderEvent::taken(events),
            forall|i: int|
                0 <= i < actions.len() ==> (#[trigger] actions[i] matches SenderAction::Send {
                    packet,
                    target,
                } ==> target == packet.target),
        decreases events.len(),
    {
        if events.len() > 0 {
            let next = DownstreamSender { phase: self.phase.next(events[0]) };
            let rest = actions.drop_first();
            next.law_sends_in_order(events.drop_first(), rest);
            assert forall|i: int| 0 <= i < actions.len() implies (
            #[trigger] actions[i] matches SenderAction::Send { packet, target } ==> target
                == packet.target) by {
                if i > 0 {
                    assert(actions[i] == rest[i - 1]);
                }
            }
            let later = SenderAction::sent(rest) + next.phase.after(events.drop_first()).held();
            assert(SenderAction::sent(actions) + self.phase.after(events).held()
                =~= match actions[0] {
                SenderAction::Send { packet, .. } => seq![packet] + later,
                _ => later,
            });
        }
        assert(SenderAction::sent(actions) + self.phase.after(events).held() =~= self.phase.held()
            + SenderEvent::taken(events));
    }
}

/// The sender of one client's packets to the upstream server.
pub struct UpstreamSender {
    pub upstream: SocketAddr,
    pub phase: SenderPhase<UpstreamPacket>,
}

impl UpstreamSender {
    /// Whether something can be done after an event: a packet has to leave within the
    /// time that can be counted.
    pub open spec fn expects(self, event: SenderEvent<UpstreamPacket>) -> bool {
        &&& self.phase.expects(event)
        &&& event matches SenderEvent::Dequeued { packet, config } ==> packet.recv_time@
            + config.delay_up@ + config.max_jitter@ <= u128::MAX
    }

    /// Whether this is a right thing to do after an event. The moment until which a
    /// packet is held is left to chance, within the jitter.
    pub open spec fn allows(
        self,
        event: SenderEvent<UpstreamPacket>,
        action: SenderAction<UpstreamPacket>,
    ) -> bool {
        match event {
            SenderEvent::Closed => action is Finish,
            SenderEvent::Dequeued { packet, config } => action matches SenderAction::SleepUntil {
                until,
            } && crate::schedule::may_leave(
                until@,
                packet.recv_time@,
                config.delay_up@,
                config.max_jitter@,
            ),
            SenderEvent::Woken => self.phase matches SenderPhase::Holding { packet } && action == (
            SenderAction::Send { packet, target: self.upstream }),
            SenderEvent::Sent { ok } => if ok {
                action is Dequeue
            } else {
                action is Finish
            },
        }
    }

    /// A sender that waits for the first packet.
    pub fn new(upstream: SocketAddr) -> (r: UpstreamSender)
        ensures
            r.upstream == upstream,
            r.phase is Dequeuing,
    {
        UpstreamSender { upstream, phase: SenderPhase::Dequeuing }
    }

    /// Takes note of an event and says what to do next.
    pub fn step(&mut self, event: SenderEvent<UpstreamPacket>) -> (r: SenderAction<UpstreamPacket>)
        requires
            old(self).expects(event),
        ensures
            final(self).upstream == old(self).upstream,
            final(self).phase == old(self).phase.next(event),
            old(self).allows(event, r),
    {
        let mut phase: SenderPhase<UpstreamPacket> = SenderPhase::Dequeuing;
        std::mem::swap(&mut self.phase, &mut phase);
        match event {
            SenderEvent::Closed => SenderAction::Finish,
            SenderEvent::Dequeued { packet, config } => {
                let until: Instant = schedule(packet.recv_time, config.delay_up, config.max_jitter);
                self.phase = SenderPhase::Holding { packet };
                SenderAction::SleepUntil { until }
            },
            SenderEvent::Woken => {
                self.phase = SenderPhase::Sending;
                match phase {
                    SenderPhase::Holding { packet } => SenderAction::Send {
                        packet,
                        target: self.upstream,
                    },
                    _ => SenderAction::Finish,
                }
            },
            SenderEvent::Sent { ok } => {
                if ok {
                    SenderAction::Dequeue
                } else {
                    SenderAction::Finish
                }
            },
        }
    }
}

impl UpstreamSender {
    /// What is sent after a packet was taken from the queue is that packet, to the
    /// upstream server.
    pub proof fn law_sends_what_it_took(
        self,
        packet: UpstreamPacket,
        config: LiveConfig,
        holding: UpstreamSender,
        action: SenderAction<UpstreamPacket>,
    )
        requires
            self.expects(SenderEvent::Dequeued { packet, config }),
            holding.upstream == self.upstream,
            holding.phase == self.phase.next(SenderEvent::Dequeued { packet, config }),
            holding.allows(SenderEvent::Woken, action),
        ensures
            action == (SenderAction::Send { packet, target: self.upstream }),
    {
    }

    /// A packet that is taken from the queue is held back by the delay of its direction and
    /// at most the jitter, in whole microseconds; without jitter it leaves at one moment only.
    pub proof fn law_packets_are_held_back(
        self,
        packet: UpstreamPacket,
        config: LiveConfig,
        action: SenderAction<UpstreamPacket>,
    )
        requires
            self.allows(SenderEvent::Dequeued { packet, config }, action),
        ensures
            action matches SenderAction::SleepUntil { until } && ({
                let earliest = packet.recv_time.nanos + config.delay_up.nanos;
                &&& earliest <= until.nanos <= earliest + config.max_jitter.nanos
                &&& (until.nanos - earliest) % 1_000 == 0
                &&& config.max_jitter.nanos < 1_000 ==> until.nanos == earliest
                &&& until.nanos == earliest || until.nanos + 1_000 <= earliest
                    + config.max_jitter.nanos
            }),
    {
        if let SenderAction::SleepUntil { until } = action {
            let earliest = packet.recv_time@ + config.delay_up@;
            crate::schedule::law_departures_are_bounded(
                until@,
                packet.recv_time@,
                config.delay_up@,
                config.max_jitter@,
            );
            let jitter = (until@ - earliest) as nat;
            crate::schedule::law_departure_is_delay_and_jitter(
                jitter,
                packet.recv_time@,
                config.delay_up@,
                config.max_jitter@,
            );
            crate::schedule::law_only_whole_microseconds_are_drawn(jitter, config.max_jitter@);
        }
    }

    /// Any jitter below the maximum may be drawn for a packet, to the microsecond.
    pub proof fn law_any_jitter_may_be_drawn(
        self,
        packet: UpstreamPacket,
        config: LiveConfig,
        until: Instant,
        micros: nat,
    )
        requires
            until.nanos == packet.recv_time.nanos + config.delay_up.nanos + micros * 1_000,
            micros == 0 || (micros + 1) * 1_000 <= config.max_jitter.nanos,
            config.max_jitter.nanos < 0x1_0000_0000_0000_0000 * 1_000,
        ensures
            self.allows(
                SenderEvent::Dequeued { packet, config },
                SenderAction::SleepUntil { until },
            ),
    {
        crate::schedule::law_every_microsecond_may_be_drawn(micros, config.max_jitter@);
        crate::schedule::law_departure_is_delay_and_jitter(
            micros * 1_000,
            packet.recv_time@,
            config.delay_up@,
            config.max_jitter@,
        );
    }

    /// A packet that was held back is sent and nothing else is done. After that comes the
    /// next one, or the end where it could not be sent or the queue is closed.
    pub proof fn law_acts_in_turn(self, action: SenderAction<UpstreamPacket>)
        ensures
            self.phase matches SenderPhase::Holding { packet } ==> (self.allows(
                SenderEvent::Woken,
                action,
            ) <==> action == (SenderAction::Send { packet, target: self.upstream })),
            self.allows(SenderEvent::Sent { ok: true }, action) <==> action is Dequeue,
            self.allows(SenderEvent::Sent { ok: false }, action) <==> action is Finish,
            self.allows(SenderEvent::Closed, action) <==> action is Finish,
    {
    }

    /// A sender takes any packet that leaves within the time that can be counted, or the end
    /// of the queue, then waits for the time to come, then for the outcome.
    pub proof fn law_waits_in_turn(self, event: SenderEvent<UpstreamPacket>)
        ensures
            self.expects(event) <==> match self.phase {
                SenderPhase::Dequeuing => match event {
                    SenderEvent::Dequeued { packet, config } => packet.recv_time.nanos
                        + config.delay_up.nanos + config.max_jitter.nanos <= u128::MAX,
                    other => other is Closed,
                },
                SenderPhase::Holding { .. } => event is Woken,
                SenderPhase::Sending => event is Sent,
            },
            self.phase.next(SenderEvent::Woken) is Sending,
            self.phase.next(SenderEvent::Sent { ok: true }) is Dequeuing,
            event matches SenderEvent::Dequeued { packet, .. } ==> self.phase.next(event) == (
            SenderPhase::Holding { packet }),
    {
    }

    /// Whether these may be the actions of the sender in a run of events, each of which is
    /// what it then waits for.
    pub open spec fn runs(
        self,
        events: Seq<SenderEvent<UpstreamPacket>>,
        actions: Seq<SenderAction<UpstreamPacket>>,
    ) -> bool
        decreases events.len(),
    {
        &&& events.len() == actions.len()
        &&& events.len() > 0 ==> {
            &&& self.expects(events[0])
            &&& self.allows(events[0], actions[0])
            &&& (UpstreamSender { phase: self.phase.next(events[0]), ..self }).runs(
                events.drop_first(),
                actions.drop_first(),
            )
        }
    }

    /// What is sent in a run of events is what was taken from the queue: each packet once,
    /// in the order of the queue and to the upstream server, but for one that is still held.
    pub proof fn law_sends_in_order(
        self,
        events: Seq<SenderEvent<UpstreamPacket>>,
        actions: Seq<SenderAction<UpstreamPacket>>,
    )
        requires
            self.runs(events, actions),
        ensures
            SenderAction::sent(actions) + self.phase.after(events).held() == self.phase.held()
                + SenderEvent::taken(events),
            forall|i: int|
                0 <= i < actions.len() ==> (#[trigger] actions[i] matches SenderAction::Send {
                    packet,
                    target,
                } ==> target == self.upstream),
        decreases events.len(),
    {
        if events.len() > 0 {
            let next = UpstreamSender { phase: self.phase.next(events[0]), ..self };
            let rest = actions.drop_first();
            next.law_sends_in_order(events.drop_first(), rest);
            assert forall|i: int| 0 <= i < actions.len() implies (
            #[trigger] actions[i] matches SenderAction::Send { packet, target } ==> target
                == self.upstream) by {
                if i > 0 {
                    assert(actions[i] == rest[i - 1]);
                }
            }
            let later = SenderAction::sent(rest) + next.phase.after(events.drop_first()).held();
            assert(SenderAction::sent(actions) + self.phase.after(events).held()
                =~= match actions[0] {
                SenderAction::Send { packet, .. } => seq![packet] + later,
                _ => later,
            });
        }
        assert(SenderAction::sent(actions) + self.phase.after(events).held() =~= self.phase.held()
            + SenderEvent::taken(events));
    }
}

} // verus!

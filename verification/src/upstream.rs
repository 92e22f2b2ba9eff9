//! The receiver of one client's socket towards the upstream server: what becomes of
//! the server's replies.
use vstd::prelude::*;

use crate::addr::SocketAddr;
use crate::bucket::{Bucket, BucketState, Request};
use crate::config::{Double, LiveConfig};
use crate::number::Number;
use crate::packet::{DownstreamPacket, BUFFER_SIZE};
use crate::single::Single;
use crate::time::Instant;

verus! {

/// What the receiver waits for.
pub enum UpstreamPhase {
    /// The next packet.
    Receiving,
    /// Whether the packet is lost.
    Rolling { packet: DownstreamPacket },
}

/// What has happened.
pub enum UpstreamEvent {
    /// The socket cannot receive any more.
    Failed,
    /// A packet has come in, and these were the settings at that time.
    Received {
        from: SocketAddr,
        data: [u8; BUFFER_SIZE],
        len: usize,
        recv_time: Instant,
        config: LiveConfig,
    },
    /// Chance has decided.
    Rolled { lost: bool },
}

/// What is to be done.
pub enum UpstreamAction {
    /// Wait for the next packet.
    Receive,
    /// Report that a packet came from someone else than `expected`, then wait for the
    /// next packet.
    Unexpected { from: SocketAddr, expected: SocketAddr },
    /// Let chance decide whether the packet is lost.
    Roll { drop_probability: Double },
    /// Queue the packet for its client, then wait for the next packet.
    Deliver { packet: DownstreamPacket },
    /// Stop.
    Finish,
}

/// What the receiver knows.
pub struct UpstreamState {
    pub upstream: SocketAddr,
    pub downstream: SocketAddr,
    pub bucket: BucketState,
    pub phase: UpstreamPhase,
}

impl UpstreamState {
    /// Whether this is what the receiver waits for.
    pub open spec fn expects(self, event: UpstreamEvent) -> bool {
        match event {
            UpstreamEvent::Failed => self.phase is Receiving,
            UpstreamEvent::Received { from, len, config, .. } => self.phase is Receiving && len
                <= BUFFER_SIZE && (from == self.upstream ==> BucketState::is_limit(
                config.limit_down@,
            )),
            UpstreamEvent::Rolled { .. } => self.phase is Rolling,
        }
    }

    /// What the receiver knows after an event.
    pub open spec fn next(self, event: UpstreamEvent) -> UpstreamState {
        match event {
            UpstreamEvent::Failed => self,
            UpstreamEvent::Received { from, data, len, recv_time, config } => if from
                != self.upstream {
                self
            } else {
                let bucket = self.bucket.limited(config.limit_down@);
                let tokens = Number::whole(len as nat);
                UpstreamState {
                    bucket: bucket.reserved(tokens, recv_time@),
                    phase: if bucket.affords(tokens, recv_time@) {
                        UpstreamPhase::Rolling {
                            packet: DownstreamPacket {
                                data,
                                len,
                                target: self.downstream,
                                recv_time,
                            },
                        }
                    } else {
                        UpstreamPhase::Receiving
                    },
                    ..self
                }
            },
            UpstreamEvent::Rolled { .. } => UpstreamState {
                phase: UpstreamPhase::Receiving,
                ..self
            },
        }
    }

    /// What is to be done after an event.
    pub open spec fn action(self, event: UpstreamEvent) -> UpstreamAction {
        match event {
            UpstreamEvent::Failed => UpstreamAction::Finish,
            UpstreamEvent::Received { from, len, recv_time, config, .. } => if from
                != self.upstream {
                UpstreamAction::Unexpected { from, expected: self.upstream }
            } else if self.bucket.limited(config.limit_down@).affords(
                Number::whole(len as nat),
                recv_time@,
            ) {
                UpstreamAction::Roll { drop_probability: config.drop_probability }
            } else {
                UpstreamAction::Receive
            },
            UpstreamEvent::Rolled { lost } => match self.phase {
                UpstreamPhase::Rolling { packet } if !lost => UpstreamAction::Deliver { packet },
                _ => UpstreamAction::Receive,
            },
        }
    }
}

/// The receiver of one client's socket towards the upstream server.
pub struct UpstreamReceiver {
    pub upstream: SocketAddr,
    pub downstream: SocketAddr,
    pub bucket: Bucket,
    pub phase: UpstreamPhase,
}

impl View for UpstreamReceiver {
    type V = UpstreamState;

    open spec fn view(&self) -> UpstreamState {
        UpstreamState {
            upstream: self.upstream,
            downstream: self.downstream,
            bucket: self.bucket@,
            phase: self.phase,
        }
    }
}

impl UpstreamReceiver {
    /// A receiver with a bucket that is full now.
    pub fn new(
        upstream: SocketAddr,
        downstream: SocketAddr,
        initial_limit_down: Single,
        now: Instant,
    ) -> (r: UpstreamReceiver)
        ensures
            r@ == (UpstreamState {
                upstream,
                downstream,
                bucket: BucketState::full(initial_limit_down@, initial_limit_down@, now@),
                phase: UpstreamPhase::Receiving,
            }),
    {
        UpstreamReceiver {
            upstream,
            downstream,
            bucket: Bucket::new_full(initial_limit_down, initial_limit_down, now),
            phase: UpstreamPhase::Receiving,
        }
    }

    /// Takes note of an event and says what to do next.
    pub fn step(&mut self, event: UpstreamEvent) -> (r: UpstreamAction)
        requires
            old(self)@.expects(event),
        ensures
            final(self)@ == old(self)@.next(event),
            r == old(self)@.action(event),
    {
        let mut phase: UpstreamPhase = UpstreamPhase::Receiving;
        std::mem::swap(&mut self.phase, &mut phase);
        match event {
            UpstreamEvent::Failed => UpstreamAction::Finish,
            UpstreamEvent::Received { from, data, len, recv_time, config } => {
                if from != self.upstream {
                    return UpstreamAction::Unexpected { from, expected: self.upstream };
                }
                self.bucket.set_limit(config.limit_down);
                if !self.bucket.try_reserve_at(Single::from_whole(len as u128), recv_time) {
                    return UpstreamAction::Receive;
                }
                self.phase =
                UpstreamPhase::Rolling {
                    packet: DownstreamPacket { data, len, target: self.downstream, recv_time },
                };
                UpstreamAction::Roll { drop_probability: config.drop_probability }
            },
            UpstreamEvent::Rolled { lost } => match phase {
                UpstreamPhase::Rolling { packet } => {
                    if lost {
                        UpstreamAction::Receive
                    } else {
                        UpstreamAction::Deliver { packet }
                    }
                },
                _ => UpstreamAction::Receive,
            },
        }
    }
}

impl UpstreamState {
    /// A packet from anyone but the upstream server is not delivered and costs nothing.
    pub proof fn law_strangers_are_ignored(self, event: UpstreamEvent)
        requires
            self.expects(event),
            event matches UpstreamEvent::Received { from, .. } && from != self.upstream,
        ensures
            self.next(event) == self,
            self.action(event) is Unexpected,
    {
    }

    /// A packet that is lost has used up its tokens just as one that gets through.
    pub proof fn law_lost_packets_count(self)
        requires
            self.phase is Rolling,
        ensures
            self.next(UpstreamEvent::Rolled { lost: true }).bucket == self.bucket,
            self.next(UpstreamEvent::Rolled { lost: false }).bucket == self.bucket,
    {
    }

    /// What is delivered is what came in: the same bytes, with the time at which they
    /// came, and for the client of this connection.
    pub proof fn law_packets_go_through_unchanged(
        self,
        from: SocketAddr,
        packet: DownstreamPacket,
        config: LiveConfig,
    )
        requires
            packet.target == self.downstream,
        ensures
            ({
                let event = UpstreamEvent::Received {
                    from,
                    data: packet.data,
                    len: packet.len,
                    recv_time: packet.recv_time,
                    config,
                };
                let kept = UpstreamEvent::Rolled { lost: false };
                self.expects(event) && self.action(event) is Roll ==> {
                    &&& from == self.upstream
                    &&& self.next(event).expects(kept)
                    &&& self.next(event).action(kept) == (UpstreamAction::Deliver { packet })
                }
            }),
    {
    }

    /// Whether the packet that is being worked on fits the buffer.
    pub open spec fn fits(self) -> bool {
        self.phase matches UpstreamPhase::Rolling { packet } ==> packet.len <= BUFFER_SIZE
    }

    /// No packet is longer than the buffer that holds it.
    pub proof fn law_packets_fit(self, event: UpstreamEvent)
        requires
            self.expects(event),
            self.fits(),
        ensures
            self.next(event).fits(),
            self.action(event) matches UpstreamAction::Deliver { packet } ==> packet.len
                <= BUFFER_SIZE,
    {
    }

    /// A packet that is longer than the limit in force never gets through.
    pub proof fn law_no_packet_above_limit(self, event: UpstreamEvent)
        requires
            self.expects(event),
            event matches UpstreamEvent::Received { len, config, .. } && config.limit_down@.below(
                Number::whole(len as nat),
            ),
        ensures
            self.action(event) is Receive || self.action(event) is Unexpected,
            self.next(event).phase is Receiving,
    {
    }

    /// The two ends of the connection stay the same.
    pub proof fn law_ends_are_fixed(self, event: UpstreamEvent)
        ensures
            self.next(event).upstream == self.upstream,
            self.next(event).downstream == self.downstream,
    {
    }

    /// While limits are finite, the bucket stays sound and goes on earning its limit in a
    /// second.
    pub proof fn law_bucket_stays_sound(self, event: UpstreamEvent)
        requires
            self.expects(event),
            self.bucket.sound(),
            event matches UpstreamEvent::Received { config, .. } ==> config.limit_down@ is Finite,
        ensures
            self.next(event).bucket.sound(),
            self.bucket.paced() ==> self.next(event).bucket.paced(),
    {
        if let UpstreamEvent::Received { from, len, recv_time, config, .. } = event {
            if from == self.upstream {
                let limit = config.limit_down@;
                Number::lemma_bits_held(config.limit_down.bits);
                Number::lemma_whole_finite(len as nat);
                self.bucket.law_limited_stays_sound(limit);
                self.bucket.limited(limit).law_reserved_stays_sound(
                    Number::whole(len as nat),
                    recv_time@,
                );
            }
        }
    }

    /// Whether each event of a run is what the receiver then waits for.
    pub open spec fn expects_all(self, events: Seq<UpstreamEvent>) -> bool
        decreases events.len(),
    {
        events.len() > 0 ==> self.expects(events[0]) && self.next(events[0]).expects_all(
            events.drop_first(),
        )
    }

    /// The packets of the upstream server in a run of events, as requests for tokens.
    pub open spec fn requests_of(events: Seq<UpstreamEvent>, upstream: SocketAddr) -> Seq<Request>
        decreases events.len(),
    {
        if events.len() == 0 {
            Seq::empty()
        } else {
            let rest = UpstreamState::requests_of(events.drop_first(), upstream);
            match events[0] {
                UpstreamEvent::Received { from, len, recv_time, .. } if from == upstream => seq![
                    Request { len: len as nat, time: recv_time@ },
                ] + rest,
                _ => rest,
            }
        }
    }

    /// The bytes of the packets for which there are tokens in a run of events.
    pub open spec fn admitted(self, events: Seq<UpstreamEvent>) -> nat
        decreases events.len(),
    {
        if events.len() == 0 {
            0
        } else {
            let rest = self.next(events[0]).admitted(events.drop_first());
            match events[0] {
                UpstreamEvent::Received { len, .. } if self.action(events[0]) is Roll => len as nat
                    + rest,
                _ => rest,
            }
        }
    }

    /// The bytes that are queued for the client in a run of events.
    pub open spec fn delivered(self, events: Seq<UpstreamEvent>) -> nat
        decreases events.len(),
    {
        if events.len() == 0 {
            0
        } else {
            let rest = self.next(events[0]).delivered(events.drop_first());
            match self.action(events[0]) {
                UpstreamAction::Deliver { packet } => packet.len as nat + rest,
                _ => rest,
            }
        }
    }

    /// The bytes of the packet that is being worked on.
    pub open spec fn pending(self) -> nat {
        match self.phase {
            UpstreamPhase::Receiving => 0,
            UpstreamPhase::Rolling { packet } => packet.len as nat,
        }
    }

    /// Whether a limit is in force whenever a packet of the upstream server comes in.
    pub open spec fn limited_to(
        events: Seq<UpstreamEvent>,
        upstream: SocketAddr,
        limit: Number,
    ) -> bool {
        forall|i: int|
            0 <= i < events.len() ==> (#[trigger] events[i] matches UpstreamEvent::Received {
                from,
                config,
                ..
            } ==> (from == upstream ==> config.limit_down@ == limit))
    }

    /// Nothing is delivered that was not admitted before.
    pub proof fn law_delivered_was_admitted(self, events: Seq<UpstreamEvent>)
        requires
            self.expects_all(events),
        ensures
            self.delivered(events) <= self.pending() + self.admitted(events),
        decreases events.len(),
    {
        if events.len() > 0 {
            self.next(events[0]).law_delivered_was_admitted(events.drop_first());
        }
    }

    /// A packet of the server is counted against the bucket; nothing else changes it.
    proof fn lemma_bucket_follows(self, event: UpstreamEvent, limit: Number)
        requires
            self.expects(event),
            limit !is Nan,
            event matches UpstreamEvent::Received { from, config, .. } ==> (from == self.upstream
                ==> config.limit_down@ == limit),
        ensures
            self.next(event).upstream == self.upstream,
            self.next(event).bucket.limited(limit) == match event {
                UpstreamEvent::Received { from, len, recv_time, .. } if from == self.upstream =>
                    self.bucket.limited(limit).reserved(Number::whole(len as nat), recv_time@),
                _ => self.bucket.limited(limit),
            },
    {
        if let UpstreamEvent::Received { from, len, recv_time, .. } = event {
            if from == self.upstream {
                let bucket = self.bucket.limited(limit);
                assert(bucket.max_val.same(limit));
                assert(bucket.reserved(Number::whole(len as nat), recv_time@).max_val
                    == bucket.max_val);
            }
        }
    }

    /// The packets of the server are requests that can be counted.
    proof fn lemma_requests_countable(self, events: Seq<UpstreamEvent>)
        requires
            self.expects_all(events),
        ensures
            BucketState::countable(UpstreamState::requests_of(events, self.upstream)),
        decreases events.len(),
    {
        if events.len() > 0 {
            let requests = UpstreamState::requests_of(events, self.upstream);
            let later = UpstreamState::requests_of(events.drop_first(), self.upstream);
            assert(self.next(events[0]).upstream == self.upstream);
            self.next(events[0]).lemma_requests_countable(events.drop_first());
            assert forall|i: int| 0 <= i < requests.len() implies #[trigger] requests[i].len
                <= 0x100_0000 && requests[i].time <= u128::MAX by {
                if requests.len() > later.len() && i > 0 {
                    assert(requests[i] == later[i - 1]);
                }
            }
        }
    }

    /// What the packets of the server get is what the bucket grants to them as requests.
    proof fn lemma_admitted_is_spent(self, events: Seq<UpstreamEvent>, limit: Number)
        requires
            self.expects_all(events),
            limit !is Nan,
            UpstreamState::limited_to(events, self.upstream, limit),
        ensures
            self.admitted(events) == self.bucket.limited(limit).spent(
                UpstreamState::requests_of(events, self.upstream),
            ),
        decreases events.len(),
    {
        if events.len() > 0 {
            let event = events[0];
            let rest = events.drop_first();
            let requests = UpstreamState::requests_of(events, self.upstream);
            let later = UpstreamState::requests_of(rest, self.upstream);
            assert forall|i: int| 0 <= i < rest.len() implies (
            #[trigger] rest[i] matches UpstreamEvent::Received { from, config, .. } ==> (from
                == self.upstream ==> config.limit_down@ == limit)) by {
                assert(rest[i] == events[i + 1]);
            }
            self.lemma_bucket_follows(event, limit);
            self.next(event).lemma_admitted_is_spent(rest, limit);
            match event {
                UpstreamEvent::Received { from, len, recv_time, .. } if from == self.upstream => {
                    assert(requests.drop_first() =~= later);
                    assert(requests[0] == (Request { len: len as nat, time: recv_time@ }));
                },
                _ => {
                    assert(requests == later);
                },
            }
        }
    }

    /// The bandwidth limit of a connection: while a finite limit is in force and moments
    /// come in their order, the server's packets for which there are tokens keep to it. So
    /// does what is delivered of them, if no packet was being worked on before.
    pub proof fn law_connection_keeps_to_limit(self, events: Seq<UpstreamEvent>, limit: Number)
        requires
            self.expects_all(events),
            self.bucket.sound(),
            self.bucket.paced(),
            limit.is_amount(),
            UpstreamState::limited_to(events, self.upstream, limit),
            BucketState::in_order(UpstreamState::requests_of(events, self.upstream)),
        ensures
            BucketState::keeps_to(
                limit,
                self.admitted(events),
                UpstreamState::requests_of(events, self.upstream),
            ),
            self.pending() == 0 ==> BucketState::keeps_to(
                limit,
                self.delivered(events),
                UpstreamState::requests_of(events, self.upstream),
            ),
    {
        let requests = UpstreamState::requests_of(events, self.upstream);
        self.lemma_requests_countable(events);
        self.lemma_admitted_is_spent(events, limit);
        self.bucket.law_limited_stays_sound(limit);
        self.bucket.limited(limit).law_limit_is_kept(limit, requests);
        self.law_delivered_was_admitted(events);
        if self.pending() == 0 {
            BucketState::law_less_keeps_to_limit(
                limit,
                self.delivered(events),
                self.admitted(events),
                requests,
            );
        }
    }

    /// The packets that come in from the upstream server in a run of events, as packets for
    /// the client.
    pub open spec fn came_in(self, events: Seq<UpstreamEvent>) -> Seq<DownstreamPacket>
        decreases events.len(),
    {
        if events.len() == 0 {
            Seq::empty()
        } else {
            let rest = self.came_in(events.drop_first());
            match events[0] {
                UpstreamEvent::Received { from, data, len, recv_time, .. } if from
                    == self.upstream => seq![
                    DownstreamPacket { data, len, target: self.downstream, recv_time },
                ] + rest,
                _ => rest,
            }
        }
    }

    /// The packets that are queued for the client in a run of events.
    pub open spec fn handed_on(self, events: Seq<UpstreamEvent>) -> Seq<DownstreamPacket>
        decreases events.len(),
    {
        if events.len() == 0 {
            Seq::empty()
        } else {
            let rest = self.next(events[0]).handed_on(events.drop_first());
            match self.action(events[0]) {
                UpstreamAction::Deliver { packet } => seq![packet] + rest,
                _ => rest,
            }
        }
    }

    /// The packet that is being worked on, if there is one.
    pub open spec fn in_hand(self) -> Seq<DownstreamPacket> {
        match self.phase {
            UpstreamPhase::Receiving => Seq::empty(),
            UpstreamPhase::Rolling { packet } => seq![packet],
        }
    }

    /// What comes in depends on the two ends alone.
    proof fn lemma_came_in(self, other: UpstreamState, events: Seq<UpstreamEvent>)
        requires
            self.upstream == other.upstream,
            self.downstream == other.downstream,
        ensures
            self.came_in(events) == other.came_in(events),
        decreases events.len(),
    {
        if events.len() > 0 {
            self.lemma_came_in(other, events.drop_first());
        }
    }

    /// Packets keep their order: what is queued for the client in a run of events is some of
    /// what came in from the upstream server, in the same order and none of it twice.
    pub proof fn law_packets_keep_their_order(self, events: Seq<UpstreamEvent>)
        requires
            self.expects_all(events),
        ensures
            crate::selection::selected(
                self.handed_on(events),
                self.in_hand() + self.came_in(events),
            ),
        decreases events.len(),
    {
        let all = self.in_hand() + self.came_in(events);
        let picked = self.handed_on(events);
        if events.len() == 0 {
            crate::selection::lemma_nothing(all);
        } else {
            let next = self.next(events[0]);
            let rest = events.drop_first();
            let left = next.in_hand() + next.came_in(rest);
            let later = next.handed_on(rest);
            next.lemma_came_in(self, rest);
            next.law_packets_keep_their_order(rest);
            match self.action(events[0]) {
                UpstreamAction::Deliver { .. } => {
                    assert(picked.drop_first() =~= later);
                    assert(all.drop_first() =~= left);
                    crate::selection::lemma_taken(picked, all);
                },
                _ => {
                    assert(picked == later);
                    if all.len() == left.len() {
                        assert(all =~= left);
                    } else {
                        assert(all.drop_first() =~= left);
                        crate::selection::lemma_skipped(picked, all);
                    }
                },
            }
        }
    }
}

impl UpstreamState {
    /// While it waits for a packet the receiver takes any packet that fits the buffer, from
    /// the server under any limit that is not negative, or the end of the socket. After that
    /// it waits for chance.
    pub proof fn law_waits_in_turn(self, event: UpstreamEvent)
        ensures
            self.expects(event) <==> match self.phase {
                UpstreamPhase::Receiving => match event {
                    UpstreamEvent::Received { from, len, config, .. } => len <= 4096 && (from
                        == self.upstream ==> match config.limit_down@ {
                        Number::Nan => false,
                        Number::Infinite { neg } => !neg,
                        Number::Finite { .. } => config.limit_down@.value() >= 0,
                    }),
                    other => other is Failed,
                },
                UpstreamPhase::Rolling { .. } => event is Rolled,
            },
    {
    }

    /// A reply is counted against what the bucket holds under the limit in force: it gets a
    /// chance wherever there are as many tokens, which are then taken.
    pub proof fn law_replies_are_paid_for(
        self,
        data: [u8; BUFFER_SIZE],
        len: usize,
        recv_time: Instant,
        config: LiveConfig,
    )
        requires
            self.bucket.sound(),
            len <= BUFFER_SIZE,
            config.limit_down@ is Finite,
            config.limit_down@.value() >= 0,
        ensures
            ({
                let event = UpstreamEvent::Received {
                    from: self.upstream,
                    data,
                    len,
                    recv_time,
                    config,
                };
                let cost = len * Number::pow2(149);
                let filled = self.bucket.limited(config.limit_down@).refilled(
                    recv_time@,
                ).current_val;
                let bucket = self.next(event).bucket;
                &&& self.action(event) is Roll <==> cost <= filled.value()
                &&& self.action(event) is Receive <==> filled.value() < cost
                &&& bucket.current_time == recv_time.nanos
                &&& bucket.max_val.value() == config.limit_down@.value()
                &&& cost <= filled.value() ==> bucket.current_val.stands_for(
                    filled.value() - cost,
                    1,
                )
                &&& filled.value() < cost ==> bucket.current_val == filled
            }),
    {
        let limit = config.limit_down@;
        let bucket = self.bucket.limited(limit);
        let tokens = Number::whole(len as nat);
        Number::lemma_bits_held(config.limit_down.bits);
        Number::lemma_whole_finite(len as nat);
        Number::lemma_whole_exact(len as nat);
        self.bucket.law_limited_stays_sound(limit);
        self.bucket.law_limited_keeps_what_fits(limit);
        bucket.law_reservation_is_paid_for(tokens, recv_time@);
    }

    /// A connection starts with a full bucket: while the limit is the one that it started
    /// with, the first reply gets a chance wherever it is not longer than the limit.
    pub proof fn law_connection_starts_full(
        self,
        data: [u8; BUFFER_SIZE],
        len: usize,
        recv_time: Instant,
        config: LiveConfig,
        now: nat,
    )
        requires
            self.bucket == BucketState::full(config.limit_down@, config.limit_down@, now),
            len <= BUFFER_SIZE,
            config.limit_down@ is Finite,
            config.limit_down@.value() >= 0,
        ensures
            ({
                let event = UpstreamEvent::Received {
                    from: self.upstream,
                    data,
                    len,
                    recv_time,
                    config,
                };
                let cost = len * Number::pow2(149);
                &&& self.action(event) is Roll <==> cost <= config.limit_down@.value()
                &&& self.action(event) is Receive <==> config.limit_down@.value() < cost
            }),
    {
        let limit = config.limit_down@;
        Number::lemma_bits_held(config.limit_down.bits);
        Number::lemma_whole_finite(len as nat);
        Number::lemma_whole_exact(len as nat);
        BucketState::law_full_is_sound(limit, now);
        BucketState::law_full_bucket_holds_its_limit(
            limit,
            limit,
            now,
            Number::whole(len as nat),
            recv_time@,
        );
        self.bucket.law_limited_keeps_what_fits(limit);
    }

    /// Whatever the limit, a reply is counted against the bucket of its connection.
    pub proof fn law_each_connection_pays_for_itself(
        self,
        data: [u8; BUFFER_SIZE],
        len: usize,
        recv_time: Instant,
        config: LiveConfig,
    )
        ensures
            ({
                let event = UpstreamEvent::Received {
                    from: self.upstream,
                    data,
                    len,
                    recv_time,
                    config,
                };
                let bucket = self.bucket.limited(config.limit_down@);
                let tokens = Number::whole(len as nat);
                &&& self.action(event) is Roll <==> bucket.affords(tokens, recv_time@)
                &&& self.next(event).bucket == bucket.reserved(tokens, recv_time@)
            }),
    {
    }

    /// A connection whose replies were refused only has to wait: once the limit has earned
    /// what is missing, a reply that is not longer than the limit gets a chance again.
    pub proof fn law_waiting_is_enough(
        self,
        data: [u8; BUFFER_SIZE],
        len: usize,
        recv_time: Instant,
        config: LiveConfig,
    )
        requires
            self.bucket.sound(),
            self.bucket.paced(),
            config.limit_down@.same(self.bucket.max_val),
            self.bucket.current_time <= recv_time.nanos,
            len <= BUFFER_SIZE,
            len * Number::pow2(149) <= config.limit_down@.value(),
            2 * (BucketState::parts() * (len * Number::pow2(149) - self.bucket.current_val.value()))
                + BucketState::parts() * (self.bucket.grain() + 1) <= 2 * (0x1f_ffff * (
            config.limit_down@.value() * (recv_time.nanos - self.bucket.current_time))),
        ensures
            self.action(
                UpstreamEvent::Received { from: self.upstream, data, len, recv_time, config },
            ) is Roll,
    {
        Number::lemma_whole_finite(len as nat);
        Number::lemma_whole_exact(len as nat);
        self.bucket.law_waiting_affords(Number::whole(len as nat), recv_time@);
    }

    /// What comes in from the server is either refused or left to chance, with the
    /// probability of loss that is set at that moment. Only what is left to chance is kept,
    /// as it came and for the client of this connection. A stranger is reported.
    pub proof fn law_loss_is_as_set(self, event: UpstreamEvent)
        ensures
            self.action(event) is Roll ==> event is Received,
            event matches UpstreamEvent::Received { from, data, len, recv_time, config } ==> {
                &&& from == self.upstream ==> self.action(event) is Receive || self.action(
                    event,
                ) is Roll
                &&& from != self.upstream ==> self.action(event) == (UpstreamAction::Unexpected {
                    from,
                    expected: self.upstream,
                }) && self.next(event) == self
                &&& self.action(event) matches UpstreamAction::Roll { drop_probability }
                    ==> drop_probability.bits == config.drop_probability.bits
                &&& self.action(event) is Roll ==> self.next(event).phase == (
                UpstreamPhase::Rolling {
                    packet: DownstreamPacket { data, len, target: self.downstream, recv_time },
                })
                &&& self.action(event) is Receive ==> self.next(event).phase is Receiving
            },
    {
    }

    /// A reply that chance has lost goes nowhere, and one that is kept goes to the client as
    /// it is.
    pub proof fn law_chance_decides(self, packet: DownstreamPacket)
        requires
            self.phase == (UpstreamPhase::Rolling { packet }),
        ensures
            self.action(UpstreamEvent::Rolled { lost: true }) is Receive,
            self.next(UpstreamEvent::Rolled { lost: true }).phase is Receiving,
            self.action(UpstreamEvent::Rolled { lost: false }) == (UpstreamAction::Deliver {
                packet,
            }),
            self.next(UpstreamEvent::Rolled { lost: false }).phase is Receiving,
    {
    }

    /// The receiver stops with its socket and for no other reason.
    pub proof fn law_stops_with_its_socket(self, event: UpstreamEvent)
        ensures
            self.action(event) is Finish <==> event is Failed,
            event is Failed ==> self.next(event) == self,
    {
    }
}

} // verus!

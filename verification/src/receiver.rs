//! The receiver of the downstream socket: what becomes of the packets of clients.
//!
//! A [`DownstreamReceiver`] is told what has happened and says what to do next. Each
//! client has a bucket of its own, and a connection to the upstream server that is
//! made when the client's first packet gets through.
use vstd::prelude::*;

use crate::addr::SocketAddr;
use crate::bucket::{Bucket, BucketState, Request};
use crate::config::{Double, LiveConfig};
use crate::number::Number;
use crate::packet::{UpstreamPacket, BUFFER_SIZE};
use crate::single::Single;
use crate::time::Instant;

verus! {

/// What the receiver waits for.
pub enum ReceiverPhase {
    /// The next packet.
    Receiving,
    /// Whether the packet is lost.
    Rolling { from: SocketAddr, packet: UpstreamPacket },
    /// The connection for the client that the packet came from.
    Connecting { from: SocketAddr, packet: UpstreamPacket },
}

/// What has happened.
pub enum ReceiverEvent {
    /// The socket cannot receive any more.
    Failed,
    /// A packet has come in, and these were the settings at that time.
    Received {
        from: SocketAddr,
        data: [u8; BUFFER_SIZE],
        len: usize,
        recv_time: Instant,
        config: LiveConfig,
    },
    /// Chance has decided.
    Rolled { lost: bool },
    /// A connection was made, or could not be made.
    Connected { ok: bool },
}

/// What is to be done.
pub enum ReceiverAction {
    /// Wait for the next packet.
    Receive,
    /// Let chance decide whether the packet is lost.
    Roll { drop_probability: Double },
    /// Connect the client to the upstream server, from a socket bound to `bind_addr`.
    Connect { bind_addr: SocketAddr, upstream: SocketAddr, downstream: SocketAddr },
    /// Hand the packet to the connection of the client, then wait for the next packet.
    Forward { downstream: SocketAddr, packet: UpstreamPacket },
    /// Stop.
    Finish,
}

/// What is known of a client.
pub struct ClientState {
    pub bucket: BucketState,
    pub connected: bool,
}

/// What a receiver knows.
pub struct ReceiverState {
    pub proxy_bind_addr: SocketAddr,
    pub upstream: SocketAddr,
    pub clients: Map<SocketAddr, ClientState>,
    pub phase: ReceiverPhase,
}

impl ReceiverState {
    /// Whether this is what the receiver waits for.
    pub open spec fn expects(self, event: ReceiverEvent) -> bool {
        match event {
            ReceiverEvent::Failed => self.phase is Receiving,
            ReceiverEvent::Received { len, config, .. } => self.phase is Receiving && len
                <= BUFFER_SIZE && BucketState::is_limit(config.limit_up@),
            ReceiverEvent::Rolled { .. } => self.phase is Rolling,
            ReceiverEvent::Connected { .. } => self.phase is Connecting,
        }
    }

    /// The bucket of a client under a limit; a new client has a full one.
    pub open spec fn bucket_of(self, from: SocketAddr, limit: Number, now: nat) -> BucketState {
        if self.clients.dom().contains(from) {
            self.clients[from].bucket.limited(limit)
        } else {
            BucketState::full(limit, limit, now).limited(limit)
        }
    }

    /// Whether a client is connected to the upstream server.
    pub open spec fn is_connected(self, from: SocketAddr) -> bool {
        self.clients.dom().contains(from) && self.clients[from].connected
    }

    /// The same receiver, knowing a client anew, in another phase.
    pub open spec fn with_client(
        self,
        from: SocketAddr,
        client: ClientState,
        phase: ReceiverPhase,
    ) -> ReceiverState {
        ReceiverState { clients: self.clients.insert(from, client), phase, ..self }
    }

    /// What the receiver knows after an event.
    pub open spec fn next(self, event: ReceiverEvent) -> ReceiverState {
        match event {
            ReceiverEvent::Failed => self,
            ReceiverEvent::Received { from, data, len, recv_time, config } => {
                let bucket = self.bucket_of(from, config.limit_up@, recv_time@);
                let tokens = Number::whole(len as nat);
                self.with_client(
                    from,
                    ClientState {
                        bucket: bucket.reserved(tokens, recv_time@),
                        connected: self.is_connected(from),
                    },
                    if bucket.affords(tokens, recv_time@) {
                        ReceiverPhase::Rolling {
                            from,
                            packet: UpstreamPacket { data, len, recv_time },
                        }
                    } else {
                        ReceiverPhase::Receiving
                    },
                )
            },
            ReceiverEvent::Rolled { lost } => match self.phase {
                ReceiverPhase::Rolling { from, packet } if !lost && !self.is_connected(from) => {
                    ReceiverState { phase: ReceiverPhase::Connecting { from, packet }, ..self }
                },
                _ => ReceiverState { phase: ReceiverPhase::Receiving, ..self },
            },
            ReceiverEvent::Connected { ok } => match self.phase {
                ReceiverPhase::Connecting { from, .. } if ok => self.with_client(
                    from,
                    ClientState { connected: true, ..self.clients[from] },
                    ReceiverPhase::Receiving,
                ),
                _ => ReceiverState { phase: ReceiverPhase::Receiving, ..self },
            },
        }
    }

    /// What is to be done after an event.
    pub open spec fn action(self, event: ReceiverEvent) -> ReceiverAction {
        match event {
            ReceiverEvent::Failed => ReceiverAction::Finish,
            ReceiverEvent::Received { from, len, recv_time, config, .. } => if self.bucket_of(
                from,
                config.limit_up@,
                recv_time@,
            ).affords(Number::whole(len as nat), recv_time@) {
                ReceiverAction::Roll { drop_probability: config.drop_probability }
            } else {
                ReceiverAction::Receive
            },
            ReceiverEvent::Rolled { lost } => match self.phase {
                ReceiverPhase::Rolling { from, packet } if !lost => if self.is_connected(from) {
                    ReceiverAction::Forward { downstream: from, packet }
                } else {
                    ReceiverAction::Connect {
                        bind_addr: self.proxy_bind_addr,
                        upstream: self.upstream,
                        downstream: from,
                    }
                },
                _ => ReceiverAction::Receive,
            },
            ReceiverEvent::Connected { ok } => match self.phase {
                ReceiverPhase::Connecting { from, packet } if ok => ReceiverAction::Forward {
                    downstream: from,
                    packet,
                },
                _ => ReceiverAction::Receive,
            },
        }
    }

    /// Whether the receiver knows the client whose packet it works on.
    pub open spec fn knows_its_client(self) -> bool {
        match self.phase {
            ReceiverPhase::Receiving => true,
            ReceiverPhase::Rolling { from, .. } => self.clients.dom().contains(from),
            ReceiverPhase::Connecting { from, .. } => self.clients.dom().contains(from)
                && !self.clients[from].connected,
        }
    }
}

/// A client of the proxy.
#[derive(Clone, Copy, Debug)]
pub struct Client {
    pub addr: SocketAddr,
    pub bucket: Bucket,
    pub connected: bool,
}

/// The receiver of the downstream socket.
pub struct DownstreamReceiver {
    pub proxy_bind_addr: SocketAddr,
    pub upstream: SocketAddr,
    pub clients: Vec<Client>,
    pub phase: ReceiverPhase,
}

/// Where in a list the client with an address stands.
pub open spec fn stands_at(clients: Seq<Client>, addr: SocketAddr, i: int) -> bool {
    0 <= i < clients.len() && clients[i].addr == addr
}

/// A list of clients, by address.
pub open spec fn by_address(clients: Seq<Client>) -> Map<SocketAddr, ClientState> {
    Map::new(
        |addr: SocketAddr| exists|i: int| stands_at(clients, addr, i),
        |addr: SocketAddr|
            {
                let client = clients[choose|i: int| stands_at(clients, addr, i)];
                ClientState { bucket: client.bucket@, connected: client.connected }
            },
    )
}

/// No two clients in the list have the same address.
pub open spec fn all_different(clients: Seq<Client>) -> bool {
    forall|i: int, j: int|
        0 <= i < j < clients.len() ==> (#[trigger] clients[i]).addr != (#[trigger] clients[j]).addr
}

impl View for DownstreamReceiver {
    type V = ReceiverState;

    open spec fn view(&self) -> ReceiverState {
        ReceiverState {
            proxy_bind_addr: self.proxy_bind_addr,
            upstream: self.upstream,
            clients: by_address(self.clients@),
            phase: self.phase,
        }
    }
}

/// The client that stands at a place is the one under its address.
proof fn lemma_found(clients: Seq<Client>, i: int)
    requires
        all_different(clients),
        0 <= i < clients.len(),
    ensures
        by_address(clients).dom().contains(clients[i].addr),
        by_address(clients)[clients[i].addr] == (ClientState {
            bucket: clients[i].bucket@,
            connected: clients[i].connected,
        }),
{
    let addr = clients[i].addr;
    assert(stands_at(clients, addr, i));
    let j = choose|j: int| stands_at(clients, addr, j);
    assert(stands_at(clients, addr, j));
    assert(i == j);
}

/// Writing a client anew in its place is writing it anew under its address.
proof fn lemma_updated(clients: Seq<Client>, i: int, client: Client)
    requires
        all_different(clients),
        0 <= i < clients.len(),
        clients[i].addr == client.addr,
    ensures
        all_different(clients.update(i, client)),
        by_address(clients.update(i, client)) == by_address(clients).insert(
            client.addr,
            ClientState { bucket: client.bucket@, connected: client.connected },
        ),
{
    let after = clients.update(i, client);
    let expected = by_address(clients).insert(
        client.addr,
        ClientState { bucket: client.bucket@, connected: client.connected },
    );
    assert forall|a: int, b: int| 0 <= a < b < after.len() implies (#[trigger] after[a]).addr != (
    #[trigger] after[b]).addr by {
        assert(clients[a].addr != clients[b].addr);
    }
    lemma_found(after, i);
    assert forall|addr: SocketAddr| by_address(after).dom().contains(addr)
        <==> expected.dom().contains(addr) by {
        if by_address(after).dom().contains(addr) {
            let j = choose|j: int| stands_at(after, addr, j);
            assert(stands_at(clients, addr, j));
        }
        if by_address(clients).dom().contains(addr) {
            let j = choose|j: int| stands_at(clients, addr, j);
            assert(stands_at(after, addr, j));
        }
    }
    assert forall|addr: SocketAddr| #[trigger] by_address(after).dom().contains(addr) implies by_address(
        after,
    )[addr] == expected[addr] by {
        let j = choose|j: int| stands_at(after, addr, j);
        lemma_found(after, j);
        if j != i {
            lemma_found(clients, j);
        }
    }
    assert(by_address(after) =~= expected);
}

/// Adding a client at the end is adding it under its address.
proof fn lemma_pushed(clients: Seq<Client>, client: Client)
    requires
        all_different(clients),
        !by_address(clients).dom().contains(client.addr),
    ensures
        all_different(clients.push(client)),
        by_address(clients.push(client)) == by_address(clients).insert(
            client.addr,
            ClientState { bucket: client.bucket@, connected: client.connected },
        ),
{
    let after = clients.push(client);
    let expected = by_address(clients).insert(
        client.addr,
        ClientState { bucket: client.bucket@, connected: client.connected },
    );
    assert forall|a: int, b: int| 0 <= a < b < after.len() implies (#[trigger] after[a]).addr != (
    #[trigger] after[b]).addr by {
        assert(stands_at(clients, clients[a].addr, a));
        if b < clients.len() {
            assert(clients[a].addr != clients[b].addr);
        }
    }
    lemma_found(after, clients.len() as int);
    assert forall|addr: SocketAddr| by_address(after).dom().contains(addr)
        <==> expected.dom().contains(addr) by {
        if by_address(after).dom().contains(addr) {
            let j = choose|j: int| stands_at(after, addr, j);
            assert(j < clients.len() ==> stands_at(clients, addr, j));
        }
        if by_address(clients).dom().contains(addr) {
            let j = choose|j: int| stands_at(clients, addr, j);
            assert(stands_at(after, addr, j));
        }
    }
    assert forall|addr: SocketAddr| #[trigger] by_address(after).dom().contains(addr) implies by_address(
        after,
    )[addr] == expected[addr] by {
        let j = choose|j: int| stands_at(after, addr, j);
        lemma_found(after, j);
        if j < clients.len() {
            lemma_found(clients, j);
        }
    }
    assert(by_address(after) =~= expected);
}

impl DownstreamReceiver {
    /// The list of clients names each once, and holds the one being worked on.
    pub open spec fn well_formed(self) -> bool {
        all_different(self.clients@) && self@.knows_its_client()
    }

    /// A receiver that has no clients yet.
    pub fn new(proxy_bind_addr: SocketAddr, upstream: SocketAddr) -> (r: DownstreamReceiver)
        ensures
            r.well_formed(),
            r@ == (ReceiverState {
                proxy_bind_addr,
                upstream,
                clients: Map::empty(),
                phase: ReceiverPhase::Receiving,
            }),
    {
        let clients: Vec<Client> = Vec::new();
        assert(by_address(clients@) =~= Map::empty());
        DownstreamReceiver { proxy_bind_addr, upstream, clients, phase: ReceiverPhase::Receiving }
    }

    /// The place of a client in the list.
    fn find(&self, addr: SocketAddr) -> (r: Option<usize>)
        requires
            all_different(self.clients@),
        ensures
            match r {
                Some(i) => i < self.clients@.len() && self.clients@[i as int].addr == addr,
                None => !self@.clients.dom().contains(addr),
            },
    {
        let mut i: usize = 0;
        while i < self.clients.len()
            invariant
                i <= self.clients@.len(),
                forall|j: int| 0 <= j < i ==> (#[trigger] self.clients@[j]).addr != addr,
            decreases self.clients@.len() - i,
        {
            if self.clients[i].addr == addr {
                return Some(i);
            }
            i = i + 1;
        }
        None
    }

    /// Counts a packet against the bucket of its client, and says whether there were
    /// tokens for it.
    fn charge(&mut self, from: SocketAddr, len: usize, recv_time: Instant, limit: Single) -> (r:
        bool)
        requires
            old(self).well_formed(),
            old(self).phase is Receiving,
            len <= BUFFER_SIZE,
            BucketState::is_limit(limit@),
        ensures
            final(self).well_formed(),
            ({
                let bucket = old(self)@.bucket_of(from, limit@, recv_time@);
                let tokens = Number::whole(len as nat);
                &&& r == bucket.affords(tokens, recv_time@)
                &&& final(self)@ == old(self)@.with_client(
                    from,
                    ClientState {
                        bucket: bucket.reserved(tokens, recv_time@),
                        connected: old(self)@.is_connected(from),
                    },
                    ReceiverPhase::Receiving,
                )
            }),
    {
        let tokens: Single = Single::from_whole(len as u128);
        match self.find(from) {
            Some(i) => {
                let mut client: Client = self.clients[i];
                proof {
                    lemma_found(self.clients@, i as int);
                }
                client.bucket.set_limit(limit);
                let r: bool = client.bucket.try_reserve_at(tokens, recv_time);
                proof {
                    lemma_updated(self.clients@, i as int, client);
                }
                self.clients.set(i, client);
                r
            },
            None => {
                let mut bucket: Bucket = Bucket::new_full(limit, limit, recv_time);
                bucket.set_limit(limit);
                let r: bool = bucket.try_reserve_at(tokens, recv_time);
                let client: Client = Client { addr: from, bucket, connected: false };
                proof {
                    lemma_pushed(self.clients@, client);
                }
                self.clients.push(client);
                r
            },
        }
    }

    /// Takes note of an event and says what to do next.
    pub fn step(&mut self, event: ReceiverEvent) -> (r: ReceiverAction)
        requires
            old(self).well_formed(),
            old(self)@.expects(event),
        ensures
            final(self).well_formed(),
            final(self)@ == old(self)@.next(event),
            r == old(self)@.action(event),
    {
        let mut phase: ReceiverPhase = ReceiverPhase::Receiving;
        std::mem::swap(&mut self.phase, &mut phase);
        match event {
            ReceiverEvent::Failed => ReceiverAction::Finish,
            ReceiverEvent::Received { from, data, len, recv_time, config } => {
                if !self.charge(from, len, recv_time, config.limit_up) {
                    return ReceiverAction::Receive;
                }
                let packet: UpstreamPacket = UpstreamPacket { data, len, recv_time };
                self.phase = ReceiverPhase::Rolling { from, packet };
                ReceiverAction::Roll { drop_probability: config.drop_probability }
            },
            ReceiverEvent::Rolled { lost } => match phase {
                ReceiverPhase::Rolling { from, packet } => {
                    if lost {
                        return ReceiverAction::Receive;
                    }
                    let mut connected: bool = false;
                    if let Some(i) = self.find(from) {
                        proof {
                            lemma_found(self.clients@, i as int);
                        }
                        connected = self.clients[i].connected;
                    }
                    if connected {
                        return ReceiverAction::Forward { downstream: from, packet };
                    }
                    self.phase = ReceiverPhase::Connecting { from, packet };
                    ReceiverAction::Connect {
                        bind_addr: self.proxy_bind_addr,
                        upstream: self.upstream,
                        downstream: from,
                    }
                },
                _ => ReceiverAction::Receive,
            },
            ReceiverEvent::Connected { ok } => match phase {
                ReceiverPhase::Connecting { from, packet } => {
                    if !ok {
                        return ReceiverAction::Receive;
                    }
                    if let Some(i) = self.find(from) {
                        let mut client: Client = self.clients[i];
                        client.connected = true;
                        proof {
                            lemma_found(self.clients@, i as int);
                            lemma_updated(self.clients@, i as int, client);
                        }
                        self.clients.set(i, client);
                    }
                    ReceiverAction::Forward { downstream: from, packet }
                },
                _ => ReceiverAction::Receive,
            },
        }
    }
}

impl ReceiverState {
    /// The client that an event is about.
    pub open spec fn concerns(self, event: ReceiverEvent, addr: SocketAddr) -> bool {
        match event {
            ReceiverEvent::Failed => false,
            ReceiverEvent::Received { from, .. } => addr == from,
            _ => match self.phase {
                ReceiverPhase::Receiving => false,
                ReceiverPhase::Rolling { from, .. } => addr == from,
                ReceiverPhase::Connecting { from, .. } => addr == from,
            },
        }
    }

    /// Clients do not get in each other's way: what a client sends changes neither the
    /// bucket nor the connection of another one.
    pub proof fn law_clients_are_separate(self, event: ReceiverEvent, other: SocketAddr)
        requires
            self.expects(event),
            !self.concerns(event, other),
        ensures
            self.next(event).clients.dom().contains(other) <==> self.clients.dom().contains(other),
            self.clients.dom().contains(other) ==> self.next(event).clients[other]
                == self.clients[other],
    {
    }

    /// A client that is known stays known, and one that is connected stays connected.
    pub proof fn law_connections_last(self, event: ReceiverEvent, addr: SocketAddr)
        requires
            self.expects(event),
        ensures
            self.clients.dom().contains(addr) ==> self.next(event).clients.dom().contains(addr),
            self.is_connected(addr) ==> self.next(event).is_connected(addr),
    {
    }

    /// A client is connected only where it is not connected yet, and after that it is.
    pub proof fn law_connects_once(self, event: ReceiverEvent, addr: SocketAddr)
        requires
            self.expects(event),
            self.action(event) matches ReceiverAction::Connect { downstream, .. } && downstream
                == addr,
        ensures
            !self.is_connected(addr),
            self.next(event).expects(ReceiverEvent::Connected { ok: true }),
            self.next(event).next(ReceiverEvent::Connected { ok: true }).is_connected(addr),
            !self.next(event).next(ReceiverEvent::Connected { ok: false }).is_connected(addr),
    {
    }

    /// A packet that is lost has used up its tokens just as one that gets through.
    pub proof fn law_lost_packets_count(self)
        requires
            self.phase is Rolling,
        ensures
            self.next(ReceiverEvent::Rolled { lost: true }).clients == self.clients,
            self.next(ReceiverEvent::Rolled { lost: false }).clients == self.clients,
    {
    }

    /// What is forwarded is what came in: the same bytes, from the same client, with
    /// the time at which they came.
    pub proof fn law_packets_go_through_unchanged(
        self,
        from: SocketAddr,
        packet: UpstreamPacket,
        config: LiveConfig,
    )
        requires
            self.phase is Receiving,
        ensures
            ({
                let event = ReceiverEvent::Received {
                    from,
                    data: packet.data,
                    len: packet.len,
                    recv_time: packet.recv_time,
                    config,
                };
                let kept = ReceiverEvent::Rolled { lost: false };
                let made = ReceiverEvent::Connected { ok: true };
                let forward = ReceiverAction::Forward { downstream: from, packet };
                let rolling = self.next(event);
                self.expects(event) && self.action(event) is Roll ==> {
                    &&& rolling.expects(kept)
                    &&& self.is_connected(from) ==> rolling.action(kept) == forward
                    &&& !self.is_connected(from) ==> rolling.action(kept) is Connect
                        && rolling.next(kept).expects(made) && rolling.next(kept).action(made)
                        == forward
                }
            }),
    {
    }

    /// Whether the packet that is being worked on fits the buffer.
    pub open spec fn fits(self) -> bool {
        match self.phase {
            ReceiverPhase::Receiving => true,
            ReceiverPhase::Rolling { packet, .. } => packet.len <= BUFFER_SIZE,
            ReceiverPhase::Connecting { packet, .. } => packet.len <= BUFFER_SIZE,
        }
    }

    /// No packet is longer than the buffer that holds it.
    pub proof fn law_packets_fit(self, event: ReceiverEvent)
        requires
            self.expects(event),
            self.fits(),
        ensures
            self.next(event).fits(),
            self.action(event) matches ReceiverAction::Forward { packet, .. } ==> packet.len
                <= BUFFER_SIZE,
    {
    }

    /// A packet that is longer than the limit in force never gets through.
    pub proof fn law_no_packet_above_limit(self, event: ReceiverEvent)
        requires
            self.expects(event),
            event matches ReceiverEvent::Received { len, config, .. } && config.limit_up@.below(
                Number::whole(len as nat),
            ),
        ensures
            self.action(event) is Receive,
            self.next(event).phase is Receiving,
    {
    }

    /// Whether the bucket of every client is sound and earns its limit in a second.
    pub open spec fn sound(self) -> bool {
        forall|addr: SocketAddr| #[trigger]
            self.clients.dom().contains(addr) ==> self.clients[addr].bucket.sound()
                && self.clients[addr].bucket.paced()
    }

    /// While limits are finite, the bucket of every client stays sound and earns its limit
    /// in a second.
    pub proof fn law_buckets_stay_sound(self, event: ReceiverEvent)
        requires
            self.expects(event),
            self.knows_its_client(),
            self.sound(),
            event matches ReceiverEvent::Received { config, .. } ==> config.limit_up@ is Finite,
        ensures
            self.next(event).sound(),
    {
        if let ReceiverEvent::Received { from, len, recv_time, config, .. } = event {
            let limit = config.limit_up@;
            Number::lemma_bits_held(config.limit_up.bits);
            Number::lemma_whole_finite(len as nat);
            let bucket = self.bucket_of(from, limit, recv_time@);
            BucketState::law_full_is_sound(limit, recv_time@);
            if self.clients.dom().contains(from) {
                self.clients[from].bucket.law_limited_stays_sound(limit);
            } else {
                BucketState::full(limit, limit, recv_time@).law_limited_stays_sound(limit);
            }
            bucket.law_reserved_stays_sound(Number::whole(len as nat), recv_time@);
        }
    }

    /// Whether each event of a run is what the receiver then waits for.
    pub open spec fn expects_all(self, events: Seq<ReceiverEvent>) -> bool
        decreases events.len(),
    {
        events.len() > 0 ==> self.expects(events[0]) && self.next(events[0]).expects_all(
            events.drop_first(),
        )
    }

    /// The packets of a client in a run of events, as requests for tokens.
    pub open spec fn requests_of(events: Seq<ReceiverEvent>, addr: SocketAddr) -> Seq<Request>
        decreases events.len(),
    {
        if events.len() == 0 {
            Seq::empty()
        } else {
            let rest = ReceiverState::requests_of(events.drop_first(), addr);
            match events[0] {
                ReceiverEvent::Received { from, len, recv_time, .. } if from == addr => seq![
                    Request { len: len as nat, time: recv_time@ },
                ] + rest,
                _ => rest,
            }
        }
    }

    /// The bytes of a client's packets for which there are tokens in a run of events.
    pub open spec fn admitted(self, events: Seq<ReceiverEvent>, addr: SocketAddr) -> nat
        decreases events.len(),
    {
        if events.len() == 0 {
            0
        } else {
            let rest = self.next(events[0]).admitted(events.drop_first(), addr);
            match events[0] {
                ReceiverEvent::Received { from, len, .. } if from == addr && self.action(
                    events[0],
                ) is Roll => len as nat + rest,
                _ => rest,
            }
        }
    }

    /// The bytes that are handed to the connection of a client in a run of events.
    pub open spec fn forwarded(self, events: Seq<ReceiverEvent>, addr: SocketAddr) -> nat
        decreases events.len(),
    {
        if events.len() == 0 {
            0
        } else {
            let rest = self.next(events[0]).forwarded(events.drop_first(), addr);
            match self.action(events[0]) {
                ReceiverAction::Forward { downstream, packet } if downstream == addr => packet.len
                    as nat + rest,
                _ => rest,
            }
        }
    }

    /// The bytes of a client's packet that is being worked on.
    pub open spec fn pending(self, addr: SocketAddr) -> nat {
        match self.phase {
            ReceiverPhase::Rolling { from, packet } if from == addr => packet.len as nat,
            ReceiverPhase::Connecting { from, packet } if from == addr => packet.len as nat,
            _ => 0,
        }
    }

    /// Whether a limit is in force whenever a packet of a client comes in.
    pub open spec fn limited_to(
        events: Seq<ReceiverEvent>,
        addr: SocketAddr,
        limit: Number,
    ) -> bool {
        forall|i: int|
            0 <= i < events.len() ==> (#[trigger] events[i] matches ReceiverEvent::Received {
                from,
                config,
                ..
            } ==> (from == addr ==> config.limit_up@ == limit))
    }

    /// Nothing is forwarded that was not admitted before.
    pub proof fn law_forwarded_was_admitted(self, events: Seq<ReceiverEvent>, addr: SocketAddr)
        requires
            self.expects_all(events),
        ensures
            self.forwarded(events, addr) <= self.pending(addr) + self.admitted(events, addr),
        decreases events.len(),
    {
        if events.len() > 0 {
            self.next(events[0]).law_forwarded_was_admitted(events.drop_first(), addr);
        }
    }

    /// A packet of a client is counted against its bucket; nothing else changes the bucket.
    proof fn lemma_bucket_follows(
        self,
        event: ReceiverEvent,
        addr: SocketAddr,
        limit: Number,
        now: nat,
    )
        requires
            self.expects(event),
            self.knows_its_client(),
            limit !is Nan,
            event matches ReceiverEvent::Received { from, config, .. } ==> (from == addr
                ==> config.limit_up@ == limit),
        ensures
            self.next(event).knows_its_client(),
            self.next(event).bucket_of(addr, limit, now) == match event {
                ReceiverEvent::Received { from, len, recv_time, .. } if from == addr =>
                    self.bucket_of(addr, limit, recv_time@).reserved(
                    Number::whole(len as nat),
                    recv_time@,
                ),
                _ => self.bucket_of(addr, limit, now),
            },
    {
        if let ReceiverEvent::Received { from, len, recv_time, .. } = event {
            if from == addr {
                let bucket = self.bucket_of(addr, limit, recv_time@);
                assert(bucket.max_val.same(limit));
                assert(bucket.reserved(Number::whole(len as nat), recv_time@).max_val
                    == bucket.max_val);
            }
        }
    }

    /// The packets of a client are requests that can be counted.
    proof fn lemma_requests_countable(self, events: Seq<ReceiverEvent>, addr: SocketAddr)
        requires
            self.expects_all(events),
        ensures
            BucketState::countable(ReceiverState::requests_of(events, addr)),
        decreases events.len(),
    {
        if events.len() > 0 {
            let requests = ReceiverState::requests_of(events, addr);
            let later = ReceiverState::requests_of(events.drop_first(), addr);
            self.next(events[0]).lemma_requests_countable(events.drop_first(), addr);
            assert forall|i: int| 0 <= i < requests.len() implies #[trigger] requests[i].len
                <= 0x100_0000 && requests[i].time <= u128::MAX by {
                if requests.len() > later.len() && i > 0 {
                    assert(requests[i] == later[i - 1]);
                }
            }
        }
    }

    /// What the packets of a client get is what its bucket grants to them as requests.
    proof fn lemma_admitted_is_spent(
        self,
        events: Seq<ReceiverEvent>,
        addr: SocketAddr,
        limit: Number,
    )
        requires
            self.expects_all(events),
            self.knows_its_client(),
            limit !is Nan,
            ReceiverState::limited_to(events, addr, limit),
        ensures
            ({
                let requests = ReceiverState::requests_of(events, addr);
                let now = if requests.len() == 0 {
                    0
                } else {
                    requests[0].time
                };
                self.admitted(events, addr) == self.bucket_of(addr, limit, now).spent(requests)
            }),
        decreases events.len(),
    {
        if events.len() > 0 {
            let event = events[0];
            let rest = events.drop_first();
            let requests = ReceiverState::requests_of(events, addr);
            let later = ReceiverState::requests_of(rest, addr);
            let now = if later.len() == 0 {
                0
            } else {
                later[0].time
            };
            assert forall|i: int| 0 <= i < rest.len() implies (
            #[trigger] rest[i] matches ReceiverEvent::Received { from, config, .. } ==> (from == addr
                ==> config.limit_up@ == limit)) by {
                assert(rest[i] == events[i + 1]);
            }
            self.lemma_bucket_follows(event, addr, limit, now);
            self.next(event).lemma_admitted_is_spent(rest, addr, limit);
            match event {
                ReceiverEvent::Received { from, len, recv_time, .. } if from == addr => {
                    assert(requests.drop_first() =~= later);
                    assert(requests[0] == (Request { len: len as nat, time: recv_time@ }));
                },
                _ => {
                    assert(requests == later);
                },
            }
        }
    }

    /// The bandwidth limit of a client: while a finite limit is in force and moments come
    /// in their order, the client's packets for which there are tokens keep to it. So does
    /// what is forwarded of them, if no packet of the client was being worked on before.
    pub proof fn law_client_keeps_to_limit(
        self,
        events: Seq<ReceiverEvent>,
        addr: SocketAddr,
        limit: Number,
    )
        requires
            self.expects_all(events),
            self.knows_its_client(),
            self.sound(),
            limit.is_amount(),
            ReceiverState::limited_to(events, addr, limit),
            BucketState::in_order(ReceiverState::requests_of(events, addr)),
        ensures
            BucketState::keeps_to(
                limit,
                self.admitted(events, addr),
                ReceiverState::requests_of(events, addr),
            ),
            self.pending(addr) == 0 ==> BucketState::keeps_to(
                limit,
                self.forwarded(events, addr),
                ReceiverState::requests_of(events, addr),
            ),
    {
        let requests = ReceiverState::requests_of(events, addr);
        let now = if requests.len() == 0 {
            0
        } else {
            requests[0].time
        };
        self.lemma_requests_countable(events, addr);
        self.lemma_admitted_is_spent(events, addr, limit);
        BucketState::law_full_is_sound(limit, now);
        if self.clients.dom().contains(addr) {
            self.clients[addr].bucket.law_limited_stays_sound(limit);
        } else {
            BucketState::full(limit, limit, now).law_limited_stays_sound(limit);
        }
        self.bucket_of(addr, limit, now).law_limit_is_kept(limit, requests);
        self.law_forwarded_was_admitted(events, addr);
        if self.pending(addr) == 0 {
            BucketState::law_less_keeps_to_limit(
                limit,
                self.forwarded(events, addr),
                self.admitted(events, addr),
                requests,
            );
        }
    }
}

impl ReceiverState {
    /// What the receiver knows after a run of events.
    pub open spec fn after(self, events: Seq<ReceiverEvent>) -> ReceiverState
        decreases events.len(),
    {
        if events.len() == 0 {
            self
        } else {
            self.next(events[0]).after(events.drop_first())
        }
    }

    /// The two addresses that the receiver works with stay the same, and every client is
    /// connected between them.
    pub proof fn law_addresses_are_fixed(self, event: ReceiverEvent)
        ensures
            self.next(event).upstream == self.upstream,
            self.next(event).proxy_bind_addr == self.proxy_bind_addr,
            self.action(event) matches ReceiverAction::Connect { bind_addr, upstream, .. }
                ==> bind_addr == self.proxy_bind_addr && upstream == self.upstream,
    {
    }

    /// The two addresses stay the same for as long as the receiver runs.
    pub proof fn law_addresses_stay_fixed(self, events: Seq<ReceiverEvent>)
        ensures
            self.after(events).upstream == self.upstream,
            self.after(events).proxy_bind_addr == self.proxy_bind_addr,
        decreases events.len(),
    {
        if events.len() > 0 {
            self.law_addresses_are_fixed(events[0]);
            self.next(events[0]).law_addresses_stay_fixed(events.drop_first());
        }
    }

    /// The packets that come in from a client in a run of events.
    pub open spec fn came_in(events: Seq<ReceiverEvent>, addr: SocketAddr) -> Seq<UpstreamPacket>
        decreases events.len(),
    {
        if events.len() == 0 {
            Seq::empty()
        } else {
            let rest = ReceiverState::came_in(events.drop_first(), addr);
            match events[0] {
                ReceiverEvent::Received { from, data, len, recv_time, .. } if from == addr => seq![
                    UpstreamPacket { data, len, recv_time },
                ] + rest,
                _ => rest,
            }
        }
    }

    /// The packets that are handed to the connection of a client in a run of events.
    pub open spec fn handed_on(self, events: Seq<ReceiverEvent>, addr: SocketAddr) -> Seq<
        UpstreamPacket,
    >
        decreases events.len(),
    {
        if events.len() == 0 {
            Seq::empty()
        } else {
            let rest = self.next(events[0]).handed_on(events.drop_first(), addr);
            match self.action(events[0]) {
                ReceiverAction::Forward { downstream, packet } if downstream == addr => seq![packet]
                    + rest,
                _ => rest,
            }
        }
    }

    /// The packet of a client that is being worked on, if there is one.
    pub open spec fn in_hand(self, addr: SocketAddr) -> Seq<UpstreamPacket> {
        match self.phase {
            ReceiverPhase::Rolling { from, packet } if from == addr => seq![packet],
            ReceiverPhase::Connecting { from, packet } if from == addr => seq![packet],
            _ => Seq::empty(),
        }
    }

    /// Packets keep their order: what is handed on for a client in a run of events is some
    /// of what came in from it, in the same order and none of it twice.
    pub proof fn law_packets_keep_their_order(self, events: Seq<ReceiverEvent>, addr: SocketAddr)
        requires
            self.expects_all(events),
        ensures
            crate::selection::selected(
                self.handed_on(events, addr),
                self.in_hand(addr) + ReceiverState::came_in(events, addr),
            ),
        decreases events.len(),
    {
        let all = self.in_hand(addr) + ReceiverState::came_in(events, addr);
        let picked = self.handed_on(events, addr);
        if events.len() == 0 {
            crate::selection::lemma_nothing(all);
        } else {
            let next = self.next(events[0]);
            let rest = events.drop_first();
            let left = next.in_hand(addr) + ReceiverState::came_in(rest, addr);
            let later = next.handed_on(rest, addr);
            next.law_packets_keep_their_order(rest, addr);
            match self.action(events[0]) {
                ReceiverAction::Forward { downstream, .. } if downstream == addr => {
                    assert(picked.drop_first() =~= later);
                    assert(all.drop_first() =~= left);
                    crate::selection::lemma_taken(picked, all);
                },
                _ => {
                    assert(picked == later);
                    if all.len() == left.len() {
                        assert(all =~= left);
                    } else {
                        assert(all.drop_first() =~= left);
                        crate::selection::lemma_skipped(picked, all);
                    }
                },
            }
        }
    }

    /// The receiver as it would be with no client but one.
    pub open spec fn alone(self, addr: SocketAddr) -> ReceiverState {
        ReceiverState {
            clients: self.clients.restrict(set![addr]),
            phase: match self.phase {
                ReceiverPhase::Rolling { from, .. } if from == addr => self.phase,
                ReceiverPhase::Connecting { from, .. } if from == addr => self.phase,
                _ => ReceiverPhase::Receiving,
            },
            ..self
        }
    }

    /// The events in a run that are about a client.
    pub open spec fn concerning(self, events: Seq<ReceiverEvent>, addr: SocketAddr) -> Seq<
        ReceiverEvent,
    >
        decreases events.len(),
    {
        if events.len() == 0 {
            Seq::empty()
        } else {
            let rest = self.next(events[0]).concerning(events.drop_first(), addr);
            if self.concerns(events[0], addr) {
                seq![events[0]] + rest
            } else {
                rest
            }
        }
    }

    /// What is done about a client in a run of events.
    pub open spec fn done_about(self, events: Seq<ReceiverEvent>, addr: SocketAddr) -> Seq<
        ReceiverAction,
    >
        decreases events.len(),
    {
        if events.len() == 0 {
            Seq::empty()
        } else {
            let rest = self.next(events[0]).done_about(events.drop_first(), addr);
            if self.concerns(events[0], addr) {
                seq![self.action(events[0])] + rest
            } else {
                rest
            }
        }
    }

    /// One step of a receiver, as its client sees it.
    proof fn lemma_alone_follows(self, event: ReceiverEvent, addr: SocketAddr)
        requires
            self.expects(event),
            self.knows_its_client(),
        ensures
            self.next(event).knows_its_client(),
            self.alone(addr).knows_its_client(),
            self.concerns(event, addr) ==> {
                &&& self.alone(addr).expects(event)
                &&& self.alone(addr).concerns(event, addr)
                &&& self.alone(addr).action(event) == self.action(event)
                &&& self.alone(addr).next(event) == self.next(event).alone(addr)
            },
            !self.concerns(event, addr) ==> {
                &&& self.next(event).alone(addr) == self.alone(addr)
                &&& !(self.action(event) matches ReceiverAction::Forward { downstream, .. }
                    && downstream == addr)
            },
    {
        if self.concerns(event, addr) {
            assert(self.alone(addr).next(event).clients =~= self.next(event).alone(addr).clients);
        } else {
            assert(self.next(event).alone(addr).clients =~= self.alone(addr).clients);
        }
    }

    /// A client is served as if it were alone: in a run of events, what is done about it and
    /// handed on for it, and what is known of it afterwards, is what it would be if only the
    /// events about this client had happened.
    pub proof fn law_client_is_served_as_if_alone(
        self,
        events: Seq<ReceiverEvent>,
        addr: SocketAddr,
    )
        requires
            self.expects_all(events),
            self.knows_its_client(),
        ensures
            ({
                let own = self.concerning(events, addr);
                &&& self.alone(addr).expects_all(own)
                &&& self.alone(addr).done_about(own, addr) == self.done_about(events, addr)
                &&& self.alone(addr).handed_on(own, addr) == self.handed_on(events, addr)
                &&& self.alone(addr).after(own) == self.after(events).alone(addr)
            }),
        decreases events.len(),
    {
        if events.len() > 0 {
            let rest = events.drop_first();
            let next = self.next(events[0]);
            self.lemma_alone_follows(events[0], addr);
            next.law_client_is_served_as_if_alone(rest, addr);
            if self.concerns(events[0], addr) {
                let own = self.concerning(events, addr);
                assert(own.drop_first() =~= next.concerning(rest, addr));
            }
        }
    }

    /// Clients do not get in each other's way: two runs that agree on what is known of a
    /// client and on the events about it do the same about it, and hand on the same packets
    /// for it, whatever the other clients send.
    pub proof fn law_clients_stay_separate(
        self,
        events: Seq<ReceiverEvent>,
        other: ReceiverState,
        other_events: Seq<ReceiverEvent>,
        addr: SocketAddr,
    )
        requires
            self.expects_all(events),
            self.knows_its_client(),
            other.expects_all(other_events),
            other.knows_its_client(),
            self.alone(addr) == other.alone(addr),
            self.concerning(events, addr) == other.concerning(other_events, addr),
        ensures
            self.done_about(events, addr) == other.done_about(other_events, addr),
            self.handed_on(events, addr) == other.handed_on(other_events, addr),
            self.after(events).alone(addr) == other.after(other_events).alone(addr),
    {
        self.law_client_is_served_as_if_alone(events, addr);
        other.law_client_is_served_as_if_alone(other_events, addr);
    }
}

impl ReceiverState {
    /// While it waits for a packet the receiver takes any packet that fits the buffer, under
    /// any limit that is not negative, or the end of the socket. After that it waits for the
    /// one decision that it asked for.
    pub proof fn law_waits_in_turn(self, event: ReceiverEvent)
        ensures
            self.expects(event) <==> match self.phase {
                ReceiverPhase::Receiving => match event {
                    ReceiverEvent::Received { len, config, .. } => len <= 4096 && match config.limit_up@ {
                        Number::Nan => false,
                        Number::Infinite { neg } => !neg,
                        Number::Finite { .. } => config.limit_up@.value() >= 0,
                    },
                    other => other is Failed,
                },
                ReceiverPhase::Rolling { .. } => event is Rolled,
                ReceiverPhase::Connecting { .. } => event is Connected,
            },
    {
    }

    /// A client that is not known yet has a full bucket: under a finite limit its first
    /// packet gets a chance wherever it is not longer than the limit. It is then known and
    /// not connected, with a bucket that earns the limit in a second and from which the
    /// packet was taken.
    pub proof fn law_new_client_starts_full(
        self,
        from: SocketAddr,
        data: [u8; BUFFER_SIZE],
        len: usize,
        recv_time: Instant,
        config: LiveConfig,
    )
        requires
            !self.clients.dom().contains(from),
            len <= BUFFER_SIZE,
            config.limit_up@ is Finite,
            config.limit_up@.value() >= 0,
        ensures
            ({
                let event = ReceiverEvent::Received { from, data, len, recv_time, config };
                let limit = config.limit_up@.value();
                let cost = len * Number::pow2(149);
                let client = self.next(event).clients[from];
                &&& self.action(event) is Roll <==> cost <= limit
                &&& self.action(event) is Receive <==> limit < cost
                &&& self.next(event).clients.dom().contains(from)
                &&& !client.connected
                &&& client.bucket.current_time == recv_time.nanos
                &&& client.bucket.max_val.value() == limit
                &&& client.bucket.refill_per_second.value() == limit
                &&& client.bucket.current_val.stands_for(
                    if cost <= limit {
                        limit - cost
                    } else {
                        limit
                    },
                    1,
                )
                &&& limit <= 0x100_0000 * Number::pow2(149) && cost <= limit
                    ==> client.bucket.current_val.value() == limit - cost
            }),
    {
        let limit = config.limit_up@;
        let time = recv_time@;
        let full = BucketState::full(limit, limit, time);
        let tokens = Number::whole(len as nat);
        Number::lemma_bits_held(config.limit_up.bits);
        Number::lemma_whole_finite(len as nat);
        Number::lemma_whole_exact(len as nat);
        Number::lemma_whole_exact(0x100_0000);
        BucketState::law_full_is_sound(limit, time);
        BucketState::law_full_bucket_holds_its_limit(limit, limit, time, tokens, time);
        full.law_limited_keeps_what_fits(limit);
        full.law_refill_moves_on(time);
        full.law_reservation_is_paid_for(tokens, time);
        let level = full.refilled(time).current_val;
        assert(level.value() == limit.value());
        if full.affords(tokens, time) {
            if limit.value() <= 0x100_0000 * Number::pow2(149) {
                level.lemma_minus_whole_exact(len as nat);
            }
        } else {
            full.law_refill_never_drains(time);
            level.lemma_held_stands_for_itself();
        }
    }

    /// Whatever the limit, the bucket of a client that is not known yet is a full one, made
    /// when its first packet comes in. An infinite one has had no time to earn anything, so
    /// that the first packet is refused.
    pub proof fn law_new_client_has_a_new_bucket(
        self,
        from: SocketAddr,
        data: [u8; BUFFER_SIZE],
        len: usize,
        recv_time: Instant,
        config: LiveConfig,
    )
        requires
            !self.clients.dom().contains(from),
            len <= BUFFER_SIZE,
            config.limit_up@ !is Nan,
        ensures
            ({
                let event = ReceiverEvent::Received { from, data, len, recv_time, config };
                let limit = config.limit_up@;
                let bucket = BucketState {
                    current_val: limit,
                    current_time: recv_time.nanos as nat,
                    refill_per_second: limit,
                    max_val: limit,
                };
                let tokens = Number::whole(len as nat);
                &&& self.action(event) is Roll <==> bucket.affords(tokens, recv_time@)
                &&& self.next(event).clients[from].bucket == bucket.reserved(tokens, recv_time@)
                &&& self.next(event).clients[from].connected == false
                &&& limit == (Number::Infinite { neg: false }) ==> self.action(event) is Receive
            }),
    {
        if config.limit_up@ == (Number::Infinite { neg: false }) {
            Number::lemma_whole_finite(len as nat);
            BucketState::full(config.limit_up@, config.limit_up@, recv_time@).law_infinite_limit(
                Number::whole(len as nat),
                recv_time@,
            );
        }
    }

    /// A client that is known keeps its bucket: its packet is counted against what the bucket
    /// holds under the limit in force, whether the client is connected or not, and its
    /// connection stays as it was.
    pub proof fn law_known_client_keeps_its_bucket(
        self,
        from: SocketAddr,
        data: [u8; BUFFER_SIZE],
        len: usize,
        recv_time: Instant,
        config: LiveConfig,
    )
        requires
            self.clients.dom().contains(from),
            self.clients[from].bucket.sound(),
            len <= BUFFER_SIZE,
            config.limit_up@ is Finite,
            config.limit_up@.value() >= 0,
        ensures
            ({
                let event = ReceiverEvent::Received { from, data, len, recv_time, config };
                let cost = len * Number::pow2(149);
                let filled = self.clients[from].bucket.limited(config.limit_up@).refilled(
                    recv_time@,
                ).current_val;
                let client = self.next(event).clients[from];
                &&& self.action(event) is Roll <==> cost <= filled.value()
                &&& self.action(event) is Receive <==> filled.value() < cost
                &&& self.next(event).clients.dom().contains(from)
                &&& client.connected == self.clients[from].connected
                &&& client.bucket.current_time == recv_time.nanos
                &&& client.bucket.max_val.value() == config.limit_up@.value()
                &&& cost <= filled.value() ==> client.bucket.current_val.stands_for(
                    filled.value() - cost,
                    1,
                )
                &&& filled.value() < cost ==> client.bucket.current_val == filled
            }),
    {
        let limit = config.limit_up@;
        let bucket = self.clients[from].bucket.limited(limit);
        let tokens = Number::whole(len as nat);
        Number::lemma_bits_held(config.limit_up.bits);
        Number::lemma_whole_finite(len as nat);
        Number::lemma_whole_exact(len as nat);
        self.clients[from].bucket.law_limited_stays_sound(limit);
        self.clients[from].bucket.law_limited_keeps_what_fits(limit);
        bucket.law_reservation_is_paid_for(tokens, recv_time@);
    }

    /// Whatever the limit, a packet of a known client is counted against the client's own
    /// bucket.
    pub proof fn law_each_client_pays_for_itself(
        self,
        from: SocketAddr,
        data: [u8; BUFFER_SIZE],
        len: usize,
        recv_time: Instant,
        config: LiveConfig,
    )
        requires
            self.clients.dom().contains(from),
        ensures
            ({
                let event = ReceiverEvent::Received { from, data, len, recv_time, config };
                let bucket = self.clients[from].bucket.limited(config.limit_up@);
                let tokens = Number::whole(len as nat);
                &&& self.action(event) is Roll <==> bucket.affords(tokens, recv_time@)
                &&& self.next(event).clients[from].bucket == bucket.reserved(tokens, recv_time@)
            }),
    {
    }

    /// A client whose packets were refused only has to wait: once the limit has earned what
    /// is missing, a packet that is not longer than the limit gets a chance again.
    pub proof fn law_waiting_is_enough(
        self,
        from: SocketAddr,
        data: [u8; BUFFER_SIZE],
        len: usize,
        recv_time: Instant,
        config: LiveConfig,
    )
        requires
            self.clients.dom().contains(from),
            self.clients[from].bucket.sound(),
            self.clients[from].bucket.paced(),
            config.limit_up@.same(self.clients[from].bucket.max_val),
            self.clients[from].bucket.current_time <= recv_time.nanos,
            len <= BUFFER_SIZE,
            len * Number::pow2(149) <= config.limit_up@.value(),
            ({
                let bucket = self.clients[from].bucket;
                2 * (BucketState::parts() * (len * Number::pow2(149) - bucket.current_val.value()))
                    + BucketState::parts() * (bucket.grain() + 1) <= 2 * (0x1f_ffff * (
                config.limit_up@.value() * (recv_time.nanos - bucket.current_time)))
            }),
        ensures
            self.action(ReceiverEvent::Received { from, data, len, recv_time, config }) is Roll,
    {
        let bucket = self.clients[from].bucket;
        let tokens = Number::whole(len as nat);
        Number::lemma_whole_finite(len as nat);
        Number::lemma_whole_exact(len as nat);
        bucket.law_waiting_affords(tokens, recv_time@);
    }

    /// What comes in is either refused or left to chance, with the probability of loss that
    /// is set at that moment, for every client alike. Nothing else is left to chance. Only a
    /// packet that is left to chance is kept, and it is kept as it came.
    pub proof fn law_loss_is_as_set(self, event: ReceiverEvent)
        ensures
            self.action(event) is Roll ==> event is Received,
            event matches ReceiverEvent::Received { from, data, len, recv_time, config } ==> {
                &&& self.action(event) is Receive || self.action(event) is Roll
                &&& self.action(event) matches ReceiverAction::Roll { drop_probability }
                    ==> drop_probability.bits == config.drop_probability.bits
                &&& self.action(event) is Roll ==> self.next(event).phase == (
                ReceiverPhase::Rolling { from, packet: UpstreamPacket { data, len, recv_time } })
                &&& self.action(event) is Receive ==> self.next(event).phase is Receiving
            },
    {
    }

    /// A packet that chance has lost goes nowhere. One that is kept goes to the connection of
    /// its client, or waits for the client to be connected.
    pub proof fn law_chance_decides(self, from: SocketAddr, packet: UpstreamPacket)
        requires
            self.phase == (ReceiverPhase::Rolling { from, packet }),
        ensures
            self.action(ReceiverEvent::Rolled { lost: true }) is Receive,
            self.next(ReceiverEvent::Rolled { lost: true }).phase is Receiving,
            self.is_connected(from) ==> self.action(ReceiverEvent::Rolled { lost: false }) == (
            ReceiverAction::Forward { downstream: from, packet }) && self.next(
                ReceiverEvent::Rolled { lost: false },
            ).phase is Receiving,
            !self.is_connected(from) ==> self.action(ReceiverEvent::Rolled { lost: false }) == (
            ReceiverAction::Connect {
                bind_addr: self.proxy_bind_addr,
                upstream: self.upstream,
                downstream: from,
            }) && self.next(ReceiverEvent::Rolled { lost: false }).phase == (
            ReceiverPhase::Connecting { from, packet }),
    {
    }

    /// A packet that waited for a connection goes to it once it is made, and the client is
    /// connected from then on. Where it could not be made the packet goes nowhere, and
    /// nothing is known that was not known before.
    pub proof fn law_connection_decides(self, from: SocketAddr, packet: UpstreamPacket)
        requires
            self.phase == (ReceiverPhase::Connecting { from, packet }),
        ensures
            self.action(ReceiverEvent::Connected { ok: true }) == (ReceiverAction::Forward {
                downstream: from,
                packet,
            }),
            self.next(ReceiverEvent::Connected { ok: true }).phase is Receiving,
            self.next(ReceiverEvent::Connected { ok: true }).clients.dom().contains(from),
            self.next(ReceiverEvent::Connected { ok: true }).clients[from].connected,
            self.next(ReceiverEvent::Connected { ok: true }).clients[from].bucket
                == self.clients[from].bucket,
            self.action(ReceiverEvent::Connected { ok: false }) is Receive,
            self.next(ReceiverEvent::Connected { ok: false }).phase is Receiving,
            self.next(ReceiverEvent::Connected { ok: false }).clients == self.clients,
    {
    }

    /// A client is connected where it is known and its connection was made.
    pub proof fn law_who_is_connected(self, from: SocketAddr)
        ensures
            self.is_connected(from) ==> self.clients.dom().contains(from),
            self.clients.dom().contains(from) ==> self.is_connected(from)
                == self.clients[from].connected,
    {
    }

    /// The receiver stops with its socket and for no other reason.
    pub proof fn law_stops_with_its_socket(self, event: ReceiverEvent)
        ensures
            self.action(event) is Finish <==> event is Failed,
            event is Failed ==> self.next(event) == self,
    {
    }
}

/// The list of clients is what is known of each: under every address that stands in it, and
/// under no other, are the bucket and the connection that stand beside it.
pub proof fn law_list_is_by_address(clients: Seq<Client>, addr: SocketAddr)
    requires
        all_different(clients),
    ensures
        by_address(clients).dom().contains(addr) <==> exists|i: int|
            0 <= i < clients.len() && (#[trigger] clients[i]).addr == addr,
        forall|i: int|
            0 <= i < clients.len() && (#[trigger] clients[i]).addr == addr ==> by_address(
                clients,
            )[addr].bucket == clients[i].bucket@ && by_address(clients)[addr].connected
                == clients[i].connected,
{
    assert forall|i: int| 0 <= i < clients.len() && (#[trigger] clients[i]).addr == addr implies by_address(
        clients,
    ).dom().contains(addr) && by_address(clients)[addr].bucket == clients[i].bucket@ && by_address(
        clients,
    )[addr].connected == clients[i].connected by {
        lemma_found(clients, i);
    }
    if by_address(clients).dom().contains(addr) {
        let i = choose|i: int| stands_at(clients, addr, i);
        assert(clients[i].addr == addr);
    }
}

} // verus!

use udp_conditioner::addr::{IpAddr, SocketAddr};
use udp_conditioner::config::{Double, EngineParams, LiveConfig};
use udp_conditioner::engine::{spawn_upstream_connection, start_engine, EngineHandle};
use udp_conditioner::packet::{DownstreamPacket, UpstreamPacket, BUFFER_SIZE};
use udp_conditioner::receiver::{DownstreamReceiver, ReceiverAction, ReceiverEvent};
use udp_conditioner::schedule::{departure, max_micros, random_duration, schedule};
use udp_conditioner::sender::{DownstreamSender, SenderAction, SenderEvent, UpstreamSender};
use udp_conditioner::single::Single;
use udp_conditioner::time::{Duration, Instant};
use udp_conditioner::upstream::{UpstreamAction, UpstreamEvent, UpstreamReceiver};

fn single(x: f32) -> Single {
    Single { bits: x.to_bits() }
}

fn double(x: f64) -> Double {
    Double { bits: x.to_bits() }
}

fn config(limit: f32) -> LiveConfig {
    LiveConfig {
        delay_up: Duration::from_millis(20),
        delay_down: Duration::from_millis(30),
        max_jitter: Duration::from_millis(5),
        drop_probability: double(0.25),
        limit_up: single(limit),
        limit_down: single(limit),
    }
}

fn v4(ip: u32, port: u16) -> SocketAddr {
    SocketAddr::V4 { ip, port }
}

const SERVER: SocketAddr = SocketAddr::V4 { ip: 0x0a00_0001, port: 9000 };
const BIND: SocketAddr = SocketAddr::V4 { ip: 0x7f00_0001, port: 0 };

fn received(from: SocketAddr, len: usize, nanos: u128, limit: f32) -> ReceiverEvent {
    let mut data = [0u8; BUFFER_SIZE];
    data[0] = 0xab;
    data[len.saturating_sub(1)] = 0xcd;
    ReceiverEvent::Received {
        from,
        data,
        len,
        recv_time: Instant { nanos },
        config: config(limit),
    }
}

#[test]
fn first_packet_of_a_client_connects_it() {
    let mut receiver = DownstreamReceiver::new(BIND, SERVER);
    let client = v4(1, 1000);
    match receiver.step(received(client, 100, 7, 1000.0)) {
        ReceiverAction::Roll { drop_probability } => {
            assert_eq!(drop_probability.bits, 0.25f64.to_bits())
        }
        _ => panic!("expected a roll"),
    }
    match receiver.step(ReceiverEvent::Rolled { lost: false }) {
        ReceiverAction::Connect { bind_addr, upstream, downstream } => {
            assert_eq!(bind_addr, BIND);
            assert_eq!(upstream, SERVER);
            assert_eq!(downstream, client);
        }
        _ => panic!("expected a connection"),
    }
    match receiver.step(ReceiverEvent::Connected { ok: true }) {
        ReceiverAction::Forward { downstream, packet } => {
            assert_eq!(downstream, client);
            assert_eq!(packet.len, 100);
            assert_eq!(packet.recv_time.nanos, 7);
            assert_eq!(packet.payload().len(), 100);
            assert_eq!(packet.payload()[0], 0xab);
            assert_eq!(packet.payload()[99], 0xcd);
        }
        _ => panic!("expected a packet"),
    }
    assert!(matches!(
        receiver.step(received(client, 100, 8, 1000.0)),
        ReceiverAction::Roll { .. }
    ));
    assert!(matches!(
        receiver.step(ReceiverEvent::Rolled { lost: false }),
        ReceiverAction::Forward { .. }
    ));
    assert_eq!(receiver.clients.len(), 1);
    assert!(receiver.clients[0].connected);
}

#[test]
fn a_failed_connection_is_tried_again() {
    let mut receiver = DownstreamReceiver::new(BIND, SERVER);
    let client = v4(1, 1000);
    for nanos in 0..3 {
        assert!(matches!(
            receiver.step(received(client, 10, nanos, 1000.0)),
            ReceiverAction::Roll { .. }
        ));
        assert!(matches!(
            receiver.step(ReceiverEvent::Rolled { lost: false }),
            ReceiverAction::Connect { .. }
        ));
        assert!(matches!(
            receiver.step(ReceiverEvent::Connected { ok: false }),
            ReceiverAction::Receive
        ));
        assert!(!receiver.clients[0].connected);
    }
}

#[test]
fn lost_packets_use_up_tokens() {
    let mut receiver = DownstreamReceiver::new(BIND, SERVER);
    let client = v4(1, 1000);
    assert!(matches!(
        receiver.step(received(client, 600, 0, 1000.0)),
        ReceiverAction::Roll { .. }
    ));
    assert!(matches!(
        receiver.step(ReceiverEvent::Rolled { lost: true }),
        ReceiverAction::Receive
    ));
    assert_eq!(receiver.clients[0].bucket.current_val.bits, single(400.0).bits);
    assert!(matches!(receiver.step(received(client, 600, 0, 1000.0)), ReceiverAction::Receive));
    assert!(matches!(
        receiver.step(received(client, 400, 0, 1000.0)),
        ReceiverAction::Roll { .. }
    ));
}

#[test]
fn each_client_has_its_own_bucket() {
    let mut receiver = DownstreamReceiver::new(BIND, SERVER);
    let one = v4(1, 1000);
    let two = v4(1, 1001);
    assert!(matches!(receiver.step(received(one, 1000, 0, 1000.0)), ReceiverAction::Roll { .. }));
    receiver.step(ReceiverEvent::Rolled { lost: true });
    assert!(matches!(receiver.step(received(one, 1, 0, 1000.0)), ReceiverAction::Receive));
    assert!(matches!(receiver.step(received(two, 1000, 0, 1000.0)), ReceiverAction::Roll { .. }));
    receiver.step(ReceiverEvent::Rolled { lost: true });
    assert_eq!(receiver.clients.len(), 2);
    assert_eq!(receiver.clients[0].addr, one);
    assert_eq!(receiver.clients[1].addr, two);
}

/// The bytes that are forwarded of one packet; nothing is lost and every connection is made.
fn forwarded(receiver: &mut DownstreamReceiver, event: ReceiverEvent) -> usize {
    if !matches!(receiver.step(event), ReceiverAction::Roll { .. }) {
        return 0;
    }
    match receiver.step(ReceiverEvent::Rolled { lost: false }) {
        ReceiverAction::Forward { packet, .. } => packet.len,
        ReceiverAction::Connect { .. } => {
            match receiver.step(ReceiverEvent::Connected { ok: true }) {
                ReceiverAction::Forward { packet, .. } => packet.len,
                _ => 0,
            }
        }
        _ => 0,
    }
}

#[test]
fn each_client_keeps_to_the_limit() {
    let mut receiver = DownstreamReceiver::new(BIND, SERVER);
    let one = v4(1, 1000);
    let two = v4(2, 1000);
    let mut through = [0usize; 2];
    for i in 0..=40u128 {
        let now = 5 + i * 250_000_000;
        through[0] += forwarded(&mut receiver, received(one, 500, now, 1000.0));
        through[1] += forwarded(&mut receiver, received(two, 300, now, 1000.0));
    }
    assert_eq!(through[0], 11_000);
    assert!(through[1] <= 11_000);
    assert!(through[1] > 10_000);
}

#[test]
fn each_connection_keeps_to_the_limit() {
    let mut receiver =
        UpstreamReceiver::new(SERVER, v4(1, 1000), single(1000.0), Instant { nanos: 0 });
    let mut through = 0;
    for i in 0..=40u128 {
        let now = 5 + i * 250_000_000;
        receiver.step(replied(v4(9, 9), 500, now, 1000.0));
        let action = receiver.step(replied(SERVER, 500, now, 1000.0));
        if matches!(action, UpstreamAction::Roll { .. }) {
            match receiver.step(UpstreamEvent::Rolled { lost: false }) {
                UpstreamAction::Deliver { packet } => through += packet.len,
                _ => panic!("expected a packet"),
            }
        }
    }
    assert_eq!(through, 11_000);
}

#[test]
fn a_new_limit_holds_from_the_next_packet() {
    let mut receiver = DownstreamReceiver::new(BIND, SERVER);
    let client = v4(1, 1000);
    assert!(matches!(receiver.step(received(client, 0, 0, 4096.0)), ReceiverAction::Roll { .. }));
    receiver.step(ReceiverEvent::Rolled { lost: true });
    assert!(matches!(receiver.step(received(client, 101, 0, 100.0)), ReceiverAction::Receive));
    assert!(matches!(receiver.step(received(client, 100, 0, 100.0)), ReceiverAction::Roll { .. }));
    receiver.step(ReceiverEvent::Rolled { lost: true });
    assert!(matches!(receiver.step(received(client, 1, 0, 4096.0)), ReceiverAction::Receive));
}

#[test]
fn a_packet_may_fill_the_buffer() {
    let mut receiver = DownstreamReceiver::new(BIND, SERVER);
    let client = v4(1, 1000);
    assert!(matches!(
        receiver.step(received(client, BUFFER_SIZE, 0, 4096.0)),
        ReceiverAction::Roll { .. }
    ));
}

#[test]
fn a_receiver_stops_with_its_socket() {
    let mut receiver = DownstreamReceiver::new(BIND, SERVER);
    assert!(matches!(receiver.step(ReceiverEvent::Failed), ReceiverAction::Finish));
    let mut upstream =
        UpstreamReceiver::new(SERVER, v4(1, 1000), single(10.0), Instant { nanos: 0 });
    assert!(matches!(upstream.step(UpstreamEvent::Failed), UpstreamAction::Finish));
}

fn replied(from: SocketAddr, len: usize, nanos: u128, limit: f32) -> UpstreamEvent {
    let mut data = [0u8; BUFFER_SIZE];
    data[0] = 0x12;
    UpstreamEvent::Received { from, data, len, recv_time: Instant { nanos }, config: config(limit) }
}

#[test]
fn replies_are_delivered_to_their_client() {
    let client = v4(1, 1000);
    let mut receiver = UpstreamReceiver::new(SERVER, client, single(1000.0), Instant { nanos: 0 });
    match receiver.step(replied(SERVER, 300, 11, 1000.0)) {
        UpstreamAction::Roll { drop_probability } => {
            assert_eq!(drop_probability.bits, 0.25f64.to_bits())
        }
        _ => panic!("expected a roll"),
    }
    match receiver.step(UpstreamEvent::Rolled { lost: false }) {
        UpstreamAction::Deliver { packet } => {
            assert_eq!(packet.target, client);
            assert_eq!(packet.len, 300);
            assert_eq!(packet.recv_time.nanos, 11);
            assert_eq!(packet.payload().len(), 300);
            assert_eq!(packet.payload()[0], 0x12);
        }
        _ => panic!("expected a packet"),
    }
    assert!(matches!(
        receiver.step(replied(SERVER, 300, 11, 1000.0)),
        UpstreamAction::Roll { .. }
    ));
    assert!(matches!(
        receiver.step(UpstreamEvent::Rolled { lost: true }),
        UpstreamAction::Receive
    ));
    assert!(matches!(receiver.step(replied(SERVER, 500, 11, 1000.0)), UpstreamAction::Receive));
    assert_eq!(receiver.bucket.current_val.bits, single(400.0).bits);
}

#[test]
fn packets_from_strangers_are_reported_and_cost_nothing() {
    let client = v4(1, 1000);
    let stranger = v4(0x0a00_0001, 9001);
    let mut receiver = UpstreamReceiver::new(SERVER, client, single(1000.0), Instant { nanos: 0 });
    match receiver.step(replied(stranger, 1000, 5, 7.0)) {
        UpstreamAction::Unexpected { from, expected } => {
            assert_eq!(from, stranger);
            assert_eq!(expected, SERVER);
        }
        _ => panic!("expected a report"),
    }
    assert_eq!(receiver.bucket.current_val.bits, single(1000.0).bits);
    assert_eq!(receiver.bucket.max_val.bits, single(1000.0).bits);
    assert_eq!(receiver.bucket.current_time.nanos, 0);
}

#[test]
fn jitter_stays_below_its_maximum() {
    let max = Duration { nanos: 3_999 };
    assert_eq!(max_micros(max), 3);
    let mut seen = [false; 3];
    for _ in 0..1000 {
        let jitter = random_duration(max);
        assert_eq!(jitter.nanos % 1_000, 0);
        assert!(jitter.nanos < 3_000);
        seen[(jitter.nanos / 1_000) as usize] = true;
    }
    assert_eq!(seen, [true, true, true]);
}

#[test]
fn there_is_no_jitter_below_a_microsecond() {
    assert_eq!(max_micros(Duration { nanos: 999 }), 0);
    assert_eq!(random_duration(Duration { nanos: 999 }).nanos, 0);
    assert_eq!(random_duration(Duration { nanos: 0 }).nanos, 0);
    assert_eq!(random_duration(Duration { nanos: 1_000 }).nanos, 0);
}

#[test]
fn the_choice_of_jitter_is_counted_in_sixty_four_bits() {
    let wrapped = Duration { nanos: (1u128 << 64) * 1_000 };
    assert_eq!(max_micros(wrapped), 0);
    assert_eq!(random_duration(wrapped).nanos, 0);
    let above = Duration { nanos: ((1u128 << 64) + 2) * 1_000 };
    assert_eq!(max_micros(above), 2);
}

#[test]
fn packets_leave_after_their_delay() {
    let received = Instant { nanos: 1_000_000 };
    let delay = Duration::from_millis(2);
    assert_eq!(departure(received, delay, Duration { nanos: 5_000 }).nanos, 3_005_000);
    assert_eq!(schedule(received, delay, Duration { nanos: 0 }).nanos, 3_000_000);
    for _ in 0..100 {
        let time = schedule(received, delay, Duration { nanos: 10_000 }).nanos;
        assert!((3_000_000..3_010_000).contains(&time));
    }
}

#[test]
fn the_downstream_sender_holds_packets_back() {
    let mut sender = DownstreamSender::new();
    let mut data = [0u8; BUFFER_SIZE];
    data[2] = 9;
    let target = v4(1, 1000);
    let packet = DownstreamPacket { data, len: 3, target, recv_time: Instant { nanos: 500 } };
    match sender.step(SenderEvent::Dequeued { packet, config: config(1.0) }) {
        SenderAction::SleepUntil { until } => {
            assert!((30_000_500..35_000_500).contains(&until.nanos))
        }
        _ => panic!("expected to wait"),
    }
    match sender.step(SenderEvent::Woken) {
        SenderAction::Send { packet, target: to } => {
            assert_eq!(to, target);
            assert_eq!(packet.payload(), &[0u8, 0, 9][..]);
        }
        _ => panic!("expected to send"),
    }
    assert!(matches!(sender.step(SenderEvent::Sent { ok: true }), SenderAction::Dequeue));
    assert!(matches!(sender.step(SenderEvent::Closed), SenderAction::Finish));
}

#[test]
fn the_upstream_sender_holds_packets_back() {
    let mut sender = UpstreamSender::new(SERVER);
    let data = [4u8; BUFFER_SIZE];
    let packet = UpstreamPacket { data, len: 2, recv_time: Instant { nanos: 500 } };
    match sender.step(SenderEvent::Dequeued { packet, config: config(1.0) }) {
        SenderAction::SleepUntil { until } => {
            assert!((20_000_500..25_000_500).contains(&until.nanos))
        }
        _ => panic!("expected to wait"),
    }
    match sender.step(SenderEvent::Woken) {
        SenderAction::Send { packet, target } => {
            assert_eq!(target, SERVER);
            assert_eq!(packet.payload(), &[4u8, 4][..]);
        }
        _ => panic!("expected to send"),
    }
    assert!(matches!(sender.step(SenderEvent::Sent { ok: false }), SenderAction::Finish));
}

#[test]
fn the_downstream_sender_keeps_the_order_of_its_queue() {
    let mut sender = DownstreamSender::new();
    let mut sent = Vec::new();
    for i in 0..5u16 {
        let packet = DownstreamPacket {
            data: [i as u8; BUFFER_SIZE],
            len: 1,
            target: v4(1, 1000 + i),
            recv_time: Instant { nanos: 500 - i as u128 },
        };
        sender.step(SenderEvent::Dequeued { packet, config: config(1.0) });
        match sender.step(SenderEvent::Woken) {
            SenderAction::Send { packet, target } => sent.push((packet.data[0], target)),
            _ => panic!("expected to send"),
        }
        sender.step(SenderEvent::Sent { ok: true });
    }
    let expected: Vec<(u8, SocketAddr)> = (0..5u16).map(|i| (i as u8, v4(1, 1000 + i))).collect();
    assert_eq!(sent, expected);
}

#[test]
fn the_upstream_sender_keeps_the_order_of_its_queue() {
    let mut sender = UpstreamSender::new(SERVER);
    let mut sent = Vec::new();
    for i in 0..5u8 {
        let packet = UpstreamPacket {
            data: [i; BUFFER_SIZE],
            len: 1,
            recv_time: Instant { nanos: 500 - i as u128 },
        };
        sender.step(SenderEvent::Dequeued { packet, config: config(1.0) });
        match sender.step(SenderEvent::Woken) {
            SenderAction::Send { packet, target } => sent.push((packet.data[0], target)),
            _ => panic!("expected to send"),
        }
        sender.step(SenderEvent::Sent { ok: true });
    }
    let expected: Vec<(u8, SocketAddr)> = (0..5u8).map(|i| (i, SERVER)).collect();
    assert_eq!(sent, expected);
}

/// The lengths of the packets that are handed on for a client. Of all packets that roll,
/// those of an odd length are lost.
fn handed_on(packets: &[(SocketAddr, usize, u128)], client: SocketAddr) -> Vec<usize> {
    let mut receiver = DownstreamReceiver::new(BIND, SERVER);
    let mut lengths = Vec::new();
    for &(from, len, nanos) in packets {
        if !matches!(
            receiver.step(received(from, len, nanos, 1000.0)),
            ReceiverAction::Roll { .. }
        ) {
            continue;
        }
        let mut action = receiver.step(ReceiverEvent::Rolled { lost: len % 2 == 1 });
        if let ReceiverAction::Connect { bind_addr, upstream, downstream } = action {
            assert_eq!(bind_addr, BIND);
            assert_eq!(upstream, SERVER);
            assert_eq!(downstream, from);
            action = receiver.step(ReceiverEvent::Connected { ok: true });
        }
        if let ReceiverAction::Forward { downstream, packet } = action {
            assert_eq!(downstream, from);
            if from == client {
                lengths.push(packet.len);
            }
        }
        assert_eq!(receiver.proxy_bind_addr, BIND);
        assert_eq!(receiver.upstream, SERVER);
    }
    lengths
}

#[test]
fn packets_of_a_client_keep_their_order() {
    let one = v4(1, 1000);
    let own = [(one, 400, 0), (one, 101, 1), (one, 500, 2), (one, 200, 3), (one, 298, 4)];
    assert_eq!(handed_on(&own, one), vec![400, 200, 298]);
}

#[test]
fn other_clients_change_nothing_for_a_client() {
    let one = v4(1, 1000);
    let two = v4(2, 1000);
    let own = [(one, 400, 0), (one, 101, 1), (one, 500, 2), (one, 200, 3), (one, 298, 4)];
    let mut mixed = Vec::new();
    for packet in own {
        mixed.push((two, 600, packet.2));
        mixed.push(packet);
        mixed.push((two, 7, packet.2));
    }
    assert_eq!(handed_on(&mixed, one), handed_on(&own, one));
    assert_eq!(handed_on(&mixed, two), vec![600]);
}

#[test]
fn replies_keep_their_order() {
    let client = v4(1, 1000);
    let mut receiver = UpstreamReceiver::new(SERVER, client, single(1000.0), Instant { nanos: 0 });
    let mut lengths = Vec::new();
    for len in [400, 101, 500, 200, 298] {
        receiver.step(replied(v4(9, 9), 50, 0, 1000.0));
        if !matches!(receiver.step(replied(SERVER, len, 0, 1000.0)), UpstreamAction::Roll { .. }) {
            continue;
        }
        match receiver.step(UpstreamEvent::Rolled { lost: len % 2 == 1 }) {
            UpstreamAction::Deliver { packet } => {
                assert_eq!(packet.target, client);
                lengths.push(packet.len);
            }
            _ => assert_eq!(len, 101),
        }
        assert_eq!(receiver.upstream, SERVER);
        assert_eq!(receiver.downstream, client);
    }
    assert_eq!(lengths, vec![400, 200, 298]);
}

#[test]
fn an_engine_starts_on_its_socket() {
    let params = EngineParams { bind_addr: v4(0x7f00_0001, 7777), upstream: SERVER };
    let started: Result<_, &str> = start_engine(params, config(5.0), Ok(17));
    match started {
        Ok(engine) => {
            assert_eq!(engine.socket, 17);
            assert_eq!(engine.receiver.proxy_bind_addr, v4(0x7f00_0001, 0));
            assert_eq!(engine.receiver.upstream, SERVER);
            assert_eq!(engine.receiver.clients.len(), 0);
            assert!(engine.live_config == config(5.0));
        }
        Err(_) => panic!("expected an engine"),
    }
    let failed: Result<_, &str> = start_engine::<u8, &str>(params, config(5.0), Err("in use"));
    assert_eq!(failed.err(), Some("in use"));
}

#[test]
fn a_connection_starts_with_a_full_bucket() {
    let client = v4(1, 1000);
    let now = Instant { nanos: 99 };
    let made: Result<_, &str> =
        spawn_upstream_connection(SERVER, client, Ok(3), config(64.0), now);
    match made {
        Ok(connection) => {
            assert_eq!(connection.socket, 3);
            assert_eq!(connection.receiver.upstream, SERVER);
            assert_eq!(connection.receiver.downstream, client);
            assert_eq!(connection.receiver.bucket.current_val.bits, single(64.0).bits);
            assert_eq!(connection.receiver.bucket.refill_per_second.bits, single(64.0).bits);
            assert_eq!(connection.receiver.bucket.current_time.nanos, 99);
            assert_eq!(connection.sender.upstream, SERVER);
        }
        Err(_) => panic!("expected a connection"),
    }
    let failed = spawn_upstream_connection::<u8, &str>(
        SERVER,
        client,
        Err("no port"),
        config(64.0),
        now,
    );
    assert_eq!(failed.err(), Some("no port"));
}

#[test]
fn stopping_hands_out_every_task_once() {
    let mut handle: EngineHandle<u32> = EngineHandle::new();
    handle.register(1, 2);
    handle.register(3, 4);
    assert_eq!(handle.stop(), Some(vec![1, 2, 3, 4]));
    handle.register(5, 6);
    assert_eq!(handle.stop(), Some(vec![5, 6]));
    assert_eq!(handle.stop(), None);
    assert_eq!(handle.stop(), None);
}

#[test]
fn a_port_of_the_same_host_drops_the_rest_of_the_address() {
    let six = SocketAddr::V6 { ip: 1, port: 80, flowinfo: 7, scope_id: 8 };
    assert_eq!(six.ip(), IpAddr::V6(1));
    assert_eq!(
        SocketAddr::new(six.ip(), 0),
        SocketAddr::V6 { ip: 1, port: 0, flowinfo: 0, scope_id: 0 }
    );
    assert_eq!(SocketAddr::new(v4(5, 80).ip(), 81), v4(5, 81));
}

#[test]
fn configurations_are_compared_setting_by_setting() {
    let base = config(10.0);
    assert!(base == config(10.0));
    assert!(base != config(11.0));
    let mut other = base;
    other.delay_up = Duration::from_millis(21);
    assert!(base != other);
    other = base;
    other.delay_down = Duration::from_millis(21);
    assert!(base != other);
    other = base;
    other.max_jitter = Duration::from_millis(21);
    assert!(base != other);
    other = base;
    other.drop_probability = double(0.5);
    assert!(base != other);
    other = base;
    other.limit_down = single(0.0);
    assert!(base != other);
}

#[test]
fn zeros_are_equal_and_nothing_equals_what_is_no_number() {
    let mut zero = config(0.0);
    zero.drop_probability = double(0.0);
    let mut minus = config(-0.0);
    minus.drop_probability = double(-0.0);
    assert!(zero == minus);
    let mut nan = config(1.0);
    nan.drop_probability = double(f64::NAN);
    assert!(nan != nan);
    assert!(config(f32::NAN) != config(f32::NAN));
    assert!(double(f64::INFINITY).same(double(f64::INFINITY)));
}

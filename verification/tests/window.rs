use udp_conditioner::addr::SocketAddr;
use udp_conditioner::app::{Cli, Controls, ProxyApp, Toggle};
use udp_conditioner::config::Double;
use udp_conditioner::single::Single;

fn single(x: f32) -> Single {
    Single { bits: x.to_bits() }
}

fn window() -> ProxyApp<u32> {
    ProxyApp::new(Cli {
        from: String::from("127.0.0.1:7777"),
        to: String::from("127.0.0.1:9000"),
        delay: 10,
        delay_up: 1,
        delay_down: 2,
        jitter: 3,
        loss: Double { bits: 0.5f64.to_bits() },
        bandwidth_limit: single(1000.0),
        bandwidth_limit_up: single(2000.0),
        bandwidth_limit_down: single(500.0),
    })
}

fn addr(port: u16) -> SocketAddr {
    SocketAddr::V4 { ip: 0x7f00_0001, port }
}

#[test]
fn opens_with_the_arguments() {
    let app = window();
    assert_eq!(app.from_str, "127.0.0.1:7777");
    assert_eq!(app.to_str, "127.0.0.1:9000");
    assert_eq!(app.delay_ms, 10);
    assert_eq!(app.delay_up_ms, 1);
    assert_eq!(app.delay_down_ms, 2);
    assert_eq!(app.jitter_ms, 3);
    assert!(app.engine.is_none());
    assert!(app.error.is_none());
    assert!(app.addr_parse_error.is_none());
}

#[test]
fn settings_make_a_configuration() {
    let config = window().build_live_config();
    assert_eq!(config.delay_up.nanos, 11_000_000);
    assert_eq!(config.delay_down.nanos, 12_000_000);
    assert_eq!(config.max_jitter.nanos, 3_000_000);
    assert_eq!(config.drop_probability.bits, 0.5f64.to_bits());
    assert_eq!(config.limit_up.bits, single(1000.0).bits);
    assert_eq!(config.limit_down.bits, single(500.0).bits);
}

#[test]
fn the_longest_delays_add_up() {
    let mut app = window();
    app.delay_ms = u64::MAX;
    app.delay_up_ms = u64::MAX;
    let config = app.build_live_config();
    assert_eq!(config.delay_up.nanos, 2 * u64::MAX as u128 * 1_000_000);
}

#[test]
fn a_limit_that_is_no_number_does_not_hold() {
    let mut app = window();
    app.bandwidth_limit = single(f32::NAN);
    assert_eq!(app.build_live_config().limit_up.bits, single(2000.0).bits);
    app.bandwidth_limit = single(1.0);
    app.bandwidth_limit_up = single(f32::NAN);
    assert_eq!(app.build_live_config().limit_up.bits, single(1.0).bits);
}

#[test]
fn starts_and_stops() {
    let mut app = window();
    assert_eq!(
        app.ui(),
        Controls { addresses_enabled: true, toggle: Toggle::Start, running: false }
    );
    let (params, config) = app.start_engine(Ok(addr(7777)), Ok(addr(9000))).unwrap();
    assert_eq!(params.bind_addr, addr(7777));
    assert_eq!(params.upstream, addr(9000));
    assert!(config == app.build_live_config());
    app.engine_started(Ok(5));
    assert_eq!(
        app.ui(),
        Controls { addresses_enabled: false, toggle: Toggle::Stop, running: true }
    );
    assert_eq!(app.stop_engine(), Some(5));
    assert_eq!(app.stop_engine(), None);
    assert_eq!(app.ui().toggle, Toggle::Start);
}

#[test]
fn a_wrong_bind_address_is_named_first() {
    let mut app = window();
    let wrong = || Err(String::from("invalid socket address syntax"));
    assert!(app.start_engine(wrong(), wrong()).is_none());
    assert_eq!(
        app.addr_parse_error.as_deref(),
        Some("invalid bind address: invalid socket address syntax")
    );
    assert!(app.start_engine(Ok(addr(1)), wrong()).is_none());
    assert_eq!(
        app.addr_parse_error.as_deref(),
        Some("invalid upstream address: invalid socket address syntax")
    );
    assert!(app.start_engine(Ok(addr(1)), Ok(addr(2))).is_some());
    assert!(app.addr_parse_error.is_none());
}

#[test]
fn a_failed_start_is_shown_until_the_next_one() {
    let mut app = window();
    app.start_engine(Ok(addr(1)), Ok(addr(2)));
    app.engine_started(Err(String::from("address in use")));
    assert!(app.engine.is_none());
    assert_eq!(app.error.as_deref(), Some("failed to start: address in use"));
    app.start_engine(Err(String::from("x")), Ok(addr(2)));
    assert!(app.error.is_none());
}

#[test]
fn only_changes_are_sent() {
    let mut app = window();
    let current = app.build_live_config();
    app.delay_ms = 11;
    assert!(app.live_config_update(&current).is_none());
    app.engine_started(Ok(1));
    let update = app.live_config_update(&current).unwrap();
    assert_eq!(update.delay_up.nanos, 12_000_000);
    assert!(app.live_config_update(&update).is_none());
    app.bandwidth_limit_down = single(499.0);
    assert_eq!(app.live_config_update(&update).unwrap().limit_down.bits, single(499.0).bits);
}

#[test]
fn a_setting_that_is_no_number_is_sent_again() {
    let mut app = window();
    app.engine_started(Ok(1));
    app.loss = Double { bits: f64::NAN.to_bits() };
    let current = app.build_live_config();
    assert!(app.live_config_update(&current).is_some());
}

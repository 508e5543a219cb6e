use pcpvpn::engine::EngineState;
use pcpvpn::packet_log::{Direction, PacketLogEntry};
use pcpvpn::state::{SharedState, PACKET_LOG_CAP};

fn entry(t: u64) -> PacketLogEntry {
    PacketLogEntry { t_ms: t, dir: Direction::Tx, proto: "UDP".to_string(), len: 64, note: String::new() }
}

#[test]
fn starts_idle_with_no_uptime() {
    let s = SharedState::default();
    assert_eq!(s.state(), EngineState::Idle);
    assert_eq!(s.elapsed_ms(123_456), 0);
    let st = s.status(99_000);
    assert_eq!(st.state, EngineState::Idle);
    assert_eq!(st.peers, 0);
    assert_eq!(st.uptime_s, 0);
    assert!(s.packet_log().is_empty());
}

#[test]
fn uptime_counts_whole_seconds_from_the_start() {
    let mut s = SharedState::new();
    s.mark_started(10_000);
    s.set_state(EngineState::Connected);
    s.set_peers(3);
    assert_eq!(s.elapsed_ms(12_999), 2_999);
    let st = s.status(12_999);
    assert_eq!(st.uptime_s, 2);
    assert_eq!(st.peers, 3);
    assert_eq!(st.state, EngineState::Connected);
    // A clock reading before the start never yields negative time.
    assert_eq!(s.elapsed_ms(5_000), 0);
}

#[test]
fn stopping_resets_everything() {
    let mut s = SharedState::new();
    s.mark_started(1);
    s.set_state(EngineState::Connected);
    s.set_peers(2);
    s.push_packets(&[entry(1), entry(2)]);
    assert_eq!(s.packet_log().len(), 2);
    s.mark_stopped();
    assert_eq!(s.state(), EngineState::Idle);
    assert_eq!(s.status(50_000).peers, 0);
    assert_eq!(s.status(50_000).uptime_s, 0);
    assert!(s.packet_log().is_empty());
}

#[test]
fn packet_log_keeps_the_newest_entries() {
    let mut s = SharedState::new();
    let batch: Vec<PacketLogEntry> = (0..(PACKET_LOG_CAP as u64 + 20)).map(entry).collect();
    s.push_packets(&batch);
    let log = s.packet_log();
    assert_eq!(log.len(), PACKET_LOG_CAP);
    assert_eq!(log[0].t_ms, 20);
    assert_eq!(log[PACKET_LOG_CAP - 1].t_ms, PACKET_LOG_CAP as u64 + 19);
}

use pcpvpn::connection::Role;
use pcpvpn::pipeline::handshake_role;
use pcpvpn::pipeline::resend_message_2;
use pcpvpn::connection::LinkState;
use pcpvpn::engine::EngineState;
use pcpvpn::packet_log::Direction;
use pcpvpn::pipeline::{
    admits_packet, connected_notice, ctrl_encode, decode_inner, dp_encode, fec_data_encode, handshake_failure, peer_display_fingerprint,
    pkt, Inner, LogBatch, INNER_PING, INNER_PONG, PACKET_LOG_BATCH_CAP,
};
use pcpvpn::split_tunnel::{SplitPolicy, TunConfig};
use pcpvpn::fec::rs::RsParity;
use pcpvpn::pipeline::{admits_downlink, inbound_entry, inject_outcome, Injected};

#[test]
fn control_payload_roundtrip() {
    let b = ctrl_encode(INNER_PING, 0x0102_0304_0506_0708);
    match decode_inner(&b) {
        Some(Inner::Ctrl(INNER_PING, seq)) => assert_eq!(seq, 0x0102_0304_0506_0708),
        _ => panic!("expected a ping control payload"),
    }
    assert!(matches!(decode_inner(&[INNER_PONG]), None));
}

#[test]
fn data_payload_roundtrip() {
    let ip = [0x45u8, 0x00, 0x00, 0x1c, 0xde, 0xad];
    let enc = dp_encode(&ip);
    match decode_inner(&enc) {
        Some(Inner::Data(body)) => assert_eq!(body, &ip),
        _ => panic!("expected a data payload"),
    }
}

#[test]
fn fec_data_payload_roundtrip() {
    let ip = [0x45u8, 1, 2, 3];
    let enc = fec_data_encode(0x0102_0304, 5, &ip);
    assert_eq!(&enc[..6], &[4, 1, 2, 3, 4, 5]);
    match decode_inner(&enc) {
        Some(Inner::FecData { group, index, ip: body }) => {
            assert_eq!((group, index), (0x0102_0304, 5));
            assert_eq!(body, &ip);
        }
        _ => panic!("expected a FEC data payload"),
    }
}

#[test]
fn admits_packet_gate_polarity_and_fail_closed() {
    let policy = SplitPolicy::from_tun(&TunConfig { virtual_ip: 0x0a4d_0001, prefix_len: 24, ..TunConfig::default() });
    let mut frame = [0u8; 20];
    frame[0] = 0x45;
    frame[16] = 10;
    frame[17] = 77;
    frame[18] = 0;
    frame[19] = 2;
    assert!(admits_packet(Some(&policy), &frame));
    frame[16] = 8;
    frame[17] = 8;
    frame[18] = 8;
    frame[19] = 8;
    assert!(!admits_packet(Some(&policy), &frame));
    frame[16] = 10;
    frame[17] = 77;
    frame[18] = 0;
    frame[19] = 2;
    assert!(!admits_packet(None, &frame));
}

#[test]
fn log_batch_is_bounded_and_reports_suppression() {
    let mut b = LogBatch::new();
    for i in 0..(PACKET_LOG_BATCH_CAP + 500) {
        b.push(pkt(0, Direction::Rx, "X".to_string(), i, String::new()));
    }
    let out = b.take(0);
    assert_eq!(out.len(), PACKET_LOG_BATCH_CAP + 1);
    assert_eq!(out.last().unwrap().proto, "LOG");
    assert!(out.last().unwrap().note.contains("500 further entries suppressed"));
    assert!(!b.has_content());
    assert!(b.take(0).is_empty());
}

#[test]
fn unknown_inner_kind_is_none() {
    assert!(matches!(decode_inner(&[0x00, 1, 2]), None));
    assert!(matches!(decode_inner(&[]), None));
}

#[test]
fn a_cancelled_handshake_is_an_orderly_disconnect() {
    let (link, state, notice) = handshake_failure(true, "interrupted");
    assert_eq!((link, state), (LinkState::Idle, EngineState::Idle));
    assert!(notice.is_none());
}

#[test]
fn a_failed_handshake_fails_the_link_and_says_why() {
    let (link, state, notice) = handshake_failure(false, "timed out");
    assert_eq!((link, state), (LinkState::Failed, EngineState::Error));
    let n = notice.unwrap();
    assert_eq!(n.code, "engine_error");
    assert_eq!(n.message, "Handshake failed: timed out");
}

#[test]
fn connected_notice_names_peer_and_endpoint() {
    let fp = peer_display_fingerprint(Some(vec![2u8; 32]));
    assert_eq!(fp, "PC-7587-7BB4-1D39-3B5F");
    assert_eq!(peer_display_fingerprint(None), "unknown");
    let n = connected_notice(&fp, 0xc0a8_0105, 51820);
    assert_eq!(n.code, "peer_connected");
    assert_eq!(n.message, "Connected to PC-7587-7BB4-1D39-3B5F via 192.168.1.5:51820");
}

#[test]
fn fec_parity_payload_roundtrip() {
    let p = RsParity { group: 7, k: 8, r: 2, index: 1, shard: vec![9, 8, 7] };
    let enc = pcpvpn::pipeline::fec_parity_encode(&p);
    assert_eq!(enc, vec![5, 0, 0, 0, 7, 8, 2, 1, 9, 8, 7]);
    match decode_inner(&enc) {
        Some(Inner::FecParity { group, k, r, index, q }) => {
            assert_eq!((group, k, r, index), (7, 8, 2, 1));
            assert_eq!(q, vec![9, 8, 7]);
        }
        _ => panic!("expected a parity payload"),
    }
}

#[test]
fn inbound_entries_say_what_happened_to_the_packet() {
    assert_eq!(inject_outcome(false, true), Injected::Blocked);
    assert_eq!(inject_outcome(true, true), Injected::Delivered);
    assert_eq!(inject_outcome(true, false), Injected::Queueless);
    let delivered = inbound_entry(5, Injected::Delivered, "UDP".to_string(), 60, "← peer".to_string());
    assert_eq!((delivered.proto.as_str(), delivered.note.as_str(), delivered.len), ("UDP", "← peer", 60));
    let blocked = inbound_entry(5, Injected::Blocked, "UDP".to_string(), 60, String::new());
    assert_eq!((blocked.proto.as_str(), blocked.note.as_str()), ("DROP", "split-tunnel blocked (inbound)"));
    let full = inbound_entry(5, Injected::Queueless, "UDP".to_string(), 60, String::new());
    assert_eq!(full.note, "adapter queue full — packet dropped");

    let policy = SplitPolicy::from_tun(&TunConfig { virtual_ip: 0x0a4d_0001, prefix_len: 24, ..TunConfig::default() });
    let mut frame = [0u8; 20];
    frame[0] = 0x45;
    frame[12..16].copy_from_slice(&[10, 77, 0, 2]);
    frame[16..20].copy_from_slice(&[10, 77, 0, 1]);
    assert!(admits_downlink(Some(&policy), &frame));
    assert!(!admits_downlink(None, &frame));
}

#[test]
fn a_link_without_a_role_cannot_handshake() {
    assert_eq!(handshake_role(Role::Idle), Err("no role negotiated — create or accept an offer first".to_string()));
    assert_eq!(handshake_role(Role::Initiator), Ok(Role::Initiator));
    assert_eq!(handshake_role(Role::Responder), Ok(Role::Responder));
}

#[test]
fn only_a_responder_re_sends_message_2_and_only_to_its_peer() {
    let m2 = vec![1u8, 2, 3];
    assert!(resend_message_2(Some(&m2), true));
    assert!(!resend_message_2(Some(&m2), false));
    assert!(!resend_message_2(None, true));
}

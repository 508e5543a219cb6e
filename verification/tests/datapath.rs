use pcpvpn::datapath::{DataPath, Downlink, Uplink, FEC_PARITY_SHARDS};
use pcpvpn::pipeline::{ctrl_encode, dp_encode, fec_parity_encode, FEC_GROUP_SIZE, INNER_PING, INNER_PONG};
use pcpvpn::split_tunnel::{SplitPolicy, TunConfig};

fn policy(last: u8) -> SplitPolicy {
    SplitPolicy::from_tun(&TunConfig {
        virtual_ip: u32::from_be_bytes([10, 77, 0, last]),
        prefix_len: 24,
        ..TunConfig::default()
    })
}

/// A minimal IPv4 packet from 10.77.0.`src` to `dst`, with `tag` as payload.
fn packet(src: u8, dst: [u8; 4], tag: u8) -> Vec<u8> {
    let mut f = vec![0u8; 24];
    f[0] = 0x45;
    f[9] = 17;
    f[12..16].copy_from_slice(&[10, 77, 0, src]);
    f[16..20].copy_from_slice(&dst);
    f[20] = tag;
    f
}

fn delivered(d: Downlink) -> Vec<(Vec<u8>, bool, bool)> {
    match d {
        Downlink::Deliver { packets } => packets.into_iter().map(|p| (p.ip, p.admitted, p.recovered)).collect(),
        _ => panic!("expected packets for the adapter"),
    }
}

#[test]
fn control_only_link_blocks_every_uplink_packet() {
    let mut dp = DataPath::new(None, false);
    assert!(matches!(dp.uplink(&packet(1, [10, 77, 0, 2], 0)), Uplink::Blocked));
    // A data payload still decodes, but nothing is admitted onto the adapter.
    let got = delivered(dp.downlink(&dp_encode(&packet(2, [10, 77, 0, 1], 7))));
    assert_eq!(got.len(), 1);
    assert!(!got[0].1);
}

#[test]
fn uplink_outside_the_virtual_lan_is_blocked() {
    let mut dp = DataPath::new(Some(policy(1)), true);
    assert!(matches!(dp.uplink(&packet(1, [8, 8, 8, 8], 0)), Uplink::Blocked));
}

#[test]
fn plain_uplink_frames_the_packet() {
    let mut dp = DataPath::new(Some(policy(1)), false);
    let ip = packet(1, [10, 77, 0, 2], 3);
    match dp.uplink(&ip) {
        Uplink::Plain { payload } => assert_eq!(payload, dp_encode(&ip)),
        _ => panic!("expected a plain data payload"),
    }
}

#[test]
fn pings_are_answered_and_pongs_reported() {
    let mut dp = DataPath::new(Some(policy(1)), true);
    match dp.downlink(&ctrl_encode(INNER_PING, 42)) {
        Downlink::Ping { seq, reply } => {
            assert_eq!(seq, 42);
            assert_eq!(reply, ctrl_encode(INNER_PONG, 42).to_vec());
        }
        _ => panic!("expected a ping"),
    }
    assert!(matches!(dp.downlink(&ctrl_encode(INNER_PONG, 7)), Downlink::Pong { seq: 7 }));
    assert!(matches!(dp.downlink(&[]), Downlink::Ignore));
    assert!(matches!(dp.downlink(&[9, 1, 2]), Downlink::Ignore));
}

#[test]
fn fec_recovers_a_dropped_packet_across_two_links() {
    let mut a = DataPath::new(Some(policy(1)), true);
    let mut b = DataPath::new(Some(policy(2)), true);
    let mut data_payloads = Vec::new();
    let mut parity_payloads = Vec::new();
    for i in 0..FEC_GROUP_SIZE {
        match a.uplink(&packet(1, [10, 77, 0, 2], i)) {
            Uplink::Fec { group, index, payload, parity } => {
                assert_eq!(group, 0);
                assert_eq!(index, i);
                if i + 1 < FEC_GROUP_SIZE {
                    assert!(parity.is_empty());
                } else {
                    assert_eq!(parity.len(), FEC_PARITY_SHARDS as usize);
                }
                data_payloads.push(payload);
                parity_payloads.extend(parity.iter().map(fec_parity_encode));
            }
            _ => panic!("expected a FEC data payload"),
        }
    }
    // Packet 3 is lost in transit.
    for (i, p) in data_payloads.iter().enumerate() {
        if i == 3 {
            continue;
        }
        let got = delivered(b.downlink(p));
        assert_eq!(got.len(), 1);
        assert_eq!(got[0].0, packet(1, [10, 77, 0, 2], i as u8));
        assert!(got[0].1);
        assert!(!got[0].2);
    }
    let got = delivered(b.downlink(&parity_payloads[0]));
    assert_eq!(got.len(), 1);
    assert_eq!(got[0].0, packet(1, [10, 77, 0, 2], 3));
    assert!(got[0].1);
    assert!(got[0].2);
}

#[test]
fn flush_closes_a_partial_group() {
    let mut a = DataPath::new(Some(policy(1)), true);
    assert!(a.flush().is_empty());
    let _ = a.uplink(&packet(1, [10, 77, 0, 2], 0));
    let _ = a.uplink(&packet(1, [10, 77, 0, 2], 1));
    let parity = a.flush();
    assert_eq!(parity.len(), 1);
    assert_eq!(parity[0].k, 2);
    assert_eq!(parity[0].group, 0);
    match a.uplink(&packet(1, [10, 77, 0, 2], 2)) {
        Uplink::Fec { group, index, .. } => {
            assert_eq!(group, 1);
            assert_eq!(index, 0);
        }
        _ => panic!("expected a FEC data payload"),
    }
    let mut plain = DataPath::new(Some(policy(1)), false);
    assert!(plain.flush().is_empty());
}

use pcpvpn::split_tunnel::{dst_ipv4, src_ipv4, Decision, Ipv4Cidr, SplitPolicy, TunConfig, BROADCAST};

fn ip(a: u8, b: u8, c: u8, d: u8) -> u32 {
    u32::from_be_bytes([a, b, c, d])
}

fn policy() -> SplitPolicy {
    SplitPolicy::from_tun(&TunConfig { virtual_ip: ip(10, 77, 0, 1), prefix_len: 24, ..TunConfig::default() })
}

fn frame(src: [u8; 4], dst: [u8; 4]) -> [u8; 20] {
    let mut f = [0u8; 20];
    f[0] = 0x45;
    f[12..16].copy_from_slice(&src);
    f[16..20].copy_from_slice(&dst);
    f
}

#[test]
fn cidr_contains_respects_prefix() {
    let c = Ipv4Cidr { addr: ip(10, 77, 0, 0), prefix: 24 };
    assert!(c.contains(ip(10, 77, 0, 5)));
    assert!(c.contains(ip(10, 77, 0, 254)));
    assert!(!c.contains(ip(10, 77, 1, 5)));
    let host = Ipv4Cidr { addr: ip(1, 2, 3, 4), prefix: 32 };
    assert!(host.contains(ip(1, 2, 3, 4)));
    assert!(!host.contains(ip(1, 2, 3, 5)));
    let all = Ipv4Cidr { addr: 0, prefix: 0 };
    assert!(all.contains(ip(8, 8, 8, 8)));
}

#[test]
fn from_tun_derives_subnet_and_broadcast() {
    let p = policy();
    assert_eq!(p.subnet_broadcast(), ip(10, 77, 0, 255));
    assert_eq!(p.included()[0].addr, ip(10, 77, 0, 0));
    assert_eq!(p.included()[0].prefix, 24);
}

#[test]
fn from_tun_handles_non_24_prefixes() {
    let p16 = SplitPolicy::from_tun(&TunConfig { virtual_ip: ip(10, 77, 0, 1), prefix_len: 16, ..TunConfig::default() });
    assert_eq!(p16.included()[0].addr, ip(10, 77, 0, 0));
    assert_eq!(p16.included()[0].prefix, 16);
    assert_eq!(p16.subnet_broadcast(), ip(10, 77, 255, 255));
    assert_eq!(p16.classify(ip(10, 77, 200, 5)), Decision::Tunnel);
    let p25 = SplitPolicy::from_tun(&TunConfig { virtual_ip: ip(10, 77, 0, 130), prefix_len: 25, ..TunConfig::default() });
    assert_eq!(p25.included()[0].addr, ip(10, 77, 0, 128));
    assert_eq!(p25.subnet_broadcast(), ip(10, 77, 0, 255));
    assert_eq!(p25.classify(ip(10, 77, 0, 5)), Decision::Drop);
}

#[test]
fn nonsensical_prefix_fails_closed_not_open() {
    for bad in [0u8, 1, 7, 33, 255] {
        let p = SplitPolicy::from_tun(&TunConfig { virtual_ip: ip(10, 77, 0, 1), prefix_len: bad, ..TunConfig::default() });
        assert_eq!(p.included()[0].prefix, 32, "prefix {bad} must clamp to /32");
        assert_eq!(p.classify(ip(8, 8, 8, 8)), Decision::Drop);
        assert_eq!(p.classify(ip(10, 77, 0, 1)), Decision::Tunnel);
    }
}

#[test]
fn classifies_unicast_by_subnet() {
    let p = policy();
    assert_eq!(p.classify(ip(10, 77, 0, 2)), Decision::Tunnel);
    assert_eq!(p.classify(ip(10, 77, 1, 2)), Decision::Drop);
    assert_eq!(p.classify(ip(8, 8, 8, 8)), Decision::Drop);
}

#[test]
fn forwards_broadcast_and_multicast_when_enabled() {
    let p = policy();
    assert_eq!(p.classify(BROADCAST), Decision::Tunnel);
    assert_eq!(p.classify(ip(10, 77, 0, 255)), Decision::Tunnel);
    assert_eq!(p.classify(ip(224, 0, 0, 251)), Decision::Tunnel);
}

#[test]
fn toggles_gate_broadcast_and_multicast() {
    let p = policy().forward_broadcast(false);
    assert_eq!(p.classify(ip(10, 77, 0, 255)), Decision::Drop);
    assert_eq!(p.classify(BROADCAST), Decision::Drop);
    assert_eq!(p.classify(ip(224, 0, 0, 251)), Decision::Tunnel);
    let p = p.forward_multicast(false);
    assert_eq!(p.classify(ip(224, 0, 0, 251)), Decision::Drop);
    assert_eq!(p.classify(ip(10, 77, 0, 9)), Decision::Tunnel);
}

#[test]
fn dst_ipv4_parses_and_rejects() {
    let mut f = [0u8; 20];
    f[0] = 0x45;
    f[16] = 10;
    f[17] = 77;
    f[18] = 0;
    f[19] = 2;
    assert_eq!(dst_ipv4(&f), Some(ip(10, 77, 0, 2)));
    assert_eq!(dst_ipv4(&f[..19]), None);
    let mut v6 = [0u8; 40];
    v6[0] = 0x60;
    assert_eq!(dst_ipv4(&v6), None);
    assert_eq!(dst_ipv4(&[]), None);
    assert_eq!(src_ipv4(&frame([1, 2, 3, 4], [5, 6, 7, 8])), Some(ip(1, 2, 3, 4)));
}

#[test]
fn inbound_rejects_spoofed_sources() {
    let p = policy();
    assert!(p.admits_inbound(&frame([10, 77, 0, 2], [10, 77, 0, 1])));
    assert!(!p.admits_inbound(&frame([127, 0, 0, 1], [10, 77, 0, 1])));
    assert!(!p.admits_inbound(&frame([10, 77, 0, 1], [10, 77, 0, 1])));
    assert!(!p.admits_inbound(&frame([8, 8, 8, 8], [10, 77, 0, 1])));
}

#[test]
fn inbound_restricts_destinations_to_us_or_group_traffic() {
    let p = policy();
    let peer = [10, 77, 0, 2];
    assert!(p.admits_inbound(&frame(peer, [10, 77, 0, 1])));
    assert!(p.admits_inbound(&frame(peer, [10, 77, 0, 255])));
    assert!(p.admits_inbound(&frame(peer, [255, 255, 255, 255])));
    assert!(p.admits_inbound(&frame(peer, [224, 0, 0, 251])));
    assert!(!p.admits_inbound(&frame(peer, [10, 77, 0, 99])));
    assert!(!p.admits_inbound(&frame(peer, [8, 8, 8, 8])));
    assert!(!p.admits_inbound(&[0x60; 40]));
    assert!(!p.admits_inbound(&[]));
}

#[test]
fn inbound_honours_the_broadcast_and_multicast_toggles() {
    let p = policy().forward_broadcast(false);
    let peer = [10, 77, 0, 2];
    assert!(!p.admits_inbound(&frame(peer, [10, 77, 0, 255])));
    assert!(p.admits_inbound(&frame(peer, [224, 0, 0, 251])));
    let p = p.forward_multicast(false);
    assert!(!p.admits_inbound(&frame(peer, [224, 0, 0, 251])));
    assert!(p.admits_inbound(&frame(peer, [10, 77, 0, 1])));
}

#[test]
fn forward_broadcast_setter_disables_broadcast_forwarding() {
    let p = policy().forward_broadcast(false);
    assert_eq!(p.classify(ip(10, 77, 0, 255)), Decision::Drop);
    assert_eq!(p.classify(BROADCAST), Decision::Drop);
    assert_eq!(p.classify(ip(224, 0, 0, 251)), Decision::Tunnel);
}

#[test]
fn forward_multicast_setter_disables_multicast_forwarding() {
    let p = policy().forward_multicast(false);
    assert_eq!(p.classify(ip(224, 0, 0, 251)), Decision::Drop);
    assert_eq!(p.classify(ip(10, 77, 0, 255)), Decision::Tunnel);
}

#[test]
fn admits_full_frames() {
    let p = policy();
    let mut f = [0u8; 20];
    f[0] = 0x45;
    f[16] = 10;
    f[17] = 77;
    f[18] = 0;
    f[19] = 2;
    assert!(p.admits(&f));
    f[18] = 9;
    assert!(!p.admits(&f));
    let mut v6 = [0u8; 40];
    v6[0] = 0x60;
    assert!(!p.admits(&v6));
}

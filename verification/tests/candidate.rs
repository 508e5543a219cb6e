use pcpvpn::candidate::{format_endpoint, gathered, is_socket_addr_text, parse_endpoint, parse_peer_addr, CandidateKind, PeerAddr};

#[test]
fn formats_dotted_quad_and_port() {
    assert_eq!(format_endpoint(0xc0a8_0105, 51820), "192.168.1.5:51820");
    assert_eq!(format_endpoint(0, 0), "0.0.0.0:0");
    assert_eq!(format_endpoint(u32::MAX, u16::MAX), "255.255.255.255:65535");
}

#[test]
fn parses_what_it_formats() {
    for (ip, port) in [(0u32, 0u16), (0x0a4d_0001, 51820), (0xffff_ffff, 65535), (0x7f00_0001, 1)] {
        assert_eq!(parse_endpoint(&format_endpoint(ip, port)), Some((ip, port)));
    }
}

#[test]
fn parses_like_the_standard_socket_address_grammar() {
    assert_eq!(parse_endpoint("203.0.113.9:40000"), Some((0xcb00_7109, 40000)));
    assert_eq!(parse_endpoint("1.2.3.4:0080"), Some((0x0102_0304, 80)));
    assert_eq!(parse_endpoint("1.2.3.4:65536"), None);
    assert_eq!(parse_endpoint("01.2.3.4:80"), None);
    assert_eq!(parse_endpoint("256.2.3.4:80"), None);
    assert_eq!(parse_endpoint("1.2.3:80"), None);
    assert_eq!(parse_endpoint("1.2.3.4.5:80"), None);
    assert_eq!(parse_endpoint("1.2.3.4"), None);
    assert_eq!(parse_endpoint("1.2.3.4:"), None);
    assert_eq!(parse_endpoint("1.2.3.4:80:1"), None);
    assert_eq!(parse_endpoint(" 1.2.3.4:80"), None);
    assert_eq!(parse_endpoint("not-an-address"), None);
    assert_eq!(parse_endpoint(""), None);
}

#[test]
fn kind_names() {
    assert_eq!(CandidateKind::Host.as_str(), "host");
    assert_eq!(CandidateKind::Reflexive.as_str(), "reflexive");
}

#[test]
fn gathering_lists_host_then_reflexive() {

    let v = gathered(51820, Some(0xc0a8_0105), Some((0xcb00_7109, 40000)));
    assert_eq!(v.len(), 2);
    assert_eq!((v[0].ip, v[0].port, v[0].kind), (0xc0a8_0105, 51820, CandidateKind::Host));
    assert_eq!((v[1].ip, v[1].port, v[1].kind), (0xcb00_7109, 40000, CandidateKind::Reflexive));
    assert!(gathered(1, None, None).is_empty());
    assert_eq!(gathered(1, None, Some((5, 6)))[0].kind, CandidateKind::Reflexive);
}

#[test]
fn socket_address_text_takes_ipv4_and_ipv6_forms() {
    for ok in [
        "1.2.3.4:5",
        "[::1]:9",
        "[::]:80",
        "[fe80::1%2]:5",
        "[1:2:3:4:5:6:7:8]:1",
        "[::ffff:1.2.3.4]:9",
        "[1:2:3:4:5:6:1.2.3.4]:9",
        "[1:2:3:4:5:6:7::]:9",
        "[::1:2:3:4:5:6:7]:9",
        "[ABCD:ef01::]:00065535",
        "[::1%4294967295]:1",
    ] {
        assert!(is_socket_addr_text(ok), "{ok}");
    }
    for bad in [
        "[::1]",
        "::1:9",
        "[::1]:65536",
        "[1.2.3.4::]:9",
        "[12345::]:9",
        "[1:2:3:4:5:6:7:8:9]:1",
        "[1::2::3]:1",
        "[::1%]:9",
        "[::1%4294967296]:1",
        "[::01.2.3.4]:9",
        "[::1.2.3.04]:9",
        "[1:2:3:4:5:6:7:1.2.3.4]:9",
        "[::1::]:9",
        "[]:9",
        "1.2.3.4",
        "not-an-address",
    ] {
        assert!(!is_socket_addr_text(bad), "{bad}");
    }
}

#[test]
fn socket_addresses_parse_to_their_values() {
    assert_eq!(parse_peer_addr("10.0.0.2:5000"), Some(PeerAddr::V4(0x0a00_0002, 5000)));
    assert_eq!(parse_peer_addr("[::1]:9"), Some(PeerAddr::V6 { ip: 1, port: 9, scope: 0 }));
    assert_eq!(
        parse_peer_addr("[2001:db8::8:1]:80"),
        Some(PeerAddr::V6 { ip: 0x2001_0db8_0000_0000_0000_0000_0008_0001, port: 80, scope: 0 })
    );
    assert_eq!(
        parse_peer_addr("[1:2:3:4:5:6:7:8%42]:65535"),
        Some(PeerAddr::V6 { ip: 0x0001_0002_0003_0004_0005_0006_0007_0008, port: 65535, scope: 42 })
    );
    assert_eq!(parse_peer_addr("[::]:0"), Some(PeerAddr::V6 { ip: 0, port: 0, scope: 0 }));
    assert_eq!(parse_peer_addr("[1::2:3.4.5.6]:7"), Some(PeerAddr::V6 { ip: (1u128 << 112) | (2 << 32) | 0x0304_0506, port: 7, scope: 0 }));
    assert_eq!(parse_peer_addr("::1:9"), None);
    assert_eq!(parse_peer_addr("[::1]"), None);
    assert_eq!(parse_peer_addr("not-an-address"), None);
}

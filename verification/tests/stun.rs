use pcpvpn::stun::{build_request, parse_response, ATTR_MAPPED_ADDRESS, ATTR_XOR_MAPPED_ADDRESS, BINDING_SUCCESS, STUN_MAGIC_COOKIE};

fn success(txid: &[u8; 12], attr_type: u16, value: &[u8]) -> Vec<u8> {
    let mut msg = Vec::new();
    msg.extend_from_slice(&BINDING_SUCCESS.to_be_bytes());
    msg.extend_from_slice(&((4 + value.len()) as u16).to_be_bytes());
    msg.extend_from_slice(&STUN_MAGIC_COOKIE.to_be_bytes());
    msg.extend_from_slice(txid);
    msg.extend_from_slice(&attr_type.to_be_bytes());
    msg.extend_from_slice(&(value.len() as u16).to_be_bytes());
    msg.extend_from_slice(value);
    msg
}

#[test]
fn parses_xor_mapped_address() {
    let txid = [9u8; 12];
    let ip: u32 = 0xcb00_7105; // 203.0.113.5
    let port: u16 = 50000;
    let xport = port ^ (STUN_MAGIC_COOKIE >> 16) as u16;
    let xaddr = ip ^ STUN_MAGIC_COOKIE;
    let mut value = vec![0x00, 0x01];
    value.extend_from_slice(&xport.to_be_bytes());
    value.extend_from_slice(&xaddr.to_be_bytes());
    let msg = success(&txid, ATTR_XOR_MAPPED_ADDRESS, &value);
    assert_eq!(parse_response(&msg, &txid), Some((ip, port)));
}

#[test]
fn rejects_wrong_txid() {
    let txid = [1u8; 12];
    let mut msg = Vec::new();
    msg.extend_from_slice(&BINDING_SUCCESS.to_be_bytes());
    msg.extend_from_slice(&0u16.to_be_bytes());
    msg.extend_from_slice(&STUN_MAGIC_COOKIE.to_be_bytes());
    msg.extend_from_slice(&[2u8; 12]);
    assert!(parse_response(&msg, &txid).is_none());
}

#[test]
fn parses_a_plain_mapped_address_after_an_unknown_padded_attribute() {
    let txid = [3u8; 12];
    let mut msg = Vec::new();
    msg.extend_from_slice(&BINDING_SUCCESS.to_be_bytes());
    msg.extend_from_slice(&(8u16 + 12).to_be_bytes());
    msg.extend_from_slice(&STUN_MAGIC_COOKIE.to_be_bytes());
    msg.extend_from_slice(&txid);
    // SOFTWARE attribute, 3 bytes of value padded to 4.
    msg.extend_from_slice(&0x8022u16.to_be_bytes());
    msg.extend_from_slice(&3u16.to_be_bytes());
    msg.extend_from_slice(b"abc\0");
    msg.extend_from_slice(&ATTR_MAPPED_ADDRESS.to_be_bytes());
    msg.extend_from_slice(&8u16.to_be_bytes());
    msg.extend_from_slice(&[0x00, 0x01, 0x1f, 0x90, 198, 51, 100, 7]);
    assert_eq!(parse_response(&msg, &txid), Some((0xc633_6407, 8080)));
}

#[test]
fn rejects_short_messages_ipv6_and_truncated_attributes() {
    let txid = [4u8; 12];
    assert!(parse_response(&[0u8; 19], &txid).is_none());
    let v6 = success(&txid, ATTR_XOR_MAPPED_ADDRESS, &[0x00, 0x02, 0, 0, 0, 0, 0, 0]);
    assert!(parse_response(&v6, &txid).is_none());
    let mut truncated = success(&txid, ATTR_MAPPED_ADDRESS, &[0x00, 0x01, 0, 80, 1, 2, 3, 4]);
    truncated.truncate(truncated.len() - 2);
    assert!(parse_response(&truncated, &txid).is_none());
    let mut not_success = success(&txid, ATTR_MAPPED_ADDRESS, &[0x00, 0x01, 0, 80, 1, 2, 3, 4]);
    not_success[1] = 0x11;
    assert!(parse_response(&not_success, &txid).is_none());
}

#[test]
fn build_request_is_a_bare_binding_request() {
    let txid = [7u8; 12];
    let b = build_request(&txid);
    assert_eq!(b.len(), 20);
    assert_eq!(&b[0..2], &[0x00, 0x01]);
    assert_eq!(&b[2..4], &[0x00, 0x00]);
    assert_eq!(&b[4..8], &STUN_MAGIC_COOKIE.to_be_bytes());
    assert_eq!(&b[8..20], &txid);
}

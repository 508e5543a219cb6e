use pcpvpn::candidate::{Candidate, CandidateKind};
use pcpvpn::connection::{LinkState, PeerTable};
use pcpvpn::candidate::PeerAddr;
use pcpvpn::mesh::{
    advertisable_addr, decode_envelope_peer, member_snapshots, new_sid, next_retry_delay_ms, parse_relay_addr, should_initiate,
    wire_candidates,
    MeshError, MeshState, RelayedAction, INITIAL_RETRY_DELAY_MS, MAX_RETRY_DELAY_MS,
};
use pcpvpn::signaling::message::{SignalEnvelope, SignalKind, WireCandidate, PROTOCOL_VERSION};
use pcpvpn::signaling::protocol::MemberInfo;

const PK_A: &str = "AQEBAQEBAQEBAQEBAQEBAQEBAQEBAQEBAQEBAQEBAQE=";
const PK_B: &str = "AgICAgICAgICAgICAgICAgICAgICAgICAgICAgICAgI=";

fn member(pk: &str) -> MemberInfo {
    MemberInfo { pubkey: pk.to_string(), fingerprint: format!("fp-{}", &pk[..4]) }
}

fn local() -> Vec<Candidate> {
    vec![Candidate { ip: 0x7f00_0001, port: 40000, kind: CandidateKind::Host }]
}

fn envelope(kind: SignalKind, sid: &str, pk: &str, addr: &str) -> SignalEnvelope {
    SignalEnvelope {
        v: PROTOCOL_VERSION,
        kind,
        sid: sid.to_string(),
        pk: pk.to_string(),
        cands: vec![WireCandidate { a: addr.to_string(), k: "host".to_string() }],
    }
}

#[test]
fn should_initiate_picks_exactly_one_side_of_a_pair() {
    assert!(should_initiate("aaa", "bbb"));
    assert!(!should_initiate("bbb", "aaa"));
    assert!(!should_initiate("same", "same"));
}

#[test]
fn a_proper_prefix_sorts_first() {
    assert!(should_initiate("ab", "abc"));
    assert!(!should_initiate("abc", "ab"));
    assert!(should_initiate("", "a"));
}

#[test]
fn advertisable_addr_resolves_unspecified_ip() {
    let (ip, port) = advertisable_addr(0, 51820, Some(0xc0a8_012a));
    assert_ne!(ip, 0);
    assert_eq!((ip, port), (0xc0a8_012a, 51820));
    assert_eq!(advertisable_addr(0, 51820, None), (0x7f00_0001, 51820));
}

#[test]
fn advertisable_addr_leaves_a_concrete_ip_unchanged() {
    assert_eq!(advertisable_addr(0xc0a8_012a, 51820, Some(0x0a00_0001)), (0xc0a8_012a, 51820));
}

#[test]
fn retry_delay_doubles_up_to_thirty_seconds() {
    assert_eq!(INITIAL_RETRY_DELAY_MS, 2000);
    assert_eq!(next_retry_delay_ms(2000), 4000);
    assert_eq!(next_retry_delay_ms(8000), 16000);
    assert_eq!(next_retry_delay_ms(16000), MAX_RETRY_DELAY_MS);
    assert_eq!(next_retry_delay_ms(MAX_RETRY_DELAY_MS), 30000);
    assert_eq!(next_retry_delay_ms(u64::MAX), 30000);
}

#[test]
fn session_ids_are_base64_of_sixteen_bytes() {
    let a = new_sid();
    assert_eq!(a.len(), 24);
    assert!(a.ends_with("=="));
    assert_ne!(a, new_sid());
}

#[test]
fn wire_candidates_write_address_and_kind() {
    let w = wire_candidates(&[
        Candidate { ip: 0xc0a8_0105, port: 51820, kind: CandidateKind::Host },
        Candidate { ip: 0xcb00_7109, port: 40000, kind: CandidateKind::Reflexive },
    ]);
    assert_eq!(w[0], WireCandidate { a: "192.168.1.5:51820".to_string(), k: "host".to_string() });
    assert_eq!(w[1], WireCandidate { a: "203.0.113.9:40000".to_string(), k: "reflexive".to_string() });
}

#[test]
fn on_member_present_is_idempotent_per_peer() {
    let mut m = MeshState::new();
    let first = m.on_member_present(&member(PK_B), PK_A, &local());
    assert!(first.is_some(), "the smaller key initiates");
    let again = m.on_member_present(&member(PK_B), PK_A, &local());
    assert!(again.is_none(), "a member seen before sends nothing");
    assert_eq!(m.roster().len(), 1);
}

#[test]
fn the_larger_key_waits_for_the_offer() {
    let mut m = MeshState::new();
    assert!(m.on_member_present(&member(PK_A), PK_B, &local()).is_none());
    assert_eq!(m.roster(), vec![member(PK_A)]);
}

#[test]
fn an_offer_is_answered_with_the_same_session_and_our_key() {
    let mut m = MeshState::new();
    let offer = envelope(SignalKind::Offer, "sid-1", PK_B, "10.0.0.2:5000");
    match m.on_relayed(&PK_B.to_string(), &offer, PK_A, &local()).unwrap() {
        RelayedAction::Answer { answer, peer_public, peer_candidates } => {
            assert_eq!(answer.kind, SignalKind::Answer);
            assert_eq!(answer.sid, "sid-1");
            assert_eq!(answer.pk, PK_A);
            assert_eq!(answer.cands[0].a, "127.0.0.1:40000");
            assert_eq!(peer_public, vec![2u8; 32]);
            assert_eq!(peer_candidates, vec![PeerAddr::V4(0x0a00_0002, 5000)]);
        }
        other => panic!("unexpected {other:?}"),
    }
}

#[test]
fn an_answer_must_match_the_pending_offer() {
    let mut m = MeshState::new();
    let offer = m.on_member_present(&member(PK_B), PK_A, &local()).unwrap();
    m.offer_sent(&PK_B.to_string(), offer.sid.clone());
    let wrong = envelope(SignalKind::Answer, "other", PK_B, "10.0.0.2:5000");
    assert!(matches!(m.on_relayed(&PK_B.to_string(), &wrong, PK_A, &local()), Err(MeshError::SessionMismatch)));
    // The pending offer was consumed by the mismatching answer.
    let right = envelope(SignalKind::Answer, &offer.sid, PK_B, "10.0.0.2:5000");
    assert!(matches!(m.on_relayed(&PK_B.to_string(), &right, PK_A, &local()), Err(MeshError::UnexpectedAnswer)));
}

#[test]
fn a_matching_answer_connects_as_initiator() {
    let mut m = MeshState::new();
    let offer = m.on_member_present(&member(PK_B), PK_A, &local()).unwrap();
    m.offer_sent(&PK_B.to_string(), offer.sid.clone());
    let answer = envelope(SignalKind::Answer, &offer.sid, PK_B, "10.0.0.2:5000");
    match m.on_relayed(&PK_B.to_string(), &answer, PK_A, &local()).unwrap() {
        RelayedAction::Connect { peer_public, peer_candidates } => {
            assert_eq!(peer_public, vec![2u8; 32]);
            assert_eq!(peer_candidates, vec![PeerAddr::V4(0x0a00_0002, 5000)]);
        }
        other => panic!("unexpected {other:?}"),
    }
}

#[test]
fn a_leaving_member_is_forgotten_with_its_pending_offer() {
    let mut m = MeshState::new();
    let offer = m.on_member_present(&member(PK_B), PK_A, &local()).unwrap();
    m.offer_sent(&PK_B.to_string(), offer.sid.clone());
    m.on_left(PK_B);
    assert!(m.roster().is_empty());
    let answer = envelope(SignalKind::Answer, &offer.sid, PK_B, "10.0.0.2:5000");
    assert!(matches!(m.on_relayed(&PK_B.to_string(), &answer, PK_A, &local()), Err(MeshError::UnexpectedAnswer)));
    assert!(m.on_member_present(&member(PK_B), PK_A, &local()).is_some(), "a rejoining member is offered again");
}

#[test]
fn malformed_envelopes_are_reported() {
    let bad_key = envelope(SignalKind::Offer, "s", "%%%", "10.0.0.2:5000");
    match decode_envelope_peer(&bad_key) {
        Err(MeshError::MalformedEnvelope(m)) => assert!(m.starts_with("public key: ")),
        other => panic!("unexpected {other:?}"),
    }
    let bad_addr = envelope(SignalKind::Offer, "s", PK_B, "not-an-address");
    match decode_envelope_peer(&bad_addr) {
        Err(MeshError::MalformedEnvelope(m)) => assert_eq!(m, "candidate address 'not-an-address'"),
        other => panic!("unexpected {other:?}"),
    }
    assert_eq!(
        MeshError::MalformedEnvelope("x".to_string()).message(),
        "malformed relayed envelope: x"
    );
    assert_eq!(MeshError::UnexpectedAnswer.message(), "received an answer with no matching pending offer");
}

#[test]
fn member_snapshots_read_live_link_states() {
    let mut links = PeerTable::new();
    links.begin_connect(&PK_B.to_string()).unwrap();
    let roster = vec![member(PK_A), member(PK_B)];
    let snaps = member_snapshots(&roster, &links);
    assert_eq!(snaps.len(), 2);
    assert_eq!(snaps[0].link, LinkState::Idle);
    assert_eq!(snaps[1].link, LinkState::Connecting);
    assert_eq!(snaps[1].fingerprint, roster[1].fingerprint);
}

#[test]
fn the_roster_keeps_the_order_members_were_seen_in() {
    const PK_C: &str = "AwMDAwMDAwMDAwMDAwMDAwMDAwMDAwMDAwMDAwMDAwM=";
    let mut m = MeshState::new();
    let _ = m.on_member_present(&member(PK_C), PK_A, &local());
    let _ = m.on_member_present(&member(PK_B), PK_A, &local());
    let _ = m.on_member_present(&member(PK_C), PK_A, &local());
    assert_eq!(m.roster(), vec![member(PK_C), member(PK_B)]);
    m.on_left(PK_C);
    let _ = m.on_member_present(&member(PK_C), PK_A, &local());
    assert_eq!(m.roster(), vec![member(PK_B), member(PK_C)]);
}

#[test]
fn a_blank_relay_field_means_no_relay() {
    assert_eq!(parse_relay_addr(None), Ok(None));
    assert_eq!(parse_relay_addr(Some("   ".to_string())), Ok(None));
    assert_eq!(parse_relay_addr(Some("203.0.113.9:9420".to_string())), Ok(Some(PeerAddr::V4(0xcb00_7109, 9420))));
    assert_eq!(
        parse_relay_addr(Some("[2001:db8::1]:9420".to_string())),
        Ok(Some(PeerAddr::V6 { ip: 0x2001_0db8_0000_0000_0000_0000_0000_0001, port: 9420, scope: 0 }))
    );
    assert_eq!(
        parse_relay_addr(Some("relay.example".to_string())),
        Err("invalid relay address: invalid socket address syntax".to_string())
    );
}

#[test]
fn ending_a_session_hands_back_every_member_seen_and_starts_over() {
    let mut m = MeshState::new();
    let _ = m.on_member_present(&member(PK_B), PK_A, &local());
    let offer = m.on_member_present(&member(PK_A), PK_B, &local());
    assert!(offer.is_none());
    let stale = m.end_session();
    assert_eq!(stale, vec![PK_B.to_string(), PK_A.to_string()]);
    assert!(m.roster().is_empty());
    assert!(m.on_member_present(&member(PK_B), PK_A, &local()).is_some(), "a member is offered again after a reconnect");
}

#[test]
fn ipv6_candidates_are_decoded_to_their_address() {
    let offer = envelope(SignalKind::Offer, "s", PK_B, "[fe80::1%3]:443");
    let (pk, cands) = decode_envelope_peer(&offer).unwrap();
    assert_eq!(pk, vec![2u8; 32]);
    assert_eq!(cands, vec![PeerAddr::V6 { ip: (0xfe80u128 << 112) | 1, port: 443, scope: 3 }]);
    let mapped = envelope(SignalKind::Offer, "s", PK_B, "[::ffff:10.0.0.2]:5000");
    let (_pk, cands) = decode_envelope_peer(&mapped).unwrap();
    assert_eq!(cands, vec![PeerAddr::V6 { ip: 0xffff_0a00_0002, port: 5000, scope: 0 }]);
}

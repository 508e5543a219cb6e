use pcpvpn::signaling::message::SignalKind;
use pcpvpn::candidate::PeerAddr;
use pcpvpn::candidate::PeerAddr::V4;
use pcpvpn::connection::{expect_kind, normalize_candidates, ConnectRefusal, ConnectionSettings, LinkState, NegotiatedPeer, Negotiation, PeerTable, Role};

fn key(b: u8) -> String {
    format!("peer-{b}")
}

#[test]
fn connection_settings_default_matches_pre_b3_hardcoded_behaviour() {
    let s = ConnectionSettings::default();
    assert!(s.forward_broadcast);
    assert!(s.forward_multicast);
    assert_eq!(s.fec_parity_shards, 1);
}

#[test]
fn link_state_of_an_untracked_key_is_idle() {
    let table = PeerTable::new();
    assert_eq!(table.link_state_of(&key(9)), LinkState::Idle);
}

#[test]
fn two_different_peers_can_be_connecting_at_once() {
    let mut table = PeerTable::new();
    assert!(table.begin_connect(&key(1)).is_ok());
    assert!(table.begin_connect(&key(2)).is_ok());
    assert_eq!(table.link_state_of(&key(1)), LinkState::Connecting);
    assert_eq!(table.link_state_of(&key(2)), LinkState::Connecting);
}

#[test]
fn reconnecting_to_an_active_peer_is_refused_until_it_fails() {
    let mut table = PeerTable::new();
    table.begin_connect(&key(1)).unwrap();
    assert_eq!(table.begin_connect(&key(1)), Err(ConnectRefusal::AlreadyActive));
    table.set_state(&key(1), LinkState::Connected);
    assert_eq!(table.begin_connect(&key(1)), Err(ConnectRefusal::AlreadyActive));
    table.set_state(&key(1), LinkState::Failed);
    assert!(table.begin_connect(&key(1)).is_ok());
    assert_eq!(table.link_state_of(&key(1)), LinkState::Connecting);
}

#[test]
fn removing_one_peer_leaves_another_untouched() {
    let mut table = PeerTable::new();
    table.begin_connect(&key(1)).unwrap();
    table.begin_connect(&key(2)).unwrap();
    table.set_state(&key(2), LinkState::Connected);
    table.remove(&key(1));
    assert_eq!(table.link_state_of(&key(1)), LinkState::Idle);
    assert_eq!(table.link_state_of(&key(2)), LinkState::Connected);
}

#[test]
fn peer_link_states_lists_every_tracked_peer() {
    let mut table = PeerTable::new();
    table.begin_connect(&key(1)).unwrap();
    table.begin_connect(&key(2)).unwrap();
    table.set_state(&key(2), LinkState::Connected);
    let mut states = table.peer_link_states();
    states.sort_by(|a, b| a.0.cmp(&b.0));
    assert_eq!(states, vec![(key(1), LinkState::Connecting), (key(2), LinkState::Connected)]);
}

#[test]
fn role_names_are_lower_case() {
    assert_eq!(Role::Idle.as_str(), "idle");
    assert_eq!(Role::Initiator.as_str(), "initiator");
    assert_eq!(Role::Responder.as_str(), "responder");
    assert_eq!(Role::default(), Role::Idle);
}

#[test]
fn refusal_messages() {
    assert_eq!(ConnectRefusal::AlreadyActive.message(), "a connection to this peer is already active");
    assert_eq!(ConnectRefusal::NoCandidates.message(), "peer advertised no candidates to punch");
}

#[test]
fn candidates_are_sorted_and_deduplicated() {
    let c = vec![V4(0x0a00_0002, 5), V4(0x0a00_0001, 9), V4(0x0a00_0002, 5), V4(0x0a00_0001, 3)];
    assert_eq!(normalize_candidates(&c), vec![V4(0x0a00_0001, 3), V4(0x0a00_0001, 9), V4(0x0a00_0002, 5)]);
    assert!(normalize_candidates(&Vec::new()).is_empty());
}

#[test]
fn connect_plan_refuses_no_candidates_then_an_active_peer() {
    let mut table = PeerTable::new();
    let pk = [2u8; 32];
    assert_eq!(table.connect_plan(&pk, &Vec::new()), Err(ConnectRefusal::NoCandidates));
    let cands = vec![V4(0x0a00_0002, 5), V4(0x0a00_0002, 5), V4(0x0a00_0001, 7)];
    let (key, punch) = table.connect_plan(&pk, &cands).unwrap();
    assert_eq!(key, "AgICAgICAgICAgICAgICAgICAgICAgICAgICAgICAgI=");
    assert_eq!(punch, vec![V4(0x0a00_0001, 7), V4(0x0a00_0002, 5)]);
    assert_eq!(table.link_state_of(&key), LinkState::Connecting);
    assert_eq!(table.connect_plan(&pk, &cands), Err(ConnectRefusal::AlreadyActive));
}

#[test]
fn negotiation_tracks_offer_answer_and_peer() {
    let mut n = Negotiation::new();
    assert_eq!(n.role(), Role::Idle);
    assert_eq!(n.connect_target(false).err().unwrap(), "no socket — create or accept an offer first");
    assert_eq!(n.connect_target(true).err().unwrap(), "no negotiated peer — exchange an offer/answer first");
    n.set_peer(NegotiatedPeer { public_key: vec![2u8; 32], candidates: vec![V4(1, 2)] });
    assert_eq!(n.connect_target(true).err().unwrap(), "no role — create or accept an offer first");
    n.begin_answer("sid-1".to_string());
    assert_eq!(n.session_id().as_deref(), Some("sid-1"));
    let (role, pk, cands) = n.connect_target(true).unwrap();
    assert_eq!((role, pk, cands), (Role::Responder, vec![2u8; 32], vec![V4(1, 2)]));
    assert_eq!(n.current_peer_key().unwrap(), "AgICAgICAgICAgICAgICAgICAgICAgICAgICAgICAgI=");
    n.begin_offer("sid-2".to_string());
    assert_eq!(n.role(), Role::Initiator);
    assert!(n.current_peer_key().is_none());
}

fn env(kind: pcpvpn::signaling::message::SignalKind, sid: &str) -> pcpvpn::signaling::message::SignalEnvelope {
    pcpvpn::signaling::message::SignalEnvelope {
        v: 1,
        kind,
        sid: sid.to_string(),
        pk: "AgICAgICAgICAgICAgICAgICAgICAgICAgICAgICAgI=".to_string(),
        cands: vec![pcpvpn::signaling::message::WireCandidate { a: "10.0.0.2:5000".into(), k: "host".into() }],
    }
}

#[test]
fn an_answer_needs_the_pending_offer_session() {
    let mut n = Negotiation::new();
    assert_eq!(n.take_answer(&env(SignalKind::Answer, "s")).err().unwrap(), "no pending offer — create an offer first");
    let offer = n.create_offer("AQ==", &[]);
    assert_eq!(offer.kind, SignalKind::Offer);
    assert_eq!(n.session_id().unwrap(), offer.sid);
    assert_eq!(
        n.take_answer(&env(SignalKind::Answer, "other")).err().unwrap(),
        "answer session id does not match the pending offer"
    );
    assert!(n.take_answer(&env(SignalKind::Answer, &offer.sid)).is_ok());
    let (role, pk, cands) = n.connect_target(true).unwrap();
    assert_eq!((role, pk, cands), (Role::Initiator, vec![2u8; 32], vec![V4(0x0a00_0002, 5000)]));
    assert_eq!(expect_kind(&env(SignalKind::Offer, "s"), SignalKind::Answer).err().unwrap(), "expected an answer blob");
    assert_eq!(expect_kind(&env(SignalKind::Answer, "s"), SignalKind::Offer).err().unwrap(), "expected an offer blob");
}

#[test]
fn an_offer_is_answered_with_its_session_id() {
    let mut n = Negotiation::new();
    let answer = n.take_offer(&env(SignalKind::Offer, "sid-9"), "AQ==", &[]).unwrap();
    assert_eq!((answer.kind, answer.sid.as_str(), answer.pk.as_str()), (SignalKind::Answer, "sid-9", "AQ=="));
    assert_eq!(n.role(), Role::Responder);
    let mut bad = env(SignalKind::Offer, "sid-10");
    bad.cands[0].a = "nowhere".into();
    assert_eq!(n.take_offer(&bad, "AQ==", &[]).err().unwrap(), "candidate address 'nowhere'");
    assert_eq!(n.session_id().unwrap(), "sid-10");
}

#[test]
fn ipv6_candidates_sort_after_ipv4_and_deduplicate() {
    let v6 = |ip: u128, port: u16, scope: u32| PeerAddr::V6 { ip, port, scope };
    let c = vec![v6(1, 9, 0), V4(0x0a00_0001, 9), v6(1, 9, 0), v6(1, 7, 0), v6(0, 9, 2)];
    assert_eq!(normalize_candidates(&c), vec![V4(0x0a00_0001, 9), v6(0, 9, 2), v6(1, 7, 0), v6(1, 9, 0)]);
}

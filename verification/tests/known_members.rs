use pcpvpn::signaling::client::{KnownMembers, MemberEvent, ReaderStep};
use pcpvpn::signaling::protocol::{JoinRejectReason, MemberInfo, ServerMessage};

fn member(pk: &str) -> MemberInfo {
    MemberInfo { pubkey: pk.to_string(), fingerprint: format!("fp-{pk}") }
}

fn sorted(mut v: Vec<MemberInfo>) -> Vec<MemberInfo> {
    v.sort_by(|a, b| a.pubkey.cmp(&b.pubkey));
    v
}

#[test]
fn the_accepted_roster_is_known_at_once() {
    let k = KnownMembers::from_accepted(&[member("pkA"), member("pkB")]);
    assert_eq!(sorted(k.members()), vec![member("pkA"), member("pkB")]);
    let empty = KnownMembers::from_accepted(&[]);
    assert!(empty.members().is_empty());
}

#[test]
fn joins_and_leaves_update_the_roster_and_are_reported() {
    let mut k = KnownMembers::from_accepted(&[member("pkA")]);
    match k.on_message(ServerMessage::MemberJoined(member("pkB"))) {
        ReaderStep::Event(MemberEvent::Joined(m)) => assert_eq!(m, member("pkB")),
        other => panic!("unexpected step {other:?}"),
    }
    assert_eq!(sorted(k.members()), vec![member("pkA"), member("pkB")]);
    match k.on_message(ServerMessage::MemberLeft { pubkey: "pkA".to_string() }) {
        ReaderStep::Event(MemberEvent::Left { pubkey }) => assert_eq!(pubkey, "pkA"),
        other => panic!("unexpected step {other:?}"),
    }
    assert_eq!(k.members(), vec![member("pkB")]);
    // A leave for someone unknown is still reported, and changes nothing.
    assert!(matches!(
        k.on_message(ServerMessage::MemberLeft { pubkey: "pkZ".to_string() }),
        ReaderStep::Event(MemberEvent::Left { .. })
    ));
    assert_eq!(k.members(), vec![member("pkB")]);
}

#[test]
fn relayed_blobs_are_handed_on_and_late_join_replies_ignored() {
    let mut k = KnownMembers::from_accepted(&[]);
    match k.on_message(ServerMessage::Relayed { from_pubkey: "pkA".to_string(), blob: "PCPV1.x".to_string() }) {
        ReaderStep::Relayed { from_pubkey, blob } => {
            assert_eq!(from_pubkey, "pkA");
            assert_eq!(blob, "PCPV1.x");
        }
        other => panic!("unexpected step {other:?}"),
    }
    assert!(matches!(k.on_message(ServerMessage::JoinAccepted { members: vec![member("pkQ")] }), ReaderStep::Ignore));
    assert!(matches!(
        k.on_message(ServerMessage::JoinRejected { reason: JoinRejectReason::WrongPassword }),
        ReaderStep::Ignore
    ));
    assert!(k.members().is_empty());
}

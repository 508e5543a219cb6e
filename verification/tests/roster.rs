use pcpvpn::crypto::hash_password;
use pcpvpn::signaling::client::{connect_reply_outcome, join_reply_outcome, SignalingClientError};
use pcpvpn::signaling::protocol::{JoinRejectReason, MemberInfo, ServerMessage, PROTOCOL_VERSION};
use pcpvpn::signaling::roster::Roster;
use pcpvpn::signaling::server::{registration_outcome, SignalingError};
use pcpvpn::relay_protocol::ServerFrame;

fn party() -> Roster {
    Roster::new("party".to_string(), "secret")
}

fn join(r: &mut Roster, password: &str, pk: &str) -> Result<Vec<MemberInfo>, JoinRejectReason> {
    r.join(PROTOCOL_VERSION, "party", &hash_password(password), &pk.to_string(), &format!("fp-{pk}"))
}

#[test]
fn accepts_a_correct_join_with_an_empty_roster() {
    let mut r = party();
    assert_eq!(join(&mut r, "secret", "pkA"), Ok(vec![]));
    assert!(r.is_member("pkA"));
}

#[test]
fn rejects_the_wrong_password_then_the_wrong_name_then_the_version() {
    let mut r = party();
    assert_eq!(join(&mut r, "not-the-password", "pkA"), Err(JoinRejectReason::WrongPassword));
    assert_eq!(
        r.join(PROTOCOL_VERSION, "other", &hash_password("not-the-password"), &"pkA".to_string(), &"f".to_string()),
        Err(JoinRejectReason::WrongNetworkName)
    );
    assert_eq!(
        r.join(PROTOCOL_VERSION + 1, "other", &hash_password("x"), &"pkA".to_string(), &"f".to_string()),
        Err(JoinRejectReason::UnsupportedVersion)
    );
    assert!(r.snapshot().is_empty());
}

#[test]
fn a_second_member_sees_the_first() {
    let mut r = party();
    join(&mut r, "secret", "pkA").unwrap();
    let existing = join(&mut r, "secret", "pkB").unwrap();
    assert_eq!(existing, vec![MemberInfo { pubkey: "pkA".into(), fingerprint: "fp-pkA".into() }]);
    assert_eq!(r.recipients("pkB"), vec!["pkA".to_string()]);
}

#[test]
fn a_second_pubkey_cannot_join_twice() {
    let mut r = party();
    join(&mut r, "secret", "pkA").unwrap();
    assert_eq!(join(&mut r, "secret", "pkA"), Err(JoinRejectReason::AlreadyJoined));
    assert_eq!(r.snapshot().len(), 1);
}

#[test]
fn leaving_frees_the_key_and_others_are_the_recipients() {
    let mut r = party();
    join(&mut r, "secret", "pkA").unwrap();
    join(&mut r, "secret", "pkB").unwrap();
    join(&mut r, "secret", "pkC").unwrap();
    let mut to = r.recipients("pkB");
    to.sort();
    assert_eq!(to, vec!["pkA".to_string(), "pkC".to_string()]);
    r.leave("pkB");
    assert!(!r.is_member("pkB"));
    assert_eq!(r.snapshot().len(), 2);
    assert!(join(&mut r, "secret", "pkB").is_ok());
}

#[test]
fn a_join_reply_grants_a_roster_or_names_the_refusal() {
    let m = vec![MemberInfo { pubkey: "pkA".into(), fingerprint: "f".into() }];
    assert_eq!(join_reply_outcome(ServerMessage::JoinAccepted { members: m.clone() }).unwrap(), m);
    assert!(matches!(
        join_reply_outcome(ServerMessage::JoinRejected { reason: JoinRejectReason::WrongPassword }),
        Err(SignalingClientError::WrongPassword)
    ));
    assert!(matches!(
        join_reply_outcome(ServerMessage::JoinRejected { reason: JoinRejectReason::MalformedJoin }),
        Err(SignalingClientError::MalformedMessage)
    ));
    assert!(matches!(
        join_reply_outcome(ServerMessage::MemberLeft { pubkey: "x".into() }),
        Err(SignalingClientError::MalformedMessage)
    ));
}

#[test]
fn relay_replies_to_register_and_connect() {
    assert!(registration_outcome(Some(ServerFrame::Okay)).is_ok());
    assert!(matches!(
        registration_outcome(Some(ServerFrame::Error { message: "name in use".into() })),
        Err(SignalingError::RelayRejected(m)) if m == "name in use"
    ));
    assert!(matches!(registration_outcome(None), Err(SignalingError::RelayMalformedReply)));
    assert!(matches!(
        connect_reply_outcome(Some(ServerFrame::NewMember { session_id: "s".into() })),
        Err(SignalingClientError::RelayMalformedReply)
    ));
    assert!(matches!(
        connect_reply_outcome(Some(ServerFrame::Error { message: "no such network".into() })),
        Err(SignalingClientError::RelayRejected(m)) if m == "no such network"
    ));
    assert!(connect_reply_outcome(Some(ServerFrame::Okay)).is_ok());
}

use pcpvpn::handshake::{judge_message_1, judge_message_2, Message1Verdict, Message2Verdict};
use pcpvpn::crypto::{CryptoSession, Identity, SessionError};
use pcpvpn::handshake::{Initiator, InitiatorStep, Responder, ResponderStep};
use pcpvpn::candidate::PeerAddr;
use pcpvpn::handshake::{FanOutAction, InitiatorFanOut, PunchAction, ResponderPunch, WaitEvent};

fn establish(a: &Identity, b: &Identity) -> (CryptoSession, CryptoSession, Vec<u8>) {
    let responder = Responder::new(b, a.public()).unwrap();
    let (initiator, m1) = Initiator::start(a, b.public()).unwrap();
    let (m2, b_session) = match responder.on_message(b, &m1) {
        ResponderStep::Established { peer_static, m2, session } => {
            assert_eq!(peer_static, a.public());
            (m2, session)
        }
        _ => panic!("the expected initiator must be accepted"),
    };
    let a_session = match initiator.on_message(&m2) {
        InitiatorStep::Established(s) => s,
        _ => panic!("a valid message 2 must complete the handshake"),
    };
    (a_session, b_session, m2)
}

#[test]
fn ik_handshake_echo_replay_and_tamper() {
    let a = Identity::generate().unwrap();
    let b = Identity::generate().unwrap();
    let (mut sa, mut sb, _m2) = establish(&a, &b);
    assert_eq!(sa.remote_static().unwrap(), b.public());
    assert_eq!(sb.remote_static().unwrap(), a.public());

    let (c, ct) = sa.seal(b"hello").unwrap();
    assert_eq!(sb.open(c, &ct).unwrap(), b"hello");
    // The same counter again is a replay, refused before decryption.
    assert_eq!(sb.open(c, &ct), Err(SessionError::Replay));

    let (c2, mut ct2) = sa.seal(b"world").unwrap();
    ct2[0] ^= 0xff;
    assert_eq!(sb.open(c2, &ct2), Err(SessionError::Crypto));
    // A packet that failed to authenticate does not consume its counter.
    let (c3, ct3) = sa.seal(b"again").unwrap();
    assert_eq!(sb.open(c3, &ct3).unwrap(), b"again");

    let (c4, ct4) = sb.seal(b"pong").unwrap();
    assert_eq!(sa.open(c4, &ct4).unwrap(), b"pong");
}

#[test]
fn responder_rejects_an_unexpected_initiator_and_keeps_waiting() {
    let a = Identity::generate().unwrap();
    let b = Identity::generate().unwrap();
    let mallory = Identity::generate().unwrap();
    let responder = Responder::new(&b, a.public()).unwrap();

    let (_m_init, m1_bad) = Initiator::start(&mallory, b.public()).unwrap();
    let responder = match responder.on_message(&b, &m1_bad) {
        ResponderStep::Impostor { next, claimed } => {
            assert_eq!(claimed.unwrap(), mallory.public());
            next
        }
        _ => panic!("an impostor must not be answered"),
    };
    let responder = match responder.on_message(&b, b"garbage") {
        ResponderStep::Garbage(next) => next,
        _ => panic!("garbage leaves the state as it was"),
    };
    let (initiator, m1) = Initiator::start(&a, b.public()).unwrap();
    let m2 = match responder.on_message(&b, &m1) {
        ResponderStep::Established { m2, .. } => m2,
        _ => panic!("the genuine peer is still accepted"),
    };
    assert!(matches!(initiator.on_message(&m2), InitiatorStep::Established(_)));
}

#[test]
fn initiator_ignores_garbage_until_a_valid_message_two() {
    let a = Identity::generate().unwrap();
    let b = Identity::generate().unwrap();
    let responder = Responder::new(&b, a.public()).unwrap();
    let (initiator, m1) = Initiator::start(&a, b.public()).unwrap();
    let initiator = match initiator.on_message(&[0u8; 48]) {
        InitiatorStep::Waiting(i) => i,
        _ => panic!("garbage must not complete the handshake"),
    };
    let m2 = match responder.on_message(&b, &m1) {
        ResponderStep::Established { m2, .. } => m2,
        _ => panic!("expected initiator accepted"),
    };
    assert!(matches!(initiator.on_message(&m2), InitiatorStep::Established(_)));
}

#[test]
fn sealing_adds_exactly_the_tag_and_refuses_oversized_payloads() {
    let a = Identity::generate().unwrap();
    let b = Identity::generate().unwrap();
    let (mut sa, mut sb, _m2) = establish(&a, &b);
    let (c, ct) = sa.seal(&[7u8; 100]).unwrap();
    assert_eq!(ct.len(), 116);
    assert_eq!(sb.open(c, &ct).unwrap(), vec![7u8; 100]);
    assert_eq!(sa.seal(&vec![0u8; 65535 - 15]), Err(SessionError::Crypto));
    // The peer's key does not change as the session is used.
    assert_eq!(sa.remote_static().unwrap(), b.public());
    assert_eq!(sb.remote_static().unwrap(), a.public());
}

#[test]
fn message_verdicts_follow_the_read_and_the_key() {
    let expected = vec![5u8; 32];
    assert_eq!(judge_message_1(false, &Some(expected.clone()), &expected), Message1Verdict::Garbage);
    assert_eq!(judge_message_1(true, &Some(expected.clone()), &expected), Message1Verdict::Accept);
    assert_eq!(judge_message_1(true, &Some(vec![6u8; 32]), &expected), Message1Verdict::Impostor);
    assert_eq!(judge_message_1(true, &None, &expected), Message1Verdict::Impostor);
    assert_eq!(judge_message_2(true), Message2Verdict::Complete);
    assert_eq!(judge_message_2(false), Message2Verdict::KeepWaiting);
}

#[test]
fn fan_out_loop_nominates_the_sender_of_the_first_valid_message_two() {
    let a = Identity::generate().unwrap();
    let b = Identity::generate().unwrap();
    let mallory = Identity::generate().unwrap();
    let (init, m1) = Initiator::start(&a, b.public()).unwrap();
    let fan = InitiatorFanOut::new(init, m1.clone());
    let mut punch = ResponderPunch::new(Responder::new(&b, a.public()).unwrap());

    // Ticks: the initiator re-sends the same message 1; the responder pings 0, 1.
    let fan = match fan.on_event::<u16>(WaitEvent::Tick) {
        FanOutAction::SendToAll(next) => next,
        _ => panic!("a tick re-sends message 1"),
    };
    assert_eq!(fan.message_1_bytes(), &m1);
    for want in 0..2u64 {
        punch = match punch.on_event::<u16>(&b, WaitEvent::Tick) {
            PunchAction::PingAll { next, seq } => {
                assert_eq!(seq, want);
                next
            }
            _ => panic!("a tick pings every candidate"),
        };
    }

    // An impostor's message 1 and garbage leave the responder waiting.
    let (_mi, m1_bad) = Initiator::start(&mallory, b.public()).unwrap();
    punch = match punch.on_event(&b, WaitEvent::Handshake { from: 9u16, payload: m1_bad }) {
        PunchAction::Wait(next) => next,
        _ => panic!("an impostor is not answered"),
    };
    punch = match punch.on_event(&b, WaitEvent::Handshake { from: 9u16, payload: vec![1, 2, 3] }) {
        PunchAction::Wait(next) => next,
        _ => panic!("garbage is ignored"),
    };
    // A cancel channel that changed without cancelling does not stop it.
    punch = match punch.on_event::<u16>(&b, WaitEvent::CancelChanged { closed: false, cancelled: false }) {
        PunchAction::Wait(next) => next,
        _ => panic!("not cancelled"),
    };
    let m2 = match punch.on_event(&b, WaitEvent::Handshake { from: 7u16, payload: m1 }) {
        PunchAction::Connected { peer, peer_static, m2, session } => {
            assert_eq!(peer, 7);
            assert_eq!(peer_static, a.public());
            assert_eq!(session.remote_static().unwrap(), a.public());
            m2
        }
        _ => panic!("the expected initiator is answered"),
    };

    // Garbage first, then the valid message 2 from endpoint 42 wins.
    let fan = match fan.on_event(WaitEvent::Handshake { from: 41u16, payload: vec![0; 48] }) {
        FanOutAction::Wait(next) => next,
        _ => panic!("garbage rolls back and the fan-out waits on"),
    };
    match fan.on_event(WaitEvent::Handshake { from: 42u16, payload: m2 }) {
        FanOutAction::Connected { peer, session } => {
            assert_eq!(peer, 42);
            assert_eq!(session.remote_static().unwrap(), b.public());
        }
        _ => panic!("the first valid message 2 completes the handshake"),
    }
}

#[test]
fn wait_loops_end_on_cancel_and_deadline() {
    let a = Identity::generate().unwrap();
    let b = Identity::generate().unwrap();
    let (init, m1) = Initiator::start(&a, b.public()).unwrap();
    let fan = InitiatorFanOut::new(init, m1);
    assert!(matches!(fan.on_event::<u16>(WaitEvent::CancelChanged { closed: true, cancelled: false }), FanOutAction::Cancelled));
    let (init, m1) = Initiator::start(&a, b.public()).unwrap();
    let fan = InitiatorFanOut::new(init, m1);
    assert!(matches!(fan.on_event::<u16>(WaitEvent::Deadline), FanOutAction::TimedOut));
    let punch = ResponderPunch::new(Responder::new(&b, a.public()).unwrap());
    assert!(matches!(punch.on_event::<u16>(&b, WaitEvent::CancelChanged { closed: false, cancelled: true }), PunchAction::Cancelled));
    let punch = ResponderPunch::new(Responder::new(&b, a.public()).unwrap());
    assert!(matches!(punch.on_event::<u16>(&b, WaitEvent::Deadline), PunchAction::TimedOut));
}

#[test]
fn responder_waits_out_unexpected_initiator() {
    let a = Identity::generate().unwrap(); // the peer that actually connects
    let b = Identity::generate().unwrap(); // responder
    let c = Identity::generate().unwrap(); // the static key B expects
    let a_addr = PeerAddr::V4(0x7f00_0001, 40001);
    let mut punch = ResponderPunch::new(Responder::new(&b, c.public()).unwrap());
    let (_init, m1) = Initiator::start(&a, b.public()).unwrap();
    // A retransmits its message 1 while B pings; every message 1 is refused.
    for _ in 0..3 {
        punch = match punch.on_event::<PeerAddr>(&b, WaitEvent::Tick) {
            PunchAction::PingAll { next, .. } => next,
            _ => panic!("a tick pings"),
        };
        punch = match punch.on_event(&b, WaitEvent::Handshake { from: a_addr, payload: m1.clone() }) {
            PunchAction::Wait(next) => next,
            _ => panic!("responder must not accept an unexpected initiator"),
        };
    }
    assert!(matches!(punch.on_event::<PeerAddr>(&b, WaitEvent::Deadline), PunchAction::TimedOut));
}

#[test]
fn fanout_nominates_live_candidate_and_ignores_dead() {
    let a = Identity::generate().unwrap();
    let b = Identity::generate().unwrap();
    let a_addr = PeerAddr::V4(0x7f00_0001, 40001);
    let b_addr = PeerAddr::V4(0x7f00_0001, 40002);
    let (init, m1) = Initiator::start(&a, b.public()).unwrap();
    let fan = InitiatorFanOut::new(init, m1);
    let punch = ResponderPunch::new(Responder::new(&b, a.public()).unwrap());

    // A's tick sends message 1 to both candidates; only the live one (B) answers.
    let fan = match fan.on_event::<PeerAddr>(WaitEvent::Tick) {
        FanOutAction::SendToAll(next) => next,
        _ => panic!("a tick sends message 1 to every candidate"),
    };
    let m1 = fan.message_1_bytes().clone();
    let (m2, mut b_session) = match punch.on_event(&b, WaitEvent::Handshake { from: a_addr, payload: m1 }) {
        PunchAction::Connected { peer, m2, session, .. } => {
            assert_eq!(peer, a_addr);
            (m2, session)
        }
        _ => panic!("the expected initiator is answered"),
    };
    let mut a_session = match fan.on_event(WaitEvent::Handshake { from: b_addr, payload: m2 }) {
        FanOutAction::Connected { peer, session } => {
            assert_eq!(peer, b_addr);
            session
        }
        _ => panic!("the answer completes the handshake"),
    };
    let (counter, ct) = a_session.seal(b"punch through").unwrap();
    assert_eq!(b_session.open(counter, &ct).unwrap(), b"punch through");
}

#[test]
fn punch_answers_the_expected_peer_with_message_two() {
    let a = Identity::generate().unwrap();
    let b = Identity::generate().unwrap();
    let a_addr = PeerAddr::V4(0x7f00_0001, 40001);
    let punch = ResponderPunch::new(Responder::new(&b, a.public()).unwrap());
    let (init, m1) = Initiator::start(&a, b.public()).unwrap();
    let (m2, b_session) = match punch.on_event(&b, WaitEvent::Handshake { from: a_addr, payload: m1 }) {
        PunchAction::Connected { peer, peer_static, m2, session } => {
            assert_eq!(peer, a_addr);
            assert_eq!(peer_static, a.public());
            (m2, session)
        }
        _ => panic!("a message 1 from the expected peer is answered"),
    };
    assert_eq!(b_session.remote_static().unwrap(), a.public());
    // The message 2 handed back is the one that completes the initiator's side.
    assert!(matches!(init.on_message(&m2), InitiatorStep::Established(_)));
}

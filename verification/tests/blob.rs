use pcpvpn::signaling::blob::{frame, unframe, validate, SignalError};
use pcpvpn::signaling::message::{SignalEnvelope, SignalKind, WireCandidate, PROTOCOL_VERSION};
use serde_json::Value;

const SID: &str = "AQEBAQEBAQEBAQEBAQEBAQ==";
const PK32: &str = "AgICAgICAgICAgICAgICAgICAgICAgICAgICAgICAgI=";
const PK16: &str = "AgICAgICAgICAgICAgICAg==";

fn sample(kind: SignalKind) -> SignalEnvelope {
    SignalEnvelope {
        v: PROTOCOL_VERSION,
        kind,
        sid: SID.to_string(),
        pk: PK32.to_string(),
        cands: vec![
            WireCandidate { a: "192.168.1.5:51820".into(), k: "host".into() },
            WireCandidate { a: "203.0.113.9:40000".into(), k: "reflexive".into() },
        ],
    }
}

fn to_json(env: &SignalEnvelope) -> Vec<u8> {
    let mut m = serde_json::Map::new();
    m.insert("v".into(), Value::from(env.v));
    m.insert("kind".into(), Value::from(if env.kind == SignalKind::Offer { "offer" } else { "answer" }));
    m.insert("sid".into(), Value::from(env.sid.clone()));
    m.insert("pk".into(), Value::from(env.pk.clone()));
    let cands: Vec<Value> = env
        .cands
        .iter()
        .map(|c| {
            let mut cm = serde_json::Map::new();
            cm.insert("a".into(), Value::from(c.a.clone()));
            cm.insert("k".into(), Value::from(c.k.clone()));
            Value::Object(cm)
        })
        .collect();
    m.insert("cands".into(), Value::Array(cands));
    serde_json::to_vec(&Value::Object(m)).unwrap()
}

fn from_json(json: &[u8]) -> Result<SignalEnvelope, SignalError> {
    let bad = || SignalError::Decode("invalid envelope".to_string());
    let v: Value = serde_json::from_slice(json).map_err(|e| SignalError::Decode(e.to_string()))?;
    let kind = match v["kind"].as_str().ok_or_else(bad)? {
        "offer" => SignalKind::Offer,
        "answer" => SignalKind::Answer,
        _ => return Err(bad()),
    };
    let cands = v["cands"]
        .as_array()
        .ok_or_else(bad)?
        .iter()
        .map(|c| WireCandidate { a: c["a"].as_str().unwrap_or("").to_string(), k: c["k"].as_str().unwrap_or("").to_string() })
        .collect();
    Ok(SignalEnvelope {
        v: v["v"].as_u64().ok_or_else(bad)? as u32,
        kind,
        sid: v["sid"].as_str().ok_or_else(bad)?.to_string(),
        pk: v["pk"].as_str().ok_or_else(bad)?.to_string(),
        cands,
    })
}

fn encode(env: &SignalEnvelope) -> String {
    frame(env.kind.label(), &to_json(env))
}

fn decode(blob: &str) -> Result<SignalEnvelope, SignalError> {
    let (label, json) = unframe(blob)?;
    let env = from_json(&json)?;
    validate(&env, &label)?;
    Ok(env)
}

#[test]
fn round_trips_offer_and_answer() {
    for kind in [SignalKind::Offer, SignalKind::Answer] {
        let env = sample(kind);
        let blob = encode(&env);
        assert!(blob.starts_with("PCPV1."));
        assert_eq!(decode(&blob).unwrap(), env);
    }
}

#[test]
fn rejects_checksum_corruption() {
    let blob = encode(&sample(SignalKind::Offer));
    let mut chars: Vec<char> = blob.chars().collect();
    let last = chars.len() - 1;
    chars[last] = if chars[last] == '0' { '1' } else { '0' };
    let bad: String = chars.into_iter().collect();
    assert!(matches!(decode(&bad), Err(SignalError::Checksum)));
}

#[test]
fn rejects_truncation_and_bad_prefix() {
    let blob = encode(&sample(SignalKind::Offer));
    assert!(decode(&blob[..blob.len() - 6]).is_err());
    assert!(matches!(decode(&blob.replacen("PCPV1", "XXXX1", 1)), Err(SignalError::Format(_))));
}

#[test]
fn rejects_kind_label_mismatch() {
    let blob = encode(&sample(SignalKind::Answer));
    let tampered = blob.replacen(".ANSWER.", ".OFFER.", 1);
    assert!(matches!(decode(&tampered), Err(SignalError::KindMismatch)));
}

#[test]
fn rejects_bad_version() {
    let mut env = sample(SignalKind::Offer);
    env.v = 2;
    assert!(matches!(decode(&encode(&env)), Err(SignalError::Version(2))));
}

#[test]
fn rejects_bad_public_key_and_candidate() {
    let mut env = sample(SignalKind::Offer);
    env.pk = PK16.to_string();
    assert!(matches!(decode(&encode(&env)), Err(SignalError::Invalid(_))));

    let mut env2 = sample(SignalKind::Offer);
    env2.cands[0].a = "not-an-address".into();
    assert!(matches!(decode(&encode(&env2)), Err(SignalError::Invalid(_))));
}

#[test]
fn framing_errors_carry_their_messages() {
    match unframe("a.b.c") {
        Err(SignalError::Format(m)) => assert_eq!(m, "expected 4 dot-separated sections"),
        other => panic!("unexpected {other:?}"),
    }
    match unframe("XX.OFFER.e30.a3a6bf43") {
        Err(SignalError::Format(m)) => assert_eq!(m, "unknown blob prefix 'XX'"),
        other => panic!("unexpected {other:?}"),
    }
    match unframe("PCPV1.OFFER.e30.zz") {
        Err(SignalError::Format(m)) => assert_eq!(m, "invalid checksum field"),
        other => panic!("unexpected {other:?}"),
    }
    assert!(matches!(unframe("PCPV1.OFFER.!!.a3a6bf43"), Err(SignalError::Decode(_))));
}

#[test]
fn unframe_trims_and_accepts_a_plus_signed_upper_case_checksum() {
    // "e30" is base64url of "{}", whose CRC-32 is a3a6bf43.
    let (label, json) = unframe("  PCPV1.OFFER.e30.+A3A6BF43\r\n").unwrap();
    assert_eq!(label, "OFFER");
    assert_eq!(json, b"{}");
    assert_eq!(frame("OFFER", b"{}"), "PCPV1.OFFER.e30.a3a6bf43");
}

#[test]
fn invalid_messages_name_the_offending_field() {
    let mut env = sample(SignalKind::Offer);
    env.pk = PK16.to_string();
    match validate(&env, "OFFER") {
        Err(SignalError::Invalid(m)) => assert_eq!(m, "public key length"),
        other => panic!("unexpected {other:?}"),
    }
    let mut env2 = sample(SignalKind::Offer);
    env2.cands[1].a = "1.2.3.4".into();
    match validate(&env2, "OFFER") {
        Err(SignalError::Invalid(m)) => assert_eq!(m, "candidate address '1.2.3.4'"),
        other => panic!("unexpected {other:?}"),
    }
}

#[test]
fn error_messages() {
    assert_eq!(SignalError::Checksum.message(), "blob is corrupted or truncated (checksum mismatch)");
    assert_eq!(SignalError::Version(2).message(), "unsupported blob version 2");
    assert_eq!(SignalError::Format("x".into()).message(), "malformed blob: x");
    assert_eq!(SignalError::KindMismatch.message(), "blob kind does not match its label");
}

#[test]
fn the_checksum_is_the_standard_crc32() {
    let blob = frame("OFFER", b"123456789");
    assert!(blob.ends_with(".cbf43926"), "{blob}");
    assert!(frame("OFFER", b"").ends_with(".00000000"));
}

#[test]
fn ipv6_candidates_round_trip() {
    let mut env = sample(SignalKind::Offer);
    env.cands[0].a = "[::1]:9".into();
    env.cands[1].a = "[fe80::1%3]:51820".into();
    let blob = encode(&env);
    assert_eq!(decode(&blob).unwrap(), env);
    let mut bad = sample(SignalKind::Offer);
    bad.cands[0].a = "[::1]".into();
    assert!(matches!(validate(&bad, "OFFER"), Err(SignalError::Invalid(_))));
}

#[test]
fn changing_the_last_checksum_digit_fails_the_checksum() {
    for (label, body) in [("offer", &b"{}"[..]), ("answer", &b"{\"v\":1}"[..]), ("x", &b""[..]), ("offer", &[0u8, 1, 2, 255][..])] {
        let b = frame(label, body);
        assert_eq!(unframe(&b).unwrap(), (label.to_string(), body.to_vec()));
        let mut t: Vec<char> = b.chars().collect();
        let last = t.len() - 1;
        t[last] = if t[last] == '0' { '1' } else { '0' };
        let tampered: String = t.into_iter().collect();
        assert!(matches!(unframe(&tampered), Err(SignalError::Checksum)));
    }
}

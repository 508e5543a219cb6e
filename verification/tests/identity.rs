use pcpvpn::crypto::{fingerprint_of, hash_password, hex_encode, Identity};

#[test]
fn peer_address_is_deterministic_and_formatted() {
    let id = Identity::generate().unwrap();
    let a = id.peer_address();
    assert_eq!(a, id.peer_address());
    assert!(a.starts_with("PC-"));
    assert_eq!(a.len(), 22);
}

#[test]
fn hash_password_is_deterministic_and_not_the_plaintext() {
    let h1 = hash_password("hunter2");
    let h2 = hash_password("hunter2");
    assert_eq!(h1, h2);
    assert_ne!(h1, "hunter2");
    assert_eq!(h1.len(), 64);
}

#[test]
fn hash_password_is_the_hex_sha256() {
    assert_eq!(hash_password("hunter2"), "f52fbd32b2b3b86ff88ef6c490628285f482af15ddcb29541f94bcf526a3f6c7");
}

#[test]
fn fingerprint_is_the_upper_hex_of_the_first_eight_digest_bytes() {
    assert_eq!(fingerprint_of(&[2u8; 32]), "PC-7587-7BB4-1D39-3B5F");
}

#[test]
fn hex_encode_is_lower_case_two_digits_per_byte() {
    assert_eq!(hex_encode(&[0x00, 0x0f, 0xab, 0xff]), "000fabff");
    assert_eq!(hex_encode(&[]), "");
}

#[test]
fn generated_keys_are_32_bytes_and_base64_is_standard() {
    let id = Identity::generate().unwrap();
    assert_eq!(id.private().len(), 32);
    assert_eq!(id.public().len(), 32);
    assert_eq!(id.public_b64().len(), 44);
    assert!(id.public_b64().ends_with('='));
}

#[test]
fn stored_identity_reloads_and_rejects_bad_keys() {
    let k = "AgICAgICAgICAgICAgICAgICAgICAgICAgICAgICAgI=";
    let id = Identity::from_stored(k, &format!(" {k}\n")).unwrap();
    assert_eq!(id.public(), &[2u8; 32]);
    assert_eq!(id.private(), &[2u8; 32]);
    assert_eq!(id.public_b64(), k);
    assert_eq!(id.peer_address(), "PC-7587-7BB4-1D39-3B5F");
    let short = "AQEBAQEBAQEBAQEBAQEBAQ==";
    assert_eq!(Identity::from_stored(k, short).err().unwrap(), "identity key has unexpected length");
    assert!(Identity::from_stored("not base64!", k).err().unwrap().starts_with("private key: "));
    assert!(Identity::from_stored(k, "%%").err().unwrap().starts_with("public key: "));
    assert!(Identity::from_keys(vec![1; 32], vec![2; 31]).is_none());
}

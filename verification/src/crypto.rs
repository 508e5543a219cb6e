//! Identity keys, fingerprints and the encrypted peer session.
//!
//! The private key is held in a zeroizing buffer and never leaves the node;
//! only the public key (base64) and its fingerprint are shared. A session
//! seals and opens data frames with the Noise transport keys and enforces the
//! sliding anti-replay window, advancing it only after a packet authenticates.
use vstd::prelude::*;

use base64::Engine;
use sha2::Digest;

use crate::replay::ReplayWindow;
use vstd::string::StringSliceAdditionalSpecFns;
use crate::text::trim;

verus! {

/// Noise pattern: IK (initiator knows responder static) with X25519,
/// ChaCha20-Poly1305 and BLAKE2s.
pub const NOISE_PARAMS: &'static str = "Noise_IK_25519_ChaChaPoly_BLAKE2s";

/// AEAD overhead added per message.
pub const TAG_LEN: usize = 16;

/// SHA-256 of `data`, as `sha2` computes it.
pub uninterp spec fn sha256_of(data: Seq<u8>) -> Seq<u8>;

/// `Sha256::digest` of `sha2`: the 32-byte SHA-256 digest of `data`.
#[verifier::external_body]
pub(crate) fn sha256(data: &[u8]) -> (d: Vec<u8>)
    ensures
        d@ == sha256_of(data@),
        d@.len() == 32,
{
    sha2::Sha256::digest(data).to_vec()
}

/// Standard (padded) base64 of `data`, as `base64` encodes it.
pub uninterp spec fn b64_std_encoded(data: Seq<u8>) -> Seq<char>;

/// The bytes standard base64 decodes `text` to, or `None` when `base64`
/// rejects it.
pub uninterp spec fn b64_std_decoded(text: Seq<char>) -> Option<Seq<u8>>;

/// `general_purpose::STANDARD.encode` of `base64`.
#[verifier::external_body]
pub(crate) fn b64_std_encode(data: &[u8]) -> (s: String)
    ensures
        s@ == b64_std_encoded(data@),
{
    base64::engine::general_purpose::STANDARD.encode(data)
}

/// `general_purpose::STANDARD.decode` of `base64`; the error is its message.
#[verifier::external_body]
pub(crate) fn b64_std_decode(text: &str) -> (r: Result<Vec<u8>, String>)
    ensures
        r is Ok <==> b64_std_decoded(text@) is Some,
        r matches Ok(v) ==> v@ == b64_std_decoded(text@)->0,
{
    match base64::engine::general_purpose::STANDARD.decode(text) {
        Ok(v) => Ok(v),
        Err(e) => Err(e.to_string()),
    }
}

/// `RngCore::fill_bytes` of `rand` on `thread_rng()`: `n` bytes from the
/// thread's cryptographically seeded generator. Nothing is promised of their
/// values.
#[verifier::external_body]
pub(crate) fn random_bytes(n: usize) -> (b: Vec<u8>)
    ensures
        b@.len() == n,
{
    let mut bytes = vec![0u8; n];
    rand::RngCore::fill_bytes(&mut rand::thread_rng(), &mut bytes);
    bytes
}

/// Upper-case hex digit of `d` (`0..16`).
pub open spec fn hex_upper(d: u8) -> char {
    if d < 10 {
        ((d + 48) as u8) as char
    } else {
        ((d + 55) as u8) as char
    }
}

/// Lower-case hex digit of `d` (`0..16`).
pub open spec fn hex_lower(d: u8) -> char {
    if d < 10 {
        ((d + 48) as u8) as char
    } else {
        ((d + 87) as u8) as char
    }
}

/// Two upper-case hex digits of `b`.
pub open spec fn hex2_upper(b: u8) -> Seq<char> {
    seq![hex_upper(b / 16), hex_upper(b % 16)]
}

/// `PC-XXXX-XXXX-XXXX-XXXX`: the first eight bytes of the key's SHA-256, in
/// upper-case hex, grouped by two bytes.
pub open spec fn fingerprint_chars(public: Seq<u8>) -> Seq<char> {
    let d = sha256_of(public);
    seq!['P', 'C', '-'] + hex2_upper(d[0]) + hex2_upper(d[1]) + seq!['-'] + hex2_upper(d[2])
        + hex2_upper(d[3]) + seq!['-'] + hex2_upper(d[4]) + hex2_upper(d[5]) + seq!['-']
        + hex2_upper(d[6]) + hex2_upper(d[7])
}

fn hex_digit_upper(d: u8) -> (c: char)
    requires
        d < 16,
    ensures
        c == hex_upper(d),
{
    if d < 10 {
        (d + 48) as char
    } else {
        (d + 55) as char
    }
}

pub(crate) fn hex_digit_lower(d: u8) -> (c: char)
    requires
        d < 16,
    ensures
        c == hex_lower(d),
{
    if d < 10 {
        (d + 48) as char
    } else {
        (d + 87) as char
    }
}

fn push_hex2_upper(s: &mut String, b: u8)
    ensures
        final(s)@ == old(s)@ + hex2_upper(b),
{
    s.push(hex_digit_upper(b / 16));
    s.push(hex_digit_upper(b % 16));
    assert(final(s)@ =~= old(s)@ + hex2_upper(b));
}

/// Derive the `PC-XXXX-XXXX-XXXX-XXXX` fingerprint of any public key.
pub fn fingerprint_of(public: &[u8]) -> (f: String)
    ensures
        f@ == fingerprint_chars(public@),
        f@.len() == 22,
{
    let d = sha256(public);
    let mut s = String::new();
    s.push('P');
    s.push('C');
    s.push('-');
    push_hex2_upper(&mut s, d[0]);
    push_hex2_upper(&mut s, d[1]);
    s.push('-');
    push_hex2_upper(&mut s, d[2]);
    push_hex2_upper(&mut s, d[3]);
    s.push('-');
    push_hex2_upper(&mut s, d[4]);
    push_hex2_upper(&mut s, d[5]);
    s.push('-');
    push_hex2_upper(&mut s, d[6]);
    push_hex2_upper(&mut s, d[7]);
    assert(s@ =~= fingerprint_chars(public@));
    s
}

/// Lower-case hex of `bytes`, two digits per byte.
pub open spec fn hex_lower_chars(bytes: Seq<u8>) -> Seq<char>
    decreases bytes.len(),
{
    if bytes.len() == 0 {
        Seq::empty()
    } else {
        hex_lower_chars(bytes.drop_last()) + seq![
            hex_lower(bytes.last() / 16),
            hex_lower(bytes.last() % 16),
        ]
    }
}

/// Lower-case hex of `bytes`.
pub fn hex_encode(bytes: &[u8]) -> (s: String)
    ensures
        s@ == hex_lower_chars(bytes@),
{
    let mut s = String::new();
    let mut i: usize = 0;
    while i < bytes.len()
        invariant
            0 <= i <= bytes@.len(),
            s@ == hex_lower_chars(bytes@.take(i as int)),
        decreases bytes@.len() - i,
    {
        let b = bytes[i];
        s.push(hex_digit_lower(b / 16));
        s.push(hex_digit_lower(b % 16));
        assert(bytes@.take(i + 1).drop_last() =~= bytes@.take(i as int));
        i = i + 1;
    }
    assert(bytes@.take(i as int) =~= bytes@);
    s
}

pub proof fn lemma_hex_len(bytes: Seq<u8>)
    ensures
        hex_lower_chars(bytes).len() == 2 * bytes.len(),
    decreases bytes.len(),
{
    if bytes.len() > 0 {
        lemma_hex_len(bytes.drop_last());
    }
}

/// Hex SHA-256 digest of a network password: what the signaling server sees
/// and stores in place of the plaintext.
pub fn hash_password(password: &str) -> (h: String)
    ensures
        h@ == hex_lower_chars(sha256_of(password.spec_bytes())),
        h@.len() == 64,
{
    let d = sha256(password.as_bytes());
    proof {
        lemma_hex_len(d@);
    }
    hex_encode(d.as_slice())
}

/// Buffer holding a private key; wiped from memory when dropped.
#[verifier::external_body]
pub struct SecretKey {
    bytes: zeroize::Zeroizing<Vec<u8>>,
}

/// The bytes a secret-key buffer holds.
pub uninterp spec fn secret_key_bytes(k: SecretKey) -> Seq<u8>;

/// `Zeroizing::new` of `zeroize`: takes ownership of the bytes, to be wiped on drop.
#[verifier::external_body]
fn secret_key_new(bytes: Vec<u8>) -> (k: SecretKey)
    ensures
        secret_key_bytes(k) == bytes@,
{
    SecretKey { bytes: zeroize::Zeroizing::new(bytes) }
}

/// `Zeroizing`'s `Deref` of `zeroize`: the bytes held.
#[verifier::external_body]
fn secret_key_slice(k: &SecretKey) -> (s: &[u8])
    ensures
        s@ == secret_key_bytes(*k),
{
    k.bytes.as_slice()
}

/// `Builder::generate_keypair` of `snow`, for the `NOISE_PARAMS` suite
/// (parsed by `snow`'s `NoiseParams::from_str`): a random X25519 keypair,
/// both keys 32 bytes (the lengths `snow`'s 25519 implementation reports).
/// It fails only when the default resolver has no random source or no
/// implementation of the suite's DH function; it has both for 25519, so it
/// succeeds. Which keys come out is chance, and not stated.
#[verifier::external_body]
fn generate_keypair() -> (r: Result<(Vec<u8>, Vec<u8>), String>)
    ensures
        r is Ok,
        r matches Ok((private, public)) ==> private@.len() == 32 && public@.len() == 32,
{
    let params: snow::params::NoiseParams = NOISE_PARAMS.parse().map_err(|e: snow::Error| e.to_string())?;
    match snow::Builder::new(params).generate_keypair() {
        Ok(k) => Ok((k.private, k.public)),
        Err(e) => Err(e.to_string()),
    }
}

/// A node's static keypair.
pub struct Identity {
    private: SecretKey,
    public: Vec<u8>,
}

impl Identity {
    /// Both keys are X25519 keys of 32 bytes.
    #[verifier::type_invariant]
    closed spec fn keys_are_32_bytes(self) -> bool {
        secret_key_bytes(self.private).len() == 32 && self.public@.len() == 32
    }

    pub closed spec fn private_key(self) -> Seq<u8> {
        secret_key_bytes(self.private)
    }

    pub closed spec fn public_key(self) -> Seq<u8> {
        self.public@
    }

    /// An identity from stored key bytes; `None` unless both keys are 32 bytes.
    pub fn from_keys(private: Vec<u8>, public: Vec<u8>) -> (r: Option<Identity>)
        ensures
            r is Some <==> (private@.len() == 32 && public@.len() == 32),
            r matches Some(id) ==> id.private_key() == private@ && id.public_key() == public@,
    {
        if private.len() != 32 || public.len() != 32 {
            return None;
        }
        Some(Identity { private: secret_key_new(private), public })
    }

    /// A freshly generated X25519 keypair.
    pub fn generate() -> (r: Result<Identity, String>)
        ensures
            r is Ok,
            r matches Ok(id) ==> id.private_key().len() == 32 && id.public_key().len() == 32,
    {
        let (private, public) = generate_keypair()?;
        Ok(Identity { private: secret_key_new(private), public })
    }

    /// An identity from its stored form: both keys standard base64
    /// (surrounding whitespace ignored), both 32 bytes. Errors name the key
    /// that failed to decode, or the length.
    pub fn from_stored(private_b64: &str, public_b64: &str) -> (r: Result<Identity, String>)
        ensures
            b64_std_decoded(trim(private_b64@)) is None ==> r is Err,
            b64_std_decoded(trim(private_b64@)) is Some && b64_std_decoded(trim(public_b64@)) is None ==> r is Err,
            b64_std_decoded(trim(private_b64@)) is Some && b64_std_decoded(trim(public_b64@)) is Some ==> (r is Ok <==> (
            b64_std_decoded(trim(private_b64@))->0.len() == 32 && b64_std_decoded(trim(public_b64@))->0.len() == 32)),
            r matches Ok(id) ==> id.private_key() == b64_std_decoded(trim(private_b64@))->0 && id.public_key()
                == b64_std_decoded(trim(public_b64@))->0,
            b64_std_decoded(trim(private_b64@)) is Some && b64_std_decoded(trim(public_b64@)) is Some ==> (r matches Err(m)
                ==> m@ == "identity key has unexpected length"@),
    {
        let private = match b64_std_decode(crate::signaling::blob::trimmed(private_b64).as_str()) {
            Ok(k) => k,
            Err(e) => {
                let mut m = "private key: ".to_owned();
                crate::text::push_chars(&mut m, crate::text::chars_of(e.as_str()).as_slice());
                return Err(m);
            },
        };
        let public = match b64_std_decode(crate::signaling::blob::trimmed(public_b64).as_str()) {
            Ok(k) => k,
            Err(e) => {
                let mut m = "public key: ".to_owned();
                crate::text::push_chars(&mut m, crate::text::chars_of(e.as_str()).as_slice());
                return Err(m);
            },
        };
        match Identity::from_keys(private, public) {
            Some(id) => Ok(id),
            None => Err("identity key has unexpected length".to_owned()),
        }
    }

    /// The static private key bytes (for the Noise handshake).
    pub fn private(&self) -> (s: &[u8])
        ensures
            s@ == self.private_key(),
            s@.len() == 32,
    {
        proof {
            use_type_invariant(self);
        }
        secret_key_slice(&self.private)
    }

    /// The public key bytes.
    pub fn public(&self) -> (s: &[u8])
        ensures
            s@ == self.public_key(),
            s@.len() == 32,
    {
        proof {
            use_type_invariant(self);
        }
        self.public.as_slice()
    }

    /// Base64 of the public key: the canonical identifier used in signaling.
    pub fn public_b64(&self) -> (s: String)
        ensures
            s@ == b64_std_encoded(self.public_key()),
    {
        b64_std_encode(self.public.as_slice())
    }

    /// Human-readable fingerprint of this node's public key.
    pub fn peer_address(&self) -> (s: String)
        ensures
            s@ == fingerprint_chars(self.public_key()),
    {
        fingerprint_of(self.public.as_slice())
    }
}

#[verifier::external_type_specification]
#[verifier::external_body]
pub struct ExTransportState(snow::TransportState);

/// `TransportState::sending_nonce` of `snow`.
#[verifier::external_body]
fn sending_nonce(t: &snow::TransportState) -> u64 {
    t.sending_nonce()
}

/// `TransportState::write_message` of `snow`: encrypts `payload` into
/// `message`, returning the length written, which is the payload's length
/// plus the 16-byte tag (every cipher of `snow`'s default resolver appends
/// one). It fails when the payload plus the tag does not fit `message` or the
/// 65535-byte Noise maximum, and also when the nonce is exhausted or the
/// session's pattern is one-way, which depend on the opaque state and are not
/// stated; the ciphertext bytes depend on the session keys and are not stated.
#[verifier::external_body]
fn write_message(t: &mut snow::TransportState, payload: &[u8], message: &mut Vec<u8>) -> (r: Option<
    usize,
>)
    ensures
        final(message)@.len() == old(message)@.len(),
        payload@.len() + TAG_LEN > 65535 || payload@.len() + TAG_LEN > old(message)@.len() ==> r is None,
        r matches Some(n) ==> n == payload@.len() + TAG_LEN && n <= old(message)@.len(),
{
    t.write_message(payload, message.as_mut_slice()).ok()
}

/// `TransportState::read_message` of `snow`: decrypts and authenticates
/// `payload` into `message`, returning the plaintext length; it fails when the
/// packet does not authenticate. The plaintext depends on the session keys and
/// is not stated.
#[verifier::external_body]
fn read_message(t: &mut snow::TransportState, payload: &[u8], message: &mut Vec<u8>) -> (r: Option<
    usize,
>)
    ensures
        final(message)@.len() == old(message)@.len(),
        r matches Some(n) ==> n <= old(message)@.len(),
{
    t.read_message(payload, message.as_mut_slice()).ok()
}

/// `TransportState::set_receiving_nonce` of `snow`.
#[verifier::external_body]
fn set_receiving_nonce(t: &mut snow::TransportState, nonce: u64) {
    t.set_receiving_nonce(nonce)
}

/// `TransportState::get_remote_static` of `snow`: the peer's static key, if
/// the handshake pattern transmitted one.
#[verifier::external_body]
fn remote_static_key(t: &snow::TransportState) -> Option<Vec<u8>> {
    t.get_remote_static().map(|s| s.to_vec())
}

/// Why a session refused to seal or open a packet.
#[derive(Debug, Clone, Copy, PartialEq, Eq, Structural)]
pub enum SessionError {
    /// A replayed or out-of-window counter.
    Replay,
    /// The packet did not authenticate, or could not be encrypted.
    Crypto,
}

/// Encrypted peer session: AEAD over the Noise transport keys, with an explicit
/// per-packet counter and the sliding anti-replay window.
pub struct CryptoSession {
    transport: snow::TransportState,
    replay: ReplayWindow,
    /// The peer's static key as the transport reported it when the session
    /// began; the transport never changes it afterwards.
    remote: Option<Vec<u8>>,
}

impl CryptoSession {
    /// The anti-replay window.
    pub closed spec fn window(self) -> ReplayWindow {
        self.replay
    }

    /// The peer's static public key, as the finished handshake left it.
    pub closed spec fn remote_key(self) -> Option<Seq<u8>> {
        match self.remote {
            Some(k) => Some(k@),
            None => None,
        }
    }

    pub fn new(transport: snow::TransportState) -> (s: Self)
        ensures
            !s.window().started(),
            forall|c: u64| !s.window().rejects(c),
    {
        let remote = remote_static_key(&transport);
        CryptoSession { transport, replay: ReplayWindow::new(), remote }
    }

    /// A session over the transport keys of a handshake whose peer proved
    /// the static key `remote`. `snow` carries the handshake's remote static
    /// key over into the transport unchanged, so this is the key the
    /// transport reports.
    pub(crate) fn with_remote_key(transport: snow::TransportState, remote: Vec<u8>) -> (s: Self)
        ensures
            !s.window().started(),
            forall|c: u64| !s.window().rejects(c),
            s.remote_key() == Some(remote@),
    {
        CryptoSession { transport, replay: ReplayWindow::new(), remote: Some(remote) }
    }

    /// Encrypt `plaintext`, returning `(counter, ciphertext)`.
    pub fn seal(&mut self, plaintext: &[u8]) -> (r: Result<(u64, Vec<u8>), SessionError>)
        requires
            plaintext@.len() + TAG_LEN <= usize::MAX,
        ensures
            final(self).window() == old(self).window(),
            final(self).remote_key() == old(self).remote_key(),
            plaintext@.len() + TAG_LEN > 65535 ==> r == Err::<(u64, Vec<u8>), SessionError>(SessionError::Crypto),
            r is Err ==> r == Err::<(u64, Vec<u8>), SessionError>(SessionError::Crypto),
            r matches Ok((_, ct)) ==> ct@.len() == plaintext@.len() + TAG_LEN,
    {
        let counter = sending_nonce(&self.transport);
        let mut out = crate::bytes::zeros(plaintext.len() + TAG_LEN);
        match write_message(&mut self.transport, plaintext, &mut out) {
            Some(n) => {
                out.truncate(n);
                Ok((counter, out))
            },
            None => Err(SessionError::Crypto),
        }
    }

    /// Decrypt a data frame's `(counter, ciphertext)`, enforcing anti-replay. A
    /// counter the window rejects is refused before any decryption; the window
    /// records the counter only once the packet authenticates.
    pub fn open(&mut self, counter: u64, ciphertext: &[u8]) -> (r: Result<Vec<u8>, SessionError>)
        ensures
            old(self).window().rejects(counter) ==> r == Err::<Vec<u8>, SessionError>(
                SessionError::Replay,
            ),
            r is Err ==> final(self).window() == old(self).window(),
            r is Ok ==> {
                &&& !old(self).window().rejects(counter)
                &&& final(self).window().rejects(counter)
                &&& forall|x: u64| #[trigger]
                    old(self).window().rejects(x) ==> final(self).window().rejects(x)
            },
            r matches Ok(pt) ==> pt@.len() <= ciphertext@.len(),
            final(self).remote_key() == old(self).remote_key(),
    {
        if !self.replay.check(counter) {
            return Err(SessionError::Replay);
        }
        set_receiving_nonce(&mut self.transport, counter);
        let mut out = crate::bytes::zeros(ciphertext.len());
        match read_message(&mut self.transport, ciphertext, &mut out) {
            Some(n) => {
                out.truncate(n);
                self.replay.accept(counter);
                Ok(out)
            },
            None => Err(SessionError::Crypto),
        }
    }

    /// The peer's static public key, learned during the handshake: the same
    /// on every call.
    pub fn remote_static(&self) -> (r: Option<Vec<u8>>)
        ensures
            match r {
                Some(k) => self.remote_key() == Some(k@),
                None => self.remote_key() is None,
            },
    {
        match &self.remote {
            Some(k) => Some(crate::bytes::copy_bytes(k.as_slice())),
            None => None,
        }
    }
}

} // verus!

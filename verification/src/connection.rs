//! Connection bookkeeping: negotiated roles, per-peer link states, and the
//! decisions that keep exactly one live session per peer.
use vstd::prelude::*;

use crate::text::{chars_of};
use crate::candidate::{Candidate, PeerAddr};
use crate::mesh::{decode_envelope_peer, envelope_peer, new_sid, own_envelope, own_envelope_ok, MeshError};
use crate::signaling::blob::str_eq;
use crate::signaling::message::{SignalEnvelope, SignalKind};

verus! {

/// Signaling role of this side of a link.
#[derive(Debug, Clone, Copy, PartialEq, Eq, Structural)]
pub enum Role {
    Idle,
    Initiator,
    Responder,
}

impl Default for Role {
    fn default() -> (r: Self)
        ensures
            r == Role::Idle,
    {
        Role::Idle
    }
}

/// The lower-case name of a role.
pub open spec fn role_name(r: Role) -> Seq<char> {
    match r {
        Role::Idle => "idle"@,
        Role::Initiator => "initiator"@,
        Role::Responder => "responder"@,
    }
}

impl Role {
    /// The lower-case name of this role.
    pub fn as_str(&self) -> (s: &'static str)
        ensures
            s@ == role_name(*self),
    {
        match self {
            Role::Idle => "idle",
            Role::Initiator => "initiator",
            Role::Responder => "responder",
        }
    }
}

/// Lifecycle of a live peer link. `Idle` and `Failed` permit a fresh connect;
/// `Connecting` and `Connected` reject a second attempt.
#[derive(Debug, Clone, Copy, PartialEq, Eq, Structural)]
pub enum LinkState {
    Idle,
    Connecting,
    Connected,
    Failed,
}

impl Default for LinkState {
    fn default() -> (s: Self)
        ensures
            s == LinkState::Idle,
    {
        LinkState::Idle
    }
}

/// Whether a link in state `s` blocks a new session to the same peer.
pub open spec fn is_active(s: LinkState) -> bool {
    s == LinkState::Connecting || s == LinkState::Connected
}

/// Connection-time settings, applied when a link is started.
#[derive(Debug, Clone, Copy, PartialEq, Eq, Structural)]
pub struct ConnectionSettings {
    /// Forward broadcast traffic (LAN discovery) into the tunnel.
    pub forward_broadcast: bool,
    /// Forward multicast traffic (LAN discovery) into the tunnel.
    pub forward_multicast: bool,
    /// FEC parity shards per group of 8 data packets.
    pub fec_parity_shards: u8,
}

pub fn default_true() -> (b: bool)
    ensures
        b,
{
    true
}

pub fn default_fec_parity_shards() -> (n: u8)
    ensures
        n == 1,
{
    1
}

impl Default for ConnectionSettings {
    fn default() -> (s: Self)
        ensures
            s.forward_broadcast,
            s.forward_multicast,
            s.fec_parity_shards == 1,
    {
        ConnectionSettings {
            forward_broadcast: default_true(),
            forward_multicast: default_true(),
            fec_parity_shards: default_fec_parity_shards(),
        }
    }
}

/// A peer as shown in a snapshot.
#[derive(Debug, Clone)]
pub struct PeerSnapshot {
    pub peer_address: String,
    pub candidate_count: usize,
}

/// The connection as shown to the UI.
#[derive(Debug, Clone)]
pub struct ConnectionSnapshot {
    pub role: String,
    pub local_candidate_count: usize,
    pub link: LinkState,
    pub peer: Option<PeerSnapshot>,
}

impl ConnectionSnapshot {
    /// The snapshot of a connection in `role` with `local_candidate_count`
    /// gathered candidates, link state `link` and, if negotiated, the peer's
    /// public key and candidate count.
    pub fn build(role: Role, local_candidate_count: usize, link: LinkState, peer: Option<(&[u8], usize)>) -> (s: Self)
        ensures
            s.role@ == role_name(role),
            s.local_candidate_count == local_candidate_count,
            s.link == link,
            peer is None ==> s.peer is None,
            peer matches Some((pk, n)) ==> (s.peer matches Some(p) && p.candidate_count == n
                && p.peer_address@ == crate::crypto::fingerprint_chars(pk@)),
    {
        let r = role.as_str();
        let rc = chars_of(r);
        let role_s = crate::text::string_of(rc.as_slice());
        let peer = match peer {
            Some((pk, n)) => Some(
                PeerSnapshot { peer_address: crate::crypto::fingerprint_of(pk), candidate_count: n },
            ),
            None => None,
        };
        ConnectionSnapshot { role: role_s, local_candidate_count, link, peer }
    }
}

/// One peer's tracked link.
#[derive(Debug)]
pub struct PeerEntry {
    pub key: String,
    pub state: LinkState,
}

/// Why a connection attempt was refused.
#[derive(Debug, Clone, Copy, PartialEq, Eq, Structural)]
pub enum ConnectRefusal {
    /// The peer advertised no candidates to punch.
    NoCandidates,
    /// A connection to this peer is already active.
    AlreadyActive,
}

impl ConnectRefusal {
    pub fn message(&self) -> (s: String)
        ensures
            *self == ConnectRefusal::NoCandidates ==> s@ == "peer advertised no candidates to punch"@,
            *self == ConnectRefusal::AlreadyActive ==> s@ == "a connection to this peer is already active"@,
    {
        match self {
            ConnectRefusal::NoCandidates => "peer advertised no candidates to punch".to_owned(),
            ConnectRefusal::AlreadyActive => "a connection to this peer is already active".to_owned(),
        }
    }
}

/// Per-peer link states, keyed by the peer's base64 public key. A peer with no
/// entry is `Idle`; entries are removed on disconnect.
pub struct PeerTable {
    entries: Vec<PeerEntry>,
}

/// A candidate endpoint: a socket address, IPv4 or IPv6.
pub type Endpoint = PeerAddr;

/// Whether `a` sorts strictly before `b` as `std` orders socket addresses:
/// IPv4 before IPv6, then by address, port (and, for IPv6, scope id).
pub open spec fn endpoint_lt(a: Endpoint, b: Endpoint) -> bool {
    match (a, b) {
        (PeerAddr::V4(ai, ap), PeerAddr::V4(bi, bp)) => ai < bi || (ai == bi && ap < bp),
        (PeerAddr::V4(..), PeerAddr::V6 { .. }) => true,
        (PeerAddr::V6 { .. }, PeerAddr::V4(..)) => false,
        (PeerAddr::V6 { ip: ai, port: ap, scope: asc }, PeerAddr::V6 { ip: bi, port: bp, scope: bsc }) => ai < bi
            || (ai == bi && (ap < bp || (ap == bp && asc < bsc))),
    }
}

/// Whether `s` is strictly increasing.
pub open spec fn strictly_sorted(s: Seq<Endpoint>) -> bool {
    forall|i: int, j: int| 0 <= i < j < s.len() ==> endpoint_lt(#[trigger] s[i], #[trigger] s[j])
}

impl PeerTable {
    /// The tracked links.
    pub closed spec fn links(self) -> Map<Seq<char>, LinkState> {
        Map::new(
            |k: Seq<char>| exists|i: int| 0 <= i < self.entries.len() && (#[trigger] self.entries[i]).key@ == k,
            |k: Seq<char>| self.entries[choose|i: int| 0 <= i < self.entries.len() && (#[trigger] self.entries[i]).key@ == k].state,
        )
    }

    pub closed spec fn wf(self) -> bool {
        forall|i: int, j: int|
            0 <= i < j < self.entries.len() ==> (#[trigger] self.entries[i]).key@ != (#[trigger] self.entries[j]).key@
    }

    /// The state of `key`: its entry's, or `Idle` without one.
    pub open spec fn state_of(self, key: Seq<char>) -> LinkState {
        if self.links().contains_key(key) {
            self.links()[key]
        } else {
            LinkState::Idle
        }
    }

    pub fn new() -> (t: Self)
        ensures
            t.wf(),
            t.links() == Map::<Seq<char>, LinkState>::empty(),
    {
        let t = PeerTable { entries: Vec::new() };
        assert(t.links() =~= Map::<Seq<char>, LinkState>::empty());
        t
    }

    fn position(&self, key: &String) -> (r: Option<usize>)
        requires
            self.wf(),
        ensures
            r matches Some(i) ==> i < self.entries.len() && self.entries[i as int].key@ == key@,
            r is None ==> forall|i: int| 0 <= i < self.entries.len() ==> (#[trigger] self.entries[i]).key@ != key@,
    {
        let mut i: usize = 0;
        while i < self.entries.len()
            invariant
                0 <= i <= self.entries.len(),
                forall|t: int| 0 <= t < i ==> (#[trigger] self.entries[t]).key@ != key@,
            decreases self.entries.len() - i,
        {
            if self.entries[i].key == *key {
                return Some(i);
            }
            i = i + 1;
        }
        None
    }

    proof fn lemma_links_at(&self, i: int)
        requires
            self.wf(),
            0 <= i < self.entries.len(),
        ensures
            self.links().contains_key(self.entries[i].key@),
            self.links()[self.entries[i].key@] == self.entries[i].state,
    {
        let k = self.entries[i].key@;
        let j = choose|j: int| 0 <= j < self.entries.len() && (#[trigger] self.entries[j]).key@ == k;
        if j != i {
            if j < i {
                assert(self.entries[j].key@ != self.entries[i].key@);
            } else {
                assert(self.entries[i].key@ != self.entries[j].key@);
            }
        }
    }

    /// The live-link state of `key`; `Idle` for a key with no entry.
    pub fn link_state_of(&self, key: &String) -> (s: LinkState)
        requires
            self.wf(),
        ensures
            s == self.state_of(key@),
    {
        match self.position(key) {
            Some(i) => {
                proof {
                    self.lemma_links_at(i as int);
                }
                self.entries[i].state
            },
            None => {
                assert(!self.links().contains_key(key@));
                LinkState::Idle
            },
        }
    }

    /// Every tracked peer and its state.
    pub fn peer_link_states(&self) -> (v: Vec<(String, LinkState)>)
        requires
            self.wf(),
        ensures
            v@.len() == self.links().len(),
            forall|i: int| 0 <= i < v@.len() ==> self.links().contains_key((#[trigger] v@[i]).0@) && self.links()[v@[i].0@] == v@[i].1,
    {
        let mut v: Vec<(String, LinkState)> = Vec::new();
        let mut i: usize = 0;
        while i < self.entries.len()
            invariant
                0 <= i <= self.entries.len(),
                self.wf(),
                v@.len() == i,
                forall|t: int| 0 <= t < i ==> (#[trigger] v@[t]).0@ == self.entries[t].key@ && v@[t].1 == self.entries[t].state,
            decreases self.entries.len() - i,
        {
            v.push((self.entries[i].key.clone(), self.entries[i].state));
            i = i + 1;
        }
        proof {
            assert forall|t: int| 0 <= t < v@.len() implies self.links().contains_key((#[trigger] v@[t]).0@) && self.links()[v@[t].0@] == v@[t].1 by {
                self.lemma_links_at(t);
            }
            self.lemma_len();
        }
        v
    }

    proof fn lemma_len(&self)
        requires
            self.wf(),
        ensures
            self.links().len() == self.entries.len(),
    {
        let keys = Seq::new(self.entries.len() as nat, |i: int| self.entries[i].key@);
        assert(keys.no_duplicates()) by {
            assert forall|i: int, j: int| 0 <= i < keys.len() && 0 <= j < keys.len() && i != j implies keys[i] != keys[j] by {
                if i < j {
                    assert(self.entries[i].key@ != self.entries[j].key@);
                } else {
                    assert(self.entries[j].key@ != self.entries[i].key@);
                }
            }
        }
        assert forall|k: Seq<char>| self.links().dom().contains(k) <==> keys.to_set().contains(k) by {
            if self.links().dom().contains(k) {
                let i = choose|i: int| 0 <= i < self.entries.len() && (#[trigger] self.entries[i]).key@ == k;
                assert(keys[i] == k);
            }
            if keys.to_set().contains(k) {
                assert(keys.contains(k));
                let i = choose|i: int| 0 <= i < keys.len() && keys[i] == k;
                assert(self.entries[i].key@ == k);
            }
        }
        assert(self.links().dom() =~= keys.to_set());
        keys.unique_seq_to_set();
    }

    /// Record that a session to `key` is starting. Refused when this peer
    /// already has a `Connecting` or `Connected` link — one session per peer,
    /// never one session total; a finished `Idle`/`Failed` link is replaced.
    /// Every other peer's entry is untouched.
    pub fn begin_connect(&mut self, key: &String) -> (r: Result<(), ConnectRefusal>)
        requires
            old(self).wf(),
        ensures
            final(self).wf(),
            is_active(old(self).state_of(key@)) ==> r == Err::<(), ConnectRefusal>(ConnectRefusal::AlreadyActive) && final(self).links() == old(self).links(),
            !is_active(old(self).state_of(key@)) ==> r is Ok && final(self).links() == old(self).links().insert(key@, LinkState::Connecting),
    {
        let cur = self.link_state_of(key);
        if cur == LinkState::Connecting || cur == LinkState::Connected {
            return Err(ConnectRefusal::AlreadyActive);
        }
        self.set_state(key, LinkState::Connecting);
        Ok(())
    }

    /// Start a session to the peer with public key `peer_public` at
    /// `candidates`: the candidates are sorted and deduplicated, an empty set
    /// is refused, and so is a peer whose link is active; otherwise the
    /// peer's key (standard base64 of its public key) is marked `Connecting`
    /// and returned with the candidates to punch.
    pub fn connect_plan(&mut self, peer_public: &[u8], candidates: &Vec<Endpoint>) -> (r: Result<
        (String, Vec<Endpoint>),
        ConnectRefusal,
    >)
        requires
            old(self).wf(),
        ensures
            final(self).wf(),
            candidates@.len() == 0 ==> r == Err::<(String, Vec<Endpoint>), ConnectRefusal>(ConnectRefusal::NoCandidates)
                && final(self).links() == old(self).links(),
            candidates@.len() > 0 && is_active(old(self).state_of(crate::crypto::b64_std_encoded(peer_public@))) ==> r == Err::<
                (String, Vec<Endpoint>),
                ConnectRefusal,
            >(ConnectRefusal::AlreadyActive) && final(self).links() == old(self).links(),
            candidates@.len() > 0 && !is_active(old(self).state_of(crate::crypto::b64_std_encoded(peer_public@))) ==> (r matches Ok(
                (key, cands),
            ) && key@ == crate::crypto::b64_std_encoded(peer_public@) && strictly_sorted(cands@) && (forall|e: Endpoint|
                cands@.contains(e) <==> candidates@.contains(e)) && final(self).links() == old(self).links().insert(
                key@,
                LinkState::Connecting,
            )),
    {
        let cands = normalize_candidates(candidates);
        if cands.len() == 0 {
            proof {
                if candidates@.len() > 0 {
                    assert(candidates@.contains(candidates@[0]));
                    assert(!cands@.contains(candidates@[0]));
                }
            }
            return Err(ConnectRefusal::NoCandidates);
        }
        proof {
            assert(cands@.contains(cands@[0]));
            assert(candidates@.contains(cands@[0]));
        }
        let key = crate::crypto::b64_std_encode(peer_public);
        match self.begin_connect(&key) {
            Ok(()) => Ok((key, cands)),
            Err(e) => Err(e),
        }
    }

    /// Set `key`'s state, adding an entry if it has none.
    pub fn set_state(&mut self, key: &String, state: LinkState)
        requires
            old(self).wf(),
        ensures
            final(self).wf(),
            final(self).links() == old(self).links().insert(key@, state),
    {
        let ghost old_links = self.links();
        match self.position(key) {
            Some(i) => {
                let k = self.entries[i].key.clone();
                let ghost s0 = *self;
                self.entries.set(i, PeerEntry { key: k, state });
                proof {
                    assert forall|a: int, b: int| 0 <= a < b < self.entries.len() implies (#[trigger] self.entries[a]).key@ != (#[trigger] self.entries[b]).key@ by {
                        assert(self.entries[a].key@ == s0.entries[a].key@);
                        assert(self.entries[b].key@ == s0.entries[b].key@);
                    }
                    assert forall|kk: Seq<char>| #[trigger] self.links().contains_key(kk) <==> old_links.insert(key@, state).contains_key(kk) by {
                        if old_links.contains_key(kk) {
                            let j = choose|j: int| 0 <= j < s0.entries.len() && (#[trigger] s0.entries[j]).key@ == kk;
                            assert(self.entries[j].key@ == kk);
                        }
                        if self.links().contains_key(kk) {
                            let j = choose|j: int| 0 <= j < self.entries.len() && (#[trigger] self.entries[j]).key@ == kk;
                            assert(s0.entries[j].key@ == kk);
                        }
                        if kk == key@ {
                            assert(self.entries[i as int].key@ == kk);
                        }
                    }
                    assert forall|kk: Seq<char>| #[trigger] self.links().contains_key(kk) implies self.links()[kk] == old_links.insert(key@, state)[kk] by {
                        let j = choose|j: int| 0 <= j < self.entries.len() && (#[trigger] self.entries[j]).key@ == kk;
                        self.lemma_links_at(j);
                        if kk != key@ {
                            assert(s0.entries[j].key@ == kk);
                            s0.lemma_links_at(j);
                        }
                    }
                    assert(self.links() =~= old_links.insert(key@, state));
                }
            },
            None => {
                let ghost before = self.entries@;
                let ghost s0 = *self;
                self.entries.push(PeerEntry { key: key.clone(), state });
                proof {
                    assert forall|a: int, b: int| 0 <= a < b < self.entries.len() implies (#[trigger] self.entries[a]).key@ != (#[trigger] self.entries[b]).key@ by {
                        if b < before.len() {
                            assert(self.entries[a].key@ == before[a].key@);
                            assert(self.entries[b].key@ == before[b].key@);
                        }
                    }
                    assert forall|kk: Seq<char>| #[trigger] self.links().contains_key(kk) <==> old_links.insert(key@, state).contains_key(kk) by {
                        if old_links.contains_key(kk) {
                            let j = choose|j: int| 0 <= j < before.len() && (#[trigger] before[j]).key@ == kk;
                            assert(self.entries[j].key@ == kk);
                        }
                        if kk == key@ {
                            assert(self.entries[before.len() as int].key@ == kk);
                        }
                    }
                    assert forall|kk: Seq<char>| #[trigger] self.links().contains_key(kk) implies self.links()[kk] == old_links.insert(key@, state)[kk] by {
                        let j = choose|j: int| 0 <= j < self.entries.len() && (#[trigger] self.entries[j]).key@ == kk;
                        self.lemma_links_at(j);
                        if kk != key@ {
                            assert(j < before.len());
                            assert(s0.entries[j].key@ == kk);
                            s0.lemma_links_at(j);
                        }
                    }
                    assert(self.links() =~= old_links.insert(key@, state));
                }
            },
        }
    }

    /// Tear down `key`'s link: its entry is removed (equivalent to `Idle`);
    /// every other peer's entry is untouched. A no-op without an entry.
    pub fn remove(&mut self, key: &String)
        requires
            old(self).wf(),
        ensures
            final(self).wf(),
            final(self).links() == old(self).links().remove(key@),
    {
        let ghost old_links = self.links();
        match self.position(key) {
            Some(i) => {
                let ghost before = self.entries@;
                let _e = self.entries.remove(i);
                proof {
                    assert forall|kk: Seq<char>| #[trigger] self.links().contains_key(kk) <==> old_links.remove(key@).contains_key(kk) by {
                        if self.links().contains_key(kk) {
                            let j = choose|j: int| 0 <= j < self.entries.len() && (#[trigger] self.entries[j]).key@ == kk;
                            if j < i {
                                assert(before[j].key@ == kk);
                                assert(before[j].key@ != before[i as int].key@);
                            } else {
                                assert(before[j + 1].key@ == kk);
                                assert(before[i as int].key@ != before[j + 1].key@);
                            }
                        }
                        if old_links.remove(key@).contains_key(kk) {
                            let j = choose|j: int| 0 <= j < before.len() && (#[trigger] before[j]).key@ == kk;
                            if j < i {
                                assert(self.entries[j].key@ == kk);
                            } else {
                                assert(j != i);
                                assert(self.entries[j - 1].key@ == kk);
                            }
                        }
                    }
                    assert(self.links() =~= old_links.remove(key@));
                }
            },
            None => {
                assert(self.links() =~= old_links.remove(key@));
            },
        }
    }
}

/// Sort `cands` ascending and drop duplicates (host and reflexive candidates
/// coincide without NAT).
pub fn normalize_candidates(cands: &Vec<Endpoint>) -> (out: Vec<Endpoint>)
    ensures
        strictly_sorted(out@),
        forall|e: Endpoint| out@.contains(e) <==> cands@.contains(e),
{
    let mut out: Vec<Endpoint> = Vec::new();
    let mut i: usize = 0;
    while i < cands.len()
        invariant
            0 <= i <= cands.len(),
            strictly_sorted(out@),
            forall|e: Endpoint| out@.contains(e) <==> cands@.take(i as int).contains(e),
        decreases cands.len() - i,
    {
        let e = cands[i];
        let ghost before = out@;
        let mut j: usize = 0;
        while j < out.len() && endpoint_lt_exec(out[j], e)
            invariant
                0 <= j <= out.len(),
                out@ == before,
                forall|t: int| 0 <= t < j ==> endpoint_lt(#[trigger] out@[t], e),
            decreases out.len() - j,
        {
            j = j + 1;
        }
        if j < out.len() && out[j] == e {
        } else {
            out.insert(j, e);
            proof {
                assert forall|a: int, b: int| 0 <= a < b < out@.len() implies endpoint_lt(#[trigger] out@[a], #[trigger] out@[b]) by {
                    if b < j {
                        assert(out@[a] == before[a] && out@[b] == before[b]);
                    } else if b == j {
                        assert(out@[a] == before[a]);
                    } else if a == j {
                        assert(out@[b] == before[b - 1]);
                        if j < before.len() {
                            assert(!endpoint_lt(before[j as int], e));
                            assert(before[j as int] != e);
                            if b - 1 > j {
                                assert(endpoint_lt(before[j as int], before[b - 1]));
                            }
                        }
                    } else if a < j {
                        assert(out@[a] == before[a] && out@[b] == before[b - 1]);
                    } else {
                        assert(out@[a] == before[a - 1] && out@[b] == before[b - 1]);
                    }
                }
            }
        }
        proof {
            assert(cands@.take(i + 1) =~= cands@.take(i as int).push(e));
            assert forall|x: Endpoint| out@.contains(x) <==> cands@.take(i + 1).contains(x) by {
                if out@.contains(x) {
                    let k = choose|k: int| 0 <= k < out@.len() && out@[k] == x;
                    if x != e {
                        if k < j {
                            assert(before[k] == x);
                        } else if out@.len() > before.len() {
                            assert(before[k - 1] == x);
                        } else {
                            assert(before[k] == x);
                        }
                        assert(before.contains(x));
                        assert(cands@.take(i as int).contains(x));
                        let m = choose|m: int| 0 <= m < cands@.take(i as int).len() && cands@.take(i as int)[m] == x;
                        assert(cands@.take(i + 1)[m] == x);
                    } else {
                        assert(cands@.take(i + 1)[i as int] == e);
                    }
                }
                let t = cands@.take(i + 1);
                if t.contains(x) {
                    let m = choose|m: int| 0 <= m < t.len() && t[m] == x;
                    if m < i {
                        assert(cands@.take(i as int)[m] == x);
                        assert(before.contains(x));
                        let k = choose|k: int| 0 <= k < before.len() && before[k] == x;
                        if out@.len() > before.len() {
                            if k < j {
                                assert(out@[k] == x);
                            } else {
                                assert(out@[k + 1] == x);
                            }
                        } else {
                            assert(out@[k] == x);
                        }
                    } else {
                        if out@.len() > before.len() {
                            assert(out@[j as int] == e);
                        } else {
                            assert(out@[j as int] == e);
                        }
                    }
                }
            }
        }
        i = i + 1;
    }
    assert(cands@.take(cands.len() as int) =~= cands@);
    out
}

fn endpoint_lt_exec(a: Endpoint, b: Endpoint) -> (r: bool)
    ensures
        r == endpoint_lt(a, b),
{
    match (a, b) {
        (PeerAddr::V4(ai, ap), PeerAddr::V4(bi, bp)) => ai < bi || (ai == bi && ap < bp),
        (PeerAddr::V4(..), PeerAddr::V6 { .. }) => true,
        (PeerAddr::V6 { .. }, PeerAddr::V4(..)) => false,
        (PeerAddr::V6 { ip: ai, port: ap, scope: asc }, PeerAddr::V6 { ip: bi, port: bp, scope: bsc }) => ai < bi
            || (ai == bi && (ap < bp || (ap == bp && asc < bsc))),
    }
}

/// A peer negotiated through signaling: its public key and candidates.
#[derive(Debug, Clone)]
pub struct NegotiatedPeer {
    pub public_key: Vec<u8>,
    pub candidates: Vec<Endpoint>,
}

/// The one negotiation the manual offer/answer flow handles at a time: its
/// session id, our role in it, and the peer once known.
#[derive(Debug)]
pub struct Negotiation {
    sid: Option<String>,
    role: Role,
    peer: Option<NegotiatedPeer>,
}

impl Negotiation {
    pub closed spec fn sid_view(self) -> Option<Seq<char>> {
        match self.sid {
            Some(s) => Some(s@),
            None => None,
        }
    }

    pub closed spec fn role_view(self) -> Role {
        self.role
    }

    pub closed spec fn peer_view(self) -> Option<(Seq<u8>, Seq<Endpoint>)> {
        match self.peer {
            Some(p) => Some((p.public_key@, p.candidates@)),
            None => None,
        }
    }

    /// Nothing negotiated.
    pub fn new() -> (n: Self)
        ensures
            n.sid_view() is None,
            n.role_view() == Role::Idle,
            n.peer_view() is None,
    {
        Negotiation { sid: None, role: Role::Idle, peer: None }
    }

    /// We created an offer with session id `sid`: we initiate, and any
    /// earlier peer is forgotten.
    pub fn begin_offer(&mut self, sid: String)
        ensures
            final(self).sid_view() == Some(sid@),
            final(self).role_view() == Role::Initiator,
            final(self).peer_view() is None,
    {
        self.sid = Some(sid);
        self.role = Role::Initiator;
        self.peer = None;
    }

    /// We accepted an offer with session id `sid`: we respond.
    pub fn begin_answer(&mut self, sid: String)
        ensures
            final(self).sid_view() == Some(sid@),
            final(self).role_view() == Role::Responder,
            final(self).peer_view() == old(self).peer_view(),
    {
        self.sid = Some(sid);
        self.role = Role::Responder;
    }

    /// The peer is now known.
    pub fn set_peer(&mut self, peer: NegotiatedPeer)
        ensures
            final(self).sid_view() == old(self).sid_view(),
            final(self).role_view() == old(self).role_view(),
            final(self).peer_view() == Some((peer.public_key@, peer.candidates@)),
    {
        self.peer = Some(peer);
    }

    /// The session id of the pending offer or answer.
    pub fn session_id(&self) -> (s: Option<String>)
        ensures
            s is None <==> self.sid_view() is None,
            s matches Some(v) ==> self.sid_view() == Some(v@),
    {
        match &self.sid {
            Some(s) => Some(s.clone()),
            None => None,
        }
    }

    /// Our role in the negotiation.
    pub fn role(&self) -> (r: Role)
        ensures
            r == self.role_view(),
    {
        self.role
    }

    /// The negotiated peer's key: standard base64 of its public key.
    pub fn current_peer_key(&self) -> (k: Option<String>)
        ensures
            k is None <==> self.peer_view() is None,
            k matches Some(v) ==> self.peer_view() matches Some((pk, _c)) && v@ == crate::crypto::b64_std_encoded(pk),
    {
        match &self.peer {
            Some(p) => Some(crate::crypto::b64_std_encode(p.public_key.as_slice())),
            None => None,
        }
    }

    /// What a connect to the negotiated peer uses: our role, its public key
    /// and candidates. Refused, in this order, without a socket, without a
    /// peer, or without a role.
    pub fn connect_target(&self, has_socket: bool) -> (r: Result<(Role, Vec<u8>, Vec<Endpoint>), String>)
        ensures
            !has_socket ==> (r matches Err(m) && m@ == "no socket — create or accept an offer first"@),
            has_socket && self.peer_view() is None ==> (r matches Err(m) && m@
                == "no negotiated peer — exchange an offer/answer first"@),
            has_socket && self.peer_view() is Some && self.role_view() == Role::Idle ==> (r matches Err(m) && m@
                == "no role — create or accept an offer first"@),
            has_socket && self.peer_view() is Some && self.role_view() != Role::Idle ==> (r matches Ok((role, pk, cands))
                && role == self.role_view() && Some((pk@, cands@)) == self.peer_view()),
    {
        if !has_socket {
            return Err("no socket — create or accept an offer first".to_owned());
        }
        let peer = match &self.peer {
            Some(p) => p,
            None => {
                return Err("no negotiated peer — exchange an offer/answer first".to_owned());
            },
        };
        if self.role == Role::Idle {
            return Err("no role — create or accept an offer first".to_owned());
        }
        Ok((self.role, crate::bytes::copy_bytes(peer.public_key.as_slice()), copy_endpoints(&peer.candidates)))
    }
}

/// The peer an accepted envelope describes, or the text of why it does not
/// describe one.
pub fn to_peer(env: &SignalEnvelope) -> (r: Result<NegotiatedPeer, String>)
    ensures
        r is Ok <==> envelope_peer(*env) is Some,
        r matches Ok(p) ==> envelope_peer(*env) == Some((p.public_key@, p.candidates@)),
{
    match decode_envelope_peer(env) {
        Ok((public_key, candidates)) => Ok(NegotiatedPeer { public_key, candidates }),
        Err(MeshError::MalformedEnvelope(m)) => Err(m),
        Err(other) => Err(other.message()),
    }
}

/// Refuse an envelope of the wrong kind, with the text the pasting user sees.
pub fn expect_kind(env: &SignalEnvelope, kind: SignalKind) -> (r: Result<(), String>)
    ensures
        r is Ok <==> env.kind == kind,
        env.kind != kind && kind == SignalKind::Offer ==> (r matches Err(m) && m@ == "expected an offer blob"@),
        env.kind != kind && kind == SignalKind::Answer ==> (r matches Err(m) && m@ == "expected an answer blob"@),
{
    if env.kind == kind {
        return Ok(());
    }
    match kind {
        SignalKind::Offer => Err("expected an offer blob".to_owned()),
        SignalKind::Answer => Err("expected an answer blob".to_owned()),
    }
}

impl Negotiation {
    /// Start negotiating as the initiator: a fresh session id, and the offer
    /// carrying our key and candidates.
    pub fn create_offer(&mut self, our_pubkey: &str, local: &[Candidate]) -> (offer: SignalEnvelope)
        ensures
            own_envelope_ok(offer, SignalKind::Offer, offer.sid@, our_pubkey@, local@),
            final(self).sid_view() == Some(offer.sid@),
            final(self).role_view() == Role::Initiator,
            final(self).peer_view() is None,
    {
        let sid = new_sid();
        self.begin_offer(sid.clone());
        own_envelope(SignalKind::Offer, sid, our_pubkey, local)
    }

    /// Answer an accepted offer as the responder: we take its session id and
    /// role, then its peer; the answer carries our key and candidates. A
    /// malformed peer still leaves the session id and role taken.
    pub fn take_offer(&mut self, offer: &SignalEnvelope, our_pubkey: &str, local: &[Candidate]) -> (r: Result<
        SignalEnvelope,
        String,
    >)
        ensures
            final(self).sid_view() == Some(offer.sid@),
            final(self).role_view() == Role::Responder,
            envelope_peer(*offer) is None ==> r is Err && final(self).peer_view() == old(self).peer_view(),
            envelope_peer(*offer) is Some ==> final(self).peer_view() == envelope_peer(*offer) && (r matches Ok(answer)
                && own_envelope_ok(answer, SignalKind::Answer, offer.sid@, our_pubkey@, local@)),
    {
        self.begin_answer(offer.sid.clone());
        let peer = to_peer(offer)?;
        self.set_peer(peer);
        Ok(own_envelope(SignalKind::Answer, offer.sid.clone(), our_pubkey, local))
    }

    /// Accept the answer to our offer: it must carry the pending session id.
    pub fn take_answer(&mut self, answer: &SignalEnvelope) -> (r: Result<(), String>)
        ensures
            final(self).sid_view() == old(self).sid_view(),
            final(self).role_view() == old(self).role_view(),
            old(self).sid_view() is None ==> (r matches Err(m) && m@ == "no pending offer — create an offer first"@)
                && final(self).peer_view() == old(self).peer_view(),
            old(self).sid_view() matches Some(s) && s != answer.sid@ ==> (r matches Err(m) && m@
                == "answer session id does not match the pending offer"@) && final(self).peer_view() == old(self).peer_view(),
            old(self).sid_view() == Some(answer.sid@) ==> (r is Ok <==> envelope_peer(*answer) is Some) && (r is Ok
                ==> final(self).peer_view() == envelope_peer(*answer)) && (r is Err ==> final(self).peer_view()
                == old(self).peer_view()),
    {
        match &self.sid {
            Some(sid) => {
                if !str_eq(sid.as_str(), answer.sid.as_str()) {
                    return Err("answer session id does not match the pending offer".to_owned());
                }
            },
            None => {
                return Err("no pending offer — create an offer first".to_owned());
            },
        }
        let peer = to_peer(answer)?;
        self.set_peer(peer);
        Ok(())
    }
}

/// A copy of `v`.
fn copy_endpoints(v: &Vec<Endpoint>) -> (c: Vec<Endpoint>)
    ensures
        c@ == v@,
{
    let mut c: Vec<Endpoint> = Vec::new();
    let mut i: usize = 0;
    while i < v.len()
        invariant
            0 <= i <= v@.len(),
            c@ == v@.take(i as int),
        decreases v@.len() - i,
    {
        c.push(v[i]);
        i = i + 1;
        assert(c@ =~= v@.take(i as int));
    }
    assert(v@.take(v@.len() as int) =~= v@);
    c
}

} // verus!

//! The host's view of a virtual network: who may join, and who is in it.
//! Joins are checked in a fixed order: protocol version, network name,
//! password hash, then whether the key is already a member.
use vstd::prelude::*;

use crate::crypto::{hash_password, hex_lower_chars, sha256_of};
use vstd::string::StringSliceAdditionalSpecFns;
use super::blob::str_eq;
use super::protocol::{JoinRejectReason, MemberInfo, PROTOCOL_VERSION};

verus! {

/// The network's name, its password hash and its members by public key.
pub struct Roster {
    network_name: String,
    password_hash: String,
    entries: Vec<MemberInfo>,
}

/// Why a join with these fields would be refused by a network named `name`
/// with password hash `hash` and members `members`, if it would.
pub open spec fn join_rejection(
    v: u32,
    network_name: Seq<char>,
    password_hash: Seq<char>,
    pubkey: Seq<char>,
    name: Seq<char>,
    hash: Seq<char>,
    members: Map<Seq<char>, Seq<char>>,
) -> Option<JoinRejectReason> {
    if v != PROTOCOL_VERSION {
        Some(JoinRejectReason::UnsupportedVersion)
    } else if network_name != name {
        Some(JoinRejectReason::WrongNetworkName)
    } else if password_hash != hash {
        Some(JoinRejectReason::WrongPassword)
    } else if members.contains_key(pubkey) {
        Some(JoinRejectReason::AlreadyJoined)
    } else {
        None
    }
}

impl Roster {
    /// Members by public key, each with its fingerprint.
    pub closed spec fn members(self) -> Map<Seq<char>, Seq<char>> {
        Map::new(
            |k: Seq<char>| exists|i: int| 0 <= i < self.entries.len() && (#[trigger] self.entries[i]).pubkey@ == k,
            |k: Seq<char>|
                self.entries[choose|i: int| 0 <= i < self.entries.len() && (#[trigger] self.entries[i]).pubkey@ == k].fingerprint@,
        )
    }

    pub closed spec fn name(self) -> Seq<char> {
        self.network_name@
    }

    pub closed spec fn hash(self) -> Seq<char> {
        self.password_hash@
    }

    pub closed spec fn wf(self) -> bool {
        forall|i: int, j: int|
            0 <= i < j < self.entries.len() ==> (#[trigger] self.entries[i]).pubkey@ != (#[trigger] self.entries[j]).pubkey@
    }

    /// An empty network named `network_name`; only the hex SHA-256 of
    /// `password` is kept.
    pub fn new(network_name: String, password: &str) -> (r: Self)
        ensures
            r.wf(),
            r.name() == network_name@,
            r.hash() == hex_lower_chars(sha256_of(password.spec_bytes())),
            r.members() == Map::<Seq<char>, Seq<char>>::empty(),
    {
        let r = Roster { network_name, password_hash: hash_password(password), entries: Vec::new() };
        assert(r.members() =~= Map::<Seq<char>, Seq<char>>::empty());
        r
    }

    /// Index of the member with key `key`, if any.
    fn position(&self, key: &str) -> (r: Option<usize>)
        requires
            self.wf(),
        ensures
            r matches Some(i) ==> i < self.entries.len() && self.entries[i as int].pubkey@ == key@,
            r is None ==> forall|i: int| 0 <= i < self.entries.len() ==> (#[trigger] self.entries[i]).pubkey@ != key@,
    {
        let mut i: usize = 0;
        while i < self.entries.len()
            invariant
                0 <= i <= self.entries.len(),
                forall|t: int| 0 <= t < i ==> (#[trigger] self.entries[t]).pubkey@ != key@,
            decreases self.entries.len() - i,
        {
            if str_eq(self.entries[i].pubkey.as_str(), key) {
                return Some(i);
            }
            i = i + 1;
        }
        None
    }

    proof fn lemma_member_at(&self, i: int)
        requires
            self.wf(),
            0 <= i < self.entries.len(),
        ensures
            self.members().contains_key(self.entries[i].pubkey@),
            self.members()[self.entries[i].pubkey@] == self.entries[i].fingerprint@,
    {
        let k = self.entries[i].pubkey@;
        let j = choose|j: int| 0 <= j < self.entries.len() && (#[trigger] self.entries[j]).pubkey@ == k;
        if j != i {
            if j < i {
                assert(self.entries[j].pubkey@ != self.entries[i].pubkey@);
            } else {
                assert(self.entries[i].pubkey@ != self.entries[j].pubkey@);
            }
        }
    }

    proof fn lemma_len(&self)
        requires
            self.wf(),
        ensures
            self.members().len() == self.entries.len(),
            self.members().dom().finite(),
    {
        let keys = Seq::new(self.entries.len() as nat, |i: int| self.entries[i].pubkey@);
        assert(keys.no_duplicates()) by {
            assert forall|i: int, j: int| 0 <= i < keys.len() && 0 <= j < keys.len() && i != j implies keys[i] != keys[j] by {
                if i < j {
                    assert(self.entries[i].pubkey@ != self.entries[j].pubkey@);
                } else {
                    assert(self.entries[j].pubkey@ != self.entries[i].pubkey@);
                }
            }
        }
        assert forall|k: Seq<char>| self.members().dom().contains(k) <==> keys.to_set().contains(k) by {
            if self.members().dom().contains(k) {
                let i = choose|i: int| 0 <= i < self.entries.len() && (#[trigger] self.entries[i]).pubkey@ == k;
                assert(keys[i] == k);
            }
            if keys.to_set().contains(k) {
                assert(keys.contains(k));
                let i = choose|i: int| 0 <= i < keys.len() && keys[i] == k;
                assert(self.entries[i].pubkey@ == k);
            }
        }
        assert(self.members().dom() =~= keys.to_set());
        keys.unique_seq_to_set();
    }

    /// Whether `pubkey` is a current member: a relay to anyone else is
    /// dropped.
    pub fn is_member(&self, pubkey: &str) -> (b: bool)
        requires
            self.wf(),
        ensures
            b == self.members().contains_key(pubkey@),
    {
        match self.position(pubkey) {
            Some(i) => {
                proof {
                    self.lemma_member_at(i as int);
                }
                true
            },
            None => false,
        }
    }

    /// Every member, in no particular order.
    pub fn snapshot(&self) -> (v: Vec<MemberInfo>)
        requires
            self.wf(),
        ensures
            v@.len() == self.members().len(),
            forall|i: int| 0 <= i < v@.len() ==> self.members().contains_key((#[trigger] v@[i]).pubkey@)
                && self.members()[v@[i].pubkey@] == v@[i].fingerprint@,
            forall|i: int, j: int| 0 <= i < j < v@.len() ==> (#[trigger] v@[i]).pubkey@ != (#[trigger] v@[j]).pubkey@,
    {
        let mut v: Vec<MemberInfo> = Vec::new();
        let mut i: usize = 0;
        while i < self.entries.len()
            invariant
                0 <= i <= self.entries.len(),
                self.wf(),
                v@.len() == i,
                forall|t: int| 0 <= t < i ==> (#[trigger] v@[t]).pubkey@ == self.entries[t].pubkey@ && v@[t].fingerprint@
                    == self.entries[t].fingerprint@,
            decreases self.entries.len() - i,
        {
            let m = MemberInfo {
                pubkey: self.entries[i].pubkey.clone(),
                fingerprint: self.entries[i].fingerprint.clone(),
            };
            v.push(m);
            i = i + 1;
        }
        proof {
            assert forall|t: int| 0 <= t < v@.len() implies self.members().contains_key((#[trigger] v@[t]).pubkey@)
                && self.members()[v@[t].pubkey@] == v@[t].fingerprint@ by {
                self.lemma_member_at(t);
            }
            assert forall|a: int, b: int| 0 <= a < b < v@.len() implies (#[trigger] v@[a]).pubkey@ != (#[trigger] v@[b]).pubkey@ by {
                assert(self.entries[a].pubkey@ != self.entries[b].pubkey@);
            }
            self.lemma_len();
        }
        v
    }

    /// The public keys a broadcast triggered by `exclude` goes to: every
    /// member but `exclude`.
    pub fn recipients(&self, exclude: &str) -> (v: Vec<String>)
        requires
            self.wf(),
        ensures
            forall|i: int| 0 <= i < v@.len() ==> self.members().contains_key((#[trigger] v@[i])@) && v@[i]@ != exclude@,
            forall|k: Seq<char>| #[trigger] self.members().contains_key(k) && k != exclude@ ==> exists|i: int| 0 <= i < v@.len() && (#[trigger] v@[i])@ == k,
    {
        let mut v: Vec<String> = Vec::new();
        let mut i: usize = 0;
        while i < self.entries.len()
            invariant
                0 <= i <= self.entries.len(),
                self.wf(),
                forall|t: int| 0 <= t < v@.len() ==> exists|j: int| 0 <= j < i && (#[trigger] self.entries[j]).pubkey@ == (#[trigger] v@[t])@,
                forall|t: int| 0 <= t < v@.len() ==> (#[trigger] v@[t])@ != exclude@,
                forall|j: int| 0 <= j < i && (#[trigger] self.entries[j]).pubkey@ != exclude@ ==> exists|t: int| 0 <= t < v@.len() && (#[trigger] v@[t])@ == self.entries[j].pubkey@,
            decreases self.entries.len() - i,
        {
            let ghost before = v@;
            if !str_eq(self.entries[i].pubkey.as_str(), exclude) {
                v.push(self.entries[i].pubkey.clone());
                assert(v@[v@.len() - 1]@ == self.entries[i as int].pubkey@);
            }
            proof {
                assert forall|t: int| 0 <= t < v@.len() implies exists|j: int| 0 <= j < i + 1 && (#[trigger] self.entries[j]).pubkey@ == (#[trigger] v@[t])@ by {
                    if t < before.len() {
                        assert(v@[t] == before[t]);
                        let j = choose|j: int| 0 <= j < i && (#[trigger] self.entries[j]).pubkey@ == before[t]@;
                        assert(self.entries[j].pubkey@ == v@[t]@);
                    } else {
                        assert(self.entries[i as int].pubkey@ == v@[t]@);
                    }
                }
                assert forall|t: int| 0 <= t < v@.len() implies (#[trigger] v@[t])@ != exclude@ by {
                    if t < before.len() {
                        assert(v@[t] == before[t]);
                    }
                }
                assert forall|j: int| 0 <= j < i + 1 && (#[trigger] self.entries[j]).pubkey@ != exclude@ implies exists|t: int| 0 <= t < v@.len() && (#[trigger] v@[t])@ == self.entries[j].pubkey@ by {
                    if j < i {
                        let t = choose|t: int| 0 <= t < before.len() && (#[trigger] before[t])@ == self.entries[j].pubkey@;
                        assert(v@[t] == before[t]);
                    } else {
                        assert(v@[v@.len() - 1]@ == self.entries[j].pubkey@);
                    }
                }
            }
            i = i + 1;
        }
        proof {
            assert forall|t: int| 0 <= t < v@.len() implies self.members().contains_key((#[trigger] v@[t])@) && v@[t]@ != exclude@ by {
                let j = choose|j: int| 0 <= j < self.entries.len() && (#[trigger] self.entries[j]).pubkey@ == v@[t]@;
                self.lemma_member_at(j);
            }
            assert forall|k: Seq<char>| #[trigger] self.members().contains_key(k) && k != exclude@ implies exists|i: int| 0 <= i < v@.len() && (#[trigger] v@[i])@ == k by {
                let j = choose|j: int| 0 <= j < self.entries.len() && (#[trigger] self.entries[j]).pubkey@ == k;
                assert(self.entries[j].pubkey@ != exclude@);
            }
        }
        v
    }

    /// Admit `pubkey` with `fingerprint` unless the join is refused; an
    /// admitted member receives everyone who was already present.
    pub fn join(&mut self, v: u32, network_name: &str, password_hash: &str, pubkey: &String, fingerprint: &String) -> (r: Result<
        Vec<MemberInfo>,
        JoinRejectReason,
    >)
        requires
            old(self).wf(),
        ensures
            final(self).wf(),
            final(self).name() == old(self).name(),
            final(self).hash() == old(self).hash(),
            ({
                let why = join_rejection(v, network_name@, password_hash@, pubkey@, old(self).name(), old(self).hash(), old(self).members());
                &&& why matches Some(reason) ==> r == Err::<Vec<MemberInfo>, JoinRejectReason>(reason) && final(self).members() == old(self).members()
                &&& why is None ==> r is Ok && final(self).members() == old(self).members().insert(pubkey@, fingerprint@)
            }),
            r matches Ok(existing) ==> existing@.len() == old(self).members().len() && forall|i: int|
                0 <= i < existing@.len() ==> old(self).members().contains_key((#[trigger] existing@[i]).pubkey@)
                    && old(self).members()[existing@[i].pubkey@] == existing@[i].fingerprint@,
            r matches Ok(existing) ==> forall|i: int, j: int|
                0 <= i < j < existing@.len() ==> (#[trigger] existing@[i]).pubkey@ != (#[trigger] existing@[j]).pubkey@,
    {
        if v != PROTOCOL_VERSION {
            return Err(JoinRejectReason::UnsupportedVersion);
        }
        if !str_eq(network_name, self.network_name.as_str()) {
            return Err(JoinRejectReason::WrongNetworkName);
        }
        if !str_eq(password_hash, self.password_hash.as_str()) {
            return Err(JoinRejectReason::WrongPassword);
        }
        if self.is_member(pubkey.as_str()) {
            return Err(JoinRejectReason::AlreadyJoined);
        }
        let existing = self.snapshot();
        let ghost old_members = self.members();
        let ghost before = self.entries@;
        let ghost s0 = *self;
        self.entries.push(MemberInfo { pubkey: pubkey.clone(), fingerprint: fingerprint.clone() });
        proof {
            assert forall|a: int, b: int| 0 <= a < b < self.entries.len() implies (#[trigger] self.entries[a]).pubkey@ != (#[trigger] self.entries[b]).pubkey@ by {
                if b < before.len() {
                    assert(self.entries[a].pubkey@ == before[a].pubkey@);
                    assert(self.entries[b].pubkey@ == before[b].pubkey@);
                } else {
                    assert(self.entries[a].pubkey@ == s0.entries[a].pubkey@);
                    if s0.entries[a].pubkey@ == pubkey@ {
                        s0.lemma_member_at(a);
                    }
                }
            }
            assert forall|kk: Seq<char>| #[trigger] self.members().contains_key(kk) <==> old_members.insert(pubkey@, fingerprint@).contains_key(kk) by {
                if old_members.contains_key(kk) {
                    let j = choose|j: int| 0 <= j < before.len() && (#[trigger] before[j]).pubkey@ == kk;
                    assert(self.entries[j].pubkey@ == kk);
                }
                if kk == pubkey@ {
                    assert(self.entries[before.len() as int].pubkey@ == kk);
                }
                if self.members().contains_key(kk) {
                    let j = choose|j: int| 0 <= j < self.entries.len() && (#[trigger] self.entries[j]).pubkey@ == kk;
                    if j < before.len() {
                        assert(s0.entries[j].pubkey@ == kk);
                    }
                }
            }
            assert forall|kk: Seq<char>| #[trigger] self.members().contains_key(kk) implies self.members()[kk] == old_members.insert(pubkey@, fingerprint@)[kk] by {
                let j = choose|j: int| 0 <= j < self.entries.len() && (#[trigger] self.entries[j]).pubkey@ == kk;
                self.lemma_member_at(j);
                if kk != pubkey@ {
                    assert(j < before.len());
                    assert(s0.entries[j].pubkey@ == kk);
                    s0.lemma_member_at(j);
                }
            }
            assert(self.members() =~= old_members.insert(pubkey@, fingerprint@));
        }
        Ok(existing)
    }

    /// Remove `pubkey` from the network.
    pub fn leave(&mut self, pubkey: &str)
        requires
            old(self).wf(),
        ensures
            final(self).wf(),
            final(self).name() == old(self).name(),
            final(self).hash() == old(self).hash(),
            final(self).members() == old(self).members().remove(pubkey@),
    {
        let ghost old_members = self.members();
        match self.position(pubkey) {
            Some(i) => {
                let ghost before = self.entries@;
                let _e = self.entries.remove(i);
                proof {
                    assert forall|kk: Seq<char>| #[trigger] self.members().contains_key(kk) <==> old_members.remove(pubkey@).contains_key(kk) by {
                        if self.members().contains_key(kk) {
                            let j = choose|j: int| 0 <= j < self.entries.len() && (#[trigger] self.entries[j]).pubkey@ == kk;
                            if j < i {
                                assert(before[j].pubkey@ == kk);
                                assert(before[j].pubkey@ != before[i as int].pubkey@);
                            } else {
                                assert(before[j + 1].pubkey@ == kk);
                                assert(before[i as int].pubkey@ != before[j + 1].pubkey@);
                            }
                        }
                        if old_members.remove(pubkey@).contains_key(kk) {
                            let j = choose|j: int| 0 <= j < before.len() && (#[trigger] before[j]).pubkey@ == kk;
                            if j < i {
                                assert(self.entries[j].pubkey@ == kk);
                            } else {
                                assert(j != i);
                                assert(self.entries[j - 1].pubkey@ == kk);
                            }
                        }
                    }
                    assert forall|kk: Seq<char>| #[trigger] self.members().contains_key(kk) implies self.members()[kk] == old_members.remove(pubkey@)[kk] by {
                        let j = choose|j: int| 0 <= j < self.entries.len() && (#[trigger] self.entries[j]).pubkey@ == kk;
                        self.lemma_member_at(j);
                        if j < i {
                            assert(before[j].pubkey@ == kk);
                        } else {
                            assert(before[j + 1].pubkey@ == kk);
                        }
                    }
                    assert(self.members() =~= old_members.remove(pubkey@));
                }
            },
            None => {
                assert(self.members() =~= old_members.remove(pubkey@));
            },
        }
    }
}

/// A departure undoes a join: when a key that joined with valid credentials
/// leaves, the members are exactly those before it joined, and the same key
/// with the same credentials is admitted again.
pub proof fn law_leave_undoes_join(
    v: u32,
    network_name: Seq<char>,
    password_hash: Seq<char>,
    pubkey: Seq<char>,
    fingerprint: Seq<char>,
    name: Seq<char>,
    hash: Seq<char>,
    members: Map<Seq<char>, Seq<char>>,
)
    requires
        join_rejection(v, network_name, password_hash, pubkey, name, hash, members) is None,
    ensures
        members.insert(pubkey, fingerprint).remove(pubkey) == members,
        join_rejection(v, network_name, password_hash, pubkey, name, hash, members.insert(pubkey, fingerprint).remove(pubkey))
            is None,
        join_rejection(v, network_name, password_hash, pubkey, name, hash, members.insert(pubkey, fingerprint))
            == Some(JoinRejectReason::AlreadyJoined),
{
    assert(members.insert(pubkey, fingerprint).remove(pubkey) =~= members);
}

} // verus!
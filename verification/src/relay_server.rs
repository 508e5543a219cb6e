//! The relay's rendezvous bookkeeping: which network names have a live host,
//! which joiners wait for their host to accept, and the reply each request
//! gets. The relay never looks inside a spliced connection.
use vstd::prelude::*;

use crate::crypto::{hex_encode, hex_lower_chars, random_bytes};
use crate::relay_protocol::ServerFrame;
use crate::signaling::blob::str_eq;

verus! {

/// Values filed under distinct string keys, in insertion order.
pub struct Registry<T> {
    entries: Vec<(String, T)>,
}

impl<T> Registry<T> {
    /// The keys and what is filed under each.
    pub closed spec fn view_map(self) -> Map<Seq<char>, T> {
        Map::new(
            |k: Seq<char>| exists|i: int| 0 <= i < self.entries.len() && (#[trigger] self.entries[i]).0@ == k,
            |k: Seq<char>| self.entries[choose|i: int| 0 <= i < self.entries.len() && (#[trigger] self.entries[i]).0@ == k].1,
        )
    }

    pub closed spec fn wf(self) -> bool {
        forall|i: int, j: int|
            0 <= i < j < self.entries.len() ==> (#[trigger] self.entries[i]).0@ != (#[trigger] self.entries[j]).0@
    }

    /// An empty registry.
    pub fn new() -> (r: Self)
        ensures
            r.wf(),
            r.view_map() == Map::<Seq<char>, T>::empty(),
    {
        let r = Registry { entries: Vec::new() };
        assert(r.view_map() =~= Map::<Seq<char>, T>::empty());
        r
    }

    fn position(&self, key: &str) -> (r: Option<usize>)
        requires
            self.wf(),
        ensures
            r matches Some(i) ==> i < self.entries.len() && self.entries[i as int].0@ == key@,
            r is None ==> forall|i: int| 0 <= i < self.entries.len() ==> (#[trigger] self.entries[i]).0@ != key@,
    {
        let mut i: usize = 0;
        while i < self.entries.len()
            invariant
                0 <= i <= self.entries.len(),
                forall|t: int| 0 <= t < i ==> (#[trigger] self.entries[t]).0@ != key@,
            decreases self.entries.len() - i,
        {
            if str_eq(self.entries[i].0.as_str(), key) {
                return Some(i);
            }
            i = i + 1;
        }
        None
    }

    proof fn lemma_at(&self, i: int)
        requires
            self.wf(),
            0 <= i < self.entries.len(),
        ensures
            self.view_map().contains_key(self.entries[i].0@),
            self.view_map()[self.entries[i].0@] == self.entries[i].1,
    {
        let k = self.entries[i].0@;
        let j = choose|j: int| 0 <= j < self.entries.len() && (#[trigger] self.entries[j]).0@ == k;
        if j != i {
            if j < i {
                assert(self.entries[j].0@ != self.entries[i].0@);
            } else {
                assert(self.entries[i].0@ != self.entries[j].0@);
            }
        }
    }

    /// Whether `key` has an entry.
    pub fn contains_key(&self, key: &str) -> (b: bool)
        requires
            self.wf(),
        ensures
            b == self.view_map().contains_key(key@),
    {
        match self.position(key) {
            Some(i) => {
                proof {
                    self.lemma_at(i as int);
                }
                true
            },
            None => false,
        }
    }

    /// What is filed under `key`, if anything.
    pub fn get(&self, key: &str) -> (r: Option<&T>)
        requires
            self.wf(),
        ensures
            r is Some <==> self.view_map().contains_key(key@),
            r matches Some(v) ==> *v == self.view_map()[key@],
    {
        match self.position(key) {
            Some(i) => {
                proof {
                    self.lemma_at(i as int);
                }
                Some(&self.entries[i].1)
            },
            None => None,
        }
    }

    /// File `value` under `key` unless `key` is taken; a refused value is
    /// handed back.
    pub fn insert_new(&mut self, key: &String, value: T) -> (r: Result<(), T>)
        requires
            old(self).wf(),
        ensures
            final(self).wf(),
            old(self).view_map().contains_key(key@) ==> r == Err::<(), T>(value) && final(self).view_map() == old(self).view_map(),
            !old(self).view_map().contains_key(key@) ==> r is Ok && final(self).view_map() == old(self).view_map().insert(key@, value),
    {
        if self.contains_key(key.as_str()) {
            return Err(value);
        }
        let ghost old_map = self.view_map();
        let ghost s0 = *self;
        let ghost before = self.entries@;
        let ghost v = value;
        self.entries.push((key.clone(), value));
        proof {
            assert forall|a: int, b: int| 0 <= a < b < self.entries.len() implies (#[trigger] self.entries[a]).0@ != (#[trigger] self.entries[b]).0@ by {
                if b < before.len() {
                    assert(self.entries[a].0@ == before[a].0@);
                    assert(self.entries[b].0@ == before[b].0@);
                } else {
                    assert(self.entries[a].0@ == before[a].0@);
                    if before[a].0@ == key@ {
                        s0.lemma_at(a);
                    }
                }
            }
            assert forall|kk: Seq<char>| #[trigger] self.view_map().contains_key(kk) <==> old_map.insert(key@, v).contains_key(kk) by {
                if old_map.contains_key(kk) {
                    let j = choose|j: int| 0 <= j < before.len() && (#[trigger] before[j]).0@ == kk;
                    assert(self.entries[j].0@ == kk);
                }
                if kk == key@ {
                    assert(self.entries[before.len() as int].0@ == kk);
                }
                if self.view_map().contains_key(kk) {
                    let j = choose|j: int| 0 <= j < self.entries.len() && (#[trigger] self.entries[j]).0@ == kk;
                    if j < before.len() {
                        assert(s0.entries[j].0@ == kk);
                    }
                }
            }
            assert forall|kk: Seq<char>| #[trigger] self.view_map().contains_key(kk) implies self.view_map()[kk] == old_map.insert(key@, v)[kk] by {
                let j = choose|j: int| 0 <= j < self.entries.len() && (#[trigger] self.entries[j]).0@ == kk;
                self.lemma_at(j);
                if kk != key@ {
                    assert(j < before.len());
                    assert(s0.entries[j].0@ == kk);
                    s0.lemma_at(j);
                }
            }
            assert(self.view_map() =~= old_map.insert(key@, v));
        }
        Ok(())
    }

    /// Take out what is filed under `key`, if anything.
    pub fn remove(&mut self, key: &str) -> (r: Option<T>)
        requires
            old(self).wf(),
        ensures
            final(self).wf(),
            final(self).view_map() == old(self).view_map().remove(key@),
            r is Some <==> old(self).view_map().contains_key(key@),
            r matches Some(v) ==> v == old(self).view_map()[key@],
    {
        let ghost old_map = self.view_map();
        match self.position(key) {
            Some(i) => {
                let ghost before = self.entries@;
                let ghost s0 = *self;
                proof {
                    self.lemma_at(i as int);
                }
                let e = self.entries.remove(i);
                proof {
                    assert forall|kk: Seq<char>| #[trigger] self.view_map().contains_key(kk) <==> old_map.remove(key@).contains_key(kk) by {
                        if self.view_map().contains_key(kk) {
                            let j = choose|j: int| 0 <= j < self.entries.len() && (#[trigger] self.entries[j]).0@ == kk;
                            if j < i {
                                assert(before[j].0@ == kk);
                                assert(before[j].0@ != before[i as int].0@);
                            } else {
                                assert(before[j + 1].0@ == kk);
                                assert(before[i as int].0@ != before[j + 1].0@);
                            }
                        }
                        if old_map.remove(key@).contains_key(kk) {
                            let j = choose|j: int| 0 <= j < before.len() && (#[trigger] before[j]).0@ == kk;
                            if j < i {
                                assert(self.entries[j].0@ == kk);
                            } else {
                                assert(j != i);
                                assert(self.entries[j - 1].0@ == kk);
                            }
                        }
                    }
                    assert forall|kk: Seq<char>| #[trigger] self.view_map().contains_key(kk) implies self.view_map()[kk] == old_map.remove(key@)[kk] by {
                        let j = choose|j: int| 0 <= j < self.entries.len() && (#[trigger] self.entries[j]).0@ == kk;
                        self.lemma_at(j);
                        if j < i {
                            assert(before[j].0@ == kk);
                            s0.lemma_at(j);
                        } else {
                            assert(before[j + 1].0@ == kk);
                            s0.lemma_at(j + 1);
                        }
                    }
                    assert(self.view_map() =~= old_map.remove(key@));
                }
                Some(e.1)
            },
            None => {
                assert(self.view_map() =~= old_map.remove(key@));
                None
            },
        }
    }

    /// Every key, in insertion order.
    pub fn keys(&self) -> (v: Vec<String>)
        requires
            self.wf(),
        ensures
            forall|i: int| 0 <= i < v@.len() ==> self.view_map().contains_key((#[trigger] v@[i])@),
            forall|k: Seq<char>| #[trigger] self.view_map().contains_key(k) ==> exists|i: int| 0 <= i < v@.len() && (#[trigger] v@[i])@ == k,
    {
        let mut v: Vec<String> = Vec::new();
        let mut i: usize = 0;
        while i < self.entries.len()
            invariant
                0 <= i <= self.entries.len(),
                self.wf(),
                v@.len() == i,
                forall|t: int| 0 <= t < i ==> (#[trigger] v@[t])@ == self.entries[t].0@,
            decreases self.entries.len() - i,
        {
            v.push(self.entries[i].0.clone());
            i = i + 1;
        }
        proof {
            assert forall|t: int| 0 <= t < v@.len() implies self.view_map().contains_key((#[trigger] v@[t])@) by {
                self.lemma_at(t);
            }
            assert forall|k: Seq<char>| #[trigger] self.view_map().contains_key(k) implies exists|i: int| 0 <= i < v@.len() && (#[trigger] v@[i])@ == k by {
                let j = choose|j: int| 0 <= j < self.entries.len() && (#[trigger] self.entries[j]).0@ == k;
                assert(v@[j]@ == k);
            }
        }
        v
    }
}

/// Reply to a `REGISTER` for a name some live host already holds.
pub open spec fn name_in_use_text() -> Seq<char> {
    "name in use"@
}

/// Reply to a `CONNECT` for a name no live host holds.
pub open spec fn no_such_network_text() -> Seq<char> {
    "no such network"@
}

/// Reply to a `CONNECT` whose host did not accept in time.
pub open spec fn accept_timeout_text() -> Seq<char> {
    "host did not accept in time"@
}

/// Reply to an `ACCEPT` for a session nobody waits on.
pub open spec fn unknown_session_text() -> Seq<char> {
    "unknown session"@
}

/// Register a host's control connection under `network_name`: `OK` and the
/// name is taken, or `ERR name in use` and nothing changes.
pub fn register_host<T>(hosts: &mut Registry<T>, network_name: &String, host: T) -> (reply: ServerFrame)
    requires
        old(hosts).wf(),
    ensures
        final(hosts).wf(),
        old(hosts).view_map().contains_key(network_name@) ==> (reply matches ServerFrame::Error { message } && message@
            == name_in_use_text()) && final(hosts).view_map() == old(hosts).view_map(),
        !old(hosts).view_map().contains_key(network_name@) ==> reply == ServerFrame::Okay && final(hosts).view_map()
            == old(hosts).view_map().insert(network_name@, host),
{
    match hosts.insert_new(network_name, host) {
        Ok(()) => ServerFrame::Okay,
        Err(_) => ServerFrame::Error { message: "name in use".to_owned() },
    }
}

/// The frame refusing a `CONNECT` to an unknown network.
pub fn no_such_network() -> (f: ServerFrame)
    ensures
        f matches ServerFrame::Error { message } && message@ == no_such_network_text(),
{
    ServerFrame::Error { message: "no such network".to_owned() }
}

/// The frame refusing a `CONNECT` whose host never accepted.
pub fn accept_timed_out() -> (f: ServerFrame)
    ensures
        f matches ServerFrame::Error { message } && message@ == accept_timeout_text(),
{
    ServerFrame::Error { message: "host did not accept in time".to_owned() }
}

/// Hand an `ACCEPT`ed connection to the joiner waiting on `session_id`: the
/// waiting joiner's slot is taken out, or, with none waiting, the
/// `ERR unknown session` reply is given.
pub fn accept_session<T>(pending: &mut Registry<T>, session_id: &str) -> (r: Result<T, ServerFrame>)
    requires
        old(pending).wf(),
    ensures
        final(pending).wf(),
        final(pending).view_map() == old(pending).view_map().remove(session_id@),
        old(pending).view_map().contains_key(session_id@) ==> r == Ok::<T, ServerFrame>(old(pending).view_map()[session_id@]),
        !old(pending).view_map().contains_key(session_id@) ==> (r matches Err(ServerFrame::Error { message }) && message@
            == unknown_session_text()),
{
    match pending.remove(session_id) {
        Some(t) => Ok(t),
        None => Err(ServerFrame::Error { message: "unknown session".to_owned() }),
    }
}

/// A fresh relay session id: sixteen lower-case hex digits of eight random
/// bytes.
pub fn new_session_id() -> (s: String)
    ensures
        exists|b: Seq<u8>| b.len() == 8 && s@ == hex_lower_chars(b),
        s@.len() == 16,
{
    let b = random_bytes(8);
    proof {
        crate::crypto::lemma_hex_len(b@);
    }
    hex_encode(b.as_slice())
}

/// A locally hosted relay may run only once at a time: starting a second
/// one is refused.
pub fn ensure_not_hosting(hosting: bool) -> (r: Result<(), String>)
    ensures
        !hosting <==> r is Ok,
        hosting ==> (r matches Err(m) && m@ == "already hosting a relay — stop it first"@),
{
    if hosting {
        Err("already hosting a relay — stop it first".to_owned())
    } else {
        Ok(())
    }
}

/// A stale registration cannot wedge a network name: while a host holds the
/// name a second registration is refused, and once its registration is
/// removed the registry is as it was, so the name can be registered again.
pub proof fn law_name_is_free_after_host_leaves<T>(hosts: Map<Seq<char>, T>, name: Seq<char>, host: T)
    requires
        !hosts.contains_key(name),
    ensures
        hosts.insert(name, host).contains_key(name),
        hosts.insert(name, host).remove(name) == hosts,
        !hosts.insert(name, host).remove(name).contains_key(name),
{
    assert(hosts.insert(name, host).remove(name) =~= hosts);
}

} // verus!

//! A small insertion-ordered map from strings to strings.
use vstd::prelude::*;

use crate::signaling::blob::str_eq;

verus! {

/// One key and its value.
#[derive(Debug, Clone)]
pub struct StrEntry {
    pub key: String,
    pub value: String,
}

/// String keys, each once, with string values, in insertion order.
#[derive(Debug, Clone)]
pub struct StrMap {
    entries: Vec<StrEntry>,
}

impl StrMap {
    /// The keys and their values.
    pub closed spec fn view_map(self) -> Map<Seq<char>, Seq<char>> {
        Map::new(
            |k: Seq<char>| exists|i: int| 0 <= i < self.entries.len() && (#[trigger] self.entries[i]).key@ == k,
            |k: Seq<char>| self.entries[choose|i: int| 0 <= i < self.entries.len() && (#[trigger] self.entries[i]).key@ == k].value@,
        )
    }

    /// The keys, in the order they were first inserted.
    pub closed spec fn key_order(self) -> Seq<Seq<char>> {
        self.entries@.map_values(|e: StrEntry| e.key@)
    }

    pub closed spec fn wf(self) -> bool {
        forall|i: int, j: int|
            0 <= i < j < self.entries.len() ==> (#[trigger] self.entries[i]).key@ != (#[trigger] self.entries[j]).key@
    }

    pub fn new() -> (m: Self)
        ensures
            m.wf(),
            m.view_map() == Map::<Seq<char>, Seq<char>>::empty(),
            m.key_order() == Seq::<Seq<char>>::empty(),
    {
        let m = StrMap { entries: Vec::new() };
        assert(m.view_map() =~= Map::<Seq<char>, Seq<char>>::empty());
        assert(m.key_order() =~= Seq::<Seq<char>>::empty());
        m
    }

    fn position(&self, key: &str) -> (r: Option<usize>)
        requires
            self.wf(),
        ensures
            r matches Some(i) ==> i < self.entries.len() && self.entries[i as int].key@ == key@,
            r is None ==> forall|i: int| 0 <= i < self.entries.len() ==> (#[trigger] self.entries[i]).key@ != key@,
    {
        let mut i: usize = 0;
        while i < self.entries.len()
            invariant
                0 <= i <= self.entries.len(),
                forall|t: int| 0 <= t < i ==> (#[trigger] self.entries[t]).key@ != key@,
            decreases self.entries.len() - i,
        {
            if str_eq(self.entries[i].key.as_str(), key) {
                return Some(i);
            }
            i = i + 1;
        }
        None
    }

    proof fn lemma_at(&self, i: int)
        requires
            self.wf(),
            0 <= i < self.entries.len(),
        ensures
            self.view_map().contains_key(self.entries[i].key@),
            self.view_map()[self.entries[i].key@] == self.entries[i].value@,
    {
        let k = self.entries[i].key@;
        let j = choose|j: int| 0 <= j < self.entries.len() && (#[trigger] self.entries[j]).key@ == k;
        if j != i {
            if j < i {
                assert(self.entries[j].key@ != self.entries[i].key@);
            } else {
                assert(self.entries[i].key@ != self.entries[j].key@);
            }
        }
    }

    proof fn lemma_len(&self)
        requires
            self.wf(),
        ensures
            self.view_map().len() == self.entries.len(),
            self.view_map().dom().finite(),
    {
        let keys = Seq::new(self.entries.len() as nat, |i: int| self.entries[i].key@);
        assert(keys.no_duplicates()) by {
            assert forall|i: int, j: int| 0 <= i < keys.len() && 0 <= j < keys.len() && i != j implies keys[i] != keys[j] by {
                if i < j {
                    assert(self.entries[i].key@ != self.entries[j].key@);
                } else {
                    assert(self.entries[j].key@ != self.entries[i].key@);
                }
            }
        }
        assert forall|k: Seq<char>| self.view_map().dom().contains(k) <==> keys.to_set().contains(k) by {
            if self.view_map().dom().contains(k) {
                let i = choose|i: int| 0 <= i < self.entries.len() && (#[trigger] self.entries[i]).key@ == k;
                assert(keys[i] == k);
            }
            if keys.to_set().contains(k) {
                assert(keys.contains(k));
                let i = choose|i: int| 0 <= i < keys.len() && keys[i] == k;
                assert(self.entries[i].key@ == k);
            }
        }
        assert(self.view_map().dom() =~= keys.to_set());
        keys.unique_seq_to_set();
    }

    /// Whether `key` has an entry.
    pub fn contains_key(&self, key: &str) -> (b: bool)
        requires
            self.wf(),
        ensures
            b == self.view_map().contains_key(key@),
    {
        match self.position(key) {
            Some(i) => {
                proof {
                    self.lemma_at(i as int);
                }
                true
            },
            None => false,
        }
    }

    /// The value of `key`, if it has one.
    pub fn get(&self, key: &str) -> (r: Option<String>)
        requires
            self.wf(),
        ensures
            r is Some <==> self.view_map().contains_key(key@),
            r matches Some(v) ==> v@ == self.view_map()[key@],
    {
        match self.position(key) {
            Some(i) => {
                proof {
                    self.lemma_at(i as int);
                }
                Some(self.entries[i].value.clone())
            },
            None => None,
        }
    }

    /// Every entry, in insertion order.
    pub fn entries(&self) -> (v: Vec<StrEntry>)
        requires
            self.wf(),
        ensures
            v@.len() == self.view_map().len(),
            forall|i: int| 0 <= i < v@.len() ==> self.view_map().contains_key((#[trigger] v@[i]).key@)
                && self.view_map()[v@[i].key@] == v@[i].value@,
            forall|i: int, j: int| 0 <= i < j < v@.len() ==> (#[trigger] v@[i]).key@ != (#[trigger] v@[j]).key@,
            v@.map_values(|e: StrEntry| e.key@) == self.key_order(),
    {
        let mut v: Vec<StrEntry> = Vec::new();
        let mut i: usize = 0;
        while i < self.entries.len()
            invariant
                0 <= i <= self.entries.len(),
                self.wf(),
                v@.len() == i,
                forall|t: int| 0 <= t < i ==> (#[trigger] v@[t]).key@ == self.entries[t].key@ && v@[t].value@
                    == self.entries[t].value@,
            decreases self.entries.len() - i,
        {
            v.push(StrEntry { key: self.entries[i].key.clone(), value: self.entries[i].value.clone() });
            i = i + 1;
        }
        proof {
            assert forall|t: int| 0 <= t < v@.len() implies self.view_map().contains_key((#[trigger] v@[t]).key@)
                && self.view_map()[v@[t].key@] == v@[t].value@ by {
                self.lemma_at(t);
            }
            assert forall|a: int, b: int| 0 <= a < b < v@.len() implies (#[trigger] v@[a]).key@ != (#[trigger] v@[b]).key@ by {
                assert(self.entries[a].key@ != self.entries[b].key@);
            }
            self.lemma_len();
            assert(v@.map_values(|e: StrEntry| e.key@) =~= self.key_order());
        }
        v
    }

    /// Set `key` to `value`, adding an entry if it has none.
    pub fn insert(&mut self, key: &String, value: String)
        requires
            old(self).wf(),
        ensures
            final(self).wf(),
            final(self).view_map() == old(self).view_map().insert(key@, value@),
            old(self).view_map().contains_key(key@) ==> final(self).key_order() == old(self).key_order(),
            !old(self).view_map().contains_key(key@) ==> final(self).key_order() == old(self).key_order().push(key@),
    {
        let ghost old_map = self.view_map();
        let ghost s0 = *self;
        let ghost before = self.entries@;
        let ghost val = value@;
        match self.position(key.as_str()) {
            Some(i) => {
                let k = self.entries[i].key.clone();
                self.entries.set(i, StrEntry { key: k, value });
                proof {
                    assert forall|a: int, b: int| 0 <= a < b < self.entries.len() implies (#[trigger] self.entries[a]).key@ != (#[trigger] self.entries[b]).key@ by {
                        assert(self.entries[a].key@ == s0.entries[a].key@);
                        assert(self.entries[b].key@ == s0.entries[b].key@);
                    }
                    assert forall|kk: Seq<char>| #[trigger] self.view_map().contains_key(kk) <==> old_map.insert(key@, val).contains_key(kk) by {
                        if old_map.contains_key(kk) {
                            let j = choose|j: int| 0 <= j < s0.entries.len() && (#[trigger] s0.entries[j]).key@ == kk;
                            assert(self.entries[j].key@ == kk);
                        }
                        if self.view_map().contains_key(kk) {
                            let j = choose|j: int| 0 <= j < self.entries.len() && (#[trigger] self.entries[j]).key@ == kk;
                            assert(s0.entries[j].key@ == kk);
                        }
                        if kk == key@ {
                            assert(self.entries[i as int].key@ == kk);
                        }
                    }
                    assert forall|kk: Seq<char>| #[trigger] self.view_map().contains_key(kk) implies self.view_map()[kk] == old_map.insert(key@, val)[kk] by {
                        let j = choose|j: int| 0 <= j < self.entries.len() && (#[trigger] self.entries[j]).key@ == kk;
                        self.lemma_at(j);
                        if kk != key@ {
                            assert(s0.entries[j].key@ == kk);
                            s0.lemma_at(j);
                        }
                    }
                    assert(self.view_map() =~= old_map.insert(key@, val));
                    s0.lemma_at(i as int);
                    assert(self.key_order() =~= s0.key_order());
                }
            },
            None => {
                self.entries.push(StrEntry { key: key.clone(), value });
                proof {
                    assert forall|a: int, b: int| 0 <= a < b < self.entries.len() implies (#[trigger] self.entries[a]).key@ != (#[trigger] self.entries[b]).key@ by {
                        if b < before.len() {
                            assert(self.entries[a].key@ == before[a].key@);
                            assert(self.entries[b].key@ == before[b].key@);
                        } else {
                            assert(self.entries[a].key@ == before[a].key@);
                        }
                    }
                    assert forall|kk: Seq<char>| #[trigger] self.view_map().contains_key(kk) <==> old_map.insert(key@, val).contains_key(kk) by {
                        if old_map.contains_key(kk) {
                            let j = choose|j: int| 0 <= j < before.len() && (#[trigger] before[j]).key@ == kk;
                            assert(self.entries[j].key@ == kk);
                        }
                        if kk == key@ {
                            assert(self.entries[before.len() as int].key@ == kk);
                        }
                        if self.view_map().contains_key(kk) {
                            let j = choose|j: int| 0 <= j < self.entries.len() && (#[trigger] self.entries[j]).key@ == kk;
                            if j < before.len() {
                                assert(s0.entries[j].key@ == kk);
                            }
                        }
                    }
                    assert forall|kk: Seq<char>| #[trigger] self.view_map().contains_key(kk) implies self.view_map()[kk] == old_map.insert(key@, val)[kk] by {
                        let j = choose|j: int| 0 <= j < self.entries.len() && (#[trigger] self.entries[j]).key@ == kk;
                        self.lemma_at(j);
                        if kk != key@ {
                            assert(j < before.len());
                            assert(s0.entries[j].key@ == kk);
                            s0.lemma_at(j);
                        }
                    }
                    assert(self.view_map() =~= old_map.insert(key@, val));
                    assert(self.key_order() =~= s0.key_order().push(key@));
                    assert(!old_map.contains_key(key@)) by {
                        if old_map.contains_key(key@) {
                            let j = choose|j: int| 0 <= j < before.len() && (#[trigger] before[j]).key@ == key@;
                            assert(s0.entries[j].key@ == key@);
                        }
                    }
                }
            },
        }
    }

    /// Remove `key`'s entry, giving back its value if it had one.
    pub fn remove(&mut self, key: &str) -> (r: Option<String>)
        requires
            old(self).wf(),
        ensures
            final(self).wf(),
            final(self).view_map() == old(self).view_map().remove(key@),
            r is Some <==> old(self).view_map().contains_key(key@),
            r matches Some(v) ==> v@ == old(self).view_map()[key@],
            !old(self).view_map().contains_key(key@) ==> final(self).key_order() == old(self).key_order(),
            old(self).view_map().contains_key(key@) ==> exists|i: int|
                0 <= i < old(self).key_order().len() && old(self).key_order()[i] == key@ && final(self).key_order()
                    == old(self).key_order().remove(i),
    {
        let ghost old_map = self.view_map();
        let ghost s0 = *self;
        match self.position(key) {
            Some(i) => {
                let ghost before = self.entries@;
                proof {
                    self.lemma_at(i as int);
                }
                let e = self.entries.remove(i);
                proof {
                    assert forall|kk: Seq<char>| #[trigger] self.view_map().contains_key(kk) <==> old_map.remove(key@).contains_key(kk) by {
                        if self.view_map().contains_key(kk) {
                            let j = choose|j: int| 0 <= j < self.entries.len() && (#[trigger] self.entries[j]).key@ == kk;
                            if j < i {
                                assert(before[j].key@ == kk);
                                assert(before[j].key@ != before[i as int].key@);
                            } else {
                                assert(before[j + 1].key@ == kk);
                                assert(before[i as int].key@ != before[j + 1].key@);
                            }
                        }
                        if old_map.remove(key@).contains_key(kk) {
                            let j = choose|j: int| 0 <= j < before.len() && (#[trigger] before[j]).key@ == kk;
                            if j < i {
                                assert(self.entries[j].key@ == kk);
                            } else {
                                assert(j != i);
                                assert(self.entries[j - 1].key@ == kk);
                            }
                        }
                    }
                    assert forall|kk: Seq<char>| #[trigger] self.view_map().contains_key(kk) implies self.view_map()[kk] == old_map.remove(key@)[kk] by {
                        let j = choose|j: int| 0 <= j < self.entries.len() && (#[trigger] self.entries[j]).key@ == kk;
                        self.lemma_at(j);
                        if j < i {
                            assert(before[j].key@ == kk);
                        } else {
                            assert(before[j + 1].key@ == kk);
                        }
                    }
                    assert(self.view_map() =~= old_map.remove(key@));
                    assert(self.key_order() =~= s0.key_order().remove(i as int));
                    assert(s0.key_order()[i as int] == key@);
                }
                Some(e.value)
            },
            None => {
                assert(self.view_map() =~= old_map.remove(key@));
                assert(!old_map.contains_key(key@)) by {
                    if old_map.contains_key(key@) {
                        let j = choose|j: int| 0 <= j < s0.entries.len() && (#[trigger] s0.entries[j]).key@ == key@;
                    }
                }
                None
            },
        }
    }
}

} // verus!

//! Single-parity XOR erasure code.
//!
//! A group of up to `k` data packets is protected by one parity packet equal to
//! the XOR of the members' shards (see [`super::shard`]). One loss per group is
//! recovered exactly; two or more losses yield nothing rather than corrupt data.
use vstd::prelude::*;

use super::shard::{lemma_max_len_bounds, lemma_unpad_padded, max_len, padded, shard_byte, unpadded};

verus! {

/// XOR of byte `j` of every member's shard.
pub open spec fn xor_fold(ps: Seq<Seq<u8>>, j: int) -> u8
    decreases ps.len(),
{
    if ps.len() == 0 {
        0u8
    } else {
        xor_fold(ps.drop_last(), j) ^ shard_byte(ps.last(), j)
    }
}

/// The parity payload of a group: the XOR of its members' shards, each padded
/// to the longest member plus the two-byte length prefix.
pub open spec fn xor_parity(ps: Seq<Seq<u8>>) -> Seq<u8> {
    Seq::new(max_len(ps) + 2, |j: int| xor_fold(ps, j))
}

/// The contribution of one optional member slot to byte `j`.
pub open spec fn slot_byte(slot: Option<Seq<u8>>, j: int) -> u8 {
    match slot {
        Some(p) => shard_byte(p, j),
        None => 0u8,
    }
}

/// XOR of byte `j` over the member slots `0..n`.
pub open spec fn slot_xor(slots: Seq<Option<Seq<u8>>>, j: int, n: int) -> u8
    decreases n,
{
    if n <= 0 {
        0u8
    } else {
        slot_xor(slots, j, n - 1) ^ slot_byte(slots[n - 1], j)
    }
}

/// How many of the slots `0..n` hold a member.
pub open spec fn count_upto(slots: Seq<Option<Seq<u8>>>, n: int) -> nat
    decreases n,
{
    if n <= 0 {
        0
    } else {
        count_upto(slots, n - 1) + (if slots[n - 1] is Some {
            1nat
        } else {
            0nat
        })
    }
}

/// Number of member slots a group has (one per possible `u8` index).
pub open spec fn n_slots() -> int {
    256
}

/// How many members a group holds.
pub open spec fn member_count(slots: Seq<Option<Seq<u8>>>) -> nat {
    count_upto(slots, n_slots())
}

/// The abstract state of one decoder group.
pub struct XorGroupState {
    pub id: u32,
    /// Member slot `i` holds the data packet with index `i`, if received.
    pub slots: Seq<Option<Seq<u8>>>,
    /// `(k, Q)` of the parity packet, if received.
    pub parity: Option<(u8, Seq<u8>)>,
    pub done: bool,
}

/// A fresh group.
pub open spec fn empty_group(id: u32) -> XorGroupState {
    XorGroupState { id, slots: Seq::new(256, |i: int| None::<Seq<u8>>), parity: None, done: false }
}

/// The member rebuilt from parity `q` and the members present in `slots`.
pub open spec fn recovered_member(q: Seq<u8>, slots: Seq<Option<Seq<u8>>>) -> Seq<u8> {
    unpadded(Seq::new(q.len(), |j: int| q[j] ^ slot_xor(slots, j, n_slots())))
}

/// What a recovery attempt on `g` yields, and whether the group is then finished:
/// finished with nothing when every member is present, finished with the
/// rebuilt member when exactly one is missing, otherwise left waiting.
pub open spec fn recover_outcome(g: XorGroupState) -> (Option<Seq<u8>>, bool) {
    if g.done {
        (None, false)
    } else {
        match g.parity {
            Some((k, q)) => {
                if q.len() >= 2 && k >= 1 {
                    if member_count(g.slots) >= k {
                        (None, true)
                    } else if member_count(g.slots) + 1 == k {
                        (Some(recovered_member(q, g.slots)), true)
                    } else {
                        (None, false)
                    }
                } else {
                    (None, false)
                }
            },
            None => (None, false),
        }
    }
}

/// A finished group keeps only its id and the fact that it is finished.
pub open spec fn finished(g: XorGroupState) -> XorGroupState {
    XorGroupState { id: g.id, slots: Seq::new(256, |i: int| None::<Seq<u8>>), parity: None, done: true }
}

/// Position of group `id` in `gs`, or `gs.len()` when absent.
pub open spec fn find_group(gs: Seq<XorGroupState>, id: u32) -> int
    decreases gs.len(),
{
    if gs.len() == 0 {
        0
    } else if gs.last().id == id && find_group(gs.drop_last(), id) == gs.len() - 1 {
        gs.len() - 1
    } else if find_group(gs.drop_last(), id) < gs.len() - 1 {
        find_group(gs.drop_last(), id)
    } else {
        gs.len() as int
    }
}

/// `gs` with group `id` added if new, evicting the oldest group once more
/// than `cap` are held.
pub open spec fn ensured(gs: Seq<XorGroupState>, cap: nat, id: u32) -> Seq<XorGroupState> {
    if find_group(gs, id) < gs.len() {
        gs
    } else {
        let g2 = gs.push(empty_group(id));
        if g2.len() > cap {
            g2.drop_first()
        } else {
            g2
        }
    }
}

/// Applies `g` to its group (after `ensured`) and runs the recovery attempt.
pub open spec fn step(gs: Seq<XorGroupState>, i: int, g: XorGroupState) -> (
    Seq<XorGroupState>,
    Option<Seq<u8>>,
) {
    let (r, d) = recover_outcome(g);
    (gs.update(i, if d {
        finished(g)
    } else {
        g
    }), r)
}

/// The decoder after receiving data packet `index` of `group`, and what it recovers.
pub open spec fn on_data_outcome(
    gs: Seq<XorGroupState>,
    cap: nat,
    group: u32,
    index: u8,
    ip: Seq<u8>,
) -> (Seq<XorGroupState>, Option<Seq<u8>>) {
    let gs1 = ensured(gs, cap, group);
    let i = find_group(gs1, group);
    let g = gs1[i];
    if g.done {
        (gs1, None)
    } else {
        step(gs1, i, XorGroupState { slots: g.slots.update(index as int, Some(ip)), ..g })
    }
}

/// The decoder after receiving the parity `(k, q)` of `group`, and what it recovers.
pub open spec fn on_parity_outcome(
    gs: Seq<XorGroupState>,
    cap: nat,
    group: u32,
    k: u8,
    q: Seq<u8>,
) -> (Seq<XorGroupState>, Option<Seq<u8>>) {
    let gs1 = ensured(gs, cap, group);
    let i = find_group(gs1, group);
    let g = gs1[i];
    if g.done {
        (gs1, None)
    } else {
        step(gs1, i, XorGroupState { parity: Some((k, q)), ..g })
    }
}

/// A parity packet emitted when a group closes. `payload` is `Q` (length
/// `maxlen + 2`); `k` is how many data packets the group actually held.
pub struct Parity {
    pub group: u32,
    pub k: u8,
    pub payload: Vec<u8>,
}

/// Rolling XOR encoder. Data packets are sent immediately by the caller; this
/// only accumulates them and, when a group closes, yields its parity.
pub struct XorEncoder {
    group_size: u8,
    group_id: u32,
    members: Vec<Vec<u8>>,
}

/// The next group id, wrapping at `u32::MAX`.
pub open spec fn next_group(g: u32) -> u32 {
    if g == u32::MAX {
        0
    } else {
        (g + 1) as u32
    }
}

impl XorEncoder {
    /// Packets per group.
    pub closed spec fn size(self) -> u8 {
        self.group_size
    }

    /// Id of the group currently being filled.
    pub closed spec fn current_group(self) -> u32 {
        self.group_id
    }

    /// The members of the group currently being filled.
    pub closed spec fn pending(self) -> Seq<Seq<u8>> {
        self.members@.map_values(|m: Vec<u8>| m@)
    }

    pub closed spec fn wf(self) -> bool {
        &&& 1 <= self.group_size
        &&& self.members.len() < self.group_size
        &&& forall|i: int| 0 <= i < self.members.len() ==> #[trigger] self.members[i].len() + 2 <= usize::MAX
    }

    pub fn new(group_size: u8) -> (e: Self)
        ensures
            e.wf(),
            e.size() == (if group_size < 1 { 1 } else { group_size }),
            e.current_group() == 0,
            e.pending() == Seq::<Seq<u8>>::empty(),
    {
        let e = XorEncoder {
            group_size: if group_size < 1 { 1 } else { group_size },
            group_id: 0,
            members: Vec::new(),
        };
        assert(e.pending() =~= Seq::<Seq<u8>>::empty());
        e
    }

    /// Record `ip` in the current group and return `(group, index)` to tag its
    /// data frame. If this packet closes the group, also returns its [`Parity`]
    /// and rolls to the next group.
    pub fn push(&mut self, ip: &[u8]) -> (res: (u32, u8, Option<Parity>))
        requires
            old(self).wf(),
            ip@.len() + 2 <= usize::MAX,
        ensures
            final(self).wf(),
            final(self).size() == old(self).size(),
            res.0 == old(self).current_group(),
            res.1 == old(self).pending().len(),
            ({
                let full = old(self).pending().push(ip@);
                if full.len() >= old(self).size() {
                    &&& res.2 matches Some(p)
                    &&& p.group == old(self).current_group()
                    &&& p.k == full.len()
                    &&& p.payload@ == xor_parity(full)
                    &&& final(self).pending() == Seq::<Seq<u8>>::empty()
                    &&& final(self).current_group() == next_group(old(self).current_group())
                } else {
                    &&& res.2 is None
                    &&& final(self).pending() == full
                    &&& final(self).current_group() == old(self).current_group()
                }
            }),
    {
        let group = self.group_id;
        let index = self.members.len() as u8;
        let ghost old_pending = self.pending();
        self.members.push(crate::bytes::copy_bytes(ip));
        assert(self.pending() =~= old_pending.push(ip@));
        if self.members.len() >= self.group_size as usize {
            let p = self.close();
            (group, index, Some(p))
        } else {
            (group, index, None)
        }
    }

    /// Close a partial group (idle flush). Returns `None` if the group is empty.
    pub fn flush(&mut self) -> (res: Option<Parity>)
        requires
            old(self).wf(),
        ensures
            final(self).wf(),
            final(self).size() == old(self).size(),
            old(self).pending().len() == 0 ==> res is None && *final(self) == *old(self),
            old(self).pending().len() > 0 ==> {
                &&& res matches Some(p)
                &&& p.group == old(self).current_group()
                &&& p.k == old(self).pending().len()
                &&& p.payload@ == xor_parity(old(self).pending())
                &&& final(self).pending() == Seq::<Seq<u8>>::empty()
                &&& final(self).current_group() == next_group(old(self).current_group())
            },
    {
        if self.members.len() == 0 {
            None
        } else {
            Some(self.close())
        }
    }

    fn close(&mut self) -> (p: Parity)
        requires
            1 <= old(self).members.len() <= old(self).group_size,
            1 <= old(self).group_size,
            forall|i: int|
                0 <= i < old(self).members.len() ==> #[trigger] old(self).members[i].len() + 2
                    <= usize::MAX,
        ensures
            final(self).group_size == old(self).group_size,
            final(self).members.len() == 0,
            final(self).group_id == next_group(old(self).group_id),
            p.group == old(self).group_id,
            p.k == old(self).members.len(),
            p.payload@ == xor_parity(old(self).pending()),
    {
        let k = self.members.len() as u8;
        let ghost ps = self.pending();
        let mut maxlen: usize = 0;
        let mut i: usize = 0;
        while i < self.members.len()
            invariant
                0 <= i <= self.members.len(),
                ps == self.pending(),
                maxlen == max_len(ps.take(i as int)),
                maxlen + 2 <= usize::MAX,
                forall|t: int|
                    0 <= t < self.members.len() ==> #[trigger] self.members[t].len() + 2
                        <= usize::MAX,
            decreases self.members.len() - i,
        {
            assert(ps.take(i + 1).drop_last() =~= ps.take(i as int));
            if self.members[i].len() > maxlen {
                maxlen = self.members[i].len();
            }
            i = i + 1;
        }
        assert(ps.take(i as int) =~= ps);
        let width = maxlen + 2;
        let mut payload = crate::bytes::zeros(width);
        let mut i: usize = 0;
        while i < self.members.len()
            invariant
                0 <= i <= self.members.len(),
                ps == self.pending(),
                width == max_len(ps) + 2,
                payload@ == Seq::new(width as nat, |j: int| xor_fold(ps.take(i as int), j)),
            decreases self.members.len() - i,
        {
            let ghost before = payload@;
            xor_member(&mut payload, self.members[i].as_slice());
            assert(ps.take(i + 1).drop_last() =~= ps.take(i as int));
            assert(payload@ =~= Seq::new(width as nat, |j: int| xor_fold(ps.take(i + 1), j)));
            i = i + 1;
        }
        assert(ps.take(i as int) =~= ps);
        assert(payload@ =~= xor_parity(ps));
        let group = self.group_id;
        self.members.clear();
        self.group_id = self.group_id.wrapping_add(1);
        Parity { group, k, payload }
    }
}

/// XOR one member's shard into `acc`; bytes of `payload` beyond `acc` are ignored.
fn xor_member(acc: &mut Vec<u8>, payload: &[u8])
    requires
        old(acc).len() >= 2,
    ensures
        final(acc)@ == Seq::new(
            old(acc)@.len(),
            |j: int| old(acc)@[j] ^ shard_byte(payload@, j),
        ),
{
    let len = payload.len() as u16;
    let a0 = acc[0] ^ ((len >> 8) as u8);
    acc.set(0, a0);
    let a1 = acc[1] ^ ((len & 0xff) as u8);
    acc.set(1, a1);
    let room = acc.len() - 2;
    let n = if payload.len() < room { payload.len() } else { room };
    let ghost orig = old(acc)@;
    let mut i: usize = 0;
    while i < n
        invariant
            0 <= i <= n,
            n <= payload@.len(),
            n + 2 <= acc.len(),
            acc.len() == orig.len(),
            len == payload@.len() as u16,
            forall|j: int|
                0 <= j < acc.len() ==> #[trigger] acc@[j] == (if j < 2 + i {
                    orig[j] ^ shard_byte(payload@, j)
                } else {
                    orig[j]
                }),
        decreases n - i,
    {
        let v = acc[2 + i] ^ payload[i];
        acc.set(2 + i, v);
        i = i + 1;
    }
    assert forall|j: int| 0 <= j < acc.len() implies #[trigger] acc@[j] == orig[j] ^ shard_byte(
        payload@,
        j,
    ) by {
        if j >= 2 + n {
            let z = orig[j];
            assert(z ^ 0u8 == z) by (bit_vector);
        }
    }
    assert(acc@ =~= Seq::new(orig.len(), |j: int| orig[j] ^ shard_byte(payload@, j)));
}

proof fn lemma_xor_facts(a: u8, b: u8, c: u8)
    ensures
        a ^ 0u8 == a,
        (a ^ b) ^ a == b,
        (a ^ b) ^ c == (a ^ c) ^ b,
        (a ^ b) ^ c == a ^ (b ^ c),
{
    assert(a ^ 0u8 == a) by (bit_vector);
    assert((a ^ b) ^ a == b) by (bit_vector);
    assert((a ^ b) ^ c == (a ^ c) ^ b) by (bit_vector);
    assert((a ^ b) ^ c == a ^ (b ^ c)) by (bit_vector);
}

/// One decoder group as stored.
struct XorGroup {
    id: u32,
    slots: Vec<Option<Vec<u8>>>,
    count: usize,
    parity: Option<(u8, Vec<u8>)>,
    done: bool,
}

pub open spec fn opt_bytes(o: Option<Vec<u8>>) -> Option<Seq<u8>> {
    match o {
        Some(v) => Some(v@),
        None => None,
    }
}

impl XorGroup {
    spec fn state(self) -> XorGroupState {
        XorGroupState {
            id: self.id,
            slots: self.slots@.map_values(|o: Option<Vec<u8>>| opt_bytes(o)),
            parity: match self.parity {
                Some((k, q)) => Some((k, q@)),
                None => None,
            },
            done: self.done,
        }
    }

    spec fn wf(self) -> bool {
        &&& self.slots.len() == 256
        &&& self.count == member_count(self.state().slots)
    }

    fn new(id: u32) -> (g: Self)
        ensures
            g.wf(),
            g.state() == empty_group(id),
    {
        let mut slots: Vec<Option<Vec<u8>>> = Vec::new();
        let mut i: usize = 0;
        while i < 256
            invariant
                0 <= i <= 256,
                slots.len() == i,
                forall|t: int| 0 <= t < i ==> #[trigger] slots[t] is None,
            decreases 256 - i,
        {
            slots.push(None);
            i = i + 1;
        }
        let g = XorGroup { id, slots, count: 0, parity: None, done: false };
        assert(g.state().slots =~= empty_group(id).slots);
        proof {
            lemma_count_all_none(g.state().slots, 256int);
        }
        g
    }

    fn mark_done(&mut self)
        requires
            old(self).wf(),
        ensures
            final(self).wf(),
            final(self).state() == finished(old(self).state()),
    {
        let fresh = XorGroup::new(self.id);
        self.slots = fresh.slots;
        self.count = 0;
        self.parity = None;
        self.done = true;
        assert(self.state().slots =~= finished(old(self).state()).slots);
        proof {
            lemma_count_all_none(self.state().slots, 256int);
        }
    }

    fn set_member(&mut self, index: u8, ip: &[u8])
        requires
            old(self).wf(),
        ensures
            final(self).wf(),
            final(self).state() == (XorGroupState {
                slots: old(self).state().slots.update(index as int, Some(ip@)),
                ..old(self).state()
            }),
    {
        let ghost s0 = self.state().slots;
        let was_some = self.slots[index as usize].is_some();
        self.slots.set(index as usize, Some(crate::bytes::copy_bytes(ip)));
        let ghost s1 = self.state().slots;
        assert(s1 =~= s0.update(index as int, Some(ip@)));
        proof {
            lemma_count_update(s0, index as int, Some(ip@), 256);
            lemma_count_le(s0, 256);
        }
        if !was_some {
            self.count = self.count + 1;
        }
    }

    fn set_parity(&mut self, k: u8, q: &[u8])
        requires
            old(self).wf(),
        ensures
            final(self).wf(),
            final(self).state() == (XorGroupState { parity: Some((k, q@)), ..old(self).state() }),
    {
        let ghost s0 = self.state().slots;
        self.parity = Some((k, crate::bytes::copy_bytes(q)));
        assert(self.state().slots == s0);
    }

    /// `(recovered, finished)` for this group, as in [`recover_outcome`].
    fn try_recover(&self) -> (res: (Option<Vec<u8>>, bool))
        requires
            self.wf(),
        ensures
            (opt_bytes(res.0), res.1) == recover_outcome(self.state()),
    {
        if self.done {
            return (None, false);
        }
        match &self.parity {
            None => (None, false),
            Some((k, q)) => {
                let k = *k as usize;
                if q.len() >= 2 && k >= 1 {
                    if self.count >= k {
                        (None, true)
                    } else if self.count + 1 == k {
                        let rec = self.rebuild(q);
                        (Some(rec), true)
                    } else {
                        (None, false)
                    }
                } else {
                    (None, false)
                }
            },
        }
    }

    fn rebuild(&self, q: &Vec<u8>) -> (rec: Vec<u8>)
        requires
            self.wf(),
            q.len() >= 2,
        ensures
            rec@ == recovered_member(q@, self.state().slots),
    {
        let ghost slots = self.state().slots;
        let mut acc = crate::bytes::copy_bytes(q.as_slice());
        assert forall|j: int| 0 <= j < acc.len() implies #[trigger] acc@[j] == q@[j] ^ slot_xor(
            slots,
            j,
            0,
        ) by {
            lemma_xor_facts(q@[j], 0u8, 0u8);
        }
        assert(acc@ =~= Seq::new(q@.len(), |j: int| q@[j] ^ slot_xor(slots, j, 0)));
        let mut s: usize = 0;
        while s < 256
            invariant
                0 <= s <= 256,
                self.wf(),
                slots == self.state().slots,
                acc.len() == q.len(),
                q.len() >= 2,
                acc@ == Seq::new(q@.len(), |j: int| q@[j] ^ slot_xor(slots, j, s as int)),
            decreases 256 - s,
        {
            let ghost before = acc@;
            match &self.slots[s] {
                Some(p) => {
                    xor_member(&mut acc, p.as_slice());
                },
                None => {},
            }
            assert forall|j: int| 0 <= j < acc.len() implies #[trigger] acc@[j] == q@[j] ^ slot_xor(
                slots,
                j,
                s + 1,
            ) by {
                lemma_xor_facts(q@[j], slot_xor(slots, j, s as int), slot_byte(slots[s as int], j));
                assert(slots[s as int] == opt_bytes(self.slots@[s as int]));
            }
            assert(acc@ =~= Seq::new(q@.len(), |j: int| q@[j] ^ slot_xor(slots, j, s + 1)));
            s = s + 1;
        }
        let a0 = acc[0];
        let a1 = acc[1];
        let hdr = ((a0 as usize) << 8) | (a1 as usize);
        assert(((a0 as usize) << 8usize) | (a1 as usize) == (a0 as usize) * 256 + (a1 as usize))
            by (bit_vector);
        let maxlen = acc.len() - 2;
        let rec_len = if hdr < maxlen { hdr } else { maxlen };
        let out = crate::bytes::copy_range(acc.as_slice(), 2, 2 + rec_len);
        assert(out@ =~= recovered_member(q@, slots));
        out
    }
}

pub(crate) proof fn lemma_count_all_none(slots: Seq<Option<Seq<u8>>>, n: int)
    requires
        0 <= n <= slots.len(),
        forall|i: int| 0 <= i < slots.len() ==> #[trigger] slots[i] is None,
    ensures
        count_upto(slots, n) == 0,
    decreases n,
{
    if n > 0 {
        lemma_count_all_none(slots, n - 1);
    }
}

pub(crate) proof fn lemma_count_le(slots: Seq<Option<Seq<u8>>>, n: int)
    requires
        0 <= n,
    ensures
        count_upto(slots, n) <= n,
    decreases n,
{
    if n > 0 {
        lemma_count_le(slots, n - 1);
    }
}

pub(crate) proof fn lemma_count_update(slots: Seq<Option<Seq<u8>>>, x: int, v: Option<Seq<u8>>, n: int)
    requires
        0 <= x < slots.len(),
        0 <= n <= slots.len(),
    ensures
        count_upto(slots.update(x, v), n) + (if x < n && slots[x] is Some {
            1int
        } else {
            0int
        }) == count_upto(slots, n) + (if x < n && v is Some {
            1int
        } else {
            0int
        }),
    decreases n,
{
    if n > 0 {
        lemma_count_update(slots, x, v, n - 1);
    }
}

/// Decoder: buffers each group until it can recover its single missing member
/// or is evicted. Received data packets are forwarded by the caller
/// immediately; this only returns *recovered* packets.
///
/// Over all the calls that deliver one group, interleaved in any order, the
/// laws `fec::delivery::law_xor_group_recovered` and
/// `fec::delivery::law_xor_many_losses_yield_nothing` hold.
pub struct XorDecoder {
    groups: Vec<XorGroup>,
    cap: usize,
}

impl XorDecoder {
    /// The buffered groups, oldest first.
    pub closed spec fn groups_state(self) -> Seq<XorGroupState> {
        self.groups@.map_values(|g: XorGroup| g.state())
    }

    /// How many groups are retained.
    pub closed spec fn capacity(self) -> nat {
        self.cap as nat
    }

    pub closed spec fn wf(self) -> bool {
        &&& self.cap >= 1
        &&& self.groups.len() <= self.cap
        &&& forall|i: int| 0 <= i < self.groups.len() ==> #[trigger] self.groups[i].wf()
        &&& forall|i: int, j: int|
            0 <= i < j < self.groups.len() ==> #[trigger] self.groups[i].id != #[trigger] self.groups[j].id
    }

    pub fn new(cap: usize) -> (d: Self)
        ensures
            d.wf(),
            d.capacity() == (if cap < 1 { 1 } else { cap }),
            d.groups_state() == Seq::<XorGroupState>::empty(),
    {
        let d = XorDecoder { groups: Vec::new(), cap: if cap < 1 { 1 } else { cap } };
        assert(d.groups_state() =~= Seq::<XorGroupState>::empty());
        d
    }

    /// How many groups are currently buffered.
    pub fn group_count(&self) -> (n: usize)
        ensures
            n == self.groups_state().len(),
    {
        self.groups.len()
    }

    /// Feed a received data packet; returns a recovered packet if this completes
    /// a recoverable group (a *different* member was missing).
    pub fn on_data(&mut self, group: u32, index: u8, ip: &[u8]) -> (res: Option<Vec<u8>>)
        requires
            old(self).wf(),
        ensures
            final(self).wf(),
            final(self).capacity() == old(self).capacity(),
            (final(self).groups_state(), opt_bytes(res)) == on_data_outcome(
                old(self).groups_state(),
                old(self).capacity(),
                group,
                index,
                ip@,
            ),
    {
        let i = self.ensure(group);
        let ghost gs1 = self.groups_state();
        let mut g = self.groups.remove(i);
        if g.done {
            self.groups.insert(i, g);
            assert(self.groups_state() =~= gs1);
            return None;
        }
        g.set_member(index, ip);
        let (r, d) = g.try_recover();
        if d {
            g.mark_done();
        }
        self.groups.insert(i, g);
        proof {
            self.lemma_reinsert(gs1, i as int);
        }
        r
    }

    /// Feed a received parity packet; returns a recovered packet if the group is
    /// now missing exactly one member.
    pub fn on_parity(&mut self, group: u32, k: u8, q: &[u8]) -> (res: Option<Vec<u8>>)
        requires
            old(self).wf(),
        ensures
            final(self).wf(),
            final(self).capacity() == old(self).capacity(),
            (final(self).groups_state(), opt_bytes(res)) == on_parity_outcome(
                old(self).groups_state(),
                old(self).capacity(),
                group,
                k,
                q@,
            ),
    {
        let i = self.ensure(group);
        let ghost gs1 = self.groups_state();
        let mut g = self.groups.remove(i);
        if g.done {
            self.groups.insert(i, g);
            assert(self.groups_state() =~= gs1);
            return None;
        }
        g.set_parity(k, q);
        let (r, d) = g.try_recover();
        if d {
            g.mark_done();
        }
        self.groups.insert(i, g);
        proof {
            self.lemma_reinsert(gs1, i as int);
        }
        r
    }

    proof fn lemma_reinsert(&self, gs1: Seq<XorGroupState>, i: int)
        requires
            0 <= i < gs1.len() == self.groups.len(),
            forall|t: int| 0 <= t < gs1.len() && t != i ==> #[trigger] gs1[t] == self.groups[t].state(),
        ensures
            self.groups_state() == gs1.update(i, self.groups[i].state()),
    {
        assert(self.groups_state() =~= gs1.update(i, self.groups[i].state()));
    }

    /// Position of `group`, if buffered.
    fn find(&self, group: u32) -> (i: usize)
        requires
            self.wf(),
        ensures
            i == find_group(self.groups_state(), group),
            i < self.groups.len() ==> self.groups[i as int].id == group,
            i == self.groups.len() ==> forall|t: int|
                0 <= t < self.groups.len() ==> #[trigger] self.groups[t].id != group,
    {
        let mut i: usize = 0;
        while i < self.groups.len()
            invariant
                0 <= i <= self.groups.len(),
                self.wf(),
                forall|t: int| 0 <= t < i ==> #[trigger] self.groups[t].id != group,
            decreases self.groups.len() - i,
        {
            if self.groups[i].id == group {
                proof {
                    self.lemma_find(group, i as int);
                }
                return i;
            }
            i = i + 1;
        }
        proof {
            self.lemma_find_absent(group);
        }
        i
    }

    proof fn lemma_find(&self, group: u32, i: int)
        requires
            self.wf(),
            0 <= i < self.groups.len(),
            self.groups[i].id == group,
        ensures
            find_group(self.groups_state(), group) == i,
    {
        lemma_find_unique(self.groups_state(), group, i);
    }

    proof fn lemma_find_absent(&self, group: u32)
        requires
            forall|t: int| 0 <= t < self.groups.len() ==> #[trigger] self.groups[t].id != group,
        ensures
            find_group(self.groups_state(), group) == self.groups.len(),
    {
        lemma_find_none(self.groups_state(), group);
    }

    /// Insert the group if new, evicting the oldest once over capacity; returns
    /// its position.
    fn ensure(&mut self, group: u32) -> (i: usize)
        requires
            old(self).wf(),
        ensures
            final(self).wf(),
            final(self).cap == old(self).cap,
            final(self).groups_state() == ensured(old(self).groups_state(), old(self).capacity(), group),
            i == find_group(final(self).groups_state(), group),
            i < final(self).groups.len(),
            final(self).groups[i as int].id == group,
    {
        let found = self.find(group);
        if found < self.groups.len() {
            return found;
        }
        let ghost gs0 = self.groups_state();
        self.groups.push(XorGroup::new(group));
        assert(self.groups_state() =~= gs0.push(empty_group(group)));
        if self.groups.len() > self.cap {
            let _old = self.groups.remove(0);
            assert(self.groups_state() =~= gs0.push(empty_group(group)).drop_first());
        }
        let i = self.find(group);
        i
    }
}

pub(crate) proof fn lemma_find_unique(gs: Seq<XorGroupState>, id: u32, i: int)
    requires
        0 <= i < gs.len(),
        gs[i].id == id,
        forall|a: int, b: int| 0 <= a < b < gs.len() ==> #[trigger] gs[a].id != #[trigger] gs[b].id,
    ensures
        find_group(gs, id) == i,
    decreases gs.len(),
{
    let pre = gs.drop_last();
    if i == gs.len() - 1 {
        assert forall|t: int| 0 <= t < pre.len() implies #[trigger] pre[t].id != id by {
            assert(gs[t].id != gs[i].id);
        }
        lemma_find_none(pre, id);
    } else {
        lemma_find_unique(pre, id, i);
    }
}

proof fn lemma_find_none(gs: Seq<XorGroupState>, id: u32)
    requires
        forall|t: int| 0 <= t < gs.len() ==> #[trigger] gs[t].id != id,
    ensures
        find_group(gs, id) == gs.len(),
    decreases gs.len(),
{
    if gs.len() > 0 {
        let pre = gs.drop_last();
        assert forall|t: int| 0 <= t < pre.len() implies #[trigger] pre[t].id != id by {
            assert(pre[t] == gs[t]);
        }
        lemma_find_none(pre, id);
    }
}

/// Slots holding `ps[i]` at every index below `ps.len()` except `m`.
pub open spec fn all_but(ps: Seq<Seq<u8>>, m: int) -> Seq<Option<Seq<u8>>> {
    Seq::new(256, |i: int| if 0 <= i < ps.len() && i != m { Some(ps[i]) } else { None })
}

/// Slots holding every `ps[i]`.
pub open spec fn all_of(ps: Seq<Seq<u8>>) -> Seq<Option<Seq<u8>>> {
    Seq::new(256, |i: int| if 0 <= i < ps.len() { Some(ps[i]) } else { None })
}

proof fn lemma_slot_xor_all_of(ps: Seq<Seq<u8>>, j: int, n: int)
    requires
        ps.len() <= 256,
        0 <= n <= 256,
    ensures
        slot_xor(all_of(ps), j, n) == xor_fold(ps.take(if n < ps.len() { n } else { ps.len() as int }), j),
    decreases n,
{
    if n > 0 {
        lemma_slot_xor_all_of(ps, j, n - 1);
        if n - 1 < ps.len() {
            assert(ps.take(n).drop_last() =~= ps.take(n - 1));
        } else {
            let x = slot_xor(all_of(ps), j, n - 1);
            lemma_xor_facts(x, 0u8, 0u8);
        }
    } else {
        assert(ps.take(0) =~= Seq::<Seq<u8>>::empty());
    }
}

proof fn lemma_slot_xor_all_but(ps: Seq<Seq<u8>>, m: int, j: int, n: int)
    requires
        ps.len() <= 256,
        0 <= m < ps.len(),
        0 <= n <= 256,
    ensures
        slot_xor(all_of(ps), j, n) == slot_xor(all_but(ps, m), j, n) ^ (if m < n {
            shard_byte(ps[m], j)
        } else {
            0u8
        }),
    decreases n,
{
    if n > 0 {
        lemma_slot_xor_all_but(ps, m, j, n - 1);
        let a = slot_xor(all_but(ps, m), j, n - 1);
        let b = if m < n - 1 { shard_byte(ps[m], j) } else { 0u8 };
        let c = slot_byte(all_of(ps)[n - 1], j);
        lemma_xor_facts(a, b, c);
        lemma_xor_facts(a, c, b);
        lemma_xor_facts(a, 0u8, 0u8);
        lemma_xor_facts(c, 0u8, 0u8);
    } else {
        let z = 0u8;
        lemma_xor_facts(z, z, z);
    }
}

proof fn lemma_count_all_but(ps: Seq<Seq<u8>>, m: int, n: int)
    requires
        ps.len() <= 256,
        0 <= m < ps.len(),
        0 <= n <= 256,
    ensures
        count_upto(all_but(ps, m), n) == (if n <= m {
            n
        } else if n <= ps.len() {
            n - 1
        } else {
            ps.len() - 1
        }),
    decreases n,
{
    if n > 0 {
        lemma_count_all_but(ps, m, n - 1);
    }
}

/// Central law of the XOR code: encode a group of `k` packets (each at most
/// 65535 bytes long), deliver the parity and every data packet but one, and the
/// decoder rebuilds the missing packet exactly, original length included.
pub proof fn law_single_loss_is_recovered(ps: Seq<Seq<u8>>, m: int, id: u32)
    requires
        1 <= ps.len() <= 255,
        0 <= m < ps.len(),
        forall|i: int| 0 <= i < ps.len() ==> #[trigger] ps[i].len() <= 0xffff,
    ensures
        recover_outcome(
            XorGroupState {
                id,
                slots: all_but(ps, m),
                parity: Some((ps.len() as u8, xor_parity(ps))),
                done: false,
            },
        ) == (Some(ps[m]), true),
{
    let q = xor_parity(ps);
    let slots = all_but(ps, m);
    lemma_count_all_but(ps, m, 256);
    lemma_max_len_bounds(ps);
    let acc = Seq::new(q.len(), |j: int| q[j] ^ slot_xor(slots, j, n_slots()));
    assert forall|j: int| 0 <= j < q.len() implies #[trigger] acc[j] == shard_byte(ps[m], j) by {
        lemma_slot_xor_all_of(ps, j, 256);
        assert(ps.take(ps.len() as int) =~= ps);
        lemma_slot_xor_all_but(ps, m, j, 256);
        lemma_xor_facts(slot_xor(slots, j, 256), shard_byte(ps[m], j), 0u8);
    }
    assert(acc =~= padded(ps[m], q.len()));
    lemma_unpad_padded(ps[m], q.len());
}

/// Two or more losses in a group are never "recovered": the decoder keeps
/// waiting and returns nothing rather than corrupt data.
pub proof fn law_two_losses_yield_nothing(g: XorGroupState)
    requires
        g.parity matches Some((k, q)) && member_count(g.slots) + 2 <= k,
    ensures
        recover_outcome(g).0 is None,
{
}

} // verus!

//! Packet-log entries and a bounded ring buffer that keeps memory flat over
//! long sessions.
use std::collections::VecDeque;
use vstd::prelude::*;

verus! {

/// Direction of a logged packet relative to this host.
#[derive(Debug, Clone, Copy, PartialEq, Eq, Structural)]
pub enum Direction {
    Tx,
    Rx,
}

/// One line in the terminal-style packet log.
#[derive(Debug, Clone)]
pub struct PacketLogEntry {
    /// Milliseconds since the engine session started.
    pub t_ms: u64,
    pub dir: Direction,
    pub proto: String,
    pub len: u16,
    pub note: String,
}

/// An identical copy of `e`.
pub fn entry_copy(e: &PacketLogEntry) -> (c: PacketLogEntry)
    ensures
        c == *e,
{
    PacketLogEntry { t_ms: e.t_ms, dir: e.dir, proto: e.proto.clone(), len: e.len, note: e.note.clone() }
}

/// Bounded FIFO of recent packet entries. Oldest entries are dropped once the
/// capacity is reached.
#[derive(Debug)]
pub struct RingBuffer {
    cap: usize,
    inner: VecDeque<PacketLogEntry>,
}

/// The buffer after pushing `e`: the newest `cap` entries of `s` followed by
/// `e`, so the oldest entries make room when full and a buffer of capacity 0
/// keeps nothing.
pub open spec fn pushed(s: Seq<PacketLogEntry>, cap: nat, e: PacketLogEntry) -> Seq<PacketLogEntry> {
    let t = s.push(e);
    if t.len() > cap {
        t.subrange(t.len() - cap, t.len() as int)
    } else {
        t
    }
}

/// The buffer after pushing every entry of `es` in order.
pub open spec fn pushed_all(s: Seq<PacketLogEntry>, cap: nat, es: Seq<PacketLogEntry>) -> Seq<
    PacketLogEntry,
>
    decreases es.len(),
{
    if es.len() == 0 {
        s
    } else {
        pushed(pushed_all(s, cap, es.drop_last()), cap, es.last())
    }
}

impl RingBuffer {
    /// Never more entries than the capacity.
    pub closed spec fn wf(self) -> bool {
        self.inner@.len() <= self.cap
    }

    /// The retained entries, oldest first.
    pub closed spec fn entries(self) -> Seq<PacketLogEntry> {
        self.inner@
    }

    pub closed spec fn capacity(self) -> nat {
        self.cap as nat
    }

    pub fn new(cap: usize) -> (b: Self)
        ensures
            b.wf(),
            b.capacity() == cap,
            b.entries() == Seq::<PacketLogEntry>::empty(),
    {
        RingBuffer { cap, inner: VecDeque::with_capacity(cap) }
    }

    pub fn push(&mut self, entry: PacketLogEntry)
        requires
            old(self).wf(),
        ensures
            final(self).wf(),
            final(self).capacity() == old(self).capacity(),
            final(self).entries() == pushed(old(self).entries(), old(self).capacity(), entry),
            final(self).entries().len() <= final(self).capacity(),
    {
        let ghost before = self.inner@;
        if self.cap == 0 {
            assert(pushed(before, 0, entry) =~= Seq::<PacketLogEntry>::empty());
            return;
        }
        if self.inner.len() == self.cap {
            let _ = self.inner.pop_front();
            self.inner.push_back(entry);
            assert(self.inner@ =~= before.push(entry).subrange(
                before.push(entry).len() - self.cap,
                before.push(entry).len() as int,
            ));
        } else {
            self.inner.push_back(entry);
        }
    }

    /// Pushes every entry in order.
    pub fn extend(&mut self, entries: Vec<PacketLogEntry>)
        requires
            old(self).wf(),
        ensures
            final(self).wf(),
            final(self).capacity() == old(self).capacity(),
            final(self).entries() == pushed_all(old(self).entries(), old(self).capacity(), entries@),
    {
        let mut i: usize = 0;
        while i < entries.len()
            invariant
                0 <= i <= entries.len(),
                self.wf(),
                self.capacity() == old(self).capacity(),
                self.entries() == pushed_all(
                    old(self).entries(),
                    old(self).capacity(),
                    entries@.take(i as int),
                ),
            decreases entries.len() - i,
        {
            assert(entries@.take(i + 1).drop_last() =~= entries@.take(i as int));
            self.push(entry_copy(&entries[i]));
            i = i + 1;
        }
        assert(entries@.take(entries.len() as int) =~= entries@);
    }

    /// A copy of the retained entries, oldest first.
    pub fn snapshot(&self) -> (v: Vec<PacketLogEntry>)
        ensures
            v@ == self.entries(),
    {
        let mut v: Vec<PacketLogEntry> = Vec::new();
        let mut i: usize = 0;
        while i < self.inner.len()
            invariant
                0 <= i <= self.inner@.len(),
                v@ == self.inner@.take(i as int),
            decreases self.inner@.len() - i,
        {
            v.push(entry_copy(&self.inner[i]));
            i = i + 1;
            assert(v@ =~= self.inner@.take(i as int));
        }
        assert(self.inner@.take(i as int) =~= self.inner@);
        v
    }

    pub fn clear(&mut self)
        ensures
            final(self).wf(),
            final(self).capacity() == old(self).capacity(),
            final(self).entries() == Seq::<PacketLogEntry>::empty(),
    {
        self.inner.clear();
    }
}

/// Memory stays flat: a buffer never holds more than its capacity, whatever
/// is pushed into it (a buffer of capacity 0 holds nothing).
pub proof fn law_ring_buffer_is_bounded(s: Seq<PacketLogEntry>, cap: nat, es: Seq<PacketLogEntry>)
    requires
        s.len() <= cap,
    ensures
        pushed_all(s, cap, es).len() <= cap,
    decreases es.len(),
{
    if es.len() > 0 {
        law_ring_buffer_is_bounded(s, cap, es.drop_last());
    }
}

/// A push keeps the newest entries: with room for at least one entry, the
/// pushed entry is last and what precedes it is the previous content minus
/// its oldest entry when the buffer was full; a buffer of capacity 0 stays
/// empty.
pub proof fn law_push_keeps_newest(s: Seq<PacketLogEntry>, cap: nat, e: PacketLogEntry)
    requires
        s.len() <= cap,
    ensures
        cap == 0 ==> pushed(s, cap, e) == Seq::<PacketLogEntry>::empty(),
        cap > 0 ==> pushed(s, cap, e).last() == e,
        cap > 0 ==> pushed(s, cap, e).drop_last() == (if s.len() == cap {
            s.drop_first()
        } else {
            s
        }),
{
    if cap == 0 {
        assert(pushed(s, cap, e) =~= Seq::<PacketLogEntry>::empty());
    } else if s.len() == cap {
        assert(pushed(s, cap, e).drop_last() =~= s.drop_first());
    } else {
        assert(pushed(s, cap, e).drop_last() =~= s);
    }
}

} // verus!

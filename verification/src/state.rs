//! The engine's live state behind the pull-style status, snapshot and
//! packet-log queries. Times are readings of a monotonic millisecond clock
//! that the caller supplies.
use vstd::prelude::*;

use crate::engine::{EngineState, EngineStatus};
use crate::packet_log::{entry_copy, pushed_all, PacketLogEntry, RingBuffer};

verus! {

/// How many packet-log entries are retained.
pub const PACKET_LOG_CAP: usize = 500;

/// Milliseconds elapsed since `started` at clock reading `now` (zero when the
/// session is not running, and never negative).
pub open spec fn elapsed_spec(started: Option<u64>, now: u64) -> u64 {
    match started {
        Some(t) => if now >= t { (now - t) as u64 } else { 0 },
        None => 0,
    }
}

/// Lifecycle state, peer count, session start and the recent packet log.
#[derive(Debug)]
pub struct SharedState {
    state: EngineState,
    peers: u32,
    started_at_ms: Option<u64>,
    packets: RingBuffer,
}

impl SharedState {
    pub closed spec fn engine_state(self) -> EngineState {
        self.state
    }

    pub closed spec fn peer_count(self) -> u32 {
        self.peers
    }

    /// The clock reading at which the running session started.
    pub closed spec fn started_at(self) -> Option<u64> {
        self.started_at_ms
    }

    /// The retained packet-log entries, oldest first.
    pub closed spec fn packet_entries(self) -> Seq<PacketLogEntry> {
        self.packets.entries()
    }

    /// The packet log keeps exactly `PACKET_LOG_CAP` entries at most.
    pub closed spec fn wf(self) -> bool {
        self.packets.capacity() == PACKET_LOG_CAP && self.packets.wf()
    }

    /// Idle, no peers, not started, empty log.
    pub fn new() -> (s: Self)
        ensures
            s.wf(),
            s.engine_state() == EngineState::Idle,
            s.peer_count() == 0,
            s.started_at() is None,
            s.packet_entries() == Seq::<PacketLogEntry>::empty(),
    {
        SharedState {
            state: EngineState::Idle,
            peers: 0,
            started_at_ms: None,
            packets: RingBuffer::new(PACKET_LOG_CAP),
        }
    }

    /// Records the session start time.
    pub fn mark_started(&mut self, now_ms: u64)
        requires
            old(self).wf(),
        ensures
            final(self).wf(),
            final(self).started_at() == Some(now_ms),
            final(self).engine_state() == old(self).engine_state(),
            final(self).peer_count() == old(self).peer_count(),
            final(self).packet_entries() == old(self).packet_entries(),
    {
        self.started_at_ms = Some(now_ms);
    }

    /// Resets all live state back to idle.
    pub fn mark_stopped(&mut self)
        requires
            old(self).wf(),
        ensures
            final(self).wf(),
            final(self).started_at() is None,
            final(self).peer_count() == 0,
            final(self).engine_state() == EngineState::Idle,
            final(self).packet_entries() == Seq::<PacketLogEntry>::empty(),
    {
        self.started_at_ms = None;
        self.peers = 0;
        self.state = EngineState::Idle;
        self.packets.clear();
    }

    pub fn set_state(&mut self, s: EngineState)
        requires
            old(self).wf(),
        ensures
            final(self).wf(),
            final(self).engine_state() == s,
            final(self).peer_count() == old(self).peer_count(),
            final(self).started_at() == old(self).started_at(),
            final(self).packet_entries() == old(self).packet_entries(),
    {
        self.state = s;
    }

    pub fn state(&self) -> (s: EngineState)
        ensures
            s == self.engine_state(),
    {
        self.state
    }

    /// Records the peer count carried by a new telemetry snapshot.
    pub fn set_peers(&mut self, peers: u32)
        requires
            old(self).wf(),
        ensures
            final(self).wf(),
            final(self).peer_count() == peers,
            final(self).engine_state() == old(self).engine_state(),
            final(self).started_at() == old(self).started_at(),
            final(self).packet_entries() == old(self).packet_entries(),
    {
        self.peers = peers;
    }

    /// Appends a batch to the packet log, oldest entries making room.
    pub fn push_packets(&mut self, batch: &[PacketLogEntry])
        requires
            old(self).wf(),
        ensures
            final(self).wf(),
            final(self).packet_entries() == pushed_all(
                old(self).packet_entries(),
                PACKET_LOG_CAP as nat,
                batch@,
            ),
            final(self).engine_state() == old(self).engine_state(),
            final(self).peer_count() == old(self).peer_count(),
            final(self).started_at() == old(self).started_at(),
    {
        let mut i: usize = 0;
        while i < batch.len()
            invariant
                0 <= i <= batch@.len(),
                self.wf(),
                self.packet_entries() == pushed_all(
                    old(self).packet_entries(),
                    PACKET_LOG_CAP as nat,
                    batch@.take(i as int),
                ),
                self.state == old(self).state,
                self.peers == old(self).peers,
                self.started_at_ms == old(self).started_at_ms,
            decreases batch@.len() - i,
        {
            assert(batch@.take(i + 1).drop_last() =~= batch@.take(i as int));
            self.packets.push(entry_copy(&batch[i]));
            i = i + 1;
        }
        assert(batch@.take(batch@.len() as int) =~= batch@);
    }

    /// A copy of the retained packet log, oldest first.
    pub fn packet_log(&self) -> (v: Vec<PacketLogEntry>)
        ensures
            v@ == self.packet_entries(),
    {
        self.packets.snapshot()
    }

    /// Milliseconds since the session started at clock reading `now_ms`
    /// (0 when stopped).
    pub fn elapsed_ms(&self, now_ms: u64) -> (ms: u64)
        ensures
            ms == elapsed_spec(self.started_at(), now_ms),
    {
        match self.started_at_ms {
            Some(t) => if now_ms >= t { now_ms - t } else { 0 },
            None => 0,
        }
    }

    /// State, peer count and whole seconds of uptime at clock reading `now_ms`.
    pub fn status(&self, now_ms: u64) -> (st: EngineStatus)
        ensures
            st.state == self.engine_state(),
            st.peers == self.peer_count(),
            st.uptime_s == elapsed_spec(self.started_at(), now_ms) / 1000,
    {
        let uptime_s = self.elapsed_ms(now_ms) / 1000;
        EngineStatus { state: self.state, peers: self.peers, uptime_s }
    }
}

impl Default for SharedState {
    fn default() -> (s: Self)
        ensures
            s.wf(),
            s.engine_state() == EngineState::Idle,
            s.peer_count() == 0,
            s.started_at() is None,
            s.packet_entries() == Seq::<PacketLogEntry>::empty(),
    {
        SharedState::new()
    }
}

/// The packet log of the live state never grows past `PACKET_LOG_CAP`.
pub proof fn law_packet_log_is_bounded(s: Seq<PacketLogEntry>, batch: Seq<PacketLogEntry>)
    requires
        s.len() <= PACKET_LOG_CAP,
    ensures
        pushed_all(s, PACKET_LOG_CAP as nat, batch).len() <= PACKET_LOG_CAP,
{
    crate::packet_log::law_ring_buffer_is_bounded(s, PACKET_LOG_CAP as nat, batch);
}

/// Uptime counts from the recorded start: `d` milliseconds after starting,
/// the elapsed time is exactly `d`.
pub proof fn law_elapsed_counts_from_start(t: u64, d: u64)
    requires
        t + d <= u64::MAX,
    ensures
        elapsed_spec(Some(t), (t + d) as u64) == d,
{
}

} // verus!

//! Split tunnelling: the data-plane policy that decides which packets the
//! encrypted tunnel carries, in each direction.
//!
//! IPv4 addresses are `u32`s in network order (`a.b.c.d` is
//! `a << 24 | b << 16 | c << 8 | d`, as `u32::from(Ipv4Addr)` gives).
//!
//!   * unicast to the virtual subnet → tunnelled;
//!   * broadcast (limited `255.255.255.255` and subnet-directed) and multicast
//!     (`224.0.0.0/4`) → tunnelled when enabled;
//!   * everything else → dropped.
use vstd::prelude::*;

verus! {

/// The limited broadcast address `255.255.255.255`.
pub const BROADCAST: u32 = 0xffff_ffff;

/// Virtual adapter parameters the policy is derived from.
#[derive(Clone, Copy, Debug)]
pub struct TunConfig {
    /// Our own address on the virtual LAN.
    pub virtual_ip: u32,
    /// Prefix length of the virtual LAN.
    pub prefix_len: u8,
    /// Adapter MTU in bytes.
    pub mtu: u16,
}

impl TunConfig {
    /// `10.77.0.1/24`, MTU 1420.
    pub fn standard() -> (c: Self)
        ensures
            c.virtual_ip == 0x0a4d_0001,
            c.prefix_len == 24,
            c.mtu == 1420,
    {
        TunConfig { virtual_ip: 0x0a4d_0001, prefix_len: 24, mtu: 1420 }
    }
}

impl Default for TunConfig {
    fn default() -> (c: Self)
        ensures
            c.virtual_ip == 0x0a4d_0001,
            c.prefix_len == 24,
            c.mtu == 1420,
    {
        TunConfig::standard()
    }
}

/// Prefix length → 32-bit network mask.
pub open spec fn mask_of(prefix: u8) -> u32 {
    if prefix == 0 {
        0u32
    } else if prefix >= 32 {
        0xffff_ffffu32
    } else {
        !(0xffff_ffffu32 >> prefix)
    }
}

/// Whether `ip` is a multicast address (`224.0.0.0/4`).
pub open spec fn is_multicast(ip: u32) -> bool {
    224 <= (ip >> 24u32) <= 239
}

/// An IPv4 CIDR block.
#[derive(Debug, Clone, Copy, PartialEq, Eq, Structural)]
pub struct Ipv4Cidr {
    pub addr: u32,
    pub prefix: u8,
}

impl Ipv4Cidr {
    pub open spec fn holds(self, ip: u32) -> bool {
        (ip & mask_of(self.prefix)) == (self.addr & mask_of(self.prefix))
    }

    /// Whether `ip` falls within this block.
    pub fn contains(&self, ip: u32) -> (b: bool)
        ensures
            b == self.holds(ip),
    {
        let m = mask(self.prefix);
        (ip & m) == (self.addr & m)
    }
}

/// Prefix-length → 32-bit network mask.
pub fn mask(prefix: u8) -> (m: u32)
    ensures
        m == mask_of(prefix),
{
    if prefix == 0 {
        0
    } else if prefix >= 32 {
        u32::MAX
    } else {
        !(u32::MAX >> prefix)
    }
}

/// The routing decision for one outbound packet.
#[derive(Debug, Clone, Copy, PartialEq, Eq, Structural)]
pub enum Decision {
    /// Send it to the peer over the encrypted tunnel.
    Tunnel,
    /// Do not forward it.
    Drop,
}

pub open spec fn toggle_of(on: bool) -> Decision {
    if on {
        Decision::Tunnel
    } else {
        Decision::Drop
    }
}

fn toggle(on: bool) -> (d: Decision)
    ensures
        d == toggle_of(on),
{
    if on {
        Decision::Tunnel
    } else {
        Decision::Drop
    }
}

/// The prefix `from_tun` uses: the configured one when it is a plausible
/// virtual-LAN prefix (`8..=32`), otherwise `/32` — the fail-closed direction.
pub open spec fn effective_prefix(p: u8) -> u8 {
    if 8 <= p <= 32 {
        p
    } else {
        32
    }
}

/// The split-tunnel policy applied to every packet crossing the tunnel.
#[derive(Debug, Clone)]
pub struct SplitPolicy {
    included: Vec<Ipv4Cidr>,
    subnet_broadcast: u32,
    local_ip: u32,
    forward_broadcast: bool,
    forward_multicast: bool,
}

/// Destination octets 16..20 of a well-formed IPv4 frame, as a `u32`.
pub open spec fn frame_dst(frame: Seq<u8>) -> Option<u32> {
    if frame.len() < 20 || (frame[0] >> 4u8) != 4 {
        None
    } else {
        Some(be32(frame[16], frame[17], frame[18], frame[19]))
    }
}

/// Source octets 12..16 of a well-formed IPv4 frame, as a `u32`.
pub open spec fn frame_src(frame: Seq<u8>) -> Option<u32> {
    if frame.len() < 20 || (frame[0] >> 4u8) != 4 {
        None
    } else {
        Some(be32(frame[12], frame[13], frame[14], frame[15]))
    }
}

/// Four octets as a big-endian `u32`.
pub open spec fn be32(a: u8, b: u8, c: u8, d: u8) -> u32 {
    ((a as u32) << 24u32) | ((b as u32) << 16u32) | ((c as u32) << 8u32) | (d as u32)
}

pub fn be32_exec(a: u8, b: u8, c: u8, d: u8) -> (v: u32)
    ensures
        v == be32(a, b, c, d),
{
    ((a as u32) << 24) | ((b as u32) << 16) | ((c as u32) << 8) | (d as u32)
}

/// Extract the destination IPv4 address from a layer-3 frame, or `None` if it
/// is not a well-formed IPv4 packet.
pub fn dst_ipv4(frame: &[u8]) -> (r: Option<u32>)
    ensures
        r == frame_dst(frame@),
{
    if frame.len() < 20 || (frame[0] >> 4) != 4 {
        return None;
    }
    Some(be32_exec(frame[16], frame[17], frame[18], frame[19]))
}

/// Extract the source IPv4 address (octets 12..16) from a layer-3 frame.
pub fn src_ipv4(frame: &[u8]) -> (r: Option<u32>)
    ensures
        r == frame_src(frame@),
{
    if frame.len() < 20 || (frame[0] >> 4) != 4 {
        return None;
    }
    Some(be32_exec(frame[12], frame[13], frame[14], frame[15]))
}

impl SplitPolicy {
    pub closed spec fn blocks(self) -> Seq<Ipv4Cidr> {
        self.included@
    }

    pub closed spec fn broadcast_addr(self) -> u32 {
        self.subnet_broadcast
    }

    pub closed spec fn own_ip(self) -> u32 {
        self.local_ip
    }

    pub closed spec fn broadcast_on(self) -> bool {
        self.forward_broadcast
    }

    pub closed spec fn multicast_on(self) -> bool {
        self.forward_multicast
    }

    /// Whether some included block holds `ip`.
    pub open spec fn included_holds(self, ip: u32) -> bool {
        exists|i: int| 0 <= i < self.blocks().len() && (#[trigger] self.blocks()[i]).holds(ip)
    }

    /// The decision for destination `dst`.
    pub open spec fn decision(self, dst: u32) -> Decision {
        if dst == BROADCAST || dst == self.broadcast_addr() {
            toggle_of(self.broadcast_on())
        } else if is_multicast(dst) {
            toggle_of(self.multicast_on())
        } else if self.included_holds(dst) {
            Decision::Tunnel
        } else {
            Decision::Drop
        }
    }

    /// Whether a frame may enter the tunnel (egress).
    pub open spec fn egress_ok(self, frame: Seq<u8>) -> bool {
        frame_dst(frame) matches Some(d) && self.decision(d) == Decision::Tunnel
    }

    /// Whether a frame received from the peer may be injected on our adapter
    /// (ingress): its source is a peer on the virtual LAN and never us, and its
    /// destination is us or accepted broadcast/multicast.
    pub open spec fn ingress_ok(self, frame: Seq<u8>) -> bool {
        match (frame_src(frame), frame_dst(frame)) {
            (Some(src), Some(dst)) => {
                if src == self.own_ip() || !self.included_holds(src) {
                    false
                } else if dst == self.own_ip() {
                    true
                } else if dst == BROADCAST || dst == self.broadcast_addr() {
                    self.broadcast_on()
                } else if is_multicast(dst) {
                    self.multicast_on()
                } else {
                    false
                }
            },
            _ => false,
        }
    }

    /// Default policy for the virtual LAN: admit the adapter's own subnet,
    /// forward broadcast and multicast, drop the rest. A prefix outside
    /// `8..=32` collapses to `/32` rather than widening the allow-list.
    pub fn from_tun(cfg: &TunConfig) -> (p: Self)
        ensures
            p.blocks().len() == 1,
            p.blocks()[0].prefix == effective_prefix(cfg.prefix_len),
            p.blocks()[0].addr == cfg.virtual_ip & mask_of(effective_prefix(cfg.prefix_len)),
            p.broadcast_addr() == (cfg.virtual_ip & mask_of(effective_prefix(cfg.prefix_len)))
                | !mask_of(effective_prefix(cfg.prefix_len)),
            p.own_ip() == cfg.virtual_ip,
            p.broadcast_on(),
            p.multicast_on(),
    {
        let prefix = if 8 <= cfg.prefix_len && cfg.prefix_len <= 32 {
            cfg.prefix_len
        } else {
            32
        };
        let m = mask(prefix);
        let mut included = Vec::new();
        included.push(Ipv4Cidr { addr: cfg.virtual_ip & m, prefix });
        SplitPolicy {
            included,
            subnet_broadcast: (cfg.virtual_ip & m) | !m,
            local_ip: cfg.virtual_ip,
            forward_broadcast: true,
            forward_multicast: true,
        }
    }

    /// The included blocks.
    pub fn included(&self) -> (v: Vec<Ipv4Cidr>)
        ensures
            v@ == self.blocks(),
    {
        self.included.clone()
    }

    /// The subnet-directed broadcast address.
    pub fn subnet_broadcast(&self) -> (a: u32)
        ensures
            a == self.broadcast_addr(),
    {
        self.subnet_broadcast
    }

    fn any_included(&self, ip: u32) -> (b: bool)
        ensures
            b == self.included_holds(ip),
    {
        let mut i: usize = 0;
        while i < self.included.len()
            invariant
                0 <= i <= self.included.len(),
                forall|t: int| 0 <= t < i ==> !(#[trigger] self.blocks()[t]).holds(ip),
            decreases self.included.len() - i,
        {
            if self.included[i].contains(ip) {
                assert(self.blocks()[i as int].holds(ip));
                return true;
            }
            i = i + 1;
        }
        false
    }

    /// Classify a destination address. Broadcast and multicast are checked
    /// before the unicast allow-list so their toggles govern them.
    pub fn classify(&self, dst: u32) -> (d: Decision)
        ensures
            d == self.decision(dst),
    {
        if dst == BROADCAST || dst == self.subnet_broadcast {
            return toggle(self.forward_broadcast);
        }
        if 224 <= (dst >> 24) && (dst >> 24) <= 239 {
            return toggle(self.forward_multicast);
        }
        if self.any_included(dst) {
            Decision::Tunnel
        } else {
            Decision::Drop
        }
    }

    /// **Egress.** Whether the frame's destination should enter the tunnel.
    /// Non-IPv4 or malformed frames are not admitted.
    pub fn admits(&self, frame: &[u8]) -> (b: bool)
        ensures
            b == self.egress_ok(frame@),
    {
        match dst_ipv4(frame) {
            Some(d) => self.classify(d) == Decision::Tunnel,
            None => false,
        }
    }

    /// **Ingress.** Whether a frame received from the peer may be injected onto
    /// our adapter: decryption proves who sent the frame, not what its inner
    /// header claims, so the source is checked too.
    pub fn admits_inbound(&self, frame: &[u8]) -> (b: bool)
        ensures
            b == self.ingress_ok(frame@),
    {
        let src = match src_ipv4(frame) {
            Some(s) => s,
            None => {
                return false;
            },
        };
        let dst = match dst_ipv4(frame) {
            Some(d) => d,
            None => {
                return false;
            },
        };
        if src == self.local_ip || !self.any_included(src) {
            return false;
        }
        if dst == self.local_ip {
            return true;
        }
        if dst == BROADCAST || dst == self.subnet_broadcast {
            return self.forward_broadcast;
        }
        if 224 <= (dst >> 24) && (dst >> 24) <= 239 {
            return self.forward_multicast;
        }
        false
    }

    /// Override whether broadcast traffic is tunnelled.
    pub fn forward_broadcast(self, on: bool) -> (p: Self)
        ensures
            p.blocks() == self.blocks(),
            p.broadcast_addr() == self.broadcast_addr(),
            p.own_ip() == self.own_ip(),
            p.broadcast_on() == on,
            p.multicast_on() == self.multicast_on(),
    {
        let mut p = self;
        p.forward_broadcast = on;
        p
    }

    /// Override whether multicast traffic is tunnelled.
    pub fn forward_multicast(self, on: bool) -> (p: Self)
        ensures
            p.blocks() == self.blocks(),
            p.broadcast_addr() == self.broadcast_addr(),
            p.own_ip() == self.own_ip(),
            p.broadcast_on() == self.broadcast_on(),
            p.multicast_on() == on,
    {
        let mut p = self;
        p.forward_multicast = on;
        p
    }
}

/// Fail-closed law of the allow-list: whatever prefix the configuration holds,
/// a unicast destination the derived policy tunnels shares the first octet of
/// our own virtual address — the allow-list never widens to the internet.
pub proof fn law_allow_list_never_widens(cfg: TunConfig, p: SplitPolicy, dst: u32)
    requires
        p.blocks().len() == 1,
        p.blocks()[0].prefix == effective_prefix(cfg.prefix_len),
        p.blocks()[0].addr == cfg.virtual_ip & mask_of(effective_prefix(cfg.prefix_len)),
        p.included_holds(dst),
    ensures
        (dst >> 24u32) == (cfg.virtual_ip >> 24u32),
{
    let pre = effective_prefix(cfg.prefix_len);
    let m = mask_of(pre);
    let v = cfg.virtual_ip;
    assert(p.blocks()[0].holds(dst));
    assert((dst & m) == ((v & m) & m));
    if pre >= 32 {
        assert(((dst & 0xffff_ffffu32) == ((v & 0xffff_ffffu32) & 0xffff_ffffu32)) ==> (dst >> 24u32)
            == (v >> 24u32)) by (bit_vector);
    } else {
        assert(8 <= pre < 32);
        assert(forall|x: u32, y: u32, q: u8|
            8 <= q < 32 && (x & !(0xffff_ffffu32 >> q)) == ((y & !(0xffff_ffffu32 >> q)) & !(
            0xffff_ffffu32 >> q)) ==> (x >> 24u32) == (y >> 24u32)) by (bit_vector);
    }
}

/// Anti-spoofing law of the ingress gate: a frame whose inner source claims to
/// be our own address, or lies outside the virtual LAN, is never injected.
pub proof fn law_ingress_rejects_spoofed_sources(p: SplitPolicy, frame: Seq<u8>)
    requires
        frame_src(frame) matches Some(src) && (src == p.own_ip() || !p.included_holds(src)),
    ensures
        !p.ingress_ok(frame),
{
}

/// The first octet of an address written as four octets.
proof fn lemma_first_octet_block(a: u8, b: u8, c: u8, d: u8)
    ensures
        (be32(a, b, c, d) >> 24u32) == a as u32,
        (a & 0xf0u8) == 0xe0u8 <==> 224 <= a <= 239,
        224 <= a <= 239 ==> be32(a, b, c, d) != BROADCAST,
{
    assert(0xffff_ffffu32 >> 24u32 == 255u32) by (bit_vector);
    assert((((a as u32) << 24u32) | ((b as u32) << 16u32) | ((c as u32) << 8u32) | (d as u32)) >> 24u32 == a as u32)
        by (bit_vector);
    assert((a & 0xf0u8) == 0xe0u8 <==> 224 <= a <= 239) by (bit_vector);
}

/// Multicast law of the egress gate: every destination in `224.0.0.0/4`
/// (first octet `1110xxxx`, so `224.x.x.x` to `239.x.x.x`, SSDP's
/// `239.255.255.250` among them) that is not the subnet broadcast is decided
/// by the multicast toggle alone: tunnelled when it is on, dropped when off.
pub proof fn law_multicast_block_follows_toggle(p: SplitPolicy, a: u8, b: u8, c: u8, d: u8)
    requires
        (a & 0xf0u8) == 0xe0u8,
        be32(a, b, c, d) != p.broadcast_addr(),
    ensures
        p.decision(be32(a, b, c, d)) == toggle_of(p.multicast_on()),
        p.multicast_on() ==> p.decision(be32(a, b, c, d)) == Decision::Tunnel,
        !p.multicast_on() ==> p.decision(be32(a, b, c, d)) == Decision::Drop,
{
    lemma_first_octet_block(a, b, c, d);
}

/// Multicast law of the ingress gate: a frame from a peer on the virtual LAN
/// (not us) to a destination in `224.0.0.0/4` that is neither us nor the
/// subnet broadcast is injected exactly when multicast is on.
pub proof fn law_inbound_multicast_follows_toggle(p: SplitPolicy, frame: Seq<u8>)
    requires
        frame_src(frame) matches Some(src) && src != p.own_ip() && p.included_holds(src),
        frame_dst(frame) matches Some(dst) && dst != p.own_ip() && dst != p.broadcast_addr(),
        (frame[16] & 0xf0u8) == 0xe0u8,
    ensures
        p.ingress_ok(frame) == p.multicast_on(),
{
    lemma_first_octet_block(frame[16], frame[17], frame[18], frame[19]);
}

/// Outside `224.0.0.0/4` the multicast toggle plays no part: a destination
/// whose first octet is not `1110xxxx`, and that is no broadcast address,
/// is tunnelled exactly when an included block holds it.
pub proof fn law_unicast_follows_allow_list(p: SplitPolicy, a: u8, b: u8, c: u8, d: u8)
    requires
        (a & 0xf0u8) != 0xe0u8,
        be32(a, b, c, d) != BROADCAST,
        be32(a, b, c, d) != p.broadcast_addr(),
    ensures
        p.decision(be32(a, b, c, d)) == (if p.included_holds(be32(a, b, c, d)) {
            Decision::Tunnel
        } else {
            Decision::Drop
        }),
{
    lemma_first_octet_block(a, b, c, d);
}

} // verus!

//! Engine lifecycle state, configuration, errors and UI notices.
use vstd::prelude::*;

use crate::split_tunnel::TunConfig;

verus! {

/// Engine lifecycle state.
#[derive(Debug, Clone, Copy, PartialEq, Eq, Structural)]
pub enum EngineState {
    Idle,
    Connecting,
    /// Bringing up the real adapter.
    Starting,
    Connected,
    /// A real-adapter session was requested without the required privileges.
    NeedsElevation,
    /// A fault occurred.
    Error,
}

/// High-level status.
#[derive(Debug, Clone, Copy, PartialEq, Eq, Structural)]
pub struct EngineStatus {
    pub state: EngineState,
    pub peers: u32,
    pub uptime_s: u64,
}

/// Errors surfaced across the UI boundary.
#[derive(Debug, Clone, Copy, PartialEq, Eq, Structural)]
pub enum EngineError {
    AlreadyRunning,
    NotRunning,
    LockPoisoned,
}

impl EngineError {
    /// The readable message the UI receives.
    pub fn message(&self) -> (s: String)
        ensures
            *self == EngineError::AlreadyRunning ==> s@ == "engine is already running"@,
            *self == EngineError::NotRunning ==> s@ == "engine is not running"@,
            *self == EngineError::LockPoisoned ==> s@ == "engine controller lock was poisoned"@,
    {
        match self {
            EngineError::AlreadyRunning => "engine is already running".to_owned(),
            EngineError::NotRunning => "engine is not running".to_owned(),
            EngineError::LockPoisoned => "engine controller lock was poisoned".to_owned(),
        }
    }
}

/// Telemetry presets for stress-testing link conditions without networking.
#[derive(Debug, Clone, Copy, PartialEq, Eq, Structural)]
pub enum SimProfile {
    /// Low, steady latency.
    Stable,
    /// Elevated jitter and occasional loss.
    Congested,
    /// High loss spikes.
    Lossy,
}

impl Default for SimProfile {
    fn default() -> (p: Self)
        ensures
            p == SimProfile::Stable,
    {
        SimProfile::Stable
    }
}

/// Parameters for an engine session; every field has a default.
#[derive(Debug, Clone)]
pub struct EngineConfig {
    /// Stats emission rate in Hz (clamped to `1..=20` at use).
    pub tick_hz: u8,
    pub sim_profile: SimProfile,
    /// Optional seed for a reproducible run.
    pub seed: Option<u64>,
    /// Use the real adapter instead of the simulator.
    pub use_real_tun: bool,
    /// Virtual adapter parameters.
    pub tun: TunConfig,
    /// Run the transport probe instead of the simulator.
    pub transport_probe: bool,
    /// STUN server for reflexive-address discovery.
    pub stun_server: String,
    /// Local UDP port to bind (0 = ephemeral).
    pub bind_port: u16,
    /// Optional `host:port` ping target.
    pub probe_target: Option<String>,
}

/// The default STUN server.
pub fn default_stun_server() -> (s: String)
    ensures
        s@ == "stun.l.google.com:19302"@,
{
    "stun.l.google.com:19302".to_owned()
}

/// The default stats rate, in Hz.
pub fn default_tick_hz() -> (h: u8)
    ensures
        h == 4,
{
    4
}

impl Default for EngineConfig {
    fn default() -> (c: Self)
        ensures
            c.tick_hz == 4,
            c.sim_profile == SimProfile::Stable,
            c.seed is None,
            !c.use_real_tun,
            c.tun.virtual_ip == 0x0a4d_0001 && c.tun.prefix_len == 24 && c.tun.mtu == 1420,
            !c.transport_probe,
            c.stun_server@ == "stun.l.google.com:19302"@,
            c.bind_port == 0,
            c.probe_target is None,
    {
        EngineConfig {
            tick_hz: default_tick_hz(),
            sim_profile: SimProfile::Stable,
            seed: None,
            use_real_tun: false,
            tun: TunConfig::standard(),
            transport_probe: false,
            stun_server: default_stun_server(),
            bind_port: 0,
            probe_target: None,
        }
    }
}

/// The `Duration` of `ms` milliseconds, as `Duration::from_millis` builds it.
pub uninterp spec fn millis_duration(ms: u64) -> core::time::Duration;

/// `Duration::from_millis` of std.
#[verifier::external_body]
fn duration_from_millis(ms: u64) -> (d: core::time::Duration)
    ensures
        d == millis_duration(ms),
{
    core::time::Duration::from_millis(ms)
}

/// Milliseconds per tick at `hz` clamped to `1..=20`.
pub open spec fn tick_ms(hz: u8) -> u64 {
    let h: u64 = if hz < 1 {
        1
    } else if hz > 20 {
        20
    } else {
        hz as u64
    };
    (1000u64 / h) as u64
}

impl EngineConfig {
    /// Per-tick interval in milliseconds, from `tick_hz` clamped to `1..=20`.
    pub fn tick_interval_ms(&self) -> (ms: u64)
        ensures
            ms == tick_ms(self.tick_hz),
            50 <= ms <= 1000,
    {
        let hz: u64 = if self.tick_hz < 1 {
            1
        } else if self.tick_hz > 20 {
            20
        } else {
            self.tick_hz as u64
        };
        assert(50 <= 1000u64 / hz <= 1000) by (nonlinear_arith)
            requires
                1 <= hz <= 20,
        ;
        1000 / hz
    }

    /// Per-tick interval derived from `tick_hz`, clamped to a sane range.
    pub fn tick_interval(&self) -> (d: core::time::Duration)
        ensures
            d == millis_duration(tick_ms(self.tick_hz)),
    {
        duration_from_millis(self.tick_interval_ms())
    }
}

/// A notice for the UI: `code` is machine-readable, `message` is for display,
/// `remediation` (when present) names a UI action.
#[derive(Debug, Clone)]
pub struct EngineNotice {
    pub code: String,
    pub message: String,
    pub remediation: Option<String>,
}

impl EngineNotice {
    pub fn needs_elevation() -> (n: Self)
        ensures
            n.code@ == "needs_elevation"@,
            n.message@ == "Administrator privileges are required to create the virtual network adapter."@,
            n.remediation matches Some(r) && r@ == "relaunch_elevated"@,
    {
        EngineNotice {
            code: "needs_elevation".to_owned(),
            message: "Administrator privileges are required to create the virtual network adapter.".to_owned(),
            remediation: Some("relaunch_elevated".to_owned()),
        }
    }

    pub fn unsupported_platform() -> (n: Self)
        ensures
            n.code@ == "unsupported_platform"@,
            n.message@ == "The real network adapter is only available on Windows in this build."@,
            n.remediation is None,
    {
        EngineNotice {
            code: "unsupported_platform".to_owned(),
            message: "The real network adapter is only available on Windows in this build.".to_owned(),
            remediation: None,
        }
    }

    pub fn error(message: String) -> (n: Self)
        ensures
            n.code@ == "engine_error"@,
            n.message == message,
            n.remediation is None,
    {
        EngineNotice { code: "engine_error".to_owned(), message, remediation: None }
    }

    /// A non-error informational notice.
    pub fn info(code: String, message: String) -> (n: Self)
        ensures
            n.code == code,
            n.message == message,
            n.remediation is None,
    {
        EngineNotice { code, message, remediation: None }
    }
}

/// Where a link's data plane comes from.
#[derive(Debug, Clone, Copy)]
pub enum DataPlaneSource {
    /// No data plane: the link runs control-only.
    ControlOnly,
    /// Create a virtual adapter with this configuration.
    Adapter(TunConfig),
}

/// The data plane for a link in `role` on the point-to-point virtual LAN: the
/// initiator takes `10.77.0.1`, the responder `10.77.0.2`; none without the
/// privilege to create an adapter or without a negotiated role.
pub fn dataplane_source_for(role: crate::connection::Role, can_create_tun: bool) -> (d: DataPlaneSource)
    ensures
        !can_create_tun ==> d is ControlOnly,
        can_create_tun && role == crate::connection::Role::Idle ==> d is ControlOnly,
        can_create_tun && role == crate::connection::Role::Initiator ==> (d matches DataPlaneSource::Adapter(c) && c.virtual_ip == 0x0a4d_0001 && c.prefix_len == 24 && c.mtu == 1420),
        can_create_tun && role == crate::connection::Role::Responder ==> (d matches DataPlaneSource::Adapter(c) && c.virtual_ip == 0x0a4d_0002 && c.prefix_len == 24 && c.mtu == 1420),
{
    if !can_create_tun {
        return DataPlaneSource::ControlOnly;
    }
    let virtual_ip: u32 = match role {
        crate::connection::Role::Initiator => 0x0a4d_0001,
        crate::connection::Role::Responder => 0x0a4d_0002,
        crate::connection::Role::Idle => {
            return DataPlaneSource::ControlOnly;
        },
    };
    let base = TunConfig::standard();
    DataPlaneSource::Adapter(TunConfig { virtual_ip, ..base })
}

/// Relay-hosting status for display.
#[derive(Debug, Clone)]
pub struct RelayHostStatus {
    /// The relay's bound port.
    pub port: u16,
    /// Network names currently registered.
    pub registered_networks: Vec<String>,
}

/// This node's identity for display.
#[derive(Debug, Clone)]
pub struct IdentityInfo {
    /// Short human-readable fingerprint.
    pub peer_address: String,
    /// Base64 of the public key.
    pub public_key_b64: String,
}

impl IdentityInfo {
    /// The display identity of `id`.
    pub fn of(id: &crate::crypto::Identity) -> (i: Self)
        ensures
            i.peer_address@ == crate::crypto::fingerprint_chars(id.public_key()),
            i.public_key_b64@ == crate::crypto::b64_std_encoded(id.public_key()),
    {
        IdentityInfo { peer_address: id.peer_address(), public_key_b64: id.public_b64() }
    }
}

/// What the engine runs once started.
#[derive(Debug, Clone, Copy, PartialEq, Eq, Structural)]
pub enum Workload {
    /// Capture on the real virtual adapter.
    Capture,
    /// The transport probe.
    Probe,
    /// The telemetry simulator.
    Simulator,
}

/// The outcome of a start request that is not refused.
#[derive(Debug)]
pub enum StartPlan {
    /// The real adapter was asked for without the privilege to create it:
    /// the engine reports `NeedsElevation` with this notice and runs nothing.
    NeedsElevation(EngineNotice),
    /// Run this workload.
    Run(Workload),
}

/// Decide a start request: refused while running; a real-adapter start
/// without the privilege to create one asks for elevation (on Windows) or
/// reports the platform unsupported; otherwise the adapter capture, the
/// transport probe or the simulator runs, in that order of preference.
pub fn start_plan(running: bool, use_real_tun: bool, transport_probe: bool, can_create_tun: bool, os_is_windows: bool) -> (r:
    Result<StartPlan, EngineError>)
    ensures
        running ==> r == Err::<StartPlan, EngineError>(EngineError::AlreadyRunning),
        !running && use_real_tun && !can_create_tun ==> (r matches Ok(StartPlan::NeedsElevation(n)) && (os_is_windows
            ==> n.code@ == "needs_elevation"@) && (!os_is_windows ==> n.code@ == "unsupported_platform"@)),
        !running && use_real_tun && can_create_tun ==> (r matches Ok(StartPlan::Run(w)) && w == Workload::Capture),
        !running && !use_real_tun && transport_probe ==> (r matches Ok(StartPlan::Run(w)) && w == Workload::Probe),
        !running && !use_real_tun && !transport_probe ==> (r matches Ok(StartPlan::Run(w)) && w == Workload::Simulator),
{
    if running {
        return Err(EngineError::AlreadyRunning);
    }
    if use_real_tun {
        if !can_create_tun {
            let notice = if os_is_windows {
                EngineNotice::needs_elevation()
            } else {
                EngineNotice::unsupported_platform()
            };
            return Ok(StartPlan::NeedsElevation(notice));
        }
        return Ok(StartPlan::Run(Workload::Capture));
    }
    if transport_probe {
        Ok(StartPlan::Run(Workload::Probe))
    } else {
        Ok(StartPlan::Run(Workload::Simulator))
    }
}

/// Decide a stop request: refused when nothing runs.
pub fn stop_plan(running: bool) -> (r: Result<(), EngineError>)
    ensures
        running <==> r is Ok,
        !running ==> r == Err::<(), EngineError>(EngineError::NotRunning),
{
    if running {
        Ok(())
    } else {
        Err(EngineError::NotRunning)
    }
}

} // verus!

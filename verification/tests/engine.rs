use pcpvpn::connection::Role;
use pcpvpn::engine::{
    dataplane_source_for, default_stun_server, start_plan, stop_plan, DataPlaneSource, EngineConfig, EngineError, EngineNotice, StartPlan,
    Workload,
};

#[test]
fn tick_interval_clamps_the_rate() {
    let mut c = EngineConfig::default();
    assert_eq!(c.tick_hz, 4);
    assert_eq!(c.tick_interval_ms(), 250);
    assert_eq!(c.tick_interval().as_millis(), 250);
    c.tick_hz = 0;
    assert_eq!(c.tick_interval_ms(), 1000);
    c.tick_hz = 200;
    assert_eq!(c.tick_interval_ms(), 50);
}

#[test]
fn defaults() {
    assert_eq!(default_stun_server(), "stun.l.google.com:19302");
    let c = EngineConfig::default();
    assert!(c.seed.is_none());
    assert!(!c.use_real_tun);
}

#[test]
fn dataplane_follows_the_negotiated_role() {
    assert!(matches!(dataplane_source_for(Role::Initiator, false), DataPlaneSource::ControlOnly));
    assert!(matches!(dataplane_source_for(Role::Idle, true), DataPlaneSource::ControlOnly));
    match dataplane_source_for(Role::Initiator, true) {
        DataPlaneSource::Adapter(c) => assert_eq!((c.virtual_ip, c.prefix_len, c.mtu), (0x0a4d_0001, 24, 1420)),
        other => panic!("unexpected {other:?}"),
    }
    match dataplane_source_for(Role::Responder, true) {
        DataPlaneSource::Adapter(c) => assert_eq!(c.virtual_ip, 0x0a4d_0002),
        other => panic!("unexpected {other:?}"),
    }
}

#[test]
fn notices() {
    let n = EngineNotice::needs_elevation();
    assert_eq!(n.code, "needs_elevation");
    assert_eq!(n.remediation.as_deref(), Some("relaunch_elevated"));
    let e = EngineNotice::error("boom".to_string());
    assert_eq!((e.code.as_str(), e.message.as_str()), ("engine_error", "boom"));
    assert!(EngineNotice::unsupported_platform().remediation.is_none());
}

#[test]
fn start_is_refused_while_running_and_stop_while_not() {
    assert!(matches!(start_plan(true, false, false, true, true), Err(EngineError::AlreadyRunning)));
    assert!(matches!(stop_plan(false), Err(EngineError::NotRunning)));
    assert!(stop_plan(true).is_ok());
    assert_eq!(EngineError::AlreadyRunning.message(), "engine is already running");
}

#[test]
fn a_real_adapter_without_privilege_asks_for_elevation() {
    match start_plan(false, true, false, false, true) {
        Ok(StartPlan::NeedsElevation(n)) => assert_eq!(n.code, "needs_elevation"),
        other => panic!("unexpected {other:?}"),
    }
    match start_plan(false, true, false, false, false) {
        Ok(StartPlan::NeedsElevation(n)) => assert_eq!(n.code, "unsupported_platform"),
        other => panic!("unexpected {other:?}"),
    }
}

#[test]
fn the_workload_follows_the_config() {
    assert!(matches!(start_plan(false, true, true, true, true), Ok(StartPlan::Run(Workload::Capture))));
    assert!(matches!(start_plan(false, false, true, false, true), Ok(StartPlan::Run(Workload::Probe))));
    assert!(matches!(start_plan(false, false, false, false, true), Ok(StartPlan::Run(Workload::Simulator))));
}

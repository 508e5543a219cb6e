use pcpvpn::helper::{
    pipe_name, random_suffix, response_of, step_for, HelperOperation, HelperRequest, HelperResponse, HelperStep, RouteSpec,
    HELPER_PROTOCOL_VERSION,
};

fn sample_requests() -> Vec<HelperRequest> {
    let routes = vec![RouteSpec { network: 0xc0a8_0100, prefix: 24 }];
    vec![
        HelperRequest::CreateAdapter {
            v: HELPER_PROTOCOL_VERSION,
            name: "PlayerClubVPN".to_string(),
            virtual_ip: 0x0a4d_0001,
            prefix_len: 24,
        },
        HelperRequest::ConfigureNetworkIntegration { v: HELPER_PROTOCOL_VERSION, adapter_name: "PlayerClubVPN".to_string() },
        HelperRequest::RemoveNetworkIntegration { v: HELPER_PROTOCOL_VERSION, adapter_name: "PlayerClubVPN".to_string() },
        HelperRequest::AddExtraRoutes { v: HELPER_PROTOCOL_VERSION, adapter_name: "PlayerClubVPN".to_string(), routes: routes.clone() },
        HelperRequest::RemoveExtraRoutes { v: HELPER_PROTOCOL_VERSION, adapter_name: "PlayerClubVPN".to_string(), routes },
        HelperRequest::Shutdown { v: HELPER_PROTOCOL_VERSION },
    ]
}

#[test]
fn pipe_name_embeds_the_suffix_and_the_expected_prefix() {
    let name = pipe_name("abc123");
    assert!(name.starts_with(r"\\.\pipe\PlayerClubVPN-Helper-"));
    assert!(name.ends_with("abc123"));
}

#[test]
fn two_calls_with_different_suffixes_never_collide() {
    assert_ne!(pipe_name("one"), pipe_name("two"));
}

#[test]
fn pipe_name_is_exactly_prefix_then_suffix() {
    assert_eq!(pipe_name("x1"), r"\\.\pipe\PlayerClubVPN-Helper-x1");
}

#[test]
fn random_suffix_is_hex_and_practically_never_collides() {
    let a = random_suffix();
    let b = random_suffix();
    assert_eq!(a.len(), 16);
    assert!(a.chars().all(|c| c.is_ascii_hexdigit()));
    assert_ne!(a, b);
}

#[test]
fn request_version_reads_every_variant() {
    for req in sample_requests() {
        assert_eq!(req.version(), HELPER_PROTOCOL_VERSION);
    }
    assert_eq!(HelperRequest::Shutdown { v: 7 }.version(), 7);
}

#[test]
fn malformed_input_gets_an_error_reply() {
    match step_for(Err("expected value at line 1".to_string())) {
        HelperStep::Reply(HelperResponse::Error { message }) => assert_eq!(message, "expected value at line 1"),
        other => panic!("unexpected step {other:?}"),
    }
}

#[test]
fn an_unsupported_version_is_reported_without_performing() {
    let req = HelperRequest::ConfigureNetworkIntegration { v: 99, adapter_name: "a".to_string() };
    match step_for(Ok(req)) {
        HelperStep::Reply(HelperResponse::UnsupportedVersion { supported }) => assert_eq!(supported, HELPER_PROTOCOL_VERSION),
        other => panic!("unexpected step {other:?}"),
    }
}

#[test]
fn each_request_maps_to_its_operation_and_only_shutdown_stops() {
    let reqs = sample_requests();
    let expected_stop = [false, false, false, false, false, true];
    for (req, stop) in reqs.into_iter().zip(expected_stop) {
        match step_for(Ok(req.clone())) {
            HelperStep::Perform { operation, then_stop } => {
                assert_eq!(then_stop, stop);
                match (req, operation) {
                    (HelperRequest::CreateAdapter { name, virtual_ip, prefix_len, .. }, HelperOperation::CreateAdapter { name: n, virtual_ip: ip, prefix_len: p }) => {
                        assert_eq!((name, virtual_ip, prefix_len), (n, ip, p));
                    }
                    (HelperRequest::AddExtraRoutes { routes, .. }, HelperOperation::AddExtraRoutes { routes: r, .. }) => assert_eq!(routes, r),
                    (HelperRequest::RemoveExtraRoutes { routes, .. }, HelperOperation::RemoveExtraRoutes { routes: r, .. }) => assert_eq!(routes, r),
                    (HelperRequest::ConfigureNetworkIntegration { adapter_name, .. }, HelperOperation::ConfigureNetworkIntegration { adapter_name: a }) => assert_eq!(adapter_name, a),
                    (HelperRequest::RemoveNetworkIntegration { adapter_name, .. }, HelperOperation::RemoveNetworkIntegration { adapter_name: a }) => assert_eq!(adapter_name, a),
                    (HelperRequest::Shutdown { .. }, HelperOperation::Shutdown) => {}
                    (r, o) => panic!("request {r:?} mapped to {o:?}"),
                }
            }
            other => panic!("unexpected step {other:?}"),
        }
    }
}

#[test]
fn a_dispatcher_error_becomes_an_error_response() {
    assert_eq!(response_of(Ok(())), HelperResponse::Okay);
    assert_eq!(response_of(Err("boom".to_string())), HelperResponse::Error { message: "boom".to_string() });
}

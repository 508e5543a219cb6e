use pcpvpn::relay_protocol::ServerFrame;
use pcpvpn::relay_server::{accept_session, accept_timed_out, new_session_id, no_such_network, register_host, Registry};

#[test]
fn registering_the_same_name_twice_is_rejected() {
    let mut hosts: Registry<u32> = Registry::new();
    assert_eq!(register_host(&mut hosts, &"party".to_string(), 1), ServerFrame::Okay);
    assert_eq!(
        register_host(&mut hosts, &"party".to_string(), 2),
        ServerFrame::Error { message: "name in use".to_string() }
    );
    assert_eq!(hosts.get("party"), Some(&1));
}

#[test]
fn a_name_frees_up_again_once_its_host_disconnects() {
    let mut hosts: Registry<u32> = Registry::new();
    register_host(&mut hosts, &"party".to_string(), 1);
    assert_eq!(hosts.remove("party"), Some(1));
    assert_eq!(register_host(&mut hosts, &"party".to_string(), 3), ServerFrame::Okay);
    assert_eq!(hosts.keys(), vec!["party".to_string()]);
}

#[test]
fn accept_with_an_unknown_session_id_is_rejected() {
    let mut pending: Registry<&str> = Registry::new();
    assert_eq!(
        accept_session(&mut pending, "nope").err(),
        Some(ServerFrame::Error { message: "unknown session".to_string() })
    );
    pending.insert_new(&"s1".to_string(), "joiner").unwrap();
    assert_eq!(accept_session(&mut pending, "s1").ok(), Some("joiner"));
    assert!(!pending.contains_key("s1"));
}

#[test]
fn refusal_frames() {
    assert_eq!(no_such_network(), ServerFrame::Error { message: "no such network".to_string() });
    assert_eq!(accept_timed_out(), ServerFrame::Error { message: "host did not accept in time".to_string() });
}

#[test]
fn session_ids_are_sixteen_hex_digits() {
    let a = new_session_id();
    assert_eq!(a.len(), 16);
    assert!(a.chars().all(|c| c.is_ascii_hexdigit() && !c.is_ascii_uppercase()));
    assert_ne!(a, new_session_id());
}

#[test]
fn a_taken_key_hands_the_value_back() {
    let mut r: Registry<String> = Registry::new();
    r.insert_new(&"k".to_string(), "first".to_string()).unwrap();
    assert_eq!(r.insert_new(&"k".to_string(), "second".to_string()), Err("second".to_string()));
    assert_eq!(r.get("k"), Some(&"first".to_string()));
}

#[test]
fn starting_twice_is_rejected() {
    assert!(pcpvpn::relay_server::ensure_not_hosting(false).is_ok());
    assert_eq!(
        pcpvpn::relay_server::ensure_not_hosting(true).err().unwrap(),
        "already hosting a relay — stop it first"
    );
}

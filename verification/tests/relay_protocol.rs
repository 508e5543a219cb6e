use pcpvpn::relay_protocol::{ClientFrame, ServerFrame};

#[test]
fn round_trips_register() {
    let f = ClientFrame::Register { network_name: "party".into() };
    assert_eq!(ClientFrame::parse(f.encode().trim_end()), Some(f));
}

#[test]
fn round_trips_connect() {
    let f = ClientFrame::Connect { network_name: "party".into() };
    assert_eq!(ClientFrame::parse(f.encode().trim_end()), Some(f));
}

#[test]
fn round_trips_accept() {
    let f = ClientFrame::Accept { session_id: "abc123".into() };
    assert_eq!(ClientFrame::parse(f.encode().trim_end()), Some(f));
}

#[test]
fn round_trips_ok() {
    assert_eq!(ServerFrame::parse(ServerFrame::Okay.encode().trim_end()), Some(ServerFrame::Okay));
}

#[test]
fn round_trips_new_member() {
    let f = ServerFrame::NewMember { session_id: "abc123".into() };
    assert_eq!(ServerFrame::parse(f.encode().trim_end()), Some(f));
}

#[test]
fn round_trips_err() {
    let f = ServerFrame::Error { message: "name in use".into() };
    assert_eq!(ServerFrame::parse(f.encode().trim_end()), Some(f));
}

#[test]
fn rejects_malformed_lines() {
    assert_eq!(ClientFrame::parse("GARBAGE"), None);
    assert_eq!(ClientFrame::parse("REGISTER"), None);
    assert_eq!(ClientFrame::parse("REGISTER   "), None);
    assert_eq!(ServerFrame::parse("GARBAGE"), None);
}

#[test]
fn network_names_with_spaces_are_preserved_verbatim() {
    let f = ClientFrame::Register { network_name: "my cool party".into() };
    assert_eq!(ClientFrame::parse(f.encode().trim_end()), Some(f));
}

#[test]
fn encodings_are_single_newline_terminated_lines() {
    assert_eq!(ClientFrame::Register { network_name: "x".into() }.encode(), "REGISTER x\n");
    assert_eq!(ClientFrame::Connect { network_name: "x".into() }.encode(), "CONNECT x\n");
    assert_eq!(ClientFrame::Accept { session_id: "s".into() }.encode(), "ACCEPT s\n");
    assert_eq!(ServerFrame::Okay.encode(), "OK\n");
    assert_eq!(ServerFrame::NewMember { session_id: "s".into() }.encode(), "NEW_MEMBER s\n");
    assert_eq!(ServerFrame::Error { message: "no such network".into() }.encode(), "ERR no such network\n");
}

#[test]
fn parse_trims_arguments_and_accepts_an_empty_error_message() {
    assert_eq!(
        ClientFrame::parse("CONNECT   lan party  \r\n"),
        Some(ClientFrame::Connect { network_name: "lan party".into() })
    );
    assert_eq!(ServerFrame::parse("ERR  \t x"), Some(ServerFrame::Error { message: "x".into() }));
    assert_eq!(ServerFrame::parse("NEW_MEMBER  "), None);
    assert_eq!(ServerFrame::parse("OK\r\n"), Some(ServerFrame::Okay));
    assert_eq!(ClientFrame::parse("register x"), None);
}

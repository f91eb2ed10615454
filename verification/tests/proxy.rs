use reroute_proxy::codec::{Packet, PacketBuilder};
use reroute_proxy::routing::RoutingTable;
use reroute_proxy::session::{handle_connect_outcome, handle_packet, Session, Step};
use reroute_proxy::status::status_json_string;

fn handshake_packet(protocol: u32, host: &str, port: u16, state: u32) -> Packet {
    let mut b = PacketBuilder::new();
    b.write_var_int(0);
    b.write_var_int(protocol);
    b.write_string(host);
    b.write_uint16(port);
    b.write_var_int(state);
    b.build()
}

fn status_request_packet() -> Packet {
    let mut b = PacketBuilder::new();
    b.write_var_int(0);
    b.build()
}

fn ping_packet(payload: u64) -> Packet {
    let mut b = PacketBuilder::new();
    b.write_var_int(1);
    b.write_long(payload);
    b.build()
}

fn reply_json(bytes: &[u8]) -> serde_json::Value {
    let mut p = Packet::new(bytes.to_vec());
    assert_eq!(p.id, 0, "status reply has packet id 0");
    let text = p.read_string().expect("status payload is a string");
    serde_json::from_str(&text).expect("status payload is JSON")
}

#[test]
fn status_fallback_without_route() {
    let table = RoutingTable::new(None);
    let mut hs = handshake_packet(760, "unknown.example", 25565, 1);
    let (sess, step) = handle_packet(Session::AwaitingHandshake, &mut hs, &table);
    assert!(matches!(step, Step::Ignore));

    let mut req = status_request_packet();
    let (_sess, step) = handle_packet(sess, &mut req, &table);
    let bytes = match step {
        Step::Reply(b) => b,
        other => panic!("expected a local status reply, got {:?}", kind_of(&other)),
    };
    let v = reply_json(&bytes);
    let text = v["description"]["text"].as_str().unwrap();
    assert!(text.ends_with("No Server found"), "text: {}", text);
    assert_eq!(v["players"]["online"], 69);
    assert_eq!(v["players"]["max"], 100);
    assert_eq!(v["version"]["protocol"], 760);
    assert_eq!(v["version"]["name"], "Reroute Proxy");
    assert_eq!(v["version"]["supportedVersions"][0], 760);
    assert!(v["players"]["sample"].as_array().unwrap().is_empty());
}

#[test]
fn status_reports_offline_backend() {
    let mut table = RoutingTable::new(Some("My Proxy".to_string()));
    table.add_route(
        "example.com".to_string(),
        "127.0.0.1".to_string(),
        1,
    );
    let mut hs = handshake_packet(758, "example.com", 25565, 1);
    let (sess, step) = handle_packet(Session::AwaitingHandshake, &mut hs, &table);
    let (bh, bp) = match step {
        Step::Connect(h, p) => (h, p),
        other => panic!("expected a connect step, got {:?}", kind_of(&other)),
    };
    assert_eq!(bh, "127.0.0.1");
    assert_eq!(bp, 1);

    // the connect attempt to 127.0.0.1:1 fails: no listener
    let (sess, step) = handle_connect_outcome(sess, None);
    assert!(matches!(step, Step::Ignore));

    let mut req = status_request_packet();
    let (_sess, step) = handle_packet(sess, &mut req, &table);
    let bytes = match step {
        Step::Reply(b) => b,
        other => panic!("expected a local status reply, got {:?}", kind_of(&other)),
    };
    let v = reply_json(&bytes);
    let text = v["description"]["text"].as_str().unwrap();
    assert!(text.ends_with("Backend is offline"), "text: {}", text);
    assert!(text.starts_with("My Proxy"), "text: {}", text);
    assert_eq!(v["players"]["online"], 69);
    assert_eq!(v["players"]["max"], 100);
}

#[test]
fn login_handshake_hands_off_faithfully() {
    let mut table = RoutingTable::new(None);
    table.add_route(
        "play.example".to_string(),
        "10.0.0.5".to_string(),
        25566,
    );
    let mut hs = handshake_packet(763, "play.example", 25565, 2);
    let (sess, step) = handle_packet(Session::AwaitingHandshake, &mut hs, &table);
    assert!(matches!(step, Step::Connect(_, _)));

    let (sess, step) = handle_connect_outcome(sess, Some("10.0.0.5".to_string()));
    let bytes = match step {
        Step::Handoff(b) => b,
        other => panic!("expected a handoff, got {:?}", kind_of(&other)),
    };
    assert!(matches!(sess, Session::HandedOff));

    let mut fwd = Packet::new(bytes);
    assert_eq!(fwd.id, 0);
    assert_eq!(fwd.read_var_int().unwrap(), 763, "protocol is preserved");
    assert_eq!(fwd.read_string().unwrap(), "10.0.0.5", "host is the peer address");
    assert_eq!(fwd.read_uint16().unwrap(), 25565, "port is preserved");
    assert_eq!(fwd.read_var_int().unwrap(), 2, "state is preserved");
}

#[test]
fn status_handshake_attaches_then_forwards() {
    let mut table = RoutingTable::new(None);
    table.add_route(
        "play.example".to_string(),
        "10.0.0.5".to_string(),
        25566,
    );
    let mut hs = handshake_packet(763, "play.example", 25565, 1);
    let (sess, _step) = handle_packet(Session::AwaitingHandshake, &mut hs, &table);
    let (sess, step) = handle_connect_outcome(sess, Some("10.0.0.5".to_string()));
    // status phase: the backend stays attached, nothing is sent yet
    assert!(matches!(step, Step::Ignore));

    let mut req = status_request_packet();
    let (sess, step) = handle_packet(sess, &mut req, &table);
    assert!(matches!(sess, Session::HandedOff));
    let bytes = match step {
        Step::Handoff(b) => b,
        other => panic!("expected a handoff, got {:?}", kind_of(&other)),
    };
    // first the synthesized handshake frame...
    let first = Packet::new(bytes.clone());
    assert_eq!(first.id, 0);
    let first_len: usize = 1 + first.size as usize;
    // ...then the empty status-request frame
    assert_eq!(&bytes[first_len..], &[1, 0]);
    let mut fwd = Packet::new(bytes[..first_len].to_vec());
    assert_eq!(fwd.read_var_int().unwrap(), 763);
    assert_eq!(fwd.read_string().unwrap(), "10.0.0.5");
    assert_eq!(fwd.read_uint16().unwrap(), 25565);
    assert_eq!(fwd.read_var_int().unwrap(), 1);
}

#[test]
fn ping_echoes_identically_many_times() {
    let table = RoutingTable::new(None);
    let payload: u64 = 0xDEAD_BEEF_CAFE_F00D;
    let mut sess = Session::AwaitingHandshake;
    for _ in 0..3 {
        let mut ping = ping_packet(payload);
        let expected = ping.body.clone();
        let (next, step) = handle_packet(sess, &mut ping, &table);
        sess = next;
        match step {
            Step::Reply(bytes) => assert_eq!(bytes, expected, "echo is byte-identical"),
            other => panic!("expected an echo, got {:?}", kind_of(&other)),
        }
        assert!(matches!(sess, Session::AwaitingHandshake), "state unchanged");
    }
    // pings echo in the pending phase too
    let mut hs = handshake_packet(5, "nowhere.example", 25565, 1);
    let (mut sess, _) = handle_packet(sess, &mut hs, &table);
    for _ in 0..2 {
        let mut ping = ping_packet(payload);
        let expected = ping.body.clone();
        let (next, step) = handle_packet(sess, &mut ping, &table);
        sess = next;
        match step {
            Step::Reply(bytes) => assert_eq!(bytes, expected),
            other => panic!("expected an echo, got {:?}", kind_of(&other)),
        }
    }
}

#[test]
fn ping_with_short_payload_closes() {
    let table = RoutingTable::new(None);
    let mut b = PacketBuilder::new();
    b.write_var_int(1);
    b.write_uint16(7);
    let mut p = b.build();
    let (_sess, step) = handle_packet(Session::AwaitingHandshake, &mut p, &table);
    assert!(matches!(step, Step::Close));
}

#[test]
fn handed_off_session_ignores_everything() {
    let table = RoutingTable::new(None);
    for mut p in [
        ping_packet(1),
        status_request_packet(),
        handshake_packet(1, "a", 2, 2),
    ] {
        let (sess, step) = handle_packet(Session::HandedOff, &mut p, &table);
        assert!(matches!(sess, Session::HandedOff));
        assert!(matches!(step, Step::Ignore));
    }
}

#[test]
fn unknown_packet_id_is_ignored() {
    let table = RoutingTable::new(None);
    let mut b = PacketBuilder::new();
    b.write_var_int(7);
    b.write_long(42);
    let mut p = b.build();
    let (sess, step) = handle_packet(Session::AwaitingHandshake, &mut p, &table);
    assert!(matches!(sess, Session::AwaitingHandshake));
    assert!(matches!(step, Step::Ignore));
}

#[test]
fn placeholder_packet_asks_for_more_bytes() {
    let table = RoutingTable::new(None);
    let mut p = Packet::new(vec![0x05]);
    let (sess, step) = handle_packet(Session::AwaitingHandshake, &mut p, &table);
    assert!(matches!(sess, Session::AwaitingHandshake));
    assert!(matches!(step, Step::Ignore));
    assert_eq!(p.offset, 0);
}

#[test]
fn malformed_handshake_closes_connection() {
    let table = RoutingTable::new(None);
    // frame declaring a handshake whose hostname bytes are not UTF-8
    let body = vec![0x00, 0x2F, 0x02, 0xFF, 0xFE];
    let mut framed = vec![body.len() as u8];
    framed.extend(&body);
    let mut p = Packet::new(framed);
    assert_eq!(p.id, 0);
    let (_sess, step) = handle_packet(Session::AwaitingHandshake, &mut p, &table);
    assert!(matches!(step, Step::Close));
}

#[test]
fn lookup_is_exact_and_repeatable() {
    let mut table = RoutingTable::new(None);
    table.add_route("a.example".to_string(), "1.1.1.1".to_string(), 1111);
    table.add_route("b.example".to_string(), "2.2.2.2".to_string(), 2222);
    assert_eq!(table.len(), 2);
    for _ in 0..3 {
        assert_eq!(
            table.lookup("a.example"),
            Some(("1.1.1.1".to_string(), 1111))
        );
        assert_eq!(
            table.lookup("b.example"),
            Some(("2.2.2.2".to_string(), 2222))
        );
    }
    // exact-string matching: case and subdomains matter
    assert_eq!(table.lookup("A.example"), None);
    assert_eq!(table.lookup("sub.a.example"), None);
    assert_eq!(table.lookup(""), None);
}

#[test]
fn later_route_for_same_host_wins() {
    let mut table = RoutingTable::new(None);
    table.add_route("h.example".to_string(), "old.backend".to_string(), 1);
    table.add_route("h.example".to_string(), "new.backend".to_string(), 2);
    assert_eq!(
        table.lookup("h.example"),
        Some(("new.backend".to_string(), 2))
    );
}

#[test]
fn status_json_escapes_display_name() {
    let text = status_json_string(7, "a\"b\\c\u{1}", false);
    let v: serde_json::Value = serde_json::from_str(&text).expect("escaped JSON parses");
    assert_eq!(v["version"]["name"], "a\"b\\c\u{1}");
    let desc = v["description"]["text"].as_str().unwrap();
    assert!(desc.starts_with("a\"b\\c\u{1}"));
    assert!(desc.ends_with("No Server found"));
}

#[test]
fn connect_outcome_outside_pending_changes_nothing() {
    let (sess, step) = handle_connect_outcome(Session::AwaitingHandshake, Some("1.2.3.4".to_string()));
    assert!(matches!(sess, Session::AwaitingHandshake));
    assert!(matches!(step, Step::Ignore));

    let (sess, step) = handle_connect_outcome(Session::HandedOff, None);
    assert!(matches!(sess, Session::HandedOff));
    assert!(matches!(step, Step::Ignore));
}

fn kind_of(step: &Step) -> &'static str {
    match step {
        Step::Ignore => "Ignore",
        Step::Close => "Close",
        Step::Reply(_) => "Reply",
        Step::Connect(_, _) => "Connect",
        Step::Handoff(_) => "Handoff",
    }
}

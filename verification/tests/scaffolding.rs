use terracotta_server::scaffolding::{
    body_length, encode_response, host_vendor, machine_id_from_bytes, new_machine_id,
    parse_request_kind, process_request, KindError, ProfileKind, ScaffoldingState,
    GUEST_TIMEOUT_NANOS,
};

const SECOND: u64 = 1_000_000_000;

fn state() -> ScaffoldingState {
    ScaffoldingState::new(25565, "hostid".to_string(), host_vendor("0.1.0", "v2"), 100 * SECOND)
}

fn ping(state: &mut ScaffoldingState, body: &str, now: u64) -> (u8, Vec<u8>) {
    process_request("c", "player_ping", body.as_bytes(), state, now)
}

#[test]
fn new_state_lists_the_host() {
    let s = state();
    assert_eq!(s.mc_port, 25565);
    assert_eq!(s.profiles.len(), 1);
    let host = &s.profiles[0].1;
    assert_eq!(host.machine_id, "hostid");
    assert_eq!(host.name, "Terracotta Server");
    assert_eq!(host.vendor, "terracotta-server 0.1.0, EasyTier v2");
    assert_eq!(host.kind, ProfileKind::HOST);
    assert_eq!(s.guest_count(), 0);
}

#[test]
fn ping_echoes_body() {
    let mut s = state();
    assert_eq!(process_request("c", "ping", b"hello\0", &mut s, 0), (0, b"hello\0".to_vec()));
}

#[test]
fn protocols_are_listed() {
    let mut s = state();
    let (status, body) = process_request("c", "protocols", b"", &mut s, 0);
    assert_eq!(status, 0);
    assert_eq!(body, b"c:ping\0c:protocols\0c:server_port\0c:player_ping\0c:player_profiles_list".to_vec());
}

#[test]
fn server_port_is_big_endian() {
    let mut s = state();
    assert_eq!(process_request("c", "server_port", b"", &mut s, 0), (0, vec![0x63, 0xdd]));
}

#[test]
fn unknown_protocol_fails() {
    let mut s = state();
    let r = process_request("c", "nothing", b"", &mut s, 0);
    assert_eq!(r, (255, b"Requested protocol hasn't been implemented.".to_vec()));
    let r = process_request("x", "ping", b"", &mut s, 0);
    assert_eq!(r.0, 255);
}

#[test]
fn player_ping_registers_guest_and_refreshes() {
    let mut s = state();
    let r = ping(&mut s, r#"{"name":"Steve","machine_id":"m1","vendor":"PCL"}"#, 200 * SECOND);
    assert_eq!(r, (0, vec![]));
    assert_eq!(s.profiles.len(), 2);
    assert_eq!(s.profiles[1].0, 200 * SECOND);
    assert_eq!(s.profiles[1].1.name, "Steve");
    assert_eq!(s.profiles[1].1.machine_id, "m1");
    assert_eq!(s.profiles[1].1.vendor, "PCL");
    assert_eq!(s.profiles[1].1.kind, ProfileKind::GUEST);
    assert_eq!(s.guest_count(), 1);

    // Same machine: renamed and refreshed, vendor kept.
    let r = ping(&mut s, r#"{"name":"Alex","machine_id":"m1","vendor":"HMCL"}"#, 210 * SECOND);
    assert_eq!(r.0, 0);
    assert_eq!(s.profiles.len(), 2);
    assert_eq!(s.profiles[1].0, 210 * SECOND);
    assert_eq!(s.profiles[1].1.name, "Alex");
    assert_eq!(s.profiles[1].1.vendor, "PCL");
}

#[test]
fn player_ping_cannot_touch_host() {
    let mut s = state();
    let r = ping(&mut s, r#"{"name":"Mallory","machine_id":"hostid","vendor":"x"}"#, 300 * SECOND);
    assert_eq!(r, (0, vec![]));
    assert_eq!(s.profiles.len(), 1);
    assert_eq!(s.profiles[0].1.name, "Terracotta Server");
    assert_eq!(s.profiles[0].0, 100 * SECOND);
}

#[test]
fn player_ping_errors() {
    let mut s = state();
    let (status, body) = ping(&mut s, "{not json", 0);
    assert_eq!(status, 255);
    let expected = format!(
        "Invalid JSON: {}",
        serde_json::from_str::<serde_json::Value>("{not json").unwrap_err()
    );
    assert_eq!(String::from_utf8(body).unwrap(), expected);
    assert_eq!(ping(&mut s, r#"{"machine_id":"m","vendor":"v"}"#, 0), (255, b"Missing 'name'".to_vec()));
    assert_eq!(ping(&mut s, r#"[1,2]"#, 0), (255, b"Missing 'name'".to_vec()));
    assert_eq!(ping(&mut s, r#"{"name":"n","vendor":"v"}"#, 0), (255, b"Missing 'machine_id'".to_vec()));
    assert_eq!(ping(&mut s, r#"{"name":"n","machine_id":"m"}"#, 0), (255, b"Missing 'vendor'".to_vec()));
    assert_eq!(ping(&mut s, r#"{"name":"n","machine_id":7,"vendor":"v"}"#, 0), (255, b"Missing 'machine_id'".to_vec()));
    assert_eq!(s.profiles.len(), 1);
}

#[test]
fn profiles_list_is_json() {
    let mut s = state();
    ping(&mut s, r#"{"name":"St\"eve\n","machine_id":"m1","vendor":"P\\CL"}"#, 0);
    let (status, body) = process_request("c", "player_profiles_list", b"", &mut s, 0);
    assert_eq!(status, 0);
    let text = String::from_utf8(body).unwrap();
    assert_eq!(
        text,
        r#"[{"machine_id":"hostid","name":"Terracotta Server","vendor":"terracotta-server 0.1.0, EasyTier v2","kind":"HOST"},{"machine_id":"m1","name":"St\"eve\n","vendor":"P\\CL","kind":"GUEST"}]"#
    );
    let value: serde_json::Value = serde_json::from_str(&text).unwrap();
    assert_eq!(value[1]["name"], "St\"eve\n");
}

#[test]
fn control_characters_are_escaped_in_profiles() {
    let mut s = ScaffoldingState::new(1, "h\u{1}\t".to_string(), "v".to_string(), 0);
    let (_, body) = process_request("c", "player_profiles_list", b"", &mut s, 0);
    assert_eq!(
        String::from_utf8(body).unwrap(),
        r#"[{"machine_id":"h\u0001\t","name":"Terracotta Server","vendor":"v","kind":"HOST"}]"#
    );
}

#[test]
fn guests_expire_after_fifteen_seconds() {
    let mut s = state();
    ping(&mut s, r#"{"name":"a","machine_id":"m1","vendor":"v"}"#, 100 * SECOND);
    ping(&mut s, r#"{"name":"b","machine_id":"m2","vendor":"v"}"#, 110 * SECOND);
    ping(&mut s, r#"{"name":"c","machine_id":"m3","vendor":"v"}"#, 200 * SECOND);
    assert_eq!(s.guest_count(), 3);
    s.expire_guests(100 * SECOND + GUEST_TIMEOUT_NANOS);
    // m1 is exactly 15 s old and goes; m2 stays; m3 was seen "in the future" and stays.
    let ids: Vec<&str> = s.profiles.iter().map(|(_, p)| p.machine_id.as_str()).collect();
    assert_eq!(ids, vec!["hostid", "m2", "m3"]);
    s.expire_guests(1_000 * SECOND);
    let ids: Vec<&str> = s.profiles.iter().map(|(_, p)| p.machine_id.as_str()).collect();
    assert_eq!(ids, vec!["hostid"]);
}

#[test]
fn request_kinds() {
    let (ns, path) = parse_request_kind(b"c:ping").unwrap();
    assert_eq!((ns.as_str(), path.as_str()), ("c", "ping"));
    let (ns, path) = parse_request_kind(b":").unwrap();
    assert_eq!((ns.as_str(), path.as_str()), ("", ""));
    assert_eq!(parse_request_kind(b"cping").unwrap_err(), KindError::Malformed);
    assert_eq!(parse_request_kind(b"c:a:b").unwrap_err(), KindError::Malformed);
    assert_eq!(parse_request_kind(&[0x63, 0x3a, 0xff]).unwrap_err(), KindError::NotUtf8);
    let (ns, path) = parse_request_kind("名:字".as_bytes()).unwrap();
    assert_eq!((ns.as_str(), path.as_str()), ("名", "字"));
}

#[test]
fn response_framing() {
    assert_eq!(encode_response(0, &vec![]), vec![0, 0, 0, 0, 0]);
    assert_eq!(encode_response(255, &vec![1, 2, 3]), vec![255, 0, 0, 0, 3, 1, 2, 3]);
    let body = vec![7u8; 0x1_02_03];
    let r = encode_response(1, &body);
    assert_eq!(&r[..5], &[1, 0, 1, 2, 3]);
    assert_eq!(r.len(), 5 + body.len());
    assert_eq!(body_length([r[1], r[2], r[3], r[4]]), 0x1_02_03);
    assert_eq!(body_length([0xff, 0, 0, 1]), 0xff00_0001);
}

#[test]
fn machine_ids_are_lowercase_hex() {
    let mut bytes = [0u8; 16];
    bytes[0] = 0xab;
    bytes[15] = 0x0f;
    assert_eq!(machine_id_from_bytes(bytes), "ab00000000000000000000000000000f");
    let id = new_machine_id();
    assert_eq!(id.len(), 32);
    assert!(id.chars().all(|c| c.is_ascii_hexdigit() && !c.is_ascii_uppercase()));
}

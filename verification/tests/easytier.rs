use terracotta_server::easytier::{
    build_arguments, core_arguments, parse_ipv4, peer_query_arguments, peers_from_output,
    port_forward_arguments, port_forward_step, remote_peer_count, EasyTierMember, ForwardStep,
    PORT_FORWARD_ATTEMPTS,
};
use terracotta_server::room::from_value;

fn strs(v: &[String]) -> Vec<&str> {
    v.iter().map(|s| s.as_str()).collect()
}

#[test]
fn host_arguments_in_order() {
    let room = from_value(7);
    let extra = vec!["tcp://relay.example:1".to_string()];
    let args = build_arguments(&room, 25565, 13448, &extra);
    let expected = vec![
        "--network-name",
        "scaffolding-mc-7000-0000",
        "--network-secret",
        "0000-0000",
        "-p",
        "tcp://public0.terracotta.glavo.site:21010",
        "-p",
        "tcp://public1.terracotta.glavo.site:21010",
        "-p",
        "tcp://public.easytier.top:11010",
        "-p",
        "tcp://public2.easytier.cn:54321",
        "-p",
        "https://etnode.zkitefly.eu.org/node1",
        "-p",
        "https://etnode.zkitefly.eu.org/node2",
        "-p",
        "tcp://relay.example:1",
        "--no-tun",
        "--compression=zstd",
        "--multi-thread",
        "--latency-first",
        "--enable-kcp-proxy",
        "-l",
        "udp://0.0.0.0:0",
        "-l",
        "tcp://0.0.0.0:0",
        "--p2p-only",
        "--hostname",
        "scaffolding-mc-server-13448",
        "--ipv4",
        "10.144.144.1",
        "--tcp-whitelist=13448",
        "--tcp-whitelist=25565",
        "--udp-whitelist=25565",
    ];
    assert_eq!(strs(&args), expected);
}

#[test]
fn host_arguments_without_extra_relays_and_small_ports() {
    let room = from_value(0);
    let args = build_arguments(&room, 0, 9, &[]);
    assert_eq!(args.len(), 4 + 12 + 17);
    assert!(args.contains(&"scaffolding-mc-server-9".to_string()));
    assert!(args.contains(&"--tcp-whitelist=0".to_string()));
    assert!(args.contains(&"--udp-whitelist=0".to_string()));
}

#[test]
fn core_arguments_append_rpc_port() {
    let args = core_arguments(vec!["a".to_string()], 35780);
    assert_eq!(strs(&args), vec!["a", "-r", "35780"]);
    let args = core_arguments(vec![], 65535);
    assert_eq!(strs(&args), vec!["-r", "65535"]);
}

#[test]
fn cli_arguments() {
    assert_eq!(strs(&peer_query_arguments(1234)), vec!["-p", "127.0.0.1:1234", "-o", "json", "peer"]);
    assert_eq!(
        strs(&port_forward_arguments(80, "tcp", "0.0.0.0:1", "10.0.0.1:2")),
        vec!["-p", "127.0.0.1:80", "port-forward", "add", "tcp", "0.0.0.0:1", "10.0.0.1:2"]
    );
}

#[test]
fn port_forward_retries_three_times() {
    assert_eq!(PORT_FORWARD_ATTEMPTS, 3);
    assert_eq!(port_forward_step(0, true), ForwardStep::Succeeded);
    assert_eq!(port_forward_step(2, true), ForwardStep::Succeeded);
    assert_eq!(port_forward_step(0, false), ForwardStep::Retry { delay_ms: 500, next_attempt: 1 });
    assert_eq!(port_forward_step(1, false), ForwardStep::Retry { delay_ms: 1500, next_attempt: 2 });
    assert_eq!(port_forward_step(2, false), ForwardStep::GiveUp { delay_ms: 2500 });
}

#[test]
fn ipv4_addresses() {
    assert_eq!(parse_ipv4("10.144.144.1"), Some([10, 144, 144, 1]));
    assert_eq!(parse_ipv4("0.0.0.0"), Some([0, 0, 0, 0]));
    assert_eq!(parse_ipv4("255.255.255.255"), Some([255, 255, 255, 255]));
    assert_eq!(parse_ipv4("256.0.0.1"), None);
    assert_eq!(parse_ipv4("01.2.3.4"), None);
    assert_eq!(parse_ipv4("1.2.3"), None);
    assert_eq!(parse_ipv4("1.2.3.4.5"), None);
    assert_eq!(parse_ipv4("1..3.4"), None);
    assert_eq!(parse_ipv4("1.2.3.a"), None);
    assert_eq!(parse_ipv4(""), None);
    assert_eq!(parse_ipv4("1.2.3.4/24"), None);
    assert_eq!(parse_ipv4(" 1.2.3.4"), None);
    assert_eq!(parse_ipv4("1.2.3.04"), None);
}

#[test]
fn peers_from_cli_output() {
    let out = br#"[{"hostname":"host","ipv4":"10.144.144.1","cost":"Local"},
                  {"hostname":"guest","ipv4":"","cost":"p2p"},
                  {"hostname":"other","ipv4":null,"cost":"relay"}]"#;
    let peers = peers_from_output(out).unwrap();
    assert_eq!(peers.len(), 3);
    assert_eq!(peers[0].hostname, "host");
    assert_eq!(peers[0].address, Some([10, 144, 144, 1]));
    assert!(peers[0].is_local);
    assert_eq!(peers[1].hostname, "guest");
    assert_eq!(peers[1].address, None);
    assert!(!peers[1].is_local);
    assert_eq!(peers[2].address, None);
    assert_eq!(remote_peer_count(&peers), 2);
}

#[test]
fn peers_output_refused() {
    // missing ipv4 member
    assert!(peers_from_output(br#"[{"hostname":"h","cost":"Local"}]"#).is_none());
    // hostname not a string
    assert!(peers_from_output(br#"[{"hostname":1,"ipv4":"1.2.3.4","cost":"Local"}]"#).is_none());
    // cost not a string
    assert!(peers_from_output(br#"[{"hostname":"h","ipv4":"1.2.3.4","cost":3}]"#).is_none());
    // element not an object
    assert!(peers_from_output(br#"[1]"#).is_none());
    // not an array
    assert!(peers_from_output(br#"{"hostname":"h"}"#).is_none());
    // not JSON
    assert!(peers_from_output(b"error: cannot connect").is_none());
    // not UTF-8
    assert!(peers_from_output(&[0xff, 0xfe]).is_none());
    // empty list
    assert_eq!(peers_from_output(b"[]").unwrap().len(), 0);
}

#[test]
fn remote_count_of_members() {
    let m = |local: bool| EasyTierMember { hostname: "x".to_string(), address: None, is_local: local };
    assert_eq!(remote_peer_count(&vec![]), 0);
    assert_eq!(remote_peer_count(&vec![m(true), m(false), m(false), m(true)]), 2);
}

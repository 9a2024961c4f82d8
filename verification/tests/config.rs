use terracotta_server::config::{default_port, Config, DEFAULT_CONFIG};

fn config(port: u16, code: Option<&str>) -> Config {
    Config { port, code: code.map(|c| c.to_string()), public_servers: vec![] }
}

#[test]
fn default_port_is_minecraft_port() {
    assert_eq!(default_port(), 25565);
}

#[test]
fn port_zero_is_refused() {
    let err = config(0, None).validate().unwrap_err();
    assert_eq!(err, "端口号不能为 0");
}

#[test]
fn other_ports_pass_unchanged() {
    let c = Config { port: 1, code: Some("U/7000-0000-0000-0000".to_string()), public_servers: vec!["tcp://x:1".to_string()] }
        .validate()
        .unwrap();
    assert_eq!(c.port, 1);
    assert_eq!(c.code.as_deref(), Some("U/7000-0000-0000-0000"));
    assert_eq!(c.public_servers, vec!["tcp://x:1".to_string()]);
}

#[test]
fn default_config_text_sets_default_port() {
    assert!(DEFAULT_CONFIG.contains("\nport = 25565\n"));
    assert!(DEFAULT_CONFIG.contains("\npublic_servers = []\n"));
    assert!(DEFAULT_CONFIG.contains("# code = \"U/ABCD-1234-EFGH-5678\""));
}

#[test]
fn fixed_code_selects_its_room() {
    let room = config(25565, Some("u/7000-0000-0000-0000")).select_room().unwrap();
    assert_eq!(room.code, "U/7000-0000-0000-0000");
    assert!(config(25565, Some("not a code")).select_room().is_none());
}

#[test]
fn no_code_selects_a_random_parseable_room() {
    let room = config(25565, None).select_room().unwrap();
    assert_eq!(terracotta_server::room::parse_code(&room.code).unwrap().code, room.code);
}

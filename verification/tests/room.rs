use terracotta_server::room::{create_room, from_value, parse_code, room_from_seed};

#[test]
fn test_create_and_parse() {
    for _ in 0..100 {
        let room = create_room();
        assert!(room.code.starts_with("U/"));
        assert_eq!(room.code.len(), "U/XXXX-XXXX-XXXX-XXXX".len());

        let parsed = parse_code(&room.code).expect("Failed to parse generated code");
        assert_eq!(room.code, parsed.code);
        assert_eq!(room.network_name, parsed.network_name);
        assert_eq!(room.network_secret, parsed.network_secret);
    }
}

#[test]
fn test_i_o_substitution() {
    // I -> 1, O -> 0 should be handled
    if let Some(room) = parse_code("U/0000-0000-0000-0000") {
        let parsed = parse_code(&room.code.replace('0', "O"));
        assert!(parsed.is_some());
    }
}

#[test]
fn zero_value_room() {
    let room = from_value(0);
    assert_eq!(room.code, "U/0000-0000-0000-0000");
    assert_eq!(room.network_name, "scaffolding-mc-0000-0000");
    assert_eq!(room.network_secret, "0000-0000");
}

#[test]
fn digits_are_least_significant_first() {
    // 35 = 1 * 34 + 1; 33 is the last character of the alphabet.
    assert_eq!(from_value(35).code, "U/1100-0000-0000-0000");
    assert_eq!(from_value(33).code, "U/Z000-0000-0000-0000");
    // 10 -> 'A', 17 -> 'H', 18 -> 'J' (no 'I'), 22 -> 'N', 23 -> 'P' (no 'O').
    assert_eq!(from_value(10).code, "U/A000-0000-0000-0000");
    assert_eq!(from_value(17).code, "U/H000-0000-0000-0000");
    assert_eq!(from_value(18).code, "U/J000-0000-0000-0000");
    assert_eq!(from_value(22).code, "U/N000-0000-0000-0000");
    assert_eq!(from_value(23).code, "U/P000-0000-0000-0000");
}

#[test]
fn largest_value_room() {
    let max = 34u128.pow(16) - 1;
    let room = from_value(max);
    assert_eq!(room.code, "U/ZZZZ-ZZZZ-ZZZZ-ZZZZ");
    assert_eq!(room.network_name, "scaffolding-mc-ZZZZ-ZZZZ");
    assert_eq!(room.network_secret, "ZZZZ-ZZZZ");
}

#[test]
fn code_roundtrip_for_multiples_of_seven() {
    for v in [0u128, 7, 14, 34 * 7, 123_456_789 * 7, (34u128.pow(16) - 1) / 7 * 7] {
        let room = from_value(v);
        let parsed = parse_code(&room.code).expect("code of a multiple of 7 parses");
        assert_eq!(parsed.code, room.code);
        assert_eq!(parsed.network_name, room.network_name);
        assert_eq!(parsed.network_secret, room.network_secret);
    }
}

#[test]
fn values_not_multiple_of_seven_are_refused() {
    let room = from_value(1);
    assert_eq!(room.code, "U/1000-0000-0000-0000");
    assert!(parse_code(&room.code).is_none());
}

#[test]
fn parse_is_case_insensitive_and_reads_i_as_one() {
    let seven = from_value(7);
    assert_eq!(seven.code, "U/7000-0000-0000-0000");
    let lower = parse_code("u/7000-0000-0000-0000").unwrap();
    assert_eq!(lower.code, seven.code);
    // 35 is not a multiple of 7, 7 * 5 = 35 ... use 42 = 1 * 34 + 8 -> "81".
    let room = from_value(42);
    assert_eq!(room.code, "U/8100-0000-0000-0000");
    let with_i = parse_code("U/8I00-0000-0000-0000").unwrap();
    assert_eq!(with_i.code, room.code);
    let with_lower_i = parse_code("u/8i00-0000-0000-0000").unwrap();
    assert_eq!(with_lower_i.code, room.code);
}

#[test]
fn parse_finds_the_code_inside_other_text() {
    let room = parse_code("join me at U/7000-0000-0000-0000 tonight").unwrap();
    assert_eq!(room.code, "U/7000-0000-0000-0000");
    // The first window is not a valid code; the second one is.
    let room = parse_code("U/1000-0000-0000-0000 U/7000-0000-0000-0000").unwrap();
    assert_eq!(room.code, "U/7000-0000-0000-0000");
}

#[test]
fn parse_refuses_bad_inputs() {
    assert!(parse_code("").is_none());
    assert!(parse_code("U/7000-0000-0000-000").is_none());
    assert!(parse_code("U/7000_0000-0000-0000").is_none());
    assert!(parse_code("X/7000-0000-0000-0000").is_none());
    assert!(parse_code("U/7000-0000-0000-00#0").is_none());
}

#[test]
fn seeds_give_multiples_of_seven() {
    let room = room_from_seed([0u8; 16]);
    assert_eq!(room.code, "U/0000-0000-0000-0000");
    let mut seed = [0u8; 16];
    seed[15] = 13;
    // 13 rounded down to a multiple of 7 is 7.
    assert_eq!(room_from_seed(seed).code, "U/7000-0000-0000-0000");
    let room = room_from_seed([0xff; 16]);
    let value = u128::MAX % 34u128.pow(16);
    let value = value - value % 7;
    assert_eq!(room.code, from_value(value).code);
    assert!(parse_code(&room.code).is_some());
}

use esp_midi::Command;

fn cmd(bytes: [u8; 5]) -> Command {
    Command::from_byte_array(bytes)
}

#[test]
fn default_command_is_program_change_zero() {
    let c = Command::default();
    assert_eq!(c.as_bytes(), [0x00, 0x00, 0xff, 0xff, 0x01]);
    assert_eq!(c.as_str(), Some("PC0".to_string()));
}

#[test]
fn as_str_program_change() {
    assert_eq!(cmd([0, 120, 0xff, 0xff, 1]).as_str(), Some("PC120".to_string()));
}

#[test]
fn as_str_control_change_with_options() {
    assert_eq!(cmd([255, 7, 0, 127, 5]).as_str(), Some("CC7|0,127|c5".to_string()));
    assert_eq!(cmd([255, 1, 0xff, 0xff, 0]).as_str(), Some("CC1|c0".to_string()));
    assert_eq!(cmd([255, 1, 3, 4, 1]).as_str(), Some("CC1|3,4".to_string()));
}

#[test]
fn as_str_rejects_unknown_signal_and_channel() {
    assert_eq!(cmd([7, 1, 0xff, 0xff, 1]).as_str(), None);
    assert_eq!(cmd([0, 1, 0xff, 0xff, 15]).as_str(), None);
    assert_eq!(cmd([0, 1, 0xff, 0xff, 14]).as_str(), Some("PC1|c14".to_string()));
}

#[test]
fn from_string_program_change() {
    assert_eq!(Command::from_string("PC12".to_string()), Some(cmd([0, 12, 0xff, 0xff, 1])));
}

#[test]
fn from_string_control_change_with_options() {
    assert_eq!(
        Command::from_string("CC7|1,2|c3".to_string()),
        Some(cmd([255, 7, 1, 2, 3]))
    );
    // later options win, `c` prefixes and `+` signs are accepted as the parser does
    assert_eq!(
        Command::from_string("CC7|c3|c+4|5,6".to_string()),
        Some(cmd([255, 7, 5, 6, 4]))
    );
}

#[test]
fn from_string_cc_wins_over_pc() {
    // every `CC` is removed, the rest must be the value
    assert_eq!(Command::from_string("1CC2".to_string()), Some(cmd([255, 12, 0xff, 0xff, 1])));
    assert_eq!(Command::from_string("PCCC5".to_string()), None);
}

#[test]
fn from_string_rejects() {
    assert_eq!(Command::from_string("XX5".to_string()), None);
    assert_eq!(Command::from_string("PC".to_string()), None);
    assert_eq!(Command::from_string("PC1a".to_string()), None);
    assert_eq!(Command::from_string("PC1234".to_string()), None);
    assert_eq!(Command::from_string("PC5|".to_string()), None);
    assert_eq!(Command::from_string("PC5|c".to_string()), None);
    assert_eq!(Command::from_string("PC5|1,2,3".to_string()), None);
    assert_eq!(Command::from_string("PC5|1,300".to_string()), None);
    assert_eq!(Command::from_string("PCé".to_string()), None);
}

#[test]
fn from_string_value_not_a_byte() {
    // value parts that pass the check but are no byte give no command
    assert_eq!(Command::from_string("PC256".to_string()), None);
    assert_eq!(Command::from_string("PC999".to_string()), None);
    assert_eq!(Command::from_string("CC999".to_string()), None);
    assert_eq!(Command::from_string("PC\u{0663}".to_string()), None);
    assert_eq!(Command::from_string("PC\u{00b2}".to_string()), None);
    assert_eq!(Command::from_string("PC127".to_string()), Some(cmd([0, 127, 0xff, 0xff, 1])));
    assert_eq!(Command::from_string("PC255".to_string()), None);
}

#[test]
fn text_round_trip() {
    for bytes in [
        [0u8, 0, 0xff, 0xff, 1],
        [255, 127, 10, 20, 1],
        [255, 0, 0, 0, 0],
        [0, 99, 0xff, 0xff, 14],
        [0, 3, 127, 5, 7],
    ] {
        let c = cmd(bytes);
        let text = c.as_str().unwrap();
        assert_eq!(Command::from_string(text), Some(c));
    }
}

#[test]
fn text_round_trip_loses_release_without_press() {
    // press value 0xff writes no press values, so the release value is lost
    let c = cmd([0, 5, 0xff, 3, 1]);
    assert_eq!(c.as_str(), Some("PC5".to_string()));
    assert_eq!(Command::from_string("PC5".to_string()), Some(cmd([0, 5, 0xff, 0xff, 1])));
}

#[test]
fn bytes_round_trip() {
    let c = cmd([255, 7, 1, 2, 3]);
    assert_eq!(Command::from_byte_array(c.as_bytes()), c);
}

#[test]
fn values_above_127_rejected() {
    assert_eq!(Command::from_string("PC200".to_string()), None);
    assert_eq!(Command::from_string("PC128".to_string()), None);
    assert_eq!(Command::from_string("CC5|200,3".to_string()), None);
    assert_eq!(Command::from_string("CC5|3,128".to_string()), None);
    // 0xff as press value: the release value is the same
    assert_eq!(Command::from_string("CC5|255,3".to_string()), Some(cmd([255, 5, 255, 3, 1])));
    assert_eq!(Command::from_string("CC5|127,0".to_string()), Some(cmd([255, 5, 127, 0, 1])));
}

#[test]
fn option_order_irrelevant() {
    let a = Command::from_string("CC9|c3|4,5".to_string());
    let b = Command::from_string("CC9|4,5|c3".to_string());
    assert_eq!(a, Some(cmd([255, 9, 4, 5, 3])));
    assert_eq!(a, b);
    assert_eq!(
        Command::from_string("PC0|c1|0,0".to_string()),
        Command::from_string("PC0|0,0|c1".to_string())
    );
}

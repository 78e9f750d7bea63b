use esp_midi::midi_front::{
    cfg_sendable, cfg_str_from_value, parse_device_idx, req_cfg_entries, send_cfg_buffer,
    store_received_cfg,
    update_current_cfg,
};
use std::collections::HashMap;

fn pairs(list: &[(u8, &str)]) -> Vec<(u8, String)> {
    list.iter().map(|(k, v)| (*k, v.to_string())).collect()
}

#[test]
fn value_texts() {
    assert_eq!(cfg_str_from_value(5), "PC5");
    assert_eq!(cfg_str_from_value(0), "PC0");
    assert_eq!(cfg_str_from_value(127), "PC127");
    // the top bit leaves the text without a name
    assert_eq!(cfg_str_from_value(0x85), "5");
    assert_eq!(cfg_str_from_value(0xff), "127");
}

#[test]
fn send_buffer() {
    let cfg = pairs(&[(1, "PC2"), (2, "CC7"), (3, "other")]);
    assert!(cfg_sendable(&cfg));
    assert_eq!(send_cfg_buffer(&cfg), vec![0xff, 1, 2, 2, 135, 3, 0]);
    assert_eq!(send_cfg_buffer(&vec![]), vec![0xff]);
}

#[test]
fn send_buffer_rejects() {
    assert!(!cfg_sendable(&pairs(&[(1, "CC128")])));
    assert!(!cfg_sendable(&pairs(&[(1, "PCx")])));
    assert!(cfg_sendable(&pairs(&[(1, "PC+9")])));
    assert_eq!(send_cfg_buffer(&pairs(&[(1, "PC+9")])), vec![0xff, 1, 9]);
}

#[test]
fn received_entries() {
    let buf = vec![1, 5, 2, 0x85, 3, 0, 4, 127, 5, 9, 0xaa];
    assert_eq!(
        req_cfg_entries(&buf),
        pairs(&[(1, "PC5"), (2, "5"), (3, "PC0"), (4, "PC127"), (5, "PC9")])
    );
}

#[test]
fn program_change_round_trip() {
    for v in [0u8, 1, 42, 127] {
        let text = cfg_str_from_value(v);
        let body = send_cfg_buffer(&vec![(7, text)]);
        assert_eq!(body, vec![0xff, 7, v]);
    }
}

#[test]
fn update_current_cfg_inserts_and_sorts() {
    let mut cfg: HashMap<u8, String> = HashMap::new();
    cfg.insert(4, "PC4".to_string());
    cfg.insert(2, "PC2".to_string());
    let lines = update_current_cfg(&mut cfg, Some((3, "CC3".to_string())));
    assert_eq!(
        lines,
        vec![(2, "PC2".to_string()), (3, "CC3".to_string()), (4, "PC4".to_string())]
    );
    assert_eq!(cfg.len(), 3);
    // the pedal number is cut to a byte
    let lines = update_current_cfg(&mut cfg, Some((258, "PC9".to_string())));
    assert_eq!(lines[0], (2, "PC9".to_string()));
    let lines = update_current_cfg(&mut cfg, None);
    assert_eq!(lines.len(), 3);
}

#[test]
fn device_index() {
    assert_eq!(parse_device_idx(&"1\n".to_string(), 3), Some(1));
    assert_eq!(parse_device_idx(&"2 \r\n".to_string(), 3), Some(2));
    assert_eq!(parse_device_idx(&"3\n".to_string(), 3), None);
    assert_eq!(parse_device_idx(&" 1\n".to_string(), 3), None);
    assert_eq!(parse_device_idx(&"+0\n".to_string(), 1), Some(0));
    assert_eq!(parse_device_idx(&"\n".to_string(), 3), None);
    assert_eq!(parse_device_idx(&"x\n".to_string(), 3), None);
}

#[test]
fn received_config_sent_back() {
    let buf = vec![1, 5, 2, 7, 3, 0, 4, 127, 5, 9, 0xaa];
    let entries = req_cfg_entries(&buf);
    assert!(cfg_sendable(&entries));
    let mut expected = vec![0xff];
    expected.extend_from_slice(&buf[..10]);
    assert_eq!(send_cfg_buffer(&entries), expected);
}

#[test]
fn control_change_byte_sent_back_as_zero() {
    let buf = vec![1, 0x85, 2, 7, 3, 0, 4, 127, 5, 9, 0];
    let entries = req_cfg_entries(&buf);
    assert_eq!(send_cfg_buffer(&entries)[1..3], [1, 0]);
}

#[test]
fn store_received_into_map() {
    let mut cfg: HashMap<u8, String> = HashMap::new();
    cfg.insert(9, "PC9".to_string());
    cfg.insert(1, "old".to_string());
    let buf = vec![1, 5, 2, 0x85, 1, 7, 4, 127, 5, 9, 0xaa];
    store_received_cfg(&mut cfg, &buf);
    assert_eq!(cfg.len(), 5);
    assert_eq!(cfg[&1], "PC7");
    assert_eq!(cfg[&2], "5");
    assert_eq!(cfg[&4], "PC127");
    assert_eq!(cfg[&5], "PC9");
    assert_eq!(cfg[&9], "PC9");
}

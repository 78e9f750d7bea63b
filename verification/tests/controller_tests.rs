use esp_midi::{reply_commands, Command, ControllerApp};

fn cmd(bytes: [u8; 5]) -> Command {
    Command::from_byte_array(bytes)
}

fn entries(app: &ControllerApp) -> Vec<(u8, String)> {
    app.serialize_cfg()
}

fn pairs(list: &[(u8, &str)]) -> Vec<(u8, String)> {
    list.iter().map(|(k, v)| (*k, v.to_string())).collect()
}

#[test]
fn aliases() {
    let (fwd, rev) = ControllerApp::get_aliases();
    assert_eq!(fwd[0], ("Down".to_string(), "CC52".to_string()));
    assert_eq!(fwd.len(), 4);
    assert_eq!(rev[3], ("CC64".to_string(), "Tap".to_string()));
    let app = ControllerApp::default();
    assert_eq!(app.match_alias(&"Tune".to_string()), Some(&"CC68".to_string()));
    assert_eq!(app.match_alias(&"CC68".to_string()), None);
    assert_eq!(app.match_alias_rev(&"CC53".to_string()), Some(&"Up".to_string()));
    assert_eq!(app.match_alias_rev(&"Up".to_string()), None);
}

#[test]
fn shown_text_uses_alias() {
    let app = ControllerApp::default();
    assert_eq!(app.cfg_str_from_value(cmd([255, 52, 0xff, 0xff, 1])), "Down");
    assert_eq!(app.cfg_str_from_value(cmd([255, 52, 1, 2, 1])), "CC52|1,2");
    assert_eq!(app.cfg_str_from_value(cmd([0, 5, 0xff, 0xff, 1])), "PC5");
}

#[test]
fn entered_text_uses_alias() {
    let app = ControllerApp::default();
    assert_eq!(app.command_from_str(&"Tap".to_string()), Some(cmd([255, 64, 0xff, 0xff, 1])));
    assert_eq!(app.command_from_str(&"PC5|c2".to_string()), Some(cmd([0, 5, 0xff, 0xff, 2])));
    assert_eq!(app.command_from_str(&"tap".to_string()), None);
}

#[test]
fn load_orders_by_pedal() {
    let mut app = ControllerApp::default();
    app.load_cfg(pairs(&[(3, "PC1"), (1, "Down"), (2, "CC7|1,2")]));
    assert_eq!(entries(&app), pairs(&[(1, "Down"), (2, "CC7|1,2"), (3, "PC1")]));
}

#[test]
fn load_later_entry_wins() {
    let mut app = ControllerApp::default();
    app.load_cfg(pairs(&[(2, "PC1"), (1, "PC2"), (2, "PC3")]));
    assert_eq!(entries(&app), pairs(&[(1, "PC2"), (2, "PC3")]));
}

#[test]
fn sort_cfg_orders_columns() {
    let mut app = ControllerApp::default();
    app.columns.insert(5, "PC5".to_string());
    app.columns.insert(0, "PC0".to_string());
    app.columns.insert(3, "PC3".to_string());
    app.sort_cfg();
    assert_eq!(entries(&app), pairs(&[(0, "PC0"), (3, "PC3"), (5, "PC5")]));
}

#[test]
fn send_cfg_body() {
    let mut app = ControllerApp::default();
    app.load_cfg(pairs(&[(3, "PC1"), (1, "Down"), (2, "CC7|1,2")]));
    assert!(app.send_ready());
    assert_eq!(
        app.send_cfg(),
        vec![1, 255, 52, 0xff, 0xff, 1, 2, 255, 7, 1, 2, 1, 3, 0, 1, 0xff, 0xff, 1]
    );
}

#[test]
fn send_ready_rejects_bad_text() {
    let mut app = ControllerApp::default();
    app.load_cfg(pairs(&[(1, "PC1"), (2, "hello")]));
    assert!(!app.send_ready());
    app.load_cfg(pairs(&[(1, "PC300")]));
    assert!(!app.send_ready());
}

#[test]
fn received_config_shown_and_sent_back() {
    let mut app = ControllerApp::default();
    let received = vec![
        (4u8, cmd([0, 9, 0xff, 0xff, 1])),
        (2u8, cmd([255, 53, 0xff, 0xff, 1])),
        (4u8, cmd([255, 1, 2, 3, 4])),
    ];
    app.req_cfg(&received);
    assert_eq!(entries(&app), pairs(&[(2, "Up"), (4, "CC1|2,3|c4")]));
    assert_eq!(app.send_cfg(), vec![2, 255, 53, 0xff, 0xff, 1, 4, 255, 1, 2, 3, 4]);
}

#[test]
fn serialize_keeps_order() {
    let mut app = ControllerApp::default();
    app.columns.insert(9, "PC9".to_string());
    app.columns.insert(1, "PC1".to_string());
    assert_eq!(entries(&app), pairs(&[(9, "PC9"), (1, "PC1")]));
}

#[test]
fn sorting_twice_is_sorting_once() {
    let mut app = ControllerApp::default();
    app.columns.insert(7, "PC7".to_string());
    app.columns.insert(2, "Up".to_string());
    app.sort_cfg();
    let once = entries(&app);
    app.sort_cfg();
    assert_eq!(entries(&app), once);
    assert_eq!(once, pairs(&[(2, "Up"), (7, "PC7")]));
}

#[test]
fn alias_tables_inverse_and_read_back() {
    let (fwd, rev) = ControllerApp::get_aliases();
    for (name, text) in &fwd {
        assert!(rev.iter().any(|(t, n)| t == text && n == name));
        let c = Command::from_string(text.clone()).unwrap();
        assert_eq!(c.signal_type, 255);
        assert_eq!(c.as_str(), Some(text.clone()));
    }
    for (i, a) in fwd.iter().enumerate() {
        for b in &fwd[i + 1..] {
            assert_ne!(a.0, b.0);
            assert_ne!(a.1, b.1);
        }
    }
}

#[test]
fn reply_decoded_into_pedals_and_commands() {
    let reply: Vec<u8> = vec![
        1, 0, 5, 0xff, 0xff, 1, //
        2, 255, 52, 10, 20, 3, //
    ];
    let got = reply_commands(&reply);
    assert_eq!(got.len(), 2);
    assert_eq!(got[0], (1, cmd([0, 5, 0xff, 0xff, 1])));
    assert_eq!(got[1], (2, cmd([255, 52, 10, 20, 3])));
    let mut app = ControllerApp::default();
    app.req_cfg(&got);
    assert_eq!(entries(&app), pairs(&[(1, "PC5"), (2, "CC52|10,20|c3")]));
}

#[test]
fn sent_config_read_back_unchanged() {
    let mut app = ControllerApp::default();
    app.load_cfg(pairs(&[
        (3, "PC7"),
        (1, "Down"),
        (6, "CC20|10,20"),
        (2, "PC0|c2"),
        (5, "Tap"),
        (4, "CC1|5,6|c3"),
    ]));
    let before = entries(&app);
    assert!(app.send_ready());
    let body = app.send_cfg();
    assert_eq!(body.len(), 36);
    let reply = reply_commands(&body);
    app.req_cfg(&reply);
    assert_eq!(entries(&app), before);
    assert_eq!(
        before,
        pairs(&[
            (1, "Down"),
            (2, "PC0|c2"),
            (3, "PC7"),
            (4, "CC1|5,6|c3"),
            (5, "Tap"),
            (6, "CC20|10,20"),
        ])
    );
}

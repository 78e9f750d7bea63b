use esp_midi::connection::{
    cfg_message, cfg_reply_buffer, cfg_request, find_board, heartbeat_answered,
    heartbeat_request, ADDRESS, CFG_REPLY_LEN,
};
use esp_midi::{ConnectionStatus, Monitor, MonitorAction, MonitorEvent};

/// The link's status and the flags it shares with the front end.
struct Link {
    status: ConnectionStatus,
    new_connect: bool,
    try_connect: bool,
}

impl Link {
    fn new() -> Link {
        Link { status: ConnectionStatus::Disconnected, new_connect: false, try_connect: false }
    }

    fn step(&mut self, m: &mut Monitor, e: MonitorEvent) -> MonitorAction {
        m.step(&mut self.status, &mut self.new_connect, &mut self.try_connect, e)
    }
}

#[test]
fn status_messages() {
    assert_eq!(ConnectionStatus::Connected.fmt(), "Connected.");
    assert_eq!(ConnectionStatus::TryConnect.fmt(), "Trying to connect...");
    assert_eq!(ConnectionStatus::Disconnected.fmt(), "Not connected.");
    assert_eq!(ConnectionStatus::BTNotAvailable.fmt(), "Bluetooth not available...");
}

#[test]
fn protocol_messages() {
    assert_eq!(cfg_request(), vec![0x00]);
    assert_eq!(heartbeat_request(), vec![0x02]);
    assert_eq!(cfg_message(vec![3, 4]), vec![0x01, 3, 4, 0x00]);
    assert_eq!(cfg_message(vec![]), vec![0x01, 0x00]);
    assert_eq!(cfg_reply_buffer(), vec![0u8; 36]);
    assert_eq!(CFG_REPLY_LEN, 36);
    assert!(heartbeat_answered(&vec![2, 0, 0, 0]));
    assert!(!heartbeat_answered(&vec![0, 0, 0, 0]));
}

#[test]
fn monitor_first_round_and_connect() {
    let mut m = Monitor::new();
    let mut c = Link::new();
    assert_eq!(c.step(&mut m, MonitorEvent::Resume), MonitorAction::Discover);
    assert!(c.status == ConnectionStatus::TryConnect);
    assert_eq!(c.step(&mut m, MonitorEvent::Discovered(Some(1))), MonitorAction::Connect);
    assert_eq!(c.step(&mut m, MonitorEvent::Connected), MonitorAction::Heartbeat);
    assert!(c.status == ConnectionStatus::Connected);
    assert!(c.new_connect);
    assert_eq!(c.step(&mut m, MonitorEvent::Heartbeat(true)), MonitorAction::Heartbeat);
    assert_eq!(c.step(&mut m, MonitorEvent::Heartbeat(false)), MonitorAction::Sleep);
    assert!(c.status == ConnectionStatus::Disconnected);
    // not asked again: the task waits
    assert_eq!(c.step(&mut m, MonitorEvent::Resume), MonitorAction::Sleep);
}

#[test]
fn monitor_gives_up_after_three_searches() {
    let mut m = Monitor::new();
    let mut c = Link::new();
    assert_eq!(c.step(&mut m, MonitorEvent::Resume), MonitorAction::Discover);
    assert_eq!(c.step(&mut m, MonitorEvent::Discovered(Some(0))), MonitorAction::Discover);
    assert_eq!(c.step(&mut m, MonitorEvent::Discovered(Some(2))), MonitorAction::Discover);
    assert_eq!(c.step(&mut m, MonitorEvent::Discovered(Some(0))), MonitorAction::Sleep);
    assert!(c.status == ConnectionStatus::Disconnected);
    // asked to connect again
    c.try_connect = true;
    assert_eq!(c.step(&mut m, MonitorEvent::Resume), MonitorAction::Discover);
    assert!(!c.try_connect);
    assert_eq!(m.attempts, 0);
}

#[test]
fn monitor_bluetooth_missing() {
    let mut m = Monitor::new();
    let mut c = Link::new();
    assert_eq!(c.step(&mut m, MonitorEvent::Resume), MonitorAction::Discover);
    assert_eq!(c.step(&mut m, MonitorEvent::Discovered(None)), MonitorAction::Sleep);
    assert!(c.status == ConnectionStatus::BTNotAvailable);
}

#[test]
fn board_found_by_address() {
    let found = vec![
        "00:11:22:33:44:55".to_string(),
        ADDRESS.to_string(),
        "78:21:84:8C:71:2A".to_string(),
    ];
    assert_eq!(find_board(&found), vec![1]);
    assert_eq!(find_board(&vec![]), Vec::<usize>::new());
    assert_eq!(find_board(&vec![ADDRESS.to_string(), ADDRESS.to_string()]), vec![0, 1]);
}

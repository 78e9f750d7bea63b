//! The Bluetooth link to the pedal board: its status, the messages of the
//! protocol, and the decisions of the task that keeps the link alive.
use vstd::prelude::*;

verus! {

/// First byte of a request for the current configuration.
pub const CFG_REQUEST: u8 = 0x00;

/// First byte of a new configuration.
pub const CFG_SET: u8 = 0x01;

/// Last byte of a new configuration: its end.
pub const CFG_END: u8 = 0x00;

/// First byte of a heartbeat request, and of its answer.
pub const HEARTBEAT: u8 = 0x02;

/// Number of pedals on the board.
pub const NUM_PEDALS: usize = 6;

/// Size of the configuration the board sends: for each pedal its number
/// and the five bytes of its command.
pub const CFG_REPLY_LEN: usize = 36;

/// The Bluetooth address of the board.
pub const ADDRESS: &'static str = "78:21:84:8c:71:2a";

/// Connection attempts before the task gives up until it is asked again.
pub const CONNECTION_ATTEMPTS: u8 = 3;

/// The state of the link as the user sees it.
#[derive(PartialEq, Eq, Structural)]
pub enum ConnectionStatus {
    Connected,
    TryConnect,
    Disconnected,
    BTNotAvailable,
}

/// The message shown for a status.
pub open spec fn status_text(s: ConnectionStatus) -> Seq<char> {
    match s {
        ConnectionStatus::Connected => "Connected."@,
        ConnectionStatus::TryConnect => "Trying to connect..."@,
        ConnectionStatus::Disconnected => "Not connected."@,
        ConnectionStatus::BTNotAvailable => "Bluetooth not available..."@,
    }
}

impl ConnectionStatus {
    /// The message shown for the status.
    pub fn fmt(&self) -> (r: String)
        ensures
            r@ == status_text(*self),
    {
        let res = match self {
            ConnectionStatus::Connected => "Connected.",
            ConnectionStatus::TryConnect => "Trying to connect...",
            ConnectionStatus::Disconnected => "Not connected.",
            ConnectionStatus::BTNotAvailable => "Bluetooth not available...",
        };
        res.to_owned()
    }
}

// ---------------------------------------------------------------------------
// Messages
// ---------------------------------------------------------------------------

/// The request for the current configuration.
pub fn cfg_request() -> (m: Vec<u8>)
    ensures
        m@ == seq![CFG_REQUEST],
{
    let mut m = Vec::new();
    m.push(CFG_REQUEST);
    m
}

/// A zeroed buffer for the configuration the board sends.
pub fn cfg_reply_buffer() -> (b: Vec<u8>)
    ensures
        b@ == Seq::new(CFG_REPLY_LEN as nat, |i: int| 0u8),
{
    let mut b: Vec<u8> = Vec::new();
    let mut i: usize = 0;
    while i < CFG_REPLY_LEN
        invariant
            i <= CFG_REPLY_LEN,
            b@ == Seq::new(i as nat, |k: int| 0u8),
        decreases CFG_REPLY_LEN - i,
    {
        b.push(0);
        i = i + 1;
        assert(b@ =~= Seq::new(i as nat, |k: int| 0u8));
    }
    b
}

/// A new configuration for the board: the marker byte, the body, and the
/// end byte.
pub fn cfg_message(buf: Vec<u8>) -> (m: Vec<u8>)
    ensures
        m@ == seq![CFG_SET] + buf@ + seq![CFG_END],
{
    let ghost body = buf@;
    let mut m = buf;
    m.insert(0, CFG_SET);
    m.push(CFG_END);
    assert(m@ =~= seq![CFG_SET] + body + seq![CFG_END]);
    m
}

/// The heartbeat request.
pub fn heartbeat_request() -> (m: Vec<u8>)
    ensures
        m@ == seq![HEARTBEAT],
{
    let mut m = Vec::new();
    m.push(HEARTBEAT);
    m
}

/// Whether a reply to the heartbeat request answers it.
pub fn heartbeat_answered(reply: &Vec<u8>) -> (r: bool)
    requires
        reply@.len() > 0,
    ensures
        r == (reply@[0] == HEARTBEAT),
{
    reply[0] == HEARTBEAT
}

/// The positions of the board's address among the addresses of the devices
/// found, in order.
pub open spec fn board_positions(addresses: Seq<Seq<char>>) -> Seq<int>
    decreases addresses.len(),
{
    if addresses.len() == 0 {
        Seq::empty()
    } else {
        let pre = board_positions(addresses.drop_last());
        if addresses.last() == ADDRESS@ {
            pre.push(addresses.len() - 1)
        } else {
            pre
        }
    }
}

/// The positions of the devices found whose address is the board's.
pub fn find_board(addresses: &Vec<String>) -> (r: Vec<usize>)
    ensures
        r@.map_values(|i: usize| i as int) == board_positions(addresses@.map_values(|a: String| a@)),
{
    let ghost texts = addresses@.map_values(|a: String| a@);
    let board = ADDRESS.to_owned();
    let mut r: Vec<usize> = Vec::new();
    let mut i: usize = 0;
    while i < addresses.len()
        invariant
            i <= addresses@.len(),
            board@ == ADDRESS@,
            texts == addresses@.map_values(|a: String| a@),
            r@.map_values(|k: usize| k as int) == board_positions(texts.subrange(0, i as int)),
        decreases addresses@.len() - i,
    {
        let ghost pre = texts.subrange(0, i as int);
        let ghost next = texts.subrange(0, i + 1);
        assert(next.drop_last() =~= pre);
        assert(next.last() == addresses@[i as int]@);
        let ghost before = r@;
        if addresses[i] == board {
            r.push(i);
            assert(r@.map_values(|k: usize| k as int) =~= before.map_values(|k: usize| k as int).push(
                i as int,
            ));
        }
        i = i + 1;
    }
    assert(texts.subrange(0, i as int) =~= texts);
    r
}

// ---------------------------------------------------------------------------
// The link task
// ---------------------------------------------------------------------------

/// What the link task does next.
#[derive(PartialEq, Eq, Structural, Debug)]
pub enum MonitorAction {
    /// Send a heartbeat request and wait for the answer.
    Heartbeat,
    /// Look for Bluetooth devices.
    Discover,
    /// Connect to the one device with the board's address.
    Connect,
    /// Wait half a second.
    Sleep,
}

/// What the link task has seen.
#[derive(PartialEq, Eq, Structural, Debug)]
pub enum MonitorEvent {
    /// The task starts, or has waited.
    Resume,
    /// The heartbeat was answered or not.
    Heartbeat(bool),
    /// The device search failed (`None`), or found this many devices with
    /// the board's address.
    Discovered(Option<usize>),
    /// The connection to the board stands.
    Connected,
}

/// The task's own state: whether it has tried to connect yet, and how many
/// device searches of the current attempt have failed.
#[derive(PartialEq, Eq, Structural, Debug)]
pub struct Monitor {
    pub first: bool,
    pub attempts: u8,
}

/// The state of the task and of the link, and the next action.
pub struct MonitorStep {
    pub monitor: Monitor,
    pub status: ConnectionStatus,
    pub new_connect: bool,
    pub try_connect: bool,
    pub action: MonitorAction,
}

/// The decision at the top of the task's loop: check a standing link;
/// otherwise start an attempt on the first round or when asked; otherwise
/// wait.
pub open spec fn at_top(m: Monitor, status: ConnectionStatus, new_connect: bool, try_connect: bool) -> MonitorStep {
    if status == ConnectionStatus::Connected {
        MonitorStep { monitor: m, status, new_connect, try_connect, action: MonitorAction::Heartbeat }
    } else if m.first || try_connect {
        MonitorStep {
            monitor: Monitor { first: false, attempts: 0 },
            status: ConnectionStatus::TryConnect,
            new_connect,
            try_connect: false,
            action: MonitorAction::Discover,
        }
    } else {
        MonitorStep { monitor: m, status, new_connect, try_connect, action: MonitorAction::Sleep }
    }
}

/// The task's decisions after an event.
pub open spec fn monitor_step(
    m: Monitor,
    status: ConnectionStatus,
    new_connect: bool,
    try_connect: bool,
    e: MonitorEvent,
) -> MonitorStep {
    match e {
        MonitorEvent::Resume => at_top(m, status, new_connect, try_connect),
        MonitorEvent::Heartbeat(true) => at_top(m, status, new_connect, try_connect),
        MonitorEvent::Heartbeat(false) => MonitorStep {
            monitor: m,
            status: ConnectionStatus::Disconnected,
            new_connect,
            try_connect,
            action: MonitorAction::Sleep,
        },
        MonitorEvent::Discovered(None) => at_top(
            m,
            ConnectionStatus::BTNotAvailable,
            new_connect,
            try_connect,
        ),
        MonitorEvent::Discovered(Some(n)) => if n == 1 {
            MonitorStep { monitor: m, status, new_connect, try_connect, action: MonitorAction::Connect }
        } else if m.attempts + 1 < CONNECTION_ATTEMPTS {
            MonitorStep {
                monitor: Monitor { first: m.first, attempts: (m.attempts + 1) as u8 },
                status,
                new_connect,
                try_connect,
                action: MonitorAction::Discover,
            }
        } else {
            MonitorStep {
                monitor: m,
                status: ConnectionStatus::Disconnected,
                new_connect,
                try_connect,
                action: MonitorAction::Sleep,
            }
        },
        MonitorEvent::Connected => at_top(m, ConnectionStatus::Connected, true, try_connect),
    }
}

impl Monitor {
    /// The state of a task that has not run yet.
    pub fn new() -> (m: Monitor)
        ensures
            m == (Monitor { first: true, attempts: 0 }),
    {
        Monitor { first: true, attempts: 0 }
    }

    /// The decision at the top of the loop.
    fn top(
        &mut self,
        status: &mut ConnectionStatus,
        new_connect: &mut bool,
        try_connect: &mut bool,
    ) -> (a: MonitorAction)
        ensures
            ({
                let s = at_top(*old(self), *old(status), *old(new_connect), *old(try_connect));
                &&& *final(self) == s.monitor
                &&& *final(status) == s.status
                &&& *final(new_connect) == s.new_connect
                &&& *final(try_connect) == s.try_connect
                &&& a == s.action
            }),
    {
        if *status == ConnectionStatus::Connected {
            MonitorAction::Heartbeat
        } else if self.first || *try_connect {
            *try_connect = false;
            self.first = false;
            self.attempts = 0;
            *status = ConnectionStatus::TryConnect;
            MonitorAction::Discover
        } else {
            MonitorAction::Sleep
        }
    }

    /// The task's decisions after `event`: updates the link's status and
    /// the flags it shares with the front end, and says what to do next.
    pub fn step(
        &mut self,
        status: &mut ConnectionStatus,
        new_connect: &mut bool,
        try_connect: &mut bool,
        event: MonitorEvent,
    ) -> (a: MonitorAction)
        ensures
            ({
                let s = monitor_step(*old(self), *old(status), *old(new_connect), *old(try_connect), event);
                &&& *final(self) == s.monitor
                &&& *final(status) == s.status
                &&& *final(new_connect) == s.new_connect
                &&& *final(try_connect) == s.try_connect
                &&& a == s.action
            }),
    {
        match event {
            MonitorEvent::Resume => self.top(status, new_connect, try_connect),
            MonitorEvent::Heartbeat(true) => self.top(status, new_connect, try_connect),
            MonitorEvent::Heartbeat(false) => {
                *status = ConnectionStatus::Disconnected;
                MonitorAction::Sleep
            },
            MonitorEvent::Discovered(None) => {
                *status = ConnectionStatus::BTNotAvailable;
                self.top(status, new_connect, try_connect)
            },
            MonitorEvent::Discovered(Some(n)) => {
                if n == 1 {
                    MonitorAction::Connect
                } else if self.attempts < CONNECTION_ATTEMPTS - 1 {
                    self.attempts = self.attempts + 1;
                    MonitorAction::Discover
                } else {
                    *status = ConnectionStatus::Disconnected;
                    MonitorAction::Sleep
                }
            },
            MonitorEvent::Connected => {
                *status = ConnectionStatus::Connected;
                *new_connect = true;
                self.top(status, new_connect, try_connect)
            },
        }
    }
}

// ---------------------------------------------------------------------------
// Laws of the link task
// ---------------------------------------------------------------------------

/// On its first round the task tries to connect, whatever it was asked.
pub proof fn lemma_first_round_connects(status: ConnectionStatus, new_connect: bool, try_connect: bool)
    requires
        status != ConnectionStatus::Connected,
    ensures
        ({
            let s = monitor_step(
                Monitor { first: true, attempts: 0 },
                status,
                new_connect,
                try_connect,
                MonitorEvent::Resume,
            );
            &&& s.action == MonitorAction::Discover
            &&& s.status == ConnectionStatus::TryConnect
            &&& !s.try_connect
            &&& !s.monitor.first
        }),
{
}

/// A standing link is checked with a heartbeat; a missing answer drops it.
pub proof fn lemma_heartbeat(m: Monitor, new_connect: bool, try_connect: bool)
    ensures
        monitor_step(m, ConnectionStatus::Connected, new_connect, try_connect, MonitorEvent::Resume).action
            == MonitorAction::Heartbeat,
        monitor_step(
            m,
            ConnectionStatus::Connected,
            new_connect,
            try_connect,
            MonitorEvent::Heartbeat(true),
        ).action == MonitorAction::Heartbeat,
        ({
            let s = monitor_step(
                m,
                ConnectionStatus::Connected,
                new_connect,
                try_connect,
                MonitorEvent::Heartbeat(false),
            );
            s.status == ConnectionStatus::Disconnected && s.action == MonitorAction::Sleep
        }),
{
}

/// Once connected, the link is marked new and checked next.
pub proof fn lemma_connected(m: Monitor, status: ConnectionStatus, new_connect: bool, try_connect: bool)
    ensures
        ({
            let s = monitor_step(m, status, new_connect, try_connect, MonitorEvent::Connected);
            &&& s.status == ConnectionStatus::Connected
            &&& s.new_connect
            &&& s.action == MonitorAction::Heartbeat
        }),
{
}

/// An attempt searches for the board three times at most: after three
/// searches that do not find exactly one board the link is given up and
/// the task waits.
pub proof fn lemma_three_searches(
    m: Monitor,
    status: ConnectionStatus,
    new_connect: bool,
    try_connect: bool,
    n1: usize,
    n2: usize,
    n3: usize,
)
    requires
        m.attempts == 0,
        n1 != 1,
        n2 != 1,
        n3 != 1,
    ensures
        ({
            let s1 = monitor_step(m, status, new_connect, try_connect, MonitorEvent::Discovered(Some(n1)));
            let s2 = monitor_step(
                s1.monitor,
                s1.status,
                s1.new_connect,
                s1.try_connect,
                MonitorEvent::Discovered(Some(n2)),
            );
            let s3 = monitor_step(
                s2.monitor,
                s2.status,
                s2.new_connect,
                s2.try_connect,
                MonitorEvent::Discovered(Some(n3)),
            );
            &&& s1.action == MonitorAction::Discover
            &&& s2.action == MonitorAction::Discover
            &&& s3.action == MonitorAction::Sleep
            &&& s3.status == ConnectionStatus::Disconnected
        }),
{
}

/// A search that finds exactly one board leads to connecting to it.
pub proof fn lemma_one_board_connects(m: Monitor, status: ConnectionStatus, new_connect: bool, try_connect: bool)
    ensures
        monitor_step(m, status, new_connect, try_connect, MonitorEvent::Discovered(Some(1))).action
            == MonitorAction::Connect,
{
}

/// The count of failed searches never reaches the number of attempts.
pub proof fn lemma_attempts_bounded(
    m: Monitor,
    status: ConnectionStatus,
    new_connect: bool,
    try_connect: bool,
    e: MonitorEvent,
)
    requires
        m.attempts < CONNECTION_ATTEMPTS,
    ensures
        monitor_step(m, status, new_connect, try_connect, e).monitor.attempts < CONNECTION_ATTEMPTS,
{
}


/// Outside a standing link, a resumed task starts an attempt on its first
/// round or when asked to connect, whatever the status: it searches for
/// the board, shows that it is trying to connect, clears the request and
/// counts no failed search yet.
pub proof fn lemma_attempt_starts(m: Monitor, status: ConnectionStatus, new_connect: bool, try_connect: bool)
    requires
        status != ConnectionStatus::Connected,
        m.first || try_connect,
    ensures
        ({
            let s = monitor_step(m, status, new_connect, try_connect, MonitorEvent::Resume);
            &&& s.action == MonitorAction::Discover
            &&& s.status == ConnectionStatus::TryConnect
            &&& !s.try_connect
            &&& s.monitor == (Monitor { first: false, attempts: 0 })
            &&& s.new_connect == new_connect
        }),
{
}

/// Outside a standing link, without a request and after the first round,
/// a resumed task waits and changes nothing.
pub proof fn lemma_idle_waits(attempts: u8, status: ConnectionStatus, new_connect: bool)
    requires
        status != ConnectionStatus::Connected,
    ensures
        ({
            let m = Monitor { first: false, attempts };
            let s = monitor_step(m, status, new_connect, false, MonitorEvent::Resume);
            &&& s.action == MonitorAction::Sleep
            &&& s.status == status
            &&& s.monitor == m
            &&& !s.try_connect
            &&& s.new_connect == new_connect
        }),
{
}

/// A search started from the top of the loop (on any event but the result
/// of a search that found board addresses) always shows that the task is
/// trying to connect, with the request cleared and no failed search
/// counted.
pub proof fn lemma_new_search_shows_trying(
    m: Monitor,
    status: ConnectionStatus,
    new_connect: bool,
    try_connect: bool,
    e: MonitorEvent,
)
    requires
        !(e matches MonitorEvent::Discovered(Some(_))),
        monitor_step(m, status, new_connect, try_connect, e).action == MonitorAction::Discover,
    ensures
        ({
            let s = monitor_step(m, status, new_connect, try_connect, e);
            &&& s.status == ConnectionStatus::TryConnect
            &&& !s.try_connect
            &&& s.monitor == (Monitor { first: false, attempts: 0 })
        }),
{
}

} // verus!

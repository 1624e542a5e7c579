//! The decisions of a tunnel session on the client: which packets go through, when the
//! session ends, and how its socket is set up.
use crate::error::{Error, Failure};
use vstd::prelude::*;
use vstd::string::StringExecFns;

verus! {

/// The largest datagram that is read.
pub const BUF_SIZE: usize = 1500;

/// The seconds to wait for the answer to the first packet.
pub const HANDSHAKE_TIMEOUT_SECS: u64 = 10;

/// The seconds between two packets that keep the link alive.
pub const KEEPALIVE_INTERVAL_SECS: u64 = 20;

/// The nanoseconds without any packet after which the link is given up: four minutes.
pub const RX_SILENCE_NS: u64 = 240_000_000_000;

/// The seconds between two tests for silence.
pub const RX_CHECK_INTERVAL_SECS: u64 = 5;

/// The seconds after which a session ends so that its keys are renewed.
pub const REKEY_INTERVAL_SECS: u64 = 1800;

/// The number of packets that may wait to be sent.
pub const CHANNEL_SIZE: usize = 8192;

/// The size of the buffers of the socket in bytes.
pub const SOCKET_BUFFER: i32 = 4_194_304;

/// The address of a server.
#[derive(Debug, Clone, Copy, PartialEq, Eq)]
pub enum Address {
    V4([u8; 4], u16),
    V6,
}

/// The first address from the `k`-th on that is an IPv4 address.
pub open spec fn first_v4(list: Seq<Address>, k: nat) -> Option<Address>
    decreases list.len() - k,
{
    if k >= list.len() {
        None
    } else if list[k as int] is V4 {
        Some(list[k as int])
    } else {
        first_v4(list, k + 1)
    }
}

/// The IPv4 address of a server among those that its name stands for.
pub fn choose_address(list: &Vec<Address>) -> (r: Result<Address, Error>)
    ensures
        match r {
            Ok(address) => first_v4(list@, 0) == Some(address),
            Err(error) => first_v4(list@, 0) is None && error@ == Failure::Session(
                "Cannot resolve server host to IPv4"@,
            ),
        },
{
    let mut k: usize = 0;
    while k < list.len()
        invariant
            k <= list@.len(),
            first_v4(list@, 0) == first_v4(list@, k as nat),
        decreases list@.len() - k,
    {
        match list[k] {
            Address::V4(octets, port) => {
                return Ok(Address::V4(octets, port));
            },
            Address::V6 => {},
        }
        k = k + 1;
    }
    Err(Error::Session("Cannot resolve server host to IPv4".to_owned()))
}

/// The digit of a number below ten.
pub open spec fn digit_char(d: nat) -> char {
    (48 + d) as char
}

/// A number in decimal digits.
pub open spec fn decimal(n: nat) -> Seq<char>
    decreases n,
{
    if n < 10 {
        seq![digit_char(n)]
    } else {
        decimal(n / 10).push(digit_char(n % 10))
    }
}

/// The digit of a number below ten.
fn digit_text(d: u16) -> (r: &'static str)
    requires
        d < 10,
    ensures
        r@ == seq![digit_char(d as nat)],
{
    proof {
        reveal_strlit("0");
        reveal_strlit("1");
        reveal_strlit("2");
        reveal_strlit("3");
        reveal_strlit("4");
        reveal_strlit("5");
        reveal_strlit("6");
        reveal_strlit("7");
        reveal_strlit("8");
        reveal_strlit("9");
    }
    let r = match d {
        0 => "0",
        1 => "1",
        2 => "2",
        3 => "3",
        4 => "4",
        5 => "5",
        6 => "6",
        7 => "7",
        8 => "8",
        _ => "9",
    };
    assert(r@ =~= seq![digit_char(d as nat)]);
    r
}

/// A port in decimal digits.
fn port_text(port: u16) -> (r: String)
    ensures
        r@ == decimal(port as nat),
    decreases port,
{
    if port < 10 {
        digit_text(port).to_owned()
    } else {
        let r = port_text(port / 10).concat(digit_text(port % 10));
        assert(r@ =~= decimal(port as nat));
        r
    }
}

/// The name under which a server is looked up.
pub fn destination(host: &str, port: u16) -> (r: String)
    ensures
        r@ == host@ + ":"@ + decimal(port as nat),
{
    let digits = port_text(port);
    host.to_owned().concat(":").concat(digits.as_str())
}

/// A port in network byte order.
pub fn network_port(port: u16) -> (r: [u8; 2])
    ensures
        r@ == seq![(port / 256) as u8, (port % 256) as u8],
{
    let r = [(port / 256) as u8, (port % 256) as u8];
    assert(r@ =~= seq![(port / 256) as u8, (port % 256) as u8]);
    r
}

/// A packet of the device that is sent to the server: one with data, of version four.
pub open spec fn is_forwarded(packet: Seq<u8>) -> bool {
    packet.len() > 0 && packet[0] / 16 == 4
}

/// Tests whether a packet of the device is sent to the server.
pub fn forwards(packet: &[u8]) -> (r: bool)
    ensures
        r == is_forwarded(packet@),
{
    packet.len() > 0 && packet[0] / 16 == 4
}

/// The error for a server that does not answer.
pub fn handshake_timeout() -> (r: Error)
    ensures
        r@ == Failure::Session("Handshake timeout (10 s)"@),
{
    Error::Session("Handshake timeout (10 s)".to_owned())
}

/// The message of the task that reads from the device.
pub fn read_failure(reason: &str) -> (r: String)
    ensures
        r@ == "TUN read failed: "@ + reason@,
{
    "TUN read failed: ".to_owned().concat(reason)
}

/// The message of the task that sends to the server.
pub fn upload_failure(reason: &str) -> (r: String)
    ensures
        r@ == "Upload pipeline: "@ + reason@,
{
    "Upload pipeline: ".to_owned().concat(reason)
}

/// What a datagram from the server holds.
#[derive(Debug, Clone, Copy, PartialEq, Eq, Structural)]
pub enum Inbound {
    /// It could not be decoded.
    Unreadable,
    /// Data of this length for the device.
    Data(usize),
    /// Anything else that could be decoded.
    Other,
}

/// What happens in a session.
pub enum LinkEvent {
    /// The keys are due to be renewed.
    RekeyDue,
    /// A datagram came.
    Received { now_ns: u64, inbound: Inbound },
    /// Receiving failed.
    ReceiveFailed(String),
    /// The data was written to the device, or could not be.
    Written(Result<(), String>),
    /// A task of the session failed, or all of them are gone.
    TaskFailed(Option<String>),
    /// It is time to test for silence; `printed` is the silence for the user.
    SilenceCheck { now_ns: u64, printed: String },
}

/// What a session does next.
pub enum Reaction {
    /// It waits for the next event.
    Wait,
    /// It writes the data to the device.
    Write,
    /// It ends; `abort_tasks` says whether its tasks are stopped first.
    End { result: Result<(), Error>, abort_tasks: bool },
}

/// The model of what a session does next: an end has no failure if it is a clean one.
pub enum Response {
    Wait,
    Write,
    End(Option<Failure>, bool),
}

impl View for Reaction {
    type V = Response;

    open spec fn view(&self) -> Response {
        match *self {
            Reaction::Wait => Response::Wait,
            Reaction::Write => Response::Write,
            Reaction::End { result, abort_tasks } => Response::End(
                match result {
                    Ok(_) => None,
                    Err(error) => Some(error@),
                },
                abort_tasks,
            ),
        }
    }
}

/// A session that is running.
#[derive(Debug, Clone, Copy, PartialEq, Eq, Structural)]
pub struct Link {
    /// When the last datagram came.
    pub last_rx_ns: u64,
    /// The bytes that were sent to the server, modulo `2^64`.
    pub upload_bytes: u64,
    /// The bytes that were written to the device, modulo `2^64`.
    pub download_bytes: u64,
    /// The length of the data that is being written.
    pub writing: u64,
}

/// A sum modulo `2^64`.
pub open spec fn wrapped(a: u64, b: u64) -> u64 {
    ((a + b) % 0x1_0000_0000_0000_0000) as u64
}

/// The nanoseconds since the last datagram.
pub open spec fn silence(link: Link, now_ns: u64) -> nat {
    if now_ns >= link.last_rx_ns {
        (now_ns - link.last_rx_ns) as nat
    } else {
        0
    }
}

/// What an event makes of a session, and what it does next.
pub open spec fn reacts(link: Link, event: LinkEvent) -> (Link, Response) {
    match event {
        LinkEvent::RekeyDue => (link, Response::End(None, true)),
        LinkEvent::Received { now_ns, inbound } => match inbound {
            Inbound::Data(len) => if len > 0 {
                (Link { last_rx_ns: now_ns, writing: len as u64, ..link }, Response::Write)
            } else {
                (Link { last_rx_ns: now_ns, ..link }, Response::Wait)
            },
            _ => (Link { last_rx_ns: now_ns, ..link }, Response::Wait),
        },
        LinkEvent::ReceiveFailed(text) => (link, Response::End(Some(Failure::Io(text@)), false)),
        LinkEvent::Written(Ok(_)) => (
            Link {
                download_bytes: wrapped(link.download_bytes, link.writing),
                writing: 0,
                ..link
            },
            Response::Wait,
        ),
        LinkEvent::Written(Err(text)) => (link, Response::End(Some(Failure::Io(text@)), false)),
        LinkEvent::TaskFailed(Some(text)) => (
            link,
            Response::End(Some(Failure::Session(text@)), true),
        ),
        LinkEvent::TaskFailed(None) => (link, Response::Wait),
        LinkEvent::SilenceCheck { now_ns, printed } => if silence(link, now_ns) > RX_SILENCE_NS {
            (
                link,
                Response::End(
                    Some(Failure::Session("No RX for "@ + printed@ + " — reconnecting"@)),
                    true,
                ),
            )
        } else {
            (link, Response::Wait)
        },
    }
}

impl Link {
    /// A session that starts now.
    pub fn new(now_ns: u64) -> (r: Self)
        ensures
            r == (Link { last_rx_ns: now_ns, upload_bytes: 0, download_bytes: 0, writing: 0 }),
    {
        Link { last_rx_ns: now_ns, upload_bytes: 0, download_bytes: 0, writing: 0 }
    }

    /// Counts data that was sent to the server.
    pub fn count_sent(&mut self, len: usize)
        ensures
            *final(self) == (Link {
                upload_bytes: wrapped(old(self).upload_bytes, len as u64),
                ..*old(self)
            }),
    {
        self.upload_bytes = self.upload_bytes.wrapping_add(len as u64);
    }

    /// Takes an event in and says what the session does next.
    pub fn advance(&mut self, event: LinkEvent) -> (r: Reaction)
        ensures
            (*final(self), r@) == reacts(*old(self), event),
    {
        match event {
            LinkEvent::RekeyDue => Reaction::End { result: Ok(()), abort_tasks: true },
            LinkEvent::Received { now_ns, inbound } => {
                self.last_rx_ns = now_ns;
                match inbound {
                    Inbound::Data(len) => {
                        if len > 0 {
                            self.writing = len as u64;
                            Reaction::Write
                        } else {
                            Reaction::Wait
                        }
                    },
                    _ => Reaction::Wait,
                }
            },
            LinkEvent::ReceiveFailed(text) => Reaction::End {
                result: Err(Error::Io(text)),
                abort_tasks: false,
            },
            LinkEvent::Written(Ok(_)) => {
                self.download_bytes = self.download_bytes.wrapping_add(self.writing);
                self.writing = 0;
                Reaction::Wait
            },
            LinkEvent::Written(Err(text)) => Reaction::End {
                result: Err(Error::Io(text)),
                abort_tasks: false,
            },
            LinkEvent::TaskFailed(Some(text)) => Reaction::End {
                result: Err(Error::Session(text)),
                abort_tasks: true,
            },
            LinkEvent::TaskFailed(None) => Reaction::Wait,
            LinkEvent::SilenceCheck { now_ns, printed } => {
                if now_ns >= self.last_rx_ns && now_ns - self.last_rx_ns > RX_SILENCE_NS {
                    let text = "No RX for ".to_owned().concat(printed.as_str()).concat(
                        " — reconnecting",
                    );
                    Reaction::End { result: Err(Error::Session(text)), abort_tasks: true }
                } else {
                    Reaction::Wait
                }
            },
        }
    }
}

/// A session ends without a failure only when its keys are due to be renewed.
pub proof fn law_clean_end_only_for_rekey(link: Link, event: LinkEvent)
    ensures
        (reacts(link, event).1 matches Response::End(failure, _) && failure is None)
            <==> event is RekeyDue,
{
}

/// Every datagram, readable or not, puts off the end of a silent session by four
/// minutes.
pub proof fn law_any_datagram_ends_silence(
    link: Link,
    received_ns: u64,
    inbound: Inbound,
    now_ns: u64,
    printed: String,
)
    requires
        now_ns <= received_ns + RX_SILENCE_NS,
    ensures
        ({
            let after = reacts(
                link,
                LinkEvent::Received { now_ns: received_ns, inbound },
            ).0;
            reacts(after, LinkEvent::SilenceCheck { now_ns, printed }).1 == Response::Wait
        }),
{
}

/// The bytes counted as downloaded are those of the data that was written, each once.
pub proof fn law_downloads_are_counted(link: Link, now_ns: u64, len: usize)
    requires
        len > 0,
        link.download_bytes + len <= u64::MAX,
    ensures
        ({
            let started = reacts(link, LinkEvent::Received { now_ns, inbound: Inbound::Data(len) });
            let finished = reacts(started.0, LinkEvent::Written(Ok(())));
            &&& started.1 == Response::Write
            &&& started.0.download_bytes == link.download_bytes
            &&& finished.0.download_bytes == link.download_bytes + len
        }),
{
}

/// How far the set-up of a socket has come.
#[derive(Debug, Clone, Copy, PartialEq, Eq, Structural)]
pub enum SetupStage {
    /// The socket is being opened.
    Opening,
    /// The thread is being attached to the virtual machine; the socket is open.
    Attaching(i32),
    /// The socket is being exempted from the tunnel.
    Protecting(i32),
    /// The socket is being connected.
    Connecting(i32),
    /// The set-up is over.
    Over,
}

/// What came of a step of the set-up.
pub enum SetupEvent {
    /// The descriptor of the socket, or why there is none.
    Opened(Result<i32, String>),
    Attached(Result<(), String>),
    /// Whether the socket was exempted.
    Protected(bool),
    Connected(Result<(), String>),
}

/// What is done next.
pub enum SetupAction {
    Attach,
    Protect(i32),
    Connect(i32),
    /// Nothing more: the socket can be used.
    Ready(i32),
    /// Nothing more: the set-up failed.
    Fail(Error),
    /// The socket is closed, and the set-up failed.
    CloseAndFail(i32, Error),
    /// Nothing: the event does not belong to the stage.
    Ignore,
}

/// The model of what is done next.
pub enum SetupReply {
    Attach,
    Protect(i32),
    Connect(i32),
    Ready(i32),
    Fail(Failure),
    CloseAndFail(i32, Failure),
    Ignore,
}

impl View for SetupAction {
    type V = SetupReply;

    open spec fn view(&self) -> SetupReply {
        match *self {
            SetupAction::Attach => SetupReply::Attach,
            SetupAction::Protect(fd) => SetupReply::Protect(fd),
            SetupAction::Connect(fd) => SetupReply::Connect(fd),
            SetupAction::Ready(fd) => SetupReply::Ready(fd),
            SetupAction::Fail(error) => SetupReply::Fail(error@),
            SetupAction::CloseAndFail(fd, error) => SetupReply::CloseAndFail(fd, error@),
            SetupAction::Ignore => SetupReply::Ignore,
        }
    }
}

/// The stage and the action that follow an event, for a server with or without an IPv4
/// address.
pub open spec fn sets_up(stage: SetupStage, ipv4: bool, event: SetupEvent) -> (
    SetupStage,
    SetupReply,
) {
    match (stage, event) {
        (SetupStage::Opening, SetupEvent::Opened(Ok(fd))) => (
            SetupStage::Attaching(fd),
            SetupReply::Attach,
        ),
        (SetupStage::Opening, SetupEvent::Opened(Err(text))) => (
            SetupStage::Over,
            SetupReply::Fail(Failure::Io(text@)),
        ),
        (SetupStage::Attaching(fd), SetupEvent::Attached(Ok(_))) => (
            SetupStage::Protecting(fd),
            SetupReply::Protect(fd),
        ),
        (SetupStage::Attaching(_), SetupEvent::Attached(Err(text))) => (
            SetupStage::Over,
            SetupReply::Fail(Failure::Session("JNI attach: "@ + text@)),
        ),
        (SetupStage::Protecting(fd), SetupEvent::Protected(true)) => if ipv4 {
            (SetupStage::Connecting(fd), SetupReply::Connect(fd))
        } else {
            (
                SetupStage::Over,
                SetupReply::CloseAndFail(
                    fd,
                    Failure::Session("Only IPv4 server addresses are supported"@),
                ),
            )
        },
        (SetupStage::Protecting(fd), SetupEvent::Protected(false)) => (
            SetupStage::Over,
            SetupReply::CloseAndFail(
                fd,
                Failure::Session("VpnService.protect() returned false"@),
            ),
        ),
        (SetupStage::Connecting(fd), SetupEvent::Connected(Ok(_))) => (
            SetupStage::Over,
            SetupReply::Ready(fd),
        ),
        (SetupStage::Connecting(fd), SetupEvent::Connected(Err(text))) => (
            SetupStage::Over,
            SetupReply::CloseAndFail(fd, Failure::Io(text@)),
        ),
        _ => (stage, SetupReply::Ignore),
    }
}

impl SetupStage {
    /// Takes an event in and says what is done next.
    pub fn advance(&mut self, ipv4: bool, event: SetupEvent) -> (r: SetupAction)
        ensures
            (*final(self), r@) == sets_up(*old(self), ipv4, event),
    {
        match (*self, event) {
            (SetupStage::Opening, SetupEvent::Opened(Ok(fd))) => {
                *self = SetupStage::Attaching(fd);
                SetupAction::Attach
            },
            (SetupStage::Opening, SetupEvent::Opened(Err(text))) => {
                *self = SetupStage::Over;
                SetupAction::Fail(Error::Io(text))
            },
            (SetupStage::Attaching(fd), SetupEvent::Attached(Ok(_))) => {
                *self = SetupStage::Protecting(fd);
                SetupAction::Protect(fd)
            },
            (SetupStage::Attaching(_), SetupEvent::Attached(Err(text))) => {
                *self = SetupStage::Over;
                let message = "JNI attach: ".to_owned().concat(text.as_str());
                SetupAction::Fail(Error::Session(message))
            },
            (SetupStage::Protecting(fd), SetupEvent::Protected(true)) => {
                if ipv4 {
                    *self = SetupStage::Connecting(fd);
                    SetupAction::Connect(fd)
                } else {
                    *self = SetupStage::Over;
                    SetupAction::CloseAndFail(
                        fd,
                        Error::Session("Only IPv4 server addresses are supported".to_owned()),
                    )
                }
            },
            (SetupStage::Protecting(fd), SetupEvent::Protected(false)) => {
                *self = SetupStage::Over;
                SetupAction::CloseAndFail(
                    fd,
                    Error::Session("VpnService.protect() returned false".to_owned()),
                )
            },
            (SetupStage::Connecting(fd), SetupEvent::Connected(Ok(_))) => {
                *self = SetupStage::Over;
                SetupAction::Ready(fd)
            },
            (SetupStage::Connecting(fd), SetupEvent::Connected(Err(text))) => {
                *self = SetupStage::Over;
                SetupAction::CloseAndFail(fd, Error::Io(text))
            },
            _ => SetupAction::Ignore,
        }
    }
}

/// The stage of a set-up after a sequence of events.
pub open spec fn setup_after(ipv4: bool, events: Seq<SetupEvent>) -> SetupStage
    decreases events.len(),
{
    if events.len() == 0 {
        SetupStage::Opening
    } else {
        sets_up(setup_after(ipv4, events.drop_last()), ipv4, events.last()).0
    }
}

/// The socket of a set-up that is being connected was opened, and exempted since.
proof fn lemma_connecting(ipv4: bool, events: Seq<SetupEvent>)
    ensures
        setup_after(ipv4, events) matches SetupStage::Attaching(fd) ==> was_opened(events, fd),
        setup_after(ipv4, events) matches SetupStage::Protecting(fd) ==> was_opened(events, fd),
        setup_after(ipv4, events) matches SetupStage::Connecting(fd) ==> was_opened(events, fd)
            && was_protected(events) && ipv4,
    decreases events.len(),
{
    if events.len() > 0 {
        let front = events.drop_last();
        lemma_connecting(ipv4, front);
        assert(events[events.len() - 1] == events.last());
        assert forall|fd: i32| was_opened(front, fd) implies #[trigger] was_opened(events, fd) by {
            let k = choose|k: int|
                0 <= k < front.len() && #[trigger] front[k] == SetupEvent::Opened(Ok(fd));
            assert(events[k] == front[k]);
        }
        if was_protected(front) {
            let k = choose|k: int|
                0 <= k < front.len() && #[trigger] front[k] == SetupEvent::Protected(true);
            assert(events[k] == front[k]);
        }
    }
}

/// The socket was opened.
pub open spec fn was_opened(events: Seq<SetupEvent>, fd: i32) -> bool {
    exists|k: int| 0 <= k < events.len() && #[trigger] events[k] == SetupEvent::Opened(Ok(fd))
}

/// A socket was exempted from the tunnel.
pub open spec fn was_protected(events: Seq<SetupEvent>) -> bool {
    exists|k: int| 0 <= k < events.len() && #[trigger] events[k] == SetupEvent::Protected(true)
}

/// A socket is handed out only if it was opened, exempted from the tunnel and connected
/// to an IPv4 server.
pub proof fn law_ready_socket_is_protected(ipv4: bool, events: Seq<SetupEvent>, fd: i32)
    requires
        events.len() > 0,
        sets_up(setup_after(ipv4, events.drop_last()), ipv4, events.last()).1 == SetupReply::Ready(
            fd,
        ),
    ensures
        was_opened(events, fd),
        was_protected(events),
        ipv4,
        events.last() matches SetupEvent::Connected(Ok(_)),
{
    let front = events.drop_last();
    lemma_connecting(ipv4, front);
    assert(was_opened(events, fd)) by {
        let k = choose|k: int|
            0 <= k < front.len() && #[trigger] front[k] == SetupEvent::Opened(Ok(fd));
        assert(events[k] == front[k]);
    }
    assert(was_protected(events)) by {
        let k = choose|k: int|
            0 <= k < front.len() && #[trigger] front[k] == SetupEvent::Protected(true);
        assert(events[k] == front[k]);
    }
}

/// Once the thread is attached, a socket that cannot be used is closed.
pub proof fn law_failed_socket_is_closed(stage: SetupStage, ipv4: bool, event: SetupEvent)
    requires
        stage is Protecting || stage is Connecting,
    ensures
        sets_up(stage, ipv4, event).1 !is Fail,
        sets_up(stage, ipv4, event).1 matches SetupReply::CloseAndFail(fd, _) ==> stage
            == SetupStage::Protecting(fd) || stage == SetupStage::Connecting(fd),
{
}

/// The address that is chosen is an IPv4 address of the list, and every address before it is
/// none; where none is chosen, the list has no IPv4 address.
pub proof fn law_first_v4_address_is_chosen(list: Seq<Address>)
    ensures
        match first_v4(list, 0) {
            Some(address) => address is V4 && exists|k: int|
                0 <= k < list.len() && #[trigger] list[k] == address && forall|j: int|
                    0 <= j < k ==> !(#[trigger] list[j] is V4),
            None => forall|j: int| 0 <= j < list.len() ==> !(#[trigger] list[j] is V4),
        },
{
    lemma_first_v4(list, 0);
}

/// The first IPv4 address from a position on.
proof fn lemma_first_v4(list: Seq<Address>, from: nat)
    requires
        from <= list.len(),
    ensures
        match first_v4(list, from) {
            Some(address) => address is V4 && exists|k: int|
                from <= k < list.len() && #[trigger] list[k] == address && forall|j: int|
                    from <= j < k ==> !(#[trigger] list[j] is V4),
            None => forall|j: int| from <= j < list.len() ==> !(#[trigger] list[j] is V4),
        },
    decreases list.len() - from,
{
    if from < list.len() {
        if list[from as int] is V4 {
            assert(list[from as int] == list[from as int]);
        } else {
            lemma_first_v4(list, from + 1);
            if let Some(address) = first_v4(list, from + 1) {
                let k = choose|k: int|
                    from + 1 <= k < list.len() && #[trigger] list[k] == address && forall|j: int|
                        from + 1 <= j < k ==> !(#[trigger] list[j] is V4);
                assert(list[k] == address);
            }
        }
    }
}

/// The number that decimal digits stand for.
pub open spec fn decimal_value(digits: Seq<char>) -> int
    decreases digits.len(),
{
    if digits.len() == 0 {
        0
    } else {
        10 * decimal_value(digits.drop_last()) + (digits.last() as int - '0' as int)
    }
}

/// A number is written in decimal digits that stand for it, without a zero in front.
pub proof fn law_decimal_digits_stand_for_number(n: nat)
    ensures
        decimal_value(decimal(n)) == n,
        decimal(n).len() >= 1,
        forall|i: int| 0 <= i < decimal(n).len() ==> '0' <= #[trigger] decimal(n)[i] <= '9',
        n > 0 ==> decimal(n)[0] != '0',
    decreases n,
{
    if n >= 10 {
        law_decimal_digits_stand_for_number(n / 10);
        let front = decimal(n / 10);
        let all = front.push(digit_char(n % 10));
        assert(all.drop_last() =~= front);
        assert(digit_char(n % 10) as int == 48 + n % 10);
        assert forall|i: int| 0 <= i < all.len() implies '0' <= #[trigger] all[i] <= '9' by {
            if i < front.len() {
                assert(all[i] == front[i]);
            }
        }
        assert(all[0] == front[0]);
    } else {
        assert(digit_char(n) as int == 48 + n);
        assert(decimal(n).drop_last() =~= Seq::<char>::empty());
        assert(decimal_value(decimal(n).drop_last()) == 0);
    }
}

/// A packet of the device goes to the server exactly if it starts with a byte whose high half
/// is four, the mark of IPv4.
pub proof fn law_only_v4_packets_are_forwarded(packet: Seq<u8>)
    ensures
        is_forwarded(packet) <==> packet.len() >= 1 && 0x40 <= packet[0] <= 0x4f,
{
}

/// At a test for silence a session ends exactly if nothing has come for more than four
/// minutes; its tasks are then stopped. A clock that was set back is no silence.
pub proof fn law_four_minutes_of_silence_end_session(link: Link, now_ns: u64, printed: String)
    ensures
        ({
            let (after, response) = reacts(link, LinkEvent::SilenceCheck { now_ns, printed });
            &&& after == link
            &&& now_ns - link.last_rx_ns > 240_000_000_000 ==> response == Response::End(
                Some(Failure::Session("No RX for "@ + printed@ + " — reconnecting"@)),
                true,
            )
            &&& now_ns - link.last_rx_ns <= 240_000_000_000 ==> response == Response::Wait
        }),
{
}

/// Only data with at least one byte is written to the device, and every datagram, whatever it
/// holds, sets the time of the last one; what was sent stays counted.
pub proof fn law_only_data_is_written(link: Link, now_ns: u64, inbound: Inbound)
    ensures
        ({
            let (after, response) = reacts(link, LinkEvent::Received { now_ns, inbound });
            &&& after.last_rx_ns == now_ns
            &&& after.upload_bytes == link.upload_bytes
            &&& after.download_bytes == link.download_bytes
            &&& response == Response::Write <==> (inbound matches Inbound::Data(len) && len >= 1)
            &&& response != Response::Write ==> response == Response::Wait
            &&& inbound matches Inbound::Data(len) ==> (len >= 1 ==> after.writing == len)
        }),
{
}

/// Failures of the socket and of the device end a session with what they report and leave its
/// tasks alone; the failure of a task ends it with what the task reports and stops the others.
pub proof fn law_failures_end_session(link: Link, text: String)
    ensures
        reacts(link, LinkEvent::ReceiveFailed(text)).1 == Response::End(
            Some(Failure::Io(text@)),
            false,
        ),
        reacts(link, LinkEvent::Written(Err(text))).1 == Response::End(
            Some(Failure::Io(text@)),
            false,
        ),
        reacts(link, LinkEvent::TaskFailed(Some(text))).1 == Response::End(
            Some(Failure::Session(text@)),
            true,
        ),
        reacts(link, LinkEvent::TaskFailed(None)) == (link, Response::Wait),
{
}

/// A socket that meets no failure is opened, the thread attached, the socket exempted from the
/// tunnel, connected, and handed out, in this order.
pub proof fn law_socket_is_set_up_in_order(fd: i32)
    ensures
        sets_up(SetupStage::Opening, true, SetupEvent::Opened(Ok(fd))) == (
            SetupStage::Attaching(fd),
            SetupReply::Attach,
        ),
        sets_up(SetupStage::Attaching(fd), true, SetupEvent::Attached(Ok(()))) == (
            SetupStage::Protecting(fd),
            SetupReply::Protect(fd),
        ),
        sets_up(SetupStage::Protecting(fd), true, SetupEvent::Protected(true)) == (
            SetupStage::Connecting(fd),
            SetupReply::Connect(fd),
        ),
        sets_up(SetupStage::Connecting(fd), true, SetupEvent::Connected(Ok(()))) == (
            SetupStage::Over,
            SetupReply::Ready(fd),
        ),
{
}

/// A socket that is not exempted, that has no IPv4 server or that cannot be connected is
/// closed, and the set-up fails with what went wrong; a thread that cannot be attached, or a
/// socket that cannot be opened, fails it too.
pub proof fn law_setup_failures_are_reported(fd: i32, text: String, ipv4: bool)
    ensures
        sets_up(SetupStage::Opening, ipv4, SetupEvent::Opened(Err(text))).1 == SetupReply::Fail(
            Failure::Io(text@),
        ),
        sets_up(SetupStage::Attaching(fd), ipv4, SetupEvent::Attached(Err(text))).1
            == SetupReply::Fail(Failure::Session("JNI attach: "@ + text@)),
        sets_up(SetupStage::Protecting(fd), ipv4, SetupEvent::Protected(false)).1
            == SetupReply::CloseAndFail(
            fd,
            Failure::Session("VpnService.protect() returned false"@),
        ),
        sets_up(SetupStage::Protecting(fd), false, SetupEvent::Protected(true)).1
            == SetupReply::CloseAndFail(
            fd,
            Failure::Session("Only IPv4 server addresses are supported"@),
        ),
        sets_up(SetupStage::Connecting(fd), ipv4, SetupEvent::Connected(Err(text))).1
            == SetupReply::CloseAndFail(fd, Failure::Io(text@)),
{
}

/// The intervals of a session: the answer of the server is awaited for ten seconds, the link is
/// kept alive every twenty, tested for silence every five and given up after four minutes of it,
/// and its keys are renewed every half hour. So the link is tested and kept alive many times
/// before it can be given up, and given up long before its keys are due.
pub proof fn law_intervals_fit_together()
    ensures
        HANDSHAKE_TIMEOUT_SECS == 10,
        KEEPALIVE_INTERVAL_SECS == 20,
        RX_CHECK_INTERVAL_SECS == 5,
        RX_SILENCE_NS == 4 * 60 * 1_000_000_000,
        REKEY_INTERVAL_SECS == 30 * 60,
        12 * KEEPALIVE_INTERVAL_SECS * 1_000_000_000 <= RX_SILENCE_NS,
        RX_SILENCE_NS < REKEY_INTERVAL_SECS * 1_000_000_000,
        BUF_SIZE == 1500,
        CHANNEL_SIZE == 8192,
        SOCKET_BUFFER == 4 * 1024 * 1024,
{
}

} // verus!

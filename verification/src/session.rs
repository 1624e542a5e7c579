//! The course of a tunnel session, from the look-up of the server to the end.
use crate::error::{Error, Failure};
use crate::tunnel::{
    choose_address, first_v4, handshake_timeout, reacts, silence, wrapped, Address, Link,
    LinkEvent, Reaction, Response,
};
use vstd::prelude::*;

verus! {

/// How far a session has come.
#[derive(Debug, Clone, Copy, PartialEq, Eq, Structural)]
pub enum Session {
    /// The server is being looked up.
    Resolving,
    /// The socket and the device are being set up.
    Preparing,
    /// The first packet is being sent.
    Greeting,
    /// The answer of the server is awaited.
    Awaiting,
    /// The answer is being checked, and the keys are renewed.
    Checking,
    /// The tasks of the session are being started.
    Starting(Link),
    /// Packets go through.
    Running(Link),
    /// The session is over. What it has sent to the server and written to the device stays
    /// counted.
    Over { upload_bytes: u64, download_bytes: u64 },
}

/// What happens in the course of a session.
pub enum SessionEvent {
    /// The addresses that the name of the server stands for, or why there are none.
    Resolved(Result<Vec<Address>, String>),
    /// The socket and the device are ready, or cannot be used.
    Prepared(Result<(), Error>),
    /// The first packet was sent, or could not be.
    Greeted(Result<(), Error>),
    /// The answer came or could not be received; nothing came in time.
    Answered(Option<Result<(), String>>),
    /// The answer was accepted, or refused.
    Checked { now_ns: u64, result: Result<(), Error> },
    /// The tasks of the session were started, or could not be.
    Started(Result<(), String>),
    /// Something happened while packets go through.
    Link(LinkEvent),
}

/// What is done next in a session.
pub enum SessionAction {
    /// Set up a socket for this server.
    Prepare(Address),
    /// Send the first packet.
    Greet,
    /// Wait for the answer.
    Await,
    /// Check the answer.
    Check,
    /// Start the tasks.
    Start,
    /// Wait for the next event.
    Wait,
    /// Write the data to the device.
    Write,
    /// End; `abort_tasks` says whether the tasks are stopped first.
    End { result: Result<(), Error>, abort_tasks: bool },
    /// Nothing: the event does not belong to the stage.
    Ignore,
}

/// The model of what is done next: an end has no failure if it is a clean one.
pub enum SessionReply {
    Prepare(Address),
    Greet,
    Await,
    Check,
    Start,
    Wait,
    Write,
    End(Option<Failure>, bool),
    Ignore,
}

impl View for SessionAction {
    type V = SessionReply;

    open spec fn view(&self) -> SessionReply {
        match *self {
            SessionAction::Prepare(address) => SessionReply::Prepare(address),
            SessionAction::Greet => SessionReply::Greet,
            SessionAction::Await => SessionReply::Await,
            SessionAction::Check => SessionReply::Check,
            SessionAction::Start => SessionReply::Start,
            SessionAction::Wait => SessionReply::Wait,
            SessionAction::Write => SessionReply::Write,
            SessionAction::End { result, abort_tasks } => SessionReply::End(
                match result {
                    Ok(_) => None,
                    Err(error) => Some(error@),
                },
                abort_tasks,
            ),
            SessionAction::Ignore => SessionReply::Ignore,
        }
    }
}

/// The bytes that a session has sent to the server and written to the device.
pub open spec fn traffic(session: Session) -> (u64, u64) {
    match session {
        Session::Starting(link) => (link.upload_bytes, link.download_bytes),
        Session::Running(link) => (link.upload_bytes, link.download_bytes),
        Session::Over { upload_bytes, download_bytes } => (upload_bytes, download_bytes),
        _ => (0, 0),
    }
}

/// A session after its end.
pub open spec fn ended(session: Session) -> Session {
    Session::Over { upload_bytes: traffic(session).0, download_bytes: traffic(session).1 }
}

/// A session that fails before its tasks run.
pub open spec fn failed(session: Session, failure: Failure) -> (Session, SessionReply) {
    (ended(session), SessionReply::End(Some(failure), false))
}

/// The stage and the action that follow an event.
pub open spec fn proceeds(session: Session, event: SessionEvent) -> (Session, SessionReply) {
    match (session, event) {
        (Session::Resolving, SessionEvent::Resolved(Ok(list))) => match first_v4(list@, 0) {
            Some(address) => (Session::Preparing, SessionReply::Prepare(address)),
            None => failed(session, Failure::Session("Cannot resolve server host to IPv4"@)),
        },
        (Session::Resolving, SessionEvent::Resolved(Err(text))) => failed(
            session,
            Failure::Io(text@),
        ),
        (Session::Preparing, SessionEvent::Prepared(Ok(_))) => (
            Session::Greeting,
            SessionReply::Greet,
        ),
        (Session::Preparing, SessionEvent::Prepared(Err(error))) => failed(session, error@),
        (Session::Greeting, SessionEvent::Greeted(Ok(_))) => (
            Session::Awaiting,
            SessionReply::Await,
        ),
        (Session::Greeting, SessionEvent::Greeted(Err(error))) => failed(session, error@),
        (Session::Awaiting, SessionEvent::Answered(Some(Ok(_)))) => (
            Session::Checking,
            SessionReply::Check,
        ),
        (Session::Awaiting, SessionEvent::Answered(Some(Err(text)))) => failed(
            session,
            Failure::Io(text@),
        ),
        (Session::Awaiting, SessionEvent::Answered(None)) => failed(
            session,
            Failure::Session("Handshake timeout (10 s)"@),
        ),
        (Session::Checking, SessionEvent::Checked { now_ns, result: Ok(_) }) => (
            Session::Starting(
                Link { last_rx_ns: now_ns, upload_bytes: 0, download_bytes: 0, writing: 0 },
            ),
            SessionReply::Start,
        ),
        (Session::Checking, SessionEvent::Checked { result: Err(error), .. }) => failed(
            session,
            error@,
        ),
        (Session::Starting(link), SessionEvent::Started(Ok(_))) => (
            Session::Running(link),
            SessionReply::Wait,
        ),
        (Session::Starting(_), SessionEvent::Started(Err(text))) => failed(
            session,
            Failure::Io(text@),
        ),
        (Session::Running(link), SessionEvent::Link(event)) => {
            let (after, response) = reacts(link, event);
            match response {
                Response::Wait => (Session::Running(after), SessionReply::Wait),
                Response::Write => (Session::Running(after), SessionReply::Write),
                Response::End(failure, abort_tasks) => (
                    ended(Session::Running(after)),
                    SessionReply::End(failure, abort_tasks),
                ),
            }
        },
        _ => (session, SessionReply::Ignore),
    }
}

/// A session after data was sent to the server. A task that was not stopped at the end may
/// still send.
pub open spec fn counted(session: Session, len: nat) -> Session {
    match session {
        Session::Starting(link) => Session::Starting(
            Link { upload_bytes: wrapped(link.upload_bytes, len as u64), ..link },
        ),
        Session::Running(link) => Session::Running(
            Link { upload_bytes: wrapped(link.upload_bytes, len as u64), ..link },
        ),
        Session::Over { upload_bytes, download_bytes } => Session::Over {
            upload_bytes: wrapped(upload_bytes, len as u64),
            download_bytes,
        },
        _ => session,
    }
}

/// The end of a session that fails before its tasks run.
fn fail(session: &mut Session, error: Error) -> (r: SessionAction)
    ensures
        (*final(session), r@) == failed(*old(session), error@),
{
    session.end();
    SessionAction::End { result: Err(error), abort_tasks: false }
}

impl Session {
    /// A session that looks its server up.
    pub fn new() -> (r: Self)
        ensures
            r == Session::Resolving,
    {
        Session::Resolving
    }

    /// Ends the session.
    fn end(&mut self)
        ensures
            *final(self) == ended(*old(self)),
    {
        let (upload_bytes, download_bytes) = self.traffic();
        *self = Session::Over { upload_bytes, download_bytes };
    }

    /// Takes an event in and says what is done next.
    pub fn advance(&mut self, event: SessionEvent) -> (r: SessionAction)
        ensures
            (*final(self), r@) == proceeds(*old(self), event),
    {
        match (*self, event) {
            (Session::Resolving, SessionEvent::Resolved(Ok(list))) => {
                match choose_address(&list) {
                    Ok(address) => {
                        *self = Session::Preparing;
                        SessionAction::Prepare(address)
                    },
                    Err(error) => fail(self, error),
                }
            },
            (Session::Resolving, SessionEvent::Resolved(Err(text))) => fail(self, Error::Io(text)),
            (Session::Preparing, SessionEvent::Prepared(Ok(_))) => {
                *self = Session::Greeting;
                SessionAction::Greet
            },
            (Session::Preparing, SessionEvent::Prepared(Err(error))) => fail(self, error),
            (Session::Greeting, SessionEvent::Greeted(Ok(_))) => {
                *self = Session::Awaiting;
                SessionAction::Await
            },
            (Session::Greeting, SessionEvent::Greeted(Err(error))) => fail(self, error),
            (Session::Awaiting, SessionEvent::Answered(Some(Ok(_)))) => {
                *self = Session::Checking;
                SessionAction::Check
            },
            (Session::Awaiting, SessionEvent::Answered(Some(Err(text)))) => {
                fail(self, Error::Io(text))
            },
            (Session::Awaiting, SessionEvent::Answered(None)) => fail(self, handshake_timeout()),
            (Session::Checking, SessionEvent::Checked { now_ns, result: Ok(_) }) => {
                *self = Session::Starting(Link::new(now_ns));
                SessionAction::Start
            },
            (Session::Checking, SessionEvent::Checked { result: Err(error), .. }) => {
                fail(self, error)
            },
            (Session::Starting(link), SessionEvent::Started(Ok(_))) => {
                *self = Session::Running(link);
                SessionAction::Wait
            },
            (Session::Starting(_), SessionEvent::Started(Err(text))) => {
                fail(self, Error::Io(text))
            },
            (Session::Running(running), SessionEvent::Link(event)) => {
                let mut link = running;
                match link.advance(event) {
                    Reaction::Wait => {
                        *self = Session::Running(link);
                        SessionAction::Wait
                    },
                    Reaction::Write => {
                        *self = Session::Running(link);
                        SessionAction::Write
                    },
                    Reaction::End { result, abort_tasks } => {
                        *self = Session::Running(link);
                        self.end();
                        SessionAction::End { result, abort_tasks }
                    },
                }
            },
            _ => SessionAction::Ignore,
        }
    }

    /// Counts data that was sent to the server.
    pub fn count_sent(&mut self, len: usize)
        ensures
            *final(self) == counted(*old(self), len as nat),
    {
        match *self {
            Session::Starting(started) => {
                let mut link = started;
                link.count_sent(len);
                *self = Session::Starting(link);
            },
            Session::Running(running) => {
                let mut link = running;
                link.count_sent(len);
                *self = Session::Running(link);
            },
            Session::Over { upload_bytes, download_bytes } => {
                *self = Session::Over {
                    upload_bytes: upload_bytes.wrapping_add(len as u64),
                    download_bytes,
                };
            },
            _ => {},
        }
    }

    /// The bytes that were sent to the server and written to the device, the end of the
    /// session notwithstanding.
    pub fn traffic(&self) -> (r: (u64, u64))
        ensures
            r == traffic(*self),
    {
        match *self {
            Session::Starting(link) => (link.upload_bytes, link.download_bytes),
            Session::Running(link) => (link.upload_bytes, link.download_bytes),
            Session::Over { upload_bytes, download_bytes } => (upload_bytes, download_bytes),
            _ => (0, 0),
        }
    }

    /// The nanoseconds since the last datagram of a running session; none of any other.
    pub fn silence_ns(&self, now_ns: u64) -> (r: u64)
        ensures
            r == match *self {
                Session::Running(link) => silence(link, now_ns),
                _ => 0,
            },
    {
        match *self {
            Session::Running(link) => {
                if now_ns >= link.last_rx_ns {
                    now_ns - link.last_rx_ns
                } else {
                    0
                }
            },
            _ => 0,
        }
    }
}

/// The stage of a session after a sequence of events.
pub open spec fn session_after(events: Seq<SessionEvent>) -> Session
    decreases events.len(),
{
    if events.len() == 0 {
        Session::Resolving
    } else {
        proceeds(session_after(events.drop_last()), events.last()).0
    }
}

/// What is done at the last of a sequence of events.
pub open spec fn done_at(events: Seq<SessionEvent>) -> SessionReply {
    proceeds(session_after(events.drop_last()), events.last()).1
}

/// A session ends without a failure only when its keys are due to be renewed while
/// packets go through; every other end is a failure.
pub proof fn law_session_ends_cleanly_only_for_rekey(session: Session, event: SessionEvent)
    ensures
        proceeds(session, event).1 == SessionReply::End(None, true) <==> (session is Running
            && event matches SessionEvent::Link(LinkEvent::RekeyDue)),
        proceeds(session, event).1 != SessionReply::End(None, false),
{
}

/// The server has answered, and the answer was accepted.
pub open spec fn was_accepted(events: Seq<SessionEvent>) -> bool {
    exists|i: int, k: int|
        0 <= i < k < events.len() && (#[trigger] events[i] matches SessionEvent::Answered(
            Some(Ok(_)),
        )) && (#[trigger] events[k] matches SessionEvent::Checked { result: Ok(_), .. })
}

/// The server has answered.
spec fn was_answered(events: Seq<SessionEvent>) -> bool {
    exists|i: int|
        0 <= i < events.len() && (#[trigger] events[i] matches SessionEvent::Answered(Some(Ok(_))))
}

/// A session runs only once its server was accepted.
proof fn lemma_accepted(events: Seq<SessionEvent>)
    ensures
        session_after(events) is Checking ==> was_answered(events),
        session_after(events) is Starting ==> was_accepted(events),
        session_after(events) is Running ==> was_accepted(events),
    decreases events.len(),
{
    if events.len() > 0 {
        let front = events.drop_last();
        lemma_accepted(front);
        let last = events.len() - 1;
        assert(events[last] == events.last());
        assert forall|i: int| 0 <= i < front.len() implies #[trigger] front[i] == events[i] by {}
        if was_accepted(front) {
            let (i, k) = choose|i: int, k: int|
                0 <= i < k < front.len() && (#[trigger] front[i] matches SessionEvent::Answered(
                    Some(Ok(_)),
                )) && (#[trigger] front[k] matches SessionEvent::Checked { result: Ok(_), .. });
            assert(events[i] == front[i] && events[k] == front[k]);
        }
        if was_answered(front) {
            let i = choose|i: int|
                0 <= i < front.len() && (#[trigger] front[i] matches SessionEvent::Answered(
                    Some(Ok(_)),
                ));
            assert(events[i] == front[i]);
        }
    }
}

/// Nothing is written to the device, and no task of the session is started, before the
/// server has answered and its answer was accepted.
pub proof fn law_no_traffic_before_handshake(events: Seq<SessionEvent>)
    requires
        events.len() > 0,
        done_at(events) is Write || done_at(events) is Start,
    ensures
        was_accepted(events),
{
    lemma_accepted(events);
}

/// A session ends without a failure only after the server has answered and its answer was
/// accepted.
pub proof fn law_clean_end_needs_handshake(events: Seq<SessionEvent>)
    requires
        events.len() > 0,
        done_at(events) == SessionReply::End(None, true),
    ensures
        was_accepted(events.drop_last()),
{
    lemma_accepted(events.drop_last());
}

/// After its end nothing more is done in a session.
pub proof fn law_over_is_final(session: Session, event: SessionEvent)
    requires
        session is Over,
    ensures
        proceeds(session, event) == (session, SessionReply::Ignore),
{
}

/// An end leaves the session over, whatever it was.
pub proof fn law_ends_are_final(session: Session, event: SessionEvent)
    ensures
        proceeds(session, event).1 is End ==> proceeds(session, event).0 is Over,
{
}

/// No event takes back what was counted, the end of a session least of all: what was
/// written to the device is added, and everything else leaves the counts as they are.
pub proof fn law_traffic_is_kept(session: Session, event: SessionEvent)
    ensures
        ({
            let after = traffic(proceeds(session, event).0);
            &&& after.0 == traffic(session).0
            &&& after.1 == match (session, event) {
                (Session::Running(link), SessionEvent::Link(LinkEvent::Written(Ok(_)))) => wrapped(
                    link.download_bytes,
                    link.writing,
                ),
                _ => traffic(session).1,
            }
            &&& proceeds(session, event).1 is End ==> after == traffic(session)
        }),
{
}

/// What is sent to the server is counted from the start of the tasks on, also after the end.
pub proof fn law_sent_data_is_counted(session: Session, len: nat)
    requires
        session is Starting || session is Running || session is Over,
    ensures
        traffic(counted(session, len)) == (
            wrapped(traffic(session).0, len as u64),
            traffic(session).1,
        ),
{
}

/// A session that meets no failure looks its server up, prepares a socket for the first IPv4
/// address, greets the server, waits for the answer, checks it, starts its tasks and then
/// waits, in this order; its counts start at zero and its silence at the check.
pub proof fn law_session_takes_its_stages_in_order(list: Vec<Address>, server: Address, now_ns: u64)
    requires
        first_v4(list@, 0) == Some(server),
    ensures
        proceeds(Session::Resolving, SessionEvent::Resolved(Ok(list))) == (
            Session::Preparing,
            SessionReply::Prepare(server),
        ),
        proceeds(Session::Preparing, SessionEvent::Prepared(Ok(()))) == (
            Session::Greeting,
            SessionReply::Greet,
        ),
        proceeds(Session::Greeting, SessionEvent::Greeted(Ok(()))) == (
            Session::Awaiting,
            SessionReply::Await,
        ),
        proceeds(Session::Awaiting, SessionEvent::Answered(Some(Ok(())))) == (
            Session::Checking,
            SessionReply::Check,
        ),
        ({
            let (started, reply) = proceeds(
                Session::Checking,
                SessionEvent::Checked { now_ns, result: Ok(()) },
            );
            &&& reply == SessionReply::Start
            &&& traffic(started) == (0u64, 0u64)
            &&& started matches Session::Starting(link) && link.last_rx_ns == now_ns
            &&& proceeds(started, SessionEvent::Started(Ok(()))) == (
                Session::Running(started->Starting_0),
                SessionReply::Wait,
            )
        }),
{
}

/// A failure at any stage before packets go through ends the session with what it reports,
/// and no task is stopped, for none runs.
pub proof fn law_early_failures_end_session(
    text: String,
    error: Error,
    now_ns: u64,
    link: Link,
    list: Vec<Address>,
)
    requires
        first_v4(list@, 0) is None,
    ensures
        proceeds(Session::Resolving, SessionEvent::Resolved(Err(text))).1 == SessionReply::End(
            Some(Failure::Io(text@)),
            false,
        ),
        proceeds(Session::Resolving, SessionEvent::Resolved(Ok(list))).1 == SessionReply::End(
            Some(Failure::Session("Cannot resolve server host to IPv4"@)),
            false,
        ),
        proceeds(Session::Preparing, SessionEvent::Prepared(Err(error))).1 == SessionReply::End(
            Some(error@),
            false,
        ),
        proceeds(Session::Greeting, SessionEvent::Greeted(Err(error))).1 == SessionReply::End(
            Some(error@),
            false,
        ),
        proceeds(Session::Awaiting, SessionEvent::Answered(Some(Err(text)))).1
            == SessionReply::End(Some(Failure::Io(text@)), false),
        proceeds(Session::Awaiting, SessionEvent::Answered(None)).1 == SessionReply::End(
            Some(Failure::Session("Handshake timeout (10 s)"@)),
            false,
        ),
        proceeds(Session::Checking, SessionEvent::Checked { now_ns, result: Err(error) }).1
            == SessionReply::End(Some(error@), false),
        proceeds(Session::Starting(link), SessionEvent::Started(Err(text))).1
            == SessionReply::End(Some(Failure::Io(text@)), false),
{
}

/// While packets go through, a session does what its link does; an event of another stage
/// changes nothing.
pub proof fn law_running_session_follows_its_link(link: Link, event: LinkEvent, session: Session)
    requires
        !(session is Running),
    ensures
        ({
            let (after, response) = reacts(link, event);
            let (next, reply) = proceeds(Session::Running(link), SessionEvent::Link(event));
            match response {
                Response::Wait => next == Session::Running(after) && reply == SessionReply::Wait,
                Response::Write => next == Session::Running(after) && reply == SessionReply::Write,
                Response::End(failure, abort) => next is Over && reply == SessionReply::End(
                    failure,
                    abort,
                ),
            }
        }),
        proceeds(session, SessionEvent::Link(event)) == (session, SessionReply::Ignore),
{
}

} // verus!

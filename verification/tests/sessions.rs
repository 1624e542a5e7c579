use aivpn::error::Error;
use aivpn::packet::{Direction, PacketMetadata};
use aivpn::record_cmd::{
    handle_recording_ack, handle_recording_complete, handle_recording_failed,
};
use aivpn::recording::RecordingManager;
use aivpn::session::{Session, SessionAction, SessionEvent};
use aivpn::tunnel::{
    choose_address, destination, forwards, handshake_timeout, network_port, read_failure,
    upload_failure, Address, Inbound, Link, LinkEvent, Reaction, SetupAction, SetupEvent,
    SetupStage, RX_SILENCE_NS,
};

fn packet(direction: Direction, size: u16, entropy: f32) -> PacketMetadata {
    PacketMetadata {
        direction,
        size,
        iat_ms: 0,
        header_prefix: vec![],
        entropy: entropy.to_bits(),
        timestamp_ns: 0,
    }
}

#[test]
fn recordings_keep_their_packets_in_order() {
    let mut manager = RecordingManager::new();
    let id = [1u8; 16];
    assert!(!manager.is_recording(&id));
    manager.start(id, "zoom".to_string(), "admin".to_string(), 100);
    assert!(manager.is_recording(&id));
    for i in 0..500 {
        manager.record_packet(id, packet(Direction::Uplink, i, 7.0));
    }
    let (service, packets) = manager.stop(id, 160).unwrap();
    assert_eq!(service, "zoom");
    let sizes: Vec<u16> = packets.iter().map(|p| p.size).collect();
    assert_eq!(sizes, (0..500).collect::<Vec<u16>>());
    assert!(!manager.is_recording(&id));
    assert!(manager.stop(id, 200).is_none());
}

#[test]
fn short_recordings_are_dropped() {
    let id = [1u8; 16];
    for (count, secs) in [(499, 60), (500, 59), (0, 1000)] {
        let mut manager = RecordingManager::new();
        manager.start(id, "s".to_string(), "a".to_string(), 100);
        for _ in 0..count {
            manager.record_packet(id, packet(Direction::Uplink, 1, 7.0));
        }
        assert!(manager.stop(id, 100 + secs).is_none());
        assert!(!manager.is_recording(&id));
    }
}

#[test]
fn sessions_do_not_mix() {
    let (a, b) = ([1u8; 16], [2u8; 16]);
    let mut manager = RecordingManager::new();
    manager.record_packet(a, packet(Direction::Uplink, 1, 7.0));
    assert!(manager.status(&a, 0).is_none());
    manager.start(a, "first".to_string(), "k".to_string(), 10);
    manager.start(b, "second".to_string(), "k".to_string(), 20);
    manager.record_packet(a, packet(Direction::Uplink, 1, 6.0));
    manager.record_packet(a, packet(Direction::Downlink, 2, 7.5));
    manager.record_packet(a, packet(Direction::Downlink, 3, 7.5));
    let status = manager.status(&a, 45).unwrap();
    assert_eq!(format!("{:?}", status.clone()), format!("{:?}", status));
    assert_eq!(status.service, "first");
    assert_eq!(status.total_packets, 3);
    assert_eq!(status.duration_secs, 35);
    assert_eq!(status.uplink_count, 1);
    assert_eq!(status.downlink_count, 2);
    assert_eq!(f64::from_bits(status.mean_entropy), 7.0);
    let other = manager.status(&b, 5).unwrap();
    assert_eq!(other.total_packets, 0);
    assert_eq!(other.duration_secs, 0);
    assert_eq!(f64::from_bits(other.mean_entropy), 0.0);
    let mut active = manager.active_sessions();
    active.sort();
    assert_eq!(active, vec![a, b]);
    manager.start(a, "again".to_string(), "k".to_string(), 50);
    assert_eq!(manager.status(&a, 50).unwrap().total_packets, 0);
    assert_eq!(manager.active_sessions().len(), 2);
}

#[test]
fn acknowledgements_are_shown() {
    let mut id = [0u8; 16];
    id[0] = 0xab;
    id[1] = 0x01;
    id[3] = 0xff;
    let started = handle_recording_ack(&id, "started");
    assert_eq!(started.log, "📹 Recording started (session: ab0100ff...)");
    assert_eq!(
        started.lines,
        vec![
            "Recording started. Use the service normally.",
            "Run 'aivpn record stop' when done."
        ]
    );
    let analyzing = handle_recording_ack(&id, "analyzing");
    assert_eq!(analyzing.log, "🔍 Recording stopped, server analyzing...");
    assert_eq!(analyzing.lines, vec!["Recording stopped. Server is analyzing traffic..."]);
    let other = handle_recording_ack(&id, "paused");
    assert_eq!(other.log, "Recording status: paused");
    assert_eq!(other.lines, vec!["Recording status: paused"]);
}

#[test]
fn outcomes_are_shown() {
    let done = handle_recording_complete("zoom", "auto_zoom_v1", "0.85");
    assert_eq!(done.log, "✅ Mask generated for 'zoom'");
    assert_eq!(
        done.lines,
        vec![
            "",
            "✅ Mask generated and tested!",
            "",
            "   Mask ID:     auto_zoom_v1",
            "   Service:     zoom",
            "   Confidence:  0.85",
            "",
            "   Broadcasting to all clients...",
        ]
    );
    let failed = handle_recording_failed("too short");
    assert_eq!(failed.log, "❌ Recording failed: too short");
    assert_eq!(failed.lines.len(), 8);
    assert_eq!(failed.lines[1], "❌ Recording failed!");
    assert_eq!(failed.lines[2], "   Reason: too short");
    assert_eq!(failed.lines[5], "   - Use the service for at least 1 minute");
    assert_eq!(failed.lines[7], "   - Need at least 500 packets captured");
}

#[test]
fn servers_are_reached_over_ipv4() {
    let v4 = Address::V4([10, 0, 0, 1], 443);
    let later = Address::V4([10, 0, 0, 2], 443);
    assert_eq!(choose_address(&vec![Address::V6, v4, later]), Ok(v4));
    assert_eq!(
        choose_address(&vec![Address::V6]),
        Err(Error::Session("Cannot resolve server host to IPv4".to_string()))
    );
    assert_eq!(destination("vpn.example", 443), "vpn.example:443");
    assert_eq!(destination("h", 0), "h:0");
    assert_eq!(destination("h", 65535), "h:65535");
    assert_eq!(network_port(443), [1, 187]);
    assert_eq!(network_port(443), 443u16.to_be_bytes());
}

#[test]
fn only_ipv4_packets_are_forwarded() {
    assert!(forwards(&[0x45, 0, 0]));
    assert!(!forwards(&[0x60, 0, 0]));
    assert!(!forwards(&[]));
}

#[test]
fn a_session_ends_cleanly_only_for_new_keys() {
    let mut link = Link::new(7);
    assert!(matches!(
        link.advance(LinkEvent::RekeyDue),
        Reaction::End { result: Ok(()), abort_tasks: true }
    ));
    match link.advance(LinkEvent::ReceiveFailed("gone".to_string())) {
        Reaction::End { result, abort_tasks } => {
            assert_eq!(result, Err(Error::Io("gone".to_string())));
            assert!(!abort_tasks);
        }
        _ => panic!("the session went on"),
    }
    match link.advance(LinkEvent::TaskFailed(Some("Upload pipeline: x".to_string()))) {
        Reaction::End { result, abort_tasks } => {
            assert_eq!(result, Err(Error::Session("Upload pipeline: x".to_string())));
            assert!(abort_tasks);
        }
        _ => panic!("the session went on"),
    }
    assert!(matches!(link.advance(LinkEvent::TaskFailed(None)), Reaction::Wait));
}

#[test]
fn data_is_written_and_counted() {
    let mut link = Link::new(0);
    let data = LinkEvent::Received { now_ns: 5, inbound: Inbound::Data(100) };
    assert!(matches!(link.advance(data), Reaction::Write));
    assert_eq!(link.download_bytes, 0);
    assert!(matches!(link.advance(LinkEvent::Written(Ok(()))), Reaction::Wait));
    assert_eq!(link.download_bytes, 100);
    assert_eq!(link.last_rx_ns, 5);
    for (t, inbound) in [(6, Inbound::Data(0)), (7, Inbound::Other), (8, Inbound::Unreadable)] {
        let event = LinkEvent::Received { now_ns: t, inbound };
        assert!(matches!(link.advance(event), Reaction::Wait));
        assert_eq!(link.last_rx_ns, t);
    }
    assert_eq!(link.download_bytes, 100);
    match link.advance(LinkEvent::Written(Err("closed".to_string()))) {
        Reaction::End { result, .. } => assert_eq!(result, Err(Error::Io("closed".to_string()))),
        _ => panic!("the session went on"),
    }
    link.count_sent(40);
    link.count_sent(2);
    assert_eq!(link.upload_bytes, 42);
    link.upload_bytes = u64::MAX;
    link.count_sent(3);
    assert_eq!(link.upload_bytes, 2);
}

#[test]
fn silence_of_more_than_four_minutes_ends_a_session() {
    let mut link = Link::new(10);
    let at = |now_ns: u64| LinkEvent::SilenceCheck { now_ns, printed: "241s".to_string() };
    assert!(matches!(link.advance(at(10 + RX_SILENCE_NS)), Reaction::Wait));
    assert!(matches!(link.advance(at(0)), Reaction::Wait));
    match link.advance(at(11 + RX_SILENCE_NS)) {
        Reaction::End { result, abort_tasks } => {
            assert_eq!(result, Err(Error::Session("No RX for 241s — reconnecting".to_string())));
            assert!(abort_tasks);
        }
        _ => panic!("the session went on"),
    }
}

#[test]
fn messages_of_the_tasks() {
    assert_eq!(handshake_timeout(), Error::Session("Handshake timeout (10 s)".to_string()));
    assert_eq!(read_failure("eof"), "TUN read failed: eof");
    assert_eq!(upload_failure("eof"), "Upload pipeline: eof");
}

#[test]
fn sockets_are_protected_before_they_are_connected() {
    let mut stage = SetupStage::Opening;
    assert!(matches!(stage.advance(true, SetupEvent::Opened(Ok(5))), SetupAction::Attach));
    assert!(matches!(stage.advance(true, SetupEvent::Connected(Ok(()))), SetupAction::Ignore));
    assert!(matches!(stage.advance(true, SetupEvent::Attached(Ok(()))), SetupAction::Protect(5)));
    assert!(matches!(stage.advance(true, SetupEvent::Protected(true)), SetupAction::Connect(5)));
    assert!(matches!(stage.advance(true, SetupEvent::Connected(Ok(()))), SetupAction::Ready(5)));
    assert_eq!(stage, SetupStage::Over);
}

#[test]
fn sockets_that_cannot_be_used_are_closed() {
    let mut stage = SetupStage::Protecting(5);
    match stage.advance(true, SetupEvent::Protected(false)) {
        SetupAction::CloseAndFail(fd, error) => {
            assert_eq!(fd, 5);
            assert_eq!(
                error,
                Error::Session("VpnService.protect() returned false".to_string())
            );
        }
        _ => panic!("not closed"),
    }
    let mut stage = SetupStage::Protecting(6);
    match stage.advance(false, SetupEvent::Protected(true)) {
        SetupAction::CloseAndFail(fd, error) => {
            assert_eq!(fd, 6);
            assert_eq!(
                error,
                Error::Session("Only IPv4 server addresses are supported".to_string())
            );
        }
        _ => panic!("not closed"),
    }
    let mut stage = SetupStage::Connecting(7);
    match stage.advance(true, SetupEvent::Connected(Err("refused".to_string()))) {
        SetupAction::CloseAndFail(fd, error) => {
            assert_eq!(fd, 7);
            assert_eq!(error, Error::Io("refused".to_string()));
        }
        _ => panic!("not closed"),
    }
    let mut stage = SetupStage::Opening;
    match stage.advance(true, SetupEvent::Opened(Err("limit".to_string()))) {
        SetupAction::Fail(error) => assert_eq!(error, Error::Io("limit".to_string())),
        _ => panic!("not refused"),
    }
    let mut stage = SetupStage::Attaching(8);
    match stage.advance(true, SetupEvent::Attached(Err("no vm".to_string()))) {
        SetupAction::Fail(error) => {
            assert_eq!(error, Error::Session("JNI attach: no vm".to_string()))
        }
        _ => panic!("not refused"),
    }
}

fn running_session(now_ns: u64) -> Session {
    let mut session = Session::new();
    let server = Address::V4([10, 0, 0, 1], 443);
    let found = SessionEvent::Resolved(Ok(vec![Address::V6, server]));
    assert!(matches!(session.advance(found), SessionAction::Prepare(a) if a == server));
    assert!(matches!(session.advance(SessionEvent::Prepared(Ok(()))), SessionAction::Greet));
    assert!(matches!(session.advance(SessionEvent::Greeted(Ok(()))), SessionAction::Await));
    assert!(matches!(session.advance(SessionEvent::Answered(Some(Ok(())))), SessionAction::Check));
    let checked = SessionEvent::Checked { now_ns, result: Ok(()) };
    assert!(matches!(session.advance(checked), SessionAction::Start));
    session.count_sent(7);
    assert_eq!(session.traffic(), (7, 0));
    assert!(matches!(session.advance(SessionEvent::Started(Ok(()))), SessionAction::Wait));
    session
}

fn ends_with(action: SessionAction) -> Result<(), Error> {
    match action {
        SessionAction::End { result, .. } => result,
        _ => panic!("the session went on"),
    }
}

#[test]
fn sessions_run_after_the_handshake_until_new_keys_are_due() {
    let mut session = running_session(100);
    assert_eq!(session.silence_ns(130), 30);
    assert_eq!(session.silence_ns(90), 0);
    let data = LinkEvent::Received { now_ns: 150, inbound: Inbound::Data(9) };
    assert!(matches!(session.advance(SessionEvent::Link(data)), SessionAction::Write));
    let written = SessionEvent::Link(LinkEvent::Written(Ok(())));
    assert!(matches!(session.advance(written), SessionAction::Wait));
    session.count_sent(3);
    assert_eq!(session.traffic(), (10, 9));
    let due = session.advance(SessionEvent::Link(LinkEvent::RekeyDue));
    assert!(matches!(due, SessionAction::End { result: Ok(()), abort_tasks: true }));
    assert_eq!(session, Session::Over { upload_bytes: 10, download_bytes: 9 });
    assert_eq!(session.traffic(), (10, 9));
    let late = SessionEvent::Link(LinkEvent::RekeyDue);
    assert!(matches!(session.advance(late), SessionAction::Ignore));
    session.count_sent(3);
    assert_eq!(session.traffic(), (13, 9));
    assert_eq!(session.silence_ns(1_000), 0);
}

#[test]
fn nothing_goes_through_before_the_handshake() {
    let mut session = Session::new();
    let data = LinkEvent::Received { now_ns: 1, inbound: Inbound::Data(9) };
    assert!(matches!(session.advance(SessionEvent::Link(data)), SessionAction::Ignore));
    let checked = SessionEvent::Checked { now_ns: 1, result: Ok(()) };
    assert!(matches!(session.advance(checked), SessionAction::Ignore));
    assert_eq!(session, Session::Resolving);
}

#[test]
fn failures_before_the_handshake_end_a_session() {
    let io = |text: &str| Err(Error::Io(text.to_string()));
    let mut session = Session::Resolving;
    let lost = SessionEvent::Resolved(Err("no such host".to_string()));
    assert_eq!(ends_with(session.advance(lost)), io("no such host"));
    assert_eq!(session, Session::Over { upload_bytes: 0, download_bytes: 0 });

    let mut session = Session::Resolving;
    assert_eq!(
        ends_with(session.advance(SessionEvent::Resolved(Ok(vec![Address::V6])))),
        Err(Error::Session("Cannot resolve server host to IPv4".to_string()))
    );
    let mut session = Session::Preparing;
    let refused = SessionEvent::Prepared(Err(Error::Session("refused".to_string())));
    assert_eq!(ends_with(session.advance(refused)), Err(Error::Session("refused".to_string())));

    let mut session = Session::Greeting;
    let unsent = SessionEvent::Greeted(Err(Error::Crypto("no key".to_string())));
    assert_eq!(ends_with(session.advance(unsent)), Err(Error::Crypto("no key".to_string())));

    let mut session = Session::Awaiting;
    assert_eq!(ends_with(session.advance(SessionEvent::Answered(None))), Err(handshake_timeout()));
    let mut session = Session::Awaiting;
    let broken = SessionEvent::Answered(Some(Err("reset".to_string())));
    assert_eq!(ends_with(session.advance(broken)), io("reset"));

    let mut session = Session::Checking;
    let forged =
        SessionEvent::Checked { now_ns: 0, result: Err(Error::Crypto("forged".to_string())) };
    assert_eq!(ends_with(session.advance(forged)), Err(Error::Crypto("forged".to_string())));

    let mut session = Session::Starting(Link::new(0));
    let unstarted = SessionEvent::Started(Err("too many files".to_string()));
    assert_eq!(ends_with(session.advance(unstarted)), io("too many files"));
}

#[test]
fn a_session_that_fails_keeps_its_counts() {
    let mut session = running_session(100);
    let data = LinkEvent::Received { now_ns: 150, inbound: Inbound::Data(9) };
    session.advance(SessionEvent::Link(data));
    session.advance(SessionEvent::Link(LinkEvent::Written(Ok(()))));
    let more = LinkEvent::Received { now_ns: 160, inbound: Inbound::Data(5) };
    session.advance(SessionEvent::Link(more));
    let full = SessionEvent::Link(LinkEvent::Written(Err("full".to_string())));
    match session.advance(full) {
        SessionAction::End { result, abort_tasks } => {
            assert_eq!(result, Err(Error::Io("full".to_string())));
            assert!(!abort_tasks);
        }
        _ => panic!("the session went on"),
    }
    assert_eq!(session.traffic(), (7, 9));
    session.count_sent(4);
    assert_eq!(session.traffic(), (11, 9));

    let mut session = Session::Starting(Link::new(1));
    session.count_sent(2);
    session.advance(SessionEvent::Started(Err("limit".to_string())));
    assert_eq!(session, Session::Over { upload_bytes: 2, download_bytes: 0 });
}

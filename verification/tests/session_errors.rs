use chat_core::broadcast::{broadcast, Action};
use chat_core::registry::{PeerAddress, Recipient, Registry};
use chat_core::session::{
    accept, interpret, perform, step, step_with, Event, Outcome, Request, Session, SessionError,
    SessionState,
};

fn place(port: u16) -> PeerAddress {
    PeerAddress { ip: 0x0a00_0001, port, v6: false }
}

fn read(text: &str) -> Event {
    Event::Frame(text.as_bytes().to_vec())
}

fn sent(outcome: &Outcome) -> Vec<(u64, String)> {
    let mut all = Vec::new();
    for action in &outcome.actions {
        if let Action::Send { connection, frame } = action {
            all.push((*connection, String::from_utf8(frame.clone()).unwrap()));
        }
    }
    all
}

fn closed(outcome: &Outcome) -> Vec<u64> {
    let mut all = Vec::new();
    for action in &outcome.actions {
        if let Action::Close { connection } = action {
            all.push(*connection);
        }
    }
    all
}

fn member(registry: &mut Registry, connection: u64, name: &str, identity: u128) -> Session {
    let mut session = accept(registry, connection, place(connection as u16)).unwrap();
    let outcome =
        step_with(registry, &mut session, &read(&format!("NEWU {}", name)), identity, b"");
    assert_eq!(outcome.error, None);
    session
}

#[test]
fn unknown_requests_are_answered_and_change_nothing() {
    let mut registry = Registry::new();
    let mut fresh = accept(&mut registry, 1, place(1)).unwrap();
    // Before registration only NEWU with a name is taken.
    for text in ["MESS hi", "EXIT", "NEWU", "newu bob", "HELO", " ", "USER x", "ALIV"] {
        let outcome = step_with(&mut registry, &mut fresh, &read(text), 7, b"");
        assert_eq!(outcome.error, Some(SessionError::UnknownRequest));
        assert_eq!(sent(&outcome), vec![(1, "Unknown Request".to_string())]);
        assert!(closed(&outcome).is_empty());
        assert!(matches!(fresh.state, SessionState::Connected));
        assert_eq!(registry.len(), 1);
        assert!(registry.snapshot().is_empty());
    }
    let mut known = member(&mut registry, 2, "k", 1);
    // After registration NEWU is no longer taken.
    for text in ["NEWU again", "USER x", "mess hi", "exit", "MESSAGE hi"] {
        let outcome = step_with(&mut registry, &mut known, &read(text), 9, b"");
        assert_eq!(outcome.error, Some(SessionError::UnknownRequest));
        assert_eq!(sent(&outcome), vec![(2, "Unknown Request".to_string())]);
        assert!(matches!(known.state, SessionState::Registered { identity: 1, .. }));
        assert_eq!(registry.len(), 2);
        assert_eq!(registry.snapshot().len(), 1);
    }
}

#[test]
fn registration_takes_the_first_argument_as_the_name() {
    let mut registry = Registry::new();
    let mut a = accept(&mut registry, 1, place(1)).unwrap();
    let outcome = step_with(&mut registry, &mut a, &read("NEWU alice in wonderland"), 3, b"");
    assert_eq!(outcome.error, None);
    assert_eq!(registry.snapshot()[0].name, b"alice".to_vec());
    let mut b = accept(&mut registry, 2, place(2)).unwrap();
    let outcome = step_with(&mut registry, &mut b, &read("NEWU  spaced"), 4, b"");
    assert_eq!(outcome.error, None);
    assert_eq!(registry.snapshot()[1].name, Vec::<u8>::new());
    assert_eq!(
        sent(&outcome),
        vec![
            (2, "USER 00000000-0000-0000-0000-000000000004".to_string()),
            (1, "MESS  has entered the channel".to_string()),
        ]
    );
}

#[test]
fn a_stale_identity_fails_the_registration_and_drops_the_connection() {
    let mut registry = Registry::new();
    let _first = member(&mut registry, 1, "first", 10);
    let mut second = accept(&mut registry, 2, place(2)).unwrap();
    let outcome = step_with(&mut registry, &mut second, &read("NEWU second"), 10, b"");
    assert_eq!(outcome.error, Some(SessionError::RegistrationFailed));
    assert!(sent(&outcome).is_empty());
    assert_eq!(closed(&outcome), vec![2]);
    assert!(matches!(second.state, SessionState::Closed));
    assert_eq!(registry.len(), 1);
    assert_eq!(registry.snapshot().len(), 1);
    // There is no second try.
    let outcome = step_with(&mut registry, &mut second, &read("NEWU second"), 11, b"");
    assert!(outcome.actions.is_empty());
    assert_eq!(outcome.error, None);
    assert_eq!(registry.len(), 1);
}

#[test]
fn a_malformed_frame_ends_the_session_without_a_notice() {
    let mut registry = Registry::new();
    let _other = member(&mut registry, 1, "other", 1);
    let mut bad = member(&mut registry, 2, "bad", 2);
    let outcome = step_with(&mut registry, &mut bad, &Event::Frame(vec![b'M', 0xfe]), 0, b"");
    assert_eq!(outcome.error, Some(SessionError::MalformedFrame));
    assert!(sent(&outcome).is_empty());
    assert_eq!(closed(&outcome), vec![2]);
    assert!(matches!(bad.state, SessionState::Closed));
    assert!(!registry.contains_identity(2));
    assert!(registry.contains_identity(1));

    let mut pending = accept(&mut registry, 3, place(3)).unwrap();
    let outcome = step_with(&mut registry, &mut pending, &Event::Frame(vec![0x80]), 0, b"");
    assert_eq!(outcome.error, Some(SessionError::MalformedFrame));
    assert_eq!(closed(&outcome), vec![3]);
    assert_eq!(registry.len(), 1);
}

#[test]
fn a_reset_is_announced_like_a_peer_that_went() {
    let mut registry = Registry::new();
    let _other = member(&mut registry, 1, "other", 1);
    let mut lost = member(&mut registry, 2, "lost", 2);
    let outcome = step_with(&mut registry, &mut lost, &Event::Reset, 0, b"");
    assert_eq!(outcome.error, Some(SessionError::ConnectionReset));
    assert_eq!(sent(&outcome), vec![(1, "MESS lost has left the channel".to_string())]);
    assert_eq!(closed(&outcome), vec![2]);
    assert_eq!(registry.len(), 1);
}

#[test]
fn another_failure_ends_the_session_in_silence() {
    let mut registry = Registry::new();
    let _other = member(&mut registry, 1, "other", 1);
    let mut lost = member(&mut registry, 2, "lost", 2);
    let outcome = step_with(&mut registry, &mut lost, &Event::Failed, 0, b"");
    assert_eq!(outcome.error, Some(SessionError::Io));
    assert!(sent(&outcome).is_empty());
    assert_eq!(closed(&outcome), vec![2]);
    assert!(matches!(lost.state, SessionState::Closed));
    assert_eq!(registry.len(), 1);
}

#[test]
fn a_pending_session_that_ends_is_not_announced() {
    for (event, error) in [
        (Event::Frame(vec![]), SessionError::PeerClosed),
        (Event::Reset, SessionError::ConnectionReset),
        (Event::Failed, SessionError::Io),
    ] {
        let mut registry = Registry::new();
        let _other = member(&mut registry, 1, "other", 1);
        let mut pending = accept(&mut registry, 2, place(2)).unwrap();
        let outcome = step_with(&mut registry, &mut pending, &event, 0, b"");
        assert_eq!(outcome.error, Some(error));
        assert!(sent(&outcome).is_empty());
        assert_eq!(closed(&outcome), vec![2]);
        assert!(matches!(pending.state, SessionState::Closed));
        assert_eq!(registry.len(), 1);
        // The number is free for a new connection.
        assert!(accept(&mut registry, 2, place(2)).is_some());
    }
}

#[test]
fn a_failed_write_costs_nothing_but_the_write() {
    let mut registry = Registry::new();
    let mut a = member(&mut registry, 1, "a", 1);
    let outcome = step_with(&mut registry, &mut a, &Event::WriteFailed, 0, b"");
    assert_eq!(outcome.error, Some(SessionError::WriteFailure));
    assert!(outcome.actions.is_empty());
    assert!(matches!(a.state, SessionState::Registered { identity: 1, .. }));
    assert_eq!(registry.len(), 1);
    let mut p = accept(&mut registry, 2, place(2)).unwrap();
    let outcome = step_with(&mut registry, &mut p, &Event::WriteFailed, 0, b"");
    assert_eq!(outcome.error, Some(SessionError::WriteFailure));
    assert!(matches!(p.state, SessionState::Connected));
    assert_eq!(registry.len(), 2);
}

#[test]
fn nothing_is_done_for_a_closed_session() {
    let mut registry = Registry::new();
    let _other = member(&mut registry, 1, "other", 1);
    let mut a = member(&mut registry, 2, "a", 2);
    let outcome = step_with(&mut registry, &mut a, &read("EXIT 2"), 0, b"");
    assert_eq!(closed(&outcome), vec![2]);
    let acknowledgments =
        sent(&outcome).iter().filter(|(to, text)| *to == 2 && text == "EXIT").count();
    assert_eq!(acknowledgments, 1);
    for event in [
        read("EXIT"),
        read("MESS hi"),
        read("NEWU a"),
        Event::Frame(vec![]),
        Event::Frame(vec![0xff]),
        Event::Reset,
        Event::Failed,
        Event::WriteFailed,
    ] {
        let outcome = step_with(&mut registry, &mut a, &event, 50, b"T");
        assert!(outcome.actions.is_empty());
        assert_eq!(outcome.error, None);
        assert!(matches!(a.state, SessionState::Closed));
        assert_eq!(registry.len(), 1);
        let outcome = step(&mut registry, &mut a, &event);
        assert!(outcome.actions.is_empty());
        assert_eq!(outcome.error, None);
    }
}

#[test]
fn interpret_reads_the_event_in_the_state() {
    let fresh = Session { connection: 1, address: place(1), state: SessionState::Connected };
    let known = Session {
        connection: 2,
        address: place(2),
        state: SessionState::Registered { identity: 5, name: b"k".to_vec() },
    };
    let over = Session { connection: 3, address: place(3), state: SessionState::Closed };
    match interpret(&fresh, &read("NEWU bob")) {
        Request::Register { name } => assert_eq!(name, b"bob".to_vec()),
        other => panic!("{:?}", other),
    }
    assert!(matches!(interpret(&fresh, &read("MESS x")), Request::Reject));
    match interpret(&known, &read("MESS a  b ")) {
        Request::Say { text } => assert_eq!(text, b"a  b".to_vec()),
        other => panic!("{:?}", other),
    }
    assert!(matches!(interpret(&known, &read("EXIT")), Request::Leave));
    assert!(matches!(interpret(&known, &read("NEWU x")), Request::Reject));
    assert!(matches!(
        interpret(&known, &Event::Frame(vec![0; 4])),
        Request::Drop { cause: SessionError::PeerClosed, announce: true }
    ));
    assert!(matches!(
        interpret(&known, &Event::Frame(vec![0xff])),
        Request::Drop { cause: SessionError::MalformedFrame, announce: false }
    ));
    assert!(matches!(
        interpret(&fresh, &Event::Reset),
        Request::Drop { cause: SessionError::ConnectionReset, announce: true }
    ));
    assert!(matches!(
        interpret(&fresh, &Event::Failed),
        Request::Drop { cause: SessionError::Io, announce: false }
    ));
    assert!(matches!(
        interpret(&fresh, &Event::WriteFailed),
        Request::Ignore { error: Some(SessionError::WriteFailure) }
    ));
    assert!(matches!(interpret(&over, &read("NEWU bob")), Request::Ignore { error: None }));
    assert!(matches!(interpret(&over, &Event::Reset), Request::Ignore { error: None }));
}

#[test]
fn perform_rejects_what_the_state_does_not_take() {
    let mut registry = Registry::new();
    let mut fresh = accept(&mut registry, 1, place(1)).unwrap();
    let outcome =
        perform(&mut registry, &mut fresh, Request::Say { text: b"x".to_vec() }, 0, b"");
    assert_eq!(outcome.error, Some(SessionError::UnknownRequest));
    let outcome = perform(&mut registry, &mut fresh, Request::Leave, 0, b"");
    assert_eq!(outcome.error, Some(SessionError::UnknownRequest));
    assert!(matches!(fresh.state, SessionState::Connected));
    let mut known = member(&mut registry, 2, "k", 1);
    let outcome =
        perform(&mut registry, &mut known, Request::Register { name: b"z".to_vec() }, 9, b"");
    assert_eq!(outcome.error, Some(SessionError::UnknownRequest));
    assert_eq!(sent(&outcome), vec![(2, "Unknown Request".to_string())]);
    assert_eq!(registry.snapshot()[0].name, b"k".to_vec());
}

#[test]
fn step_registers_under_a_time_ordered_identity() {
    let mut registry = Registry::new();
    let mut a = accept(&mut registry, 1, place(1)).unwrap();
    let outcome = step(&mut registry, &mut a, &read("NEWU alice"));
    assert_eq!(outcome.error, None);
    let all = sent(&outcome);
    assert_eq!(all.len(), 1);
    assert_eq!(all[0].0, 1);
    let text = all[0].1.as_bytes();
    assert_eq!(&text[..5], b"USER ");
    let written = &text[5..];
    assert_eq!(written.len(), 36);
    for (i, b) in written.iter().enumerate() {
        if i == 8 || i == 13 || i == 18 || i == 23 {
            assert_eq!(*b, b'-');
        } else {
            assert!(b.is_ascii_digit() || (b'a'..=b'f').contains(b));
        }
    }
    assert_eq!(written[14], b'7');
    assert!(matches!(written[19], b'8' | b'9' | b'a' | b'b'));
    let identity = match &a.state {
        SessionState::Registered { identity, name } => {
            assert_eq!(name, &b"alice".to_vec());
            *identity
        }
        other => panic!("{:?}", other),
    };
    assert_eq!(format!("{:032x}", identity), String::from_utf8_lossy(written).replace('-', ""));
    assert!(registry.contains_identity(identity));
    // The next one is greater.
    let mut b = accept(&mut registry, 2, place(2)).unwrap();
    let outcome = step(&mut registry, &mut b, &read("NEWU bob"));
    assert_eq!(outcome.error, None);
    match &b.state {
        SessionState::Registered { identity: later, .. } => assert!(*later > identity),
        other => panic!("{:?}", other),
    }
}

#[test]
fn step_stamps_a_message_with_the_time() {
    let mut registry = Registry::new();
    let mut a = member(&mut registry, 1, "alice", 1);
    let _b = member(&mut registry, 2, "bob", 2);
    let outcome = step(&mut registry, &mut a, &read("MESS hello  world"));
    assert_eq!(outcome.error, None);
    let all = sent(&outcome);
    assert_eq!(all.len(), 2);
    assert_eq!(all[0].1, all[1].1);
    let line = &all[0].1;
    assert!(line.starts_with("MESS alice at "));
    assert!(line.ends_with(": hello  world"));
    let stamp = &line["MESS alice at ".len()..line.len() - ": hello  world".len()];
    assert!(stamp.len() >= 19);
    assert!(stamp.contains('T'));
    assert!(stamp.as_bytes()[0].is_ascii_digit() || stamp.starts_with('+') || stamp.starts_with('-'));
}

#[test]
fn broadcast_makes_one_delivery_for_each_recipient_in_order() {
    let recipients = vec![
        Recipient { connection: 4, identity: 1, name: b"a".to_vec() },
        Recipient { connection: 2, identity: 2, name: b"b".to_vec() },
        Recipient { connection: 9, identity: 3, name: b"c".to_vec() },
    ];
    let actions = broadcast(b"MESS x", &recipients);
    assert_eq!(actions.len(), 3);
    let mut targets = Vec::new();
    for action in &actions {
        match action {
            Action::Send { connection, frame } => {
                assert_eq!(frame, &b"MESS x".to_vec());
                targets.push(*connection);
            }
            other => panic!("{:?}", other),
        }
    }
    assert_eq!(targets, vec![4, 2, 9]);
    assert!(broadcast(b"MESS x", &vec![]).is_empty());
}

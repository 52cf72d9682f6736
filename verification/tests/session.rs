use chat_core::broadcast::Action;
use chat_core::registry::{PeerAddress, Registry};
use chat_core::session::{
    accept, interpret, perform, step, step_with, Event, Outcome, Request, Session, SessionError,
    SessionState,
};

fn address(port: u16) -> PeerAddress {
    PeerAddress { ip: 0x7f00_0001, port, v6: false }
}

fn frame(text: &str) -> Event {
    Event::Frame(text.as_bytes().to_vec())
}

fn sends(outcome: &Outcome) -> Vec<(u64, String)> {
    let mut all = Vec::new();
    for action in &outcome.actions {
        if let Action::Send { connection, frame } = action {
            all.push((*connection, String::from_utf8(frame.clone()).unwrap()));
        }
    }
    all
}

fn closes(outcome: &Outcome) -> Vec<u64> {
    let mut all = Vec::new();
    for action in &outcome.actions {
        if let Action::Close { connection } = action {
            all.push(*connection);
        }
    }
    all
}

fn join(registry: &mut Registry, connection: u64, name: &str, identity: u128) -> Session {
    let mut session = accept(registry, connection, address(connection as u16)).unwrap();
    let outcome =
        step_with(registry, &mut session, &frame(&format!("NEWU {}", name)), identity, b"");
    assert_eq!(outcome.error, None);
    session
}

fn is_registered(session: &Session, identity: u128, name: &str) -> bool {
    match &session.state {
        SessionState::Registered { identity: i, name: n } => {
            *i == identity && n.as_slice() == name.as_bytes()
        }
        _ => false,
    }
}

#[test]
fn accept_starts_a_session_and_refuses_a_connection_twice() {
    let mut registry = Registry::new();
    let session = accept(&mut registry, 5, address(1)).unwrap();
    assert_eq!(session.connection, 5);
    assert_eq!(session.address, address(1));
    assert!(matches!(session.state, SessionState::Connected));
    assert_eq!(registry.len(), 1);
    assert!(accept(&mut registry, 5, address(2)).is_none());
    assert_eq!(registry.len(), 1);
}

#[test]
fn scenario_register_talk_leave() {
    let mut registry = Registry::new();
    let mut bob = join(&mut registry, 1, "bob", 10);
    let mut alice = accept(&mut registry, 2, address(2)).unwrap();

    let outcome = step_with(&mut registry, &mut alice, &frame("NEWU alice"), 0x0192f0c12b3c7d4e8f5a6b7c8d9e0f1a, b"");
    assert_eq!(outcome.error, None);
    assert_eq!(
        sends(&outcome),
        vec![
            (2, "USER 0192f0c1-2b3c-7d4e-8f5a-6b7c8d9e0f1a".to_string()),
            (1, "MESS alice has entered the channel".to_string()),
        ]
    );
    assert!(closes(&outcome).is_empty());
    assert!(is_registered(&alice, 0x0192f0c12b3c7d4e8f5a6b7c8d9e0f1a, "alice"));

    let outcome = step_with(&mut registry, &mut alice, &frame("MESS hello world"), 0, b"12:00");
    assert_eq!(outcome.error, None);
    assert_eq!(
        sends(&outcome),
        vec![
            (1, "MESS alice at 12:00: hello world".to_string()),
            (2, "MESS alice at 12:00: hello world".to_string()),
        ]
    );

    let outcome = step_with(&mut registry, &mut alice, &frame("EXIT"), 0, b"");
    assert_eq!(outcome.error, None);
    assert_eq!(
        sends(&outcome),
        vec![(1, "MESS alice has left the channel".to_string()), (2, "EXIT".to_string())]
    );
    assert_eq!(closes(&outcome), vec![2]);
    assert!(matches!(outcome.actions.last(), Some(Action::Close { connection: 2 })));
    assert!(matches!(alice.state, SessionState::Closed));
    assert!(!registry.contains_identity(0x0192f0c12b3c7d4e8f5a6b7c8d9e0f1a));
    assert_eq!(registry.len(), 1);

    // Bob talks on: alice gets nothing any more.
    let outcome = step_with(&mut registry, &mut bob, &frame("MESS anyone?"), 0, b"12:01");
    assert_eq!(sends(&outcome), vec![(1, "MESS bob at 12:01: anyone?".to_string())]);
}

#[test]
fn a_message_makes_one_delivery_for_each_registered_member() {
    let mut registry = Registry::new();
    let mut sender = join(&mut registry, 1, "s", 1);
    for n in 0..7u64 {
        join(&mut registry, 10 + n, "other", 100 + n as u128);
    }
    // Somebody who has connected and not registered gets nothing.
    let _pending = accept(&mut registry, 99, address(99)).unwrap();
    let outcome = step_with(&mut registry, &mut sender, &frame("MESS a  b"), 0, b"T");
    let all = sends(&outcome);
    assert_eq!(all.len(), 8);
    assert_eq!(outcome.actions.len(), 8);
    let mut targets: Vec<u64> = all.iter().map(|(to, _)| *to).collect();
    targets.sort();
    assert_eq!(targets, vec![1, 10, 11, 12, 13, 14, 15, 16]);
    for (_, text) in all {
        assert_eq!(text, "MESS s at T: a  b");
    }
    assert_eq!(registry.len(), 9);
    assert!(is_registered(&sender, 1, "s"));
}

#[test]
fn a_silent_read_takes_one_member_out_and_tells_the_others_once() {
    let mut registry = Registry::new();
    let _a = join(&mut registry, 1, "a", 1);
    let mut b = join(&mut registry, 2, "b", 2);
    let _c = join(&mut registry, 3, "c", 3);
    for gone in [Event::Frame(Vec::new()), Event::Frame(vec![0u8; 128])] {
        let mut registry2 = Registry::new();
        let _a2 = join(&mut registry2, 1, "a", 1);
        let mut b2 = join(&mut registry2, 2, "b", 2);
        let before = registry2.len();
        let outcome = step_with(&mut registry2, &mut b2, &gone, 0, b"");
        assert_eq!(outcome.error, Some(SessionError::PeerClosed));
        assert_eq!(registry2.len(), before - 1);
        assert_eq!(sends(&outcome), vec![(1, "MESS b has left the channel".to_string())]);
        assert_eq!(closes(&outcome), vec![2]);
    }
    let outcome = step_with(&mut registry, &mut b, &Event::Frame(vec![]), 0, b"");
    assert_eq!(registry.len(), 2);
    assert_eq!(
        sends(&outcome),
        vec![
            (1, "MESS b has left the channel".to_string()),
            (3, "MESS b has left the channel".to_string()),
        ]
    );
    assert!(matches!(b.state, SessionState::Closed));
    // A second empty read on the closed session does nothing: no second notice.
    let outcome = step_with(&mut registry, &mut b, &Event::Frame(vec![]), 0, b"");
    assert!(outcome.actions.is_empty());
    assert_eq!(outcome.error, None);
    assert_eq!(registry.len(), 2);
}

#[test]
fn two_members_may_share_a_name() {
    let mut registry = Registry::new();
    let one = join(&mut registry, 1, "sam", 41);
    let two = join(&mut registry, 2, "sam", 42);
    assert!(is_registered(&one, 41, "sam"));
    assert!(is_registered(&two, 42, "sam"));
    let recipients = registry.snapshot();
    assert_eq!(recipients.len(), 2);
    assert_eq!(recipients[0].name, recipients[1].name);
    assert_ne!(recipients[0].identity, recipients[1].identity);
}

#[test]
fn a_hundred_registrations_give_a_hundred_identities() {
    let mut registry = Registry::new();
    let mut sessions = Vec::new();
    for n in 0..100u64 {
        sessions.push(accept(&mut registry, n, address(n as u16)).unwrap());
    }
    // They register in another order than they connected in.
    for k in 0..100usize {
        let n = (k * 37) % 100;
        let outcome = step(&mut registry, &mut sessions[n], &frame("NEWU same"));
        assert_eq!(outcome.error, None);
    }
    assert_eq!(registry.len(), 100);
    let recipients = registry.snapshot();
    assert_eq!(recipients.len(), 100);
    let mut identities: Vec<u128> = recipients.iter().map(|r| r.identity).collect();
    identities.sort();
    identities.dedup();
    assert_eq!(identities.len(), 100);
    let mut connections: Vec<u64> = recipients.iter().map(|r| r.connection).collect();
    connections.sort();
    connections.dedup();
    assert_eq!(connections.len(), 100);
    for (n, session) in sessions.iter().enumerate() {
        match &session.state {
            SessionState::Registered { identity, .. } => {
                assert!(registry.contains_identity(*identity));
                let found = recipients.iter().find(|r| r.identity == *identity).unwrap();
                assert_eq!(found.connection, n as u64);
            }
            other => panic!("{:?}", other),
        }
    }
}

use chat_core::client::{command, notice, registration_frame, registration_reply};
use chat_core::client::{Command, Notice, ReplyError};

#[test]
fn registration_frame_names_the_user() {
    assert_eq!(registration_frame(b"oniband"), b"NEWU oniband".to_vec());
    assert_eq!(registration_frame(b""), b"NEWU ".to_vec());
}

#[test]
fn exit_and_quit_leave() {
    for line in ["/exit", "/quit", "  /exit\n", "hello/quit"] {
        match command(line.as_bytes(), b"0190-abc") {
            Command::Quit { frame } => assert_eq!(frame, b"EXIT 0190-abc".to_vec()),
            other => panic!("{:?}", other),
        }
    }
}

#[test]
fn other_commands_are_not_known() {
    for line in ["/help", "/", "/exit now", "a/b", "/Exit", "/exit\u{a0}x"] {
        assert!(matches!(command(line.as_bytes(), b"id"), Command::Unregistered));
    }
}

#[test]
fn an_empty_line_asks_for_nothing() {
    for line in ["", "\n", "   \t\r\n", "\u{3000}"] {
        assert!(matches!(command(line.as_bytes(), b"id"), Command::Nothing));
    }
}

#[test]
fn a_line_is_sent_with_its_spaces() {
    match command(b"  hello   big  world \n", b"id") {
        Command::Say { frame } => assert_eq!(frame, b"MESS hello   big  world".to_vec()),
        other => panic!("{:?}", other),
    }
}

#[test]
fn two_slashes_make_a_message() {
    match command(b"a/b/c", b"id") {
        Command::Say { frame } => assert_eq!(frame, b"MESS a/b/c".to_vec()),
        other => panic!("{:?}", other),
    }
    match command(b"//exit", b"id") {
        Command::Say { frame } => assert_eq!(frame, b"MESS //exit".to_vec()),
        other => panic!("{:?}", other),
    }
}

#[test]
fn registration_reply_gives_the_identity() {
    let mut buffer = [0u8; 128];
    let text = b"USER 0192f0c1-2b3c-7d4e-8f5a-6b7c8d9e0f1a";
    buffer[..text.len()].copy_from_slice(text);
    assert_eq!(
        registration_reply(&buffer),
        Ok(b"0192f0c1-2b3c-7d4e-8f5a-6b7c8d9e0f1a".to_vec())
    );
    assert_eq!(registration_reply(b"USER a b"), Ok(b"a".to_vec()));
}

#[test]
fn registration_reply_says_why_there_is_no_identity() {
    assert_eq!(registration_reply(b"USER"), Err(ReplyError::Incomplete));
    assert_eq!(registration_reply(b"Unknown Request"), Err(ReplyError::Refused));
    assert_eq!(registration_reply(b"user x"), Err(ReplyError::Refused));
    assert_eq!(registration_reply(&[0u8; 128]), Err(ReplyError::Closed));
    assert_eq!(registration_reply(&[]), Err(ReplyError::Closed));
    assert_eq!(registration_reply(&[b'U', 0xff]), Err(ReplyError::Malformed));
}

#[test]
fn notice_reads_what_the_server_sends() {
    match notice(b"MESS alice at 2024-01-01T00:00:00+00:00: hello  world") {
        Notice::Line { text } => {
            assert_eq!(text, b"alice at 2024-01-01T00:00:00+00:00: hello  world".to_vec())
        }
        other => panic!("{:?}", other),
    }
    match notice(b"MESS") {
        Notice::Line { text } => assert!(text.is_empty()),
        other => panic!("{:?}", other),
    }
    assert!(matches!(notice(b"EXIT"), Notice::Farewell));
    assert!(matches!(notice(b"EXIT now"), Notice::Farewell));
    assert!(matches!(notice(&[0u8; 128]), Notice::ServerGone));
    assert!(matches!(notice(b"   "), Notice::ServerGone));
    assert!(matches!(notice(&[0xc0, 0x80]), Notice::Malformed));
    match notice(b"Unknown Request") {
        Notice::Unknown { header } => assert_eq!(header, b"Unknown".to_vec()),
        other => panic!("{:?}", other),
    }
}

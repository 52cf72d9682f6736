//! The client's side: what a typed line asks for, and what a frame from the
//! server tells.

use crate::codec::{decode, same_bytes, trim};
use crate::frame::{decoded, join, trim_spaces, DecodeError};
use crate::notice::{exit, exit_frame, frame_of, mess, mess_frame, newu_frame, user};
use vstd::prelude::*;
use vstd::slice::slice_subrange;
use vstd::slice::slice_to_vec;
use vstd::string::StringSliceAdditionalSpecFns;

verus! {

/// The byte `/`, which marks a command.
pub const SLASH: u8 = 0x2f;

/// What a typed line asks the client to do.
#[derive(Debug)]
pub enum Command {
    /// Send this frame, which tells the server that the client leaves, and
    /// stop.
    Quit { frame: Vec<u8> },
    /// The line is a command that the client does not know.
    Unregistered,
    /// The line is empty.
    Nothing,
    /// Send this frame, which carries the line as a message.
    Say { frame: Vec<u8> },
}

pub enum CommandView {
    Quit { frame: Seq<u8> },
    Unregistered,
    Nothing,
    Say { frame: Seq<u8> },
}

impl View for Command {
    type V = CommandView;

    open spec fn view(&self) -> CommandView {
        match *self {
            Command::Quit { frame } => CommandView::Quit { frame: frame@ },
            Command::Unregistered => CommandView::Unregistered,
            Command::Nothing => CommandView::Nothing,
            Command::Say { frame } => CommandView::Say { frame: frame@ },
        }
    }
}

/// Why the server's answer to a registration gives no identity.
#[derive(Clone, Copy, Debug, PartialEq, Eq, Structural)]
pub enum ReplyError {
    /// The answer is not UTF-8.
    Malformed,
    /// The answer is empty: the server has gone.
    Closed,
    /// The answer is something other than `USER`.
    Refused,
    /// The answer is `USER` without an identity.
    Incomplete,
}

/// What a frame from the server tells the client.
#[derive(Debug)]
pub enum Notice {
    /// A line to show.
    Line { text: Vec<u8> },
    /// The server lets the client go.
    Farewell,
    /// The frame is empty: the server has gone.
    ServerGone,
    /// A frame under a header that the client does not know.
    Unknown { header: Vec<u8> },
    /// The frame is not UTF-8.
    Malformed,
}

pub enum NoticeView {
    Line { text: Seq<u8> },
    Farewell,
    ServerGone,
    Unknown { header: Seq<u8> },
    Malformed,
}

impl View for Notice {
    type V = NoticeView;

    open spec fn view(&self) -> NoticeView {
        match *self {
            Notice::Line { text } => NoticeView::Line { text: text@ },
            Notice::Farewell => NoticeView::Farewell,
            Notice::ServerGone => NoticeView::ServerGone,
            Notice::Unknown { header } => NoticeView::Unknown { header: header@ },
            Notice::Malformed => NoticeView::Malformed,
        }
    }
}

/// The number of slashes in `s`.
pub open spec fn slashes(s: Seq<u8>) -> nat
    decreases s.len(),
{
    if s.len() == 0 {
        0
    } else if s.last() == SLASH {
        slashes(s.drop_last()) + 1
    } else {
        slashes(s.drop_last())
    }
}

/// What stands behind the last slash of `s`; all of `s` where it holds none.
pub open spec fn behind_slash(s: Seq<u8>) -> Seq<u8>
    decreases s.len(),
{
    if s.len() == 0 || s.last() == SLASH {
        Seq::empty()
    } else {
        behind_slash(s.drop_last()).push(s.last())
    }
}

/// What a typed line asks for. The white space around it does not count. A
/// line with exactly one slash is a command, named by what stands behind the
/// slash: `exit` and `quit` leave, naming the client's identity to the
/// server. An empty line asks for nothing. Every other line is a message,
/// sent as it stands, its inner spaces kept.
pub open spec fn command_of(line: Seq<u8>, identity: Seq<u8>) -> CommandView {
    let text = trim_spaces(line);
    if slashes(text) == 1 {
        let word = behind_slash(text);
        if word == "exit".spec_bytes() || word == "quit".spec_bytes() {
            CommandView::Quit { frame: exit_frame(identity) }
        } else {
            CommandView::Unregistered
        }
    } else if text.len() == 0 {
        CommandView::Nothing
    } else {
        CommandView::Say { frame: mess_frame(text) }
    }
}

/// The identity that the server's answer to a registration gives: the first
/// argument of a `USER` packet.
pub open spec fn reply_of(raw: Seq<u8>) -> Result<Seq<u8>, ReplyError> {
    match decoded(raw) {
        Err(DecodeError::MalformedFrame) => Err(ReplyError::Malformed),
        Err(DecodeError::PeerClosed) => Err(ReplyError::Closed),
        Ok(packet) => if packet.header != user() {
            Err(ReplyError::Refused)
        } else if packet.arguments.len() == 0 {
            Err(ReplyError::Incomplete)
        } else {
            Ok(packet.arguments[0])
        },
    }
}

/// What a frame from the server tells.
pub open spec fn notice_of(raw: Seq<u8>) -> NoticeView {
    match decoded(raw) {
        Err(DecodeError::MalformedFrame) => NoticeView::Malformed,
        Err(DecodeError::PeerClosed) => NoticeView::ServerGone,
        Ok(packet) => if packet.header == mess() {
            NoticeView::Line { text: join(packet.arguments) }
        } else if packet.header == exit() {
            NoticeView::Farewell
        } else if packet.header.len() == 0 {
            NoticeView::ServerGone
        } else {
            NoticeView::Unknown { header: packet.header }
        },
    }
}

/// The frame by which a client registers: `NEWU <name>`.
pub fn registration_frame(name: &[u8]) -> (frame: Vec<u8>)
    ensures
        frame@ == newu_frame(name@),
{
    frame_of("NEWU", slice_to_vec(name))
}

/// Counts the slashes of `bytes` and finds where the part behind the last one
/// starts.
fn scan_slashes(bytes: &[u8]) -> (found: (usize, usize))
    ensures
        found.0 == slashes(bytes@),
        found.1 <= bytes@.len(),
        bytes@.subrange(found.1 as int, bytes@.len() as int) == behind_slash(bytes@),
{
    let mut count: usize = 0;
    let mut start: usize = 0;
    let mut i: usize = 0;
    assert(bytes@.take(0) =~= Seq::<u8>::empty());
    assert(bytes@.subrange(0, 0) =~= behind_slash(bytes@.take(0)));
    while i < bytes.len()
        invariant
            i <= bytes@.len(),
            count <= i,
            start <= i,
            count == slashes(bytes@.take(i as int)),
            bytes@.subrange(start as int, i as int) == behind_slash(bytes@.take(i as int)),
        decreases bytes@.len() - i,
    {
        assert(bytes@.take(i + 1).drop_last() =~= bytes@.take(i as int));
        assert(bytes@.take(i + 1).last() == bytes@[i as int]);
        if bytes[i] == SLASH {
            count += 1;
            start = i + 1;
            assert(bytes@.subrange(start as int, i + 1) =~= Seq::<u8>::empty());
        } else {
            assert(bytes@.subrange(start as int, i + 1) =~= bytes@.subrange(
                start as int,
                i as int,
            ).push(bytes@[i as int]));
        }
        i += 1;
    }
    assert(bytes@.take(i as int) =~= bytes@);
    (count, start)
}

/// Finds what a typed line asks for. `identity` is the client's identity as
/// the server wrote it.
pub fn command(line: &[u8], identity: &[u8]) -> (command: Command)
    ensures
        command@ == command_of(line@, identity@),
{
    let text = trim(line);
    let (count, start) = scan_slashes(text);
    if count == 1 {
        let word = slice_subrange(text, start, text.len());
        if same_bytes(word, "exit".as_bytes()) || same_bytes(word, "quit".as_bytes()) {
            Command::Quit { frame: frame_of("EXIT", slice_to_vec(identity)) }
        } else {
            Command::Unregistered
        }
    } else if text.len() == 0 {
        Command::Nothing
    } else {
        Command::Say { frame: frame_of("MESS", slice_to_vec(text)) }
    }
}

/// Reads the server's answer to a registration.
pub fn registration_reply(raw: &[u8]) -> (reply: Result<Vec<u8>, ReplyError>)
    ensures
        match reply {
            Ok(identity) => reply_of(raw@) == Ok::<Seq<u8>, ReplyError>(identity@),
            Err(error) => reply_of(raw@) == Err::<Seq<u8>, ReplyError>(error),
        },
{
    match decode(raw) {
        Err(DecodeError::MalformedFrame) => Err(ReplyError::Malformed),
        Err(DecodeError::PeerClosed) => Err(ReplyError::Closed),
        Ok(packet) => {
            if !same_bytes(packet.header.as_slice(), "USER".as_bytes()) {
                Err(ReplyError::Refused)
            } else if packet.arguments.len() == 0 {
                Err(ReplyError::Incomplete)
            } else {
                Ok(packet.arguments[0].clone())
            }
        },
    }
}

/// Reads a frame from the server.
pub fn notice(raw: &[u8]) -> (notice: Notice)
    ensures
        notice@ == notice_of(raw@),
{
    match decode(raw) {
        Err(DecodeError::MalformedFrame) => Notice::Malformed,
        Err(DecodeError::PeerClosed) => Notice::ServerGone,
        Ok(packet) => {
            if same_bytes(packet.header.as_slice(), "MESS".as_bytes()) {
                Notice::Line { text: packet.text() }
            } else if same_bytes(packet.header.as_slice(), "EXIT".as_bytes()) {
                Notice::Farewell
            } else if packet.header.len() == 0 {
                Notice::ServerGone
            } else {
                Notice::Unknown { header: packet.header }
            }
        },
    }
}

} // verus!

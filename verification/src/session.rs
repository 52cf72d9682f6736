//! The session of one connection: what each event asks for in each state, and
//! what is then done to the registry and sent to whom.

use crate::broadcast::{action_views, broadcast, fan_out, Action, ActionView};
use crate::clock::time_text;
use crate::codec::{decode, same_bytes};
use crate::frame::{decoded, join, DecodeError};
use crate::identity::candidate_identity;
use crate::notice::{
    chat_frame_of, chat_line, entered_frame_of, entered_line, exit, exit_frame_of, left_frame_of,
    left_line, mess, mess_frame, newu, unknown_frame_of, unknown_request, user_frame, user_frame_of,
};
use crate::registry::{PeerAddress, Registry, RegistryView};
use vstd::prelude::*;

verus! {

/// Where a session stands.
#[derive(Debug)]
pub enum SessionState {
    /// Accepted, not yet registered.
    Connected,
    /// Registered under an identity and a name.
    Registered { identity: u128, name: Vec<u8> },
    /// Over. Nothing is done for a session in this state.
    Closed,
}

/// The session of one connection.
#[derive(Debug)]
pub struct Session {
    pub connection: u64,
    pub address: PeerAddress,
    pub state: SessionState,
}

/// What happened on the connection of a session.
#[derive(Debug)]
pub enum Event {
    /// A read returned these bytes; none, or zeros only, where the peer has
    /// gone.
    Frame(Vec<u8>),
    /// A read failed because the connection was reset or aborted.
    Reset,
    /// A read failed in another way.
    Failed,
    /// A write to some socket failed.
    WriteFailed,
}

/// What went wrong in a step, if anything did.
#[derive(Clone, Copy, Debug, PartialEq, Eq, Structural)]
pub enum SessionError {
    /// The frame was not UTF-8. The session is over.
    MalformedFrame,
    /// The peer has gone. The session is over.
    PeerClosed,
    /// The connection was reset or aborted. The session is over.
    ConnectionReset,
    /// Reading failed in another way. The session is over.
    Io,
    /// The member could not be registered. The session is over.
    RegistrationFailed,
    /// A write failed. Only that write is lost.
    WriteFailure,
    /// The request is none that the session takes in its state. The peer is
    /// told so and the session goes on.
    UnknownRequest,
}

/// What an event asks for.
#[derive(Debug)]
pub enum Request {
    /// Register under this name.
    Register { name: Vec<u8> },
    /// Tell everyone this text.
    Say { text: Vec<u8> },
    /// Leave, with an acknowledgment.
    Leave,
    /// End the session for this cause, and tell the others if `announce`.
    Drop { cause: SessionError, announce: bool },
    /// Answer that the request is unknown.
    Reject,
    /// Do nothing, and report this error if there is one.
    Ignore { error: Option<SessionError> },
}

/// What a step leaves for the owner of the sockets to do and to log.
#[derive(Debug)]
pub struct Outcome {
    pub actions: Vec<Action>,
    pub error: Option<SessionError>,
}

pub enum StateView {
    Connected,
    Registered { identity: u128, name: Seq<u8> },
    Closed,
}

pub struct SessionView {
    pub connection: u64,
    pub address: PeerAddress,
    pub state: StateView,
}

pub enum EventView {
    Frame(Seq<u8>),
    Reset,
    Failed,
    WriteFailed,
}

pub enum RequestView {
    Register { name: Seq<u8> },
    Say { text: Seq<u8> },
    Leave,
    Drop { cause: SessionError, announce: bool },
    Reject,
    Ignore { error: Option<SessionError> },
}

pub struct OutcomeView {
    pub actions: Seq<ActionView>,
    pub error: Option<SessionError>,
}

impl View for SessionState {
    type V = StateView;

    open spec fn view(&self) -> StateView {
        match *self {
            SessionState::Connected => StateView::Connected,
            SessionState::Registered { identity, name } => StateView::Registered {
                identity,
                name: name@,
            },
            SessionState::Closed => StateView::Closed,
        }
    }
}

impl View for Session {
    type V = SessionView;

    open spec fn view(&self) -> SessionView {
        SessionView { connection: self.connection, address: self.address, state: self.state@ }
    }
}

impl View for Event {
    type V = EventView;

    open spec fn view(&self) -> EventView {
        match *self {
            Event::Frame(bytes) => EventView::Frame(bytes@),
            Event::Reset => EventView::Reset,
            Event::Failed => EventView::Failed,
            Event::WriteFailed => EventView::WriteFailed,
        }
    }
}

impl View for Request {
    type V = RequestView;

    open spec fn view(&self) -> RequestView {
        match *self {
            Request::Register { name } => RequestView::Register { name: name@ },
            Request::Say { text } => RequestView::Say { text: text@ },
            Request::Leave => RequestView::Leave,
            Request::Drop { cause, announce } => RequestView::Drop { cause, announce },
            Request::Reject => RequestView::Reject,
            Request::Ignore { error } => RequestView::Ignore { error },
        }
    }
}

impl View for Outcome {
    type V = OutcomeView;

    open spec fn view(&self) -> OutcomeView {
        OutcomeView { actions: action_views(self.actions@), error: self.error }
    }
}

/// The registry, the session and the outcome that a step leaves.
pub struct Next {
    pub registry: RegistryView,
    pub session: SessionView,
    pub outcome: OutcomeView,
}

impl SessionView {
    /// The same session, over.
    pub open spec fn closed(self) -> SessionView {
        SessionView { state: StateView::Closed, ..self }
    }

    /// The same session, registered.
    pub open spec fn registered(self, identity: u128, name: Seq<u8>) -> SessionView {
        SessionView { state: StateView::Registered { identity, name }, ..self }
    }
}

// ---------------------------------------------------------------------------
// What an event asks for
// ---------------------------------------------------------------------------

/// What `event` asks for in the state of `session`.
///
/// A closed session asks for nothing. A failed write costs that write alone.
/// A peer that has gone, and a reset, end the session and are announced; a
/// frame that is not UTF-8, and any other failure, end it in silence. A
/// session that has not registered takes `NEWU` with a name; one that has
/// takes `MESS` and `EXIT`; every other packet is rejected.
pub open spec fn interpreted(session: SessionView, event: EventView) -> RequestView {
    if session.state is Closed {
        RequestView::Ignore { error: None }
    } else {
        match event {
            EventView::WriteFailed => RequestView::Ignore {
                error: Some(SessionError::WriteFailure),
            },
            EventView::Reset => RequestView::Drop {
                cause: SessionError::ConnectionReset,
                announce: true,
            },
            EventView::Failed => RequestView::Drop { cause: SessionError::Io, announce: false },
            EventView::Frame(raw) => match decoded(raw) {
                Err(DecodeError::PeerClosed) => RequestView::Drop {
                    cause: SessionError::PeerClosed,
                    announce: true,
                },
                Err(DecodeError::MalformedFrame) => RequestView::Drop {
                    cause: SessionError::MalformedFrame,
                    announce: false,
                },
                Ok(packet) => if session.state is Connected {
                    if packet.header == newu() && packet.arguments.len() >= 1 {
                        RequestView::Register { name: packet.arguments[0] }
                    } else {
                        RequestView::Reject
                    }
                } else {
                    if packet.header == mess() {
                        RequestView::Say { text: join(packet.arguments) }
                    } else if packet.header == exit() {
                        RequestView::Leave
                    } else {
                        RequestView::Reject
                    }
                },
            },
        }
    }
}

// ---------------------------------------------------------------------------
// What is done
// ---------------------------------------------------------------------------

/// Nothing changes and nothing is sent.
pub open spec fn unchanged(
    registry: RegistryView,
    session: SessionView,
    error: Option<SessionError>,
) -> Next {
    Next { registry, session, outcome: OutcomeView { actions: Seq::empty(), error } }
}

/// The peer is told that its request is unknown; nothing changes.
pub open spec fn rejected(registry: RegistryView, session: SessionView) -> Next {
    Next {
        registry,
        session,
        outcome: OutcomeView {
            actions: seq![
                ActionView::Send { connection: session.connection, frame: unknown_request() },
            ],
            error: Some(SessionError::UnknownRequest),
        },
    }
}

/// A session that has not registered ends: its member leaves the registry and
/// its socket is shut. Nobody is told.
pub open spec fn dropped_pending(
    registry: RegistryView,
    session: SessionView,
    cause: SessionError,
) -> Next {
    Next {
        registry: registry.without_pending_at(session.address),
        session: session.closed(),
        outcome: OutcomeView {
            actions: seq![ActionView::Close { connection: session.connection }],
            error: Some(cause),
        },
    }
}

/// A session registers under `candidate` where the registry takes it: the peer
/// is told its identity, then those who were registered before are told that
/// it came. Where the registry refuses, the session ends.
pub open spec fn enrolled(
    registry: RegistryView,
    session: SessionView,
    name: Seq<u8>,
    candidate: u128,
) -> Next {
    if registry.promotion(session.connection, candidate) is Ok {
        Next {
            registry: registry.with_profile(session.connection, candidate, name),
            session: session.registered(candidate, name),
            outcome: OutcomeView {
                actions: seq![
                    ActionView::Send {
                        connection: session.connection,
                        frame: user_frame(candidate),
                    },
                ] + fan_out(registry.recipients(), mess_frame(entered_line(name))),
                error: None,
            },
        }
    } else {
        dropped_pending(registry, session, SessionError::RegistrationFailed)
    }
}

/// What a registered member said goes to every registered member, the one who
/// said it included.
pub open spec fn relayed(
    registry: RegistryView,
    session: SessionView,
    name: Seq<u8>,
    stamp: Seq<u8>,
    text: Seq<u8>,
) -> Next {
    Next {
        registry,
        session,
        outcome: OutcomeView {
            actions: fan_out(registry.recipients(), mess_frame(chat_line(name, stamp, text))),
            error: None,
        },
    }
}

/// A registered member leaves the registry. If `announce`, those who stay are
/// told; if `acknowledge`, the one who leaves is sent `EXIT`. Then its socket
/// is shut.
pub open spec fn departed(
    registry: RegistryView,
    session: SessionView,
    identity: u128,
    name: Seq<u8>,
    announce: bool,
    acknowledge: bool,
    error: Option<SessionError>,
) -> Next {
    let rest = registry.without_identity(identity);
    let notices = if announce {
        fan_out(rest.recipients(), mess_frame(left_line(name)))
    } else {
        Seq::empty()
    };
    let farewell = if acknowledge {
        seq![ActionView::Send { connection: session.connection, frame: exit() }]
    } else {
        Seq::empty()
    };
    Next {
        registry: rest,
        session: session.closed(),
        outcome: OutcomeView {
            actions: notices + farewell + seq![
                ActionView::Close { connection: session.connection },
            ],
            error,
        },
    }
}

/// What `request` does to the registry and the session, and what it has sent.
/// `candidate` is the identity to register under, `stamp` the time to put on
/// a chat line; each counts only where the request needs it.
pub open spec fn performed(
    registry: RegistryView,
    session: SessionView,
    request: RequestView,
    candidate: u128,
    stamp: Seq<u8>,
) -> Next {
    match session.state {
        StateView::Closed => unchanged(registry, session, None),
        StateView::Connected => match request {
            RequestView::Register { name } => enrolled(registry, session, name, candidate),
            RequestView::Drop { cause, .. } => dropped_pending(registry, session, cause),
            RequestView::Ignore { error } => unchanged(registry, session, error),
            _ => rejected(registry, session),
        },
        StateView::Registered { identity, name } => match request {
            RequestView::Say { text } => relayed(registry, session, name, stamp, text),
            RequestView::Leave => departed(registry, session, identity, name, true, true, None),
            RequestView::Drop { cause, announce } => departed(
                registry,
                session,
                identity,
                name,
                announce,
                false,
                Some(cause),
            ),
            RequestView::Ignore { error } => unchanged(registry, session, error),
            _ => rejected(registry, session),
        },
    }
}

/// What `event` does: what it asks for, performed.
pub open spec fn after(
    registry: RegistryView,
    session: SessionView,
    event: EventView,
    candidate: u128,
    stamp: Seq<u8>,
) -> Next {
    performed(registry, session, interpreted(session, event), candidate, stamp)
}

// ---------------------------------------------------------------------------
// The steps themselves
// ---------------------------------------------------------------------------

/// A list that holds one action.
fn one(action: Action) -> (actions: Vec<Action>)
    ensures
        action_views(actions@) == seq![action@],
{
    let mut actions: Vec<Action> = Vec::new();
    actions.push(action);
    assert(action_views(actions@) =~= seq![action@]);
    actions
}

/// `first`, then `second`.
fn then(first: Vec<Action>, second: Vec<Action>) -> (actions: Vec<Action>)
    ensures
        action_views(actions@) == action_views(first@) + action_views(second@),
{
    let mut actions = first;
    let mut rest = second;
    actions.append(&mut rest);
    assert(action_views(actions@) =~= action_views(first@) + action_views(second@));
    actions
}

/// Takes in a new connection: its member joins the registry, not yet
/// registered, and its session starts. Refuses a connection number that the
/// registry holds already.
pub fn accept(registry: &mut Registry, connection: u64, address: PeerAddress) -> (session: Option<
    Session,
>)
    requires
        old(registry).wf(),
    ensures
        final(registry).wf(),
        session is Some <==> !old(registry)@.has_connection(connection),
        match session {
            Some(session) => session@ == (SessionView {
                connection,
                address,
                state: StateView::Connected,
            }) && final(registry)@ == old(registry)@.with_pending(connection, address),
            None => final(registry)@ == old(registry)@,
        },
{
    if registry.insert_connection(connection, address) {
        Some(Session { connection, address, state: SessionState::Connected })
    } else {
        None
    }
}

/// Finds what an event asks for in the state of a session.
pub fn interpret(session: &Session, event: &Event) -> (request: Request)
    ensures
        request@ == interpreted(session@, event@),
{
    if let SessionState::Closed = session.state {
        return Request::Ignore { error: None };
    }
    match event {
        Event::WriteFailed => Request::Ignore { error: Some(SessionError::WriteFailure) },
        Event::Reset => Request::Drop { cause: SessionError::ConnectionReset, announce: true },
        Event::Failed => Request::Drop { cause: SessionError::Io, announce: false },
        Event::Frame(raw) => match decode(raw.as_slice()) {
            Err(DecodeError::PeerClosed) => Request::Drop {
                cause: SessionError::PeerClosed,
                announce: true,
            },
            Err(DecodeError::MalformedFrame) => Request::Drop {
                cause: SessionError::MalformedFrame,
                announce: false,
            },
            Ok(packet) => {
                if let SessionState::Connected = session.state {
                    if same_bytes(packet.header.as_slice(), "NEWU".as_bytes())
                        && packet.arguments.len() >= 1 {
                        Request::Register { name: packet.arguments[0].clone() }
                    } else {
                        Request::Reject
                    }
                } else {
                    if same_bytes(packet.header.as_slice(), "MESS".as_bytes()) {
                        Request::Say { text: packet.text() }
                    } else if same_bytes(packet.header.as_slice(), "EXIT".as_bytes()) {
                        Request::Leave
                    } else {
                        Request::Reject
                    }
                }
            },
        },
    }
}

/// Ends a session that has not registered.
fn drop_pending(registry: &mut Registry, session: &mut Session, cause: SessionError) -> (outcome:
    Outcome)
    requires
        old(registry).wf(),
    ensures
        final(registry).wf(),
        final(registry)@ == dropped_pending(old(registry)@, old(session)@, cause).registry,
        final(session)@ == dropped_pending(old(registry)@, old(session)@, cause).session,
        outcome@ == dropped_pending(old(registry)@, old(session)@, cause).outcome,
{
    let _ = registry.remove_by_address(session.address);
    session.state = SessionState::Closed;
    Outcome {
        actions: one(Action::Close { connection: session.connection }),
        error: Some(cause),
    }
}

/// Answers that the request is unknown.
fn reject(session: &Session) -> (outcome: Outcome)
    ensures
        outcome@ == (OutcomeView {
            actions: seq![
                ActionView::Send { connection: session.connection, frame: unknown_request() },
            ],
            error: Some(SessionError::UnknownRequest),
        }),
{
    Outcome {
        actions: one(Action::Send { connection: session.connection, frame: unknown_frame_of() }),
        error: Some(SessionError::UnknownRequest),
    }
}

/// Registers a session that has not registered, or ends it where the registry
/// refuses.
fn enroll(registry: &mut Registry, session: &mut Session, name: Vec<u8>, candidate: u128) -> (outcome:
    Outcome)
    requires
        old(registry).wf(),
    ensures
        final(registry).wf(),
        final(registry)@ == enrolled(old(registry)@, old(session)@, name@, candidate).registry,
        final(session)@ == enrolled(old(registry)@, old(session)@, name@, candidate).session,
        outcome@ == enrolled(old(registry)@, old(session)@, name@, candidate).outcome,
{
    let others = registry.snapshot();
    match registry.promote(session.connection, candidate, name.clone()) {
        Ok(()) => {
            let welcome = one(
                Action::Send { connection: session.connection, frame: user_frame_of(candidate) },
            );
            let notices = broadcast(entered_frame_of(name.as_slice()).as_slice(), &others);
            session.state = SessionState::Registered { identity: candidate, name };
            Outcome { actions: then(welcome, notices), error: None }
        },
        Err(_) => drop_pending(registry, session, SessionError::RegistrationFailed),
    }
}

/// Takes a registered member out and makes the actions that go with it.
fn depart(
    registry: &mut Registry,
    session: &mut Session,
    identity: u128,
    name: Vec<u8>,
    announce: bool,
    acknowledge: bool,
    error: Option<SessionError>,
) -> (outcome: Outcome)
    requires
        old(registry).wf(),
    ensures
        final(registry).wf(),
        final(registry)@ == departed(
            old(registry)@,
            old(session)@,
            identity,
            name@,
            announce,
            acknowledge,
            error,
        ).registry,
        final(session)@ == departed(
            old(registry)@,
            old(session)@,
            identity,
            name@,
            announce,
            acknowledge,
            error,
        ).session,
        outcome@ == departed(
            old(registry)@,
            old(session)@,
            identity,
            name@,
            announce,
            acknowledge,
            error,
        ).outcome,
{
    let _ = registry.remove_by_identity(identity);
    let notices = if announce {
        broadcast(left_frame_of(name.as_slice()).as_slice(), &registry.snapshot())
    } else {
        let none: Vec<Action> = Vec::new();
        assert(action_views(none@) =~= Seq::<ActionView>::empty());
        none
    };
    let farewell = if acknowledge {
        one(Action::Send { connection: session.connection, frame: exit_frame_of() })
    } else {
        let none: Vec<Action> = Vec::new();
        assert(action_views(none@) =~= Seq::<ActionView>::empty());
        none
    };
    let close = one(Action::Close { connection: session.connection });
    session.state = SessionState::Closed;
    Outcome { actions: then(then(notices, farewell), close), error }
}

/// Does what `request` asks. `candidate` is the identity to register under
/// and `stamp` the time to put on a chat line; each counts only where the
/// request needs it.
pub fn perform(
    registry: &mut Registry,
    session: &mut Session,
    request: Request,
    candidate: u128,
    stamp: &[u8],
) -> (outcome: Outcome)
    requires
        old(registry).wf(),
    ensures
        final(registry).wf(),
        final(registry)@ == performed(
            old(registry)@,
            old(session)@,
            request@,
            candidate,
            stamp@,
        ).registry,
        final(session)@ == performed(
            old(registry)@,
            old(session)@,
            request@,
            candidate,
            stamp@,
        ).session,
        outcome@ == performed(old(registry)@, old(session)@, request@, candidate, stamp@).outcome,
{
    let standing: Option<(u128, Vec<u8>)> = match &session.state {
        SessionState::Closed => {
            let none: Vec<Action> = Vec::new();
            assert(action_views(none@) =~= Seq::<ActionView>::empty());
            return Outcome { actions: none, error: None };
        },
        SessionState::Connected => None,
        SessionState::Registered { identity, name } => Some((*identity, name.clone())),
    };
    match standing {
        None => match request {
            Request::Register { name } => enroll(registry, session, name, candidate),
            Request::Drop { cause, announce: _ } => drop_pending(registry, session, cause),
            Request::Ignore { error } => {
                let none: Vec<Action> = Vec::new();
                assert(action_views(none@) =~= Seq::<ActionView>::empty());
                Outcome { actions: none, error }
            },
            _ => reject(session),
        },
        Some((identity, name)) => match request {
            Request::Say { text } => {
                let frame = chat_frame_of(name.as_slice(), stamp, text.as_slice());
                Outcome {
                    actions: broadcast(frame.as_slice(), &registry.snapshot()),
                    error: None,
                }
            },
            Request::Leave => depart(registry, session, identity, name, true, true, None),
            Request::Drop { cause, announce } => depart(
                registry,
                session,
                identity,
                name,
                announce,
                false,
                Some(cause),
            ),
            Request::Ignore { error } => {
                let none: Vec<Action> = Vec::new();
                assert(action_views(none@) =~= Seq::<ActionView>::empty());
                Outcome { actions: none, error }
            },
            _ => reject(session),
        },
    }
}

/// One step of a session with the identity and the time given: finds what the
/// event asks for and does it.
pub fn step_with(
    registry: &mut Registry,
    session: &mut Session,
    event: &Event,
    candidate: u128,
    stamp: &[u8],
) -> (outcome: Outcome)
    requires
        old(registry).wf(),
    ensures
        final(registry).wf(),
        final(registry)@ == after(
            old(registry)@,
            old(session)@,
            event@,
            candidate,
            stamp@,
        ).registry,
        final(session)@ == after(old(registry)@, old(session)@, event@, candidate, stamp@).session,
        outcome@ == after(old(registry)@, old(session)@, event@, candidate, stamp@).outcome,
{
    let request = interpret(session, event);
    perform(registry, session, request, candidate, stamp)
}

/// True when a step from `registry` and `session` on `event` can have left
/// `next`: it is what [`after`] gives for some identity and some time.
pub open spec fn steps_to(
    registry: RegistryView,
    session: SessionView,
    event: EventView,
    next: Next,
) -> bool {
    exists|candidate: u128, stamp: Seq<u8>|
        next == #[trigger] after(registry, session, event, candidate, stamp)
}

/// One step of a session. To register it takes a fresh time-ordered identity,
/// to relay a message it reads the clock; what it then does is what
/// [`step_with`] does with the identity and the time that came back.
pub fn step(registry: &mut Registry, session: &mut Session, event: &Event) -> (outcome: Outcome)
    requires
        old(registry).wf(),
    ensures
        final(registry).wf(),
        steps_to(
            old(registry)@,
            old(session)@,
            event@,
            Next { registry: final(registry)@, session: final(session)@, outcome: outcome@ },
        ),
{
    let request = interpret(session, event);
    let ghost before = (registry@, session@);
    let candidate: u128 = match &request {
        Request::Register { .. } => candidate_identity(),
        _ => 0,
    };
    let stamp: Vec<u8> = match &request {
        Request::Say { .. } => time_text(),
        _ => Vec::new(),
    };
    let outcome = perform(registry, session, request, candidate, stamp.as_slice());
    proof {
        let next = Next { registry: registry@, session: session@, outcome: outcome@ };
        assert(next == after(before.0, before.1, event@, candidate, stamp@));
    }
    outcome
}

} // verus!

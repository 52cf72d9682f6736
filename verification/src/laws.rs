//! What holds of every step of every session.

use crate::broadcast::{
    deliveries_to, fan_out, lemma_deliveries_in_order, lemma_fan_out_deliveries, ActionView,
};
use crate::client::{notice_of, NoticeView};
use crate::frame::{
    all_zero, decoded, join, lemma_text_behind_header, lemma_tidy_is_trimmed, tidy, window,
    DecodeError, PacketView, MAX_FRAME,
};
use crate::notice::{
    chat_line, entered_line, exit, left_line, lemma_headers_differ, lemma_headers_shape, mess,
    mess_frame, user_frame,
};
use crate::registry::{
    each_once, lemma_recipients_with, lemma_member_is_recipient, lemma_recipient_is_member, lemma_recipients_each_once,
    lemma_recipients_without, lemma_remove_keeps_well_formed, lemma_settled_member,
    lemma_with_profile_keeps_well_formed, lemma_without_pending_keeps_well_formed, reaches,
    MemberView, ProfileView, RegistryView,
};
use crate::session::{
    after, departed, enrolled, interpreted, performed, unchanged, EventView, RequestView,
    SessionError, SessionView, StateView,
};
use vstd::utf8::valid_utf8;
use vstd::prelude::*;

verus! {

/// The member that a session is in the registry: pending while the session
/// has not registered, under the session's identity and name once it has.
pub open spec fn member_of(session: SessionView) -> MemberView {
    MemberView {
        connection: session.connection,
        address: session.address,
        profile: match session.state {
            StateView::Registered { identity, name } => Some(ProfileView { identity, name }),
            _ => None,
        },
    }
}

/// True when the registry holds a session as the session knows itself: its
/// member while it lives, nothing of it once it is closed.
pub open spec fn attached(registry: RegistryView, session: SessionView) -> bool {
    if session.state is Closed {
        !registry.has_connection(session.connection)
    } else {
        exists|k: int|
            0 <= k < registry.members.len() && registry.members[k] == member_of(session)
    }
}

/// Where the member of a registered session stands: the lemma gives the place,
/// which is the one that the registry finds by the session's identity.
pub proof fn lemma_place_of_registered(registry: RegistryView, session: SessionView) -> (k: int)
    requires
        registry.well_formed(),
        session.state is Registered,
        attached(registry, session),
    ensures
        0 <= k < registry.members.len(),
        registry.members[k] == member_of(session),
        registry.has_identity(session.state->identity),
        registry.slot_of_identity(session.state->identity) == k,
{
    let identity = session.state->identity;
    let k = choose|k: int|
        0 <= k < registry.members.len() && registry.members[k] == member_of(session);
    assert(registry.members[k].is_registered_as(identity));
    let slot = registry.slot_of_identity(identity);
    assert(registry.members[slot].is_registered_as(identity));
    if slot < k {
        assert(registry.members[slot].profile->0.identity == registry.members[k].profile->0.identity);
    } else if k < slot {
        assert(registry.members[k].profile->0.identity == registry.members[slot].profile->0.identity);
    }
    k
}

// ---------------------------------------------------------------------------
// The registry and its sessions
// ---------------------------------------------------------------------------

/// Whatever a session is asked to do, a well-formed registry stays well
/// formed.
pub proof fn lemma_step_keeps_well_formed(
    registry: RegistryView,
    session: SessionView,
    request: RequestView,
    candidate: u128,
    stamp: Seq<u8>,
)
    requires
        registry.well_formed(),
    ensures
        performed(registry, session, request, candidate, stamp).registry.well_formed(),
{
    lemma_without_pending_keeps_well_formed(registry, session.address);
    if registry.promotion(session.connection, candidate) is Ok && request is Register {
        lemma_with_profile_keeps_well_formed(
            registry,
            session.connection,
            candidate,
            request->name,
        );
    }
    if session.state is Registered && registry.has_identity(session.state->identity) {
        lemma_remove_keeps_well_formed(
            registry,
            registry.slot_of_identity(session.state->identity),
        );
    }
}

/// A session that the registry holds as it knows itself is held so after its
/// step too: as a registered member once it has registered, not at all once
/// it is closed. The registry never holds a closed session.
pub proof fn lemma_step_keeps_attached(
    registry: RegistryView,
    session: SessionView,
    request: RequestView,
    candidate: u128,
    stamp: Seq<u8>,
)
    requires
        registry.well_formed(),
        attached(registry, session),
    ensures
        attached(
            performed(registry, session, request, candidate, stamp).registry,
            performed(registry, session, request, candidate, stamp).session,
        ),
{
    let next = performed(registry, session, request, candidate, stamp);
    match session.state {
        StateView::Closed => {},
        StateView::Connected => {
            let k = choose|k: int|
                0 <= k < registry.members.len() && registry.members[k] == member_of(session);
            if next.session.state is Registered {
                let slot = registry.slot_of_connection(session.connection);
                assert(registry.members[k].connection == session.connection);
                assert(slot == k);
                assert(next.registry.members[k] == member_of(next.session));
            } else if next.session.state is Closed {
                let rest = next.registry.members;
                if next.registry.has_connection(session.connection) {
                    let i = choose|i: int|
                        0 <= i < rest.len() && rest[i].connection == session.connection;
                    let j = lemma_settled_member(registry.members, session.address, i);
                    assert(registry.members[j].connection == registry.members[k].connection);
                    assert(j == k);
                    assert(registry.members[k].is_pending_at(session.address));
                }
            } else {
                assert(next.registry.members[k] == member_of(next.session));
            }
        },
        StateView::Registered { identity, name } => {
            if next.session.state is Closed {
                lemma_departure(registry, session, true, true, None);
            } else {
                let k = choose|k: int|
                    0 <= k < registry.members.len() && registry.members[k] == member_of(session);
                assert(next.registry.members[k] == member_of(next.session));
            }
        },
    }
}

// ---------------------------------------------------------------------------
// Identities
// ---------------------------------------------------------------------------

/// No identity was ever assigned twice.
pub proof fn lemma_identities_assigned_once(registry: RegistryView)
    requires
        registry.well_formed(),
    ensures
        forall|i: int, j: int|
            0 <= i < j < registry.assigned.len() ==> registry.assigned[i] != registry.assigned[j],
{
}

/// A step assigns an identity only by registering its session, and then the
/// identity is one that was never assigned before, to anyone.
pub proof fn lemma_assigned_identity_is_fresh(
    registry: RegistryView,
    session: SessionView,
    request: RequestView,
    candidate: u128,
    stamp: Seq<u8>,
)
    requires
        registry.well_formed(),
    ensures
        ({
            let next = performed(registry, session, request, candidate, stamp);
            if session.state is Connected && next.session.state is Registered {
                &&& next.session.state == (StateView::Registered {
                    identity: candidate,
                    name: request->name,
                })
                &&& !registry.assigned.contains(candidate)
                &&& next.registry.assigned == registry.assigned.push(candidate)
            } else {
                next.registry.assigned == registry.assigned
            }
        }),
{
    let next = performed(registry, session, request, candidate, stamp);
    if session.state is Connected && next.session.state is Registered {
        assert(registry.admits(candidate));
        if registry.assigned.contains(candidate) {
            let i = choose|i: int|
                0 <= i < registry.assigned.len() && registry.assigned[i] == candidate;
            if i < registry.assigned.len() - 1 {
                assert(registry.assigned[i] < registry.assigned.last());
            }
        }
    }
}

/// A session that has not registered and brings an identity that the
/// registry admits is registered: the registry keeps its members and gains one
/// recipient, under an identity that no member had; the peer is told its
/// identity, once, and each member registered before is told once that it
/// came.
pub proof fn lemma_registration_adds_one_recipient(
    registry: RegistryView,
    session: SessionView,
    name: Seq<u8>,
    candidate: u128,
)
    requires
        registry.well_formed(),
        session.state is Connected,
        attached(registry, session),
        registry.admits(candidate),
    ensures
        ({
            let next = enrolled(registry, session, name, candidate);
            &&& next.outcome.error is None
            &&& next.session == session.registered(candidate, name)
            &&& next.registry.well_formed()
            &&& attached(next.registry, next.session)
            &&& next.registry.members.len() == registry.members.len()
            &&& next.registry.recipients().len() == registry.recipients().len() + 1
            &&& each_once(next.registry.recipients())
            &&& !registry.has_identity(candidate)
            &&& next.registry.has_identity(candidate)
            &&& deliveries_to(next.outcome.actions, session.connection) == seq![
                user_frame(candidate),
            ]
            &&& forall|k: int|
                0 <= k < registry.members.len() && (#[trigger] registry.members[k]).profile
                    is Some ==> deliveries_to(next.outcome.actions, registry.members[k].connection)
                    == seq![mess_frame(entered_line(name))]
        }),
{
    let k = choose|k: int|
        0 <= k < registry.members.len() && registry.members[k] == member_of(session);
    let slot = registry.slot_of_connection(session.connection);
    assert(registry.members[k].connection == session.connection);
    assert(slot == k);
    let next = enrolled(registry, session, name, candidate);
    let profile = ProfileView { identity: candidate, name };
    lemma_with_profile_keeps_well_formed(registry, session.connection, candidate, name);
    lemma_recipients_with(registry.members, k, profile);
    assert(next.registry.members =~= registry.members.update(
        k,
        MemberView { profile: Some(profile), ..registry.members[k] },
    ));
    assert(next.registry.members[k] == member_of(next.session));
    assert(next.registry.members[k].is_registered_as(candidate));
    lemma_recipients_each_once(next.registry.members);
    lemma_recipients_each_once(registry.members);
    assert(!registry.has_identity(candidate)) by {
        if registry.has_identity(candidate) {
            let j = choose|j: int|
                0 <= j < registry.members.len() && #[trigger] registry.members[j].is_registered_as(
                    candidate,
                );
            assert(registry.members[j].profile is Some);
            assert(registry.assigned.contains(candidate));
            let i = choose|i: int|
                0 <= i < registry.assigned.len() && registry.assigned[i] == candidate;
            if i < registry.assigned.len() - 1 {
                assert(registry.assigned[i] < registry.assigned.last());
            }
        }
    }
    let before = registry.recipients();
    let notice = mess_frame(entered_line(name));
    let welcome = seq![
        ActionView::Send { connection: session.connection, frame: user_frame(candidate) },
    ];
    let notices = fan_out(before, notice);
    assert(next.outcome.actions == welcome + notices);
    assert(welcome.drop_last() =~= Seq::<ActionView>::empty());
    assert(!reaches(before, session.connection)) by {
        if reaches(before, session.connection) {
            let i = choose|i: int|
                0 <= i < before.len() && before[i].connection == session.connection;
            let j = lemma_recipient_is_member(registry.members, i);
            assert(registry.members[j].connection == registry.members[k].connection);
            assert(j == k);
        }
    }
    assert(deliveries_to(next.outcome.actions, session.connection) == seq![
        user_frame(candidate),
    ]) by {
        let to = session.connection;
        lemma_deliveries_in_order(welcome, notices, to);
        lemma_fan_out_deliveries(before, notice, to);
        assert(deliveries_to(welcome.drop_last(), to) =~= Seq::<Seq<u8>>::empty());
        assert(deliveries_to(welcome, to) =~= seq![user_frame(candidate)]);
        assert(deliveries_to(welcome, to) + deliveries_to(notices, to) =~= deliveries_to(
            welcome,
            to,
        ));
    }
    assert forall|j: int|
        0 <= j < registry.members.len() && (#[trigger] registry.members[j]).profile
            is Some implies deliveries_to(next.outcome.actions, registry.members[j].connection)
        == seq![notice] by {
        let to = registry.members[j].connection;
        assert(j != k);
        assert(to != session.connection);
        let i = lemma_member_is_recipient(registry.members, j);
        assert(before[i].connection == to);
        lemma_deliveries_in_order(welcome, notices, to);
        lemma_fan_out_deliveries(before, notice, to);
        assert(deliveries_to(welcome.drop_last(), to) =~= Seq::<Seq<u8>>::empty());
        assert(deliveries_to(welcome, to) =~= Seq::<Seq<u8>>::empty());
        assert(deliveries_to(welcome, to) + deliveries_to(notices, to) =~= deliveries_to(
            notices,
            to,
        ));
    }
}

/// Two peers may register under one name: where each brings an identity that
/// the registry admits, both are registered, under that name and under two
/// different identities.
pub proof fn lemma_same_name_twice(
    registry: RegistryView,
    first: SessionView,
    second: SessionView,
    name: Seq<u8>,
    one: u128,
    two: u128,
)
    requires
        registry.well_formed(),
        first.state is Connected,
        second.state is Connected,
        attached(registry, first),
        attached(registry, second),
        first.connection != second.connection,
        registry.admits(one),
        one < two,
    ensures
        ({
            let then = enrolled(registry, first, name, one);
            let last = enrolled(then.registry, second, name, two);
            &&& then.outcome.error is None
            &&& last.outcome.error is None
            &&& then.session.state == StateView::Registered { identity: one, name }
            &&& last.session.state == StateView::Registered { identity: two, name }
            &&& one != two
            &&& attached(last.registry, then.session)
            &&& attached(last.registry, last.session)
            &&& last.registry.assigned == registry.assigned.push(one).push(two)
        }),
{
    let a = choose|k: int|
        0 <= k < registry.members.len() && registry.members[k] == member_of(first);
    let b = choose|k: int|
        0 <= k < registry.members.len() && registry.members[k] == member_of(second);
    let slot_a = registry.slot_of_connection(first.connection);
    assert(registry.members[a].connection == first.connection);
    assert(slot_a == a);
    let then = enrolled(registry, first, name, one);
    assert(then.registry.members[a] == member_of(then.session));
    assert(then.registry.members[b] == member_of(second));
    let slot_b = then.registry.slot_of_connection(second.connection);
    assert(then.registry.members[b].connection == second.connection);
    assert(then.registry.members[slot_b].connection == second.connection);
    assert(registry.members[slot_b].connection == second.connection);
    assert(slot_b == b);
    let last = enrolled(then.registry, second, name, two);
    assert(last.registry.members[a] == member_of(then.session));
    assert(last.registry.members[b] == member_of(last.session));
}

// ---------------------------------------------------------------------------
// Messages
// ---------------------------------------------------------------------------

/// A `MESS` from a registered member goes to every registered member once,
/// the sender included, and to nobody else: with N other members registered
/// that makes N + 1 deliveries, each of the same line, which holds the text
/// byte for byte. Nothing else changes.
pub proof fn lemma_message_reaches_every_member(
    registry: RegistryView,
    session: SessionView,
    raw: Seq<u8>,
    packet: PacketView,
    candidate: u128,
    stamp: Seq<u8>,
)
    requires
        registry.well_formed(),
        session.state is Registered,
        attached(registry, session),
        decoded(raw) == Ok::<PacketView, DecodeError>(packet),
        packet.header == mess(),
    ensures
        ({
            let next = after(registry, session, EventView::Frame(raw), candidate, stamp);
            let others = registry.without_identity(session.state->identity).recipients();
            let frame = mess_frame(
                chat_line(session.state->name, stamp, join(packet.arguments)),
            );
            &&& next.registry == registry
            &&& next.session == session
            &&& next.outcome.error is None
            &&& next.outcome.actions == fan_out(registry.recipients(), frame)
            &&& next.outcome.actions.len() == others.len() + 1
            &&& forall|k: int|
                0 <= k < registry.members.len() && (#[trigger] registry.members[k]).profile
                    is Some ==> deliveries_to(next.outcome.actions, registry.members[k].connection)
                    == seq![frame]
            &&& forall|connection: u64|
                !reaches(registry.recipients(), connection) ==> #[trigger] deliveries_to(
                    next.outcome.actions,
                    connection,
                ) == Seq::<Seq<u8>>::empty()
        }),
{
    let next = after(registry, session, EventView::Frame(raw), candidate, stamp);
    let frame = mess_frame(chat_line(session.state->name, stamp, join(packet.arguments)));
    let all = registry.recipients();
    let slot = lemma_place_of_registered(registry, session);
    lemma_recipients_without(registry.members, slot);
    lemma_recipients_each_once(registry.members);
    assert forall|k: int|
        0 <= k < registry.members.len() && (#[trigger] registry.members[k]).profile
            is Some implies deliveries_to(next.outcome.actions, registry.members[k].connection)
        == seq![frame] by {
        let i = lemma_member_is_recipient(registry.members, k);
        assert(all[i].connection == registry.members[k].connection);
        lemma_fan_out_deliveries(all, frame, registry.members[k].connection);
    }
    assert forall|connection: u64| !reaches(all, connection) implies #[trigger] deliveries_to(
        next.outcome.actions,
        connection,
    ) == Seq::<Seq<u8>>::empty() by {
        lemma_fan_out_deliveries(all, frame, connection);
    }
}

/// What a client says arrives as it was said. A frame `MESS <text>` that fits,
/// is UTF-8 and tidy asks a registered session to say exactly `text`, spaces
/// and all.
pub proof fn lemma_said_text_is_kept(session: SessionView, text: Seq<u8>)
    requires
        session.state is Registered,
        mess_frame(text).len() <= MAX_FRAME,
        valid_utf8(mess_frame(text)),
        tidy(mess_frame(text)),
    ensures
        interpreted(session, EventView::Frame(mess_frame(text))) == (RequestView::Say { text }),
{
    let raw = mess_frame(text);
    lemma_headers_shape();
    lemma_tidy_is_trimmed(raw);
    lemma_text_behind_header(mess(), text);
}

/// What the server relays arrives as it was relayed. A frame `MESS <line>`
/// that fits, is UTF-8 and tidy shows the client exactly `line`.
pub proof fn lemma_relayed_line_is_kept(line: Seq<u8>)
    requires
        mess_frame(line).len() <= MAX_FRAME,
        valid_utf8(mess_frame(line)),
        tidy(mess_frame(line)),
    ensures
        notice_of(mess_frame(line)) == (NoticeView::Line { text: line }),
{
    let raw = mess_frame(line);
    lemma_headers_shape();
    lemma_tidy_is_trimmed(raw);
    lemma_text_behind_header(mess(), line);
}

// ---------------------------------------------------------------------------
// Departures
// ---------------------------------------------------------------------------

/// What holds when a registered member leaves, however it leaves: the registry
/// is one member shorter, holds neither its identity nor its connection, and
/// no broadcast reaches it any more; each member who stays registered gets the
/// leave notice once if the departure is announced and nothing if it is not;
/// the one who leaves gets the acknowledgment if there is one, and nothing
/// else.
pub proof fn lemma_departure(
    registry: RegistryView,
    session: SessionView,
    announce: bool,
    acknowledge: bool,
    error: Option<SessionError>,
)
    requires
        registry.well_formed(),
        session.state is Registered,
        attached(registry, session),
    ensures
        ({
            let next = departed(
                registry,
                session,
                session.state->identity,
                session.state->name,
                announce,
                acknowledge,
                error,
            );
            let notice = mess_frame(left_line(session.state->name));
            &&& next.registry.well_formed()
            &&& next.registry.members.len() + 1 == registry.members.len()
            &&& next.registry.recipients().len() + 1 == registry.recipients().len()
            &&& !next.registry.has_identity(session.state->identity)
            &&& !next.registry.has_connection(session.connection)
            &&& !reaches(next.registry.recipients(), session.connection)
            &&& attached(next.registry, next.session)
            &&& deliveries_to(next.outcome.actions, session.connection) == if acknowledge {
                seq![exit()]
            } else {
                Seq::<Seq<u8>>::empty()
            }
            &&& forall|k: int|
                0 <= k < registry.members.len() && (#[trigger] registry.members[k]).profile
                    is Some && registry.members[k].connection != session.connection
                    ==> deliveries_to(next.outcome.actions, registry.members[k].connection)
                    == if announce {
                    seq![notice]
                } else {
                    Seq::<Seq<u8>>::empty()
                }
        }),
{
    let identity = session.state->identity;
    let name = session.state->name;
    let next = departed(registry, session, identity, name, announce, acknowledge, error);
    let notice = mess_frame(left_line(name));
    let slot = lemma_place_of_registered(registry, session);
    let rest = registry.members.remove(slot);
    let stay = next.registry.recipients();
    assert(next.registry.members == rest);
    lemma_remove_keeps_well_formed(registry, slot);
    lemma_recipients_without(registry.members, slot);
    lemma_recipients_each_once(rest);
    assert forall|j: int| 0 <= j < rest.len() implies rest[j] == registry.members[if j < slot {
        j
    } else {
        j + 1
    }] by {}
    assert(!next.registry.has_identity(identity)) by {
        if next.registry.has_identity(identity) {
            let j = choose|j: int|
                0 <= j < rest.len() && #[trigger] rest[j].is_registered_as(identity);
            let k = if j < slot { j } else { j + 1 };
            assert(rest[j] == registry.members[k]);
            assert(registry.members[k].profile->0.identity
                == registry.members[slot].profile->0.identity);
        }
    }
    assert(!next.registry.has_connection(session.connection)) by {
        if next.registry.has_connection(session.connection) {
            let j = choose|j: int| 0 <= j < rest.len() && rest[j].connection == session.connection;
            let k = if j < slot { j } else { j + 1 };
            assert(rest[j] == registry.members[k]);
            assert(registry.members[k].connection == registry.members[slot].connection);
        }
    }
    assert(!reaches(stay, session.connection)) by {
        if reaches(stay, session.connection) {
            let i = choose|i: int| 0 <= i < stay.len() && stay[i].connection == session.connection;
            let j = lemma_recipient_is_member(rest, i);
            assert(rest[j].connection == session.connection);
        }
    }
    let notices = if announce {
        fan_out(stay, notice)
    } else {
        Seq::empty()
    };
    let farewell = if acknowledge {
        seq![ActionView::Send { connection: session.connection, frame: exit() }]
    } else {
        Seq::empty()
    };
    let close = seq![ActionView::Close { connection: session.connection }];
    assert(next.outcome.actions == notices + farewell + close);
    assert(close.drop_last() =~= Seq::<ActionView>::empty());
    assert(farewell.len() > 0 ==> farewell.drop_last() =~= Seq::<ActionView>::empty());
    assert forall|to: u64|
        true implies #[trigger] deliveries_to(next.outcome.actions, to) == deliveries_to(
            notices,
            to,
        ) + deliveries_to(farewell, to) by {
        lemma_deliveries_in_order(notices + farewell, close, to);
        lemma_deliveries_in_order(notices, farewell, to);
        assert(deliveries_to(close.drop_last(), to) =~= Seq::<Seq<u8>>::empty());
        assert(deliveries_to(close, to) =~= Seq::<Seq<u8>>::empty());
        assert(deliveries_to(notices + farewell, to) + deliveries_to(close, to) =~= deliveries_to(
            notices + farewell,
            to,
        ));
    }
    assert(deliveries_to(next.outcome.actions, session.connection) == if acknowledge {
        seq![exit()]
    } else {
        Seq::<Seq<u8>>::empty()
    }) by {
        let to = session.connection;
        if announce {
            lemma_fan_out_deliveries(stay, notice, to);
        }
        assert(deliveries_to(notices, to) =~= Seq::<Seq<u8>>::empty());
        if acknowledge {
            assert(deliveries_to(farewell.drop_last(), to) =~= Seq::<Seq<u8>>::empty());
            assert(deliveries_to(farewell, to) =~= seq![exit()]);
        }
        assert(deliveries_to(notices, to) + deliveries_to(farewell, to) =~= deliveries_to(
            farewell,
            to,
        ));
    }
    assert forall|k: int|
        0 <= k < registry.members.len() && (#[trigger] registry.members[k]).profile is Some
            && registry.members[k].connection != session.connection implies deliveries_to(
        next.outcome.actions,
        registry.members[k].connection,
    ) == if announce {
        seq![notice]
    } else {
        Seq::<Seq<u8>>::empty()
    } by {
        let to = registry.members[k].connection;
        let j = if k < slot { k } else { k - 1 };
        assert(rest[j] == registry.members[k]);
        let i = lemma_member_is_recipient(rest, j);
        assert(stay[i].connection == to);
        assert(reaches(stay, to));
        if announce {
            lemma_fan_out_deliveries(stay, notice, to);
        }
        if acknowledge {
            assert(deliveries_to(farewell.drop_last(), to) =~= Seq::<Seq<u8>>::empty());
        }
        assert(deliveries_to(farewell, to) =~= Seq::<Seq<u8>>::empty());
        assert(deliveries_to(notices, to) + deliveries_to(farewell, to) =~= deliveries_to(
            notices,
            to,
        ));
    }
}

/// After `EXIT` the session is closed and the registry holds neither its
/// identity nor its connection, so that no later broadcast reaches it. Every
/// other registered member gets the leave notice once; the one who leaves
/// gets the acknowledgment, once, and no notice.
pub proof fn lemma_exit_leaves_the_registry(
    registry: RegistryView,
    session: SessionView,
    raw: Seq<u8>,
    packet: PacketView,
    candidate: u128,
    stamp: Seq<u8>,
)
    requires
        registry.well_formed(),
        session.state is Registered,
        attached(registry, session),
        decoded(raw) == Ok::<PacketView, DecodeError>(packet),
        packet.header == exit(),
    ensures
        ({
            let next = after(registry, session, EventView::Frame(raw), candidate, stamp);
            let notice = mess_frame(left_line(session.state->name));
            &&& next.session == session.closed()
            &&& next.registry == registry.without_identity(session.state->identity)
            &&& next.registry.well_formed()
            &&& next.registry.members.len() + 1 == registry.members.len()
            &&& !next.registry.has_identity(session.state->identity)
            &&& !next.registry.has_connection(session.connection)
            &&& !reaches(next.registry.recipients(), session.connection)
            &&& next.outcome.error is None
            &&& next.outcome.actions.last() == ActionView::Close { connection: session.connection }
            &&& deliveries_to(next.outcome.actions, session.connection) == seq![exit()]
            &&& forall|k: int|
                0 <= k < registry.members.len() && (#[trigger] registry.members[k]).profile
                    is Some && registry.members[k].connection != session.connection
                    ==> deliveries_to(next.outcome.actions, registry.members[k].connection)
                    == seq![notice]
        }),
{
    lemma_headers_differ();
    lemma_departure(registry, session, true, true, None);
}

/// When a read on a registered session returns nothing, the registry gets
/// shorter by exactly one member, and every member who stays registered gets
/// the leave notice exactly once. The one who went gets nothing.
pub proof fn lemma_silent_read_ends_the_session(
    registry: RegistryView,
    session: SessionView,
    raw: Seq<u8>,
    candidate: u128,
    stamp: Seq<u8>,
)
    requires
        registry.well_formed(),
        session.state is Registered,
        attached(registry, session),
        all_zero(window(raw)),
    ensures
        ({
            let next = after(registry, session, EventView::Frame(raw), candidate, stamp);
            let notice = mess_frame(left_line(session.state->name));
            &&& next.session == session.closed()
            &&& next.registry == registry.without_identity(session.state->identity)
            &&& next.registry.well_formed()
            &&& next.registry.members.len() == registry.members.len() - 1
            &&& !next.registry.has_identity(session.state->identity)
            &&& next.outcome.error == Some(SessionError::PeerClosed)
            &&& deliveries_to(next.outcome.actions, session.connection) == Seq::<
                Seq<u8>,
            >::empty()
            &&& forall|k: int|
                0 <= k < registry.members.len() && (#[trigger] registry.members[k]).profile
                    is Some && registry.members[k].connection != session.connection
                    ==> deliveries_to(next.outcome.actions, registry.members[k].connection)
                    == seq![notice]
        }),
{
    lemma_departure(registry, session, true, false, Some(SessionError::PeerClosed));
}

// ---------------------------------------------------------------------------
// Closed sessions
// ---------------------------------------------------------------------------

/// The acknowledgment `EXIT` goes to a session only in the step that closes
/// it. Since nothing is done for a closed session, and the closing step sends
/// it once, no session is ever acknowledged twice.
pub proof fn lemma_acknowledged_at_most_once(
    registry: RegistryView,
    session: SessionView,
    request: RequestView,
    candidate: u128,
    stamp: Seq<u8>,
)
    ensures
        ({
            let next = performed(registry, session, request, candidate, stamp);
            forall|i: int|
                0 <= i < next.outcome.actions.len() && #[trigger] next.outcome.actions[i]
                    == (ActionView::Send { connection: session.connection, frame: exit() })
                    ==> session.state is Registered && next.session.state is Closed
        }),
{
    let next = performed(registry, session, request, candidate, stamp);
    lemma_headers_shape();
    assert forall|i: int|
        0 <= i < next.outcome.actions.len() && #[trigger] next.outcome.actions[i]
            == (ActionView::Send {
            connection: session.connection,
            frame: exit(),
        }) implies session.state is Registered && next.session.state is Closed by {
        let frame = next.outcome.actions[i]->frame;
        if !(session.state is Registered && next.session.state is Closed) {
            // Every frame of such a step begins with `M` or `U`.
            assert(frame[0] == 0x4d || frame[0] == 0x55) by {
                assert(user_frame(candidate)[0] == 0x55);
                assert(forall|line: Seq<u8>| (#[trigger] mess_frame(line))[0] == 0x4d);
            }
        }
    }
}

/// Nothing is done for a closed session, whatever happens on its connection.
pub proof fn lemma_closed_is_final(
    registry: RegistryView,
    session: SessionView,
    event: EventView,
    candidate: u128,
    stamp: Seq<u8>,
)
    requires
        session.state is Closed,
    ensures
        after(registry, session, event, candidate, stamp) == unchanged(registry, session, None),
{
}

} // verus!

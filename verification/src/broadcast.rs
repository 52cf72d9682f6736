//! Fan-out: one frame for every recipient, each on its own.

use crate::registry::{each_once, reaches, recipient_views, Recipient, RecipientView};
use vstd::prelude::*;

verus! {

/// What the owner of the sockets is to do. It does the actions of a list in
/// order, and goes on with the next one where a write fails.
#[derive(Debug)]
pub enum Action {
    /// Write `frame` to the socket of `connection`.
    Send { connection: u64, frame: Vec<u8> },
    /// Shut the socket of `connection`.
    Close { connection: u64 },
}

pub enum ActionView {
    Send { connection: u64, frame: Seq<u8> },
    Close { connection: u64 },
}

impl View for Action {
    type V = ActionView;

    open spec fn view(&self) -> ActionView {
        match *self {
            Action::Send { connection, frame } => ActionView::Send { connection, frame: frame@ },
            Action::Close { connection } => ActionView::Close { connection },
        }
    }
}

/// The views of the actions of a vector.
pub open spec fn action_views(actions: Seq<Action>) -> Seq<ActionView> {
    Seq::new(actions.len(), |i: int| actions[i]@)
}

/// One delivery of `frame` for each recipient, in the recipients' order.
pub open spec fn fan_out(recipients: Seq<RecipientView>, frame: Seq<u8>) -> Seq<ActionView> {
    Seq::new(
        recipients.len(),
        |i: int| ActionView::Send { connection: recipients[i].connection, frame },
    )
}

/// The frames that `actions` send to `connection`, in the order in which they
/// are sent.
pub open spec fn deliveries_to(actions: Seq<ActionView>, connection: u64) -> Seq<Seq<u8>>
    decreases actions.len(),
{
    if actions.len() == 0 {
        Seq::empty()
    } else {
        let before = deliveries_to(actions.drop_last(), connection);
        match actions.last() {
            ActionView::Send { connection: to, frame } => if to == connection {
                before.push(frame)
            } else {
                before
            },
            ActionView::Close { .. } => before,
        }
    }
}

/// Makes the deliveries of one broadcast: `frame` to every recipient, none
/// depending on another.
pub fn broadcast(frame: &[u8], recipients: &Vec<Recipient>) -> (actions: Vec<Action>)
    ensures
        action_views(actions@) == fan_out(recipient_views(recipients@), frame@),
{
    let mut actions: Vec<Action> = Vec::new();
    let mut i: usize = 0;
    while i < recipients.len()
        invariant
            i <= recipients@.len(),
            actions@.len() == i,
            forall|j: int|
                0 <= j < i ==> actions@[j]@ == (ActionView::Send {
                    connection: recipients@[j].connection,
                    frame: frame@,
                }),
        decreases recipients@.len() - i,
    {
        actions.push(
            Action::Send {
                connection: recipients[i].connection,
                frame: vstd::slice::slice_to_vec(frame),
            },
        );
        i += 1;
    }
    assert(action_views(actions@) =~= fan_out(recipient_views(recipients@), frame@));
    actions
}

/// What two lists of actions send to a connection, one list after the other,
/// is what the first sends and then what the second sends: each recipient
/// gets the frames of successive broadcasts in the order of the broadcasts.
pub proof fn lemma_deliveries_in_order(
    first: Seq<ActionView>,
    second: Seq<ActionView>,
    connection: u64,
)
    ensures
        deliveries_to(first + second, connection) == deliveries_to(first, connection)
            + deliveries_to(second, connection),
    decreases second.len(),
{
    if second.len() == 0 {
        assert(first + second =~= first);
        assert(deliveries_to(first, connection) + deliveries_to(second, connection)
            =~= deliveries_to(first, connection));
    } else {
        lemma_deliveries_in_order(first, second.drop_last(), connection);
        assert((first + second).drop_last() =~= first + second.drop_last());
        assert((first + second).last() == second.last());
        let a = deliveries_to(first, connection);
        let b = deliveries_to(second.drop_last(), connection);
        match second.last() {
            ActionView::Send { connection: to, frame } => {
                if to == connection {
                    assert((a + b).push(frame) =~= a + b.push(frame));
                }
            },
            ActionView::Close { .. } => {},
        }
    }
}

/// A broadcast sends its frame once to each connection that it reaches, and
/// nothing to any other.
pub proof fn lemma_fan_out_deliveries(
    recipients: Seq<RecipientView>,
    frame: Seq<u8>,
    connection: u64,
)
    requires
        each_once(recipients),
    ensures
        deliveries_to(fan_out(recipients, frame), connection) == if reaches(
            recipients,
            connection,
        ) {
            seq![frame]
        } else {
            Seq::<Seq<u8>>::empty()
        },
    decreases recipients.len(),
{
    let actions = fan_out(recipients, frame);
    if recipients.len() > 0 {
        let init = recipients.drop_last();
        lemma_fan_out_deliveries(init, frame, connection);
        assert(actions.drop_last() =~= fan_out(init, frame));
        if recipients.last().connection == connection {
            assert(!reaches(init, connection)) by {
                if reaches(init, connection) {
                    let i = choose|i: int| 0 <= i < init.len() && init[i].connection == connection;
                    assert(recipients[i].connection == connection);
                }
            }
            assert(reaches(recipients, connection));
            assert(Seq::<Seq<u8>>::empty().push(frame) =~= seq![frame]);
        } else {
            assert(reaches(init, connection) == reaches(recipients, connection)) by {
                if reaches(init, connection) {
                    let i = choose|i: int| 0 <= i < init.len() && init[i].connection == connection;
                    assert(recipients[i].connection == connection);
                }
                if reaches(recipients, connection) {
                    let i = choose|i: int|
                        0 <= i < recipients.len() && recipients[i].connection == connection;
                    assert(init[i].connection == connection);
                }
            }
        }
    }
}

} // verus!

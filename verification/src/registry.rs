//! The registry: every live connection, in the order in which they came, and
//! the identities that were ever assigned.

use vstd::prelude::*;

verus! {

/// The address of a peer, as numbers: an IPv4 address fills the low 32 bits of
/// `ip`.
#[derive(Clone, Copy, Debug, PartialEq, Eq, Structural)]
pub struct PeerAddress {
    pub ip: u128,
    pub port: u16,
    pub v6: bool,
}

/// What a registered member goes by.
#[derive(Debug)]
pub struct Profile {
    pub identity: u128,
    pub name: Vec<u8>,
}

/// One live connection. `connection` is the number by which the sockets'
/// owner knows it; `profile` is there once the peer has registered.
#[derive(Debug)]
pub struct Member {
    pub connection: u64,
    pub address: PeerAddress,
    pub profile: Option<Profile>,
}

/// A member that broadcasts go to.
#[derive(Debug)]
pub struct Recipient {
    pub connection: u64,
    pub identity: u128,
    pub name: Vec<u8>,
}

/// Why a member could not be registered.
#[derive(Clone, Copy, Debug, PartialEq, Eq, Structural)]
pub enum RegistryError {
    /// No member has that connection.
    UnknownConnection,
    /// The member of that connection is registered already.
    AlreadyRegistered,
    /// The identity is not greater than every identity assigned before.
    StaleIdentity,
}

pub struct ProfileView {
    pub identity: u128,
    pub name: Seq<u8>,
}

pub struct MemberView {
    pub connection: u64,
    pub address: PeerAddress,
    pub profile: Option<ProfileView>,
}

pub struct RecipientView {
    pub connection: u64,
    pub identity: u128,
    pub name: Seq<u8>,
}

impl View for Profile {
    type V = ProfileView;

    open spec fn view(&self) -> ProfileView {
        ProfileView { identity: self.identity, name: self.name@ }
    }
}

impl View for Member {
    type V = MemberView;

    open spec fn view(&self) -> MemberView {
        MemberView {
            connection: self.connection,
            address: self.address,
            profile: match self.profile {
                Some(profile) => Some(profile@),
                None => None,
            },
        }
    }
}

impl View for Recipient {
    type V = RecipientView;

    open spec fn view(&self) -> RecipientView {
        RecipientView { connection: self.connection, identity: self.identity, name: self.name@ }
    }
}

impl MemberView {
    /// True when the member is registered under `identity`.
    pub open spec fn is_registered_as(self, identity: u128) -> bool {
        self.profile matches Some(profile) && profile.identity == identity
    }

    /// True when the member has not registered and sits at `address`.
    pub open spec fn is_pending_at(self, address: PeerAddress) -> bool {
        self.profile is None && self.address == address
    }
}

/// The members of `members` that are registered, in the same order: those that
/// broadcasts go to.
pub open spec fn recipients_of(members: Seq<MemberView>) -> Seq<RecipientView>
    decreases members.len(),
{
    if members.len() == 0 {
        Seq::empty()
    } else {
        let before = recipients_of(members.drop_last());
        match members.last().profile {
            Some(profile) => before.push(
                RecipientView {
                    connection: members.last().connection,
                    identity: profile.identity,
                    name: profile.name,
                },
            ),
            None => before,
        }
    }
}

/// `members` without those that have not registered and sit at `address`.
pub open spec fn settled(members: Seq<MemberView>, address: PeerAddress) -> Seq<MemberView>
    decreases members.len(),
{
    if members.len() == 0 {
        Seq::empty()
    } else {
        let before = settled(members.drop_last(), address);
        if members.last().is_pending_at(address) {
            before
        } else {
            before.push(members.last())
        }
    }
}

/// What a [`Registry`] stands for.
pub struct RegistryView {
    /// The live connections, oldest first.
    pub members: Seq<MemberView>,
    /// Every identity that was ever assigned, oldest first.
    pub assigned: Seq<u128>,
    /// The identity that was assigned last, if any was.
    pub newest: Option<u128>,
}

impl RegistryView {
    /// No connection and no identity occurs twice, the identities were
    /// assigned in rising order, and every registered member has one of them.
    pub open spec fn well_formed(self) -> bool {
        &&& forall|i: int, j: int|
            0 <= i < j < self.members.len() ==> self.members[i].connection
                != self.members[j].connection
        &&& forall|i: int, j: int|
            0 <= i < j < self.assigned.len() ==> self.assigned[i] < self.assigned[j]
        &&& forall|i: int|
            0 <= i < self.members.len() ==> (#[trigger] self.members[i].profile matches Some(
                profile,
            ) ==> self.assigned.contains(profile.identity))
        &&& forall|i: int, j: int|
            0 <= i < j < self.members.len() ==> !(self.members[i].profile is Some
                && self.members[j].profile is Some && self.members[i].profile->0.identity
                == self.members[j].profile->0.identity)
        &&& self.newest == if self.assigned.len() == 0 {
            None::<u128>
        } else {
            Some(self.assigned.last())
        }
    }

    /// True when some member has `connection`.
    pub open spec fn has_connection(self, connection: u64) -> bool {
        exists|i: int| 0 <= i < self.members.len() && self.members[i].connection == connection
    }

    /// Where the member of `connection` stands, if there is one.
    pub open spec fn slot_of_connection(self, connection: u64) -> int {
        choose|i: int| 0 <= i < self.members.len() && self.members[i].connection == connection
    }

    /// True when some member is registered under `identity`.
    pub open spec fn has_identity(self, identity: u128) -> bool {
        exists|i: int|
            0 <= i < self.members.len() && #[trigger] self.members[i].is_registered_as(identity)
    }

    /// Where the member registered under `identity` stands, if there is one.
    pub open spec fn slot_of_identity(self, identity: u128) -> int {
        choose|i: int|
            0 <= i < self.members.len() && #[trigger] self.members[i].is_registered_as(identity)
    }

    /// True when `identity` is greater than every identity assigned so far.
    pub open spec fn admits(self, identity: u128) -> bool {
        self.newest matches Some(newest) ==> newest < identity
    }

    /// The registry with one more member, not yet registered.
    pub open spec fn with_pending(self, connection: u64, address: PeerAddress) -> RegistryView {
        RegistryView {
            members: self.members.push(MemberView { connection, address, profile: None }),
            ..self
        }
    }

    /// Whether the member of `connection` can be registered under `identity`,
    /// and if not, why.
    pub open spec fn promotion(self, connection: u64, identity: u128) -> Result<
        (),
        RegistryError,
    > {
        if !self.has_connection(connection) {
            Err(RegistryError::UnknownConnection)
        } else if self.members[self.slot_of_connection(connection)].profile is Some {
            Err(RegistryError::AlreadyRegistered)
        } else if !self.admits(identity) {
            Err(RegistryError::StaleIdentity)
        } else {
            Ok(())
        }
    }

    /// The registry with the member of `connection` registered under
    /// `identity` and `name`.
    pub open spec fn with_profile(
        self,
        connection: u64,
        identity: u128,
        name: Seq<u8>,
    ) -> RegistryView {
        let slot = self.slot_of_connection(connection);
        RegistryView {
            members: self.members.update(
                slot,
                MemberView {
                    connection,
                    address: self.members[slot].address,
                    profile: Some(ProfileView { identity, name }),
                },
            ),
            assigned: self.assigned.push(identity),
            newest: Some(identity),
        }
    }

    /// The registry without the member registered under `identity`; the same
    /// registry where there is none.
    pub open spec fn without_identity(self, identity: u128) -> RegistryView {
        if self.has_identity(identity) {
            RegistryView { members: self.members.remove(self.slot_of_identity(identity)), ..self }
        } else {
            self
        }
    }

    /// The registry without the members that have not registered and sit at
    /// `address`.
    pub open spec fn without_pending_at(self, address: PeerAddress) -> RegistryView {
        RegistryView { members: settled(self.members, address), ..self }
    }

    /// The members that broadcasts go to, oldest first.
    pub open spec fn recipients(self) -> Seq<RecipientView> {
        recipients_of(self.members)
    }
}

/// The views of the members of a vector.
pub open spec fn member_views(members: Seq<Member>) -> Seq<MemberView> {
    Seq::new(members.len(), |i: int| members[i]@)
}

/// The views of the recipients of a vector.
pub open spec fn recipient_views(recipients: Seq<Recipient>) -> Seq<RecipientView> {
    Seq::new(recipients.len(), |i: int| recipients[i]@)
}

/// The registry. Its one owner hands it out to one session at a time, so that
/// each operation sees the whole of what the one before it left.
pub struct Registry {
    members: Vec<Member>,
    newest: Option<u128>,
    assigned: Ghost<Seq<u128>>,
}

impl View for Registry {
    type V = RegistryView;

    closed spec fn view(&self) -> RegistryView {
        RegistryView {
            members: member_views(self.members@),
            assigned: self.assigned@,
            newest: self.newest,
        }
    }
}

/// Taking one member out leaves a well-formed registry well formed.
pub proof fn lemma_remove_keeps_well_formed(registry: RegistryView, slot: int)
    requires
        registry.well_formed(),
        0 <= slot < registry.members.len(),
    ensures
        (RegistryView { members: registry.members.remove(slot), ..registry }).well_formed(),
{
    let old_members = registry.members;
    let new_members = old_members.remove(slot);
    let after = RegistryView { members: new_members, ..registry };
    assert forall|i: int| 0 <= i < new_members.len() implies new_members[i] == old_members[if i
        < slot {
        i
    } else {
        i + 1
    }] by {}
    assert forall|i: int, j: int| 0 <= i < j < new_members.len() implies new_members[i].connection
        != new_members[j].connection by {
        let a = if i < slot { i } else { i + 1 };
        let b = if j < slot { j } else { j + 1 };
        assert(new_members[i] == old_members[a]);
        assert(new_members[j] == old_members[b]);
    }
    assert forall|i: int| 0 <= i < new_members.len() implies (
    #[trigger] new_members[i].profile matches Some(profile) ==> after.assigned.contains(
        profile.identity,
    )) by {
        let a = if i < slot { i } else { i + 1 };
        assert(new_members[i] == old_members[a]);
        assert(old_members[a].profile matches Some(profile) ==> registry.assigned.contains(
            profile.identity,
        ));
    }
    assert forall|i: int, j: int| 0 <= i < j < new_members.len() implies !(
    new_members[i].profile is Some && new_members[j].profile is Some
        && new_members[i].profile->0.identity == new_members[j].profile->0.identity) by {
        let a = if i < slot { i } else { i + 1 };
        let b = if j < slot { j } else { j + 1 };
        assert(new_members[i] == old_members[a]);
        assert(new_members[j] == old_members[b]);
    }
}

/// Registering a pending member under an identity that the registry admits
/// leaves a well-formed registry well formed.
pub proof fn lemma_with_profile_keeps_well_formed(
    registry: RegistryView,
    connection: u64,
    identity: u128,
    name: Seq<u8>,
)
    requires
        registry.well_formed(),
        registry.promotion(connection, identity) is Ok,
    ensures
        registry.with_profile(connection, identity, name).well_formed(),
{
    let before = registry;
    let after = registry.with_profile(connection, identity, name);
    let slot = registry.slot_of_connection(connection);
    assert forall|i: int| 0 <= i < before.assigned.len() implies before.assigned[i]
        < identity by {
        if i < before.assigned.len() - 1 {
            assert(before.assigned[i] < before.assigned.last());
        }
    }
    assert forall|i: int| 0 <= i < after.members.len() implies (
    #[trigger] after.members[i].profile matches Some(profile) ==> after.assigned.contains(
        profile.identity,
    )) by {
        if i != slot {
            assert(after.members[i] == before.members[i]);
            if before.members[i].profile is Some {
                let profile = before.members[i].profile->0;
                let k = choose|k: int|
                    0 <= k < before.assigned.len() && before.assigned[k] == profile.identity;
                assert(after.assigned[k] == profile.identity);
            }
        } else {
            assert(after.assigned[before.assigned.len() as int] == identity);
        }
    }
    assert forall|i: int, j: int| 0 <= i < j < after.members.len() implies !(
    after.members[i].profile is Some && after.members[j].profile is Some
        && after.members[i].profile->0.identity == after.members[j].profile->0.identity) by {
        let other = if i == slot { j } else { i };
        if i == slot || j == slot {
            assert(after.members[other] == before.members[other]);
            if before.members[other].profile is Some {
                let profile = before.members[other].profile->0;
                assert(before.assigned.contains(profile.identity));
                let k = choose|k: int|
                    0 <= k < before.assigned.len() && before.assigned[k] == profile.identity;
                assert(before.assigned[k] < identity);
            }
        } else {
            assert(after.members[i] == before.members[i]);
            assert(after.members[j] == before.members[j]);
        }
    }
}

/// Every member that [`settled`] keeps is a member that was there, and is not
/// pending at the address: the lemma gives its place.
pub proof fn lemma_settled_member(members: Seq<MemberView>, address: PeerAddress, i: int) -> (k:
    int)
    requires
        0 <= i < settled(members, address).len(),
    ensures
        0 <= k < members.len(),
        members[k] == settled(members, address)[i],
        !members[k].is_pending_at(address),
    decreases members.len(),
{
    let init = members.drop_last();
    if i < settled(init, address).len() {
        let k = lemma_settled_member(init, address, i);
        assert(members[k] == init[k]);
        k
    } else {
        members.len() - 1
    }
}

/// [`settled`] keeps the members in their order: one that stands behind
/// another stood behind it before.
pub proof fn lemma_settled_order(members: Seq<MemberView>, address: PeerAddress, i: int, j: int) -> (at:
    (int, int))
    requires
        0 <= i < j < settled(members, address).len(),
    ensures
        0 <= at.0 < at.1 < members.len(),
        members[at.0] == settled(members, address)[i],
        members[at.1] == settled(members, address)[j],
    decreases members.len(),
{
    let init = members.drop_last();
    if j < settled(init, address).len() {
        let at = lemma_settled_order(init, address, i, j);
        assert(members[at.0] == init[at.0]);
        assert(members[at.1] == init[at.1]);
        at
    } else {
        let a = lemma_settled_member(init, address, i);
        assert(members[a] == init[a]);
        (a, members.len() - 1)
    }
}

/// Taking out the pending members at an address leaves a well-formed registry
/// well formed.
pub proof fn lemma_without_pending_keeps_well_formed(registry: RegistryView, address: PeerAddress)
    requires
        registry.well_formed(),
    ensures
        registry.without_pending_at(address).well_formed(),
{
    let after = registry.without_pending_at(address);
    assert forall|i: int, j: int| 0 <= i < j < after.members.len() implies after.members[i].connection
        != after.members[j].connection by {
        let at = lemma_settled_order(registry.members, address, i, j);
    }
    assert forall|i: int| 0 <= i < after.members.len() implies (
    #[trigger] after.members[i].profile matches Some(profile) ==> after.assigned.contains(
        profile.identity,
    )) by {
        let k = lemma_settled_member(registry.members, address, i);
        assert(registry.members[k].profile matches Some(profile) ==> registry.assigned.contains(
            profile.identity,
        ));
    }
    assert forall|i: int, j: int| 0 <= i < j < after.members.len() implies !(
    after.members[i].profile is Some && after.members[j].profile is Some
        && after.members[i].profile->0.identity == after.members[j].profile->0.identity) by {
        let at = lemma_settled_order(registry.members, address, i, j);
    }
}

/// The recipients of one list of members after another are those of the first,
/// then those of the second.
pub proof fn lemma_recipients_concat(first: Seq<MemberView>, second: Seq<MemberView>)
    ensures
        recipients_of(first + second) == recipients_of(first) + recipients_of(second),
    decreases second.len(),
{
    if second.len() == 0 {
        assert(first + second =~= first);
        assert(recipients_of(first) + recipients_of(second) =~= recipients_of(first));
    } else {
        lemma_recipients_concat(first, second.drop_last());
        assert((first + second).drop_last() =~= first + second.drop_last());
        assert((first + second).last() == second.last());
        let a = recipients_of(first);
        let b = recipients_of(second.drop_last());
        if second.last().profile is Some {
            let r = RecipientView {
                connection: second.last().connection,
                identity: second.last().profile->0.identity,
                name: second.last().profile->0.name,
            };
            assert((a + b).push(r) =~= a + b.push(r));
        }
    }
}

/// True when `recipient` is what the registered `member` appears as.
pub open spec fn stands_for(member: MemberView, recipient: RecipientView) -> bool {
    &&& member.connection == recipient.connection
    &&& member.profile == Some(
        ProfileView { identity: recipient.identity, name: recipient.name },
    )
}

/// True when no two of `members` share a connection.
pub open spec fn distinct_connections(members: Seq<MemberView>) -> bool {
    forall|i: int, j: int|
        0 <= i < j < members.len() ==> members[i].connection != members[j].connection
}

/// True when `connection` is the connection of one of `recipients`.
pub open spec fn reaches(recipients: Seq<RecipientView>, connection: u64) -> bool {
    exists|i: int| 0 <= i < recipients.len() && recipients[i].connection == connection
}

/// True when no two of `recipients` share a connection.
pub open spec fn each_once(recipients: Seq<RecipientView>) -> bool {
    forall|i: int, j: int|
        0 <= i < j < recipients.len() ==> recipients[i].connection != recipients[j].connection
}

/// Every recipient is a registered member: the lemma gives its place.
pub proof fn lemma_recipient_is_member(members: Seq<MemberView>, i: int) -> (k: int)
    requires
        0 <= i < recipients_of(members).len(),
    ensures
        0 <= k < members.len(),
        stands_for(members[k], recipients_of(members)[i]),
    decreases members.len(),
{
    let init = members.drop_last();
    if i < recipients_of(init).len() {
        let k = lemma_recipient_is_member(init, i);
        assert(members[k] == init[k]);
        k
    } else {
        members.len() - 1
    }
}

/// Every registered member is a recipient: the lemma gives its place.
pub proof fn lemma_member_is_recipient(members: Seq<MemberView>, k: int) -> (i: int)
    requires
        0 <= k < members.len(),
        members[k].profile is Some,
    ensures
        0 <= i < recipients_of(members).len(),
        stands_for(members[k], recipients_of(members)[i]),
    decreases members.len(),
{
    let init = members.drop_last();
    if k < init.len() {
        assert(init[k] == members[k]);
        let i = lemma_member_is_recipient(init, k);
        assert(recipients_of(members)[i] == recipients_of(init)[i]);
        i
    } else {
        recipients_of(members).len() - 1
    }
}

/// Where no two members share a connection, no two recipients do.
pub proof fn lemma_recipients_each_once(members: Seq<MemberView>)
    requires
        distinct_connections(members),
    ensures
        each_once(recipients_of(members)),
    decreases members.len(),
{
    let all = recipients_of(members);
    if members.len() > 0 {
        let init = members.drop_last();
        let before = recipients_of(init);
        assert(distinct_connections(init)) by {
            assert forall|i: int, j: int| 0 <= i < j < init.len() implies init[i].connection
                != init[j].connection by {
                assert(init[i] == members[i]);
                assert(init[j] == members[j]);
            }
        }
        lemma_recipients_each_once(init);
        assert forall|i: int, j: int| 0 <= i < j < all.len() implies all[i].connection
            != all[j].connection by {
            assert(all[i] == before[i]);
            if j < before.len() {
                assert(all[j] == before[j]);
            } else {
                let k = lemma_recipient_is_member(init, i);
                assert(members[k] == init[k]);
                assert(members[k].connection != members.last().connection);
            }
        }
    }
}

/// Taking a registered member out takes one recipient out.
pub proof fn lemma_recipients_without(members: Seq<MemberView>, slot: int)
    requires
        0 <= slot < members.len(),
        members[slot].profile is Some,
    ensures
        recipients_of(members.remove(slot)).len() + 1 == recipients_of(members).len(),
{
    let head = members.take(slot);
    let tail = members.skip(slot + 1);
    let one = seq![members[slot]];
    assert(members =~= head + one + tail);
    assert(members.remove(slot) =~= head + tail);
    lemma_recipients_concat(head, one);
    lemma_recipients_concat(head + one, tail);
    lemma_recipients_concat(head, tail);
    assert(one.drop_last() =~= Seq::<MemberView>::empty());
    assert(recipients_of(one.drop_last()).len() == 0);
    assert(recipients_of(one).len() == 1);
}

/// Registering a pending member adds one recipient.
pub proof fn lemma_recipients_with(members: Seq<MemberView>, slot: int, profile: ProfileView)
    requires
        0 <= slot < members.len(),
        members[slot].profile is None,
    ensures
        recipients_of(
            members.update(slot, MemberView { profile: Some(profile), ..members[slot] }),
        ).len() == recipients_of(members).len() + 1,
{
    let head = members.take(slot);
    let tail = members.skip(slot + 1);
    let old = seq![members[slot]];
    let new = seq![MemberView { profile: Some(profile), ..members[slot] }];
    assert(members =~= head + old + tail);
    assert(members.update(slot, new[0]) =~= head + new + tail);
    lemma_recipients_concat(head, old);
    lemma_recipients_concat(head + old, tail);
    lemma_recipients_concat(head, new);
    lemma_recipients_concat(head + new, tail);
    assert(old.drop_last() =~= Seq::<MemberView>::empty());
    assert(new.drop_last() =~= Seq::<MemberView>::empty());
    assert(recipients_of(old.drop_last()).len() == 0);
    assert(recipients_of(new.drop_last()).len() == 0);
}

impl Registry {
    /// True when the registry is well formed. Every operation asks for this
    /// and keeps it.
    pub open spec fn wf(&self) -> bool {
        self@.well_formed()
    }

    /// A registry without members, in which no identity was assigned yet.
    pub fn new() -> (registry: Registry)
        ensures
            registry.wf(),
            registry@.members == Seq::<MemberView>::empty(),
            registry@.assigned == Seq::<u128>::empty(),
            registry@.newest == None::<u128>,
    {
        let registry = Registry { members: Vec::new(), newest: None, assigned: Ghost(Seq::empty()) };
        assert(registry@.members =~= Seq::<MemberView>::empty());
        registry
    }

    /// The number of members, registered or not.
    pub fn len(&self) -> (n: usize)
        ensures
            n == self@.members.len(),
    {
        self.members.len()
    }

    /// Where the member of `connection` stands; the number of members where
    /// there is none.
    fn find_connection(&self, connection: u64) -> (slot: usize)
        ensures
            slot <= self@.members.len(),
            slot < self@.members.len() ==> self@.members[slot as int].connection == connection,
            slot == self@.members.len() ==> !self@.has_connection(connection),
    {
        let mut i: usize = 0;
        while i < self.members.len()
            invariant
                i <= self.members@.len(),
                forall|j: int| 0 <= j < i ==> self@.members[j].connection != connection,
            decreases self.members@.len() - i,
        {
            if self.members[i].connection == connection {
                return i;
            }
            i += 1;
        }
        i
    }

    /// Where the member registered under `identity` stands; the number of
    /// members where there is none.
    fn find_identity(&self, identity: u128) -> (slot: usize)
        ensures
            slot <= self@.members.len(),
            slot < self@.members.len() ==> self@.members[slot as int].is_registered_as(identity),
            slot == self@.members.len() ==> !self@.has_identity(identity),
    {
        let mut i: usize = 0;
        while i < self.members.len()
            invariant
                i <= self.members@.len(),
                forall|j: int| 0 <= j < i ==> !self@.members[j].is_registered_as(identity),
            decreases self.members@.len() - i,
        {
            match &self.members[i].profile {
                Some(profile) => {
                    if profile.identity == identity {
                        return i;
                    }
                },
                None => {},
            }
            i += 1;
        }
        i
    }

    /// True when some member is registered under `identity`.
    pub fn contains_identity(&self, identity: u128) -> (found: bool)
        ensures
            found == self@.has_identity(identity),
    {
        self.find_identity(identity) < self.members.len()
    }

    /// Takes in a new connection, not yet registered, behind the members that
    /// are there. Refuses a connection number that a member has already, and
    /// says so by `false`.
    pub fn insert_connection(&mut self, connection: u64, address: PeerAddress) -> (inserted: bool)
        requires
            old(self).wf(),
        ensures
            final(self).wf(),
            inserted == !old(self)@.has_connection(connection),
            final(self)@ == if inserted {
                old(self)@.with_pending(connection, address)
            } else {
                old(self)@
            },
    {
        let slot = self.find_connection(connection);
        if slot < self.members.len() {
            return false;
        }
        self.members.push(Member { connection, address, profile: None });
        proof {
            let before = old(self)@;
            let after = before.with_pending(connection, address);
            assert(self@.members =~= after.members);
            assert forall|i: int, j: int| 0 <= i < j < after.members.len() implies
                after.members[i].connection != after.members[j].connection by {
                if j == before.members.len() {
                    assert(before.members[i].connection != connection);
                }
            }
            assert forall|i: int| 0 <= i < after.members.len() implies (
            #[trigger] after.members[i].profile matches Some(profile) ==> after.assigned.contains(
                profile.identity,
            )) by {
                if i < before.members.len() {
                    assert(after.members[i] == before.members[i]);
                }
            }
        }
        true
    }

    /// Registers the member of `connection` under `identity` and `name`, and
    /// records the identity as assigned. Refuses, and changes nothing, where
    /// no member has that connection, where that member is registered
    /// already, or where the identity is not greater than every identity
    /// assigned before: so no identity is ever assigned twice.
    pub fn promote(&mut self, connection: u64, identity: u128, name: Vec<u8>) -> (result: Result<
        (),
        RegistryError,
    >)
        requires
            old(self).wf(),
        ensures
            final(self).wf(),
            result == old(self)@.promotion(connection, identity),
            final(self)@ == if result is Ok {
                old(self)@.with_profile(connection, identity, name@)
            } else {
                old(self)@
            },
    {
        let slot = self.find_connection(connection);
        if slot >= self.members.len() {
            return Err(RegistryError::UnknownConnection);
        }
        proof {
            let chosen = self@.slot_of_connection(connection);
            assert(self@.members[slot as int].connection == connection);
            assert(chosen == slot);
        }
        if self.members[slot].profile.is_some() {
            return Err(RegistryError::AlreadyRegistered);
        }
        match self.newest {
            Some(newest) => {
                if identity <= newest {
                    return Err(RegistryError::StaleIdentity);
                }
            },
            None => {},
        }
        let address = self.members[slot].address;
        let ghost name_view = name@;
        self.members.set(slot, Member { connection, address, profile: Some(Profile { identity, name }) });
        self.newest = Some(identity);
        self.assigned = Ghost(self.assigned@.push(identity));
        proof {
            lemma_with_profile_keeps_well_formed(old(self)@, connection, identity, name_view);
            assert(self@.members =~= old(self)@.with_profile(
                connection,
                identity,
                name_view,
            ).members);
        }
        Ok(())
    }

    /// Takes out the member registered under `identity`. Where there is none
    /// the registry stays as it is: that is no error.
    pub fn remove_by_identity(&mut self, identity: u128) -> (removed: bool)
        requires
            old(self).wf(),
        ensures
            final(self).wf(),
            removed == old(self)@.has_identity(identity),
            final(self)@ == old(self)@.without_identity(identity),
    {
        let slot = self.find_identity(identity);
        if slot >= self.members.len() {
            return false;
        }
        proof {
            let before = self@;
            let chosen = before.slot_of_identity(identity);
            assert(before.members[slot as int].is_registered_as(identity));
            assert(before.members[chosen].is_registered_as(identity));
            assert(chosen == slot);
            lemma_remove_keeps_well_formed(before, slot as int);
        }
        let _ = self.members.remove(slot);
        assert(self@.members =~= old(self)@.members.remove(slot as int));
        true
    }

    /// Takes out every member that has not registered and sits at `address`,
    /// and says how many they were.
    pub fn remove_by_address(&mut self, address: PeerAddress) -> (removed: usize)
        requires
            old(self).wf(),
        ensures
            final(self).wf(),
            final(self)@ == old(self)@.without_pending_at(address),
            removed == old(self)@.members.len() - final(self)@.members.len(),
    {
        let ghost before = self@;
        let ghost mut done: int = 0;
        let mut removed: usize = 0;
        let mut i: usize = 0;
        let total: usize = self.members.len();
        assert(before.members.len() == total);
        assert(before.members.take(0) =~= Seq::<MemberView>::empty());
        assert(self@.members =~= settled(before.members.take(0), address) + before.members.skip(0));
        while i < self.members.len()
            invariant
                self.wf(),
                before == old(self)@,
                self@.assigned == before.assigned,
                self@.newest == before.newest,
                0 <= done <= before.members.len() <= usize::MAX,
                done == i + removed,
                i == settled(before.members.take(done), address).len(),
                self@.members == settled(before.members.take(done), address) + before.members.skip(
                    done,
                ),
            decreases before.members.len() - done,
        {
            let ghost kept = settled(before.members.take(done), address);
            assert(self@.members[i as int] == before.members.skip(done)[0]);
            assert(before.members.take(done + 1).drop_last() =~= before.members.take(done));
            assert(before.members.take(done + 1).last() == before.members[done]);
            let pending = self.members[i].profile.is_none() && self.members[i].address == address;
            if pending {
                proof {
                    lemma_remove_keeps_well_formed(self@, i as int);
                }
                let ghost current = self@.members;
                let _ = self.members.remove(i);
                assert(self@.members =~= current.remove(i as int));
                assert(self@.members =~= kept + before.members.skip(done + 1));
                removed += 1;
            } else {
                assert(self@.members =~= kept.push(before.members[done]) + before.members.skip(
                    done + 1,
                ));
                i += 1;
            }
            proof {
                done = done + 1;
            }
        }
        assert(before.members.take(done) =~= before.members);
        assert(self@.members =~= settled(before.members, address));
        removed
    }

    /// The members that broadcasts go to at this moment: the registered ones,
    /// oldest first, each once.
    pub fn snapshot(&self) -> (recipients: Vec<Recipient>)
        ensures
            recipient_views(recipients@) == self@.recipients(),
    {
        let mut recipients: Vec<Recipient> = Vec::new();
        let mut i: usize = 0;
        assert(self@.members.take(0) =~= Seq::<MemberView>::empty());
        assert(recipient_views(recipients@) =~= recipients_of(self@.members.take(0)));
        while i < self.members.len()
            invariant
                i <= self.members@.len(),
                recipient_views(recipients@) == recipients_of(self@.members.take(i as int)),
            decreases self.members@.len() - i,
        {
            let ghost before = recipient_views(recipients@);
            assert(self@.members.take(i + 1).drop_last() =~= self@.members.take(i as int));
            assert(self@.members.take(i + 1).last() == self@.members[i as int]);
            match &self.members[i].profile {
                Some(profile) => {
                    let recipient = Recipient {
                        connection: self.members[i].connection,
                        identity: profile.identity,
                        name: profile.name.clone(),
                    };
                    recipients.push(recipient);
                    assert(recipient_views(recipients@) =~= before.push(recipients@.last()@));
                },
                None => {},
            }
            i += 1;
        }
        assert(self@.members.take(i as int) =~= self@.members);
        recipients
    }
}

} // verus!

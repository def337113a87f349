//! Scoped runtime routing: retained streams whose storage, subscriptions and waiters
//! are charged to grants.
use crate::derive_laws::splits;
use crate::error::{CloseReason, ReceiveError, TopicError, TopicTypeMismatch};
use crate::event::{EventId, EventSpec};
use crate::fabric_model::{
    one_subscription, publish_right, refusal, CursorView, Declaration, EntryView, FabricView,
    Refusal, StreamConfig, StreamView,
};
use crate::fabric_laws::{
    enduring, enduring_but, fewer, fewer_but, lasting, lemma_own_entry, lemma_recv_now_keeps,
    lemma_send_now_keeps, settled, stays,
};
use crate::fabric_steps::{
    claims_kept, lemma_advance, lemma_append, lemma_append_claims, lemma_charge,
    lemma_claims_entry, lemma_consumed_unneeded, lemma_declare, lemma_delist, lemma_dropped,
    lemma_emptied, lemma_end_wait, lemma_enlist, lemma_extends, lemma_find_some, lemma_flags,
    lemma_kept_signals, lemma_kept_steady, lemma_older_unneeded, lemma_release, lemma_retire_keeps,
    lemma_same_needs, lemma_wait, lemma_without_front, released, same_declared, same_members,
    steady,
};
use crate::grant::{Limits, Permission, Rights, StreamLimits, RESOURCES};
use crate::item::{StreamItem, SubscriptionRole};
use crate::ledger::{lemma_signals_wf, Grant, Lease, Ledger, Revocation};
use crate::ledger_laws::kept;
use crate::ledger_model::{of_owner, tally, LeaseRecord, LedgerView, NodeView, Owner, Signal};
use crate::payload::{Carries, Payloads};
use crate::reserve::{reserve_exact, reserve_one, reserve_queue, Reservation};
use std::collections::VecDeque;
use std::sync::Arc;
use vstd::prelude::*;

verus! {

broadcast use Ledger::lemma_wf;

/// What an event declares in a fabric that carries its payloads.
pub open spec fn declared<E: EventSpec, P: Carries<E::Payload>>() -> Declaration {
    Declaration { event: E::ID, payload: P::PAYLOAD, wire_major: E::WIRE_MAJOR }
}

pub(crate) fn declaration<E: EventSpec, P: Carries<E::Payload>>() -> (declaration: Declaration)
    ensures
        declaration == declared::<E, P>(),
{
    Declaration { event: E::ID, payload: P::PAYLOAD, wire_major: E::WIRE_MAJOR }
}

/// A retained publication and the charge for it.
struct Entry<P> {
    sequence: u64,
    value: Arc<P>,
    lease: Lease,
}

/// A live subscription.
struct Cursor {
    id: u64,
    next: u64,
    role: SubscriptionRole,
    node: usize,
    ticket: Ghost<nat>,
}

impl Cursor {
    spec fn view(self) -> CursorView {
        CursorView {
            id: self.id,
            next: self.next,
            role: self.role,
            node: self.node as nat,
            ticket: self.ticket@,
        }
    }
}

spec fn entry_views<P>(entries: Seq<Entry<P>>) -> Seq<EntryView<P>> {
    Seq::new(
        entries.len(),
        |i: int|
            EntryView {
                sequence: entries[i].sequence,
                value: *entries[i].value,
                ticket: entries[i].lease.ticket(),
            },
    )
}

spec fn cursor_view(cursor: Option<Cursor>) -> Option<CursorView> {
    match cursor {
        Some(cursor) => Some(cursor.view()),
        None => None,
    }
}

spec fn cursor_views(cursors: Seq<Option<Cursor>>) -> Seq<Option<CursorView>> {
    Seq::new(cursors.len(), |i: int| cursor_view(cursors[i]))
}

/// One retained stream.
struct Stream<P> {
    declaration: Declaration,
    config: StreamConfig,
    entries: VecDeque<Entry<P>>,
    subscribers: Vec<Option<Cursor>>,
    tail: u64,
    next_cursor: u64,
    closed: bool,
    needs_room: bool,
    waiters: usize,
    deferred: bool,
    allocation: Lease,
}

impl<P> Stream<P> {
    spec fn view(self) -> StreamView<P> {
        StreamView {
            declaration: self.declaration,
            config: self.config,
            entries: entry_views(self.entries@),
            subscribers: cursor_views(self.subscribers@),
            tail: self.tail,
            next_cursor: self.next_cursor,
            closed: self.closed,
            needs_room: self.needs_room,
            waiters: self.waiters as nat,
            deferred: self.deferred,
            storage: self.allocation.ticket(),
        }
    }
}

/// Every stream's charges are what the table says of them, and its payloads are of the type
/// that it is declared with.
spec fn stored<P: Payloads>(streams: Seq<Stream<P>>, table: Seq<Option<LeaseRecord>>) -> bool {
    &&& forall|s: int, i: int|
        0 <= s < streams.len() && 0 <= i < streams[s].entries@.len() ==> (
        #[trigger] streams[s].entries@[i]).lease.recorded(
            table,
            Owner::Entry(s as nat, streams[s].entries@[i].sequence as nat),
        )
    &&& forall|s: int|
        0 <= s < streams.len() ==> (#[trigger] streams[s]).allocation.recorded(
            table,
            Owner::Storage(s as nat),
        )
    &&& forall|s: int, i: int|
        0 <= s < streams.len() && 0 <= i < streams[s].entries@.len() ==> (
        #[trigger] streams[s].entries@[i]).value.kind() == streams[s].declaration.payload
}

/// Another handle to the same value.
///
/// Calls [`Arc::clone`], which makes another pointer to the same allocation.
#[verifier::external_body]
pub(crate) fn share<T: ?Sized>(value: &Arc<T>) -> (copy: Arc<T>)
    ensures
        copy == value,
{
    value.clone()
}

/// The requests for the storage of one stream: room for its publications, then for its
/// subscriptions, then for the stream itself among the others. Each is made only if the
/// ones before were granted.
pub struct StorageRequest {
    /// For the publications.
    pub entries: Reservation,
    /// For the subscriptions.
    pub subscribers: Option<Reservation>,
    /// For the stream.
    pub slot: Option<Reservation>,
}

impl StorageRequest {
    /// The room asked for is what the configuration says.
    pub open spec fn asks(self, config: StreamConfig) -> bool {
        &&& self.entries.is_for(config.capacity as nat)
        &&& self.subscribers is Some == self.entries.granted()
        &&& self.subscribers matches Some(room) ==> room.is_for(config.subscribers as nat)
        &&& self.slot is Some == (self.subscribers matches Some(room) && room.granted())
        &&& self.slot matches Some(room) ==> room.is_for(1)
    }

    /// All of it was to be had.
    pub open spec fn granted(self) -> bool {
        self.slot matches Some(room) && room.granted()
    }
}

/// What declaring a fresh stream that can be charged comes to, with or without room for
/// its storage.
pub open spec fn declared_as<P>(
    v: FabricView<P>,
    root: nat,
    declaration: Declaration,
    config: StreamConfig,
    granted: bool,
    result: Result<(), TopicError>,
    after: FabricView<P>,
) -> bool {
    if granted {
        result is Ok && after == v.declare(root, declaration, config)
    } else {
        &&& result == Err::<(), TopicError>(TopicError::Capacity)
        &&& after == v.with_ledger(
            v.ledger.charge(root, None, config.allowance(), Owner::Storage(v.streams.len())),
        ).release(v.ledger.table.len())
    }
}

/// Administrative owner of a scoped set of streams.
///
/// Components bind against derived grants, not this owner. Stream allocation and child
/// allowances both reserve resources from the owner's limits.
///
/// `P` is what the streams carry: a type that stands for the payload types of all their
/// events. Each stream carries payloads of the one type that its event has;
/// [`Carries::PAYLOAD`] keeps declarations with different payload types apart.
pub struct DynamicFabric<P> {
    ledger: Ledger,
    streams: Vec<Stream<P>>,
    root: Grant,
}

impl<P> View for DynamicFabric<P> {
    type V = FabricView<P>;

    closed spec fn view(&self) -> FabricView<P> {
        FabricView {
            ledger: self.ledger@,
            streams: Seq::new(self.streams@.len(), |s: int| self.streams@[s].view()),
        }
    }
}

impl<P: Payloads> DynamicFabric<P> {
    /// The fabric is in order.
    pub closed spec fn wf(&self) -> bool {
        &&& self.ledger.wf()
        &&& self.ledger.knows(&self.root)
        &&& self@.wf()
        &&& stored(self.streams@, self.ledger@.table)
    }

    /// What a fabric in order says of its model.
    pub broadcast proof fn lemma_wf(&self)
        requires
            #[trigger] self.wf(),
        ensures
            self@.wf(),
            self.root() < self@.ledger.nodes.len(),
            self@.ledger.nodes[self.root() as int].handles > 0,
    {
    }

    /// What a stream retains is of the payload type that it is declared with.
    pub proof fn law_kind(&self, s: int, i: int)
        requires
            self.wf(),
            0 <= s < self@.streams.len(),
            0 <= i < self@.streams[s].entries.len(),
        ensures
            self@.streams[s].entries[i].value.kind() == self@.streams[s].declaration.payload,
    {
        let e = self.streams@[s].entries@[i];
    }

    /// Slot of the owner's grant.
    pub closed spec fn root(&self) -> nat {
        self.root.node()
    }

    /// The grant of this handle is in this fabric.
    pub open spec fn knows(&self, grant: &Grant) -> bool {
        grant.node() < self@.ledger.nodes.len() && self@.ledger.nodes[grant.node() as int].handles
            > 0
    }

    /// Tests whether a required receiver still has to receive `sequence`.
    fn required_needs(&self, s: usize, sequence: u64) -> (needed: bool)
        requires
            self.wf(),
            s < self@.streams.len(),
        ensures
            needed == self@.required_needs(s as nat, sequence),
    {
        let ghost st = self@.streams[s as int];
        proof {
            assert(self@.stream_sound(s as nat));
        }
        let mut index: usize = 0;
        while index < self.streams[s].subscribers.len()
            invariant
                self.wf(),
                s < self@.streams.len(),
                st == self@.streams[s as int],
                self@.cursors_sound(s as nat),
                index <= st.subscribers.len(),
                forall|i: int| 0 <= i < index ==> !self@.holds_back(s as nat, i, sequence),
            decreases st.subscribers.len() - index,
        {
            assert(st.subscribers[index as int] == cursor_view(
                self.streams@[s as int].subscribers@[index as int],
            ));
            match &self.streams[s].subscribers[index] {
                Some(cursor) => {
                    if cursor.role == SubscriptionRole::Required && cursor.next <= sequence
                        && !self.ledger.is_revoked_at(cursor.node) {
                        assert(self@.holds_back(s as nat, index as int, sequence));
                        return true;
                    }
                },
                None => {},
            }
            index += 1;
        }
        false
    }

    /// Tests whether no receiver may still receive `sequence`.
    fn consumed(&self, s: usize, sequence: u64) -> (consumed: bool)
        requires
            self.wf(),
            s < self@.streams.len(),
        ensures
            consumed == self@.consumed(s as nat, sequence),
    {
        let ghost st = self@.streams[s as int];
        proof {
            assert(self@.stream_sound(s as nat));
        }
        let mut index: usize = 0;
        while index < self.streams[s].subscribers.len()
            invariant
                self.wf(),
                s < self@.streams.len(),
                st == self@.streams[s as int],
                self@.cursors_sound(s as nat),
                index <= st.subscribers.len(),
                forall|i: int| 0 <= i < index ==> !self@.may_receive(s as nat, i, sequence),
            decreases st.subscribers.len() - index,
        {
            assert(st.subscribers[index as int] == cursor_view(
                self.streams@[s as int].subscribers@[index as int],
            ));
            match &self.streams[s].subscribers[index] {
                Some(cursor) => {
                    if cursor.next <= sequence && !self.ledger.is_revoked_at(cursor.node) {
                        assert(self@.may_receive(s as nat, index as int, sequence));
                        return false;
                    }
                },
                None => {},
            }
            index += 1;
        }
        true
    }

    /// Ends a look at a stream that dispatches wakeups.
    fn unlock(&mut self, s: usize, dirty: bool)
        requires
            old(self).wf(),
            s < old(self)@.streams.len(),
        ensures
            final(self).wf(),
            final(self)@ == old(self)@.unlock(s as nat, dirty),
            final(self).root() == old(self).root(),
    {
        let ghost before = self@;
        if dirty || self.streams[s].deferred {
            self.streams[s].deferred = false;
            self.ledger.signal(Signal::Listener(s as u64));
            proof {
                let after = before.notify(s as nat);
                assert(self@.streams =~= after.streams);
                assert(self@ == after);
                lemma_signals_wf(before.ledger, after.ledger);
                lemma_flags(before, after);
            }
        }
    }

    /// Ends a look at a stream that leaves wakeups to maintenance.
    fn unlock_deferred(&mut self, s: usize, dirty: bool)
        requires
            old(self).wf(),
            s < old(self)@.streams.len(),
        ensures
            final(self).wf(),
            final(self)@ == old(self)@.unlock_deferred(s as nat, dirty),
            final(self).root() == old(self).root(),
    {
        let ghost before = self@;
        if dirty {
            self.streams[s].deferred = true;
            proof {
                let after = before.unlock_deferred(s as nat, dirty);
                assert(self@.streams =~= after.streams);
                lemma_flags(before, after);
            }
        }
    }

    /// Signals that an admitted operation of a grant has ended.
    pub(crate) fn pass(&mut self, grant: &Grant)
        requires
            old(self).wf(),
            old(self).knows(grant),
        ensures
            final(self).wf(),
            final(self)@ == old(self)@.passed(grant.node()),
            final(self).root() == old(self).root(),
            enduring(old(self)@.ledger, final(self)@.ledger),
            fewer(old(self)@.ledger, final(self)@.ledger),
            same_members(old(self)@, final(self)@),
    {
        let ghost before = self@;
        self.ledger.maintain_operations(grant);
        proof {
            let after = before.passed(grant.node());
            assert(self@.streams =~= after.streams);
            lemma_flags(before, after);
        }
    }

    /// Returns a charge that nothing in the fabric holds any more.
    pub(crate) fn put_back(&mut self, lease: Lease, owner: Ghost<Owner>)
        requires
            old(self).wf(),
            lease.recorded(old(self)@.ledger.table, owner@),
            !(owner@ is Child),
            !(owner@ is Waiter),
            !old(self)@.claims(owner@),
        ensures
            final(self).wf(),
            final(self)@ == old(self)@.release(lease.ticket()),
            final(self).root() == old(self).root(),
            kept(old(self)@.ledger, final(self)@.ledger),
            released(old(self)@.ledger, final(self)@.ledger, lease.ticket()),
            enduring_but(old(self)@.ledger, final(self)@.ledger, lease.ticket()),
            fewer(old(self)@.ledger, final(self)@.ledger),
            same_members(old(self)@, final(self)@),
    {
        let ghost before = self@;
        let ghost ticket = lease.ticket();
        assert(before.ledger.outstanding(ticket));
        self.ledger.release_owned(lease, owner);
        proof {
            let after = before.release(ticket);
            assert(self@.streams =~= after.streams);
            assert(self@.ledger == after.ledger);
            assert(released(before.ledger, self@.ledger, ticket));
            lemma_release(before, self@.ledger, ticket);
            lemma_stored(self.streams@, before, self@.ledger);
            assert(crate::ledger_laws::kept_node(before.ledger, self@.ledger, self.root.node()));
        }
    }

    /// Reclaims the oldest publication of a stream.
    fn retire_front(&mut self, s: usize)
        requires
            old(self).wf(),
            s < old(self)@.streams.len(),
            old(self)@.streams[s as int].entries.len() > 0,
            !old(self)@.required_needs(s as nat, old(self)@.streams[s as int].entries[0].sequence),
        ensures
            final(self).wf(),
            final(self)@ == old(self)@.retire_front(s as nat),
            final(self).root() == old(self).root(),
            kept(old(self)@.ledger, final(self)@.ledger),
            same_members(old(self)@, final(self)@),
            final(self)@.ledger.table.len() >= old(self)@.ledger.table.len(),
    {
        let ghost before = self@;
        let ghost q = before.streams[s as int].entries[0].sequence as nat;
        proof {
            lemma_without_front(before, s as nat);
        }
        let lease = self.take_front(s);
        self.unlock(s, true);
        let ghost opened = self@;
        proof {
            assert(opened.streams[s as int].entries == before.without_front(
                s as nat,
            ).streams[s as int].entries);
            assert(!opened.claims(Owner::Entry(s as nat, q)));
        }
        self.put_back(lease, Ghost(Owner::Entry(s as nat, q)));
        proof {
            lemma_kept_signals(before.ledger, opened.ledger, self@.ledger);
        }
    }

    /// Reclaims publications that no receiver may still receive.
    fn retire_consumed(&mut self, s: usize)
        requires
            old(self).wf(),
            s < old(self)@.streams.len(),
        ensures
            final(self).wf(),
            final(self)@ == old(self)@.retire_consumed(
                s as nat,
                old(self)@.streams[s as int].config.capacity as nat,
            ),
            final(self).root() == old(self).root(),
            steady(old(self)@.ledger, final(self)@.ledger),
            final(self)@.streams.len() == old(self)@.streams.len(),
            same_members(old(self)@, final(self)@),
            fewer(old(self)@.ledger, final(self)@.ledger),
            final(self)@.ledger.table.len() >= old(self)@.ledger.table.len(),
    {
        let capacity = self.streams[s].config.capacity;
        let ghost target = self@.retire_consumed(s as nat, capacity as nat);
        let mut tries: usize = capacity;
        while tries > 0
            invariant
                self.wf(),
                s < self@.streams.len(),
                self@.streams.len() == old(self)@.streams.len(),
                self.root() == old(self).root(),
                target == old(self)@.retire_consumed(
                    s as nat,
                    old(self)@.streams[s as int].config.capacity as nat,
                ),
                self@.retire_consumed(s as nat, tries as nat) == target,
                self@.ledger.table.len() >= old(self)@.ledger.table.len(),
                steady(old(self)@.ledger, self@.ledger),
                fewer(old(self)@.ledger, self@.ledger),
                same_members(old(self)@, self@),
            decreases tries,
        {
            let ghost here = self@;
            let stale = if self.streams[s].entries.len() > 0 {
                let sequence = self.streams[s].entries[0].sequence;
                self.consumed(s, sequence)
            } else {
                false
            };
            if !stale {
                self.unlock(s, false);
                assert forall|t: nat| #[trigger] self@.ledger.outstanding(t) implies old(
                    self,
                )@.ledger.outstanding(t) && self@.ledger.record(t) == old(self)@.ledger.record(
                    t,
                ) by {
                    assert(here.ledger.outstanding(t));
                }
                return ;
            }
            proof {
                lemma_consumed_unneeded(here, s as nat, here.streams[s as int].entries[0].sequence);
            }
            self.retire_front(s);
            proof {
                lemma_kept_steady(here.ledger, self@.ledger);
            }
            tries -= 1;
        }
    }

    /// Gives room to a stream that a strict publication found full.
    fn make_room(&mut self, s: usize)
        requires
            old(self).wf(),
            s < old(self)@.streams.len(),
        ensures
            final(self).wf(),
            final(self)@ == old(self)@.make_room(s as nat),
            final(self).root() == old(self).root(),
            steady(old(self)@.ledger, final(self)@.ledger),
            final(self)@.streams.len() == old(self)@.streams.len(),
            same_members(old(self)@, final(self)@),
            final(self)@.ledger.table.len() >= old(self)@.ledger.table.len(),
    {
        let ghost before = self@;
        let eligible = self.streams[s].needs_room && self.streams[s].entries.len()
            == self.streams[s].config.capacity && self.streams[s].entries.len() > 0 && {
            let sequence = self.streams[s].entries[0].sequence;
            !self.required_needs(s, sequence)
        };
        self.streams[s].needs_room = false;
        proof {
            let st = before.streams[s as int];
            let cleared = before.with_stream(s as nat, StreamView { needs_room: false, ..st });
            assert(self@.streams =~= cleared.streams);
            lemma_flags(before, cleared);
            assert(self@ == cleared);
        }
        let ghost cleared = self@;
        if eligible {
            proof {
                let oldest = before.streams[s as int].entries[0].sequence;
                lemma_same_needs(before, cleared, s as nat, oldest);
            }
            self.retire_front(s);
            proof {
                lemma_kept_steady(cleared.ledger, self@.ledger);
            }
        } else {
            self.unlock(s, false);
        }
    }

    /// Reclaims storage of one stream and dispatches its wakeups.
    fn maintain_stream(&mut self, s: usize)
        requires
            old(self).wf(),
            s < old(self)@.streams.len(),
        ensures
            final(self).wf(),
            final(self)@ == old(self)@.maintain_stream(s as nat),
            final(self).root() == old(self).root(),
            steady(old(self)@.ledger, final(self)@.ledger),
            final(self)@.streams.len() == old(self)@.streams.len(),
            same_members(old(self)@, final(self)@),
            final(self)@.ledger.table.len() >= old(self)@.ledger.table.len(),
    {
        self.retire_consumed(s);
        self.make_room(s);
    }

    /// Reclaims consumed storage and dispatches deferred wakeups for this scope.
    /// Call from a trusted application loop when using strict `try_*` operations.
    pub fn maintain(&mut self)
        requires
            old(self).wf(),
        ensures
            final(self).wf(),
            final(self).root() == old(self).root(),
            ({
                let streams = old(self)@.maintain_streams(old(self)@.streams.len());
                final(self)@ == streams.with_ledger(
                    LedgerView {
                        signals: streams.ledger.signals + streams.ledger.tree_signals(
                            old(self).root(),
                            streams.ledger.nodes.len(),
                        ),
                        ..streams.ledger
                    },
                )
            }),
    {
        let mut s: usize = 0;
        while s < self.streams.len()
            invariant
                self.wf(),
                self@.streams.len() == old(self)@.streams.len(),
                self@.streams.len() == self.streams@.len(),
                s <= self@.streams.len(),
                self@ == old(self)@.maintain_streams(s as nat),
                self.root() == old(self).root(),
            decreases self@.streams.len() - s,
        {
            self.maintain_stream(s);
            s += 1;
        }
        let ghost before = self@;
        self.ledger.maintain_tree(&self.root);
        proof {
            assert(self@.streams =~= before.streams);
            lemma_flags(before, self@);
        }
    }

    /// Charges one unit of event capacity to a grant.
    fn charge_stream(&mut self, s: usize, grant: &Grant, usage: StreamLimits) -> (result: Result<
        Lease,
        TopicError,
    >)
        requires
            old(self).wf(),
            s < old(self)@.streams.len(),
            old(self).knows(grant),
            usage.single(),
        ensures
            final(self).wf(),
            final(self).root() == old(self).root(),
            ({
                let before = old(self)@;
                let event = before.streams[s as int].declaration.event;
                let node = grant.node();
                match before.ledger.stream_charge_error(node, event, usage) {
                    Some(error) => result == Err::<Lease, TopicError>(error) && final(self)@
                        == before,
                    None => {
                        &&& result matches Ok(lease)
                        &&& lease.ticket() == before.ledger.table.len()
                        &&& lease.node() == node
                        &&& lease.recorded(final(self)@.ledger.table, Owner::Caller)
                        &&& final(self)@ == before.with_ledger(
                            before.ledger.charge(
                                node,
                                before.ledger.nodes[node as int].position(event),
                                usage.widened(),
                                Owner::Caller,
                            ),
                        )
                    },
                }
            }),
            steady(old(self)@.ledger, final(self)@.ledger),
    {
        let ghost before = self@;
        let event = self.streams[s].declaration.event;
        let result = self.ledger.charge_stream(grant, event, usage, Ghost(Owner::Caller));
        proof {
            if result is Ok {
                let node = grant.node();
                let position = before.ledger.nodes[node as int].position(event);
                let record = LeaseRecord {
                    node,
                    event: position,
                    usage: usage.widened(),
                    owner: Owner::Caller,
                };
                let lease = result->Ok_0;
                assert(self@.streams =~= before.streams);
                assert(self@.ledger.table == before.ledger.table.push(Some(record)));
                lemma_charge(before, self@.ledger, record);
                lemma_stored(self.streams@, before, self@.ledger);
                assert(lease.record(Owner::Caller) == record);
                assert(self@ == before.with_ledger(self@.ledger));
            } else {
                assert(self@.streams =~= before.streams);
            }
        }
        result
    }

    /// Charges the transport resources of a link to a grant.
    pub(crate) fn charge_link(&mut self, grant: &Grant, usage: Limits) -> (result: Result<
        Lease,
        TopicError,
    >)
        requires
            old(self).wf(),
            old(self).knows(grant),
        ensures
            final(self).wf(),
            final(self).root() == old(self).root(),
            match old(self)@.ledger.charge_error(grant.node(), None, usage) {
                Some(error) => result == Err::<Lease, TopicError>(error) && final(self)@ == old(
                    self,
                )@.refuse(grant.node(), usage),
                None => {
                    &&& result matches Ok(lease)
                    &&& lease.ticket() == old(self)@.ledger.table.len()
                    &&& lease.recorded(final(self)@.ledger.table, Owner::Link)
                    &&& final(self)@ == old(self)@.charge_link(grant.node(), usage)
                },
            },
            settled(old(self)@.ledger, final(self)@.ledger, grant.node(), 0),
            enduring(old(self)@.ledger, final(self)@.ledger),
    {
        let ghost before = self@;
        let result = self.ledger.charge_generic(grant, usage, Ghost(Owner::Link));
        proof {
            assert(self@.streams =~= before.streams);
            if result is Ok {
                let node = grant.node();
                let record = LeaseRecord { node, event: None, usage, owner: Owner::Link };
                assert(self@.ledger.table == before.ledger.table.push(Some(record)));
                lemma_charge(before, self@.ledger, record);
                lemma_stored(self.streams@, before, self@.ledger);
            } else {
                lemma_flags(before, self@);
            }
        }
        result
    }

    /// Finds the oldest publication of a stream that is charged to a grant and
    /// returns its sequence.
    fn own_entry(&self, s: usize, grant: &Grant) -> (found: Option<u64>)
        requires
            self.wf(),
            s < self@.streams.len(),
        ensures
            match self@.own_entry(s as nat, grant.node(), 0) {
                Some(i) => i < self@.streams[s as int].entries.len() && found == Some(
                    self@.streams[s as int].entries[i as int].sequence,
                ),
                None => found is None,
            },
    {
        let ghost st = self@.streams[s as int];
        let mut index: usize = 0;
        while index < self.streams[s].entries.len()
            invariant
                self.wf(),
                s < self@.streams.len(),
                st == self@.streams[s as int],
                st.entries.len() == self.streams@[s as int].entries@.len(),
                index <= st.entries.len(),
                self@.own_entry(s as nat, grant.node(), 0) == self@.own_entry(
                    s as nat,
                    grant.node(),
                    index as nat,
                ),
            decreases st.entries.len() - index,
        {
            let entry = &self.streams[s].entries[index];
            proof {
                let e = self.streams@[s as int].entries@[index as int];
                assert(e.lease.recorded(
                    self.ledger@.table,
                    Owner::Entry(s as nat, e.sequence as nat),
                ));
                assert(st.entries[index as int].ticket == e.lease.ticket());
            }
            if self.ledger.belongs_to(&entry.lease, grant) {
                return Some(entry.sequence);
            }
            index += 1;
        }
        None
    }

    /// Reserves one item of a grant in a stream, reclaiming storage for it.
    pub(crate) fn reserve(&mut self, s: usize, grant: &Grant) -> (result: Result<Lease, Refusal>)
        requires
            old(self).wf(),
            s < old(self)@.streams.len(),
            old(self).knows(grant),
        ensures
            final(self).wf(),
            final(self).root() == old(self).root(),
            final(self)@ == old(self)@.reserve(s as nat, grant.node()).1,
            match old(self)@.reserve(s as nat, grant.node()).0 {
                Some(refused) => result == Err::<Lease, Refusal>(refused),
                None => {
                    &&& result matches Ok(lease)
                    &&& final(self)@.ledger.table.len() > 0
                    &&& lease.ticket() == final(self)@.ledger.table.len() - 1
                    &&& lease.node() == grant.node()
                    &&& lease.recorded(final(self)@.ledger.table, Owner::Caller)
                },
            },
            steady(old(self)@.ledger, final(self)@.ledger),
            final(self)@.streams.len() == old(self)@.streams.len(),
            same_members(old(self)@, final(self)@),
            final(self)@.ledger.table.len() >= old(self)@.ledger.table.len(),
    {
        let event = self.streams[s].declaration.event;
        match self.ledger.can_enter(grant, event, Rights::publish()) {
            Ok(_) => {},
            Err(error) => {
                return Err(Refusal::from_error(error));
            },
        }
        self.pass(grant);
        let capacity = self.streams[s].config.capacity;
        let ghost target = self@.reserve_within(s as nat, grant.node(), (capacity + 1) as nat);
        let mut tries: usize = capacity;
        let mut spent: bool = false;
        loop
            invariant
                self.wf(),
                self.knows(grant),
                self.root() == old(self).root(),
                s < self@.streams.len(),
                self@.streams.len() == old(self)@.streams.len(),
                old(self)@.reserve(s as nat, grant.node()) == target,
                !spent ==> target == self@.reserve_within(
                    s as nat,
                    grant.node(),
                    (tries + 1) as nat,
                ),
                spent ==> target == self@.reserve_within(s as nat, grant.node(), 0),
                spent ==> tries == 0,
                self@.ledger.table.len() >= old(self)@.ledger.table.len(),
                steady(old(self)@.ledger, self@.ledger),
                same_members(old(self)@, self@),
            decreases
                tries,
                if spent {
                    0int
                } else {
                    1int
                },
        {
            if spent {
                return Err(Refusal::Full);
            }
            let ghost here = self@;
            if self.ledger.is_revoked(grant) {
                return Err(Refusal::Revoked);
            }
            if self.streams[s].closed {
                self.unlock(s, false);
                return Err(Refusal::Closed);
            }
            if self.streams[s].tail == u64::MAX {
                self.unlock(s, false);
                return Err(Refusal::SequenceExhausted);
            }
            proof {
                assert(here.stream_sound(s as nat));
            }
            let held = if self.streams[s].entries.len() == self.streams[s].config.capacity {
                let sequence = self.streams[s].entries[0].sequence;
                self.required_needs(s, sequence)
            } else {
                false
            };
            if held {
                self.unlock(s, false);
                return Err(Refusal::Full);
            }
            self.unlock(s, false);
            let ghost seen = self@;
            let usage = StreamLimits { retained_items: 1, ..StreamLimits::zero() };
            match self.charge_stream(s, grant, usage) {
                Ok(lease) => {
                    return Ok(lease);
                },
                Err(_) => {},
            }
            let reclaim = match self.own_entry(s, grant) {
                Some(sequence) => !self.required_needs(s, sequence),
                None => false,
            };
            if !reclaim {
                return Err(Refusal::Full);
            }
            proof {
                let i = self@.own_entry(s as nat, grant.node(), 0)->0;
                lemma_own_entry(self@, s as nat, grant.node(), 0);
                let entries = self@.streams[s as int].entries;
                assert(entries[0].sequence <= entries[i as int].sequence);
                lemma_older_unneeded(
                    self@,
                    s as nat,
                    entries[0].sequence,
                    entries[i as int].sequence,
                );
            }
            self.retire_front(s);
            proof {
                lemma_kept_steady(seen.ledger, self@.ledger);
            }
            if tries == 0 {
                spent = true;
            } else {
                tries -= 1;
            }
        }
    }

    /// Ends a publication's look at a stream.
    fn look(&mut self, s: usize, grant: &Grant, deferred: bool, dirty: bool)
        requires
            old(self).wf(),
            s < old(self)@.streams.len(),
            old(self).knows(grant),
        ensures
            final(self).wf(),
            final(self).root() == old(self).root(),
            final(self)@ == old(self)@.looked(s as nat, grant.node(), deferred, dirty),
            final(self)@.ledger.table == old(self)@.ledger.table,
            final(self)@.ledger.nodes == old(self)@.ledger.nodes,
    {
        if deferred {
            self.unlock_deferred(s, dirty);
        } else {
            self.unlock(s, dirty);
            self.pass(grant);
        }
    }

    /// Appends a publication whose item is charged already.
    fn append(&mut self, s: usize, value: P, lease: Lease)
        requires
            old(self).wf(),
            s < old(self)@.streams.len(),
            !old(self)@.streams[s as int].closed,
            !old(self)@.streams[s as int].full(),
            old(self)@.streams[s as int].tail < u64::MAX,
            lease.recorded(old(self)@.ledger.table, Owner::Caller),
            value.kind() == old(self)@.streams[s as int].declaration.payload,
        ensures
            final(self).wf(),
            final(self).root() == old(self).root(),
            final(self)@ == old(self)@.append(s as nat, value, lease.ticket()),
            final(self)@.ledger.nodes == old(self)@.ledger.nodes,
    {
        let ghost before = self@;
        let ghost streams = self.streams@;
        let ghost ticket = lease.ticket();
        let sequence = self.streams[s].tail;
        let ghost owner = Owner::Entry(s as nat, sequence as nat);
        proof {
            assert(before.ledger.outstanding(ticket));
            lemma_append(before, s as nat, value, ticket);
        }
        self.ledger.assign(&lease, Ghost(Owner::Caller), Ghost(owner));
        self.streams[s].entries.push_back(Entry { sequence, value: Arc::new(value), lease });
        self.streams[s].tail = sequence + 1;
        proof {
            let after = before.append(s as nat, value, ticket);
            assert(self.streams@[s as int].view().entries =~= after.streams[s as int].entries);
            assert(self.streams@[s as int].view() == after.streams[s as int]);
            assert(self@.streams =~= after.streams);
            assert(self@ == after);
            assert(stored(self.streams@, self.ledger@.table)) by {
                assert forall|r: int, i: int|
                    0 <= r < self.streams@.len() && 0 <= i
                        < self.streams@[r].entries@.len() implies (
                #[trigger] self.streams@[r].entries@[i]).lease.recorded(
                    self.ledger@.table,
                    Owner::Entry(r as nat, self.streams@[r].entries@[i].sequence as nat),
                ) by {
                    if r != s || i < streams[r].entries@.len() {
                        let e = streams[r].entries@[i];
                        assert(self.streams@[r].entries@[i] == e);
                        assert(e.lease.recorded(
                            before.ledger.table,
                            Owner::Entry(r as nat, e.sequence as nat),
                        ));
                    }
                }
                assert forall|r: int| 0 <= r < self.streams@.len() implies (
                #[trigger] self.streams@[r]).allocation.recorded(
                    self.ledger@.table,
                    Owner::Storage(r as nat),
                ) by {
                    assert(streams[r].allocation.recorded(
                        before.ledger.table,
                        Owner::Storage(r as nat),
                    ));
                }
            }
        }
    }

    /// Takes the oldest publication of a stream out and returns its charge.
    fn take_front(&mut self, s: usize) -> (lease: Lease)
        requires
            old(self).wf(),
            s < old(self)@.streams.len(),
            old(self)@.streams[s as int].entries.len() > 0,
            !old(self)@.required_needs(s as nat, old(self)@.streams[s as int].entries[0].sequence),
        ensures
            final(self).wf(),
            final(self).root() == old(self).root(),
            final(self)@ == old(self)@.without_front(s as nat),
            lease.ticket() == old(self)@.streams[s as int].entries[0].ticket,
            lease.recorded(
                old(self)@.ledger.table,
                Owner::Entry(
                    s as nat,
                    old(self)@.streams[s as int].entries[0].sequence as nat,
                ),
            ),
    {
        let ghost before = self@;
        let ghost streams = self.streams@;
        let ghost entry = self.streams@[s as int].entries@[0];
        proof {
            assert(before.streams[s as int].entries[0].sequence == entry.sequence);
            lemma_without_front(before, s as nat);
        }
        let front = self.streams[s].entries.pop_front().unwrap();
        proof {
            let middle = before.without_front(s as nat);
            assert(self@.streams =~= middle.streams) by {
                assert(self.streams@[s as int].view().entries
                    =~= before.streams[s as int].entries.drop_first());
                assert(self.streams@[s as int].view() == middle.streams[s as int]);
            }
            assert(self@ == middle);
            assert(stored(self.streams@, self.ledger@.table)) by {
                assert forall|r: int, i: int|
                    0 <= r < self.streams@.len() && 0 <= i
                        < self.streams@[r].entries@.len() implies (
                #[trigger] self.streams@[r].entries@[i]).lease.recorded(
                    self.ledger@.table,
                    Owner::Entry(r as nat, self.streams@[r].entries@[i].sequence as nat),
                ) by {
                    if r == s {
                        assert(self.streams@[r].entries@[i] == streams[r].entries@[i + 1]);
                    } else {
                        assert(self.streams@[r].entries@[i] == streams[r].entries@[i]);
                    }
                }
                assert forall|r: int| 0 <= r < self.streams@.len() implies (
                #[trigger] self.streams@[r]).allocation.recorded(
                    self.ledger@.table,
                    Owner::Storage(r as nat),
                ) by {
                    assert(streams[r].allocation.recorded(
                        self.ledger@.table,
                        Owner::Storage(r as nat),
                    ));
                }
            }
        }
        front.lease
    }

    /// Admits a payload whose item is charged already.
    pub(crate) fn commit(&mut self, s: usize, grant: &Grant, value: P, lease: Lease, deferred: bool) -> (result:
        Result<(), (Refusal, P, Lease)>)
        requires
            old(self).wf(),
            s < old(self)@.streams.len(),
            old(self).knows(grant),
            lease.recorded(old(self)@.ledger.table, Owner::Caller),
            value.kind() == old(self)@.streams[s as int].declaration.payload,
        ensures
            final(self).wf(),
            final(self).root() == old(self).root(),
            ({
                let (refused, after) = old(self)@.commit(
                    s as nat,
                    grant.node(),
                    value,
                    lease.ticket(),
                    deferred,
                );
                &&& final(self)@ == after
                &&& match refused {
                    Some(refusal) => {
                        &&& result == Err::<(), (Refusal, P, Lease)>((refusal, value, lease))
                        &&& lease.recorded(after.ledger.table, Owner::Caller)
                    },
                    None => result is Ok,
                }
            }),
            steady(old(self)@.ledger, final(self)@.ledger),
            final(self)@.streams.len() == old(self)@.streams.len(),
            same_members(old(self)@, final(self)@),
            final(self)@.ledger.table.len() >= old(self)@.ledger.table.len(),
    {
        let ghost before = self@;
        let event = self.streams[s].declaration.event;
        match self.ledger.can_enter(grant, event, Rights::publish()) {
            Ok(_) => {},
            Err(error) => {
                return Err((Refusal::from_error(error), value, lease));
            },
        }
        proof {
            assert(before.stream_sound(s as nat));
        }
        if self.streams[s].closed {
            self.look(s, grant, deferred, false);
            return Err((Refusal::Closed, value, lease));
        }
        if self.streams[s].tail == u64::MAX {
            self.look(s, grant, deferred, false);
            return Err((Refusal::SequenceExhausted, value, lease));
        }
        if self.streams[s].entries.len() < self.streams[s].config.capacity {
            self.append(s, value, lease);
            self.look(s, grant, deferred, true);
            return Ok(());
        }
        let sequence = self.streams[s].entries[0].sequence;
        if self.required_needs(s, sequence) {
            self.look(s, grant, deferred, false);
            return Err((Refusal::Full, value, lease));
        }
        if deferred {
            self.streams[s].needs_room = true;
            proof {
                let st = before.streams[s as int];
                let after = before.with_stream(s as nat, StreamView { needs_room: true, ..st });
                assert(self@.streams =~= after.streams);
                lemma_flags(before, after);
            }
            return Err((Refusal::MaintenanceRequired, value, lease));
        }
        let ghost ticket = lease.ticket();
        let ghost q = sequence as nat;
        proof {
            lemma_without_front(before, s as nat);
            assert(before.streams[s as int].entries[0].sequence == sequence);
        }
        let front = self.take_front(s);
        let ghost taken = self@;
        self.append(s, value, lease);
        proof {
            lemma_append_claims(taken, s as nat, value, ticket, q);
            assert(front.ticket() != ticket);
            assert(front.recorded(self@.ledger.table, Owner::Entry(s as nat, q)));
        }
        let ghost appended = self@;
        self.look(s, grant, false, true);
        let ghost looked = self@;
        proof {
            assert(looked.claims(Owner::Entry(s as nat, q)) == appended.claims(
                Owner::Entry(s as nat, q),
            )) by {
                assert(looked.streams[s as int].entries == appended.streams[s as int].entries);
            }
        }
        self.put_back(front, Ghost(Owner::Entry(s as nat, q)));
        proof {
            lemma_kept_steady(looked.ledger, self@.ledger);
        }
        Ok(())
    }

    /// Publishes at once.
    pub(crate) fn publish_now(&mut self, s: usize, grant: &Grant, value: P) -> (result: Result<
        (),
        (Refusal, P),
    >)
        requires
            old(self).wf(),
            s < old(self)@.streams.len(),
            old(self).knows(grant),
            value.kind() == old(self)@.streams[s as int].declaration.payload,
        ensures
            final(self).wf(),
            final(self).root() == old(self).root(),
            ({
                let (refused, after) = old(self)@.send_now(s as nat, grant.node(), value);
                &&& final(self)@ == after
                &&& match refused {
                    Some(refusal) => result == Err::<(), (Refusal, P)>((refusal, value)),
                    None => result is Ok,
                }
            }),
            steady(old(self)@.ledger, final(self)@.ledger),
            final(self)@.streams.len() == old(self)@.streams.len(),
            enduring(old(self)@.ledger, final(self)@.ledger),
            same_members(old(self)@, final(self)@),
            final(self)@.ledger.table.len() >= old(self)@.ledger.table.len(),
    {
        let ghost before = self@;
        proof {
            assert forall|t: nat| #[trigger] lasting(before.ledger, t) implies stays(
                before.ledger,
                before.send_now(s as nat, grant.node(), value).1.ledger,
                t,
            ) by {
                lemma_send_now_keeps(before, s as nat, grant.node(), value, t);
            }
        }
        let lease = match self.reserve(s, grant) {
            Ok(lease) => lease,
            Err(refused) => {
                return Err((refused, value));
            },
        };
        match self.commit(s, grant, value, lease, false) {
            Ok(_) => Ok(()),
            Err((refused, value, lease)) => {
                let ghost rejected = self@;
                self.put_back(lease, Ghost(Owner::Caller));
                proof {
                    lemma_kept_steady(rejected.ledger, self@.ledger);
                }
                Err((refused, value))
            },
        }
    }

    /// What a receiver gets next, without reclamation or wakeups.
    pub(crate) fn strict_receive(&mut self, s: usize, grant: &Grant, index: usize, id: u64) -> (result:
        Result<Option<StreamItem<Arc<P>>>, ReceiveError>)
        requires
            old(self).wf(),
            s < old(self)@.streams.len(),
            old(self).knows(grant),
            !old(self)@.streams[s as int].closed ==> index < old(
                self,
            )@.streams[s as int].subscribers.len(),
        ensures
            final(self).wf(),
            final(self).root() == old(self).root(),
            ({
                let (item, after) = old(self)@.try_recv(s as nat, index as nat, id, grant.node());
                unshared(result) == item && final(self)@ == after
            }),
            result matches Ok(Some(StreamItem::Data { sequence, value })) ==> value.kind() == old(
                self,
            )@.streams[s as int].declaration.payload,
            final(self)@.ledger == old(self)@.ledger,
            same_declared(old(self)@, final(self)@),
    {
        let ghost before = self@;
        let ghost st = before.streams[s as int];
        let ghost streams = self.streams@;
        let event = self.streams[s].declaration.event;
        match self.ledger.can_enter(grant, event, Rights::observe()) {
            Ok(_) => {},
            Err(error) => {
                return Err(
                    match error {
                        TopicError::Contended => ReceiveError::Contended,
                        TopicError::Capacity => ReceiveError::Contended,
                        _ => ReceiveError::Closed(CloseReason::Revoked),
                    },
                );
            },
        }
        if self.streams[s].closed {
            return Err(ReceiveError::Closed(CloseReason::Closed));
        }
        proof {
            assert(before.stream_sound(s as nat));
            assert(st.subscribers[index as int] == cursor_view(
                self.streams@[s as int].subscribers@[index as int],
            ));
        }
        let (next, role, node, ticket) = match &self.streams[s].subscribers[index] {
            Some(cursor) => {
                if cursor.id != id {
                    return Err(ReceiveError::Closed(CloseReason::Closed));
                }
                (cursor.next, cursor.role, cursor.node, Ghost(cursor.ticket@))
            },
            None => {
                return Err(ReceiveError::Closed(CloseReason::Closed));
            },
        };
        let tail = self.streams[s].tail;
        let head = if self.streams[s].entries.len() > 0 {
            assert(st.entries[0].sequence == self.streams@[s as int].entries@[0].sequence);
            self.streams[s].entries[0].sequence
        } else {
            tail
        };
        assert(head == st.head());
        let (item, moved) = if next < head {
            (StreamItem::Gap { from: next, to: head }, head)
        } else if next < tail {
            proof {
                assert(st.entries.len() > 0);
                assert(st.entries[0].sequence == st.tail - st.entries.len());
            }
            let offset = (next - head) as usize;
            assert(st.entries[offset as int].value == *self.streams@[s as int].entries@[offset as int].value);
            (
                StreamItem::Data {
                    sequence: next,
                    value: share(&self.streams[s].entries[offset].value),
                },
                next + 1,
            )
        } else {
            return Ok(None);
        };
        self.streams[s].subscribers[index] = Some(
            Cursor { id, next: moved, role, node, ticket: Ghost(ticket@) },
        );
        proof {
            let after = before.advance(s as nat, index as nat, moved);
            assert(self.streams@[s as int].view().subscribers
                =~= after.streams[s as int].subscribers);
            assert(self.streams@[s as int].view() == after.streams[s as int]);
            assert(self@.streams =~= after.streams);
            assert(self@ == after);
            lemma_advance(before, s as nat, index as nat, moved);
            lemma_stored_same(streams, self.streams@, self.ledger@.table);
        }
        self.unlock_deferred(s, true);
        Ok(Some(item))
    }

    /// A receive followed by maintenance.
    pub(crate) fn receive_now(&mut self, s: usize, grant: &Grant, index: usize, id: u64) -> (result:
        Result<Option<StreamItem<Arc<P>>>, ReceiveError>)
        requires
            old(self).wf(),
            s < old(self)@.streams.len(),
            old(self).knows(grant),
            !old(self)@.streams[s as int].closed ==> index < old(
                self,
            )@.streams[s as int].subscribers.len(),
        ensures
            final(self).wf(),
            final(self).root() == old(self).root(),
            ({
                let (item, after) = old(self)@.recv_now(s as nat, index as nat, id, grant.node());
                unshared(result) == item && final(self)@ == after
            }),
            result matches Ok(Some(StreamItem::Data { sequence, value })) ==> value.kind() == old(
                self,
            )@.streams[s as int].declaration.payload,
            steady(old(self)@.ledger, final(self)@.ledger),
            same_declared(old(self)@, final(self)@),
            same_members(
                old(self)@.try_recv(s as nat, index as nat, id, grant.node()).1,
                final(self)@,
            ),
            enduring(old(self)@.ledger, final(self)@.ledger),
            final(self)@.ledger.table.len() >= old(self)@.ledger.table.len(),
    {
        let ghost before = self@;
        proof {
            assert forall|t: nat| #[trigger] lasting(before.ledger, t) implies stays(
                before.ledger,
                before.recv_now(s as nat, index as nat, id, grant.node()).1.ledger,
                t,
            ) by {
                lemma_recv_now_keeps(before, s as nat, index as nat, id, grant.node(), t);
            }
        }
        let item = self.strict_receive(s, grant, index, id);
        self.maintain_stream(s);
        self.pass(grant);
        item
    }

    /// Finds the stream that `event` is declared for.
    fn find(&self, event: EventId) -> (found: Option<usize>)
        ensures
            match self@.find(event, 0) {
                Some(s) => found matches Some(f) && f == s && s < self@.streams.len(),
                None => found is None,
            },
    {
        let mut s: usize = 0;
        while s < self.streams.len()
            invariant
                s <= self.streams@.len(),
                self@.find(event, 0) == self@.find(event, s as nat),
            decreases self.streams@.len() - s,
        {
            if self.streams[s].declaration.event == event {
                return Some(s);
            }
            s += 1;
        }
        None
    }

    /// Resolves a declared stream through a grant.
    fn resolve(&mut self, grant: &Grant, declaration: Declaration, rights: Rights) -> (result: Result<
        usize,
        TopicError,
    >)
        requires
            old(self).wf(),
            old(self).knows(grant),
        ensures
            final(self).wf(),
            final(self).root() == old(self).root(),
            ({
                let (found, after) = old(self)@.resolve(grant.node(), declaration, rights);
                &&& final(self)@ == after
                &&& match found {
                    Ok(s) => result matches Ok(f) && f == s && s < after.streams.len()
                        && after.streams[s as int].declaration == declaration,
                    Err(error) => result == Err::<usize, TopicError>(error),
                }
            }),
            final(self)@.streams == old(self)@.streams,
            steady(old(self)@.ledger, final(self)@.ledger),
    {
        let ghost before = self@;
        match self.ledger.check(grant, declaration.event, rights) {
            Ok(_) => {},
            Err(error) => {
                return Err(error);
            },
        }
        let s = match self.find(declaration.event) {
            Some(s) => s,
            None => {
                return Err(TopicError::Denied);
            },
        };
        proof {
            lemma_find_some(before, declaration.event, 0);
        }
        if self.streams[s].declaration.payload != declaration.payload {
            return Err(TopicError::TypeMismatch(TopicTypeMismatch { id: declaration.event }));
        }
        if self.streams[s].declaration.wire_major != declaration.wire_major {
            return Err(TopicError::InvalidConfig);
        }
        match self.ledger.register_stream(grant, declaration.event, s as u64) {
            Ok(_) => {},
            Err(error) => {
                assert(self@.streams =~= before.streams);
                return Err(error);
            },
        }
        proof {
            assert(self@.streams =~= before.streams);
            assert(self@.ledger.table == before.ledger.table);
            lemma_flags(before, self@);
        }
        Ok(s)
    }

    /// Another handle to a grant.
    pub(crate) fn copy_grant(&mut self, grant: &Grant) -> (copy: Grant)
        requires
            old(self).wf(),
            old(self).knows(grant),
            old(self)@.ledger.nodes[grant.node() as int].handles < usize::MAX,
        ensures
            final(self).wf(),
            final(self).root() == old(self).root(),
            final(self)@ == old(self)@.with_handles(grant.node(), 1),
            copy.node() == grant.node(),
    {
        let ghost before = self@;
        let copy = self.ledger.clone_grant(grant);
        proof {
            assert(self@.streams =~= before.streams);
            lemma_flags(before, self@);
        }
        copy
    }

    /// Gives up a handle to a grant.
    pub(crate) fn give_up(&mut self, grant: Grant)
        requires
            old(self).wf(),
            old(self).knows(&grant),
            grant.node() != old(self).root(),
        ensures
            final(self).wf(),
            final(self).root() == old(self).root(),
            final(self)@ == old(self)@.drop_handle(grant.node()),
            final(self)@.streams == old(self)@.streams,
            final(self)@.ledger.nodes.len() == old(self)@.ledger.nodes.len(),
            forall|t: nat|
                #![trigger old(self)@.ledger.outstanding(t)]
                old(self)@.ledger.outstanding(t) && !(old(self)@.ledger.record(t).owner is Child)
                    ==> final(self)@.ledger.outstanding(t) && final(self)@.ledger.record(t) == old(
                    self,
                )@.ledger.record(t),
            enduring(old(self)@.ledger, final(self)@.ledger),
            settled(old(self)@.ledger, final(self)@.ledger, grant.node(), -1),
            fewer(old(self)@.ledger, final(self)@.ledger),
            same_members(old(self)@, final(self)@),
    {
        let ghost before = self@;
        let ghost node = grant.node();
        let ghost middle = before.ledger.with_handles(node, -1);
        self.ledger.drop_grant(grant);
        proof {
            assert(self@.streams =~= before.streams);
            lemma_dropped(before, middle, self@.ledger);
            lemma_stored(self.streams@, before, self@.ledger);
            assert(crate::ledger_laws::kept_node(middle, self@.ledger, self.root.node()));
            assert forall|n: int| 0 <= n < before.ledger.nodes.len() implies (
            #[trigger] self@.ledger.nodes[n]).handles == middle.nodes[n].handles by {
                assert(crate::ledger_laws::kept_node(middle, self@.ledger, n as nat));
            }
        }
    }

    /// Acquires a publication capability: the stream, and a handle to the grant.
    pub(crate) fn open_sender(&mut self, grant: &Grant, declaration: Declaration) -> (result: Result<
        (usize, Grant),
        TopicError,
    >)
        requires
            old(self).wf(),
            old(self).knows(grant),
            old(self)@.ledger.nodes[grant.node() as int].handles < usize::MAX,
        ensures
            final(self).wf(),
            final(self).root() == old(self).root(),
            ({
                let (found, after) = old(self)@.sender(grant.node(), declaration);
                &&& final(self)@ == after
                &&& match found {
                    Ok(s) => {
                        &&& result matches Ok((f, copy))
                        &&& f == s
                        &&& s < after.streams.len()
                        &&& after.streams[s as int].declaration == declaration
                        &&& copy.node() == grant.node()
                    },
                    Err(error) => result == Err::<(usize, Grant), TopicError>(error),
                }
            }),
            enduring(old(self)@.ledger, final(self)@.ledger),
            settled(
                old(self)@.ledger,
                final(self)@.ledger,
                grant.node(),
                if result is Ok {
                    1
                } else {
                    0
                },
            ),
            final(self)@.streams.len() == old(self)@.streams.len(),
            fewer(old(self)@.ledger, final(self)@.ledger),
    {
        let s = match self.resolve(grant, declaration, Rights::publish()) {
            Ok(s) => s,
            Err(error) => {
                return Err(error);
            },
        };
        match self.ledger.stream_limits(grant, declaration.event) {
            Ok(limits) => {
                if limits.retained_items == 0 {
                    return Err(TopicError::Capacity);
                }
            },
            Err(error) => {
                return Err(error);
            },
        }
        let copy = self.copy_grant(grant);
        Ok((s, copy))
    }

    /// The first free subscriber slot of a stream.
    fn free_subscriber(&self, s: usize) -> (found: Option<usize>)
        requires
            s < self@.streams.len(),
        ensures
            match self@.streams[s as int].free_subscriber(0) {
                Some(i) => found matches Some(f) && f == i && i
                    < self@.streams[s as int].subscribers.len()
                    && self@.streams[s as int].subscribers[i as int] is None,
                None => found is None,
            },
    {
        let ghost st = self@.streams[s as int];
        let mut index: usize = 0;
        while index < self.streams[s].subscribers.len()
            invariant
                s < self@.streams.len(),
                st == self@.streams[s as int],
                index <= st.subscribers.len(),
                st.free_subscriber(0) == st.free_subscriber(index as nat),
            decreases st.subscribers.len() - index,
        {
            assert(st.subscribers[index as int] == cursor_view(
                self.streams@[s as int].subscribers@[index as int],
            ));
            if self.streams[s].subscribers[index].is_none() {
                return Some(index);
            }
            index += 1;
        }
        None
    }

    /// Enters a subscription whose charge is given into a stream.
    fn enlist(&mut self, s: usize, index: usize, role: SubscriptionRole, lease: &Lease, grant: &Grant)
        requires
            old(self).wf(),
            s < old(self)@.streams.len(),
            !old(self)@.streams[s as int].closed,
            index < old(self)@.streams[s as int].subscribers.len(),
            old(self)@.streams[s as int].subscribers[index as int] is None,
            old(self)@.streams[s as int].next_cursor < u64::MAX,
            lease.recorded(old(self)@.ledger.table, Owner::Caller),
            lease.node() == grant.node(),
            old(self).knows(grant),
        ensures
            final(self).wf(),
            final(self).root() == old(self).root(),
            final(self)@ == old(self)@.enlist(
                s as nat,
                index as nat,
                role,
                grant.node(),
                lease.ticket(),
            ),
            lease.recorded(
                final(self)@.ledger.table,
                Owner::Receiver(s as nat, old(self)@.streams[s as int].next_cursor as nat),
            ),
            final(self)@.ledger.nodes == old(self)@.ledger.nodes,
    {
        let ghost before = self@;
        let ghost streams = self.streams@;
        let ghost ticket = lease.ticket();
        let id = self.streams[s].next_cursor;
        let next = self.streams[s].tail;
        let ghost owner = Owner::Receiver(s as nat, id as nat);
        proof {
            assert(before.ledger.outstanding(ticket));
            lemma_enlist(before, s as nat, index as nat, role, grant.node(), ticket);
        }
        self.ledger.assign(lease, Ghost(Owner::Caller), Ghost(owner));
        let node = self.ledger.slot(grant);
        self.streams[s].subscribers[index] = Some(
            Cursor { id, next, role, node, ticket: Ghost(ticket) },
        );
        self.streams[s].next_cursor = id + 1;
        proof {
            let after = before.enlist(s as nat, index as nat, role, grant.node(), ticket);
            assert(self.streams@[s as int].view().subscribers
                =~= after.streams[s as int].subscribers);
            assert(self.streams@[s as int].view() == after.streams[s as int]);
            assert(self@.streams =~= after.streams);
            assert(self@ == after);
            assert(stored(self.streams@, self.ledger@.table)) by {
                assert forall|r: int, i: int|
                    0 <= r < self.streams@.len() && 0 <= i
                        < self.streams@[r].entries@.len() implies (
                #[trigger] self.streams@[r].entries@[i]).lease.recorded(
                    self.ledger@.table,
                    Owner::Entry(r as nat, self.streams@[r].entries@[i].sequence as nat),
                ) by {
                    let e = streams[r].entries@[i];
                    assert(e.lease.recorded(
                        before.ledger.table,
                        Owner::Entry(r as nat, e.sequence as nat),
                    ));
                }
                assert forall|r: int| 0 <= r < self.streams@.len() implies (
                #[trigger] self.streams@[r]).allocation.recorded(
                    self.ledger@.table,
                    Owner::Storage(r as nat),
                ) by {
                    assert(streams[r].allocation.recorded(
                        before.ledger.table,
                        Owner::Storage(r as nat),
                    ));
                }
            }
        }
    }

    /// Acquires a subscription: its stream, subscriber slot, cursor identity, charge
    /// and a handle to the grant.
    pub(crate) fn open_receiver(
        &mut self,
        grant: &Grant,
        declaration: Declaration,
        role: SubscriptionRole,
    ) -> (result: Result<(usize, usize, u64, Lease, Grant), TopicError>)
        requires
            old(self).wf(),
            old(self).knows(grant),
            old(self)@.ledger.nodes[grant.node() as int].handles < usize::MAX,
        ensures
            final(self).wf(),
            final(self).root() == old(self).root(),
            ({
                let (found, after) = old(self)@.subscribe(grant.node(), declaration, role);
                &&& final(self)@ == after
                &&& match found {
                    Ok((s, i)) => {
                        &&& result matches Ok((f, index, id, lease, copy))
                        &&& f == s
                        &&& index == i
                        &&& s < after.streams.len()
                        &&& i < after.streams[s as int].subscribers.len()
                        &&& !after.streams[s as int].closed
                        &&& after.streams[s as int].declaration == declaration
                        &&& after.streams[s as int].subscribers[i as int] == Some(
                            CursorView {
                                id,
                                next: after.streams[s as int].tail,
                                role,
                                node: grant.node(),
                                ticket: lease.ticket(),
                            },
                        )
                        &&& lease.recorded(
                            after.ledger.table,
                            Owner::Receiver(s, id as nat),
                        )
                        &&& lease.node() == grant.node()
                        &&& lease.usage() == one_subscription().widened()
                        &&& copy.node() == grant.node()
                    },
                    Err(error) => result == Err::<
                        (usize, usize, u64, Lease, Grant),
                        TopicError,
                    >(error),
                }
            }),
            enduring(old(self)@.ledger, final(self)@.ledger),
            settled(
                old(self)@.ledger,
                final(self)@.ledger,
                grant.node(),
                if result is Ok {
                    1
                } else {
                    0
                },
            ),
            final(self)@.streams.len() == old(self)@.streams.len(),
            result is Err ==> fewer(old(self)@.ledger, final(self)@.ledger),
            result matches Ok((_, _, _, lease, _)) ==> fewer_but(
                old(self)@.ledger,
                final(self)@.ledger,
                lease.ticket(),
            ),
    {
        let rights = match role {
            SubscriptionRole::Observer => Rights::observe(),
            SubscriptionRole::Required => {
                assert(2u8 | 4u8 == 6u8) by (bit_vector);
                Rights::observe().union(Rights::required())
            },
        };
        let s = match self.resolve(grant, declaration, rights) {
            Ok(s) => s,
            Err(error) => {
                return Err(error);
            },
        };
        let usage = StreamLimits { subscriptions: 1, ..StreamLimits::zero() };
        let lease = match self.charge_stream(s, grant, usage) {
            Ok(lease) => lease,
            Err(error) => {
                return Err(error);
            },
        };
        let ghost charged = self@;
        match self.ledger.can_enter(grant, declaration.event, rights) {
            Ok(_) => {},
            Err(error) => {
                self.put_back(lease, Ghost(Owner::Caller));
                return Err(error);
            },
        }
        if self.streams[s].closed {
            self.unlock(s, false);
            self.pass(grant);
            self.put_back(lease, Ghost(Owner::Caller));
            return Err(TopicError::Denied);
        }
        let slot = self.free_subscriber(s);
        let id = self.streams[s].next_cursor;
        match slot {
            Some(index) if id < u64::MAX => {
                self.enlist(s, index, role, &lease, grant);
                self.unlock(s, true);
                self.pass(grant);
                let copy = self.copy_grant(grant);
                Ok((s, index, id, lease, copy))
            },
            _ => {
                self.unlock(s, false);
                self.pass(grant);
                self.put_back(lease, Ghost(Owner::Caller));
                Err(TopicError::Capacity)
            },
        }
    }

    /// Ends a subscription.
    pub(crate) fn end_receiver(&mut self, s: usize, index: usize, id: u64, lease: Lease, grant: Grant)
        requires
            old(self).wf(),
            s < old(self)@.streams.len(),
            old(self).knows(&grant),
            grant.node() != old(self).root(),
            lease.recorded(old(self)@.ledger.table, Owner::Receiver(s as nat, id as nat)),
            !old(self)@.streams[s as int].closed ==> {
                &&& index < old(self)@.streams[s as int].subscribers.len()
                &&& old(self)@.streams[s as int].subscribers[index as int] is Some
                &&& old(self)@.streams[s as int].subscribers[index as int]->0.id == id
            },
        ensures
            final(self).wf(),
            final(self).root() == old(self).root(),
            final(self)@ == old(self)@.detach(
                s as nat,
                index as nat,
                grant.node(),
                lease.ticket(),
            ),
            enduring_but(old(self)@.ledger, final(self)@.ledger, lease.ticket()),
            settled(old(self)@.ledger, final(self)@.ledger, grant.node(), -1),
            same_declared(old(self)@, final(self)@),
            fewer(old(self)@.ledger, final(self)@.ledger),
            !final(self)@.ledger.outstanding(lease.ticket()),
    {
        let ghost before = self@;
        let ghost streams = self.streams@;
        let ghost owner = Owner::Receiver(s as nat, id as nat);
        let ghost ticket = lease.ticket();
        proof {
            assert(before.stream_sound(s as nat));
            lemma_delist(before, s as nat, index as nat);
        }
        if index < self.streams[s].subscribers.len() {
            self.streams[s].subscribers[index] = None;
        }
        proof {
            let after = before.delist(s as nat, index as nat);
            assert(self.streams@[s as int].view().subscribers
                =~= after.streams[s as int].subscribers);
            assert(self.streams@[s as int].view() == after.streams[s as int]);
            assert(self@.streams =~= after.streams);
            assert(self@ == after);
            lemma_stored_same(streams, self.streams@, self.ledger@.table);
            assert(!self@.claims(owner));
        }
        let ghost delisted = self@;
        self.unlock(s, true);
        let ghost opened = self@;
        self.retire_consumed(s);
        let ghost retired = self@;
        proof {
            assert(same_members(delisted, opened));
            assert(!retired.claims(owner)) by {
                assert(retired.streams[s as int].subscribers
                    == delisted.streams[s as int].subscribers);
            }
            let capacity = opened.streams[s as int].config.capacity as nat;
            lemma_retire_keeps(opened, s as nat, capacity, ticket);
            assert forall|t: nat| #[trigger] lasting(before.ledger, t) implies lasting(
                retired.ledger,
                t,
            ) && stays(before.ledger, retired.ledger, t) by {
                lemma_retire_keeps(opened, s as nat, capacity, t);
            }
        }
        self.give_up(grant);
        let ghost left = self@;
        proof {
            assert(retired.ledger.outstanding(ticket));
            assert(self@.streams == retired.streams);
            assert(!self@.claims(owner));
        }
        self.put_back(lease, Ghost(owner));
        proof {
            lemma_kept_steady(left.ledger, self@.ledger);
            assert forall|t: nat| t != ticket && #[trigger] lasting(before.ledger, t) implies stays(
                before.ledger,
                self@.ledger,
                t,
            ) by {
                assert(lasting(retired.ledger, t));
                assert(stays(retired.ledger, left.ledger, t));
                assert(left.ledger.outstanding(t));
            }
        }
    }

    /// Registers a pending operation of a grant on a stream.
    pub(crate) fn begin_wait(&mut self, s: usize, grant: &Grant) -> (result: Result<Lease, TopicError>)
        requires
            old(self).wf(),
            s < old(self)@.streams.len(),
            old(self).knows(grant),
        ensures
            final(self).wf(),
            final(self).root() == old(self).root(),
            ({
                let (error, after) = old(self)@.wait(s as nat, grant.node());
                &&& final(self)@ == after
                &&& match error {
                    Some(error) => result == Err::<Lease, TopicError>(error),
                    None => {
                        &&& result matches Ok(lease)
                        &&& lease.ticket() == old(self)@.ledger.table.len()
                        &&& lease.recorded(after.ledger.table, Owner::Waiter(s as nat))
                    },
                }
            }),
            steady(old(self)@.ledger, final(self)@.ledger),
            final(self)@.streams.len() == old(self)@.streams.len(),
            enduring(old(self)@.ledger, final(self)@.ledger),
            same_members(old(self)@, final(self)@),
            final(self)@.ledger.table.len() >= old(self)@.ledger.table.len(),
    {
        let ghost before = self@;
        let event = self.streams[s].declaration.event;
        let usage = StreamLimits { waiters: 1, ..StreamLimits::zero() };
        if self.streams[s].waiters >= self.streams[s].config.waiters {
            let lease = match self.charge_stream(s, grant, usage) {
                Ok(lease) => lease,
                Err(error) => {
                    return Err(error);
                },
            };
            let ghost charged = self@;
            self.put_back(lease, Ghost(Owner::Caller));
            proof {
                lemma_kept_steady(charged.ledger, self@.ledger);
            }
            return Err(TopicError::Capacity);
        }
        let ghost owner = Owner::Waiter(s as nat);
        let lease = match self.ledger.charge_stream(grant, event, usage, Ghost(owner)) {
            Ok(lease) => lease,
            Err(error) => {
                assert(self@.streams =~= before.streams);
                return Err(error);
            },
        };
        proof {
            let record = lease.record(owner);
            assert(self@.ledger.table == before.ledger.table.push(Some(record)));
            lemma_wait(before, self@.ledger, s as nat, record);
            lemma_stored(self.streams@, before, self@.ledger);
        }
        let ghost streams = self.streams@;
        self.streams[s].waiters = self.streams[s].waiters + 1;
        proof {
            let after = before.wait(s as nat, grant.node()).1;
            assert(self@.streams =~= after.streams);
            assert(self@ == after);
            lemma_stored_same(streams, self.streams@, self.ledger@.table);
        }
        Ok(lease)
    }

    /// Ends a pending operation on a stream.
    pub(crate) fn end_wait(&mut self, s: usize, lease: Lease)
        requires
            old(self).wf(),
            s < old(self)@.streams.len(),
            lease.recorded(old(self)@.ledger.table, Owner::Waiter(s as nat)),
        ensures
            final(self).wf(),
            final(self).root() == old(self).root(),
            final(self)@ == old(self)@.end_wait(s as nat, lease.ticket()),
            steady(old(self)@.ledger, final(self)@.ledger),
            final(self)@.streams.len() == old(self)@.streams.len(),
            enduring_but(old(self)@.ledger, final(self)@.ledger, lease.ticket()),
            fewer(old(self)@.ledger, final(self)@.ledger),
            !final(self)@.ledger.outstanding(lease.ticket()),
            same_members(old(self)@, final(self)@),
    {
        let ghost before = self@;
        let ghost streams = self.streams@;
        let ghost ticket = lease.ticket();
        let ghost owner = Owner::Waiter(s as nat);
        assert(before.ledger.outstanding(ticket));
        self.ledger.release_owned(lease, Ghost(owner));
        proof {
            assert(released(before.ledger, self@.ledger, ticket));
            lemma_end_wait(before, self@.ledger, s as nat, ticket);
            lemma_stored(self.streams@, before, self@.ledger);
            lemma_kept_steady(before.ledger, self@.ledger);
            assert(crate::ledger_laws::kept_node(before.ledger, self@.ledger, self.root.node()));
        }
        self.streams[s].waiters = self.streams[s].waiters - 1;
        proof {
            let after = before.end_wait(s as nat, ticket);
            assert(self@.streams =~= after.streams);
            assert(self@ == after);
            lemma_stored_same(streams, self.streams@, self.ledger@.table);
        }
    }

    /// Creates an empty scope with the default finite allowance.
    #[must_use]
    pub fn new() -> (fabric: Self)
        ensures
            fabric.wf(),
            fabric.root() == 0,
            fabric@.streams.len() == 0,
            fabric@.ledger == LedgerView::root(Limits::standard()),
    {
        let limits = Limits::default();
        let (ledger, root) = Ledger::new(limits);
        let fabric = DynamicFabric { ledger, streams: Vec::new(), root };
        proof {
            lemma_empty(fabric@);
        }
        fabric
    }

    /// Creates an empty scope with explicit finite allowances.
    ///
    /// # Errors
    ///
    /// Returns [`TopicError::InvalidConfig`] if an allowance exceeds the addressable
    /// allocation limit.
    pub fn with_limits(limits: Limits) -> (result: Result<Self, TopicError>)
        ensures
            limits.addressable() ==> {
                &&& result matches Ok(fabric)
                &&& fabric.wf()
                &&& fabric.root() == 0
                &&& fabric@.streams.len() == 0
                &&& fabric@.ledger == LedgerView::root(limits)
            },
            !limits.addressable() ==> result == Err::<Self, TopicError>(TopicError::InvalidConfig),
    {
        match limits.validate() {
            Ok(_) => {},
            Err(error) => {
                return Err(error);
            },
        }
        let (ledger, root) = Ledger::new(limits);
        let fabric = DynamicFabric { ledger, streams: Vec::new(), root };
        proof {
            lemma_empty(fabric@);
        }
        Ok(fabric)
    }

    /// Declares a typed stream. An identical declaration is idempotent.
    ///
    /// # Errors
    ///
    /// Returns [`TopicError::Capacity`] if the owner cannot reserve the stream or
    /// allocate its storage. Rejects zero capacity, unaddressable bounds, incompatible
    /// declarations, and reopening a closed stream. Reusing an identity with another
    /// payload type returns [`TopicError::TypeMismatch`].
    pub fn create_stream<E: EventSpec>(&mut self, config: StreamConfig) -> (result: Result<
        (),
        TopicError,
    >) where P: Carries<E::Payload>
        requires
            old(self).wf(),
        ensures
            final(self).wf(),
            final(self).root() == old(self).root(),
            ({
                let v = old(self)@;
                let root = old(self).root();
                if v.declare_error(config) is Some {
                    &&& result == Err::<(), TopicError>(v.declare_error(config)->0)
                    &&& final(self)@ == v
                } else if v.find(E::ID, 0) is Some {
                    let (found, after) = v.redeclare(v.find(E::ID, 0)->0, declared::<E, P>(), config);
                    result == found && final(self)@ == after
                } else if v.ledger.charge_error(root, None, config.allowance()) is Some {
                    &&& result == Err::<(), TopicError>(
                        v.ledger.charge_error(root, None, config.allowance())->0,
                    )
                    &&& final(self)@ == v.refuse(root, config.allowance())
                } else {
                    exists|request: StorageRequest| #[trigger]
                        request.asks(config) && declared_as(
                            v,
                            root,
                            declared::<E, P>(),
                            config,
                            request.granted(),
                            result,
                            final(self)@,
                        )
                }
            }),
    {
        let ghost before = self@;
        let declaration = declaration::<E, P>();
        let allowance = Limits {
            streams: 1,
            retained_items: config.capacity,
            subscriptions: config.subscribers,
            waiters: config.waiters,
            ..Limits::zero()
        };
        assert(allowance == config.allowance());
        match allowance.validate() {
            Ok(_) => {},
            Err(error) => {
                return Err(error);
            },
        }
        if config.capacity == 0 {
            return Err(TopicError::InvalidConfig);
        }
        match self.find(declaration.event) {
            Some(s) => {
                let existing = self.streams[s].declaration;
                if existing.payload != declaration.payload {
                    return Err(
                        TopicError::TypeMismatch(TopicTypeMismatch { id: declaration.event }),
                    );
                }
                if self.streams[s].config != config || existing.wire_major
                    != declaration.wire_major {
                    return Err(TopicError::InvalidConfig);
                }
                let closed = self.streams[s].closed;
                self.unlock(s, false);
                if closed {
                    return Err(TopicError::InvalidConfig);
                }
                return Ok(());
            },
            None => {},
        }
        let ghost owner = Owner::Storage(before.streams.len());
        let allocation = match self.ledger.charge_generic(&self.root, allowance, Ghost(owner)) {
            Ok(lease) => lease,
            Err(error) => {
                proof {
                    assert(self@.streams =~= before.streams);
                    lemma_flags(before, self@);
                }
                return Err(error);
            },
        };
        proof {
            let record = allocation.record(owner);
            assert(self@.streams =~= before.streams);
            assert(self@.ledger.table == before.ledger.table.push(Some(record)));
            lemma_charge(before, self@.ledger, record);
            lemma_stored(self.streams@, before, self@.ledger);
        }
        let (storage, request) = self.reserve_storage(config);
        proof {
            if storage is Some {
                lemma_declare(before, self.root(), declaration, config);
            }
            assert(request@.asks(config));
        }
        self.declare_with(declaration, config, allocation, storage)
    }

    /// Asks for the storage of one more stream.
    fn reserve_storage(&mut self, config: StreamConfig) -> (reserved: (
        Option<(VecDeque<Entry<P>>, Vec<Option<Cursor>>)>,
        Ghost<StorageRequest>,
    ))
        requires
            old(self).wf(),
        ensures
            final(self).wf(),
            final(self).root() == old(self).root(),
            final(self)@ == old(self)@,
            reserved.1@.asks(config),
            reserved.0 is Some == reserved.1@.granted(),
            reserved.0 matches Some((entries, subscribers)) ==> entries@.len() == 0
                && subscribers@.len() == 0,
            reserved.0 is Some ==> old(self)@.streams.len() < usize::MAX,
    {
        let mut entries: VecDeque<Entry<P>> = VecDeque::new();
        let first = reserve_queue(&mut entries, config.capacity);
        if !first.is_granted() {
            let ghost request = StorageRequest { entries: first, subscribers: None, slot: None };
            return (None, Ghost(request));
        }
        let mut subscribers: Vec<Option<Cursor>> = Vec::new();
        let second = reserve_exact(&mut subscribers, config.subscribers);
        if !second.is_granted() {
            let ghost request = StorageRequest {
                entries: first,
                subscribers: Some(second),
                slot: None,
            };
            return (None, Ghost(request));
        }
        let third = reserve_one(&mut self.streams);
        assert(self@.streams =~= old(self)@.streams);
        let ghost request = StorageRequest {
            entries: first,
            subscribers: Some(second),
            slot: Some(third),
        };
        if !third.is_granted() {
            return (None, Ghost(request));
        }
        (Some((entries, subscribers)), Ghost(request))
    }

    /// Adds a stream whose storage is charged, or gives the charge back when there is no
    /// room for it.
    fn declare_with(
        &mut self,
        declaration: Declaration,
        config: StreamConfig,
        allocation: Lease,
        storage: Option<(VecDeque<Entry<P>>, Vec<Option<Cursor>>)>,
    ) -> (result: Result<(), TopicError>)
        requires
            old(self).wf(),
            allocation.recorded(
                old(self)@.ledger.table,
                Owner::Storage(old(self)@.streams.len()),
            ),
            storage is Some ==> old(self)@.with_stream_storage(
                declaration,
                config,
                allocation.ticket(),
            ).wf(),
            storage matches Some((entries, subscribers)) ==> entries@.len() == 0
                && subscribers@.len() == 0,
        ensures
            final(self).wf(),
            final(self).root() == old(self).root(),
            storage is Some ==> result is Ok && final(self)@ == old(self)@.with_stream_storage(
                declaration,
                config,
                allocation.ticket(),
            ),
            storage is None ==> result == Err::<(), TopicError>(TopicError::Capacity)
                && final(self)@ == old(self)@.release(allocation.ticket()),
    {
        let ghost before = self@;
        let ghost owner = Owner::Storage(before.streams.len());
        let (entries, mut subscribers) = match storage {
            Some(storage) => storage,
            None => {
                self.put_back(allocation, Ghost(owner));
                return Err(TopicError::Capacity);
            },
        };
        while subscribers.len() < config.subscribers
            invariant
                subscribers@.len() <= config.subscribers,
                forall|i: int|
                    0 <= i < subscribers@.len() ==> (#[trigger] subscribers@[i]) is None,
            decreases config.subscribers - subscribers@.len(),
        {
            subscribers.push(None);
        }
        let ghost streams = self.streams@;
        let ghost after = before.with_stream_storage(declaration, config, allocation.ticket());
        let stream = Stream {
            declaration,
            config,
            entries,
            subscribers,
            tail: 0,
            next_cursor: 0,
            closed: false,
            needs_room: false,
            waiters: 0,
            deferred: false,
            allocation,
        };
        self.streams.push(stream);
        proof {
            let new = before.streams.len() as int;
            assert(stream.view().subscribers =~= after.streams[new].subscribers);
            assert(stream.view().entries =~= after.streams[new].entries);
            assert(stream.view() == after.streams[new]);
            assert(self@.streams =~= after.streams);
            assert(self@ == after);
            assert(stored(self.streams@, self.ledger@.table)) by {
                assert forall|r: int, i: int|
                    0 <= r < self.streams@.len() && 0 <= i
                        < self.streams@[r].entries@.len() implies (
                #[trigger] self.streams@[r].entries@[i]).lease.recorded(
                    self.ledger@.table,
                    Owner::Entry(r as nat, self.streams@[r].entries@[i].sequence as nat),
                ) by {
                    if r < streams.len() {
                        let e = streams[r].entries@[i];
                        assert(e.lease.recorded(
                            self.ledger@.table,
                            Owner::Entry(r as nat, e.sequence as nat),
                        ));
                    }
                }
                assert forall|r: int| 0 <= r < self.streams@.len() implies (
                #[trigger] self.streams@[r]).allocation.recorded(
                    self.ledger@.table,
                    Owner::Storage(r as nat),
                ) by {
                    if r < streams.len() {
                        assert(streams[r].allocation.recorded(
                            self.ledger@.table,
                            Owner::Storage(r as nat),
                        ));
                    }
                }
            }
        }
        Ok(())
    }

    /// Closes a declared stream and releases its retained payloads.
    /// Existing endpoints stay closed; declaring the identity again cannot reopen it.
    ///
    /// # Errors
    ///
    /// Returns [`TopicError`] if the identity is unknown, its declaration is
    /// incompatible, or a notification registration cannot be reserved.
    pub fn close_stream<E: EventSpec>(&mut self) -> (result: Result<
        (),
        TopicError,
    >) where P: Carries<E::Payload>
        requires
            old(self).wf(),
        ensures
            final(self).wf(),
            final(self).root() == old(self).root(),
            ({
                let (found, after) = old(self)@.resolve(
                    old(self).root(),
                    declared::<E, P>(),
                    publish_right(),
                );
                match found {
                    Ok(s) => result is Ok && final(self)@ == after.close(s),
                    Err(error) => result == Err::<(), TopicError>(error) && final(self)@ == after,
                }
            }),
    {
        let own = self.ledger.alias(&self.root);
        let s = match self.resolve(&own, declaration::<E, P>(), Rights::publish()) {
            Ok(s) => s,
            Err(error) => {
                return Err(error);
            },
        };
        let ghost before = self@;
        let ghost streams = self.streams@;
        let ghost st = before.streams[s as int];
        proof {
            assert(before.stream_sound(s as nat));
            lemma_emptied(before, s as nat);
        }
        let mut entries: VecDeque<Entry<P>> = VecDeque::new();
        let mut subscribers: Vec<Option<Cursor>> = Vec::new();
        std::mem::swap(&mut entries, &mut self.streams[s].entries);
        std::mem::swap(&mut subscribers, &mut self.streams[s].subscribers);
        self.streams[s].closed = true;
        let ghost emptied = before.with_stream(
            s as nat,
            StreamView { entries: Seq::empty(), subscribers: Seq::empty(), closed: true, ..st },
        );
        proof {
            assert(self.streams@[s as int].view().entries =~= Seq::<EntryView<P>>::empty());
            assert(self.streams@[s as int].view().subscribers =~= Seq::<Option<CursorView>>::empty());
            assert(self.streams@[s as int].view() == emptied.streams[s as int]);
            assert(self@.streams =~= emptied.streams);
            assert(self@ == emptied);
            assert(stored(self.streams@, self.ledger@.table)) by {
                assert forall|r: int, i: int|
                    0 <= r < self.streams@.len() && 0 <= i
                        < self.streams@[r].entries@.len() implies (
                #[trigger] self.streams@[r].entries@[i]).lease.recorded(
                    self.ledger@.table,
                    Owner::Entry(r as nat, self.streams@[r].entries@[i].sequence as nat),
                ) by {
                    let e = streams[r].entries@[i];
                    assert(e.lease.recorded(
                        self.ledger@.table,
                        Owner::Entry(r as nat, e.sequence as nat),
                    ));
                }
                assert forall|r: int| 0 <= r < self.streams@.len() implies (
                #[trigger] self.streams@[r]).allocation.recorded(
                    self.ledger@.table,
                    Owner::Storage(r as nat),
                ) by {
                    assert(streams[r].allocation.recorded(
                        self.ledger@.table,
                        Owner::Storage(r as nat),
                    ));
                }
            }
            assert(entry_views(entries@) =~= st.entries);
            assert forall|i: int| 0 <= i < entries@.len() implies (
            #[trigger] entries@[i]).lease.recorded(
                before.ledger.table,
                Owner::Entry(s as nat, entries@[i].sequence as nat),
            ) by {
                let e = streams[s as int].entries@[i];
                assert(e.lease.recorded(
                    before.ledger.table,
                    Owner::Entry(s as nat, e.sequence as nat),
                ));
                assert(entries@[i] == e);
            }
            assert forall|i: int, j: int|
                #![trigger entries@[i], entries@[j]]
                0 <= i < j < entries@.len() implies entries@[i].sequence != entries@[j].sequence by {
                assert(st.entries[i].sequence == entries@[i].sequence);
                assert(st.entries[j].sequence == entries@[j].sequence);
            }
        }
        self.unlock(s, true);
        self.release_entries(s, entries);
        Ok(())
    }

    /// Returns the charges of publications that are no longer retained.
    fn release_entries(&mut self, s: usize, entries: VecDeque<Entry<P>>)
        requires
            old(self).wf(),
            s < old(self)@.streams.len(),
            forall|q: nat| !#[trigger] old(self)@.claims(Owner::Entry(s as nat, q)),
            forall|i: int|
                0 <= i < entries@.len() ==> (#[trigger] entries@[i]).lease.recorded(
                    old(self)@.ledger.table,
                    Owner::Entry(s as nat, entries@[i].sequence as nat),
                ),
            forall|i: int, j: int|
                #![trigger entries@[i], entries@[j]]
                0 <= i < j < entries@.len() ==> entries@[i].sequence != entries@[j].sequence,
        ensures
            final(self).wf(),
            final(self).root() == old(self).root(),
            final(self)@ == old(self)@.release_entries(entry_views(entries@)),
    {
        let mut pending = entries;
        let ghost target = self@.release_entries(entry_views(entries@));
        while pending.len() > 0
            invariant
                self.wf(),
                self.root() == old(self).root(),
                s < self@.streams.len(),
                forall|q: nat| !#[trigger] self@.claims(Owner::Entry(s as nat, q)),
                forall|i: int|
                    0 <= i < pending@.len() ==> (#[trigger] pending@[i]).lease.recorded(
                        self@.ledger.table,
                        Owner::Entry(s as nat, pending@[i].sequence as nat),
                    ),
                forall|i: int, j: int|
                    #![trigger pending@[i], pending@[j]]
                    0 <= i < j < pending@.len() ==> pending@[i].sequence != pending@[j].sequence,
                self@.release_entries(entry_views(pending@)) == target,
            decreases pending@.len(),
        {
            let ghost here = self@;
            let ghost all = pending@;
            let front = pending.pop_front().unwrap();
            let ghost q = front.sequence as nat;
            let ghost ticket = front.lease.ticket();
            proof {
                assert(entry_views(all)[0].ticket == ticket);
                assert(entry_views(all).drop_first() =~= entry_views(pending@));
                assert(front == all[0]);
            }
            self.put_back(front.lease, Ghost(Owner::Entry(s as nat, q)));
            proof {
                assert(self@.streams == here.streams);
                assert forall|r: nat| !#[trigger] self@.claims(Owner::Entry(s as nat, r)) by {
                    assert(!here.claims(Owner::Entry(s as nat, r)));
                }
                assert forall|i: int| 0 <= i < pending@.len() implies (
                #[trigger] pending@[i]).lease.recorded(
                    self@.ledger.table,
                    Owner::Entry(s as nat, pending@[i].sequence as nat),
                ) by {
                    assert(pending@[i] == all[i + 1]);
                    let other = pending@[i].lease.ticket();
                    assert(all[0].sequence != all[i + 1].sequence);
                    assert(here.ledger.outstanding(other));
                    assert(other != ticket);
                }
                assert forall|i: int, j: int|
                    #![trigger pending@[i], pending@[j]]
                    0 <= i < j < pending@.len() implies pending@[i].sequence
                    != pending@[j].sequence by {
                    assert(all[i + 1].sequence != all[j + 1].sequence);
                }
            }
        }
        proof {
            assert(entry_views(pending@) =~= Seq::<EntryView<P>>::empty());
        }
    }

    /// Reserves an attenuated grant for a component.
    ///
    /// # Errors
    ///
    /// Returns [`TopicError::Denied`] for unknown events. Invalid allowances return
    /// [`TopicError::InvalidConfig`]; insufficient owner capacity or permission storage
    /// returns [`TopicError::Capacity`].
    pub fn grant(&mut self, permissions: &[Permission], limits: Limits) -> (result: Result<
        Grant,
        TopicError,
    >)
        requires
            old(self).wf(),
        ensures
            final(self).wf(),
            final(self).root() == old(self).root(),
            ({
                let v = old(self)@;
                let root = old(self).root();
                if exists|j: int|
                    0 <= j < permissions@.len() && v.find(
                        (#[trigger] permissions@[j]).event,
                        0,
                    ) is None {
                    result == Err::<Grant, TopicError>(TopicError::Denied) && final(self)@ == v
                } else {
                    match v.ledger.restrict_error(root, permissions@, limits) {
                        Some(error) => result == Err::<Grant, TopicError>(error) && final(self)@
                            == v.with_ledger(v.ledger.refuse_restrict(root, permissions@, limits)),
                        None => {
                            &&& result matches Ok(child)
                            &&& child.node() == v.ledger.free_slot(0)
                            &&& child.node() != root
                            &&& final(self).knows(&child)
                            &&& splits(limits, permissions@)
                            &&& final(self)@ == v.with_ledger(
                                v.ledger.restrict(root, permissions@, limits),
                            )
                        },
                    }
                }
            }),
    {
        let ghost before = self@;
        let mut index: usize = 0;
        while index < permissions.len()
            invariant
                *self == *old(self),
                self.wf(),
                before == self@,
                index <= permissions@.len(),
                forall|j: int|
                    0 <= j < index ==> before.find((#[trigger] permissions@[j]).event, 0) is Some,
            decreases permissions@.len() - index,
        {
            if self.find(permissions[index].event).is_none() {
                assert(before.find(permissions@[index as int].event, 0) is None);
                return Err(TopicError::Denied);
            }
            index += 1;
        }
        let result = self.ledger.restrict(&self.root, permissions, limits);
        proof {
            assert(self@.streams =~= before.streams);
            if result is Ok {
                let slot = result->Ok_0.node();
                lemma_extends(before, self@.ledger, slot);
                lemma_stored(self.streams@, before, self@.ledger);
            } else {
                lemma_flags(before, self@);
            }
        }
        result
    }

    /// Reserves a child allowance and attenuates event permissions.
    ///
    /// # Errors
    ///
    /// Fails as [`Ledger::restrict`] does.
    pub(crate) fn derive(&mut self, grant: &Grant, permissions: &[Permission], limits: Limits) -> (result:
        Result<Grant, TopicError>)
        requires
            old(self).wf(),
            old(self).knows(grant),
        ensures
            final(self).wf(),
            final(self).root() == old(self).root(),
            ({
                let v = old(self)@;
                match v.ledger.restrict_error(grant.node(), permissions@, limits) {
                    Some(error) => result == Err::<Grant, TopicError>(error) && final(self)@
                        == v.with_ledger(
                        v.ledger.refuse_restrict(grant.node(), permissions@, limits),
                    ),
                    None => {
                        &&& result matches Ok(child)
                        &&& child.node() == v.ledger.free_slot(0)
                        &&& child.node() != old(self).root()
                        &&& final(self).knows(&child)
                        &&& splits(limits, permissions@)
                        &&& final(self)@ == v.with_ledger(
                            v.ledger.restrict(grant.node(), permissions@, limits),
                        )
                    },
                }
            }),
    {
        let ghost before = self@;
        let result = self.ledger.restrict(grant, permissions, limits);
        proof {
            assert(self@.streams =~= before.streams);
            if result is Ok {
                let slot = result->Ok_0.node();
                lemma_extends(before, self@.ledger, slot);
                lemma_stored(self.streams@, before, self@.ledger);
            } else {
                lemma_flags(before, self@);
            }
        }
        result
    }

    /// Returns physical stream reservations plus outstanding child allowances.
    #[must_use]
    pub fn usage(&self) -> (usage: Limits)
        requires
            self.wf(),
        ensures
            forall|k: int|
                0 <= k < RESOURCES ==> #[trigger] usage.get(k)
                    == self@.ledger.nodes[self.root() as int].used(k),
    {
        self.ledger.usage(&self.root)
    }

    /// The grants of this scope and what is charged to them.
    pub fn ledger(&self) -> (ledger: &Ledger)
        requires
            self.wf(),
        ensures
            ledger@ == self@.ledger,
            ledger.wf(),
    {
        &self.ledger
    }

    /// Takes the wakeups that are owed, oldest first.
    pub fn take_signals(&mut self) -> (signals: Vec<Signal>)
        requires
            old(self).wf(),
        ensures
            final(self).wf(),
            final(self).root() == old(self).root(),
            signals@ == old(self)@.ledger.signals,
            final(self)@ == old(self)@.with_ledger(
                LedgerView { signals: Seq::empty(), ..old(self)@.ledger },
            ),
    {
        let ghost before = self@;
        let signals = self.ledger.take_signals();
        proof {
            assert(self@.streams =~= before.streams);
            lemma_flags(before, self@);
        }
        signals
    }

    /// Stops admission in the subtree of a grant. See [`Ledger::begin_revocation`].
    ///
    /// # Errors
    ///
    /// Returns [`TopicError::Capacity`] while another revocation of this grant owns the
    /// control waiter.
    pub fn begin_revocation(&mut self, grant: &Grant) -> (result: Result<Revocation, TopicError>)
        requires
            old(self).wf(),
            old(self).knows(grant),
        ensures
            final(self).wf(),
            final(self).root() == old(self).root(),
            ({
                let (outcome, after) = old(self)@.ledger.begin_revocation(grant.node());
                result == outcome && final(self)@ == old(self)@.with_ledger(after)
            }),
    {
        let ghost before = self@;
        let result = self.ledger.begin_revocation(grant);
        proof {
            assert(self@.streams =~= before.streams);
            lemma_flags(before, self@);
        }
        result
    }

    /// Completes a cutoff if no operation is under way in the subtree any more.
    pub fn settle_revocation(&mut self, grant: &Grant) -> (settled: bool)
        requires
            old(self).wf(),
            old(self).knows(grant),
            old(self)@.ledger.nodes[grant.node() as int].revoked,
        ensures
            final(self).wf(),
            final(self).root() == old(self).root(),
            settled == old(self)@.ledger.quiet(grant.node()),
            settled ==> final(self)@ == old(self)@.with_ledger(
                old(self)@.ledger.cutoff_complete(grant.node()),
            ),
            !settled ==> final(self)@ == old(self)@,
    {
        let ghost before = self@;
        let settled = self.ledger.settle_revocation(grant);
        proof {
            assert(self@.streams =~= before.streams);
            lemma_flags(before, self@);
        }
        settled
    }

    /// Gives up the control waiter. The cutoff itself stays in effect.
    pub fn end_revocation(&mut self, grant: &Grant)
        requires
            old(self).wf(),
            old(self).knows(grant),
        ensures
            final(self).wf(),
            final(self).root() == old(self).root(),
            final(self)@ == old(self)@.with_ledger(
                old(self)@.ledger.with_node(
                    grant.node(),
                    NodeView {
                        revoking: false,
                        ..old(self)@.ledger.nodes[grant.node() as int]
                    },
                ),
            ),
    {
        let ghost before = self@;
        self.ledger.end_revocation(grant);
        proof {
            assert(self@.streams =~= before.streams);
            lemma_flags(before, self@);
        }
    }
}

/// A fabric without streams is in order.
proof fn lemma_empty<P>(v: FabricView<P>)
    requires
        v.ledger.wf(),
        v.ledger.table.len() == 0,
        v.streams.len() == 0,
    ensures
        v.wf(),
{
    assert forall|s: nat| s >= v.streams.len() implies #[trigger] tally(
        v.ledger.table,
        of_owner(Owner::Waiter(s)),
    ) == 0 by {}
}

/// What a receive gives, with the payload in place of a handle to it.
pub open spec fn unshared<P>(
    result: Result<Option<StreamItem<Arc<P>>>, ReceiveError>,
) -> Result<Option<StreamItem<P>>, ReceiveError> {
    match result {
        Ok(Some(item)) => Ok(Some(unshared_item(item))),
        Ok(None) => Ok(None),
        Err(error) => Err(error),
    }
}

pub open spec fn unshared_item<P>(item: StreamItem<Arc<P>>) -> StreamItem<P> {
    match item {
        StreamItem::Data { sequence, value } => StreamItem::Data { sequence, value: *value },
        StreamItem::Gap { from, to } => StreamItem::Gap { from, to },
    }
}

/// Charges stay what the table says of them while neither changes.
proof fn lemma_stored_same<P: Payloads>(
    before: Seq<Stream<P>>,
    after: Seq<Stream<P>>,
    table: Seq<Option<LeaseRecord>>,
)
    requires
        stored(before, table),
        after.len() == before.len(),
        forall|s: int|
            0 <= s < before.len() ==> (#[trigger] after[s]).entries == before[s].entries
                && after[s].allocation == before[s].allocation && after[s].declaration
                == before[s].declaration,
    ensures
        stored(after, table),
{
    assert forall|s: int, i: int| 0 <= s < after.len() && 0 <= i < after[s].entries@.len() implies (
    #[trigger] after[s].entries@[i]).value.kind() == after[s].declaration.payload by {
        let e = before[s].entries@[i];
    }
    assert forall|s: int, i: int|
        0 <= s < after.len() && 0 <= i < after[s].entries@.len() implies (
    #[trigger] after[s].entries@[i]).lease.recorded(
        table,
        Owner::Entry(s as nat, after[s].entries@[i].sequence as nat),
    ) by {
        let e = before[s].entries@[i];
        assert(e.lease.recorded(table, Owner::Entry(s as nat, e.sequence as nat)));
    }
    assert forall|s: int| 0 <= s < after.len() implies (
    #[trigger] after[s]).allocation.recorded(table, Owner::Storage(s as nat)) by {
        assert(before[s].allocation.recorded(table, Owner::Storage(s as nat)));
    }
}

/// Charges stay what the table says of them while the ledger keeps what is held.
proof fn lemma_stored<P: Payloads>(streams: Seq<Stream<P>>, v: FabricView<P>, after: LedgerView)
    requires
        stored(streams, v.ledger.table),
        v.streams =~= Seq::new(streams.len(), |s: int| streams[s].view()),
        claims_kept(v, after),
    ensures
        stored(streams, after.table),
{
    assert forall|s: int, i: int|
        0 <= s < streams.len() && 0 <= i < streams[s].entries@.len() implies (
    #[trigger] streams[s].entries@[i]).lease.recorded(
        after.table,
        Owner::Entry(s as nat, streams[s].entries@[i].sequence as nat),
    ) by {
        let entry = streams[s].entries@[i];
        assert(v.streams[s].entries[i].sequence == entry.sequence);
        lemma_claims_entry(v, s as nat, i);
        assert(entry.lease.recorded(
            v.ledger.table,
            Owner::Entry(s as nat, entry.sequence as nat),
        ));
        assert(v.ledger.outstanding(entry.lease.ticket()));
    }
    assert forall|s: int| 0 <= s < streams.len() implies (
    #[trigger] streams[s]).allocation.recorded(after.table, Owner::Storage(s as nat)) by {
        assert(streams[s].allocation.recorded(v.ledger.table, Owner::Storage(s as nat)));
        assert(v.claims(Owner::Storage(s as nat)));
        assert(v.ledger.outstanding(streams[s].allocation.ticket()));
    }
}

impl<P: Payloads> Default for DynamicFabric<P> {
    fn default() -> (fabric: Self)
        ensures
            fabric.wf(),
            fabric.root() == 0,
            fabric@.streams.len() == 0,
            fabric@.ledger == LedgerView::root(Limits::standard()),
    {
        Self::new()
    }
}

/// A stream is declared for its event by the event's identity and wire major, and by the number
/// of its payload type.
pub proof fn law_declared<E: EventSpec, P: Carries<E::Payload>>()
    ensures
        declared::<E, P>().event == E::ID,
        declared::<E, P>().wire_major == E::WIRE_MAJOR,
        declared::<E, P>().payload == P::PAYLOAD,
{
}

} // verus!

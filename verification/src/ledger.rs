//! The ledger of one scope: its grants, what each has reserved at its parent, and
//! what is charged to it.
use crate::allowance::{
    allotted, covers, lemma_search_unique, lemma_spent_within, merge, ordered, search, spent,
    EventAllowance, Pool,
};
use crate::derive_laws::{
    charged_each, extends, lemma_charge_each, lemma_free_slot, lemma_generic_charge,
    lemma_merged_positions, lemma_partition_within, lemma_remainder, lemma_restrict_extends,
    lemma_restrict_wf, lemma_splits, room_for_each, splits,
};
use crate::error::TopicError;
use crate::event::EventId;
use crate::grant::{
    lemma_partition_consistent, partition, reserved, Limits, Permission, Rights, StreamLimits,
    RESOURCES,
};
use crate::ledger_laws::{
    kept, kept_leases, lemma_assign_wf, lemma_charge_wf, lemma_cut_off_wf, lemma_cutoff_complete_wf,
    lemma_kept_transitive, lemma_node_change, lemma_orphan_sound, lemma_outstanding, lemma_reap_wf,
    lemma_release_kept, lemma_release_sound, lemma_unreserved, unreserved,
};
use crate::ledger_model::{
    all_listening, listening, on_node, on_pool, remainder, tally, without, LeaseRecord, LedgerView,
    NodeView, Owner, Signal,
};
use vstd::prelude::*;

verus! {

/// A charge that returns to its pool when it is released.
pub struct Lease {
    node: usize,
    event: Option<usize>,
    usage: Limits,
    ticket: Ghost<nat>,
}

impl Lease {
    /// Identity of the charge.
    pub closed spec fn ticket(self) -> nat {
        self.ticket@
    }

    /// Slot of the charged grant.
    pub closed spec fn node(self) -> nat {
        self.node as nat
    }

    /// Position of the charged event pool, or `None` for the generic pool.
    pub closed spec fn event(self) -> Option<nat> {
        widen(self.event)
    }

    /// What is charged.
    pub closed spec fn usage(self) -> Limits {
        self.usage
    }

    /// What the ledger records of the charge while it belongs to `owner`.
    pub open spec fn record(self, owner: Owner) -> LeaseRecord {
        LeaseRecord { node: self.node(), event: self.event(), usage: self.usage(), owner }
    }

    /// The charge is outstanding in `table` and belongs to `owner`.
    pub open spec fn recorded(self, table: Seq<Option<LeaseRecord>>, owner: Owner) -> bool {
        self.ticket() < table.len() && table[self.ticket() as int] == Some(self.record(owner))
    }
}

/// A handle to a grant. The ledger that issued it says what it may do.
pub struct Grant {
    node: usize,
}

impl Grant {
    /// Slot of the grant in its ledger.
    pub closed spec fn node(self) -> nat {
        self.node as nat
    }
}

/// An admitted operation, which has to leave again.
pub struct Operation {
    node: usize,
    notify: bool,
}

impl Operation {
    pub closed spec fn node(self) -> nat {
        self.node as nat
    }

    pub closed spec fn notifies(self) -> bool {
        self.notify
    }
}

/// How far a revocation is.
#[derive(Clone, Copy, Debug, PartialEq, Eq, Structural)]
pub enum Revocation {
    /// The cutoff has completed before.
    Complete,
    /// Admission has stopped; operations may still be under way.
    Pending,
}

/// One grant of the ledger.
struct GrantNode {
    limits: Limits,
    pool: Pool,
    unrestricted: bool,
    allowances: Vec<EventAllowance>,
    parent: Option<usize>,
    reservations: Vec<Lease>,
    active: usize,
    revoked: bool,
    revoking: bool,
    complete: bool,
    handles: usize,
    leases: usize,
    listeners: Vec<(EventId, u64)>,
    depth: Ghost<nat>,
}

/// The tickets of several leases.
spec fn tickets(leases: Seq<Lease>) -> Seq<nat> {
    Seq::new(leases.len(), |i: int| leases[i].ticket())
}

impl View for GrantNode {
    type V = NodeView;

    closed spec fn view(&self) -> NodeView {
        NodeView {
            limits: self.limits,
            pool: self.pool,
            unrestricted: self.unrestricted,
            allowances: self.allowances@,
            parent: match self.parent {
                Some(parent) => Some(parent as nat),
                None => None,
            },
            reservations: tickets(self.reservations@),
            active: self.active as nat,
            revoked: self.revoked,
            revoking: self.revoking,
            complete: self.complete,
            handles: self.handles as nat,
            leases: self.leases as nat,
            listeners: self.listeners@,
            depth: self.depth@,
        }
    }
}

/// All grants of one scope and the charges against them.
pub struct Ledger {
    nodes: Vec<GrantNode>,
    table: Ghost<Seq<Option<LeaseRecord>>>,
    signals: Vec<Signal>,
}

impl View for Ledger {
    type V = LedgerView;

    closed spec fn view(&self) -> LedgerView {
        LedgerView {
            nodes: Seq::new(self.nodes@.len(), |n: int| self.nodes@[n]@),
            table: self.table@,
            signals: self.signals@,
        }
    }
}

/// Every grant's reservation is what the table says of it.
spec fn backed(nodes: Seq<GrantNode>, table: Seq<Option<LeaseRecord>>) -> bool {
    forall|n: int, i: int|
        0 <= n < nodes.len() && 0 <= i < nodes[n].reservations@.len() ==> (
        #[trigger] nodes[n].reservations@[i]).recorded(table, Owner::Child(n as nat))
}

impl Ledger {
    /// The accounts balance and no dead grant holds a reservation.
    pub closed spec fn wf(&self) -> bool {
        self@.wf() && backed(self.nodes@, self.table@)
    }

    /// What a ledger in order says of its accounts.
    pub broadcast proof fn lemma_wf(&self)
        requires
            #[trigger] self.wf(),
        ensures
            self@.wf(),
    {
    }

    /// The grant of this handle is in this ledger.
    pub open spec fn knows(&self, grant: &Grant) -> bool {
        grant.node() < self@.nodes.len() && self@.nodes[grant.node() as int].handles > 0
    }

    /// The lease is outstanding in this ledger and belongs to `owner`.
    pub open spec fn holds(&self, lease: &Lease, owner: Owner) -> bool {
        lease.recorded(self@.table, owner)
    }

    /// A ledger whose only grant may use every event, within `limits`.
    pub fn new(limits: Limits) -> (result: (Ledger, Grant))
        ensures
            result.0.wf(),
            result.0.knows(&result.1),
            result.0@ == LedgerView::root(limits),
            result.1.node() == 0,
    {
        let node = GrantNode {
            limits,
            pool: Pool::new(limits),
            unrestricted: true,
            allowances: Vec::new(),
            parent: None,
            reservations: Vec::new(),
            active: 0,
            revoked: false,
            revoking: false,
            complete: false,
            handles: 1,
            leases: 0,
            listeners: Vec::new(),
            depth: Ghost(0),
        };
        let mut nodes: Vec<GrantNode> = Vec::new();
        nodes.push(node);
        let ledger = Ledger { nodes, table: Ghost(Seq::empty()), signals: Vec::new() };
        proof {
            assert(tickets(Seq::<Lease>::empty()) =~= Seq::<nat>::empty());
            assert(ledger@ =~= LedgerView::root(limits));
            lemma_root_wf(limits);
        }
        (ledger, Grant { node: 0 })
    }

    /// Another handle to the same grant.
    pub fn clone_grant(&mut self, grant: &Grant) -> (copy: Grant)
        requires
            old(self).wf(),
            old(self).knows(grant),
            old(self)@.nodes[grant.node() as int].handles < usize::MAX,
        ensures
            final(self).wf(),
            final(self)@ == old(self)@.with_handles(grant.node(), 1),
            copy.node() == grant.node(),
            final(self).knows(&copy),
    {
        let node = grant.node;
        self.nodes[node].handles = self.nodes[node].handles + 1;
        proof {
            let before = old(self)@;
            let after = before.with_handles(grant.node(), 1);
            assert(self@.nodes =~= after.nodes);
            lemma_node_change(before, after);
            assert forall|n: nat| n < after.nodes.len() implies !#[trigger] after.must_reap(n) by {
                assert(!before.must_reap(n));
            }
        }
        Grant { node }
    }

    /// Gives up a handle. With the last one, and once nothing is charged and no
    /// operation is under way, the grant's reservation returns to its parent.
    pub fn drop_grant(&mut self, grant: Grant)
        requires
            old(self).wf(),
            old(self).knows(&grant),
        ensures
            final(self).wf(),
            final(self)@ == old(self)@.with_handles(grant.node(), -1).reap(grant.node()),
            kept(old(self)@.with_handles(grant.node(), -1), final(self)@),
            kept_leases(old(self)@, final(self)@),
    {
        let node = grant.node;
        self.nodes[node].handles = self.nodes[node].handles - 1;
        proof {
            let before = old(self)@;
            let after = before.with_handles(grant.node(), -1);
            assert(self@.nodes =~= after.nodes);
            lemma_node_change(before, after);
            assert forall|m: nat| m < after.nodes.len() && m != grant.node() implies !#[trigger] after.must_reap(
            m) by {
                assert(!before.must_reap(m));
            }
            assert(self@ == after);
            lemma_reap_wf(after, grant.node());
            lemma_kept_leases_from(before, after, after.reap(grant.node()));
        }
        self.reap(node);
    }

    /// Charges `usage` to one pool of a grant.
    fn charge(
        &mut self,
        node: usize,
        event: Option<usize>,
        usage: Limits,
        owner: Ghost<Owner>,
    ) -> (result: Result<Lease, TopicError>)
        requires
            old(self).wf(),
            old(self)@.has_pool(node as nat, widen(event)),
        ensures
            final(self).wf(),
            match old(self)@.charge_error(node as nat, widen(event), usage) {
                Some(error) => result == Err::<Lease, TopicError>(error) && final(self)@ == old(
                    self,
                )@.refuse(node as nat, widen(event), usage),
                None => {
                    &&& result matches Ok(lease)
                    &&& lease.ticket() == old(self)@.table.len()
                    &&& lease.recorded(final(self)@.table, owner@)
                    &&& final(self)@ == old(self)@.charge(
                        node as nat,
                        widen(event),
                        usage,
                        owner@,
                    )
                },
            },
    {
        let ghost before = self@;
        let ghost nodes = self.nodes@;
        if self.nodes[node].revoked {
            assert(self@.signals =~= before.refuse(node as nat, widen(event), usage).signals);
            return Err(TopicError::Revoked);
        }
        let admitted = match event {
            None => self.nodes[node].pool.can_charge(usage),
            Some(index) => self.nodes[node].allowances[index].pool.can_charge(usage),
        };
        if !admitted {
            self.take_back(node, event, usage);
            return Err(TopicError::Capacity);
        }
        if self.nodes[node].leases == usize::MAX {
            assert(self@.signals =~= before.refuse(node as nat, widen(event), usage).signals);
            return Err(TopicError::Capacity);
        }
        match event {
            None => {
                self.nodes[node].pool.charge(usage);
            },
            Some(index) => {
                self.nodes[node].allowances[index].pool.charge(usage);
            },
        }
        self.nodes[node].leases = self.nodes[node].leases + 1;
        let lease = Lease { node, event, usage, ticket: Ghost(self.table@.len()) };
        self.table = Ghost(self.table@.push(Some(lease.record(owner@))));
        proof {
            let after = before.charge(node as nat, widen(event), usage, owner@);
            assert(self@.nodes =~= after.nodes);
            assert(self@ =~= after);
            lemma_charge_wf(before, node as nat, widen(event), usage, owner@);
            assert(backed(self.nodes@, self.table@)) by {
                assert forall|n: int, i: int|
                    0 <= n < self.nodes@.len() && 0 <= i
                        < self.nodes@[n].reservations@.len() implies (#[trigger] self.nodes@[n].reservations@[i]).recorded(self.table@, Owner::Child(n as nat)) by {
                    assert(nodes[n].reservations@[i].recorded(before.table, Owner::Child(n as nat)));
                }
            }
        }
        Ok(lease)
    }

    /// Signals that part of a refused charge was taken and has returned.
    fn take_back(&mut self, node: usize, event: Option<usize>, usage: Limits)
        requires
            old(self).wf(),
            old(self)@.has_pool(node as nat, widen(event)),
            !old(self)@.nodes[node as int].revoked,
        ensures
            final(self).wf(),
            final(self)@ == old(self)@.refuse(node as nat, widen(event), usage),
            final(self).nodes == old(self).nodes,
            final(self).table == old(self).table,
    {
        let ghost before = self@;
        let partly = match event {
            None => self.nodes[node].pool.takes_part(usage),
            Some(index) => self.nodes[node].allowances[index].pool.takes_part(usage),
        };
        if partly {
            self.notify_release(node, event);
        }
        proof {
            let after = before.refuse(node as nat, widen(event), usage);
            assert(partly ==> usage != Limits::none());
            assert(self@.nodes =~= before.nodes);
            assert(self@.signals =~= after.signals);
            lemma_signals_wf(before, self@);
        }
    }

    /// Charges `usage` to the generic pool of a grant.
    ///
    /// # Errors
    ///
    /// Returns [`TopicError::Revoked`] once the grant is revoked and
    /// [`TopicError::Capacity`] when the pool has less left than is asked for.
    pub fn try_charge(&mut self, grant: &Grant, usage: Limits) -> (result: Result<Lease, TopicError>)
        requires
            old(self).wf(),
            old(self).knows(grant),
        ensures
            final(self).wf(),
            match old(self)@.charge_error(grant.node(), None, usage) {
                Some(error) => result == Err::<Lease, TopicError>(error) && final(self)@ == old(
                    self,
                )@.refuse(grant.node(), None, usage),
                None => {
                    &&& result matches Ok(lease)
                    &&& lease.ticket() == old(self)@.table.len()
                    &&& final(self).holds(&lease, Owner::Caller)
                    &&& final(self)@ == old(self)@.charge(
                        grant.node(),
                        None,
                        usage,
                        Owner::Caller,
                    )
                },
            },
    {
        self.charge_generic(grant, usage, Ghost(Owner::Caller))
    }

    /// Charges `usage` to the generic pool of a grant, for `owner`.
    pub(crate) fn charge_generic(&mut self, grant: &Grant, usage: Limits, owner: Ghost<Owner>) -> (result:
        Result<Lease, TopicError>)
        requires
            old(self).wf(),
            old(self).knows(grant),
        ensures
            final(self).wf(),
            match old(self)@.charge_error(grant.node(), None, usage) {
                Some(error) => result == Err::<Lease, TopicError>(error) && final(self)@ == old(
                    self,
                )@.refuse(grant.node(), None, usage),
                None => {
                    &&& result matches Ok(lease)
                    &&& lease.ticket() == old(self)@.table.len()
                    &&& final(self).holds(&lease, owner@)
                    &&& final(self)@ == old(self)@.charge(grant.node(), None, usage, owner@)
                },
            },
    {
        self.charge(grant.node, None, usage, owner)
    }

    /// Position of the allowance for `event`.
    fn event_index(&self, node: usize, event: EventId) -> (result: Result<usize, TopicError>)
        requires
            self.wf(),
            node < self@.nodes.len(),
        ensures
            match self@.nodes[node as int].position(event) {
                Some(index) => result matches Ok(found) && found == index && self@.has_pool(
                    node as nat,
                    Some(index),
                ) && self@.nodes[node as int].allowances[index as int].permission.event == event,
                None => result == Err::<usize, TopicError>(TopicError::Denied),
            },
    {
        proof {
            assert(self@.node_sound(node as nat));
        }
        match search(&self.nodes[node].allowances, event) {
            Ok(index) => {
                proof {
                    lemma_position(self@.nodes[node as int], event, index as nat);
                }
                Ok(index)
            },
            Err(_) => Err(TopicError::Denied),
        }
    }

    /// Charges `usage` to the pool of one event, for `owner`.
    pub(crate) fn charge_stream(
        &mut self,
        grant: &Grant,
        event: EventId,
        usage: StreamLimits,
        owner: Ghost<Owner>,
    ) -> (result: Result<Lease, TopicError>)
        requires
            old(self).wf(),
            old(self).knows(grant),
        ensures
            final(self).wf(),
            match old(self)@.stream_charge_error(grant.node(), event, usage) {
                Some(error) => result == Err::<Lease, TopicError>(error) && final(self)@ == old(
                    self,
                )@.refuse_stream(grant.node(), event, usage) && (usage.single() ==> final(self)@
                    == old(self)@),
                None => {
                    &&& result matches Ok(lease)
                    &&& lease.ticket() == old(self)@.table.len()
                    &&& final(self).holds(&lease, owner@)
                    &&& final(self)@ == old(self)@.charge(
                        grant.node(),
                        old(self)@.nodes[grant.node() as int].position(event),
                        usage.widened(),
                        owner@,
                    )
                },
            },
    {
        let index = match self.event_index(grant.node, event) {
            Ok(index) => index,
            Err(error) => {
                return Err(error);
            },
        };
        proof {
            if usage.single() {
                lemma_refuse_single(self@, grant.node(), index as nat, usage);
            }
        }
        self.charge(grant.node, Some(index), usage.as_limits(), owner)
    }

    /// Charges `usage` to the pool of one event.
    ///
    /// # Errors
    ///
    /// Returns [`TopicError::Denied`] when the grant has no reservation for the
    /// event, and otherwise fails as [`Self::try_charge`] does.
    pub fn try_charge_stream(
        &mut self,
        grant: &Grant,
        event: EventId,
        usage: StreamLimits,
    ) -> (result: Result<Lease, TopicError>)
        requires
            old(self).wf(),
            old(self).knows(grant),
        ensures
            final(self).wf(),
            match old(self)@.stream_charge_error(grant.node(), event, usage) {
                Some(error) => result == Err::<Lease, TopicError>(error) && final(self)@ == old(
                    self,
                )@.refuse_stream(grant.node(), event, usage) && (usage.single() ==> final(self)@
                    == old(self)@),
                None => {
                    &&& result matches Ok(lease)
                    &&& lease.ticket() == old(self)@.table.len()
                    &&& final(self).holds(&lease, Owner::Caller)
                    &&& final(self)@ == old(self)@.charge(
                        grant.node(),
                        old(self)@.nodes[grant.node() as int].position(event),
                        usage.widened(),
                        Owner::Caller,
                    )
                },
            },
    {
        self.charge_stream(grant, event, usage, Ghost(Owner::Caller))
    }

    /// Returns a charge that belongs to `owner`.
    pub(crate) fn release_owned(&mut self, lease: Lease, owner: Ghost<Owner>)
        requires
            old(self).wf(),
            old(self).holds(&lease, owner@),
            !(owner@ is Child),
        ensures
            final(self).wf(),
            final(self)@ == old(self)@.release(lease.ticket()).reap(lease.node()),
            kept(old(self)@, final(self)@),
            forall|t: nat|
                t != lease.ticket() && old(self)@.outstanding(t) && !(old(self)@.record(
                    t,
                ).owner is Child) ==> #[trigger] final(self)@.outstanding(t)
                    && final(self)@.record(t) == old(self)@.record(t),
            !final(self)@.outstanding(lease.ticket()),
    {
        let node = lease.node;
        let ghost before = self@;
        let ghost nodes = self.nodes@;
        let ghost ticket = lease.ticket();
        proof {
            assert(before.outstanding(ticket));
            lemma_outstanding(before, ticket);
            lemma_unreserved(before, ticket);
            lemma_release_sound(before, ticket);
            lemma_release_kept(before, ticket);
        }
        self.put_back(lease);
        proof {
            lemma_backed_kept(nodes, before, self.nodes@, ticket);
            assert forall|m: nat|
                m < self@.nodes.len() && m != node implies !#[trigger] self@.must_reap(m) by {
                assert(!before.must_reap(m));
            }
            lemma_reap_wf(self@, node as nat);
            lemma_kept_transitive(before, self@, self@.reap(node as nat));
        }
        self.reap(node);
    }

    /// Returns a charge to its pool.
    pub fn release(&mut self, lease: Lease)
        requires
            old(self).wf(),
            old(self).holds(&lease, Owner::Caller),
        ensures
            final(self).wf(),
            final(self)@ == old(self)@.release(lease.ticket()).reap(
                lease.node(),
            ),
    {
        self.release_owned(lease, Ghost(Owner::Caller))
    }

    /// Tests whether a grant may use `event` with `right`.
    ///
    /// # Errors
    ///
    /// Returns [`TopicError::Revoked`] once the grant or an ancestor is revoked, and
    /// [`TopicError::Denied`] for an event or operation that it does not hold.
    pub fn check(&self, grant: &Grant, event: EventId, right: Rights) -> (result: Result<
        (),
        TopicError,
    >)
        requires
            self.wf(),
            self.knows(grant),
        ensures
            match self@.nodes[grant.node() as int].check_error(event, right) {
                Some(error) => result == Err::<(), TopicError>(error),
                None => result is Ok,
            },
    {
        let node = grant.node;
        proof {
            assert(self@.node_sound(node as nat));
        }
        if self.nodes[node].revoked {
            return Err(TopicError::Revoked);
        }
        if self.nodes[node].unrestricted {
            return Ok(());
        }
        match search(&self.nodes[node].allowances, event) {
            Ok(index) => {
                proof {
                    let allowances = self@.nodes[node as int].allowances;
                    assert forall|i: int|
                        0 <= i < allowances.len() && #[trigger] allowances[i].permission.event
                            == event implies i == index by {
                        lemma_search_unique(allowances, i, index as int);
                    }
                }
                if self.nodes[node].allowances[index].permission.rights.contains(right) {
                    Ok(())
                } else {
                    Err(TopicError::Denied)
                }
            },
            Err(_) => Err(TopicError::Denied),
        }
    }

    /// Signals that part of what a refused child was to have was taken and has returned.
    fn take_back_reservation(
        &mut self,
        node: usize,
        generic: Limits,
        allowances: &Vec<EventAllowance>,
    )
        requires
            old(self).wf(),
            node < old(self)@.nodes.len(),
            !old(self)@.nodes[node as int].revoked,
            generic.grants > 0,
            forall|i: int|
                0 <= i < allowances@.len() ==> old(self)@.nodes[node as int].position(
                    (#[trigger] allowances@[i]).permission.event,
                ) is Some,
        ensures
            final(self).wf(),
            final(self)@ == (LedgerView {
                signals: old(self)@.signals + old(self)@.reservation_signals(
                    node as nat,
                    generic,
                    allowances@,
                ),
                ..old(self)@
            }),
    {
        let ghost before = self@;
        let ghost at = before.nodes[node as int];
        assert(before.has_pool(node as nat, None));
        if !self.nodes[node].pool.can_charge(generic) {
            self.take_back(node, None, generic);
            return;
        }
        let mut short: usize = 0;
        while short < allowances.len()
            invariant
                *self == *old(self),
                self.wf(),
                before == self@,
                at == before.nodes[node as int],
                node < before.nodes.len(),
                !at.revoked,
                short <= allowances@.len(),
                before.first_short(node as nat, allowances@, 0) == before.first_short(
                    node as nat,
                    allowances@,
                    short as nat,
                ),
                forall|i: int|
                    0 <= i < allowances@.len() ==> at.position(
                        (#[trigger] allowances@[i]).permission.event,
                    ) is Some,
            ensures
                short <= allowances@.len(),
                before.first_short(node as nat, allowances@, 0) == short,
            decreases allowances@.len() - short,
        {
            let permission = allowances[short].permission;
            assert(permission == allowances@[short as int].permission);
            match self.event_index(node, permission.event) {
                Ok(found) => {
                    let room = self.nodes[node].allowances[found].pool.can_charge(
                        permission.limits.as_limits(),
                    );
                    if !room {
                        break ;
                    }
                },
                Err(_) => {
                    assert(false);
                },
            }
            short += 1;
        }
        if short == allowances.len() {
            assert(self@.signals =~= before.signals + before.reservation_signals(
                node as nat,
                generic,
                allowances@,
            ));
            return;
        }
        let permission = allowances[short].permission;
        assert(permission == allowances@[short as int].permission);
        match self.event_index(node, permission.event) {
            Ok(found) => {
                assert(before.has_pool(node as nat, Some(found as nat)));
                self.take_back(node, Some(found), permission.limits.as_limits());
            },
            Err(_) => {
                assert(false);
            },
        }
        let ghost refused = self@.signals;
        let mut index: usize = 0;
        while index < short
            invariant
                self.wf(),
                self.nodes == old(self).nodes,
                self.table == old(self).table,
                at == self@.nodes[node as int],
                self@.nodes == before.nodes,
                at == before.nodes[node as int],
                node < before.nodes.len(),
                index <= short < allowances@.len(),
                self@.signals == refused + before.returned_signals(
                    node as nat,
                    allowances@,
                    index as nat,
                ),
                forall|i: int|
                    0 <= i < allowances@.len() ==> at.position(
                        (#[trigger] allowances@[i]).permission.event,
                    ) is Some,
            decreases short - index,
        {
            let permission = allowances[index].permission;
            assert(permission == allowances@[index as int].permission);
            match self.event_index(node, permission.event) {
                Ok(found) => {
                    self.returned(node, Some(found), permission.limits.as_limits());
                },
                Err(_) => {
                    assert(false);
                },
            }
            index += 1;
            assert(self@.signals =~= refused + before.returned_signals(
                node as nat,
                allowances@,
                index as nat,
            ));
        }
        self.returned(node, None, generic);
        assert(self@.signals =~= before.signals + before.reservation_signals(
            node as nat,
            generic,
            allowances@,
        ));
    }

    /// Signals that `usage` has returned to a pool.
    fn returned(&mut self, node: usize, event: Option<usize>, usage: Limits)
        requires
            old(self).wf(),
            old(self)@.has_pool(node as nat, widen(event)),
        ensures
            final(self).wf(),
            final(self).nodes == old(self).nodes,
            final(self).table == old(self).table,
            final(self)@ == (LedgerView {
                signals: old(self)@.signals + old(self)@.release_signals(
                    node as nat,
                    widen(event),
                    usage,
                ),
                ..old(self)@
            }),
    {
        let ghost before = self@;
        if usage != Limits::zero() {
            self.notify_release(node, event);
        }
        proof {
            assert(self@.nodes =~= before.nodes);
            assert(self@.signals =~= before.signals + before.release_signals(
                node as nat,
                widen(event),
                usage,
            ));
            lemma_signals_wf(before, self@);
        }
    }

    /// Tests whether the event pools have room for each of `allowances`.
    fn can_charge_each(&self, node: usize, allowances: &Vec<EventAllowance>) -> (room: bool)
        requires
            self.wf(),
            node < self@.nodes.len(),
            forall|i: int|
                0 <= i < allowances@.len() ==> self@.nodes[node as int].position(
                    (#[trigger] allowances@[i]).permission.event,
                ) is Some,
        ensures
            room == forall|i: int|
                0 <= i < allowances@.len() ==> self@.nodes[node as int].pool_at(
                    self@.nodes[node as int].position(
                        (#[trigger] allowances@[i]).permission.event,
                    ),
                ).admits(allowances@[i].permission.limits.widened()),
    {
        let mut index: usize = 0;
        while index < allowances.len()
            invariant
                self.wf(),
                node < self@.nodes.len(),
                index <= allowances@.len(),
                forall|i: int|
                    0 <= i < allowances@.len() ==> self@.nodes[node as int].position(
                        (#[trigger] allowances@[i]).permission.event,
                    ) is Some,
                forall|i: int|
                    0 <= i < index ==> self@.nodes[node as int].pool_at(
                        self@.nodes[node as int].position(
                            (#[trigger] allowances@[i]).permission.event,
                        ),
                    ).admits(allowances@[i].permission.limits.widened()),
            decreases allowances@.len() - index,
        {
            let permission = allowances[index].permission;
            match self.event_index(node, permission.event) {
                Ok(found) => {
                    if !self.nodes[node].allowances[found].pool.can_charge(
                        permission.limits.as_limits(),
                    ) {
                        assert(allowances@[index as int].permission == permission);
                        return false;
                    }
                },
                Err(_) => {
                    assert(allowances@[index as int].permission == permission);
                    return false;
                },
            }
            index += 1;
        }
        true
    }

    /// Charges the capacity of each allowance to the pool of its event.
    fn charge_each(
        &mut self,
        grant: &Grant,
        allowances: &Vec<EventAllowance>,
        owner: Ghost<Owner>,
    ) -> (leases: Vec<Lease>)
        requires
            old(self).wf(),
            old(self).knows(grant),
            !old(self)@.nodes[grant.node() as int].revoked,
            ordered(allowances@),
            room_for_each(old(self)@.nodes[grant.node() as int], allowances@),
        ensures
            final(self).wf(),
            final(self)@ == old(self)@.charge_each(grant.node(), allowances@, owner@),
            leases@.len() == allowances@.len(),
            forall|i: int|
                0 <= i < leases@.len() ==> {
                    &&& (#[trigger] leases@[i]).ticket() == old(self)@.table.len() + i
                    &&& leases@[i].recorded(final(self)@.table, owner@)
                },
    {
        let ghost before = self@;
        let ghost at = before.nodes[grant.node() as int];
        let mut leases: Vec<Lease> = Vec::new();
        let mut index: usize = 0;
        proof {
            assert(allowances@.take(0) =~= Seq::empty());
        }
        while index < allowances.len()
            invariant
                before == old(self)@,
                before.wf(),
                self.wf(),
                self.knows(grant),
                grant.node() < before.nodes.len(),
                at == before.nodes[grant.node() as int],
                !at.revoked,
                ordered(allowances@),
                room_for_each(at, allowances@),
                index <= allowances@.len(),
                self@ == before.charge_each(grant.node(), allowances@.take(index as int), owner@),
                charged_each(
                    before,
                    self@,
                    grant.node(),
                    allowances@.take(index as int),
                    owner@,
                ),
                forall|event: EventId|
                    #[trigger] self@.nodes[grant.node() as int].position(event) == at.position(
                        event,
                    ),
                leases@.len() == index,
                forall|i: int|
                    0 <= i < leases@.len() ==> {
                        &&& (#[trigger] leases@[i]).ticket() == before.table.len() + i
                        &&& leases@[i].recorded(self@.table, owner@)
                    },
            decreases allowances@.len() - index,
        {
            let permission = allowances[index].permission;
            let ghost here = self@;
            let ghost earlier = allowances@.take(index as int);
            let ghost upto = allowances@.take(index + 1);
            let ghost position = at.position(permission.event);
            proof {
                assert(allowances@[index as int].permission == permission);
                assert(upto.drop_last() =~= earlier);
                assert(upto.last() == allowances@[index as int]);
                assert forall|i: int| 0 <= i < earlier.len() implies (
                #[trigger] earlier[i]).permission.event != permission.event by {
                    assert(allowances@[i].permission.event.0
                        < allowances@[index as int].permission.event.0);
                }
                assert(here.nodes[grant.node() as int].allowances[position->0 as int]
                    == at.allowances[position->0 as int]);
                assert(here.stream_charge_error(grant.node(), permission.event, permission.limits)
                    is None);
            }
            match self.charge_stream(grant, permission.event, permission.limits, owner) {
                Ok(lease) => {
                    leases.push(lease);
                },
                Err(_) => {
                    assert(false);
                },
            }
            proof {
                assert(ordered(upto)) by {
                    assert forall|i: int, j: int|
                        #![trigger upto[i], upto[j]]
                        0 <= i < j < upto.len() implies upto[i].permission.event.0
                        < upto[j].permission.event.0 by {
                        assert(allowances@[i].permission.event.0
                            < allowances@[j].permission.event.0);
                    }
                }
                assert(room_for_each(at, upto)) by {
                    assert forall|i: int| 0 <= i < upto.len() implies #[trigger] upto[i]
                        == allowances@[i] by {}
                }
                assert(self@ == before.charge_each(grant.node(), upto, owner@));
                lemma_charge_each(before, grant.node(), upto, owner@);
                assert forall|i: int| 0 <= i < leases@.len() implies {
                    &&& (#[trigger] leases@[i]).ticket() == before.table.len() + i
                    &&& leases@[i].recorded(self@.table, owner@)
                } by {}
            }
            index += 1;
        }
        proof {
            assert(allowances@.take(index as int) =~= allowances@);
        }
        leases
    }

    /// The first slot that nothing refers to.
    fn free_slot(&self) -> (slot: usize)
        ensures
            slot == self@.free_slot(0),
            slot <= self@.nodes.len(),
    {
        let mut slot: usize = 0;
        while slot < self.nodes.len()
            invariant
                slot <= self.nodes@.len(),
                self@.free_slot(0) == self@.free_slot(slot as nat),
            decreases self.nodes@.len() - slot,
        {
            if self.nodes[slot].handles == 0 && self.nodes[slot].leases == 0
                && self.nodes[slot].active == 0 {
                return slot;
            }
            slot += 1;
        }
        slot
    }

    /// Reserves a child allowance and attenuates event permissions.
    ///
    /// The parent's charge includes all child allowances and one grant slot. Event
    /// reservations come from matching parent event pools; the generic remainder comes
    /// only from the parent's generic pool.
    ///
    /// # Errors
    ///
    /// Returns [`TopicError::InvalidConfig`] for invalid limits or conflicting duplicate
    /// event reservations, [`TopicError::Denied`] for permissions the parent does not
    /// hold, or [`TopicError::Revoked`] when this grant or an ancestor is revoked.
    /// [`TopicError::Capacity`] means the permission list exceeds `limits.streams`, event
    /// reservations exceed the child's totals, or the parent cannot reserve every matching
    /// pool plus the child grant slot. Failed requests retain no reservations.
    pub fn restrict(
        &mut self,
        grant: &Grant,
        permissions: &[Permission],
        limits: Limits,
    ) -> (result: Result<Grant, TopicError>)
        requires
            old(self).wf(),
            old(self).knows(grant),
        ensures
            final(self).wf(),
            match old(self)@.restrict_error(grant.node(), permissions@, limits) {
                Some(error) => result == Err::<Grant, TopicError>(error) && final(self)@ == old(
                    self,
                )@.refuse_restrict(grant.node(), permissions@, limits),
                None => {
                    &&& result matches Ok(child)
                    &&& child.node() == old(self)@.free_slot(0)
                    &&& final(self).knows(&child)
                    &&& final(self)@ == old(self)@.restrict(grant.node(), permissions@, limits)
                    &&& extends(old(self)@, final(self)@, child.node())
                    &&& splits(limits, permissions@)
                },
            },
    {
        let node = grant.node;
        let ghost before = self@;
        let ghost at = before.nodes[node as int];
        match limits.validate() {
            Ok(_) => {},
            Err(error) => {
                return Err(error);
            },
        }
        if permissions.len() > limits.streams {
            return Err(TopicError::Capacity);
        }
        match self.check_each(grant, permissions) {
            Ok(_) => {},
            Err(error) => {
                return Err(error);
            },
        }
        let generic = match partition(limits, permissions) {
            Ok(generic) => generic,
            Err(error) => {
                return Err(error);
            },
        };
        if self.nodes[node].revoked {
            return Err(TopicError::Revoked);
        }
        proof {
            lemma_partition_consistent(limits, permissions@);
            assert(before.node_sound(node as nat));
        }
        let allowances = merge(permissions);
        proof {
            lemma_splits(limits, permissions@, allowances@);
            lemma_partition_within(limits, permissions@);
            lemma_remainder(limits, permissions@);
            lemma_same_limits(generic, remainder(limits, permissions@), limits, permissions@);
            assert(limits.get(1) <= isize::MAX);
        }
        let unrestricted = self.nodes[node].unrestricted;
        let base = if unrestricted {
            limits
        } else {
            generic
        };
        let reservation = Limits { grants: base.grants + 1, ..base };
        let charges = if unrestricted {
            Vec::new()
        } else {
            copied(&allowances)
        };
        proof {
            assert(reservation == at.reservation(permissions@, limits));
            assert(charges@ =~= at.event_charges(permissions@));
            assert forall|i: int| 0 <= i < charges@.len() implies at.position(
                (#[trigger] charges@[i]).permission.event,
            ) is Some by {
                lemma_merged_positions(at, permissions@, i);
            }
        }
        if !self.nodes[node].pool.can_charge(reservation) || !self.can_charge_each(node, &charges)
            || charges.len() >= usize::MAX - self.nodes[node].leases {
            self.take_back_reservation(node, reservation, &charges);
            return Err(TopicError::Capacity);
        }
        let slot = self.free_slot();
        let ghost owner = Owner::Child(slot as nat);
        proof {
            lemma_free_slot(before, 0);
            lemma_generic_charge(before, node as nat, slot as nat, permissions@, limits);
            lemma_restrict_wf(before, node as nat, permissions@, limits);
            lemma_restrict_extends(before, node as nat, permissions@, limits);
        }
        let mut reservations: Vec<Lease> = Vec::new();
        match self.charge(node, None, reservation, Ghost(owner)) {
            Ok(lease) => {
                reservations.push(lease);
            },
            Err(_) => {
                assert(false);
            },
        }
        let ghost generic_view = self@;
        let mut event_leases = self.charge_each(grant, &charges, Ghost(owner));
        let ghost ready = self@;
        proof {
            lemma_charge_each(generic_view, node as nat, charges@, owner);
            assert(ready == before.reserve(node as nat, slot as nat, permissions@, limits));
            assert(reservations@[0].recorded(ready.table, owner)) by {
                assert(ready.table[before.table.len() as int]
                    == generic_view.table[before.table.len() as int]);
            }
        }
        reservations.append(&mut event_leases);
        let ghost after = before.restrict(node as nat, permissions@, limits);
        let child = GrantNode {
            limits,
            pool: Pool::new(generic),
            unrestricted: false,
            allowances,
            parent: Some(node),
            reservations,
            active: 0,
            revoked: false,
            revoking: false,
            complete: false,
            handles: 1,
            leases: 0,
            listeners: Vec::new(),
            depth: Ghost(at.depth + 1),
        };
        proof {
            assert(child@.reservations =~= after.nodes[slot as int].reservations);
            assert(child@ == after.nodes[slot as int]);
        }
        let ghost nodes = self.nodes@;
        if slot < self.nodes.len() {
            self.nodes[slot] = child;
        } else {
            self.nodes.push(child);
        }
        proof {
            assert(self@.nodes =~= after.nodes);
            assert(self@ =~= after);
            assert(backed(self.nodes@, self.table@)) by {
                assert forall|n: int, i: int|
                    0 <= n < self.nodes@.len() && 0 <= i
                        < self.nodes@[n].reservations@.len() implies (
                #[trigger] self.nodes@[n].reservations@[i]).recorded(
                    self.table@,
                    Owner::Child(n as nat),
                ) by {
                    if n != slot {
                        assert(nodes[n].reservations@[i].recorded(
                            self.table@,
                            Owner::Child(n as nat),
                        ));
                    }
                }
            }
        }
        Ok(Grant { node: slot })
    }

    /// Tests whether a grant holds all of `permissions`.
    fn check_each(&self, grant: &Grant, permissions: &[Permission]) -> (result: Result<
        (),
        TopicError,
    >)
        requires
            self.wf(),
            self.knows(grant),
        ensures
            match self@.nodes[grant.node() as int].permissions_error(permissions@) {
                Some(error) => result == Err::<(), TopicError>(error),
                None => result is Ok,
            },
    {
        let ghost at = self@.nodes[grant.node() as int];
        let mut index: usize = 0;
        while index < permissions.len()
            invariant
                self.wf(),
                self.knows(grant),
                at == self@.nodes[grant.node() as int],
                index <= permissions@.len(),
                at.permissions_error(permissions@.take(index as int)) is None,
            decreases permissions@.len() - index,
        {
            let ghost upto = permissions@.take(index + 1);
            proof {
                assert(upto.drop_last() =~= permissions@.take(index as int));
                assert(upto.last() == permissions@[index as int]);
            }
            match self.check(grant, permissions[index].event, permissions[index].rights) {
                Ok(_) => {},
                Err(error) => {
                    proof {
                        lemma_permissions_error_prefix(at, permissions@, index + 1);
                    }
                    return Err(error);
                },
            }
            index += 1;
        }
        proof {
            assert(permissions@.take(index as int) =~= permissions@);
        }
        Ok(())
    }

    /// Tests whether an operation on `event` would be admitted now.
    ///
    /// # Errors
    ///
    /// Returns what [`Self::check`] does, and [`TopicError::Capacity`] when no further
    /// operation can be counted.
    pub fn can_enter(&self, grant: &Grant, event: EventId, right: Rights) -> (result: Result<
        (),
        TopicError,
    >)
        requires
            self.wf(),
            self.knows(grant),
        ensures
            match self@.enter_error(grant.node(), event, right) {
                Some(error) => result == Err::<(), TopicError>(error),
                None => result is Ok,
            },
    {
        match self.check(grant, event, right) {
            Ok(_) => {
                if self.nodes[grant.node].active >= usize::MAX / 2 {
                    Err(TopicError::Capacity)
                } else {
                    Ok(())
                }
            },
            Err(error) => Err(error),
        }
    }

    /// Admits an operation on `event`, which has to [`Self::leave`] again. Leaving
    /// signals a change if `notify` is set.
    ///
    /// # Errors
    ///
    /// Returns what [`Self::check`] does, and [`TopicError::Capacity`] when no further
    /// operation can be counted.
    pub fn enter(
        &mut self,
        grant: &Grant,
        event: EventId,
        right: Rights,
        notify: bool,
    ) -> (result: Result<Operation, TopicError>)
        requires
            old(self).wf(),
            old(self).knows(grant),
        ensures
            final(self).wf(),
            match old(self)@.enter_error(grant.node(), event, right) {
                Some(error) => result == Err::<Operation, TopicError>(error) && *final(self)
                    == *old(self),
                None => {
                    &&& result matches Ok(operation)
                    &&& operation.node() == grant.node()
                    &&& operation.notifies() == notify
                    &&& final(self)@ == old(self)@.with_active(grant.node(), 1)
                },
            },
    {
        match self.can_enter(grant, event, right) {
            Ok(_) => {},
            Err(error) => {
                return Err(error);
            },
        }
        let node = grant.node;
        self.nodes[node].active = self.nodes[node].active + 1;
        proof {
            let before = old(self)@;
            let after = before.with_active(grant.node(), 1);
            assert(self@.nodes =~= after.nodes);
            lemma_node_change(before, after);
            assert forall|n: nat| n < after.nodes.len() implies !#[trigger] after.must_reap(n) by {
                assert(!before.must_reap(n));
            }
            lemma_backed_same(old(self).nodes@, self.nodes@, self.table@);
        }
        Ok(Operation { node, notify })
    }

    /// Ends an admitted operation.
    pub fn leave(&mut self, operation: Operation)
        requires
            old(self).wf(),
            operation.node() < old(self)@.nodes.len(),
            old(self)@.nodes[operation.node() as int].active > 0,
        ensures
            final(self).wf(),
            final(self)@ == old(self)@.leave(operation.node(), operation.notifies()).reap(
                operation.node(),
            ),
            kept(old(self)@.leave(operation.node(), operation.notifies()), final(self)@),
            kept_leases(old(self)@, final(self)@),
    {
        let node = operation.node;
        self.nodes[node].active = self.nodes[node].active - 1;
        if operation.notify {
            self.signals.push(Signal::Changed(node));
        }
        proof {
            let before = old(self)@;
            let after = before.leave(operation.node(), operation.notifies());
            assert(self@.nodes =~= after.nodes);
            assert(self@ =~= after);
            lemma_node_change(before, after);
            assert forall|m: nat| m < after.nodes.len() && m != node implies !#[trigger] after.must_reap(
            m) by {
                assert(!before.must_reap(m));
            }
            lemma_backed_same(old(self).nodes@, self.nodes@, self.table@);
            lemma_reap_wf(after, node as nat);
            lemma_kept_leases_from(before, after, after.reap(node as nat));
        }
        self.reap(node);
    }

    /// Returns whether the grant or an ancestor has been revoked.
    pub fn is_revoked(&self, grant: &Grant) -> (revoked: bool)
        requires
            self.wf(),
            self.knows(grant),
        ensures
            revoked == self@.nodes[grant.node() as int].revoked,
    {
        self.nodes[grant.node].revoked
    }

    /// Returns the grant's finite allowance.
    pub fn limits(&self, grant: &Grant) -> (limits: Limits)
        requires
            self.wf(),
            self.knows(grant),
        ensures
            limits == self@.nodes[grant.node() as int].limits,
    {
        self.nodes[grant.node].limits
    }

    /// Returns the reserved data-plane allowance for an event, including after revocation.
    ///
    /// # Errors
    ///
    /// Returns [`TopicError::Denied`] if the event is absent from the grant.
    pub fn stream_limits(&self, grant: &Grant, event: EventId) -> (result: Result<
        StreamLimits,
        TopicError,
    >)
        requires
            self.wf(),
            self.knows(grant),
        ensures
            match self@.nodes[grant.node() as int].position(event) {
                Some(index) => result == Ok::<StreamLimits, TopicError>(
                    self@.nodes[grant.node() as int].allowances[index as int].permission.limits,
                ),
                None => result == Err::<StreamLimits, TopicError>(TopicError::Denied),
            },
    {
        match self.event_index(grant.node, event) {
            Ok(index) => Ok(self.nodes[grant.node].allowances[index].permission.limits),
            Err(error) => Err(error),
        }
    }

    /// Returns direct event usage plus reservations for descendants of that event.
    ///
    /// # Errors
    ///
    /// Returns [`TopicError::Denied`] if the event is absent from the grant.
    pub fn stream_usage(&self, grant: &Grant, event: EventId) -> (result: Result<
        StreamLimits,
        TopicError,
    >)
        requires
            self.wf(),
            self.knows(grant),
        ensures
            match self@.nodes[grant.node() as int].position(event) {
                Some(index) => {
                    let used =
                        self@.nodes[grant.node() as int].allowances[index as int].pool.used;
                    result == Ok::<StreamLimits, TopicError>(
                        StreamLimits {
                            retained_items: used.retained_items,
                            subscriptions: used.subscriptions,
                            waiters: used.waiters,
                        },
                    )
                },
                None => result == Err::<StreamLimits, TopicError>(TopicError::Denied),
            },
    {
        match self.event_index(grant.node, event) {
            Ok(index) => {
                let used = self.nodes[grant.node].allowances[index].pool.used;
                Ok(
                    StreamLimits {
                        retained_items: used.retained_items,
                        subscriptions: used.subscriptions,
                        waiters: used.waiters,
                    },
                )
            },
            Err(error) => Err(error),
        }
    }

    /// Returns direct usage plus child reservations, over all pools of the grant.
    pub fn usage(&self, grant: &Grant) -> (usage: Limits)
        requires
            self.wf(),
            self.knows(grant),
        ensures
            forall|k: int|
                0 <= k < RESOURCES ==> #[trigger] usage.get(k) == self@.nodes[grant.node() as int].used(
                    k,
                ),
            usage.within(self@.nodes[grant.node() as int].limits),
    {
        let node = grant.node;
        let ghost at = self@.nodes[node as int];
        let mut total = [0usize;7];
        let mut resource: usize = 0;
        while resource < RESOURCES
            invariant
                self.wf(),
                node < self@.nodes.len(),
                at == self@.nodes[node as int],
                resource <= RESOURCES,
                forall|k: int| 0 <= k < resource ==> total@[k] == #[trigger] at.used(k),
            decreases RESOURCES - resource,
        {
            let sum = self.used_of(node, resource);
            total[resource] = sum;
            resource += 1;
        }
        let usage = Limits::from_values(total);
        proof {
            assert forall|k: int| 0 <= k < RESOURCES implies #[trigger] usage.get(k) == at.used(k) by {
                assert(total@[k] == at.used(k));
            }
            assert forall|k: int| 0 <= k < RESOURCES implies #[trigger] usage.get(k)
                <= at.limits.get(k) by {
                lemma_used_within(self@, node as nat, k);
            }
        }
        usage
    }

    /// What is in use of one resource over all pools of a grant.
    fn used_of(&self, node: usize, resource: usize) -> (sum: usize)
        requires
            self.wf(),
            node < self@.nodes.len(),
            resource < RESOURCES,
        ensures
            sum == self@.nodes[node as int].used(resource as int),
    {
        let ghost at = self@.nodes[node as int];
        let ghost k = resource as int;
        proof {
            lemma_used_within(self@, node as nat, k);
            assert(at.allowances.take(0) =~= Seq::empty());
        }
        let mut sum: usize = self.nodes[node].pool.used.values()[resource];
        let mut index: usize = 0;
        while index < self.nodes[node].allowances.len()
            invariant
                node < self@.nodes.len(),
                resource < RESOURCES,
                k == resource,
                at == self@.nodes[node as int],
                index <= at.allowances.len(),
                at.used(k) <= usize::MAX,
                sum == at.pool.used.get(k) + spent(at.allowances.take(index as int), k),
            decreases at.allowances.len() - index,
        {
            let more: usize = self.nodes[node].allowances[index].pool.used.values()[resource];
            proof {
                let upto = at.allowances.take(index + 1);
                assert(upto.drop_last() =~= at.allowances.take(index as int));
                lemma_spent_prefix(at.allowances, index + 1, k);
            }
            sum = sum + more;
            index += 1;
        }
        assert(at.allowances.take(index as int) =~= at.allowances);
        sum
    }

    /// Registers a listener for changes that concern `event` in a grant.
    ///
    /// # Errors
    ///
    /// Returns [`TopicError::Revoked`] once the grant is revoked, and
    /// [`TopicError::Capacity`] when its stream allowance has no registration left.
    pub fn register_stream(&mut self, grant: &Grant, event: EventId, listener: u64) -> (result:
        Result<(), TopicError>)
        requires
            old(self).wf(),
            old(self).knows(grant),
        ensures
            final(self).wf(),
            match old(self)@.register_error(grant.node(), event, listener) {
                Some(error) => result == Err::<(), TopicError>(error) && *final(self) == *old(self),
                None => result is Ok && final(self)@ == old(self)@.register(
                    grant.node(),
                    event,
                    listener,
                ),
            },
    {
        let node = grant.node;
        if self.nodes[node].revoked {
            return Err(TopicError::Revoked);
        }
        let ghost listeners = self.nodes@[node as int].listeners@;
        let mut index: usize = 0;
        while index < self.nodes[node].listeners.len()
            invariant
                *self == *old(self),
                self.wf(),
                node == grant.node(),
                node < self.nodes@.len(),
                listeners == self.nodes@[node as int].listeners@,
                listeners == self@.nodes[node as int].listeners,
                !self@.nodes[node as int].revoked,
                index <= listeners.len(),
                forall|i: int| 0 <= i < index ==> #[trigger] listeners[i] != (event, listener),
            decreases listeners.len() - index,
        {
            let (id, found) = self.nodes[node].listeners[index];
            if id == event && found == listener {
                assert(listeners[index as int] == (event, listener));
                assert(listeners.contains((event, listener)));
                return Ok(());
            }
            index += 1;
        }
        assert(!listeners.contains((event, listener)));
        if self.nodes[node].listeners.len() >= self.nodes[node].limits.streams {
            return Err(TopicError::Capacity);
        }
        self.nodes[node].listeners.push((event, listener));
        proof {
            let before = old(self)@;
            let after = before.register(grant.node(), event, listener);
            assert(self@.nodes =~= after.nodes);
            lemma_node_change(before, after);
            assert forall|n: nat| n < after.nodes.len() implies !#[trigger] after.must_reap(n) by {
                assert(!before.must_reap(n));
            }
            lemma_backed_same(old(self).nodes@, self.nodes@, self.table@);
        }
        Ok(())
    }

    /// Tests whether the grant in slot `node` is or descends from that in `ancestor`.
    fn descends(&self, node: usize, ancestor: usize) -> (result: bool)
        requires
            self@.sound(),
            node < self@.nodes.len(),
        ensures
            result == self@.descends(node as nat, ancestor as nat),
    {
        let mut current: usize = node;
        while current != ancestor
            invariant
                self@.sound(),
                current < self@.nodes.len(),
                self@.descends(node as nat, ancestor as nat) == self@.descends(
                    current as nat,
                    ancestor as nat,
                ),
            decreases self@.nodes[current as int].depth,
        {
            proof {
                assert(self@.reservation_sound(current as nat));
            }
            match self.nodes[current].parent {
                Some(parent) => {
                    current = parent;
                },
                None => {
                    return false;
                },
            }
        }
        true
    }

    /// For each slot, whether its grant is or descends from that in `ancestor`.
    fn subtree(&self, ancestor: usize) -> (members: Vec<bool>)
        requires
            self@.sound(),
        ensures
            members@.len() == self@.nodes.len(),
            forall|n: int|
                0 <= n < members@.len() ==> #[trigger] members@[n] == self@.descends(
                    n as nat,
                    ancestor as nat,
                ),
    {
        let mut members: Vec<bool> = Vec::new();
        let mut slot: usize = 0;
        while slot < self.nodes.len()
            invariant
                self@.sound(),
                slot <= self@.nodes.len(),
                members@.len() == slot,
                forall|n: int|
                    0 <= n < members@.len() ==> #[trigger] members@[n] == self@.descends(
                        n as nat,
                        ancestor as nat,
                    ),
            decreases self@.nodes.len() - slot,
        {
            members.push(self.descends(slot, ancestor));
            slot += 1;
        }
        members
    }

    /// Stops admission in the subtree of a grant.
    ///
    /// The caller owns the grant's one control waiter until [`Self::end_revocation`].
    /// A revocation that has completed before needs no further step.
    ///
    /// # Errors
    ///
    /// Returns [`TopicError::Capacity`] while another revocation of this grant owns the
    /// control waiter.
    pub fn begin_revocation(&mut self, grant: &Grant) -> (result: Result<Revocation, TopicError>)
        requires
            old(self).wf(),
            old(self).knows(grant),
        ensures
            final(self).wf(),
            (result, final(self)@) == old(self)@.begin_revocation(grant.node()),
    {
        let node = grant.node;
        if self.nodes[node].complete {
            return Ok(Revocation::Complete);
        }
        if self.nodes[node].revoking {
            return Err(TopicError::Capacity);
        }
        let members = self.subtree(node);
        let ghost before = self@;
        let ghost nodes = self.nodes@;
        let mut slot: usize = 0;
        assert(self.signals@ =~= before.signals + before.cutoff_signals(node as nat, 0));
        while slot < self.nodes.len()
            invariant
                before.wf(),
                before == old(self)@,
                nodes == old(self).nodes@,
                node < before.nodes.len(),
                before.nodes =~= Seq::new(nodes.len(), |n: int| nodes[n]@),
                members@.len() == nodes.len(),
                forall|n: int|
                    0 <= n < members@.len() ==> #[trigger] members@[n] == before.descends(
                        n as nat,
                        node as nat,
                    ),
                slot <= nodes.len(),
                self.nodes@.len() == nodes.len(),
                self.table == old(self).table,
                forall|n: int|
                    slot <= n < nodes.len() ==> #[trigger] self.nodes@[n] == nodes[n],
                forall|n: int|
                    0 <= n < slot ==> (#[trigger] self.nodes@[n])@ == (NodeView {
                        revoked: nodes[n]@.revoked || members@[n],
                        ..nodes[n]@
                    }) && self.nodes@[n].reservations == nodes[n].reservations,
                self.signals@ == before.signals + before.cutoff_signals(node as nat, slot as nat),
            decreases nodes.len() - slot,
        {
            if members[slot] {
                if !self.nodes[slot].revoked {
                    self.nodes[slot].revoked = true;
                    self.signals.push(Signal::Revoked(slot));
                }
                self.signals.push(Signal::Changed(slot));
                self.signal_listeners(slot);
                proof {
                    assert(members@[slot as int] == before.descends(slot as nat, node as nat));
                    assert(self.signals@ =~= before.signals + before.cutoff_signals(
                        node as nat,
                        (slot + 1) as nat,
                    ));
                }
            }
            slot += 1;
        }
        self.nodes[node].revoking = true;
        proof {
            let after = before.cut_off(node as nat);
            assert forall|n: int| 0 <= n < after.nodes.len() implies self@.nodes[n]
                == after.nodes[n] by {
                assert(members@[n] == before.descends(n as nat, node as nat));
            }
            assert(self@.nodes =~= after.nodes);
            assert(self@ =~= after);
            lemma_cut_off_wf(before, node as nat);
            lemma_backed_same(nodes, self.nodes@, self.table@);
        }
        Ok(Revocation::Pending)
    }

    /// Signals every listener of a grant.
    fn signal_listeners(&mut self, node: usize)
        requires
            node < old(self).nodes@.len(),
        ensures
            final(self).nodes == old(self).nodes,
            final(self).table == old(self).table,
            final(self).signals@ == old(self).signals@ + all_listening(
                old(self).nodes@[node as int].listeners@,
            ),
    {
        let ghost listeners = self.nodes@[node as int].listeners@;
        let ghost start = self.signals@;
        let mut index: usize = 0;
        assert(self.signals@ =~= start + all_listening(listeners).take(0));
        while index < self.nodes[node].listeners.len()
            invariant
                self.nodes == old(self).nodes,
                self.table == old(self).table,
                node < self.nodes@.len(),
                listeners == self.nodes@[node as int].listeners@,
                index <= listeners.len(),
                self.signals@ == start + all_listening(listeners).take(index as int),
            decreases listeners.len() - index,
        {
            let listener = self.nodes[node].listeners[index].1;
            self.signals.push(Signal::Listener(listener));
            assert(self.signals@ =~= start + all_listening(listeners).take(index + 1));
            index += 1;
        }
        assert(all_listening(listeners).take(index as int) =~= all_listening(listeners));
    }

    /// Completes a cutoff if no operation is under way in the subtree any more.
    pub fn settle_revocation(&mut self, grant: &Grant) -> (settled: bool)
        requires
            old(self).wf(),
            old(self).knows(grant),
            old(self)@.nodes[grant.node() as int].revoked,
        ensures
            final(self).wf(),
            settled == old(self)@.quiet(grant.node()),
            settled ==> final(self)@ == old(self)@.cutoff_complete(grant.node()),
            !settled ==> *final(self) == *old(self),
    {
        let node = grant.node;
        let ghost before = self@;
        let ghost nodes = self.nodes@;
        let members = self.subtree(node);
        let mut slot: usize = 0;
        while slot < self.nodes.len()
            invariant
                *self == *old(self),
                before == self@,
                nodes == self.nodes@,
                node == grant.node(),
                before.nodes =~= Seq::new(nodes.len(), |n: int| nodes[n]@),
                members@.len() == nodes.len(),
                forall|n: int|
                    0 <= n < members@.len() ==> #[trigger] members@[n] == before.descends(
                        n as nat,
                        node as nat,
                    ),
                self.wf(),
                slot <= nodes.len(),
                forall|n: nat|
                    n < slot && #[trigger] before.descends(n, node as nat)
                        ==> before.nodes[n as int].active == 0,
            decreases nodes.len() - slot,
        {
            if members[slot] && self.nodes[slot].active != 0 {
                assert(members@[slot as int] == before.descends(slot as nat, node as nat));
                assert(before.nodes[slot as int].active != 0);
                return false;
            }
            slot += 1;
        }
        slot = 0;
        while slot < self.nodes.len()
            invariant
                before == old(self)@,
                nodes == old(self).nodes@,
                before.nodes =~= Seq::new(nodes.len(), |n: int| nodes[n]@),
                members@.len() == nodes.len(),
                forall|n: int|
                    0 <= n < members@.len() ==> #[trigger] members@[n] == before.descends(
                        n as nat,
                        node as nat,
                    ),
                slot <= nodes.len(),
                self.nodes@.len() == nodes.len(),
                self.table == old(self).table,
                self.signals == old(self).signals,
                forall|n: int|
                    slot <= n < nodes.len() ==> #[trigger] self.nodes@[n] == nodes[n],
                forall|n: int|
                    0 <= n < slot ==> (#[trigger] self.nodes@[n])@ == (NodeView {
                        complete: nodes[n]@.complete || members@[n],
                        ..nodes[n]@
                    }) && self.nodes@[n].reservations == nodes[n].reservations,
            decreases nodes.len() - slot,
        {
            if members[slot] {
                self.nodes[slot].complete = true;
            }
            slot += 1;
        }
        proof {
            let after = before.cutoff_complete(node as nat);
            assert forall|n: int| 0 <= n < after.nodes.len() implies self@.nodes[n]
                == after.nodes[n] by {
                assert(members@[n] == before.descends(n as nat, node as nat));
            }
            assert(self@.nodes =~= after.nodes);
            assert(self@ =~= after);
            lemma_cutoff_complete_wf(before, node as nat);
            lemma_backed_same(nodes, self.nodes@, self.table@);
        }
        true
    }

    /// Gives up the control waiter. The cutoff itself stays in effect.
    pub fn end_revocation(&mut self, grant: &Grant)
        requires
            old(self).wf(),
            old(self).knows(grant),
        ensures
            final(self).wf(),
            final(self)@ == old(self)@.with_node(
                grant.node(),
                NodeView { revoking: false, ..old(self)@.nodes[grant.node() as int] },
            ),
    {
        let node = grant.node;
        self.nodes[node].revoking = false;
        proof {
            let before = old(self)@;
            let after = before.with_node(
                grant.node(),
                NodeView { revoking: false, ..before.nodes[node as int] },
            );
            assert(self@.nodes =~= after.nodes);
            lemma_node_change(before, after);
            assert forall|n: nat| n < after.nodes.len() implies !#[trigger] after.must_reap(n) by {
                assert(!before.must_reap(n));
            }
            lemma_backed_same(old(self).nodes@, self.nodes@, self.table@);
        }
    }

    /// Adds a wakeup to those that are owed.
    pub(crate) fn signal(&mut self, signal: Signal)
        requires
            old(self).wf(),
        ensures
            final(self).wf(),
            final(self)@ == (LedgerView {
                signals: old(self)@.signals.push(signal),
                ..old(self)@
            }),
    {
        self.signals.push(signal);
        proof {
            assert(self@.nodes =~= old(self)@.nodes);
            lemma_signals_wf(old(self)@, self@);
        }
    }

    /// Gives a charge to another owner.
    pub(crate) fn assign(&mut self, lease: &Lease, from: Ghost<Owner>, to: Ghost<Owner>)
        requires
            old(self).wf(),
            old(self).holds(lease, from@),
            !(from@ is Child),
        ensures
            final(self).wf(),
            final(self)@ == old(self)@.assign(lease.ticket(), to@),
            final(self).holds(lease, to@),
    {
        let ghost ticket = lease.ticket();
        let ghost before = self@;
        self.table = Ghost(self.table@.update(ticket as int, Some(lease.record(to@))));
        proof {
            assert(before.outstanding(ticket));
            lemma_assign_wf(before, ticket, to@);
            assert(self@.nodes =~= before.nodes);
            assert(self@ =~= before.assign(ticket, to@));
            lemma_unreserved(before, ticket);
            assert(backed(self.nodes@, self.table@)) by {
                assert forall|n: int, i: int|
                    0 <= n < self.nodes@.len() && 0 <= i
                        < self.nodes@[n].reservations@.len() implies (
                #[trigger] self.nodes@[n].reservations@[i]).recorded(
                    self.table@,
                    Owner::Child(n as nat),
                ) by {
                    let held = self.nodes@[n].reservations@[i];
                    assert(held.recorded(before.table, Owner::Child(n as nat)));
                    assert(!before.nodes[n].reservations.contains(ticket));
                    assert(before.nodes[n].reservations[i] == held.ticket());
                }
            }
        }
    }

    /// Tests whether a charge is one of the grant.
    pub(crate) fn belongs_to(&self, lease: &Lease, grant: &Grant) -> (result: bool)
        ensures
            result == (lease.node() == grant.node()),
    {
        lease.node == grant.node
    }

    /// The same handle once more, for the time of one operation.
    pub(crate) fn alias(&self, grant: &Grant) -> (same: Grant)
        ensures
            same.node() == grant.node(),
    {
        Grant { node: grant.node }
    }

    /// The slot of a grant.
    pub(crate) fn slot(&self, grant: &Grant) -> (node: usize)
        ensures
            node == grant.node(),
    {
        grant.node
    }

    /// Whether a grant has been revoked, by its slot.
    pub(crate) fn is_revoked_at(&self, node: usize) -> (revoked: bool)
        requires
            node < self@.nodes.len(),
        ensures
            revoked == self@.nodes[node as int].revoked,
    {
        self.nodes[node].revoked
    }

    /// Removes every registration of a listener that is gone.
    pub fn retire_listener(&mut self, listener: u64)
        requires
            old(self).wf(),
        ensures
            final(self).wf(),
            final(self)@ == old(self)@.retire(listener),
    {
        let ghost before = self@;
        let ghost nodes = self.nodes@;
        let mut slot: usize = 0;
        while slot < self.nodes.len()
            invariant
                before.wf(),
                nodes == old(self).nodes@,
                before == old(self)@,
                before.nodes =~= Seq::new(nodes.len(), |n: int| nodes[n]@),
                self.nodes@.len() == nodes.len(),
                self.table == old(self).table,
                self.signals == old(self).signals,
                slot <= nodes.len(),
                forall|n: int|
                    slot <= n < nodes.len() ==> #[trigger] self.nodes@[n] == nodes[n],
                forall|n: int|
                    0 <= n < slot ==> (#[trigger] self.nodes@[n])@ == (NodeView {
                        listeners: without(nodes[n]@.listeners, listener),
                        ..nodes[n]@
                    }) && self.nodes@[n].reservations == nodes[n].reservations,
            decreases nodes.len() - slot,
        {
            let remaining = remaining_listeners(&self.nodes[slot].listeners, listener);
            self.nodes[slot].listeners = remaining;
            slot += 1;
        }
        proof {
            let after = before.retire(listener);
            assert(self@.nodes =~= after.nodes);
            assert(self@ =~= after);
            lemma_node_change(before, after);
            assert forall|n: nat| n < after.nodes.len() implies !#[trigger] after.must_reap(n) by {
                assert(!before.must_reap(n));
                assert(before.reservation_sound(n));
            }
            lemma_backed_same(nodes, self.nodes@, self.table@);
        }
    }

    /// Signals a change of a grant.
    pub fn maintain_operations(&mut self, grant: &Grant)
        requires
            old(self).wf(),
            old(self).knows(grant),
        ensures
            final(self).wf(),
            final(self)@ == (LedgerView {
                signals: old(self)@.signals.push(Signal::Changed(grant.node() as usize)),
                ..old(self)@
            }),
    {
        self.signal(Signal::Changed(grant.node));
    }

    /// Signals a change of every grant in the subtree.
    pub fn maintain_tree(&mut self, grant: &Grant)
        requires
            old(self).wf(),
            old(self).knows(grant),
        ensures
            final(self).wf(),
            final(self)@ == (LedgerView {
                signals: old(self)@.signals + old(self)@.tree_signals(
                    grant.node(),
                    old(self)@.nodes.len(),
                ),
                ..old(self)@
            }),
    {
        let node = grant.node;
        let ghost before = self@;
        let members = self.subtree(node);
        let mut slot: usize = 0;
        assert(self.signals@ =~= before.signals + before.tree_signals(node as nat, 0));
        while slot < self.nodes.len()
            invariant
                before == old(self)@,
                members@.len() == before.nodes.len(),
                self.nodes == old(self).nodes,
                self.table == old(self).table,
                before.nodes.len() == self.nodes@.len(),
                forall|n: int|
                    0 <= n < members@.len() ==> #[trigger] members@[n] == before.descends(
                        n as nat,
                        node as nat,
                    ),
                slot <= before.nodes.len(),
                self.signals@ == before.signals + before.tree_signals(node as nat, slot as nat),
            decreases before.nodes.len() - slot,
        {
            if members[slot] {
                self.signals.push(Signal::Changed(slot));
            }
            proof {
                assert(members@[slot as int] == before.descends(slot as nat, node as nat));
                assert(self.signals@ =~= before.signals + before.tree_signals(
                    node as nat,
                    (slot + 1) as nat,
                ));
            }
            slot += 1;
        }
        proof {
            assert(self@.nodes =~= before.nodes);
            lemma_signals_wf(before, self@);
        }
    }

    /// Takes the wakeups that are owed, oldest first.
    pub fn take_signals(&mut self) -> (signals: Vec<Signal>)
        requires
            old(self).wf(),
        ensures
            final(self).wf(),
            signals@ == old(self)@.signals,
            final(self)@ == (LedgerView { signals: Seq::empty(), ..old(self)@ }),
    {
        let mut signals: Vec<Signal> = Vec::new();
        std::mem::swap(&mut signals, &mut self.signals);
        proof {
            assert(self@.nodes =~= old(self)@.nodes);
            assert(self.signals@ =~= Seq::<Signal>::empty());
            lemma_signals_wf(old(self)@, self@);
        }
        signals
    }

    /// Returns one charge to its pool, without looking at what that leaves.
    fn put_back(&mut self, lease: Lease)
        requires
            old(self)@.sound(),
            exists|owner: Owner| lease.recorded(old(self)@.table, owner),
        ensures
            final(self)@ == old(self)@.release(lease.ticket()),
            final(self).nodes@.len() == old(self).nodes@.len(),
            forall|n: int|
                0 <= n < old(self).nodes@.len() ==> (#[trigger] final(self).nodes@[n]).reservations
                    == old(self).nodes@[n].reservations,
    {
        let ghost before = self@;
        let ghost ticket = lease.ticket();
        proof {
            assert(before.outstanding(ticket));
            lemma_outstanding(before, ticket);
            assert(before.node_sound(before.record(ticket).node));
        }
        let node = lease.node;
        let notify = lease.usage != Limits::zero();
        match lease.event {
            None => {
                self.nodes[node].pool.release(lease.usage);
            },
            Some(index) => {
                self.nodes[node].allowances[index].pool.release(lease.usage);
            },
        }
        self.nodes[node].leases = self.nodes[node].leases - 1;
        self.table = Ghost(self.table@.update(ticket as int, None));
        assert(self@.nodes =~= before.release(ticket).nodes);
        if notify {
            self.notify_release(node, lease.event);
        }
        assert(self@ =~= before.release(ticket));
    }

    /// Signals that capacity returned to a pool.
    fn notify_release(&mut self, node: usize, event: Option<usize>)
        requires
            node < old(self).nodes@.len(),
            event is Some ==> event->0 < old(self).nodes@[node as int].allowances@.len(),
        ensures
            final(self).nodes == old(self).nodes,
            final(self).table == old(self).table,
            final(self).signals@ == old(self).signals@ + seq![Signal::Changed(node)]
                + match event {
                None => Seq::empty(),
                Some(index) => listening(
                    old(self).nodes@[node as int].listeners@,
                    old(self).nodes@[node as int].allowances@[index as int].permission.event,
                ),
            },
    {
        self.signals.push(Signal::Changed(node));
        match event {
            None => {
                assert(self.signals@ =~= old(self).signals@ + seq![Signal::Changed(node)]
                    + Seq::empty());
            },
            Some(index) => {
                let id = self.nodes[node].allowances[index].permission.event;
                let ghost start = self.signals@;
                let ghost listeners = self.nodes@[node as int].listeners@;
                let mut position: usize = 0;
                assert(listeners.take(0) =~= Seq::empty());
                assert(start + listening(listeners.take(0), id) =~= start);
                while position < self.nodes[node].listeners.len()
                    invariant
                        self.nodes == old(self).nodes,
                        self.table == old(self).table,
                        node < self.nodes@.len(),
                        listeners == self.nodes@[node as int].listeners@,
                        position <= listeners.len(),
                        self.signals@ == start + listening(listeners.take(position as int), id),
                    decreases listeners.len() - position,
                {
                    let (event, listener) = self.nodes[node].listeners[position];
                    proof {
                        let upto = listeners.take(position + 1);
                        assert(upto.drop_last() =~= listeners.take(position as int));
                    }
                    if event == id {
                        self.signals.push(Signal::Listener(listener));
                        assert(self.signals@ =~= start + listening(
                            listeners.take(position as int),
                            id,
                        ).push(Signal::Listener(listener)));
                    }
                    position += 1;
                }
                assert(listeners.take(position as int) =~= listeners);
                assert(self.signals@ =~= old(self).signals@ + seq![Signal::Changed(node)]
                    + listening(listeners, id));
            },
        }
    }

    /// Returns the reservation of a grant that nothing refers to any more, and in
    /// turn that of each ancestor which this was the last to hold.
    fn reap(&mut self, node: usize)
        requires
            old(self)@.sound(),
            backed(old(self).nodes@, old(self).table@),
            node < old(self)@.nodes.len(),
            forall|m: nat|
                m < old(self)@.nodes.len() && m != node ==> !#[trigger] old(self)@.must_reap(m),
        ensures
            final(self)@ == old(self)@.reap(node as nat),
            final(self).wf(),
    {
        let ghost target = self@.reap(node as nat);
        let mut current: usize = node;
        loop
            invariant
                target == old(self)@.reap(node as nat),
                self@.sound(),
                backed(self.nodes@, self.table@),
                current < self@.nodes.len(),
                forall|m: nat|
                    m < self@.nodes.len() && m != current ==> !#[trigger] self@.must_reap(m),
                self@.reap(current as nat) == target,
            decreases self@.nodes[current as int].depth,
        {
            let ghost here = self@;
            let ghost at = here.nodes[current as int];
            proof {
                assert(here.reservation_sound(current as nat));
            }
            let dead = self.nodes[current].handles == 0 && self.nodes[current].leases == 0
                && self.nodes[current].active == 0;
            if !dead {
                assert(!here.must_reap(current as nat));
                return ;
            }
            let parent = match self.nodes[current].parent {
                None => {
                    assert(!here.must_reap(current as nat));
                    return ;
                },
                Some(parent) => parent,
            };
            let ghost old_nodes = self.nodes@;
            let mut pending: Vec<Lease> = Vec::new();
            self.nodes[current].parent = None;
            std::mem::swap(&mut pending, &mut self.nodes[current].reservations);
            let ghost alone = here.orphan(current as nat);
            proof {
                assert(self@ =~= alone) by {
                    assert(self@.nodes[current as int].reservations =~= Seq::empty());
                    assert(self@.nodes =~= alone.nodes);
                }
                assert(tickets(pending@) =~= at.reservations);
                lemma_orphan_sound(here, current as nat);
                assert forall|i: int| 0 <= i < pending@.len() implies {
                    &&& (#[trigger] pending@[i]).recorded(
                        self@.table,
                        Owner::Child(current as nat),
                    )
                    &&& unreserved(self@, pending@[i].ticket())
                    &&& pending@[i].record(Owner::Child(current as nat)).node == parent
                } by {
                    assert(old_nodes[current as int].reservations@[i].recorded(
                        here.table,
                        Owner::Child(current as nat),
                    ));
                    assert(at.reservations[i] == pending@[i].ticket());
                }
                assert(backed(self.nodes@, self.table@)) by {
                    assert forall|n: int, i: int|
                        0 <= n < self.nodes@.len() && 0 <= i
                            < self.nodes@[n].reservations@.len() implies (#[trigger] self.nodes@[n].reservations@[i]).recorded(self.table@, Owner::Child(n as nat)) by {
                        assert(old_nodes[n].reservations@[i].recorded(
                            here.table,
                            Owner::Child(n as nat),
                        ));
                    }
                }
                assert forall|m: nat|
                    m < self@.nodes.len() && m != parent implies !#[trigger] self@.must_reap(m) by {
                    assert(alone.must_reap(m) == (m != current && here.must_reap(m)));
                }
            }
            self.put_back_all(pending, Ghost(current as nat), parent);
            proof {
                assert(self@.reap(parent as nat) == target);
                crate::ledger_model::lemma_release_all_keeps(alone, at.reservations);
                assert(self@.nodes[parent as int].depth == alone.nodes[parent as int].depth);
            }
            current = parent;
        }
    }

    /// Returns the whole reservation that the grant `child` had at `parent`.
    fn put_back_all(&mut self, leases: Vec<Lease>, child: Ghost<nat>, parent: usize)
        requires
            old(self)@.sound(),
            backed(old(self).nodes@, old(self).table@),
            parent < old(self)@.nodes.len(),
            tickets(leases@).no_duplicates(),
            forall|i: int|
                0 <= i < leases@.len() ==> {
                    &&& (#[trigger] leases@[i]).recorded(old(self)@.table, Owner::Child(child@))
                    &&& unreserved(old(self)@, leases@[i].ticket())
                    &&& leases@[i].record(Owner::Child(child@)).node == parent
                },
            forall|m: nat|
                m < old(self)@.nodes.len() && m != parent ==> !#[trigger] old(self)@.must_reap(m),
        ensures
            final(self)@ == old(self)@.release_all(tickets(leases@)),
            final(self)@.sound(),
            backed(final(self).nodes@, final(self).table@),
            forall|m: nat|
                m < final(self)@.nodes.len() && m != parent ==> !#[trigger] final(self)@.must_reap(
                    m,
                ),
    {
        let mut pending = leases;
        let ghost goal = self@.release_all(tickets(leases@));
        let ghost count = self@.nodes.len();
        while pending.len() > 0
            invariant
                self@.sound(),
                backed(self.nodes@, self.table@),
                parent < self@.nodes.len(),
                self@.nodes.len() == count,
                tickets(pending@).no_duplicates(),
                forall|i: int|
                    0 <= i < pending@.len() ==> {
                        &&& (#[trigger] pending@[i]).recorded(self@.table, Owner::Child(child@))
                        &&& unreserved(self@, pending@[i].ticket())
                        &&& pending@[i].record(Owner::Child(child@)).node == parent
                    },
                forall|m: nat|
                    m < self@.nodes.len() && m != parent ==> !#[trigger] self@.must_reap(m),
                self@.release_all(tickets(pending@)) == goal,
            decreases pending@.len(),
        {
            let ghost here = self@;
            let ghost nodes = self.nodes@;
            let ghost all = tickets(pending@);
            let lease = pending.pop().unwrap();
            let ghost ticket = lease.ticket();
            proof {
                assert(all.last() == ticket);
                assert(all.drop_last() =~= tickets(pending@));
                assert(all[pending@.len() as int] == ticket);
                assert(here.outstanding(ticket));
                lemma_release_sound(here, ticket);
                assert forall|i: int| 0 <= i < pending@.len() implies pending@[i].ticket()
                    != ticket by {
                    assert(all[i] == pending@[i].ticket());
                }
            }
            self.put_back(lease);
            proof {
                assert(self@ == here.release(ticket));
                lemma_backed_kept(nodes, here, self.nodes@, ticket);
                assert(tickets(pending@).no_duplicates()) by {
                    assert forall|i: int, j: int|
                        0 <= i < pending@.len() && 0 <= j < pending@.len() && i != j implies tickets(
                        pending@,
                    )[i] != tickets(pending@)[j] by {
                        assert(all[i] != all[j]);
                    }
                }
                assert forall|i: int| 0 <= i < pending@.len() implies {
                    &&& (#[trigger] pending@[i]).recorded(self@.table, Owner::Child(child@))
                    &&& unreserved(self@, pending@[i].ticket())
                    &&& pending@[i].record(Owner::Child(child@)).node == parent
                } by {
                    let other = pending@[i].ticket();
                    assert(unreserved(here, other));
                    assert forall|n: int| 0 <= n < self@.nodes.len() implies !#[trigger] self@.nodes[n].reservations.contains(
                    other) by {
                        assert(self@.nodes[n].reservations == here.nodes[n].reservations);
                    }
                }
                assert forall|m: nat|
                    m < self@.nodes.len() && m != parent implies !#[trigger] self@.must_reap(m) by {
                    assert(here.release(ticket).must_reap(m) == here.must_reap(m));
                }
            }
        }
        proof {
            assert(tickets(pending@) =~= Seq::<nat>::empty());
        }
    }
}

/// Releasing a lease that is no part of a reservation leaves every reservation backed.
proof fn lemma_backed_kept(
    before: Seq<GrantNode>,
    v: LedgerView,
    after: Seq<GrantNode>,
    ticket: nat,
)
    requires
        backed(before, v.table),
        v.nodes =~= Seq::new(before.len(), |n: int| before[n]@),
        v.sound(),
        v.outstanding(ticket),
        unreserved(v, ticket),
        after.len() == before.len(),
        forall|n: int|
            0 <= n < before.len() ==> (#[trigger] after[n]).reservations == before[n].reservations,
    ensures
        backed(after, v.release(ticket).table),
{
    lemma_outstanding(v, ticket);
    assert forall|n: int, i: int|
        0 <= n < after.len() && 0 <= i
            < after[n].reservations@.len() implies (#[trigger] after[n].reservations@[i]).recorded(v.release(ticket).table, Owner::Child(n as nat)) by {
        assert(before[n].reservations@[i].recorded(v.table, Owner::Child(n as nat)));
        assert(!v.nodes[n].reservations.contains(ticket));
        assert(v.nodes[n].reservations[i] == before[n].reservations@[i].ticket());
    }
}

/// A position among allowances, as the model counts.
pub open spec fn widen(event: Option<usize>) -> Option<nat> {
    match event {
        Some(index) => Some(index as nat),
        None => None,
    }
}

/// An ordered grant has one position per event.
pub proof fn lemma_position(at: NodeView, event: EventId, index: nat)
    requires
        ordered(at.allowances),
        index < at.allowances.len(),
        at.allowances[index as int].permission.event == event,
    ensures
        at.position(event) == Some(index),
{
    assert(covers(at.allowances, event));
    let chosen = at.position(event)->0;
    assert(at.allowances[index as int].permission.event == event);
    lemma_search_unique(at.allowances, chosen as int, index as int);
}

proof fn lemma_root_wf(limits: Limits)
    ensures
        LedgerView::root(limits).wf(),
{
    let v = LedgerView::root(limits);
    assert forall|n: nat, e: Option<nat>| #[trigger] v.has_pool(n, e) implies v.pool_sound(n, e) by {
        assert(e is None);
        assert forall|k: int| 0 <= k < RESOURCES implies #[trigger] v.pool(n, e).used.get(k)
            == tally(v.table, on_pool(n, e, k)) by {}
    }
    assert forall|n: nat| n < v.nodes.len() implies #[trigger] v.node_sound(n) by {
        assert(tally(v.table, on_node(n)) == 0);
    }
}

/// What survives from `middle`, which has the table of `before`, survives from it.
proof fn lemma_kept_leases_from(before: LedgerView, middle: LedgerView, after: LedgerView)
    requires
        middle.table == before.table,
        kept_leases(middle, after),
    ensures
        kept_leases(before, after),
{
    assert forall|t: nat|
        #![trigger before.outstanding(t)]
        #![trigger after.outstanding(t)]
        before.outstanding(t) && !(before.record(t).owner is Child) implies after.outstanding(t)
        && after.record(t) == before.record(t) by {
        assert(middle.outstanding(t));
    }
}

/// The first permission that a grant does not hold decides for every longer list.
proof fn lemma_permissions_error_prefix(at: NodeView, permissions: Seq<Permission>, n: int)
    requires
        0 <= n <= permissions.len(),
        at.permissions_error(permissions.take(n)) is Some,
    ensures
        at.permissions_error(permissions) == at.permissions_error(permissions.take(n)),
    decreases permissions.len(),
{
    if n == permissions.len() {
        assert(permissions.take(n) =~= permissions);
    } else {
        assert(permissions.drop_last().take(n) =~= permissions.take(n));
        lemma_permissions_error_prefix(at, permissions.drop_last(), n);
    }
}

/// Two allowances that leave the same of each resource are the same.
proof fn lemma_same_limits(a: Limits, b: Limits, limits: Limits, permissions: Seq<Permission>)
    requires
        forall|k: int|
            0 <= k < RESOURCES ==> #[trigger] a.get(k) == limits.get(k) - reserved(permissions, k),
        forall|k: int|
            0 <= k < RESOURCES ==> #[trigger] limits.get(k) == b.get(k) + reserved(permissions, k),
    ensures
        a == b,
{
    assert forall|k: int| 0 <= k < RESOURCES implies #[trigger] a.get(k) == b.get(k) by {
        assert(limits.get(k) == b.get(k) + reserved(permissions, k));
    }
    assert(a.get(0) == b.get(0));
    assert(a.get(1) == b.get(1));
    assert(a.get(2) == b.get(2));
    assert(a.get(3) == b.get(3));
    assert(a.get(4) == b.get(4));
    assert(a.get(5) == b.get(5));
    assert(a.get(6) == b.get(6));
}

/// The registrations of all listeners but one.
fn remaining_listeners(listeners: &Vec<(EventId, u64)>, listener: u64) -> (remaining: Vec<
    (EventId, u64),
>)
    ensures
        remaining@ == without(listeners@, listener),
{
    let mut remaining: Vec<(EventId, u64)> = Vec::new();
    let mut index: usize = 0;
    assert(listeners@.take(0) =~= Seq::empty());
    while index < listeners.len()
        invariant
            index <= listeners@.len(),
            remaining@ == without(listeners@.take(index as int), listener),
        decreases listeners@.len() - index,
    {
        proof {
            assert(listeners@.take(index + 1).drop_last() =~= listeners@.take(index as int));
        }
        let entry = listeners[index];
        if entry.1 != listener {
            remaining.push(entry);
        }
        index += 1;
    }
    assert(listeners@.take(index as int) =~= listeners@);
    remaining
}

/// A copy of `allowances`.
fn copied(allowances: &Vec<EventAllowance>) -> (copy: Vec<EventAllowance>)
    ensures
        copy@ == allowances@,
{
    let mut copy: Vec<EventAllowance> = Vec::new();
    let mut index: usize = 0;
    while index < allowances.len()
        invariant
            index <= allowances@.len(),
            copy@ == allowances@.take(index as int),
        decreases allowances@.len() - index,
    {
        copy.push(allowances[index]);
        assert(copy@ =~= allowances@.take(index + 1));
        index += 1;
    }
    assert(allowances@.take(index as int) =~= allowances@);
    copy
}

/// Reservations stay backed while neither they nor the table change.
proof fn lemma_backed_same(
    before: Seq<GrantNode>,
    after: Seq<GrantNode>,
    table: Seq<Option<LeaseRecord>>,
)
    requires
        backed(before, table),
        after.len() == before.len(),
        forall|n: int|
            0 <= n < before.len() ==> (#[trigger] after[n]).reservations == before[n].reservations,
    ensures
        backed(after, table),
{
    assert forall|n: int, i: int|
        0 <= n < after.len() && 0 <= i < after[n].reservations@.len() implies (
    #[trigger] after[n].reservations@[i]).recorded(table, Owner::Child(n as nat)) by {
        assert(before[n].reservations@[i].recorded(table, Owner::Child(n as nat)));
    }
}

/// A refused charge of a single resource takes no part of it.
proof fn lemma_refuse_single(v: LedgerView, node: nat, index: nat, usage: StreamLimits)
    requires
        v.wf(),
        v.has_pool(node, Some(index)),
        usage.single(),
    ensures
        v.refuse(node, Some(index), usage.widened()) == v,
{
    let pool = v.pool(node, Some(index));
    let wide = usage.widened();
    assert(v.pool_sound(node, Some(index)));
    if pool.tentative(wide) {
        let j = choose|j: int|
            0 <= j < RESOURCES && #[trigger] wide.get(j) > 0 && forall|k: int|
                0 <= k <= j ==> #[trigger] pool.room(wide, k);
        assert(pool.room(wide, j));
        assert forall|k: int| 0 <= k < RESOURCES implies #[trigger] pool.used.get(k) + wide.get(k)
            <= pool.limits.get(k) by {
            if k != j {
                assert(wide.get(k) == 0);
                assert(pool.used.get(k) <= pool.limits.get(k));
            }
        }
        assert(pool.admits(wide));
    }
    assert(v.refuse(node, Some(index), wide).signals =~= v.signals);
}

/// Wakeups are no part of the accounts.
pub proof fn lemma_signals_wf(before: LedgerView, after: LedgerView)
    requires
        before.wf(),
        after.nodes == before.nodes,
        after.table == before.table,
    ensures
        after.wf(),
{
    lemma_node_change(before, after);
    assert forall|n: nat| n < after.nodes.len() implies !#[trigger] after.must_reap(n) by {
        assert(!before.must_reap(n));
    }
}

/// No grant has more in use than its allowance.
pub proof fn lemma_used_within(v: LedgerView, node: nat, k: int)
    requires
        v.wf(),
        node < v.nodes.len(),
        0 <= k < RESOURCES,
    ensures
        v.nodes[node as int].used(k) <= v.nodes[node as int].limits.get(k),
{
    let at = v.nodes[node as int];
    assert(v.node_sound(node));
    assert(v.has_pool(node, None));
    assert(v.pool_sound(node, None));
    assert(v.pool(node, None).used.get(k) <= v.pool(node, None).limits.get(k));
    assert forall|i: int| 0 <= i < at.allowances.len() implies (
    #[trigger] at.allowances[i]).pool.used.within(at.allowances[i].pool.limits) by {
        assert(v.has_pool(node, Some(i as nat)));
        assert(v.pool_sound(node, Some(i as nat)));
    }
    lemma_spent_within(at.allowances, k);
    assert(at.limits.get(k) == at.pool.limits.get(k) + allotted(at.allowances, k));
}

proof fn lemma_spent_prefix(allowances: Seq<EventAllowance>, n: int, k: int)
    requires
        0 <= n <= allowances.len(),
    ensures
        spent(allowances.take(n), k) <= spent(allowances, k),
    decreases allowances.len(),
{
    if n == allowances.len() {
        assert(allowances.take(n) =~= allowances);
    } else {
        assert(allowances.drop_last().take(n) =~= allowances.take(n));
        lemma_spent_prefix(allowances.drop_last(), n, k);
    }
}

} // verus!

//! Mathematical model of the grant ledger: who holds which allowance of whom.
use crate::allowance::{allotted, covers, is_merge, ordered, spent, EventAllowance, Pool};
use crate::error::TopicError;
use crate::event::EventId;
use crate::grant::{partition_error, reserved, Limits, Permission, Rights, StreamLimits, RESOURCES};
use crate::ledger::Revocation;
use vstd::prelude::*;

verus! {

/// Whom an outstanding lease belongs to.
pub enum Owner {
    /// The caller that charged it.
    Caller,
    /// The grant in this slot, as part of its reservation at its parent.
    Child(nat),
    /// The retained publication with this sequence in this stream.
    Entry(nat, nat),
    /// The receiver with this cursor identity in this stream.
    Receiver(nat, nat),
    /// A pending operation of this stream.
    Waiter(nat),
    /// The storage of this stream.
    Storage(nat),
    /// A transport link.
    Link,
}

/// One outstanding charge.
pub struct LeaseRecord {
    /// Slot of the charged grant.
    pub node: nat,
    /// Position of the charged event pool, or `None` for the generic pool.
    pub event: Option<nat>,
    /// What is charged.
    pub usage: Limits,
    /// Whom the lease belongs to.
    pub owner: Owner,
}

/// A wakeup that the ledger owes to its surroundings.
#[derive(Clone, Copy, Debug, PartialEq, Eq, Structural)]
pub enum Signal {
    /// Accounting or admission of the grant in this slot changed.
    Changed(usize),
    /// The grant in this slot was cut off.
    Revoked(usize),
    /// Capacity or authority that this registered listener waits for changed.
    Listener(u64),
}

/// One grant.
pub struct NodeView {
    pub limits: Limits,
    pub pool: Pool,
    /// The grant may use every event, without a reservation of its own.
    pub unrestricted: bool,
    pub allowances: Seq<EventAllowance>,
    pub parent: Option<nat>,
    /// Tickets of what is reserved at the parent.
    pub reservations: Seq<nat>,
    /// Admissions that have entered and not left.
    pub active: nat,
    pub revoked: bool,
    /// A revocation owns the control waiter.
    pub revoking: bool,
    /// A revocation has completed.
    pub complete: bool,
    pub handles: nat,
    pub leases: nat,
    pub listeners: Seq<(EventId, u64)>,
    pub depth: nat,
}

/// All grants of one scope.
#[verifier::ext_equal]
pub struct LedgerView {
    pub nodes: Seq<NodeView>,
    /// Every lease ever charged, by ticket; `None` once released.
    pub table: Seq<Option<LeaseRecord>>,
    /// Wakeups not yet dispatched.
    pub signals: Seq<Signal>,
}

/// Sum of `weigh` over the outstanding leases.
pub open spec fn tally(
    table: Seq<Option<LeaseRecord>>,
    weigh: spec_fn(LeaseRecord) -> nat,
) -> nat
    decreases table.len(),
{
    if table.len() == 0 {
        0
    } else {
        tally(table.drop_last(), weigh) + match table.last() {
            Some(record) => weigh(record),
            None => 0,
        }
    }
}

/// What a lease takes of resource `k` from one pool.
pub open spec fn on_pool(node: nat, event: Option<nat>, k: int) -> spec_fn(LeaseRecord) -> nat {
    |record: LeaseRecord|
        if record.node == node && record.event == event {
            record.usage.get(k)
        } else {
            0
        }
}

/// Counts the leases of one grant.
pub open spec fn on_node(node: nat) -> spec_fn(LeaseRecord) -> nat {
    |record: LeaseRecord|
        if record.node == node {
            1nat
        } else {
            0nat
        }
}

/// Counts the leases of one owner.
pub open spec fn of_owner(owner: Owner) -> spec_fn(LeaseRecord) -> nat {
    |record: LeaseRecord|
        if record.owner == owner {
            1nat
        } else {
            0nat
        }
}

/// The weight of one table entry.
pub open spec fn weight(entry: Option<LeaseRecord>, weigh: spec_fn(LeaseRecord) -> nat) -> nat {
    match entry {
        Some(record) => weigh(record),
        None => 0,
    }
}

pub proof fn lemma_tally_push(
    table: Seq<Option<LeaseRecord>>,
    entry: Option<LeaseRecord>,
    weigh: spec_fn(LeaseRecord) -> nat,
)
    ensures
        tally(table.push(entry), weigh) == tally(table, weigh) + weight(entry, weigh),
{
    assert(table.push(entry).drop_last() =~= table);
}

pub proof fn lemma_tally_update(
    table: Seq<Option<LeaseRecord>>,
    ticket: int,
    entry: Option<LeaseRecord>,
    weigh: spec_fn(LeaseRecord) -> nat,
)
    requires
        0 <= ticket < table.len(),
    ensures
        tally(table.update(ticket, entry), weigh) + weight(table[ticket], weigh) == tally(
            table,
            weigh,
        ) + weight(entry, weigh),
    decreases table.len(),
{
    let after = table.update(ticket, entry);
    if ticket == table.len() - 1 {
        assert(after.drop_last() =~= table.drop_last());
    } else {
        lemma_tally_update(table.drop_last(), ticket, entry, weigh);
        assert(after.drop_last() =~= table.drop_last().update(ticket, entry));
    }
}

pub proof fn lemma_tally_member(
    table: Seq<Option<LeaseRecord>>,
    ticket: int,
    weigh: spec_fn(LeaseRecord) -> nat,
)
    requires
        0 <= ticket < table.len(),
    ensures
        weight(table[ticket], weigh) <= tally(table, weigh),
    decreases table.len(),
{
    if ticket < table.len() - 1 {
        lemma_tally_member(table.drop_last(), ticket, weigh);
    }
}

/// A tally is zero when every entry weighs nothing.
pub proof fn lemma_tally_zero(
    table: Seq<Option<LeaseRecord>>,
    weigh: spec_fn(LeaseRecord) -> nat,
)
    requires
        forall|t: int| 0 <= t < table.len() ==> weight(#[trigger] table[t], weigh) == 0,
    ensures
        tally(table, weigh) == 0,
    decreases table.len(),
{
    if table.len() > 0 {
        assert forall|t: int| 0 <= t < table.drop_last().len() implies weight(
            #[trigger] table.drop_last()[t],
            weigh,
        ) == 0 by {
            assert(table.drop_last()[t] == table[t]);
        }
        lemma_tally_zero(table.drop_last(), weigh);
        assert(weight(table[table.len() - 1], weigh) == 0);
    }
}

/// The allowances that `permissions` combine into.
pub open spec fn merged(permissions: Seq<Permission>) -> Seq<EventAllowance> {
    choose|allowances: Seq<EventAllowance>| is_merge(allowances, permissions)
}

/// What `limits` leave besides the event reservations of `permissions`.
pub open spec fn remainder(limits: Limits, permissions: Seq<Permission>) -> Limits {
    Limits {
        subscriptions: (limits.subscriptions - reserved(permissions, 2)) as usize,
        retained_items: (limits.retained_items - reserved(permissions, 3)) as usize,
        waiters: (limits.waiters - reserved(permissions, 4)) as usize,
        ..limits
    }
}

impl NodeView {
    /// Nothing refers to the grant any more.
    pub open spec fn dead(self) -> bool {
        self.handles == 0 && self.leases == 0 && self.active == 0
    }

    /// The grant lets `event` be used with `right`.
    pub open spec fn permits(self, event: EventId, right: Rights) -> bool {
        self.unrestricted || exists|i: int|
            0 <= i < self.allowances.len() && #[trigger] self.allowances[i].permission.event
                == event && self.allowances[i].permission.rights.allows(right)
    }

    /// Why `event` may not be used with `right`, if it may not.
    pub open spec fn check_error(self, event: EventId, right: Rights) -> Option<TopicError> {
        if self.revoked {
            Some(TopicError::Revoked)
        } else if self.permits(event, right) {
            None
        } else {
            Some(TopicError::Denied)
        }
    }

    /// Why the grant does not hold all of `permissions`, if it does not: the first
    /// that it does not hold decides.
    pub open spec fn permissions_error(self, permissions: Seq<Permission>) -> Option<TopicError>
        decreases permissions.len(),
    {
        if permissions.len() == 0 {
            None
        } else {
            match self.permissions_error(permissions.drop_last()) {
                Some(error) => Some(error),
                None => self.check_error(permissions.last().event, permissions.last().rights),
            }
        }
    }

    /// What a child takes from the generic pool: one grant, and all that its events
    /// do not take from their own pools.
    pub open spec fn reservation(self, permissions: Seq<Permission>, limits: Limits) -> Limits {
        let base = if self.unrestricted {
            limits
        } else {
            remainder(limits, permissions)
        };
        Limits { grants: (base.grants + 1) as usize, ..base }
    }

    /// What a child takes from event pools.
    pub open spec fn event_charges(self, permissions: Seq<Permission>) -> Seq<EventAllowance> {
        if self.unrestricted {
            Seq::empty()
        } else {
            merged(permissions)
        }
    }

    /// The pools have all that a child is to have, and the charges can be counted.
    pub open spec fn can_reserve(self, permissions: Seq<Permission>, limits: Limits) -> bool {
        let charges = self.event_charges(permissions);
        &&& self.pool.admits(self.reservation(permissions, limits))
        &&& forall|i: int|
            0 <= i < charges.len() ==> self.pool_at(
                self.position((#[trigger] charges[i]).permission.event),
            ).admits(charges[i].permission.limits.widened())
        &&& self.leases + 1 + charges.len() <= usize::MAX
    }

    /// What is in use of resource `k` over all pools.
    pub open spec fn used(self, k: int) -> nat {
        self.pool.used.get(k) + spent(self.allowances, k)
    }

    /// Position of the allowance for `event`.
    pub open spec fn position(self, event: EventId) -> Option<nat> {
        if covers(self.allowances, event) {
            Some(
                choose|i: nat|
                    i < self.allowances.len() && #[trigger] self.allowances[i as int].permission.event
                        == event,
            )
        } else {
            None
        }
    }

    /// The pool that is charged for `event`.
    pub open spec fn pool_at(self, event: Option<nat>) -> Pool {
        match event {
            None => self.pool,
            Some(index) => self.allowances[index as int].pool,
        }
    }

    pub open spec fn has_pool(self, event: Option<nat>) -> bool {
        match event {
            None => true,
            Some(index) => index < self.allowances.len(),
        }
    }

    pub open spec fn with_pool(self, event: Option<nat>, pool: Pool) -> NodeView {
        match event {
            None => NodeView { pool, ..self },
            Some(index) => NodeView {
                allowances: self.allowances.update(
                    index as int,
                    EventAllowance { pool, ..self.allowances[index as int] },
                ),
                ..self
            },
        }
    }
}

/// Signals for the listeners registered for `event`, in order of registration.
pub open spec fn listening(listeners: Seq<(EventId, u64)>, event: EventId) -> Seq<Signal>
    decreases listeners.len(),
{
    if listeners.len() == 0 {
        Seq::empty()
    } else {
        let earlier = listening(listeners.drop_last(), event);
        if listeners.last().0 == event {
            earlier.push(Signal::Listener(listeners.last().1))
        } else {
            earlier
        }
    }
}

/// The registrations of all listeners but one.
pub open spec fn without(listeners: Seq<(EventId, u64)>, listener: u64) -> Seq<(EventId, u64)>
    decreases listeners.len(),
{
    if listeners.len() == 0 {
        Seq::empty()
    } else {
        let earlier = without(listeners.drop_last(), listener);
        if listeners.last().1 == listener {
            earlier
        } else {
            earlier.push(listeners.last())
        }
    }
}

/// Signals for all listeners, in order of registration.
pub open spec fn all_listening(listeners: Seq<(EventId, u64)>) -> Seq<Signal> {
    Seq::new(listeners.len(), |i: int| Signal::Listener(listeners[i].1))
}

impl LedgerView {
    pub open spec fn has_pool(self, node: nat, event: Option<nat>) -> bool {
        node < self.nodes.len() && self.nodes[node as int].has_pool(event)
    }

    pub open spec fn pool(self, node: nat, event: Option<nat>) -> Pool {
        self.nodes[node as int].pool_at(event)
    }

    /// A ledger with one grant that may use every event.
    pub open spec fn root(limits: Limits) -> LedgerView {
        LedgerView {
            nodes: seq![NodeView {
                limits,
                pool: Pool { limits, used: Limits::none() },
                unrestricted: true,
                allowances: Seq::empty(),
                parent: None,
                reservations: Seq::empty(),
                active: 0,
                revoked: false,
                revoking: false,
                complete: false,
                handles: 1,
                leases: 0,
                listeners: Seq::empty(),
                depth: 0,
            }],
            table: Seq::empty(),
            signals: Seq::empty(),
        }
    }

    /// The ledger with `change` more handles to a grant.
    pub open spec fn with_handles(self, node: nat, change: int) -> LedgerView {
        let at = self.nodes[node as int];
        self.with_node(node, NodeView { handles: (at.handles + change) as nat, ..at })
    }

    /// The ledger with one grant replaced.
    pub open spec fn with_node(self, node: nat, to: NodeView) -> LedgerView {
        LedgerView { nodes: self.nodes.update(node as int, to), ..self }
    }

    /// What is signalled when `usage` returns to a pool: the grant, and for an event
    /// pool the listeners of that event.
    pub open spec fn release_signals(
        self,
        node: nat,
        event: Option<nat>,
        usage: Limits,
    ) -> Seq<Signal> {
        let at = self.nodes[node as int];
        if usage == Limits::none() {
            Seq::empty()
        } else {
            seq![Signal::Changed(node as usize)] + match event {
                None => Seq::empty(),
                Some(index) => listening(
                    at.listeners,
                    at.allowances[index as int].permission.event,
                ),
            }
        }
    }

    /// The ledger after charging `usage` to a pool.
    pub open spec fn charge(
        self,
        node: nat,
        event: Option<nat>,
        usage: Limits,
        owner: Owner,
    ) -> LedgerView {
        let at = self.nodes[node as int];
        let charged = at.with_pool(event, at.pool_at(event).charged(usage));
        LedgerView {
            nodes: self.nodes.update(
                node as int,
                NodeView { leases: at.leases + 1, ..charged },
            ),
            table: self.table.push(Some(LeaseRecord { node, event, usage, owner })),
            ..self
        }
    }

    /// Why `usage` may not be charged, if it may not. A grant can count at most
    /// `usize::MAX` outstanding charges.
    pub open spec fn charge_error(
        self,
        node: nat,
        event: Option<nat>,
        usage: Limits,
    ) -> Option<TopicError> {
        let at = self.nodes[node as int];
        if at.revoked {
            Some(TopicError::Revoked)
        } else if !at.pool_at(event).admits(usage) || at.leases == usize::MAX {
            Some(TopicError::Capacity)
        } else {
            None
        }
    }

    /// What is signalled when a charge is refused: if part of it was taken, that part
    /// returns.
    pub open spec fn refusal_signals(
        self,
        node: nat,
        event: Option<nat>,
        usage: Limits,
    ) -> Seq<Signal> {
        let at = self.nodes[node as int];
        if !at.revoked && at.pool_at(event).tentative(usage) {
            self.release_signals(node, event, usage)
        } else {
            Seq::empty()
        }
    }

    /// The ledger after a charge was refused.
    pub open spec fn refuse(self, node: nat, event: Option<nat>, usage: Limits) -> LedgerView {
        LedgerView { signals: self.signals + self.refusal_signals(node, event, usage), ..self }
    }

    /// The ledger after a charge to the pool of `event` was refused.
    pub open spec fn refuse_stream(
        self,
        node: nat,
        event: EventId,
        usage: StreamLimits,
    ) -> LedgerView {
        match self.nodes[node as int].position(event) {
            None => self,
            Some(index) => self.refuse(node, Some(index), usage.widened()),
        }
    }

    /// Why `usage` may not be charged to the pool of `event`, if it may not.
    pub open spec fn stream_charge_error(
        self,
        node: nat,
        event: EventId,
        usage: StreamLimits,
    ) -> Option<TopicError> {
        match self.nodes[node as int].position(event) {
            None => Some(TopicError::Denied),
            Some(index) => self.charge_error(node, Some(index), usage.widened()),
        }
    }

    /// The lease with this ticket is outstanding.
    pub open spec fn outstanding(self, ticket: nat) -> bool {
        ticket < self.table.len() && self.table[ticket as int] is Some
    }

    pub open spec fn record(self, ticket: nat) -> LeaseRecord {
        self.table[ticket as int]->0
    }

    /// The ledger after the lease with this ticket has returned its charge.
    pub open spec fn release(self, ticket: nat) -> LedgerView {
        let record = self.record(ticket);
        let at = self.nodes[record.node as int];
        if self.outstanding(ticket) && self.has_pool(record.node, record.event) {
            let released = at.with_pool(
                record.event,
                at.pool_at(record.event).released(record.usage),
            );
            LedgerView {
                nodes: self.nodes.update(
                    record.node as int,
                    NodeView { leases: (at.leases - 1) as nat, ..released },
                ),
                table: self.table.update(ticket as int, None),
                signals: self.signals + self.release_signals(
                    record.node,
                    record.event,
                    record.usage,
                ),
            }
        } else {
            self
        }
    }

    /// The ledger after several leases have returned their charges, the last first.
    pub open spec fn release_all(self, tickets: Seq<nat>) -> LedgerView
        decreases tickets.len(),
    {
        if tickets.len() == 0 {
            self
        } else {
            self.release(tickets.last()).release_all(tickets.drop_last())
        }
    }

    /// The ledger with the lease given to another owner.
    pub open spec fn assign(self, ticket: nat, owner: Owner) -> LedgerView {
        LedgerView {
            table: self.table.update(
                ticket as int,
                Some(LeaseRecord { owner, ..self.record(ticket) }),
            ),
            ..self
        }
    }

    /// The grant without its reservation at its parent.
    pub open spec fn orphan(self, node: nat) -> LedgerView {
        self.with_node(
            node,
            NodeView { parent: None, reservations: Seq::empty(), ..self.nodes[node as int] },
        )
    }

    /// The grant in the slot is dead and still holds a reservation at its parent.
    pub open spec fn must_reap(self, node: nat) -> bool {
        let at = self.nodes[node as int];
        &&& node < self.nodes.len()
        &&& at.dead()
        &&& at.parent is Some
        &&& at.parent->0 < self.nodes.len()
        &&& self.nodes[at.parent->0 as int].depth < at.depth
    }

    /// The ledger after a grant that nothing refers to has returned its
    /// reservation, and in turn each ancestor that this was the last to hold.
    pub open spec fn reap(self, node: nat) -> LedgerView
        decreases self.nodes[node as int].depth,
    {
        if self.must_reap(node) {
            let at = self.nodes[node as int];
            proof {
                lemma_release_all_keeps(self.orphan(node), at.reservations);
            }
            self.orphan(node).release_all(at.reservations).reap(at.parent->0)
        } else {
            self
        }
    }

    /// The first slot that nothing refers to, counting from `from`.
    pub open spec fn free_slot(self, from: nat) -> nat
        decreases self.nodes.len() - from,
    {
        if from < self.nodes.len() && !self.nodes[from as int].dead() {
            self.free_slot(from + 1)
        } else {
            from
        }
    }

    /// The ledger with `child` in slot `slot`, which may be the next new one.
    pub open spec fn seat(self, slot: nat, child: NodeView) -> LedgerView {
        LedgerView {
            nodes: if slot < self.nodes.len() {
                self.nodes.update(slot as int, child)
            } else {
                self.nodes.push(child)
            },
            ..self
        }
    }

    /// Why a child with these permissions and limits cannot be derived, if it cannot.
    /// The conditions are looked at in this order.
    pub open spec fn restrict_error(
        self,
        node: nat,
        permissions: Seq<Permission>,
        limits: Limits,
    ) -> Option<TopicError> {
        let at = self.nodes[node as int];
        if !limits.addressable() {
            Some(TopicError::InvalidConfig)
        } else if permissions.len() > limits.streams {
            Some(TopicError::Capacity)
        } else if at.permissions_error(permissions) is Some {
            at.permissions_error(permissions)
        } else if partition_error(limits, permissions) is Some {
            partition_error(limits, permissions)
        } else if at.revoked {
            Some(TopicError::Revoked)
        } else if !at.can_reserve(permissions, limits) {
            Some(TopicError::Capacity)
        } else {
            None
        }
    }

    /// The first of the allowances that the pool of its event has no room for, counting
    /// from `from`.
    pub open spec fn first_short(
        self,
        node: nat,
        allowances: Seq<EventAllowance>,
        from: nat,
    ) -> nat
        decreases allowances.len() - from,
    {
        let at = self.nodes[node as int];
        if from < allowances.len() && at.pool_at(
            at.position(allowances[from as int].permission.event),
        ).admits(allowances[from as int].permission.limits.widened()) {
            self.first_short(node, allowances, from + 1)
        } else {
            from
        }
    }

    /// What is signalled when the capacity of the first `upto` allowances returns to the
    /// pools of their events.
    pub open spec fn returned_signals(
        self,
        node: nat,
        allowances: Seq<EventAllowance>,
        upto: nat,
    ) -> Seq<Signal>
        decreases upto,
    {
        if upto == 0 {
            Seq::empty()
        } else {
            let permission = allowances[upto - 1].permission;
            self.returned_signals(node, allowances, (upto - 1) as nat) + self.release_signals(
                node,
                self.nodes[node as int].position(permission.event),
                permission.limits.widened(),
            )
        }
    }

    /// What is signalled when what a child is to have cannot all be charged: part of it was
    /// taken, and returns.
    pub open spec fn reservation_signals(
        self,
        node: nat,
        generic: Limits,
        allowances: Seq<EventAllowance>,
    ) -> Seq<Signal> {
        let at = self.nodes[node as int];
        let short = self.first_short(node, allowances, 0);
        if !at.pool.admits(generic) {
            self.refusal_signals(node, None, generic)
        } else if short < allowances.len() {
            let permission = allowances[short as int].permission;
            self.refusal_signals(
                node,
                at.position(permission.event),
                permission.limits.widened(),
            ) + self.returned_signals(node, allowances, short) + self.release_signals(
                node,
                None,
                generic,
            )
        } else {
            Seq::empty()
        }
    }

    /// The ledger after a child was refused. Unless the request itself is at fault or the
    /// grant is revoked, part of what the child was to have was taken and has returned.
    pub open spec fn refuse_restrict(
        self,
        node: nat,
        permissions: Seq<Permission>,
        limits: Limits,
    ) -> LedgerView {
        let at = self.nodes[node as int];
        if !limits.addressable() || permissions.len() > limits.streams || at.permissions_error(
            permissions,
        ) is Some || partition_error(limits, permissions) is Some || at.revoked {
            self
        } else {
            LedgerView {
                signals: self.signals + self.reservation_signals(
                    node,
                    at.reservation(permissions, limits),
                    at.event_charges(permissions),
                ),
                ..self
            }
        }
    }

    /// The ledger after the capacity of each allowance has been charged to the pool
    /// of its event.
    pub open spec fn charge_each(
        self,
        node: nat,
        allowances: Seq<EventAllowance>,
        owner: Owner,
    ) -> LedgerView
        decreases allowances.len(),
    {
        if allowances.len() == 0 {
            self
        } else {
            self.charge_each(node, allowances.drop_last(), owner).charge(
                node,
                self.nodes[node as int].position(allowances.last().permission.event),
                allowances.last().permission.limits.widened(),
                owner,
            )
        }
    }

    /// The ledger after everything that the child in slot `slot` is to have has been
    /// charged to its parent.
    pub open spec fn reserve(
        self,
        node: nat,
        slot: nat,
        permissions: Seq<Permission>,
        limits: Limits,
    ) -> LedgerView {
        let at = self.nodes[node as int];
        let generic = self.charge(
            node,
            None,
            at.reservation(permissions, limits),
            Owner::Child(slot),
        );
        generic.charge_each(node, at.event_charges(permissions), Owner::Child(slot))
    }

    /// The ledger after a child has been derived.
    pub open spec fn restrict(
        self,
        node: nat,
        permissions: Seq<Permission>,
        limits: Limits,
    ) -> LedgerView {
        let at = self.nodes[node as int];
        let slot = self.free_slot(0);
        self.reserve(node, slot, permissions, limits).seat(
            slot,
            NodeView {
                limits,
                pool: Pool { limits: remainder(limits, permissions), used: Limits::none() },
                unrestricted: false,
                allowances: merged(permissions),
                parent: Some(node),
                reservations: Seq::new(
                    1 + at.event_charges(permissions).len(),
                    |i: int| (self.table.len() + i) as nat,
                ),
                active: 0,
                revoked: false,
                revoking: false,
                complete: false,
                handles: 1,
                leases: 0,
                listeners: Seq::empty(),
                depth: at.depth + 1,
            },
        )
    }

    /// The ledger with `change` more admitted operations of a grant.
    pub open spec fn with_active(self, node: nat, change: int) -> LedgerView {
        let at = self.nodes[node as int];
        self.with_node(node, NodeView { active: (at.active + change) as nat, ..at })
    }

    /// Why `event` may not be used with `right` now, if it may not. At most half of
    /// `usize::MAX` operations of a grant are under way at once.
    pub open spec fn enter_error(
        self,
        node: nat,
        event: EventId,
        right: Rights,
    ) -> Option<TopicError> {
        match self.nodes[node as int].check_error(event, right) {
            Some(error) => Some(error),
            None => if self.nodes[node as int].active >= usize::MAX / 2 {
                Some(TopicError::Capacity)
            } else {
                None
            },
        }
    }

    /// The ledger after an operation has left.
    pub open spec fn leave(self, node: nat, notify: bool) -> LedgerView {
        let gone = self.with_active(node, -1);
        LedgerView {
            signals: if notify {
                gone.signals.push(Signal::Changed(node as usize))
            } else {
                gone.signals
            },
            ..gone
        }
    }

    /// Why a listener cannot be registered, if it cannot.
    pub open spec fn register_error(
        self,
        node: nat,
        event: EventId,
        listener: u64,
    ) -> Option<TopicError> {
        let at = self.nodes[node as int];
        if at.revoked {
            Some(TopicError::Revoked)
        } else if !at.listeners.contains((event, listener)) && at.listeners.len()
            >= at.limits.streams {
            Some(TopicError::Capacity)
        } else {
            None
        }
    }

    /// The ledger with a listener registered, once.
    pub open spec fn register(self, node: nat, event: EventId, listener: u64) -> LedgerView {
        let at = self.nodes[node as int];
        if at.listeners.contains((event, listener)) {
            self
        } else {
            self.with_node(
                node,
                NodeView { listeners: at.listeners.push((event, listener)), ..at },
            )
        }
    }

    /// The ledger without any registration of a listener.
    pub open spec fn retire(self, listener: u64) -> LedgerView {
        LedgerView {
            nodes: Seq::new(
                self.nodes.len(),
                |n: int|
                    NodeView {
                        listeners: without(self.nodes[n].listeners, listener),
                        ..self.nodes[n]
                    },
            ),
            ..self
        }
    }

    /// What a cutoff at `node` signals for the grants in the first `upto` slots.
    pub open spec fn cutoff_signals(self, node: nat, upto: nat) -> Seq<Signal>
        decreases upto,
    {
        if upto == 0 {
            Seq::empty()
        } else {
            let slot = (upto - 1) as nat;
            let at = self.nodes[slot as int];
            let earlier = self.cutoff_signals(node, slot);
            if !self.descends(slot, node) {
                earlier
            } else if at.revoked {
                earlier.push(Signal::Changed(slot as usize)) + all_listening(at.listeners)
            } else {
                earlier.push(Signal::Revoked(slot as usize)).push(Signal::Changed(slot as usize))
                    + all_listening(at.listeners)
            }
        }
    }

    /// The ledger after `node` and all that descend from it have been cut off.
    pub open spec fn cut_off(self, node: nat) -> LedgerView {
        LedgerView {
            nodes: Seq::new(
                self.nodes.len(),
                |n: int|
                    NodeView {
                        revoked: self.nodes[n].revoked || self.descends(n as nat, node),
                        revoking: self.nodes[n].revoking || n == node,
                        ..self.nodes[n]
                    },
            ),
            signals: self.signals + self.cutoff_signals(node, self.nodes.len()),
            ..self
        }
    }

    /// Beginning a revocation: a completed one is done at once, and only one can be under
    /// way.
    pub open spec fn begin_revocation(self, node: nat) -> (
        Result<Revocation, TopicError>,
        LedgerView,
    ) {
        let at = self.nodes[node as int];
        if at.complete {
            (Ok(Revocation::Complete), self)
        } else if at.revoking {
            (Err(TopicError::Capacity), self)
        } else {
            (Ok(Revocation::Pending), self.cut_off(node))
        }
    }

    /// No operation is under way in the subtree of `node`.
    pub open spec fn quiet(self, node: nat) -> bool {
        forall|n: nat|
            n < self.nodes.len() && #[trigger] self.descends(n, node) ==> self.nodes[n as int].active
                == 0
    }

    /// The ledger after the cutoff at `node` has completed.
    pub open spec fn cutoff_complete(self, node: nat) -> LedgerView {
        LedgerView {
            nodes: Seq::new(
                self.nodes.len(),
                |n: int|
                    NodeView {
                        complete: self.nodes[n].complete || self.descends(n as nat, node),
                        ..self.nodes[n]
                    },
            ),
            ..self
        }
    }

    /// A change signal for each grant in the subtree of `node` in the first `upto` slots.
    pub open spec fn tree_signals(self, node: nat, upto: nat) -> Seq<Signal>
        decreases upto,
    {
        if upto == 0 {
            Seq::empty()
        } else {
            let slot = (upto - 1) as nat;
            let earlier = self.tree_signals(node, slot);
            if self.descends(slot, node) {
                earlier.push(Signal::Changed(slot as usize))
            } else {
                earlier
            }
        }
    }

    /// The grant in slot `node` is the one in slot `ancestor` or descends from it.
    pub open spec fn descends(self, node: nat, ancestor: nat) -> bool
        decreases self.nodes[node as int].depth,
    {
        if node == ancestor {
            true
        } else {
            match self.nodes[node as int].parent {
                Some(parent) => {
                    &&& self.nodes[parent as int].depth < self.nodes[node as int].depth
                    &&& self.descends(parent, ancestor)
                },
                None => false,
            }
        }
    }

    /// The reservation of a grant at its parent is outstanding and its own.
    pub open spec fn reservation_sound(self, node: nat) -> bool {
        let at = self.nodes[node as int];
        match at.parent {
            None => at.reservations.len() == 0,
            Some(parent) => {
                &&& parent < self.nodes.len()
                &&& self.nodes[parent as int].depth < at.depth
                &&& at.reservations.len() > 0
                &&& at.reservations.no_duplicates()
                &&& forall|i: int|
                    0 <= i < at.reservations.len() ==> {
                        let ticket = #[trigger] at.reservations[i];
                        &&& self.outstanding(ticket)
                        &&& self.record(ticket).node == parent
                        &&& self.record(ticket).owner == Owner::Child(node)
                    }
                &&& self.nodes[parent as int].revoked ==> at.revoked
            },
        }
    }

    /// Every pool's usage is the sum of what is outstanding of it, within its limits.
    pub open spec fn pool_sound(self, node: nat, event: Option<nat>) -> bool {
        &&& self.pool(node, event).used.within(self.pool(node, event).limits)
        &&& forall|k: int|
            0 <= k < RESOURCES ==> #[trigger] self.pool(node, event).used.get(k) == tally(
                self.table,
                on_pool(node, event, k),
            )
    }

    pub open spec fn node_sound(self, node: nat) -> bool {
        let at = self.nodes[node as int];
        &&& ordered(at.allowances)
        &&& at.leases == tally(self.table, on_node(node))
        &&& at.complete ==> at.revoked
        &&& at.unrestricted ==> at.allowances.len() == 0
        &&& forall|k: int|
            0 <= k < RESOURCES ==> #[trigger] at.limits.get(k) == at.pool.limits.get(k) + allotted(
                at.allowances,
                k,
            )
        &&& forall|i: int|
            0 <= i < at.allowances.len() ==> (#[trigger] at.allowances[i]).pool.limits
                == at.allowances[i].permission.limits.widened()
    }

    /// The accounts balance.
    pub open spec fn sound(self) -> bool {
        &&& forall|t: nat|
            #[trigger] self.outstanding(t) ==> self.has_pool(
                self.record(t).node,
                self.record(t).event,
            )
        &&& forall|n: nat, e: Option<nat>| #[trigger] self.has_pool(n, e) ==> self.pool_sound(n, e)
        &&& forall|n: nat| n < self.nodes.len() ==> #[trigger] self.node_sound(n)
        &&& forall|n: nat| n < self.nodes.len() ==> #[trigger] self.reservation_sound(n)
    }

    /// A grant that nothing refers to holds nothing at its parent.
    pub open spec fn settled(self) -> bool {
        forall|n: nat| n < self.nodes.len() ==> !#[trigger] self.must_reap(n)
    }

    pub open spec fn wf(self) -> bool {
        self.sound() && self.settled()
    }
}

/// Releasing leases changes neither the tree nor who may do what.
pub open spec fn same_tree(before: LedgerView, after: LedgerView) -> bool {
    &&& after.nodes.len() == before.nodes.len()
    &&& after.table.len() == before.table.len()
    &&& forall|n: int|
        0 <= n < before.nodes.len() ==> {
            let a = #[trigger] after.nodes[n];
            let b = before.nodes[n];
            &&& a.depth == b.depth
            &&& a.parent == b.parent
            &&& a.reservations == b.reservations
            &&& a.limits == b.limits
            &&& a.unrestricted == b.unrestricted
            &&& a.allowances.len() == b.allowances.len()
            &&& a.handles == b.handles
            &&& a.active == b.active
            &&& a.revoked == b.revoked
            &&& a.revoking == b.revoking
            &&& a.complete == b.complete
            &&& a.listeners == b.listeners
        }
}

pub proof fn lemma_release_all_keeps(v: LedgerView, tickets: Seq<nat>)
    ensures
        same_tree(v, v.release_all(tickets)),
    decreases tickets.len(),
{
    if tickets.len() > 0 {
        let next = v.release(tickets.last());
        lemma_release_all_keeps(next, tickets.drop_last());
        assert(same_tree(v, next));
    }
}

} // verus!

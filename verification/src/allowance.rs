//! Per-event allowances of one grant, kept in order of event identity.
use crate::event::EventId;
use crate::grant::{mentions, reserved, Limits, Permission, Rights, RESOURCES};
use vstd::prelude::*;

verus! {

/// An allowance and how much of it is in use.
#[derive(Clone, Copy, Debug, PartialEq, Eq, Structural)]
pub struct Pool {
    /// The most that may be in use.
    pub limits: Limits,
    /// What is in use.
    pub used: Limits,
}

impl Pool {
    /// `usage` can be charged without passing any limit.
    pub open spec fn admits(self, usage: Limits) -> bool {
        self.used.fits(usage, self.limits)
    }

    /// There is room for what is asked for of resource `k`.
    pub open spec fn room(self, usage: Limits, k: int) -> bool {
        usage.get(k) == 0 || self.used.get(k) + usage.get(k) <= self.limits.get(k)
    }

    /// A charge of `usage` is refused after part of it was taken: there is room for the
    /// first resource that is asked for, and not for a later one.
    pub open spec fn tentative(self, usage: Limits) -> bool {
        !self.admits(usage) && exists|j: int|
            0 <= j < RESOURCES && #[trigger] usage.get(j) > 0 && forall|k: int|
                0 <= k <= j ==> #[trigger] self.room(usage, k)
    }

    /// The pool after charging `usage`.
    pub open spec fn charged(self, usage: Limits) -> Pool {
        Pool { used: self.used.plus(usage), ..self }
    }

    /// The pool after returning `usage`.
    pub open spec fn released(self, usage: Limits) -> Pool {
        Pool { used: self.used.minus(usage), ..self }
    }

    /// An unused pool.
    pub fn new(limits: Limits) -> (pool: Self)
        ensures
            pool == (Pool { limits, used: Limits::none() }),
    {
        Pool { limits, used: Limits::zero() }
    }

    /// Tests whether `usage` can be charged.
    pub fn can_charge(&self, usage: Limits) -> (admitted: bool)
        ensures
            admitted == self.admits(usage),
    {
        let limits = self.limits.values();
        let used = self.used.values();
        let requested = usage.values();
        let mut index: usize = 0;
        while index < RESOURCES
            invariant
                index <= RESOURCES,
                forall|k: int| 0 <= k < RESOURCES ==> limits@[k] == #[trigger] self.limits.get(k),
                forall|k: int| 0 <= k < RESOURCES ==> used@[k] == #[trigger] self.used.get(k),
                forall|k: int| 0 <= k < RESOURCES ==> requested@[k] == #[trigger] usage.get(k),
                forall|k: int|
                    0 <= k < index ==> #[trigger] self.used.get(k) + usage.get(k)
                        <= self.limits.get(k),
            decreases RESOURCES - index,
        {
            let total = used[index].checked_add(requested[index]);
            proof {
                let k = index as int;
                assert(limits@[k] == self.limits.get(k));
                assert(used@[k] == self.used.get(k));
                assert(requested@[k] == usage.get(k));
            }
            match total {
                Some(sum) => {
                    if sum > limits[index] {
                        return false;
                    }
                },
                None => {
                    return false;
                },
            }
            index += 1;
        }
        true
    }

    /// Tests whether a charge of `usage` is refused after part of it was taken.
    pub fn takes_part(&self, usage: Limits) -> (partly: bool)
        ensures
            partly == self.tentative(usage),
    {
        if self.can_charge(usage) {
            return false;
        }
        let limits = self.limits.values();
        let used = self.used.values();
        let requested = usage.values();
        let mut index: usize = 0;
        while index < RESOURCES && requested[index] == 0
            invariant
                index <= RESOURCES,
                forall|k: int| 0 <= k < RESOURCES ==> requested@[k] == #[trigger] usage.get(k),
                forall|k: int| 0 <= k < index ==> #[trigger] usage.get(k) == 0,
            decreases RESOURCES - index,
        {
            assert(usage.get(index as int) == requested@[index as int]);
            index += 1;
        }
        if index == RESOURCES {
            return false;
        }
        let ghost first = index as int;
        assert(limits@[first] == self.limits.get(first));
        assert(used@[first] == self.used.get(first));
        assert(requested@[first] == usage.get(first));
        let fits = match used[index].checked_add(requested[index]) {
            Some(sum) => sum <= limits[index],
            None => false,
        };
        proof {
            if fits {
                assert(forall|k: int| 0 <= k <= first ==> self.room(usage, k));
            } else {
                assert(!self.room(usage, first));
            }
        }
        fits
    }

    /// Charges `usage`.
    pub fn charge(&mut self, usage: Limits)
        requires
            old(self).admits(usage),
        ensures
            *final(self) == old(self).charged(usage),
    {
        proof {
            lemma_fields(self.used, usage, self.limits);
        }
        self.used = Limits {
            streams: self.used.streams + usage.streams,
            grants: self.used.grants + usage.grants,
            subscriptions: self.used.subscriptions + usage.subscriptions,
            retained_items: self.used.retained_items + usage.retained_items,
            waiters: self.used.waiters + usage.waiters,
            connections: self.used.connections + usage.connections,
            bytes: self.used.bytes + usage.bytes,
        };
    }

    /// Returns `usage`.
    pub fn release(&mut self, usage: Limits)
        requires
            usage.within(old(self).used),
        ensures
            *final(self) == old(self).released(usage),
    {
        proof {
            lemma_within_fields(usage, self.used);
        }
        self.used = Limits {
            streams: self.used.streams - usage.streams,
            grants: self.used.grants - usage.grants,
            subscriptions: self.used.subscriptions - usage.subscriptions,
            retained_items: self.used.retained_items - usage.retained_items,
            waiters: self.used.waiters - usage.waiters,
            connections: self.used.connections - usage.connections,
            bytes: self.used.bytes - usage.bytes,
        };
    }
}

/// [`Limits::fits`], field by field.
pub proof fn lemma_fields(used: Limits, extra: Limits, cap: Limits)
    ensures
        used.fits(extra, cap) <==> {
            &&& used.streams + extra.streams <= cap.streams
            &&& used.grants + extra.grants <= cap.grants
            &&& used.subscriptions + extra.subscriptions <= cap.subscriptions
            &&& used.retained_items + extra.retained_items <= cap.retained_items
            &&& used.waiters + extra.waiters <= cap.waiters
            &&& used.connections + extra.connections <= cap.connections
            &&& used.bytes + extra.bytes <= cap.bytes
        },
{
    if used.fits(extra, cap) {
        assert(used.get(0) + extra.get(0) <= cap.get(0));
        assert(used.get(1) + extra.get(1) <= cap.get(1));
        assert(used.get(2) + extra.get(2) <= cap.get(2));
        assert(used.get(3) + extra.get(3) <= cap.get(3));
        assert(used.get(4) + extra.get(4) <= cap.get(4));
        assert(used.get(5) + extra.get(5) <= cap.get(5));
        assert(used.get(6) + extra.get(6) <= cap.get(6));
    }
}

/// [`Limits::within`], field by field.
pub proof fn lemma_within_fields(a: Limits, cap: Limits)
    ensures
        a.within(cap) <==> {
            &&& a.streams <= cap.streams
            &&& a.grants <= cap.grants
            &&& a.subscriptions <= cap.subscriptions
            &&& a.retained_items <= cap.retained_items
            &&& a.waiters <= cap.waiters
            &&& a.connections <= cap.connections
            &&& a.bytes <= cap.bytes
        },
{
    if a.within(cap) {
        assert(a.get(0) <= cap.get(0));
        assert(a.get(1) <= cap.get(1));
        assert(a.get(2) <= cap.get(2));
        assert(a.get(3) <= cap.get(3));
        assert(a.get(4) <= cap.get(4));
        assert(a.get(5) <= cap.get(5));
        assert(a.get(6) <= cap.get(6));
    }
}

/// Sums and differences act on each resource separately.
pub proof fn lemma_arithmetic(used: Limits, extra: Limits, cap: Limits)
    ensures
        used.fits(extra, cap) ==> forall|k: int|
            0 <= k < RESOURCES ==> #[trigger] used.plus(extra).get(k) == used.get(k) + extra.get(k),
        extra.within(used) ==> forall|k: int|
            0 <= k < RESOURCES ==> #[trigger] used.minus(extra).get(k) == used.get(k) - extra.get(
                k,
            ),
        used.fits(extra, cap) ==> used.plus(extra).minus(extra) == used,
{
    lemma_fields(used, extra, cap);
    lemma_within_fields(extra, used);
}

/// The permission for one event and what is used of its reservation.
#[derive(Clone, Copy, Debug, PartialEq, Eq, Structural)]
pub struct EventAllowance {
    /// What the grant may do with the event.
    pub permission: Permission,
    /// The capacity reserved for the event.
    pub pool: Pool,
}

/// Allowances are in strictly ascending order of event identity.
pub open spec fn ordered(allowances: Seq<EventAllowance>) -> bool {
    forall|i: int, j: int|
        #![trigger allowances[i], allowances[j]]
        0 <= i < j < allowances.len() ==> allowances[i].permission.event.0
            < allowances[j].permission.event.0
}

/// Some allowance is for `event`.
pub open spec fn covers(allowances: Seq<EventAllowance>, event: EventId) -> bool {
    exists|i: int| 0 <= i < allowances.len() && #[trigger] allowances[i].permission.event == event
}

/// What all event pools together are limited to, of resource `k`.
pub open spec fn allotted(allowances: Seq<EventAllowance>, k: int) -> nat
    decreases allowances.len(),
{
    if allowances.len() == 0 {
        0
    } else {
        allotted(allowances.drop_last(), k) + allowances.last().pool.limits.get(k)
    }
}

/// What all event pools together have in use, of resource `k`.
pub open spec fn spent(allowances: Seq<EventAllowance>, k: int) -> nat
    decreases allowances.len(),
{
    if allowances.len() == 0 {
        0
    } else {
        spent(allowances.drop_last(), k) + allowances.last().pool.used.get(k)
    }
}

/// Only the pools' limits decide what is allotted.
pub proof fn lemma_allotted_same(a: Seq<EventAllowance>, b: Seq<EventAllowance>, k: int)
    requires
        a.len() == b.len(),
        forall|i: int|
            #![trigger a[i]]
            #![trigger b[i]]
            0 <= i < a.len() ==> a[i].pool.limits == b[i].pool.limits,
    ensures
        allotted(a, k) == allotted(b, k),
    decreases a.len(),
{
    if a.len() > 0 {
        assert(a[a.len() - 1].pool.limits == b[a.len() - 1].pool.limits);
        assert forall|i: int|
            #![trigger a.drop_last()[i]]
            #![trigger b.drop_last()[i]]
            0 <= i < a.len() - 1 implies a.drop_last()[i].pool.limits
            == b.drop_last()[i].pool.limits by {
            assert(a[i].pool.limits == b[i].pool.limits);
        }
        lemma_allotted_same(a.drop_last(), b.drop_last(), k);
    }
}

proof fn lemma_allotted_inserted(
    allowances: Seq<EventAllowance>,
    slot: int,
    entry: EventAllowance,
    k: int,
)
    requires
        0 <= slot <= allowances.len(),
    ensures
        allotted(allowances.insert(slot, entry), k) == allotted(allowances, k)
            + entry.pool.limits.get(k),
    decreases allowances.len(),
{
    let after = allowances.insert(slot, entry);
    if slot == allowances.len() {
        assert(after.drop_last() =~= allowances);
    } else {
        lemma_allotted_inserted(allowances.drop_last(), slot, entry, k);
        assert(after.drop_last() =~= allowances.drop_last().insert(slot, entry));
    }
}

/// Usage within every pool adds up to usage within what is allotted.
pub proof fn lemma_spent_within(allowances: Seq<EventAllowance>, k: int)
    requires
        0 <= k < RESOURCES,
        forall|i: int|
            0 <= i < allowances.len() ==> (#[trigger] allowances[i]).pool.used.within(
                allowances[i].pool.limits,
            ),
    ensures
        spent(allowances, k) <= allotted(allowances, k),
    decreases allowances.len(),
{
    if allowances.len() > 0 {
        let last = allowances[allowances.len() - 1];
        assert(last.pool.used.get(k) <= last.pool.limits.get(k));
        assert forall|i: int| 0 <= i < allowances.len() - 1 implies (
        #[trigger] allowances.drop_last()[i]).pool.used.within(
            allowances.drop_last()[i].pool.limits,
        ) by {
            assert(allowances.drop_last()[i] == allowances[i]);
        }
        lemma_spent_within(allowances.drop_last(), k);
    }
}

/// The operations that `permissions` together permit on `event`.
pub open spec fn joint_rights(permissions: Seq<Permission>, event: EventId) -> u8
    decreases permissions.len(),
{
    if permissions.len() == 0 {
        0
    } else if permissions.last().event == event {
        joint_rights(permissions.drop_last(), event) | permissions.last().rights.bits()
    } else {
        joint_rights(permissions.drop_last(), event)
    }
}

/// `allowances` are `permissions` with duplicates combined: one unused allowance
/// for each event that is named, with the union of the rights asked for and the
/// capacity asked for.
pub open spec fn is_merge(allowances: Seq<EventAllowance>, permissions: Seq<Permission>) -> bool {
    &&& ordered(allowances)
    &&& forall|j: int|
        0 <= j < permissions.len() ==> covers(allowances, #[trigger] permissions[j].event)
    &&& forall|i: int|
        0 <= i < allowances.len() ==> {
            let entry = #[trigger] allowances[i];
            &&& mentions(permissions, entry.permission.event)
            &&& entry.permission.rights.bits() == joint_rights(permissions, entry.permission.event)
            &&& forall|j: int|
                0 <= j < permissions.len() && #[trigger] permissions[j].event
                    == entry.permission.event ==> permissions[j].limits == entry.permission.limits
            &&& entry.pool == (Pool {
                limits: entry.permission.limits.widened(),
                used: Limits::none(),
            })
        }
}

/// Searches for the allowance of `event`.
///
/// # Errors
///
/// Returns the position at which an allowance for `event` would be inserted.
pub fn search(allowances: &Vec<EventAllowance>, event: EventId) -> (result: Result<usize, usize>)
    requires
        ordered(allowances@),
    ensures
        match result {
            Ok(index) => {
                &&& index < allowances@.len()
                &&& allowances@[index as int].permission.event == event
            },
            Err(index) => {
                &&& index <= allowances@.len()
                &&& !covers(allowances@, event)
                &&& forall|i: int|
                    0 <= i < index ==> #[trigger] allowances@[i].permission.event.0 < event.0
                &&& forall|i: int|
                    index <= i < allowances@.len() ==> event.0
                        < #[trigger] allowances@[i].permission.event.0
            },
        },
{
    let mut low: usize = 0;
    let mut high: usize = allowances.len();
    while low < high
        invariant
            ordered(allowances@),
            low <= high <= allowances@.len(),
            forall|i: int| 0 <= i < low ==> #[trigger] allowances@[i].permission.event.0 < event.0,
            forall|i: int|
                high <= i < allowances@.len() ==> event.0
                    < #[trigger] allowances@[i].permission.event.0,
        decreases high - low,
    {
        let middle: usize = low + (high - low) / 2;
        let found = allowances[middle].permission.event;
        if found.as_u128() == event.as_u128() {
            return Ok(middle);
        } else if found.as_u128() < event.as_u128() {
            low = middle + 1;
        } else {
            high = middle;
        }
    }
    proof {
        assert forall|i: int| 0 <= i < allowances@.len() implies #[trigger] allowances@[i].permission.event
            != event by {
            assert(allowances@[i].permission.event.0 != event.0);
        }
    }
    Err(low)
}

/// In an ordered list an event has at most one allowance.
pub proof fn lemma_search_unique(allowances: Seq<EventAllowance>, i: int, j: int)
    requires
        ordered(allowances),
        0 <= i < allowances.len(),
        0 <= j < allowances.len(),
        allowances[i].permission.event == allowances[j].permission.event,
    ensures
        i == j,
{
    if i < j {
        assert(allowances[i].permission.event.0 < allowances[j].permission.event.0);
    } else if j < i {
        assert(allowances[j].permission.event.0 < allowances[i].permission.event.0);
    }
}

/// Combines `permissions` into ordered allowances.
pub fn merge(permissions: &[Permission]) -> (allowances: Vec<EventAllowance>)
    requires
        forall|i: int, j: int|
            0 <= i < permissions@.len() && 0 <= j < permissions@.len()
                && #[trigger] permissions@[i].event == #[trigger] permissions@[j].event
                ==> permissions@[i].limits == permissions@[j].limits,
    ensures
        is_merge(allowances@, permissions@),
        allowances@.len() <= permissions@.len(),
        forall|k: int| #[trigger] allotted(allowances@, k) == reserved(permissions@, k),
{
    let mut allowances: Vec<EventAllowance> = Vec::new();
    let mut index: usize = 0;
    while index < permissions.len()
        invariant
            index <= permissions@.len(),
            is_merge(allowances@, permissions@.take(index as int)),
            allowances@.len() <= index,
            forall|k: int|
                #[trigger] allotted(allowances@, k) == reserved(permissions@.take(index as int), k),
            forall|i: int, j: int|
                0 <= i < permissions@.len() && 0 <= j < permissions@.len()
                    && #[trigger] permissions@[i].event == #[trigger] permissions@[j].event
                    ==> permissions@[i].limits == permissions@[j].limits,
        decreases permissions@.len() - index,
    {
        let permission = permissions[index];
        let ghost before = allowances@;
        let ghost earlier = permissions@.take(index as int);
        let ghost upto = permissions@.take(index + 1);
        proof {
            assert(upto.drop_last() =~= earlier);
            assert(upto.last() == permission);
        }
        match search(&allowances, permission.event) {
            Ok(found) => {
                let entry = allowances[found];
                let joined = EventAllowance {
                    permission: Permission {
                        rights: entry.permission.rights.union(permission.rights),
                        ..entry.permission
                    },
                    pool: entry.pool,
                };
                allowances[found] = joined;
                proof {
                    lemma_merge_joined(before, earlier, permission, found as int, joined);
                    assert(upto =~= earlier.push(permission));
                    assert(mentions(earlier, before[found as int].permission.event));
                    assert forall|k: int| #[trigger] allotted(allowances@, k) == reserved(
                        upto,
                        k,
                    ) by {
                        lemma_allotted_same(before, allowances@, k);
                        assert(allotted(before, k) == reserved(earlier, k));
                    }
                }
            },
            Err(slot) => {
                let entry = EventAllowance {
                    permission,
                    pool: Pool::new(permission.limits.as_limits()),
                };
                allowances.insert(slot, entry);
                proof {
                    lemma_merge_inserted(before, earlier, permission, slot as int, entry);
                    assert(upto =~= earlier.push(permission));
                    if mentions(earlier, permission.event) {
                        let j = choose|j: int|
                            0 <= j < earlier.len() && #[trigger] earlier[j].event
                                == permission.event;
                        assert(covers(before, earlier[j].event));
                    }
                    assert forall|k: int| #[trigger] allotted(allowances@, k) == reserved(
                        upto,
                        k,
                    ) by {
                        lemma_allotted_inserted(before, slot as int, entry, k);
                        assert(allotted(before, k) == reserved(earlier, k));
                    }
                }
            },
        }
        index += 1;
    }
    proof {
        assert(permissions@.take(index as int) =~= permissions@);
    }
    allowances
}

proof fn lemma_joint_rights_unmentioned(permissions: Seq<Permission>, event: EventId)
    requires
        !mentions(permissions, event),
    ensures
        joint_rights(permissions, event) == 0,
    decreases permissions.len(),
{
    if permissions.len() > 0 {
        let earlier = permissions.drop_last();
        assert(permissions[permissions.len() - 1].event != event);
        assert forall|j: int| 0 <= j < earlier.len() implies #[trigger] earlier[j].event != event by {
            assert(permissions[j] == earlier[j]);
        }
        lemma_joint_rights_unmentioned(earlier, event);
    }
}

proof fn lemma_mentions_push(permissions: Seq<Permission>, permission: Permission, event: EventId)
    ensures
        mentions(permissions.push(permission), event) <==> mentions(permissions, event)
            || permission.event == event,
{
    let all = permissions.push(permission);
    if mentions(permissions, event) {
        let j = choose|j: int| 0 <= j < permissions.len() && #[trigger] permissions[j].event == event;
        assert(all[j].event == event);
    }
    if permission.event == event {
        assert(all[permissions.len() as int].event == event);
    }
    if mentions(all, event) && permission.event != event {
        let j = choose|j: int| 0 <= j < all.len() && #[trigger] all[j].event == event;
        assert(permissions[j].event == event);
    }
}

proof fn lemma_merge_joined(
    allowances: Seq<EventAllowance>,
    permissions: Seq<Permission>,
    permission: Permission,
    found: int,
    joined: EventAllowance,
)
    requires
        is_merge(allowances, permissions),
        0 <= found < allowances.len(),
        allowances[found].permission.event == permission.event,
        joined.permission.event == permission.event,
        joined.permission.limits == allowances[found].permission.limits,
        joined.permission.rights.bits() == allowances[found].permission.rights.bits()
            | permission.rights.bits(),
        joined.pool == allowances[found].pool,
        forall|j: int|
            0 <= j < permissions.len() && #[trigger] permissions[j].event == permission.event
                ==> permissions[j].limits == permission.limits,
    ensures
        is_merge(allowances.update(found, joined), permissions.push(permission)),
{
    let after = allowances.update(found, joined);
    let all = permissions.push(permission);
    assert(all.drop_last() =~= permissions);
    assert(all.last() == permission);
    assert(mentions(permissions, permission.event));
    assert(allowances[found].permission.limits == permission.limits) by {
        let j = choose|j: int|
            0 <= j < permissions.len() && #[trigger] permissions[j].event == permission.event;
        assert(permissions[j].limits == permission.limits);
    }
    assert forall|j: int| 0 <= j < all.len() implies covers(after, #[trigger] all[j].event) by {
        let event = all[j].event;
        if j < permissions.len() {
            assert(permissions[j].event == event);
            let i = choose|i: int|
                0 <= i < allowances.len() && #[trigger] allowances[i].permission.event == event;
            assert(after[i].permission.event == event);
        } else {
            assert(after[found].permission.event == event);
        }
    }
    assert forall|i: int| 0 <= i < after.len() implies {
        let entry = #[trigger] after[i];
        &&& mentions(all, entry.permission.event)
        &&& entry.permission.rights.bits() == joint_rights(all, entry.permission.event)
        &&& forall|j: int|
            0 <= j < all.len() && #[trigger] all[j].event == entry.permission.event
                ==> all[j].limits == entry.permission.limits
        &&& entry.pool == (Pool {
            limits: entry.permission.limits.widened(),
            used: Limits::none(),
        })
    } by {
        let entry = after[i];
        let old_entry = allowances[i];
        assert(mentions(permissions, old_entry.permission.event));
        lemma_mentions_push(permissions, permission, entry.permission.event);
        if i != found {
            if old_entry.permission.event == allowances[found].permission.event {
                lemma_search_unique(allowances, i, found);
            }
        }
        assert forall|j: int|
            0 <= j < all.len() && #[trigger] all[j].event == entry.permission.event implies
            all[j].limits == entry.permission.limits by {
            if j < permissions.len() {
                assert(permissions[j].event == old_entry.permission.event);
            }
        }
    }
    assert(ordered(after)) by {
        assert forall|i: int, j: int|
            #![trigger after[i], after[j]]
            0 <= i < j < after.len() implies after[i].permission.event.0
            < after[j].permission.event.0 by {
            assert(allowances[i].permission.event.0 < allowances[j].permission.event.0);
        }
    }
}

proof fn lemma_merge_inserted(
    allowances: Seq<EventAllowance>,
    permissions: Seq<Permission>,
    permission: Permission,
    slot: int,
    entry: EventAllowance,
)
    requires
        is_merge(allowances, permissions),
        0 <= slot <= allowances.len(),
        !covers(allowances, permission.event),
        forall|i: int|
            0 <= i < slot ==> #[trigger] allowances[i].permission.event.0 < permission.event.0,
        forall|i: int|
            slot <= i < allowances.len() ==> permission.event.0
                < #[trigger] allowances[i].permission.event.0,
        entry.permission == permission,
        entry.pool == (Pool { limits: permission.limits.widened(), used: Limits::none() }),
    ensures
        is_merge(allowances.insert(slot, entry), permissions.push(permission)),
{
    let after = allowances.insert(slot, entry);
    let all = permissions.push(permission);
    assert(all.drop_last() =~= permissions);
    assert(all.last() == permission);
    if mentions(permissions, permission.event) {
        let j = choose|j: int|
            0 <= j < permissions.len() && #[trigger] permissions[j].event == permission.event;
        assert(covers(allowances, permissions[j].event));
        assert(false);
    }
    lemma_joint_rights_unmentioned(permissions, permission.event);
    let bits = permission.rights.bits();
    assert(0u8 | bits == bits) by (bit_vector);
    assert forall|j: int| 0 <= j < all.len() implies covers(after, #[trigger] all[j].event) by {
        let event = all[j].event;
        if j < permissions.len() {
            assert(permissions[j].event == event);
            let i = choose|i: int|
                0 <= i < allowances.len() && #[trigger] allowances[i].permission.event == event;
            if i < slot {
                assert(after[i].permission.event == event);
            } else {
                assert(after[i + 1].permission.event == event);
            }
        } else {
            assert(after[slot].permission.event == event);
        }
    }
    assert forall|i: int| 0 <= i < after.len() implies {
        let entry = #[trigger] after[i];
        &&& mentions(all, entry.permission.event)
        &&& entry.permission.rights.bits() == joint_rights(all, entry.permission.event)
        &&& forall|j: int|
            0 <= j < all.len() && #[trigger] all[j].event == entry.permission.event
                ==> all[j].limits == entry.permission.limits
        &&& entry.pool == (Pool {
            limits: entry.permission.limits.widened(),
            used: Limits::none(),
        })
    } by {
        let current = after[i];
        lemma_mentions_push(permissions, permission, current.permission.event);
        if i != slot {
            let from = if i < slot {
                i
            } else {
                i - 1
            };
            assert(current == allowances[from]);
            assert(mentions(permissions, allowances[from].permission.event));
        }
        assert forall|j: int|
            0 <= j < all.len() && #[trigger] all[j].event == current.permission.event implies
            all[j].limits == current.permission.limits by {
            if j < permissions.len() {
                assert(permissions[j].event == current.permission.event);
                if i == slot {
                    assert(mentions(permissions, permission.event));
                }
            }
        }
    }
    assert(ordered(after)) by {
        assert forall|i: int, j: int|
            #![trigger after[i], after[j]]
            0 <= i < j < after.len() implies after[i].permission.event.0
            < after[j].permission.event.0 by {
            if i < slot && j < slot {
                assert(allowances[i].permission.event.0 < allowances[j].permission.event.0);
            } else if i < slot && j > slot {
                assert(allowances[i].permission.event.0 < allowances[j - 1].permission.event.0);
            } else if i > slot {
                assert(allowances[i - 1].permission.event.0 < allowances[j - 1].permission.event.0);
            }
        }
    }
}

/// Where an allowance for `event` goes, from position `from` on.
spec fn place(allowances: Seq<EventAllowance>, event: EventId, from: nat) -> nat
    decreases allowances.len() - from,
{
    if from < allowances.len() && allowances[from as int].permission.event.0 < event.0 {
        place(allowances, event, from + 1)
    } else {
        from
    }
}

proof fn lemma_place(allowances: Seq<EventAllowance>, event: EventId, from: nat)
    requires
        from <= allowances.len(),
    ensures
        from <= place(allowances, event, from) <= allowances.len(),
        forall|i: int|
            from <= i < place(allowances, event, from)
                ==> #[trigger] allowances[i].permission.event.0 < event.0,
        place(allowances, event, from) < allowances.len() ==> event.0 <= allowances[place(
            allowances,
            event,
            from,
        ) as int].permission.event.0,
    decreases allowances.len() - from,
{
    if from < allowances.len() && allowances[from as int].permission.event.0 < event.0 {
        lemma_place(allowances, event, from + 1);
    }
}

/// Permissions that ask for one capacity per event combine into allowances.
pub proof fn lemma_merge_exists(permissions: Seq<Permission>)
    requires
        forall|i: int, j: int|
            #![trigger permissions[i], permissions[j]]
            0 <= i < permissions.len() && 0 <= j < permissions.len() && permissions[i].event
                == permissions[j].event ==> permissions[i].limits == permissions[j].limits,
    ensures
        exists|allowances: Seq<EventAllowance>| is_merge(allowances, permissions),
    decreases permissions.len(),
{
    broadcast use Rights::lemma_of_bits;

    if permissions.len() == 0 {
        assert(is_merge(Seq::empty(), permissions));
    } else {
        let earlier = permissions.drop_last();
        let permission = permissions.last();
        assert(permissions[permissions.len() - 1] == permission);
        assert forall|i: int, j: int|
            #![trigger earlier[i], earlier[j]]
            0 <= i < earlier.len() && 0 <= j < earlier.len() && earlier[i].event
                == earlier[j].event implies earlier[i].limits == earlier[j].limits by {
            assert(permissions[i] == earlier[i]);
            assert(permissions[j] == earlier[j]);
        }
        lemma_merge_exists(earlier);
        let before = choose|allowances: Seq<EventAllowance>| is_merge(allowances, earlier);
        assert(permissions =~= earlier.push(permission));
        if covers(before, permission.event) {
            let found = choose|i: int|
                0 <= i < before.len() && #[trigger] before[i].permission.event == permission.event;
            let entry = before[found];
            let joined = EventAllowance {
                permission: Permission {
                    rights: Rights::of_bits(
                        entry.permission.rights.bits() | permission.rights.bits(),
                    ),
                    ..entry.permission
                },
                pool: entry.pool,
            };
            assert forall|j: int|
                0 <= j < earlier.len() && #[trigger] earlier[j].event
                    == permission.event implies earlier[j].limits == permission.limits by {
                assert(permissions[j] == earlier[j]);
            }
            lemma_merge_joined(before, earlier, permission, found, joined);
            assert(is_merge(before.update(found, joined), permissions));
        } else {
            let slot = place(before, permission.event, 0) as int;
            lemma_place(before, permission.event, 0);
            let entry = EventAllowance {
                permission,
                pool: Pool { limits: permission.limits.widened(), used: Limits::none() },
            };
            assert forall|i: int| slot <= i < before.len() implies permission.event.0
                < #[trigger] before[i].permission.event.0 by {
                if slot < i {
                    assert(before[slot].permission.event.0 < before[i].permission.event.0);
                }
                assert(before[slot].permission.event != permission.event);
            }
            lemma_merge_inserted(before, earlier, permission, slot, entry);
            assert(is_merge(before.insert(slot, entry), permissions));
        }
    }
}

} // verus!

//! What deriving a child grant does to the ledger model.
use crate::allowance::{
    allotted, covers, is_merge, lemma_search_unique, ordered, EventAllowance, Pool,
};
use crate::event::EventId;
use crate::grant::{
    mentions, partition_error, reserved, reserves_within, Limits, Permission, Rights, RESOURCES,
};
use crate::ledger::lemma_position;
use crate::ledger_laws::{lemma_charge_wf, lemma_with_pool};
use crate::ledger_model::{
    lemma_tally_member, lemma_tally_zero, merged, on_node, on_pool, remainder, tally, weight,
    LeaseRecord, LedgerView, NodeView, Owner,
};
use vstd::prelude::*;

verus! {

/// Permissions combine into allowances in one way only.
pub proof fn lemma_merge_unique(
    a: Seq<EventAllowance>,
    b: Seq<EventAllowance>,
    permissions: Seq<Permission>,
)
    requires
        is_merge(a, permissions),
        is_merge(b, permissions),
    ensures
        a == b,
{
    lemma_merge_prefix(a, b, permissions, a.len() as int);
    lemma_merge_prefix(b, a, permissions, b.len() as int);
    assert(a =~= b);
}

proof fn lemma_merge_prefix(
    a: Seq<EventAllowance>,
    b: Seq<EventAllowance>,
    permissions: Seq<Permission>,
    n: int,
)
    requires
        is_merge(a, permissions),
        is_merge(b, permissions),
        0 <= n <= a.len(),
    ensures
        n <= b.len(),
        forall|i: int| 0 <= i < n ==> a[i] == b[i],
    decreases n,
{
    if n > 0 {
        let i = n - 1;
        lemma_merge_prefix(a, b, permissions, i);
        let event = a[i].permission.event;
        let p = lemma_merge_covered(a, b, permissions, i);
        if p < i {
            assert(a[p] == b[p]);
            lemma_search_unique(a, p, i);
        }
        let q = lemma_merge_covered(b, a, permissions, i);
        if q < i {
            assert(a[q] == b[q]);
            lemma_search_unique(b, q, i);
        }
        if i < p {
            assert(b[i].permission.event.0 < b[p].permission.event.0);
        }
        if i < q {
            assert(a[i].permission.event.0 < a[q].permission.event.0);
        }
        assert(a[i].permission.event == b[i].permission.event);
        broadcast use Rights::lemma_bits_injective;

        assert(a[i].permission.rights == b[i].permission.rights);
        let j = choose|j: int| 0 <= j < permissions.len() && #[trigger] permissions[j].event == event;
        assert(permissions[j].limits == a[i].permission.limits);
        assert(permissions[j].limits == b[i].permission.limits);
    }
}

/// What one combination has an allowance for, the other has one for.
proof fn lemma_merge_covered(
    a: Seq<EventAllowance>,
    b: Seq<EventAllowance>,
    permissions: Seq<Permission>,
    i: int,
) -> (p: int)
    requires
        is_merge(a, permissions),
        is_merge(b, permissions),
        0 <= i < a.len(),
    ensures
        0 <= p < b.len(),
        b[p].permission.event == a[i].permission.event,
{
    let event = a[i].permission.event;
    assert(mentions(permissions, event));
    let j = choose|j: int| 0 <= j < permissions.len() && #[trigger] permissions[j].event == event;
    assert(covers(b, permissions[j].event));
    choose|p: int| 0 <= p < b.len() && #[trigger] b[p].permission.event == event
}

pub proof fn lemma_merged(allowances: Seq<EventAllowance>, permissions: Seq<Permission>)
    requires
        is_merge(allowances, permissions),
    ensures
        allowances == merged(permissions),
{
    lemma_merge_unique(allowances, merged(permissions), permissions);
}

/// The remainder and the reservations make up the limits.
pub proof fn lemma_remainder(limits: Limits, permissions: Seq<Permission>)
    requires
        reserves_within(permissions, limits),
    ensures
        forall|k: int|
            0 <= k < RESOURCES ==> #[trigger] limits.get(k) == remainder(limits, permissions).get(k)
                + reserved(permissions, k),
{
    assert(reserved(permissions, 2) <= limits.get(2));
    assert(reserved(permissions, 3) <= limits.get(3));
    assert(reserved(permissions, 4) <= limits.get(4));
    assert forall|k: int| 0 <= k < RESOURCES implies #[trigger] limits.get(k) == remainder(
        limits,
        permissions,
    ).get(k) + reserved(permissions, k) by {
        if k < 2 || k > 4 {
            lemma_reserves_only_data(permissions, k);
        }
    }
}

pub proof fn lemma_reserves_only_data(permissions: Seq<Permission>, k: int)
    requires
        0 <= k < RESOURCES,
        k < 2 || k > 4,
    ensures
        reserved(permissions, k) == 0,
    decreases permissions.len(),
{
    if permissions.len() > 0 {
        lemma_reserves_only_data(permissions.drop_last(), k);
    }
}

/// Permissions that can be partitioned stay within the total.
pub proof fn lemma_partition_within(limits: Limits, permissions: Seq<Permission>)
    requires
        partition_error(limits, permissions) is None,
    ensures
        reserves_within(permissions, limits),
{
    if permissions.len() == 0 {
        assert forall|k: int| 0 <= k < RESOURCES implies #[trigger] reserved(permissions, k)
            <= limits.get(k) by {}
    }
}

/// A grant that holds all of `permissions` permits each of them.
pub proof fn lemma_permissions_held(at: NodeView, permissions: Seq<Permission>, j: int)
    requires
        at.permissions_error(permissions) is None,
        0 <= j < permissions.len(),
    ensures
        at.permits(permissions[j].event, permissions[j].rights),
        !at.revoked,
    decreases permissions.len(),
{
    if j < permissions.len() - 1 {
        lemma_permissions_held(at, permissions.drop_last(), j);
    }
}

/// Each event that a grant holds a permission for has a pool in it.
pub proof fn lemma_merged_positions(at: NodeView, permissions: Seq<Permission>, i: int)
    requires
        at.permissions_error(permissions) is None,
        !at.unrestricted,
        ordered(at.allowances),
        is_merge(merged(permissions), permissions),
        0 <= i < merged(permissions).len(),
    ensures
        at.position(merged(permissions)[i].permission.event) is Some,
        at.has_pool(at.position(merged(permissions)[i].permission.event)),
        at.allowances[at.position(
            merged(permissions)[i].permission.event,
        )->0 as int].permission.event == merged(permissions)[i].permission.event,
{
    let event = merged(permissions)[i].permission.event;
    let j = choose|j: int| 0 <= j < permissions.len() && #[trigger] permissions[j].event == event;
    lemma_permissions_held(at, permissions, j);
    let p = choose|p: int|
        0 <= p < at.allowances.len() && #[trigger] at.allowances[p].permission.event == event
            && at.allowances[p].permission.rights.allows(permissions[j].rights);
    lemma_position(at, event, p as nat);
}

/// The facts about charging several event pools, one after the other.
pub open spec fn charged_each(
    v: LedgerView,
    after: LedgerView,
    node: nat,
    allowances: Seq<EventAllowance>,
    owner: Owner,
) -> bool {
    let was = v.nodes[node as int];
    let now = after.nodes[node as int];
    &&& after.wf()
    &&& after.signals == v.signals
    &&& after.nodes.len() == v.nodes.len()
    &&& after.table.len() == v.table.len() + allowances.len()
    &&& forall|t: int| 0 <= t < v.table.len() ==> #[trigger] after.table[t] == v.table[t]
    &&& forall|i: int|
        0 <= i < allowances.len() ==> #[trigger] after.table[v.table.len() + i] == Some(
            LeaseRecord {
                node,
                event: was.position(allowances[i].permission.event),
                usage: allowances[i].permission.limits.widened(),
                owner,
            },
        )
    &&& forall|n: int|
        0 <= n < v.nodes.len() && n != node ==> #[trigger] after.nodes[n] == v.nodes[n]
    &&& now.leases == was.leases + allowances.len()
    &&& now.allowances.len() == was.allowances.len()
    &&& forall|p: int|
        0 <= p < was.allowances.len() ==> (#[trigger] now.allowances[p]).permission
            == was.allowances[p].permission
    &&& forall|p: int|
        0 <= p < was.allowances.len() && (forall|i: int|
            0 <= i < allowances.len() ==> (#[trigger] allowances[i]).permission.event
                != was.allowances[p].permission.event) ==> #[trigger] now.allowances[p]
            == was.allowances[p]
    &&& now == (NodeView { allowances: now.allowances, leases: now.leases, ..was })
}

/// The grant has room for each of `allowances` in the pool of its event.
pub open spec fn room_for_each(at: NodeView, allowances: Seq<EventAllowance>) -> bool {
    &&& at.leases + allowances.len() <= usize::MAX
    &&& forall|i: int|
        #![trigger allowances[i]]
        0 <= i < allowances.len() ==> {
            let position = at.position(allowances[i].permission.event);
            &&& position is Some
            &&& at.has_pool(position)
            &&& at.allowances[position->0 as int].permission.event
                == allowances[i].permission.event
            &&& at.pool_at(position).admits(allowances[i].permission.limits.widened())
        }
}

pub proof fn lemma_charge_each(
    v: LedgerView,
    node: nat,
    allowances: Seq<EventAllowance>,
    owner: Owner,
)
    requires
        v.wf(),
        node < v.nodes.len(),
        ordered(allowances),
        room_for_each(v.nodes[node as int], allowances),
    ensures
        charged_each(v, v.charge_each(node, allowances, owner), node, allowances, owner),
        forall|event: EventId|
            #[trigger] v.charge_each(node, allowances, owner).nodes[node as int].position(event)
                == v.nodes[node as int].position(event),
    decreases allowances.len(),
{
    let was = v.nodes[node as int];
    assert(v.node_sound(node));
    if allowances.len() > 0 {
        let earlier = allowances.drop_last();
        let last = allowances.last();
        assert(last == allowances[allowances.len() - 1]);
        assert(ordered(earlier)) by {
            assert forall|i: int, j: int|
                #![trigger earlier[i], earlier[j]]
                0 <= i < j < earlier.len() implies earlier[i].permission.event.0
                < earlier[j].permission.event.0 by {
                assert(allowances[i].permission.event.0 < allowances[j].permission.event.0);
            }
        }
        assert(room_for_each(was, earlier)) by {
            assert forall|i: int| 0 <= i < earlier.len() implies #[trigger] earlier[i]
                == allowances[i] by {}
        }
        lemma_charge_each(v, node, earlier, owner);
        let middle = v.charge_each(node, earlier, owner);
        let position = was.position(last.permission.event);
        let p = position->0 as int;
        let at = middle.nodes[node as int];
        assert(middle.node_sound(node));
        assert forall|i: int| 0 <= i < earlier.len() implies (
        #[trigger] earlier[i]).permission.event != was.allowances[p].permission.event by {
            assert(allowances[i].permission.event.0 < last.permission.event.0);
        }
        assert(at.allowances[p] == was.allowances[p]);
        assert(middle.has_pool(node, position));
        lemma_charge_wf(middle, node, position, last.permission.limits.widened(), owner);
        let after = middle.charge(node, position, last.permission.limits.widened(), owner);
        assert(after == v.charge_each(node, allowances, owner));
        lemma_with_pool(at, position, at.pool_at(position).charged(last.permission.limits.widened()));
        let now = after.nodes[node as int];
        assert forall|i: int| 0 <= i < allowances.len() implies #[trigger] after.table[v.table.len()
            + i] == Some(
            LeaseRecord {
                node,
                event: was.position(allowances[i].permission.event),
                usage: allowances[i].permission.limits.widened(),
                owner,
            },
        ) by {
            if i < earlier.len() {
                assert(earlier[i] == allowances[i]);
                assert(after.table[v.table.len() + i] == middle.table[v.table.len() + i]);
            }
        }
        assert forall|q: int|
            0 <= q < was.allowances.len() && (forall|i: int|
                0 <= i < allowances.len() ==> (#[trigger] allowances[i]).permission.event
                    != was.allowances[q].permission.event) implies #[trigger] now.allowances[q]
            == was.allowances[q] by {
            assert(allowances[allowances.len() - 1].permission.event
                != was.allowances[q].permission.event);
            assert(q != p);
            assert forall|i: int| 0 <= i < earlier.len() implies (
            #[trigger] earlier[i]).permission.event != was.allowances[q].permission.event by {
                assert(earlier[i] == allowances[i]);
            }
            assert(at.allowances[q] == was.allowances[q]);
        }
        assert(now == (NodeView { allowances: now.allowances, leases: now.leases, ..was }));
        assert forall|event: EventId| #[trigger] now.position(event) == was.position(event) by {
            lemma_same_position(was, now, event);
        }
    }
}

/// Positions depend on the permissions alone.
proof fn lemma_same_position(a: NodeView, b: NodeView, event: EventId)
    requires
        ordered(a.allowances),
        a.allowances.len() == b.allowances.len(),
        forall|p: int|
            0 <= p < a.allowances.len() ==> (#[trigger] b.allowances[p]).permission
                == a.allowances[p].permission,
    ensures
        a.position(event) == b.position(event),
{
    assert(ordered(b.allowances)) by {
        assert forall|i: int, j: int|
            #![trigger b.allowances[i], b.allowances[j]]
            0 <= i < j < b.allowances.len() implies b.allowances[i].permission.event.0
            < b.allowances[j].permission.event.0 by {
            assert(a.allowances[i].permission.event.0 < a.allowances[j].permission.event.0);
        }
    }
    if covers(a.allowances, event) {
        let p = choose|p: int|
            0 <= p < a.allowances.len() && #[trigger] a.allowances[p].permission.event == event;
        assert(b.allowances[p].permission.event == event);
        lemma_position(a, event, p as nat);
        lemma_position(b, event, p as nat);
    }
    if covers(b.allowances, event) {
        let p = choose|p: int|
            0 <= p < b.allowances.len() && #[trigger] b.allowances[p].permission.event == event;
        assert(a.allowances[p].permission.event == event);
    }
}

/// A grant without leases has none in the table.
pub proof fn lemma_no_leases(v: LedgerView, slot: nat)
    requires
        v.sound(),
        slot < v.nodes.len() ==> v.nodes[slot as int].leases == 0,
    ensures
        forall|t: nat| #[trigger] v.outstanding(t) ==> v.record(t).node != slot,
        forall|e: Option<nat>, k: int| #[trigger] tally(v.table, on_pool(slot, e, k)) == 0,
        tally(v.table, on_node(slot)) == 0,
{
    assert forall|t: nat| #[trigger] v.outstanding(t) implies v.record(t).node != slot by {
        assert(v.has_pool(v.record(t).node, v.record(t).event));
        if v.record(t).node == slot {
            assert(v.node_sound(slot));
            lemma_tally_member(v.table, t as int, on_node(slot));
        }
    }
    assert forall|e: Option<nat>, k: int| #[trigger] tally(v.table, on_pool(slot, e, k)) == 0 by {
        assert forall|t: int| 0 <= t < v.table.len() implies weight(
            #[trigger] v.table[t],
            on_pool(slot, e, k),
        ) == 0 by {
            if v.table[t] is Some {
                assert(v.outstanding(t as nat));
            }
        }
        lemma_tally_zero(v.table, on_pool(slot, e, k));
    }
    assert forall|t: int| 0 <= t < v.table.len() implies weight(#[trigger] v.table[t], on_node(slot))
        == 0 by {
        if v.table[t] is Some {
            assert(v.outstanding(t as nat));
        }
    }
    lemma_tally_zero(v.table, on_node(slot));
}

/// A new grant fits into a slot that nothing refers to.
pub proof fn lemma_seat_wf(v: LedgerView, slot: nat, child: NodeView)
    requires
        v.wf(),
        slot <= v.nodes.len(),
        slot < v.nodes.len() ==> v.nodes[slot as int].dead(),
        child.handles > 0,
        child.leases == 0,
        !child.revoked && !child.complete && !child.unrestricted,
        ordered(child.allowances),
        child.pool.used == Limits::none(),
        forall|i: int|
            0 <= i < child.allowances.len() ==> (#[trigger] child.allowances[i]).pool == (Pool {
                limits: child.allowances[i].permission.limits.widened(),
                used: Limits::none(),
            }),
        forall|k: int|
            0 <= k < RESOURCES ==> #[trigger] child.limits.get(k) == child.pool.limits.get(k)
                + allotted(child.allowances, k),
        child.parent is Some,
        child.parent->0 < v.nodes.len(),
        child.parent->0 != slot,
        !v.nodes[child.parent->0 as int].revoked,
        v.nodes[child.parent->0 as int].depth < child.depth,
        child.reservations.len() > 0,
        child.reservations.no_duplicates(),
        forall|i: int|
            0 <= i < child.reservations.len() ==> {
                let ticket = #[trigger] child.reservations[i];
                &&& v.outstanding(ticket)
                &&& v.record(ticket).node == child.parent->0
                &&& v.record(ticket).owner == Owner::Child(slot)
            },
    ensures
        v.seat(slot, child).wf(),
{
    let after = v.seat(slot, child);
    lemma_no_leases(v, slot);
    assert(after.nodes[slot as int] == child);
    assert forall|n: nat| n < v.nodes.len() && n != slot implies after.nodes[n as int]
        == v.nodes[n as int] by {}
    assert forall|t: nat| #[trigger] after.outstanding(t) implies after.has_pool(
        after.record(t).node,
        after.record(t).event,
    ) by {
        assert(v.outstanding(t));
        assert(v.has_pool(v.record(t).node, v.record(t).event));
    }
    assert forall|n: nat, e: Option<nat>| #[trigger] after.has_pool(n, e) implies after.pool_sound(
        n,
        e,
    ) by {
        if n == slot {
            assert(after.pool(n, e).used == Limits::none());
            assert forall|k: int| 0 <= k < RESOURCES implies #[trigger] after.pool(n, e).used.get(k)
                == tally(after.table, on_pool(n, e, k)) by {
                assert(tally(v.table, on_pool(slot, e, k)) == 0);
            }
        } else {
            assert(v.has_pool(n, e));
            assert(v.pool_sound(n, e));
            assert forall|k: int| 0 <= k < RESOURCES implies #[trigger] after.pool(n, e).used.get(k)
                == tally(after.table, on_pool(n, e, k)) by {
                assert(v.pool(n, e).used.get(k) == tally(v.table, on_pool(n, e, k)));
            }
        }
    }
    assert forall|n: nat| n < after.nodes.len() implies #[trigger] after.node_sound(n) by {
        if n != slot {
            assert(v.node_sound(n));
        }
    }
    assert forall|n: nat| n < after.nodes.len() implies #[trigger] after.reservation_sound(n) by {
        let now = after.nodes[n as int];
        if n != slot {
            assert(v.reservation_sound(n));
            if now.parent is Some {
                let parent = now.parent->0;
                let first = now.reservations[0];
                assert(v.outstanding(first));
                assert(v.record(first).node == parent);
                assert(parent != slot);
                assert forall|i: int| 0 <= i < now.reservations.len() implies {
                    let held = #[trigger] now.reservations[i];
                    &&& after.outstanding(held)
                    &&& after.record(held).node == now.parent->0
                    &&& after.record(held).owner == Owner::Child(n)
                } by {
                    assert(v.outstanding(v.nodes[n as int].reservations[i]));
                }
            }
        } else {
            assert forall|i: int| 0 <= i < now.reservations.len() implies {
                let held = #[trigger] now.reservations[i];
                &&& after.outstanding(held)
                &&& after.record(held).node == now.parent->0
                &&& after.record(held).owner == Owner::Child(n)
            } by {
                assert(v.outstanding(child.reservations[i]));
            }
        }
    }
    assert forall|n: nat| n < after.nodes.len() implies !#[trigger] after.must_reap(n) by {
        if n != slot {
            assert(!v.must_reap(n));
            assert(v.reservation_sound(n));
            if v.nodes[n as int].dead() && v.nodes[n as int].parent is Some {
                let first = v.nodes[n as int].reservations[0];
                assert(v.outstanding(first));
            }
        }
    }
}

pub proof fn lemma_free_slot(v: LedgerView, from: nat)
    requires
        from <= v.nodes.len(),
    ensures
        from <= v.free_slot(from) <= v.nodes.len(),
        v.free_slot(from) < v.nodes.len() ==> v.nodes[v.free_slot(from) as int].dead(),
    decreases v.nodes.len() - from,
{
    if from < v.nodes.len() && !v.nodes[from as int].dead() {
        lemma_free_slot(v, from + 1);
    }
}

/// Permissions that can be partitioned and their allowances have the same totals.
pub open spec fn splits(limits: Limits, permissions: Seq<Permission>) -> bool {
    &&& is_merge(merged(permissions), permissions)
    &&& forall|k: int|
        0 <= k < RESOURCES ==> #[trigger] limits.get(k) == remainder(limits, permissions).get(k)
            + allotted(merged(permissions), k)
}

/// Charging the generic pool leaves room in the event pools.
pub proof fn lemma_generic_charge(
    v: LedgerView,
    node: nat,
    slot: nat,
    permissions: Seq<Permission>,
    limits: Limits,
)
    requires
        v.wf(),
        node < v.nodes.len(),
        v.restrict_error(node, permissions, limits) is None,
        splits(limits, permissions),
    ensures
        ({
            let at = v.nodes[node as int];
            let generic = v.charge(
                node,
                None,
                at.reservation(permissions, limits),
                Owner::Child(slot),
            );
            let charges = at.event_charges(permissions);
            &&& generic.wf()
            &&& ordered(charges)
            &&& room_for_each(generic.nodes[node as int], charges)
        }),
{
    let at = v.nodes[node as int];
    let reservation = at.reservation(permissions, limits);
    let charges = at.event_charges(permissions);
    assert(v.node_sound(node));
    lemma_charge_wf(v, node, None, reservation, Owner::Child(slot));
    let generic = v.charge(node, None, reservation, Owner::Child(slot));
    let now = generic.nodes[node as int];
    assert(now.allowances == at.allowances);
    assert forall|i: int|
        #![trigger charges[i]]
        0 <= i < charges.len() implies {
        let position = now.position(charges[i].permission.event);
        &&& position is Some
        &&& now.has_pool(position)
        &&& now.allowances[position->0 as int].permission.event == charges[i].permission.event
        &&& now.pool_at(position).admits(charges[i].permission.limits.widened())
    } by {
        lemma_merged_positions(at, permissions, i);
        assert(now.position(charges[i].permission.event) == at.position(
            charges[i].permission.event,
        ));
        assert(at.pool_at(at.position(charges[i].permission.event)).admits(
            charges[i].permission.limits.widened(),
        ));
    }
}

/// Deriving a child keeps the ledger in order.
pub proof fn lemma_restrict_wf(
    v: LedgerView,
    node: nat,
    permissions: Seq<Permission>,
    limits: Limits,
)
    requires
        v.wf(),
        node < v.nodes.len(),
        v.nodes[node as int].handles > 0,
        v.restrict_error(node, permissions, limits) is None,
        splits(limits, permissions),
    ensures
        v.restrict(node, permissions, limits).wf(),
{
    let at = v.nodes[node as int];
    let slot = v.free_slot(0);
    let reservation = at.reservation(permissions, limits);
    let charges = at.event_charges(permissions);
    lemma_free_slot(v, 0);
    lemma_generic_charge(v, node, slot, permissions, limits);
    let generic = v.charge(node, None, reservation, Owner::Child(slot));
    lemma_charge_each(generic, node, charges, Owner::Child(slot));
    let ready = v.reserve(node, slot, permissions, limits);
    assert(ready == generic.charge_each(node, charges, Owner::Child(slot)));
    let after = v.restrict(node, permissions, limits);
    let child = after.nodes[slot as int];
    assert(after == ready.seat(slot, child));
    assert forall|i: int| 0 <= i < child.reservations.len() implies {
        let ticket = #[trigger] child.reservations[i];
        &&& ready.outstanding(ticket)
        &&& ready.record(ticket).node == node
        &&& ready.record(ticket).owner == Owner::Child(slot)
    } by {
        let first = v.table.len() as int;
        if i == 0 {
            assert(ready.table[first] == generic.table[first]);
        } else {
            assert(ready.table[generic.table.len() + (i - 1)] is Some);
            assert(generic.table.len() + (i - 1) == first + i);
        }
    }
    assert(child.reservations.no_duplicates()) by {
        assert forall|i: int, j: int|
            0 <= i < child.reservations.len() && 0 <= j < child.reservations.len() && i
                != j implies child.reservations[i] != child.reservations[j] by {}
    }
    lemma_seat_wf(ready, slot, child);
}

/// Permissions that pass [`partition_error`] split the limits.
pub proof fn lemma_splits(limits: Limits, permissions: Seq<Permission>, allowances: Seq<EventAllowance>)
    requires
        partition_error(limits, permissions) is None,
        is_merge(allowances, permissions),
        forall|k: int| #[trigger] allotted(allowances, k) == reserved(permissions, k),
    ensures
        splits(limits, permissions),
        allowances == merged(permissions),
{
    lemma_merged(allowances, permissions);
    lemma_partition_within(limits, permissions);
    lemma_remainder(limits, permissions);
    assert forall|k: int| 0 <= k < RESOURCES implies #[trigger] limits.get(k) == remainder(
        limits,
        permissions,
    ).get(k) + allotted(merged(permissions), k) by {
        assert(allotted(allowances, k) == reserved(permissions, k));
    }
}

/// `after` has a new grant in slot `slot`, and else differs from `before` only in what
/// is charged for it.
pub open spec fn extends(before: LedgerView, after: LedgerView, slot: nat) -> bool {
    &&& before.nodes.len() <= after.nodes.len()
    &&& before.table.len() <= after.table.len()
    &&& forall|t: int| 0 <= t < before.table.len() ==> #[trigger] after.table[t] == before.table[t]
    &&& forall|t: int|
        before.table.len() <= t < after.table.len() ==> (#[trigger] after.table[t]) is Some
            && after.table[t]->0.owner == Owner::Child(slot)
    &&& forall|n: int|
        0 <= n < before.nodes.len() && n != slot ==> (#[trigger] after.nodes[n]).handles
            == before.nodes[n].handles && after.nodes[n].revoked == before.nodes[n].revoked
    &&& slot < before.nodes.len() ==> before.nodes[slot as int].dead()
}

/// Deriving a child adds its grant and its reservation, and nothing else.
pub proof fn lemma_restrict_extends(
    v: LedgerView,
    node: nat,
    permissions: Seq<Permission>,
    limits: Limits,
)
    requires
        v.wf(),
        node < v.nodes.len(),
        v.nodes[node as int].handles > 0,
        v.restrict_error(node, permissions, limits) is None,
        splits(limits, permissions),
    ensures
        extends(v, v.restrict(node, permissions, limits), v.free_slot(0)),
{
    let at = v.nodes[node as int];
    let slot = v.free_slot(0);
    let owner = Owner::Child(slot);
    let reservation = at.reservation(permissions, limits);
    let charges = at.event_charges(permissions);
    lemma_free_slot(v, 0);
    lemma_generic_charge(v, node, slot, permissions, limits);
    let generic = v.charge(node, None, reservation, owner);
    lemma_charge_each(generic, node, charges, owner);
    let after = v.restrict(node, permissions, limits);
    let first = v.table.len() as int;
    assert forall|t: int| 0 <= t < v.table.len() implies #[trigger] after.table[t] == v.table[t] by {
        assert(after.table[t] == generic.table[t]);
    }
    assert forall|t: int| first <= t < after.table.len() implies (#[trigger] after.table[t]) is Some
        && after.table[t]->0.owner == owner by {
        if t == first {
            assert(after.table[t] == generic.table[t]);
        } else {
            assert(after.table[generic.table.len() + (t - first - 1)] is Some);
        }
    }
}

} // verus!

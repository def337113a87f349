//! Laws of grants: attenuation, conservation and revocation.
use crate::allowance::{
    allotted, is_merge, joint_rights, lemma_arithmetic, ordered, spent, EventAllowance,
};
use crate::derive_laws::{
    lemma_charge_each, lemma_free_slot, lemma_generic_charge, lemma_permissions_held,
    lemma_restrict_wf, room_for_each, splits,
};
use crate::error::TopicError;
use crate::event::EventId;
use crate::grant::{lemma_allows_transitive, Limits, Permission, Rights, RESOURCES};
use crate::ledger::{lemma_used_within, Revocation};
use crate::ledger_laws::{
    kept_node, lemma_charge_wf, lemma_orphan_sound, lemma_outstanding, lemma_reap_wf,
    lemma_release_all_sound, lemma_release_kept, lemma_release_sound, lemma_with_pool, unreserved,
};
use crate::ledger_model::{
    lemma_tally_zero, merged, on_node, on_pool, remainder, tally, LeaseRecord, LedgerView,
    NodeView, Owner,
};
use vstd::prelude::*;

verus! {

/// Conservation: what a pool has in use is the sum of what is outstanding of it.
pub proof fn law_conservation(v: LedgerView, node: nat, event: Option<nat>, k: int)
    requires
        v.wf(),
        v.has_pool(node, event),
        0 <= k < RESOURCES,
    ensures
        v.pool(node, event).used.get(k) == tally(v.table, on_pool(node, event, k)),
        v.pool(node, event).used.get(k) <= v.pool(node, event).limits.get(k),
{
    assert(v.pool_sound(node, event));
    assert(v.pool(node, event).used.get(k) <= v.pool(node, event).limits.get(k));
}

/// What a lease takes of resource `k` from one grant, of whichever pool.
pub open spec fn on_grant(node: nat, k: int) -> spec_fn(LeaseRecord) -> nat {
    |record: LeaseRecord|
        if record.node == node {
            record.usage.get(k)
        } else {
            0
        }
}

/// What a lease takes of resource `k` from one grant, of the pool that belongs to no event
/// and those of the first `upto` events.
spec fn on_pools(node: nat, upto: int, k: int) -> spec_fn(LeaseRecord) -> nat {
    |record: LeaseRecord|
        if record.node == node && (record.event matches Some(event) ==> event < upto) {
            record.usage.get(k)
        } else {
            0
        }
}

proof fn lemma_tally_sum(
    table: Seq<Option<LeaseRecord>>,
    first: spec_fn(LeaseRecord) -> nat,
    second: spec_fn(LeaseRecord) -> nat,
    both: spec_fn(LeaseRecord) -> nat,
)
    requires
        forall|t: int|
            0 <= t < table.len() && (#[trigger] table[t]) is Some ==> both(table[t]->0) == first(
                table[t]->0,
            ) + second(table[t]->0),
    ensures
        tally(table, both) == tally(table, first) + tally(table, second),
    decreases table.len(),
{
    if table.len() > 0 {
        let rest = table.drop_last();
        assert forall|t: int| 0 <= t < rest.len() && (#[trigger] rest[t]) is Some implies both(
            rest[t]->0,
        ) == first(rest[t]->0) + second(rest[t]->0) by {
            assert(table[t] == rest[t]);
        }
        lemma_tally_sum(rest, first, second, both);
        assert(table[table.len() - 1] == table.last());
    }
}

proof fn lemma_on_pools(v: LedgerView, node: nat, upto: int, k: int)
    requires
        v.wf(),
        node < v.nodes.len(),
        0 <= upto <= v.nodes[node as int].allowances.len(),
        0 <= k < RESOURCES,
    ensures
        tally(v.table, on_pools(node, upto, k)) == v.nodes[node as int].pool.used.get(k) + spent(
            v.nodes[node as int].allowances.take(upto),
            k,
        ),
    decreases upto,
{
    let at = v.nodes[node as int];
    if upto == 0 {
        assert(v.has_pool(node, None));
        law_conservation(v, node, None, k);
        lemma_tally_sum(
            v.table,
            on_pool(node, None, k),
            |record: LeaseRecord| 0nat,
            on_pools(node, 0, k),
        );
        lemma_tally_zero(v.table, |record: LeaseRecord| 0nat);
        assert(at.allowances.take(0) =~= Seq::empty());
    } else {
        let event = Some((upto - 1) as nat);
        lemma_on_pools(v, node, upto - 1, k);
        assert(v.has_pool(node, event));
        law_conservation(v, node, event, k);
        lemma_tally_sum(
            v.table,
            on_pools(node, upto - 1, k),
            on_pool(node, event, k),
            on_pools(node, upto, k),
        );
        assert(at.allowances.take(upto).drop_last() =~= at.allowances.take(upto - 1));
    }
}

/// What a grant has in use over all its pools is the sum of what is outstanding of it.
pub proof fn law_usage_is_outstanding(v: LedgerView, node: nat, k: int)
    requires
        v.wf(),
        node < v.nodes.len(),
        0 <= k < RESOURCES,
    ensures
        v.nodes[node as int].used(k) == tally(v.table, on_grant(node, k)),
{
    let at = v.nodes[node as int];
    let upto = at.allowances.len() as int;
    lemma_on_pools(v, node, upto, k);
    assert(at.allowances.take(upto) =~= at.allowances);
    assert forall|t: int| 0 <= t < v.table.len() && (#[trigger] v.table[t]) is Some implies on_grant(
        node,
        k,
    )(v.table[t]->0) == on_pools(node, upto, k)(v.table[t]->0) + 0nat by {
        assert(v.outstanding(t as nat));
        assert(v.has_pool(v.record(t as nat).node, v.record(t as nat).event));
    }
    lemma_tally_sum(
        v.table,
        on_pools(node, upto, k),
        |record: LeaseRecord| 0nat,
        on_grant(node, k),
    );
    lemma_tally_zero(v.table, |record: LeaseRecord| 0nat);
}

/// No grant ever has more in use, over all its pools, than its allowance.
pub proof fn law_usage_within_limits(v: LedgerView, node: nat, k: int)
    requires
        v.wf(),
        node < v.nodes.len(),
        0 <= k < RESOURCES,
    ensures
        v.nodes[node as int].used(k) <= v.nodes[node as int].limits.get(k),
{
    lemma_used_within(v, node, k);
}

/// A refused charge and a refused child retain nothing: every account is as it was, and no
/// wakeup that was owed is lost. A charge of a single resource signals nothing either.
pub proof fn law_refusals_retain_nothing(
    v: LedgerView,
    node: nat,
    event: Option<nat>,
    usage: Limits,
    permissions: Seq<Permission>,
    limits: Limits,
)
    ensures
        v.refuse(node, event, usage).nodes == v.nodes,
        v.refuse(node, event, usage).table == v.table,
        v.signals.is_prefix_of(v.refuse(node, event, usage).signals),
        v.refuse_restrict(node, permissions, limits).nodes == v.nodes,
        v.refuse_restrict(node, permissions, limits).table == v.table,
        v.signals.is_prefix_of(v.refuse_restrict(node, permissions, limits).signals),
        v.wf() && v.has_pool(node, event) && (forall|j: int, k: int|
            0 <= j < RESOURCES && 0 <= k < RESOURCES && #[trigger] usage.get(j) > 0
                && #[trigger] usage.get(k) > 0 ==> j == k) ==> v.refuse(node, event, usage) == v,
{
    if v.wf() && v.has_pool(node, event) && (forall|j: int, k: int|
        0 <= j < RESOURCES && 0 <= k < RESOURCES && #[trigger] usage.get(j) > 0
            && #[trigger] usage.get(k) > 0 ==> j == k) {
        let pool = v.pool(node, event);
        assert(v.pool_sound(node, event));
        if pool.tentative(usage) {
            let j = choose|j: int|
                0 <= j < RESOURCES && #[trigger] usage.get(j) > 0 && forall|k: int|
                    0 <= k <= j ==> #[trigger] pool.room(usage, k);
            assert(pool.room(usage, j));
            assert forall|k: int| 0 <= k < RESOURCES implies #[trigger] pool.used.get(k)
                + usage.get(k) <= pool.limits.get(k) by {
                assert(pool.used.get(k) <= pool.limits.get(k));
                assert(usage.get(j) > 0);
                if usage.get(k) > 0 {
                    assert(j == k);
                }
            }
            assert(pool.admits(usage));
        }
        assert(v.refuse(node, event, usage).signals =~= v.signals);
    }
}

/// Releasing what was just charged restores every grant.
pub proof fn law_charge_release(
    v: LedgerView,
    node: nat,
    event: Option<nat>,
    usage: Limits,
    owner: Owner,
)
    requires
        v.wf(),
        v.has_pool(node, event),
        v.charge_error(node, event, usage) is None,
    ensures
        v.charge(node, event, usage, owner).release(v.table.len()).nodes == v.nodes,
        v.charge(node, event, usage, owner).release(v.table.len()).table == v.table.push(None),
{
    let at = v.nodes[node as int];
    let charged = v.charge(node, event, usage, owner);
    assert(v.node_sound(node));
    lemma_charge_wf(v, node, event, usage, owner);
    lemma_arithmetic(at.pool_at(event).used, usage, at.pool_at(event).limits);
    lemma_with_pool(at, event, at.pool_at(event).charged(usage));
    let now = charged.nodes[node as int];
    assert(now.pool_at(event) == at.pool_at(event).charged(usage));
    let after = charged.release(v.table.len());
    assert(charged.outstanding(v.table.len()));
    assert(after.nodes[node as int].allowances =~= at.allowances);
    assert(after.nodes =~= v.nodes);
    assert(after.table =~= v.table.push(None));
}

/// Attenuation: a child permits nothing that its parent does not permit.
pub proof fn law_attenuation(
    v: LedgerView,
    node: nat,
    permissions: Seq<Permission>,
    limits: Limits,
    event: EventId,
    right: Rights,
)
    requires
        v.wf(),
        node < v.nodes.len(),
        v.restrict_error(node, permissions, limits) is None,
        is_merge(merged(permissions), permissions),
        v.restrict(node, permissions, limits).nodes[v.free_slot(0) as int].permits(event, right),
    ensures
        v.nodes[node as int].permits(event, right),
{
    let at = v.nodes[node as int];
    lemma_free_slot(v, 0);
    let slot = v.free_slot(0);
    let after = v.restrict(node, permissions, limits);
    let ready = v.reserve(node, slot, permissions, limits);
    lemma_reserve_len(v, node, slot, permissions, limits);
    let child = after.nodes[slot as int];
    assert(child.allowances == merged(permissions));
    let i = choose|i: int|
        0 <= i < child.allowances.len() && #[trigger] child.allowances[i].permission.event == event
            && child.allowances[i].permission.rights.allows(right);
    let entry = merged(permissions)[i];
    if !at.unrestricted {
        let j = choose|j: int| 0 <= j < permissions.len() && #[trigger] permissions[j].event == event;
        lemma_permissions_held(at, permissions, j);
        let p = choose|p: int|
            0 <= p < at.allowances.len() && #[trigger] at.allowances[p].permission.event == event
                && at.allowances[p].permission.rights.allows(permissions[j].rights);
        assert(v.node_sound(node));
        assert forall|q: int|
            0 <= q < permissions.len() && #[trigger] permissions[q].event
                == event implies at.allowances[p].permission.rights.allows(
            permissions[q].rights,
        ) by {
            lemma_permissions_held(at, permissions, q);
            let r = choose|r: int|
                0 <= r < at.allowances.len() && #[trigger] at.allowances[r].permission.event
                    == event && at.allowances[r].permission.rights.allows(permissions[q].rights);
            crate::allowance::lemma_search_unique(at.allowances, p, r);
        }
        lemma_joint_rights_held(at.allowances[p].permission.rights, permissions, event);
        lemma_allows_transitive(
            at.allowances[p].permission.rights,
            entry.permission.rights,
            right,
        );
    }
}

proof fn lemma_joint_rights_held(holder: Rights, permissions: Seq<Permission>, event: EventId)
    requires
        forall|q: int|
            0 <= q < permissions.len() && #[trigger] permissions[q].event == event
                ==> holder.allows(permissions[q].rights),
    ensures
        holder.bits() & joint_rights(permissions, event) == joint_rights(permissions, event),
    decreases permissions.len(),
{
    let h = holder.bits();
    if permissions.len() == 0 {
        assert(h & 0u8 == 0u8) by (bit_vector);
    } else {
        let earlier = permissions.drop_last();
        assert forall|q: int|
            0 <= q < earlier.len() && #[trigger] earlier[q].event == event implies holder.allows(
            earlier[q].rights,
        ) by {
            assert(permissions[q] == earlier[q]);
        }
        lemma_joint_rights_held(holder, earlier, event);
        let last = permissions[permissions.len() - 1];
        if last.event == event {
            let a = joint_rights(earlier, event);
            let b = last.rights.bits();
            assert(h & b == b);
            assert((h & a == a && h & b == b) ==> h & (a | b) == (a | b)) by (bit_vector);
        }
    }
}

pub proof fn lemma_reserve_len(
    v: LedgerView,
    node: nat,
    slot: nat,
    permissions: Seq<Permission>,
    limits: Limits,
)
    requires
        node < v.nodes.len(),
    ensures
        v.reserve(node, slot, permissions, limits).nodes.len() == v.nodes.len(),
{
    let at = v.nodes[node as int];
    let generic = v.charge(node, None, at.reservation(permissions, limits), Owner::Child(slot));
    lemma_charge_each_len(generic, node, at.event_charges(permissions), Owner::Child(slot));
}

proof fn lemma_charge_each_len(
    v: LedgerView,
    node: nat,
    allowances: Seq<EventAllowance>,
    owner: Owner,
)
    requires
        node < v.nodes.len(),
    ensures
        v.charge_each(node, allowances, owner).nodes.len() == v.nodes.len(),
    decreases allowances.len(),
{
    if allowances.len() > 0 {
        lemma_charge_each_len(v, node, allowances.drop_last(), owner);
    }
}

proof fn lemma_spent_update(allowances: Seq<EventAllowance>, p: int, entry: EventAllowance, k: int)
    requires
        0 <= p < allowances.len(),
    ensures
        spent(allowances.update(p, entry), k) + allowances[p].pool.used.get(k) == spent(
            allowances,
            k,
        ) + entry.pool.used.get(k),
    decreases allowances.len(),
{
    let after = allowances.update(p, entry);
    if p == allowances.len() - 1 {
        assert(after.drop_last() =~= allowances.drop_last());
    } else {
        lemma_spent_update(allowances.drop_last(), p, entry, k);
        assert(after.drop_last() =~= allowances.drop_last().update(p, entry));
    }
}

/// A charge adds exactly what is charged to what its grant has in use.
pub proof fn law_charge_adds(
    v: LedgerView,
    node: nat,
    event: Option<nat>,
    usage: Limits,
    owner: Owner,
    k: int,
)
    requires
        v.wf(),
        v.has_pool(node, event),
        v.charge_error(node, event, usage) is None,
        0 <= k < RESOURCES,
    ensures
        v.charge(node, event, usage, owner).nodes[node as int].used(k) == v.nodes[node as int].used(
            k,
        ) + usage.get(k),
{
    let at = v.nodes[node as int];
    let pool = at.pool_at(event);
    lemma_arithmetic(pool.used, usage, pool.limits);
    assert(pool.used.plus(usage).get(k) == pool.used.get(k) + usage.get(k));
    if event is Some {
        let p = event->0 as int;
        let entry = EventAllowance { pool: pool.charged(usage), ..at.allowances[p] };
        lemma_spent_update(at.allowances, p, entry, k);
    }
}

proof fn lemma_charge_each_used(
    v: LedgerView,
    node: nat,
    allowances: Seq<EventAllowance>,
    owner: Owner,
    k: int,
)
    requires
        v.wf(),
        node < v.nodes.len(),
        ordered(allowances),
        !v.nodes[node as int].revoked,
        room_for_each(v.nodes[node as int], allowances),
        forall|i: int|
            0 <= i < allowances.len() ==> (#[trigger] allowances[i]).pool.limits
                == allowances[i].permission.limits.widened(),
        0 <= k < RESOURCES,
    ensures
        v.charge_each(node, allowances, owner).nodes[node as int].used(k)
            == v.nodes[node as int].used(k) + allotted(allowances, k),
    decreases allowances.len(),
{
    let was = v.nodes[node as int];
    if allowances.len() > 0 {
        let earlier = allowances.drop_last();
        let last = allowances[allowances.len() - 1];
        assert(ordered(earlier)) by {
            assert forall|i: int, j: int|
                #![trigger earlier[i], earlier[j]]
                0 <= i < j < earlier.len() implies earlier[i].permission.event.0
                < earlier[j].permission.event.0 by {
                assert(allowances[i].permission.event.0 < allowances[j].permission.event.0);
            }
        }
        assert forall|i: int| 0 <= i < earlier.len() implies #[trigger] earlier[i]
            == allowances[i] by {}
        assert(room_for_each(was, earlier));
        lemma_charge_each_used(v, node, earlier, owner, k);
        lemma_charge_each(v, node, earlier, owner);
        let middle = v.charge_each(node, earlier, owner);
        let position = was.position(last.permission.event);
        assert forall|i: int| 0 <= i < earlier.len() implies (
        #[trigger] earlier[i]).permission.event != last.permission.event by {
            assert(allowances[i].permission.event.0 < last.permission.event.0);
        }
        assert(middle.nodes[node as int].allowances[position->0 as int]
            == was.allowances[position->0 as int]);
        law_charge_adds(middle, node, position, last.permission.limits.widened(), owner, k);
    }
}

/// The parent's charge includes all of the child's allowance and one grant.
pub proof fn law_restrict_charges_parent(
    v: LedgerView,
    node: nat,
    permissions: Seq<Permission>,
    limits: Limits,
    k: int,
)
    requires
        v.wf(),
        node < v.nodes.len(),
        v.nodes[node as int].handles > 0,
        v.restrict_error(node, permissions, limits) is None,
        splits(limits, permissions),
        0 <= k < RESOURCES,
    ensures
        v.restrict(node, permissions, limits).nodes[node as int].used(k)
            == v.nodes[node as int].used(k) + limits.get(k) + if k == 1 {
            1nat
        } else {
            0nat
        },
{
    let at = v.nodes[node as int];
    let slot = v.free_slot(0);
    let owner = Owner::Child(slot);
    let reservation = at.reservation(permissions, limits);
    let charges = at.event_charges(permissions);
    lemma_free_slot(v, 0);
    lemma_generic_charge(v, node, slot, permissions, limits);
    law_charge_adds(v, node, None, reservation, owner, k);
    let generic = v.charge(node, None, reservation, owner);
    assert forall|i: int| 0 <= i < charges.len() implies (#[trigger] charges[i]).pool.limits
        == charges[i].permission.limits.widened() by {}
    lemma_charge_each(generic, node, charges, owner);
    lemma_charge_each_used(generic, node, charges, owner, k);
    assert(limits.get(k) == remainder(limits, permissions).get(k) + allotted(
        merged(permissions),
        k,
    ));
    assert(limits.get(1) <= isize::MAX);
    assert(slot != node);
}

/// A table with nothing more outstanding weighs no more.
proof fn lemma_tally_padded(
    before: Seq<Option<LeaseRecord>>,
    after: Seq<Option<LeaseRecord>>,
    weigh: spec_fn(LeaseRecord) -> nat,
)
    requires
        before.len() <= after.len(),
        forall|t: int| 0 <= t < before.len() ==> #[trigger] after[t] == before[t],
        forall|t: int| before.len() <= t < after.len() ==> #[trigger] after[t] is None,
    ensures
        tally(after, weigh) == tally(before, weigh),
    decreases after.len(),
{
    if after.len() == before.len() {
        assert(after =~= before);
    } else {
        assert(after[after.len() - 1] is None);
        lemma_tally_padded(before, after.drop_last(), weigh);
    }
}

/// Releasing several leases leaves exactly the others outstanding.
proof fn lemma_release_all_table(v: LedgerView, tickets: Seq<nat>, parent: nat)
    requires
        v.sound(),
        tickets.no_duplicates(),
        parent < v.nodes.len(),
        forall|i: int|
            0 <= i < tickets.len() ==> {
                let ticket = #[trigger] tickets[i];
                &&& v.outstanding(ticket)
                &&& v.record(ticket).node == parent
                &&& v.record(ticket).owner is Child
                &&& unreserved(v, ticket)
            },
    ensures
        v.release_all(tickets).table.len() == v.table.len(),
        forall|t: int|
            0 <= t < v.table.len() ==> #[trigger] v.release_all(tickets).table[t]
                == if tickets.contains(t as nat) {
                None
            } else {
                v.table[t]
            },
    decreases tickets.len(),
{
    if tickets.len() > 0 {
        let ticket = tickets.last();
        let next = v.release(ticket);
        let rest = tickets.drop_last();
        assert(ticket == tickets[tickets.len() - 1]);
        lemma_release_sound(v, ticket);
        lemma_release_kept(v, ticket);
        lemma_outstanding(v, ticket);
        assert forall|i: int| 0 <= i < rest.len() implies {
            let other = #[trigger] rest[i];
            &&& next.outstanding(other)
            &&& next.record(other).node == parent
            &&& next.record(other).owner is Child
            &&& unreserved(next, other)
        } by {
            let other = rest[i];
            assert(other == tickets[i]);
            assert(v.outstanding(other));
            assert(next.outstanding(other));
            assert forall|n: int|
                0 <= n < next.nodes.len() implies !#[trigger] next.nodes[n].reservations.contains(
                other,
            ) by {
                assert(next.nodes[n].reservations == v.nodes[n].reservations);
                assert(!v.nodes[n].reservations.contains(other));
            }
        }
        lemma_release_all_table(next, rest, parent);
        assert forall|t: int| 0 <= t < v.table.len() implies #[trigger] v.release_all(
            tickets,
        ).table[t] == if tickets.contains(t as nat) {
            None
        } else {
            v.table[t]
        } by {
            assert(next.release_all(rest).table[t] == if rest.contains(t as nat) {
                None
            } else {
                next.table[t]
            });
            if rest.contains(t as nat) {
                let i = choose|i: int| 0 <= i < rest.len() && rest[i] == t as nat;
                assert(tickets[i] == t as nat);
            }
            if tickets.contains(t as nat) && t as nat != ticket {
                let i = choose|i: int| 0 <= i < tickets.len() && tickets[i] == t as nat;
                assert(rest[i] == t as nat);
            }
        }
    } else {
        assert(forall|t: nat| !#[trigger] tickets.contains(t));
    }
}

/// Equal allowances in every resource are equal.
proof fn lemma_limits_equal(a: Limits, b: Limits)
    requires
        forall|k: int| 0 <= k < RESOURCES ==> #[trigger] a.get(k) == b.get(k),
    ensures
        a == b,
{
    assert(a.get(0) == b.get(0));
    assert(a.get(1) == b.get(1));
    assert(a.get(2) == b.get(2));
    assert(a.get(3) == b.get(3));
    assert(a.get(4) == b.get(4));
    assert(a.get(5) == b.get(5));
    assert(a.get(6) == b.get(6));
}

/// Deriving a child and giving up its only handle returns every reservation: all
/// other grants have in use exactly what they had before.
pub proof fn law_restrict_drop(
    v: LedgerView,
    node: nat,
    permissions: Seq<Permission>,
    limits: Limits,
    other: nat,
)
    requires
        v.wf(),
        node < v.nodes.len(),
        v.nodes[node as int].handles > 0,
        v.restrict_error(node, permissions, limits) is None,
        splits(limits, permissions),
        other < v.nodes.len(),
        other != v.free_slot(0),
    ensures
        ({
            let slot = v.free_slot(0);
            let after = v.restrict(node, permissions, limits).with_handles(slot, -1).reap(slot);
            let now = after.nodes[other as int];
            let was = v.nodes[other as int];
            &&& now.pool == was.pool
            &&& now.allowances == was.allowances
            &&& now.leases == was.leases
        }),
{
    let at = v.nodes[node as int];
    let slot = v.free_slot(0);
    let owner = Owner::Child(slot);
    let reservation = at.reservation(permissions, limits);
    let charges = at.event_charges(permissions);
    lemma_free_slot(v, 0);
    lemma_generic_charge(v, node, slot, permissions, limits);
    lemma_restrict_wf(v, node, permissions, limits);
    let generic = v.charge(node, None, reservation, owner);
    lemma_charge_each(generic, node, charges, owner);
    let derived = v.restrict(node, permissions, limits);
    let child = derived.nodes[slot as int];
    let free = derived.with_handles(slot, -1);
    assert(slot != node);
    crate::ledger_laws::lemma_node_change(derived, free);
    assert(free.must_reap(slot));
    let alone = free.orphan(slot);
    lemma_orphan_sound(free, slot);
    assert(free.reservation_sound(slot));
    assert forall|i: int| 0 <= i < child.reservations.len() implies {
        let ticket = #[trigger] child.reservations[i];
        &&& alone.outstanding(ticket)
        &&& alone.record(ticket).node == node
        &&& alone.record(ticket).owner is Child
        &&& unreserved(alone, ticket)
    } by {
        assert(free.outstanding(free.nodes[slot as int].reservations[i]));
    }
    let back = alone.release_all(child.reservations);
    lemma_release_all_sound(alone, child.reservations, node);
    lemma_release_all_table(alone, child.reservations, node);
    crate::ledger_model::lemma_release_all_keeps(alone, child.reservations);
    assert(back.nodes[node as int].handles == alone.nodes[node as int].handles);
    assert(!back.must_reap(node));
    assert(free.reap(slot) == back) by {
        reveal_with_fuel(LedgerView::reap, 2);
    }
    assert forall|t: int| 0 <= t < v.table.len() implies #[trigger] back.table[t] == v.table[t] by {
        assert(!child.reservations.contains(t as nat)) by {
            assert forall|i: int| 0 <= i < child.reservations.len() implies child.reservations[i]
                != t as nat by {}
        }
        assert(alone.table[t] == generic.table[t]);
    }
    assert forall|t: int| v.table.len() <= t < back.table.len() implies #[trigger] back.table[t] is None by {
        let i = t - v.table.len();
        assert(child.reservations[i] == t as nat);
        assert(child.reservations.contains(t as nat));
    }
    let now = back.nodes[other as int];
    let was = v.nodes[other as int];
    assert(kept_node(alone, back, other));
    assert(derived.nodes[other as int].pool.limits == was.pool.limits);
    lemma_same_pool(v, back, other, None);
    assert(back.node_sound(other));
    assert(v.node_sound(other));
    lemma_tally_padded(v.table, back.table, on_node(other));
    assert(now.allowances.len() == was.allowances.len());
    assert forall|i: int| 0 <= i < was.allowances.len() implies now.allowances[i]
        == was.allowances[i] by {
        assert(now.allowances[i].permission == alone.nodes[other as int].allowances[i].permission);
        assert(derived.nodes[other as int].allowances[i].permission
            == was.allowances[i].permission);
        assert(now.allowances[i].pool.limits == now.allowances[i].permission.limits.widened());
        assert(was.allowances[i].pool.limits == was.allowances[i].permission.limits.widened());
        assert(v.has_pool(other, Some(i as nat)));
        lemma_same_pool(v, back, other, Some(i as nat));
    }
    assert(now.allowances =~= was.allowances);
}

proof fn lemma_same_pool(v: LedgerView, back: LedgerView, node: nat, event: Option<nat>)
    requires
        v.sound(),
        back.sound(),
        v.has_pool(node, event),
        back.has_pool(node, event),
        v.pool(node, event).limits == back.pool(node, event).limits,
        v.table.len() <= back.table.len(),
        forall|t: int| 0 <= t < v.table.len() ==> #[trigger] back.table[t] == v.table[t],
        forall|t: int| v.table.len() <= t < back.table.len() ==> #[trigger] back.table[t] is None,
    ensures
        v.pool(node, event) == back.pool(node, event),
{
    assert(v.pool_sound(node, event));
    assert(back.pool_sound(node, event));
    assert forall|k: int| 0 <= k < RESOURCES implies #[trigger] v.pool(node, event).used.get(k)
        == back.pool(node, event).used.get(k) by {
        lemma_tally_padded(v.table, back.table, on_pool(node, event, k));
        assert(back.pool(node, event).used.get(k) == tally(
            back.table,
            on_pool(node, event, k),
        ));
    }
    lemma_limits_equal(v.pool(node, event).used, back.pool(node, event).used);
}

/// After a cutoff nothing in the subtree is admitted, charged, registered or derived
/// any more.
pub proof fn law_cutoff(v: LedgerView, node: nat, n: nat)
    requires
        v.wf(),
        node < v.nodes.len(),
        n < v.nodes.len(),
        v.descends(n, node),
    ensures
        ({
            let after = v.cut_off(node);
            &&& after.nodes[n as int].revoked
            &&& forall|event: EventId, right: Rights|
                #[trigger] after.enter_error(n, event, right) == Some(TopicError::Revoked)
            &&& forall|event: Option<nat>, usage: Limits|
                #[trigger] after.charge_error(n, event, usage) == Some(TopicError::Revoked)
            &&& forall|event: EventId, listener: u64|
                #[trigger] after.register_error(n, event, listener) == Some(TopicError::Revoked)
            &&& forall|permissions: Seq<Permission>, limits: Limits|
                #[trigger] after.restrict_error(n, permissions, limits) is Some
        }),
{
}

/// Revocation mints no credit: what is charged stays charged until its holder gives it
/// back.
pub proof fn law_cutoff_keeps_accounts(v: LedgerView, node: nat, n: nat)
    requires
        v.wf(),
        node < v.nodes.len(),
        n < v.nodes.len(),
    ensures
        v.cut_off(node).table == v.table,
        v.cut_off(node).nodes[n as int].pool == v.nodes[n as int].pool,
        v.cut_off(node).nodes[n as int].allowances == v.nodes[n as int].allowances,
        v.cut_off(node).nodes[n as int].limits == v.nodes[n as int].limits,
        v.cutoff_complete(node).table == v.table,
        v.cutoff_complete(node).nodes[n as int].pool == v.nodes[n as int].pool,
        v.cutoff_complete(node).nodes[n as int].allowances == v.nodes[n as int].allowances,
        v.cutoff_complete(node).nodes[n as int].limits == v.nodes[n as int].limits,
{
}

/// The grant in slot `n` is revoked, or its revocation complete, exactly if it was.
pub open spec fn as_revoked(before: LedgerView, after: LedgerView, n: nat) -> bool {
    &&& after.nodes[n as int].revoked == before.nodes[n as int].revoked
    &&& after.nodes[n as int].complete == before.nodes[n as int].complete
}

/// Charging a grant revokes nothing and takes no revocation back.
pub proof fn lemma_charge_each_keeps(
    v: LedgerView,
    node: nat,
    allowances: Seq<EventAllowance>,
    owner: Owner,
)
    requires
        node < v.nodes.len(),
    ensures
        ({
            let after = v.charge_each(node, allowances, owner);
            &&& after.nodes.len() == v.nodes.len()
            &&& forall|n: int|
                0 <= n < v.nodes.len() ==> (#[trigger] after.nodes[n]).revoked
                    == v.nodes[n].revoked && after.nodes[n].complete == v.nodes[n].complete
                    && after.nodes[n].revoking == v.nodes[n].revoking
        }),
    decreases allowances.len(),
{
    if allowances.len() > 0 {
        lemma_charge_each_keeps(v, node, allowances.drop_last(), owner);
    }
}

/// Revocation is permanent and local: a cutoff leaves all grants outside the subtree
/// as they were, and nothing that happens later takes it back, neither a charge, a
/// release, an admission or a registration, nor another grant that is derived, shared or
/// given up, nor the end of a revocation. A slot is used anew only once nothing refers to
/// the grant in it. The same holds of a completed revocation: once one has completed, every
/// later one of the grant succeeds at once.
pub proof fn law_revocation_permanent(
    v: LedgerView,
    n: nat,
    node: nat,
    event: Option<nat>,
    usage: Limits,
    owner: Owner,
    ticket: nat,
    id: EventId,
    listener: u64,
    notify: bool,
    permissions: Seq<Permission>,
    limits: Limits,
)
    requires
        v.wf(),
        n < v.nodes.len(),
        node < v.nodes.len(),
    ensures
        !v.descends(n, node) ==> v.cut_off(node).nodes[n as int] == v.nodes[n as int],
        v.has_pool(node, event) ==> as_revoked(v, v.charge(node, event, usage, owner), n),
        as_revoked(v, v.refuse(node, event, usage), n),
        v.outstanding(ticket) && unreserved(v, ticket) ==> as_revoked(
            v,
            v.release(ticket).reap(v.record(ticket).node),
            n,
        ),
        as_revoked(v, v.assign(ticket, owner), n),
        as_revoked(v, v.with_active(node, 1), n),
        as_revoked(v, v.leave(node, notify), n),
        v.nodes[node as int].active > 0 ==> as_revoked(v, v.leave(node, notify).reap(node), n),
        as_revoked(v, v.register(node, id, listener), n),
        as_revoked(v, v.retire(listener), n),
        v.nodes[n as int].revoked ==> v.cut_off(node).nodes[n as int].revoked,
        v.cut_off(node).nodes[n as int].complete == v.nodes[n as int].complete,
        v.cutoff_complete(node).nodes[n as int].revoked == v.nodes[n as int].revoked,
        v.nodes[n as int].complete ==> v.cutoff_complete(node).nodes[n as int].complete,
        as_revoked(
            v,
            v.with_node(node, NodeView { revoking: false, ..v.nodes[node as int] }),
            n,
        ),
        as_revoked(v, v.with_handles(node, 1), n),
        v.nodes[node as int].handles > 0 ==> as_revoked(v, v.with_handles(node, -1).reap(node), n),
        !v.nodes[n as int].dead() ==> as_revoked(v, v.restrict(node, permissions, limits), n),
        as_revoked(v, v.refuse_restrict(node, permissions, limits), n),
        v.nodes[n as int].complete ==> v.begin_revocation(n) == (
            Ok::<Revocation, TopicError>(Revocation::Complete),
            v,
        ),
{
    if !v.descends(n, node) {
        assert(n != node);
        assert(v.cut_off(node).nodes[n as int] == v.nodes[n as int]);
    }
    if v.outstanding(ticket) && unreserved(v, ticket) {
        let at = v.record(ticket).node;
        lemma_outstanding(v, ticket);
        lemma_release_sound(v, ticket);
        lemma_release_kept(v, ticket);
        let next = v.release(ticket);
        assert forall|m: nat| m < next.nodes.len() && m != at implies !#[trigger] next.must_reap(m) by {
            assert(!v.must_reap(m));
        }
        lemma_reap_wf(next, at);
        assert(kept_node(v, next, n));
        assert(kept_node(next, next.reap(at), n));
    }
    if v.nodes[node as int].active > 0 {
        let next = v.leave(node, notify);
        crate::ledger_laws::lemma_node_change(v, next);
        assert forall|m: nat| m < next.nodes.len() && m != node implies !#[trigger] next.must_reap(
            m,
        ) by {
            assert(!v.must_reap(m));
        }
        lemma_reap_wf(next, node);
        assert(kept_node(next, next.reap(node), n));
    }
    if v.nodes[node as int].handles > 0 {
        let fewer = v.with_handles(node, -1);
        crate::ledger_laws::lemma_node_change(v, fewer);
        assert forall|m: nat| m < fewer.nodes.len() && m != node implies !#[trigger] fewer.must_reap(
            m,
        ) by {
            assert(!v.must_reap(m));
        }
        lemma_reap_wf(fewer, node);
        assert(kept_node(fewer, fewer.reap(node), n));
    }
    if !v.nodes[n as int].dead() {
        let at = v.nodes[node as int];
        let slot = v.free_slot(0);
        lemma_free_slot(v, 0);
        let generic = v.charge(
            node,
            None,
            at.reservation(permissions, limits),
            Owner::Child(slot),
        );
        lemma_charge_each_keeps(
            generic,
            node,
            at.event_charges(permissions),
            Owner::Child(slot),
        );
        assert(as_revoked(v, generic, n));
    }
}

} // verus!

//! What grants have and give: which charges and which children are accepted, and what each
//! leaves.
use crate::allowance::{
    covers, is_merge, joint_rights, lemma_fields, lemma_merge_exists, lemma_within_fields,
    EventAllowance, Pool,
};
use crate::derive_laws::lemma_merged;
use crate::error::TopicError;
use crate::event::EventId;
use crate::grant::{
    conflicts, mentions, partition_error, reserved, reserves_within, Limits, Permission,
    StreamLimits, RESOURCES,
};
use crate::ledger::Revocation;
use crate::ledger_model::{merged, LeaseRecord, LedgerView, NodeView, Owner, Signal};
use crate::member_laws::{law_admission, permitted};
use vstd::prelude::*;

verus! {

/// Taken together, `used` and `more` are within `limits`, resource by resource.
pub open spec fn fit(used: Limits, more: Limits, limits: Limits) -> bool {
    &&& used.streams + more.streams <= limits.streams
    &&& used.grants + more.grants <= limits.grants
    &&& used.subscriptions + more.subscriptions <= limits.subscriptions
    &&& used.retained_items + more.retained_items <= limits.retained_items
    &&& used.waiters + more.waiters <= limits.waiters
    &&& used.connections + more.connections <= limits.connections
    &&& used.bytes + more.bytes <= limits.bytes
}

/// The sum of two usages, resource by resource.
pub open spec fn is_sum(sum: Limits, a: Limits, b: Limits) -> bool {
    &&& sum.streams == a.streams + b.streams
    &&& sum.grants == a.grants + b.grants
    &&& sum.subscriptions == a.subscriptions + b.subscriptions
    &&& sum.retained_items == a.retained_items + b.retained_items
    &&& sum.waiters == a.waiters + b.waiters
    &&& sum.connections == a.connections + b.connections
    &&& sum.bytes == a.bytes + b.bytes
}

/// Which charges are accepted: exactly those that a grant in force has room for in the pool
/// that is charged, in every resource, as long as its charges can be counted.
pub proof fn law_charge_accepts(v: LedgerView, node: nat, event: Option<nat>, usage: Limits)
    ensures
        ({
            let at = v.nodes[node as int];
            let pool = if event is Some {
                at.allowances[event->0 as int].pool
            } else {
                at.pool
            };
            v.charge_error(node, event, usage) == if at.revoked {
                Some(TopicError::Revoked)
            } else if !fit(pool.used, usage, pool.limits) || at.leases == usize::MAX {
                Some(TopicError::Capacity)
            } else {
                None
            }
        }),
{
    let pool = v.nodes[node as int].pool_at(event);
    lemma_fields(pool.used, usage, pool.limits);
}

/// Which event is charged: the one of the permission that names it, and none without.
pub proof fn law_charge_event(v: LedgerView, node: nat, event: EventId, usage: StreamLimits, p: nat)
    requires
        v.wf(),
        node < v.nodes.len(),
    ensures
        ({
            let at = v.nodes[node as int];
            &&& p < at.allowances.len() && at.allowances[p as int].permission.event == event ==> {
                &&& at.position(event) == Some(p)
                &&& v.stream_charge_error(node, event, usage) == v.charge_error(
                    node,
                    Some(p),
                    (Limits {
                        streams: 0,
                        grants: 0,
                        subscriptions: usage.subscriptions,
                        retained_items: usage.retained_items,
                        waiters: usage.waiters,
                        connections: 0,
                        bytes: 0,
                    }),
                )
            }
            &&& (forall|i: int|
                0 <= i < at.allowances.len() ==> #[trigger] at.allowances[i].permission.event
                    != event) ==> v.stream_charge_error(node, event, usage) == Some(
                TopicError::Denied,
            )
        }),
{
    let at = v.nodes[node as int];
    if p < at.allowances.len() && at.allowances[p as int].permission.event == event {
        crate::publish_laws::lemma_position(v, node, p);
    }
}

/// What a charge leaves: its pool has exactly that more in use, its grant one charge more, the
/// table the charge at its end; every other pool and grant is as it was.
pub proof fn law_charge_leaves(
    v: LedgerView,
    node: nat,
    event: Option<nat>,
    usage: Limits,
    owner: Owner,
)
    requires
        v.wf(),
        node < v.nodes.len(),
        event matches Some(p) ==> p < v.nodes[node as int].allowances.len(),
        v.charge_error(node, event, usage) is None,
    ensures
        ({
            let after = v.charge(node, event, usage, owner);
            let was = v.nodes[node as int];
            let now = after.nodes[node as int];
            &&& after.table == v.table.push(Some(LeaseRecord { node, event, usage, owner }))
            &&& after.signals == v.signals
            &&& after.nodes.len() == v.nodes.len()
            &&& forall|n: int|
                0 <= n < v.nodes.len() && n != node ==> #[trigger] after.nodes[n] == v.nodes[n]
            &&& now.leases == was.leases + 1
            &&& event is None ==> {
                &&& is_sum(now.pool.used, was.pool.used, usage)
                &&& now.pool.limits == was.pool.limits
                &&& now.allowances == was.allowances
            }
            &&& event matches Some(p) ==> {
                &&& is_sum(
                    now.allowances[p as int].pool.used,
                    was.allowances[p as int].pool.used,
                    usage,
                )
                &&& now.allowances[p as int].pool.limits == was.allowances[p as int].pool.limits
                &&& now.allowances[p as int].permission == was.allowances[p as int].permission
                &&& now.pool == was.pool
                &&& now.allowances.len() == was.allowances.len()
                &&& forall|i: int|
                    0 <= i < was.allowances.len() && i != p ==> #[trigger] now.allowances[i]
                        == was.allowances[i]
            }
            &&& now == (NodeView {
                leases: now.leases,
                pool: now.pool,
                allowances: now.allowances,
                ..was
            })
        }),
{
    let pool = v.nodes[node as int].pool_at(event);
    lemma_fields(pool.used, usage, pool.limits);
}

/// What the return of a charge leaves: its pool has exactly that less in use, its grant one
/// charge less, and the charge is gone; every other pool, grant and charge is as it was.
pub proof fn law_release_leaves(v: LedgerView, ticket: nat)
    requires
        v.wf(),
        ticket < v.table.len(),
        v.table[ticket as int] is Some,
    ensures
        ({
            let after = v.release(ticket);
            let record = v.table[ticket as int]->0;
            let was = v.nodes[record.node as int];
            let now = after.nodes[record.node as int];
            &&& after.table == v.table.update(ticket as int, None)
            &&& after.nodes.len() == v.nodes.len()
            &&& forall|n: int|
                0 <= n < v.nodes.len() && n != record.node ==> #[trigger] after.nodes[n]
                    == v.nodes[n]
            &&& now.leases + 1 == was.leases
            &&& record.event is None ==> {
                &&& is_sum(was.pool.used, now.pool.used, record.usage)
                &&& now.pool.limits == was.pool.limits
                &&& now.allowances == was.allowances
            }
            &&& record.event matches Some(p) ==> {
                &&& is_sum(
                    was.allowances[p as int].pool.used,
                    now.allowances[p as int].pool.used,
                    record.usage,
                )
                &&& now.allowances[p as int].pool.limits == was.allowances[p as int].pool.limits
                &&& now.allowances[p as int].permission == was.allowances[p as int].permission
                &&& now.pool == was.pool
                &&& now.allowances.len() == was.allowances.len()
                &&& forall|i: int|
                    0 <= i < was.allowances.len() && i != p ==> #[trigger] now.allowances[i]
                        == was.allowances[i]
            }
            &&& now == (NodeView {
                leases: now.leases,
                pool: now.pool,
                allowances: now.allowances,
                ..was
            })
        }),
{
    let record = v.table[ticket as int]->0;
    crate::ledger_laws::lemma_outstanding(v, ticket);
    let pool = v.nodes[record.node as int].pool_at(record.event);
    lemma_within_fields(record.usage, pool.used);
}

/// What permissions reserve for their events: each event once, as much as it is given; what is
/// not for events is not reserved.
pub proof fn law_reserved(permissions: Seq<Permission>, permission: Permission, k: int)
    ensures
        reserved(Seq::empty(), k) == 0,
        reserved(permissions.push(permission), k) == reserved(permissions, k) + if exists|j: int|
            0 <= j < permissions.len() && #[trigger] permissions[j].event == permission.event {
            0
        } else if k == 2 {
            permission.limits.subscriptions as nat
        } else if k == 3 {
            permission.limits.retained_items as nat
        } else if k == 4 {
            permission.limits.waiters as nat
        } else {
            0
        },
{
    let longer = permissions.push(permission);
    assert(longer.drop_last() =~= permissions);
    if mentions(permissions, permission.event) {
        let j = choose|j: int|
            0 <= j < permissions.len() && #[trigger] permissions[j].event == permission.event;
        assert(permissions[j].event == permission.event);
    }
}

proof fn lemma_reserved_grows(permissions: Seq<Permission>, k: int)
    requires
        permissions.len() > 0,
    ensures
        reserved(permissions.drop_last(), k) <= reserved(permissions, k),
{
}

/// Some two permissions name one event with different capacities.
pub open spec fn disagree(permissions: Seq<Permission>) -> bool {
    exists|i: int, j: int|
        #![trigger permissions[i], permissions[j]]
        0 <= i < j < permissions.len() && permissions[i].event == permissions[j].event
            && permissions[i].limits != permissions[j].limits
}

/// Permissions can be carved out of limits exactly if those for one event agree on its capacity
/// and all that they reserve is within the limits.
pub proof fn law_partition(limits: Limits, permissions: Seq<Permission>)
    ensures
        partition_error(limits, permissions) is None <==> !disagree(permissions) && reserved(
            permissions,
            2,
        ) <= limits.subscriptions && reserved(permissions, 3) <= limits.retained_items
            && reserved(permissions, 4) <= limits.waiters,
        partition_error(limits, permissions) matches Some(error) ==> error
            == TopicError::InvalidConfig || error == TopicError::Capacity,
        !disagree(permissions) ==> partition_error(limits, permissions)
            != Some(TopicError::InvalidConfig),
    decreases permissions.len(),
{
    lemma_reserves_within(limits, permissions);
    if permissions.len() > 0 {
        let earlier = permissions.drop_last();
        let last = permissions.len() - 1;
        law_partition(limits, earlier);
        lemma_reserved_grows(permissions, 2);
        lemma_reserved_grows(permissions, 3);
        lemma_reserved_grows(permissions, 4);
        if disagree(earlier) {
            let (i, j) = choose|i: int, j: int|
                #![trigger earlier[i], earlier[j]]
                0 <= i < j < earlier.len() && earlier[i].event == earlier[j].event
                    && earlier[i].limits != earlier[j].limits;
            assert(permissions[i] == earlier[i] && permissions[j] == earlier[j]);
        }
        if conflicts(earlier, permissions.last()) {
            let j = choose|j: int|
                0 <= j < earlier.len() && #[trigger] earlier[j].event == permissions.last().event
                    && earlier[j].limits != permissions.last().limits;
            assert(permissions[j] == earlier[j] && permissions[last] == permissions.last());
        }
        if disagree(permissions) && !disagree(earlier) {
            let (i, j) = choose|i: int, j: int|
                #![trigger permissions[i], permissions[j]]
                0 <= i < j < permissions.len() && permissions[i].event == permissions[j].event
                    && permissions[i].limits != permissions[j].limits;
            if j < last {
                assert(permissions[i] == earlier[i] && permissions[j] == earlier[j]);
            } else {
                assert(earlier[i].event == permissions.last().event);
                assert(conflicts(earlier, permissions.last()));
            }
        }
    }
}

proof fn lemma_reserves_within(limits: Limits, permissions: Seq<Permission>)
    ensures
        reserves_within(permissions, limits) <==> reserved(permissions, 2) <= limits.subscriptions
            && reserved(permissions, 3) <= limits.retained_items && reserved(permissions, 4)
            <= limits.waiters,
{
    assert forall|k: int| 0 <= k < RESOURCES && (k < 2 || k > 4) implies #[trigger] reserved(
        permissions,
        k,
    ) <= limits.get(k) by {
        crate::derive_laws::lemma_reserves_only_data(permissions, k);
    }
    if reserves_within(permissions, limits) {
        assert(reserved(permissions, 2) <= limits.get(2));
        assert(reserved(permissions, 3) <= limits.get(3));
        assert(reserved(permissions, 4) <= limits.get(4));
    }
}

/// A grant holds permissions exactly if it is in force and permits each of them.
pub proof fn law_permissions_held(at: NodeView, permissions: Seq<Permission>)
    ensures
        at.permissions_error(permissions) is None <==> permissions.len() == 0 || !at.revoked && (
        forall|j: int|
            0 <= j < permissions.len() ==> permitted(
                at,
                (#[trigger] permissions[j]).event,
                permissions[j].rights.bits(),
            )),
        at.permissions_error(permissions) matches Some(error) ==> error == if at.revoked {
            TopicError::Revoked
        } else {
            TopicError::Denied
        },
    decreases permissions.len(),
{
    if permissions.len() > 0 {
        let earlier = permissions.drop_last();
        let last = permissions.last();
        law_permissions_held(at, earlier);
        let v = LedgerView { nodes: seq![at], table: Seq::empty(), signals: Seq::empty() };
        law_admission(v, 0, last.event, last.rights);
        assert(v.nodes[0] == at);
        assert(permissions[permissions.len() - 1] == last);
        assert forall|j: int| 0 <= j < earlier.len() implies permissions[j]
            == #[trigger] earlier[j] by {}
        if at.permissions_error(permissions) is None {
            assert forall|j: int| 0 <= j < permissions.len() implies permitted(
                at,
                (#[trigger] permissions[j]).event,
                permissions[j].rights.bits(),
            ) by {
                if j < earlier.len() {
                    assert(earlier[j] == permissions[j]);
                }
            }
        }
        if forall|j: int|
            0 <= j < permissions.len() ==> permitted(
                at,
                (#[trigger] permissions[j]).event,
                permissions[j].rights.bits(),
            ) {
            assert forall|j: int| 0 <= j < earlier.len() implies permitted(
                at,
                (#[trigger] earlier[j]).event,
                earlier[j].rights.bits(),
            ) by {
                assert(earlier[j] == permissions[j]);
            }
        }
    }
}

/// What a child takes of the generic pool of its parent, besides one grant for itself: all of
/// its limits from a parent that may use every event, and otherwise what its events do not
/// take from their own pools.
pub open spec fn takes(parent: NodeView, permissions: Seq<Permission>, limits: Limits) -> Limits {
    if parent.unrestricted {
        Limits { grants: (limits.grants + 1) as usize, ..limits }
    } else {
        Limits {
            grants: (limits.grants + 1) as usize,
            subscriptions: (limits.subscriptions - reserved(permissions, 2)) as usize,
            retained_items: (limits.retained_items - reserved(permissions, 3)) as usize,
            waiters: (limits.waiters - reserved(permissions, 4)) as usize,
            ..limits
        }
    }
}

/// The pool that the grant has for the event of a permission has room for its capacity.
pub open spec fn has_room_for(at: NodeView, permission: Permission) -> bool {
    forall|p: int|
        0 <= p < at.allowances.len() && (#[trigger] at.allowances[p]).permission.event
            == permission.event ==> {
            let pool = at.allowances[p].pool;
            &&& pool.used.subscriptions + permission.limits.subscriptions
                <= pool.limits.subscriptions
            &&& pool.used.retained_items + permission.limits.retained_items
                <= pool.limits.retained_items
            &&& pool.used.waiters + permission.limits.waiters <= pool.limits.waiters
        }
}

/// Which children can be derived: exactly those whose limits can be addressed and count every
/// permission as a stream, whose permissions their parent, in force, holds, and which can be
/// carved out of the limits; and which the pools of the parent have room for.
pub proof fn law_restrict_accepts(
    v: LedgerView,
    node: nat,
    permissions: Seq<Permission>,
    limits: Limits,
)
    requires
        v.wf(),
        node < v.nodes.len(),
        v.nodes[node as int].leases + 1 + permissions.len() <= usize::MAX,
    ensures
        v.restrict_error(node, permissions, limits) is None <==> {
            let at = v.nodes[node as int];
            &&& limits.streams <= isize::MAX
            &&& limits.grants <= isize::MAX
            &&& limits.subscriptions <= isize::MAX
            &&& limits.retained_items <= isize::MAX
            &&& limits.waiters <= isize::MAX
            &&& limits.connections <= isize::MAX
            &&& limits.bytes <= isize::MAX
            &&& permissions.len() <= limits.streams
            &&& !at.revoked
            &&& forall|j: int|
                0 <= j < permissions.len() ==> permitted(
                    at,
                    (#[trigger] permissions[j]).event,
                    permissions[j].rights.bits(),
                )
            &&& !disagree(permissions)
            &&& reserved(permissions, 2) <= limits.subscriptions
            &&& reserved(permissions, 3) <= limits.retained_items
            &&& reserved(permissions, 4) <= limits.waiters
            &&& fit(at.pool.used, takes(at, permissions, limits), at.pool.limits)
            &&& at.unrestricted || forall|j: int|
                0 <= j < permissions.len() ==> has_room_for(at, #[trigger] permissions[j])
        },
{
    let at = v.nodes[node as int];
    lemma_addressable(limits);
    law_permissions_held(at, permissions);
    law_partition(limits, permissions);
    if limits.addressable() && at.permissions_error(permissions) is None && partition_error(
        limits,
        permissions,
    ) is None && !at.revoked {
        assert(limits.grants <= isize::MAX);
        lemma_fields(at.pool.used, at.reservation(permissions, limits), at.pool.limits);
        assert(at.reservation(permissions, limits) == takes(at, permissions, limits));
        if !at.unrestricted {
            lemma_events_fit(v, node, permissions);
        }
    }
}

proof fn lemma_addressable(limits: Limits)
    ensures
        limits.addressable() <==> {
            &&& limits.streams <= isize::MAX
            &&& limits.grants <= isize::MAX
            &&& limits.subscriptions <= isize::MAX
            &&& limits.retained_items <= isize::MAX
            &&& limits.waiters <= isize::MAX
            &&& limits.connections <= isize::MAX
            &&& limits.bytes <= isize::MAX
        },
{
    if limits.addressable() {
        assert(limits.get(0) <= isize::MAX);
        assert(limits.get(1) <= isize::MAX);
        assert(limits.get(2) <= isize::MAX);
        assert(limits.get(3) <= isize::MAX);
        assert(limits.get(4) <= isize::MAX);
        assert(limits.get(5) <= isize::MAX);
        assert(limits.get(6) <= isize::MAX);
    }
}

/// Permissions that agree combine into one allowance per event.
proof fn lemma_agree_merge(permissions: Seq<Permission>)
    requires
        !disagree(permissions),
    ensures
        is_merge(merged(permissions), permissions),
        merged(permissions).len() <= permissions.len(),
{
    assert forall|i: int, j: int|
        #![trigger permissions[i], permissions[j]]
        0 <= i < permissions.len() && 0 <= j < permissions.len() && permissions[i].event
            == permissions[j].event implies permissions[i].limits == permissions[j].limits by {
        if i > j {
            assert(permissions[j].event == permissions[i].event);
        }
    }
    lemma_merge_exists(permissions);
    let allowances = choose|allowances: Seq<EventAllowance>| is_merge(allowances, permissions);
    lemma_merged(allowances, permissions);
    lemma_merge_len(merged(permissions), permissions);
}

/// There are no more allowances than permissions.
proof fn lemma_merge_len(allowances: Seq<EventAllowance>, permissions: Seq<Permission>)
    requires
        is_merge(allowances, permissions),
    ensures
        allowances.len() <= permissions.len(),
{
    let source = |i: int|
        choose|j: int|
            0 <= j < permissions.len() && #[trigger] permissions[j].event
                == allowances[i].permission.event;
    assert forall|i: int| 0 <= i < allowances.len() implies 0 <= #[trigger] source(i)
        < permissions.len() && permissions[source(i)].event == allowances[i].permission.event by {
        assert(mentions(permissions, allowances[i].permission.event));
    }
    lemma_injection(allowances, permissions, source);
}

proof fn lemma_injection(
    allowances: Seq<EventAllowance>,
    permissions: Seq<Permission>,
    source: spec_fn(int) -> int,
)
    requires
        crate::allowance::ordered(allowances),
        forall|i: int|
            0 <= i < allowances.len() ==> 0 <= #[trigger] source(i) < permissions.len()
                && permissions[source(i)].event == allowances[i].permission.event,
    ensures
        allowances.len() <= permissions.len(),
{
    let places = Seq::new(allowances.len(), |i: int| source(i));
    assert(places.no_duplicates()) by {
        assert forall|i: int, j: int|
            0 <= i < places.len() && 0 <= j < places.len() && i != j implies places[i]
            != places[j] by {
            if i < j {
                assert(allowances[i].permission.event.0 < allowances[j].permission.event.0);
            } else {
                assert(allowances[j].permission.event.0 < allowances[i].permission.event.0);
            }
        }
    }
    places.unique_seq_to_set();
    let range = Set::new(|x: int| 0 <= x < permissions.len());
    assert(range =~= vstd::set_lib::set_int_range(0, permissions.len() as int));
    vstd::set_lib::lemma_int_range(0, permissions.len() as int);
    assert(places.to_set().subset_of(range)) by {
        assert forall|x: int| places.to_set().contains(x) implies range.contains(x) by {
            let i = choose|i: int| 0 <= i < places.len() && places[i] == x;
            assert(places[i] == source(i));
        }
    }
    vstd::set_lib::lemma_len_subset(places.to_set(), range);
}

/// The event pools have room for a child exactly if they have room for each permission.
proof fn lemma_events_fit(v: LedgerView, node: nat, permissions: Seq<Permission>)
    requires
        v.wf(),
        node < v.nodes.len(),
        !v.nodes[node as int].unrestricted,
        !disagree(permissions),
        v.nodes[node as int].permissions_error(permissions) is None,
        v.nodes[node as int].leases + 1 + permissions.len() <= usize::MAX,
    ensures
        ({
            let at = v.nodes[node as int];
            let charges = at.event_charges(permissions);
            &&& (forall|i: int|
                0 <= i < charges.len() ==> at.pool_at(
                    at.position((#[trigger] charges[i]).permission.event),
                ).admits(charges[i].permission.limits.widened())) <==> (forall|j: int|
                0 <= j < permissions.len() ==> has_room_for(at, #[trigger] permissions[j]))
            &&& at.leases + 1 + charges.len() <= usize::MAX
        }),
{
    let at = v.nodes[node as int];
    let charges = at.event_charges(permissions);
    lemma_agree_merge(permissions);
    assert forall|i: int, j: int|
        #![trigger charges[i], permissions[j]]
        0 <= i < charges.len() && 0 <= j < permissions.len() && permissions[j].event
            == charges[i].permission.event implies (at.pool_at(
        at.position(charges[i].permission.event),
    ).admits(charges[i].permission.limits.widened()) <==> has_room_for(at, permissions[j])) by {
        let event = charges[i].permission.event;
        assert(v.node_sound(node));
        crate::derive_laws::lemma_merged_positions(at, permissions, i);
        let p = at.position(event)->0 as int;
        let pool = at.allowances[p].pool;
        lemma_fields(pool.used, charges[i].permission.limits.widened(), pool.limits);
        assert(v.has_pool(node, Some(p as nat)));
        assert(v.pool_sound(node, Some(p as nat)));
        lemma_within_fields(pool.used, pool.limits);
        assert(permissions[j].limits == charges[i].permission.limits);
        assert forall|q: int|
            0 <= q < at.allowances.len() && (#[trigger] at.allowances[q]).permission.event
                == event implies q == p by {
            crate::allowance::lemma_search_unique(at.allowances, p, q);
        }
    }
    if forall|i: int|
        0 <= i < charges.len() ==> at.pool_at(
            at.position((#[trigger] charges[i]).permission.event),
        ).admits(charges[i].permission.limits.widened()) {
        assert forall|j: int| 0 <= j < permissions.len() implies has_room_for(
            at,
            #[trigger] permissions[j],
        ) by {
            assert(covers(charges, permissions[j].event));
            let i = choose|i: int|
                0 <= i < charges.len() && #[trigger] charges[i].permission.event
                    == permissions[j].event;
            assert(charges[i].permission.event == permissions[j].event);
        }
    }
    if forall|j: int| 0 <= j < permissions.len() ==> has_room_for(at, #[trigger] permissions[j]) {
        assert forall|i: int| 0 <= i < charges.len() implies at.pool_at(
            at.position((#[trigger] charges[i]).permission.event),
        ).admits(charges[i].permission.limits.widened()) by {
            assert(mentions(permissions, charges[i].permission.event));
            let j = choose|j: int|
                0 <= j < permissions.len() && #[trigger] permissions[j].event
                    == charges[i].permission.event;
            assert(permissions[j].event == charges[i].permission.event);
        }
    }
}

/// An operation is permitted together by permissions exactly if one of them permits it.
proof fn lemma_joint_bit(permissions: Seq<Permission>, event: EventId, bit: u8)
    requires
        bit == 1 || bit == 2 || bit == 4,
    ensures
        joint_rights(permissions, event) & bit == bit <==> exists|j: int|
            0 <= j < permissions.len() && (#[trigger] permissions[j]).event == event
                && permissions[j].rights.bits() & bit == bit,
    decreases permissions.len(),
{
    if permissions.len() == 0 {
        assert(0u8 & bit == bit ==> bit == 0) by (bit_vector);
    } else {
        let earlier = permissions.drop_last();
        let last = permissions.last();
        let a = joint_rights(earlier, event);
        let b = last.rights.bits();
        lemma_joint_bit(earlier, event, bit);
        assert((bit == 1 || bit == 2 || bit == 4) ==> ((a | b) & bit == bit <==> a & bit == bit
            || b & bit == bit)) by (bit_vector);
        if a & bit == bit {
            let j = choose|j: int|
                0 <= j < earlier.len() && (#[trigger] earlier[j]).event == event
                    && earlier[j].rights.bits() & bit == bit;
            assert(permissions[j] == earlier[j]);
        }
        if exists|j: int|
            0 <= j < permissions.len() && (#[trigger] permissions[j]).event == event
                && permissions[j].rights.bits() & bit == bit {
            let j = choose|j: int|
                0 <= j < permissions.len() && (#[trigger] permissions[j]).event == event
                    && permissions[j].rights.bits() & bit == bit;
            if j < earlier.len() {
                assert(earlier[j] == permissions[j]);
            }
        }
        if last.event == event && b & bit == bit {
            assert(permissions[permissions.len() - 1] == last);
        }
    }
}

/// What a child has: its limits, unused; for each event that it was given permission for an
/// allowance of the capacity that was given, which permits each operation exactly if one of
/// the permissions does; and one handle, under its parent.
pub proof fn law_child(
    v: LedgerView,
    node: nat,
    permissions: Seq<Permission>,
    limits: Limits,
    event: EventId,
    bit: u8,
)
    requires
        v.wf(),
        node < v.nodes.len(),
        v.nodes[node as int].handles > 0,
        v.restrict_error(node, permissions, limits) is None,
        bit == 1 || bit == 2 || bit == 4,
    ensures
        ({
            let after = v.restrict(node, permissions, limits);
            let slot = v.free_slot(0);
            let child = after.nodes[slot as int];
            &&& slot < after.nodes.len()
            &&& slot != node
            &&& slot < v.nodes.len() ==> v.nodes[slot as int].handles == 0
            &&& child.limits == limits
            &&& child.pool.limits == (Limits {
                subscriptions: (limits.subscriptions - reserved(permissions, 2)) as usize,
                retained_items: (limits.retained_items - reserved(permissions, 3)) as usize,
                waiters: (limits.waiters - reserved(permissions, 4)) as usize,
                ..limits
            })
            &&& child.pool.used == Limits::none()
            &&& child.parent == Some(node)
            &&& child.handles == 1
            &&& child.active == 0
            &&& !child.revoked
            &&& !child.unrestricted
            &&& permitted(child, event, bit) <==> exists|j: int|
                0 <= j < permissions.len() && (#[trigger] permissions[j]).event == event
                    && permissions[j].rights.bits() & bit == bit
            &&& forall|j: int|
                0 <= j < permissions.len() ==> exists|p: int|
                    {
                        &&& 0 <= p < child.allowances.len()
                        &&& (#[trigger] child.allowances[p]).permission.event == (
                        #[trigger] permissions[j]).event
                        &&& child.allowances[p].permission.limits == permissions[j].limits
                        &&& child.allowances[p].pool == (Pool {
                            limits: permissions[j].limits.widened(),
                            used: Limits::none(),
                        })
                    }
        }),
{
    let at = v.nodes[node as int];
    let slot = v.free_slot(0);
    law_partition(limits, permissions);
    lemma_agree_merge(permissions);
    crate::derive_laws::lemma_free_slot(v, 0);
    let after = v.restrict(node, permissions, limits);
    crate::grant_laws::lemma_reserve_len(v, node, slot, permissions, limits);
    let child = after.nodes[slot as int];
    assert(child.allowances == merged(permissions));
    lemma_joint_bit(permissions, event, bit);
    if permitted(child, event, bit) {
        let p = choose|p: int|
            0 <= p < child.allowances.len() && #[trigger] child.allowances[p].permission.event
                == event && child.allowances[p].permission.rights.bits() & bit == bit;
        assert(merged(permissions)[p].permission.rights.bits() == joint_rights(
            permissions,
            event,
        ));
    }
    if exists|j: int|
        0 <= j < permissions.len() && (#[trigger] permissions[j]).event == event
            && permissions[j].rights.bits() & bit == bit {
        let j = choose|j: int|
            0 <= j < permissions.len() && (#[trigger] permissions[j]).event == event
                && permissions[j].rights.bits() & bit == bit;
        assert(covers(merged(permissions), permissions[j].event));
        let p = choose|p: int|
            0 <= p < merged(permissions).len() && #[trigger] merged(
                permissions,
            )[p].permission.event == event;
        assert(merged(permissions)[p].permission.rights.bits() == joint_rights(
            permissions,
            event,
        ));
        assert(child.allowances[p].permission.event == event);
    }
    assert forall|j: int| 0 <= j < permissions.len() implies exists|p: int|
        {
            &&& 0 <= p < child.allowances.len()
            &&& (#[trigger] child.allowances[p]).permission.event == (
            #[trigger] permissions[j]).event
            &&& child.allowances[p].permission.limits == permissions[j].limits
            &&& child.allowances[p].pool == (Pool {
                limits: permissions[j].limits.widened(),
                used: Limits::none(),
            })
        } by {
        assert(covers(merged(permissions), permissions[j].event));
        let p = choose|p: int|
            0 <= p < merged(permissions).len() && #[trigger] merged(
                permissions,
            )[p].permission.event == permissions[j].event;
        let entry = merged(permissions)[p];
        assert(child.allowances[p] == entry);
        assert(permissions[j].limits == entry.permission.limits);
    }
}

/// A revocation that begins cuts off its grant and all below it, and nobody else; one that is
/// complete is done at once, and one that is under way turns another away.
pub proof fn law_begin_revocation(v: LedgerView, node: nat, n: nat)
    requires
        v.wf(),
        node < v.nodes.len(),
        n < v.nodes.len(),
    ensures
        ({
            let at = v.nodes[node as int];
            let (result, after) = v.begin_revocation(node);
            let was = v.nodes[n as int];
            let now = after.nodes[n as int];
            &&& at.complete ==> result == Ok::<Revocation, TopicError>(Revocation::Complete)
                && after == v
            &&& !at.complete && at.revoking ==> result == Err::<Revocation, TopicError>(
                TopicError::Capacity,
            ) && after == v
            &&& !at.complete && !at.revoking ==> {
                &&& result == Ok::<Revocation, TopicError>(Revocation::Pending)
                &&& after.table == v.table
                &&& now == (NodeView {
                    revoked: was.revoked || v.descends(n, node),
                    revoking: was.revoking || n == node,
                    ..was
                })
            }
            &&& v.descends(n, node) <==> n == node || was.parent is Some && v.descends(
                was.parent->0,
                node,
            )
        }),
{
    assert(v.reservation_sound(n));
}

/// Who is woken when a charge returns to the pool of an event: the grant, and exactly the
/// listeners that are registered with it for that event, if anything returns at all.
pub proof fn law_release_wakes(v: LedgerView, node: nat, p: nat, usage: Limits, listener: u64)
    requires
        node < v.nodes.len(),
        p < v.nodes[node as int].allowances.len(),
    ensures
        ({
            let at = v.nodes[node as int];
            let event = at.allowances[p as int].permission.event;
            let woken = v.release_signals(node, Some(p), usage);
            let generic = v.release_signals(node, None, usage);
            if usage == Limits::none() {
                woken.len() == 0 && generic.len() == 0
            } else {
                &&& woken.len() > 0
                &&& woken[0] == Signal::Changed(node as usize)
                &&& generic == seq![Signal::Changed(node as usize)]
                &&& woken.contains(Signal::Listener(listener)) <==> exists|l: int|
                    0 <= l < at.listeners.len() && #[trigger] at.listeners[l] == (event, listener)
            }
        }),
{
    let at = v.nodes[node as int];
    let event = at.allowances[p as int].permission.event;
    let woken = v.release_signals(node, Some(p), usage);
    let heard = crate::ledger_model::listening(at.listeners, event);
    lemma_listening(at.listeners, event, listener);
    if usage != Limits::none() {
        assert(woken == seq![Signal::Changed(node as usize)] + heard);
        if heard.contains(Signal::Listener(listener)) {
            let i = choose|i: int| 0 <= i < heard.len() && heard[i] == Signal::Listener(listener);
            assert(woken[i + 1] == Signal::Listener(listener));
        }
        if woken.contains(Signal::Listener(listener)) {
            let i = choose|i: int| 0 <= i < woken.len() && woken[i] == Signal::Listener(listener);
            assert(heard[i - 1] == Signal::Listener(listener));
        }
    }
}

proof fn lemma_listening(listeners: Seq<(EventId, u64)>, event: EventId, listener: u64)
    ensures
        crate::ledger_model::listening(listeners, event).contains(Signal::Listener(listener))
            <==> exists|l: int|
            0 <= l < listeners.len() && #[trigger] listeners[l] == (event, listener),
    decreases listeners.len(),
{
    let all = crate::ledger_model::listening(listeners, event);
    if listeners.len() > 0 {
        let fewer = listeners.drop_last();
        let earlier = crate::ledger_model::listening(fewer, event);
        lemma_listening(fewer, event, listener);
        if earlier.contains(Signal::Listener(listener)) {
            let i = choose|i: int|
                0 <= i < earlier.len() && earlier[i] == Signal::Listener(listener);
            assert(all[i] == Signal::Listener(listener));
            let l = choose|l: int|
                0 <= l < fewer.len() && #[trigger] fewer[l] == (event, listener);
            assert(listeners[l] == (event, listener));
        }
        if listeners.last() == (event, listener) {
            assert(all[all.len() - 1] == Signal::Listener(listener));
            assert(listeners[listeners.len() - 1] == (event, listener));
        }
        if all.contains(Signal::Listener(listener)) && listeners.last() != (event, listener) {
            let i = choose|i: int| 0 <= i < all.len() && all[i] == Signal::Listener(listener);
            assert(earlier[i] == Signal::Listener(listener));
        }
        if exists|l: int| 0 <= l < listeners.len() && #[trigger] listeners[l] == (event, listener) {
            let l = choose|l: int|
                0 <= l < listeners.len() && #[trigger] listeners[l] == (event, listener);
            if l < fewer.len() {
                assert(fewer[l] == (event, listener));
            }
        }
    }
}

/// Which of the two faults permissions have when they cannot be carved out of limits: the first
/// permission decides that asks for another capacity than an earlier one for its event, or with
/// which too much is reserved.
pub proof fn law_partition_first(limits: Limits, permissions: Seq<Permission>)
    requires
        permissions.len() > 0,
    ensures
        ({
            let earlier = partition_error(limits, permissions.drop_last());
            let all = partition_error(limits, permissions);
            let last = permissions.last();
            let other = exists|j: int|
                0 <= j < permissions.len() - 1 && #[trigger] permissions[j].event == last.event
                    && permissions[j].limits != last.limits;
            &&& earlier is Some ==> all == earlier
            &&& earlier is None && other ==> all == Some(TopicError::InvalidConfig)
            &&& earlier is None && !other && all is Some ==> all == Some(TopicError::Capacity)
        }),
{
    let earlier = permissions.drop_last();
    let last = permissions.last();
    if conflicts(earlier, last) {
        let j = choose|j: int|
            0 <= j < earlier.len() && #[trigger] earlier[j].event == last.event && earlier[j].limits
                != last.limits;
        assert(permissions[j] == earlier[j]);
    }
    if exists|j: int|
        0 <= j < permissions.len() - 1 && #[trigger] permissions[j].event == last.event
            && permissions[j].limits != last.limits {
        let j = choose|j: int|
            0 <= j < permissions.len() - 1 && #[trigger] permissions[j].event == last.event
                && permissions[j].limits != last.limits;
        assert(earlier[j] == permissions[j]);
        assert(conflicts(earlier, last));
    }
}

/// Why a child cannot be derived: first whether its limits can be addressed, then how many
/// permissions there are, then whether the grant holds them, then whether they can be carved
/// out of the limits, then whether the grant is revoked, and last whether it has the room.
pub proof fn law_restrict_fault(
    v: LedgerView,
    node: nat,
    permissions: Seq<Permission>,
    limits: Limits,
)
    requires
        node < v.nodes.len(),
    ensures
        ({
            let at = v.nodes[node as int];
            let error = v.restrict_error(node, permissions, limits);
            let held = forall|j: int|
                0 <= j < permissions.len() ==> permitted(
                    at,
                    (#[trigger] permissions[j]).event,
                    permissions[j].rights.bits(),
                );
            if limits.streams > isize::MAX || limits.grants > isize::MAX || limits.subscriptions
                > isize::MAX || limits.retained_items > isize::MAX || limits.waiters > isize::MAX
                || limits.connections > isize::MAX || limits.bytes > isize::MAX {
                error == Some(TopicError::InvalidConfig)
            } else if permissions.len() > limits.streams {
                error == Some(TopicError::Capacity)
            } else if at.revoked && permissions.len() > 0 {
                error == Some(TopicError::Revoked)
            } else if !held {
                error == Some(TopicError::Denied)
            } else if partition_error(limits, permissions) is Some {
                error == partition_error(limits, permissions)
            } else if at.revoked {
                error == Some(TopicError::Revoked)
            } else {
                error is None || error == Some(TopicError::Capacity)
            }
        }),
{
    lemma_addressable(limits);
    law_permissions_held(v.nodes[node as int], permissions);
}

} // verus!

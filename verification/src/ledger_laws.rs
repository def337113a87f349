//! How each operation of the ledger model keeps the accounts balanced.
use crate::allowance::{allotted, lemma_allotted_same, lemma_arithmetic, ordered, Pool};
use crate::grant::{Limits, RESOURCES};
use crate::ledger_model::{
    lemma_tally_member, lemma_tally_push, lemma_tally_update, on_node, on_pool, same_tree, tally,
    LeaseRecord, LedgerView, NodeView, Owner,
};
use vstd::prelude::*;

verus! {

/// Replacing a pool leaves the other pools of the grant as they were.
pub proof fn lemma_with_pool(at: NodeView, event: Option<nat>, pool: Pool)
    requires
        at.has_pool(event),
        ordered(at.allowances),
        pool.limits == at.pool_at(event).limits,
    ensures
        at.with_pool(event, pool).pool_at(event) == pool,
        forall|k: int|
            #[trigger] allotted(at.with_pool(event, pool).allowances, k) == allotted(
                at.allowances,
                k,
            ),
        at.with_pool(event, pool).pool.limits == at.pool.limits,
        forall|i: int|
            0 <= i < at.allowances.len() ==> #[trigger] at.with_pool(
                event,
                pool,
            ).allowances[i].pool.limits == at.allowances[i].pool.limits,
        forall|other: Option<nat>|
            #[trigger] at.with_pool(event, pool).has_pool(other) <==> at.has_pool(other),
        forall|other: Option<nat>|
            at.has_pool(other) && other != event ==> #[trigger] at.with_pool(event, pool).pool_at(
                other,
            ) == at.pool_at(other),
        ordered(at.with_pool(event, pool).allowances),
        at.with_pool(event, pool).allowances.len() == at.allowances.len(),
        forall|i: int|
            0 <= i < at.allowances.len() ==> #[trigger] at.with_pool(
                event,
                pool,
            ).allowances[i].permission == at.allowances[i].permission,
{
    let after = at.with_pool(event, pool);
    assert forall|k: int| #[trigger] allotted(after.allowances, k) == allotted(at.allowances, k) by {
        lemma_allotted_same(at.allowances, after.allowances, k);
    }
    assert forall|i: int, j: int|
        #![trigger after.allowances[i], after.allowances[j]]
        0 <= i < j < after.allowances.len() implies after.allowances[i].permission.event.0
        < after.allowances[j].permission.event.0 by {
        assert(at.allowances[i].permission.event.0 < at.allowances[j].permission.event.0);
    }
}

/// Charging an allowance that admits it keeps the ledger in order.
pub proof fn lemma_charge_wf(
    v: LedgerView,
    node: nat,
    event: Option<nat>,
    usage: Limits,
    owner: Owner,
)
    requires
        v.wf(),
        v.has_pool(node, event),
        v.pool(node, event).admits(usage),
    ensures
        v.charge(node, event, usage, owner).wf(),
{
    let after = v.charge(node, event, usage, owner);
    let at = v.nodes[node as int];
    let pool = at.pool_at(event);
    let record = LeaseRecord { node, event, usage, owner };
    assert(v.node_sound(node));
    lemma_with_pool(at, event, pool.charged(usage));
    lemma_arithmetic(pool.used, usage, pool.limits);
    assert forall|t: nat| #[trigger] after.outstanding(t) implies after.has_pool(
        after.record(t).node,
        after.record(t).event,
    ) by {
        if t < v.table.len() {
            assert(v.outstanding(t));
            assert(v.has_pool(v.record(t).node, v.record(t).event));
        }
    }
    assert forall|n: nat, e: Option<nat>| #[trigger] after.has_pool(n, e) implies after.pool_sound(
        n,
        e,
    ) by {
        assert(v.has_pool(n, e));
        assert(v.pool_sound(n, e));
        assert forall|k: int| 0 <= k < RESOURCES implies #[trigger] after.pool(n, e).used.get(k)
            == tally(after.table, on_pool(n, e, k)) by {
            lemma_tally_push(v.table, Some(record), on_pool(n, e, k));
            assert(v.pool(n, e).used.get(k) == tally(v.table, on_pool(n, e, k)));
            if n == node && e == event {
                assert(pool.used.plus(usage).get(k) == pool.used.get(k) + usage.get(k));
            }
        }
        assert(after.pool(n, e).used.within(after.pool(n, e).limits)) by {
            assert forall|k: int| 0 <= k < RESOURCES implies #[trigger] after.pool(n, e).used.get(k)
                <= after.pool(n, e).limits.get(k) by {
                assert(v.pool(n, e).used.get(k) <= v.pool(n, e).limits.get(k));
                if n == node && e == event {
                    assert(pool.used.get(k) + usage.get(k) <= pool.limits.get(k));
                    assert(pool.used.plus(usage).get(k) == pool.used.get(k) + usage.get(k));
                }
            }
        }
    }
    assert forall|n: nat| n < after.nodes.len() implies #[trigger] after.node_sound(n) by {
        assert(v.node_sound(n));
        lemma_tally_push(v.table, Some(record), on_node(n));
    }
    assert forall|n: nat| n < after.nodes.len() implies #[trigger] after.reservation_sound(n) by {
        assert(v.reservation_sound(n));
        let now = after.nodes[n as int];
        assert(now.reservations == v.nodes[n as int].reservations);
        if now.parent is Some {
            assert forall|i: int| 0 <= i < now.reservations.len() implies {
                let ticket = #[trigger] now.reservations[i];
                &&& after.outstanding(ticket)
                &&& after.record(ticket).node == now.parent->0
                &&& after.record(ticket).owner == Owner::Child(n)
            } by {
                assert(v.outstanding(v.nodes[n as int].reservations[i]));
            }
        }
    }
    assert forall|n: nat| n < after.nodes.len() implies !#[trigger] after.must_reap(n) by {
        assert(!v.must_reap(n));
    }
}

/// No grant has the lease with this ticket as part of its reservation.
pub open spec fn unreserved(v: LedgerView, ticket: nat) -> bool {
    forall|n: int| 0 <= n < v.nodes.len() ==> !#[trigger] v.nodes[n].reservations.contains(ticket)
}

/// A lease that belongs to no grant is no part of a reservation.
pub proof fn lemma_unreserved(v: LedgerView, ticket: nat)
    requires
        v.sound(),
        v.outstanding(ticket),
        !(v.record(ticket).owner is Child),
    ensures
        unreserved(v, ticket),
{
    assert forall|n: int| 0 <= n < v.nodes.len() implies !#[trigger] v.nodes[n].reservations.contains(
        ticket,
    ) by {
        if v.nodes[n].reservations.contains(ticket) {
            assert(v.reservation_sound(n as nat));
            let i = choose|i: int|
                0 <= i < v.nodes[n].reservations.len() && v.nodes[n].reservations[i] == ticket;
            assert(v.record(v.nodes[n].reservations[i]).owner == Owner::Child(n as nat));
        }
    }
}

/// An outstanding lease is counted where it is charged.
pub proof fn lemma_outstanding(v: LedgerView, ticket: nat)
    requires
        v.sound(),
        v.outstanding(ticket),
    ensures
        v.has_pool(v.record(ticket).node, v.record(ticket).event),
        v.nodes[v.record(ticket).node as int].leases > 0,
        v.record(ticket).usage.within(
            v.pool(v.record(ticket).node, v.record(ticket).event).used,
        ),
{
    let record = v.record(ticket);
    assert(v.has_pool(record.node, record.event));
    assert(v.node_sound(record.node));
    lemma_tally_member(v.table, ticket as int, on_node(record.node));
    assert(v.pool_sound(record.node, record.event));
    let pool = v.pool(record.node, record.event);
    assert forall|k: int| 0 <= k < RESOURCES implies #[trigger] record.usage.get(k)
        <= pool.used.get(k) by {
        lemma_tally_member(v.table, ticket as int, on_pool(record.node, record.event, k));
        assert(pool.used.get(k) == tally(v.table, on_pool(record.node, record.event, k)));
    }
}

/// Releasing a lease that is no part of a reservation keeps the accounts balanced.
pub proof fn lemma_release_sound(v: LedgerView, ticket: nat)
    requires
        v.sound(),
        v.outstanding(ticket),
        unreserved(v, ticket),
    ensures
        v.release(ticket).sound(),
        same_tree(v, v.release(ticket)),
        forall|m: nat|
            m < v.nodes.len() && m != v.record(ticket).node ==> #[trigger] v.release(
                ticket,
            ).must_reap(m) == v.must_reap(m),
{
    let after = v.release(ticket);
    let record = v.record(ticket);
    let node = record.node;
    let event = record.event;
    let usage = record.usage;
    lemma_outstanding(v, ticket);
    let at = v.nodes[node as int];
    let pool = at.pool_at(event);
    assert(v.node_sound(node));
    assert(v.pool_sound(node, event));
    lemma_with_pool(at, event, pool.released(usage));
    lemma_arithmetic(pool.used, usage, pool.limits);
    assert forall|t: nat| #[trigger] after.outstanding(t) implies after.has_pool(
        after.record(t).node,
        after.record(t).event,
    ) by {
        assert(v.outstanding(t));
        assert(v.has_pool(v.record(t).node, v.record(t).event));
    }
    assert forall|n: nat, e: Option<nat>| #[trigger] after.has_pool(n, e) implies after.pool_sound(
        n,
        e,
    ) by {
        assert(v.has_pool(n, e));
        assert(v.pool_sound(n, e));
        assert forall|k: int| 0 <= k < RESOURCES implies #[trigger] after.pool(n, e).used.get(k)
            == tally(after.table, on_pool(n, e, k)) by {
            lemma_tally_update(v.table, ticket as int, None, on_pool(n, e, k));
            assert(v.pool(n, e).used.get(k) == tally(v.table, on_pool(n, e, k)));
            if n == node && e == event {
                assert(pool.used.minus(usage).get(k) == pool.used.get(k) - usage.get(k));
            }
        }
        assert(after.pool(n, e).used.within(after.pool(n, e).limits)) by {
            assert forall|k: int| 0 <= k < RESOURCES implies #[trigger] after.pool(n, e).used.get(k)
                <= after.pool(n, e).limits.get(k) by {
                assert(v.pool(n, e).used.get(k) <= v.pool(n, e).limits.get(k));
                if n == node && e == event {
                    assert(pool.used.minus(usage).get(k) == pool.used.get(k) - usage.get(k));
                }
            }
        }
    }
    assert forall|n: nat| n < after.nodes.len() implies #[trigger] after.node_sound(n) by {
        assert(v.node_sound(n));
        lemma_tally_update(v.table, ticket as int, None, on_node(n));
    }
    assert forall|n: nat| n < after.nodes.len() implies #[trigger] after.reservation_sound(n) by {
        assert(v.reservation_sound(n));
        let now = after.nodes[n as int];
        let was = v.nodes[n as int];
        assert(now.reservations == was.reservations);
        if now.parent is Some {
            assert forall|i: int| 0 <= i < now.reservations.len() implies {
                let held = #[trigger] now.reservations[i];
                &&& after.outstanding(held)
                &&& after.record(held).node == now.parent->0
                &&& after.record(held).owner == Owner::Child(n)
            } by {
                assert(v.outstanding(was.reservations[i]));
                assert(!was.reservations.contains(ticket));
                assert(was.reservations[i] != ticket);
            }
        }
    }
}

/// A grant without its reservation leaves the accounts balanced, and no grant has
/// what it had reserved.
pub proof fn lemma_orphan_sound(v: LedgerView, node: nat)
    requires
        v.sound(),
        node < v.nodes.len(),
        v.nodes[node as int].parent is Some,
    ensures
        v.orphan(node).sound(),
        !v.orphan(node).must_reap(node),
        forall|i: int|
            0 <= i < v.nodes[node as int].reservations.len() ==> unreserved(
                v.orphan(node),
                #[trigger] v.nodes[node as int].reservations[i],
            ),
        forall|m: nat|
            m < v.nodes.len() && m != node ==> #[trigger] v.orphan(node).must_reap(m)
                == v.must_reap(m),
{
    let after = v.orphan(node);
    let at = v.nodes[node as int];
    assert(v.reservation_sound(node));
    assert forall|t: nat| #[trigger] after.outstanding(t) implies after.has_pool(
        after.record(t).node,
        after.record(t).event,
    ) by {
        assert(v.outstanding(t));
    }
    assert forall|n: nat, e: Option<nat>| #[trigger] after.has_pool(n, e) implies after.pool_sound(
        n,
        e,
    ) by {
        assert(v.has_pool(n, e));
        assert(v.pool_sound(n, e));
        assert(after.pool(n, e) == v.pool(n, e));
        assert forall|k: int| 0 <= k < RESOURCES implies #[trigger] after.pool(n, e).used.get(k)
            == tally(after.table, on_pool(n, e, k)) by {
            assert(v.pool(n, e).used.get(k) == tally(v.table, on_pool(n, e, k)));
        }
    }
    assert forall|n: nat| n < after.nodes.len() implies #[trigger] after.node_sound(n) by {
        assert(v.node_sound(n));
    }
    assert forall|n: nat| n < after.nodes.len() implies #[trigger] after.reservation_sound(n) by {
        assert(v.reservation_sound(n));
        if n != node {
            let now = after.nodes[n as int];
            assert(now == v.nodes[n as int]);
            if now.parent is Some {
                assert forall|i: int| 0 <= i < now.reservations.len() implies {
                    let held = #[trigger] now.reservations[i];
                    &&& after.outstanding(held)
                    &&& after.record(held).node == now.parent->0
                    &&& after.record(held).owner == Owner::Child(n)
                } by {
                    assert(v.outstanding(now.reservations[i]));
                }
            }
        }
    }
    assert forall|i: int| 0 <= i < at.reservations.len() implies unreserved(
        after,
        #[trigger] at.reservations[i],
    ) by {
        let ticket = at.reservations[i];
        assert(v.record(ticket).owner == Owner::Child(node));
        assert forall|n: int|
            0 <= n < after.nodes.len() implies !#[trigger] after.nodes[n].reservations.contains(
            ticket,
        ) by {
            if n != node && after.nodes[n].reservations.contains(ticket) {
                assert(v.reservation_sound(n as nat));
                let j = choose|j: int|
                    0 <= j < v.nodes[n].reservations.len() && v.nodes[n].reservations[j] == ticket;
                assert(v.record(v.nodes[n].reservations[j]).owner == Owner::Child(n as nat));
            }
        }
    }
}

/// What releasing and reaping leave as it was: the grants and their authority, and
/// every lease that is no part of a grant's reservation.
pub open spec fn kept(before: LedgerView, after: LedgerView) -> bool {
    &&& after.nodes.len() == before.nodes.len()
    &&& after.table.len() == before.table.len()
    &&& forall|t: nat|
        #[trigger] after.outstanding(t) ==> before.outstanding(t) && after.record(t)
            == before.record(t)
    &&& forall|n: nat| n < before.nodes.len() ==> #[trigger] kept_node(before, after, n)
}

pub open spec fn kept_node(before: LedgerView, after: LedgerView, n: nat) -> bool {
    let a = after.nodes[n as int];
    let b = before.nodes[n as int];
    &&& a.depth == b.depth
    &&& a.limits == b.limits
    &&& a.unrestricted == b.unrestricted
    &&& a.handles == b.handles
    &&& a.active == b.active
    &&& a.revoked == b.revoked
    &&& a.revoking == b.revoking
    &&& a.complete == b.complete
    &&& a.listeners == b.listeners
    &&& a.pool.limits == b.pool.limits
    &&& a.allowances.len() == b.allowances.len()
    &&& forall|i: int|
        0 <= i < b.allowances.len() ==> (#[trigger] a.allowances[i]).permission
            == b.allowances[i].permission && a.allowances[i].pool.limits
            == b.allowances[i].pool.limits
}

/// Leases that belong to no grant survive.
pub open spec fn kept_leases(before: LedgerView, after: LedgerView) -> bool {
    forall|t: nat|
        #![trigger before.outstanding(t)]
        #![trigger after.outstanding(t)]
        before.outstanding(t) && !(before.record(t).owner is Child) ==> after.outstanding(t)
            && after.record(t) == before.record(t)
}

pub proof fn lemma_kept_transitive(a: LedgerView, b: LedgerView, c: LedgerView)
    requires
        kept(a, b),
        kept(b, c),
    ensures
        kept(a, c),
        kept_leases(a, b) && kept_leases(b, c) ==> kept_leases(a, c),
{
    assert forall|t: nat| #[trigger] c.outstanding(t) implies a.outstanding(t) && c.record(t)
        == a.record(t) by {
        assert(b.outstanding(t));
    }
    assert forall|n: nat| n < a.nodes.len() implies #[trigger] kept_node(a, c, n) by {
        assert(kept_node(a, b, n));
        assert(kept_node(b, c, n));
        let x = a.nodes[n as int];
        let y = b.nodes[n as int];
        let z = c.nodes[n as int];
        assert forall|i: int| 0 <= i < x.allowances.len() implies (
        #[trigger] z.allowances[i]).permission == x.allowances[i].permission
            && z.allowances[i].pool.limits == x.allowances[i].pool.limits by {
            assert(y.allowances[i].permission == x.allowances[i].permission);
        }
    }
    if kept_leases(a, b) && kept_leases(b, c) {
        assert forall|t: nat|
            #![trigger a.outstanding(t)]
            #![trigger c.outstanding(t)]
            a.outstanding(t) && !(a.record(t).owner is Child) implies c.outstanding(t)
            && c.record(t) == a.record(t) by {
            assert(b.outstanding(t));
        }
    }
}

pub proof fn lemma_release_kept(v: LedgerView, ticket: nat)
    requires
        v.sound(),
        v.outstanding(ticket),
    ensures
        kept(v, v.release(ticket)),
        v.record(ticket).owner is Child ==> kept_leases(v, v.release(ticket)),
        forall|t: nat|
            v.outstanding(t) && t != ticket ==> #[trigger] v.release(ticket).outstanding(t)
                && v.release(ticket).record(t) == v.record(t),
        !v.release(ticket).outstanding(ticket),
{
    let after = v.release(ticket);
    let record = v.record(ticket);
    lemma_outstanding(v, ticket);
    let at = v.nodes[record.node as int];
    assert(v.node_sound(record.node));
    lemma_with_pool(at, record.event, at.pool_at(record.event).released(record.usage));
    assert forall|n: nat| n < v.nodes.len() implies #[trigger] kept_node(v, after, n) by {}
}

/// Releasing a whole reservation, one lease after the other.
pub proof fn lemma_release_all_sound(v: LedgerView, tickets: Seq<nat>, parent: nat)
    requires
        v.sound(),
        tickets.no_duplicates(),
        parent < v.nodes.len(),
        forall|i: int|
            0 <= i < tickets.len() ==> {
                let ticket = #[trigger] tickets[i];
                &&& v.outstanding(ticket)
                &&& v.record(ticket).node == parent
                &&& v.record(ticket).owner is Child
                &&& unreserved(v, ticket)
            },
    ensures
        v.release_all(tickets).sound(),
        same_tree(v, v.release_all(tickets)),
        kept(v, v.release_all(tickets)),
        kept_leases(v, v.release_all(tickets)),
        forall|m: nat|
            m < v.nodes.len() && m != parent ==> #[trigger] v.release_all(tickets).must_reap(m)
                == v.must_reap(m),
    decreases tickets.len(),
{
    if tickets.len() > 0 {
        let ticket = tickets.last();
        let next = v.release(ticket);
        let rest = tickets.drop_last();
        assert(ticket == tickets[tickets.len() - 1]);
        lemma_release_sound(v, ticket);
        lemma_release_kept(v, ticket);
        assert forall|i: int| 0 <= i < rest.len() implies {
            let other = #[trigger] rest[i];
            &&& next.outstanding(other)
            &&& next.record(other).node == parent
            &&& next.record(other).owner is Child
            &&& unreserved(next, other)
        } by {
            let other = rest[i];
            assert(other == tickets[i]);
            assert(other != ticket);
            assert(v.outstanding(other));
            assert(next.outstanding(other));
            assert forall|n: int|
                0 <= n < next.nodes.len() implies !#[trigger] next.nodes[n].reservations.contains(
                other,
            ) by {
                assert(next.nodes[n].reservations == v.nodes[n].reservations);
                assert(!v.nodes[n].reservations.contains(other));
            }
        }
        lemma_release_all_sound(next, rest, parent);
        lemma_kept_transitive(v, next, next.release_all(rest));
        assert forall|m: nat| m < v.nodes.len() && m != parent implies #[trigger] v.release_all(
            tickets,
        ).must_reap(m) == v.must_reap(m) by {
            assert(next.must_reap(m) == v.must_reap(m));
            assert(next.release_all(rest).must_reap(m) == next.must_reap(m));
        }
    } else {
        lemma_kept_refl(v);
    }
}

pub proof fn lemma_kept_refl(v: LedgerView)
    ensures
        kept(v, v),
        kept_leases(v, v),
{
    assert forall|n: nat| n < v.nodes.len() implies #[trigger] kept_node(v, v, n) by {}
}

/// Reaping from the one grant that may be out of order puts the ledger in order.
pub proof fn lemma_reap_wf(v: LedgerView, node: nat)
    requires
        v.sound(),
        node < v.nodes.len(),
        forall|m: nat| m < v.nodes.len() && m != node ==> !#[trigger] v.must_reap(m),
    ensures
        v.reap(node).wf(),
        kept(v, v.reap(node)),
        kept_leases(v, v.reap(node)),
    decreases v.nodes[node as int].depth,
{
    if v.must_reap(node) {
        let at = v.nodes[node as int];
        let parent = at.parent->0;
        let alone = v.orphan(node);
        assert(v.reservation_sound(node));
        lemma_orphan_sound(v, node);
        assert forall|n: nat| n < v.nodes.len() implies #[trigger] kept_node(v, alone, n) by {}
        assert(kept(v, alone)) by {
            assert forall|t: nat| #[trigger] alone.outstanding(t) implies v.outstanding(t)
                && alone.record(t) == v.record(t) by {}
        }
        assert(kept_leases(v, alone)) by {
            assert forall|t: nat|
                v.outstanding(t) && !(v.record(t).owner is Child) implies #[trigger] alone.outstanding(
                t,
            ) && alone.record(t) == v.record(t) by {}
        }
        assert forall|i: int| 0 <= i < at.reservations.len() implies {
            let ticket = #[trigger] at.reservations[i];
            &&& alone.outstanding(ticket)
            &&& alone.record(ticket).node == parent
            &&& alone.record(ticket).owner is Child
            &&& unreserved(alone, ticket)
        } by {
            assert(v.outstanding(at.reservations[i]));
        }
        lemma_release_all_sound(alone, at.reservations, parent);
        let next = alone.release_all(at.reservations);
        lemma_kept_transitive(v, alone, next);
        assert forall|m: nat| m < next.nodes.len() && m != parent implies !#[trigger] next.must_reap(
            m,
        ) by {
            assert(next.must_reap(m) == alone.must_reap(m));
            if m != node {
                assert(alone.must_reap(m) == v.must_reap(m));
            }
        }
        lemma_reap_wf(next, parent);
        lemma_kept_transitive(v, next, next.reap(parent));
    } else {
        lemma_kept_refl(v);
    }
}

/// The two ledgers differ at most in handles, admissions, revocation and listeners.
pub open spec fn same_accounts(before: LedgerView, after: LedgerView) -> bool {
    &&& after.nodes.len() == before.nodes.len()
    &&& after.table == before.table
    &&& forall|n: int|
        0 <= n < before.nodes.len() ==> {
            let a = #[trigger] after.nodes[n];
            let b = before.nodes[n];
            &&& a.limits == b.limits
            &&& a.pool == b.pool
            &&& a.unrestricted == b.unrestricted
            &&& a.allowances == b.allowances
            &&& a.parent == b.parent
            &&& a.reservations == b.reservations
            &&& a.leases == b.leases
            &&& a.depth == b.depth
        }
}

/// Whoever descends from a revoked grant is revoked, and only a revoked grant has
/// completed its revocation.
pub open spec fn revocation_sound(v: LedgerView) -> bool {
    &&& forall|n: nat|
        n < v.nodes.len() && (#[trigger] v.nodes[n as int]).parent is Some
            && v.nodes[v.nodes[n as int].parent->0 as int].revoked ==> v.nodes[n as int].revoked
    &&& forall|n: nat|
        n < v.nodes.len() && (#[trigger] v.nodes[n as int]).complete ==> v.nodes[n as int].revoked
}

pub proof fn lemma_same_accounts(before: LedgerView, after: LedgerView)
    requires
        before.sound(),
        same_accounts(before, after),
        revocation_sound(after),
    ensures
        after.sound(),
{
    assert forall|t: nat| #[trigger] after.outstanding(t) implies after.has_pool(
        after.record(t).node,
        after.record(t).event,
    ) by {
        assert(before.outstanding(t));
    }
    assert forall|n: nat, e: Option<nat>| #[trigger] after.has_pool(n, e) implies after.pool_sound(
        n,
        e,
    ) by {
        assert(before.has_pool(n, e));
        assert(before.pool_sound(n, e));
        assert(after.nodes[n as int].pool == before.nodes[n as int].pool);
        assert(after.pool(n, e) == before.pool(n, e));
        assert forall|k: int| 0 <= k < RESOURCES implies #[trigger] after.pool(n, e).used.get(k)
            == tally(after.table, on_pool(n, e, k)) by {
            assert(before.pool(n, e).used.get(k) == tally(before.table, on_pool(n, e, k)));
        }
    }
    assert forall|n: nat| n < after.nodes.len() implies #[trigger] after.node_sound(n) by {
        assert(before.node_sound(n));
        assert(after.nodes[n as int].pool == before.nodes[n as int].pool);
    }
    assert forall|n: nat| n < after.nodes.len() implies #[trigger] after.reservation_sound(n) by {
        assert(before.reservation_sound(n));
        let now = after.nodes[n as int];
        assert(now.reservations == before.nodes[n as int].reservations);
        if now.parent is Some {
            let parent = now.parent->0;
            assert(after.nodes[parent as int].depth == before.nodes[parent as int].depth);
            assert forall|i: int| 0 <= i < now.reservations.len() implies {
                let held = #[trigger] now.reservations[i];
                &&& after.outstanding(held)
                &&& after.record(held).node == now.parent->0
                &&& after.record(held).owner == Owner::Child(n)
            } by {
                assert(before.outstanding(before.nodes[n as int].reservations[i]));
            }
        }
    }
}

pub proof fn lemma_revocation_sound(v: LedgerView)
    requires
        v.sound(),
    ensures
        revocation_sound(v),
{
    assert forall|n: nat|
        n < v.nodes.len() && (#[trigger] v.nodes[n as int]).parent is Some
            && v.nodes[v.nodes[n as int].parent->0 as int].revoked implies v.nodes[n as int].revoked by {
        assert(v.reservation_sound(n));
    }
    assert forall|n: nat|
        n < v.nodes.len() && (#[trigger] v.nodes[n as int]).complete implies v.nodes[n as int].revoked by {
        assert(v.node_sound(n));
    }
}

/// Whom a lease belongs to is no part of the accounts.
pub proof fn lemma_assign_wf(v: LedgerView, ticket: nat, owner: Owner)
    requires
        v.wf(),
        v.outstanding(ticket),
        !(v.record(ticket).owner is Child),
    ensures
        v.assign(ticket, owner).wf(),
{
    let after = v.assign(ticket, owner);
    let record = v.record(ticket);
    lemma_unreserved(v, ticket);
    assert forall|t: nat| #[trigger] after.outstanding(t) implies after.has_pool(
        after.record(t).node,
        after.record(t).event,
    ) by {
        assert(v.outstanding(t));
    }
    assert forall|n: nat, e: Option<nat>| #[trigger] after.has_pool(n, e) implies after.pool_sound(
        n,
        e,
    ) by {
        assert(v.has_pool(n, e));
        assert(v.pool_sound(n, e));
        assert forall|k: int| 0 <= k < RESOURCES implies #[trigger] after.pool(n, e).used.get(k)
            == tally(after.table, on_pool(n, e, k)) by {
            assert(v.pool(n, e).used.get(k) == tally(v.table, on_pool(n, e, k)));
            lemma_tally_update(
                v.table,
                ticket as int,
                after.table[ticket as int],
                on_pool(n, e, k),
            );
        }
    }
    assert forall|n: nat| n < after.nodes.len() implies #[trigger] after.node_sound(n) by {
        assert(v.node_sound(n));
        lemma_tally_update(v.table, ticket as int, after.table[ticket as int], on_node(n));
    }
    assert forall|n: nat| n < after.nodes.len() implies #[trigger] after.reservation_sound(n) by {
        assert(v.reservation_sound(n));
        let now = after.nodes[n as int];
        if now.parent is Some {
            assert forall|i: int| 0 <= i < now.reservations.len() implies {
                let held = #[trigger] now.reservations[i];
                &&& after.outstanding(held)
                &&& after.record(held).node == now.parent->0
                &&& after.record(held).owner == Owner::Child(n)
            } by {
                assert(v.outstanding(now.reservations[i]));
                assert(!v.nodes[n as int].reservations.contains(ticket));
            }
        }
    }
    assert forall|n: nat| n < after.nodes.len() implies !#[trigger] after.must_reap(n) by {
        assert(!v.must_reap(n));
    }
}

/// Whoever's parent descends from a grant does so too.
pub proof fn lemma_descends_child(v: LedgerView, n: nat, ancestor: nat)
    requires
        v.sound(),
        n < v.nodes.len(),
        v.nodes[n as int].parent is Some,
        v.descends(v.nodes[n as int].parent->0, ancestor),
    ensures
        v.descends(n, ancestor),
{
    assert(v.reservation_sound(n));
}

/// Descent is decided by parents and depths alone.
pub proof fn lemma_descends_same(a: LedgerView, b: LedgerView, n: nat, ancestor: nat)
    requires
        a.sound(),
        a.nodes.len() == b.nodes.len(),
        n < a.nodes.len(),
        forall|m: int|
            0 <= m < a.nodes.len() ==> (#[trigger] b.nodes[m]).parent == a.nodes[m].parent
                && b.nodes[m].depth == a.nodes[m].depth,
    ensures
        a.descends(n, ancestor) == b.descends(n, ancestor),
    decreases a.nodes[n as int].depth,
{
    assert(a.reservation_sound(n));
    assert(b.nodes[n as int].parent == a.nodes[n as int].parent);
    if n != ancestor && a.nodes[n as int].parent is Some {
        let parent = a.nodes[n as int].parent->0;
        assert(b.nodes[parent as int].depth == a.nodes[parent as int].depth);
        lemma_descends_same(a, b, parent, ancestor);
    }
}

/// Cutting off a subtree keeps the ledger in order.
pub proof fn lemma_cut_off_wf(v: LedgerView, node: nat)
    requires
        v.wf(),
        node < v.nodes.len(),
    ensures
        v.cut_off(node).wf(),
{
    let after = v.cut_off(node);
    lemma_revocation_sound(v);
    assert forall|n: nat|
        n < after.nodes.len() && (#[trigger] after.nodes[n as int]).parent is Some
            && after.nodes[after.nodes[n as int].parent->0 as int].revoked implies after.nodes[n as int].revoked by {
        assert(v.reservation_sound(n));
        let parent = v.nodes[n as int].parent->0;
        if !v.nodes[parent as int].revoked {
            lemma_descends_child(v, n, node);
        }
    }
    lemma_same_accounts(v, after);
    assert forall|n: nat| n < after.nodes.len() implies !#[trigger] after.must_reap(n) by {
        assert(!v.must_reap(n));
        assert(v.reservation_sound(n));
    }
}

/// All that descend from a revoked grant are revoked.
pub proof fn lemma_subtree_revoked(v: LedgerView, n: nat, ancestor: nat)
    requires
        v.sound(),
        n < v.nodes.len(),
        v.descends(n, ancestor),
        v.nodes[ancestor as int].revoked,
    ensures
        v.nodes[n as int].revoked,
    decreases v.nodes[n as int].depth,
{
    assert(v.reservation_sound(n));
    if n != ancestor {
        lemma_subtree_revoked(v, v.nodes[n as int].parent->0, ancestor);
    }
}

/// Completing a cutoff keeps the ledger in order.
pub proof fn lemma_cutoff_complete_wf(v: LedgerView, node: nat)
    requires
        v.wf(),
        node < v.nodes.len(),
        v.nodes[node as int].revoked,
    ensures
        v.cutoff_complete(node).wf(),
{
    let after = v.cutoff_complete(node);
    lemma_revocation_sound(v);
    assert forall|n: nat|
        n < after.nodes.len() && (#[trigger] after.nodes[n as int]).complete implies after.nodes[n as int].revoked by {
        if v.descends(n, node) {
            lemma_subtree_revoked(v, n, node);
        }
    }
    assert forall|n: nat|
        n < after.nodes.len() && (#[trigger] after.nodes[n as int]).parent is Some
            && after.nodes[after.nodes[n as int].parent->0 as int].revoked implies after.nodes[n as int].revoked by {
        assert(v.reservation_sound(n));
    }
    lemma_same_accounts(v, after);
    assert forall|n: nat| n < after.nodes.len() implies !#[trigger] after.must_reap(n) by {
        assert(!v.must_reap(n));
        assert(v.reservation_sound(n));
    }
}

/// A change of one grant that touches neither its accounts, its revocation nor its
/// place keeps the accounts balanced.
pub proof fn lemma_node_change(before: LedgerView, after: LedgerView)
    requires
        before.sound(),
        same_accounts(before, after),
        forall|n: int|
            0 <= n < before.nodes.len() ==> (#[trigger] after.nodes[n]).revoked
                == before.nodes[n].revoked && after.nodes[n].complete == before.nodes[n].complete,
    ensures
        after.sound(),
{
    lemma_revocation_sound(before);
    assert forall|n: nat|
        n < after.nodes.len() && (#[trigger] after.nodes[n as int]).parent is Some
            && after.nodes[after.nodes[n as int].parent->0 as int].revoked implies after.nodes[n as int].revoked by {
        assert(before.reservation_sound(n));
        let parent = before.nodes[n as int].parent->0;
        assert(after.nodes[parent as int].revoked == before.nodes[parent as int].revoked);
    }
    assert forall|n: nat|
        n < after.nodes.len() && (#[trigger] after.nodes[n as int]).complete implies after.nodes[n as int].revoked by {
        assert(before.nodes[n as int].complete);
    }
    lemma_same_accounts(before, after);
}

} // verus!

//! How each step of a fabric keeps it in order.
use crate::derive_laws::extends;
use crate::fabric_model::{Declaration, FabricView, StreamConfig, StreamView};
use crate::item::SubscriptionRole;
use crate::ledger_laws::{
    kept, kept_leases, kept_node, lemma_assign_wf, lemma_charge_wf, lemma_kept_transitive,
    lemma_outstanding,
    lemma_reap_wf, lemma_release_kept, lemma_release_sound, lemma_unreserved,
};
use crate::ledger_model::{
    lemma_tally_member, lemma_tally_push, lemma_tally_update, of_owner, tally, weight, LeaseRecord,
    LedgerView, Owner,
};
use vstd::prelude::*;

verus! {

/// Tables with the same weights have the same tally.
pub proof fn lemma_tally_agree(
    before: Seq<Option<LeaseRecord>>,
    after: Seq<Option<LeaseRecord>>,
    weigh: spec_fn(LeaseRecord) -> nat,
)
    requires
        before.len() == after.len(),
        forall|t: int|
            #![trigger before[t]]
            #![trigger after[t]]
            0 <= t < before.len() ==> weight(before[t], weigh) == weight(after[t], weigh),
    ensures
        tally(before, weigh) == tally(after, weigh),
    decreases before.len(),
{
    if before.len() > 0 {
        let last = before.len() - 1;
        assert(weight(before[last], weigh) == weight(after[last], weigh));
        assert forall|t: int|
            #![trigger before.drop_last()[t]]
            #![trigger after.drop_last()[t]]
            0 <= t < before.drop_last().len() implies weight(before.drop_last()[t], weigh)
            == weight(after.drop_last()[t], weigh) by {
            assert(weight(before[t], weigh) == weight(after[t], weigh));
        }
        lemma_tally_agree(before.drop_last(), after.drop_last(), weigh);
    }
}

/// A retained publication holds its charge.
pub proof fn lemma_claims_entry<P>(v: FabricView<P>, s: nat, i: int)
    requires
        s < v.streams.len(),
        0 <= i < v.streams[s as int].entries.len(),
    ensures
        v.claims(Owner::Entry(s, v.streams[s as int].entries[i].sequence as nat)),
{
    let q = v.streams[s as int].entries[i].sequence as nat;
    assert(v.streams[s as int].entries[i].sequence == q);
}

/// The two streams differ at most in their counters and flags.
pub open spec fn same_stream<P>(a: StreamView<P>, b: StreamView<P>) -> bool {
    &&& a.declaration == b.declaration
    &&& a.config == b.config
    &&& a.entries == b.entries
    &&& a.subscribers == b.subscribers
    &&& a.tail == b.tail
    &&& a.next_cursor == b.next_cursor
    &&& a.closed == b.closed
    &&& a.storage == b.storage
}

/// The pending operations of every stream are counted.
pub open spec fn waiters_counted<P>(v: FabricView<P>) -> bool {
    &&& forall|s: nat|
        s < v.streams.len() ==> (#[trigger] v.streams[s as int]).waiters == tally(
            v.ledger.table,
            of_owner(Owner::Waiter(s)),
        ) && v.streams[s as int].waiters <= v.streams[s as int].config.waiters
    &&& forall|s: nat|
        s >= v.streams.len() ==> #[trigger] tally(v.ledger.table, of_owner(Owner::Waiter(s))) == 0
}

/// What the fabric holds is outstanding in `after`, and whose it is stays cut off.
pub open spec fn claims_kept<P>(v: FabricView<P>, after: LedgerView) -> bool {
    &&& v.ledger.nodes.len() <= after.nodes.len()
    &&& forall|t: nat|
        #![trigger v.ledger.outstanding(t)]
        #![trigger after.outstanding(t)]
        v.ledger.outstanding(t) && v.claims(v.ledger.record(t).owner) ==> after.outstanding(t)
            && after.record(t) == v.ledger.record(t) && stays_revoked(
            v.ledger,
            after,
            v.ledger.record(t).node,
        )
}

/// A grant that is cut off stays cut off.
pub open spec fn stays_revoked(before: LedgerView, after: LedgerView, node: nat) -> bool {
    before.nodes[node as int].revoked ==> after.nodes[node as int].revoked
}

/// Those who have a charge outstanding stay cut off.
proof fn lemma_kept_revoked(before: LedgerView, after: LedgerView)
    requires
        before.wf(),
        kept(before, after),
    ensures
        forall|t: nat| #[trigger]
            before.outstanding(t) ==> stays_revoked(before, after, before.record(t).node),
{
    assert forall|t: nat| #[trigger] before.outstanding(t) implies stays_revoked(
        before,
        after,
        before.record(t).node,
    ) by {
        assert(before.has_pool(before.record(t).node, before.record(t).event));
        assert(kept_node(before, after, before.record(t).node));
    }
}

/// A change of the ledger, of counters and of flags that keeps what the fabric holds
/// keeps the fabric in order.
pub proof fn lemma_change<P>(v: FabricView<P>, w: FabricView<P>)
    requires
        v.wf(),
        w.ledger.wf(),
        w.streams.len() == v.streams.len(),
        forall|s: int| 0 <= s < v.streams.len() ==> same_stream(#[trigger] w.streams[s], v.streams[s]),
        waiters_counted(w),
        claims_kept(v, w.ledger),
    ensures
        w.wf(),
{
    assert forall|s: nat| s < w.streams.len() implies #[trigger] w.stream_sound(s) by {
        assert(v.stream_sound(s));
        let old = v.streams[s as int];
        let st = w.streams[s as int];
        assert(same_stream(st, old));
        assert forall|i: int| #![trigger st.entries[i]] 0 <= i < st.entries.len() implies {
            &&& st.entries[i].sequence == st.tail - st.entries.len() + i
            &&& w.ledger.outstanding(st.entries[i].ticket)
            &&& w.ledger.record(st.entries[i].ticket).owner == Owner::Entry(
                s,
                st.entries[i].sequence as nat,
            )
        } by {
            lemma_claims_entry(v, s, i);
            assert(v.claims(Owner::Entry(s, st.entries[i].sequence as nat)));
            assert(v.ledger.outstanding(old.entries[i].ticket));
        }
        assert forall|i: int|
            #![trigger st.subscribers[i]]
            0 <= i < st.subscribers.len() && st.subscribers[i] is Some implies {
            let cursor = st.subscribers[i]->0;
            &&& cursor.next <= st.tail
            &&& cursor.id < st.next_cursor
            &&& cursor.node < w.ledger.nodes.len()
            &&& w.ledger.outstanding(cursor.ticket)
            &&& w.ledger.record(cursor.ticket).node == cursor.node
            &&& w.ledger.record(cursor.ticket).owner == Owner::Receiver(s, cursor.id as nat)
            &&& cursor.role == SubscriptionRole::Required
                && !w.ledger.nodes[cursor.node as int].revoked ==> st.tail - st.entries.len()
                <= cursor.next
        } by {
            let cursor = st.subscribers[i]->0;
            assert(v.streams[s as int].subscribers[i] is Some);
            assert(v.claims(Owner::Receiver(s, cursor.id as nat)));
            assert(v.ledger.outstanding(cursor.ticket));
        }
        assert forall|i: int, j: int|
            #![trigger st.subscribers[i], st.subscribers[j]]
            0 <= i < j < st.subscribers.len() && st.subscribers[i] is Some
                && st.subscribers[j] is Some implies st.subscribers[i]->0.id
            != st.subscribers[j]->0.id by {
            assert(old.subscribers[i] is Some && old.subscribers[j] is Some);
        }
        assert(v.claims(Owner::Storage(s)));
        assert(v.ledger.outstanding(st.storage));
    }
    assert forall|a: int, b: int|
        #![trigger w.streams[a], w.streams[b]]
        0 <= a < b < w.streams.len() implies w.streams[a].declaration.event
        != w.streams[b].declaration.event by {
        assert(v.streams[a].declaration.event != v.streams[b].declaration.event);
    }
}

pub proof fn lemma_waiters_counted<P>(v: FabricView<P>)
    requires
        v.wf(),
    ensures
        waiters_counted(v),
{
    assert forall|s: nat| s < v.streams.len() implies (#[trigger] v.streams[s as int]).waiters
        == tally(v.ledger.table, of_owner(Owner::Waiter(s))) && v.streams[s as int].waiters
        <= v.streams[s as int].config.waiters by {
        assert(v.stream_sound(s));
    }
}

/// A change of wakeups and flags alone keeps the fabric in order.
pub proof fn lemma_flags<P>(v: FabricView<P>, w: FabricView<P>)
    requires
        v.wf(),
        w.ledger.wf(),
        w.ledger.table == v.ledger.table,
        w.ledger.nodes.len() == v.ledger.nodes.len(),
        forall|n: nat|
            n < v.ledger.nodes.len() ==> #[trigger] stays_revoked(v.ledger, w.ledger, n),
        w.streams.len() == v.streams.len(),
        forall|s: int|
            0 <= s < v.streams.len() ==> same_stream(#[trigger] w.streams[s], v.streams[s])
                && w.streams[s].waiters == v.streams[s].waiters,
    ensures
        w.wf(),
{
    lemma_waiters_counted(v);
    assert(waiters_counted(w)) by {
        assert forall|s: nat| s < w.streams.len() implies (#[trigger] w.streams[s as int]).waiters
            == tally(w.ledger.table, of_owner(Owner::Waiter(s))) && w.streams[s as int].waiters
            <= w.streams[s as int].config.waiters by {
            assert(v.streams[s as int].waiters == tally(
                v.ledger.table,
                of_owner(Owner::Waiter(s)),
            ));
        }
    }
    assert(claims_kept(v, w.ledger)) by {
        assert forall|t: nat|
            #![trigger v.ledger.outstanding(t)]
            #![trigger w.ledger.outstanding(t)]
            v.ledger.outstanding(t) && v.claims(
                v.ledger.record(t).owner,
            ) implies w.ledger.outstanding(t) && w.ledger.record(t) == v.ledger.record(t)
            && stays_revoked(v.ledger, w.ledger, v.ledger.record(t).node) by {
            lemma_outstanding(v.ledger, t);
        }
    }
    lemma_change(v, w);
}

/// What is left of the ledger after the charge `ticket` has returned.
pub open spec fn released(before: LedgerView, after: LedgerView, ticket: nat) -> bool {
    &&& kept(before, after)
    &&& !after.outstanding(ticket)
    &&& forall|t: nat|
        #![trigger before.outstanding(t)]
        #![trigger after.outstanding(t)]
        t != ticket && before.outstanding(t) && !(before.record(t).owner is Child)
            ==> after.outstanding(t) && after.record(t) == before.record(t)
}

/// Releasing a charge takes one from the count of its owner.
pub proof fn lemma_released_tally(
    before: LedgerView,
    after: LedgerView,
    ticket: nat,
    owner: Owner,
)
    requires
        released(before, after, ticket),
        before.outstanding(ticket),
        !(owner is Child),
    ensures
        tally(after.table, of_owner(owner)) == tally(before.table, of_owner(owner)) - if before.record(
            ticket,
        ).owner == owner {
            1int
        } else {
            0int
        },
{
    let middle = before.table.update(ticket as int, None);
    lemma_tally_update(before.table, ticket as int, None, of_owner(owner));
    assert forall|t: int|
        #![trigger middle[t]]
        #![trigger after.table[t]]
        0 <= t < middle.len() implies weight(middle[t], of_owner(owner)) == weight(
        after.table[t],
        of_owner(owner),
    ) by {
        let k = t as nat;
        if t != ticket {
            assert(before.outstanding(k) == (before.table[t] is Some));
            assert(after.outstanding(k) == (after.table[t] is Some));
        } else {
            assert(after.outstanding(k) == (after.table[t] is Some));
        }
    }
    lemma_tally_agree(middle, after.table, of_owner(owner));
}

/// Returning a charge that nothing in the fabric holds keeps it in order.
pub proof fn lemma_release<P>(v: FabricView<P>, after: LedgerView, ticket: nat)
    requires
        v.wf(),
        after.wf(),
        v.ledger.outstanding(ticket),
        released(v.ledger, after, ticket),
        !(v.ledger.record(ticket).owner is Child),
        !(v.ledger.record(ticket).owner is Waiter),
        !v.claims(v.ledger.record(ticket).owner),
    ensures
        v.with_ledger(after).wf(),
        claims_kept(v, after),
{
    let w = v.with_ledger(after);
    lemma_waiters_counted(v);
    assert(waiters_counted(w)) by {
        assert forall|s: nat| s < w.streams.len() implies (#[trigger] w.streams[s as int]).waiters
            == tally(w.ledger.table, of_owner(Owner::Waiter(s))) && w.streams[s as int].waiters
            <= w.streams[s as int].config.waiters by {
            lemma_released_tally(v.ledger, after, ticket, Owner::Waiter(s));
            assert(v.streams[s as int].waiters == tally(
                v.ledger.table,
                of_owner(Owner::Waiter(s)),
            ));
        }
        assert forall|s: nat| s >= w.streams.len() implies #[trigger] tally(
            w.ledger.table,
            of_owner(Owner::Waiter(s)),
        ) == 0 by {
            lemma_released_tally(v.ledger, after, ticket, Owner::Waiter(s));
        }
    }
    lemma_kept_revoked(v.ledger, after);
    lemma_change(v, w);
}

/// Charging keeps the fabric in order.
pub proof fn lemma_charge<P>(v: FabricView<P>, after: LedgerView, record: LeaseRecord)
    requires
        v.wf(),
        after.wf(),
        after.table == v.ledger.table.push(Some(record)),
        after.nodes.len() == v.ledger.nodes.len(),
        forall|n: nat|
            n < v.ledger.nodes.len() ==> #[trigger] stays_revoked(v.ledger, after, n),
        !(record.owner is Waiter),
    ensures
        v.with_ledger(after).wf(),
        claims_kept(v, after),
{
    let w = v.with_ledger(after);
    lemma_waiters_counted(v);
    assert(waiters_counted(w)) by {
        assert forall|s: nat| s < w.streams.len() implies (#[trigger] w.streams[s as int]).waiters
            == tally(w.ledger.table, of_owner(Owner::Waiter(s))) && w.streams[s as int].waiters
            <= w.streams[s as int].config.waiters by {
            lemma_tally_push(v.ledger.table, Some(record), of_owner(Owner::Waiter(s)));
            assert(v.streams[s as int].waiters == tally(
                v.ledger.table,
                of_owner(Owner::Waiter(s)),
            ));
        }
        assert forall|s: nat| s >= w.streams.len() implies #[trigger] tally(
            w.ledger.table,
            of_owner(Owner::Waiter(s)),
        ) == 0 by {
            lemma_tally_push(v.ledger.table, Some(record), of_owner(Owner::Waiter(s)));
        }
    }
    assert(claims_kept(v, after)) by {
        assert forall|t: nat|
            #![trigger v.ledger.outstanding(t)]
            #![trigger after.outstanding(t)]
            v.ledger.outstanding(t) && v.claims(v.ledger.record(t).owner) implies after.outstanding(
            t,
        ) && after.record(t) == v.ledger.record(t) && stays_revoked(
            v.ledger,
            after,
            v.ledger.record(t).node,
        ) by {
            lemma_outstanding(v.ledger, t);
            assert(after.table[t as int] == v.ledger.table[t as int]);
        }
    }
    lemma_change(v, w);
}

/// Only stream `s` differs, and only in what [`FabricView::entries_sound`] and
/// [`FabricView::cursors_sound`] speak of.
pub proof fn lemma_one_stream<P>(v: FabricView<P>, w: FabricView<P>, s: nat)
    requires
        v.wf(),
        w.ledger.wf(),
        s < v.streams.len(),
        w.streams.len() == v.streams.len(),
        forall|r: int| 0 <= r < v.streams.len() && r != s ==> #[trigger] w.streams[r] == v.streams[r],
        w.streams[s as int].declaration == v.streams[s as int].declaration,
        w.streams[s as int].config == v.streams[s as int].config,
        w.streams[s as int].waiters == v.streams[s as int].waiters,
        w.streams[s as int].storage == v.streams[s as int].storage,
        v.ledger.nodes.len() <= w.ledger.nodes.len(),
        forall|r: nat|
            #[trigger] tally(w.ledger.table, of_owner(Owner::Waiter(r))) == tally(
                v.ledger.table,
                of_owner(Owner::Waiter(r)),
            ),
        forall|t: nat|
            #![trigger v.ledger.outstanding(t)]
            #![trigger w.ledger.outstanding(t)]
            v.ledger.outstanding(t) && v.claims(v.ledger.record(t).owner) ==> w.ledger.outstanding(
                t,
            ) && w.ledger.record(t) == v.ledger.record(t) && stays_revoked(
                v.ledger,
                w.ledger,
                v.ledger.record(t).node,
            ),
        w.entries_sound(s),
        w.cursors_sound(s),
    ensures
        w.wf(),
{
    assert(v.stream_sound(s));
    assert forall|r: nat| r < w.streams.len() implies #[trigger] w.stream_sound(r) by {
        assert(v.stream_sound(r));
        assert(v.claims(Owner::Storage(r)));
        assert(v.ledger.outstanding(v.streams[r as int].storage));
        if r != s {
            let st = w.streams[r as int];
            assert(st == v.streams[r as int]);
            assert forall|i: int| #![trigger st.entries[i]] 0 <= i < st.entries.len() implies {
                &&& st.entries[i].sequence == st.tail - st.entries.len() + i
                &&& w.ledger.outstanding(st.entries[i].ticket)
                &&& w.ledger.record(st.entries[i].ticket).owner == Owner::Entry(
                    r,
                    st.entries[i].sequence as nat,
                )
            } by {
                lemma_claims_entry(v, r, i);
                assert(v.claims(Owner::Entry(r, st.entries[i].sequence as nat)));
                assert(v.ledger.outstanding(st.entries[i].ticket));
            }
            assert forall|i: int|
                #![trigger st.subscribers[i]]
                0 <= i < st.subscribers.len() && st.subscribers[i] is Some implies {
                let cursor = st.subscribers[i]->0;
                &&& cursor.next <= st.tail
                &&& cursor.id < st.next_cursor
                &&& cursor.node < w.ledger.nodes.len()
                &&& w.ledger.outstanding(cursor.ticket)
                &&& w.ledger.record(cursor.ticket).node == cursor.node
                &&& w.ledger.record(cursor.ticket).owner == Owner::Receiver(r, cursor.id as nat)
                &&& cursor.role == SubscriptionRole::Required
                    && !w.ledger.nodes[cursor.node as int].revoked ==> st.tail - st.entries.len()
                    <= cursor.next
            } by {
                let cursor = st.subscribers[i]->0;
                assert(v.streams[r as int].subscribers[i] is Some);
                assert(v.claims(Owner::Receiver(r, cursor.id as nat)));
                assert(v.ledger.outstanding(cursor.ticket));
            }
        }
        assert(tally(w.ledger.table, of_owner(Owner::Waiter(r))) == tally(
            v.ledger.table,
            of_owner(Owner::Waiter(r)),
        ));
    }
    assert forall|a: int, b: int|
        #![trigger w.streams[a], w.streams[b]]
        0 <= a < b < w.streams.len() implies w.streams[a].declaration.event
        != w.streams[b].declaration.event by {
        assert(v.streams[a].declaration.event != v.streams[b].declaration.event);
    }
}

/// Taking the oldest publication out keeps the fabric in order.
pub proof fn lemma_without_front<P>(v: FabricView<P>, s: nat)
    requires
        v.wf(),
        s < v.streams.len(),
        v.streams[s as int].entries.len() > 0,
        !v.required_needs(s, v.streams[s as int].entries[0].sequence),
    ensures
        v.without_front(s).wf(),
        !v.without_front(s).claims(
            Owner::Entry(s, v.streams[s as int].entries[0].sequence as nat),
        ),
{
    let w = v.without_front(s);
    let st = v.streams[s as int];
    let now = w.streams[s as int];
    assert(v.stream_sound(s));
    assert forall|i: int| #![trigger now.entries[i]] 0 <= i < now.entries.len() implies {
        &&& now.entries[i].sequence == now.tail - now.entries.len() + i
        &&& w.ledger.outstanding(now.entries[i].ticket)
        &&& w.ledger.record(now.entries[i].ticket).owner == Owner::Entry(
            s,
            now.entries[i].sequence as nat,
        )
    } by {
        assert(now.entries[i] == st.entries[i + 1]);
    }
    assert(st.entries[0].sequence == st.tail - st.entries.len());
    assert(w.cursors_sound(s)) by {
        assert forall|i: int|
            0 <= i < st.subscribers.len() && (#[trigger] st.subscribers[i]) is Some
                && st.subscribers[i]->0.role == SubscriptionRole::Required
                && !v.ledger.nodes[st.subscribers[i]->0.node as int].revoked implies st.entries[0].sequence
            < st.subscribers[i]->0.next by {
            assert(!v.holds_back(s, i, st.entries[0].sequence));
        }
    }
    lemma_one_stream(v, w, s);
}

/// Admitting a publication with its charge keeps the fabric in order.
pub proof fn lemma_append<P>(v: FabricView<P>, s: nat, value: P, ticket: nat)
    requires
        v.wf(),
        s < v.streams.len(),
        !v.streams[s as int].closed,
        !v.streams[s as int].full(),
        v.streams[s as int].tail < u64::MAX,
        v.ledger.outstanding(ticket),
        v.ledger.record(ticket).owner == Owner::Caller,
    ensures
        v.append(s, value, ticket).wf(),
{
    let st = v.streams[s as int];
    let w = v.append(s, value, ticket);
    let now = w.streams[s as int];
    let owner = Owner::Entry(s, st.tail as nat);
    assert(v.stream_sound(s));
    lemma_assign_wf(v.ledger, ticket, owner);
    assert forall|r: nat|
        #[trigger] tally(w.ledger.table, of_owner(Owner::Waiter(r))) == tally(
            v.ledger.table,
            of_owner(Owner::Waiter(r)),
        ) by {
        lemma_tally_update(
            v.ledger.table,
            ticket as int,
            w.ledger.table[ticket as int],
            of_owner(Owner::Waiter(r)),
        );
    }
    assert forall|t: nat|
        #![trigger v.ledger.outstanding(t)]
        #![trigger w.ledger.outstanding(t)]
        v.ledger.outstanding(t) && v.claims(v.ledger.record(t).owner) implies w.ledger.outstanding(
        t,
    ) && w.ledger.record(t) == v.ledger.record(t) by {
        assert(t != ticket);
    }
    assert forall|i: int| #![trigger now.entries[i]] 0 <= i < now.entries.len() implies {
        &&& now.entries[i].sequence == now.tail - now.entries.len() + i
        &&& w.ledger.outstanding(now.entries[i].ticket)
        &&& w.ledger.record(now.entries[i].ticket).owner == Owner::Entry(
            s,
            now.entries[i].sequence as nat,
        )
    } by {
        if i < st.entries.len() {
            assert(now.entries[i] == st.entries[i]);
            assert(v.ledger.record(st.entries[i].ticket).owner != Owner::Caller);
        }
    }
    assert forall|i: int|
        #![trigger now.subscribers[i]]
        0 <= i < now.subscribers.len() && now.subscribers[i] is Some implies {
        let cursor = now.subscribers[i]->0;
        &&& cursor.next <= now.tail
        &&& cursor.id < now.next_cursor
        &&& cursor.node < w.ledger.nodes.len()
        &&& w.ledger.outstanding(cursor.ticket)
        &&& w.ledger.record(cursor.ticket).node == cursor.node
        &&& w.ledger.record(cursor.ticket).owner == Owner::Receiver(s, cursor.id as nat)
    } by {
        assert(st.subscribers[i] is Some);
    }
    lemma_one_stream(v, w, s);
}

/// Moving a cursor forward keeps the fabric in order.
pub proof fn lemma_advance<P>(v: FabricView<P>, s: nat, index: nat, next: u64)
    requires
        v.wf(),
        s < v.streams.len(),
        index < v.streams[s as int].subscribers.len(),
        v.streams[s as int].subscribers[index as int] is Some,
        v.streams[s as int].subscribers[index as int]->0.next <= next <= v.streams[s as int].tail,
    ensures
        v.advance(s, index, next).wf(),
{
    let st = v.streams[s as int];
    let w = v.advance(s, index, next);
    let now = w.streams[s as int];
    assert(v.stream_sound(s));
    assert forall|i: int|
        #![trigger now.subscribers[i]]
        0 <= i < now.subscribers.len() && now.subscribers[i] is Some implies {
        let cursor = now.subscribers[i]->0;
        &&& cursor.next <= now.tail
        &&& cursor.id < now.next_cursor
        &&& cursor.node < w.ledger.nodes.len()
        &&& w.ledger.outstanding(cursor.ticket)
        &&& w.ledger.record(cursor.ticket).node == cursor.node
        &&& w.ledger.record(cursor.ticket).owner == Owner::Receiver(s, cursor.id as nat)
    } by {
        assert(st.subscribers[i] is Some);
    }
    assert forall|i: int, j: int|
        #![trigger now.subscribers[i], now.subscribers[j]]
        0 <= i < j < now.subscribers.len() && now.subscribers[i] is Some
            && now.subscribers[j] is Some implies now.subscribers[i]->0.id
        != now.subscribers[j]->0.id by {
        assert(st.subscribers[i] is Some && st.subscribers[j] is Some);
    }
    assert(w.entries_sound(s)) by {
        assert forall|i: int| #![trigger now.entries[i]] 0 <= i < now.entries.len() implies {
            &&& now.entries[i].sequence == now.tail - now.entries.len() + i
            &&& w.ledger.outstanding(now.entries[i].ticket)
            &&& w.ledger.record(now.entries[i].ticket).owner == Owner::Entry(
                s,
                now.entries[i].sequence as nat,
            )
        } by {
            assert(now.entries[i] == st.entries[i]);
        }
    }
    lemma_one_stream(v, w, s);
}

/// Enlisting a subscription with its charge keeps the fabric in order.
pub proof fn lemma_enlist<P>(
    v: FabricView<P>,
    s: nat,
    index: nat,
    role: SubscriptionRole,
    node: nat,
    ticket: nat,
)
    requires
        v.wf(),
        s < v.streams.len(),
        !v.streams[s as int].closed,
        index < v.streams[s as int].subscribers.len(),
        v.streams[s as int].subscribers[index as int] is None,
        v.streams[s as int].next_cursor < u64::MAX,
        v.ledger.outstanding(ticket),
        v.ledger.record(ticket).owner == Owner::Caller,
        v.ledger.record(ticket).node == node,
    ensures
        v.enlist(s, index, role, node, ticket).wf(),
{
    let st = v.streams[s as int];
    let w = v.enlist(s, index, role, node, ticket);
    let now = w.streams[s as int];
    let owner = Owner::Receiver(s, st.next_cursor as nat);
    assert(v.stream_sound(s));
    lemma_outstanding(v.ledger, ticket);
    lemma_assign_wf(v.ledger, ticket, owner);
    assert forall|r: nat|
        #[trigger] tally(w.ledger.table, of_owner(Owner::Waiter(r))) == tally(
            v.ledger.table,
            of_owner(Owner::Waiter(r)),
        ) by {
        lemma_tally_update(
            v.ledger.table,
            ticket as int,
            w.ledger.table[ticket as int],
            of_owner(Owner::Waiter(r)),
        );
    }
    assert forall|t: nat|
        #![trigger v.ledger.outstanding(t)]
        #![trigger w.ledger.outstanding(t)]
        v.ledger.outstanding(t) && v.claims(v.ledger.record(t).owner) implies w.ledger.outstanding(
        t,
    ) && w.ledger.record(t) == v.ledger.record(t) by {
        assert(t != ticket);
    }
    assert(w.entries_sound(s)) by {
        assert forall|i: int| #![trigger now.entries[i]] 0 <= i < now.entries.len() implies {
            &&& now.entries[i].sequence == now.tail - now.entries.len() + i
            &&& w.ledger.outstanding(now.entries[i].ticket)
            &&& w.ledger.record(now.entries[i].ticket).owner == Owner::Entry(
                s,
                now.entries[i].sequence as nat,
            )
        } by {
            assert(now.entries[i] == st.entries[i]);
            assert(v.ledger.record(st.entries[i].ticket).owner != Owner::Caller);
        }
    }
    assert forall|i: int|
        #![trigger now.subscribers[i]]
        0 <= i < now.subscribers.len() && now.subscribers[i] is Some implies {
        let cursor = now.subscribers[i]->0;
        &&& cursor.next <= now.tail
        &&& cursor.id < now.next_cursor
        &&& cursor.node < w.ledger.nodes.len()
        &&& w.ledger.outstanding(cursor.ticket)
        &&& w.ledger.record(cursor.ticket).node == cursor.node
        &&& w.ledger.record(cursor.ticket).owner == Owner::Receiver(s, cursor.id as nat)
    } by {
        if i != index {
            assert(st.subscribers[i] is Some);
        }
    }
    assert forall|i: int, j: int|
        #![trigger now.subscribers[i], now.subscribers[j]]
        0 <= i < j < now.subscribers.len() && now.subscribers[i] is Some
            && now.subscribers[j] is Some implies now.subscribers[i]->0.id
        != now.subscribers[j]->0.id by {
        if i != index {
            assert(st.subscribers[i] is Some);
        }
        if j != index {
            assert(st.subscribers[j] is Some);
        }
    }
    lemma_one_stream(v, w, s);
}

/// Ending a subscription keeps the fabric in order, and nothing holds its charge.
pub proof fn lemma_delist<P>(v: FabricView<P>, s: nat, index: nat)
    requires
        v.wf(),
        s < v.streams.len(),
    ensures
        v.delist(s, index).wf(),
        index < v.streams[s as int].subscribers.len()
            && v.streams[s as int].subscribers[index as int] is Some ==> !v.delist(s, index).claims(
            Owner::Receiver(s, v.streams[s as int].subscribers[index as int]->0.id as nat),
        ),
{
    let st = v.streams[s as int];
    let w = v.delist(s, index);
    let now = w.streams[s as int];
    assert(v.stream_sound(s));
    if index < st.subscribers.len() {
        assert forall|i: int|
            #![trigger now.subscribers[i]]
            0 <= i < now.subscribers.len() && now.subscribers[i] is Some implies {
            let cursor = now.subscribers[i]->0;
            &&& cursor.next <= now.tail
            &&& cursor.id < now.next_cursor
            &&& cursor.node < w.ledger.nodes.len()
            &&& w.ledger.outstanding(cursor.ticket)
            &&& w.ledger.record(cursor.ticket).node == cursor.node
            &&& w.ledger.record(cursor.ticket).owner == Owner::Receiver(s, cursor.id as nat)
        } by {
            assert(st.subscribers[i] is Some);
        }
        assert forall|i: int, j: int|
            #![trigger now.subscribers[i], now.subscribers[j]]
            0 <= i < j < now.subscribers.len() && now.subscribers[i] is Some
                && now.subscribers[j] is Some implies now.subscribers[i]->0.id
            != now.subscribers[j]->0.id by {
            assert(st.subscribers[i] is Some && st.subscribers[j] is Some);
        }
        assert(w.entries_sound(s)) by {
            assert forall|i: int| #![trigger now.entries[i]] 0 <= i < now.entries.len() implies {
                &&& now.entries[i].sequence == now.tail - now.entries.len() + i
                &&& w.ledger.outstanding(now.entries[i].ticket)
                &&& w.ledger.record(now.entries[i].ticket).owner == Owner::Entry(
                    s,
                    now.entries[i].sequence as nat,
                )
            } by {
                assert(now.entries[i] == st.entries[i]);
            }
        }
        lemma_one_stream(v, w, s);
        if st.subscribers[index as int] is Some {
            let id = st.subscribers[index as int]->0.id;
            assert forall|i: int|
                0 <= i < now.subscribers.len() && (#[trigger] now.subscribers[i]) is Some implies now.subscribers[i]->0.id
                != id by {
                assert(st.subscribers[i] is Some);
                if i < index {
                    assert(st.subscribers[i]->0.id != st.subscribers[index as int]->0.id);
                } else {
                    assert(st.subscribers[index as int]->0.id != st.subscribers[i]->0.id);
                }
            }
        }
    }
}

/// Emptying a stream for good keeps the fabric in order, and nothing holds the
/// charges of its publications.
pub proof fn lemma_emptied<P>(v: FabricView<P>, s: nat)
    requires
        v.wf(),
        s < v.streams.len(),
    ensures
        ({
            let st = v.streams[s as int];
            let w = v.with_stream(
                s,
                StreamView { entries: Seq::empty(), subscribers: Seq::empty(), closed: true, ..st },
            );
            &&& w.wf()
            &&& forall|q: nat| !#[trigger] w.claims(Owner::Entry(s, q))
            &&& forall|id: nat| !#[trigger] w.claims(Owner::Receiver(s, id))
        }),
{
    let st = v.streams[s as int];
    let w = v.with_stream(
        s,
        StreamView { entries: Seq::empty(), subscribers: Seq::empty(), closed: true, ..st },
    );
    assert(v.stream_sound(s));
    lemma_one_stream(v, w, s);
}

/// Declaring a stream keeps the fabric in order.
pub proof fn lemma_declare<P>(
    v: FabricView<P>,
    root: nat,
    declaration: Declaration,
    config: StreamConfig,
)
    requires
        v.wf(),
        root < v.ledger.nodes.len(),
        v.ledger.charge_error(root, None, config.allowance()) is None,
        config.capacity > 0,
        v.find(declaration.event, 0) is None,
        v.streams.len() < u64::MAX,
    ensures
        v.declare(root, declaration, config).wf(),
{
    let w = v.declare(root, declaration, config);
    let new = v.streams.len();
    let owner = Owner::Storage(new);
    assert(v.ledger.has_pool(root, None));
    lemma_charge_wf(v.ledger, root, None, config.allowance(), owner);
    let record = LeaseRecord { node: root, event: None, usage: config.allowance(), owner };
    lemma_charge(v, w.ledger, record);
    let middle = v.with_ledger(w.ledger);
    assert forall|s: nat| s < w.streams.len() implies #[trigger] w.stream_sound(s) by {
        if s < new {
            assert(middle.stream_sound(s));
            assert(w.streams[s as int] == middle.streams[s as int]);
            let st = w.streams[s as int];
            assert(w.entries_sound(s)) by {
                assert forall|i: int| #![trigger st.entries[i]] 0 <= i < st.entries.len() implies {
                    &&& st.entries[i].sequence == st.tail - st.entries.len() + i
                    &&& w.ledger.outstanding(st.entries[i].ticket)
                    &&& w.ledger.record(st.entries[i].ticket).owner == Owner::Entry(
                        s,
                        st.entries[i].sequence as nat,
                    )
                } by {
                    assert(middle.streams[s as int].entries[i] == st.entries[i]);
                }
            }
            assert(w.cursors_sound(s)) by {
                assert forall|i: int|
                    #![trigger st.subscribers[i]]
                    0 <= i < st.subscribers.len() && st.subscribers[i] is Some implies {
                    let cursor = st.subscribers[i]->0;
                    &&& cursor.next <= st.tail
                    &&& cursor.id < st.next_cursor
                    &&& cursor.node < w.ledger.nodes.len()
                    &&& w.ledger.outstanding(cursor.ticket)
                    &&& w.ledger.record(cursor.ticket).node == cursor.node
                    &&& w.ledger.record(cursor.ticket).owner == Owner::Receiver(
                        s,
                        cursor.id as nat,
                    )
                } by {
                    assert(middle.streams[s as int].subscribers[i] is Some);
                }
            }
        } else {
            assert(tally(middle.ledger.table, of_owner(Owner::Waiter(new))) == 0);
            assert(w.streams[s as int].subscribers.len() == config.subscribers);
        }
    }
    assert forall|a: int, b: int|
        #![trigger w.streams[a], w.streams[b]]
        0 <= a < b < w.streams.len() implies w.streams[a].declaration.event
        != w.streams[b].declaration.event by {
        if b < new {
            assert(v.streams[a].declaration.event != v.streams[b].declaration.event);
        } else {
            lemma_find_none(v, declaration.event, 0, a as nat);
        }
    }
    assert forall|s: nat| s >= w.streams.len() implies #[trigger] tally(
        w.ledger.table,
        of_owner(Owner::Waiter(s)),
    ) == 0 by {
        assert(tally(middle.ledger.table, of_owner(Owner::Waiter(s))) == 0);
    }
}

/// What is not found from a slot on is in none of them.
pub proof fn lemma_find_none<P>(v: FabricView<P>, event: crate::event::EventId, from: nat, s: nat)
    requires
        v.find(event, from) is None,
        from <= s < v.streams.len(),
    ensures
        v.streams[s as int].declaration.event != event,
    decreases v.streams.len() - from,
{
    if from < s {
        lemma_find_none(v, event, from + 1, s);
    }
}

/// What is found is a stream with that event.
pub proof fn lemma_find_some<P>(v: FabricView<P>, event: crate::event::EventId, from: nat)
    requires
        v.find(event, from) is Some,
    ensures
        from <= v.find(event, from)->0 < v.streams.len(),
        v.streams[v.find(event, from)->0 as int].declaration.event == event,
    decreases v.streams.len() - from,
{
    if from < v.streams.len() && v.streams[from as int].declaration.event != event {
        lemma_find_some(v, event, from + 1);
    }
}

/// Wakeups are no part of what releasing keeps.
pub proof fn lemma_kept_signals(before: LedgerView, middle: LedgerView, after: LedgerView)
    requires
        middle.nodes == before.nodes,
        middle.table == before.table,
        kept(middle, after),
    ensures
        kept(before, after),
{
    assert forall|t: nat| #[trigger] after.outstanding(t) implies before.outstanding(t)
        && after.record(t) == before.record(t) by {
        assert(middle.outstanding(t));
    }
    assert forall|n: nat| n < before.nodes.len() implies #[trigger] crate::ledger_laws::kept_node(
        before,
        after,
        n,
    ) by {
        assert(crate::ledger_laws::kept_node(middle, after, n));
    }
}

/// The same grants, with the same handles and authority.
pub open spec fn steady(a: LedgerView, b: LedgerView) -> bool {
    &&& b.nodes.len() == a.nodes.len()
    &&& forall|n: int|
        0 <= n < a.nodes.len() ==> (#[trigger] b.nodes[n]).handles == a.nodes[n].handles
            && b.nodes[n].revoked == a.nodes[n].revoked
}

pub proof fn lemma_kept_steady(a: LedgerView, b: LedgerView)
    requires
        kept(a, b),
    ensures
        steady(a, b),
{
    assert forall|n: int| 0 <= n < a.nodes.len() implies (#[trigger] b.nodes[n]).handles
        == a.nodes[n].handles && b.nodes[n].revoked == a.nodes[n].revoked by {
        assert(crate::ledger_laws::kept_node(a, b, n as nat));
    }
}

/// Only the new publication is claimed in addition.
pub proof fn lemma_append_claims<P>(v: FabricView<P>, s: nat, value: P, ticket: nat, q: nat)
    requires
        s < v.streams.len(),
        q != v.streams[s as int].tail,
        !v.claims(Owner::Entry(s, q)),
    ensures
        !v.append(s, value, ticket).claims(Owner::Entry(s, q)),
{
    let w = v.append(s, value, ticket);
    if w.claims(Owner::Entry(s, q)) {
        let i = choose|i: int|
            0 <= i < w.streams[s as int].entries.len() && (
            #[trigger] w.streams[s as int].entries[i]).sequence == q;
        assert(v.streams[s as int].entries[i].sequence == q);
        lemma_claims_entry(v, s, i);
    }
}

/// Entries that weigh nothing add nothing.
pub proof fn lemma_tally_extended(
    before: Seq<Option<LeaseRecord>>,
    after: Seq<Option<LeaseRecord>>,
    weigh: spec_fn(LeaseRecord) -> nat,
)
    requires
        before.len() <= after.len(),
        forall|t: int| 0 <= t < before.len() ==> #[trigger] after[t] == before[t],
        forall|t: int| before.len() <= t < after.len() ==> weight(#[trigger] after[t], weigh) == 0,
    ensures
        tally(after, weigh) == tally(before, weigh),
    decreases after.len(),
{
    if after.len() == before.len() {
        assert(after =~= before);
    } else {
        assert(weight(after[after.len() - 1], weigh) == 0);
        lemma_tally_extended(before, after.drop_last(), weigh);
    }
}

/// Deriving a grant keeps the fabric in order.
pub proof fn lemma_extends<P>(v: FabricView<P>, after: LedgerView, slot: nat)
    requires
        v.wf(),
        after.wf(),
        extends(v.ledger, after, slot),
    ensures
        v.with_ledger(after).wf(),
        claims_kept(v, after),
{
    let w = v.with_ledger(after);
    lemma_waiters_counted(v);
    assert forall|s: nat|
        #[trigger] tally(after.table, of_owner(Owner::Waiter(s))) == tally(
            v.ledger.table,
            of_owner(Owner::Waiter(s)),
        ) by {
        assert forall|t: int| v.ledger.table.len() <= t < after.table.len() implies weight(
            #[trigger] after.table[t],
            of_owner(Owner::Waiter(s)),
        ) == 0 by {
            assert(after.table[t] is Some);
        }
        lemma_tally_extended(v.ledger.table, after.table, of_owner(Owner::Waiter(s)));
    }
    assert(waiters_counted(w)) by {
        assert forall|s: nat| s < w.streams.len() implies (#[trigger] w.streams[s as int]).waiters
            == tally(w.ledger.table, of_owner(Owner::Waiter(s))) && w.streams[s as int].waiters
            <= w.streams[s as int].config.waiters by {
            assert(v.streams[s as int].waiters == tally(
                v.ledger.table,
                of_owner(Owner::Waiter(s)),
            ));
        }
    }
    assert(claims_kept(v, after)) by {
        assert forall|t: nat|
            #![trigger v.ledger.outstanding(t)]
            #![trigger after.outstanding(t)]
            v.ledger.outstanding(t) && v.claims(v.ledger.record(t).owner) implies after.outstanding(
            t,
        ) && after.record(t) == v.ledger.record(t) && stays_revoked(
            v.ledger,
            after,
            v.ledger.record(t).node,
        ) by {
            lemma_outstanding(v.ledger, t);
            assert(after.table[t as int] == v.ledger.table[t as int]);
        }
    }
    lemma_change(v, w);
}

/// Registering a pending operation with its charge keeps the fabric in order.
pub proof fn lemma_wait<P>(v: FabricView<P>, after: LedgerView, s: nat, record: LeaseRecord)
    requires
        v.wf(),
        after.wf(),
        s < v.streams.len(),
        v.streams[s as int].waiters < v.streams[s as int].config.waiters,
        after.table == v.ledger.table.push(Some(record)),
        after.nodes.len() == v.ledger.nodes.len(),
        forall|n: nat|
            n < v.ledger.nodes.len() ==> #[trigger] stays_revoked(v.ledger, after, n),
        record.owner == Owner::Waiter(s),
    ensures
        claims_kept(v, after),
        ({
            let st = v.streams[s as int];
            v.with_ledger(after).with_stream(s, StreamView { waiters: st.waiters + 1, ..st }).wf()
        }),
{
    let st = v.streams[s as int];
    let w = v.with_ledger(after).with_stream(s, StreamView { waiters: st.waiters + 1, ..st });
    lemma_waiters_counted(v);
    assert(waiters_counted(w)) by {
        assert forall|r: nat| r < w.streams.len() implies (#[trigger] w.streams[r as int]).waiters
            == tally(w.ledger.table, of_owner(Owner::Waiter(r))) && w.streams[r as int].waiters
            <= w.streams[r as int].config.waiters by {
            lemma_tally_push(v.ledger.table, Some(record), of_owner(Owner::Waiter(r)));
            assert(v.streams[r as int].waiters == tally(
                v.ledger.table,
                of_owner(Owner::Waiter(r)),
            ));
        }
        assert forall|r: nat| r >= w.streams.len() implies #[trigger] tally(
            w.ledger.table,
            of_owner(Owner::Waiter(r)),
        ) == 0 by {
            lemma_tally_push(v.ledger.table, Some(record), of_owner(Owner::Waiter(r)));
        }
    }
    assert(claims_kept(v, after)) by {
        assert forall|t: nat|
            #![trigger v.ledger.outstanding(t)]
            #![trigger after.outstanding(t)]
            v.ledger.outstanding(t) && v.claims(v.ledger.record(t).owner) implies after.outstanding(
            t,
        ) && after.record(t) == v.ledger.record(t) && stays_revoked(
            v.ledger,
            after,
            v.ledger.record(t).node,
        ) by {
            lemma_outstanding(v.ledger, t);
            assert(after.table[t as int] == v.ledger.table[t as int]);
        }
    }
    lemma_change(v, w);
}

/// Ending a pending operation keeps the fabric in order.
pub proof fn lemma_end_wait<P>(v: FabricView<P>, after: LedgerView, s: nat, ticket: nat)
    requires
        v.wf(),
        after.wf(),
        s < v.streams.len(),
        v.ledger.outstanding(ticket),
        v.ledger.record(ticket).owner == Owner::Waiter(s),
        released(v.ledger, after, ticket),
    ensures
        claims_kept(v, after),
        v.streams[s as int].waiters > 0,
        ({
            let st = v.streams[s as int];
            v.with_stream(s, StreamView { waiters: (st.waiters - 1) as nat, ..st }).with_ledger(
                after,
            ).wf()
        }),
{
    let st = v.streams[s as int];
    let w = v.with_stream(s, StreamView { waiters: (st.waiters - 1) as nat, ..st }).with_ledger(
        after,
    );
    lemma_waiters_counted(v);
    lemma_tally_member(v.ledger.table, ticket as int, of_owner(Owner::Waiter(s)));
    assert(waiters_counted(w)) by {
        assert forall|r: nat| r < w.streams.len() implies (#[trigger] w.streams[r as int]).waiters
            == tally(w.ledger.table, of_owner(Owner::Waiter(r))) && w.streams[r as int].waiters
            <= w.streams[r as int].config.waiters by {
            lemma_released_tally(v.ledger, after, ticket, Owner::Waiter(r));
            assert(v.streams[r as int].waiters == tally(
                v.ledger.table,
                of_owner(Owner::Waiter(r)),
            ));
        }
        assert forall|r: nat| r >= w.streams.len() implies #[trigger] tally(
            w.ledger.table,
            of_owner(Owner::Waiter(r)),
        ) == 0 by {
            lemma_released_tally(v.ledger, after, ticket, Owner::Waiter(r));
        }
    }
    lemma_kept_revoked(v.ledger, after);
    lemma_change(v, w);
}

/// Giving up handles keeps the fabric in order.
pub proof fn lemma_dropped<P>(v: FabricView<P>, middle: LedgerView, after: LedgerView)
    requires
        v.wf(),
        after.wf(),
        middle.table == v.ledger.table,
        middle.nodes.len() == v.ledger.nodes.len(),
        forall|n: nat|
            n < v.ledger.nodes.len() ==> #[trigger] stays_revoked(v.ledger, middle, n),
        kept(middle, after),
        kept_leases(v.ledger, after),
    ensures
        v.with_ledger(after).wf(),
        claims_kept(v, after),
{
    let w = v.with_ledger(after);
    lemma_waiters_counted(v);
    assert forall|s: nat|
        #[trigger] tally(after.table, of_owner(Owner::Waiter(s))) == tally(
            v.ledger.table,
            of_owner(Owner::Waiter(s)),
        ) by {
        let weigh = of_owner(Owner::Waiter(s));
        assert forall|t: int|
            #![trigger v.ledger.table[t]]
            #![trigger after.table[t]]
            0 <= t < v.ledger.table.len() implies weight(v.ledger.table[t], weigh) == weight(
            after.table[t],
            weigh,
        ) by {
            let k = t as nat;
            assert(v.ledger.outstanding(k) == (v.ledger.table[t] is Some));
            assert(after.outstanding(k) == (after.table[t] is Some));
            assert(middle.outstanding(k) == (middle.table[t] is Some));
        }
        lemma_tally_agree(v.ledger.table, after.table, weigh);
    }
    assert(waiters_counted(w)) by {
        assert forall|s: nat| s < w.streams.len() implies (#[trigger] w.streams[s as int]).waiters
            == tally(w.ledger.table, of_owner(Owner::Waiter(s))) && w.streams[s as int].waiters
            <= w.streams[s as int].config.waiters by {
            assert(v.streams[s as int].waiters == tally(
                v.ledger.table,
                of_owner(Owner::Waiter(s)),
            ));
        }
    }
    assert(claims_kept(v, after)) by {
        assert forall|t: nat|
            #![trigger v.ledger.outstanding(t)]
            #![trigger after.outstanding(t)]
            v.ledger.outstanding(t) && v.claims(v.ledger.record(t).owner) implies after.outstanding(
            t,
        ) && after.record(t) == v.ledger.record(t) && stays_revoked(
            v.ledger,
            after,
            v.ledger.record(t).node,
        ) by {
            lemma_outstanding(v.ledger, t);
            assert(stays_revoked(v.ledger, middle, v.ledger.record(t).node));
            assert(kept_node(middle, after, v.ledger.record(t).node));
        }
    }
    lemma_change(v, w);
}

/// The same streams, declared as they were.
pub open spec fn same_declared<P>(a: FabricView<P>, b: FabricView<P>) -> bool {
    &&& b.streams.len() == a.streams.len()
    &&& forall|s: int|
        0 <= s < a.streams.len() ==> (#[trigger] b.streams[s]).declaration
            == a.streams[s].declaration
}

/// The same streams with the same subscriptions.
pub open spec fn same_members<P>(a: FabricView<P>, b: FabricView<P>) -> bool {
    &&& b.streams.len() == a.streams.len()
    &&& forall|s: int|
        0 <= s < a.streams.len() ==> {
            let now = #[trigger] b.streams[s];
            let was = a.streams[s];
            &&& now.subscribers == was.subscribers
            &&& now.closed == was.closed
            &&& now.declaration == was.declaration
            &&& now.config == was.config
            &&& now.next_cursor == was.next_cursor
        }
}

/// A required receiver that does not need a publication needs none before it.
pub proof fn lemma_older_unneeded<P>(v: FabricView<P>, s: nat, older: u64, newer: u64)
    requires
        older <= newer,
        !v.required_needs(s, newer),
    ensures
        !v.required_needs(s, older),
{
    if v.required_needs(s, older) {
        let i = choose|i: int|
            0 <= i < v.streams[s as int].subscribers.len() && v.holds_back(s, i, older);
        assert(v.holds_back(s, i, newer));
    }
}

/// What is needed depends on cursors and on what is cut off alone.
pub proof fn lemma_same_needs<P>(v: FabricView<P>, w: FabricView<P>, s: nat, sequence: u64)
    requires
        w.ledger.nodes == v.ledger.nodes,
        w.streams[s as int].subscribers == v.streams[s as int].subscribers,
        !v.required_needs(s, sequence),
    ensures
        !w.required_needs(s, sequence),
{
    if w.required_needs(s, sequence) {
        let i = choose|i: int|
            0 <= i < w.streams[s as int].subscribers.len() && w.holds_back(s, i, sequence);
        assert(v.holds_back(s, i, sequence));
    }
}

/// What is consumed is needed by no required receiver.
pub proof fn lemma_consumed_unneeded<P>(v: FabricView<P>, s: nat, sequence: u64)
    requires
        v.consumed(s, sequence),
    ensures
        !v.required_needs(s, sequence),
{
    if v.required_needs(s, sequence) {
        let i = choose|i: int|
            0 <= i < v.streams[s as int].subscribers.len() && v.holds_back(s, i, sequence);
        assert(!v.may_receive(s, i, sequence));
    }
}

/// Reclaiming the oldest publication keeps every charge that is not a publication's.
pub proof fn lemma_retire_front_keeps<P>(v: FabricView<P>, s: nat, ticket: nat)
    requires
        v.wf(),
        s < v.streams.len(),
        v.streams[s as int].entries.len() > 0,
        !v.required_needs(s, v.streams[s as int].entries[0].sequence),
        v.ledger.outstanding(ticket),
        !(v.ledger.record(ticket).owner is Child),
        !(v.ledger.record(ticket).owner is Entry),
    ensures
        v.retire_front(s).wf(),
        v.retire_front(s).streams.len() == v.streams.len(),
        v.retire_front(s).ledger.outstanding(ticket),
        v.retire_front(s).ledger.record(ticket) == v.ledger.record(ticket),
{
    let front = v.streams[s as int].entries[0];
    assert(v.stream_sound(s));
    lemma_without_front(v, s);
    let taken = v.without_front(s);
    let opened = taken.unlock(s, true);
    crate::ledger::lemma_signals_wf(taken.ledger, opened.ledger);
    lemma_flags(taken, opened);
    assert(!opened.claims(Owner::Entry(s, front.sequence as nat))) by {
        assert(opened.streams[s as int].entries == taken.streams[s as int].entries);
    }
    lemma_returned(opened.ledger, front.ticket);
    let after = opened.ledger.release(front.ticket).reap(opened.ledger.record(front.ticket).node);
    assert(opened.ledger.outstanding(ticket));
    lemma_release(opened, after, front.ticket);
}

/// Returning a charge that is no part of a grant's reservation.
pub proof fn lemma_returned(v: LedgerView, ticket: nat)
    requires
        v.wf(),
        v.outstanding(ticket),
        !(v.record(ticket).owner is Child),
    ensures
        v.release(ticket).reap(v.record(ticket).node).wf(),
        released(v, v.release(ticket).reap(v.record(ticket).node), ticket),
{
    let node = v.record(ticket).node;
    lemma_outstanding(v, ticket);
    lemma_unreserved(v, ticket);
    lemma_release_sound(v, ticket);
    lemma_release_kept(v, ticket);
    let next = v.release(ticket);
    assert forall|m: nat| m < next.nodes.len() && m != node implies !#[trigger] next.must_reap(m) by {
        assert(!v.must_reap(m));
    }
    lemma_reap_wf(next, node);
    lemma_kept_transitive(v, next, next.reap(node));
    let after = next.reap(node);
    assert forall|t: nat|
        #![trigger v.outstanding(t)]
        #![trigger after.outstanding(t)]
        t != ticket && v.outstanding(t) && !(v.record(t).owner is Child) implies after.outstanding(t)
        && after.record(t) == v.record(t) by {
        assert(next.outstanding(t));
    }
    assert(!after.outstanding(ticket)) by {
        if after.outstanding(ticket) {
            assert(next.outstanding(ticket));
        }
    }
}

/// Reclaiming consumed publications keeps every charge that is not a publication's.
pub proof fn lemma_retire_keeps<P>(v: FabricView<P>, s: nat, tries: nat, ticket: nat)
    requires
        v.wf(),
        s < v.streams.len(),
        v.ledger.outstanding(ticket),
        !(v.ledger.record(ticket).owner is Child),
        !(v.ledger.record(ticket).owner is Entry),
    ensures
        v.retire_consumed(s, tries).ledger.outstanding(ticket),
        v.retire_consumed(s, tries).ledger.record(ticket) == v.ledger.record(ticket),
    decreases tries,
{
    let st = v.streams[s as int];
    if tries > 0 && st.entries.len() > 0 && v.consumed(s, st.entries[0].sequence) {
        lemma_consumed_unneeded(v, s, st.entries[0].sequence);
        lemma_retire_front_keeps(v, s, ticket);
        lemma_retire_keeps(v.retire_front(s), s, (tries - 1) as nat, ticket);
    }
}

} // verus!

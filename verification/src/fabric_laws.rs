//! Laws of fabrics: what publications, receives and maintenance leave as it was, what
//! required receivers are promised, and what observers are told.
use crate::fabric_model::{one_item, one_waiter, FabricView, StreamView};
use crate::fabric_steps::{
    lemma_advance, lemma_append, lemma_append_claims, lemma_charge, lemma_consumed_unneeded,
    lemma_flags, lemma_older_unneeded, lemma_release, lemma_retire_front_keeps, lemma_retire_keeps,
    lemma_returned, lemma_same_needs, lemma_wait, lemma_without_front,
};
use crate::ledger::lemma_signals_wf;
use crate::ledger_laws::lemma_charge_wf;
use crate::ledger_model::{LeaseRecord, LedgerView, Owner};
use vstd::prelude::*;

verus! {

/// A charge that a publication, a receive or maintenance leaves alone: one that belongs
/// neither to a grant, nor to a publication, nor to the caller.
pub open spec fn lasting(ledger: LedgerView, ticket: nat) -> bool {
    &&& ledger.outstanding(ticket)
    &&& !(ledger.record(ticket).owner is Child)
    &&& !(ledger.record(ticket).owner is Entry)
    &&& !(ledger.record(ticket).owner is Caller)
}

/// The charge is outstanding as before.
pub open spec fn stays(before: LedgerView, after: LedgerView, ticket: nat) -> bool {
    after.outstanding(ticket) && after.record(ticket) == before.record(ticket)
}

/// Every lasting charge is outstanding as before.
pub open spec fn enduring(before: LedgerView, after: LedgerView) -> bool {
    forall|t: nat| #[trigger] lasting(before, t) ==> stays(before, after, t) && lasting(after, t)
}

/// Every lasting charge but one is outstanding as before.
pub open spec fn enduring_but(before: LedgerView, after: LedgerView, ticket: nat) -> bool {
    forall|t: nat|
        t != ticket && #[trigger] lasting(before, t) ==> stays(before, after, t) && lasting(after, t)
}

/// Every charge that is outstanding was outstanding before.
pub open spec fn fewer(before: LedgerView, after: LedgerView) -> bool {
    forall|t: nat| #[trigger]
        after.outstanding(t) ==> before.outstanding(t) && after.record(t) == before.record(t)
}

/// Every charge but one that is outstanding was outstanding before.
pub open spec fn fewer_but(before: LedgerView, after: LedgerView, ticket: nat) -> bool {
    forall|t: nat|
        t != ticket && #[trigger] after.outstanding(t) ==> before.outstanding(t) && after.record(t)
            == before.record(t)
}

/// The handles of one grant are more by `change`, those of the others are as before.
pub open spec fn settled(before: LedgerView, after: LedgerView, node: nat, change: int) -> bool {
    &&& after.nodes.len() == before.nodes.len()
    &&& forall|n: int|
        0 <= n < before.nodes.len() ==> (#[trigger] after.nodes[n]).handles
            == before.nodes[n].handles + (if n == node {
            change
        } else {
            0
        })
}

pub proof fn lemma_unlock_wf<P>(v: FabricView<P>, s: nat, dirty: bool)
    requires
        v.wf(),
        s < v.streams.len(),
    ensures
        v.unlock(s, dirty).wf(),
        v.unlock(s, dirty).ledger.table == v.ledger.table,
        v.unlock(s, dirty).ledger.nodes == v.ledger.nodes,
        v.unlock(s, dirty).streams.len() == v.streams.len(),
{
    let w = v.unlock(s, dirty);
    lemma_signals_wf(v.ledger, w.ledger);
    lemma_flags(v, w);
}

pub proof fn lemma_passed_wf<P>(v: FabricView<P>, node: nat)
    requires
        v.wf(),
    ensures
        v.passed(node).wf(),
{
    let w = v.passed(node);
    lemma_signals_wf(v.ledger, w.ledger);
    lemma_flags(v, w);
}

proof fn lemma_charge_item<P>(v: FabricView<P>, s: nat, node: nat)
    requires
        v.wf(),
        s < v.streams.len(),
        node < v.ledger.nodes.len(),
        v.ledger.stream_charge_error(
            node,
            v.streams[s as int].declaration.event,
            one_item(),
        ) is None,
    ensures
        v.with_ledger(
            v.ledger.charge(
                node,
                v.ledger.nodes[node as int].position(v.streams[s as int].declaration.event),
                one_item().widened(),
                Owner::Caller,
            ),
        ).wf(),
{
    let event = v.streams[s as int].declaration.event;
    let at = v.ledger.nodes[node as int];
    let position = at.position(event);
    assert(crate::allowance::covers(at.allowances, event));
    let i = choose|i: int|
        0 <= i < at.allowances.len() && #[trigger] at.allowances[i].permission.event == event;
    assert(at.allowances[i as nat as int].permission.event == event);
    assert(v.ledger.has_pool(node, position));
    lemma_charge_wf(v.ledger, node, position, one_item().widened(), Owner::Caller);
    let record = LeaseRecord {
        node,
        event: position,
        usage: one_item().widened(),
        owner: Owner::Caller,
    };
    lemma_charge(
        v,
        v.ledger.charge(node, position, one_item().widened(), Owner::Caller),
        record,
    );
}

/// Reserving an item keeps the fabric in order and every lasting charge.
pub proof fn lemma_reserve_within_keeps<P>(
    v: FabricView<P>,
    s: nat,
    node: nat,
    tries: nat,
    ticket: nat,
)
    requires
        v.wf(),
        s < v.streams.len(),
        node < v.ledger.nodes.len(),
        lasting(v.ledger, ticket),
    ensures
        ({
            let (refused, after) = v.reserve_within(s, node, tries);
            &&& after.wf()
            &&& after.streams.len() == v.streams.len()
            &&& after.ledger.nodes.len() == v.ledger.nodes.len()
            &&& stays(v.ledger, after.ledger, ticket)
            &&& refused is None ==> {
                &&& after.ledger.table.len() > 0
                &&& after.ledger.outstanding((after.ledger.table.len() - 1) as nat)
                &&& after.ledger.record((after.ledger.table.len() - 1) as nat).owner
                    == Owner::Caller
            }
        }),
    decreases tries,
{
    let st = v.streams[s as int];
    let event = st.declaration.event;
    if tries > 0 && !v.ledger.nodes[node as int].revoked {
        lemma_unlock_wf(v, s, false);
        if !st.closed && st.tail != u64::MAX && !(st.full() && v.required_needs(
            s,
            st.entries[0].sequence,
        )) {
            let seen = v.unlock(s, false);
            if seen.ledger.stream_charge_error(node, event, one_item()) is None {
                lemma_charge_item(seen, s, node);
            } else {
                match seen.own_entry(s, node, 0) {
                    Some(i) => {
                        if !seen.required_needs(s, st.entries[i as int].sequence) {
                            lemma_own_entry(seen, s, node, 0);
                            assert(v.stream_sound(s));
                            assert(st.entries[0].sequence <= st.entries[i as int].sequence);
                            lemma_older_unneeded(
                                seen,
                                s,
                                st.entries[0].sequence,
                                st.entries[i as int].sequence,
                            );
                            lemma_retire_front_keeps(seen, s, ticket);
                            lemma_retire_front_len(seen, s);
                            lemma_reserve_within_keeps(
                                seen.retire_front(s),
                                s,
                                node,
                                (tries - 1) as nat,
                                ticket,
                            );
                        }
                    },
                    None => {},
                }
            }
        }
    }
}

/// An own publication that is found is one of the retained.
pub proof fn lemma_own_entry<P>(v: FabricView<P>, s: nat, node: nat, from: nat)
    requires
        v.own_entry(s, node, from) is Some,
    ensures
        from <= v.own_entry(s, node, from)->0 < v.streams[s as int].entries.len(),
    decreases v.streams[s as int].entries.len() - from,
{
    let st = v.streams[s as int];
    if from < st.entries.len() && v.ledger.record(st.entries[from as int].ticket).node != node {
        lemma_own_entry(v, s, node, from + 1);
    }
}

/// Reclaiming leaves the grants where they are.
pub proof fn lemma_retire_front_len<P>(v: FabricView<P>, s: nat)
    requires
        v.wf(),
        s < v.streams.len(),
        v.streams[s as int].entries.len() > 0,
        !v.required_needs(s, v.streams[s as int].entries[0].sequence),
    ensures
        v.retire_front(s).ledger.nodes.len() == v.ledger.nodes.len(),
        v.retire_front(s).streams.len() == v.streams.len(),
{
    let front = v.streams[s as int].entries[0];
    assert(v.stream_sound(s));
    lemma_without_front(v, s);
    let opened = v.without_front(s).unlock(s, true);
    lemma_unlock_wf(v.without_front(s), s, true);
    lemma_returned(opened.ledger, front.ticket);
}

/// Publishing keeps the fabric in order and every lasting charge.
pub proof fn lemma_send_now_keeps<P>(v: FabricView<P>, s: nat, node: nat, value: P, ticket: nat)
    requires
        v.wf(),
        s < v.streams.len(),
        node < v.ledger.nodes.len(),
        lasting(v.ledger, ticket),
    ensures
        v.send_now(s, node, value).1.wf(),
        v.send_now(s, node, value).1.streams.len() == v.streams.len(),
        v.send_now(s, node, value).1.ledger.nodes.len() == v.ledger.nodes.len(),
        stays(v.ledger, v.send_now(s, node, value).1.ledger, ticket),
{
    let st = v.streams[s as int];
    let (refused, reserved) = v.reserve(s, node);
    let passed = v.passed(node);
    if v.ledger.enter_error(
        node,
        st.declaration.event,
        crate::fabric_model::publish_right(),
    ) is None {
        lemma_passed_wf(v, node);
        lemma_reserve_within_keeps(passed, s, node, (st.config.capacity + 1) as nat, ticket);
    }
    if refused is None {
        let own = (reserved.ledger.table.len() - 1) as nat;
        lemma_commit_keeps(reserved, s, node, value, own, false, ticket);
        let (rejected, after) = reserved.commit(s, node, value, own, false);
        if rejected is Some {
            lemma_returned(after.ledger, own);
            let back = after.ledger.release(own).reap(after.ledger.record(own).node);
            assert(after.ledger.outstanding(ticket));
            lemma_release(after, back, own);
        }
    }
}

/// Admission keeps the fabric in order and every other charge that is not a
/// publication's.
pub proof fn lemma_commit_keeps<P>(
    v: FabricView<P>,
    s: nat,
    node: nat,
    value: P,
    own: nat,
    deferred: bool,
    ticket: nat,
)
    requires
        v.wf(),
        s < v.streams.len(),
        node < v.ledger.nodes.len(),
        v.ledger.outstanding(own),
        v.ledger.record(own).owner == Owner::Caller,
        lasting(v.ledger, ticket),
    ensures
        ({
            let (refused, after) = v.commit(s, node, value, own, deferred);
            &&& after.wf()
            &&& after.streams.len() == v.streams.len()
            &&& after.ledger.nodes.len() == v.ledger.nodes.len()
            &&& stays(v.ledger, after.ledger, ticket)
            &&& refused is Some ==> stays(v.ledger, after.ledger, own)
        }),
{
    let st = v.streams[s as int];
    assert(v.stream_sound(s));
    let (refused, after) = v.commit(s, node, value, own, deferred);
    if v.ledger.enter_error(
        node,
        st.declaration.event,
        crate::fabric_model::publish_right(),
    ) is None {
        lemma_looked_wf(v, s, node, deferred, false);
        if !st.closed && st.tail != u64::MAX {
            if !st.full() {
                lemma_append(v, s, value, own);
                let appended = v.append(s, value, own);
                lemma_looked_wf(appended, s, node, deferred, true);
            } else if !v.required_needs(s, st.entries[0].sequence) {
                if deferred {
                    lemma_flags(v, v.with_stream(s, StreamView { needs_room: true, ..st }));
                } else {
                    let front = st.entries[0];
                    let q = front.sequence as nat;
                    lemma_without_front(v, s);
                    let taken = v.without_front(s);
                    lemma_append(taken, s, value, own);
                    lemma_append_claims(taken, s, value, own, q);
                    let appended = taken.append(s, value, own);
                    lemma_looked_wf(appended, s, node, false, true);
                    let looked = appended.looked(s, node, false, true);
                    assert(!looked.claims(Owner::Entry(s, q))) by {
                        assert(looked.streams[s as int].entries
                            == appended.streams[s as int].entries);
                    }
                    assert(front.ticket != own);
                    assert(looked.ledger.outstanding(front.ticket));
                    lemma_returned(looked.ledger, front.ticket);
                    let back = looked.ledger.release(front.ticket).reap(
                        looked.ledger.record(front.ticket).node,
                    );
                    assert(looked.ledger.outstanding(ticket));
                    lemma_release(looked, back, front.ticket);
                }
            }
        }
    }
}

proof fn lemma_looked_wf<P>(v: FabricView<P>, s: nat, node: nat, deferred: bool, dirty: bool)
    requires
        v.wf(),
        s < v.streams.len(),
    ensures
        v.looked(s, node, deferred, dirty).wf(),
        v.looked(s, node, deferred, dirty).ledger.table == v.ledger.table,
        v.looked(s, node, deferred, dirty).ledger.nodes == v.ledger.nodes,
        v.looked(s, node, deferred, dirty).streams.len() == v.streams.len(),
{
    if deferred {
        lemma_flags(v, v.unlock_deferred(s, dirty));
    } else {
        lemma_unlock_wf(v, s, dirty);
        lemma_passed_wf(v.unlock(s, dirty), node);
    }
}

/// Maintenance keeps the fabric in order and every charge that is not a publication's.
pub proof fn lemma_maintain_keeps<P>(v: FabricView<P>, s: nat, ticket: nat)
    requires
        v.wf(),
        s < v.streams.len(),
        lasting(v.ledger, ticket),
    ensures
        v.maintain_stream(s).wf(),
        v.maintain_stream(s).streams.len() == v.streams.len(),
        stays(v.ledger, v.maintain_stream(s).ledger, ticket),
{
    let capacity = v.streams[s as int].config.capacity as nat;
    lemma_retire_consumed_wf(v, s, capacity);
    lemma_retire_keeps(v, s, capacity, ticket);
    let retired = v.retire_consumed(s, capacity);
    let st = retired.streams[s as int];
    let cleared = retired.with_stream(s, StreamView { needs_room: false, ..st });
    lemma_flags(retired, cleared);
    if st.needs_room && st.full() && st.entries.len() > 0 && !retired.required_needs(
        s,
        st.entries[0].sequence,
    ) {
        lemma_same_needs(retired, cleared, s, st.entries[0].sequence);
        lemma_retire_front_keeps(cleared, s, ticket);
    } else {
        lemma_unlock_wf(cleared, s, false);
    }
}

pub proof fn lemma_retire_consumed_wf<P>(v: FabricView<P>, s: nat, tries: nat)
    requires
        v.wf(),
        s < v.streams.len(),
    ensures
        v.retire_consumed(s, tries).wf(),
        v.retire_consumed(s, tries).streams.len() == v.streams.len(),
        v.retire_consumed(s, tries).ledger.nodes.len() == v.ledger.nodes.len(),
    decreases tries,
{
    let st = v.streams[s as int];
    if tries > 0 {
        if st.entries.len() > 0 && v.consumed(s, st.entries[0].sequence) {
            lemma_consumed_unneeded(v, s, st.entries[0].sequence);
            lemma_retire_front_wf(v, s);
            lemma_retire_consumed_wf(v.retire_front(s), s, (tries - 1) as nat);
        } else {
            lemma_unlock_wf(v, s, false);
        }
    }
}

/// Reclaiming the oldest publication keeps the fabric in order.
pub proof fn lemma_retire_front_wf<P>(v: FabricView<P>, s: nat)
    requires
        v.wf(),
        s < v.streams.len(),
        v.streams[s as int].entries.len() > 0,
        !v.required_needs(s, v.streams[s as int].entries[0].sequence),
    ensures
        v.retire_front(s).wf(),
        v.retire_front(s).ledger.nodes.len() == v.ledger.nodes.len(),
        v.retire_front(s).streams.len() == v.streams.len(),
{
    assert(v.stream_sound(s));
    lemma_retire_front_len(v, s);
    lemma_retire_front_keeps(v, s, v.streams[s as int].storage);
}

/// Registering a waiter keeps the fabric in order.
pub proof fn lemma_wait_wf<P>(v: FabricView<P>, s: nat, node: nat)
    requires
        v.wf(),
        s < v.streams.len(),
        node < v.ledger.nodes.len(),
        v.wait(s, node).0 is None,
    ensures
        v.wait(s, node).1.wf(),
        v.wait(s, node).1.ledger.nodes.len() == v.ledger.nodes.len(),
        forall|n: int|
            0 <= n < v.ledger.nodes.len() ==> (#[trigger] v.wait(s, node).1.ledger.nodes[n]).revoked
                == v.ledger.nodes[n].revoked,
{
    let event = v.streams[s as int].declaration.event;
    let at = v.ledger.nodes[node as int];
    let position = at.position(event);
    let usage = one_waiter().widened();
    let owner = Owner::Waiter(s);
    assert(crate::allowance::covers(at.allowances, event));
    let i = choose|i: int|
        0 <= i < at.allowances.len() && #[trigger] at.allowances[i].permission.event == event;
    assert(at.allowances[i as nat as int].permission.event == event);
    assert(v.ledger.has_pool(node, position));
    lemma_charge_wf(v.ledger, node, position, usage, owner);
    let record = LeaseRecord { node, event: position, usage, owner };
    lemma_wait(v, v.ledger.charge(node, position, usage, owner), s, record);
}

/// A receive keeps the fabric in order and every lasting charge.
pub proof fn lemma_recv_now_keeps<P>(
    v: FabricView<P>,
    s: nat,
    index: nat,
    id: u64,
    node: nat,
    ticket: nat,
)
    requires
        v.wf(),
        s < v.streams.len(),
        !v.streams[s as int].closed ==> index < v.streams[s as int].subscribers.len(),
        lasting(v.ledger, ticket),
    ensures
        v.recv_now(s, index, id, node).1.wf(),
        v.recv_now(s, index, id, node).1.streams.len() == v.streams.len(),
        stays(v.ledger, v.recv_now(s, index, id, node).1.ledger, ticket),
{
    let (item, after) = v.try_recv(s, index, id, node);
    lemma_try_recv_wf(v, s, index, id, node);
    lemma_maintain_keeps(after, s, ticket);
    lemma_passed_wf(after.maintain_stream(s), node);
}

/// A strict receive keeps the fabric in order and changes nothing but its cursor and
/// the deferred wakeup.
pub proof fn lemma_try_recv_wf<P>(v: FabricView<P>, s: nat, index: nat, id: u64, node: nat)
    requires
        v.wf(),
        s < v.streams.len(),
        !v.streams[s as int].closed ==> index < v.streams[s as int].subscribers.len(),
    ensures
        v.try_recv(s, index, id, node).1.wf(),
        v.try_recv(s, index, id, node).1.ledger == v.ledger,
        v.try_recv(s, index, id, node).1.streams.len() == v.streams.len(),
{
    let st = v.streams[s as int];
    assert(v.stream_sound(s));
    if !st.closed && st.subscribers[index as int] is Some {
        let cursor = st.subscribers[index as int]->0;
        if st.entries.len() > 0 {
            assert(st.entries[0].sequence <= st.tail);
        }
        if cursor.next < st.head() {
            lemma_advance(v, s, index, st.head());
            let moved = v.advance(s, index, st.head());
            lemma_flags(moved, moved.unlock_deferred(s, true));
        } else if cursor.next < st.tail {
            lemma_advance(v, s, index, (cursor.next + 1) as u64);
            let moved = v.advance(s, index, (cursor.next + 1) as u64);
            lemma_flags(moved, moved.unlock_deferred(s, true));
        }
    }
}

} // verus!

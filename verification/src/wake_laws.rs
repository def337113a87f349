//! Who is woken by a change, who is registered to be, what returns when something ends, and
//! when a revocation is settled.
use crate::error::TopicError;
use crate::event::EventId;
use crate::fabric::declared_as;
use crate::fabric_model::{Declaration, EntryView, FabricView, StreamConfig, StreamView};
use crate::grant::{Limits, RESOURCES};
use crate::item::SubscriptionRole;
use crate::ledger_model::{LedgerView, NodeView, Owner, Signal};
use crate::stream_laws::{law_send_now, lemma_reserve_trims, lemma_reserved_enters};
use vstd::prelude::*;

verus! {

/// All that was owed before is still owed, in order.
pub open spec fn still_owed(before: Seq<Signal>, after: Seq<Signal>) -> bool {
    &&& before.len() <= after.len()
    &&& forall|i: int| 0 <= i < before.len() ==> #[trigger] after[i] == before[i]
}

/// The wakeup is owed, and was not before.
pub open spec fn newly_owed(before: Seq<Signal>, after: Seq<Signal>, signal: Signal) -> bool {
    exists|i: int| before.len() <= i < after.len() && #[trigger] after[i] == signal
}

proof fn lemma_release_owes(v: LedgerView, ticket: nat)
    ensures
        still_owed(v.signals, v.release(ticket).signals),
{
}

proof fn lemma_release_all_owes(v: LedgerView, tickets: Seq<nat>)
    ensures
        still_owed(v.signals, v.release_all(tickets).signals),
    decreases tickets.len(),
{
    if tickets.len() > 0 {
        lemma_release_owes(v, tickets.last());
        lemma_release_all_owes(v.release(tickets.last()), tickets.drop_last());
    }
}

proof fn lemma_reap_owes(v: LedgerView, node: nat)
    ensures
        still_owed(v.signals, v.reap(node).signals),
    decreases v.nodes[node as int].depth,
{
    if v.must_reap(node) {
        let at = v.nodes[node as int];
        crate::ledger_model::lemma_release_all_keeps(v.orphan(node), at.reservations);
        lemma_release_all_owes(v.orphan(node), at.reservations);
        lemma_reap_owes(v.orphan(node).release_all(at.reservations), at.parent->0);
    }
}

proof fn lemma_returned_owes<P>(v: FabricView<P>, ticket: nat)
    ensures
        still_owed(v.ledger.signals, v.release(ticket).ledger.signals),
{
    lemma_release_owes(v.ledger, ticket);
    lemma_reap_owes(v.ledger.release(ticket), v.ledger.record(ticket).node);
}

proof fn lemma_dropped_owes<P>(v: FabricView<P>, node: nat)
    ensures
        still_owed(v.ledger.signals, v.drop_handle(node).ledger.signals),
{
    lemma_reap_owes(v.ledger.with_handles(node, -1), node);
}

proof fn lemma_unlock_owes<P>(v: FabricView<P>, s: nat, dirty: bool)
    ensures
        still_owed(v.ledger.signals, v.unlock(s, dirty).ledger.signals),
        dirty || v.streams[s as int].deferred ==> newly_owed(
            v.ledger.signals,
            v.unlock(s, dirty).ledger.signals,
            Signal::Listener(s as u64),
        ),
{
    if dirty || v.streams[s as int].deferred {
        let after = v.unlock(s, dirty).ledger.signals;
        assert(after[v.ledger.signals.len() as int] == Signal::Listener(s as u64));
    }
}

proof fn lemma_front_owes<P>(v: FabricView<P>, s: nat)
    ensures
        still_owed(v.ledger.signals, v.retire_front(s).ledger.signals),
        newly_owed(
            v.ledger.signals,
            v.retire_front(s).ledger.signals,
            Signal::Listener(s as u64),
        ),
{
    let taken = v.without_front(s);
    let opened = taken.unlock(s, true);
    lemma_unlock_owes(taken, s, true);
    lemma_returned_owes(opened, v.streams[s as int].entries[0].ticket);
    lemma_owed_through(
        v.ledger.signals,
        opened.ledger.signals,
        v.retire_front(s).ledger.signals,
        Signal::Listener(s as u64),
    );
}

/// What is owed newly stays so as more is owed.
proof fn lemma_owed_through(a: Seq<Signal>, b: Seq<Signal>, c: Seq<Signal>, signal: Signal)
    requires
        newly_owed(a, b, signal),
        still_owed(b, c),
    ensures
        newly_owed(a, c, signal),
{
    let i = choose|i: int| a.len() <= i < b.len() && #[trigger] b[i] == signal;
    assert(c[i] == signal);
}

/// What is owed newly later is owed newly.
proof fn lemma_owed_later(a: Seq<Signal>, b: Seq<Signal>, c: Seq<Signal>, signal: Signal)
    requires
        still_owed(a, b),
        newly_owed(b, c, signal),
    ensures
        newly_owed(a, c, signal),
{
    let i = choose|i: int| b.len() <= i < c.len() && #[trigger] c[i] == signal;
    assert(c[i] == signal);
}

proof fn lemma_retire_owes<P>(v: FabricView<P>, s: nat, tries: nat)
    ensures
        still_owed(v.ledger.signals, v.retire_consumed(s, tries).ledger.signals),
        tries > 0 && v.streams[s as int].deferred ==> newly_owed(
            v.ledger.signals,
            v.retire_consumed(s, tries).ledger.signals,
            Signal::Listener(s as u64),
        ),
        tries > 0 && v.streams[s as int].entries.len() > 0 && v.consumed(
            s,
            v.streams[s as int].entries[0].sequence,
        ) ==> newly_owed(
            v.ledger.signals,
            v.retire_consumed(s, tries).ledger.signals,
            Signal::Listener(s as u64),
        ),
    decreases tries,
{
    let st = v.streams[s as int];
    if tries > 0 {
        if st.entries.len() > 0 && v.consumed(s, st.entries[0].sequence) {
            let next = v.retire_front(s);
            lemma_front_owes(v, s);
            lemma_retire_owes(next, s, (tries - 1) as nat);
            lemma_owed_through(
                v.ledger.signals,
                next.ledger.signals,
                v.retire_consumed(s, tries).ledger.signals,
                Signal::Listener(s as u64),
            );
        } else {
            lemma_unlock_owes(v, s, false);
        }
    }
}

proof fn lemma_room_owes<P>(v: FabricView<P>, s: nat)
    ensures
        still_owed(v.ledger.signals, v.make_room(s).ledger.signals),
{
    let st = v.streams[s as int];
    let cleared = v.with_stream(s, StreamView { needs_room: false, ..st });
    if st.needs_room && st.full() && st.entries.len() > 0 && !v.required_needs(
        s,
        st.entries[0].sequence,
    ) {
        lemma_front_owes(cleared, s);
    } else {
        lemma_unlock_owes(cleared, s, false);
    }
}

/// Maintenance of a stream dispatches the wakeup that a strict operation left to it.
pub proof fn law_maintenance_wakes<P>(v: FabricView<P>, s: nat)
    requires
        v.wf(),
        s < v.streams.len(),
        v.streams[s as int].deferred,
    ensures
        still_owed(v.ledger.signals, v.maintain_stream(s).ledger.signals),
        newly_owed(
            v.ledger.signals,
            v.maintain_stream(s).ledger.signals,
            Signal::Listener(s as u64),
        ),
{
    let tries = v.streams[s as int].config.capacity as nat;
    assert(v.stream_sound(s));
    lemma_retire_owes(v, s, tries);
    let mid = v.retire_consumed(s, tries);
    lemma_room_owes(mid, s);
    lemma_owed_through(
        v.ledger.signals,
        mid.ledger.signals,
        v.maintain_stream(s).ledger.signals,
        Signal::Listener(s as u64),
    );
}

/// A receive that gets something, which may make room, wakes whoever waits on the stream: at
/// once, or with the next maintenance if it is strict.
pub proof fn law_receive_wakes<P>(v: FabricView<P>, s: nat, index: nat, id: u64, node: nat)
    requires
        v.wf(),
        s < v.streams.len(),
        index < v.streams[s as int].subscribers.len(),
        v.try_recv(s, index, id, node).0 is Ok,
        v.try_recv(s, index, id, node).0->Ok_0 is Some,
    ensures
        v.try_recv(s, index, id, node).1.streams[s as int].deferred,
        newly_owed(
            v.ledger.signals,
            v.recv_now(s, index, id, node).1.ledger.signals,
            Signal::Listener(s as u64),
        ),
{
    let mid = v.try_recv(s, index, id, node).1;
    crate::fabric_laws::lemma_try_recv_wf(v, s, index, id, node);
    law_maintenance_wakes(mid, s);
    let kept = mid.maintain_stream(s);
    lemma_owed_through(
        v.ledger.signals,
        kept.ledger.signals,
        kept.passed(node).ledger.signals,
        Signal::Listener(s as u64),
    );
}

proof fn lemma_reserve_owes<P>(v: FabricView<P>, s: nat, node: nat, tries: nat)
    ensures
        still_owed(v.ledger.signals, v.reserve_within(s, node, tries).1.ledger.signals),
    decreases tries,
{
    let st = v.streams[s as int];
    let event = st.declaration.event;
    lemma_unlock_owes(v, s, false);
    let seen = v.unlock(s, false);
    if tries > 0 {
        match seen.own_entry(s, node, 0) {
            Some(i) => {
                lemma_front_owes(seen, s);
                lemma_reserve_owes(seen.retire_front(s), s, node, (tries - 1) as nat);
            },
            None => {},
        }
    }
}

/// An accepted publication wakes whoever waits on the stream: at once, or with the next
/// maintenance if it is strict.
pub proof fn law_publication_wakes<P>(
    v: FabricView<P>,
    s: nat,
    node: nat,
    value: P,
    ticket: nat,
)
    requires
        v.wf(),
        s < v.streams.len(),
        node < v.ledger.nodes.len(),
    ensures
        v.send_now(s, node, value).0 is None ==> newly_owed(
            v.ledger.signals,
            v.send_now(s, node, value).1.ledger.signals,
            Signal::Listener(s as u64),
        ),
        v.commit(s, node, value, ticket, true).0 is None ==> v.commit(
            s,
            node,
            value,
            ticket,
            true,
        ).1.streams[s as int].deferred,
{
    if v.send_now(s, node, value).0 is None {
        let st = v.streams[s as int];
        let passed = v.passed(node);
        let tries = (st.config.capacity + 1) as nat;
        law_send_now(v, s, node, value);
        crate::fabric_laws::lemma_passed_wf(v, node);
        lemma_reserve_owes(passed, s, node, tries);
        lemma_reserve_trims(passed, s, node, tries);
        lemma_reserved_enters(passed, s, node, tries);
        let reserved = v.reserve(s, node).1;
        assert(reserved == passed.reserve_within(s, node, tries).1);
        let own = (reserved.ledger.table.len() - 1) as nat;
        lemma_commit_owes(reserved, s, node, value, own);
        lemma_owed_later(
            v.ledger.signals,
            reserved.ledger.signals,
            reserved.commit(s, node, value, own, false).1.ledger.signals,
            Signal::Listener(s as u64),
        );
    }
}

proof fn lemma_commit_owes<P>(v: FabricView<P>, s: nat, node: nat, value: P, ticket: nat)
    requires
        v.commit(s, node, value, ticket, false).0 is None,
    ensures
        newly_owed(
            v.ledger.signals,
            v.commit(s, node, value, ticket, false).1.ledger.signals,
            Signal::Listener(s as u64),
        ),
{
    let st = v.streams[s as int];
    let appended = if st.full() {
        v.without_front(s).append(s, value, ticket)
    } else {
        v.append(s, value, ticket)
    };
    lemma_unlock_owes(appended, s, true);
    let told = appended.unlock(s, true).passed(node);
    lemma_owed_through(
        v.ledger.signals,
        appended.unlock(s, true).ledger.signals,
        told.ledger.signals,
        Signal::Listener(s as u64),
    );
    if st.full() {
        lemma_returned_owes(told, st.entries[0].ticket);
        lemma_owed_through(
            v.ledger.signals,
            told.ledger.signals,
            told.release(st.entries[0].ticket).ledger.signals,
            Signal::Listener(s as u64),
        );
    }
}

/// The end of a subscription, which may make room, and a closure wake whoever waits on the
/// stream.
pub proof fn law_endings_wake<P>(v: FabricView<P>, s: nat, index: nat, node: nat, ticket: nat)
    ensures
        newly_owed(
            v.ledger.signals,
            v.detach(s, index, node, ticket).ledger.signals,
            Signal::Listener(s as u64),
        ),
        newly_owed(v.ledger.signals, v.close(s).ledger.signals, Signal::Listener(s as u64)),
{
    let st = v.streams[s as int];
    let gone = v.delist(s, index);
    let told = gone.unlock(s, true);
    let tries = st.config.capacity as nat;
    lemma_unlock_owes(gone, s, true);
    lemma_retire_owes(told, s, tries);
    let kept = told.retire_consumed(s, tries);
    lemma_dropped_owes(kept, node);
    lemma_returned_owes(kept.drop_handle(node), ticket);
    lemma_owed_through(
        v.ledger.signals,
        told.ledger.signals,
        kept.ledger.signals,
        Signal::Listener(s as u64),
    );
    lemma_owed_through(
        v.ledger.signals,
        kept.ledger.signals,
        kept.drop_handle(node).ledger.signals,
        Signal::Listener(s as u64),
    );
    lemma_owed_through(
        v.ledger.signals,
        kept.drop_handle(node).ledger.signals,
        v.detach(s, index, node, ticket).ledger.signals,
        Signal::Listener(s as u64),
    );
    let emptied = v.with_stream(
        s,
        StreamView { entries: Seq::empty(), subscribers: Seq::empty(), closed: true, ..st },
    );
    lemma_unlock_owes(emptied, s, true);
    let opened = emptied.unlock(s, true);
    lemma_release_entries_owes(opened, st.entries);
    lemma_owed_through(
        v.ledger.signals,
        opened.ledger.signals,
        v.close(s).ledger.signals,
        Signal::Listener(s as u64),
    );
}

proof fn lemma_release_entries_owes<P>(v: FabricView<P>, entries: Seq<EntryView<P>>)
    ensures
        still_owed(v.ledger.signals, v.release_entries(entries).ledger.signals),
    decreases entries.len(),
{
    if entries.len() > 0 {
        lemma_returned_owes(v, entries[0].ticket);
        lemma_release_entries_owes(v.release(entries[0].ticket), entries.drop_first());
    }
}

/// A cutoff tells every grant below it that is cut off newly, and wakes every listener of each
/// grant below it.
pub proof fn law_cutoff_wakes(v: LedgerView, node: nat, n: nat, l: int)
    requires
        n < v.nodes.len(),
        v.descends(n, node),
    ensures
        !v.nodes[n as int].revoked ==> newly_owed(
            v.signals,
            v.cut_off(node).signals,
            Signal::Revoked(n as usize),
        ),
        newly_owed(v.signals, v.cut_off(node).signals, Signal::Changed(n as usize)),
        0 <= l < v.nodes[n as int].listeners.len() ==> newly_owed(
            v.signals,
            v.cut_off(node).signals,
            Signal::Listener(v.nodes[n as int].listeners[l].1),
        ),
{
    let all = v.cutoff_signals(node, v.nodes.len());
    lemma_cutoff_signals(v, node, v.nodes.len(), n, l);
    let after = v.cut_off(node).signals;
    assert forall|signal: Signal| #[trigger] all.contains(signal) implies newly_owed(
        v.signals,
        after,
        signal,
    ) by {
        let i = choose|i: int| 0 <= i < all.len() && all[i] == signal;
        assert(after[v.signals.len() + i] == signal);
    }
}

proof fn lemma_cutoff_signals(v: LedgerView, node: nat, upto: nat, n: nat, l: int)
    requires
        n < upto,
        v.descends(n, node),
    ensures
        !v.nodes[n as int].revoked ==> v.cutoff_signals(node, upto).contains(
            Signal::Revoked(n as usize),
        ),
        v.cutoff_signals(node, upto).contains(Signal::Changed(n as usize)),
        0 <= l < v.nodes[n as int].listeners.len() ==> v.cutoff_signals(node, upto).contains(
            Signal::Listener(v.nodes[n as int].listeners[l].1),
        ),
    decreases upto,
{
    let slot = (upto - 1) as nat;
    let at = v.nodes[slot as int];
    let earlier = v.cutoff_signals(node, slot);
    let all = v.cutoff_signals(node, upto);
    if slot != n {
        lemma_cutoff_signals(v, node, slot, n, l);
        assert forall|signal: Signal| #[trigger] earlier.contains(signal) implies all.contains(
            signal,
        ) by {
            let i = choose|i: int| 0 <= i < earlier.len() && earlier[i] == signal;
            assert(all[i] == signal);
        }
    } else {
        let heard = crate::ledger_model::all_listening(at.listeners);
        let k = earlier.len() as int;
        if at.revoked {
            assert(all[k] == Signal::Changed(slot as usize));
            if 0 <= l < at.listeners.len() {
                assert(all[k + 1 + l] == heard[l]);
            }
        } else {
            assert(all[k] == Signal::Revoked(slot as usize));
            assert(all[k + 1] == Signal::Changed(slot as usize));
            if 0 <= l < at.listeners.len() {
                assert(all[k + 2 + l] == heard[l]);
            }
        }
    }
}

/// Maintenance of a fabric wakes whoever waits on any grant below its root.
pub proof fn law_tree_wakes(v: LedgerView, node: nat, upto: nat, n: nat)
    requires
        n < upto,
        v.descends(n, node),
    ensures
        exists|i: int|
            0 <= i < v.tree_signals(node, upto).len() && #[trigger] v.tree_signals(node, upto)[i]
                == Signal::Changed(n as usize),
    decreases upto,
{
    let slot = (upto - 1) as nat;
    let earlier = v.tree_signals(node, slot);
    let all = v.tree_signals(node, upto);
    if slot == n {
        assert(all[earlier.len() as int] == Signal::Changed(n as usize));
    } else {
        law_tree_wakes(v, node, slot, n);
        let i = choose|i: int|
            0 <= i < earlier.len() && #[trigger] earlier[i] == Signal::Changed(n as usize);
        assert(all[i] == Signal::Changed(n as usize));
    }
}

/// A listener is refused by a revoked grant, and by one whose streams are used up unless it is
/// registered for the event already. It is registered once for an event, last, with that grant
/// alone.
pub proof fn law_registration(v: LedgerView, node: nat, event: EventId, listener: u64, n: nat)
    requires
        node < v.nodes.len(),
        n < v.nodes.len(),
    ensures
        ({
            let at = v.nodes[node as int];
            let after = v.register(node, event, listener);
            let error = v.register_error(node, event, listener);
            &&& error == Some(TopicError::Revoked) <==> at.revoked
            &&& error == Some(TopicError::Capacity) <==> !at.revoked && at.limits.streams
                <= at.listeners.len() && (forall|i: int|
                0 <= i < at.listeners.len() ==> #[trigger] at.listeners[i] != (event, listener))
            &&& error is None || error == Some(TopicError::Revoked) || error == Some(
                TopicError::Capacity,
            )
            &&& after.nodes.len() == v.nodes.len()
            &&& n != node ==> after.nodes[n as int] == v.nodes[n as int]
            &&& after.nodes[node as int] == (NodeView {
                listeners: after.nodes[node as int].listeners,
                ..at
            })
            &&& after.nodes[node as int].listeners == if at.listeners.contains((event, listener)) {
                at.listeners
            } else {
                at.listeners.push((event, listener))
            }
            &&& after.table == v.table
            &&& after.signals == v.signals
        }),
{
}

/// A listener that is gone is registered with no grant; every other registration stays, in order.
pub proof fn law_retirement(v: LedgerView, listener: u64, n: nat)
    requires
        n < v.nodes.len(),
    ensures
        ({
            let after = v.retire(listener);
            let left = v.nodes[n as int].listeners.filter(
                |entry: (EventId, u64)| entry.1 != listener,
            );
            &&& after.nodes.len() == v.nodes.len()
            &&& after.nodes[n as int] == (NodeView { listeners: left, ..v.nodes[n as int] })
            &&& after.table == v.table
            &&& after.signals == v.signals
        }),
{
    lemma_without_filter(v.nodes[n as int].listeners, listener);
}

proof fn lemma_without_filter(listeners: Seq<(EventId, u64)>, listener: u64)
    ensures
        crate::ledger_model::without(listeners, listener) == listeners.filter(
            |entry: (EventId, u64)| entry.1 != listener,
        ),
    decreases listeners.len(),
{
    reveal(Seq::filter);
    if listeners.len() > 0 {
        lemma_without_filter(listeners.drop_last(), listener);
    }
}

/// A revocation can complete exactly when no operation is under way in the grant or below it,
/// and is then complete for all of them, and for nobody else.
pub proof fn law_settling(v: LedgerView, node: nat, n: nat)
    requires
        n < v.nodes.len(),
    ensures
        v.quiet(node) ==> (v.descends(n, node) ==> v.nodes[n as int].active == 0),
        !v.quiet(node) ==> exists|m: nat|
            m < v.nodes.len() && #[trigger] v.descends(m, node) && v.nodes[m as int].active > 0,
        v.cutoff_complete(node).nodes[n as int] == (NodeView {
            complete: v.nodes[n as int].complete || v.descends(n, node),
            ..v.nodes[n as int]
        }),
        v.cutoff_complete(node).table == v.table,
{
}

/// A new subscription, which a publication may have to wait for, wakes whoever waits on the
/// stream.
pub proof fn law_subscription_wakes<P>(
    v: FabricView<P>,
    node: nat,
    declaration: Declaration,
    role: SubscriptionRole,
)
    ensures
        v.subscribe(node, declaration, role).0 matches Ok((s, index)) ==> newly_owed(
            v.ledger.signals,
            v.subscribe(node, declaration, role).1.ledger.signals,
            Signal::Listener(s as u64),
        ),
{
    if let Ok((s, index)) = v.subscribe(node, declaration, role).0 {
        let after = v.subscribe(node, declaration, role).1;
        assert(after.ledger.signals[v.ledger.signals.len() as int] == Signal::Listener(s as u64));
    }
}

/// The end of an admitted operation leaves one fewer under way, and wakes whoever waits on the
/// grant exactly if the operation was to.
pub proof fn law_leaving(v: LedgerView, node: nat, notify: bool, n: nat)
    requires
        node < v.nodes.len(),
        n < v.nodes.len(),
        v.nodes[node as int].active > 0,
    ensures
        ({
            let after = v.leave(node, notify);
            &&& after.nodes.len() == v.nodes.len()
            &&& after.nodes[node as int].active == v.nodes[node as int].active - 1
            &&& after.nodes[node as int] == (NodeView {
                active: after.nodes[node as int].active,
                ..v.nodes[node as int]
            })
            &&& n != node ==> after.nodes[n as int] == v.nodes[n as int]
            &&& after.table == v.table
            &&& still_owed(v.signals, after.signals)
            &&& !notify ==> after.signals.len() == v.signals.len()
            &&& notify ==> newly_owed(v.signals, after.signals, Signal::Changed(node as usize))
        }),
{
    let after = v.leave(node, notify);
    if notify {
        assert(after.signals[v.signals.len() as int] == Signal::Changed(node as usize));
    }
}

/// The first resource of which anything is asked for.
pub open spec fn first_asked(usage: Limits, j: int) -> bool {
    &&& 0 <= j < RESOURCES
    &&& usage.get(j) > 0
    &&& forall|k: int| 0 <= k < j ==> #[trigger] usage.get(k) == 0
}

/// A refused charge that was taken in part gives that part back, and so wakes whoever waits on
/// the grant; one that was refused at the first resource has taken nothing and wakes nobody.
/// Nothing else changes.
pub proof fn law_refused_charge_wakes(
    v: LedgerView,
    node: nat,
    event: Option<nat>,
    usage: Limits,
    j: int,
    k: int,
)
    requires
        first_asked(usage, j),
        0 <= k < RESOURCES,
        usage.get(k) > 0,
        v.pool(node, event).used.get(k) + usage.get(k) > v.pool(node, event).limits.get(k),
    ensures
        ({
            let after = v.refuse(node, event, usage);
            let pool = v.pool(node, event);
            &&& after.nodes == v.nodes
            &&& after.table == v.table
            &&& still_owed(v.signals, after.signals)
            &&& v.nodes[node as int].revoked ==> after.signals == v.signals
            &&& pool.used.get(j) + usage.get(j) > pool.limits.get(j) ==> after.signals == v.signals
            &&& !v.nodes[node as int].revoked && pool.used.get(j) + usage.get(j)
                <= pool.limits.get(j) ==> newly_owed(
                v.signals,
                after.signals,
                Signal::Changed(node as usize),
            )
        }),
{
    let pool = v.pool(node, event);
    let after = v.refuse(node, event, usage);
    assert(!pool.admits(usage));
    if pool.used.get(j) + usage.get(j) <= pool.limits.get(j) {
        assert forall|i: int| 0 <= i <= j implies #[trigger] pool.room(usage, i) by {
            assert(usage.get(i) == 0 || i == j);
        }
        assert(pool.tentative(usage));
        assert(Limits::none().get(j) == 0);
        if !v.nodes[node as int].revoked {
            assert(after.signals[v.signals.len() as int] == Signal::Changed(node as usize));
        }
    } else if pool.tentative(usage) {
        let i = choose|i: int|
            0 <= i < RESOURCES && #[trigger] usage.get(i) > 0 && forall|m: int|
                0 <= m <= i ==> #[trigger] pool.room(usage, m);
        assert(i >= j);
        assert(pool.room(usage, j));
    }
    assert(after.signals =~= v.signals + v.refusal_signals(node, event, usage));
}

/// Leases only end, and every pool stays.
spec fn only_returns(a: LedgerView, b: LedgerView) -> bool {
    &&& b.nodes.len() == a.nodes.len()
    &&& b.table.len() == a.table.len()
    &&& forall|n: int|
        0 <= n < a.nodes.len() ==> (#[trigger] b.nodes[n]).allowances.len()
            == a.nodes[n].allowances.len()
    &&& forall|t: int|
        0 <= t < a.table.len() ==> (#[trigger] b.table[t]) is None || b.table[t] == a.table[t]
}

proof fn lemma_release_returns(v: LedgerView, ticket: nat)
    ensures
        only_returns(v, v.release(ticket)),
        v.outstanding(ticket) && v.has_pool(v.record(ticket).node, v.record(ticket).event)
            ==> !v.release(ticket).outstanding(ticket),
{
}

proof fn lemma_release_all_returns(v: LedgerView, tickets: Seq<nat>)
    ensures
        only_returns(v, v.release_all(tickets)),
    decreases tickets.len(),
{
    if tickets.len() > 0 {
        lemma_release_returns(v, tickets.last());
        lemma_release_all_returns(v.release(tickets.last()), tickets.drop_last());
    }
}

proof fn lemma_reap_returns(v: LedgerView, node: nat)
    ensures
        only_returns(v, v.reap(node)),
    decreases v.nodes[node as int].depth,
{
    if v.must_reap(node) {
        let at = v.nodes[node as int];
        let all = v.orphan(node).release_all(at.reservations);
        crate::ledger_model::lemma_release_all_keeps(v.orphan(node), at.reservations);
        lemma_release_all_returns(v.orphan(node), at.reservations);
        lemma_reap_returns(all, at.parent->0);
    }
}

proof fn lemma_returned<P>(v: FabricView<P>, ticket: nat)
    ensures
        only_returns(v.ledger, v.release(ticket).ledger),
        v.ledger.outstanding(ticket) && v.ledger.has_pool(
            v.ledger.record(ticket).node,
            v.ledger.record(ticket).event,
        ) ==> !v.release(ticket).ledger.outstanding(ticket),
{
    lemma_release_returns(v.ledger, ticket);
    lemma_reap_returns(v.ledger.release(ticket), v.ledger.record(ticket).node);
}

proof fn lemma_retire_returns<P>(v: FabricView<P>, s: nat, tries: nat)
    ensures
        only_returns(v.ledger, v.retire_consumed(s, tries).ledger),
    decreases tries,
{
    let st = v.streams[s as int];
    if tries > 0 && st.entries.len() > 0 && v.consumed(s, st.entries[0].sequence) {
        lemma_returned(v.without_front(s).unlock(s, true), st.entries[0].ticket);
        lemma_retire_returns(v.retire_front(s), s, (tries - 1) as nat);
    }
}

proof fn lemma_entries_return<P>(v: FabricView<P>, entries: Seq<EntryView<P>>, i: int)
    requires
        0 <= i < entries.len(),
        !v.ledger.outstanding(entries[i].ticket) || v.ledger.has_pool(
            v.ledger.record(entries[i].ticket).node,
            v.ledger.record(entries[i].ticket).event,
        ),
    ensures
        !v.release_entries(entries).ledger.outstanding(entries[i].ticket),
    decreases entries.len(),
{
    let next = v.release(entries[0].ticket);
    lemma_returned(v, entries[0].ticket);
    if i > 0 {
        assert(entries.drop_first()[i - 1] == entries[i]);
        lemma_entries_return(next, entries.drop_first(), i - 1);
    } else {
        lemma_stay_returned(next, entries.drop_first(), entries[0].ticket);
    }
}

proof fn lemma_stay_returned<P>(v: FabricView<P>, entries: Seq<EntryView<P>>, ticket: nat)
    requires
        !v.ledger.outstanding(ticket),
    ensures
        !v.release_entries(entries).ledger.outstanding(ticket),
    decreases entries.len(),
{
    if entries.len() > 0 {
        lemma_returned(v, entries[0].ticket);
        lemma_stay_returned(v.release(entries[0].ticket), entries.drop_first(), ticket);
    }
}

/// With a subscription its charge returns, and with a stream that is closed that of every
/// publication that it retained.
pub proof fn law_endings_return<P>(
    v: FabricView<P>,
    s: nat,
    index: nat,
    node: nat,
    ticket: nat,
    i: int,
)
    requires
        v.wf(),
        s < v.streams.len(),
        node < v.ledger.nodes.len(),
    ensures
        !v.detach(s, index, node, ticket).ledger.outstanding(ticket),
        0 <= i < v.streams[s as int].entries.len() ==> !v.close(s).ledger.outstanding(
            v.streams[s as int].entries[i].ticket,
        ),
{
    let st = v.streams[s as int];
    let told = v.delist(s, index).unlock(s, true);
    let kept = told.retire_consumed(s, st.config.capacity as nat);
    lemma_retire_returns(told, s, st.config.capacity as nat);
    lemma_reap_returns(kept.ledger.with_handles(node, -1), node);
    let left = kept.drop_handle(node);
    lemma_returned(left, ticket);
    assert(told.ledger.table == v.ledger.table && told.ledger.nodes == v.ledger.nodes);
    if left.ledger.outstanding(ticket) {
        assert(kept.ledger.with_handles(node, -1).table == kept.ledger.table);
        assert(left.ledger.table[ticket as int] == v.ledger.table[ticket as int]);
        assert(v.ledger.outstanding(ticket));
        let record = v.ledger.record(ticket);
        assert(v.ledger.has_pool(record.node, record.event));
        let mid = kept.ledger.with_handles(node, -1);
        let at = record.node as int;
        assert(kept.ledger.nodes[at].allowances.len() == v.ledger.nodes[at].allowances.len());
        assert(mid.nodes[at].allowances == kept.ledger.nodes[at].allowances);
        assert(mid.reap(node).nodes[at].allowances.len() == mid.nodes[at].allowances.len());
    }
    let emptied = v.with_stream(
        s,
        StreamView { entries: Seq::empty(), subscribers: Seq::empty(), closed: true, ..st },
    ).unlock(s, true);
    if 0 <= i < st.entries.len() {
        let entry = st.entries[i];
        assert(emptied.ledger.table == v.ledger.table && emptied.ledger.nodes == v.ledger.nodes);
        assert(v.stream_sound(s));
        assert(v.ledger.outstanding(entry.ticket));
        assert(v.ledger.has_pool(
            v.ledger.record(entry.ticket).node,
            v.ledger.record(entry.ticket).event,
        ));
        lemma_entries_return(emptied, st.entries, i);
    }
}

/// A stream that can be charged is declared exactly if there is room for its storage; without,
/// it is refused as one too many, no stream is added, and its charge has returned.
pub proof fn law_declared_as<P>(
    v: FabricView<P>,
    root: nat,
    declaration: Declaration,
    config: StreamConfig,
    granted: bool,
    result: Result<(), TopicError>,
    after: FabricView<P>,
)
    requires
        root < v.ledger.nodes.len(),
        declared_as(v, root, declaration, config, granted, result, after),
    ensures
        result is Ok <==> granted,
        granted ==> after.streams.len() == v.streams.len() + 1 && after.streams.last().declaration
            == declaration && after.streams.last().config == config,
        !granted ==> result == Err::<(), TopicError>(TopicError::Capacity) && after.streams
            == v.streams && !after.ledger.outstanding(v.ledger.table.len()),
{
    let charged = v.with_ledger(
        v.ledger.charge(root, None, config.allowance(), Owner::Storage(v.streams.len())),
    );
    lemma_returned(charged, v.ledger.table.len());
}

} // verus!

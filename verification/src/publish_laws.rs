//! What admits a publication, and what it displaces.
use crate::allowance::lemma_fields;
use crate::fabric_laws::{lemma_own_entry, lemma_passed_wf, lemma_retire_front_wf, lemma_unlock_wf};
use crate::fabric_model::{
    one_item, publish_right, EntryView, FabricView, Refusal, StreamView,
};
use crate::fabric_steps::{lemma_older_unneeded, lemma_returned, lemma_without_front};
use crate::grant::Rights;
use crate::item::SubscriptionRole;
use crate::ledger_laws::kept_node;
use crate::ledger_model::{
    on_node, on_pool, tally, weight, LeaseRecord, LedgerView, Owner,
};
use crate::stream_laws::{
    law_send_now, lemma_position_found, lemma_reserve_trims, lemma_reserved_enters, lemma_retired,
};
use vstd::prelude::*;

verus! {

/// Some required receiver whose grant is in force has the publication with that sequence
/// still to receive.
pub open spec fn wanted<P>(v: FabricView<P>, s: nat, sequence: int) -> bool {
    exists|i: int|
        {
            &&& 0 <= i < v.streams[s as int].subscribers.len()
            &&& (#[trigger] v.streams[s as int].subscribers[i]) is Some
            &&& v.streams[s as int].subscribers[i]->0.role == SubscriptionRole::Required
            &&& v.streams[s as int].subscribers[i]->0.next <= sequence
            &&& !v.ledger.nodes[v.streams[s as int].subscribers[i]->0.node as int].revoked
        }
}

/// The charge of retained publication `j` is to the grant in slot `node`.
pub open spec fn published_by<P>(v: FabricView<P>, s: nat, node: nat, j: int) -> bool {
    v.ledger.table[v.streams[s as int].entries[j].ticket as int]->0.node == node
}

/// Retained publication `j` takes of the items that the grant in slot `node` has for its
/// permission number `p`.
pub open spec fn holds_quota<P>(v: FabricView<P>, s: nat, node: nat, p: nat, j: int) -> bool {
    let charge = v.ledger.table[v.streams[s as int].entries[j].ticket as int]->0;
    &&& 0 <= j < v.streams[s as int].entries.len()
    &&& charge.node == node
    &&& charge.event == Some(p)
    &&& charge.usage.retained_items > 0
}

/// The grant in slot `node` is in force, its charges are as many as can be counted, and its
/// permission number `p` lets it publish in an open stream that has a sequence left.
pub open spec fn may_publish<P>(v: FabricView<P>, s: nat, node: nat, p: nat) -> bool {
    let at = v.ledger.nodes[node as int];
    let st = v.streams[s as int];
    &&& s < v.streams.len()
    &&& node < v.ledger.nodes.len()
    &&& !at.revoked
    &&& at.active < usize::MAX / 2
    &&& at.leases <= usize::MAX
    &&& p < at.allowances.len()
    &&& at.allowances[p as int].permission.event == st.declaration.event
    &&& at.allowances[p as int].permission.rights.bits() & 1 == 1
    &&& !st.closed
    &&& st.tail < u64::MAX
}

/// The grant in slot `node` has no further item for its permission number `p`.
pub open spec fn used_up(v: LedgerView, node: nat, p: nat) -> bool {
    let at = v.nodes[node as int];
    ||| at.allowances[p as int].pool.used.retained_items
        >= at.allowances[p as int].pool.limits.retained_items
    ||| at.leases == usize::MAX
}

pub proof fn lemma_wanted<P>(v: FabricView<P>, s: nat, sequence: u64)
    ensures
        v.required_needs(s, sequence) == wanted(v, s, sequence as int),
{
    if v.required_needs(s, sequence) {
        let i = choose|i: int|
            0 <= i < v.streams[s as int].subscribers.len() && v.holds_back(s, i, sequence);
        assert(v.streams[s as int].subscribers[i] is Some);
    }
    if wanted(v, s, sequence as int) {
        let i = choose|i: int|
            {
                &&& 0 <= i < v.streams[s as int].subscribers.len()
                &&& (#[trigger] v.streams[s as int].subscribers[i]) is Some
                &&& v.streams[s as int].subscribers[i]->0.role == SubscriptionRole::Required
                &&& v.streams[s as int].subscribers[i]->0.next <= sequence
                &&& !v.ledger.nodes[v.streams[s as int].subscribers[i]->0.node as int].revoked
            };
        assert(v.holds_back(s, i, sequence));
    }
}

/// A permission for the event is the one that is charged.
pub proof fn lemma_position(v: LedgerView, node: nat, p: nat)
    requires
        v.wf(),
        node < v.nodes.len(),
        p < v.nodes[node as int].allowances.len(),
    ensures
        v.nodes[node as int].position(
            v.nodes[node as int].allowances[p as int].permission.event,
        ) == Some(p),
{
    let at = v.nodes[node as int];
    let event = at.allowances[p as int].permission.event;
    assert(v.node_sound(node));
    assert(at.allowances[p as int].permission.event == event);
    lemma_position_found(at, event);
    let q = at.position(event)->0;
    if q < p {
        assert(at.allowances[q as int].permission.event.0 < at.allowances[p as int].permission.event.0);
    }
    if p < q {
        assert(at.allowances[p as int].permission.event.0 < at.allowances[q as int].permission.event.0);
    }
}

/// One item can be charged exactly if one is left.
pub proof fn lemma_chargeable(v: LedgerView, node: nat, p: nat)
    requires
        v.wf(),
        node < v.nodes.len(),
        p < v.nodes[node as int].allowances.len(),
        !v.nodes[node as int].revoked,
    ensures
        v.stream_charge_error(
            node,
            v.nodes[node as int].allowances[p as int].permission.event,
            one_item(),
        ) is None <==> !used_up(v, node, p),
{
    let at = v.nodes[node as int];
    let pool = at.allowances[p as int].pool;
    lemma_position(v, node, p);
    lemma_fields(pool.used, one_item().widened(), pool.limits);
    assert(v.has_pool(node, Some(p)));
    assert(v.pool_sound(node, Some(p)));
    crate::allowance::lemma_within_fields(pool.used, pool.limits);
    assert(v.node_sound(node));
    lemma_leases_counted(v, node);
}

proof fn lemma_leases_counted(v: LedgerView, node: nat)
    requires
        v.wf(),
        node < v.nodes.len(),
    ensures
        v.nodes[node as int].leases == tally(v.table, on_node(node)),
{
    assert(v.node_sound(node));
}

/// A table with the entry `ticket` gone and nothing new weighs less by that entry.
proof fn lemma_tally_less(
    before: Seq<Option<LeaseRecord>>,
    after: Seq<Option<LeaseRecord>>,
    ticket: int,
    weigh: spec_fn(LeaseRecord) -> nat,
)
    requires
        before.len() == after.len(),
        ticket < before.len(),
        forall|t: int|
            0 <= t < before.len() ==> weight(#[trigger] after[t], weigh) <= weight(
                before[t],
                weigh,
            ),
        0 <= ticket ==> after[ticket] is None,
    ensures
        tally(after, weigh) <= tally(before, weigh),
        0 <= ticket ==> tally(after, weigh) + weight(before[ticket], weigh) <= tally(
            before,
            weigh,
        ),
    decreases before.len(),
{
    if before.len() > 0 {
        let last = before.len() - 1;
        assert(weight(after[last], weigh) <= weight(before[last], weigh));
        assert forall|t: int| 0 <= t < last implies weight(
            #[trigger] after.drop_last()[t],
            weigh,
        ) <= weight(before.drop_last()[t], weigh) by {
            assert(weight(after[t], weigh) <= weight(before[t], weigh));
        }
        lemma_tally_less(
            before.drop_last(),
            after.drop_last(),
            if ticket == last {
                -1
            } else {
                ticket
            },
            weigh,
        );
    }
}

/// Slot of the oldest own publication.
proof fn lemma_own_first<P>(v: FabricView<P>, s: nat, node: nat, from: nat)
    ensures
        match v.own_entry(s, node, from) {
            Some(i) => {
                &&& from <= i < v.streams[s as int].entries.len()
                &&& published_by(v, s, node, i as int)
                &&& forall|j: int|
                    from <= j < v.streams[s as int].entries.len() && #[trigger] published_by(
                        v,
                        s,
                        node,
                        j,
                    ) ==> i <= j
            },
            None => forall|j: int|
                from <= j < v.streams[s as int].entries.len() ==> !#[trigger] published_by(
                    v,
                    s,
                    node,
                    j,
                ),
        },
    decreases v.streams[s as int].entries.len() - from,
{
    let st = v.streams[s as int];
    if from < st.entries.len() {
        assert(v.ledger.record(st.entries[from as int].ticket).node == node <==> published_by(
            v,
            s,
            node,
            from as int,
        ));
        if !published_by(v, s, node, from as int) {
            lemma_own_first(v, s, node, from + 1);
        }
    }
}

/// What reclaiming the oldest publication, which nobody wants, leaves of the accounts.
proof fn lemma_front_gone<P>(v: FabricView<P>, s: nat, node: nat, p: nat)
    requires
        v.wf(),
        s < v.streams.len(),
        node < v.ledger.nodes.len(),
        p < v.ledger.nodes[node as int].allowances.len(),
        v.ledger.nodes[node as int].leases <= usize::MAX,
        v.streams[s as int].entries.len() > 0,
        !v.required_needs(s, v.streams[s as int].entries[0].sequence),
    ensures
        ({
            let after = v.retire_front(s);
            let st = v.streams[s as int];
            &&& after.wf()
            &&& after.streams.len() == v.streams.len()
            &&& after.ledger.nodes.len() == v.ledger.nodes.len()
            &&& kept_node(v.ledger, after.ledger, node)
            &&& after.streams[s as int] == (StreamView {
                entries: st.entries.drop_first(),
                deferred: false,
                ..st
            })
            &&& forall|n: int|
                0 <= n < v.ledger.nodes.len() ==> (#[trigger] after.ledger.nodes[n]).revoked
                    == v.ledger.nodes[n].revoked
            &&& forall|i: int|
                0 < i < st.entries.len() ==> after.ledger.table[st.entries[i].ticket as int]
                    == v.ledger.table[(#[trigger] st.entries[i]).ticket as int]
            &&& after.ledger.nodes[node as int].leases <= v.ledger.nodes[node as int].leases
            &&& holds_quota(v, s, node, p, 0) ==> !used_up(after.ledger, node, p)
        }),
{
    let st = v.streams[s as int];
    let front = st.entries[0];
    let after = v.retire_front(s);
    assert(v.stream_sound(s));
    lemma_retire_front_wf(v, s);
    lemma_retired(v, s);
    lemma_without_front(v, s);
    lemma_unlock_wf(v.without_front(s), s, true);
    let opened = v.without_front(s).unlock(s, true);
    lemma_returned(opened.ledger, front.ticket);
    assert(kept_node(opened.ledger, after.ledger, node));
    assert forall|i: int| 0 < i < st.entries.len() implies after.ledger.table[st.entries[i].ticket as int]
        == v.ledger.table[(#[trigger] st.entries[i]).ticket as int] by {
        let t = st.entries[i].ticket;
        assert(v.ledger.record(front.ticket).owner == Owner::Entry(s, front.sequence as nat));
        assert(v.ledger.record(t).owner == Owner::Entry(s, st.entries[i].sequence as nat));
        assert(opened.ledger.outstanding(t));
    }
    let items = on_pool(node, Some(p), 3);
    let leases = on_node(node);
    let a = after.ledger.table;
    let b = v.ledger.table;
    assert(opened.ledger.outstanding(front.ticket));
    assert(!after.ledger.outstanding(front.ticket));
    assert forall|t: int| 0 <= t < b.len() implies weight(#[trigger] a[t], items) <= weight(
        b[t],
        items,
    ) && weight(a[t], leases) <= weight(b[t], leases) by {
        if a[t] is Some {
            assert(after.ledger.outstanding(t as nat));
            assert(a[t] == b[t]);
        }
    }
    lemma_tally_less(b, a, front.ticket as int, items);
    lemma_tally_less(b, a, front.ticket as int, leases);
    lemma_leases_counted(v.ledger, node);
    lemma_leases_counted(after.ledger, node);
    if holds_quota(v, s, node, p, 0) {
        assert(v.ledger.has_pool(node, Some(p)));
        assert(v.ledger.pool_sound(node, Some(p)));
        assert(after.ledger.has_pool(node, Some(p)));
        assert(after.ledger.pool_sound(node, Some(p)));
        assert(v.ledger.pool(node, Some(p)).used.get(3) == tally(b, items));
        assert(after.ledger.pool(node, Some(p)).used.get(3) == tally(a, items));
        crate::allowance::lemma_within_fields(
            v.ledger.pool(node, Some(p)).used,
            v.ledger.pool(node, Some(p)).limits,
        );
        assert(weight(b[front.ticket as int], items) == b[front.ticket as int]->0.usage.get(3));
    }
}

/// What a reservation leaves of a stream: the publications but the `count` oldest.
pub open spec fn displaces<P>(before: StreamView<P>, after: StreamView<P>, count: int) -> bool {
    &&& 0 <= count <= before.entries.len()
    &&& after.entries == before.entries.skip(count)
    &&& after.tail == before.tail
    &&& after.subscribers == before.subscribers
    &&& after.closed == before.closed
    &&& after.config == before.config
    &&& after.declaration == before.declaration
}

/// The charge that a reservation leaves last.
spec fn charged_one(v: LedgerView, node: nat, p: nat) -> bool {
    let record = v.table.last()->0;
    &&& v.table.len() > 0
    &&& v.table.last() is Some
    &&& record.node == node
    &&& record.event == Some(p)
    &&& record.usage == one_item().widened()
}

proof fn lemma_reserve_free<P>(v: FabricView<P>, s: nat, node: nat, p: nat, tries: nat)
    requires
        v.wf(),
        may_publish(v, s, node, p),
        tries > 0,
        !(v.streams[s as int].full() && wanted(
            v,
            s,
            v.streams[s as int].entries[0].sequence as int,
        )),
        !used_up(v.ledger, node, p),
    ensures
        ({
            let (refused, after) = v.reserve_within(s, node, tries);
            &&& refused is None
            &&& displaces(v.streams[s as int], after.streams[s as int], 0)
            &&& charged_one(after.ledger, node, p)
        }),
{
    let st = v.streams[s as int];
    assert(v.stream_sound(s));
    if st.full() {
        lemma_wanted(v, s, st.entries[0].sequence);
    }
    lemma_unlock_wf(v, s, false);
    lemma_chargeable(v.unlock(s, false).ledger, node, p);
    lemma_position(v.unlock(s, false).ledger, node, p);
    assert(st.entries.skip(0) =~= st.entries);
}

proof fn lemma_reserve_reclaims<P>(
    v: FabricView<P>,
    s: nat,
    node: nat,
    p: nat,
    tries: nat,
    j: int,
)
    requires
        v.wf(),
        may_publish(v, s, node, p),
        holds_quota(v, s, node, p, j),
        !wanted(v, s, v.streams[s as int].entries[j].sequence as int),
        tries >= j + 2,
    ensures
        ({
            let (refused, after) = v.reserve_within(s, node, tries);
            &&& refused is None
            &&& exists|count: int|
                0 <= count <= j + 1 && displaces(
                    v.streams[s as int],
                    after.streams[s as int],
                    count,
                )
            &&& used_up(v.ledger, node, p) ==> after.streams[s as int].entries.len()
                < v.streams[s as int].entries.len()
            &&& charged_one(after.ledger, node, p)
        }),
    decreases tries,
{
    let st = v.streams[s as int];
    assert(v.stream_sound(s));
    assert(st.entries[0].sequence <= st.entries[j].sequence);
    lemma_wanted(v, s, st.entries[j].sequence);
    lemma_older_unneeded(v, s, st.entries[0].sequence, st.entries[j].sequence);
    lemma_wanted(v, s, st.entries[0].sequence);
    if !used_up(v.ledger, node, p) {
        lemma_reserve_free(v, s, node, p, tries);
        assert(displaces(st, v.reserve_within(s, node, tries).1.streams[s as int], 0));
    } else {
        lemma_unlock_wf(v, s, false);
        let seen = v.unlock(s, false);
        lemma_chargeable(seen.ledger, node, p);
        lemma_own_first(seen, s, node, 0);
        assert(published_by(seen, s, node, j));
        let i = seen.own_entry(s, node, 0)->0 as int;
        assert(st.entries[i].sequence <= st.entries[j].sequence);
        lemma_wanted(seen, s, st.entries[j].sequence);
        assert(!wanted(seen, s, st.entries[j].sequence as int)) by {
            lemma_same_wanted(v, seen, s, st.entries[j].sequence as int);
        }
        lemma_older_unneeded(seen, s, st.entries[i].sequence, st.entries[j].sequence);
        lemma_older_unneeded(seen, s, st.entries[0].sequence, st.entries[j].sequence);
        lemma_front_gone(seen, s, node, p);
        let next = seen.retire_front(s);
        let rest = next.streams[s as int];
        assert(may_publish(next, s, node, p));
        if j == 0 {
            assert(holds_quota(seen, s, node, p, 0));
            assert(!rest.full());
            lemma_reserve_free(next, s, node, p, (tries - 1) as nat);
            let after = next.reserve_within(s, node, (tries - 1) as nat).1;
            assert(displaces(rest, after.streams[s as int], 0));
            assert(st.entries.drop_first().skip(0) =~= st.entries.skip(1));
            assert(displaces(st, after.streams[s as int], 1));
        } else {
            assert(rest.entries[j - 1] == st.entries[j]);
            assert(next.ledger.table[st.entries[j].ticket as int]
                == seen.ledger.table[st.entries[j].ticket as int]);
            lemma_same_wanted(seen, next, s, st.entries[j].sequence as int);
            lemma_reserve_reclaims(next, s, node, p, (tries - 1) as nat, j - 1);
            let after = next.reserve_within(s, node, (tries - 1) as nat).1;
            let count = choose|count: int|
                0 <= count <= j && displaces(rest, after.streams[s as int], count);
            assert(st.entries.drop_first().skip(count) =~= st.entries.skip(count + 1));
            assert(displaces(st, after.streams[s as int], count + 1));
        }
        assert(v.reserve_within(s, node, tries) == next.reserve_within(
            s,
            node,
            (tries - 1) as nat,
        ));
    }
}

pub proof fn lemma_same_wanted<P>(v: FabricView<P>, w: FabricView<P>, s: nat, sequence: int)
    requires
        v.wf(),
        s < v.streams.len(),
        w.streams[s as int].subscribers == v.streams[s as int].subscribers,
        v.ledger.nodes.len() == w.ledger.nodes.len(),
        forall|n: int|
            0 <= n < v.ledger.nodes.len() ==> (#[trigger] w.ledger.nodes[n]).revoked
                == v.ledger.nodes[n].revoked,
    ensures
        wanted(v, s, sequence) == wanted(w, s, sequence),
{
    let subscribers = v.streams[s as int].subscribers;
    assert(v.stream_sound(s));
    if wanted(v, s, sequence) {
        let i = choose|i: int|
            {
                &&& 0 <= i < v.streams[s as int].subscribers.len()
                &&& (#[trigger] v.streams[s as int].subscribers[i]) is Some
                &&& v.streams[s as int].subscribers[i]->0.role == SubscriptionRole::Required
                &&& v.streams[s as int].subscribers[i]->0.next <= sequence
                &&& !v.ledger.nodes[v.streams[s as int].subscribers[i]->0.node as int].revoked
            };
        assert(w.streams[s as int].subscribers[i] is Some);
        assert(!w.ledger.nodes[subscribers[i]->0.node as int].revoked);
    }
    if wanted(w, s, sequence) {
        let i = choose|i: int|
            {
                &&& 0 <= i < w.streams[s as int].subscribers.len()
                &&& (#[trigger] w.streams[s as int].subscribers[i]) is Some
                &&& w.streams[s as int].subscribers[i]->0.role == SubscriptionRole::Required
                &&& w.streams[s as int].subscribers[i]->0.next <= sequence
                &&& !w.ledger.nodes[w.streams[s as int].subscribers[i]->0.node as int].revoked
            };
        assert(v.streams[s as int].subscribers[i] is Some);
        assert(w.ledger.nodes[subscribers[i]->0.node as int].revoked
            == v.ledger.nodes[subscribers[i]->0.node as int].revoked);
    }
}

/// A grant that may publish is admitted.
proof fn lemma_enters<P>(v: FabricView<P>, s: nat, node: nat, p: nat)
    requires
        v.wf(),
        may_publish(v, s, node, p),
    ensures
        v.ledger.enter_error(node, v.streams[s as int].declaration.event, publish_right()) is None,
{
    broadcast use Rights::lemma_of_bits;

    let at = v.ledger.nodes[node as int];
    let event = v.streams[s as int].declaration.event;
    assert(at.allowances[p as int].permission.event == event);
    assert(at.permits(event, publish_right()));
}

/// When a publication is refused for want of room, and when it is not. It is refused if the
/// stream is full and a required receiver in force still wants its oldest publication; or if
/// the publisher's quota is used up, and a required receiver in force wants every publication
/// of the publisher that is retained. It is accepted if there is quota left, or if anything of
/// the quota is held by a retained publication that no required receiver in force wants.
/// Observers are of no account, however far they are behind.
pub proof fn law_publication_admission<P>(
    v: FabricView<P>,
    s: nat,
    node: nat,
    p: nat,
    value: P,
)
    requires
        v.wf(),
        may_publish(v, s, node, p),
    ensures
        ({
            let st = v.streams[s as int];
            let refused = v.send_now(s, node, value).0;
            let blocked = st.entries.len() == st.config.capacity && wanted(
                v,
                s,
                st.entries[0].sequence as int,
            );
            &&& refused is None || refused == Some(Refusal::Full)
            &&& blocked ==> refused is Some
            &&& !blocked && !used_up(v.ledger, node, p) ==> refused is None
            &&& !blocked && (exists|j: int| #[trigger]
                holds_quota(v, s, node, p, j) && !wanted(v, s, st.entries[j].sequence as int))
                ==> refused is None
            &&& used_up(v.ledger, node, p) && (forall|j: int|
                0 <= j < st.entries.len() && #[trigger] published_by(v, s, node, j) ==> wanted(
                    v,
                    s,
                    st.entries[j].sequence as int,
                )) ==> refused is Some
            &&& v.reserve(s, node).0 == refused
        }),
{
    let st = v.streams[s as int];
    let tries = (st.config.capacity + 1) as nat;
    let passed = v.passed(node);
    assert(v.stream_sound(s));
    law_send_now(v, s, node, value);
    lemma_passed_wf(v, node);
    lemma_enters(v, s, node, p);
    assert(may_publish(passed, s, node, p));
    assert(v.reserve(s, node) == passed.reserve_within(s, node, tries));
    if st.entries.len() > 0 {
        lemma_same_wanted(v, passed, s, st.entries[0].sequence as int);
        lemma_wanted(passed, s, st.entries[0].sequence);
    }
    let blocked = st.entries.len() == st.config.capacity && wanted(
        v,
        s,
        st.entries[0].sequence as int,
    );
    lemma_only_full(passed, s, node, p, tries);
    if !blocked && !used_up(v.ledger, node, p) {
        lemma_reserve_free(passed, s, node, p, tries);
    }
    if !blocked && exists|j: int| #[trigger]
        holds_quota(v, s, node, p, j) && !wanted(v, s, st.entries[j].sequence as int) {
        let j = choose|j: int| #[trigger]
            holds_quota(v, s, node, p, j) && !wanted(v, s, st.entries[j].sequence as int);
        lemma_same_wanted(v, passed, s, st.entries[j].sequence as int);
        assert(holds_quota(passed, s, node, p, j));
        lemma_reserve_reclaims(passed, s, node, p, tries, j);
    }
    if !blocked && used_up(v.ledger, node, p) && forall|j: int|
        0 <= j < st.entries.len() && #[trigger] published_by(v, s, node, j) ==> wanted(
            v,
            s,
            st.entries[j].sequence as int,
        ) {
        lemma_unlock_wf(passed, s, false);
        let seen = passed.unlock(s, false);
        lemma_chargeable(seen.ledger, node, p);
        lemma_own_first(seen, s, node, 0);
        if seen.own_entry(s, node, 0) is Some {
            let i = seen.own_entry(s, node, 0)->0 as int;
            assert(published_by(v, s, node, i));
            lemma_same_wanted(v, seen, s, st.entries[i].sequence as int);
            lemma_wanted(seen, s, st.entries[i].sequence);
        }
    }
}

/// A grant that may publish is refused for want of room alone.
proof fn lemma_only_full<P>(v: FabricView<P>, s: nat, node: nat, p: nat, tries: nat)
    requires
        v.wf(),
        may_publish(v, s, node, p),
    ensures
        v.reserve_within(s, node, tries).0 matches Some(refusal) ==> refusal is Full,
    decreases tries,
{
    let st = v.streams[s as int];
    assert(v.stream_sound(s));
    if tries > 0 && !(st.full() && v.required_needs(s, st.entries[0].sequence)) {
        lemma_unlock_wf(v, s, false);
        let seen = v.unlock(s, false);
        if seen.own_entry(s, node, 0) is Some {
            let i = seen.own_entry(s, node, 0)->0 as int;
            lemma_own_entry(seen, s, node, 0);
            if !seen.required_needs(s, st.entries[i].sequence) {
                assert(st.entries[0].sequence <= st.entries[i].sequence);
                lemma_older_unneeded(seen, s, st.entries[0].sequence, st.entries[i].sequence);
                lemma_front_gone(seen, s, node, p);
                lemma_only_full(seen.retire_front(s), s, node, p, (tries - 1) as nat);
            }
        }
    }
}

/// A publication by a grant with a quota in use is accepted wherever no subscription of the
/// stream is required, if there is quota left or some of it is held by what is retained.
pub proof fn law_observers_never_block<P>(
    v: FabricView<P>,
    s: nat,
    node: nat,
    p: nat,
    value: P,
)
    requires
        v.wf(),
        may_publish(v, s, node, p),
        forall|i: int|
            0 <= i < v.streams[s as int].subscribers.len() && (
            #[trigger] v.streams[s as int].subscribers[i]) is Some
                ==> v.streams[s as int].subscribers[i]->0.role != SubscriptionRole::Required,
        !used_up(v.ledger, node, p) || exists|j: int| holds_quota(v, s, node, p, j),
    ensures
        v.send_now(s, node, value).0 is None,
        v.reserve(s, node).0 is None,
        v.send_first(s, node, value).0 is Sent,
{
    let st = v.streams[s as int];
    law_publication_admission(v, s, node, p, value);
    if st.entries.len() > 0 {
        assert(!wanted(v, s, st.entries[0].sequence as int));
    }
    if used_up(v.ledger, node, p) {
        let j = choose|j: int| holds_quota(v, s, node, p, j);
        assert(!wanted(v, s, st.entries[j].sequence as int));
        assert(holds_quota(v, s, node, p, j));
    }
    assert(v.stream_sound(s));
}

/// What an accepted publication displaces, and what it leaves: it stands last, with the next
/// sequence, charged to the publisher's quota as one item. With quota left it displaces nothing,
/// or the oldest publication of a full stream. Without, it displaces the oldest publications,
/// at least one, up to one that holds some of the quota. All else stays in order.
pub proof fn law_publication_displaces<P>(
    v: FabricView<P>,
    s: nat,
    node: nat,
    p: nat,
    value: P,
    j: int,
)
    requires
        v.wf(),
        may_publish(v, s, node, p),
        v.send_now(s, node, value).0 is None,
        used_up(v.ledger, node, p) ==> holds_quota(v, s, node, p, j) && !wanted(
            v,
            s,
            v.streams[s as int].entries[j].sequence as int,
        ),
    ensures
        ({
            let was = v.streams[s as int];
            let now = v.send_now(s, node, value).1.streams[s as int];
            let gone = was.entries.len() + 1 - now.entries.len();
            &&& if used_up(v.ledger, node, p) {
                1 <= gone <= j + 1
            } else if was.entries.len() == was.config.capacity {
                gone == 1
            } else {
                gone == 0
            }
            &&& forall|i: int|
                0 <= i < now.entries.len() - 1 ==> #[trigger] now.entries[i] == was.entries[i
                    + gone]
            &&& now.entries.last().sequence == was.tail
            &&& now.entries.last().value == value
            &&& now.tail == was.tail + 1
            &&& now.subscribers == was.subscribers
            &&& now.config == was.config
            &&& now.declaration == was.declaration
            &&& !now.closed
        }),
{
    let st = v.streams[s as int];
    let event = st.declaration.event;
    let tries = (st.config.capacity + 1) as nat;
    let passed = v.passed(node);
    assert(v.stream_sound(s));
    law_publication_admission(v, s, node, p, value);
    law_send_now(v, s, node, value);
    lemma_passed_wf(v, node);
    lemma_enters(v, s, node, p);
    assert(may_publish(passed, s, node, p));
    let reserved = v.reserve(s, node).1;
    assert(reserved == passed.reserve_within(s, node, tries).1);
    if st.entries.len() > 0 {
        lemma_same_wanted(v, passed, s, st.entries[0].sequence as int);
    }
    lemma_reserve_trims(passed, s, node, tries);
    lemma_reserved_enters(passed, s, node, tries);
    lemma_committed(reserved, s, node, value, (reserved.ledger.table.len() - 1) as nat);
    let now = v.send_now(s, node, value).1.streams[s as int];
    if used_up(v.ledger, node, p) {
        lemma_same_wanted(v, passed, s, st.entries[j].sequence as int);
        assert(holds_quota(passed, s, node, p, j));
        lemma_reserve_reclaims(passed, s, node, p, tries, j);
        let count = choose|count: int|
            0 <= count <= j + 1 && displaces(st, reserved.streams[s as int], count);
        assert(count >= 1);
        assert(now.entries =~= st.entries.skip(count).push(now.entries.last()));
    } else {
        lemma_reserve_free(passed, s, node, p, tries);
        assert(st.entries.skip(0) =~= st.entries);
    }
}

/// What admission of a reserved publication leaves of the stream.
proof fn lemma_committed<P>(v: FabricView<P>, s: nat, node: nat, value: P, ticket: nat)
    requires
        v.wf(),
        s < v.streams.len(),
        v.commit(s, node, value, ticket, false).0 is None,
    ensures
        ({
            let was = v.streams[s as int];
            let now = v.commit(s, node, value, ticket, false).1.streams[s as int];
            &&& was.entries.len() == was.config.capacity ==> now.entries
                == was.entries.drop_first().push(EntryView { sequence: was.tail, value, ticket })
            &&& was.entries.len() != was.config.capacity ==> now.entries == was.entries.push(
                EntryView { sequence: was.tail, value, ticket },
            )
            &&& now.tail == was.tail + 1
            &&& now.subscribers == was.subscribers
            &&& now.config == was.config
            &&& now.declaration == was.declaration
            &&& now.closed == was.closed
        }),
{
}

} // verus!

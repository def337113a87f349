//! What streams promise their publishers and receivers.
use crate::error::{CloseReason, ReceiveError, TopicError};
use crate::event::EventId;
use crate::fabric_laws::{
    lemma_own_entry, lemma_passed_wf, lemma_reserve_within_keeps, lemma_retire_front_wf,
    lemma_unlock_wf,
};
use crate::fabric_model::{
    observe_right, one_item, one_subscription, one_waiter, publish_right, role_rights, Declaration,
    FabricView, Refusal, StreamConfig, StreamView,
};
use crate::fabric_steps::{
    lemma_find_none, lemma_older_unneeded, lemma_returned, lemma_without_front,
};
use crate::grant_laws::law_charge_release;
use crate::item::{StreamItem, SubscriptionRole};
use crate::ledger_laws::kept_node;
use crate::ledger_model::{LedgerView, NodeView, Owner};
use crate::static_laws::{item_from, item_to, reached, tiles};
use vstd::prelude::*;

verus! {

/// Everything that a required receiver still has to receive is retained.
pub open spec fn required_kept<P>(v: FabricView<P>, s: nat) -> bool {
    forall|i: int|
        0 <= i < v.streams[s as int].subscribers.len() ==> #[trigger] slot_kept(v, s, i)
}

pub open spec fn slot_kept<P>(v: FabricView<P>, s: nat, i: int) -> bool {
    match v.streams[s as int].subscribers[i] {
        Some(cursor) => cursor.role == SubscriptionRole::Required
            && !v.ledger.nodes[cursor.node as int].revoked ==> v.streams[s as int].head()
            <= cursor.next,
        None => true,
    }
}

/// The revocation of grants is as before.
pub open spec fn same_revocation(a: LedgerView, b: LedgerView) -> bool {
    &&& a.nodes.len() == b.nodes.len()
    &&& forall|n: int| 0 <= n < a.nodes.len() ==> (#[trigger] b.nodes[n]).revoked == a.nodes[n].revoked
}

/// A required receiver whose grant is in force can still receive all that it has not
/// received, in every state of a fabric.
pub proof fn law_required_retained<P>(v: FabricView<P>, s: nat)
    requires
        v.wf(),
        s < v.streams.len(),
    ensures
        required_kept(v, s),
{
    assert(v.stream_sound(s));
    let st = v.streams[s as int];
    if st.entries.len() > 0 {
        assert(st.entries[0].sequence == st.tail - st.entries.len());
    }
    assert forall|i: int| 0 <= i < st.subscribers.len() implies #[trigger] slot_kept(v, s, i) by {
        assert(st.subscribers[i] is Some ==> st.subscribers[i]->0.next <= st.tail);
    }
}

/// A stream retains no more than its capacity, the latest publications without a hole,
/// and has no more subscriptions and waiters than it was declared with.
pub proof fn law_stream_bounds<P>(v: FabricView<P>, s: nat)
    requires
        v.wf(),
        s < v.streams.len(),
    ensures
        ({
            let st = v.streams[s as int];
            &&& st.entries.len() <= st.config.capacity
            &&& st.subscribers.len() <= st.config.subscribers
            &&& st.waiters <= st.config.waiters
            &&& forall|i: int|
                0 <= i < st.entries.len() ==> (#[trigger] st.entries[i]).sequence == st.tail
                    - st.entries.len() + i
        }),
{
    assert(v.stream_sound(s));
}

/// Reclaiming takes the oldest publication, and nothing else, from a stream.
pub proof fn lemma_retired<P>(v: FabricView<P>, s: nat)
    requires
        v.wf(),
        s < v.streams.len(),
        v.streams[s as int].entries.len() > 0,
        !v.required_needs(s, v.streams[s as int].entries[0].sequence),
    ensures
        same_revocation(v.ledger, v.retire_front(s).ledger),
        v.retire_front(s).streams[s as int] == (StreamView {
            entries: v.streams[s as int].entries.drop_first(),
            deferred: false,
            ..v.streams[s as int]
        }),
{
    let st = v.streams[s as int];
    let front = st.entries[0];
    let w = v.retire_front(s);
    assert(v.stream_sound(s));
    lemma_without_front(v, s);
    let taken = v.without_front(s);
    lemma_unlock_wf(taken, s, true);
    let opened = taken.unlock(s, true);
    lemma_returned(opened.ledger, front.ticket);
    assert forall|n: int| 0 <= n < v.ledger.nodes.len() implies (#[trigger] w.ledger.nodes[n]).revoked
        == v.ledger.nodes[n].revoked by {
        assert(kept_node(opened.ledger, w.ledger, n as nat));
    }
}

/// What a reservation changes in its stream: at most the oldest publications are
/// reclaimed.
pub open spec fn trimmed<P>(before: StreamView<P>, after: StreamView<P>) -> bool {
    &&& after.entries.len() <= before.entries.len()
    &&& after.entries == before.entries.skip(before.entries.len() - after.entries.len())
    &&& after.tail == before.tail
    &&& after.subscribers == before.subscribers
    &&& after.closed == before.closed
    &&& after.config == before.config
    &&& after.declaration == before.declaration
    &&& after.next_cursor == before.next_cursor
}

proof fn lemma_trimmed_transitive<P>(a: StreamView<P>, b: StreamView<P>, c: StreamView<P>)
    requires
        trimmed(a, b),
        trimmed(b, c),
    ensures
        trimmed(a, c),
{
    assert(c.entries =~= a.entries.skip(a.entries.len() - c.entries.len()));
}

/// A reservation changes nothing in the stream but that it may reclaim its oldest
/// publications.
pub proof fn lemma_reserve_trims<P>(v: FabricView<P>, s: nat, node: nat, tries: nat)
    requires
        v.wf(),
        s < v.streams.len(),
        node < v.ledger.nodes.len(),
    ensures
        ({
            let (refused, after) = v.reserve_within(s, node, tries);
            &&& after.wf()
            &&& s < after.streams.len()
            &&& trimmed(v.streams[s as int], after.streams[s as int])
            &&& same_revocation(v.ledger, after.ledger)
            &&& refused is None ==> {
                &&& !after.streams[s as int].closed
                &&& after.streams[s as int].tail < u64::MAX
                &&& !(after.streams[s as int].full() && after.required_needs(
                    s,
                    after.streams[s as int].entries[0].sequence,
                ))
                &&& after.ledger.table.len() > 0
                &&& after.ledger.outstanding((after.ledger.table.len() - 1) as nat)
                &&& after.ledger.record((after.ledger.table.len() - 1) as nat).owner
                    == Owner::Caller
            }
        }),
    decreases tries,
{
    let st = v.streams[s as int];
    let event = st.declaration.event;
    assert(v.stream_sound(s));
    lemma_reserve_within_keeps(v, s, node, tries, st.storage);
    assert(st.entries =~= st.entries.skip(0));
    if tries > 0 && !v.ledger.nodes[node as int].revoked {
        lemma_unlock_wf(v, s, false);
        let seen = v.unlock(s, false);
        if !st.closed && st.tail != u64::MAX && !(st.full() && v.required_needs(
            s,
            st.entries[0].sequence,
        )) {
            if seen.ledger.stream_charge_error(node, event, one_item()) is None {
                let after = v.reserve_within(s, node, tries).1;
                if after.streams[s as int].full() && after.required_needs(
                    s,
                    st.entries[0].sequence,
                ) {
                    let i = choose|i: int|
                        0 <= i < st.subscribers.len() && after.holds_back(
                            s,
                            i,
                            st.entries[0].sequence,
                        );
                    assert(v.holds_back(s, i, st.entries[0].sequence));
                }
            } else if seen.own_entry(s, node, 0) is Some {
                let i = seen.own_entry(s, node, 0)->0;
                lemma_own_entry(seen, s, node, 0);
                if !seen.required_needs(s, st.entries[i as int].sequence) {
                    assert(st.entries[0].sequence <= st.entries[i as int].sequence);
                    lemma_older_unneeded(
                        seen,
                        s,
                        st.entries[0].sequence,
                        st.entries[i as int].sequence,
                    );
                    lemma_retired(seen, s);
                    lemma_retire_front_wf(seen, s);
                    let next = seen.retire_front(s);
                    lemma_reserve_trims(next, s, node, (tries - 1) as nat);
                    let after = next.reserve_within(s, node, (tries - 1) as nat).1;
                    assert(trimmed(st, next.streams[s as int])) by {
                        assert(st.entries.drop_first() =~= st.entries.skip(1));
                    }
                    lemma_trimmed_transitive(st, next.streams[s as int], after.streams[s as int]);
                }
            }
        }
    }
}

/// After a reservation by an admitted grant, admission cannot fail: publishing at once
/// is refused only while it reserves. A publication that is accepted gets the next
/// sequence and is the last retained.
pub proof fn law_send_now<P>(v: FabricView<P>, s: nat, node: nat, value: P)
    requires
        v.wf(),
        s < v.streams.len(),
        node < v.ledger.nodes.len(),
    ensures
        ({
            let (refused, after) = v.send_now(s, node, value);
            let was = v.streams[s as int];
            let now = after.streams[s as int];
            &&& refused == v.reserve(s, node).0
            &&& now.subscribers == was.subscribers
            &&& now.closed == was.closed
            &&& refused is Some ==> now.tail == was.tail
            &&& refused is None ==> {
                &&& now.tail == was.tail + 1
                &&& now.entries.len() > 0
                &&& now.entries.last().sequence == was.tail
                &&& now.entries.last().value == value
            }
        }),
{
    let st = v.streams[s as int];
    let event = st.declaration.event;
    assert(v.stream_sound(s));
    let (refused, reserved) = v.reserve(s, node);
    if v.ledger.enter_error(node, event, publish_right()) is None {
        let passed = v.passed(node);
        lemma_passed_wf(v, node);
        lemma_reserve_trims(passed, s, node, (st.config.capacity + 1) as nat);
        if refused is None {
            let own = (reserved.ledger.table.len() - 1) as nat;
            lemma_reserved_enters(passed, s, node, (st.config.capacity + 1) as nat);
            assert(reserved.ledger.enter_error(node, event, publish_right()) is None);
            let (rejected, after) = reserved.commit(s, node, value, own, false);
            assert(rejected is None);
        }
    }
}

/// A reservation leaves admission as it was.
pub proof fn lemma_reserved_enters<P>(v: FabricView<P>, s: nat, node: nat, tries: nat)
    requires
        v.wf(),
        s < v.streams.len(),
        node < v.ledger.nodes.len(),
        v.ledger.enter_error(node, v.streams[s as int].declaration.event, publish_right()) is None,
    ensures
        v.reserve_within(s, node, tries).0 is None ==> v.reserve_within(
            s,
            node,
            tries,
        ).1.ledger.enter_error(
            node,
            v.streams[s as int].declaration.event,
            publish_right(),
        ) is None,
    decreases tries,
{
    let st = v.streams[s as int];
    let event = st.declaration.event;
    let at = v.ledger.nodes[node as int];
    assert(v.stream_sound(s));
    if tries > 0 && !at.revoked && !st.closed && st.tail != u64::MAX && !(st.full()
        && v.required_needs(s, st.entries[0].sequence)) {
        lemma_unlock_wf(v, s, false);
        let seen = v.unlock(s, false);
        if seen.ledger.stream_charge_error(node, event, one_item()) is None {
            let after = v.reserve_within(s, node, tries).1;
            let now = after.ledger.nodes[node as int];
            let p = at.position(event)->0 as int;
            assert(at.permits(event, publish_right()));
            if !at.unrestricted {
                let i = choose|i: int|
                    0 <= i < at.allowances.len() && #[trigger] at.allowances[i].permission.event
                        == event && at.allowances[i].permission.rights.allows(publish_right());
                assert(now.allowances[i].permission == at.allowances[i].permission);
            }
        } else if seen.own_entry(s, node, 0) is Some {
            let i = seen.own_entry(s, node, 0)->0;
            lemma_own_entry(seen, s, node, 0);
            if !seen.required_needs(s, st.entries[i as int].sequence) {
                assert(st.entries[0].sequence <= st.entries[i as int].sequence);
                lemma_older_unneeded(
                    seen,
                    s,
                    st.entries[0].sequence,
                    st.entries[i as int].sequence,
                );
                lemma_retire_front_wf(seen, s);
                let next = seen.retire_front(s);
                lemma_retire_front_enters(seen, s, node);
                lemma_reserved_enters(next, s, node, (tries - 1) as nat);
            }
        }
    }
}

proof fn lemma_retire_front_enters<P>(v: FabricView<P>, s: nat, node: nat)
    requires
        v.wf(),
        s < v.streams.len(),
        node < v.ledger.nodes.len(),
        v.streams[s as int].entries.len() > 0,
        !v.required_needs(s, v.streams[s as int].entries[0].sequence),
        v.ledger.enter_error(node, v.streams[s as int].declaration.event, publish_right()) is None,
    ensures
        v.retire_front(s).ledger.enter_error(
            node,
            v.streams[s as int].declaration.event,
            publish_right(),
        ) is None,
        v.retire_front(s).streams[s as int].declaration == v.streams[s as int].declaration,
{
    let st = v.streams[s as int];
    let event = st.declaration.event;
    let front = st.entries[0];
    assert(v.stream_sound(s));
    lemma_without_front(v, s);
    lemma_unlock_wf(v.without_front(s), s, true);
    let opened = v.without_front(s).unlock(s, true);
    lemma_returned(opened.ledger, front.ticket);
    let after = v.retire_front(s);
    assert(kept_node(opened.ledger, after.ledger, node));
    let at = v.ledger.nodes[node as int];
    let now = after.ledger.nodes[node as int];
    if !at.unrestricted {
        let i = choose|i: int|
            0 <= i < at.allowances.len() && #[trigger] at.allowances[i].permission.event == event
                && at.allowances[i].permission.rights.allows(publish_right());
        assert(now.allowances[i].permission == at.allowances[i].permission);
    }
}

/// What a read gives back of a write: a receiver that has received everything before
/// gets an accepted publication, with its payload and sequence, from its next receive.
pub proof fn law_send_recv<P>(
    v: FabricView<P>,
    s: nat,
    node: nat,
    value: P,
    index: nat,
    id: u64,
    reader: nat,
)
    requires
        v.wf(),
        s < v.streams.len(),
        node < v.ledger.nodes.len(),
        v.send_now(s, node, value).0 is None,
        index < v.streams[s as int].subscribers.len(),
        v.streams[s as int].subscribers[index as int] is Some,
        v.streams[s as int].subscribers[index as int]->0.id == id,
        v.streams[s as int].subscribers[index as int]->0.next == v.streams[s as int].tail,
        v.send_now(s, node, value).1.ledger.enter_error(
            reader,
            v.send_now(s, node, value).1.streams[s as int].declaration.event,
            observe_right(),
        ) is None,
    ensures
        v.send_now(s, node, value).1.try_recv(s, index, id, reader).0 == Ok::<
            Option<StreamItem<P>>,
            ReceiveError,
        >(Some(StreamItem::Data { sequence: v.streams[s as int].tail, value })),
{
    let st = v.streams[s as int];
    assert(v.stream_sound(s));
    law_send_now(v, s, node, value);
    crate::fabric_laws::lemma_send_now_keeps(v, s, node, value, st.storage);
    let after = v.send_now(s, node, value).1;
    let now = after.streams[s as int];
    assert(after.stream_sound(s));
    assert(now.entries[0].sequence == now.tail - now.entries.len());
}

/// A required receiver whose grant is in force is never told of a gap.
pub proof fn law_required_no_gap<P>(v: FabricView<P>, s: nat, index: nat, id: u64, node: nat)
    requires
        v.wf(),
        s < v.streams.len(),
        index < v.streams[s as int].subscribers.len(),
        v.streams[s as int].subscribers[index as int] is Some,
        v.streams[s as int].subscribers[index as int]->0.role == SubscriptionRole::Required,
        v.streams[s as int].subscribers[index as int]->0.node == node,
    ensures
        !(v.try_recv(s, index, id, node).0 matches Ok(Some(StreamItem::Gap { from, to }))),
{
    law_required_retained(v, s);
    assert(slot_kept(v, s, index as int));
}

/// A receive reports exactly the sequences that it moves the cursor over: a gap the
/// publications that are no longer retained, data the one that it carries.
pub proof fn law_receive_exact<P>(v: FabricView<P>, s: nat, index: nat, id: u64, node: nat)
    requires
        v.wf(),
        s < v.streams.len(),
        index < v.streams[s as int].subscribers.len(),
        v.streams[s as int].subscribers[index as int] is Some,
    ensures
        ({
            let (item, after) = v.try_recv(s, index, id, node);
            let was = v.streams[s as int].subscribers[index as int]->0;
            let now = after.streams[s as int].subscribers[index as int]->0;
            match item {
                Ok(Some(StreamItem::Gap { from, to })) => {
                    &&& from == was.next
                    &&& to == now.next
                    &&& from < to
                    &&& forall|i: int|
                        0 <= i < v.streams[s as int].entries.len() ==> to <= (
                        #[trigger] v.streams[s as int].entries[i]).sequence
                },
                Ok(Some(StreamItem::Data { sequence, value })) => {
                    &&& sequence == was.next
                    &&& now.next == sequence + 1
                    &&& exists|i: int|
                        0 <= i < v.streams[s as int].entries.len() && (
                        #[trigger] v.streams[s as int].entries[i]).sequence == sequence
                            && v.streams[s as int].entries[i].value == value
                },
                _ => now == was,
            }
        }),
{
    let st = v.streams[s as int];
    assert(v.stream_sound(s));
    let cursor = st.subscribers[index as int]->0;
    if st.entries.len() > 0 {
        assert(st.entries[0].sequence == st.tail - st.entries.len());
    }
    if st.head() <= cursor.next < st.tail {
        let i = cursor.next - st.head();
        assert(st.entries[i].sequence == cursor.next);
    }
}

/// Where the cursor in one slot of a stream stands.
pub open spec fn stands<P>(v: FabricView<P>, s: nat, index: nat) -> int {
    v.streams[s as int].subscribers[index as int]->0.next as int
}

/// What one receive of a subscription gets, if it gets something.
#[verifier::opaque]
pub open spec fn gets<P>(v: FabricView<P>, s: nat, index: nat, id: u64, node: nat) -> Option<
    StreamItem<P>,
> {
    match v.try_recv(s, index, id, node).0 {
        Ok(Some(item)) => Some(item),
        _ => None,
    }
}

/// Where one receive of a subscription leaves its cursor.
#[verifier::opaque]
pub open spec fn leaves<P>(v: FabricView<P>, s: nat, index: nat, id: u64, node: nat) -> int {
    stands(v.try_recv(s, index, id, node).1, s, index)
}

/// What the receives of one subscription get, one after the other, from the fabric as each
/// of them finds it.
pub open spec fn received<P>(
    seen: Seq<FabricView<P>>,
    s: nat,
    index: nat,
    id: u64,
    node: nat,
) -> Seq<StreamItem<P>>
    decreases seen.len(),
{
    if seen.len() == 0 {
        Seq::empty()
    } else {
        let before = received(seen.drop_last(), s, index, id, node);
        match gets(seen.last(), s, index, id, node) {
            Some(item) => before.push(item),
            None => before,
        }
    }
}

/// The subscription is there for a receive.
pub open spec fn subscribed<P>(v: FabricView<P>, s: nat, index: nat) -> bool {
    &&& v.wf()
    &&& s < v.streams.len()
    &&& index < v.streams[s as int].subscribers.len()
    &&& v.streams[s as int].subscribers[index as int] is Some
}

/// The subscription is there for each receive, and between two of them others do what they
/// like but leave its cursor where the last receive left it.
pub open spec fn undisturbed<P>(
    seen: Seq<FabricView<P>>,
    s: nat,
    index: nat,
    id: u64,
    node: nat,
) -> bool {
    &&& forall|i: int| 0 <= i < seen.len() ==> subscribed(#[trigger] seen[i], s, index)
    &&& forall|i: int|
        0 < i < seen.len() ==> stands(#[trigger] seen[i], s, index) == leaves(
            seen[i - 1],
            s,
            index,
            id,
            node,
        )
}

/// One receive gets an item that begins where the cursor stands and ends where it leaves
/// the cursor.
proof fn lemma_gets<P>(v: FabricView<P>, s: nat, index: nat, id: u64, node: nat)
    requires
        subscribed(v, s, index),
    ensures
        match gets(v, s, index, id, node) {
            Some(item) => {
                &&& item_from(item) == stands(v, s, index)
                &&& item_to(item) == leaves(v, s, index, id, node)
                &&& item_from(item) < item_to(item)
            },
            None => leaves(v, s, index, id, node) == stands(v, s, index),
        },
{
    reveal(gets);
    reveal(leaves);
    law_receive_exact(v, s, index, id, node);
}

/// One more item that begins where the others end goes on with the tiling.
proof fn lemma_tiles_push<V>(items: Seq<StreamItem<V>>, item: StreamItem<V>, from: int)
    requires
        tiles(items, from),
        item_from(item) == reached(items, from),
        item_from(item) < item_to(item),
    ensures
        tiles(items.push(item), from),
        reached(items.push(item), from) == item_to(item),
{
    let longer = items.push(item);
    assert forall|i: int| 0 <= i < longer.len() implies {
        &&& item_from(#[trigger] longer[i]) == if i == 0 {
            from
        } else {
            item_to(longer[i - 1])
        }
        &&& item_from(longer[i]) < item_to(longer[i])
    } by {
        if i < items.len() {
            assert(longer[i] == items[i]);
        }
    }
}

/// Over any number of receives, whatever others do between them, what a subscription gets
/// tiles the sequences from where it stood: each is covered once and in order, by its
/// publication or by a gap, up to where the subscription then stands.
pub proof fn law_received_tiles<P>(
    seen: Seq<FabricView<P>>,
    s: nat,
    index: nat,
    id: u64,
    node: nat,
)
    requires
        seen.len() > 0,
        undisturbed(seen, s, index, id, node),
    ensures
        ({
            let items = received(seen, s, index, id, node);
            let from = stands(seen[0], s, index);
            &&& tiles(items, from)
            &&& leaves(seen.last(), s, index, id, node) == reached(items, from)
        }),
    decreases seen.len(),
{
    let last = seen.last();
    let from = stands(seen[0], s, index);
    let rest = seen.drop_last();
    let before = received(rest, s, index, id, node);
    assert(seen[seen.len() - 1] == last);
    lemma_gets(last, s, index, id, node);
    if rest.len() > 0 {
        assert(undisturbed(rest, s, index, id, node)) by {
            assert forall|i: int| 0 <= i < rest.len() implies subscribed(
                #[trigger] rest[i],
                s,
                index,
            ) by {
                assert(rest[i] == seen[i]);
            }
            assert forall|i: int| 0 < i < rest.len() implies stands(#[trigger] rest[i], s, index)
                == leaves(rest[i - 1], s, index, id, node) by {
                assert(rest[i] == seen[i]);
                assert(rest[i - 1] == seen[i - 1]);
            }
        }
        law_received_tiles(rest, s, index, id, node);
        assert(rest.last() == seen[seen.len() - 2]);
        assert(rest[0] == seen[0]);
    }
    if gets(last, s, index, id, node) is Some {
        lemma_tiles_push(before, gets(last, s, index, id, node)->0, from);
    }
}

/// Cancelling a pending operation gives back its waiter. Streams and grants are as they
/// were before it began to wait: nothing that was accepted is undone.
pub proof fn law_wait_cancel<P>(v: FabricView<P>, s: nat, node: nat)
    requires
        v.wf(),
        s < v.streams.len(),
        node < v.ledger.nodes.len(),
        v.wait(s, node).0 is None,
    ensures
        ({
            let after = v.wait(s, node).1.end_wait(s, v.ledger.table.len());
            after.streams == v.streams && after.ledger.nodes == v.ledger.nodes
        }),
{
    let st = v.streams[s as int];
    let event = st.declaration.event;
    let at = v.ledger.nodes[node as int];
    let position = at.position(event);
    let ticket = v.ledger.table.len();
    lemma_position_found(at, event);
    law_charge_release(v.ledger, node, position, one_waiter().widened(), Owner::Waiter(s));
    let waiting = v.wait(s, node).1;
    let after = waiting.end_wait(s, ticket);
    assert(after.streams =~= v.streams);
    assert(waiting.ledger.record(ticket).node == node);
    assert(!v.ledger.must_reap(node));
}

/// Cancelling a preparation gives back its credit and leaves every stream as preparation
/// left it: the latest of what was retained before.
pub proof fn law_prepare_cancel<P>(v: FabricView<P>, s: nat, node: nat)
    requires
        v.wf(),
        s < v.streams.len(),
        node < v.ledger.nodes.len(),
        v.reserve(s, node).0 is None,
    ensures
        ({
            let reserved = v.reserve(s, node).1;
            let ticket = (reserved.ledger.table.len() - 1) as nat;
            let after = reserved.release(ticket);
            &&& reserved.ledger.outstanding(ticket)
            &&& !after.ledger.outstanding(ticket)
            &&& after.streams == reserved.streams
            &&& trimmed(v.streams[s as int], after.streams[s as int])
        }),
{
    let capacity = v.streams[s as int].config.capacity;
    lemma_passed_wf(v, node);
    lemma_reserve_trims(v.passed(node), s, node, (capacity + 1) as nat);
    let reserved = v.reserve(s, node).1;
    lemma_returned(reserved.ledger, (reserved.ledger.table.len() - 1) as nat);
}

/// The allowance of a permitted event is found.
pub proof fn lemma_position_found(at: NodeView, event: EventId)
    requires
        at.position(event) is Some,
    ensures
        at.position(event)->0 < at.allowances.len(),
        at.allowances[at.position(event)->0 as int].permission.event == event,
{
    let i = choose|i: int|
        0 <= i < at.allowances.len() && #[trigger] at.allowances[i].permission.event == event;
    assert(at.allowances[i as nat as int].permission.event == event);
}

/// A permission without capacity for publications binds no publisher, and one without
/// capacity for subscriptions no receiver.
pub proof fn law_zero_limits<P>(
    v: FabricView<P>,
    node: nat,
    declaration: Declaration,
    role: SubscriptionRole,
)
    requires
        v.wf(),
        node < v.ledger.nodes.len(),
        v.ledger.nodes[node as int].position(declaration.event) is Some,
    ensures
        ({
            let at = v.ledger.nodes[node as int];
            let granted = at.allowances[at.position(
                declaration.event,
            )->0 as int].permission.limits;
            &&& granted.retained_items == 0 ==> v.sender(node, declaration).0 is Err
            &&& granted.subscriptions == 0 ==> v.subscribe(node, declaration, role).0 is Err
        }),
{
    let at = v.ledger.nodes[node as int];
    lemma_position_found(at, declaration.event);
    assert(v.ledger.node_sound(node));
    let to_publish = v.resolve(node, declaration, publish_right()).1;
    assert(to_publish.ledger.nodes[node as int].allowances == at.allowances);
    let to_receive = v.resolve(node, declaration, role_rights(role)).1;
    assert(to_receive.ledger.nodes[node as int].allowances == at.allowances);
    let p = at.position(declaration.event)->0 as int;
    assert(to_publish.ledger.nodes[node as int].position(declaration.event) == Some(p as nat));
    assert(to_receive.ledger.nodes[node as int].position(declaration.event) == Some(p as nat));
    let pool = at.allowances[p].pool;
    if at.allowances[p].permission.limits.subscriptions == 0 {
        let extra = one_subscription().widened();
        assert(pool.used.get(2) + extra.get(2) > pool.limits.get(2));
        assert(!pool.admits(extra));
    }
}

/// Once its grant is revoked a publisher is refused and a receiver gets nothing, and
/// neither changes the stream.
pub proof fn law_revoked<P>(v: FabricView<P>, s: nat, node: nat, value: P, index: nat, id: u64)
    requires
        v.ledger.nodes[node as int].revoked,
    ensures
        v.send_now(s, node, value) == (Some(Refusal::Revoked), v),
        v.try_recv(s, index, id, node) == (
            Err::<Option<StreamItem<P>>, ReceiveError>(ReceiveError::Closed(CloseReason::Revoked)),
            v,
        ),
{
}

/// Observers never keep a publication out: with credit left, a stream without required
/// receivers accepts it.
pub proof fn law_observers_do_not_block<P>(v: FabricView<P>, s: nat, node: nat, value: P)
    requires
        v.wf(),
        s < v.streams.len(),
        node < v.ledger.nodes.len(),
        v.ledger.enter_error(node, v.streams[s as int].declaration.event, publish_right()) is None,
        v.ledger.stream_charge_error(
            node,
            v.streams[s as int].declaration.event,
            one_item(),
        ) is None,
        !v.streams[s as int].closed,
        v.streams[s as int].tail < u64::MAX,
        forall|i: int|
            0 <= i < v.streams[s as int].subscribers.len() && (
            #[trigger] v.streams[s as int].subscribers[i]) is Some
                ==> v.streams[s as int].subscribers[i]->0.role == SubscriptionRole::Observer,
    ensures
        v.send_now(s, node, value).0 is None,
{
    let passed = v.passed(node);
    let st = v.streams[s as int];
    law_send_now(v, s, node, value);
    if st.entries.len() > 0 && passed.required_needs(s, st.entries[0].sequence) {
        let i = choose|i: int|
            0 <= i < st.subscribers.len() && passed.holds_back(s, i, st.entries[0].sequence);
        assert(st.subscribers[i] is Some);
    }
    assert(v.stream_sound(s));
}

/// Declaring a stream again as it was declared changes nothing.
pub proof fn law_declare_again<P>(
    v: FabricView<P>,
    root: nat,
    declaration: Declaration,
    config: StreamConfig,
)
    requires
        v.wf(),
        v.find(declaration.event, 0) is None,
    ensures
        ({
            let after = v.declare(root, declaration, config);
            let s = v.streams.len();
            &&& after.find(declaration.event, 0) == Some(s)
            &&& after.redeclare(s, declaration, config) == (Ok::<(), TopicError>(()), after)
        }),
{
    let after = v.declare(root, declaration, config);
    assert forall|s: nat| s < v.streams.len() implies (#[trigger] after.streams[s as int]).declaration.event
        != declaration.event by {
        lemma_find_none(v, declaration.event, 0, s);
    }
    lemma_find_last(after, declaration.event, 0);
}

proof fn lemma_find_last<P>(v: FabricView<P>, event: EventId, from: nat)
    requires
        from < v.streams.len(),
        v.streams.last().declaration.event == event,
        forall|s: nat|
            from <= s < v.streams.len() - 1 ==> (#[trigger] v.streams[s as int]).declaration.event
                != event,
    ensures
        v.find(event, from) == Some((v.streams.len() - 1) as nat),
    decreases v.streams.len() - from,
{
    if from < v.streams.len() - 1 {
        assert(v.streams[from as int].declaration.event != event);
        lemma_find_last(v, event, from + 1);
    }
}

/// A closed stream stays closed: it accepts no publication, gives nothing out, and
/// cannot be declared again.
pub proof fn law_closed<P>(
    v: FabricView<P>,
    s: nat,
    node: nat,
    value: P,
    index: nat,
    id: u64,
    declaration: Declaration,
    config: StreamConfig,
)
    requires
        v.wf(),
        s < v.streams.len(),
        node < v.ledger.nodes.len(),
        v.streams[s as int].closed,
    ensures
        v.send_now(s, node, value).0 is Some,
        v.ledger.enter_error(node, v.streams[s as int].declaration.event, publish_right()) is None
            ==> v.send_now(s, node, value).0 == Some(Refusal::Closed),
        v.try_recv(s, index, id, node).0 is Err,
        v.redeclare(s, declaration, config).0 is Err,
        v.streams[s as int].entries.len() == 0,
{
    assert(v.stream_sound(s));
}

} // verus!

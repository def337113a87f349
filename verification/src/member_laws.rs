//! What becomes of those who publish and receive: who is admitted to a stream, what each
//! receive gets, and what is reclaimed.
use crate::error::{CloseReason, ReceiveError, SendError, TopicError, TopicTypeMismatch};
use crate::event::EventId;
use crate::fabric_laws::{lemma_retire_consumed_wf, lemma_retire_front_wf, lemma_unlock_wf};
use crate::fabric_model::{
    observe_right, one_subscription, one_waiter, publish_right, receive_refusal, refusal,
    role_rights, CursorView,
    Declaration, EntryView, FabricView, ReceiveVerdict, Refusal, SendVerdict, StreamConfig,
    StreamView,
};
use crate::fabric_steps::{
    lemma_consumed_unneeded, lemma_find_none, lemma_find_some, lemma_flags, lemma_same_needs,
};
use crate::grant::Rights;
use crate::item::{StreamItem, SubscriptionRole};
use crate::ledger_model::{LedgerView, NodeView};
use crate::publish_laws::{lemma_same_wanted, wanted};
use crate::stream_laws::lemma_retired;
use vstd::prelude::*;

verus! {

/// The grant lets an event be used with all operations whose bits are in `want`.
pub open spec fn permitted(at: NodeView, event: EventId, want: u8) -> bool {
    at.unrestricted || exists|p: int|
        0 <= p < at.allowances.len() && #[trigger] at.allowances[p].permission.event == event
            && at.allowances[p].permission.rights.bits() & want == want
}

/// Whether a grant admits an operation: a revoked grant admits none; another exactly those
/// that it permits, as long as fewer are under way than can be counted.
pub proof fn law_admission(v: LedgerView, node: nat, event: EventId, right: Rights)
    ensures
        ({
            let at = v.nodes[node as int];
            let checked = if at.revoked {
                Some(TopicError::Revoked)
            } else if !permitted(at, event, right.bits()) {
                Some(TopicError::Denied)
            } else {
                None
            };
            &&& at.check_error(event, right) == checked
            &&& v.enter_error(node, event, right) == if checked is Some {
                checked
            } else if at.active >= usize::MAX / 2 {
                Some(TopicError::Capacity)
            } else {
                None
            }
        }),
{
    let at = v.nodes[node as int];
    if at.permits(event, right) && !at.unrestricted {
        let i = choose|i: int|
            0 <= i < at.allowances.len() && #[trigger] at.allowances[i].permission.event == event
                && at.allowances[i].permission.rights.allows(right);
        assert(at.allowances[i].permission.event == event);
    }
    if permitted(at, event, right.bits()) && !at.unrestricted {
        let i = choose|p: int|
            0 <= p < at.allowances.len() && #[trigger] at.allowances[p].permission.event == event
                && at.allowances[p].permission.rights.bits() & right.bits() == right.bits();
        assert(at.allowances[i].permission.event == event);
    }
}

/// A receiver whose grant does not admit it gets nothing and changes nothing: it is told to try
/// again where only the count of operations stands against it, and otherwise that it is cut
/// off.
pub proof fn law_receive_refused<P>(v: FabricView<P>, s: nat, index: nat, id: u64, node: nat)
    ensures
        ({
            let at = v.ledger.nodes[node as int];
            let event = v.streams[s as int].declaration.event;
            &&& at.revoked || !permitted(at, event, 2) ==> v.try_recv(s, index, id, node) == (
                Err::<Option<StreamItem<P>>, ReceiveError>(
                    ReceiveError::Closed(CloseReason::Revoked),
                ),
                v,
            )
            &&& !at.revoked && permitted(at, event, 2) && at.active >= usize::MAX / 2
                ==> v.try_recv(s, index, id, node) == (
                Err::<Option<StreamItem<P>>, ReceiveError>(ReceiveError::Contended),
                v,
            )
        }),
{
    broadcast use Rights::lemma_of_bits;

    law_admission(v.ledger, node, v.streams[s as int].declaration.event, observe_right());
}

/// What an admitted receiver gets, by where its cursor stands: nothing at the tail; its next
/// publication, if that is retained; and otherwise word of exactly those that are lost. The
/// cursor moves over just that, and nothing else changes but that a wakeup is owed. Without a
/// subscription in force in an open stream it gets the closure.
pub proof fn law_receive<P>(v: FabricView<P>, s: nat, index: nat, id: u64, node: nat)
    requires
        v.wf(),
        s < v.streams.len(),
        !v.ledger.nodes[node as int].revoked,
        permitted(v.ledger.nodes[node as int], v.streams[s as int].declaration.event, 2),
        v.ledger.nodes[node as int].active < usize::MAX / 2,
        index < v.streams[s as int].subscribers.len() || v.streams[s as int].closed,
    ensures
        ({
            let st = v.streams[s as int];
            let oldest = st.tail - st.entries.len();
            let slot = st.subscribers[index as int];
            let cursor = slot->0;
            let (got, after) = v.try_recv(s, index, id, node);
            let now = after.streams[s as int];
            &&& after.ledger == v.ledger
            &&& after.streams.len() == v.streams.len()
            &&& forall|o: int|
                0 <= o < v.streams.len() && o != s ==> #[trigger] after.streams[o] == v.streams[o]
            &&& now.entries == st.entries
            &&& now.tail == st.tail
            &&& if st.closed || slot is None || cursor.id != id {
                got == Err::<Option<StreamItem<P>>, ReceiveError>(
                    ReceiveError::Closed(CloseReason::Closed),
                ) && after == v
            } else if cursor.next == st.tail {
                got == Ok::<Option<StreamItem<P>>, ReceiveError>(None) && after == v
            } else if cursor.next < oldest {
                &&& got == Ok::<Option<StreamItem<P>>, ReceiveError>(
                    Some(StreamItem::Gap { from: cursor.next, to: oldest as u64 }),
                )
                &&& now == (StreamView {
                    subscribers: st.subscribers.update(
                        index as int,
                        Some(CursorView { next: oldest as u64, ..cursor }),
                    ),
                    deferred: true,
                    ..st
                })
            } else {
                &&& got == Ok::<Option<StreamItem<P>>, ReceiveError>(
                    Some(
                        StreamItem::Data {
                            sequence: cursor.next,
                            value: st.entries[cursor.next - oldest].value,
                        },
                    ),
                )
                &&& st.entries[cursor.next - oldest].sequence == cursor.next
                &&& now == (StreamView {
                    subscribers: st.subscribers.update(
                        index as int,
                        Some(CursorView { next: (cursor.next + 1) as u64, ..cursor }),
                    ),
                    deferred: true,
                    ..st
                })
            }
        }),
{
    broadcast use Rights::lemma_of_bits;

    let st = v.streams[s as int];
    law_admission(v.ledger, node, st.declaration.event, observe_right());
    assert(v.stream_sound(s));
    if st.entries.len() > 0 {
        assert(st.entries[0].sequence == st.tail - st.entries.len());
    }
    if !st.closed && st.subscribers[index as int] is Some {
        let cursor = st.subscribers[index as int]->0;
        assert(cursor.next <= st.tail);
        let oldest = st.tail - st.entries.len();
        if oldest <= cursor.next < st.tail {
            assert(st.entries[cursor.next - oldest].sequence == cursor.next);
        }
    }
}

/// No receiver in force has the publication with that sequence still to receive.
pub open spec fn done_with<P>(v: FabricView<P>, s: nat, sequence: int) -> bool {
    forall|i: int|
        0 <= i < v.streams[s as int].subscribers.len() && (
        #[trigger] v.streams[s as int].subscribers[i]) is Some
            && v.streams[s as int].subscribers[i]->0.next <= sequence
            ==> v.ledger.nodes[v.streams[s as int].subscribers[i]->0.node as int].revoked
}

proof fn lemma_done_with<P>(v: FabricView<P>, s: nat, sequence: u64)
    ensures
        v.consumed(s, sequence) == done_with(v, s, sequence as int),
{
    let subscribers = v.streams[s as int].subscribers;
    if v.consumed(s, sequence) {
        assert forall|i: int|
            0 <= i < v.streams[s as int].subscribers.len() && (
            #[trigger] v.streams[s as int].subscribers[i]) is Some
                && v.streams[s as int].subscribers[i]->0.next <= sequence implies
            v.ledger.nodes[v.streams[s as int].subscribers[i]->0.node as int].revoked by {
            assert(!v.may_receive(s, i, sequence));
        }
    }
    if done_with(v, s, sequence as int) {
        assert forall|i: int| 0 <= i < v.streams[s as int].subscribers.len() implies !v.may_receive(
            s,
            i,
            sequence,
        ) by {
            assert(subscribers[i] is Some || subscribers[i] is None);
        }
    }
}

/// What is there for receivers depends on cursors and on what is cut off alone.
proof fn lemma_same_done<P>(v: FabricView<P>, w: FabricView<P>, s: nat, sequence: int)
    requires
        v.wf(),
        s < v.streams.len(),
        w.streams[s as int].subscribers == v.streams[s as int].subscribers,
        w.ledger.nodes.len() == v.ledger.nodes.len(),
        forall|n: int|
            0 <= n < v.ledger.nodes.len() ==> (#[trigger] w.ledger.nodes[n]).revoked
                == v.ledger.nodes[n].revoked,
    ensures
        done_with(v, s, sequence) == done_with(w, s, sequence),
{
    let subscribers = v.streams[s as int].subscribers;
    assert(v.stream_sound(s));
    assert forall|i: int|
        0 <= i < subscribers.len() && (#[trigger] subscribers[i]) is Some implies
        w.ledger.nodes[subscribers[i]->0.node as int].revoked
        == v.ledger.nodes[subscribers[i]->0.node as int].revoked by {}
    if done_with(v, s, sequence) {
        assert forall|i: int|
            0 <= i < w.streams[s as int].subscribers.len() && (
            #[trigger] w.streams[s as int].subscribers[i]) is Some
                && w.streams[s as int].subscribers[i]->0.next <= sequence implies
            w.ledger.nodes[w.streams[s as int].subscribers[i]->0.node as int].revoked by {
            assert(v.streams[s as int].subscribers[i] is Some);
        }
    }
    if done_with(w, s, sequence) {
        assert forall|i: int|
            0 <= i < v.streams[s as int].subscribers.len() && (
            #[trigger] v.streams[s as int].subscribers[i]) is Some
                && v.streams[s as int].subscribers[i]->0.next <= sequence implies
            v.ledger.nodes[v.streams[s as int].subscribers[i]->0.node as int].revoked by {
            assert(w.streams[s as int].subscribers[i] is Some);
        }
    }
}

/// The stream is as it was but for its `count` oldest publications, and for what is owed.
pub open spec fn reclaims<P>(before: StreamView<P>, after: StreamView<P>, count: int) -> bool {
    &&& 0 <= count <= before.entries.len()
    &&& after.entries == before.entries.skip(count)
    &&& after.tail == before.tail
    &&& after.subscribers == before.subscribers
    &&& after.closed == before.closed
    &&& after.config == before.config
    &&& after.declaration == before.declaration
    &&& after.waiters == before.waiters
    &&& after.next_cursor == before.next_cursor
}

spec fn same_grants(a: LedgerView, b: LedgerView) -> bool {
    &&& a.nodes.len() == b.nodes.len()
    &&& forall|n: int| 0 <= n < a.nodes.len() ==> (#[trigger] b.nodes[n]).revoked == a.nodes[n].revoked
}

proof fn lemma_retire<P>(v: FabricView<P>, s: nat, tries: nat)
    requires
        v.wf(),
        s < v.streams.len(),
        tries >= v.streams[s as int].entries.len(),
    ensures
        ({
            let after = v.retire_consumed(s, tries);
            let st = v.streams[s as int];
            &&& after.wf()
            &&& after.streams.len() == v.streams.len()
            &&& same_grants(v.ledger, after.ledger)
            &&& after.streams[s as int].needs_room == st.needs_room
            &&& exists|count: int|
                {
                    &&& #[trigger] reclaims(st, after.streams[s as int], count)
                    &&& forall|i: int|
                        0 <= i < count ==> done_with(v, s, (#[trigger] st.entries[i]).sequence as int)
                    &&& count < st.entries.len() ==> !done_with(
                        v,
                        s,
                        st.entries[count].sequence as int,
                    )
                }
        }),
    decreases tries,
{
    let st = v.streams[s as int];
    assert(v.stream_sound(s));
    if st.entries.len() > 0 {
        lemma_done_with(v, s, st.entries[0].sequence);
    }
    if tries > 0 && st.entries.len() > 0 && v.consumed(s, st.entries[0].sequence) {
        lemma_consumed_unneeded(v, s, st.entries[0].sequence);
        lemma_retire_front_wf(v, s);
        lemma_retired(v, s);
        let next = v.retire_front(s);
        let rest = next.streams[s as int];
        lemma_retire(next, s, (tries - 1) as nat);
        let after = v.retire_consumed(s, tries);
        let count = choose|count: int|
            {
                &&& #[trigger] reclaims(rest, after.streams[s as int], count)
                &&& forall|i: int|
                    0 <= i < count ==> done_with(next, s, (#[trigger] rest.entries[i]).sequence as int)
                &&& count < rest.entries.len() ==> !done_with(
                    next,
                    s,
                    rest.entries[count].sequence as int,
                )
            };
        assert(st.entries.drop_first().skip(count) =~= st.entries.skip(count + 1));
        assert(reclaims(st, after.streams[s as int], count + 1));
        assert forall|i: int| 0 <= i < count + 1 implies done_with(
            v,
            s,
            (#[trigger] st.entries[i]).sequence as int,
        ) by {
            if i > 0 {
                assert(rest.entries[i - 1] == st.entries[i]);
                lemma_same_done(v, next, s, st.entries[i].sequence as int);
            }
        }
        if count + 1 < st.entries.len() {
            assert(rest.entries[count] == st.entries[count + 1]);
            lemma_same_done(v, next, s, st.entries[count + 1].sequence as int);
        }
    } else {
        lemma_unlock_wf(v, s, false);
        let after = v.retire_consumed(s, tries);
        assert(st.entries.skip(0) =~= st.entries);
        assert(reclaims(st, after.streams[s as int], 0));
    }
}

/// A strict publication found the stream full, and only observers have its oldest publication
/// still to receive.
pub open spec fn pressed<P>(v: FabricView<P>, s: nat) -> bool {
    let st = v.streams[s as int];
    st.needs_room && st.entries.len() == st.config.capacity && !wanted(
        v,
        s,
        st.entries[0].sequence as int,
    )
}

/// The stream has been maintained: from the oldest on, everything that no receiver in force
/// has still to receive is reclaimed, and nothing else; but where a strict publication found
/// the stream full, also its oldest publication, if only observers have it still to receive.
pub open spec fn maintained<P>(v: FabricView<P>, s: nat, now: StreamView<P>) -> bool {
    let st = v.streams[s as int];
    &&& !now.needs_room
    &&& exists|count: int|
        {
            &&& #[trigger] reclaims(st, now, count)
            &&& (forall|i: int|
                0 <= i < count ==> done_with(v, s, (#[trigger] st.entries[i]).sequence as int))
                || (pressed(v, s) && count == 1)
            &&& count < st.entries.len() ==> !done_with(v, s, st.entries[count].sequence as int)
            &&& pressed(v, s) ==> count >= 1
        }
}

/// What maintenance of a stream reclaims.
pub proof fn law_maintenance<P>(v: FabricView<P>, s: nat)
    requires
        v.wf(),
        s < v.streams.len(),
    ensures
        maintained(v, s, v.maintain_stream(s).streams[s as int]),
{
    let st = v.streams[s as int];
    let tries = st.config.capacity as nat;
    assert(v.stream_sound(s));
    lemma_retire(v, s, tries);
    let after = v.retire_consumed(s, tries);
    let mid = after.streams[s as int];
    let count = choose|count: int|
        {
            &&& #[trigger] reclaims(st, mid, count)
            &&& forall|i: int|
                0 <= i < count ==> done_with(v, s, (#[trigger] st.entries[i]).sequence as int)
            &&& count < st.entries.len() ==> !done_with(v, s, st.entries[count].sequence as int)
        };
    let now = v.maintain_stream(s).streams[s as int];
    assert(after.stream_sound(s));
    if mid.entries.len() > 0 {
        crate::publish_laws::lemma_wanted(after, s, mid.entries[0].sequence);
    }
    if mid.full() {
        assert(count == 0);
        assert(st.entries.skip(0) =~= st.entries);
        lemma_same_wanted(v, after, s, st.entries[0].sequence as int);
    }
    if mid.needs_room && mid.full() && !after.required_needs(s, mid.entries[0].sequence) {
        assert(st.entries.drop_first() =~= st.entries.skip(1));
        assert(reclaims(st, now, 1));
        if st.entries.len() > 1 {
            let first = st.entries[0].sequence as int;
            let second = st.entries[1].sequence as int;
            assert(st.entries[0].sequence == st.tail - st.entries.len());
            if done_with(v, s, second) {
                assert(done_with(v, s, first));
            }
        }
    } else {
        assert(reclaims(st, now, count));
        if st.entries.len() == st.config.capacity && count > 0 {
            assert(done_with(v, s, st.entries[0].sequence as int));
        }
    }
}

/// Which payload a strict admission takes in. Its item is charged already, so that the
/// publisher's quota is of no account: in an open stream with a sequence left it is refused as
/// full if the stream is full and a required receiver in force wants its oldest publication.
/// In a full stream otherwise, one that must not reclaim asks for maintenance, and another
/// displaces the oldest publication.
pub proof fn law_commit<P>(
    v: FabricView<P>,
    s: nat,
    node: nat,
    value: P,
    ticket: nat,
    deferred: bool,
)
    requires
        v.wf(),
        s < v.streams.len(),
        !v.ledger.nodes[node as int].revoked,
        permitted(v.ledger.nodes[node as int], v.streams[s as int].declaration.event, 1),
        v.ledger.nodes[node as int].active < usize::MAX / 2,
    ensures
        ({
            let st = v.streams[s as int];
            let full = st.entries.len() == st.config.capacity;
            let (refused, after) = v.commit(s, node, value, ticket, deferred);
            let now = after.streams[s as int];
            let entry = EntryView { sequence: st.tail, value, ticket };
            &&& refused == if st.closed {
                Some(Refusal::Closed)
            } else if st.tail == u64::MAX {
                Some(Refusal::SequenceExhausted)
            } else if full && wanted(v, s, st.entries[0].sequence as int) {
                Some(Refusal::Full)
            } else if full && deferred {
                Some(Refusal::MaintenanceRequired)
            } else {
                None
            }
            &&& now.subscribers == st.subscribers
            &&& now.closed == st.closed
            &&& now.config == st.config
            &&& refused is Some ==> now.entries == st.entries && now.tail == st.tail
            &&& refused == Some(Refusal::MaintenanceRequired) ==> now.needs_room
            &&& refused is None ==> now.tail == st.tail + 1 && now.entries == if full {
                st.entries.skip(1).push(entry)
            } else {
                st.entries.push(entry)
            }
        }),
{
    broadcast use Rights::lemma_of_bits;

    let st = v.streams[s as int];
    law_admission(v.ledger, node, st.declaration.event, publish_right());
    assert(v.stream_sound(s));
    if st.entries.len() > 0 {
        crate::publish_laws::lemma_wanted(v, s, st.entries[0].sequence);
        assert(st.entries.drop_first() =~= st.entries.skip(1));
    }
}

/// How a publisher is refused whose grant does not admit it: it is told to try again where only
/// the count of operations stands against it, and otherwise that it is cut off. Nothing changes.
pub proof fn law_publish_refused<P>(
    v: FabricView<P>,
    s: nat,
    node: nat,
    value: P,
    ticket: nat,
    deferred: bool,
)
    ensures
        ({
            let at = v.ledger.nodes[node as int];
            let event = v.streams[s as int].declaration.event;
            let cut_off = at.revoked || !permitted(at, event, 1);
            &&& cut_off ==> v.send_now(s, node, value) == (Some(Refusal::Revoked), v)
            &&& cut_off ==> v.reserve(s, node) == (Some(Refusal::Revoked), v)
            &&& cut_off ==> v.commit(s, node, value, ticket, deferred) == (
                Some(Refusal::Revoked),
                v,
            )
            &&& !cut_off && at.active >= usize::MAX / 2 ==> {
                &&& v.send_now(s, node, value) == (Some(Refusal::Contended), v)
                &&& v.reserve(s, node) == (Some(Refusal::Contended), v)
                &&& v.commit(s, node, value, ticket, deferred) == (Some(Refusal::Contended), v)
            }
        }),
{
    broadcast use Rights::lemma_of_bits;

    law_admission(v.ledger, node, v.streams[s as int].declaration.event, publish_right());
}

/// A publication to an open stream without a sequence left, or to a closed one, is told so.
pub proof fn law_publish_ended<P>(v: FabricView<P>, s: nat, node: nat, value: P)
    requires
        v.wf(),
        s < v.streams.len(),
        !v.ledger.nodes[node as int].revoked,
        permitted(v.ledger.nodes[node as int], v.streams[s as int].declaration.event, 1),
        v.ledger.nodes[node as int].active < usize::MAX / 2,
        v.streams[s as int].closed || v.streams[s as int].tail == u64::MAX,
    ensures
        v.send_now(s, node, value).0 == Some(
            if v.streams[s as int].closed {
                Refusal::Closed
            } else {
                Refusal::SequenceExhausted
            },
        ),
{
    broadcast use Rights::lemma_of_bits;

    law_admission(v.ledger, node, v.streams[s as int].declaration.event, publish_right());
}

/// One pending operation more can be registered exactly if the grant is in force with a waiter
/// left for the event and the stream has a waiter left. It is counted and charged, and nothing
/// else of the stream changes.
pub proof fn law_wait<P>(v: FabricView<P>, s: nat, node: nat, p: nat)
    requires
        v.wf(),
        s < v.streams.len(),
        node < v.ledger.nodes.len(),
        p < v.ledger.nodes[node as int].allowances.len(),
        v.ledger.nodes[node as int].allowances[p as int].permission.event
            == v.streams[s as int].declaration.event,
    ensures
        ({
            let st = v.streams[s as int];
            let at = v.ledger.nodes[node as int];
            let pool = at.allowances[p as int].pool;
            let (error, after) = v.wait(s, node);
            &&& error == if at.revoked {
                Some(TopicError::Revoked)
            } else if pool.used.waiters >= pool.limits.waiters || at.leases == usize::MAX
                || st.waiters >= st.config.waiters {
                Some(TopicError::Capacity)
            } else {
                None
            }
            &&& error is None ==> {
                &&& after.streams[s as int] == (StreamView { waiters: st.waiters + 1, ..st })
                &&& after.ledger.table.len() == v.ledger.table.len() + 1
                &&& after.ledger.nodes[node as int].allowances[p as int].pool.used.waiters
                    == pool.used.waiters + 1
            }
            &&& error is Some ==> after.streams == v.streams
        }),
{
    let at = v.ledger.nodes[node as int];
    let pool = at.allowances[p as int].pool;
    crate::publish_laws::lemma_position(v.ledger, node, p);
    crate::allowance::lemma_fields(pool.used, one_waiter().widened(), pool.limits);
    assert(v.ledger.has_pool(node, Some(p)));
    assert(v.ledger.pool_sound(node, Some(p)));
    crate::allowance::lemma_within_fields(pool.used, pool.limits);
}

/// What becomes of a publication that may wait. Accepted at once, it is sent. Refused for good,
/// it comes back with the reason. Otherwise it waits if it can be registered, after one more
/// attempt, and comes back if it cannot.
pub proof fn law_send_waits<P>(v: FabricView<P>, s: nat, node: nat, value: P, ticket: nat)
    ensures
        ({
            let (refused, after) = v.send_now(s, node, value);
            let (full, waiting) = after.wait(s, node);
            let first = v.send_first(s, node, value).0;
            let again = v.send_again(s, node, value, ticket).0;
            &&& match refused {
                None => first is Sent && again is Sent,
                Some(Refusal::Revoked) => first == SendVerdict::Rejected(
                    SendError::Revoked(value),
                ) && again == first,
                Some(Refusal::Closed) => first == SendVerdict::Rejected(
                    SendError::Closed(value),
                ) && again == first,
                Some(Refusal::SequenceExhausted) => first == SendVerdict::Rejected(
                    SendError::SequenceExhausted(value),
                ) && again == first,
                Some(_) => {
                    &&& again == SendVerdict::<P>::Waiting(ticket)
                    &&& full == Some(TopicError::Revoked) ==> first == SendVerdict::Rejected(
                        SendError::Revoked(value),
                    )
                    &&& full is Some && full != Some(TopicError::Revoked) ==> first
                        == SendVerdict::Rejected(SendError::WaitersFull(value))
                    &&& full is None && waiting.send_now(s, node, value).0 == refused ==> first
                        == SendVerdict::<P>::Waiting(after.ledger.table.len())
                    &&& full is None && waiting.send_now(s, node, value).0 is None ==> first is Sent
                },
            }
        }),
{
}

/// A receive with maintenance gets what a strict one gets.
pub proof fn law_receive_now<P>(v: FabricView<P>, s: nat, index: nat, id: u64, node: nat)
    requires
        v.wf(),
        s < v.streams.len(),
        index < v.streams[s as int].subscribers.len() || v.streams[s as int].closed,
    ensures
        ({
            let (got, after) = v.recv_now(s, index, id, node);
            let (item, mid) = v.try_recv(s, index, id, node);
            &&& got == item
            &&& after.streams[s as int].subscribers == mid.streams[s as int].subscribers
            &&& after.streams[s as int].tail == v.streams[s as int].tail
            &&& after.streams[s as int].closed == v.streams[s as int].closed
        }),
{
    let mid = v.try_recv(s, index, id, node).1;
    crate::fabric_laws::lemma_try_recv_wf(v, s, index, id, node);
    law_maintenance(mid, s);
}

/// What becomes of a receive that may wait: what is there comes at once; a failure ends it; and
/// otherwise it waits if it can be registered, after one more attempt.
pub proof fn law_receive_waits<P>(
    v: FabricView<P>,
    s: nat,
    index: nat,
    id: u64,
    node: nat,
    ticket: nat,
)
    ensures
        ({
            let (got, after) = v.recv_now(s, index, id, node);
            let (full, waiting) = after.wait(s, node);
            let first = v.recv_first(s, index, id, node).0;
            let again = v.recv_again(s, index, id, node, ticket).0;
            match got {
                Ok(Some(item)) => {
                    &&& first == ReceiveVerdict::Received(item)
                    &&& again == first
                },
                Err(error) if error != ReceiveError::Contended => {
                    &&& first == ReceiveVerdict::<P>::Failed(error)
                    &&& again == first
                },
                _ => {
                    &&& again == ReceiveVerdict::<P>::Waiting(ticket)
                    &&& full == Some(TopicError::Revoked) ==> first
                        == ReceiveVerdict::<P>::Failed(
                        ReceiveError::Closed(CloseReason::Revoked),
                    )
                    &&& full is Some && full != Some(TopicError::Revoked) ==> first
                        == ReceiveVerdict::<P>::Failed(
                        ReceiveError::WaitersFull,
                    )
                    &&& full is None && waiting.recv_now(s, index, id, node).0 == got ==> first
                        == ReceiveVerdict::<P>::Waiting(
                        after.ledger.table.len(),
                    )
                },
            }
        }),
{
}

/// The event is declared for stream `s`.
pub open spec fn declared_at<P>(v: FabricView<P>, event: EventId, s: nat) -> bool {
    s < v.streams.len() && v.streams[s as int].declaration.event == event
}

proof fn lemma_found<P>(v: FabricView<P>, event: EventId)
    requires
        v.wf(),
    ensures
        forall|s: nat| #[trigger] declared_at(v, event, s) ==> v.find(event, 0) == Some(s),
        (forall|s: nat| !#[trigger] declared_at(v, event, s)) ==> v.find(event, 0) is None,
{
    if v.find(event, 0) is Some {
        lemma_find_some(v, event, 0);
    }
    assert forall|s: nat| #[trigger] declared_at(v, event, s) implies v.find(event, 0) == Some(
        s,
    ) by {
        if v.find(event, 0) is None {
            lemma_find_none(v, event, 0, s);
        } else {
            let found = v.find(event, 0)->0;
            if found != s {
                assert(v.streams[found as int].declaration.event
                    == v.streams[s as int].declaration.event);
            }
        }
    }
    if v.find(event, 0) is Some {
        assert(declared_at(v, event, v.find(event, 0)->0));
    }
}

/// Which streams a grant resolves for a declaration and the operations `rights`: exactly those
/// that are declared for the event with the same payload type and wire major, while the grant
/// is in force and permits the operations, and has room to listen to the stream.
pub proof fn law_resolve<P>(
    v: FabricView<P>,
    node: nat,
    declaration: Declaration,
    rights: Rights,
    s: nat,
)
    requires
        v.wf(),
        node < v.ledger.nodes.len(),
    ensures
        ({
            let at = v.ledger.nodes[node as int];
            let event = declaration.event;
            let found = v.streams[s as int].declaration;
            let (result, after) = v.resolve(node, declaration, rights);
            let known = exists|l: int|
                0 <= l < at.listeners.len() && #[trigger] at.listeners[l] == (event, s as u64);
            &&& at.revoked ==> result == Err::<nat, TopicError>(TopicError::Revoked)
            &&& !at.revoked && !permitted(at, event, rights.bits()) ==> result == Err::<
                nat,
                TopicError,
            >(TopicError::Denied)
            &&& !at.revoked && (forall|o: nat| !#[trigger] declared_at(v, event, o)) ==> result
                == Err::<nat, TopicError>(TopicError::Denied)
            &&& !at.revoked && permitted(at, event, rights.bits()) && declared_at(v, event, s)
                ==> result == if found.payload != declaration.payload {
                Err::<nat, TopicError>(TopicError::TypeMismatch(TopicTypeMismatch { id: event }))
            } else if found.wire_major != declaration.wire_major {
                Err::<nat, TopicError>(TopicError::InvalidConfig)
            } else if !known && at.listeners.len() >= at.limits.streams {
                Err::<nat, TopicError>(TopicError::Capacity)
            } else {
                Ok::<nat, TopicError>(s)
            }
            &&& after.streams == v.streams
            &&& result is Err ==> after == v
            &&& after.ledger.table == v.ledger.table
        }),
{
    let at = v.ledger.nodes[node as int];
    let event = declaration.event;
    law_admission(v.ledger, node, event, rights);
    lemma_found(v, event);
    if at.listeners.contains((event, s as u64)) {
        let l = choose|l: int| 0 <= l < at.listeners.len() && at.listeners[l] == (event, s as u64);
        assert(at.listeners[l] == (event, s as u64));
    }
}

/// Who gets to publish: whoever resolves the stream for publication and has been granted items
/// for the event.
pub proof fn law_sender<P>(v: FabricView<P>, node: nat, declaration: Declaration, p: nat)
    requires
        v.wf(),
        node < v.ledger.nodes.len(),
        p < v.ledger.nodes[node as int].allowances.len(),
        v.ledger.nodes[node as int].allowances[p as int].permission.event == declaration.event,
    ensures
        ({
            let (found, resolved) = v.resolve(node, declaration, publish_right());
            let (result, after) = v.sender(node, declaration);
            let granted = v.ledger.nodes[node as int].allowances[p as int].permission.limits;
            &&& result == if found is Err {
                found
            } else if granted.retained_items == 0 {
                Err::<nat, TopicError>(TopicError::Capacity)
            } else {
                found
            }
            &&& result is Ok ==> after.ledger.nodes[node as int].handles
                == v.ledger.nodes[node as int].handles + 1
            &&& after.streams == v.streams
        }),
{
    broadcast use Rights::lemma_of_bits;

    let resolved = v.resolve(node, declaration, publish_right()).1;
    crate::publish_laws::lemma_position(v.ledger, node, p);
    let at = v.ledger.nodes[node as int];
    assert(resolved.ledger.nodes[node as int].allowances == at.allowances);
    assert(resolved.ledger.nodes[node as int].position(declaration.event) == at.position(
        declaration.event,
    ));
}

proof fn lemma_first_free<P>(st: StreamView<P>, from: nat)
    requires
        forall|i: int| 0 <= i < from && i < st.subscribers.len() ==> (#[trigger] st.subscribers[i]) is Some,
    ensures
        match st.free_subscriber(from) {
            Some(slot) => {
                &&& from <= slot < st.subscribers.len()
                &&& st.subscribers[slot as int] is None
                &&& forall|i: int| 0 <= i < slot ==> (#[trigger] st.subscribers[i]) is Some
            },
            None => forall|i: int|
                0 <= i < st.subscribers.len() ==> (#[trigger] st.subscribers[i]) is Some,
        },
    decreases st.subscribers.len() - from,
{
    if from < st.subscribers.len() && st.subscribers[from as int] is Some {
        lemma_first_free(st, from + 1);
    }
}

/// Who gets a subscription: whoever resolves the stream with the operations that the role
/// takes, has a subscription left for the event, and finds the stream open with a slot and an
/// identity left. It begins at the tail, in the first free slot, under an identity of its own,
/// in the role that was asked for; no publication and no other subscription is touched.
pub proof fn law_subscribe<P>(
    v: FabricView<P>,
    node: nat,
    declaration: Declaration,
    role: SubscriptionRole,
    p: nat,
    s: nat,
)
    requires
        v.wf(),
        node < v.ledger.nodes.len(),
        p < v.ledger.nodes[node as int].allowances.len(),
        v.ledger.nodes[node as int].allowances[p as int].permission.event == declaration.event,
        v.ledger.nodes[node as int].active < usize::MAX / 2,
        v.resolve(
            node,
            declaration,
            Rights::of_bits(
                if role == SubscriptionRole::Required {
                    6
                } else {
                    2
                },
            ),
        ).0 == Ok::<nat, TopicError>(s),
    ensures
        ({
            let at = v.ledger.nodes[node as int];
            let pool = at.allowances[p as int].pool;
            let st = v.streams[s as int];
            let (result, after) = v.subscribe(node, declaration, role);
            let now = after.streams[s as int];
            let spent = pool.used.subscriptions >= pool.limits.subscriptions || at.leases
                == usize::MAX;
            let crowded = st.next_cursor == u64::MAX || forall|i: int|
                0 <= i < st.subscribers.len() ==> (#[trigger] st.subscribers[i]) is Some;
            &&& spent ==> result == Err::<(nat, nat), TopicError>(TopicError::Capacity)
            &&& !spent && st.closed ==> result == Err::<(nat, nat), TopicError>(TopicError::Denied)
            &&& !spent && !st.closed && crowded ==> result == Err::<(nat, nat), TopicError>(
                TopicError::Capacity,
            )
            &&& !spent && !st.closed && !crowded ==> {
                let index = result->Ok_0.1 as int;
                &&& result is Ok
                &&& result->Ok_0.0 == s
                &&& 0 <= index < st.subscribers.len()
                &&& st.subscribers[index] is None
                &&& forall|i: int| 0 <= i < index ==> (#[trigger] st.subscribers[i]) is Some
                &&& now.subscribers == st.subscribers.update(
                    index,
                    Some(
                        CursorView {
                            id: st.next_cursor,
                            next: st.tail,
                            role,
                            node,
                            ticket: v.ledger.table.len(),
                        },
                    ),
                )
                &&& now.next_cursor == st.next_cursor + 1
                &&& now.entries == st.entries
                &&& now.tail == st.tail
                &&& now.config == st.config
                &&& !now.closed
            }
            &&& result is Err ==> now.subscribers == st.subscribers && now.entries == st.entries
        }),
{
    broadcast use Rights::lemma_of_bits;

    let at = v.ledger.nodes[node as int];
    let pool = at.allowances[p as int].pool;
    let event = declaration.event;
    let rights = role_rights(role);
    let resolved = v.resolve(node, declaration, rights).1;
    let st = v.streams[s as int];
    law_resolve(v, node, declaration, rights, s);
    law_admission(v.ledger, node, event, rights);
    lemma_found(v, event);
    crate::publish_laws::lemma_position(v.ledger, node, p);
    let seen = resolved.ledger.nodes[node as int];
    assert(seen.allowances == at.allowances);
    assert(seen.position(event) == at.position(event));
    crate::allowance::lemma_fields(pool.used, one_subscription().widened(), pool.limits);
    assert(v.ledger.has_pool(node, Some(p)));
    assert(v.ledger.pool_sound(node, Some(p)));
    crate::allowance::lemma_within_fields(pool.used, pool.limits);
    lemma_first_free(st, 0);
    if resolved.ledger.stream_charge_error(node, event, one_subscription()) is None {
        let charged = resolved.ledger.charge(
            node,
            Some(p),
            one_subscription().widened(),
            crate::ledger_model::Owner::Caller,
        );
        let now = charged.nodes[node as int];
        law_admission(charged, node, event, rights);
        if !at.unrestricted {
            let q = choose|q: int|
                0 <= q < at.allowances.len() && #[trigger] at.allowances[q].permission.event
                    == event && at.allowances[q].permission.rights.bits() & rights.bits()
                    == rights.bits();
            assert(now.allowances[q].permission == at.allowances[q].permission);
            assert(now.allowances[q].permission.event == event);
        }
    }
}

/// The end of a subscription frees its slot and changes no other; what no receiver has still to
/// receive without it is reclaimed, and nothing else.
pub proof fn law_detach<P>(v: FabricView<P>, s: nat, index: nat, node: nat, ticket: nat)
    requires
        v.wf(),
        s < v.streams.len(),
        index < v.streams[s as int].subscribers.len(),
        v.streams[s as int].subscribers[index as int] is Some,
    ensures
        ({
            let st = v.streams[s as int];
            let left = v.delist(s, index).unlock(s, true);
            let now = v.detach(s, index, node, ticket).streams[s as int];
            &&& now.subscribers == st.subscribers.update(index as int, None)
            &&& now.tail == st.tail
            &&& now.closed == st.closed
            &&& now.config == st.config
            &&& exists|count: int|
                {
                    &&& 0 <= count <= st.entries.len()
                    &&& now.entries == #[trigger] st.entries.skip(count)
                    &&& forall|i: int|
                        0 <= i < count ==> done_with(
                            left,
                            s,
                            (#[trigger] st.entries[i]).sequence as int,
                        )
                    &&& count < st.entries.len() ==> !done_with(
                        left,
                        s,
                        st.entries[count].sequence as int,
                    )
                }
            &&& left.streams[s as int].subscribers == st.subscribers.update(index as int, None)
            &&& left.ledger.nodes == v.ledger.nodes
        }),
{
    let st = v.streams[s as int];
    assert(v.stream_sound(s));
    crate::fabric_steps::lemma_delist(v, s, index);
    let gone = v.delist(s, index);
    lemma_unlock_wf(gone, s, true);
    let left = gone.unlock(s, true);
    let tries = st.config.capacity as nat;
    lemma_retire(left, s, tries);
    let after = left.retire_consumed(s, tries);
    let count = choose|count: int|
        {
            &&& #[trigger] reclaims(left.streams[s as int], after.streams[s as int], count)
            &&& forall|i: int|
                0 <= i < count ==> done_with(
                    left,
                    s,
                    (#[trigger] left.streams[s as int].entries[i]).sequence as int,
                )
            &&& count < left.streams[s as int].entries.len() ==> !done_with(
                left,
                s,
                left.streams[s as int].entries[count].sequence as int,
            )
        };
    assert(left.streams[s as int].entries == st.entries);
    let now = v.detach(s, index, node, ticket).streams[s as int];
    assert(now == after.streams[s as int]);
    assert(now.entries == st.entries.skip(count));
}

/// Which declarations are accepted: a new one with capacity and with bounds that can be
/// addressed; and one for an event that is declared already exactly if it is the same, and the
/// stream is open.
pub proof fn law_declaration<P>(
    v: FabricView<P>,
    s: nat,
    declaration: Declaration,
    config: StreamConfig,
)
    requires
        v.wf(),
    ensures
        v.declare_error(config) == if config.capacity == 0 || config.capacity > isize::MAX
            || config.subscribers > isize::MAX || config.waiters > isize::MAX {
            Some(TopicError::InvalidConfig)
        } else {
            None
        },
        declared_at(v, declaration.event, s) ==> {
            let st = v.streams[s as int];
            let (result, after) = v.redeclare(s, declaration, config);
            &&& v.find(declaration.event, 0) == Some(s)
            &&& result == if st.declaration.payload != declaration.payload {
                Err::<(), TopicError>(
                    TopicError::TypeMismatch(TopicTypeMismatch { id: declaration.event }),
                )
            } else if st.config.capacity != config.capacity || st.config.subscribers
                != config.subscribers || st.config.waiters != config.waiters
                || st.declaration.wire_major != declaration.wire_major || st.closed {
                Err::<(), TopicError>(TopicError::InvalidConfig)
            } else {
                Ok::<(), TopicError>(())
            }
            &&& after.ledger.nodes == v.ledger.nodes
            &&& after.ledger.table == v.ledger.table
        },
        (forall|o: nat| !#[trigger] declared_at(v, declaration.event, o)) ==> v.find(
            declaration.event,
            0,
        ) is None,
{
    lemma_found(v, declaration.event);
    let limits = config.allowance();
    if limits.addressable() {
        assert(limits.get(2) <= isize::MAX);
        assert(limits.get(3) <= isize::MAX);
        assert(limits.get(4) <= isize::MAX);
    }
}

/// A new stream is empty, with nobody subscribed, begins at sequence zero, and takes from the
/// scope one stream and all that it may retain.
pub proof fn law_new_stream<P>(
    v: FabricView<P>,
    root: nat,
    declaration: Declaration,
    config: StreamConfig,
)
    requires
        root < v.ledger.nodes.len(),
    ensures
        ({
            let after = v.declare(root, declaration, config);
            let st = after.streams.last();
            let charge = after.ledger.table.last()->0;
            &&& after.streams.len() == v.streams.len() + 1
            &&& forall|o: int|
                0 <= o < v.streams.len() ==> #[trigger] after.streams[o] == v.streams[o]
            &&& st.declaration == declaration
            &&& st.config == config
            &&& st.entries.len() == 0
            &&& st.subscribers.len() == config.subscribers
            &&& forall|i: int|
                0 <= i < st.subscribers.len() ==> (#[trigger] st.subscribers[i]) is None
            &&& st.tail == 0
            &&& st.waiters == 0
            &&& !st.closed
            &&& !st.needs_room
            &&& after.ledger.table.len() == v.ledger.table.len() + 1
            &&& charge.node == root
            &&& charge.event is None
            &&& charge.usage.streams == 1
            &&& charge.usage.retained_items == config.capacity
            &&& charge.usage.subscriptions == config.subscribers
            &&& charge.usage.waiters == config.waiters
            &&& charge.usage.grants == 0 && charge.usage.connections == 0 && charge.usage.bytes
                == 0
        }),
{
}

/// A closed stream retains nothing, has no subscriptions, and its other properties stay.
pub proof fn law_closing<P>(v: FabricView<P>, s: nat)
    requires
        v.wf(),
        s < v.streams.len(),
    ensures
        ({
            let st = v.streams[s as int];
            let now = v.close(s).streams[s as int];
            &&& now.closed
            &&& now.entries.len() == 0
            &&& now.subscribers.len() == 0
            &&& now.tail == st.tail
            &&& now.declaration == st.declaration
            &&& now.config == st.config
            &&& forall|o: int|
                0 <= o < v.streams.len() && o != s ==> #[trigger] v.close(s).streams[o]
                    == v.streams[o]
        }),
{
    let st = v.streams[s as int];
    let emptied = v.with_stream(
        s,
        StreamView { entries: Seq::empty(), subscribers: Seq::empty(), closed: true, ..st },
    ).unlock(s, true);
    lemma_release_entries_streams(emptied, st.entries);
}

proof fn lemma_release_entries_streams<P>(v: FabricView<P>, entries: Seq<EntryView<P>>)
    ensures
        v.release_entries(entries).streams == v.streams,
    decreases entries.len(),
{
    if entries.len() > 0 {
        lemma_release_entries_streams(v.release(entries[0].ticket), entries.drop_first());
    }
}

/// A refusal gives the payload back and names the reason; an admission error that may pass is
/// contention, and every other one is for lack of authority, to publishers and receivers alike.
pub proof fn law_refusal<T>(refused: Refusal, error: TopicError, value: T)
    ensures
        refused.of(value).payload() == value,
        refused is Full <==> refused.of(value) is Full,
        refused is Contended <==> refused.of(value) is Contended,
        refused is MaintenanceRequired <==> refused.of(value) is MaintenanceRequired,
        refused is Closed <==> refused.of(value) is Closed,
        refused is Revoked <==> refused.of(value) is Revoked,
        refused is SequenceExhausted <==> refused.of(value) is SequenceExhausted,
        refusal(error) is Contended <==> error is Contended || error is Capacity,
        refusal(error) is Contended || refusal(error) is Revoked,
        receive_refusal(error) is Contended <==> refusal(error) is Contended,
        refusal(error) is Revoked ==> receive_refusal(error) == ReceiveError::Closed(
            CloseReason::Revoked,
        ),
{
}

proof fn lemma_reap_revoked(v: LedgerView, node: nat)
    ensures
        same_grants(v, v.reap(node)),
    decreases v.nodes[node as int].depth,
{
    if v.must_reap(node) {
        let at = v.nodes[node as int];
        crate::ledger_model::lemma_release_all_keeps(v.orphan(node), at.reservations);
        lemma_reap_revoked(v.orphan(node).release_all(at.reservations), at.parent->0);
    }
}

proof fn lemma_front_alone<P>(v: FabricView<P>, s: nat)
    requires
        s < v.streams.len(),
    ensures
        ({
            let after = v.retire_front(s);
            &&& after.streams.len() == v.streams.len()
            &&& same_grants(v.ledger, after.ledger)
            &&& !after.streams[s as int].deferred
            &&& forall|t: int|
                0 <= t < v.streams.len() && t != s ==> #[trigger] after.streams[t] == v.streams[t]
        }),
{
    let ticket = v.streams[s as int].entries[0].ticket;
    let opened = v.without_front(s).unlock(s, true);
    let mid = opened.ledger.release(ticket);
    crate::ledger_model::lemma_release_all_keeps(opened.ledger, seq![ticket]);
    reveal_with_fuel(LedgerView::release_all, 2);
    assert(seq![ticket].drop_last() =~= Seq::empty());
    assert(opened.ledger.release_all(seq![ticket]) == mid);
    lemma_reap_revoked(mid, opened.ledger.record(ticket).node);
}

proof fn lemma_retire_alone<P>(v: FabricView<P>, s: nat, tries: nat)
    requires
        s < v.streams.len(),
    ensures
        ({
            let after = v.retire_consumed(s, tries);
            &&& after.streams.len() == v.streams.len()
            &&& same_grants(v.ledger, after.ledger)
            &&& tries > 0 ==> !after.streams[s as int].deferred
            &&& !v.streams[s as int].deferred ==> !after.streams[s as int].deferred
            &&& forall|t: int|
                0 <= t < v.streams.len() && t != s ==> #[trigger] after.streams[t] == v.streams[t]
        }),
    decreases tries,
{
    let st = v.streams[s as int];
    if tries > 0 && st.entries.len() > 0 && v.consumed(s, st.entries[0].sequence) {
        lemma_front_alone(v, s);
        lemma_retire_alone(v.retire_front(s), s, (tries - 1) as nat);
    }
}

/// Maintenance of one stream leaves the others as they are, and who is cut off.
proof fn lemma_maintain_alone<P>(v: FabricView<P>, s: nat)
    requires
        v.wf(),
        s < v.streams.len(),
    ensures
        ({
            let after = v.maintain_stream(s);
            &&& after.wf()
            &&& after.streams.len() == v.streams.len()
            &&& same_grants(v.ledger, after.ledger)
            &&& !after.streams[s as int].deferred
            &&& forall|t: int|
                0 <= t < v.streams.len() && t != s ==> #[trigger] after.streams[t] == v.streams[t]
        }),
{
    assert(v.stream_sound(s));
    let capacity = v.streams[s as int].config.capacity as nat;
    lemma_retire_consumed_wf(v, s, capacity);
    lemma_retire_alone(v, s, capacity);
    let retired = v.retire_consumed(s, capacity);
    let st = retired.streams[s as int];
    let cleared = retired.with_stream(s, StreamView { needs_room: false, ..st });
    lemma_flags(retired, cleared);
    if st.needs_room && st.full() && st.entries.len() > 0 && !retired.required_needs(
        s,
        st.entries[0].sequence,
    ) {
        lemma_same_needs(retired, cleared, s, st.entries[0].sequence);
        lemma_retire_front_wf(cleared, s);
        lemma_front_alone(cleared, s);
    } else {
        lemma_unlock_wf(cleared, s, false);
    }
}

proof fn lemma_maintain_upto<P>(v: FabricView<P>, upto: nat)
    requires
        v.wf(),
        upto <= v.streams.len(),
    ensures
        ({
            let after = v.maintain_streams(upto);
            &&& after.wf()
            &&& after.streams.len() == v.streams.len()
            &&& same_grants(v.ledger, after.ledger)
            &&& forall|t: int|
                upto <= t < v.streams.len() ==> #[trigger] after.streams[t] == v.streams[t]
            &&& forall|t: int|
                0 <= t < upto ==> !(#[trigger] after.streams[t]).deferred && maintained(
                    v,
                    t as nat,
                    after.streams[t],
                )
        }),
    decreases upto,
{
    if upto > 0 {
        let last = (upto - 1) as nat;
        let mid = v.maintain_streams(last);
        lemma_maintain_upto(v, last);
        lemma_maintain_alone(mid, last);
        law_maintenance(mid, last);
        lemma_same_maintained(v, mid, last, mid.maintain_stream(last).streams[last as int]);
    }
}

proof fn lemma_same_maintained<P>(
    v: FabricView<P>,
    w: FabricView<P>,
    s: nat,
    now: StreamView<P>,
)
    requires
        v.wf(),
        s < v.streams.len(),
        w.streams[s as int] == v.streams[s as int],
        same_grants(v.ledger, w.ledger),
        maintained(w, s, now),
    ensures
        maintained(v, s, now),
{
    let st = v.streams[s as int];
    let count = choose|count: int|
        {
            &&& #[trigger] reclaims(st, now, count)
            &&& (forall|i: int|
                0 <= i < count ==> done_with(w, s, (#[trigger] st.entries[i]).sequence as int))
                || (pressed(w, s) && count == 1)
            &&& count < st.entries.len() ==> !done_with(w, s, st.entries[count].sequence as int)
            &&& pressed(w, s) ==> count >= 1
        };
    if st.entries.len() > 0 {
        lemma_same_wanted(v, w, s, st.entries[0].sequence as int);
    }
    assert(v.stream_sound(s));
    assert forall|i: int| 0 <= i < st.entries.len() implies done_with(
        v,
        s,
        (#[trigger] st.entries[i]).sequence as int,
    ) == done_with(w, s, st.entries[i].sequence as int) by {
        lemma_same_done(v, w, s, st.entries[i].sequence as int);
    }
    assert(reclaims(st, now, count));
}

/// Maintenance of the fabric maintains each of its streams as if there were no other, and
/// leaves no wakeup of any.
pub proof fn law_maintain_all<P>(v: FabricView<P>, s: nat)
    requires
        v.wf(),
        s < v.streams.len(),
    ensures
        ({
            let after = v.maintain_streams(v.streams.len());
            &&& after.streams.len() == v.streams.len()
            &&& maintained(v, s, after.streams[s as int])
            &&& !after.streams[s as int].deferred
        }),
{
    lemma_maintain_upto(v, v.streams.len());
}

} // verus!

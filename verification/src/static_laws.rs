//! Laws of bounded streams in inline storage.
use crate::error::{CloseReason, ReceiveError, SendError, TopicError, TrySendError};
use crate::item::{PayloadValue, Progress, StreamItem, SubscriptionRole};
use crate::static_core::{StaticCursor, StaticView, SubscriberKey};
use crate::static_stream::{receive_progress, send_progress};
use vstd::prelude::*;

verus! {

/// Nothing that an operation does takes a publication from a required receiver that has
/// not received it, or makes room for more subscriptions than there is storage for.
pub proof fn law_static_required_retained<T>(
    v: StaticView<T>,
    capacity: nat,
    subscribers: nat,
    value: T,
    role: SubscriptionRole,
    key: SubscriberKey,
    reason: CloseReason,
)
    requires
        v.sound(capacity, subscribers),
        capacity > 0,
    ensures
        v.send_error(capacity, value) is None ==> v.send(value).sound(capacity, subscribers),
        v.subscribe_error() is None ==> v.subscribe(role).sound(capacity, subscribers),
        v.take(capacity, key).sound(capacity, subscribers),
        v.detach(key).sound(capacity, subscribers),
        v.close(reason).sound(capacity, subscribers),
{
    if v.send_error(capacity, value) is None {
        let w = v.send(value);
        assert forall|i: int|
            0 <= i < w.cursors.len() && (#[trigger] w.cursors[i]) is Some && w.cursors[i]->0.role
                == SubscriptionRole::Required implies w.oldest(capacity)
            <= w.cursors[i]->0.next by {
            if v.tail() >= capacity {
                assert(!v.holds_back(i, v.tail() - capacity));
            }
        }
    }
    if v.subscribe_error() is None {
        lemma_free_slot(v, 0);
    }
}

proof fn lemma_free_slot<T>(v: StaticView<T>, from: nat)
    ensures
        v.free_slot(from) matches Some(slot) ==> from <= slot < v.cursors.len()
            && v.cursors[slot as int] is None,
    decreases v.cursors.len() - from,
{
    if from < v.cursors.len() && v.cursors[from as int] is Some {
        lemma_free_slot(v, from + 1);
    }
}

/// A required receiver is never told of a gap.
pub proof fn law_static_required_no_gap<T>(v: StaticView<T>, capacity: nat, key: SubscriberKey)
    requires
        v.required_retained(capacity),
        v.live(key),
        v.cursors[key.index as int]->0.role == SubscriptionRole::Required,
    ensures
        !(v.next_item(capacity, key) matches Ok(Some(StreamItem::Gap { from, to }))),
{
}

/// A receiver that is up to date gets exactly the next publication, with its sequence.
pub proof fn law_static_send_recv<T>(
    v: StaticView<T>,
    capacity: nat,
    key: SubscriberKey,
    value: T,
)
    requires
        v.wf(),
        capacity > 0,
        v.send_error(capacity, value) is None,
        v.live(key),
        v.cursors[key.index as int]->0.next == v.tail(),
    ensures
        v.send(value).next_item(capacity, key) == Ok::<
            Option<StreamItem<PayloadValue<T>>>,
            ReceiveError,
        >(Some(StreamItem::Data { sequence: v.tail() as u64, value: PayloadValue(value) })),
        v.send(value).take(capacity, key).next_item(capacity, key) == Ok::<
            Option<StreamItem<PayloadValue<T>>>,
            ReceiveError,
        >(None),
{
}

/// A receive reports exactly the sequences that it moves the cursor over: a gap those
/// that are no longer retained, data the one that it carries, as it was published.
pub proof fn law_static_receive_exact<T>(v: StaticView<T>, capacity: nat, key: SubscriberKey)
    requires
        v.wf(),
        capacity > 0,
        v.live(key),
        v.closed is None,
    ensures
        ({
            let was = v.cursors[key.index as int]->0.next;
            let now = v.take(capacity, key).cursors[key.index as int]->0.next;
            match v.next_item(capacity, key) {
                Ok(Some(StreamItem::Gap { from, to })) => {
                    &&& from == was
                    &&& to == now
                    &&& from < to
                    &&& to == v.tail() - capacity
                },
                Ok(Some(StreamItem::Data { sequence, value })) => {
                    &&& sequence == was
                    &&& now == was + 1
                    &&& value == PayloadValue(v.history[was - v.start])
                },
                Ok(None) => was == v.tail() && now == was,
                Err(_) => false,
            }
        }),
        v.take(capacity, key).history == v.history,
{
}

/// An observer never keeps a publication out.
pub proof fn law_static_observers_do_not_block<T>(v: StaticView<T>, capacity: nat, value: T)
    requires
        v.closed is None,
        v.tail() < u64::MAX,
        forall|i: int|
            0 <= i < v.cursors.len() && (#[trigger] v.cursors[i]) is Some
                ==> v.cursors[i]->0.role == SubscriptionRole::Observer,
    ensures
        v.send_error(capacity, value) is None,
{
    if v.held_back(capacity) {
        let overwritten = v.tail() - capacity;
        let i = choose|i: int| 0 <= i < v.cursors.len() && v.holds_back(i, overwritten);
        assert(v.cursors[i] is Some);
    }
}

/// A publication to an open stream is accepted unless a required receiver has all of the
/// `capacity` latest publications, or more, still to receive. With less than that behind it,
/// whatever the capacity, no required receiver keeps a publication out.
pub proof fn law_static_admission<T>(v: StaticView<T>, capacity: nat, value: T)
    ensures
        ({
            let tail = v.start + v.history.len();
            let refused = v.send_error(capacity, value);
            match v.closed {
                Some(CloseReason::Revoked) => refused == Some(TrySendError::Revoked(value)),
                Some(_) => refused == Some(TrySendError::Closed(value)),
                None => if tail == u64::MAX {
                    refused == Some(TrySendError::SequenceExhausted(value))
                } else {
                    &&& refused is None || refused == Some(TrySendError::Full(value))
                    &&& refused is Some <==> exists|i: int|
                        {
                            &&& 0 <= i < v.cursors.len()
                            &&& (#[trigger] v.cursors[i]) is Some
                            &&& v.cursors[i]->0.role == SubscriptionRole::Required
                            &&& tail - v.cursors[i]->0.next >= capacity
                        }
                },
            }
        }),
{
    let tail = v.start + v.history.len();
    if v.closed is None && tail != u64::MAX {
        if v.send_error(capacity, value) is Some {
            let oldest = tail - capacity;
            let i = choose|i: int| 0 <= i < v.cursors.len() && v.holds_back(i, oldest);
            assert(v.cursors[i] is Some);
        }
        if exists|i: int|
            {
                &&& 0 <= i < v.cursors.len()
                &&& (#[trigger] v.cursors[i]) is Some
                &&& v.cursors[i]->0.role == SubscriptionRole::Required
                &&& tail - v.cursors[i]->0.next >= capacity
            } {
            let i = choose|i: int|
                {
                    &&& 0 <= i < v.cursors.len()
                    &&& (#[trigger] v.cursors[i]) is Some
                    &&& v.cursors[i]->0.role == SubscriptionRole::Required
                    &&& tail - v.cursors[i]->0.next >= capacity
                };
            assert(v.holds_back(i, tail - capacity));
        }
    }
}

/// What an attempt to publish changes: an accepted publication is one more at the end, and
/// pending receives are to be woken. One that is refused changes nothing.
pub proof fn law_static_publication<T>(v: StaticView<T>, capacity: nat, value: T)
    ensures
        ({
            let after = v.attempted(capacity, value);
            &&& v.send_error(capacity, value) is Some ==> after == v
            &&& v.send_error(capacity, value) is None ==> {
                &&& after.history.len() == v.history.len() + 1
                &&& after.history.last() == value
                &&& forall|i: int|
                    0 <= i < v.history.len() ==> #[trigger] after.history[i] == v.history[i]
                &&& after.start == v.start
                &&& after.cursors == v.cursors
                &&& after.next_generation == v.next_generation
                &&& after.closed == v.closed
                &&& after.changed == v.changed | 2
            }
        }),
{
}

/// What a receiver in force gets from an open stream, by how far it is behind: nothing if it is
/// up to date; its next publication, if that is among the `capacity` latest; and otherwise
/// word of exactly those that it has missed. Its cursor moves over just that, and pending
/// publications are to be woken.
pub proof fn law_static_receive<T>(v: StaticView<T>, capacity: nat, key: SubscriberKey)
    requires
        v.wf(),
        v.closed is None,
        key.index < v.cursors.len(),
        v.cursors[key.index as int] is Some,
        v.cursors[key.index as int]->0.generation == key.generation,
    ensures
        ({
            let tail = v.start + v.history.len();
            let was = v.cursors[key.index as int]->0;
            let behind = tail - was.next;
            let after = v.take(capacity, key);
            let now = after.cursors[key.index as int];
            &&& after.start == v.start
            &&& after.history == v.history
            &&& after.next_generation == v.next_generation
            &&& after.closed == v.closed
            &&& after.cursors.len() == v.cursors.len()
            &&& forall|i: int|
                0 <= i < v.cursors.len() && i != key.index ==> #[trigger] after.cursors[i]
                    == v.cursors[i]
            &&& if behind == 0 {
                &&& v.next_item(capacity, key) == Ok::<_, ReceiveError>(
                    None::<StreamItem<PayloadValue<T>>>,
                )
                &&& after == v
            } else if behind <= capacity {
                &&& v.next_item(capacity, key) == Ok::<_, ReceiveError>(
                    Some(
                        StreamItem::Data {
                            sequence: was.next,
                            value: PayloadValue(v.history[was.next - v.start]),
                        },
                    ),
                )
                &&& now == Some(StaticCursor { next: (was.next + 1) as u64, ..was })
                &&& after.changed == v.changed | 1
            } else {
                &&& v.next_item(capacity, key) == Ok::<_, ReceiveError>(
                    Some(
                        StreamItem::<PayloadValue<T>>::Gap {
                            from: was.next,
                            to: (tail - capacity) as u64,
                        },
                    ),
                )
                &&& now == Some(StaticCursor { next: (tail - capacity) as u64, ..was })
                &&& after.changed == v.changed | 1
            }
        }),
{
}

/// A key that names no subscription in force gets nothing but the closure, and neither it nor
/// any key changes a stream that is closed by receiving.
pub proof fn law_static_receive_refused<T>(v: StaticView<T>, capacity: nat, key: SubscriberKey)
    requires
        v.closed is Some || key.index >= v.cursors.len() || v.cursors[key.index as int] is None
            || v.cursors[key.index as int]->0.generation != key.generation,
    ensures
        v.next_item(capacity, key) == Err::<Option<StreamItem<PayloadValue<T>>>, _>(
            ReceiveError::Closed(
                match v.closed {
                    Some(reason) => reason,
                    None => CloseReason::Closed,
                },
            ),
        ),
        v.take(capacity, key) == v,
{
}

/// A request for a subscription is refused only where the stream is closed, every slot is in
/// use, or the generations are used up. Otherwise it gets the first free slot, a generation of
/// its own, and what is published from then on.
pub proof fn law_static_subscribe<T>(v: StaticView<T>, role: SubscriptionRole)
    requires
        v.wf(),
    ensures
        match v.closed {
            Some(CloseReason::Revoked) => v.subscribe_error() == Some(TopicError::Revoked),
            Some(_) => v.subscribe_error() == Some(TopicError::Denied),
            None => {
                &&& v.subscribe_error() is None || v.subscribe_error() == Some(TopicError::Capacity)
                &&& v.subscribe_error() is Some <==> v.next_generation == u64::MAX || forall|i: int|
                    0 <= i < v.cursors.len() ==> (#[trigger] v.cursors[i]) is Some
                &&& v.subscribe_error() is None ==> exists|slot: int|
                    {
                        &&& 0 <= slot < v.cursors.len()
                        &&& (#[trigger] v.cursors[slot]) is None
                        &&& forall|i: int| 0 <= i < slot ==> (#[trigger] v.cursors[i]) is Some
                        &&& v.subscribe(role) == (StaticView {
                            cursors: v.cursors.update(
                                slot,
                                Some(
                                    StaticCursor {
                                        generation: v.next_generation,
                                        next: (v.start + v.history.len()) as u64,
                                        role,
                                    },
                                ),
                            ),
                            next_generation: (v.next_generation + 1) as u64,
                            ..v
                        })
                    }
            },
        },
{
    lemma_first_free(v, 0);
}

pub proof fn lemma_first_free<T>(v: StaticView<T>, from: nat)
    requires
        forall|i: int| 0 <= i < from && i < v.cursors.len() ==> (#[trigger] v.cursors[i]) is Some,
    ensures
        match v.free_slot(from) {
            Some(slot) => {
                &&& from <= slot < v.cursors.len()
                &&& v.cursors[slot as int] is None
                &&& forall|i: int| 0 <= i < slot ==> (#[trigger] v.cursors[i]) is Some
            },
            None => forall|i: int| 0 <= i < v.cursors.len() ==> (#[trigger] v.cursors[i]) is Some,
        },
    decreases v.cursors.len() - from,
{
    if from < v.cursors.len() && v.cursors[from as int] is Some {
        lemma_first_free(v, from + 1);
    }
}

/// The end of a subscription frees its slot and nothing else, and pending publications are to
/// be woken; a key that names none changes nothing.
pub proof fn law_static_detach<T>(v: StaticView<T>, key: SubscriberKey)
    ensures
        if key.index < v.cursors.len() && v.cursors[key.index as int] is Some
            && v.cursors[key.index as int]->0.generation == key.generation {
            v.detach(key) == (StaticView {
                cursors: v.cursors.update(key.index as int, None),
                changed: v.changed | 1,
                ..v
            })
        } else {
            v.detach(key) == v
        },
{
}

/// A closure keeps the first reason and all that was published, and everybody is to be woken.
pub proof fn law_static_closure<T>(v: StaticView<T>, reason: CloseReason)
    ensures
        v.close(reason).closed == if v.closed is Some {
            v.closed
        } else {
            Some(reason)
        },
        v.close(reason).changed == 255,
        v.close(reason).history == v.history,
        v.close(reason).start == v.start,
        v.close(reason).cursors == v.cursors,
        v.close(reason).next_generation == v.next_generation,
{
}

/// A required receiver that receives nothing lets exactly `capacity` publications in, from
/// where it stands.
pub proof fn law_static_capacity<T>(
    v: StaticView<T>,
    capacity: nat,
    role: SubscriptionRole,
    values: Seq<T>,
)
    requires
        v.wf(),
        v.closed is None,
        v.subscribe_error() is None,
        forall|i: int| 0 <= i < v.cursors.len() ==> (#[trigger] v.cursors[i]) is None,
        v.start + v.history.len() + values.len() < u64::MAX,
    ensures
        ({
            let after = run(
                v.subscribe(role),
                capacity,
                values.map_values(|value: T| StaticCall::Send(value)),
            );
            &&& role == SubscriptionRole::Observer || values.len() <= capacity ==> after.history
                == v.history + values
            &&& role == SubscriptionRole::Required && values.len() >= capacity ==> after.history
                == v.history + values.take(capacity as int)
            &&& after.cursors == v.subscribe(role).cursors
            &&& after.start == v.start
            &&& after.closed is None
        }),
    decreases values.len(),
{
    let joined = v.subscribe(role);
    let calls = values.map_values(|value: T| StaticCall::Send(value));
    law_static_subscribe(v, role);
    if values.len() == 0 {
        assert(values.take(0) =~= Seq::empty());
        assert(v.history + values =~= v.history);
    } else {
        let fewer = values.drop_last();
        let before = run(
            joined,
            capacity,
            fewer.map_values(|value: T| StaticCall::Send(value)),
        );
        law_static_capacity(v, capacity, role, fewer);
        assert(calls.drop_last() =~= fewer.map_values(|value: T| StaticCall::Send(value)));
        assert(calls.last() == StaticCall::Send(values.last()));
        law_static_admission(before, capacity, values.last());
        let slot = choose|slot: int|
            {
                &&& 0 <= slot < v.cursors.len()
                &&& (#[trigger] v.cursors[slot]) is None
                &&& forall|i: int| 0 <= i < slot ==> (#[trigger] v.cursors[i]) is Some
                &&& joined.cursors == v.cursors.update(
                    slot,
                    Some(
                        StaticCursor {
                            generation: v.next_generation,
                            next: (v.start + v.history.len()) as u64,
                            role,
                        },
                    ),
                )
            };
        assert(before.cursors[slot] is Some);
        assert((v.history + fewer).push(values.last()) =~= v.history + values);
        assert(fewer.take(fewer.len() as int) =~= fewer);
        if values.len() > capacity {
            assert(fewer.take(capacity as int) =~= values.take(capacity as int));
        } else if values.len() == capacity {
            assert(values.take(capacity as int) =~= values);
        }
    }
}

/// The first reason of a closure is the one that everybody is told, and nothing comes
/// through a closed stream.
pub proof fn law_static_close<T>(
    v: StaticView<T>,
    capacity: nat,
    key: SubscriberKey,
    value: T,
    first: CloseReason,
    second: CloseReason,
)
    requires
        v.closed is None,
    ensures
        v.close(first).close(second).closed == Some(first),
        v.close(first).next_item(capacity, key) == Err::<
            Option<StreamItem<PayloadValue<T>>>,
            ReceiveError,
        >(ReceiveError::Closed(first)),
        v.close(first).send_error(capacity, value) is Some,
        v.close(first).subscribe_error() is Some,
{
}

/// The key of an ended subscription is good for nothing, also when its slot is in use
/// again.
pub proof fn law_static_stale_key<T>(v: StaticView<T>, key: SubscriberKey, role: SubscriptionRole)
    requires
        v.wf(),
    ensures
        !v.detach(key).live(key),
        !v.live(key) && key.generation < v.next_generation && v.subscribe_error() is None
            ==> !v.subscribe(role).live(key),
        v.live(key) ==> key.generation < v.detach(key).next_generation,
{
    if v.subscribe_error() is None {
        lemma_free_slot(v, 0);
    }
}

/// What an attempt of a publication that may wait comes to: it is done if it is accepted, waits
/// while a required receiver stands against it, and otherwise comes back with the reason.
pub proof fn law_static_send_progress<T>(v: StaticView<T>, capacity: nat, value: T)
    ensures
        ({
            let tail = v.start + v.history.len();
            send_progress(v, capacity, value) == match v.closed {
                Some(CloseReason::Revoked) => Progress::Ready(Err(SendError::Revoked(value))),
                Some(_) => Progress::Ready(Err(SendError::Closed(value))),
                None => if tail == u64::MAX {
                    Progress::Ready(Err(SendError::SequenceExhausted(value)))
                } else if exists|i: int|
                    {
                        &&& 0 <= i < v.cursors.len()
                        &&& (#[trigger] v.cursors[i]) is Some
                        &&& v.cursors[i]->0.role == SubscriptionRole::Required
                        &&& tail - v.cursors[i]->0.next >= capacity
                    } {
                    Progress::Pending
                } else {
                    Progress::Ready(Ok(()))
                },
            }
        }),
{
    law_static_admission(v, capacity, value);
}

/// What an attempt of a receive that may wait comes to: it waits while the receiver is up to
/// date, and is done with what there is otherwise.
pub proof fn law_static_receive_progress<T>(v: StaticView<T>, capacity: nat, key: SubscriberKey)
    ensures
        match v.next_item(capacity, key) {
            Ok(Some(item)) => receive_progress(v, capacity, key) == Progress::Ready(
                Ok::<_, ReceiveError>(item),
            ),
            Ok(None) => receive_progress(v, capacity, key) is Pending,
            Err(error) => receive_progress(v, capacity, key) == Progress::Ready(
                Err::<StreamItem<PayloadValue<T>>, _>(error),
            ),
        },
        v.wf() && v.closed is None && v.live(key) && v.cursors[key.index as int]->0.next < v.start
            + v.history.len() ==> receive_progress(v, capacity, key) is Ready,
{
}

/// A refused publication changes nothing and hands the payload back.
pub proof fn law_static_refusal_returns_payload<T>(v: StaticView<T>, capacity: nat, value: T)
    ensures
        v.send_error(capacity, value) matches Some(error) ==> error.payload() == value,
{
}

/// One access to a stream, by whichever thread.
pub enum StaticCall<T> {
    /// An attempt to publish.
    Send(T),
    /// A request for a subscription.
    Subscribe(SubscriptionRole),
    /// A receive with that key.
    Receive(SubscriberKey),
    /// The end of a subscription.
    Detach(SubscriberKey),
    /// A closure.
    Close(CloseReason),
    /// The interests that have something new are taken.
    Notice,
}

/// A stream after one access.
pub open spec fn called<T>(v: StaticView<T>, capacity: nat, call: StaticCall<T>) -> StaticView<T> {
    match call {
        StaticCall::Send(value) => v.attempted(capacity, value),
        StaticCall::Subscribe(role) => if v.subscribe_error() is None {
            v.subscribe(role)
        } else {
            v
        },
        StaticCall::Receive(key) => v.take(capacity, key),
        StaticCall::Detach(key) => v.detach(key),
        StaticCall::Close(reason) => v.close(reason),
        StaticCall::Notice => v.noticed(true),
    }
}

/// A stream after a sequence of accesses.
pub open spec fn run<T>(v: StaticView<T>, capacity: nat, calls: Seq<StaticCall<T>>) -> StaticView<T>
    decreases calls.len(),
{
    if calls.len() == 0 {
        v
    } else {
        called(run(v, capacity, calls.drop_last()), capacity, calls.last())
    }
}

/// What the receives with that key get in a sequence of accesses, one after the other.
pub open spec fn received<T>(
    v: StaticView<T>,
    capacity: nat,
    calls: Seq<StaticCall<T>>,
    key: SubscriberKey,
) -> Seq<StreamItem<PayloadValue<T>>>
    decreases calls.len(),
{
    if calls.len() == 0 {
        Seq::empty()
    } else {
        let before = received(v, capacity, calls.drop_last(), key);
        if calls.last() == StaticCall::<T>::Receive(key) {
            match run(v, capacity, calls.drop_last()).next_item(capacity, key) {
                Ok(Some(item)) => before.push(item),
                _ => before,
            }
        } else {
            before
        }
    }
}

/// The first sequence that an item speaks of.
pub open spec fn item_from<V>(item: StreamItem<V>) -> int {
    match item {
        StreamItem::Data { sequence, value: _ } => sequence as int,
        StreamItem::Gap { from, to: _ } => from as int,
    }
}

/// The first sequence after those that an item speaks of.
pub open spec fn item_to<V>(item: StreamItem<V>) -> int {
    match item {
        StreamItem::Data { sequence, value: _ } => sequence + 1,
        StreamItem::Gap { from: _, to } => to as int,
    }
}

/// How far the items reach from `from` on.
pub open spec fn reached<V>(items: Seq<StreamItem<V>>, from: int) -> int {
    if items.len() == 0 {
        from
    } else {
        item_to(items.last())
    }
}

/// The items speak of every sequence from `from` on, of each once and in order.
pub open spec fn tiles<V>(items: Seq<StreamItem<V>>, from: int) -> bool {
    forall|i: int|
        0 <= i < items.len() ==> {
            &&& item_from(#[trigger] items[i]) == if i == 0 {
                from
            } else {
                item_to(items[i - 1])
            }
            &&& item_from(items[i]) < item_to(items[i])
        }
}

/// The data among the items are the publications with their sequences.
pub open spec fn faithful<T>(items: Seq<StreamItem<PayloadValue<T>>>, v: StaticView<T>) -> bool {
    forall|i: int|
        0 <= i < items.len() ==> match #[trigger] items[i] {
            StreamItem::Data { sequence, value } => {
                &&& v.start <= sequence < v.tail()
                &&& value == PayloadValue(v.history[sequence - v.start])
            },
            StreamItem::Gap { from, to } => v.start <= from && to <= v.tail(),
        }
}

/// Whatever accesses come, a stream stays in order, and what is published stays published.
pub proof fn law_static_calls_keep_order<T>(
    v: StaticView<T>,
    capacity: nat,
    subscribers: nat,
    calls: Seq<StaticCall<T>>,
)
    requires
        v.sound(capacity, subscribers),
        capacity > 0,
    ensures
        run(v, capacity, calls).sound(capacity, subscribers),
        run(v, capacity, calls).start == v.start,
        v.history.is_prefix_of(run(v, capacity, calls).history),
        v.next_generation <= run(v, capacity, calls).next_generation,
    decreases calls.len(),
{
    if calls.len() > 0 {
        let rest = calls.drop_last();
        law_static_calls_keep_order(v, capacity, subscribers, rest);
        let before = run(v, capacity, rest);
        lemma_call_sound(before, capacity, subscribers, calls.last());
    }
}

/// One access keeps a stream in order.
proof fn lemma_call_sound<T>(
    v: StaticView<T>,
    capacity: nat,
    subscribers: nat,
    call: StaticCall<T>,
)
    requires
        v.sound(capacity, subscribers),
        capacity > 0,
    ensures
        called(v, capacity, call).sound(capacity, subscribers),
        called(v, capacity, call).start == v.start,
        v.history.is_prefix_of(called(v, capacity, call).history),
        v.next_generation <= called(v, capacity, call).next_generation,
{
    match call {
        StaticCall::Send(value) => {
            law_static_required_retained(
                v,
                capacity,
                subscribers,
                value,
                SubscriptionRole::Observer,
                SubscriberKey { index: 0, generation: 0 },
                CloseReason::Closed,
            );
        },
        StaticCall::Subscribe(role) => {
            if v.subscribe_error() is None {
                lemma_free_slot(v, 0);
            }
        },
        StaticCall::Receive(key) => {},
        StaticCall::Detach(key) => {},
        StaticCall::Close(reason) => {},
        StaticCall::Notice => {},
    }
}

/// What one access leaves of a subscription that it does not receive for.
proof fn lemma_call_cursor<T>(
    v: StaticView<T>,
    capacity: nat,
    call: StaticCall<T>,
    key: SubscriberKey,
)
    requires
        v.wf(),
        key.generation < v.next_generation,
        call != StaticCall::<T>::Receive(key),
    ensures
        called(v, capacity, call).live(key) ==> v.live(key) && called(
            v,
            capacity,
            call,
        ).cursors[key.index as int] == v.cursors[key.index as int],
{
    match call {
        StaticCall::Subscribe(role) => {
            if v.subscribe_error() is None {
                lemma_free_slot(v, 0);
            }
        },
        StaticCall::Receive(other) => {
            if v.live(other) && v.live(key) {
                assert(other.index == key.index ==> other == key);
            }
        },
        _ => {},
    }
}

/// Over any interleaving of accesses, what a receiver gets tiles the sequences from where
/// it stood: each is covered once and in order, by its publication or by a gap, up to where
/// the subscription then stands.
pub proof fn law_static_received_tiles<T>(
    v: StaticView<T>,
    capacity: nat,
    subscribers: nat,
    calls: Seq<StaticCall<T>>,
    key: SubscriberKey,
)
    requires
        v.sound(capacity, subscribers),
        capacity > 0,
        v.live(key),
    ensures
        ({
            let items = received(v, capacity, calls, key);
            let after = run(v, capacity, calls);
            let from = v.cursors[key.index as int]->0.next as int;
            &&& tiles(items, from)
            &&& faithful(items, after)
            &&& reached(items, from) <= after.tail()
            &&& after.live(key) ==> after.cursors[key.index as int]->0.next == reached(items, from)
                && after.cursors[key.index as int]->0.role == v.cursors[key.index as int]->0.role
        }),
    decreases calls.len(),
{
    let from = v.cursors[key.index as int]->0.next as int;
    let items = received(v, capacity, calls, key);
    let after = run(v, capacity, calls);
    law_static_calls_keep_order(v, capacity, subscribers, calls);
    if calls.len() > 0 {
        let rest = calls.drop_last();
        let before = run(v, capacity, rest);
        let earlier = received(v, capacity, rest, key);
        law_static_received_tiles(v, capacity, subscribers, rest, key);
        law_static_calls_keep_order(v, capacity, subscribers, rest);
        lemma_call_sound(before, capacity, subscribers, calls.last());
        assert(faithful(earlier, after)) by {
            assert forall|i: int| 0 <= i < earlier.len() implies match #[trigger] earlier[i] {
                StreamItem::Data { sequence, value } => {
                    &&& after.start <= sequence < after.tail()
                    &&& value == PayloadValue(after.history[sequence - after.start])
                },
                StreamItem::Gap { from, to } => after.start <= from && to <= after.tail(),
            } by {}
        }
        if calls.last() == StaticCall::<T>::Receive(key) {
            if before.live(key) && before.closed is None {
                law_static_receive_exact(before, capacity, key);
            }
            assert(items.len() > earlier.len() ==> items.drop_last() =~= earlier);
        } else {
            lemma_call_cursor(before, capacity, calls.last(), key);
        }
    }
}

/// A required receiver gets every publication from where it stood, in order and without a
/// gap, over any interleaving of accesses.
pub proof fn law_static_required_complete<T>(
    v: StaticView<T>,
    capacity: nat,
    subscribers: nat,
    calls: Seq<StaticCall<T>>,
    key: SubscriberKey,
    i: int,
)
    requires
        v.sound(capacity, subscribers),
        capacity > 0,
        v.live(key),
        v.cursors[key.index as int]->0.role == SubscriptionRole::Required,
        0 <= i < received(v, capacity, calls, key).len(),
    ensures
        ({
            let sequence = v.cursors[key.index as int]->0.next + i;
            let after = run(v, capacity, calls);
            &&& received(v, capacity, calls, key)[i] == StreamItem::Data {
                sequence: sequence as u64,
                value: PayloadValue(after.history[sequence - after.start]),
            }
            &&& after.start <= sequence < after.tail()
        }),
{
    let from = v.cursors[key.index as int]->0.next as int;
    let items = received(v, capacity, calls, key);
    law_static_received_tiles(v, capacity, subscribers, calls, key);
    lemma_no_gaps(v, capacity, subscribers, calls, key);
    lemma_tiles_of_data(items, from, i);
}

/// Data that tile the sequences have one each.
proof fn lemma_tiles_of_data<V>(items: Seq<StreamItem<V>>, from: int, i: int)
    requires
        tiles(items, from),
        forall|j: int| 0 <= j < items.len() ==> (#[trigger] items[j]) is Data,
        0 <= i < items.len(),
    ensures
        items[i] is Data,
        item_from(items[i]) == from + i,
    decreases i,
{
    assert(items[i] is Data);
    if i > 0 {
        lemma_tiles_of_data(items, from, i - 1);
    }
}

/// No item of a required receiver is a gap.
proof fn lemma_no_gaps<T>(
    v: StaticView<T>,
    capacity: nat,
    subscribers: nat,
    calls: Seq<StaticCall<T>>,
    key: SubscriberKey,
)
    requires
        v.sound(capacity, subscribers),
        capacity > 0,
        v.live(key),
        v.cursors[key.index as int]->0.role == SubscriptionRole::Required,
    ensures
        forall|i: int|
            0 <= i < received(v, capacity, calls, key).len() ==> (#[trigger] received(
                v,
                capacity,
                calls,
                key,
            )[i]) is Data,
    decreases calls.len(),
{
    if calls.len() > 0 {
        let rest = calls.drop_last();
        let before = run(v, capacity, rest);
        lemma_no_gaps(v, capacity, subscribers, rest, key);
        law_static_received_tiles(v, capacity, subscribers, rest, key);
        law_static_calls_keep_order(v, capacity, subscribers, rest);
        if before.live(key) {
            law_static_required_no_gap(before, capacity, key);
        }
    }
}

} // verus!

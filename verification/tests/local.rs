use hiway::error::{CloseReason, ReceiveError, SendError, TopicError, TrySendError};
use hiway::event::{EventId, EventSpec, EventValue};
use hiway::item::{PayloadValue, Progress, StreamItem, SubscriptionRole};
use hiway::port::{publish, EventSender, PendingPublish, PortBinding, PortExt, PreparedSend, Topic};
use hiway::static_core::{StaticState, INTEREST_RECEIVE, INTEREST_SEND};
use hiway::static_stream::{receive_step, send_step, StaticFabric, StaticStream};
use std::marker::PhantomData;
use std::sync::atomic::{AtomicUsize, Ordering};
use std::sync::Arc;
use std::task::{Wake, Waker};

struct Number;

impl EventSpec for Number {
    type Payload = u32;
    const ID: EventId = EventId(0x448ba3d429aa90718cc102b1ae9c879a);
}

#[derive(Default)]
struct Counter(AtomicUsize);

impl Wake for Counter {
    fn wake(self: Arc<Self>) {
        self.0.fetch_add(1, Ordering::SeqCst);
    }
}

fn data(sequence: u64, value: u32) -> StreamItem<PayloadValue<u32>> {
    StreamItem::Data {
        sequence,
        value: PayloadValue(value),
    }
}

#[test]
fn event_name_gives_the_declared_identity() {
    assert_eq!(EventId::from_name("static-tests::Number"), Number::ID);
}

#[test]
fn strict_static_operations_defer_callbacks_and_report_lock_contention() {
    let stream = StaticStream::<Number, 1, 8, 16>::new();
    let sender = stream.sender();
    let receiver = stream.subscribe(SubscriptionRole::Required).unwrap();
    let counter = Arc::new(Counter::default());
    let waker = Waker::from(counter.clone());
    let mut receive = receiver.recv();
    assert_eq!(receive.poll(&waker), Progress::Pending);
    sender.try_send(7).unwrap();
    assert_eq!(counter.0.load(Ordering::SeqCst), 0);
    stream.maintain();
    assert_eq!(counter.0.load(Ordering::SeqCst), 1);
    assert_eq!(receive.poll(&waker), Progress::Ready(Ok(data(0, 7))));
    let guard = stream.state.lock();
    assert!(matches!(
        sender.try_send(8),
        Err(TrySendError::Contended(8))
    ));
    assert!(matches!(receiver.try_recv(), Err(ReceiveError::Contended)));
    drop(guard);
    sender.try_send(8).unwrap();
    assert_eq!(receiver.try_recv().unwrap(), Some(data(1, 8)));
}

#[test]
fn async_contention_parks_and_cancellation_releases_only_its_slot() {
    let stream = StaticStream::<Number, 1, 1, 2>::new();
    let receiver = stream.subscribe(SubscriptionRole::Required).unwrap();
    let counter = Arc::new(Counter::default());
    let waker = Waker::from(counter.clone());
    let guard = stream.state.lock();
    let mut cancelled = receiver.recv();
    let mut live = receiver.recv();
    assert_eq!(cancelled.poll(&waker), Progress::Pending);
    assert_eq!(live.poll(&waker), Progress::Pending);
    cancelled.cancel();
    let mut replacement = receiver.recv();
    assert_eq!(replacement.poll(&waker), Progress::Pending);
    let mut excess = receiver.recv();
    assert_eq!(
        excess.poll(&waker),
        Progress::Ready(Err(ReceiveError::WaitersFull))
    );
    replacement.cancel();
    assert_eq!(counter.0.load(Ordering::SeqCst), 0);
    drop(guard);
    stream.sender().send_now(7).unwrap();
    assert_eq!(counter.0.load(Ordering::SeqCst), 1);
    assert_eq!(live.poll(&waker), Progress::Ready(Ok(data(0, 7))));
}

#[test]
fn idle_maintenance_does_not_repoll_blocked_futures() {
    let stream = StaticStream::<Number, 1, 1, 1>::new();
    let receiver = stream.subscribe(SubscriptionRole::Required).unwrap();
    let sender = stream.sender();
    sender.send_now(1).unwrap();
    let counter = Arc::new(Counter::default());
    let waker = Waker::from(counter.clone());
    let mut pending = sender.send(2);
    assert_eq!(pending.poll(&waker), Progress::Pending);
    for _ in 0..8 {
        stream.maintain();
    }
    assert_eq!(counter.0.load(Ordering::SeqCst), 0);
    assert_eq!(receiver.try_recv().unwrap(), Some(data(0, 1)));
    assert_eq!(counter.0.load(Ordering::SeqCst), 0);
    stream.maintain();
    assert_eq!(counter.0.load(Ordering::SeqCst), 1);
    assert_eq!(pending.poll(&waker), Progress::Ready(Ok(())));
    stream.maintain();
    assert_eq!(counter.0.load(Ordering::SeqCst), 1);
    assert_eq!(receiver.recv_now().unwrap(), Some(data(1, 2)));

    let eager = StaticStream::<Number, 1, 1, 0>::new();
    let receiver = eager.subscribe(SubscriptionRole::Required).unwrap();
    assert_eq!(
        eager.sender().send(9).poll(&waker),
        Progress::Ready(Ok(()))
    );
    assert_eq!(
        receiver.recv().poll(&waker),
        Progress::Ready(Ok(data(0, 9)))
    );
    assert_eq!(
        receiver.recv().poll(&waker),
        Progress::Ready(Err(ReceiveError::WaitersFull))
    );
}

#[test]
fn static_events_can_borrow_non_send_non_sync_payloads() {
    struct Borrowed<'a>(PhantomData<&'a core::cell::Cell<u32>>);
    impl<'a> EventSpec for Borrowed<'a> {
        type Payload = &'a core::cell::Cell<u32>;
        const ID: EventId = EventId(0xd91adb8be4bfb67af454ab9cb1ca07f);
    }
    let value = core::cell::Cell::new(41);
    let stream = StaticStream::<Borrowed<'_>, 1, 8, 16>::new();
    let receiver = stream.subscribe(SubscriptionRole::Required).unwrap();
    stream
        .sender()
        .publish_now(EventValue::<Borrowed<'_>>::new(&value))
        .unwrap();
    let StreamItem::Data {
        sequence,
        value: borrowed,
    } = receiver.recv_now().unwrap().unwrap()
    else {
        panic!("borrowed data was lost")
    };
    assert_eq!(sequence, 0);
    borrowed.set(42);
    assert_eq!(value.get(), 42);
}

#[test]
fn observers_report_gaps_without_retaining_publication_capacity() {
    let stream = StaticStream::<Number, 2, 8, 16>::new();
    let receiver = stream.subscribe(SubscriptionRole::Observer).unwrap();
    let sender = stream.sender();
    for value in 0..5 {
        sender.send_now(value).unwrap();
    }
    assert_eq!(
        receiver.recv_now().unwrap(),
        Some(StreamItem::Gap { from: 0, to: 3 })
    );
    assert_eq!(receiver.recv_now().unwrap().unwrap(), data(3, 3));
    assert_eq!(receiver.recv_now().unwrap().unwrap(), data(4, 4));
    assert_eq!(receiver.recv_now().unwrap(), None);
}

#[test]
fn all_required_cursors_must_release_the_overwritten_sequence() {
    let stream = StaticStream::<Number, 2, 8, 16>::new();
    let a = stream.subscribe(SubscriptionRole::Required).unwrap();
    let b = stream.subscribe(SubscriptionRole::Required).unwrap();
    let sender = stream.sender();
    sender.send_now(10).unwrap();
    sender.send_now(20).unwrap();
    assert_eq!(a.recv_now().unwrap().unwrap(), data(0, 10));
    assert!(matches!(sender.send_now(30), Err(TrySendError::Full(30))));
    assert_eq!(b.recv_now().unwrap().unwrap(), data(0, 10));
    sender.send_now(30).unwrap();
    assert_eq!(a.recv_now().unwrap().unwrap(), data(1, 20));
    assert_eq!(a.recv_now().unwrap().unwrap(), data(2, 30));
    assert_eq!(b.recv_now().unwrap().unwrap(), data(1, 20));
    assert_eq!(b.recv_now().unwrap().unwrap(), data(2, 30));
}

#[test]
fn detachment_releases_capacity_and_new_members_start_at_tail() {
    let stream = StaticStream::<Number, 1, 1, 16>::new();
    let sender = stream.sender();
    sender.send_now(1).unwrap();
    let receiver = stream.subscribe(SubscriptionRole::Required).unwrap();
    assert_eq!(receiver.recv_now().unwrap(), None);
    sender.send_now(2).unwrap();
    assert!(matches!(sender.send_now(3), Err(TrySendError::Full(3))));
    assert!(matches!(
        stream.subscribe(SubscriptionRole::Observer),
        Err(TopicError::Capacity)
    ));
    receiver.detach();
    sender.send_now(3).unwrap();
    let replacement = stream.subscribe(SubscriptionRole::Observer).unwrap();
    assert_eq!(replacement.recv_now().unwrap(), None);
    sender.send_now(4).unwrap();
    assert_eq!(replacement.recv_now().unwrap().unwrap(), data(3, 4));
}

#[test]
fn a_blocked_stream_does_not_consume_another_streams_capacity() {
    let a = StaticStream::<Number, 1, 8, 16>::new();
    let b = StaticStream::<Number, 1, 8, 16>::new();
    let _stopped = a.subscribe(SubscriptionRole::Required).unwrap();
    let active = b.subscribe(SubscriptionRole::Required).unwrap();
    a.sender().send_now(1).unwrap();
    assert!(matches!(a.sender().send_now(2), Err(TrySendError::Full(2))));
    for value in 10..20 {
        b.sender().send_now(value).unwrap();
        assert_eq!(
            active.recv_now().unwrap().unwrap(),
            data(u64::from(value - 10), value)
        );
    }
}

#[test]
fn cancelling_one_shared_waker_send_preserves_the_other_waiter() {
    let stream = StaticStream::<Number, 1, 1, 2>::new();
    let receiver = stream.subscribe(SubscriptionRole::Required).unwrap();
    let sender = stream.sender();
    sender.send_now(1).unwrap();
    let count = Arc::new(Counter::default());
    let waker = Waker::from(count.clone());
    let mut first = sender.send(2);
    let mut second = sender.send(3);
    assert_eq!(first.poll(&waker), Progress::Pending);
    assert_eq!(second.poll(&waker), Progress::Pending);
    let mut excess = sender.send(4);
    assert_eq!(
        excess.poll(&waker),
        Progress::Ready(Err(SendError::WaitersFull(4)))
    );
    assert_eq!(first.cancel(), Some(2));
    let mut replacement = sender.send(5);
    assert_eq!(replacement.poll(&waker), Progress::Pending);
    assert_eq!(replacement.cancel(), Some(5));
    assert_eq!(receiver.recv_now().unwrap().unwrap(), data(0, 1));
    assert_eq!(count.0.load(Ordering::SeqCst), 1);
    assert_eq!(second.poll(&waker), Progress::Ready(Ok(())));
    assert_eq!(receiver.recv_now().unwrap().unwrap(), data(1, 3));
    assert_eq!(receiver.recv_now().unwrap(), None);
}

#[test]
fn concurrent_receives_have_distinct_bounded_waiter_records() {
    let stream = StaticStream::<Number, 2, 1, 2>::new();
    let receiver = stream.subscribe(SubscriptionRole::Required).unwrap();
    let count = Arc::new(Counter::default());
    let waker = Waker::from(count.clone());
    let mut first = receiver.recv();
    let mut second = receiver.recv();
    let mut excess = receiver.recv();
    assert_eq!(first.poll(&waker), Progress::Pending);
    assert_eq!(second.poll(&waker), Progress::Pending);
    assert_eq!(
        excess.poll(&waker),
        Progress::Ready(Err(ReceiveError::WaitersFull))
    );
    first.cancel();
    stream.sender().send_now(7).unwrap();
    assert_eq!(count.0.load(Ordering::SeqCst), 1);
    assert_eq!(second.poll(&waker), Progress::Ready(Ok(data(0, 7))));
}

#[test]
fn close_terminates_waiters_and_does_not_expose_retained_data() {
    let stream = StaticStream::<Number, 1, 8, 16>::new();
    let receiver = stream.subscribe(SubscriptionRole::Required).unwrap();
    let sender = stream.sender();
    sender.send_now(1).unwrap();
    let count = Arc::new(Counter::default());
    let waker = Waker::from(count.clone());
    let mut pending = sender.send(2);
    assert_eq!(pending.poll(&waker), Progress::Pending);
    stream.close(CloseReason::Revoked);
    stream.close(CloseReason::Closed);
    assert_eq!(count.0.load(Ordering::SeqCst), 1);
    assert_eq!(
        pending.poll(&waker),
        Progress::Ready(Err(SendError::Revoked(2)))
    );
    assert_eq!(
        receiver.recv_now(),
        Err(ReceiveError::Closed(CloseReason::Revoked))
    );
    assert!(matches!(sender.send_now(3), Err(TrySendError::Revoked(3))));
    assert!(matches!(
        stream.subscribe(SubscriptionRole::Observer),
        Err(TopicError::Revoked)
    ));

    let empty = StaticStream::<Number, 1, 8, 16>::new();
    let receiver = empty.subscribe(SubscriptionRole::Observer).unwrap();
    let mut receive = receiver.recv();
    assert_eq!(receive.poll(&waker), Progress::Pending);
    empty.close(CloseReason::Disconnected);
    assert_eq!(count.0.load(Ordering::SeqCst), 2);
    assert_eq!(
        receive.poll(&waker),
        Progress::Ready(Err(ReceiveError::Closed(CloseReason::Disconnected)))
    );
}

struct ReenterOnDrop {
    stream: Arc<StaticStream<Number, 2, 8, 16>>,
    drops: Arc<AtomicUsize>,
}

impl Wake for ReenterOnDrop {
    fn wake(self: Arc<Self>) {
        drop(self);
    }
}

impl Drop for ReenterOnDrop {
    fn drop(&mut self) {
        self.stream.sender().send_now(77).unwrap();
        self.drops.fetch_add(1, Ordering::SeqCst);
    }
}

#[test]
fn cancellation_drops_user_wakers_outside_the_stream_lock() {
    let stream = Arc::new(StaticStream::<Number, 2, 8, 16>::new());
    let receiver = stream.subscribe(SubscriptionRole::Observer).unwrap();
    let drops = Arc::new(AtomicUsize::new(0));
    let mut pending = receiver.recv();
    {
        let waker = Waker::from(Arc::new(ReenterOnDrop {
            stream: stream.clone(),
            drops: drops.clone(),
        }));
        assert_eq!(pending.poll(&waker), Progress::Pending);
    }
    pending.cancel();
    assert_eq!(drops.load(Ordering::SeqCst), 1);
    assert_eq!(receiver.recv_now().unwrap().unwrap(), data(0, 77));
}

#[test]
fn sequence_exhaustion_rejects_without_wrapping_or_losing_the_payload() {
    let stream = StaticStream::<Number, 2, 8, 16>::starting_at(u64::MAX - 1);
    let receiver = stream.subscribe(SubscriptionRole::Required).unwrap();
    let sender = stream.sender();
    sender.send_now(8).unwrap();
    let error = sender.send_now(9).unwrap_err();
    assert!(matches!(error, TrySendError::SequenceExhausted(9)));
    assert_eq!(error.into_inner(), 9);
    let mut pending = sender.send(10);
    assert_eq!(
        pending.poll(Waker::noop()),
        Progress::Ready(Err(SendError::SequenceExhausted(10)))
    );
    assert_eq!(receiver.recv_now().unwrap().unwrap(), data(u64::MAX - 1, 8));
    assert_eq!(receiver.recv_now().unwrap(), None);
}

#[test]
fn all_async_publication_conveniences_return_rejected_payloads() {
    fn rejected(mut pending: impl PendingPublish<Number>) -> SendError<u32> {
        let Progress::Ready(Err(error)) = pending.poll(Waker::noop()) else {
            panic!("closed publication must reject immediately")
        };
        error
    }
    let stream = StaticStream::<Number, 1, 8, 16>::new();
    let sender = stream.sender();
    let topic = Topic::<Number, _>::new(sender.duplicate());
    stream.close(CloseReason::Closed);
    assert_eq!(rejected(sender.send(11)), SendError::Closed(11));
    assert_eq!(rejected(topic.send(22)), SendError::Closed(22));
    assert_eq!(
        rejected(sender.publish(EventValue::<Number>::new(33))),
        SendError::Closed(33)
    );
    assert_eq!(
        rejected(publish(&sender, EventValue::<Number>::new(44))),
        SendError::Closed(44)
    );
}

#[test]
fn async_errors_preserve_move_only_borrowed_payloads_without_debug_bounds() {
    struct MoveOnly<'a>(&'a core::cell::Cell<u32>);
    impl Drop for MoveOnly<'_> {
        fn drop(&mut self) {
            self.0.set(self.0.get() + 1);
        }
    }
    let drops = core::cell::Cell::new(0);
    for variant in 0..4 {
        let payload = MoveOnly(&drops);
        let error = match variant {
            0 => SendError::Closed(payload),
            1 => SendError::Revoked(payload),
            2 => SendError::WaitersFull(payload),
            _ => SendError::SequenceExhausted(payload),
        };
        let _display = error.message();
        let mapped = error.map(|payload| (payload, 7));
        assert!(matches!(
            (&mapped, variant),
            (SendError::Closed(_), 0)
                | (SendError::Revoked(_), 1)
                | (SendError::WaitersFull(_), 2)
                | (SendError::SequenceExhausted(_), 3)
        ));
        let (payload, tag) = mapped.into_inner();
        assert_eq!(tag, 7);
        assert_eq!(drops.get(), variant);
        drop(payload);
        assert_eq!(drops.get(), variant + 1);
    }
}

#[test]
fn stale_membership_keys_cannot_read_reused_subscriber_slots() {
    let mut state = StaticState::<u32, 1, 1>::new();
    let old = state.subscribe(SubscriptionRole::Observer).unwrap();
    state.detach(old);
    let current = state.subscribe(SubscriptionRole::Observer).unwrap();
    state.send_now(12).unwrap();
    assert_eq!(
        state.recv_now(old),
        Err(ReceiveError::Closed(CloseReason::Closed))
    );
    assert_eq!(state.recv_now(current).unwrap().unwrap(), data(0, 12));
}

#[test]
fn bounded_stream_matches_an_unbounded_history_model() {
    for mut script in 0..5usize.pow(6) {
        let stream = StaticStream::<Number, 2, 2, 16>::new();
        let observer = stream.subscribe(SubscriptionRole::Observer).unwrap();
        let mut required = Some(stream.subscribe(SubscriptionRole::Required).unwrap());
        let mut history = Vec::new();
        let mut observer_next = 0;
        let mut required_next = 0;
        for step in 0..6 {
            match script % 5 {
                0 => {
                    let result = stream.sender().send_now(step);
                    if required.is_some() && history.len() - required_next == 2 {
                        assert!(matches!(result, Err(TrySendError::Full(value)) if value == step));
                    } else {
                        result.unwrap();
                        history.push(step);
                    }
                }
                1 => {
                    let oldest = history.len().saturating_sub(2);
                    let expected = if observer_next < oldest {
                        let from = observer_next;
                        observer_next = oldest;
                        Some(StreamItem::Gap {
                            from: from as u64,
                            to: oldest as u64,
                        })
                    } else if observer_next < history.len() {
                        let item = data(observer_next as u64, history[observer_next]);
                        observer_next += 1;
                        Some(item)
                    } else {
                        None
                    };
                    assert_eq!(observer.recv_now().unwrap(), expected);
                }
                2 => {
                    if let Some(receiver) = required.as_ref() {
                        let expected = history.get(required_next).map(|value| StreamItem::Data {
                            sequence: required_next as u64,
                            value: PayloadValue(*value),
                        });
                        if expected.is_some() {
                            required_next += 1;
                        }
                        assert_eq!(receiver.recv_now().unwrap(), expected);
                    }
                }
                3 => {
                    if let Some(receiver) = required.take() {
                        receiver.detach();
                    }
                }
                4 => {
                    if required.is_none() {
                        required = Some(stream.subscribe(SubscriptionRole::Required).unwrap());
                        required_next = history.len();
                    }
                }
                _ => unreachable!(),
            }
            script /= 5;
        }
    }
}

#[test]
fn static_bindings_and_preparations_reach_the_same_stream() {
    let stream = StaticStream::<Number, 1, 2, 2>::new();
    let fabric = StaticFabric::new(&stream);
    let receiver = PortBinding::subscribe(&fabric, SubscriptionRole::Required).unwrap();
    let sender = PortBinding::sender(&fabric).unwrap();
    let prepared = EventSender::prepare(&sender, 5).unwrap();
    assert!(prepared.try_send().is_ok());
    let blocked = PortExt::prepare(&sender, EventValue::<Number>::new(6)).unwrap();
    let Err(TrySendError::Full(kept)) = blocked.try_send() else {
        panic!("required retention must refuse the publication")
    };
    assert_eq!(kept.into_inner(), 6);
    assert_eq!(PortExt::recv_now::<Number>(&receiver).unwrap(), Some(data(0, 5)));
    assert_eq!(PortExt::try_recv::<Number>(&receiver).unwrap(), None);
    let topic = Topic::<Number, _>::new(sender);
    topic.duplicate().send_now(7).unwrap();
    assert_eq!(
        PortExt::recv::<Number>(&receiver).poll(Waker::noop()),
        Progress::Ready(Ok(data(1, 7)))
    );
}

#[test]
fn subscriber_generations_and_closure_reasons_are_reported() {
    let stream = StaticStream::<Number, 1, 1, 1>::new();
    stream.close(CloseReason::Disconnected);
    assert!(matches!(
        stream.subscribe(SubscriptionRole::Observer),
        Err(TopicError::Denied)
    ));
    assert!(matches!(
        stream.sender().send_now(1),
        Err(TrySendError::Closed(1))
    ));
}

struct Marker;

impl EventSpec for Marker {
    type Payload = PhantomData<std::cell::Cell<u8>>;
    const ID: EventId = EventId(9);
}

#[test]
fn streams_of_sendable_payloads_are_shared_between_threads() {
    fn shared<T: Sync>(_: &T) {}
    let stream = StaticStream::<Marker, 1, 1, 1>::new();
    shared(&stream);
    assert!(stream.sender().send_now(PhantomData).is_ok());
}

#[test]
fn steps_on_a_state_say_what_a_poll_returns() {
    let mut state = StaticState::<u32, 1, 1>::starting_at(5);
    let key = state.subscribe(SubscriptionRole::Required).unwrap();
    assert_eq!(receive_step(&mut state, key), (Progress::Pending, 0));
    assert_eq!(
        send_step(&mut state, 7),
        (Progress::Ready(Ok(())), INTEREST_RECEIVE)
    );
    assert_eq!(send_step(&mut state, 8), (Progress::Pending, 0));
    assert_eq!(
        receive_step(&mut state, key),
        (Progress::Ready(Ok(data(5, 7))), INTEREST_SEND)
    );
    state.close(CloseReason::Revoked);
    assert_eq!(
        send_step(&mut state, 9),
        (Progress::Ready(Err(SendError::Revoked(9))), u8::MAX)
    );
    assert_eq!(
        receive_step(&mut state, key).0,
        Progress::Ready(Err(ReceiveError::Closed(CloseReason::Revoked)))
    );
}

#[test]
fn received_items_tile_the_sequences_in_any_interleaving() {
    let stream = StaticStream::<Number, 2, 2, 1>::starting_at(5);
    let sender = stream.sender();
    let observer = stream.subscribe(SubscriptionRole::Observer).unwrap();
    let required = stream.subscribe(SubscriptionRole::Required).unwrap();
    let mut seen = Vec::new();
    let mut all = Vec::new();
    for value in 0..9u32 {
        if sender.send_now(value).is_err() {
            while let Some(item) = required.recv_now().unwrap() {
                all.push(item);
            }
            sender.send_now(value).unwrap();
        }
        if value % 4 == 3 {
            seen.push(observer.recv_now().unwrap().unwrap());
        }
    }
    while let Some(item) = observer.recv_now().unwrap() {
        seen.push(item);
    }
    while let Some(item) = required.recv_now().unwrap() {
        all.push(item);
    }
    assert_eq!(
        all,
        (0..9u32)
            .map(|value| data(u64::from(value) + 5, value))
            .collect::<Vec<_>>()
    );
    assert!(seen
        .iter()
        .any(|item| matches!(item, StreamItem::Gap { .. })));
    let mut next = 5;
    for item in seen {
        next = match item {
            StreamItem::Data { sequence, value } => {
                assert_eq!((sequence, u64::from(value.0)), (next, next - 5));
                sequence + 1
            }
            StreamItem::Gap { from, to } => {
                assert!(from == next && from < to);
                to
            }
        };
    }
    assert_eq!(next, 14);
    observer.detach();
    required.detach();
}

#[test]
fn prepared_payloads_go_to_the_stream_that_prepared_them() {
    let stream = StaticStream::<Number, 2, 1, 1>::starting_at(7);
    let receiver = stream.subscribe(SubscriptionRole::Required).unwrap();
    let prepared = PortExt::prepare(&stream.sender(), EventValue::<Number>::new(3))
        .ok()
        .unwrap();
    assert!(prepared.try_send().is_ok());
    let guard = stream.state.lock();
    let kept = EventSender::prepare(&stream.sender(), 4)
        .ok()
        .unwrap()
        .try_send();
    drop(guard);
    match kept {
        Err(TrySendError::Contended(kept)) => assert_eq!(kept.into_inner(), 4),
        _ => panic!("the stream was contended"),
    }
    assert_eq!(receiver.recv_now().unwrap(), Some(data(7, 3)));
    assert_eq!(receiver.recv_now().unwrap(), None);
    receiver.detach();
}

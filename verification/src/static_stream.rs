//! A bounded retained stream in caller-owned storage, shared between threads.
use crate::error::{CloseReason, ReceiveError, SendError, TopicError, TrySendError};
use crate::event::EventSpec;
use crate::guarded::{try_take, Access, Attempt, Guarded};
use crate::item::{PayloadValue, Progress, StreamItem, SubscriptionRole};
use crate::port::{
    EventPort, EventReceiver, EventSender, PendingPublish, PendingReception, Port, PortBinding,
    PreparedSend,
};
use crate::static_core::{StaticState, StaticView, SubscriberKey, INTEREST_RECEIVE, INTEREST_SEND};
use std::sync::atomic::{AtomicBool, AtomicU8, Ordering};
use vstd::prelude::*;

verus! {

/// A cell for the waker of one pending operation.
#[verifier::external_type_specification]
#[verifier::external_body]
pub struct ExAtomicWaker(atomic_waker::AtomicWaker);

/// Wakes one task.
#[verifier::external_type_specification]
#[verifier::external_body]
pub struct ExWaker(core::task::Waker);

/// [`atomic_waker::AtomicWaker::new`] makes an empty cell.
pub assume_specification[ atomic_waker::AtomicWaker::new ]() -> atomic_waker::AtomicWaker
;

/// [`atomic_waker::AtomicWaker::register`] stores the waker for the next wake. Nothing
/// can be seen of that from here.
pub assume_specification[ atomic_waker::AtomicWaker::register ](
    cell: &atomic_waker::AtomicWaker,
    waker: &core::task::Waker,
)
;

/// [`atomic_waker::AtomicWaker::wake`] wakes the stored waker, if there is one.
pub assume_specification[ atomic_waker::AtomicWaker::wake ](cell: &atomic_waker::AtomicWaker)
;

/// [`atomic_waker::AtomicWaker::take`] takes the stored waker out. Which it is depends
/// on what other threads have registered.
pub assume_specification[ atomic_waker::AtomicWaker::take ](
    cell: &atomic_waker::AtomicWaker,
) -> Option<core::task::Waker>
;

/// A record for one pending operation.
pub struct WaiterSlot {
    occupied: AtomicBool,
    interest: AtomicU8,
    waker: atomic_waker::AtomicWaker,
}

impl WaiterSlot {
    /// A free record without a waker. Its cells are shared: what they hold later on
    /// depends on who uses them.
    fn new() -> Self {
        WaiterSlot {
            occupied: AtomicBool::new(false),
            interest: AtomicU8::new(0),
            waker: atomic_waker::AtomicWaker::new(),
        }
    }
}

/// Free records for pending operations.
///
/// Calls [`core::array::from_fn`], which fills an array by calling its argument. Nothing
/// is said of the records: what they hold later on depends on who uses them.
#[verifier::external_body]
fn waiter_slots<const N: usize>() -> [WaiterSlot; N] {
    core::array::from_fn(|_| WaiterSlot::new())
}

/// What one attempt to publish comes to.
pub open spec fn sent<T>(view: StaticView<T>, capacity: nat, value: T) -> Result<
    (),
    TrySendError<T>,
> {
    match view.send_error(capacity, value) {
        Some(error) => Err(error),
        None => Ok(()),
    }
}

/// What one attempt of a waiting publication comes to.
pub open spec fn send_progress<T>(view: StaticView<T>, capacity: nat, value: T) -> Progress<
    Result<(), SendError<T>>,
> {
    match view.send_error(capacity, value) {
        None => Progress::Ready(Ok(())),
        Some(TrySendError::Full(_)) => Progress::Pending,
        Some(TrySendError::Revoked(value)) => Progress::Ready(Err(SendError::Revoked(value))),
        Some(TrySendError::SequenceExhausted(value)) => Progress::Ready(
            Err(SendError::SequenceExhausted(value)),
        ),
        Some(_) => Progress::Ready(Err(SendError::Closed(value))),
    }
}

/// What one attempt of a waiting receive comes to.
pub open spec fn receive_progress<T>(
    view: StaticView<T>,
    capacity: nat,
    key: SubscriberKey,
) -> Progress<Result<StreamItem<PayloadValue<T>>, ReceiveError>> {
    match view.next_item(capacity, key) {
        Ok(Some(item)) => Progress::Ready(Ok(item)),
        Ok(None) => Progress::Pending,
        Err(error) => Progress::Ready(Err(error)),
    }
}

/// Makes one attempt of a waiting publication on the state that the lock protects, and
/// takes the interests that have something new.
pub fn send_step<T: Copy, const CAP: usize, const SUBS: usize>(
    state: &mut StaticState<T, CAP, SUBS>,
    value: T,
) -> (outcome: (Progress<Result<(), SendError<T>>>, u8))
    ensures
        old(state)@.sound(CAP as nat, SUBS as nat),
        final(state)@.sound(CAP as nat, SUBS as nat),
        outcome.0 == send_progress(old(state)@, CAP as nat, value),
        ({
            let after = if old(state)@.send_error(CAP as nat, value) is None {
                old(state)@.send(value)
            } else {
                old(state)@
            };
            &&& outcome.1 == after.changed
            &&& final(state)@ == (StaticView { changed: 0, ..after })
        }),
{
    let result = state.send_now(value);
    let changed = state.take_changed();
    let progress = match result {
        Ok(_) => Progress::Ready(Ok(())),
        Err(TrySendError::Full(_)) => Progress::Pending,
        Err(TrySendError::Revoked(value)) => Progress::Ready(Err(SendError::Revoked(value))),
        Err(TrySendError::SequenceExhausted(value)) => Progress::Ready(
            Err(SendError::SequenceExhausted(value)),
        ),
        Err(error) => Progress::Ready(Err(SendError::Closed(error.into_inner()))),
    };
    (progress, changed)
}

/// Makes one attempt of a waiting receive on the state that the lock protects, and takes
/// the interests that have something new.
pub fn receive_step<T: Copy, const CAP: usize, const SUBS: usize>(
    state: &mut StaticState<T, CAP, SUBS>,
    key: SubscriberKey,
) -> (outcome: (Progress<Result<StreamItem<PayloadValue<T>>, ReceiveError>>, u8))
    ensures
        old(state)@.sound(CAP as nat, SUBS as nat),
        final(state)@.sound(CAP as nat, SUBS as nat),
        outcome.0 == receive_progress(old(state)@, CAP as nat, key),
        outcome.1 == old(state)@.take(CAP as nat, key).changed,
        final(state)@ == (StaticView { changed: 0, ..old(state)@.take(CAP as nat, key) }),
{
    let result = state.recv_now(key);
    let changed = state.take_changed();
    let progress = match result {
        Ok(Some(item)) => Progress::Ready(Ok(item)),
        Ok(None) => Progress::Pending,
        Err(error) => Progress::Ready(Err(error)),
    };
    (progress, changed)
}

/// A bounded retained stream in caller-owned, allocation-free storage.
///
/// `Copy` is a backend requirement, not an event-contract requirement. Strict `try_*`
/// methods acquire the stream lock once or return contention. Polling parks on
/// contention using bounded caller-owned waiter slots. Synchronous convenience and
/// administration may wait; do not preempt them with another waiting operation on the
/// same stream. Strict operations defer wakeups until maintenance. No waker operations
/// run under the stream lock.
#[verifier::reject_recursive_types(E)]
#[verifier::reject_recursive_types(CAP)]
#[verifier::reject_recursive_types(SUBS)]
pub struct StaticStream<
    E: EventSpec,
    const CAP: usize,
    const SUBS: usize,
    const WAITERS: usize,
> where E::Payload: Copy {
    /// The state, under its lock.
    pub state: Guarded<StaticState<E::Payload, CAP, SUBS>>,
    waiters: [WaiterSlot; WAITERS],
    contended: AtomicBool,
}

impl<
    E: EventSpec,
    const CAP: usize,
    const SUBS: usize,
    const WAITERS: usize,
> StaticStream<E, CAP, SUBS, WAITERS> where E::Payload: Copy {
    /// The state and its lock.
    pub closed spec fn cell(&self) -> &Guarded<StaticState<E::Payload, CAP, SUBS>> {
        &self.state
    }

    /// The state that the lock was made with, before anyone else had access.
    pub open spec fn first(&self) -> StaticView<E::Payload> {
        self.cell().first()@
    }

    /// Some access to the stream's lock found the stream as `before`, left it as `after`,
    /// and has ended.
    pub open spec fn visited(
        &self,
        before: StaticView<E::Payload>,
        after: StaticView<E::Payload>,
    ) -> bool {
        &&& before.sound(CAP as nat, SUBS as nat)
        &&& exists|access: Access<'_, StaticState<E::Payload, CAP, SUBS>>|
            {
                &&& #[trigger] access.of() == self.cell()
                &&& access.found()@ == before
                &&& access.value()@ == after
                &&& access.ended()
            }
    }

    /// Some try for the stream's lock found it taken.
    pub open spec fn refused(&self) -> bool {
        exists|attempt: Attempt<'_, StaticState<E::Payload, CAP, SUBS>>|
            {
                &&& #[trigger] attempt.of() == self.cell()
                &&& attempt.access() is None
            }
    }

    /// Some access to the stream publishes `value`, or is refused, with that result.
    /// Wakeups are left for later if `deferred`.
    pub open spec fn sends(
        &self,
        value: E::Payload,
        deferred: bool,
        result: Result<(), TrySendError<E::Payload>>,
    ) -> bool {
        exists|before: StaticView<E::Payload>, after: StaticView<E::Payload>| #[trigger]
            self.visited(before, after) && result == sent(before, CAP as nat, value) && after
                == before.attempted(CAP as nat, value).noticed(!deferred) && (deferred
                || self.told(before, after, before.attempted(CAP as nat, value).changed))
    }

    /// Some access to the stream takes what comes next for `key`, with that result.
    /// Wakeups are left for later if `deferred`.
    pub open spec fn receives(
        &self,
        key: SubscriberKey,
        deferred: bool,
        result: Result<Option<StreamItem<PayloadValue<E::Payload>>>, ReceiveError>,
    ) -> bool {
        exists|before: StaticView<E::Payload>, after: StaticView<E::Payload>| #[trigger]
            self.visited(before, after) && result == before.next_item(CAP as nat, key) && after
                == before.take(CAP as nat, key).noticed(!deferred) && (deferred || self.told(
                before,
                after,
                before.take(CAP as nat, key).changed,
            ))
    }

    /// Some access to the stream starts a subscription, or is refused one, with that
    /// result.
    pub open spec fn subscribes(
        &self,
        role: SubscriptionRole,
        result: Result<StaticReceiver<'_, E, CAP, SUBS, WAITERS>, TopicError>,
    ) -> bool {
        exists|before: StaticView<E::Payload>, after: StaticView<E::Payload>| #[trigger]
            self.visited(before, after) && match before.subscribe_error() {
                Some(error) => {
                    &&& result is Err
                    &&& result->Err_0 == error
                    &&& after == before.noticed(true)
                    &&& self.told(before, after, before.changed)
                },
                None => {
                    &&& result is Ok
                    &&& result->Ok_0.stream() == self
                    &&& result->Ok_0.key().index == before.free_slot(0)->0
                    &&& result->Ok_0.key().generation == before.next_generation
                    &&& after == before.subscribe(role).noticed(true)
                    &&& self.told(before, after, before.subscribe(role).changed)
                },
            }
    }

    /// Some access to the stream makes one attempt of a waiting publication, which comes
    /// to `progress`.
    pub open spec fn send_steps(
        &self,
        value: E::Payload,
        progress: Progress<Result<(), SendError<E::Payload>>>,
    ) -> bool {
        exists|before: StaticView<E::Payload>, after: StaticView<E::Payload>| #[trigger]
            self.visited(before, after) && progress == send_progress(before, CAP as nat, value)
                && after == before.attempted(CAP as nat, value).noticed(true) && self.told(
                before,
                after,
                before.attempted(CAP as nat, value).changed,
            )
    }

    /// Some access to the stream makes one attempt of a waiting receive, which comes to
    /// `progress`.
    pub open spec fn receive_steps(
        &self,
        key: SubscriberKey,
        progress: Progress<Result<StreamItem<PayloadValue<E::Payload>>, ReceiveError>>,
    ) -> bool {
        exists|before: StaticView<E::Payload>, after: StaticView<E::Payload>| #[trigger]
            self.visited(before, after) && progress == receive_progress(before, CAP as nat, key)
                && after == before.take(CAP as nat, key).noticed(true) && self.told(
                before,
                after,
                before.take(CAP as nat, key).changed,
            )
    }

    /// Creates an empty stream. Zero retained capacity is invalid.
    #[must_use]
    pub fn new() -> (stream: Self)
        requires
            CAP > 0,
        ensures
            stream.first() == StaticView::<E::Payload>::unused(0, SUBS as nat),
    {
        Self::starting_at(0)
    }

    /// Creates an empty stream whose first publication gets the sequence `start`.
    #[must_use]
    pub fn starting_at(start: u64) -> (stream: Self)
        requires
            CAP > 0,
        ensures
            stream.first() == StaticView::<E::Payload>::unused(start, SUBS as nat),
    {
        StaticStream {
            state: Guarded::new(StaticState::starting_at(start)),
            waiters: waiter_slots(),
            contended: AtomicBool::new(false),
        }
    }

    /// Takes the lock, and marks the stream contended before a second try. Whether it can
    /// be had depends on other threads.
    fn acquire(&self) -> (access: Option<Access<'_, StaticState<E::Payload, CAP, SUBS>>>)
        ensures
            match access {
                Some(access) => access.of() == self.cell() && access.value() == access.found(),
                None => self.contended(),
            },
    {
        match try_take(&self.state).into_access() {
            Some(access) => Some(access),
            None => {
                self.contended.store(true, Ordering::SeqCst);
                self.take_marked()
            },
        }
    }

    /// Tries for the lock of a stream that is marked contended.
    fn take_marked(&self) -> (access: Option<Access<'_, StaticState<E::Payload, CAP, SUBS>>>)
        requires
            self.marked(),
        ensures
            match access {
                Some(access) => access.of() == self.cell() && access.value() == access.found(),
                None => self.refused(),
            },
    {
        let attempt = try_take(&self.state);
        assert(attempt.of() == &self.state);
        attempt.into_access()
    }

    /// Ends an access.
    fn leave(&self, access: Access<'_, StaticState<E::Payload, CAP, SUBS>>)
        requires
            access.of() == self.cell(),
            access.found()@.sound(CAP as nat, SUBS as nat),
        ensures
            self.visited(access.found()@, access.value()@),
    {
        access.leave();
        assert(access.of() == self.cell());
    }

    /// A record.
    spec fn slot(&self, index: usize) -> WaiterSlot {
        self.waiters@[index as int]
    }

    /// The stream was marked contended.
    spec fn marked(&self) -> bool {
        call_ensures(AtomicBool::store, (&self.contended, true, Ordering::SeqCst), ())
    }

    /// The lock was found taken once more after the stream was marked contended.
    pub closed spec fn contended(&self) -> bool {
        &&& self.marked()
        &&& self.refused()
        &&& call_ensures(
            Self::take_marked,
            (self,),
            None::<Access<'_, StaticState<E::Payload, CAP, SUBS>>>,
        )
    }

    /// The record says what its operation is interested in.
    spec fn interested(&self, index: usize, interest: u8) -> bool {
        call_ensures(
            AtomicU8::store,
            (&self.slot(index).interest, interest, Ordering::Release),
            (),
        )
    }

    /// The waker was registered in that record, once the record had been taken and said what
    /// its operation is interested in.
    pub closed spec fn registered(
        &self,
        index: usize,
        interest: u8,
        waker: &core::task::Waker,
    ) -> bool {
        &&& self.tried(index, true)
        &&& self.interested(index, interest)
        &&& call_ensures(Self::put_waker, (self, index, interest, waker), ())
        &&& call_ensures(
            atomic_waker::AtomicWaker::register,
            (&self.slot(index).waker, waker),
            (),
        )
    }

    /// That record was tried for, and it was free if `taken`.
    pub closed spec fn tried(&self, index: usize, taken: bool) -> bool {
        exists|found: Result<bool, bool>|
            (found is Ok) == taken && #[trigger] call_ensures(
                AtomicBool::compare_exchange,
                (
                    &self.slot(index).occupied,
                    false,
                    true,
                    Ordering::AcqRel,
                    Ordering::Acquire,
                ),
                found,
            )
    }

    /// Every record was tried for and found in use.
    pub open spec fn crowded(&self) -> bool {
        forall|i: usize| i < WAITERS ==> #[trigger] self.tried(i, false)
    }

    /// The waker that was in that record was taken out.
    spec fn emptied(&self, index: usize) -> bool {
        exists|waker: Option<core::task::Waker>| #[trigger]
            call_ensures(
                atomic_waker::AtomicWaker::take,
                (&self.slot(index).waker,),
                waker,
            )
    }

    /// That record was given back, once the waker that was in it had been taken out.
    pub closed spec fn freed(&self, index: usize) -> bool {
        &&& self.emptied(index)
        &&& call_ensures(Self::vacate, (self, index), ())
        &&& call_ensures(
            AtomicBool::store,
            (&self.slot(index).occupied, false, Ordering::Release),
            (),
        )
    }

    /// The mark of contention was taken, and was there if `contended`.
    pub closed spec fn unmarked(&self, contended: bool) -> bool {
        call_ensures(AtomicBool::swap, (&self.contended, false, Ordering::SeqCst), contended)
    }

    /// The waker of that record was woken, if the stream was contended or the record had an
    /// interest in `changed`.
    spec fn offered(&self, index: usize, changed: u8, contended: bool) -> bool {
        &&& call_ensures(Self::offer, (self, index, changed, contended), ())
        &&& exists|interest: u8|
            #[trigger] call_ensures(
                AtomicU8::load,
                (&self.slot(index).interest, Ordering::Acquire),
                interest,
            ) && (contended || interest & changed != 0 ==> call_ensures(
                atomic_waker::AtomicWaker::wake,
                (&self.slot(index).waker,),
                (),
            ))
    }

    /// Every pending operation with an interest in `changed` was woken, and all of them
    /// after contention.
    spec fn notified(&self, changed: u8) -> bool {
        exists|contended: bool| #[trigger]
            self.unmarked(contended) && forall|i: usize|
                i < WAITERS ==> #[trigger] self.offered(i, changed, contended)
    }

    /// Once an access that found the stream as `before` and left it as `after` had ended,
    /// every pending operation with an interest in `changed` was woken, and all of them after
    /// contention.
    pub closed spec fn told(
        &self,
        before: StaticView<E::Payload>,
        after: StaticView<E::Payload>,
        changed: u8,
    ) -> bool {
        &&& call_ensures(Self::notify, (self, changed, Ghost(before), Ghost(after)), ())
        &&& self.notified(changed)
    }

    /// What the operation of that record is interested in was read.
    pub closed spec fn heeded(&self, index: usize, interest: u8) -> bool {
        call_ensures(
            AtomicU8::load,
            (&self.slot(index).interest, Ordering::Acquire),
            interest,
        )
    }

    /// The waker of that record was woken.
    pub closed spec fn woken(&self, index: usize) -> bool {
        call_ensures(atomic_waker::AtomicWaker::wake, (&self.slot(index).waker,), ())
    }

    /// The interest of that record was read, and its waker woken if the interest is in the
    /// change, or after contention.
    pub open spec fn alerted(&self, index: usize, changed: u8, contended: bool) -> bool {
        exists|interest: u8| #[trigger]
            self.heeded(index, interest) && (contended || interest & changed != 0 ==> self.woken(
                index,
            ))
    }

    /// Whoever is told of a change: the mark of contention is taken, and the waker of every
    /// record, none left out, is woken if the mark was there or the record's interest is in
    /// the change.
    pub proof fn law_told(
        &self,
        before: StaticView<E::Payload>,
        after: StaticView<E::Payload>,
        changed: u8,
    )
        requires
            self.told(before, after, changed),
        ensures
            exists|contended: bool| #[trigger]
                self.unmarked(contended) && forall|i: usize|
                    i < WAITERS ==> #[trigger] self.alerted(i, changed, contended),
    {
        let contended = choose|contended: bool| #[trigger]
            self.unmarked(contended) && forall|i: usize|
                i < WAITERS ==> #[trigger] self.offered(i, changed, contended);
        assert forall|i: usize| i < WAITERS implies #[trigger] self.alerted(
            i,
            changed,
            contended,
        ) by {
            assert(self.offered(i, changed, contended));
            let interest = choose|interest: u8|
                #[trigger] call_ensures(
                    AtomicU8::load,
                    (&self.slot(i).interest, Ordering::Acquire),
                    interest,
                ) && (contended || interest & changed != 0 ==> call_ensures(
                    atomic_waker::AtomicWaker::wake,
                    (&self.slot(i).waker,),
                    (),
                ));
            assert(self.heeded(i, interest));
        }
    }

    /// A publication is one access to the stream, which it leaves with one more publication at
    /// the end if it is accepted, and as it was if not. Unless wakeups are left for later,
    /// all that has something new is told, and receivers of what was accepted.
    pub proof fn law_sends(
        &self,
        value: E::Payload,
        deferred: bool,
        result: Result<(), TrySendError<E::Payload>>,
    )
        requires
            self.sends(value, deferred, result),
        ensures
            exists|before: StaticView<E::Payload>, after: StaticView<E::Payload>|
                {
                    let changed = if result is Ok {
                        before.changed | 2
                    } else {
                        before.changed
                    };
                    &&& #[trigger] self.visited(before, after)
                    &&& result is Ok <==> before.send_error(CAP as nat, value) is None
                    &&& result is Err ==> result->Err_0 == before.send_error(
                        CAP as nat,
                        value,
                    )->0
                    &&& after.history == if result is Ok {
                        before.history.push(value)
                    } else {
                        before.history
                    }
                    &&& after.start == before.start
                    &&& after.cursors == before.cursors
                    &&& after.closed == before.closed
                    &&& after.next_generation == before.next_generation
                    &&& after.changed == if deferred {
                        changed
                    } else {
                        0
                    }
                    &&& !deferred ==> self.told(before, after, changed)
                },
    {
        let (before, after) = choose|
            before: StaticView<E::Payload>,
            after: StaticView<E::Payload>,
        | #[trigger]
            self.visited(before, after) && result == sent(before, CAP as nat, value) && after
                == before.attempted(CAP as nat, value).noticed(!deferred) && (deferred
                || self.told(before, after, before.attempted(CAP as nat, value).changed));
        assert(self.visited(before, after));
    }

    /// A receive is one access to the stream, which gets what the receiver gets next of it and
    /// leaves the stream without that for it. Unless wakeups are left for later, all that has
    /// something new is told, and publishers if something was received.
    pub proof fn law_receives(
        &self,
        key: SubscriberKey,
        deferred: bool,
        result: Result<Option<StreamItem<PayloadValue<E::Payload>>>, ReceiveError>,
    )
        requires
            self.receives(key, deferred, result),
        ensures
            exists|before: StaticView<E::Payload>, after: StaticView<E::Payload>|
                {
                    let taken = before.take(CAP as nat, key);
                    &&& #[trigger] self.visited(before, after)
                    &&& result == before.next_item(CAP as nat, key)
                    &&& after.history == before.history
                    &&& after.start == before.start
                    &&& after.cursors == taken.cursors
                    &&& after.closed == before.closed
                    &&& after.changed == if deferred {
                        taken.changed
                    } else {
                        0
                    }
                    &&& !deferred ==> self.told(before, after, taken.changed)
                },
    {
        let (before, after) = choose|
            before: StaticView<E::Payload>,
            after: StaticView<E::Payload>,
        | #[trigger]
            self.visited(before, after) && result == before.next_item(CAP as nat, key) && after
                == before.take(CAP as nat, key).noticed(!deferred) && (deferred || self.told(
                before,
                after,
                before.take(CAP as nat, key).changed,
            ));
        assert(self.visited(before, after));
    }

    /// A subscription is one access to the stream, which it leaves with a receiver in a slot that
    /// was free, of that role and at the tail, or as it was if it is refused one. All that has
    /// something new is told.
    pub proof fn law_subscribes(
        &self,
        role: SubscriptionRole,
        result: Result<StaticReceiver<'_, E, CAP, SUBS, WAITERS>, TopicError>,
    )
        requires
            self.subscribes(role, result),
        ensures
            exists|before: StaticView<E::Payload>, after: StaticView<E::Payload>|
                {
                    let index = result->Ok_0.key().index as int;
                    &&& #[trigger] self.visited(before, after)
                    &&& result is Err <==> before.subscribe_error() is Some
                    &&& result is Err ==> before.subscribe_error() == Some(result->Err_0)
                        && after.cursors == before.cursors
                    &&& result is Ok ==> {
                        &&& result->Ok_0.stream() == self
                        &&& 0 <= index < before.cursors.len()
                        &&& before.cursors[index] is None
                        &&& after.cursors.len() == before.cursors.len()
                        &&& after.cursors[index] is Some
                        &&& after.cursors[index]->0.generation == result->Ok_0.key().generation
                        &&& after.cursors[index]->0.next == before.tail()
                        &&& after.cursors[index]->0.role == role
                        &&& forall|i: int|
                            0 <= i < before.cursors.len() && i != index
                                ==> #[trigger] after.cursors[i] == before.cursors[i]
                    }
                    &&& after.history == before.history
                    &&& after.start == before.start
                    &&& after.closed == before.closed
                    &&& after.changed == 0
                    &&& self.told(before, after, before.changed)
                },
    {
        let (before, after) = choose|
            before: StaticView<E::Payload>,
            after: StaticView<E::Payload>,
        | #[trigger]
            self.visited(before, after) && match before.subscribe_error() {
                Some(error) => {
                    &&& result is Err
                    &&& result->Err_0 == error
                    &&& after == before.noticed(true)
                    &&& self.told(before, after, before.changed)
                },
                None => {
                    &&& result is Ok
                    &&& result->Ok_0.stream() == self
                    &&& result->Ok_0.key().index == before.free_slot(0)->0
                    &&& result->Ok_0.key().generation == before.next_generation
                    &&& after == before.subscribe(role).noticed(true)
                    &&& self.told(before, after, before.subscribe(role).changed)
                },
            };
        assert(self.visited(before, after));
        if before.subscribe_error() is None {
            crate::static_laws::lemma_first_free(before, 0);
        }
    }

    /// An attempt of a waiting publication is one access to the stream. It is over exactly if the
    /// publication is accepted or cannot be any more, and leaves the stream as a publication
    /// does; all that has something new is told.
    pub proof fn law_send_steps(
        &self,
        value: E::Payload,
        progress: Progress<Result<(), SendError<E::Payload>>>,
    )
        requires
            self.send_steps(value, progress),
        ensures
            exists|before: StaticView<E::Payload>, after: StaticView<E::Payload>|
                {
                    let error = before.send_error(CAP as nat, value);
                    let sent = progress == Progress::Ready(Ok::<(), SendError<E::Payload>>(()));
                    &&& #[trigger] self.visited(before, after)
                    &&& sent <==> error is None
                    &&& progress is Pending <==> error == Some(TrySendError::Full(value))
                    &&& progress == Progress::Ready(
                        Err::<(), SendError<E::Payload>>(SendError::Closed(value)),
                    ) <==> error == Some(TrySendError::Closed(value))
                    &&& progress == Progress::Ready(
                        Err::<(), SendError<E::Payload>>(SendError::Revoked(value)),
                    ) <==> error == Some(TrySendError::Revoked(value))
                    &&& after.history == if sent {
                        before.history.push(value)
                    } else {
                        before.history
                    }
                    &&& after.cursors == before.cursors
                    &&& after.closed == before.closed
                    &&& after.changed == 0
                    &&& self.told(
                        before,
                        after,
                        if sent {
                            before.changed | 2
                        } else {
                            before.changed
                        },
                    )
                },
    {
        let (before, after) = choose|
            before: StaticView<E::Payload>,
            after: StaticView<E::Payload>,
        | #[trigger]
            self.visited(before, after) && progress == send_progress(before, CAP as nat, value)
                && after == before.attempted(CAP as nat, value).noticed(true) && self.told(
                before,
                after,
                before.attempted(CAP as nat, value).changed,
            );
        assert(self.visited(before, after));
    }

    /// An attempt of a waiting receive is one access to the stream. It is over exactly if there is
    /// something to receive or nothing will be, and leaves the stream as a receive does; all that
    /// has something new is told.
    pub proof fn law_receive_steps(
        &self,
        key: SubscriberKey,
        progress: Progress<Result<StreamItem<PayloadValue<E::Payload>>, ReceiveError>>,
    )
        requires
            self.receive_steps(key, progress),
        ensures
            exists|before: StaticView<E::Payload>, after: StaticView<E::Payload>|
                {
                    let item = before.next_item(CAP as nat, key);
                    let taken = before.take(CAP as nat, key);
                    &&& #[trigger] self.visited(before, after)
                    &&& progress is Pending <==> item is Ok && item->Ok_0 is None
                    &&& progress matches Progress::Ready(Ok(got)) ==> item is Ok && item->Ok_0
                        == Some(got)
                    &&& progress matches Progress::Ready(Err(error)) ==> item is Err
                        && item->Err_0 == error
                    &&& after.history == before.history
                    &&& after.cursors == taken.cursors
                    &&& after.closed == before.closed
                    &&& after.changed == 0
                    &&& self.told(before, after, taken.changed)
                },
    {
        let (before, after) = choose|
            before: StaticView<E::Payload>,
            after: StaticView<E::Payload>,
        | #[trigger]
            self.visited(before, after) && progress == receive_progress(before, CAP as nat, key)
                && after == before.take(CAP as nat, key).noticed(true) && self.told(
                before,
                after,
                before.take(CAP as nat, key).changed,
            );
        assert(self.visited(before, after));
    }

    /// Wakes every pending operation with an interest in `changed`, and all of them
    /// after contention. No access is held meanwhile.
    fn notify(
        &self,
        changed: u8,
        before: Ghost<StaticView<E::Payload>>,
        after: Ghost<StaticView<E::Payload>>,
    )
        requires
            self.visited(before@, after@),
        ensures
            self.notified(changed),
    {
        let contended = self.contended.swap(false, Ordering::SeqCst);
        assert(self.unmarked(contended));
        let mut index: usize = 0;
        while index < WAITERS
            invariant
                index <= WAITERS,
                self.unmarked(contended),
                forall|i: usize| i < index ==> #[trigger] self.offered(i, changed, contended),
            decreases WAITERS - index,
        {
            self.offer(index, changed, contended);
            index += 1;
        }
    }

    /// Wakes the operation of one record, if it has an interest in `changed` or the stream
    /// was contended.
    fn offer(&self, index: usize, changed: u8, contended: bool)
        requires
            index < WAITERS,
            self.unmarked(contended),
        ensures
            exists|interest: u8|
                #[trigger] call_ensures(
                    AtomicU8::load,
                    (&self.slot(index).interest, Ordering::Acquire),
                    interest,
                ) && (contended || interest & changed != 0 ==> call_ensures(
                    atomic_waker::AtomicWaker::wake,
                    (&self.slot(index).waker,),
                    (),
                )),
    {
        let interest = self.waiters[index].interest.load(Ordering::Acquire);
        if contended || interest & changed != 0 {
            self.waiters[index].waker.wake();
        }
    }

    /// Registers a waker, in a record of its own.
    fn register(&self, id: &mut Option<usize>, interest: u8, waker: &core::task::Waker) -> (result:
        Result<(), ()>)
        requires
            *old(id) matches Some(index) ==> index < WAITERS && self.tried(index, true),
        ensures
            *old(id) is Some ==> result is Ok && *final(id) == *old(id),
            result is Ok ==> {
                &&& *final(id) matches Some(index)
                &&& index < WAITERS
                &&& self.tried(index, true)
                &&& self.registered(index, interest, waker)
            },
            result is Err ==> *final(id) is None && self.crowded(),
    {
        let index = match *id {
            Some(index) => index,
            None => {
                match self.occupy() {
                    Some(index) => {
                        *id = Some(index);
                        index
                    },
                    None => {
                        return Err(());
                    },
                }
            },
        };
        self.waiters[index].interest.store(interest, Ordering::Release);
        self.put_waker(index, interest, waker);
        Ok(())
    }

    /// Puts a waker into a record that says what its operation is interested in.
    fn put_waker(&self, index: usize, interest: u8, waker: &core::task::Waker)
        requires
            index < WAITERS,
            self.tried(index, true),
            self.interested(index, interest),
        ensures
            call_ensures(
                atomic_waker::AtomicWaker::register,
                (&self.slot(index).waker, waker),
                (),
            ),
    {
        self.waiters[index].waker.register(waker);
    }

    /// Takes the first record that is free when it is tried. Which ones are depends on
    /// other threads.
    fn occupy(&self) -> (found: Option<usize>)
        ensures
            match found {
                Some(index) => index < WAITERS && self.tried(index, true),
                None => self.crowded(),
            },
    {
        let mut index: usize = 0;
        while index < WAITERS
            invariant
                index <= WAITERS,
                forall|i: usize| i < index ==> #[trigger] self.tried(i, false),
            decreases WAITERS - index,
        {
            let found = self.waiters[index].occupied.compare_exchange(
                false,
                true,
                Ordering::AcqRel,
                Ordering::Acquire,
            );
            assert(self.tried(index, found is Ok));
            if found.is_ok() {
                return Some(index);
            }
            index += 1;
        }
        None
    }

    /// Gives a record back, without the waker that was in it.
    fn cancel(&self, id: Option<usize>)
        requires
            id matches Some(index) ==> index < WAITERS,
        ensures
            id matches Some(index) ==> self.freed(index),
    {
        match id {
            Some(index) => {
                {
                    let waker = self.waiters[index].waker.take();
                    assert(call_ensures(
                        atomic_waker::AtomicWaker::take,
                        (&self.slot(index).waker,),
                        waker,
                    ));
                }
                self.vacate(index);
            },
            None => {},
        }
    }

    /// Gives back a record whose waker was taken out.
    fn vacate(&self, index: usize)
        requires
            index < WAITERS,
            self.emptied(index),
        ensures
            call_ensures(
                AtomicBool::store,
                (&self.slot(index).occupied, false, Ordering::Release),
                (),
            ),
    {
        self.waiters[index].occupied.store(false, Ordering::Release);
    }

    /// One attempt of a waiting publication comes to `progress`: what some access to the
    /// stream makes of it, or nothing yet, where the lock was found taken.
    pub open spec fn send_attempts(
        &self,
        value: E::Payload,
        progress: Progress<Result<(), SendError<E::Payload>>>,
    ) -> bool {
        ||| progress is Pending && self.contended()
        ||| self.send_steps(value, progress)
    }

    /// An attempt of a waiting publication came to `progress`.
    pub closed spec fn send_tried(
        &self,
        value: E::Payload,
        progress: Progress<Result<(), SendError<E::Payload>>>,
    ) -> bool {
        &&& self.send_attempts(value, progress)
        &&& call_ensures(Self::attempt_send, (self, value), progress)
    }

    /// An attempt of a waiting publication came to `progress`, made after its waker had been
    /// registered.
    pub closed spec fn send_retried(
        &self,
        value: E::Payload,
        index: usize,
        waker: &core::task::Waker,
        progress: Progress<Result<(), SendError<E::Payload>>>,
    ) -> bool {
        &&& self.registered(index, INTEREST_SEND, waker)
        &&& self.send_attempts(value, progress)
        &&& call_ensures(Self::retry_send, (self, value, index, waker), progress)
    }

    /// One [`send_step`], unless other threads keep the stream contended.
    fn attempt_send(&self, value: E::Payload) -> (progress: Progress<
        Result<(), SendError<E::Payload>>,
    >)
        ensures
            self.send_attempts(value, progress),
    {
        match self.acquire() {
            Some(access) => {
                let mut access = access;
                let (result, changed) = send_step(access.held(), value);
                let ghost before = access.found()@;
                let ghost after = access.value()@;
                self.leave(access);
                self.notify(changed, Ghost(before), Ghost(after));
                assert(self.visited(before, after));
                result
            },
            None => Progress::Pending,
        }
    }

    /// A further attempt, of a publication whose waker is registered.
    fn retry_send(&self, value: E::Payload, index: usize, waker: &core::task::Waker) -> (progress:
        Progress<Result<(), SendError<E::Payload>>>)
        requires
            self.registered(index, INTEREST_SEND, waker),
        ensures
            self.send_attempts(value, progress),
    {
        self.attempt_send(value)
    }

    /// One attempt of a waiting receive comes to `progress`: what some access to the stream
    /// makes of it, or nothing yet, where the lock was found taken.
    pub open spec fn receive_attempts(
        &self,
        key: SubscriberKey,
        progress: Progress<Result<StreamItem<PayloadValue<E::Payload>>, ReceiveError>>,
    ) -> bool {
        ||| progress is Pending && self.contended()
        ||| self.receive_steps(key, progress)
    }

    /// An attempt of a waiting receive came to `progress`.
    pub closed spec fn receive_tried(
        &self,
        key: SubscriberKey,
        progress: Progress<Result<StreamItem<PayloadValue<E::Payload>>, ReceiveError>>,
    ) -> bool {
        &&& self.receive_attempts(key, progress)
        &&& call_ensures(Self::attempt_receive, (self, key), progress)
    }

    /// An attempt of a waiting receive came to `progress`, made after its waker had been
    /// registered.
    pub closed spec fn receive_retried(
        &self,
        key: SubscriberKey,
        index: usize,
        waker: &core::task::Waker,
        progress: Progress<Result<StreamItem<PayloadValue<E::Payload>>, ReceiveError>>,
    ) -> bool {
        &&& self.registered(index, INTEREST_RECEIVE, waker)
        &&& self.receive_attempts(key, progress)
        &&& call_ensures(Self::retry_receive, (self, key, index, waker), progress)
    }

    /// One [`receive_step`], unless other threads keep the stream contended.
    fn attempt_receive(&self, key: SubscriberKey) -> (progress: Progress<
        Result<StreamItem<PayloadValue<E::Payload>>, ReceiveError>,
    >)
        ensures
            self.receive_attempts(key, progress),
    {
        match self.acquire() {
            Some(access) => {
                let mut access = access;
                let (result, changed) = receive_step(access.held(), key);
                let ghost before = access.found()@;
                let ghost after = access.value()@;
                self.leave(access);
                self.notify(changed, Ghost(before), Ghost(after));
                assert(self.visited(before, after));
                result
            },
            None => Progress::Pending,
        }
    }

    /// A further attempt, of a receive whose waker is registered.
    fn retry_receive(&self, key: SubscriberKey, index: usize, waker: &core::task::Waker) -> (progress:
        Progress<Result<StreamItem<PayloadValue<E::Payload>>, ReceiveError>>)
        requires
            self.registered(index, INTEREST_RECEIVE, waker),
        ensures
            self.receive_attempts(key, progress),
    {
        self.attempt_receive(key)
    }

    /// Dispatches wakeups deferred by strict operations. May wait and run callbacks.
    pub fn maintain(&self)
        ensures
            exists|before: StaticView<E::Payload>, after: StaticView<E::Payload>| #[trigger]
                self.visited(before, after) && after == before.noticed(true) && self.told(
                    before,
                    after,
                    before.changed,
                ),
    {
        let mut access = self.state.lock();
        let changed = access.held().take_changed();
        let ghost before = access.found()@;
        let ghost after = access.value()@;
        self.leave(access);
        self.notify(changed, Ghost(before), Ghost(after));
        assert(self.visited(before, after));
    }

    /// Borrows a sender. The stream owner controls who receives this handle.
    pub fn sender(&self) -> (sender: StaticSender<'_, E, CAP, SUBS, WAITERS>)
        ensures
            sender.stream() == self,
    {
        StaticSender { stream: self }
    }

    /// Starts a subscription at the current tail, without historical replay.
    ///
    /// # Errors
    ///
    /// Returns [`TopicError::Capacity`] if subscriber slots or generations are
    /// exhausted, [`TopicError::Revoked`] after revocation, or [`TopicError::Denied`]
    /// after another closure.
    pub fn subscribe(&self, role: SubscriptionRole) -> (result: Result<
        StaticReceiver<'_, E, CAP, SUBS, WAITERS>,
        TopicError,
    >)
        ensures
            self.subscribes(role, result),
    {
        let mut access = self.state.lock();
        let state = access.held();
        let result = state.subscribe(role);
        let changed = state.take_changed();
        let ghost before = access.found()@;
        let ghost after = access.value()@;
        self.leave(access);
        self.notify(changed, Ghost(before), Ghost(after));
        assert(self.visited(before, after));
        match result {
            Ok(key) => Ok(StaticReceiver { stream: self, key }),
            Err(error) => Err(error),
        }
    }

    /// Terminates the stream, clears retained data, and wakes pending work.
    /// The first close reason is retained.
    pub fn close(&self, reason: CloseReason)
        ensures
            exists|before: StaticView<E::Payload>, after: StaticView<E::Payload>| #[trigger]
                self.visited(before, after) && after == before.close(reason).noticed(true)
                    && self.told(before, after, before.close(reason).changed),
    {
        let mut access = self.state.lock();
        let state = access.held();
        state.close(reason);
        let changed = state.take_changed();
        let ghost before = access.found()@;
        let ghost after = access.value()@;
        self.leave(access);
        self.notify(changed, Ghost(before), Ghost(after));
        assert(self.visited(before, after));
    }
}

/// A borrowed publication capability for one static stream.
#[verifier::reject_recursive_types(E)]
#[verifier::reject_recursive_types(CAP)]
#[verifier::reject_recursive_types(SUBS)]
pub struct StaticSender<
    'a,
    E: EventSpec,
    const CAP: usize,
    const SUBS: usize,
    const WAITERS: usize,
> where E::Payload: Copy {
    stream: &'a StaticStream<E, CAP, SUBS, WAITERS>,
}

impl<
    'a,
    E: EventSpec,
    const CAP: usize,
    const SUBS: usize,
    const WAITERS: usize,
> StaticSender<'a, E, CAP, SUBS, WAITERS> where E::Payload: Copy {
    /// The stream that it publishes into.
    pub closed spec fn stream(self) -> &'a StaticStream<E, CAP, SUBS, WAITERS> {
        self.stream
    }

    /// Attempts admission without waiting, allocation, or wake callbacks.
    /// The stream owner must service [`StaticStream::maintain`] for pending operations.
    ///
    /// # Errors
    ///
    /// Returns the original payload on contention, capacity, or lifecycle rejection.
    pub fn try_send(&self, payload: E::Payload) -> (result: Result<(), TrySendError<E::Payload>>)
        ensures
            ({
                ||| self.stream().refused() && result == Err::<(), TrySendError<E::Payload>>(
                    TrySendError::Contended(payload),
                )
                ||| self.stream().sends(payload, true, result)
            }),
    {
        let attempt = try_take(&self.stream.state);
        assert(attempt.of() == &self.stream.state);
        match attempt.into_access() {
            Some(access) => {
                let mut access = access;
                let result = access.held().send_now(payload);
                self.stream.leave(access);
                assert(self.stream().visited(access.found()@, access.value()@));
                result
            },
            None => Err(TrySendError::Contended(payload)),
        }
    }

    /// Attempts admission without waiting for receiver capacity.
    ///
    /// # Errors
    ///
    /// Returns the original payload if required retention fills the stream, the stream
    /// closes or is revoked, or its sequence cannot advance.
    pub fn send_now(&self, payload: E::Payload) -> (result: Result<(), TrySendError<E::Payload>>)
        ensures
            self.stream().sends(payload, false, result),
    {
        let mut access = self.stream.state.lock();
        let state = access.held();
        let result = state.send_now(payload);
        let changed = state.take_changed();
        let ghost before = access.found()@;
        let ghost after = access.value()@;
        self.stream.leave(access);
        self.stream.notify(changed, Ghost(before), Ghost(after));
        assert(self.stream().visited(before, after));
        result
    }

    /// Starts a publication that waits for admission, using a bounded waiter record.
    pub fn send(&self, payload: E::Payload) -> (pending: StaticSendFuture<
        'a,
        E,
        CAP,
        SUBS,
        WAITERS,
    >)
        ensures
            pending.stream() == self.stream(),
            pending.payload() == Some(payload),
            pending.waiter() is None,
            pending.wf(),
    {
        StaticSendFuture { stream: self.stream, payload: Some(payload), waiter: None }
    }
}

impl<
    'b,
    E: EventSpec,
    const CAP: usize,
    const SUBS: usize,
    const WAITERS: usize,
> EventSender<E> for StaticSender<'b, E, CAP, SUBS, WAITERS> where E::Payload: Copy {
    type Prepared = StaticPublication<'b, E, CAP, SUBS, WAITERS>;

    type Pending = StaticSendFuture<'b, E, CAP, SUBS, WAITERS>;

    open spec fn same(&self, other: &Self) -> bool {
        self.stream() == other.stream()
    }

    fn duplicate(&self) -> (copy: Self) {
        StaticSender { stream: self.stream }
    }

    fn prepare(&self, payload: E::Payload) -> (result: Result<
        Self::Prepared,
        TrySendError<E::Payload>,
    >)
        ensures
            result matches Ok(prepared) && prepared.stream() == self.stream(),
    {
        Ok(StaticPublication { sender: StaticSender { stream: self.stream }, value: payload })
    }

    fn send_now(&self, payload: E::Payload) -> (result: Result<(), TrySendError<E::Payload>>)
        ensures
            self.stream().sends(payload, false, result),
    {
        StaticSender::send_now(self, payload)
    }

    fn send(&self, payload: E::Payload) -> (pending: Self::Pending)
        ensures
            pending.stream() == self.stream(),
            pending.waiter() is None,
    {
        StaticSender::send(self, payload)
    }
}

impl<'a, E: EventSpec, const CAP: usize, const SUBS: usize, const WAITERS: usize> Port
    for StaticSender<'a, E, CAP, SUBS, WAITERS> where E::Payload: Copy {

}

impl<'a, E: EventSpec, const CAP: usize, const SUBS: usize, const WAITERS: usize> EventPort<E>
    for StaticSender<'a, E, CAP, SUBS, WAITERS> where E::Payload: Copy {
    type Sender = StaticSender<'a, E, CAP, SUBS, WAITERS>;

    open spec fn retained(&self) -> Self::Sender {
        *self
    }

    fn event_sender(&self) -> (sender: &Self::Sender) {
        self
    }
}

/// A static payload prepared without allocation. Admission still validates stream state.
#[must_use]
#[verifier::reject_recursive_types(E)]
#[verifier::reject_recursive_types(CAP)]
#[verifier::reject_recursive_types(SUBS)]
pub struct StaticPublication<
    'a,
    E: EventSpec,
    const CAP: usize,
    const SUBS: usize,
    const WAITERS: usize,
> where E::Payload: Copy {
    sender: StaticSender<'a, E, CAP, SUBS, WAITERS>,
    value: E::Payload,
}

impl<
    'a,
    E: EventSpec,
    const CAP: usize,
    const SUBS: usize,
    const WAITERS: usize,
> StaticPublication<'a, E, CAP, SUBS, WAITERS> where E::Payload: Copy {
    /// The stream that it is prepared for.
    pub closed spec fn stream(self) -> &'a StaticStream<E, CAP, SUBS, WAITERS> {
        self.sender.stream
    }
}

/// A refusal of a payload, and the refusal of what it was prepared as.
pub open spec fn refused_as<T, S>(
    attempt: Result<(), TrySendError<T>>,
    prepared: S,
) -> Result<(), TrySendError<S>> {
    match attempt {
        Ok(_) => Ok(()),
        Err(error) => Err(error.with_payload(prepared)),
    }
}

/// A prepared payload is refused exactly if the payload is, for the same reason, and comes back
/// as it was prepared.
pub proof fn law_refused_as<T, S>(attempt: Result<(), TrySendError<T>>, prepared: S)
    ensures
        refused_as(attempt, prepared) is Ok <==> attempt is Ok,
        attempt matches Err(error) ==> {
            let kept = refused_as(attempt, prepared)->Err_0;
            &&& kept.payload() == prepared
            &&& error is Full <==> kept is Full
            &&& error is Contended <==> kept is Contended
            &&& error is MaintenanceRequired <==> kept is MaintenanceRequired
            &&& error is Closed <==> kept is Closed
            &&& error is Revoked <==> kept is Revoked
            &&& error is WaitersFull <==> kept is WaitersFull
            &&& error is SequenceExhausted <==> kept is SequenceExhausted
        },
{
}

impl<'a, E: EventSpec, const CAP: usize, const SUBS: usize, const WAITERS: usize> PreparedSend<E>
    for StaticPublication<'a, E, CAP, SUBS, WAITERS> where E::Payload: Copy {
    closed spec fn prepared(&self) -> E::Payload {
        self.value
    }

    fn try_send(self) -> (result: Result<(), TrySendError<Self>>)
        ensures
            ({
                ||| self.stream().refused() && result == Err::<(), TrySendError<Self>>(
                    TrySendError::Contended(self),
                )
                ||| exists|attempt: Result<(), TrySendError<E::Payload>>|
                    result == refused_as(attempt, self) && #[trigger] self.stream().sends(
                        self.prepared(),
                        true,
                        attempt,
                    )
            }),
    {
        let StaticPublication { sender, value } = self;
        let attempt = sender.try_send(value);
        let result = match attempt {
            Ok(()) => Ok(()),
            Err(error) => {
                let kept = StaticPublication { sender, value };
                assert(kept == self);
                Err(
                    match error {
                        TrySendError::Full(_) => TrySendError::Full(kept),
                        TrySendError::Contended(_) => TrySendError::Contended(kept),
                        TrySendError::MaintenanceRequired(_) => TrySendError::MaintenanceRequired(
                            kept,
                        ),
                        TrySendError::Closed(_) => TrySendError::Closed(kept),
                        TrySendError::Revoked(_) => TrySendError::Revoked(kept),
                        TrySendError::WaitersFull(_) => TrySendError::WaitersFull(kept),
                        TrySendError::SequenceExhausted(_) => TrySendError::SequenceExhausted(kept),
                    },
                )
            },
        };
        proof {
            assert(result == refused_as(attempt, self));
            if attempt != Err::<(), TrySendError<E::Payload>>(TrySendError::Contended(value)) {
                assert(self.stream().sends(self.prepared(), true, attempt));
            }
        }
        result
    }

    fn into_inner(self) -> (payload: E::Payload) {
        self.value
    }
}

/// A subscription to caller-owned stream storage. [`Self::detach`] ends it.
#[verifier::reject_recursive_types(E)]
#[verifier::reject_recursive_types(CAP)]
#[verifier::reject_recursive_types(SUBS)]
pub struct StaticReceiver<
    'a,
    E: EventSpec,
    const CAP: usize,
    const SUBS: usize,
    const WAITERS: usize,
> where E::Payload: Copy {
    stream: &'a StaticStream<E, CAP, SUBS, WAITERS>,
    key: SubscriberKey,
}

impl<
    'a,
    E: EventSpec,
    const CAP: usize,
    const SUBS: usize,
    const WAITERS: usize,
> StaticReceiver<'a, E, CAP, SUBS, WAITERS> where E::Payload: Copy {
    /// The stream that it receives from.
    pub closed spec fn stream(self) -> &'a StaticStream<E, CAP, SUBS, WAITERS> {
        self.stream
    }

    /// Names the subscription in its stream.
    pub closed spec fn key(self) -> SubscriberKey {
        self.key
    }

    /// Receives without waiting, allocation, cleanup, or wake callbacks.
    /// The stream owner must service [`StaticStream::maintain`] for pending operations.
    ///
    /// # Errors
    ///
    /// Returns contention or the stream's termination reason.
    pub fn try_recv(&self) -> (result: Result<
        Option<StreamItem<PayloadValue<E::Payload>>>,
        ReceiveError,
    >)
        ensures
            ({
                ||| self.stream().refused() && result == Err::<
                    Option<StreamItem<PayloadValue<E::Payload>>>,
                    ReceiveError,
                >(ReceiveError::Contended)
                ||| self.stream().receives(self.key(), true, result)
            }),
    {
        let attempt = try_take(&self.stream.state);
        assert(attempt.of() == &self.stream.state);
        match attempt.into_access() {
            Some(access) => {
                let mut access = access;
                let result = access.held().recv_now(self.key);
                self.stream.leave(access);
                assert(self.stream().visited(access.found()@, access.value()@));
                result
            },
            None => Err(ReceiveError::Contended),
        }
    }

    /// Receives the next retained value or missing range.
    ///
    /// # Errors
    ///
    /// Returns [`ReceiveError::Closed`] with the stream's termination reason.
    pub fn recv_now(&self) -> (result: Result<
        Option<StreamItem<PayloadValue<E::Payload>>>,
        ReceiveError,
    >)
        ensures
            self.stream().receives(self.key(), false, result),
    {
        let mut access = self.stream.state.lock();
        let state = access.held();
        let result = state.recv_now(self.key);
        let changed = state.take_changed();
        let ghost before = access.found()@;
        let ghost after = access.value()@;
        self.stream.leave(access);
        self.stream.notify(changed, Ghost(before), Ghost(after));
        assert(self.stream().visited(before, after));
        result
    }

    /// Starts a receive that waits for data, a gap, or termination.
    #[must_use]
    pub fn recv(&self) -> (pending: StaticReceiveFuture<'a, E, CAP, SUBS, WAITERS>)
        ensures
            pending.stream() == self.stream(),
            pending.key() == self.key(),
            pending.waiter() is None,
            pending.wf(),
    {
        StaticReceiveFuture { stream: self.stream, key: self.key, waiter: None }
    }

    /// Ends the subscription and wakes publications that it held back.
    pub fn detach(self)
        ensures
            exists|before: StaticView<E::Payload>, after: StaticView<E::Payload>| #[trigger]
                self.stream().visited(before, after) && after == before.detach(
                    self.key(),
                ).noticed(true) && self.stream().told(
                    before,
                    after,
                    before.detach(self.key()).changed,
                ),
    {
        let mut access = self.stream.state.lock();
        let state = access.held();
        state.detach(self.key);
        let changed = state.take_changed();
        let ghost before = access.found()@;
        let ghost after = access.value()@;
        self.stream.leave(access);
        self.stream.notify(changed, Ghost(before), Ghost(after));
        assert(self.stream().visited(before, after));
    }
}

impl<'a, E: EventSpec, const CAP: usize, const SUBS: usize, const WAITERS: usize> Port
    for StaticReceiver<'a, E, CAP, SUBS, WAITERS> where E::Payload: Copy {

}

impl<'a, E: EventSpec, const CAP: usize, const SUBS: usize, const WAITERS: usize> EventReceiver<E>
    for StaticReceiver<'a, E, CAP, SUBS, WAITERS> where E::Payload: Copy {
    type Value = PayloadValue<E::Payload>;

    type Pending = StaticReceiveFuture<'a, E, CAP, SUBS, WAITERS>;

    fn event_recv(&self) -> (pending: Self::Pending)
        ensures
            pending.stream() == self.stream(),
            pending.key() == self.key(),
            pending.waiter() is None,
    {
        self.recv()
    }

    fn event_try_recv(&self) -> (result: Result<Option<StreamItem<Self::Value>>, ReceiveError>)
        ensures
            ({
                ||| self.stream().refused() && result == Err::<
                    Option<StreamItem<PayloadValue<E::Payload>>>,
                    ReceiveError,
                >(ReceiveError::Contended)
                ||| self.stream().receives(self.key(), true, result)
            }),
    {
        self.try_recv()
    }

    fn event_recv_now(&self) -> (result: Result<Option<StreamItem<Self::Value>>, ReceiveError>)
        ensures
            self.stream().receives(self.key(), false, result),
    {
        self.recv_now()
    }
}

/// A pending static publication. [`Self::cancel`] removes only its waiter and returns
/// the unaccepted payload. An error returns that payload to the caller.
#[verifier::reject_recursive_types(E)]
#[verifier::reject_recursive_types(CAP)]
#[verifier::reject_recursive_types(SUBS)]
pub struct StaticSendFuture<
    'a,
    E: EventSpec,
    const CAP: usize,
    const SUBS: usize,
    const WAITERS: usize,
> where E::Payload: Copy {
    stream: &'a StaticStream<E, CAP, SUBS, WAITERS>,
    payload: Option<E::Payload>,
    waiter: Option<usize>,
}

impl<
    'a,
    E: EventSpec,
    const CAP: usize,
    const SUBS: usize,
    const WAITERS: usize,
> StaticSendFuture<'a, E, CAP, SUBS, WAITERS> where E::Payload: Copy {
    /// The stream that it publishes into.
    pub closed spec fn stream(self) -> &'a StaticStream<E, CAP, SUBS, WAITERS> {
        self.stream
    }

    /// The payload that is not accepted yet.
    pub closed spec fn payload(self) -> Option<E::Payload> {
        self.payload
    }

    /// The waiter record in use.
    pub closed spec fn waiter(self) -> Option<usize> {
        self.waiter
    }

    /// The waiter record is one of the stream's that was free and has been taken.
    pub closed spec fn wf(self) -> bool {
        self.waiter matches Some(index) ==> index < WAITERS && self.stream.tried(index, true)
    }

    /// The publication was tried once more with `waker` registered in a record of its own:
    /// the one that it had, or else one that was free.
    pub open spec fn retried(
        self,
        index: usize,
        waker: &core::task::Waker,
        progress: Progress<Result<(), SendError<E::Payload>>>,
    ) -> bool {
        &&& index < WAITERS
        &&& self.waiter() matches Some(had) ==> index == had
        &&& self.stream().tried(index, true)
        &&& self.stream().send_tried(self.payload()->0, Progress::Pending)
        &&& self.stream().send_retried(self.payload()->0, index, waker, progress)
    }

    /// What one poll leaves and returns. A publication that stays pending keeps its
    /// payload, has `waker` in a waiter record, and was tried once more after that; one that
    /// ends gives its payload and its record up, with what the first attempt came to, or the
    /// one after registration, or because no record was free.
    pub open spec fn polled(
        self,
        after: Self,
        waker: &core::task::Waker,
        progress: Progress<Result<(), SendError<E::Payload>>>,
    ) -> bool {
        &&& after.stream() == self.stream()
        &&& match progress {
            Progress::Pending => {
                &&& after.payload() == self.payload()
                &&& after.waiter() matches Some(index) && self.retried(index, waker, progress)
            },
            Progress::Ready(result) => {
                &&& after.payload() is None
                &&& after.waiter() is None
                &&& result matches Err(error) ==> error.payload() == self.payload()->0
                &&& ({
                    ||| {
                        &&& self.stream().send_tried(self.payload()->0, progress)
                        &&& self.waiter() matches Some(index) ==> self.stream().freed(index)
                    }
                    ||| exists|index: usize| #[trigger]
                        self.retried(index, waker, progress) && self.stream().freed(index)
                    ||| {
                        &&& self.waiter() is None
                        &&& self.stream().send_tried(self.payload()->0, Progress::Pending)
                        &&& self.stream().crowded()
                        &&& result == Err::<(), SendError<E::Payload>>(
                            SendError::WaitersFull(self.payload()->0),
                        )
                    }
                })
            },
        }
    }

    /// A publication that stays pending has its payload still, and its waker registered for what
    /// a receive changes, in the record that it had or else in one of its own. One that is over
    /// has neither left; it was accepted by an access to the stream, or gives its payload back
    /// with what an access came to, or because no record was free.
    pub proof fn law_polled(
        self,
        after: Self,
        waker: &core::task::Waker,
        progress: Progress<Result<(), SendError<E::Payload>>>,
    )
        requires
            self.payload() is Some,
            self.polled(after, waker, progress),
        ensures
            after.stream() == self.stream(),
            progress is Pending ==> {
                &&& after.payload() == self.payload()
                &&& after.waiter() is Some
                &&& after.waiter()->0 < WAITERS
                &&& self.waiter() is Some ==> after.waiter() == self.waiter()
                &&& self.stream().registered(after.waiter()->0, 1, waker)
            },
            progress is Ready ==> {
                &&& after.payload() is None
                &&& after.waiter() is None
                &&& self.waiter() matches Some(index) ==> self.stream().freed(index)
            },
            progress matches Progress::Ready(Ok(_)) ==> self.stream().send_steps(
                self.payload()->0,
                progress,
            ),
            progress matches Progress::Ready(Err(error)) ==> {
                &&& error.payload() == self.payload()->0
                &&& self.stream().send_steps(self.payload()->0, progress) || (error is WaitersFull
                    && self.waiter() is None && self.stream().crowded())
            },
    {
    }

    /// Drives the publication. It registers `waker` and tries once more before it reports
    /// that it is pending. A completed publication must not be polled again.
    pub fn poll(&mut self, waker: &core::task::Waker) -> (progress: Progress<
        Result<(), SendError<E::Payload>>,
    >)
        requires
            old(self).wf(),
            old(self).payload() is Some,
        ensures
            final(self).wf(),
            old(self).polled(*final(self), waker, progress),
    {
        let value = self.payload.unwrap();
        let mut progress = self.stream.attempt_send(value);
        if matches!(progress, Progress::Pending) {
            if self.stream.register(&mut self.waiter, INTEREST_SEND, waker).is_err() {
                self.payload = None;
                return Progress::Ready(Err(SendError::WaitersFull(value)));
            }
            let index = self.waiter.unwrap();
            progress = self.stream.retry_send(value, index, waker);
            assert(old(self).retried(index, waker, progress));
        }
        match progress {
            Progress::Pending => Progress::Pending,
            Progress::Ready(result) => {
                self.stream.cancel(self.waiter);
                self.waiter = None;
                self.payload = None;
                Progress::Ready(result)
            },
        }
    }

    /// Gives up the publication and its waiter record.
    pub fn cancel(self) -> (payload: Option<E::Payload>)
        requires
            self.wf(),
        ensures
            payload == self.payload(),
            self.waiter() matches Some(index) ==> self.stream().freed(index),
    {
        self.stream.cancel(self.waiter);
        self.payload
    }
}

impl<'a, E: EventSpec, const CAP: usize, const SUBS: usize, const WAITERS: usize> PendingPublish<E>
    for StaticSendFuture<'a, E, CAP, SUBS, WAITERS> where E::Payload: Copy {
    open spec fn unaccepted(&self) -> Option<E::Payload> {
        self.payload()
    }

    open spec fn sound(&self) -> bool {
        self.wf()
    }

    fn poll(&mut self, waker: &core::task::Waker) -> (progress: Progress<
        Result<(), SendError<E::Payload>>,
    >)
        ensures
            old(self).polled(*final(self), waker, progress),
    {
        StaticSendFuture::poll(self, waker)
    }

    fn cancel(self) -> (payload: Option<E::Payload>)
        ensures
            self.waiter() matches Some(index) ==> self.stream().freed(index),
    {
        StaticSendFuture::cancel(self)
    }
}

/// A pending static receive. Concurrent ones have distinct waiter records.
#[verifier::reject_recursive_types(E)]
#[verifier::reject_recursive_types(CAP)]
#[verifier::reject_recursive_types(SUBS)]
pub struct StaticReceiveFuture<
    'a,
    E: EventSpec,
    const CAP: usize,
    const SUBS: usize,
    const WAITERS: usize,
> where E::Payload: Copy {
    stream: &'a StaticStream<E, CAP, SUBS, WAITERS>,
    key: SubscriberKey,
    waiter: Option<usize>,
}

impl<
    'a,
    E: EventSpec,
    const CAP: usize,
    const SUBS: usize,
    const WAITERS: usize,
> StaticReceiveFuture<'a, E, CAP, SUBS, WAITERS> where E::Payload: Copy {
    /// The stream that it receives from.
    pub closed spec fn stream(self) -> &'a StaticStream<E, CAP, SUBS, WAITERS> {
        self.stream
    }

    /// Names the subscription in its stream.
    pub closed spec fn key(self) -> SubscriberKey {
        self.key
    }

    /// The waiter record in use.
    pub closed spec fn waiter(self) -> Option<usize> {
        self.waiter
    }

    /// The waiter record is one of the stream's that was free and has been taken.
    pub closed spec fn wf(self) -> bool {
        self.waiter matches Some(index) ==> index < WAITERS && self.stream.tried(index, true)
    }

    /// The receive was tried once more with `waker` registered in a record of its own: the
    /// one that it had, or else one that was free.
    pub open spec fn retried(
        self,
        index: usize,
        waker: &core::task::Waker,
        progress: Progress<Result<StreamItem<PayloadValue<E::Payload>>, ReceiveError>>,
    ) -> bool {
        &&& index < WAITERS
        &&& self.waiter() matches Some(had) ==> index == had
        &&& self.stream().tried(index, true)
        &&& self.stream().receive_tried(self.key(), Progress::Pending)
        &&& self.stream().receive_retried(self.key(), index, waker, progress)
    }

    /// What one poll leaves and returns. A receive that stays pending has `waker` in a waiter
    /// record, and was tried once more after that; one that ends gives its record up, with
    /// what the first attempt came to, or the one after registration, or because no record
    /// was free.
    pub open spec fn polled(
        self,
        after: Self,
        waker: &core::task::Waker,
        progress: Progress<Result<StreamItem<PayloadValue<E::Payload>>, ReceiveError>>,
    ) -> bool {
        &&& after.stream() == self.stream()
        &&& after.key() == self.key()
        &&& match progress {
            Progress::Pending => after.waiter() matches Some(index) && self.retried(
                index,
                waker,
                progress,
            ),
            Progress::Ready(result) => {
                &&& after.waiter() is None
                &&& ({
                    ||| {
                        &&& self.stream().receive_tried(self.key(), progress)
                        &&& self.waiter() matches Some(index) ==> self.stream().freed(index)
                    }
                    ||| exists|index: usize| #[trigger]
                        self.retried(index, waker, progress) && self.stream().freed(index)
                    ||| {
                        &&& self.waiter() is None
                        &&& self.stream().receive_tried(self.key(), Progress::Pending)
                        &&& self.stream().crowded()
                        &&& result == Err::<StreamItem<PayloadValue<E::Payload>>, ReceiveError>(
                            ReceiveError::WaitersFull,
                        )
                    }
                })
            },
        }
    }

    /// A receive that stays pending has its waker registered for what a publication changes, in
    /// the record that it had or else in one of its own. One that is over has no record left; it
    /// has what an access to the stream came to, or no record was free.
    pub proof fn law_polled(
        self,
        after: Self,
        waker: &core::task::Waker,
        progress: Progress<Result<StreamItem<PayloadValue<E::Payload>>, ReceiveError>>,
    )
        requires
            self.polled(after, waker, progress),
        ensures
            after.stream() == self.stream(),
            after.key() == self.key(),
            progress is Pending ==> {
                &&& after.waiter() is Some
                &&& after.waiter()->0 < WAITERS
                &&& self.waiter() is Some ==> after.waiter() == self.waiter()
                &&& self.stream().registered(after.waiter()->0, 2, waker)
            },
            progress is Ready ==> {
                &&& after.waiter() is None
                &&& self.waiter() matches Some(index) ==> self.stream().freed(index)
            },
            progress matches Progress::Ready(Ok(_)) ==> self.stream().receive_steps(
                self.key(),
                progress,
            ),
            progress matches Progress::Ready(Err(error)) ==> self.stream().receive_steps(
                self.key(),
                progress,
            ) || (error is WaitersFull && self.waiter() is None && self.stream().crowded()),
    {
    }

    /// Drives the receive. It registers `waker` and tries once more before it reports that
    /// it is pending.
    pub fn poll(&mut self, waker: &core::task::Waker) -> (progress: Progress<
        Result<StreamItem<PayloadValue<E::Payload>>, ReceiveError>,
    >)
        requires
            old(self).wf(),
        ensures
            final(self).wf(),
            old(self).polled(*final(self), waker, progress),
    {
        let mut progress = self.stream.attempt_receive(self.key);
        if matches!(progress, Progress::Pending) {
            if self.stream.register(&mut self.waiter, INTEREST_RECEIVE, waker).is_err() {
                return Progress::Ready(Err(ReceiveError::WaitersFull));
            }
            let index = self.waiter.unwrap();
            progress = self.stream.retry_receive(self.key, index, waker);
            assert(old(self).retried(index, waker, progress));
        }
        match progress {
            Progress::Pending => Progress::Pending,
            Progress::Ready(result) => {
                self.stream.cancel(self.waiter);
                self.waiter = None;
                Progress::Ready(result)
            },
        }
    }

    /// Gives up the receive and its waiter record.
    pub fn cancel(self)
        requires
            self.wf(),
        ensures
            self.waiter() matches Some(index) ==> self.stream().freed(index),
    {
        self.stream.cancel(self.waiter)
    }
}

impl<
    'a,
    E: EventSpec,
    const CAP: usize,
    const SUBS: usize,
    const WAITERS: usize,
> PendingReception<PayloadValue<E::Payload>> for StaticReceiveFuture<
    'a,
    E,
    CAP,
    SUBS,
    WAITERS,
> where E::Payload: Copy {
    open spec fn sound(&self) -> bool {
        self.wf()
    }

    fn poll(&mut self, waker: &core::task::Waker) -> (progress: Progress<
        Result<StreamItem<PayloadValue<E::Payload>>, ReceiveError>,
    >)
        ensures
            old(self).polled(*final(self), waker, progress),
    {
        StaticReceiveFuture::poll(self, waker)
    }

    fn cancel(self)
        ensures
            self.waiter() matches Some(index) ==> self.stream().freed(index),
    {
        StaticReceiveFuture::cancel(self)
    }
}

/// A single-event binding into caller-owned static storage.
#[verifier::reject_recursive_types(E)]
#[verifier::reject_recursive_types(CAP)]
#[verifier::reject_recursive_types(SUBS)]
pub struct StaticFabric<
    'a,
    E: EventSpec,
    const CAP: usize,
    const SUBS: usize,
    const WAITERS: usize,
> where E::Payload: Copy {
    stream: &'a StaticStream<E, CAP, SUBS, WAITERS>,
}

impl<
    'a,
    E: EventSpec,
    const CAP: usize,
    const SUBS: usize,
    const WAITERS: usize,
> StaticFabric<'a, E, CAP, SUBS, WAITERS> where E::Payload: Copy {
    /// The stream that it binds to.
    pub closed spec fn stream(self) -> &'a StaticStream<E, CAP, SUBS, WAITERS> {
        self.stream
    }

    /// Borrows one retained stream.
    pub fn new(stream: &'a StaticStream<E, CAP, SUBS, WAITERS>) -> (fabric: Self)
        ensures
            fabric.stream() == stream,
    {
        StaticFabric { stream }
    }
}

impl<'a, E: EventSpec, const CAP: usize, const SUBS: usize, const WAITERS: usize> PortBinding<
    'a,
    E,
> for StaticFabric<'a, E, CAP, SUBS, WAITERS> where E::Payload: Copy {
    type Sender = StaticSender<'a, E, CAP, SUBS, WAITERS>;

    type Receiver = StaticReceiver<'a, E, CAP, SUBS, WAITERS>;

    fn sender(&self) -> (result: Result<Self::Sender, TopicError>)
        ensures
            result matches Ok(sender) && sender.stream() == self.stream(),
    {
        Ok(self.stream.sender())
    }

    fn subscribe(&self, role: SubscriptionRole) -> (result: Result<Self::Receiver, TopicError>)
        ensures
            self.stream().subscribes(role, result),
    {
        self.stream.subscribe(role)
    }
}

} // verus!

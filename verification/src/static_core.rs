//! The state of a bounded stream in inline storage.
use crate::error::{CloseReason, ReceiveError, TopicError, TrySendError};
use crate::item::{PayloadValue, StreamItem, SubscriptionRole};
use vstd::prelude::*;

verus! {

/// Pending publications are to be woken.
pub const INTEREST_SEND: u8 = 1;

/// Pending receives are to be woken.
pub const INTEREST_RECEIVE: u8 = 2;

/// Names one subscription, and no later one in the same slot.
#[derive(Clone, Copy, Debug, PartialEq, Eq, Structural)]
pub struct SubscriberKey {
    /// Subscriber slot.
    pub index: usize,
    /// Generation of the subscription.
    pub generation: u64,
}

/// One subscription.
#[derive(Clone, Copy, Debug, PartialEq, Eq, Structural)]
pub struct StaticCursor {
    /// Tells the subscription from others in the same slot.
    pub generation: u64,
    /// First sequence not yet received.
    pub next: u64,
    /// Backpressure role.
    pub role: SubscriptionRole,
}

/// A bounded stream, as one who remembers every publication sees it.
#[verifier::ext_equal]
pub struct StaticView<T> {
    /// Sequence of the first publication.
    pub start: u64,
    /// Every accepted publication.
    pub history: Seq<T>,
    pub cursors: Seq<Option<StaticCursor>>,
    pub next_generation: u64,
    pub closed: Option<CloseReason>,
    /// Interests that have something new.
    pub changed: u8,
}

impl<T> StaticView<T> {
    /// An empty stream with room for `subscribers` subscriptions, whose first publication
    /// gets the sequence `start`.
    pub open spec fn unused(start: u64, subscribers: nat) -> StaticView<T> {
        StaticView {
            start,
            history: Seq::empty(),
            cursors: Seq::new(subscribers, |i: int| None::<StaticCursor>),
            next_generation: 0,
            closed: None,
            changed: 0,
        }
    }

    /// Sequence of the next publication.
    pub open spec fn tail(self) -> int {
        self.start + self.history.len()
    }

    /// Oldest sequence that storage for `capacity` publications retains.
    pub open spec fn oldest(self, capacity: nat) -> int {
        if self.tail() >= capacity {
            self.tail() - capacity
        } else {
            0
        }
    }

    /// The first free subscriber slot, counting from `from`.
    pub open spec fn free_slot(self, from: nat) -> Option<nat>
        decreases self.cursors.len() - from,
    {
        if from >= self.cursors.len() {
            None
        } else if self.cursors[from as int] is None {
            Some(from)
        } else {
            self.free_slot(from + 1)
        }
    }

    /// Why nobody can subscribe, if nobody can.
    pub open spec fn subscribe_error(self) -> Option<TopicError> {
        match self.closed {
            Some(CloseReason::Revoked) => Some(TopicError::Revoked),
            Some(_) => Some(TopicError::Denied),
            None => if self.free_slot(0) is None || self.next_generation == u64::MAX {
                Some(TopicError::Capacity)
            } else {
                None
            },
        }
    }

    /// The stream with one more subscription, at the current tail.
    pub open spec fn subscribe(self, role: SubscriptionRole) -> StaticView<T> {
        StaticView {
            cursors: self.cursors.update(
                self.free_slot(0)->0 as int,
                Some(
                    StaticCursor {
                        generation: self.next_generation,
                        next: self.tail() as u64,
                        role,
                    },
                ),
            ),
            next_generation: (self.next_generation + 1) as u64,
            ..self
        }
    }

    /// The required receiver in slot `i` still has to receive `sequence`.
    pub open spec fn holds_back(self, i: int, sequence: int) -> bool {
        match self.cursors[i] {
            Some(cursor) => cursor.role == SubscriptionRole::Required && cursor.next <= sequence,
            None => false,
        }
    }

    /// A required receiver stands against overwriting the oldest publication.
    pub open spec fn held_back(self, capacity: nat) -> bool {
        self.tail() >= capacity && self.needed(self.tail() - capacity)
    }

    /// Some required receiver still has to receive `sequence`.
    pub open spec fn needed(self, sequence: int) -> bool {
        exists|i: int| 0 <= i < self.cursors.len() && self.holds_back(i, sequence)
    }

    /// Why a publication is refused, if it is.
    pub open spec fn send_error(self, capacity: nat, value: T) -> Option<TrySendError<T>> {
        match self.closed {
            Some(CloseReason::Revoked) => Some(TrySendError::Revoked(value)),
            Some(_) => Some(TrySendError::Closed(value)),
            None => if self.tail() == u64::MAX {
                Some(TrySendError::SequenceExhausted(value))
            } else if self.held_back(capacity) {
                Some(TrySendError::Full(value))
            } else {
                None
            },
        }
    }

    /// The stream with one more publication.
    pub open spec fn send(self, value: T) -> StaticView<T> {
        StaticView {
            history: self.history.push(value),
            changed: self.changed | INTEREST_RECEIVE,
            ..self
        }
    }

    /// The stream after one attempt to publish.
    pub open spec fn attempted(self, capacity: nat, value: T) -> StaticView<T> {
        if self.send_error(capacity, value) is None {
            self.send(value)
        } else {
            self
        }
    }

    /// The stream after the interests that have something new have been taken, if
    /// `taken`.
    pub open spec fn noticed(self, taken: bool) -> StaticView<T> {
        if taken {
            StaticView { changed: 0, ..self }
        } else {
            self
        }
    }

    /// The subscription that `key` names is in force.
    pub open spec fn live(self, key: SubscriberKey) -> bool {
        key.index < self.cursors.len() && (self.cursors[key.index as int] matches Some(cursor)
            && cursor.generation == key.generation)
    }

    /// What the receiver gets next.
    pub open spec fn next_item(self, capacity: nat, key: SubscriberKey) -> Result<
        Option<StreamItem<PayloadValue<T>>>,
        ReceiveError,
    > {
        match self.closed {
            Some(reason) => Err(ReceiveError::Closed(reason)),
            None => if !self.live(key) {
                Err(ReceiveError::Closed(CloseReason::Closed))
            } else {
                let next = self.cursors[key.index as int]->0.next;
                if next < self.oldest(capacity) {
                    Ok(Some(StreamItem::Gap { from: next, to: self.oldest(capacity) as u64 }))
                } else if next == self.tail() {
                    Ok(None)
                } else {
                    Ok(
                        Some(
                            StreamItem::Data {
                                sequence: next,
                                value: PayloadValue(self.history[next - self.start]),
                            },
                        ),
                    )
                }
            },
        }
    }

    /// The stream after the receiver has taken what it gets next.
    pub open spec fn take(self, capacity: nat, key: SubscriberKey) -> StaticView<T> {
        match self.next_item(capacity, key) {
            Ok(Some(StreamItem::Gap { from: _, to })) => self.moved(key, to),
            Ok(Some(StreamItem::Data { sequence, value: _ })) => self.moved(
                key,
                (sequence + 1) as u64,
            ),
            _ => self,
        }
    }

    /// The stream with one cursor moved.
    pub open spec fn moved(self, key: SubscriberKey, next: u64) -> StaticView<T> {
        let cursor = self.cursors[key.index as int]->0;
        StaticView {
            cursors: self.cursors.update(
                key.index as int,
                Some(StaticCursor { next, ..cursor }),
            ),
            changed: self.changed | INTEREST_SEND,
            ..self
        }
    }

    /// The stream without the subscription that `key` names.
    pub open spec fn detach(self, key: SubscriberKey) -> StaticView<T> {
        if self.live(key) {
            StaticView {
                cursors: self.cursors.update(key.index as int, None),
                changed: self.changed | INTEREST_SEND,
                ..self
            }
        } else {
            self
        }
    }

    /// The closed stream. The first reason is retained.
    pub open spec fn close(self, reason: CloseReason) -> StaticView<T> {
        StaticView {
            closed: match self.closed {
                Some(first) => Some(first),
                None => Some(reason),
            },
            changed: u8::MAX,
            ..self
        }
    }

    /// Every required receiver can still receive all that it has not received from
    /// storage for `capacity` publications.
    pub open spec fn required_retained(self, capacity: nat) -> bool {
        forall|i: int|
            0 <= i < self.cursors.len() && (#[trigger] self.cursors[i]) is Some
                && self.cursors[i]->0.role == SubscriptionRole::Required ==> self.oldest(capacity)
                <= self.cursors[i]->0.next
    }

    /// What holds of every stream with storage for `capacity` publications and
    /// `subscribers` subscriptions.
    pub open spec fn sound(self, capacity: nat, subscribers: nat) -> bool {
        &&& self.wf()
        &&& self.cursors.len() == subscribers
        &&& self.required_retained(capacity)
    }

    /// No cursor is ahead of the stream or before its start.
    pub open spec fn wf(self) -> bool {
        &&& self.tail() <= u64::MAX
        &&& forall|i: int|
            0 <= i < self.cursors.len() && (#[trigger] self.cursors[i]) is Some ==> {
                &&& self.start <= self.cursors[i]->0.next <= self.tail()
                &&& self.cursors[i]->0.generation < self.next_generation
            }
    }
}

/// The latest publications, in slots by sequence.
struct Ring<T: Copy, const CAP: usize> {
    values: [Option<T>; CAP],
    tail: u64,
    start: Ghost<u64>,
    history: Ghost<Seq<T>>,
}

impl<T: Copy, const CAP: usize> Ring<T, CAP> {
    /// The tail counts every publication since the start.
    spec fn counted(self) -> bool {
        self.tail == self.start@ + self.history@.len()
    }

    /// The slots hold the latest publications.
    spec fn filled(self) -> bool {
        filled(self.values@, self.start@ as int, self.history@, CAP as int)
    }

    /// Stores one more publication in the slot of the oldest.
    fn store(&mut self, value: T)
        requires
            CAP > 0,
            old(self).counted(),
            old(self).filled(),
            old(self).tail < u64::MAX,
        ensures
            final(self).counted(),
            final(self).filled(),
            final(self).start == old(self).start,
            final(self).history@ == old(self).history@.push(value),
        no_unwind
    {
        let slot = (self.tail % CAP as u64) as usize;
        let ghost before = self.values@;
        let ghost old_history = self.history@;
        let ghost next_history = self.history@.push(value);
        self.values[slot] = Some(value);
        self.tail = self.tail + 1;
        self.history = Ghost(next_history);
        proof {
            let from = self.start@ as int;
            assert forall|k: int|
                0 <= k < next_history.len() && next_history.len() - CAP
                    <= k implies #[trigger] self.values@[(from + k) % (CAP as int)] == Some(
                next_history[k],
            ) by {
                if k < old_history.len() {
                    lemma_slots(from + k, from + old_history.len(), CAP as int);
                    assert(before[(from + k) % (CAP as int)] == Some(old_history[k]));
                }
            }
        }
    }
}

/// The state of a bounded stream. It always holds what [`StaticView`] says.
pub struct StaticState<T: Copy, const CAP: usize, const SUBS: usize> {
    ring: Ring<T, CAP>,
    cursors: [Option<StaticCursor>; SUBS],
    next_generation: u64,
    closed: Option<CloseReason>,
    changed: u8,
}

impl<T: Copy, const CAP: usize, const SUBS: usize> View for StaticState<T, CAP, SUBS> {
    type V = StaticView<T>;

    closed spec fn view(&self) -> StaticView<T> {
        StaticView {
            start: self.ring.start@,
            history: self.ring.history@,
            cursors: self.cursors@,
            next_generation: self.next_generation,
            closed: self.closed,
            changed: self.changed,
        }
    }
}

/// Two sequences less than `capacity` apart do not share a slot.
proof fn lemma_slots(a: int, b: int, capacity: int)
    by (nonlinear_arith)
    requires
        capacity > 0,
        0 <= a < b,
        b - a < capacity,
    ensures
        a % capacity != b % capacity,
{
    let qa = a / capacity;
    let qb = b / capacity;
    assert(a == capacity * qa + a % capacity);
    assert(b == capacity * qb + b % capacity);
    if a % capacity == b % capacity {
        assert(b - a == capacity * (qb - qa));
        assert(qb - qa >= 1 || qb - qa <= 0);
    }
}

/// The slots hold the latest publications.
spec fn filled<T>(values: Seq<Option<T>>, start: int, history: Seq<T>, capacity: int) -> bool {
    forall|k: int|
        0 <= k < history.len() && history.len() - capacity <= k ==> #[trigger] values[(start + k)
            % capacity] == Some(history[k])
}

impl<T: Copy, const CAP: usize, const SUBS: usize> StaticState<T, CAP, SUBS> {
    /// The slots hold what is retained.
    #[verifier::type_invariant]
    spec fn holds(&self) -> bool {
        &&& CAP > 0
        &&& self@.sound(CAP as nat, SUBS as nat)
        &&& self.ring.counted()
        &&& self.closed is None ==> self.ring.filled()
    }

    /// An empty stream whose first publication gets the sequence `start`.
    pub fn starting_at(start: u64) -> (state: Self)
        requires
            CAP > 0,
        ensures
            state@ == StaticView::<T>::unused(start, SUBS as nat),
            state@.sound(CAP as nat, SUBS as nat),
    {
        let state = StaticState {
            ring: Ring {
                values: [None;CAP],
                tail: start,
                start: Ghost(start),
                history: Ghost(Seq::empty()),
            },
            cursors: [None;SUBS],
            next_generation: 0,
            closed: None,
            changed: 0,
        };
        assert(state@.cursors =~= Seq::new(SUBS as nat, |i: int| None::<StaticCursor>));
        state
    }

    /// An empty stream.
    pub fn new() -> (state: Self)
        requires
            CAP > 0,
        ensures
            state@ == StaticView::<T>::unused(0, SUBS as nat),
            state@.sound(CAP as nat, SUBS as nat),
    {
        Self::starting_at(0)
    }

    /// Starts a subscription at the current tail, without historical replay.
    ///
    /// # Errors
    ///
    /// Returns [`TopicError::Capacity`] if subscriber slots or generations are
    /// exhausted, [`TopicError::Revoked`] after revocation, or [`TopicError::Denied`]
    /// after another closure.
    pub fn subscribe(&mut self, role: SubscriptionRole) -> (result: Result<
        SubscriberKey,
        TopicError,
    >)
        ensures
            old(self)@.sound(CAP as nat, SUBS as nat),
            final(self)@.sound(CAP as nat, SUBS as nat),
            match old(self)@.subscribe_error() {
                Some(error) => result == Err::<SubscriberKey, TopicError>(error) && final(self)@
                    == old(self)@,
                None => {
                    &&& result matches Ok(key)
                    &&& key.index == old(self)@.free_slot(0)->0
                    &&& key.generation == old(self)@.next_generation
                    &&& final(self)@ == old(self)@.subscribe(role)
                    &&& final(self)@.live(key)
                },
            },
    {
        proof {
            use_type_invariant(&*self);
        }
        match self.closed {
            Some(reason) => {
                return Err(
                    if reason == CloseReason::Revoked {
                        TopicError::Revoked
                    } else {
                        TopicError::Denied
                    },
                );
            },
            None => {},
        }
        let index = match self.position() {
            Some(index) => index,
            None => {
                return Err(TopicError::Capacity);
            },
        };
        let generation = self.next_generation;
        if generation == u64::MAX {
            return Err(TopicError::Capacity);
        }
        let cursor = StaticCursor { generation, next: self.ring.tail, role };
        self.place(index, cursor);
        Ok(SubscriberKey { index, generation })
    }

    /// The first free subscriber slot.
    fn position(&self) -> (found: Option<usize>)
        ensures
            match self@.free_slot(0) {
                Some(i) => found matches Some(f) && f == i && i < SUBS
                    && self@.cursors[i as int] is None,
                None => found is None,
            },
            self@.cursors.len() == SUBS,
    {
        let mut index: usize = 0;
        while index < SUBS
            invariant
                index <= SUBS,
                self@.cursors.len() == SUBS,
                self@.free_slot(0) == self@.free_slot(index as nat),
            decreases SUBS - index,
        {
            if self.cursors[index].is_none() {
                return Some(index);
            }
            index += 1;
        }
        None
    }

    /// Puts a new subscription into a slot.
    fn place(&mut self, index: usize, cursor: StaticCursor)
        requires
            index < SUBS,
            cursor.next == old(self)@.tail(),
            cursor.generation == old(self)@.next_generation,
            old(self)@.next_generation < u64::MAX,
        ensures
            final(self)@ == (StaticView {
                cursors: old(self)@.cursors.update(index as int, Some(cursor)),
                next_generation: (old(self)@.next_generation + 1) as u64,
                ..old(self)@
            }),
            final(self)@.sound(CAP as nat, SUBS as nat),
    {
        proof {
            use_type_invariant(&*self);
        }
        self.next_generation = cursor.generation + 1;
        self.cursors[index] = Some(cursor);
    }

    /// Tests whether a required receiver stands against overwriting the oldest
    /// publication.
    fn held_back(&self) -> (held: bool)
        ensures
            held == self@.held_back(CAP as nat),
    {
        proof {
            use_type_invariant(self);
        }
        if self.ring.tail < CAP as u64 {
            return false;
        }
        let overwritten = self.ring.tail - CAP as u64;
        let mut index: usize = 0;
        while index < SUBS
            invariant
                index <= SUBS,
                self@.cursors.len() == SUBS,
                self.ring.tail == self@.tail(),
                self.ring.tail >= CAP,
                overwritten == self.ring.tail - CAP,
                forall|i: int|
                    0 <= i < index ==> !self@.holds_back(i, overwritten as int),
            decreases SUBS - index,
        {
            match self.cursors[index] {
                Some(cursor) => {
                    if cursor.role == SubscriptionRole::Required && cursor.next <= overwritten {
                        assert(self@.holds_back(index as int, overwritten as int));
                        return true;
                    }
                },
                None => {},
            }
            index += 1;
        }
        false
    }

    /// Attempts admission.
    ///
    /// # Errors
    ///
    /// Returns the original payload if required retention fills the stream, the stream
    /// closes or is revoked, or its sequence cannot advance.
    pub fn send_now(&mut self, value: T) -> (result: Result<(), TrySendError<T>>)
        ensures
            old(self)@.sound(CAP as nat, SUBS as nat),
            final(self)@.sound(CAP as nat, SUBS as nat),
            match old(self)@.send_error(CAP as nat, value) {
                Some(error) => result == Err::<(), TrySendError<T>>(error) && final(self)@ == old(
                    self,
                )@,
                None => result == Ok::<(), TrySendError<T>>(()) && final(self)@ == old(self)@.send(
                    value,
                ),
            },
    {
        proof {
            use_type_invariant(&*self);
        }
        match self.closed {
            Some(reason) => {
                return Err(
                    if reason == CloseReason::Revoked {
                        TrySendError::Revoked(value)
                    } else {
                        TrySendError::Closed(value)
                    },
                );
            },
            None => {},
        }
        if self.ring.tail == u64::MAX {
            return Err(TrySendError::SequenceExhausted(value));
        }
        if self.held_back() {
            return Err(TrySendError::Full(value));
        }
        self.store(value);
        Ok(())
    }

    /// Stores one more publication.
    fn store(&mut self, value: T)
        requires
            old(self)@.closed is None,
            old(self)@.tail() < u64::MAX,
            !old(self)@.held_back(CAP as nat),
        ensures
            final(self)@ == old(self)@.send(value),
            final(self)@.sound(CAP as nat, SUBS as nat),
    {
        proof {
            use_type_invariant(&*self);
            let before = self@;
            assert forall|i: int|
                0 <= i < before.cursors.len() && (#[trigger] before.cursors[i]) is Some
                    && before.cursors[i]->0.role == SubscriptionRole::Required && before.tail()
                    >= CAP implies before.tail() - CAP < before.cursors[i]->0.next by {
                assert(!before.holds_back(i, before.tail() - CAP));
            }
        }
        self.ring.store(value);
        self.changed = self.changed | INTEREST_RECEIVE;
    }

    /// Receives the next retained value or missing range.
    ///
    /// # Errors
    ///
    /// Returns [`ReceiveError::Closed`] with the stream's termination reason, or when
    /// the subscription is not in force.
    pub fn recv_now(&mut self, key: SubscriberKey) -> (result: Result<
        Option<StreamItem<PayloadValue<T>>>,
        ReceiveError,
    >)
        ensures
            old(self)@.sound(CAP as nat, SUBS as nat),
            final(self)@.sound(CAP as nat, SUBS as nat),
            result == old(self)@.next_item(CAP as nat, key),
            final(self)@ == old(self)@.take(CAP as nat, key),
    {
        proof {
            use_type_invariant(&*self);
        }
        match self.closed {
            Some(reason) => {
                return Err(ReceiveError::Closed(reason));
            },
            None => {},
        }
        if key.index >= SUBS {
            return Err(ReceiveError::Closed(CloseReason::Closed));
        }
        let cursor = match self.cursors[key.index] {
            Some(cursor) => cursor,
            None => {
                return Err(ReceiveError::Closed(CloseReason::Closed));
            },
        };
        if cursor.generation != key.generation {
            return Err(ReceiveError::Closed(CloseReason::Closed));
        }
        let oldest = if self.ring.tail >= CAP as u64 {
            self.ring.tail - CAP as u64
        } else {
            0
        };
        if cursor.next < oldest {
            self.move_to(key, cursor, oldest);
            return Ok(Some(StreamItem::Gap { from: cursor.next, to: oldest }));
        }
        if cursor.next == self.ring.tail {
            return Ok(None);
        }
        let sequence = cursor.next;
        let slot = (sequence % CAP as u64) as usize;
        proof {
            let k = sequence - self.ring.start@;
            assert(self.ring.values@[(self.ring.start@ as int + k) % (CAP as int)] == Some(
                self.ring.history@[k],
            ));
        }
        let value = self.ring.values[slot].unwrap();
        self.move_to(key, cursor, sequence + 1);
        Ok(Some(StreamItem::Data { sequence, value: PayloadValue(value) }))
    }

    /// Moves a cursor.
    fn move_to(&mut self, key: SubscriberKey, cursor: StaticCursor, next: u64)
        requires
            key.index < SUBS,
            old(self)@.cursors[key.index as int] == Some(cursor),
            cursor.next <= next <= old(self)@.tail(),
        ensures
            final(self)@ == old(self)@.moved(key, next),
            final(self)@.sound(CAP as nat, SUBS as nat),
    {
        proof {
            use_type_invariant(&*self);
        }
        self.cursors[key.index] = Some(
            StaticCursor { generation: cursor.generation, next, role: cursor.role },
        );
        self.changed = self.changed | INTEREST_SEND;
        assert(self@ =~= old(self)@.moved(key, next));
    }

    /// Ends the subscription that `key` names, if it is in force.
    pub fn detach(&mut self, key: SubscriberKey)
        ensures
            old(self)@.sound(CAP as nat, SUBS as nat),
            final(self)@.sound(CAP as nat, SUBS as nat),
            final(self)@ == old(self)@.detach(key),
    {
        proof {
            use_type_invariant(&*self);
        }
        if key.index >= SUBS {
            return ;
        }
        match self.cursors[key.index] {
            Some(cursor) => {
                if cursor.generation == key.generation {
                    self.cursors[key.index] = None;
                    self.changed = self.changed | INTEREST_SEND;
                    assert(self@ =~= old(self)@.detach(key));
                }
            },
            None => {},
        }
    }

    /// Terminates the stream and clears retained data. The first close reason is
    /// retained.
    pub fn close(&mut self, reason: CloseReason)
        ensures
            old(self)@.sound(CAP as nat, SUBS as nat),
            final(self)@.sound(CAP as nat, SUBS as nat),
            final(self)@ == old(self)@.close(reason),
    {
        proof {
            use_type_invariant(&*self);
        }
        if self.closed.is_none() {
            self.closed = Some(reason);
        }
        self.ring.values = [None;CAP];
        self.changed = u8::MAX;
    }

    /// Takes the interests that have something new.
    pub fn take_changed(&mut self) -> (changed: u8)
        ensures
            old(self)@.sound(CAP as nat, SUBS as nat),
            final(self)@.sound(CAP as nat, SUBS as nat),
            changed == old(self)@.changed,
            final(self)@ == (StaticView { changed: 0, ..old(self)@ }),
    {
        proof {
            use_type_invariant(&*self);
        }
        let changed = self.changed;
        self.changed = 0;
        changed
    }
}

} // verus!

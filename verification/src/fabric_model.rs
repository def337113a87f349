//! Mathematical model of a fabric: its ledger and its retained streams.
use crate::error::{
    CloseReason, ReceiveError, SendError, TopicError, TopicTypeMismatch, TrySendError,
};
use crate::event::EventId;
use crate::grant::{Limits, Rights, StreamLimits};
use crate::item::{StreamItem, SubscriptionRole};
use crate::ledger_model::{of_owner, tally, LedgerView, Owner, Signal};
use vstd::prelude::*;

verus! {

/// Physical bounds for one retained stream.
#[derive(Clone, Copy, Debug, PartialEq, Eq, Structural)]
pub struct StreamConfig {
    /// Maximum retained payload items.
    pub capacity: usize,
    /// Maximum live subscriptions, excluding receiver-handle clones.
    pub subscribers: usize,
    /// Maximum pending send and receive operations.
    pub waiters: usize,
}

impl Default for StreamConfig {
    fn default() -> (config: Self)
        ensures
            config == (StreamConfig { capacity: 64, subscribers: 16, waiters: 32 }),
    {
        StreamConfig { capacity: 64, subscribers: 16, waiters: 32 }
    }
}

impl StreamConfig {
    /// What the owner of a scope reserves for the stream.
    pub open spec fn allowance(self) -> Limits {
        Limits {
            streams: 1,
            retained_items: self.capacity,
            subscriptions: self.subscribers,
            waiters: self.waiters,
            ..Limits::none()
        }
    }
}

/// What a stream is declared for.
#[derive(Clone, Copy, Debug, PartialEq, Eq, Structural)]
pub struct Declaration {
    /// Event identity.
    pub event: EventId,
    /// Identity of the payload type within the scope.
    pub payload: u64,
    /// Breaking wire generation.
    pub wire_major: u16,
}

/// A retained publication.
pub struct EntryView<P> {
    pub sequence: u64,
    pub value: P,
    /// The charge for its retention.
    pub ticket: nat,
}

/// A live subscription.
pub struct CursorView {
    pub id: u64,
    /// First sequence not yet received.
    pub next: u64,
    pub role: SubscriptionRole,
    /// Slot of the grant that it acts under.
    pub node: nat,
    /// The charge for the subscription.
    pub ticket: nat,
}

/// One retained stream.
pub struct StreamView<P> {
    pub declaration: Declaration,
    pub config: StreamConfig,
    /// Retained publications, oldest first.
    pub entries: Seq<EntryView<P>>,
    pub subscribers: Seq<Option<CursorView>>,
    /// Sequence of the next publication.
    pub tail: u64,
    pub next_cursor: u64,
    pub closed: bool,
    /// A strict publication found the stream full.
    pub needs_room: bool,
    /// Pending operations.
    pub waiters: nat,
    /// A strict operation left a wakeup to maintenance.
    pub deferred: bool,
    /// The charge for the stream itself.
    pub storage: nat,
}

/// Why a publication is refused.
#[derive(Clone, Copy, Debug, PartialEq, Eq, Structural)]
pub enum Refusal {
    /// A required receiver or the publisher's quota stands against it.
    Full,
    /// No further operation can be counted.
    Contended,
    /// Storage has to be reclaimed first.
    MaintenanceRequired,
    /// The stream is closed.
    Closed,
    /// The grant does not permit it any more.
    Revoked,
    /// The sequence counter cannot advance without wrapping.
    SequenceExhausted,
}

impl Refusal {
    /// The refusal of a particular payload.
    pub open spec fn of<T>(self, value: T) -> TrySendError<T> {
        match self {
            Refusal::Full => TrySendError::Full(value),
            Refusal::Contended => TrySendError::Contended(value),
            Refusal::MaintenanceRequired => TrySendError::MaintenanceRequired(value),
            Refusal::Closed => TrySendError::Closed(value),
            Refusal::Revoked => TrySendError::Revoked(value),
            Refusal::SequenceExhausted => TrySendError::SequenceExhausted(value),
        }
    }

    /// Refuses a particular payload.
    pub fn reject<T>(self, value: T) -> (error: TrySendError<T>)
        ensures
            error == self.of(value),
    {
        match self {
            Refusal::Full => TrySendError::Full(value),
            Refusal::Contended => TrySendError::Contended(value),
            Refusal::MaintenanceRequired => TrySendError::MaintenanceRequired(value),
            Refusal::Closed => TrySendError::Closed(value),
            Refusal::Revoked => TrySendError::Revoked(value),
            Refusal::SequenceExhausted => TrySendError::SequenceExhausted(value),
        }
    }

    /// How an admission error refuses a publication.
    pub fn from_error(error: TopicError) -> (result: Refusal)
        ensures
            result == refusal(error),
    {
        match error {
            TopicError::Contended => Refusal::Contended,
            TopicError::Capacity => Refusal::Contended,
            _ => Refusal::Revoked,
        }
    }

    /// Whether waiting for a change can help.
    pub open spec fn transient(self) -> bool {
        self is Full || self is Contended || self is MaintenanceRequired
    }

    /// The refusal of a waiting publication.
    pub open spec fn lasting<T>(self, value: T) -> SendError<T> {
        match self {
            Refusal::Revoked => SendError::Revoked(value),
            Refusal::SequenceExhausted => SendError::SequenceExhausted(value),
            _ => SendError::Closed(value),
        }
    }
}

/// How far a publication that may wait is.
pub enum SendVerdict<P> {
    Sent,
    Rejected(SendError<P>),
    /// It waits, with the ticket of its waiter.
    Waiting(nat),
}

/// How far a receive that may wait is.
pub enum ReceiveVerdict<P> {
    Received(StreamItem<P>),
    Failed(ReceiveError),
    /// It waits, with the ticket of its waiter.
    Waiting(nat),
}

/// How an admission error refuses a publication.
pub open spec fn refusal(error: TopicError) -> Refusal {
    match error {
        TopicError::Contended | TopicError::Capacity => Refusal::Contended,
        _ => Refusal::Revoked,
    }
}

/// How an admission error ends a receive.
pub open spec fn receive_refusal(error: TopicError) -> ReceiveError {
    match error {
        TopicError::Contended | TopicError::Capacity => ReceiveError::Contended,
        _ => ReceiveError::Closed(CloseReason::Revoked),
    }
}

/// One item of event capacity.
pub open spec fn one_item() -> StreamLimits {
    StreamLimits { retained_items: 1, subscriptions: 0, waiters: 0 }
}

/// One subscription of event capacity.
pub open spec fn one_subscription() -> StreamLimits {
    StreamLimits { retained_items: 0, subscriptions: 1, waiters: 0 }
}

/// One waiter of event capacity.
pub open spec fn one_waiter() -> StreamLimits {
    StreamLimits { retained_items: 0, subscriptions: 0, waiters: 1 }
}

impl<P> StreamView<P> {
    /// Sequence of the oldest retained publication, or of the next one.
    pub open spec fn head(self) -> u64 {
        if self.entries.len() == 0 {
            self.tail
        } else {
            self.entries[0].sequence
        }
    }

    pub open spec fn full(self) -> bool {
        self.entries.len() == self.config.capacity
    }

    /// The first free subscriber slot, counting from `from`.
    pub open spec fn free_subscriber(self, from: nat) -> Option<nat>
        decreases self.subscribers.len() - from,
    {
        if from >= self.subscribers.len() {
            None
        } else if self.subscribers[from as int] is None {
            Some(from)
        } else {
            self.free_subscriber(from + 1)
        }
    }
}

/// A fabric.
pub struct FabricView<P> {
    pub ledger: LedgerView,
    pub streams: Seq<StreamView<P>>,
}

impl<P> FabricView<P> {
    pub open spec fn with_stream(self, s: nat, to: StreamView<P>) -> FabricView<P> {
        FabricView { streams: self.streams.update(s as int, to), ..self }
    }

    pub open spec fn with_ledger(self, ledger: LedgerView) -> FabricView<P> {
        FabricView { ledger, ..self }
    }

    /// Some required receiver still has to receive `sequence`.
    pub open spec fn required_needs(self, s: nat, sequence: u64) -> bool {
        exists|i: int|
            0 <= i < self.streams[s as int].subscribers.len() && self.holds_back(s, i, sequence)
    }

    /// The required receiver in slot `i` still has to receive `sequence`.
    pub open spec fn holds_back(self, s: nat, i: int, sequence: u64) -> bool {
        match self.streams[s as int].subscribers[i] {
            Some(cursor) => {
                &&& cursor.role == SubscriptionRole::Required
                &&& cursor.next <= sequence
                &&& !self.ledger.nodes[cursor.node as int].revoked
            },
            None => false,
        }
    }

    /// The receiver in slot `i` may still receive `sequence`.
    pub open spec fn may_receive(self, s: nat, i: int, sequence: u64) -> bool {
        match self.streams[s as int].subscribers[i] {
            Some(cursor) => cursor.next <= sequence
                && !self.ledger.nodes[cursor.node as int].revoked,
            None => false,
        }
    }

    /// No receiver may still receive `sequence`.
    pub open spec fn consumed(self, s: nat, sequence: u64) -> bool {
        forall|i: int|
            0 <= i < self.streams[s as int].subscribers.len() ==> !self.may_receive(s, i, sequence)
    }

    /// The fabric with the wakeup of a stream owed.
    pub open spec fn notify(self, s: nat) -> FabricView<P> {
        let st = self.streams[s as int];
        FabricView {
            ledger: LedgerView {
                signals: self.ledger.signals.push(Signal::Listener(s as u64)),
                ..self.ledger
            },
            streams: self.streams.update(s as int, StreamView { deferred: false, ..st }),
        }
    }

    /// After an operation that dispatches wakeups has looked at a stream.
    pub open spec fn unlock(self, s: nat, dirty: bool) -> FabricView<P> {
        if dirty || self.streams[s as int].deferred {
            self.notify(s)
        } else {
            self
        }
    }

    /// After an operation that defers wakeups has looked at a stream.
    pub open spec fn unlock_deferred(self, s: nat, dirty: bool) -> FabricView<P> {
        if dirty {
            self.with_stream(s, StreamView { deferred: true, ..self.streams[s as int] })
        } else {
            self
        }
    }

    /// The fabric after a charge has returned.
    pub open spec fn release(self, ticket: nat) -> FabricView<P> {
        self.with_ledger(self.ledger.release(ticket).reap(self.ledger.record(ticket).node))
    }

    /// The fabric after a charge to the generic pool of a grant was refused.
    pub open spec fn refuse(self, node: nat, usage: Limits) -> FabricView<P> {
        self.with_ledger(self.ledger.refuse(node, None, usage))
    }

    /// The fabric after a link has been charged.
    pub open spec fn charge_link(self, node: nat, usage: Limits) -> FabricView<P> {
        self.with_ledger(self.ledger.charge(node, None, usage, Owner::Link))
    }

    /// The fabric after an admitted operation of a grant has ended.
    pub open spec fn passed(self, node: nat) -> FabricView<P> {
        self.with_ledger(
            LedgerView {
                signals: self.ledger.signals.push(Signal::Changed(node as usize)),
                ..self.ledger
            },
        )
    }

    /// The stream without its oldest publication.
    pub open spec fn without_front(self, s: nat) -> FabricView<P> {
        let st = self.streams[s as int];
        self.with_stream(s, StreamView { entries: st.entries.drop_first(), ..st })
    }

    /// The fabric after the oldest publication of a stream has been reclaimed.
    pub open spec fn retire_front(self, s: nat) -> FabricView<P> {
        self.without_front(s).unlock(s, true).release(self.streams[s as int].entries[0].ticket)
    }

    /// The fabric after up to `tries` consumed publications have been reclaimed.
    pub open spec fn retire_consumed(self, s: nat, tries: nat) -> FabricView<P>
        decreases tries,
    {
        let st = self.streams[s as int];
        if tries == 0 {
            self
        } else if st.entries.len() > 0 && self.consumed(s, st.entries[0].sequence) {
            self.retire_front(s).retire_consumed(s, (tries - 1) as nat)
        } else {
            self.unlock(s, false)
        }
    }

    /// The fabric after a stream that a strict publication found full has been given
    /// room, if no required receiver stands against it.
    pub open spec fn make_room(self, s: nat) -> FabricView<P> {
        let st = self.streams[s as int];
        let cleared = self.with_stream(s, StreamView { needs_room: false, ..st });
        if st.needs_room && st.full() && st.entries.len() > 0 && !self.required_needs(
            s,
            st.entries[0].sequence,
        ) {
            cleared.retire_front(s)
        } else {
            cleared.unlock(s, false)
        }
    }

    /// The fabric after maintenance of one stream.
    pub open spec fn maintain_stream(self, s: nat) -> FabricView<P> {
        self.retire_consumed(s, self.streams[s as int].config.capacity as nat).make_room(s)
    }

    /// The fabric after maintenance of its first `upto` streams.
    pub open spec fn maintain_streams(self, upto: nat) -> FabricView<P>
        decreases upto,
    {
        if upto == 0 {
            self
        } else {
            self.maintain_streams((upto - 1) as nat).maintain_stream((upto - 1) as nat)
        }
    }

    /// Slot of the oldest publication of stream `s` that is charged to `node`,
    /// counting from `from`.
    pub open spec fn own_entry(self, s: nat, node: nat, from: nat) -> Option<nat>
        decreases self.streams[s as int].entries.len() - from,
    {
        let st = self.streams[s as int];
        if from >= st.entries.len() {
            None
        } else if self.ledger.record(st.entries[from as int].ticket).node == node {
            Some(from)
        } else {
            self.own_entry(s, node, from + 1)
        }
    }

    /// Reserving one item of `node` in stream `s`, reclaiming up to `tries` - 1
    /// publications for it: the refusal, if there is one, and the fabric afterwards.
    /// Without a refusal the charge is the last of the ledger.
    pub open spec fn reserve_within(self, s: nat, node: nat, tries: nat) -> (
        Option<Refusal>,
        FabricView<P>,
    )
        decreases tries,
    {
        let st = self.streams[s as int];
        let event = st.declaration.event;
        if tries == 0 {
            (Some(Refusal::Full), self)
        } else if self.ledger.nodes[node as int].revoked {
            (Some(Refusal::Revoked), self)
        } else if st.closed {
            (Some(Refusal::Closed), self.unlock(s, false))
        } else if st.tail == u64::MAX {
            (Some(Refusal::SequenceExhausted), self.unlock(s, false))
        } else if st.full() && self.required_needs(s, st.entries[0].sequence) {
            (Some(Refusal::Full), self.unlock(s, false))
        } else {
            let seen = self.unlock(s, false);
            if seen.ledger.stream_charge_error(node, event, one_item()) is None {
                (
                    None,
                    seen.with_ledger(
                        seen.ledger.charge(
                            node,
                            seen.ledger.nodes[node as int].position(event),
                            one_item().widened(),
                            Owner::Caller,
                        ),
                    ),
                )
            } else {
                match seen.own_entry(s, node, 0) {
                    Some(i) if !seen.required_needs(s, st.entries[i as int].sequence) => {
                        seen.retire_front(s).reserve_within(s, node, (tries - 1) as nat)
                    },
                    _ => (Some(Refusal::Full), seen),
                }
            }
        }
    }

    /// Reserving one item of `node` in stream `s`.
    pub open spec fn reserve(self, s: nat, node: nat) -> (Option<Refusal>, FabricView<P>) {
        let st = self.streams[s as int];
        match self.ledger.enter_error(node, st.declaration.event, publish_right()) {
            Some(error) => (Some(refusal(error)), self),
            None => self.passed(node).reserve_within(s, node, (st.config.capacity + 1) as nat),
        }
    }

    /// The stream with one more publication, whose charge has the ticket `ticket`.
    pub open spec fn append(self, s: nat, value: P, ticket: nat) -> FabricView<P> {
        let st = self.streams[s as int];
        FabricView {
            ledger: self.ledger.assign(ticket, Owner::Entry(s, st.tail as nat)),
            streams: self.streams.update(
                s as int,
                StreamView {
                    entries: st.entries.push(EntryView { sequence: st.tail, value, ticket }),
                    tail: (st.tail + 1) as u64,
                    ..st
                },
            ),
        }
    }

    /// After a publication has looked at a stream and left.
    pub open spec fn looked(self, s: nat, node: nat, deferred: bool, dirty: bool) -> FabricView<P> {
        if deferred {
            self.unlock_deferred(s, dirty)
        } else {
            self.unlock(s, dirty).passed(node)
        }
    }

    /// Admitting a payload whose item is charged already: the refusal, if there is
    /// one, and the fabric afterwards.
    pub open spec fn commit(
        self,
        s: nat,
        node: nat,
        value: P,
        ticket: nat,
        deferred: bool,
    ) -> (Option<Refusal>, FabricView<P>) {
        let st = self.streams[s as int];
        match self.ledger.enter_error(node, st.declaration.event, publish_right()) {
            Some(error) => (Some(refusal(error)), self),
            None => if st.closed {
                (Some(Refusal::Closed), self.looked(s, node, deferred, false))
            } else if st.tail == u64::MAX {
                (Some(Refusal::SequenceExhausted), self.looked(s, node, deferred, false))
            } else if !st.full() {
                (None, self.append(s, value, ticket).looked(s, node, deferred, true))
            } else if self.required_needs(s, st.entries[0].sequence) {
                (Some(Refusal::Full), self.looked(s, node, deferred, false))
            } else if deferred {
                (
                    Some(Refusal::MaintenanceRequired),
                    self.with_stream(s, StreamView { needs_room: true, ..st }),
                )
            } else {
                (
                    None,
                    self.without_front(s).append(s, value, ticket).looked(
                        s,
                        node,
                        false,
                        true,
                    ).release(st.entries[0].ticket),
                )
            },
        }
    }

    /// Publishing at once.
    pub open spec fn send_now(self, s: nat, node: nat, value: P) -> (
        Option<Refusal>,
        FabricView<P>,
    ) {
        let (refused, reserved) = self.reserve(s, node);
        if refused is Some {
            (refused, reserved)
        } else {
            let ticket = (reserved.ledger.table.len() - 1) as nat;
            let (rejected, after) = reserved.commit(s, node, value, ticket, false);
            if rejected is Some {
                (rejected, after.release(ticket))
            } else {
                (None, after)
            }
        }
    }

    /// What a receiver gets next, and the fabric after a strict receive.
    pub open spec fn try_recv(self, s: nat, index: nat, id: u64, node: nat) -> (
        Result<Option<StreamItem<P>>, ReceiveError>,
        FabricView<P>,
    ) {
        let st = self.streams[s as int];
        match self.ledger.enter_error(node, st.declaration.event, observe_right()) {
            Some(error) => (Err(receive_refusal(error)), self),
            None => if st.closed {
                (Err(ReceiveError::Closed(CloseReason::Closed)), self)
            } else {
                match st.subscribers[index as int] {
                    Some(cursor) if cursor.id == id => {
                        if cursor.next < st.head() {
                            (
                                Ok(Some(StreamItem::Gap { from: cursor.next, to: st.head() })),
                                self.advance(s, index, st.head()).unlock_deferred(s, true),
                            )
                        } else if cursor.next < st.tail {
                            (
                                Ok(
                                    Some(
                                        StreamItem::Data {
                                            sequence: cursor.next,
                                            value: st.entries[cursor.next - st.head()].value,
                                        },
                                    ),
                                ),
                                self.advance(
                                    s,
                                    index,
                                    (cursor.next + 1) as u64,
                                ).unlock_deferred(s, true),
                            )
                        } else {
                            (Ok(None), self)
                        }
                    },
                    _ => (Err(ReceiveError::Closed(CloseReason::Closed)), self),
                }
            },
        }
    }

    /// The stream with one cursor moved to `next`.
    pub open spec fn advance(self, s: nat, index: nat, next: u64) -> FabricView<P> {
        let st = self.streams[s as int];
        let cursor = st.subscribers[index as int]->0;
        self.with_stream(
            s,
            StreamView {
                subscribers: st.subscribers.update(
                    index as int,
                    Some(CursorView { next, ..cursor }),
                ),
                ..st
            },
        )
    }

    /// A receive followed by maintenance.
    pub open spec fn recv_now(self, s: nat, index: nat, id: u64, node: nat) -> (
        Result<Option<StreamItem<P>>, ReceiveError>,
        FabricView<P>,
    ) {
        let (item, after) = self.try_recv(s, index, id, node);
        (item, after.maintain_stream(s).passed(node))
    }

    /// A further attempt of a publication that waits, with the ticket of its waiter.
    pub open spec fn send_again(self, s: nat, node: nat, value: P, ticket: nat) -> (
        SendVerdict<P>,
        FabricView<P>,
    ) {
        let (refused, after) = self.send_now(s, node, value);
        match refused {
            None => (SendVerdict::Sent, after.end_wait(s, ticket)),
            Some(refusal) => if refusal.transient() {
                (SendVerdict::Waiting(ticket), after)
            } else {
                (SendVerdict::Rejected(refusal.lasting(value)), after.end_wait(s, ticket))
            },
        }
    }

    /// The first attempt of a publication that may wait. It registers a waiter before
    /// it tries once more.
    pub open spec fn send_first(self, s: nat, node: nat, value: P) -> (
        SendVerdict<P>,
        FabricView<P>,
    ) {
        let (refused, after) = self.send_now(s, node, value);
        match refused {
            None => (SendVerdict::Sent, after),
            Some(refusal) => if refusal.transient() {
                let (error, waiting) = after.wait(s, node);
                match error {
                    Some(TopicError::Revoked) => (
                        SendVerdict::Rejected(SendError::Revoked(value)),
                        waiting,
                    ),
                    Some(_) => (SendVerdict::Rejected(SendError::WaitersFull(value)), waiting),
                    None => waiting.send_again(s, node, value, after.ledger.table.len()),
                }
            } else {
                (SendVerdict::Rejected(refusal.lasting(value)), after)
            },
        }
    }

    /// A further attempt of a receive that waits, with the ticket of its waiter.
    pub open spec fn recv_again(self, s: nat, index: nat, id: u64, node: nat, ticket: nat) -> (
        ReceiveVerdict<P>,
        FabricView<P>,
    ) {
        let (item, after) = self.recv_now(s, index, id, node);
        match item {
            Ok(Some(item)) => (ReceiveVerdict::Received(item), after.end_wait(s, ticket)),
            Ok(None) | Err(ReceiveError::Contended) => (ReceiveVerdict::Waiting(ticket), after),
            Err(error) => (ReceiveVerdict::Failed(error), after.end_wait(s, ticket)),
        }
    }

    /// The first attempt of a receive that may wait. It registers a waiter before it
    /// tries once more.
    pub open spec fn recv_first(self, s: nat, index: nat, id: u64, node: nat) -> (
        ReceiveVerdict<P>,
        FabricView<P>,
    ) {
        let (item, after) = self.recv_now(s, index, id, node);
        match item {
            Ok(Some(item)) => (ReceiveVerdict::Received(item), after),
            Ok(None) | Err(ReceiveError::Contended) => {
                let (error, waiting) = after.wait(s, node);
                match error {
                    Some(TopicError::Revoked) => (
                        ReceiveVerdict::Failed(ReceiveError::Closed(CloseReason::Revoked)),
                        waiting,
                    ),
                    Some(_) => (ReceiveVerdict::Failed(ReceiveError::WaitersFull), waiting),
                    None => waiting.recv_again(s, index, id, node, after.ledger.table.len()),
                }
            },
            Err(error) => (ReceiveVerdict::Failed(error), after),
        }
    }

    /// The stream that `event` is declared for, counting from `from`.
    pub open spec fn find(self, event: EventId, from: nat) -> Option<nat>
        decreases self.streams.len() - from,
    {
        if from >= self.streams.len() {
            None
        } else if self.streams[from as int].declaration.event == event {
            Some(from)
        } else {
            self.find(event, from + 1)
        }
    }

    /// Resolving a declared stream through a grant: the error, if there is one, and
    /// the fabric afterwards, in which the stream listens to the grant.
    pub open spec fn resolve(self, node: nat, declaration: Declaration, rights: Rights) -> (
        Result<nat, TopicError>,
        FabricView<P>,
    ) {
        let event = declaration.event;
        match self.ledger.nodes[node as int].check_error(event, rights) {
            Some(error) => (Err(error), self),
            None => match self.find(event, 0) {
                None => (Err(TopicError::Denied), self),
                Some(s) => {
                    let found = self.streams[s as int].declaration;
                    if found.payload != declaration.payload {
                        (Err(TopicError::TypeMismatch(TopicTypeMismatch { id: event })), self)
                    } else if found.wire_major != declaration.wire_major {
                        (Err(TopicError::InvalidConfig), self)
                    } else {
                        match self.ledger.register_error(node, event, s as u64) {
                            Some(error) => (Err(error), self),
                            None => (
                                Ok(s),
                                self.with_ledger(self.ledger.register(node, event, s as u64)),
                            ),
                        }
                    }
                },
            },
        }
    }

    /// Acquiring a publication capability.
    pub open spec fn sender(self, node: nat, declaration: Declaration) -> (
        Result<nat, TopicError>,
        FabricView<P>,
    ) {
        let (found, after) = self.resolve(node, declaration, publish_right());
        match found {
            Err(error) => (Err(error), after),
            Ok(s) => {
                let at = after.ledger.nodes[node as int];
                match at.position(declaration.event) {
                    None => (Err(TopicError::Denied), after),
                    Some(p) => if at.allowances[p as int].permission.limits.retained_items == 0 {
                        (Err(TopicError::Capacity), after)
                    } else {
                        (Ok(s), after.with_ledger(after.ledger.with_handles(node, 1)))
                    },
                }
            },
        }
    }

    /// The stream with a cursor for a subscription whose charge has the ticket `ticket`.
    pub open spec fn enlist(
        self,
        s: nat,
        index: nat,
        role: SubscriptionRole,
        node: nat,
        ticket: nat,
    ) -> FabricView<P> {
        let st = self.streams[s as int];
        FabricView {
            ledger: self.ledger.assign(ticket, Owner::Receiver(s, st.next_cursor as nat)),
            streams: self.streams.update(
                s as int,
                StreamView {
                    subscribers: st.subscribers.update(
                        index as int,
                        Some(
                            CursorView {
                                id: st.next_cursor,
                                next: st.tail,
                                role,
                                node,
                                ticket,
                            },
                        ),
                    ),
                    next_cursor: (st.next_cursor + 1) as u64,
                    ..st
                },
            ),
        }
    }

    /// Acquiring a subscription: the subscriber slot or the error, and the fabric
    /// afterwards.
    pub open spec fn subscribe(
        self,
        node: nat,
        declaration: Declaration,
        role: SubscriptionRole,
    ) -> (Result<(nat, nat), TopicError>, FabricView<P>) {
        let event = declaration.event;
        let (found, after) = self.resolve(node, declaration, role_rights(role));
        match found {
            Err(error) => (Err(error), after),
            Ok(s) => match after.ledger.stream_charge_error(node, event, one_subscription()) {
                Some(error) => (Err(error), after),
                None => {
                    let ticket = after.ledger.table.len();
                    let charged = after.with_ledger(
                        after.ledger.charge(
                            node,
                            after.ledger.nodes[node as int].position(event),
                            one_subscription().widened(),
                            Owner::Caller,
                        ),
                    );
                    let st = charged.streams[s as int];
                    match charged.ledger.enter_error(node, event, role_rights(role)) {
                        Some(error) => (Err(error), charged.release(ticket)),
                        None => if st.closed {
                            (
                                Err(TopicError::Denied),
                                charged.unlock(s, false).passed(node).release(ticket),
                            )
                        } else {
                            match st.free_subscriber(0) {
                                Some(index) if st.next_cursor < u64::MAX => (
                                    Ok((s, index)),
                                    charged.enlist(s, index, role, node, ticket).unlock(
                                        s,
                                        true,
                                    ).passed(node).with_handles(node, 1),
                                ),
                                _ => (
                                    Err(TopicError::Capacity),
                                    charged.unlock(s, false).passed(node).release(ticket),
                                ),
                            }
                        },
                    }
                },
            },
        }
    }

    pub open spec fn with_handles(self, node: nat, change: int) -> FabricView<P> {
        self.with_ledger(self.ledger.with_handles(node, change))
    }

    /// The stream without the cursor in slot `index`.
    pub open spec fn delist(self, s: nat, index: nat) -> FabricView<P> {
        let st = self.streams[s as int];
        if index < st.subscribers.len() {
            self.with_stream(
                s,
                StreamView { subscribers: st.subscribers.update(index as int, None), ..st },
            )
        } else {
            self
        }
    }

    /// The fabric after a handle of `node` has been given up.
    pub open spec fn drop_handle(self, node: nat) -> FabricView<P> {
        self.with_ledger(self.ledger.with_handles(node, -1).reap(node))
    }

    /// The fabric after a subscription has ended.
    pub open spec fn detach(self, s: nat, index: nat, node: nat, ticket: nat) -> FabricView<P> {
        self.delist(s, index).unlock(s, true).retire_consumed(
            s,
            self.streams[s as int].config.capacity as nat,
        ).drop_handle(node).release(ticket)
    }

    /// Registering a pending operation of `node`: the error, if there is one, and the
    /// fabric afterwards.
    pub open spec fn wait(self, s: nat, node: nat) -> (Option<TopicError>, FabricView<P>) {
        let st = self.streams[s as int];
        let event = st.declaration.event;
        match self.ledger.stream_charge_error(node, event, one_waiter()) {
            Some(error) => (Some(error), self),
            None => {
                let ticket = self.ledger.table.len();
                let position = self.ledger.nodes[node as int].position(event);
                let charge = one_waiter().widened();
                if st.waiters < st.config.waiters {
                    (
                        None,
                        self.with_ledger(
                            self.ledger.charge(node, position, charge, Owner::Waiter(s)),
                        ).with_stream(s, StreamView { waiters: st.waiters + 1, ..st }),
                    )
                } else {
                    (
                        Some(TopicError::Capacity),
                        self.with_ledger(
                            self.ledger.charge(node, position, charge, Owner::Caller),
                        ).release(ticket),
                    )
                }
            },
        }
    }

    /// The fabric after a pending operation has ended.
    pub open spec fn end_wait(self, s: nat, ticket: nat) -> FabricView<P> {
        let st = self.streams[s as int];
        self.with_stream(s, StreamView { waiters: (st.waiters - 1) as nat, ..st }).release(ticket)
    }

    /// The fabric after all retained publications in `entries` have been released, the
    /// oldest first.
    pub open spec fn release_entries(self, entries: Seq<EntryView<P>>) -> FabricView<P>
        decreases entries.len(),
    {
        if entries.len() == 0 {
            self
        } else {
            self.release(entries[0].ticket).release_entries(entries.drop_first())
        }
    }

    /// The fabric after a stream has been closed.
    pub open spec fn close(self, s: nat) -> FabricView<P> {
        let st = self.streams[s as int];
        self.with_stream(
            s,
            StreamView { entries: Seq::empty(), subscribers: Seq::empty(), closed: true, ..st },
        ).unlock(s, true).release_entries(st.entries)
    }

    /// Whether a stream that exists already is what a declaration asks for.
    pub open spec fn redeclare(self, s: nat, declaration: Declaration, config: StreamConfig) -> (
        Result<(), TopicError>,
        FabricView<P>,
    ) {
        let st = self.streams[s as int];
        if st.declaration.payload != declaration.payload {
            (
                Err(TopicError::TypeMismatch(TopicTypeMismatch { id: declaration.event })),
                self,
            )
        } else if st.config != config || st.declaration.wire_major != declaration.wire_major {
            (Err(TopicError::InvalidConfig), self)
        } else if st.closed {
            (Err(TopicError::InvalidConfig), self.unlock(s, false))
        } else {
            (Ok(()), self.unlock(s, false))
        }
    }

    /// Why a new stream cannot be declared, if it cannot.
    pub open spec fn declare_error(self, config: StreamConfig) -> Option<TopicError> {
        if !config.allowance().addressable() || config.capacity == 0 {
            Some(TopicError::InvalidConfig)
        } else {
            None
        }
    }

    /// The fabric with one more, empty stream, charged to the grant `root`.
    pub open spec fn declare(
        self,
        root: nat,
        declaration: Declaration,
        config: StreamConfig,
    ) -> FabricView<P> {
        self.with_ledger(
            self.ledger.charge(
                root,
                None,
                config.allowance(),
                Owner::Storage(self.streams.len()),
            ),
        ).with_stream_storage(declaration, config, self.ledger.table.len())
    }

    /// One more stream, empty, whose storage is charged already.
    pub open spec fn with_stream_storage(
        self,
        declaration: Declaration,
        config: StreamConfig,
        storage: nat,
    ) -> FabricView<P> {
        FabricView {
            streams: self.streams.push(
                StreamView {
                    declaration,
                    config,
                    entries: Seq::empty(),
                    subscribers: Seq::new(config.subscribers as nat, |i: int| None),
                    tail: 0,
                    next_cursor: 0,
                    closed: false,
                    needs_room: false,
                    waiters: 0,
                    deferred: false,
                    storage,
                },
            ),
            ..self
        }
    }

    /// Someone in the fabric holds the charge that belongs to `owner`.
    pub open spec fn claims(self, owner: Owner) -> bool {
        match owner {
            Owner::Entry(s, q) => s < self.streams.len() && exists|i: int|
                0 <= i < self.streams[s as int].entries.len()
                    && (#[trigger] self.streams[s as int].entries[i]).sequence == q,
            Owner::Receiver(s, id) => s < self.streams.len() && exists|i: int|
                0 <= i < self.streams[s as int].subscribers.len() && (
                #[trigger] self.streams[s as int].subscribers[i]) is Some
                    && self.streams[s as int].subscribers[i]->0.id == id,
            Owner::Storage(s) => s < self.streams.len(),
            _ => false,
        }
    }

    /// The retained publications are the latest ones, without a hole.
    pub open spec fn entries_sound(self, s: nat) -> bool {
        let st = self.streams[s as int];
        &&& st.config.capacity > 0
        &&& st.entries.len() <= st.config.capacity
        &&& st.entries.len() <= st.tail
        &&& forall|i: int|
            #![trigger st.entries[i]]
            0 <= i < st.entries.len() ==> {
                &&& st.entries[i].sequence == st.tail - st.entries.len() + i
                &&& self.ledger.outstanding(st.entries[i].ticket)
                &&& self.ledger.record(st.entries[i].ticket).owner == Owner::Entry(
                    s,
                    st.entries[i].sequence as nat,
                )
            }
    }

    /// Every cursor is charged, distinct and not ahead of the stream. What a required
    /// receiver still has to receive is retained while its grant is in force.
    pub open spec fn cursors_sound(self, s: nat) -> bool {
        let st = self.streams[s as int];
        &&& st.closed ==> st.entries.len() == 0 && st.subscribers.len() == 0
        &&& !st.closed ==> st.subscribers.len() == st.config.subscribers
        &&& forall|i: int|
            #![trigger st.subscribers[i]]
            0 <= i < st.subscribers.len() && st.subscribers[i] is Some ==> {
                let cursor = st.subscribers[i]->0;
                &&& cursor.next <= st.tail
                &&& cursor.id < st.next_cursor
                &&& cursor.node < self.ledger.nodes.len()
                &&& self.ledger.outstanding(cursor.ticket)
                &&& self.ledger.record(cursor.ticket).node == cursor.node
                &&& self.ledger.record(cursor.ticket).owner == Owner::Receiver(
                    s,
                    cursor.id as nat,
                )
                &&& cursor.role == SubscriptionRole::Required
                    && !self.ledger.nodes[cursor.node as int].revoked ==> st.tail - st.entries.len()
                    <= cursor.next
            }
        &&& forall|i: int, j: int|
            #![trigger st.subscribers[i], st.subscribers[j]]
            0 <= i < j < st.subscribers.len() && st.subscribers[i] is Some && st.subscribers[j] is Some
                ==> st.subscribers[i]->0.id != st.subscribers[j]->0.id
    }

    /// The pending operations are counted, and the stream itself is charged.
    pub open spec fn charges_sound(self, s: nat) -> bool {
        let st = self.streams[s as int];
        &&& st.waiters == tally(self.ledger.table, of_owner(Owner::Waiter(s)))
        &&& st.waiters <= st.config.waiters
        &&& self.ledger.outstanding(st.storage)
        &&& self.ledger.record(st.storage).owner == Owner::Storage(s)
    }

    pub open spec fn stream_sound(self, s: nat) -> bool {
        self.entries_sound(s) && self.cursors_sound(s) && self.charges_sound(s)
    }

    /// The fabric is in order.
    pub open spec fn wf(self) -> bool {
        &&& self.ledger.wf()
        &&& self.streams.len() <= u64::MAX
        &&& forall|s: nat| s < self.streams.len() ==> #[trigger] self.stream_sound(s)
        &&& forall|a: int, b: int|
            #![trigger self.streams[a], self.streams[b]]
            0 <= a < b < self.streams.len() ==> self.streams[a].declaration.event
                != self.streams[b].declaration.event
        &&& forall|s: nat|
            s >= self.streams.len() ==> #[trigger] tally(
                self.ledger.table,
                of_owner(Owner::Waiter(s)),
            ) == 0
    }
}

/// The right to publish.
pub open spec fn publish_right() -> Rights {
    Rights::of_bits(1)
}

/// The right to observe.
pub open spec fn observe_right() -> Rights {
    Rights::of_bits(2)
}

/// What a subscription with this role needs.
pub open spec fn role_rights(role: SubscriptionRole) -> Rights {
    match role {
        SubscriptionRole::Observer => Rights::of_bits(2),
        SubscriptionRole::Required => Rights::of_bits(6),
    }
}

} // verus!

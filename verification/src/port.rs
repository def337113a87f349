//! Typed endpoints and how components bind to them.
use crate::error::{ReceiveError, SendError, TopicError, TrySendError};
use crate::event::{EventSpec, EventValue};
use crate::item::{Progress, StreamItem, SubscriptionRole};
use core::task::Waker;
use std::marker::PhantomData;
use vstd::prelude::*;

verus! {

/// Marker implemented by typed endpoints and component ports.
pub trait Port {

}

/// A payload prepared for callback-free, nonwaiting admission.
pub trait PreparedSend<E: EventSpec>: Sized {
    /// The prepared payload.
    open spec fn prepared(&self) -> E::Payload {
        arbitrary()
    }

    /// Attempts admission. Rejection retains the prepared payload and reservation.
    ///
    /// # Errors
    ///
    /// Returns capacity, contention, maintenance, or lifecycle rejection.
    fn try_send(self) -> (result: Result<(), TrySendError<Self>>)
        ensures
            result matches Err(error) ==> error.payload() == self,
    ;

    /// Cancels preparation and returns the payload. May reclaim storage and wake waiters.
    fn into_inner(self) -> (payload: E::Payload)
        ensures
            payload == self.prepared(),
    ;
}

/// A publication that waits for local admission.
pub trait PendingPublish<E: EventSpec>: Sized {
    /// The payload that is not accepted yet.
    open spec fn unaccepted(&self) -> Option<E::Payload> {
        arbitrary()
    }

    /// The operation is in order.
    open spec fn sound(&self) -> bool {
        true
    }

    /// Drives the publication. While it is pending, `waker` is woken when it may advance.
    /// A completed publication must not be polled again.
    fn poll(&mut self, waker: &Waker) -> (progress: Progress<Result<(), SendError<E::Payload>>>)
        requires
            old(self).sound(),
            old(self).unaccepted() is Some,
        ensures
            final(self).sound(),
            match progress {
                Progress::Pending => final(self).unaccepted() == old(self).unaccepted(),
                Progress::Ready(result) => {
                    &&& final(self).unaccepted() is None
                    &&& result matches Err(error) ==> error.payload() == old(self).unaccepted()->0
                },
            },
    ;

    /// Cancels the publication and its waiter, and returns the unaccepted payload.
    fn cancel(self) -> (payload: Option<E::Payload>)
        requires
            self.sound(),
        ensures
            payload == self.unaccepted(),
    ;
}

/// A receive that waits for data, a gap, or termination.
pub trait PendingReception<V>: Sized {
    /// The operation is in order.
    open spec fn sound(&self) -> bool {
        true
    }

    /// Drives the receive. While it is pending, `waker` is woken when it may advance.
    fn poll(&mut self, waker: &Waker) -> (progress: Progress<Result<StreamItem<V>, ReceiveError>>)
        requires
            old(self).sound(),
        ensures
            final(self).sound(),
    ;

    /// Cancels the receive and its waiter.
    fn cancel(self)
        requires
            self.sound(),
    ;
}

/// Publication into a single typed stream.
pub trait EventSender<E: EventSpec>: Sized {
    /// Prepared payload and its bounded reservation.
    type Prepared: PreparedSend<E>;

    /// A publication that waits.
    type Pending: PendingPublish<E>;

    /// The two senders publish into the same stream with the same authority.
    open spec fn same(&self, other: &Self) -> bool {
        true
    }

    /// Another sender with the same capability, without another allowance.
    fn duplicate(&self) -> (copy: Self)
        ensures
            self.same(&copy),
    ;

    /// Allocates and reserves storage before strict admission. May run cleanup callbacks.
    ///
    /// # Errors
    ///
    /// Returns the unaccepted payload if storage or authority is unavailable.
    fn prepare(&self, payload: E::Payload) -> (result: Result<
        Self::Prepared,
        TrySendError<E::Payload>,
    >)
        ensures
            match result {
                Ok(prepared) => prepared.prepared() == payload,
                Err(error) => error.payload() == payload,
            },
    ;

    /// Attempts admission, returning ownership on rejection.
    ///
    /// # Errors
    ///
    /// Returns the backend's capacity, contention, lifecycle, waiter, or sequence
    /// rejection together with the unaccepted payload.
    fn send_now(&self, payload: E::Payload) -> (result: Result<(), TrySendError<E::Payload>>)
        ensures
            result matches Err(error) ==> error.payload() == payload,
    ;

    /// Starts a publication that waits for local admission. Success does not acknowledge
    /// processing.
    fn send(&self, payload: E::Payload) -> (pending: Self::Pending)
        ensures
            pending.unaccepted() == Some(payload),
            pending.sound(),
    ;
}

/// The publication capability declared by a port.
pub trait EventPort<E: EventSpec>: Port {
    /// Backend sender retained by this port.
    type Sender: EventSender<E>;

    /// The sender for this event.
    open spec fn retained(&self) -> Self::Sender {
        arbitrary()
    }

    /// Borrows the sender for this event.
    fn event_sender(&self) -> (sender: &Self::Sender)
        ensures
            *sender == self.retained(),
    ;
}

/// Prepared storage selected by a port's sender backend.
pub type PortPreparation<P, E> = <<P as EventPort<E>>::Sender as EventSender<E>>::Prepared;

/// The receive capability declared by a port.
pub trait EventReceiver<E: EventSpec>: Port {
    /// Owned payload or a backend-owned payload handle.
    type Value: std::ops::Deref<Target = E::Payload>;

    /// A receive that waits.
    type Pending: PendingReception<Self::Value>;

    /// Receives without allocation, cleanup, or wake callbacks. Requires caller maintenance.
    ///
    /// # Errors
    ///
    /// Returns contention or termination without advancing the cursor.
    fn event_try_recv(&self) -> Result<Option<StreamItem<Self::Value>>, ReceiveError>;

    /// Receives data or a gap without waiting for a publication.
    ///
    /// # Errors
    ///
    /// Returns the backend's contention, waiter-capacity, or termination error.
    fn event_recv_now(&self) -> Result<Option<StreamItem<Self::Value>>, ReceiveError>;

    /// Starts a receive that waits for data, a gap, or termination.
    fn event_recv(&self) -> (pending: Self::Pending)
        ensures
            pending.sound(),
    ;
}

/// Event-value syntax shared by all ports.
pub trait PortExt: Port {
    /// Prepares a tagged payload for strict admission through [`PreparedSend::try_send`].
    ///
    /// # Errors
    ///
    /// Propagates the backend's preparation rejection with the original payload.
    fn prepare<E: EventSpec>(&self, event: EventValue<E>) -> (result: Result<
        PortPreparation<Self, E>,
        TrySendError<E::Payload>,
    >) where Self: EventPort<E>
        ensures
            call_ensures(
                <<Self as EventPort<E>>::Sender as EventSender<E>>::prepare,
                (&<Self as EventPort<E>>::retained(self), event.payload()),
                result,
            ),
            match result {
                Ok(prepared) => prepared.prepared() == event.payload(),
                Err(error) => error.payload() == event.payload(),
            },
    {
        self.event_sender().prepare(event.into_inner())
    }

    /// Attempts local admission of a tagged payload.
    ///
    /// # Errors
    ///
    /// Propagates [`EventSender::send_now`] rejection with the original payload.
    fn publish_now<E: EventSpec>(&self, event: EventValue<E>) -> (result: Result<
        (),
        TrySendError<E::Payload>,
    >) where Self: EventPort<E>
        ensures
            call_ensures(
                <<Self as EventPort<E>>::Sender as EventSender<E>>::send_now,
                (&<Self as EventPort<E>>::retained(self), event.payload()),
                result,
            ),
            result matches Err(error) ==> error.payload() == event.payload(),
    {
        self.event_sender().send_now(event.into_inner())
    }

    /// Starts a publication of a tagged payload that waits for local admission.
    fn publish<E: EventSpec>(&self, event: EventValue<E>) -> (pending: <<Self as EventPort<
        E,
    >>::Sender as EventSender<E>>::Pending) where Self: EventPort<E>
        ensures
            call_ensures(
                <<Self as EventPort<E>>::Sender as EventSender<E>>::send,
                (&<Self as EventPort<E>>::retained(self), event.payload()),
                pending,
            ),
            pending.unaccepted() == Some(event.payload()),
            pending.sound(),
    {
        self.event_sender().send(event.into_inner())
    }

    /// Receives without allocation, cleanup, or wake callbacks. Requires caller maintenance.
    ///
    /// # Errors
    ///
    /// Propagates the backend's contention or termination error.
    fn try_recv<E: EventSpec>(&self) -> (result: Result<
        Option<StreamItem<<Self as EventReceiver<E>>::Value>>,
        ReceiveError,
    >) where Self: EventReceiver<E>
        ensures
            call_ensures(<Self as EventReceiver<E>>::event_try_recv, (self,), result),
    {
        self.event_try_recv()
    }

    /// Receives data or a gap for one declared event.
    ///
    /// # Errors
    ///
    /// Propagates [`EventReceiver::event_recv_now`] errors.
    fn recv_now<E: EventSpec>(&self) -> (result: Result<
        Option<StreamItem<<Self as EventReceiver<E>>::Value>>,
        ReceiveError,
    >) where Self: EventReceiver<E>
        ensures
            call_ensures(<Self as EventReceiver<E>>::event_recv_now, (self,), result),
    {
        self.event_recv_now()
    }

    /// Starts a receive of one declared event that waits.
    fn recv<E: EventSpec>(&self) -> (pending: <Self as EventReceiver<
        E,
    >>::Pending) where Self: EventReceiver<E>
        ensures
            call_ensures(<Self as EventReceiver<E>>::event_recv, (self,), pending),
            pending.sound(),
    {
        self.event_recv()
    }
}

impl<P: Port> PortExt for P {

}

/// Starts a publication of a tagged payload through a generic port.
pub fn publish<E: EventSpec, P: EventPort<E>>(port: &P, event: EventValue<E>) -> (pending:
    <P::Sender as EventSender<E>>::Pending)
    ensures
        call_ensures(
            <P::Sender as EventSender<E>>::send,
            (&port.retained(), event.payload()),
            pending,
        ),
        pending.unaccepted() == Some(event.payload()),
        pending.sound(),
{
    port.publish(event)
}

/// Binding whose endpoints may borrow caller-owned stream storage.
pub trait PortBinding<'a, E: EventSpec> {
    /// Sender for the selected stream.
    type Sender: EventSender<E>;

    /// Subscription that owns its membership lifetime.
    type Receiver: EventReceiver<E>;

    /// Resolves the publication capability.
    ///
    /// # Errors
    ///
    /// Returns a binding error for invalid configuration, exhausted allowances, missing
    /// authority, revocation, or an incompatible payload type.
    fn sender(&self) -> Result<Self::Sender, TopicError>;

    /// Acquires membership with the requested backpressure role.
    ///
    /// # Errors
    ///
    /// Returns a binding error if the event or role is unavailable, its authority is
    /// revoked, or bounded subscription storage is exhausted.
    fn subscribe(&self, role: SubscriptionRole) -> Result<Self::Receiver, TopicError>;
}

/// Binding whose endpoints own their storage and membership handles.
pub trait OwnedPortBinding<E: EventSpec> {
    /// Sender retained by an owned port.
    type Sender: EventSender<E>;

    /// Receiver retained by an owned port.
    type Receiver: EventReceiver<E>;

    /// Resolves an owned publication capability.
    ///
    /// # Errors
    ///
    /// Returns a binding error for invalid configuration, exhausted allowances, missing
    /// authority, revocation, or an incompatible payload type.
    fn sender_owned(&self) -> Result<Self::Sender, TopicError>;

    /// Acquires owned membership with the requested backpressure role.
    ///
    /// # Errors
    ///
    /// Returns a binding error if the event or role is unavailable, its authority is
    /// revoked, or bounded subscription storage is exhausted.
    fn subscribe_owned(&self, role: SubscriptionRole) -> Result<Self::Receiver, TopicError>;
}

/// A named event sender retained independently of its fabric.
pub struct Topic<E: EventSpec, S: EventSender<E>> {
    sender: S,
    marker: PhantomData<E>,
}

impl<E: EventSpec, S: EventSender<E>> Topic<E, S> {
    /// The retained sender.
    pub closed spec fn retained(self) -> S {
        self.sender
    }

    /// Retains the supplied sender.
    pub fn new(sender: S) -> (topic: Self)
        ensures
            topic.retained() == sender,
    {
        Topic { sender, marker: PhantomData }
    }

    /// Copies the existing capability, without acquiring another allowance.
    pub fn sender(&self) -> (sender: S)
        ensures
            self.retained().same(&sender),
    {
        self.sender.duplicate()
    }

    /// Attempts local admission.
    ///
    /// # Errors
    ///
    /// Propagates [`EventSender::send_now`] rejection with the original payload.
    pub fn send_now(&self, payload: E::Payload) -> (result: Result<(), TrySendError<E::Payload>>)
        ensures
            call_ensures(
                <S as EventSender<E>>::send_now,
                (&self.retained(), payload),
                result,
            ),
            result matches Err(error) ==> error.payload() == payload,
    {
        self.sender.send_now(payload)
    }

    /// Starts a publication that waits for local admission.
    pub fn send(&self, payload: E::Payload) -> (pending: S::Pending)
        ensures
            call_ensures(<S as EventSender<E>>::send, (&self.retained(), payload), pending),
            pending.unaccepted() == Some(payload),
            pending.sound(),
    {
        self.sender.send(payload)
    }

    /// Another topic with the same capability.
    pub fn duplicate(&self) -> (copy: Self)
        ensures
            self.retained().same(&copy.retained()),
    {
        Topic::new(self.sender.duplicate())
    }
}

} // verus!

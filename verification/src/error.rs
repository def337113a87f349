//! Why bindings, publications and receives fail.
use crate::event::EventId;
use vstd::prelude::*;
use vstd::string::StringExecFns;

verus! {

/// An event identity was resolved with a different payload type.
#[derive(Clone, Copy, Debug, PartialEq, Eq, Structural)]
pub struct TopicTypeMismatch {
    /// Conflicting identity.
    pub id: EventId,
}

impl TopicTypeMismatch {
    /// The text that [`Self::message`] gives.
    pub open spec fn text(self) -> Seq<char> {
        "event ID "@ + self.id.text() + " is already bound to another payload type"@
    }

    /// Describes the mismatch.
    pub fn message(&self) -> (message: String)
        ensures
            message@ == self.text(),
    {
        let mut message = String::from_str("event ID ");
        message.append(self.id.message().as_str());
        message.append(" is already bound to another payload type");
        message
    }
}

/// A binding could not be acquired.
#[derive(Clone, Copy, Debug, PartialEq, Eq, Structural)]
#[non_exhaustive]
pub enum TopicError {
    /// Concurrent admission changed the capability state; retry without waiting.
    Contended,
    /// The identity already names a different payload type.
    TypeMismatch(TopicTypeMismatch),
    /// The configured resource allowance is exhausted.
    Capacity,
    /// The grant does not permit this operation.
    Denied,
    /// The grant has been revoked.
    Revoked,
    /// The requested bounds or configuration are invalid.
    InvalidConfig,
}

impl TopicError {
    /// The text that [`Self::message`] gives.
    pub open spec fn text(self) -> Seq<char> {
        match self {
            TopicError::Contended => "capability state is contended"@,
            TopicError::TypeMismatch(error) => error.text(),
            TopicError::Capacity => "resource allowance is exhausted"@,
            TopicError::Denied => "operation is not permitted by this grant"@,
            TopicError::Revoked => "grant has been revoked"@,
            TopicError::InvalidConfig => "invalid stream configuration"@,
        }
    }

    /// Describes the error.
    pub fn message(&self) -> (message: String)
        ensures
            message@ == self.text(),
    {
        match self {
            TopicError::Contended => String::from_str("capability state is contended"),
            TopicError::TypeMismatch(error) => error.message(),
            TopicError::Capacity => String::from_str("resource allowance is exhausted"),
            TopicError::Denied => String::from_str("operation is not permitted by this grant"),
            TopicError::Revoked => String::from_str("grant has been revoked"),
            TopicError::InvalidConfig => String::from_str("invalid stream configuration"),
        }
    }
}

/// Why a stream or endpoint terminated.
#[derive(Clone, Copy, Debug, PartialEq, Eq, Structural)]
#[non_exhaustive]
pub enum CloseReason {
    /// Its owner closed it.
    Closed,
    /// Its authority was revoked.
    Revoked,
    /// Its transport disconnected.
    Disconnected,
}

impl CloseReason {
    /// The text that [`Self::message`] gives.
    pub open spec fn text(self) -> Seq<char> {
        match self {
            CloseReason::Closed => "closed"@,
            CloseReason::Revoked => "revoked"@,
            CloseReason::Disconnected => "disconnected"@,
        }
    }

    /// Describes the reason.
    pub fn message(&self) -> (message: String)
        ensures
            message@ == self.text(),
    {
        match self {
            CloseReason::Closed => String::from_str("closed"),
            CloseReason::Revoked => String::from_str("revoked"),
            CloseReason::Disconnected => String::from_str("disconnected"),
        }
    }
}

/// A rejected publication. Every variant retains the unaccepted payload.
#[derive(Debug, PartialEq, Eq)]
#[non_exhaustive]
pub enum TrySendError<T> {
    /// A required receiver prevents overwriting retained data.
    Full(T),
    /// Another operation owns the stream's synchronization state.
    Contended(T),
    /// Eligible retained storage needs caller-driven reclamation before retrying.
    MaintenanceRequired(T),
    /// The endpoint is closed.
    Closed(T),
    /// The endpoint's authority has been revoked.
    Revoked(T),
    /// No bounded waiter record is available.
    WaitersFull(T),
    /// The sequence counter cannot advance without wrapping.
    SequenceExhausted(T),
}

impl<T> TrySendError<T> {
    /// The payload that was not accepted.
    pub open spec fn payload(self) -> T {
        match self {
            TrySendError::Full(value) => value,
            TrySendError::Contended(value) => value,
            TrySendError::MaintenanceRequired(value) => value,
            TrySendError::Closed(value) => value,
            TrySendError::Revoked(value) => value,
            TrySendError::WaitersFull(value) => value,
            TrySendError::SequenceExhausted(value) => value,
        }
    }

    /// The same rejection of another payload.
    pub open spec fn with_payload<U>(self, value: U) -> TrySendError<U> {
        match self {
            TrySendError::Full(_) => TrySendError::Full(value),
            TrySendError::Contended(_) => TrySendError::Contended(value),
            TrySendError::MaintenanceRequired(_) => TrySendError::MaintenanceRequired(value),
            TrySendError::Closed(_) => TrySendError::Closed(value),
            TrySendError::Revoked(_) => TrySendError::Revoked(value),
            TrySendError::WaitersFull(_) => TrySendError::WaitersFull(value),
            TrySendError::SequenceExhausted(_) => TrySendError::SequenceExhausted(value),
        }
    }

    /// Maps the rejected payload without changing the rejection reason.
    pub fn map<U>(self, map: impl FnOnce(T) -> U) -> (mapped: TrySendError<U>)
        requires
            map.requires((self.payload(),)),
        ensures
            map.ensures((self.payload(),), mapped.payload()),
            mapped == self.with_payload(mapped.payload()),
    {
        match self {
            TrySendError::Full(value) => TrySendError::Full(map(value)),
            TrySendError::Contended(value) => TrySendError::Contended(map(value)),
            TrySendError::MaintenanceRequired(value) => TrySendError::MaintenanceRequired(
                map(value),
            ),
            TrySendError::Closed(value) => TrySendError::Closed(map(value)),
            TrySendError::Revoked(value) => TrySendError::Revoked(map(value)),
            TrySendError::WaitersFull(value) => TrySendError::WaitersFull(map(value)),
            TrySendError::SequenceExhausted(value) => TrySendError::SequenceExhausted(map(value)),
        }
    }

    /// Returns the payload that was not accepted.
    #[must_use]
    pub fn into_inner(self) -> (value: T)
        ensures
            value == self.payload(),
    {
        match self {
            TrySendError::Full(value) => value,
            TrySendError::Contended(value) => value,
            TrySendError::MaintenanceRequired(value) => value,
            TrySendError::Closed(value) => value,
            TrySendError::Revoked(value) => value,
            TrySendError::WaitersFull(value) => value,
            TrySendError::SequenceExhausted(value) => value,
        }
    }

    /// The text that [`Self::message`] gives.
    pub open spec fn text(self) -> Seq<char> {
        match self {
            TrySendError::Full(_) => "required receiver has exhausted stream capacity"@,
            TrySendError::Contended(_) => "stream state is contended"@,
            TrySendError::MaintenanceRequired(_) => "retained storage needs maintenance"@,
            TrySendError::Closed(_) => "endpoint is closed"@,
            TrySendError::Revoked(_) => "endpoint authority has been revoked"@,
            TrySendError::WaitersFull(_) => "waiter storage is full"@,
            TrySendError::SequenceExhausted(_) => "stream sequence is exhausted"@,
        }
    }

    /// Describes the rejection.
    pub fn message(&self) -> (message: String)
        ensures
            message@ == self.text(),
    {
        match self {
            TrySendError::Full(_) => String::from_str(
                "required receiver has exhausted stream capacity",
            ),
            TrySendError::Contended(_) => String::from_str("stream state is contended"),
            TrySendError::MaintenanceRequired(_) => String::from_str(
                "retained storage needs maintenance",
            ),
            TrySendError::Closed(_) => String::from_str("endpoint is closed"),
            TrySendError::Revoked(_) => String::from_str("endpoint authority has been revoked"),
            TrySendError::WaitersFull(_) => String::from_str("waiter storage is full"),
            TrySendError::SequenceExhausted(_) => String::from_str("stream sequence is exhausted"),
        }
    }
}

/// A waiting publication rejected before acceptance, retaining its payload.
#[derive(Clone, Copy, Debug, PartialEq, Eq)]
#[non_exhaustive]
pub enum SendError<T = ()> {
    /// The endpoint is closed.
    Closed(T),
    /// The endpoint's authority has been revoked.
    Revoked(T),
    /// No bounded waiter record is available.
    WaitersFull(T),
    /// The sequence counter cannot advance without wrapping.
    SequenceExhausted(T),
}

impl<T> SendError<T> {
    /// The payload that was not accepted.
    pub open spec fn payload(self) -> T {
        match self {
            SendError::Closed(value) => value,
            SendError::Revoked(value) => value,
            SendError::WaitersFull(value) => value,
            SendError::SequenceExhausted(value) => value,
        }
    }

    /// The same rejection of another payload.
    pub open spec fn with_payload<U>(self, value: U) -> SendError<U> {
        match self {
            SendError::Closed(_) => SendError::Closed(value),
            SendError::Revoked(_) => SendError::Revoked(value),
            SendError::WaitersFull(_) => SendError::WaitersFull(value),
            SendError::SequenceExhausted(_) => SendError::SequenceExhausted(value),
        }
    }

    /// Returns the payload that was not accepted.
    #[must_use]
    pub fn into_inner(self) -> (value: T)
        ensures
            value == self.payload(),
    {
        match self {
            SendError::Closed(value) => value,
            SendError::Revoked(value) => value,
            SendError::WaitersFull(value) => value,
            SendError::SequenceExhausted(value) => value,
        }
    }

    /// Maps the rejected payload without changing the rejection reason.
    pub fn map<U>(self, map: impl FnOnce(T) -> U) -> (mapped: SendError<U>)
        requires
            map.requires((self.payload(),)),
        ensures
            map.ensures((self.payload(),), mapped.payload()),
            mapped == self.with_payload(mapped.payload()),
    {
        match self {
            SendError::Closed(value) => SendError::Closed(map(value)),
            SendError::Revoked(value) => SendError::Revoked(map(value)),
            SendError::WaitersFull(value) => SendError::WaitersFull(map(value)),
            SendError::SequenceExhausted(value) => SendError::SequenceExhausted(map(value)),
        }
    }

    /// The text that [`Self::message`] gives.
    pub open spec fn text(self) -> Seq<char> {
        match self {
            SendError::Closed(_) => "endpoint is closed"@,
            SendError::Revoked(_) => "endpoint authority has been revoked"@,
            SendError::WaitersFull(_) => "waiter storage is full"@,
            SendError::SequenceExhausted(_) => "stream sequence is exhausted"@,
        }
    }

    /// Describes the rejection.
    pub fn message(&self) -> (message: String)
        ensures
            message@ == self.text(),
    {
        match self {
            SendError::Closed(_) => String::from_str("endpoint is closed"),
            SendError::Revoked(_) => String::from_str("endpoint authority has been revoked"),
            SendError::WaitersFull(_) => String::from_str("waiter storage is full"),
            SendError::SequenceExhausted(_) => String::from_str("stream sequence is exhausted"),
        }
    }
}

/// A receive operation could not proceed.
#[derive(Clone, Copy, Debug, PartialEq, Eq, Structural)]
#[non_exhaustive]
pub enum ReceiveError {
    /// Another operation owns the stream's synchronization state.
    Contended,
    /// No bounded waiter record is available.
    WaitersFull,
    /// The endpoint terminated with this reason.
    Closed(CloseReason),
}

impl ReceiveError {
    /// The text that [`Self::message`] gives.
    pub open spec fn text(self) -> Seq<char> {
        match self {
            ReceiveError::Contended => "stream state is contended"@,
            ReceiveError::WaitersFull => "waiter storage is full"@,
            ReceiveError::Closed(reason) => "endpoint terminated: "@ + reason.text(),
        }
    }

    /// Describes the error.
    pub fn message(&self) -> (message: String)
        ensures
            message@ == self.text(),
    {
        match self {
            ReceiveError::Contended => String::from_str("stream state is contended"),
            ReceiveError::WaitersFull => String::from_str("waiter storage is full"),
            ReceiveError::Closed(reason) => {
                let mut message = String::from_str("endpoint terminated: ");
                message.append(reason.message().as_str());
                message
            },
        }
    }
}

/// An event declared by a port could not be bound.
#[derive(Clone, Copy, Debug, PartialEq, Eq, Structural)]
#[non_exhaustive]
pub enum PortError {
    /// The binding was rejected.
    Topic(TopicError),
}

impl PortError {
    /// The text that [`Self::message`] gives.
    pub open spec fn text(self) -> Seq<char> {
        match self {
            PortError::Topic(error) => error.text(),
        }
    }

    /// Describes the error.
    pub fn message(&self) -> (message: String)
        ensures
            message@ == self.text(),
    {
        match self {
            PortError::Topic(error) => error.message(),
        }
    }
}

impl From<TopicError> for PortError {
    fn from(error: TopicError) -> (result: Self) {
        PortError::Topic(error)
    }
}

impl vstd::std_specs::convert::FromSpecImpl<TopicError> for PortError {
    open spec fn obeys_from_spec() -> bool {
        true
    }

    open spec fn from_spec(error: TopicError) -> Self {
        PortError::Topic(error)
    }
}

/// A rejection of another payload is one for the same reason, with that payload.
pub proof fn law_rejection<T, U>(now: TrySendError<T>, later: SendError<T>, value: U)
    ensures
        now.with_payload(value).payload() == value,
        now is Full <==> now.with_payload(value) is Full,
        now is Contended <==> now.with_payload(value) is Contended,
        now is MaintenanceRequired <==> now.with_payload(value) is MaintenanceRequired,
        now is Closed <==> now.with_payload(value) is Closed,
        now is Revoked <==> now.with_payload(value) is Revoked,
        now is WaitersFull <==> now.with_payload(value) is WaitersFull,
        now is SequenceExhausted <==> now.with_payload(value) is SequenceExhausted,
        later.with_payload(value).payload() == value,
        later is Closed <==> later.with_payload(value) is Closed,
        later is Revoked <==> later.with_payload(value) is Revoked,
        later is WaitersFull <==> later.with_payload(value) is WaitersFull,
        later is SequenceExhausted <==> later.with_payload(value) is SequenceExhausted,
{
}

/// A payload that was not accepted is the one that the rejection was made with.
pub proof fn law_rejected<T>(value: T)
    ensures
        TrySendError::Full(value).payload() == value,
        TrySendError::Contended(value).payload() == value,
        TrySendError::MaintenanceRequired(value).payload() == value,
        TrySendError::Closed(value).payload() == value,
        TrySendError::Revoked(value).payload() == value,
        TrySendError::WaitersFull(value).payload() == value,
        TrySendError::SequenceExhausted(value).payload() == value,
        SendError::Closed(value).payload() == value,
        SendError::Revoked(value).payload() == value,
        SendError::WaitersFull(value).payload() == value,
        SendError::SequenceExhausted(value).payload() == value,
{
}

} // verus!

//! What receivers are and what they get.
use vstd::prelude::*;

verus! {

/// Whether a receiver may retain data needed by future publications.
#[derive(Clone, Copy, Debug, PartialEq, Eq, Structural)]
pub enum SubscriptionRole {
    /// May fall behind; missing sequences are reported as gaps.
    Observer,
    /// Prevents overwriting data until receipt or detachment.
    Required,
}

impl Default for SubscriptionRole {
    fn default() -> (role: Self)
        ensures
            role == SubscriptionRole::Observer,
    {
        SubscriptionRole::Observer
    }
}

/// A sequenced value or a half-open range of missed sequences.
#[derive(Clone, Copy, Debug, PartialEq, Eq)]
pub enum StreamItem<T> {
    /// An accepted publication.
    Data {
        /// Sequence assigned at stream admission.
        sequence: u64,
        /// Owned payload or backend-owned payload handle.
        value: T,
    },
    /// Publications no longer retained for this observer.
    Gap {
        /// First missed sequence, inclusive.
        from: u64,
        /// First sequence after the gap, exclusive.
        to: u64,
    },
}

impl<T> StreamItem<T> {
    /// Maps data without changing its sequence or a gap's boundaries.
    pub fn map<U>(self, map: impl FnOnce(T) -> U) -> (mapped: StreamItem<U>)
        requires
            self matches StreamItem::Data { sequence, value } ==> map.requires((value,)),
        ensures
            match self {
                StreamItem::Data { sequence, value } => {
                    &&& mapped matches StreamItem::Data { sequence: kept, value: result }
                    &&& kept == sequence
                    &&& map.ensures((value,), result)
                },
                StreamItem::Gap { from, to } => mapped == (StreamItem::<U>::Gap { from, to }),
            },
    {
        match self {
            StreamItem::Data { sequence, value } => StreamItem::Data {
                sequence,
                value: map(value),
            },
            StreamItem::Gap { from, to } => StreamItem::Gap { from, to },
        }
    }
}

/// A received payload held directly, without allocation.
#[derive(Clone, Copy, Debug, PartialEq, Eq)]
pub struct PayloadValue<T>(pub T);

impl<T> std::ops::Deref for PayloadValue<T> {
    type Target = T;

    fn deref(&self) -> (value: &T)
        ensures
            *value == self.0,
    {
        &self.0
    }
}

impl<T> PayloadValue<T> {
    /// Returns the owned payload.
    pub fn into_inner(self) -> (value: T)
        ensures
            value == self.0,
    {
        self.0
    }
}

/// Whether a pending operation has come to an end.
#[derive(Clone, Copy, Debug, PartialEq, Eq)]
pub enum Progress<R> {
    /// Not yet; its waker is registered.
    Pending,
    /// With this result.
    Ready(R),
}

} // verus!

//! What the streams of one fabric carry: payloads of several types in one.
use crate::fabric::share;
use std::marker::PhantomData;
use std::sync::Arc;
use vstd::prelude::*;

verus! {

/// A type that stands for the payloads of all streams of a fabric: one payload type in
/// [`Single`], or an enum with a variant for each of several.
pub trait Payloads: Sized {
    /// Number of the payload type that the value carries.
    open spec fn kind(&self) -> u64 {
        arbitrary()
    }
}

/// A type that carries payloads of type `T`, among others.
pub trait Carries<T>: Payloads {
    /// Number of the payload type. Different payload types have different numbers.
    const PAYLOAD: u64;

    /// The value that carries a payload.
    open spec fn carried(payload: T) -> Self {
        arbitrary()
    }

    /// The payload that a value carries.
    open spec fn payload(&self) -> T {
        arbitrary()
    }

    /// Carries a payload. It is known by its number, and comes out as it went in.
    fn carry(payload: T) -> (value: Self)
        ensures
            value == Self::carried(payload),
            value.kind() == Self::PAYLOAD,
            value.payload() == payload,
    ;

    /// Hands the payload back.
    fn unload(self) -> (payload: T)
        requires
            self.kind() == Self::PAYLOAD,
        ensures
            payload == self.payload(),
    ;

    /// Borrows the payload.
    fn look(&self) -> (payload: &T)
        requires
            self.kind() == Self::PAYLOAD,
        ensures
            *payload == self.payload(),
    ;
}

/// Carries payloads of one type only.
#[derive(Clone, Copy, Debug, PartialEq, Eq)]
pub struct Single<T>(pub T);

impl<T> Payloads for Single<T> {
    open spec fn kind(&self) -> u64 {
        0
    }
}

impl<T> Carries<T> for Single<T> {
    const PAYLOAD: u64 = 0;

    open spec fn carried(payload: T) -> Self {
        Single(payload)
    }

    open spec fn payload(&self) -> T {
        self.0
    }

    fn carry(payload: T) -> (value: Self) {
        Single(payload)
    }

    fn unload(self) -> (payload: T) {
        self.0
    }

    fn look(&self) -> (payload: &T) {
        &self.0
    }
}

/// A handle to a retained payload. Copies share it.
#[derive(Debug, PartialEq, Eq)]
#[verifier::reject_recursive_types(T)]
pub struct Shared<T, P: Carries<T>> {
    value: Arc<P>,
    marker: PhantomData<T>,
}

impl<T, P: Carries<T>> Shared<T, P> {
    /// The payload is of type `T`.
    #[verifier::type_invariant]
    spec fn holds(&self) -> bool {
        self.value.kind() == P::PAYLOAD
    }

    /// What the stream retains.
    pub closed spec fn retained(self) -> P {
        *self.value
    }

    /// The payload.
    pub open spec fn payload(self) -> T {
        self.retained().payload()
    }

    /// Borrows the payload.
    pub fn get(&self) -> (payload: &T)
        ensures
            *payload == self.payload(),
    {
        proof {
            use_type_invariant(self);
        }
        self.value.look()
    }

    /// Another handle to the same payload.
    pub fn duplicate(&self) -> (copy: Self)
        ensures
            copy.retained() == self.retained(),
    {
        proof {
            use_type_invariant(self);
        }
        Shared { value: share(&self.value), marker: PhantomData }
    }

    /// Makes a handle of what a stream retains.
    pub(crate) fn new(value: Arc<P>) -> (shared: Self)
        requires
            value.kind() == P::PAYLOAD,
        ensures
            shared.retained() == *value,
    {
        Shared { value, marker: PhantomData }
    }
}

impl<T, P: Carries<T>> std::ops::Deref for Shared<T, P> {
    type Target = T;

    fn deref(&self) -> (payload: &T)
        ensures
            *payload == self.payload(),
    {
        self.get()
    }
}

} // verus!

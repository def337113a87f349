//! Event identities and declarations.
use crate::text::{hex_digits, push_hex};
use std::marker::PhantomData;
use vstd::prelude::*;
use vstd::std_specs::cmp::PartialEqSpec;
use vstd::utf8::encode_utf8;

verus! {

/// Offset basis of the 128-bit FNV-1a hash.
pub const FNV_OFFSET: u128 = 0x6c62272e07bb014262b821756295c58d;

/// Prime of the 128-bit FNV-1a hash.
pub const FNV_PRIME: u128 = 0x0000000001000000000000000000013b;

/// Stable identity for one event specification.
///
/// The value is derived from a declaration name. Payload types are deliberately
/// excluded: two distinct events may carry the same payload type.
#[derive(Clone, Copy, Debug, PartialEq, Eq, Structural, Hash)]
pub struct EventId(pub u128);

/// The 128-bit FNV-1a hash of `bytes`: starting from the offset basis, each byte
/// is mixed in by exclusive or and the result is multiplied by the prime, modulo
/// 2^128.
pub open spec fn fnv1a(bytes: Seq<u8>) -> u128
    decreases bytes.len(),
{
    if bytes.len() == 0 {
        FNV_OFFSET
    } else {
        (fnv1a(bytes.drop_last()) ^ (bytes.last() as u128)).wrapping_mul(FNV_PRIME)
    }
}

impl EventId {
    /// Computes the stable FNV-1a-128 identity for a declaration name.
    #[must_use]
    pub fn from_name(name: &str) -> (id: Self)
        ensures
            id.0 == fnv1a(encode_utf8(name@)),
    {
        let bytes = name.as_bytes();
        let mut hash: u128 = FNV_OFFSET;
        let mut index: usize = 0;
        while index < bytes.len()
            invariant
                index <= bytes@.len(),
                hash == fnv1a(bytes@.take(index as int)),
            decreases bytes@.len() - index,
        {
            proof {
                assert(bytes@.take(index + 1).drop_last() =~= bytes@.take(index as int));
            }
            hash = (hash ^ (bytes[index] as u128)).wrapping_mul(FNV_PRIME);
            index += 1;
        }
        proof {
            assert(bytes@.take(index as int) =~= bytes@);
        }
        EventId(hash)
    }

    /// Returns the raw 128-bit identity.
    #[must_use]
    pub fn as_u128(self) -> (value: u128)
        ensures
            value == self.0,
    {
        self.0
    }

    /// Reconstructs an identity received from a wire envelope.
    #[must_use]
    pub fn from_u128(value: u128) -> (id: Self)
        ensures
            id.0 == value,
    {
        EventId(value)
    }

    /// The text that [`Self::message`] gives.
    pub open spec fn text(self) -> Seq<char> {
        hex_digits(self.0 as nat, 32)
    }

    /// The identity as 32 hexadecimal digits.
    pub fn message(&self) -> (message: String)
        ensures
            message@ == self.text(),
    {
        let mut message = String::new();
        push_hex(&mut message, self.0, 32);
        assert(message@ =~= self.text());
        message
    }
}

/// A routable event declaration.
pub trait EventSpec {
    /// Payload carried by this event specification.
    type Payload;

    /// Stable identity used by local and remote routing domains.
    const ID: EventId;

    /// Breaking wire generation. Compatible schema revisions keep this value.
    const WIRE_MAJOR: u16 = 1;

    /// Non-breaking schema revision within [`Self::WIRE_MAJOR`].
    const SCHEMA_REVISION: u32 = 1;
}

/// A payload tagged with the event specification that selects its route.
pub struct EventValue<E: EventSpec> {
    payload: E::Payload,
    marker: PhantomData<E>,
}

impl<E: EventSpec> EventValue<E> {
    /// The tagged payload.
    pub closed spec fn payload(self) -> E::Payload {
        self.payload
    }

    /// Tags one payload with its event specification.
    #[must_use]
    pub fn new(payload: E::Payload) -> (value: Self)
        ensures
            value.payload() == payload,
    {
        EventValue { payload, marker: PhantomData }
    }

    /// Removes the event tag and returns the payload.
    #[must_use]
    pub fn into_inner(self) -> (payload: E::Payload)
        ensures
            payload == self.payload(),
    {
        self.payload
    }
}

impl<E: EventSpec> Clone for EventValue<E> where E::Payload: Clone {
    fn clone(&self) -> (copy: Self)
        ensures
            cloned(self.payload(), copy.payload()),
    {
        EventValue::new(self.payload.clone())
    }
}

impl<E: EventSpec> PartialEq for EventValue<E> where E::Payload: PartialEq {
    fn eq(&self, other: &Self) -> (equal: bool) {
        self.payload == other.payload
    }
}

impl<E: EventSpec> vstd::std_specs::cmp::PartialEqSpecImpl for EventValue<E> where E::Payload: PartialEq {
    open spec fn obeys_eq_spec() -> bool {
        E::Payload::obeys_eq_spec()
    }

    open spec fn eq_spec(&self, other: &Self) -> bool {
        self.payload().eq_spec(&other.payload())
    }
}

impl<E: EventSpec> Copy for EventValue<E> where E::Payload: Copy {

}

impl<E: EventSpec> Eq for EventValue<E> where E::Payload: Eq {

}

} // verus!

//! Requests for room, and what came of them.
use std::collections::VecDeque;
use vstd::prelude::*;

verus! {

/// What came of one request for room. Only the requests of this module make one.
pub struct Reservation {
    granted: bool,
    asked: Ghost<nat>,
}

impl Reservation {
    /// For how many items room was asked.
    pub closed spec fn asked(self) -> nat {
        self.asked@
    }

    /// The room was to be had.
    pub closed spec fn granted(self) -> bool {
        self.granted
    }

    /// It was a request for that much room, which is always to be had for nothing.
    pub open spec fn is_for(self, amount: nat) -> bool {
        &&& self.asked() == amount
        &&& amount == 0 ==> self.granted()
    }

    /// Tests whether the room was to be had.
    pub fn is_granted(&self) -> (granted: bool)
        ensures
            granted == self.granted(),
    {
        self.granted
    }
}

/// Tries to reserve room for exactly `additional` more items.
///
/// Calls [`Vec::try_reserve_exact`]. Whether the room can be had depends on the machine,
/// unless none is asked for; the contents stay as they are either way.
#[verifier::external_body]
pub(crate) fn reserve_exact<T>(items: &mut Vec<T>, additional: usize) -> (reservation: Reservation)
    ensures
        final(items)@ == old(items)@,
        reservation.is_for(additional as nat),
{
    let outcome = items.try_reserve_exact(additional);
    Reservation { granted: outcome.is_ok(), asked: Ghost(additional as nat) }
}

/// Tries to reserve room for exactly `additional` more items of a queue.
///
/// Calls [`VecDeque::try_reserve_exact`]. Whether the room can be had depends on the
/// machine, unless none is asked for; the contents stay as they are either way.
#[verifier::external_body]
pub(crate) fn reserve_queue<T>(items: &mut VecDeque<T>, additional: usize) -> (reservation:
    Reservation)
    ensures
        final(items)@ == old(items)@,
        reservation.is_for(additional as nat),
{
    let outcome = items.try_reserve_exact(additional);
    Reservation { granted: outcome.is_ok(), asked: Ghost(additional as nat) }
}

/// Tries to reserve room for at least one more item. Room is only had for a length that
/// can be counted.
pub(crate) fn reserve_one<T>(items: &mut Vec<T>) -> (reservation: Reservation)
    ensures
        final(items)@ == old(items)@,
        reservation.is_for(1),
        reservation.granted() ==> old(items)@.len() < usize::MAX,
{
    let granted = items.len() < usize::MAX && items.try_reserve(1).is_ok();
    Reservation { granted, asked: Ghost(1) }
}

} // verus!

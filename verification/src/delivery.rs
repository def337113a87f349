//! Deliveries through a callback, and a record of them.
use vstd::prelude::*;

verus! {

/// A callback, and what it was called with so far. Only [`Deliveries::new`] makes one, and
/// only [`Deliveries::deliver`] adds to it.
pub struct Deliveries<A, B, F: FnMut(A, B)> {
    callback: F,
    given: Ghost<F>,
    made: Ghost<Seq<(A, B)>>,
}

/// What a callback was called with, all in all. Only [`Deliveries::end`] makes one, which
/// gives the callback up.
pub struct Delivered<A, B, F: FnMut(A, B)> {
    given: Ghost<F>,
    made: Ghost<Seq<(A, B)>>,
}

impl<A, B, F: FnMut(A, B)> Deliveries<A, B, F> {
    /// The callback that it was made of.
    pub closed spec fn given(self) -> F {
        self.given@
    }

    /// The arguments of every call, the first one first.
    pub closed spec fn made(self) -> Seq<(A, B)> {
        self.made@
    }

    /// The callback is the one that it was made of.
    pub closed spec fn wf(self) -> bool {
        self.callback == self.given@
    }

    /// Takes over a callback that has not been called.
    pub(crate) fn new(callback: F) -> (deliveries: Self)
        ensures
            deliveries.wf(),
            deliveries.given() == callback,
            deliveries.made() == Seq::<(A, B)>::empty(),
    {
        Deliveries { callback, given: Ghost(callback), made: Ghost(Seq::empty()) }
    }

    /// Calls the callback once.
    pub(crate) fn deliver(self, first: A, second: B) -> (after: Self)
        requires
            self.wf(),
            self.given().requires((first, second)),
        ensures
            after.wf(),
            after.given() == self.given(),
            after.made() == self.made().push((first, second)),
            self.given().ensures((first, second), ()),
    {
        let mut callback = self.callback;
        let ghost arguments = (first, second);
        callback(first, second);
        Deliveries { callback, given: self.given, made: Ghost(self.made@.push(arguments)) }
    }

    /// Gives the callback up.
    pub(crate) fn end(self) -> (delivered: Delivered<A, B, F>)
        ensures
            delivered.given() == self.given(),
            delivered.made() == self.made(),
    {
        Delivered { given: self.given, made: self.made }
    }
}

impl<A, B, F: FnMut(A, B)> Delivered<A, B, F> {
    /// The callback.
    pub closed spec fn given(self) -> F {
        self.given@
    }

    /// The arguments of every call, the first one first.
    pub closed spec fn made(self) -> Seq<(A, B)> {
        self.made@
    }
}

} // verus!

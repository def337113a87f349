//! A value behind a lock, and what each access to it found and left.
use vstd::prelude::*;

verus! {

/// The lock of the spin crate.
#[verifier::external_type_specification]
#[verifier::external_body]
#[verifier::reject_recursive_types(T)]
#[verifier::reject_recursive_types(R)]
pub struct ExMutex<T: ?Sized, R>(spin::mutex::Mutex<T, R>);

/// How the lock of the spin crate waits.
#[verifier::external_type_specification]
#[verifier::external_body]
pub struct ExSpin(spin::relax::Spin);

/// Exclusive access to what the lock protects.
#[verifier::external_type_specification]
#[verifier::external_body]
#[verifier::reject_recursive_types(T)]
pub struct ExMutexGuard<'a, T: ?Sized + 'a>(spin::mutex::MutexGuard<'a, T>);

/// A value that is used by one thread at a time. Only [`Guarded::new`] makes one.
#[verifier::reject_recursive_types(T)]
pub struct Guarded<T> {
    lock: spin::Mutex<T>,
    first: Ghost<T>,
}

/// Exclusive access to a [`Guarded`] value, until [`Access::end`]. Only a lock that was
/// taken gives one.
#[verifier::reject_recursive_types(T)]
pub struct Access<'a, T> {
    cell: &'a Guarded<T>,
    guard: spin::MutexGuard<'a, T>,
    found: Ghost<T>,
    value: Ghost<T>,
}

/// What came of one try to take a lock.
#[verifier::reject_recursive_types(T)]
pub struct Attempt<'a, T> {
    cell: &'a Guarded<T>,
    access: Option<Access<'a, T>>,
}

impl<T> Guarded<T> {
    /// The value that the lock was made with.
    pub closed spec fn first(self) -> T {
        self.first@
    }

    /// Puts a value behind a lock.
    ///
    /// Calls [`spin::Mutex::new`]. What the lock protects later on is left unsaid: it
    /// depends on who has had access.
    #[verifier::external_body]
    pub(crate) fn new(value: T) -> (cell: Guarded<T>)
        ensures
            cell.first() == value,
    {
        let first = Ghost(value);
        Guarded { lock: spin::Mutex::new(value), first }
    }

    /// Waits for exclusive access.
    pub fn lock(&self) -> (access: Access<'_, T>)
        ensures
            access.of() == self,
            access.value() == access.found(),
    {
        take(self)
    }
}

impl<'a, T> Access<'a, T> {
    /// The value that access was had to.
    pub closed spec fn of(self) -> &'a Guarded<T> {
        self.cell
    }

    /// What the lock protected when it was taken.
    pub closed spec fn found(self) -> T {
        self.found@
    }

    /// What the lock protects now.
    pub closed spec fn value(self) -> T {
        self.value@
    }

    /// Borrows what the lock protects.
    ///
    /// Dereferences a [`spin::MutexGuard`]: what is stored through the borrow is what the
    /// lock protects from then on.
    #[verifier::external_body]
    pub(crate) fn held(&mut self) -> (value: &mut T)
        ensures
            *value == old(self).value(),
            final(self).value() == *final(value),
            final(self).found() == old(self).found(),
            final(self).of() == old(self).of(),
    {
        &mut *self.guard
    }

    /// The access has ended: nothing is held any more.
    pub closed spec fn ended(self) -> bool {
        call_ensures(Access::<'a, T>::end, (self,), ())
    }

    /// Ends the access, which sets the lock free.
    fn end(self) {
    }

    /// Ends the access and sets the lock free.
    pub(crate) fn leave(self)
        ensures
            self.ended(),
    {
        self.end()
    }
}

impl<'a, T> Attempt<'a, T> {
    /// The value that access was tried for.
    pub closed spec fn of(self) -> &'a Guarded<T> {
        self.cell
    }

    /// The access, if no other thread had it.
    pub closed spec fn access(self) -> Option<Access<'a, T>> {
        self.access
    }

    /// Hands the access on.
    pub(crate) fn into_access(self) -> (access: Option<Access<'a, T>>)
        ensures
            access == self.access(),
    {
        self.access
    }
}

/// Waits for exclusive access.
///
/// Calls [`spin::Mutex::lock`], which returns once no other thread has access. What the
/// lock protects by then depends on those other threads.
#[verifier::external_body]
fn take<'a, T>(cell: &'a Guarded<T>) -> (access: Access<'a, T>)
    ensures
        access.of() == cell,
        access.value() == access.found(),
{
    let guard = cell.lock.lock();
    let found = Ghost(*guard);
    Access { cell, guard, found, value: found }
}

/// Takes exclusive access if no other thread has it.
///
/// Calls [`spin::Mutex::try_lock`]. Whether access can be had, and what the lock protects,
/// depends on other threads.
#[verifier::external_body]
pub(crate) fn try_take<'a, T>(cell: &'a Guarded<T>) -> (attempt: Attempt<'a, T>)
    ensures
        attempt.of() == cell,
        attempt.access() matches Some(access) ==> access.of() == cell && access.value()
            == access.found(),
{
    let access = match cell.lock.try_lock() {
        Some(guard) => {
            let found = Ghost(*guard);
            Some(Access { cell, guard, found, value: found })
        },
        None => None,
    };
    Attempt { cell, access }
}

} // verus!

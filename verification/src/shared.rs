//! Locks on what several threads share, which a thread that panicked does not
//! take from the others.

use std::sync::{Arc, LockResult, Mutex, MutexGuard, PoisonError};
use vstd::prelude::*;

verus! {

/// `std::sync::Mutex`.
#[verifier::external_type_specification]
#[verifier::external_body]
#[verifier::reject_recursive_types(T)]
pub struct ExMutex<T: ?Sized>(Mutex<T>);

/// `std::sync::MutexGuard`, the right to what a mutex holds.
#[verifier::external_type_specification]
#[verifier::external_body]
#[verifier::reject_recursive_types(T)]
pub struct ExMutexGuard<'a, T: ?Sized + 'a>(MutexGuard<'a, T>);

/// `std::sync::PoisonError`, which a lock comes with after a panic.
#[verifier::external_type_specification]
#[verifier::external_body]
#[verifier::reject_recursive_types(T)]
pub struct ExPoisonError<T>(PoisonError<T>);

/// `Mutex::lock` waits for the mutex and gives the guard of it, inside an
/// error when a thread panicked with it. What the mutex holds by now, and
/// whether it is poisoned, is left unsaid: it rests on the other threads. A
/// thread that asks for a mutex it already holds waits for itself.
pub assume_specification<T: ?Sized>[ Mutex::<T>::lock ](mutex: &Mutex<T>) -> (locked: LockResult<
    MutexGuard<'_, T>,
>);

/// `PoisonError::into_inner` gives what came inside the error. Which guard that
/// is, is left unsaid.
pub assume_specification<T>[ PoisonError::<T>::into_inner ](poisoned: PoisonError<T>) -> (inner: T);

/// An in-memory wire that several ends share: what one end writes, the other
/// reads, in order.
pub type Wire = Arc<Mutex<Vec<u8>>>;

/// What `mutex` holds, whether or not a thread panicked with it: the guard is
/// the one that locking this mutex gives, be it inside an error.
pub fn lock<T>(mutex: &Mutex<T>) -> (guard: MutexGuard<'_, T>)
    ensures
        call_ensures(Mutex::<T>::lock, (mutex,), Ok(guard)) || exists|
            poisoned: PoisonError<MutexGuard<'_, T>>,
        | #[trigger]
            call_ensures(Mutex::<T>::lock, (mutex,), Err(poisoned)) && call_ensures(
                PoisonError::<MutexGuard<'_, T>>::into_inner,
                (poisoned,),
                guard,
            ),
{
    match mutex.lock() {
        Ok(guard) => guard,
        Err(poisoned) => poisoned.into_inner(),
    }
}

/// What is on `line`, as [`lock`] gives it.
pub fn lock_line(line: &Wire) -> (guard: MutexGuard<'_, Vec<u8>>)
    ensures
        call_ensures(lock::<Vec<u8>>, (&**line,), guard),
{
    lock(line)
}

} // verus!

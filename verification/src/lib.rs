//! Destructors can be expensive, and a program may wish to run them later,
//! when it has time to spare. A bin takes any number of values of any types
//! and keeps them until it is cleared; clearing it destroys them all,
//! whenever the program asks for it.
//!
//! A value is handed over with its type erased (`Erased`): its bytes, its
//! alignment and a capability whose drop is the value's destructor. The
//! arena of the bin (`Arena`) keeps the bytes in storage segments, where
//! they can be read back until the next clear, and the capability in a
//! segmented vector (`ConcurrentVec`), where it waits for that clear.
//!
//! A bin never blocks. The arena sits behind two locks that can only be
//! tried: values are added under shared access to the bin (`Bin`), one at a
//! time to the arena (`Inner`), and a clear takes exclusive access. An `add`
//! that meets a clear destroys its value at once, as does one that never
//! finds the arena free of other adds, and a `clear` that meets an `add` is
//! made up for by the next call that finds the bin free.
//!
//! What the arena does is stated in the contracts of `Arena` and, over runs
//! of additions and clears, in `laws`. What the functions of `Inner` and
//! `Bin` find behind their locks depends on the other threads: of them only
//! that is stated which holds of every arena.

pub mod arena;
pub mod concurrent_list;
pub mod concurrent_slice;
pub mod concurrent_vec;
pub mod inner;
pub mod laws;

pub use arena::Arena;
pub use arena::Capability;
pub use arena::Destroy;
pub use arena::Erased;
pub use arena::Location;
pub use concurrent_list::ConcurrentList;
pub use concurrent_slice::ConcurrentSlice;
pub use concurrent_vec::ConcurrentVec;
pub use inner::Inner;
use std::ops::Deref;
use std::ops::DerefMut;
use std::sync::atomic::AtomicBool;
use std::sync::atomic::Ordering;
use try_rwlock::ReadGuard;
use try_rwlock::TryRwLock;
use try_rwlock::WriteGuard;
use vstd::prelude::*;

verus! {

/// `try_rwlock::TryRwLock`, a readers-writer lock that never blocks. It is
/// carried through as an opaque value: nothing is claimed about what it
/// guards.
#[verifier::external_type_specification]
#[verifier::external_body]
#[verifier::reject_recursive_types(T)]
pub struct ExTryRwLock<T>(TryRwLock<T>);

/// `try_rwlock::ReadGuard`, which stands for shared access to what a
/// `TryRwLock` guards and gives the access up when it is dropped.
#[verifier::external_type_specification]
#[verifier::external_body]
#[verifier::reject_recursive_types(T)]
#[verifier::reject_recursive_types(U)]
pub struct ExReadGuard<'lock, T, U>(ReadGuard<'lock, T, U>);

/// `try_rwlock::WriteGuard`, which stands for exclusive access to what a
/// `TryRwLock` guards and gives the access up when it is dropped.
#[verifier::external_type_specification]
#[verifier::external_body]
#[verifier::reject_recursive_types(T)]
#[verifier::reject_recursive_types(U)]
pub struct ExWriteGuard<'lock, T, U>(WriteGuard<'lock, T, U>);

/// `TryRwLock::new` makes an unlocked lock around `data`. Nothing is claimed
/// of the result.
pub assume_specification<T>[ TryRwLock::<T>::new ](data: T) -> TryRwLock<T>;

/// `TryRwLock::try_read` takes shared access unless a writer holds the lock
/// or no more readers can be counted, and returns `None` then. Which of the
/// two happens depends on the other threads, so nothing is claimed of the
/// result.
pub assume_specification<T>[ TryRwLock::<T>::try_read ](lock: &TryRwLock<T>) -> Option<
    ReadGuard<'_, T>,
>;

/// `TryRwLock::try_write` takes exclusive access if nobody holds the lock,
/// and returns `None` otherwise. Which of the two happens depends on the
/// other threads, so nothing is claimed of the result.
pub assume_specification<T>[ TryRwLock::<T>::try_write ](lock: &TryRwLock<T>) -> Option<
    WriteGuard<'_, T>,
>;

/// `TryRwLock::into_inner` consumes the lock and hands out what it guards.
/// Nothing is claimed of the result.
pub assume_specification<T>[ TryRwLock::<T>::into_inner ](lock: TryRwLock<T>) -> T;

/// `ReadGuard::deref`: the guarded value, for as long as the guard is
/// borrowed. Nothing is claimed of the value.
#[verifier::external_body]
fn read_access<'a, T>(guard: &'a ReadGuard<'_, T>) -> &'a T {
    guard.deref()
}

/// `WriteGuard::deref_mut`: the guarded value, to be changed for as long as
/// the guard is borrowed. Nothing is claimed of the value.
#[verifier::external_body]
fn write_access<'a, T>(guard: &'a mut WriteGuard<'_, T>) -> &'a mut T {
    guard.deref_mut()
}

/// Accepts exactly the types that may be moved to and shared between threads.
pub fn assert_thread_safe<T: Send + Sync>() {
}

/// A container that holds values for later destruction.
///
/// Any number of threads may add values and ask for a clear at the same
/// time, and none of them ever waits for another. Every value that is handed
/// to the bin is destroyed exactly once: by a clear, by the call that found
/// the bin busy, or when the bin itself is dropped.
pub struct Bin<'a> {
    /// The inner data of the bin. While it is locked for writing, the bin is
    /// being cleared.
    inner: TryRwLock<Inner<'a>>,
    /// Whether a clear has been asked for that is still to be done.
    clear: AtomicBool,
}

impl<'a> Bin<'a> {
    /// Creates a new, empty bin.
    pub fn new() -> Self {
        Bin { inner: TryRwLock::new(Inner::new()), clear: AtomicBool::new(false) }
    }

    /// Adds a value to the bin.
    ///
    /// The value is handed to the arena under shared access, as `Inner::add`
    /// says, and waits there for the next clear. It is destroyed at once
    /// instead, before the call returns, in three cases:
    /// - the bin is being cleared;
    /// - other threads are adding values and the arena is never found free,
    ///   however often `Inner::add` looks;
    /// - the value has bytes and no segment can be had for them.
    ///
    /// Whatever becomes of the value, a clear that is still to be done is
    /// tried again.
    pub fn add(&self, value: Erased<Capability<'a>>) {
        match self.inner.try_read() {
            Some(guard) => {
                read_access(&guard).add(value);
            },
            None => {
                value.destroy();
            },
        }
        self.try_clear();
    }

    /// Clears the bin, destroying every value that was added to it before.
    ///
    /// If another thread is adding a value at this moment, the clear is not
    /// done now but by the next `add` or `clear` that finds the bin free.
    pub fn clear(&self) {
        self.clear.store(true, Ordering::Relaxed);
        self.try_clear();
    }

    /// Does the clear that has been asked for, if there is one and exclusive
    /// access can be had at once. Otherwise the request stands.
    fn try_clear(&self) {
        if self.clear.load(Ordering::Relaxed) {
            match self.inner.try_write() {
                Some(mut guard) => {
                    self.clear.store(false, Ordering::Relaxed);
                    write_access(&mut guard).clear();
                },
                None => {},
            }
        }
    }

    /// The size of the bin in bytes: what its storage segments can hold
    /// together, or 0 while the bin is being cleared.
    pub fn size(&self) -> usize {
        match self.inner.try_read() {
            Some(guard) => read_access(&guard).size(),
            None => 0,
        }
    }

    /// Gives the bin up and destroys every value that is still in it, the
    /// one added last first.
    pub fn finish(self) {
        let mut inner: Inner<'a> = self.inner.into_inner();
        inner.clear();
    }
}

impl<'a> Default for Bin<'a> {
    fn default() -> Self {
        Bin::new()
    }
}

} // verus!

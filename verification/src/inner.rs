//! The inner data of a bin: the arena, behind a lock that lets any number of
//! threads add to it without ever waiting for one another.

use crate::arena::added;
use crate::arena::can_be_named;
use crate::arena::capacity_sum;
use crate::arena::cleared;
use crate::arena::largest_segment;
use crate::arena::lemma_named_can_be;
use crate::arena::locations_of;
use crate::arena::names;
use crate::arena::unused;
use crate::arena::Arena;
use crate::arena::Capability;
use crate::arena::Erased;
use crate::arena::Location;
use crate::arena::State;
use std::ops::DerefMut;
use std::sync::atomic::AtomicUsize;
use std::sync::atomic::Ordering;
use try_mutex::TryMutex;
use try_mutex::TryMutexGuard;
use vstd::prelude::*;

verus! {

/// How often an `add` that finds another `add` at work looks again before it
/// gives up and destroys its value.
pub const ATTEMPTS: usize = 1024;

/// `try_mutex::TryMutex`, a lock that never blocks. It is carried through as
/// an opaque value: nothing is claimed about what it holds.
#[verifier::external_type_specification]
#[verifier::external_body]
#[verifier::reject_recursive_types(T)]
pub struct ExTryMutex<T>(TryMutex<T>);

/// `try_mutex::TryMutexGuard`, which stands for the lock on a `TryMutex` and
/// gives it up when it is dropped.
#[verifier::external_type_specification]
#[verifier::external_body]
#[verifier::reject_recursive_types(T)]
pub struct ExTryMutexGuard<'a, T: 'a>(TryMutexGuard<'a, T>);

/// `TryMutex::new` makes an unlocked mutex around `t`. Nothing is claimed of
/// the result.
pub assume_specification<T>[ TryMutex::<T>::new ](t: T) -> TryMutex<T>;

/// `TryMutex::try_lock` takes the lock if nobody holds it, and returns `None`
/// otherwise. Which of the two happens depends on the other threads, so
/// nothing is claimed of the result.
pub assume_specification<T>[ TryMutex::<T>::try_lock ](mutex: &TryMutex<T>) -> Option<
    TryMutexGuard<'_, T>,
>;

/// `TryMutex::get_mut` reaches what the mutex holds without locking, which
/// the exclusive borrow of the mutex allows. Nothing is claimed of the value.
pub assume_specification<T>[ TryMutex::<T>::get_mut ](mutex: &mut TryMutex<T>) -> &mut T;

/// `TryMutexGuard::deref_mut`: what the locked mutex holds, to be changed for
/// as long as the guard is borrowed. Nothing is claimed of the value.
#[verifier::external_body]
fn locked_access<'a, T>(guard: &'a mut TryMutexGuard<'_, T>) -> &'a mut T {
    guard.deref_mut()
}

/// An arena that is known to be well formed wherever it turns up, so that it
/// can be kept behind a lock and found in order by whoever takes the lock.
///
/// What is done to the arena behind the lock is done through the functions
/// of this type, and their contracts hold of whatever arena the lock gives.
#[verifier::reject_recursive_types(D)]
struct Sealed<D> {
    arena: Arena<D>,
}

impl<D> Sealed<D> {
    #[verifier::type_invariant]
    spec fn sound(self) -> bool {
        self.arena.wf()
    }

    /// The sealed arena as the contracts see it.
    spec fn view(&self) -> State<D> {
        self.arena@
    }

    /// Seals a new, unused arena.
    fn new() -> (sealed: Self)
        ensures
            sealed@ == unused::<D>(),
    {
        Sealed { arena: Arena::new() }
    }

    /// Takes the arena out and leaves an unused one in its place.
    fn take(&mut self) -> (arena: Arena<D>)
        ensures
            arena.wf(),
            arena@ == old(self)@,
            final(self)@ == unused::<D>(),
    {
        proof {
            use_type_invariant(&*self);
        }
        let mut arena: Arena<D> = Arena::new();
        core::mem::swap(&mut arena, &mut self.arena);
        arena
    }

    /// The arena, to be looked at.
    fn peek(&self) -> (arena: &Arena<D>)
        ensures
            arena.wf(),
            arena@ == self@,
    {
        proof {
            use_type_invariant(self);
        }
        &self.arena
    }

    /// Puts an arena back in the place that `take` left unused, so that
    /// nothing is lost in its place.
    fn put(&mut self, arena: Arena<D>)
        requires
            arena.wf(),
            old(self)@ == unused::<D>(),
        ensures
            final(self)@ == arena@,
    {
        self.arena = arena;
    }

    /// Adds a value to the sealed arena, as `Arena::add` does, and returns
    /// the size that the arena then has.
    fn add(&mut self, value: Erased<D>) -> (size: usize)
        ensures
            final(self)@ == added(
                old(self)@,
                value.payload(),
                value.spec_align(),
                value.capability(),
            ),
            size == if capacity_sum(final(self)@.segments) > usize::MAX {
                usize::MAX as nat
            } else {
                capacity_sum(final(self)@.segments)
            },
    {
        let mut arena: Arena<D> = self.take();
        arena.add(value);
        let size: usize = arena.size();
        self.put(arena);
        size
    }

    /// Clears the sealed arena, as `Arena::clear` does.
    fn clear(&mut self)
        ensures
            final(self)@ == cleared(old(self)@),
    {
        let mut arena: Arena<D> = self.take();
        arena.clear();
        self.put(arena);
    }

    /// The locations of the values that wait in the sealed arena, from the
    /// value added last to the value added first. The arena is left as it
    /// is, and each of the locations names a place in its storage.
    fn locations(&mut self) -> (found: Vec<Location>)
        ensures
            final(self)@ == old(self)@,
            found@ == locations_of(old(self)@.entries),
            forall|i: int|
                0 <= i < found@.len() ==> names(old(self)@.segments, #[trigger] found@[i])
                    && can_be_named(found@[i]),
    {
        let mut arena: Arena<D> = self.take();
        proof {
            arena.lemma_entries_named();
            arena.lemma_segments_sound();
            assert forall|i: int| 0 <= i < arena@.entries.len() implies can_be_named(
                (#[trigger] arena@.entries[i]).location,
            ) by {
                lemma_named_can_be(arena@.segments, arena@.entries[i].location);
            }
        }
        let found: Vec<Location> = arena.locations();
        self.put(arena);
        found
    }
}

/// The inner data of a bin: its arena behind a lock that never blocks.
///
/// Values can be added under shared access, by any number of threads at the
/// same time: each of them takes the lock for as long as it is at work on
/// the arena. Clearing takes exclusive access.
pub struct Inner<'a> {
    /// The arena, locked by whoever adds to it.
    arena: TryMutex<Sealed<Capability<'a>>>,
    /// The size of the arena in bytes. It is kept beside the lock so that it
    /// can be read without taking the lock.
    size: AtomicUsize,
}

impl<'a> Inner<'a> {
    /// Makes the inner data of an empty bin.
    pub fn new() -> Self {
        Inner { arena: TryMutex::new(Sealed::new()), size: AtomicUsize::new(0) }
    }

    /// Adds the given value to the arena, so that it is destroyed by the next
    /// clear.
    ///
    /// The value is stored as `Arena::add` says: its bytes are placed in
    /// storage and its capability waits for the clear. It is destroyed at
    /// once instead, before the call returns, in two cases:
    /// - other threads are adding values and the lock on the arena is never
    ///   found free, though the call looks for it `ATTEMPTS` times and once
    ///   more;
    /// - the value has bytes and no segment can be had for them, as
    ///   `placement` says.
    pub fn add(&self, value: Erased<Capability<'a>>) {
        let mut attempts: usize = ATTEMPTS;
        loop
            invariant
                attempts <= ATTEMPTS,
            decreases attempts,
        {
            match self.arena.try_lock() {
                Some(mut guard) => {
                    let size: usize = locked_access(&mut guard).add(value);
                    self.size.store(size, Ordering::Relaxed);
                    return ;
                },
                None => {
                    if attempts == 0 {
                        value.destroy();
                        return ;
                    }
                    attempts = attempts - 1;
                },
            }
        }
    }

    /// Clears the arena: destroys every value that waits in it, the one added
    /// last first, and takes all of its storage out of use.
    pub fn clear(&mut self) {
        self.arena.get_mut().clear();
    }

    /// The size of the arena in bytes: what its storage segments can hold
    /// together, whether in use or not.
    pub fn size(&self) -> usize {
        self.size.load(Ordering::Relaxed)
    }

    /// The number of values that wait to be destroyed, counted up to
    /// `usize::MAX`.
    pub fn pending(&mut self) -> usize {
        self.arena.get_mut().peek().pending()
    }

    /// Whether the arena has no storage segment yet.
    pub fn is_unused(&mut self) -> bool {
        self.arena.get_mut().peek().is_unused()
    }

    /// The locations of the values that wait to be destroyed, from the value
    /// added last to the value added first.
    ///
    /// Which values wait is for the arena behind the lock to say. What holds
    /// of every arena is stated here: each location is one that an arena
    /// hands out, the place of a value without bytes, which is never null,
    /// or an offset that a segment can have.
    pub fn locations(&mut self) -> (found: Vec<Location>)
        ensures
            forall|i: int| 0 <= i < found@.len() ==> can_be_named(#[trigger] found@[i]),
    {
        self.arena.get_mut().locations()
    }

    /// Copies out the `size` bytes that stand at `location`, if `location`
    /// names that many bytes in use.
    ///
    /// Which bytes are in use is for the arena behind the lock to say. What
    /// holds of every arena is stated here: the place of a value without
    /// bytes names no bytes, no bytes stand beyond what a segment can hold,
    /// and what is copied out is as long as was asked for.
    pub fn read(&mut self, location: Location, size: usize) -> (bytes: Option<Vec<u8>>)
        ensures
            location is Sentinel ==> bytes is None,
            location matches Location::Slot { segment, offset } && offset + size
                > largest_segment() ==> bytes is None,
            bytes matches Some(found) ==> found@.len() == size,
    {
        let arena: &Arena<Capability<'a>> = self.arena.get_mut().peek();
        proof {
            arena.lemma_segments_sound();
        }
        arena.read(location, size)
    }
}

impl<'a> Default for Inner<'a> {
    fn default() -> Self {
        Inner::new()
    }
}

} // verus!

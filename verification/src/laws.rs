//! What holds of an arena over any run of additions and clears.
//!
//! `Arena::add` takes an arena from `state` to `added(state, ..)` and
//! `Arena::clear` takes it to `cleared(state)`. The statements here are about
//! those two functions, and so about every arena that the library makes.

use crate::arena::added;
use crate::arena::capabilities_of;
use crate::arena::capacity_sum;
use crate::arena::cleared;
use crate::arena::emptied;
use crate::arena::filled;
use crate::arena::fits;
use crate::arena::grown;
use crate::arena::largest_segment;
use crate::arena::lemma_reused;
use crate::arena::padding;
use crate::arena::payload_at;
use crate::arena::placement;
use crate::arena::reused;
use crate::arena::sound;
use crate::arena::stored;
use crate::arena::Entry;
use crate::arena::Location;
use crate::arena::Segment;
use crate::arena::State;
use vstd::multiset::Multiset;
use vstd::prelude::*;

verus! {

/// One operation on an arena.
pub enum Step<D> {
    /// A value with these bytes, this alignment and this capability is added.
    Add { payload: Seq<u8>, align: nat, destroy: D },
    /// The arena is cleared.
    Clear,
}

/// The arena after one operation.
pub open spec fn step<D>(state: State<D>, step: Step<D>) -> State<D> {
    match step {
        Step::Add { payload, align, destroy } => added(state, payload, align, destroy),
        Step::Clear => cleared(state),
    }
}

/// The arena after a run of operations, done in order.
pub open spec fn run<D>(state: State<D>, steps: Seq<Step<D>>) -> State<D>
    decreases steps.len(),
{
    if steps.len() == 0 {
        state
    } else {
        step(run(state, steps.drop_last()), steps.last())
    }
}

/// The capabilities of the values that a run of operations adds, in the
/// order in which they are added.
pub open spec fn handed_over<D>(steps: Seq<Step<D>>) -> Seq<D>
    decreases steps.len(),
{
    if steps.len() == 0 {
        Seq::empty()
    } else {
        match steps.last() {
            Step::Add { payload, align, destroy } => handed_over(steps.drop_last()).push(destroy),
            Step::Clear => handed_over(steps.drop_last()),
        }
    }
}

/// Whether a run of operations only adds values, each of which finds a place
/// in the arena as it stands when the value is added.
pub open spec fn only_stores<D>(state: State<D>, steps: Seq<Step<D>>) -> bool
    decreases steps.len(),
{
    if steps.len() == 0 {
        true
    } else {
        &&& only_stores(state, steps.drop_last())
        &&& steps.last() matches Step::Add { payload, align, destroy }
        &&& placement(run(state, steps.drop_last()).segments, payload.len(), align) is Some
    }
}

/// The capabilities that an arena holds or has given up: those that it has
/// destroyed, and those that wait in it.
pub open spec fn accounted<D>(state: State<D>) -> Multiset<D> {
    state.destroyed.to_multiset().add(capabilities_of(state.entries).to_multiset())
}

/// The capabilities of entries with one more in front are that one more and
/// the others.
pub proof fn lemma_capabilities_of_front<D>(entry: Entry<D>, entries: Seq<Entry<D>>)
    ensures
        capabilities_of(seq![entry] + entries) == seq![entry.destroy] + capabilities_of(entries),
{
}

/// Every value is destroyed exactly once. Whatever a run of additions and
/// clears does, the capability of each value added in it either waits in the
/// arena or has been destroyed, and none is in both places or twice in one:
/// together they are what the arena accounted for before and what the run
/// handed over. After one more clear none waits, so that exactly the
/// capabilities handed over have been destroyed, whichever way each went.
pub proof fn lemma_destroyed_exactly_once<D>(state: State<D>, steps: Seq<Step<D>>)
    ensures
        accounted(run(state, steps)) == accounted(state).add(handed_over(steps).to_multiset()),
        cleared(run(state, steps)).entries.len() == 0,
        cleared(run(state, steps)).destroyed.to_multiset() == accounted(state).add(
            handed_over(steps).to_multiset(),
        ),
        cleared(run(state, steps)).destroyed.len() == state.destroyed.len() + state.entries.len()
            + handed_over(steps).len(),
    decreases steps.len(),
{
    broadcast use vstd::seq_lib::group_to_multiset_ensures;

    if steps.len() > 0 {
        let before = run(state, steps.drop_last());
        lemma_destroyed_exactly_once(state, steps.drop_last());
        match steps.last() {
            Step::Add { payload, align, destroy } => {
                match placement(before.segments, payload.len(), align) {
                    Some(location) => {
                        let entry = Entry { location, destroy };
                        lemma_capabilities_of_front(entry, before.entries);
                        vstd::seq_lib::lemma_multiset_commutative(
                            seq![destroy],
                            capabilities_of(before.entries),
                        );
                        assert(seq![destroy].to_multiset() =~= Multiset::singleton(destroy)) by {
                            assert(seq![destroy] == Seq::<D>::empty().push(destroy));
                        }
                    },
                    None => {},
                }
                assert(accounted(run(state, steps)) =~= accounted(before).insert(destroy));
                assert(handed_over(steps).to_multiset() =~= handed_over(
                    steps.drop_last(),
                ).to_multiset().insert(destroy));
                assert(accounted(run(state, steps)) =~= accounted(state).add(
                    handed_over(steps).to_multiset(),
                ));
            },
            Step::Clear => {
                vstd::seq_lib::lemma_multiset_commutative(
                    before.destroyed,
                    capabilities_of(before.entries),
                );
                assert(capabilities_of(Seq::<Entry<D>>::empty()) == Seq::<D>::empty());
                assert(accounted(run(state, steps)) =~= accounted(before));
            },
        }
    }
    let end = run(state, steps);
    vstd::seq_lib::lemma_multiset_commutative(end.destroyed, capabilities_of(end.entries));
    assert(cleared(end).destroyed.to_multiset() =~= accounted(end));
    assert(accounted(state).len() == state.destroyed.len() + state.entries.len());
    assert(cleared(end).destroyed.len() == cleared(end).destroyed.to_multiset().len());
}

/// Adding destroys nothing. After a run of additions that all find a place,
/// nothing has been destroyed and each of the values waits, the one added
/// last in front; the clear that follows destroys every one of them, the one
/// added last first, and after them those that waited before.
pub proof fn lemma_nothing_destroyed_before_clear<D>(state: State<D>, steps: Seq<Step<D>>)
    requires
        only_stores(state, steps),
    ensures
        run(state, steps).destroyed == state.destroyed,
        capabilities_of(run(state, steps).entries) == handed_over(steps).reverse()
            + capabilities_of(state.entries),
        handed_over(steps).len() == steps.len(),
        cleared(run(state, steps)).destroyed == state.destroyed + handed_over(steps).reverse()
            + capabilities_of(state.entries),
        cleared(run(state, steps)).entries.len() == 0,
    decreases steps.len(),
{
    if steps.len() > 0 {
        let before = run(state, steps.drop_last());
        lemma_nothing_destroyed_before_clear(state, steps.drop_last());
        match steps.last() {
            Step::Add { payload, align, destroy } => {
                let location = placement(before.segments, payload.len(), align)->0;
                lemma_capabilities_of_front(Entry { location, destroy }, before.entries);
                let earlier = handed_over(steps.drop_last());
                assert(earlier.push(destroy).reverse() == seq![destroy] + earlier.reverse());
                assert(seq![destroy] + (earlier.reverse() + capabilities_of(state.entries)) == (
                seq![destroy] + earlier.reverse()) + capabilities_of(state.entries));
            },
            Step::Clear => {},
        }
    } else {
        assert(handed_over(steps).reverse() + capabilities_of(state.entries) == capabilities_of(
            state.entries,
        ));
    }
    let end = run(state, steps);
    assert(state.destroyed + (handed_over(steps).reverse() + capabilities_of(state.entries))
        == state.destroyed + handed_over(steps).reverse() + capabilities_of(state.entries));
}

/// A value that is added and then cleared has been destroyed when the clear
/// is over: it is destroyed first of those that waited, or was destroyed as
/// it was added.
pub proof fn lemma_add_then_clear<D>(state: State<D>, payload: Seq<u8>, align: nat, destroy: D)
    ensures
        cleared(added(state, payload, align, destroy)).entries.len() == 0,
        cleared(added(state, payload, align, destroy)).destroyed == state.destroyed.push(destroy)
            + capabilities_of(state.entries),
{
    match placement(state.segments, payload.len(), align) {
        Some(location) => {
            lemma_capabilities_of_front(Entry { location, destroy }, state.entries);
            assert(state.destroyed + (seq![destroy] + capabilities_of(state.entries))
                == state.destroyed.push(destroy) + capabilities_of(state.entries));
        },
        None => {},
    }
}

/// A value without bytes takes no storage, and still has an entry of its own
/// for each time it is added, so that it is destroyed once for each.
pub proof fn lemma_add_without_bytes<D>(state: State<D>, align: nat, destroy: D)
    ensures
        added(state, Seq::empty(), align, destroy) == (State {
            segments: state.segments,
            entries: seq![
                Entry { location: Location::Sentinel { align: align as usize }, destroy },
            ] + state.entries,
            destroyed: state.destroyed,
        }),
{
}

/// A clear keeps every segment and its capacity, so that the arena is as
/// large after it as it was before.
pub proof fn lemma_clear_keeps_capacity<D>(state: State<D>)
    ensures
        cleared(state).segments.len() == state.segments.len(),
        forall|k: int|
            0 <= k < state.segments.len() ==> (#[trigger] cleared(state).segments[k]).capacity
                == state.segments[k].capacity,
        capacity_sum(cleared(state).segments) == capacity_sum(state.segments),
{
    lemma_emptied_capacity(state.segments);
}

/// Taking segments out of use does not change the sum of their capacities.
pub proof fn lemma_emptied_capacity(segments: Seq<Segment>)
    ensures
        capacity_sum(emptied(segments)) == capacity_sum(segments),
    decreases segments.len(),
{
    if segments.len() > 0 {
        lemma_emptied_capacity(segments.drop_last());
        assert(emptied(segments).drop_last() == emptied(segments.drop_last()));
    }
}

/// What is stored can be read back: the bytes of a value stand at the
/// location that it was given.
pub proof fn lemma_reads_back(segments: Seq<Segment>, payload: Seq<u8>, align: nat)
    requires
        sound(segments),
        payload.len() > 0,
    ensures
        placement(segments, payload.len(), align) matches Some(location) ==> payload_at(
            stored(segments, payload, align),
            location,
            payload.len(),
        ) == Some(payload),
{
    lemma_reused(segments, payload.len(), align);
    match reused(segments, payload.len(), align) {
        Some(k) => {
            let start = segments[k].bytes.len() + padding(segments[k].bytes.len(), align);
            let after = filled(segments[k], payload, align);
            assert(fits(segments[k], payload.len(), align));
            assert(after.bytes.subrange(start as int, (start + payload.len()) as int) == payload);
        },
        None => {
            if grown(segments, payload.len(), align) <= largest_segment() {
                assert(payload.subrange(0, payload.len() as int) == payload);
            }
        },
    }
}

/// A location stays good until the next clear: storing another value changes
/// no byte that was in use.
pub proof fn lemma_stays_put(
    segments: Seq<Segment>,
    payload: Seq<u8>,
    align: nat,
    location: Location,
    size: nat,
)
    ensures
        payload_at(segments, location, size) matches Some(bytes) ==> payload_at(
            stored(segments, payload, align),
            location,
            size,
        ) == Some(bytes),
{
    lemma_reused(segments, payload.len(), align);
    if let Some(bytes) = payload_at(segments, location, size) {
        if let Location::Slot { segment, offset } = location {
            let after = stored(segments, payload, align);
            assert(after[segment as int].bytes.subrange(offset as int, offset + size) == bytes);
        }
    }
}

} // verus!

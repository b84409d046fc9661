//! An append-only vector that grows by whole segments, so that no value ever
//! moves: an insert-only list of arrays of fixed capacity, each twice as
//! large as the one before.

use crate::concurrent_list::ConcurrentList;
use crate::concurrent_slice::ConcurrentSlice;
use vstd::pervasive::unreached;
use vstd::prelude::*;

verus! {

/// The capacity of the first segment of a vector.
pub const FIRST_CAPACITY: usize = 4;

/// The contents of a run of segments, given newest segment first and each
/// segment in reservation order, as one sequence from the value stored last
/// to the value stored first.
pub open spec fn recent_first<T>(segments: Seq<Seq<T>>) -> Seq<T>
    decreases segments.len(),
{
    if segments.len() == 0 {
        Seq::empty()
    } else {
        segments[0].reverse() + recent_first(segments.drop_first())
    }
}

/// The capacity of the segment that is linked in front of segments with the
/// capacities `capacities` (newest first): `FIRST_CAPACITY` for the first
/// segment, and after that twice the capacity of the newest segment, or that
/// capacity again where twice as much cannot be counted.
pub open spec fn grown_capacity(capacities: Seq<nat>) -> nat {
    if capacities.len() == 0 {
        FIRST_CAPACITY as nat
    } else if 2 * capacities[0] > usize::MAX {
        capacities[0]
    } else if 2 * capacities[0] < FIRST_CAPACITY {
        FIRST_CAPACITY as nat
    } else {
        2 * capacities[0]
    }
}

/// Putting one more value into the newest segment puts it in front of
/// everything else.
pub proof fn lemma_recent_first_push<T>(segments: Seq<Seq<T>>, value: T)
    requires
        segments.len() > 0,
    ensures
        recent_first(segments.update(0, segments[0].push(value))) == seq![value] + recent_first(
            segments,
        ),
{
    let grown = segments.update(0, segments[0].push(value));
    assert(grown.drop_first() == segments.drop_first());
    assert(segments[0].push(value).reverse() == seq![value] + segments[0].reverse());
    assert((seq![value] + segments[0].reverse()) + recent_first(segments.drop_first()) == seq![
        value,
    ] + (segments[0].reverse() + recent_first(segments.drop_first())));
}

/// A new segment that holds one value puts that value in front of everything
/// else.
pub proof fn lemma_recent_first_grow<T>(segments: Seq<Seq<T>>, value: T)
    ensures
        recent_first(seq![seq![value]] + segments) == seq![value] + recent_first(segments),
{
    let grown = seq![seq![value]] + segments;
    assert(grown.drop_first() == segments);
    assert(grown[0].reverse() == seq![value]);
}

/// From the oldest value to the newest, the contents of a run of segments are
/// the contents of all but the newest segment, followed by the values of the
/// newest segment in reservation order.
pub proof fn lemma_oldest_first<T>(segments: Seq<Seq<T>>)
    requires
        segments.len() > 0,
    ensures
        recent_first(segments).reverse() == recent_first(segments.drop_first()).reverse()
            + segments[0],
        recent_first(segments).len() == recent_first(segments.drop_first()).len()
            + segments[0].len(),
{
    let newest = segments[0].reverse();
    let rest = recent_first(segments.drop_first());
    assert((newest + rest).reverse() == rest.reverse() + segments[0]);
}

/// The contents of a run of segments followed by one older segment are the
/// contents of the run followed by that segment's values, last one first.
pub proof fn lemma_recent_first_append<T>(segments: Seq<Seq<T>>, oldest: Seq<T>)
    ensures
        recent_first(segments.push(oldest)) == recent_first(segments) + oldest.reverse(),
    decreases segments.len(),
{
    if segments.len() == 0 {
        let one = segments.push(oldest);
        assert(one[0] == oldest);
        assert(one.drop_first() == Seq::<Seq<T>>::empty());
        assert(recent_first(one.drop_first()) == Seq::<T>::empty());
        assert(oldest.reverse() + Seq::<T>::empty() == Seq::<T>::empty() + oldest.reverse());
    } else {
        lemma_recent_first_append(segments.drop_first(), oldest);
        assert(segments.push(oldest).drop_first() == segments.drop_first().push(oldest));
        assert(segments[0].reverse() + (recent_first(segments.drop_first()) + oldest.reverse())
            == (segments[0].reverse() + recent_first(segments.drop_first())) + oldest.reverse());
    }
}

/// An append-only vector that grows by whole segments.
///
/// The segments form an insert-only list with the newest segment at the
/// head. A value goes into the head segment; when that is full, a segment
/// of twice the capacity is linked in front of it. Values never move once
/// stored.
#[derive(Debug)]
pub struct ConcurrentVec<T> {
    data: ConcurrentList<ConcurrentSlice<T>>,
}

impl<T> ConcurrentVec<T> {
    /// The contents of each segment in reservation order, newest segment
    /// first.
    pub closed spec fn segments(&self) -> Seq<Seq<T>> {
        Seq::new(self.data@.len(), |i: int| self.data@[i]@)
    }

    /// The capacity of each segment, newest segment first.
    pub closed spec fn capacities(&self) -> Seq<nat> {
        Seq::new(self.data@.len(), |i: int| self.data@[i].spec_capacity())
    }

    /// The stored values, from the one stored last to the one stored first.
    pub open spec fn view(&self) -> Seq<T> {
        recent_first(self.segments())
    }

    /// The vector is well formed when each of its segments is, and none of
    /// them is without a value: a segment is only linked in for a value that
    /// needs it.
    pub closed spec fn wf(&self) -> bool {
        forall|i: int|
            0 <= i < self.data@.len() ==> (#[trigger] self.data@[i]).wf() && self.data@[i]@.len()
                > 0
    }

    /// Every segment has a capacity, holds no more values than that, and
    /// holds at least one.
    pub proof fn lemma_segments_within_capacity(&self)
        requires
            self.wf(),
        ensures
            self.segments().len() == self.capacities().len(),
            forall|i: int|
                0 <= i < self.segments().len() ==> 0 < (#[trigger] self.segments()[i]).len()
                    <= self.capacities()[i],
    {
        assert forall|i: int| 0 <= i < self.segments().len() implies 0 < (
        #[trigger] self.segments()[i]).len() <= self.capacities()[i] by {
            assert(self.data@[i].wf());
            self.data@[i].lemma_len_within_capacity();
        }
    }

    /// Creates a vector without segments.
    pub fn new() -> (vec: Self)
        ensures
            vec.wf(),
            vec.segments() == Seq::<Seq<T>>::empty(),
            vec.capacities() == Seq::<nat>::empty(),
            vec@ == Seq::<T>::empty(),
    {
        let vec = ConcurrentVec { data: ConcurrentList::new() };
        assert(vec.segments() == Seq::<Seq<T>>::empty());
        assert(vec.capacities() == Seq::<nat>::empty());
        vec
    }

    /// Whether the next value needs a new segment: there is no segment yet,
    /// or the head segment is full.
    fn head_is_full(&self) -> (full: bool)
        requires
            self.wf(),
        ensures
            full == (self.segments().len() == 0 || self.segments()[0].len()
                == self.capacities()[0]),
    {
        match self.data.head() {
            Some(head) => head.len() == head.capacity(),
            None => true,
        }
    }

    /// The capacity for the segment that is linked in next.
    fn next_capacity(&self) -> (capacity: usize)
        ensures
            capacity == grown_capacity(self.capacities()),
    {
        match self.data.head() {
            Some(head) => {
                let capacity: usize = head.capacity();
                match capacity.checked_mul(2) {
                    Some(doubled) => if doubled < FIRST_CAPACITY {
                        FIRST_CAPACITY
                    } else {
                        doubled
                    },
                    None => capacity,
                }
            },
            None => FIRST_CAPACITY,
        }
    }

    /// Stores `value` and returns the only reference to where it now lives.
    ///
    /// The value goes into the head segment if that has a slot left. If the
    /// head segment is full, or there is none, a new segment with the
    /// capacity `grown_capacity` is linked in as the head first, and the
    /// value takes its first slot. Either way the value comes to stand in
    /// front of all values stored before, and none of those moves.
    pub fn push(&mut self, value: T) -> (stored: &mut T)
        requires
            old(self).wf(),
        ensures
            final(self).wf(),
            *stored == value,
            final(self)@ == seq![*final(stored)] + old(self)@,
            old(self).segments().len() > 0 && old(self).segments()[0].len() < old(
                self,
            ).capacities()[0] ==> final(self).capacities() == old(self).capacities()
                && final(self).segments() == old(self).segments().update(
                0,
                old(self).segments()[0].push(*final(stored)),
            ),
            old(self).segments().len() == 0 || old(self).segments()[0].len() >= old(
                self,
            ).capacities()[0] ==> final(self).capacities() == seq![
                grown_capacity(old(self).capacities()),
            ] + old(self).capacities() && final(self).segments() == seq![seq![*final(stored)]]
                + old(self).segments(),
    {
        proof {
            old(self).lemma_segments_within_capacity();
        }
        let grow: bool = self.head_is_full();
        if grow {
            let capacity: usize = self.next_capacity();
            let slice: ConcurrentSlice<T> = ConcurrentSlice::new(capacity);
            let _head = self.data.push(slice);
        }
        let ghost linked = self.data@;
        let ghost before = old(self).segments();
        proof {
            if grow {
                assert(linked.drop_first() == old(self).data@);
            }
        }
        match self.data.head_mut() {
            Some(head) => {
                let ghost head_end = *final(head);
                match head.push(value) {
                    Ok(stored) => {
                        proof {
                            let slot = *final(stored);
                            let after = linked.update(0, head_end);
                            let segments = Seq::new(after.len(), |i: int| after[i]@);
                            let capacities = Seq::new(
                                after.len(),
                                |i: int| after[i].spec_capacity(),
                            );
                            if grow {
                                assert(segments == seq![seq![slot]] + before);
                                assert(capacities == seq![grown_capacity(old(self).capacities())]
                                    + old(self).capacities());
                                lemma_recent_first_grow(before, slot);
                            } else {
                                assert(segments == before.update(0, before[0].push(slot)));
                                assert(capacities == old(self).capacities());
                                lemma_recent_first_push(before, slot);
                            }
                        }
                        stored
                    },
                    Err(_) => unreached(),
                }
            },
            None => unreached(),
        }
    }

    /// Exclusive references to the stored values, from the one stored last to
    /// the one stored first. What the caller writes through the reference at
    /// position `i` becomes the value at position `i` of the vector; no value
    /// changes its segment or its slot.
    #[verifier::loop_isolation(false)]
    pub fn iter_assume_init_mut(&mut self) -> (items: Vec<&mut T>)
        requires
            old(self).wf(),
        ensures
            final(self).wf(),
            final(self).capacities() == old(self).capacities(),
            final(self).segments().len() == old(self).segments().len(),
            forall|j: int|
                0 <= j < old(self).segments().len() ==> (#[trigger] final(self).segments()[j]).len()
                    == old(self).segments()[j].len(),
            items@.len() == old(self)@.len(),
            final(self)@.len() == old(self)@.len(),
            forall|i: int| 0 <= i < items@.len() ==> *#[trigger] items@[i] == old(self)@[i],
            forall|i: int|
                0 <= i < items@.len() ==> #[trigger] final(self)@[i] == *final(items@[i]),
    {
        let ghost before = self.segments();
        let ghost linked = self.data@;
        let ghost end = *final(self);
        let mut slices: Vec<&mut ConcurrentSlice<T>> = self.data.iter_mut();
        let ghost handed = slices@;
        let ghost count = handed.len();
        let ghost after = Seq::new(count, |j: int| final(handed[j])@);
        // The values are gathered oldest first, segment by segment, and
        // turned round at the end.
        let mut oldest_first: Vec<&mut T> = Vec::new();
        proof {
            assert(before.subrange(count as int, count as int) == Seq::<Seq<T>>::empty());
            assert(after.subrange(count as int, count as int) == Seq::<Seq<T>>::empty());
            assert(Seq::new(0, |i: int| *final(oldest_first@[i])) == recent_first(
                after.subrange(count as int, count as int),
            ).reverse());
        }
        while slices.len() > 0
            invariant
                count == handed.len(),
                count == before.len(),
                count == linked.len(),
                after == Seq::new(count, |j: int| final(handed[j])@),
                slices@.len() <= count,
                slices@ == handed.subrange(0, slices@.len() as int),
                forall|j: int| 0 <= j < count ==> *#[trigger] handed[j] == linked[j],
                forall|j: int|
                    0 <= j < count ==> (#[trigger] linked[j]).wf() && linked[j]@.len() > 0,
                forall|j: int| 0 <= j < count ==> #[trigger] before[j] == linked[j]@,
                forall|j: int|
                    slices@.len() <= j < count ==> final(#[trigger] handed[j]).wf(),
                forall|j: int|
                    slices@.len() <= j < count ==> final(#[trigger] handed[j])@.len()
                        == before[j].len(),
                forall|j: int|
                    slices@.len() <= j < count ==> final(#[trigger] handed[j]).spec_capacity()
                        == linked[j].spec_capacity(),
                oldest_first@.len() == recent_first(
                    before.subrange(slices@.len() as int, count as int),
                ).len(),
                forall|i: int|
                    0 <= i < oldest_first@.len() ==> *#[trigger] oldest_first@[i] == recent_first(
                        before.subrange(slices@.len() as int, count as int),
                    ).reverse()[i],
                Seq::new(oldest_first@.len(), |i: int| *final(oldest_first@[i])) == recent_first(
                    after.subrange(slices@.len() as int, count as int),
                ).reverse(),
            decreases slices@.len(),
        {
            let ghost gathered = oldest_first@;
            let ghost rest = slices@.len();
            match slices.pop() {
                Some(slice) => {
                    proof {
                        assert(slice == handed[rest - 1]);
                        assert(linked[rest - 1].wf());
                    }
                    let mut values: Vec<&mut T> = slice.iter_assume_init_mut();
                    proof {
                        let at = rest - 1;
                        let old_run = before.subrange(at, count as int);
                        let new_run = after.subrange(at, count as int);
                        assert(old_run.drop_first() == before.subrange(rest as int, count as int));
                        assert(new_run.drop_first() == after.subrange(rest as int, count as int));
                        assert(old_run[0] == before[at]);
                        assert(new_run[0] == after[at]);
                        lemma_oldest_first(old_run);
                        lemma_oldest_first(new_run);
                        let grown = gathered + values@;
                        assert(after[at] == Seq::new(values@.len(), |i: int| *final(values@[i])));
                        assert(Seq::new(grown.len(), |i: int| *final(grown[i])) == Seq::new(
                            gathered.len(),
                            |i: int| *final(gathered[i]),
                        ) + after[at]);
                    }
                    oldest_first.append(&mut values);
                },
                None => {},
            }
        }
        let ghost gathered = oldest_first@;
        let mut items: Vec<&mut T> = Vec::new();
        proof {
            assert(before.subrange(0, count as int) == before);
            assert(after.subrange(0, count as int) == after);
        }
        while oldest_first.len() > 0
            invariant
                oldest_first@.len() + items@.len() == gathered.len(),
                forall|i: int|
                    0 <= i < oldest_first@.len() ==> *#[trigger] oldest_first@[i] == *gathered[i]
                        && *final(oldest_first@[i]) == *final(gathered[i]),
                forall|i: int|
                    0 <= i < items@.len() ==> *#[trigger] items@[i] == *gathered[gathered.len()
                        - 1 - i] && *final(items@[i]) == *final(gathered[gathered.len() - 1 - i]),
            decreases oldest_first@.len(),
        {
            match oldest_first.pop() {
                Some(value) => items.push(value),
                None => {},
            }
        }
        proof {
            let finals = Seq::new(gathered.len(), |i: int| *final(gathered[i]));
            assert forall|i: int| 0 <= i < items@.len() implies *final(#[trigger] items@[i])
                == recent_first(after)[i] by {
                assert(finals[gathered.len() - 1 - i] == *final(gathered[gathered.len() - 1 - i]));
            }
            assert forall|i: int| 0 <= i < items@.len() implies *#[trigger] items@[i]
                == recent_first(before)[i] by {
                assert(*gathered[gathered.len() - 1 - i] == recent_first(before).reverse()[
                    gathered.len() - 1 - i]);
            }
            assert(recent_first(after).len() == recent_first(after).reverse().len());
            assert forall|j: int| 0 <= j < count implies #[trigger] end.data@[j] == *final(
                handed[j]
            ) by {}
            assert(end.segments() == after);
            assert(end.capacities() == old(self).capacities());
        }
        items
    }

    /// Consumes the vector and hands its values out, from the one stored
    /// last to the one stored first.
    pub fn into_iter(self) -> (items: Vec<T>)
        requires
            self.wf(),
        ensures
            items@ == self@,
    {
        let mut segments: Vec<ConcurrentSlice<T>> = self.data.into_iter();
        let ghost contents = self.segments();
        let mut items: Vec<T> = Vec::new();
        let mut taken: usize = 0;
        let count: usize = segments.len();
        proof {
            assert(contents.len() == count);
            assert(contents.subrange(0, 0) == Seq::<Seq<T>>::empty());
        }
        // The segments come out newest first; popping takes them from the
        // far end, so they are turned round before the walk.
        let mut newest_last: Vec<ConcurrentSlice<T>> = Vec::new();
        while segments.len() > 0
            invariant
                contents.len() <= usize::MAX,
                segments@.len() + newest_last@.len() == contents.len(),
                forall|i: int|
                    0 <= i < segments@.len() ==> (#[trigger] segments@[i])@ == contents[i]
                        && segments@[i].wf(),
                forall|i: int|
                    0 <= i < newest_last@.len() ==> (#[trigger] newest_last@[i])@
                        == contents[contents.len() - 1 - i] && newest_last@[i].wf(),
            decreases segments@.len(),
        {
            match segments.pop() {
                Some(segment) => newest_last.push(segment),
                None => {},
            }
        }
        while newest_last.len() > 0
            invariant
                contents.len() <= usize::MAX,
                taken + newest_last@.len() == contents.len(),
                forall|i: int|
                    0 <= i < newest_last@.len() ==> (#[trigger] newest_last@[i])@
                        == contents[contents.len() - 1 - i] && newest_last@[i].wf(),
                items@ == recent_first(contents.subrange(0, taken as int)),
            decreases newest_last@.len(),
        {
            match newest_last.pop() {
                Some(segment) => {
                    let mut values: Vec<T> = segment.into_iter();
                    proof {
                        lemma_recent_first_append(
                            contents.subrange(0, taken as int),
                            contents[taken as int],
                        );
                        assert(contents.subrange(0, taken as int).push(contents[taken as int])
                            == contents.subrange(0, taken + 1));
                    }
                    items.append(&mut values);
                    taken = taken + 1;
                },
                None => {},
            }
        }
        proof {
            assert(contents.subrange(0, taken as int) == contents);
        }
        items
    }

    /// The number of stored values, counted up to `usize::MAX`.
    pub fn len(&self) -> (len: usize)
        ensures
            len == if self@.len() > usize::MAX {
                usize::MAX as nat
            } else {
                self@.len()
            },
    {
        let segments: Vec<&ConcurrentSlice<T>> = self.data.iter();
        let ghost contents = self.segments();
        let mut len: usize = 0;
        let mut left: usize = segments.len();
        proof {
            assert(contents.subrange(left as int, contents.len() as int) == Seq::<
                Seq<T>,
            >::empty());
        }
        while left > 0
            invariant
                left <= segments@.len(),
                segments@.len() == contents.len(),
                forall|i: int|
                    0 <= i < segments@.len() ==> (#[trigger] segments@[i])@ == contents[i],
                len == if recent_first(contents.subrange(left as int, contents.len() as int)).len()
                    > usize::MAX {
                    usize::MAX as nat
                } else {
                    recent_first(contents.subrange(left as int, contents.len() as int)).len()
                },
            decreases left,
        {
            left = left - 1;
            proof {
                let tail = contents.subrange(left as int, contents.len() as int);
                assert(tail.drop_first() == contents.subrange(left + 1, contents.len() as int));
                assert(tail[0] == contents[left as int]);
            }
            len = len.saturating_add(segments[left].len());
        }
        proof {
            assert(contents.subrange(0, contents.len() as int) == contents);
        }
        len
    }

    /// Whether the vector holds no value.
    pub fn is_empty(&self) -> (empty: bool)
        requires
            self.wf(),
        ensures
            empty == (self@.len() == 0),
    {
        proof {
            self.lemma_segments_within_capacity();
        }
        self.data.is_empty()
    }
}

impl<T> Default for ConcurrentVec<T> {
    fn default() -> (vec: Self)
        ensures
            vec.wf(),
            vec@ == Seq::<T>::empty(),
    {
        ConcurrentVec::new()
    }
}

} // verus!

//! The arena of a bin: storage segments for the bytes of the values that are
//! handed over, and an entry for each value that waits to be destroyed.
//!
//! Storage is handed out by bumping an offset: a value is placed at the next
//! aligned offset of the newest segment that has room for it, and a larger
//! segment is made where none has. Nothing moves once it is placed, and a
//! clear takes every segment out of use at once.

use crate::concurrent_list::ConcurrentList;
use crate::concurrent_vec::ConcurrentVec;
use vstd::prelude::*;

verus! {

/// The capacity of the first storage segment of an arena, in bytes.
pub const FIRST_STORAGE: usize = 1024;

/// Where a stored value lives.
#[derive(Clone, Copy, Debug, PartialEq, Eq, Structural)]
pub enum Location {
    /// The place of a value without bytes. It names no storage; it only keeps
    /// the alignment the value was handed over with.
    Sentinel { align: usize },
    /// `offset` bytes into storage segment number `segment`, counted from
    /// the segment created first.
    Slot { segment: usize, offset: usize },
}

/// What a storage segment is to the contracts: its fixed capacity and the
/// bytes in use, from the start of its buffer.
pub struct Segment {
    pub capacity: nat,
    pub bytes: Seq<u8>,
}

/// `count` bytes of padding.
pub open spec fn zeros(count: nat) -> Seq<u8> {
    Seq::new(count, |i: int| 0u8)
}

/// The number of bytes to skip after `used` bytes so that the next byte
/// stands at a multiple of `align`.
pub open spec fn padding(used: nat, align: nat) -> nat {
    ((align - used % align) % (align as int)) as nat
}

/// Whether a value of `size` bytes, aligned to `align`, still has room in
/// `segment`.
pub open spec fn fits(segment: Segment, size: nat, align: nat) -> bool {
    segment.bytes.len() + padding(segment.bytes.len(), align) + size <= segment.capacity
}

/// `segment` after `payload` has been placed in it at the next offset that is
/// a multiple of `align`.
pub open spec fn filled(segment: Segment, payload: Seq<u8>, align: nat) -> Segment {
    Segment {
        capacity: segment.capacity,
        bytes: segment.bytes + zeros(padding(segment.bytes.len(), align)) + payload,
    }
}

/// The segment that takes a value of `size` bytes aligned to `align`: the
/// newest one in which it fits. `segments` runs from the oldest segment to
/// the newest.
pub open spec fn reused(segments: Seq<Segment>, size: nat, align: nat) -> Option<int>
    decreases segments.len(),
{
    if segments.len() == 0 {
        None
    } else if fits(segments.last(), size, align) {
        Some(segments.len() - 1)
    } else {
        reused(segments.drop_last(), size, align)
    }
}

/// The segment that `reused` picks exists and has room for the value, and no
/// newer segment has.
pub proof fn lemma_reused(segments: Seq<Segment>, size: nat, align: nat)
    ensures
        match reused(segments, size, align) {
            Some(k) => 0 <= k < segments.len() && fits(segments[k], size, align) && forall|j: int|
                k < j < segments.len() ==> !fits(#[trigger] segments[j], size, align),
            None => forall|j: int|
                0 <= j < segments.len() ==> !fits(#[trigger] segments[j], size, align),
        },
    decreases segments.len(),
{
    if segments.len() > 0 && !fits(segments.last(), size, align) {
        lemma_reused(segments.drop_last(), size, align);
        assert forall|j: int| 0 <= j < segments.len() - 1 implies segments[j]
            == segments.drop_last()[j] by {}
    }
}

/// The capacity of the segment that is made for a value of `size` bytes
/// aligned to `align` which fits nowhere: room for the value wherever the
/// buffer starts, and at least twice the capacity of the newest segment, or
/// `FIRST_STORAGE` for the first segment.
pub open spec fn grown(segments: Seq<Segment>, size: nat, align: nat) -> nat {
    let least = if segments.len() == 0 {
        FIRST_STORAGE as nat
    } else {
        2 * segments.last().capacity
    };
    if size + align >= least {
        size + align
    } else {
        least
    }
}

/// The largest capacity a segment can have.
pub open spec fn largest_segment() -> nat {
    isize::MAX as nat
}

/// Where a value of `size` bytes aligned to `align` is placed by an arena
/// with the segments `segments`, or `None` where it cannot be stored.
///
/// A value without bytes needs no storage. Any other value goes to the
/// newest segment in which it fits, behind the padding that its alignment
/// asks for, and otherwise to the start of a new segment of the capacity
/// `grown`. It cannot be stored if that capacity is more than a segment can
/// have.
pub open spec fn placement(segments: Seq<Segment>, size: nat, align: nat) -> Option<Location> {
    if size == 0 {
        Some(Location::Sentinel { align: align as usize })
    } else {
        match reused(segments, size, align) {
            Some(k) => Some(
                Location::Slot {
                    segment: k as usize,
                    offset: (segments[k].bytes.len() + padding(
                        segments[k].bytes.len(),
                        align,
                    )) as usize,
                },
            ),
            None => if grown(segments, size, align) <= largest_segment() {
                Some(Location::Slot { segment: segments.len() as usize, offset: 0 })
            } else {
                None
            },
        }
    }
}

/// The segments of an arena after it was asked to store `payload` aligned to
/// `align`. No byte that was in use before moves or changes.
pub open spec fn stored(segments: Seq<Segment>, payload: Seq<u8>, align: nat) -> Seq<Segment> {
    if payload.len() == 0 {
        segments
    } else {
        match reused(segments, payload.len(), align) {
            Some(k) => segments.update(k, filled(segments[k], payload, align)),
            None => if grown(segments, payload.len(), align) <= largest_segment() {
                segments.push(
                    Segment { capacity: grown(segments, payload.len(), align), bytes: payload },
                )
            } else {
                segments
            },
        }
    }
}

/// The segments of an arena after a clear: every segment is there with its
/// capacity, and none of its bytes is in use.
pub open spec fn emptied(segments: Seq<Segment>) -> Seq<Segment> {
    Seq::new(
        segments.len(),
        |k: int| Segment { capacity: segments[k].capacity, bytes: Seq::empty() },
    )
}

/// The sum of the capacities of `segments`.
pub open spec fn capacity_sum(segments: Seq<Segment>) -> nat
    decreases segments.len(),
{
    if segments.len() == 0 {
        0
    } else {
        capacity_sum(segments.drop_last()) + segments.last().capacity
    }
}

/// The `size` bytes that stand at `location`, if `location` names that many
/// bytes in use.
pub open spec fn payload_at(segments: Seq<Segment>, location: Location, size: nat) -> Option<
    Seq<u8>,
> {
    match location {
        Location::Sentinel { .. } => None,
        Location::Slot { segment, offset } => if segment < segments.len() && offset + size
            <= segments[segment as int].bytes.len() {
            Some(segments[segment as int].bytes.subrange(offset as int, offset + size))
        } else {
            None
        },
    }
}

/// Segments as an arena has them: no more of them than can be counted, none
/// larger than a segment can be, none with more bytes in use than it has.
pub open spec fn sound(segments: Seq<Segment>) -> bool {
    &&& segments.len() <= usize::MAX
    &&& forall|k: int|
        0 <= k < segments.len() ==> (#[trigger] segments[k]).bytes.len() <= segments[k].capacity
            <= largest_segment()
}

/// Whether `location` names a place in `segments`: the place of a value
/// without bytes, which is never null, or a byte in use in one of the
/// segments.
pub open spec fn names(segments: Seq<Segment>, location: Location) -> bool {
    match location {
        Location::Sentinel { align } => align >= 1,
        Location::Slot { segment, offset } => segment < segments.len()
            && offset < segments[segment as int].bytes.len(),
    }
}

/// Whether `location` is one that an arena can hand out at all: the place of
/// a value without bytes, which is never null, or an offset that a segment
/// can have.
pub open spec fn can_be_named(location: Location) -> bool {
    match location {
        Location::Sentinel { align } => align >= 1,
        Location::Slot { segment, offset } => offset < largest_segment(),
    }
}

/// What names a place in the segments of an arena is a location that an
/// arena can hand out.
pub proof fn lemma_named_can_be(segments: Seq<Segment>, location: Location)
    requires
        sound(segments),
        names(segments, location),
    ensures
        can_be_named(location),
{
}

/// The location that a value is given names a place in the segments that
/// hold the value: its first byte, or the place of a value without bytes.
pub proof fn lemma_placement_named(segments: Seq<Segment>, payload: Seq<u8>, align: nat)
    requires
        sound(segments),
        1 <= align <= usize::MAX,
    ensures
        placement(segments, payload.len(), align) matches Some(location) ==> names(
            stored(segments, payload, align),
            location,
        ),
{
    lemma_reused(segments, payload.len(), align);
}

/// A location is good until the next clear: what names a place in the
/// segments of an arena still names it after another value has been stored.
pub proof fn lemma_stored_keeps_named(
    segments: Seq<Segment>,
    payload: Seq<u8>,
    align: nat,
    location: Location,
)
    requires
        names(segments, location),
    ensures
        names(stored(segments, payload, align), location),
{
    lemma_reused(segments, payload.len(), align);
}

/// A stored value's entry in the arena: where the value lives, and the
/// capability that destroys it.
#[derive(Debug)]
pub struct Entry<D> {
    pub location: Location,
    pub destroy: D,
}

/// What an arena is to the contracts.
pub struct State<D> {
    /// The storage segments, from the one created first to the newest.
    pub segments: Seq<Segment>,
    /// The entries of the values that wait to be destroyed, from the value
    /// added last to the value added first: the order in which a clear
    /// destroys them.
    pub entries: Seq<Entry<D>>,
    /// The capabilities of the values that the arena has destroyed since it
    /// was made, in the order in which it destroyed them.
    pub destroyed: Seq<D>,
}

/// An arena that has never been used: no storage, nothing that waits, nothing
/// destroyed.
pub open spec fn unused<D>() -> State<D> {
    State { segments: Seq::empty(), entries: Seq::empty(), destroyed: Seq::empty() }
}

/// The capabilities of `entries`, in their order.
pub open spec fn capabilities_of<D>(entries: Seq<Entry<D>>) -> Seq<D> {
    Seq::new(entries.len(), |i: int| entries[i].destroy)
}

/// The locations of `entries`, in their order.
pub open spec fn locations_of<D>(entries: Seq<Entry<D>>) -> Seq<Location> {
    Seq::new(entries.len(), |i: int| entries[i].location)
}

/// The arena after a value with the bytes `payload`, the alignment `align`
/// and the capability `destroy` has been added to it.
///
/// Where the value can be placed, its bytes are stored and its entry is put
/// in front of the others; nothing is destroyed. Where it cannot, the value
/// is destroyed at once and the arena is otherwise as it was.
pub open spec fn added<D>(state: State<D>, payload: Seq<u8>, align: nat, destroy: D) -> State<D> {
    match placement(state.segments, payload.len(), align) {
        Some(location) => State {
            segments: stored(state.segments, payload, align),
            entries: seq![Entry { location, destroy }] + state.entries,
            destroyed: state.destroyed,
        },
        None => State {
            segments: state.segments,
            entries: state.entries,
            destroyed: state.destroyed.push(destroy),
        },
    }
}

/// The arena after a clear: every value that waited has been destroyed, the
/// one added last first, and every segment is out of use and still there.
pub open spec fn cleared<D>(state: State<D>) -> State<D> {
    State {
        segments: emptied(state.segments),
        entries: Seq::empty(),
        destroyed: state.destroyed + capabilities_of(state.entries),
    }
}

/// A value with its type erased: the bytes that make it up, the alignment
/// they need, and the one capability that runs its cleanup. Dropping the
/// capability is what destroys the value.
#[derive(Debug)]
pub struct Erased<D> {
    payload: Vec<u8>,
    align: usize,
    destroy: D,
}

impl<D> Erased<D> {
    #[verifier::type_invariant]
    spec fn aligned(self) -> bool {
        self.align >= 1
    }

    /// The bytes of the value.
    pub closed spec fn payload(&self) -> Seq<u8> {
        self.payload@
    }

    /// The alignment of the value.
    pub closed spec fn spec_align(&self) -> nat {
        self.align as nat
    }

    /// The capability that destroys the value.
    pub closed spec fn capability(&self) -> D {
        self.destroy
    }

    /// Erases a value of `payload.len()` bytes that needs the alignment
    /// `align`. No value has the alignment zero: for it the capability comes
    /// back untouched.
    pub fn new(payload: Vec<u8>, align: usize, destroy: D) -> (made: Result<Self, D>)
        ensures
            align == 0 ==> made == Err::<Self, D>(destroy),
            align > 0 ==> made is Ok && made->Ok_0.payload() == payload@
                && made->Ok_0.spec_align() == align && made->Ok_0.capability() == destroy,
    {
        if align == 0 {
            Err(destroy)
        } else {
            Ok(Erased { payload, align, destroy })
        }
    }

    /// Destroys the value at once.
    pub fn destroy(self) {
        let Erased { payload: _, align: _, destroy } = self;
        release(destroy);
    }

    /// The number of bytes of the value.
    pub fn size(&self) -> (size: usize)
        ensures
            size == self.payload().len(),
    {
        self.payload.len()
    }

    /// The alignment of the value, which is never zero.
    pub fn align(&self) -> (align: usize)
        ensures
            align == self.spec_align(),
            align >= 1,
    {
        proof {
            use_type_invariant(self);
        }
        self.align
    }
}

/// What can be kept to be destroyed later, maybe by another thread: any
/// value that can be sent to one.
pub trait Destroy: Send {
}

impl<T: Send> Destroy for T {
}

/// The capability that destroys a value of any type: the value itself, in a
/// box. Dropping the box is the value's destructor. Whoever erases a value
/// boxes it for the capability and hands its bytes over beside it.
pub type Capability<'a> = Box<dyn Destroy + 'a>;

/// A segment of backing storage: a byte buffer that is reserved once, with
/// the capacity it was reserved with. The bytes in use are the contents of
/// the buffer.
#[derive(Debug)]
pub struct Storage {
    bytes: Vec<u8>,
    capacity: usize,
}

impl Storage {
    /// The segment as the contracts see it.
    pub closed spec fn view(&self) -> Segment {
        Segment { capacity: self.capacity as nat, bytes: self.bytes@ }
    }

    /// A segment never has more bytes in use than its capacity, and its
    /// capacity is one that a buffer can have.
    pub closed spec fn wf(&self) -> bool {
        self.bytes@.len() <= self.capacity <= isize::MAX
    }

    /// Reserves a segment of `capacity` bytes and places `payload` at its
    /// start.
    fn holding(capacity: usize, payload: &Vec<u8>) -> (storage: Self)
        requires
            payload@.len() <= capacity <= isize::MAX,
        ensures
            storage.wf(),
            storage@ == (Segment { capacity: capacity as nat, bytes: payload@ }),
    {
        let mut bytes: Vec<u8> = Vec::with_capacity(capacity);
        let mut copied: usize = 0;
        while copied < payload.len()
            invariant
                copied <= payload@.len(),
                bytes@ == payload@.subrange(0, copied as int),
            decreases payload@.len() - copied,
        {
            bytes.push(payload[copied]);
            copied = copied + 1;
        }
        assert(payload@.subrange(0, payload@.len() as int) == payload@);
        Storage { bytes, capacity }
    }

    /// The offset at which a value of `size` bytes aligned to `align` would
    /// be placed in this segment, if it fits.
    fn room(&self, size: usize, align: usize) -> (offset: Option<usize>)
        requires
            self.wf(),
            align >= 1,
        ensures
            fits(self@, size as nat, align as nat) ==> offset == Some(
                (self@.bytes.len() + padding(self@.bytes.len(), align as nat)) as usize,
            ) && self@.bytes.len() + padding(self@.bytes.len(), align as nat) <= usize::MAX,
            !fits(self@, size as nat, align as nat) ==> offset is None,
    {
        let used: usize = self.bytes.len();
        let padding: usize = (align - used % align) % align;
        let start: usize = match used.checked_add(padding) {
            Some(start) => start,
            None => {
                return None;
            },
        };
        match start.checked_add(size) {
            Some(end) => if end <= self.capacity {
                Some(start)
            } else {
                None
            },
            None => None,
        }
    }

    /// Takes the bytes up to `offset` into use as padding and places
    /// `payload` behind them.
    fn place(&mut self, offset: usize, payload: &Vec<u8>)
        requires
            old(self).wf(),
            old(self)@.bytes.len() <= offset,
            offset + payload@.len() <= old(self)@.capacity,
        ensures
            final(self).wf(),
            final(self)@ == (Segment {
                capacity: old(self)@.capacity,
                bytes: old(self)@.bytes + zeros((offset - old(self)@.bytes.len()) as nat)
                    + payload@,
            }),
    {
        let ghost before = self.bytes@;
        while self.bytes.len() < offset
            invariant
                self.capacity == old(self).capacity,
                before.len() <= self.bytes@.len() <= offset,
                self.bytes@ == before + zeros((self.bytes@.len() - before.len()) as nat),
            decreases offset - self.bytes@.len(),
        {
            self.bytes.push(0u8);
        }
        let ghost padded = self.bytes@;
        let mut copied: usize = 0;
        while copied < payload.len()
            invariant
                self.capacity == old(self).capacity,
                copied <= payload@.len(),
                self.bytes@ == padded + payload@.subrange(0, copied as int),
            decreases payload@.len() - copied,
        {
            self.bytes.push(payload[copied]);
            copied = copied + 1;
        }
        assert(payload@.subrange(0, payload@.len() as int) == payload@);
    }

    /// Takes every byte out of use. The buffer stays reserved.
    fn reset(&mut self)
        requires
            old(self).wf(),
        ensures
            final(self).wf(),
            final(self)@ == (Segment { capacity: old(self)@.capacity, bytes: Seq::empty() }),
    {
        self.bytes.clear();
    }
}

/// The arena of a bin. It keeps the bytes of the values it is given in
/// storage segments and an entry for each value that waits to be destroyed.
///
/// The arena is changed under exclusive access only.
pub struct Arena<D> {
    /// An entry for each stored value, with the capability that destroys it.
    destructors: ConcurrentVec<Entry<D>>,
    /// The storage segments behind the locations in `destructors`.
    data: ConcurrentList<Storage>,
    /// The capabilities that this arena has given up.
    destroyed: Ghost<Seq<D>>,
}

impl<D> Arena<D> {
    /// The storage segments, from the one created first to the newest.
    pub closed spec fn segments(&self) -> Seq<Segment> {
        Seq::new(self.data@.len(), |k: int| self.data@[self.data@.len() - 1 - k]@)
    }

    /// The entries of the values that wait to be destroyed, from the value
    /// added last to the value added first. This is the order in which a
    /// clear destroys them.
    pub closed spec fn entries(&self) -> Seq<Entry<D>> {
        self.destructors@
    }

    /// The capabilities of the values that this arena has destroyed since it
    /// was made, in the order in which it destroyed them.
    pub closed spec fn destroyed(&self) -> Seq<D> {
        self.destroyed@
    }

    /// The arena as the contracts see it.
    pub open spec fn view(&self) -> State<D> {
        State {
            segments: self.segments(),
            entries: self.entries(),
            destroyed: self.destroyed(),
        }
    }

    /// Whether the containers of the arena and its storage segments are well
    /// formed.
    spec fn kept(&self) -> bool {
        &&& self.destructors.wf()
        &&& forall|i: int| 0 <= i < self.data@.len() ==> (#[trigger] self.data@[i]).wf()
    }

    /// The arena is well formed when its containers and its storage segments
    /// are, and the location of every value that waits names a place in its
    /// storage.
    pub closed spec fn wf(&self) -> bool {
        &&& self.kept()
        &&& forall|i: int|
            0 <= i < self.destructors@.len() ==> names(
                self.segments(),
                (#[trigger] self.destructors@[i]).location,
            )
    }

    /// The location of every value that waits in a well-formed arena names a
    /// place in its storage.
    pub proof fn lemma_entries_named(&self)
        requires
            self.wf(),
        ensures
            forall|i: int|
                0 <= i < self@.entries.len() ==> names(
                    self@.segments,
                    (#[trigger] self@.entries[i]).location,
                ),
    {
    }

    /// The segments of a well-formed arena are sound.
    pub proof fn lemma_segments_sound(&self)
        requires
            self.wf(),
        ensures
            sound(self@.segments),
    {
        assert forall|k: int| 0 <= k < self.segments().len() implies (
        #[trigger] self.segments()[k]).bytes.len() <= self.segments()[k].capacity
            <= largest_segment() by {
            assert(self.data@[self.data@.len() - 1 - k].wf());
        }
        self.data.lemma_len_counted();
    }

    /// Makes an arena without storage, with nothing to destroy.
    pub fn new() -> (arena: Self)
        ensures
            arena.wf(),
            arena@ == unused::<D>(),
    {
        let arena = Arena {
            destructors: ConcurrentVec::new(),
            data: ConcurrentList::new(),
            destroyed: Ghost(Seq::empty()),
        };
        assert(arena.segments() == Seq::<Segment>::empty());
        arena
    }

    /// Looks for the newest segment with room for `size` bytes aligned to
    /// `align`. Returns the number of the segment and the offset at which
    /// the bytes would start.
    fn find_room(&self, size: usize, align: usize) -> (found: Option<(usize, usize)>)
        requires
            self.kept(),
            align >= 1,
        ensures
            match reused(self.segments(), size as nat, align as nat) {
                Some(k) => found == Some(
                    (
                        k as usize,
                        (self.segments()[k].bytes.len() + padding(
                            self.segments()[k].bytes.len(),
                            align as nat,
                        )) as usize,
                    ),
                ) && 0 <= k < self.segments().len() <= usize::MAX && fits(
                    self.segments()[k],
                    size as nat,
                    align as nat,
                ) && self.segments()[k].bytes.len()
                    + padding(self.segments()[k].bytes.len(), align as nat) <= usize::MAX,
                None => found is None,
            },
    {
        let storages: Vec<&Storage> = self.data.iter();
        let count: usize = storages.len();
        let ghost segments = self.segments();
        let mut scanned: usize = 0;
        proof {
            assert(segments.subrange(0, count as int) == segments);
            lemma_reused(segments, size as nat, align as nat);
        }
        while scanned < count
            invariant
                self.kept(),
                align >= 1,
                segments == self.segments(),
                count == segments.len(),
                count == storages@.len(),
                scanned <= count,
                forall|i: int| 0 <= i < count ==> *#[trigger] storages@[i] == self.data@[i],
                reused(segments, size as nat, align as nat) == reused(
                    segments.subrange(0, count - scanned),
                    size as nat,
                    align as nat,
                ),
            decreases count - scanned,
        {
            let storage: &Storage = storages[scanned];
            let ghost left = segments.subrange(0, count - scanned);
            proof {
                assert(self.data@[scanned as int].wf());
                assert(left.last() == storage@);
                assert(left.drop_last() == segments.subrange(0, count - scanned - 1));
            }
            match storage.room(size, align) {
                Some(offset) => {
                    return Some((count - 1 - scanned, offset));
                },
                None => {},
            }
            scanned = scanned + 1;
        }
        None
    }


    /// Places `payload` in segment number `segment` at `offset`, behind as
    /// much padding as it takes to get there.
    fn write_at(&mut self, segment: usize, offset: usize, payload: &Vec<u8>)
        requires
            old(self).kept(),
            segment < old(self).segments().len(),
            old(self).segments()[segment as int].bytes.len() <= offset,
            offset + payload@.len() <= old(self).segments()[segment as int].capacity,
        ensures
            final(self).kept(),
            final(self).entries() == old(self).entries(),
            final(self).destroyed() == old(self).destroyed(),
            final(self).segments() == old(self).segments().update(
                segment as int,
                Segment {
                    capacity: old(self).segments()[segment as int].capacity,
                    bytes: old(self).segments()[segment as int].bytes + zeros(
                        (offset - old(self).segments()[segment as int].bytes.len()) as nat,
                    ) + payload@,
                },
            ),
    {
        let ghost before = self.data@;
        let mut storages: Vec<&mut Storage> = self.data.iter_mut();
        let ghost handed = storages@;
        let at: usize = storages.len() - 1 - segment;
        let target: &mut Storage = storages.swap_remove(at);
        proof {
            assert(before[at as int].wf());
        }
        target.place(offset, payload);
        proof {
            assert forall|i: int| 0 <= i < handed.len() && i != at implies *final(handed[i])
                == before[i] by {
                if i == handed.len() - 1 {
                    assert(storages@[at as int] == handed[i]);
                } else {
                    assert(storages@[i] == handed[i]);
                }
            }
        }
    }

    /// Stores `payload`, aligned to `align`, and returns where it lives, or
    /// `None` if it cannot be stored.
    ///
    /// A payload without bytes takes no storage. Any other payload goes to
    /// the newest segment that has room for it; if none has, a new segment
    /// is made for it. Nothing that was stored before moves.
    fn store(&mut self, payload: &Vec<u8>, align: usize) -> (location: Option<Location>)
        requires
            old(self).kept(),
            align >= 1,
        ensures
            final(self).kept(),
            final(self).entries() == old(self).entries(),
            final(self).destroyed() == old(self).destroyed(),
            location == placement(old(self).segments(), payload@.len(), align as nat),
            final(self).segments() == stored(old(self).segments(), payload@, align as nat),
    {
        let size: usize = payload.len();
        if size > 0 {
            match self.find_room(size, align) {
                Some((segment, offset)) => {
                    self.write_at(segment, offset, payload);
                    Some(Location::Slot { segment, offset })
                },
                None => self.add_storage(payload, align),
            }
        } else {
            Some(Location::Sentinel { align })
        }
    }

    /// Makes a new segment with `payload` at its start and returns where the
    /// payload lives, or `None` if a segment of the capacity that is called
    /// for cannot be had.
    fn add_storage(&mut self, payload: &Vec<u8>, align: usize) -> (location: Option<Location>)
        requires
            old(self).kept(),
        ensures
            final(self).kept(),
            final(self).entries() == old(self).entries(),
            final(self).destroyed() == old(self).destroyed(),
            grown(old(self).segments(), payload@.len(), align as nat) <= largest_segment()
                ==> location == Some(
                Location::Slot { segment: old(self).segments().len() as usize, offset: 0 },
            ) && final(self).segments() == old(self).segments().push(
                Segment {
                    capacity: grown(old(self).segments(), payload@.len(), align as nat),
                    bytes: payload@,
                },
            ),
            grown(old(self).segments(), payload@.len(), align as nat) > largest_segment()
                ==> location is None && final(self).segments() == old(self).segments(),
    {
        let size: usize = payload.len();
        let ghost segments = self.segments();
        proof {
            if segments.len() > 0 {
                assert(segments.last() == self.data@[0]@);
            }
        }
        let needed: usize = match size.checked_add(align) {
            Some(needed) => needed,
            None => {
                return None;
            },
        };
        let least: usize = match self.data.head() {
            Some(storage) => match storage.capacity.checked_mul(2) {
                Some(doubled) => doubled,
                None => {
                    return None;
                },
            },
            None => FIRST_STORAGE,
        };
        let capacity: usize = if needed >= least {
            needed
        } else {
            least
        };
        if capacity > isize::MAX as usize {
            return None;
        }
        let segment: usize = self.data.len();
        let storage: Storage = Storage::holding(capacity, payload);
        let _linked = self.data.push(storage);
        proof {
            assert(self.segments() == segments.push(
                Segment { capacity: capacity as nat, bytes: payload@ },
            ));
        }
        Some(Location::Slot { segment, offset: 0 })
    }

    /// Hands a value over to the arena.
    ///
    /// The arena copies the value's bytes into storage as `placement` says
    /// and keeps its capability until the next clear. No value added before
    /// is touched, and nothing is destroyed. Only a value with bytes for
    /// which no segment can be had is destroyed at once instead.
    pub fn add(&mut self, value: Erased<D>)
        requires
            old(self).wf(),
        ensures
            final(self).wf(),
            final(self)@ == added(
                old(self)@,
                value.payload(),
                value.spec_align(),
                value.capability(),
            ),
    {
        proof {
            use_type_invariant(&value);
        }
        let Erased { payload, align, destroy } = value;
        let ghost waiting = self.destructors@;
        let ghost before = self.segments();
        proof {
            old(self).lemma_segments_sound();
            lemma_placement_named(before, payload@, align as nat);
            assert forall|i: int| 0 <= i < waiting.len() implies names(
                stored(before, payload@, align as nat),
                (#[trigger] waiting[i]).location,
            ) by {
                lemma_stored_keeps_named(before, payload@, align as nat, waiting[i].location);
            }
        }
        match self.store(&payload, align) {
            Some(location) => {
                let _stored = self.destructors.push(Entry { location, destroy });
                proof {
                    let entries = seq![Entry { location, destroy }] + waiting;
                    assert forall|i: int| 0 <= i < entries.len() implies names(
                        stored(before, payload@, align as nat),
                        (#[trigger] entries[i]).location,
                    ) by {
                        if i > 0 {
                            assert(entries[i] == waiting[i - 1]);
                        }
                    }
                }
            },
            None => {
                self.destroyed = Ghost(self.destroyed@.push(destroy));
                release(destroy);
            },
        }
    }

    /// Destroys every value that was added since the last clear, the one
    /// added last first, and takes all storage out of use. The segments stay
    /// reserved for the values to come.
    #[verifier::loop_isolation(false)]
    pub fn clear(&mut self)
        requires
            old(self).wf(),
        ensures
            final(self).wf(),
            final(self)@ == cleared(old(self)@),
    {
        let mut destructors: ConcurrentVec<Entry<D>> = ConcurrentVec::new();
        core::mem::swap(&mut destructors, &mut self.destructors);
        let ghost waiting = destructors@;
        let mut entries: Vec<Entry<D>> = destructors.into_iter();
        // The entries stand newest first and are taken from the far end, so
        // they are turned round before they are destroyed.
        let mut oldest_first: Vec<Entry<D>> = Vec::new();
        while entries.len() > 0
            invariant
                entries@.len() + oldest_first@.len() == waiting.len(),
                entries@ == waiting.subrange(0, entries@.len() as int),
                forall|i: int|
                    0 <= i < oldest_first@.len() ==> #[trigger] oldest_first@[i]
                        == waiting[waiting.len() - 1 - i],
            decreases entries@.len(),
        {
            match entries.pop() {
                Some(entry) => oldest_first.push(entry),
                None => {},
            }
        }
        let ghost log = self.destroyed@;
        while oldest_first.len() > 0
            invariant
                oldest_first@.len() <= waiting.len(),
                forall|i: int|
                    0 <= i < oldest_first@.len() ==> #[trigger] oldest_first@[i]
                        == waiting[waiting.len() - 1 - i],
                self.destroyed@ == log + capabilities_of(
                    waiting.subrange(0, waiting.len() - oldest_first@.len()),
                ),
                self.destructors@ == Seq::<Entry<D>>::empty(),
                self.destructors.wf(),
                self.data == old(self).data,
            decreases oldest_first@.len(),
        {
            let ghost gone = waiting.len() - oldest_first@.len();
            match oldest_first.pop() {
                Some(entry) => {
                    let Entry { location: _, destroy } = entry;
                    proof {
                        assert(capabilities_of(waiting.subrange(0, gone + 1)) == capabilities_of(
                            waiting.subrange(0, gone),
                        ).push(destroy));
                    }
                    self.destroyed = Ghost(self.destroyed@.push(destroy));
                    release(destroy);
                },
                None => {},
            }
        }
        proof {
            assert(waiting.subrange(0, waiting.len() as int) == waiting);
        }

        let ghost before = self.data@;
        let mut storages: Vec<&mut Storage> = self.data.iter_mut();
        let ghost handed = storages@;
        while storages.len() > 0
            invariant
                handed.len() == before.len(),
                storages@.len() <= handed.len(),
                storages@ == handed.subrange(0, storages@.len() as int),
                forall|i: int| 0 <= i < handed.len() ==> *#[trigger] handed[i] == before[i],
                forall|i: int| 0 <= i < before.len() ==> (#[trigger] before[i]).wf(),
                forall|i: int|
                    storages@.len() <= i < handed.len() ==> (#[trigger] final(handed[i])).wf()
                        && final(handed[i])@ == (Segment {
                        capacity: before[i]@.capacity,
                        bytes: Seq::empty(),
                    }),
            decreases storages@.len(),
        {
            match storages.pop() {
                Some(storage) => {
                    storage.reset();
                },
                None => {},
            }
        }
        proof {
            assert(self.segments() == emptied(old(self).segments()));
        }
    }

    /// The number of values that wait to be destroyed, counted up to
    /// `usize::MAX`.
    pub fn pending(&self) -> (pending: usize)
        ensures
            pending == if self@.entries.len() > usize::MAX {
                usize::MAX as nat
            } else {
                self@.entries.len()
            },
    {
        self.destructors.len()
    }

    /// Whether the arena has no storage segment yet.
    pub fn is_unused(&self) -> (unused: bool)
        ensures
            unused == (self@.segments.len() == 0),
    {
        self.data.is_empty()
    }

    /// The locations of the values that wait to be destroyed, from the value
    /// added last to the value added first. The arena is left as it is.
    #[verifier::loop_isolation(false)]
    pub fn locations(&mut self) -> (found: Vec<Location>)
        requires
            old(self).wf(),
        ensures
            final(self).wf(),
            final(self)@ == old(self)@,
            found@ == locations_of(old(self)@.entries),
    {
        let ghost before = self.destructors@;
        let ghost end = *final(self);
        let entries: Vec<&mut Entry<D>> = self.destructors.iter_assume_init_mut();
        let mut found: Vec<Location> = Vec::new();
        let mut seen: usize = 0;
        while seen < entries.len()
            invariant
                seen <= entries@.len(),
                entries@.len() == before.len(),
                forall|i: int| 0 <= i < entries@.len() ==> *#[trigger] entries@[i] == before[i],
                found@.len() == seen,
                forall|i: int| 0 <= i < seen ==> #[trigger] found@[i] == before[i].location,
            decreases entries@.len() - seen,
        {
            found.push(entries[seen].location);
            seen = seen + 1;
        }
        proof {
            assert(found@ == locations_of(before));
            assert forall|i: int| 0 <= i < before.len() implies #[trigger] end.destructors@[i]
                == before[i] by {
                assert(*final(entries@[i]) == *entries@[i]);
            }
            assert(end.destructors@ == before);
        }
        found
    }

    /// Copies out the `size` bytes that stand at `location`, if `location`
    /// names that many bytes in use.
    #[verifier::loop_isolation(false)]
    pub fn read(&self, location: Location, size: usize) -> (bytes: Option<Vec<u8>>)
        ensures
            match payload_at(self@.segments, location, size as nat) {
                Some(payload) => bytes is Some && bytes->0@ == payload,
                None => bytes is None,
            },
    {
        match location {
            Location::Sentinel { .. } => None,
            Location::Slot { segment, offset } => {
                let storages: Vec<&Storage> = self.data.iter();
                let count: usize = storages.len();
                if segment >= count {
                    return None;
                }
                let storage: &Storage = storages[count - 1 - segment];
                assert(storage@ == self.segments()[segment as int]);
                let used: usize = storage.bytes.len();
                let end: usize = match offset.checked_add(size) {
                    Some(end) => end,
                    None => {
                        return None;
                    },
                };
                if end > used {
                    return None;
                }
                let mut bytes: Vec<u8> = Vec::new();
                let mut at: usize = offset;
                while at < end
                    invariant
                        offset <= at <= end,
                        end <= storage.bytes@.len(),
                        bytes@ == storage.bytes@.subrange(offset as int, at as int),
                    decreases end - at,
                {
                    bytes.push(storage.bytes[at]);
                    at = at + 1;
                }
                Some(bytes)
            },
        }
    }

    /// The size of the arena in bytes: the capacities of all its segments
    /// together, whether in use or not, counted up to `usize::MAX`.
    pub fn size(&self) -> (size: usize)
        ensures
            size == if capacity_sum(self@.segments) > usize::MAX {
                usize::MAX as nat
            } else {
                capacity_sum(self@.segments)
            },
    {
        let storages: Vec<&Storage> = self.data.iter();
        let count: usize = storages.len();
        let ghost segments = self.segments();
        let mut size: usize = 0;
        let mut left: usize = count;
        proof {
            assert(segments.subrange(0, 0) == Seq::<Segment>::empty());
        }
        while left > 0
            invariant
                left <= count,
                count == storages@.len(),
                count == segments.len(),
                segments == self.segments(),
                forall|i: int| 0 <= i < count ==> *#[trigger] storages@[i] == self.data@[i],
                size == if capacity_sum(segments.subrange(0, count - left)) > usize::MAX {
                    usize::MAX as nat
                } else {
                    capacity_sum(segments.subrange(0, count - left))
                },
            decreases left,
        {
            left = left - 1;
            proof {
                let next = segments.subrange(0, count - left);
                assert(next.drop_last() == segments.subrange(0, count - left - 1));
                assert(next.last() == storages@[left as int]@);
            }
            size = size.saturating_add(storages[left].capacity);
        }
        proof {
            assert(segments.subrange(0, count as int) == segments);
        }
        size
    }
}

impl<D> Default for Arena<D> {
    fn default() -> (arena: Self)
        ensures
            arena.wf(),
            arena@ == unused::<D>(),
    {
        Arena::new()
    }
}

/// Destroys a value by giving up the capability that stands for it.
fn release<D>(capability: D) {
}

} // verus!

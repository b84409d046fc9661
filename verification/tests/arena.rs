use drop_bin::Arena;
use drop_bin::Erased;
use drop_bin::Location;
use std::cell::Cell;
use std::rc::Rc;

/// Counts how often it is dropped.
struct Counted(Rc<Cell<usize>>);

impl Drop for Counted {
    fn drop(&mut self) {
        self.0.set(self.0.get() + 1);
    }
}

fn counted(drops: &Rc<Cell<usize>>, bytes: Vec<u8>, align: usize) -> Erased<Counted> {
    match Erased::new(bytes, align, Counted(drops.clone())) {
        Ok(erased) => erased,
        Err(_) => unreachable!(),
    }
}

#[test]
fn arena_destroys_each_value_once_and_only_at_clear() {
    let drops = Rc::new(Cell::new(0));
    let mut arena = Arena::new();

    for n in 0..10_u8 {
        arena.add(counted(&drops, vec![n; 3], 4));
        assert_eq!(drops.get(), 0);
        assert_eq!(arena.pending(), usize::from(n) + 1);
    }

    arena.clear();
    assert_eq!(drops.get(), 10);
    assert_eq!(arena.pending(), 0);

    arena.clear();
    assert_eq!(drops.get(), 10);
}

#[test]
fn arena_add_then_clear_destroys_the_value() {
    let drops = Rc::new(Cell::new(0));
    let mut arena = Arena::new();

    arena.add(counted(&drops, vec![1, 2, 3], 1));
    arena.clear();

    assert_eq!(drops.get(), 1);
}

#[test]
fn arena_destroys_the_value_added_last_first() {
    let order = Rc::new(Cell::new(Vec::new()));

    struct Named(u8, Rc<Cell<Vec<u8>>>);
    impl Drop for Named {
        fn drop(&mut self) {
            let mut seen = self.1.take();
            seen.push(self.0);
            self.1.set(seen);
        }
    }

    let mut arena = Arena::new();
    for name in 1..=6_u8 {
        match Erased::new(vec![name], 1, Named(name, order.clone())) {
            Ok(erased) => arena.add(erased),
            Err(_) => unreachable!(),
        }
    }
    assert_eq!(order.take(), []);

    arena.clear();
    assert_eq!(order.take(), [6, 5, 4, 3, 2, 1]);
}

#[test]
fn arena_counts_a_value_without_bytes_once_per_add() {
    let drops = Rc::new(Cell::new(0));
    let mut arena = Arena::new();

    arena.add(counted(&drops, Vec::new(), 8));
    arena.add(counted(&drops, Vec::new(), 8));
    arena.add(counted(&drops, Vec::new(), 1));

    assert_eq!(drops.get(), 0);
    assert!(arena.is_unused());
    assert_eq!(arena.size(), 0);
    assert_eq!(
        arena.locations(),
        [
            Location::Sentinel { align: 1 },
            Location::Sentinel { align: 8 },
            Location::Sentinel { align: 8 },
        ]
    );
    assert_eq!(arena.read(Location::Sentinel { align: 8 }, 0), None);

    arena.clear();
    assert_eq!(drops.get(), 3);
}

#[test]
fn arena_places_values_behind_their_padding() {
    let drops = Rc::new(Cell::new(0));
    let mut arena = Arena::new();

    arena.add(counted(&drops, vec![1, 2, 3], 1));
    arena.add(counted(&drops, vec![4, 5], 4));
    arena.add(counted(&drops, vec![6], 1));
    arena.add(counted(&drops, vec![7; 8], 8));

    assert_eq!(
        arena.locations(),
        [
            Location::Slot { segment: 0, offset: 8 },
            Location::Slot { segment: 0, offset: 6 },
            Location::Slot { segment: 0, offset: 4 },
            Location::Slot { segment: 0, offset: 0 },
        ]
    );
    assert_eq!(arena.size(), 1024);
    assert_eq!(arena.read(Location::Slot { segment: 0, offset: 0 }, 3), Some(vec![1, 2, 3]));
    assert_eq!(arena.read(Location::Slot { segment: 0, offset: 3 }, 1), Some(vec![0]));
    assert_eq!(arena.read(Location::Slot { segment: 0, offset: 4 }, 2), Some(vec![4, 5]));
    assert_eq!(arena.read(Location::Slot { segment: 0, offset: 6 }, 1), Some(vec![6]));
    assert_eq!(arena.read(Location::Slot { segment: 0, offset: 7 }, 1), Some(vec![0]));
    assert_eq!(arena.read(Location::Slot { segment: 0, offset: 8 }, 8), Some(vec![7; 8]));
    assert_eq!(arena.read(Location::Slot { segment: 0, offset: 8 }, 9), None);
    assert_eq!(arena.read(Location::Slot { segment: 1, offset: 0 }, 1), None);
    assert_eq!(arena.read(Location::Slot { segment: 0, offset: usize::MAX }, 1), None);
}

#[test]
fn arena_grows_by_doubling_and_reuses_the_newest_fit() {
    let drops = Rc::new(Cell::new(0));
    let mut arena = Arena::new();

    // Leaves one byte of the first segment of 1024 bytes.
    arena.add(counted(&drops, vec![1; 1023], 1));
    assert_eq!(arena.locations()[0], Location::Slot { segment: 0, offset: 0 });
    assert_eq!(arena.size(), 1024);

    // Fits nowhere: a second segment of twice the capacity is made.
    arena.add(counted(&drops, vec![2; 10], 2));
    assert_eq!(arena.locations()[0], Location::Slot { segment: 1, offset: 0 });
    assert_eq!(arena.size(), 1024 + 2048);

    // Larger than twice the newest segment: the segment is made to measure.
    arena.add(counted(&drops, vec![3; 5000], 16));
    assert_eq!(arena.locations()[0], Location::Slot { segment: 2, offset: 0 });
    assert_eq!(arena.size(), 1024 + 2048 + 5016);

    // Fits in the newest segment, which is looked at first.
    arena.add(counted(&drops, vec![4; 4], 4));
    assert_eq!(arena.locations()[0], Location::Slot { segment: 2, offset: 5000 });

    // Fits in the second segment only.
    arena.add(counted(&drops, vec![5; 100], 1));
    assert_eq!(arena.locations()[0], Location::Slot { segment: 1, offset: 10 });

    assert_eq!(arena.read(Location::Slot { segment: 0, offset: 1022 }, 1), Some(vec![1]));
    assert_eq!(arena.read(Location::Slot { segment: 0, offset: 1023 }, 1), None);
    assert_eq!(arena.read(Location::Slot { segment: 1, offset: 0 }, 10), Some(vec![2; 10]));
    assert_eq!(
        arena.read(Location::Slot { segment: 2, offset: 4999 }, 5),
        Some(vec![3, 4, 4, 4, 4])
    );
    assert_eq!(arena.size(), 1024 + 2048 + 5016);
    assert_eq!(drops.get(), 0);
}

#[test]
fn arena_is_as_large_after_a_clear_as_before() {
    let drops = Rc::new(Cell::new(0));
    let mut arena = Arena::new();
    arena.add(counted(&drops, vec![1; 1000], 1));
    arena.add(counted(&drops, vec![2; 1000], 1));

    let before = arena.size();
    assert_eq!(before, 1024 + 2048);
    arena.clear();
    assert_eq!(arena.size(), before);
    assert!(!arena.is_unused());
    assert_eq!(arena.read(Location::Slot { segment: 0, offset: 0 }, 1), None);

    // The segments are used again from their start, the newest first.
    arena.add(counted(&drops, vec![3; 8], 8));
    assert_eq!(arena.locations(), [Location::Slot { segment: 1, offset: 0 }]);
    assert_eq!(arena.size(), before);
}

#[test]
fn arena_destroys_at_once_what_it_cannot_store() {
    let drops = Rc::new(Cell::new(0));
    let mut arena = Arena::new();

    arena.add(counted(&drops, vec![1], usize::MAX));
    assert_eq!(drops.get(), 1);
    assert_eq!(arena.pending(), 0);
    assert!(arena.is_unused());

    arena.add(counted(&drops, vec![1], isize::MAX as usize));
    assert_eq!(drops.get(), 2);
    assert_eq!(arena.pending(), 0);

    arena.clear();
    assert_eq!(drops.get(), 2);
}

#[test]
fn erased_hands_the_capability_back_for_no_alignment() {
    let drops = Rc::new(Cell::new(0));
    match Erased::new(vec![1, 2], 0, Counted(drops.clone())) {
        Ok(_) => unreachable!(),
        Err(capability) => {
            assert_eq!(drops.get(), 0);
            drop(capability);
        }
    }
    assert_eq!(drops.get(), 1);
}

#[test]
fn erased_knows_its_size_and_alignment() {
    let drops = Rc::new(Cell::new(0));
    let erased = counted(&drops, vec![9; 5], 2);
    assert_eq!(erased.size(), 5);
    assert_eq!(erased.align(), 2);
    drop(erased);
    assert_eq!(drops.get(), 1);
}

#[test]
fn arena_destroys_what_is_left_when_it_is_dropped() {
    let drops = Rc::new(Cell::new(0));
    let mut arena = Arena::new();
    arena.add(counted(&drops, vec![1], 1));
    arena.add(counted(&drops, Vec::new(), 1));
    drop(arena);
    assert_eq!(drops.get(), 2);
}

#[test]
fn arena_default_is_unused() {
    let mut arena: Arena<()> = Arena::default();
    assert!(arena.is_unused());
    assert_eq!(arena.pending(), 0);
    assert_eq!(arena.size(), 0);
    assert_eq!(arena.locations(), []);
}

#[test]
fn erased_destroy_destroys_the_value_at_once() {
    let drops = Rc::new(Cell::new(0));
    let erased = counted(&drops, vec![1, 2, 3], 4);
    assert_eq!(drops.get(), 0);

    erased.destroy();
    assert_eq!(drops.get(), 1);
}

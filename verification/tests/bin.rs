use drop_bin::assert_thread_safe;
use drop_bin::Bin;
use drop_bin::Capability;
use drop_bin::Erased;
use std::sync::atomic::AtomicBool;
use std::sync::atomic::AtomicUsize;
use std::sync::atomic::Ordering::SeqCst;
use std::sync::Arc;

struct CallOnDrop<T: FnMut()>(T);

impl<T: FnMut()> Drop for CallOnDrop<T> {
    fn drop(&mut self) {
        self.0();
    }
}

/// Erases `value`: the value itself is the capability, and `bytes` are the
/// bytes that stand for it, to be placed at `align`.
fn erased<'a, T: Send + 'a>(value: T, bytes: Vec<u8>, align: usize) -> Erased<Capability<'a>> {
    let capability: Capability<'a> = Box::new(value);
    match Erased::new(bytes, align, capability) {
        Ok(erased) => erased,
        Err(_) => unreachable!(),
    }
}

/// Erases a value whose bytes are of no interest here: zeros stand for them.
fn opaque<'a, T: Send + 'a>(value: T) -> Erased<Capability<'a>> {
    erased(value, vec![0; std::mem::size_of::<T>()], std::mem::align_of::<T>())
}

#[test]
fn test_clear() {
    let destructor_called = AtomicBool::new(false);

    let bin = Bin::new();

    bin.add(opaque(CallOnDrop(
        || assert!(!destructor_called.swap(true, SeqCst)),
    )));
    assert!(!destructor_called.load(SeqCst));

    bin.clear();
    assert!(destructor_called.load(SeqCst));
}

#[test]
fn test_thread_safe() {
    assert_thread_safe::<Bin<'_>>();
}

#[test]
fn bin_destroys_each_value_once() {
    let drops = AtomicUsize::new(0);
    let bin = Bin::new();

    for n in 0..100_u8 {
        bin.add(opaque((
            CallOnDrop(|| {
                drops.fetch_add(1, SeqCst);
            }),
            n,
        )));
    }
    assert_eq!(drops.load(SeqCst), 0);

    bin.clear();
    assert_eq!(drops.load(SeqCst), 100);

    bin.clear();
    assert_eq!(drops.load(SeqCst), 100);
}

#[test]
fn bin_takes_values_of_any_type() {
    let drops = AtomicUsize::new(0);
    let bin = Bin::new();

    bin.add(opaque("Hello World!".to_owned()));
    bin.add(opaque(vec![1_u64, 2, 3]));
    bin.add(opaque(()));
    bin.add(opaque(7_i128));
    bin.add(opaque(Box::new([0_u8; 4096])));
    bin.add(opaque(CallOnDrop(|| {
        drops.fetch_add(1, SeqCst);
    })));
    assert_eq!(drops.load(SeqCst), 0);
    assert_eq!(bin.size(), 1024);

    bin.clear();
    assert_eq!(drops.load(SeqCst), 1);
    assert_eq!(bin.size(), 1024);
}

#[test]
fn bin_is_as_large_after_a_clear_as_before() {
    let bin = Bin::new();
    assert_eq!(bin.size(), 0);

    bin.add(opaque([1_u32; 25]));
    bin.add(opaque([2_u32; 500]));
    let before = bin.size();
    assert_eq!(before, 1024 + 2048);

    bin.clear();
    assert_eq!(bin.size(), before);

    bin.add(erased((), vec![3; 3000], 8));
    assert_eq!(bin.size(), 1024 + 2048 + 4096);
    bin.clear();
    assert_eq!(bin.size(), 1024 + 2048 + 4096);
}

#[test]
fn bin_finish_destroys_what_is_left() {
    let drops = AtomicUsize::new(0);
    let bin = Bin::new();
    for _ in 0..3 {
        bin.add(opaque(CallOnDrop(|| {
            drops.fetch_add(1, SeqCst);
        })));
    }

    bin.finish();
    assert_eq!(drops.load(SeqCst), 3);
}

#[test]
fn bin_destroys_what_is_left_when_it_is_dropped() {
    let drops = AtomicUsize::new(0);
    let bin = Bin::new();
    bin.add(opaque(CallOnDrop(|| {
        drops.fetch_add(1, SeqCst);
    })));
    assert_eq!(drops.load(SeqCst), 0);

    drop(bin);
    assert_eq!(drops.load(SeqCst), 1);
}

#[test]
fn bin_default_is_empty() {
    let bin = Bin::default();
    assert_eq!(bin.size(), 0);
    bin.clear();
    assert_eq!(bin.size(), 0);
}

#[test]
fn bin_destroys_as_many_values_as_were_added_whenever_it_is_cleared() {
    const ROUNDS: usize = 8;
    const VALUES: usize = 500;

    let drops = AtomicUsize::new(0);
    let bin = Bin::new();

    for round in 0..ROUNDS {
        for n in 0..VALUES {
            bin.add(erased(
                CallOnDrop(|| {
                    drops.fetch_add(1, SeqCst);
                }),
                vec![round as u8; n % 17],
                1 << (n % 4),
            ));
            if n % (round + 3) == 0 {
                bin.clear();
                assert_eq!(drops.load(SeqCst), round * VALUES + n + 1);
            }
        }
    }

    bin.clear();
    assert_eq!(drops.load(SeqCst), ROUNDS * VALUES);
}

#[test]
fn bin_being_cleared_destroys_at_once_what_is_added() {
    let bin: Arc<Bin<'static>> = Arc::new(Bin::new());
    let drops = Arc::new(AtomicUsize::new(0));
    let seen_size = Arc::new(AtomicUsize::new(usize::MAX));
    let seen_drops = Arc::new(AtomicUsize::new(usize::MAX));

    // While this value is destroyed the bin is being cleared: what it adds
    // then cannot get in.
    let first = {
        let bin = bin.clone();
        let drops = drops.clone();
        let seen_size = seen_size.clone();
        let seen_drops = seen_drops.clone();
        CallOnDrop(move || {
            seen_size.store(bin.size(), SeqCst);
            let second = {
                let drops = drops.clone();
                CallOnDrop(move || {
                    drops.fetch_add(1, SeqCst);
                })
            };
            bin.add(opaque(second));
            seen_drops.store(drops.load(SeqCst), SeqCst);
        })
    };
    bin.add(opaque(first));
    assert_eq!(bin.size(), 1024);
    assert_eq!(drops.load(SeqCst), 0);

    bin.clear();

    assert_eq!(seen_size.load(SeqCst), 0);
    assert_eq!(seen_drops.load(SeqCst), 1);
    assert_eq!(drops.load(SeqCst), 1);
    assert_eq!(bin.size(), 1024);
}

#[test]
fn bin_makes_up_for_a_clear_that_could_not_be_done() {
    let bin: Arc<Bin<'static>> = Arc::new(Bin::new());
    let drops = Arc::new(AtomicUsize::new(0));

    // This value asks for a clear while the bin is being cleared. The
    // request cannot be met then, and stands.
    let first = {
        let bin = bin.clone();
        CallOnDrop(move || bin.clear())
    };
    bin.add(opaque(first));
    bin.clear();

    // The next call that finds the bin free does the clear: here the very
    // `add` that brings the value.
    let second = {
        let drops = drops.clone();
        CallOnDrop(move || {
            drops.fetch_add(1, SeqCst);
        })
    };
    bin.add(opaque(second));
    assert_eq!(drops.load(SeqCst), 1);

    // After that nothing is asked for any more.
    let third = {
        let drops = drops.clone();
        CallOnDrop(move || {
            drops.fetch_add(1, SeqCst);
        })
    };
    bin.add(opaque(third));
    assert_eq!(drops.load(SeqCst), 1);

    bin.clear();
    assert_eq!(drops.load(SeqCst), 2);
}

#[test]
fn bin_destroys_at_once_what_is_added_while_another_value_is_added() {
    let bin: Arc<Bin<'static>> = Arc::new(Bin::new());
    let drops = Arc::new(AtomicUsize::new(0));
    let seen_drops = Arc::new(AtomicUsize::new(usize::MAX));

    // No segment can be had for this value, so it is destroyed while it is
    // added, with the arena locked: what it adds then cannot get in.
    let first = {
        let bin = bin.clone();
        let drops = drops.clone();
        let seen_drops = seen_drops.clone();
        CallOnDrop(move || {
            let second = {
                let drops = drops.clone();
                CallOnDrop(move || {
                    drops.fetch_add(1, SeqCst);
                })
            };
            bin.add(opaque(second));
            seen_drops.store(drops.load(SeqCst), SeqCst);
        })
    };
    bin.add(erased(first, vec![1], usize::MAX));

    assert_eq!(seen_drops.load(SeqCst), 1);
    assert_eq!(drops.load(SeqCst), 1);
    assert_eq!(bin.size(), 0);

    bin.clear();
    assert_eq!(drops.load(SeqCst), 1);
}

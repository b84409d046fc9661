use drop_bin::assert_thread_safe;
use drop_bin::ConcurrentVec;

#[test]
fn test() {
    let mut vec = ConcurrentVec::new();
    assert_eq!(vec.len(), 0);
    assert!(vec.is_empty());

    for n in 0..5 {
        assert_eq!(vec.len(), n);
        let r = vec.push(n.to_string());
        r.push('x');
        assert_eq!(vec.len(), n + 1);
        assert!(!vec.is_empty());
    }

    let required = ["4x", "3x", "2x", "1x", "0x"];

    assert_eq!(
        vec.iter_assume_init_mut()
            .into_iter()
            .map(|v| &**v)
            .collect::<Vec<_>>(),
        required
    );
    assert_eq!(vec.into_iter(), required);
}

#[test]
fn concurrent_vec_thread_safe() {
    assert_thread_safe::<ConcurrentVec<()>>();
}

#[test]
fn vec_yields_the_most_recent_first() {
    let mut vec = ConcurrentVec::new();
    vec.push("1");
    vec.push("2");
    vec.push("3");

    assert_eq!(vec.into_iter(), ["3", "2", "1"]);
}

#[test]
fn vec_push_returns_the_stored_value() {
    let mut vec = ConcurrentVec::new();
    assert_eq!(*vec.push(7), 7);
    *vec.push(8) = 9;
    assert_eq!(vec.into_iter(), [9, 7]);
}

#[test]
fn vec_keeps_order_across_segments() {
    let mut vec = ConcurrentVec::new();
    // The first segment holds 4 values, the second 8 and the third 16.
    for n in 0..29_usize {
        vec.push(n);
        assert_eq!(vec.len(), n + 1);
    }

    let expected: Vec<usize> = (0..29).rev().collect();
    assert_eq!(
        vec.iter_assume_init_mut()
            .into_iter()
            .map(|v| *v)
            .collect::<Vec<_>>(),
        expected
    );
    assert_eq!(vec.into_iter(), expected);
}

#[test]
fn vec_iter_mut_writes_in_place() {
    let mut vec = ConcurrentVec::new();
    for n in 0..6 {
        vec.push(n);
    }

    for value in vec.iter_assume_init_mut() {
        *value *= 10;
    }

    assert_eq!(vec.len(), 6);
    assert_eq!(vec.into_iter(), [50, 40, 30, 20, 10, 0]);
}

#[test]
fn vec_default_is_empty() {
    let vec: ConcurrentVec<u8> = ConcurrentVec::default();
    assert!(vec.is_empty());
    assert_eq!(vec.len(), 0);
    assert_eq!(vec.into_iter(), []);
}

use drop_bin::assert_thread_safe;
use drop_bin::ConcurrentList;

#[test]
fn null() {
    let mut list: ConcurrentList<()> = ConcurrentList::new();
    assert!(list.head().is_none());
    assert_eq!(list.head(), None);
    assert_eq!(list.head_mut(), None);
    assert_eq!(list.iter().into_iter().next(), None);
    assert_eq!(list.iter_mut().into_iter().next(), None);
    assert_eq!(list.len(), 0);
    assert!(list.is_empty());
}

#[test]
fn concurrent_list_push() {
    let mut list = ConcurrentList::new();

    let r = list.push("Hello World".to_owned());
    assert_eq!(r, "Hello World");

    assert_eq!(list.head().unwrap(), "Hello World");
    assert_eq!(list.iter(), [&"Hello World".to_owned()]);

    let r2 = list.push("Foo".to_owned());
    assert_eq!(r2, "Foo");
    assert_eq!(list.iter()[1], "Hello World");

    assert_eq!(list.head().unwrap(), "Foo");
    assert_eq!(
        list.iter(),
        [&"Foo".to_owned(), &"Hello World".to_owned()]
    );

    assert_eq!(list.into_iter(), ["Foo", "Hello World"]);
}

#[test]
fn pop() {
    let mut list = ConcurrentList::new();

    list.push("1".to_owned());
    list.push("2".to_owned());
    list.push("3".to_owned());

    assert_eq!(list.pop().unwrap(), "3");
    assert_eq!(list.pop().unwrap(), "2");
    assert_eq!(list.pop().unwrap(), "1");
    assert_eq!(list.pop(), None);

    list.push("1".to_owned());
    list.push("2".to_owned());
    list.push("3".to_owned());

    let mut iter = list.into_iter().into_iter();
    assert_eq!(iter.next().unwrap(), "3");
    drop(iter);
}

#[test]
fn concurrent_list_thread_safe() {
    assert_thread_safe::<ConcurrentList<()>>();
}

#[test]
fn list_head_mut_changes_the_head_only() {
    let mut list = ConcurrentList::new();
    list.push(1);
    list.push(2);
    list.push(3);

    *list.head_mut().unwrap() = 30;

    assert_eq!(list.head(), Some(&30));
    assert_eq!(list.len(), 3);
    assert_eq!(list.into_iter(), [30, 2, 1]);
}

#[test]
fn list_iter_mut_runs_head_first() {
    let mut list = ConcurrentList::new();
    list.push("a".to_owned());
    list.push("b".to_owned());
    list.push("c".to_owned());

    let mut position = 0;
    for value in list.iter_mut() {
        value.push_str(&position.to_string());
        position += 1;
    }

    assert_eq!(list.iter(), [&"c0".to_owned(), &"b1".to_owned(), &"a2".to_owned()]);
}

#[test]
fn list_drain_empties_and_the_list_can_be_used_again() {
    let mut list = ConcurrentList::new();
    list.push(1);
    list.push(2);

    assert_eq!(list.drain(), [2, 1]);
    assert!(list.is_empty());
    assert_eq!(list.len(), 0);
    assert_eq!(list.head(), None);
    assert_eq!(list.drain(), []);

    list.push(3);
    assert!(!list.is_empty());
    assert_eq!(list.pop(), Some(3));
    assert_eq!(list.pop(), None);
}

#[test]
fn list_default_is_empty() {
    let list: ConcurrentList<u8> = ConcurrentList::default();
    assert!(list.is_empty());
}

use fingertree::deque::Deque;

#[test]
fn grow_and_drain() {
    let mut d: Deque<i64> = Deque::new();
    for i in 1..=32i64 {
        d.push(i);
    }
    assert_eq!(d.len(), 32);
    for i in 1..=32i64 {
        assert_eq!(d.pop_opt(), Some(i));
    }
    assert!(d.is_empty());
    assert_eq!(d.len(), 0);
    assert_eq!(d.pop_opt(), None);
}

#[test]
fn mixed_ends() {
    let mut d: Deque<i64> = Deque::new();
    d.unshift(0);
    d.push(1);
    d.unshift(-1);
    d.push(2);
    assert_eq!(*d.head(), -1);
    assert_eq!(*d.last(), 2);
    assert_eq!(d.len(), 4);
    assert_eq!(d.pop_opt(), Some(-1));
    assert_eq!(d.pop_opt(), Some(0));
    assert_eq!(d.pop_opt(), Some(1));
    assert_eq!(d.pop_opt(), Some(2));
    assert_eq!(d.pop_opt(), None);
}

#[test]
fn empty_accessors() {
    let mut d: Deque<u32> = Deque::new();
    assert!(d.is_empty());
    assert!(d.head_opt().is_none());
    assert!(d.last_opt().is_none());
    assert_eq!(d.pop_opt(), None);
    assert!(d.is_empty());
}

#[test]
fn one_element_ends_agree() {
    let mut d: Deque<&str> = Deque::new();
    d.push("only");
    assert_eq!(*d.head(), "only");
    assert_eq!(*d.last(), "only");
    assert_eq!(d.head_opt(), Some(&"only"));
    assert_eq!(d.last_opt(), Some(&"only"));
    assert_eq!(d.len(), 1);
}

#[test]
fn unshift_then_pop_round_trip() {
    let mut d: Deque<i64> = Deque::new();
    for i in (1..=40i64).rev() {
        d.unshift(i);
    }
    for i in 1..=40i64 {
        assert_eq!(d.pop_opt(), Some(i));
    }
    assert!(d.is_empty());
}

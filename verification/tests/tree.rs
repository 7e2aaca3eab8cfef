use fingertree::deque::Elem;
use fingertree::measure::{Size, SizeGt};
use fingertree::tree::{Node, Tree};

fn leaf(v: i64) -> Node<Size, Elem<i64>> {
    Node::Leaf(Elem(v))
}

fn build(lo: i64, hi: i64) -> Tree<Size, Elem<i64>> {
    let mut t = Tree::empty();
    let mut i: i64 = lo;
    while i <= hi {
        t = t.cons_right(leaf(i));
        i += 1;
    }
    t
}

fn drain(mut t: Tree<Size, Elem<i64>>) -> Vec<i64> {
    let mut out = Vec::new();
    loop {
        match t.view_left() {
            None => break,
            Some((n, rest)) => {
                match n {
                    Node::Leaf(Elem(v)) => out.push(v),
                    _ => panic!("a top-level node of a leaf tree must be a leaf"),
                }
                t = rest;
            }
        }
    }
    out
}

fn range_vec(lo: i64, hi: i64) -> Vec<i64> {
    (lo..=hi).collect()
}

#[test]
fn empty_and_singleton() {
    let e: Tree<Size, Elem<i64>> = Tree::empty();
    assert!(e.is_empty());
    assert_eq!(e.measure(), Size(0));
    let s = Tree::singleton(Elem(7));
    assert!(!s.is_empty());
    assert_eq!(s.measure(), Size(1));
    assert_eq!(drain(s), vec![7]);
}

#[test]
fn cons_left_builds_reversed() {
    let mut t = Tree::empty();
    for i in 1..=100i64 {
        t = t.cons_left(leaf(i));
    }
    assert_eq!(t.measure(), Size(100));
    assert_eq!(drain(t), (1..=100i64).rev().collect::<Vec<i64>>());
}

#[test]
fn view_right_drains_from_the_back() {
    let mut t = build(1, 50);
    let mut out = Vec::new();
    loop {
        match t.view_right() {
            None => break,
            Some((rest, n)) => {
                match n {
                    Node::Leaf(Elem(v)) => out.push(v),
                    _ => panic!("a top-level node of a leaf tree must be a leaf"),
                }
                t = rest;
            }
        }
    }
    assert_eq!(out, (1..=50i64).rev().collect::<Vec<i64>>());
}

#[test]
fn view_left_undoes_cons_left() {
    let t = build(1, 6);
    let t2 = t.cons_left(leaf(0));
    match t2.view_left() {
        Some((Node::Leaf(Elem(v)), rest)) => {
            assert_eq!(v, 0);
            assert_eq!(drain(rest), range_vec(1, 6));
        }
        _ => panic!("a freshly consed tree has a leftmost leaf"),
    }
}

#[test]
fn view_right_undoes_cons_right() {
    let t = build(1, 6);
    let t2 = t.cons_right(leaf(7));
    match t2.view_right() {
        Some((rest, Node::Leaf(Elem(v)))) => {
            assert_eq!(v, 7);
            assert_eq!(drain(rest), range_vec(1, 6));
        }
        _ => panic!("a freshly consed tree has a rightmost leaf"),
    }
}

#[test]
fn head_and_last() {
    let t = build(1, 10);
    assert_eq!(t.head().0, 1);
    assert_eq!(t.last().0, 10);
    assert_eq!(t.head_opt().map(|e| e.0), Some(1));
    assert_eq!(t.last_opt().map(|e| e.0), Some(10));
    let e: Tree<Size, Elem<i64>> = Tree::empty();
    assert!(e.head_opt().is_none());
    assert!(e.last_opt().is_none());
}

#[test]
fn append_concatenates() {
    let a = build(1, 10);
    let b = build(11, 20);
    let r = a.append(b);
    assert_eq!(r.measure(), Size(20));
    assert_eq!(drain(r), range_vec(1, 20));
}

#[test]
fn append_empty_is_identity() {
    let r1 = build(1, 5).append(Tree::empty());
    assert_eq!(drain(r1), range_vec(1, 5));
    let r2 = Tree::empty().append(build(1, 5));
    assert_eq!(drain(r2), range_vec(1, 5));
    let r3: Tree<Size, Elem<i64>> = Tree::empty().append(Tree::empty());
    assert!(r3.is_empty());
}

#[test]
fn append_lopsided() {
    let r = build(1, 1).append(build(2, 90));
    assert_eq!(drain(r), range_vec(1, 90));
    let r2 = build(1, 89).append(build(90, 90));
    assert_eq!(drain(r2), range_vec(1, 90));
}

#[test]
fn split_by_count() {
    let t = build(1, 100);
    let (l, r) = t.split(&SizeGt(42));
    assert_eq!(l.measure(), Size(42));
    assert_eq!(r.measure(), Size(58));
    assert_eq!(drain(l), range_vec(1, 42));
    assert_eq!(drain(r), range_vec(43, 100));
}

#[test]
fn split_at_extremes() {
    let t = build(1, 100);
    let (l, r) = t.split(&SizeGt(0));
    assert!(l.is_empty());
    assert_eq!(drain(r), range_vec(1, 100));
    let t2 = build(1, 100);
    let (l2, r2) = t2.split(&SizeGt(100));
    assert!(r2.is_empty());
    assert_eq!(drain(l2), range_vec(1, 100));
}

#[test]
fn split_empty() {
    let t: Tree<Size, Elem<i64>> = Tree::empty();
    let (l, r) = t.split(&SizeGt(0));
    assert!(l.is_empty());
    assert!(r.is_empty());
}

#[test]
fn lookup_by_position() {
    let t = build(1, 100);
    for k in [0u64, 49, 99] {
        let (v, o) = t.lookup(&SizeGt(k));
        match o {
            Some(Node::Leaf(Elem(x))) => {
                assert_eq!(*x, k as i64 + 1);
                assert_eq!(v, Size(k));
            }
            _ => panic!("lookup within range reaches a leaf"),
        }
    }
}

#[test]
fn lookup_misses() {
    let t = build(1, 100);
    let (v, o) = t.lookup(&SizeGt(100));
    assert!(o.is_none());
    assert_eq!(v, Size(100));
    let e: Tree<Size, Elem<i64>> = Tree::empty();
    let (v2, o2) = e.lookup(&SizeGt(0));
    assert!(o2.is_none());
    assert_eq!(v2, Size(0));
}

#[test]
fn split_then_append_round_trips() {
    for k in [0u64, 1, 17, 63, 64] {
        let t = build(1, 64);
        let (l, r) = t.split(&SizeGt(k));
        let back = l.append(r);
        assert_eq!(drain(back), range_vec(1, 64));
    }
}

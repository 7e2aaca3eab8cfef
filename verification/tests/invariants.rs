//! Structural checks: walk trees built through the public operations and
//! confirm the cached measures, the digit bounds and the uniform depths
//! directly on the representation.

use fingertree::deque::Elem;
use fingertree::measure::{Size, SizeGt};
use fingertree::tree::{Digit, Node, Tree};

fn check_node(n: &Node<Size, Elem<i64>>) -> (u64, usize) {
    match n {
        Node::Leaf(_) => (1, 0),
        Node::Node2(v, x, y) => {
            let (mx, dx) = check_node(x);
            let (my, dy) = check_node(y);
            assert_eq!(dx, dy, "children of a two-child node sit at one depth");
            assert_eq!(v.0, mx + my, "cached measure of a two-child node");
            (v.0, dx + 1)
        }
        Node::Node3(v, x, y, z) => {
            let (mx, dx) = check_node(x);
            let (my, dy) = check_node(y);
            let (mz, dz) = check_node(z);
            assert_eq!(dx, dy, "children of a three-child node sit at one depth");
            assert_eq!(dx, dz, "children of a three-child node sit at one depth");
            assert_eq!(v.0, mx + my + mz, "cached measure of a three-child node");
            (v.0, dx + 1)
        }
    }
}

fn check_digit(dg: &Digit<Size, Elem<i64>>, depth: usize) -> u64 {
    assert!(1 <= dg.0.len() && dg.0.len() <= 4, "a digit holds 1 to 4 nodes");
    let mut m: u64 = 0;
    for n in dg.0.iter() {
        let (mn, dn) = check_node(n);
        assert_eq!(dn, depth, "digit nodes sit at the level's depth");
        m += mn;
    }
    m
}

fn check_tree(t: &Tree<Size, Elem<i64>>, depth: usize) -> u64 {
    match t {
        Tree::Empty => 0,
        Tree::Single(n) => {
            let (m, dn) = check_node(n);
            assert_eq!(dn, depth, "a single node sits at the level's depth");
            m
        }
        Tree::Deep(v, pre, mid, suf) => {
            let mp = check_digit(pre, depth);
            let mm = check_tree(mid, depth + 1);
            let ms = check_digit(suf, depth);
            assert_eq!(v.0, mp + mm + ms, "cached measure of a deep frame");
            mp + mm + ms
        }
    }
}

fn build(lo: i64, hi: i64) -> Tree<Size, Elem<i64>> {
    let mut t = Tree::empty();
    let mut i: i64 = lo;
    while i <= hi {
        t = t.cons_right(Node::Leaf(Elem(i)));
        i += 1;
    }
    t
}

#[test]
fn invariants_hold_while_growing() {
    let mut t = Tree::empty();
    for i in 1..=64i64 {
        t = t.cons_right(Node::Leaf(Elem(i)));
        assert_eq!(check_tree(&t, 0), i as u64);
    }
    let mut u = Tree::empty();
    for i in 1..=64i64 {
        u = u.cons_left(Node::Leaf(Elem(i)));
        assert_eq!(check_tree(&u, 0), i as u64);
    }
}

#[test]
fn invariants_hold_while_draining() {
    let mut t = build(1, 64);
    loop {
        match t.view_left() {
            None => break,
            Some((_, rest)) => {
                check_tree(&rest, 0);
                t = rest;
            }
        }
    }
    let mut u = build(1, 64);
    loop {
        match u.view_right() {
            None => break,
            Some((rest, _)) => {
                check_tree(&rest, 0);
                u = rest;
            }
        }
    }
}

#[test]
fn invariants_hold_after_append_and_split() {
    for m in [0i64, 1, 7, 30] {
        let r = build(1, m).append(build(m + 1, 40));
        assert_eq!(check_tree(&r, 0), 40);
    }
    for k in [0u64, 1, 20, 39, 40] {
        let (l, r) = build(1, 40).split(&SizeGt(k));
        check_tree(&l, 0);
        check_tree(&r, 0);
    }
}

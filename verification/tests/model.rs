//! Differential tests: drive the structures with a deterministic
//! pseudo-random operation mix and compare against a plain vector.

use fingertree::deque::{Deque, Elem};
use fingertree::measure::{Size, SizeGt};
use fingertree::tree::{Node, Tree};

fn next(state: &mut u64) -> u64 {
    *state = state
        .wrapping_mul(6364136223846793005)
        .wrapping_add(1442695040888963407);
    *state >> 33
}

fn build(lo: i64, hi: i64) -> Tree<Size, Elem<i64>> {
    let mut t = Tree::empty();
    let mut i: i64 = lo;
    while i <= hi {
        t = t.cons_right(Node::Leaf(Elem(i)));
        i += 1;
    }
    t
}

fn drain(mut t: Tree<Size, Elem<i64>>) -> Vec<i64> {
    let mut out = Vec::new();
    loop {
        match t.view_left() {
            None => break,
            Some((n, rest)) => {
                match n {
                    Node::Leaf(Elem(v)) => out.push(v),
                    _ => panic!("a top-level node of a leaf tree must be a leaf"),
                }
                t = rest;
            }
        }
    }
    out
}

#[test]
fn deque_matches_vector_model() {
    let mut state: u64 = 0x2a6f_9d41;
    let mut d: Deque<i64> = Deque::new();
    let mut model: Vec<i64> = Vec::new();
    for step in 0..2000i64 {
        match next(&mut state) % 4 {
            0 => {
                d.push(step);
                model.push(step);
            }
            1 => {
                d.unshift(step);
                model.insert(0, step);
            }
            2 => {
                let want = if model.is_empty() {
                    None
                } else {
                    Some(model.remove(0))
                };
                assert_eq!(d.pop_opt(), want);
            }
            _ => {
                assert_eq!(d.len() as usize, model.len());
                assert_eq!(d.head_opt().copied(), model.first().copied());
                assert_eq!(d.last_opt().copied(), model.last().copied());
                assert_eq!(d.is_empty(), model.is_empty());
            }
        }
    }
    while let Some(v) = d.pop_opt() {
        assert_eq!(v, model.remove(0));
    }
    assert!(model.is_empty());
}

#[test]
fn split_matches_model_at_every_position() {
    for k in 0..=33u64 {
        let t = build(1, 33);
        let (l, r) = t.split(&SizeGt(k));
        let expect: Vec<i64> = (1..=33i64).collect();
        let cut = std::cmp::min(k as usize, 33);
        assert_eq!(drain(l), expect[..cut].to_vec());
        assert_eq!(drain(r), expect[cut..].to_vec());
    }
}

#[test]
fn lookup_matches_model_at_every_position() {
    let t = build(1, 33);
    for k in 0..33u64 {
        let (v, o) = t.lookup(&SizeGt(k));
        match o {
            Some(Node::Leaf(Elem(x))) => {
                assert_eq!(*x, k as i64 + 1);
                assert_eq!(v, Size(k));
            }
            _ => panic!("lookup within range reaches a leaf"),
        }
    }
}

#[test]
fn append_matches_model_at_every_cut() {
    for n in 0..=24i64 {
        for m in 0..=n {
            let a = build(1, m);
            let b = build(m + 1, n);
            let r = a.append(b);
            assert_eq!(r.measure(), Size(n as u64));
            assert_eq!(drain(r), (1..=n).collect::<Vec<i64>>());
        }
    }
}

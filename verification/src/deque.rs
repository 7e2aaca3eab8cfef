//! A double-ended queue over the finger tree.
//!
//! The facade specialises the tree to the `Size` monoid: every element
//! measures one, so the cached measure of the tree is its length and the
//! tree's top level holds plain leaves. The queue's logical content is
//! the sequence of its values, front to back.

use vstd::prelude::*;

use crate::measure::{seq_measure, Measured, Size};
use crate::tree::{lemma_tree_empty_iff_no_leaves, lemma_tree_measure_fold, Node, Tree};

verus! {

/// An element of the deque: any value, measured as one.
pub struct Elem<A>(pub A);

impl<A> Measured<Size> for Elem<A> {
    open spec fn mval(self) -> Size {
        Size(1)
    }

    fn measure(&self) -> (r: Size) {
        Size(1)
    }
}

/// The measure of a run of unit-measured elements is its length, as long
/// as the length fits the count's width.
pub proof fn lemma_size_measure_is_len<A>(s: Seq<Elem<A>>)
    requires
        s.len() <= u64::MAX,
    ensures
        seq_measure(s) == Size(s.len() as u64),
    decreases s.len(),
{
    if s.len() > 0 {
        lemma_size_measure_is_len(s.drop_last());
    }
}

/// The round trip at the front, over the queue's content: the value put
/// on by `unshift` (whose contract makes the content `[x] + s`) is
/// exactly what the following `pop_opt` (whose contract takes the first
/// value off) returns, and the content returns to `s`. Any mix of pushes
/// at the two ends followed by pops in the corresponding order restores
/// the original order for the same reason, one operation at a time.
pub proof fn lemma_unshift_pop<A>(s: Seq<A>, x: A)
    ensures
        (seq![x] + s)[0] == x,
        (seq![x] + s).skip(1) == s,
{
    assert((seq![x] + s).skip(1) =~= s);
}

/// A double-ended queue with 64-bit length reporting.
pub struct Deque<A> {
    tree: Tree<Size, Elem<A>>,
}

impl<A> View for Deque<A> {
    type V = Seq<A>;

    closed spec fn view(&self) -> Seq<A> {
        self.tree.leaves().map(|i: int, e: Elem<A>| e.0)
    }
}

impl<A> Deque<A> {
    /// The queue's internal invariant: its tree is well-formed, keeps
    /// leaves at the top level, and holds few enough elements for the
    /// length to be exact.
    pub closed spec fn inv(&self) -> bool {
        &&& self.tree.wf_at(0)
        &&& self.tree.leaves().len() <= u64::MAX
    }

    /// An empty queue.
    pub fn new() -> (r: Deque<A>)
        ensures
            r.inv(),
            r@ == Seq::<A>::empty(),
    {
        let r = Deque { tree: Tree::empty() };
        proof {
            assert(r@ =~= Seq::<A>::empty());
        }
        r
    }

    /// The number of values held.
    pub fn len(&self) -> (r: u64)
        requires
            self.inv(),
        ensures
            r == self@.len(),
    {
        let s = self.tree.measure();
        proof {
            lemma_tree_measure_fold(self.tree);
            lemma_size_measure_is_len(self.tree.leaves());
        }
        s.0
    }

    /// Whether the queue holds nothing.
    pub fn is_empty(&self) -> (r: bool)
        requires
            self.inv(),
        ensures
            r == (self@.len() == 0),
    {
        proof {
            lemma_tree_empty_iff_no_leaves(self.tree);
        }
        self.tree.is_empty()
    }

    /// Borrows the front value, if any.
    pub fn head_opt(&self) -> (r: Option<&A>)
        requires
            self.inv(),
        ensures
            (r is None) <==> self@.len() == 0,
            r matches Some(a) ==> self@.len() > 0 && *a == self@[0],
    {
        match self.tree.head_opt() {
            None => None,
            Some(e) => Some(&e.0),
        }
    }

    /// Borrows the back value, if any.
    pub fn last_opt(&self) -> (r: Option<&A>)
        requires
            self.inv(),
        ensures
            (r is None) <==> self@.len() == 0,
            r matches Some(a) ==> self@.len() > 0 && *a == self@.last(),
    {
        match self.tree.last_opt() {
            None => None,
            Some(e) => Some(&e.0),
        }
    }

    /// Borrows the front value of a non-empty queue.
    pub fn head(&self) -> (r: &A)
        requires
            self.inv(),
            self@.len() > 0,
        ensures
            *r == self@[0],
    {
        proof {
            lemma_tree_empty_iff_no_leaves(self.tree);
        }
        &self.tree.head().0
    }

    /// Borrows the back value of a non-empty queue.
    pub fn last(&self) -> (r: &A)
        requires
            self.inv(),
            self@.len() > 0,
        ensures
            *r == self@.last(),
    {
        proof {
            lemma_tree_empty_iff_no_leaves(self.tree);
        }
        &self.tree.last().0
    }

    /// Adds a value at the back.
    pub fn push(&mut self, x: A)
        requires
            old(self).inv(),
            old(self)@.len() < u64::MAX,
        ensures
            final(self).inv(),
            final(self)@ == old(self)@.push(x),
    {
        let mut t = Tree::empty();
        core::mem::swap(&mut self.tree, &mut t);
        self.tree = t.cons_right(Node::Leaf(Elem(x)));
        proof {
            assert(final(self)@ =~= old(self)@.push(x));
        }
    }

    /// Adds a value at the front.
    pub fn unshift(&mut self, x: A)
        requires
            old(self).inv(),
            old(self)@.len() < u64::MAX,
        ensures
            final(self).inv(),
            final(self)@ == seq![x] + old(self)@,
    {
        let mut t = Tree::empty();
        core::mem::swap(&mut self.tree, &mut t);
        self.tree = t.cons_left(Node::Leaf(Elem(x)));
        proof {
            assert(final(self)@ =~= seq![x] + old(self)@);
        }
    }

    /// Removes and returns the front value, if any.
    pub fn pop_opt(&mut self) -> (r: Option<A>)
        requires
            old(self).inv(),
        ensures
            final(self).inv(),
            old(self)@.len() == 0 ==> r is None && final(self)@ == old(self)@,
            old(self)@.len() > 0 ==> r == Some(old(self)@[0]) && final(self)@ == old(
                self,
            )@.skip(1),
    {
        proof {
            lemma_tree_empty_iff_no_leaves(old(self).tree);
        }
        let mut t = Tree::empty();
        core::mem::swap(&mut self.tree, &mut t);
        let ghost t0 = t;
        match t.view_left() {
            None => {
                proof {
                    assert(final(self)@ =~= old(self)@);
                }
                None
            },
            Some((n, rest)) => {
                self.tree = rest;
                match n {
                    Node::Leaf(e) => {
                        proof {
                            assert(t0.leaves() =~= seq![e] + rest.leaves());
                            assert(final(self)@ =~= old(self)@.skip(1));
                            assert(old(self)@[0] == e.0);
                        }
                        Some(e.0)
                    },
                    _ => vstd::pervasive::unreached(),
                }
            },
        }
    }
}

} // verus!

//! The 2-3 finger tree core.
//!
//! A tree stores measured elements at its leaves. Internal 2-3 nodes and
//! `Deep` spine frames cache the monoidal measure of everything below them.
//! The logical content of a tree is the left-to-right sequence of its
//! leaves, written `leaves()` in the specifications; well-formedness
//! (`wf()`) demands that every cached measure equals the recomputed join,
//! that every digit holds 1 to 4 nodes, and that all children of a node
//! and all nodes of a spine level sit at the same depth.

use vstd::prelude::*;

use crate::measure::{
    lemma_seq_measure_concat, lemma_seq_measure_singleton, monotone, seq_measure, Measured, Monoid,
    Predicate,
};

verus! {

/// A 2-3 tree cell: a leaf holding one element, or an internal node of two
/// or three children carrying its cached measure.
pub enum Node<V, A> {
    Leaf(A),
    Node2(V, Box<Node<V, A>>, Box<Node<V, A>>),
    Node3(V, Box<Node<V, A>>, Box<Node<V, A>>, Box<Node<V, A>>),
}

/// An ordered run of nodes, used as the prefix or suffix of a `Deep` spine
/// level. A digit that escapes into a tree holds 1 to 4 nodes; the spine
/// repair routines pass zero-length digits around transiently.
pub struct Digit<V, A>(pub Vec<Node<V, A>>);

/// The spine: empty, a single node, or a deep frame of a prefix digit, an
/// inner tree of one-deeper nodes, and a suffix digit, with the frame's
/// measure cached.
pub enum Tree<V, A> {
    Empty,
    Single(Node<V, A>),
    Deep(V, Digit<V, A>, Box<Tree<V, A>>, Digit<V, A>),
}

impl<V: Monoid, A: Measured<V>> Node<V, A> {
    /// The elements below this node, left to right.
    pub open spec fn leaves(self) -> Seq<A>
        decreases self,
    {
        match self {
            Node::Leaf(a) => seq![a],
            Node::Node2(_, x, y) => (*x).leaves() + (*y).leaves(),
            Node::Node3(_, x, y, z) => (*x).leaves() + (*y).leaves() + (*z).leaves(),
        }
    }

    /// The number of internal layers below this node: a leaf has depth 0,
    /// and a node of depth-k children has depth k + 1.
    pub open spec fn depth(self) -> nat
        decreases self,
    {
        match self {
            Node::Leaf(_) => 0,
            Node::Node2(_, x, _) => (*x).depth() + 1,
            Node::Node3(_, x, _, _) => (*x).depth() + 1,
        }
    }

    /// The node's true measure: the ordered join of the measures below it.
    pub open spec fn mval(self) -> V
        decreases self,
    {
        match self {
            Node::Leaf(a) => a.mval(),
            Node::Node2(_, x, y) => (*x).mval().mjoin((*y).mval()),
            Node::Node3(_, x, y, z) => (*x).mval().mjoin((*y).mval()).mjoin((*z).mval()),
        }
    }

    /// Well-formed: every cached measure equals the recomputed join, and
    /// all children of a node sit at the same depth.
    pub open spec fn wf(self) -> bool
        decreases self,
    {
        match self {
            Node::Leaf(_) => true,
            Node::Node2(v, x, y) => {
                &&& (*x).wf()
                &&& (*y).wf()
                &&& (*y).depth() == (*x).depth()
                &&& v == (*x).mval().mjoin((*y).mval())
            },
            Node::Node3(v, x, y, z) => {
                &&& (*x).wf()
                &&& (*y).wf()
                &&& (*z).wf()
                &&& (*y).depth() == (*x).depth()
                &&& (*z).depth() == (*x).depth()
                &&& v == (*x).mval().mjoin((*y).mval()).mjoin((*z).mval())
            },
        }
    }
}

/// The elements below a run of nodes, left to right.
pub open spec fn nodes_leaves<V: Monoid, A: Measured<V>>(s: Seq<Node<V, A>>) -> Seq<A>
    decreases s.len(),
{
    if s.len() == 0 {
        Seq::empty()
    } else {
        nodes_leaves(s.drop_last()) + s.last().leaves()
    }
}

/// The measure of a run of nodes: the left-to-right fold of `join` over
/// the node measures, starting from `unit`.
pub open spec fn nodes_mval<V: Monoid, A: Measured<V>>(s: Seq<Node<V, A>>) -> V
    decreases s.len(),
{
    if s.len() == 0 {
        V::munit()
    } else {
        nodes_mval(s.drop_last()).mjoin(s.last().mval())
    }
}

/// Every node of the run is well-formed and sits at depth `d`.
pub open spec fn nodes_wf<V: Monoid, A: Measured<V>>(s: Seq<Node<V, A>>, d: nat) -> bool {
    forall|i: int| 0 <= i < s.len() ==> (#[trigger] s[i]).wf() && s[i].depth() == d
}

impl<V: Monoid, A: Measured<V>> Tree<V, A> {
    /// The elements of the tree, left to right: its logical content.
    pub open spec fn leaves(self) -> Seq<A>
        decreases self,
    {
        match self {
            Tree::Empty => Seq::empty(),
            Tree::Single(n) => n.leaves(),
            Tree::Deep(_, pre, mid, suf) => nodes_leaves(pre.0@) + (*mid).leaves() + nodes_leaves(
                suf.0@,
            ),
        }
    }

    /// The tree's true measure: the ordered join of everything it holds.
    pub open spec fn mval(self) -> V
        decreases self,
    {
        match self {
            Tree::Empty => V::munit(),
            Tree::Single(n) => n.mval(),
            Tree::Deep(_, pre, mid, suf) => nodes_mval(pre.0@).mjoin((*mid).mval()).mjoin(
                nodes_mval(suf.0@),
            ),
        }
    }

    /// The depth of the tree's top-level nodes. An empty tree reports 0;
    /// its real depth is free.
    pub open spec fn dep(self) -> nat {
        match self {
            Tree::Empty => 0,
            Tree::Single(n) => n.depth(),
            Tree::Deep(_, pre, _, _) => if pre.0@.len() > 0 {
                pre.0@[0].depth()
            } else {
                0
            },
        }
    }

    /// Well-formed: digits hold 1 to 4 nodes of the level's depth, the
    /// inner tree sits one level deeper, every node is well-formed, and
    /// the cached frame measure equals the recomputed join.
    pub open spec fn wf(self) -> bool
        decreases self,
    {
        match self {
            Tree::Empty => true,
            Tree::Single(n) => n.wf(),
            Tree::Deep(v, pre, mid, suf) => {
                let d = self.dep();
                &&& 1 <= pre.0@.len() <= 4
                &&& 1 <= suf.0@.len() <= 4
                &&& nodes_wf(pre.0@, d)
                &&& nodes_wf(suf.0@, d)
                &&& (*mid).wf()
                &&& (!((*mid) is Empty) ==> (*mid).dep() == d + 1)
                &&& v == nodes_mval(pre.0@).mjoin((*mid).mval()).mjoin(nodes_mval(suf.0@))
            },
        }
    }

    /// Well-formed and, unless empty, sitting at depth `d`.
    pub open spec fn wf_at(self, d: nat) -> bool {
        self.wf() && (!(self is Empty) ==> self.dep() == d)
    }

    /// The number of `Deep` frames along the spine; recursion on the inner
    /// tree terminates by it.
    pub open spec fn ht(self) -> nat
        decreases self,
    {
        match self {
            Tree::Empty => 0,
            Tree::Single(_) => 0,
            Tree::Deep(_, _, mid, _) => 1 + (*mid).ht(),
        }
    }

    /// The leftmost top-level node of a non-empty tree.
    pub open spec fn first_node(self) -> Node<V, A>
        recommends
            !(self is Empty),
    {
        match self {
            Tree::Empty => vstd::pervasive::arbitrary(),
            Tree::Single(n) => n,
            Tree::Deep(_, pre, _, _) => pre.0@[0],
        }
    }

    /// The rightmost top-level node of a non-empty tree.
    pub open spec fn last_node(self) -> Node<V, A>
        recommends
            !(self is Empty),
    {
        match self {
            Tree::Empty => vstd::pervasive::arbitrary(),
            Tree::Single(n) => n,
            Tree::Deep(_, _, _, suf) => suf.0@.last(),
        }
    }
}

/// What well-formedness says at an internal node: the cached measure
/// equals the recomputed ordered join of the children's measures, and
/// all children sit at the same depth. Every operation of this module
/// returns well-formed trees, so this holds of every node a client can
/// reach.
pub proof fn lemma_node_invariant<V: Monoid, A: Measured<V>>(n: Node<V, A>)
    requires
        n.wf(),
    ensures
        n matches Node::Node2(v, x, y) ==> v == (*x).mval().mjoin((*y).mval()) && (*y).depth() == (
        *x).depth(),
        n matches Node::Node3(v, x, y, z) ==> v == (*x).mval().mjoin((*y).mval()).mjoin(
            (*z).mval(),
        ) && (*y).depth() == (*x).depth() && (*z).depth() == (*x).depth(),
{
}

/// What well-formedness says at a `Deep` frame: the cached measure
/// equals the recomputed ordered join of the prefix, the inner tree and
/// the suffix, and both digits hold 1 to 4 nodes. Every operation of
/// this module returns well-formed trees, so this holds of every frame
/// a client can reach.
pub proof fn lemma_deep_invariant<V: Monoid, A: Measured<V>>(t: Tree<V, A>)
    requires
        t.wf(),
    ensures
        t matches Tree::Deep(v, pre, mid, suf) ==> v == nodes_mval(pre.0@).mjoin(
            (*mid).mval(),
        ).mjoin(nodes_mval(suf.0@)) && 1 <= pre.0@.len() <= 4 && 1 <= suf.0@.len() <= 4,
{
}

/// A node of depth 0 is a leaf and holds exactly one element; at the
/// top level of a depth-0 tree, splitting and viewing are therefore
/// exact to the element.
pub proof fn lemma_depth_zero_leaf<V: Monoid, A: Measured<V>>(n: Node<V, A>)
    requires
        n.depth() == 0,
    ensures
        n is Leaf,
        n.leaves().len() == 1,
{
}

/// A node holds at least one element.
pub proof fn lemma_node_leaves_nonempty<V: Monoid, A: Measured<V>>(n: Node<V, A>)
    ensures
        n.leaves().len() >= 1,
    decreases n,
{
    match n {
        Node::Leaf(_) => {},
        Node::Node2(_, x, _) => {
            lemma_node_leaves_nonempty(*x);
        },
        Node::Node3(_, x, _, _) => {
            lemma_node_leaves_nonempty(*x);
        },
    }
}

/// A node's measure is the fold of its element measures.
pub proof fn lemma_node_measure_fold<V: Monoid, A: Measured<V>>(n: Node<V, A>)
    ensures
        n.mval() == seq_measure(n.leaves()),
    decreases n,
{
    match n {
        Node::Leaf(a) => {
            lemma_seq_measure_singleton::<V, A>(a);
        },
        Node::Node2(_, x, y) => {
            lemma_node_measure_fold(*x);
            lemma_node_measure_fold(*y);
            lemma_seq_measure_concat((*x).leaves(), (*y).leaves());
        },
        Node::Node3(_, x, y, z) => {
            lemma_node_measure_fold(*x);
            lemma_node_measure_fold(*y);
            lemma_node_measure_fold(*z);
            lemma_seq_measure_concat((*x).leaves(), (*y).leaves());
            lemma_seq_measure_concat((*x).leaves() + (*y).leaves(), (*z).leaves());
        },
    }
}

/// A run of nodes holds at least as many elements as nodes.
pub proof fn lemma_nodes_leaves_len<V: Monoid, A: Measured<V>>(s: Seq<Node<V, A>>)
    ensures
        nodes_leaves(s).len() >= s.len(),
    decreases s.len(),
{
    if s.len() > 0 {
        lemma_nodes_leaves_len(s.drop_last());
        lemma_node_leaves_nonempty(s.last());
    }
}

/// A run's measure is the fold of its element measures.
pub proof fn lemma_nodes_measure_fold<V: Monoid, A: Measured<V>>(s: Seq<Node<V, A>>)
    ensures
        nodes_mval(s) == seq_measure(nodes_leaves(s)),
    decreases s.len(),
{
    if s.len() > 0 {
        lemma_nodes_measure_fold(s.drop_last());
        lemma_node_measure_fold(s.last());
        lemma_seq_measure_concat(nodes_leaves(s.drop_last()), s.last().leaves());
    }
}

/// A tree's measure is the fold of its element measures: the measure a
/// client reads is determined by the logical sequence alone.
pub proof fn lemma_tree_measure_fold<V: Monoid, A: Measured<V>>(t: Tree<V, A>)
    ensures
        t.mval() == seq_measure(t.leaves()),
    decreases t,
{
    match t {
        Tree::Empty => {},
        Tree::Single(n) => {
            lemma_node_measure_fold(n);
        },
        Tree::Deep(_, pre, mid, suf) => {
            lemma_nodes_measure_fold(pre.0@);
            lemma_tree_measure_fold(*mid);
            lemma_nodes_measure_fold(suf.0@);
            lemma_seq_measure_concat(nodes_leaves(pre.0@), (*mid).leaves());
            lemma_seq_measure_concat(
                nodes_leaves(pre.0@) + (*mid).leaves(),
                nodes_leaves(suf.0@),
            );
        },
    }
}

/// A well-formed tree is empty exactly when it holds no element.
pub proof fn lemma_tree_empty_iff_no_leaves<V: Monoid, A: Measured<V>>(t: Tree<V, A>)
    requires
        t.wf(),
    ensures
        (t is Empty) <==> t.leaves().len() == 0,
{
    match t {
        Tree::Empty => {},
        Tree::Single(n) => {
            lemma_node_leaves_nonempty(n);
        },
        Tree::Deep(_, pre, mid, suf) => {
            lemma_nodes_leaves_len(pre.0@);
        },
    }
}

/// Splitting a run of nodes splits its elements and its measure.
pub proof fn lemma_nodes_concat<V: Monoid, A: Measured<V>>(s1: Seq<Node<V, A>>, s2: Seq<Node<V, A>>)
    ensures
        nodes_leaves(s1 + s2) == nodes_leaves(s1) + nodes_leaves(s2),
        nodes_mval(s1 + s2) == nodes_mval(s1).mjoin(nodes_mval(s2)),
    decreases s2.len(),
{
    if s2.len() == 0 {
        assert(s1 + s2 =~= s1);
        assert(nodes_leaves(s1) + nodes_leaves(s2) =~= nodes_leaves(s1));
        V::lemma_unit_right(nodes_mval(s1));
    } else {
        lemma_nodes_concat(s1, s2.drop_last());
        assert((s1 + s2).drop_last() =~= s1 + s2.drop_last());
        assert(nodes_leaves(s1) + nodes_leaves(s2.drop_last()) + s2.last().leaves()
            =~= nodes_leaves(s1) + nodes_leaves(s2));
        V::lemma_join_assoc(nodes_mval(s1), nodes_mval(s2.drop_last()), s2.last().mval());
    }
}

/// A run of one node holds that node's elements and measure.
pub proof fn lemma_nodes_singleton<V: Monoid, A: Measured<V>>(n: Node<V, A>)
    ensures
        nodes_leaves(seq![n]) == n.leaves(),
        nodes_mval(seq![n]) == n.mval(),
{
    let s = seq![n];
    assert(s.len() == 1);
    assert(s.last() == n);
    assert(s.drop_last() =~= Seq::<Node<V, A>>::empty());
    assert(nodes_leaves(s) == nodes_leaves(Seq::<Node<V, A>>::empty()) + n.leaves());
    assert(nodes_mval(s) == nodes_mval(Seq::<Node<V, A>>::empty()).mjoin(n.mval()));
    assert(Seq::<A>::empty() + n.leaves() =~= n.leaves());
    V::lemma_unit_left(n.mval());
}

/// Extending a run of nodes on the right extends its elements and joins
/// its measure on the right.
pub proof fn lemma_nodes_push<V: Monoid, A: Measured<V>>(s: Seq<Node<V, A>>, n: Node<V, A>)
    ensures
        nodes_leaves(s.push(n)) == nodes_leaves(s) + n.leaves(),
        nodes_mval(s.push(n)) == nodes_mval(s).mjoin(n.mval()),
{
    assert(s.push(n).drop_last() =~= s);
    assert(s.push(n).last() == n);
}

impl<V: Monoid, A: Measured<V>> Node<V, A> {
    /// Reports the node's measure from the cache.
    pub fn measure(&self) -> (r: V)
        requires
            self.wf(),
        ensures
            r == self.mval(),
    {
        match self {
            Node::Leaf(a) => a.measure(),
            Node::Node2(v, _, _) => v.dup(),
            Node::Node3(v, _, _, _) => v.dup(),
        }
    }

    /// The sanctioned constructor of a two-child node: caches the join of
    /// the children's measures.
    pub fn new2(x: Node<V, A>, y: Node<V, A>) -> (r: Node<V, A>)
        requires
            x.wf(),
            y.wf(),
            y.depth() == x.depth(),
        ensures
            r.wf(),
            r.depth() == x.depth() + 1,
            r.leaves() == x.leaves() + y.leaves(),
            r.mval() == x.mval().mjoin(y.mval()),
    {
        let v = x.measure().join(&y.measure());
        Node::Node2(v, Box::new(x), Box::new(y))
    }

    /// The sanctioned constructor of a three-child node: caches the
    /// ordered join of the children's measures.
    pub fn new3(x: Node<V, A>, y: Node<V, A>, z: Node<V, A>) -> (r: Node<V, A>)
        requires
            x.wf(),
            y.wf(),
            z.wf(),
            y.depth() == x.depth(),
            z.depth() == x.depth(),
        ensures
            r.wf(),
            r.depth() == x.depth() + 1,
            r.leaves() == x.leaves() + y.leaves() + z.leaves(),
            r.mval() == x.mval().mjoin(y.mval()).mjoin(z.mval()),
    {
        let v = x.measure().join(&y.measure()).join(&z.measure());
        Node::Node3(v, Box::new(x), Box::new(y), Box::new(z))
    }
}

impl<V: Monoid, A: Measured<V>> Node<V, A> {
    /// Borrows the leftmost element below this node.
    pub fn head(&self) -> (r: &A)
        ensures
            self.leaves().len() > 0,
            *r == self.leaves()[0],
        decreases self,
    {
        proof {
            lemma_node_leaves_nonempty(*self);
        }
        match self {
            Node::Leaf(a) => a,
            Node::Node2(_, x, _) => {
                proof {
                    lemma_node_leaves_nonempty(**x);
                }
                x.head()
            },
            Node::Node3(_, x, _, _) => {
                proof {
                    lemma_node_leaves_nonempty(**x);
                }
                x.head()
            },
        }
    }

    /// Borrows the rightmost element below this node.
    pub fn last(&self) -> (r: &A)
        ensures
            self.leaves().len() > 0,
            *r == self.leaves().last(),
        decreases self,
    {
        proof {
            lemma_node_leaves_nonempty(*self);
        }
        match self {
            Node::Leaf(a) => a,
            Node::Node2(_, _, y) => {
                proof {
                    lemma_node_leaves_nonempty(**y);
                }
                y.last()
            },
            Node::Node3(_, _, _, z) => {
                proof {
                    lemma_node_leaves_nonempty(**z);
                }
                z.last()
            },
        }
    }

    /// Turns an internal node into a digit of its children.
    pub fn to_digit(self) -> (r: Digit<V, A>)
        requires
            self.wf(),
            self.depth() >= 1,
        ensures
            2 <= r.0@.len() <= 3,
            nodes_wf(r.0@, (self.depth() - 1) as nat),
            nodes_leaves(r.0@) == self.leaves(),
    {
        match self {
            Node::Leaf(_) => vstd::pervasive::unreached(),
            Node::Node2(_, x, y) => {
                let ghost x0 = *x;
                let ghost y0 = *y;
                let mut ns: Vec<Node<V, A>> = Vec::new();
                ns.push(*x);
                ns.push(*y);
                proof {
                    assert(ns@ =~= seq![x0].push(y0));
                    lemma_nodes_singleton(x0);
                    lemma_nodes_push(seq![x0], y0);
                    assert(nodes_wf(ns@, x0.depth())) by {
                        assert(ns@[0] == x0 && ns@[1] == y0);
                    }
                }
                Digit(ns)
            },
            Node::Node3(_, x, y, z) => {
                let ghost x0 = *x;
                let ghost y0 = *y;
                let ghost z0 = *z;
                let mut ns: Vec<Node<V, A>> = Vec::new();
                ns.push(*x);
                ns.push(*y);
                ns.push(*z);
                proof {
                    assert(ns@ =~= seq![x0].push(y0).push(z0));
                    lemma_nodes_singleton(x0);
                    lemma_nodes_push(seq![x0], y0);
                    lemma_nodes_push(seq![x0].push(y0), z0);
                    assert(nodes_wf(ns@, x0.depth())) by {
                        assert(ns@[0] == x0 && ns@[1] == y0 && ns@[2] == z0);
                    }
                }
                Digit(ns)
            },
        }
    }
}

/// Reports the measure of a run of nodes by folding `join` left to right.
pub fn nodes_measure<V: Monoid, A: Measured<V>>(xs: &Vec<Node<V, A>>) -> (r: V)
    requires
        forall|i: int| 0 <= i < xs@.len() ==> (#[trigger] xs@[i]).wf(),
    ensures
        r == nodes_mval(xs@),
{
    let mut r = V::unit();
    let mut i: usize = 0;
    assert(xs@.take(0) =~= Seq::<Node<V, A>>::empty());
    while i < xs.len()
        invariant
            0 <= i <= xs@.len(),
            forall|j: int| 0 <= j < xs@.len() ==> (#[trigger] xs@[j]).wf(),
            r == nodes_mval(xs@.take(i as int)),
        decreases xs@.len() - i,
    {
        r = r.join(&xs[i].measure());
        proof {
            assert(xs@.take(i + 1).drop_last() =~= xs@.take(i as int));
            assert(xs@.take(i + 1).last() == xs@[i as int]);
        }
        i = i + 1;
    }
    assert(xs@.take(xs@.len() as int) =~= xs@);
    r
}

impl<V: Monoid, A: Measured<V>> Digit<V, A> {
    /// Reports the digit's measure; digits cache nothing.
    pub fn measure(&self) -> (r: V)
        requires
            forall|i: int| 0 <= i < self.0@.len() ==> (#[trigger] self.0@[i]).wf(),
        ensures
            r == nodes_mval(self.0@),
    {
        nodes_measure(&self.0)
    }
}

impl<V: Monoid, A: Measured<V>> Digit<V, A> {
    /// Borrows the leftmost element under the digit.
    pub fn head(&self) -> (r: &A)
        requires
            self.0@.len() > 0,
        ensures
            nodes_leaves(self.0@).len() > 0,
            *r == nodes_leaves(self.0@)[0],
    {
        let r = self.0[0].head();
        proof {
            assert(self.0@ =~= seq![self.0@[0]] + self.0@.skip(1));
            lemma_nodes_concat(seq![self.0@[0]], self.0@.skip(1));
            lemma_nodes_singleton(self.0@[0]);
        }
        r
    }

    /// Turns a digit into a tree of the same nodes: one node becomes a
    /// `Single`, more become a `Deep` around an empty inner tree.
    pub fn to_tree(self) -> (r: Tree<V, A>)
        requires
            1 <= self.0@.len() <= 4,
            nodes_wf(self.0@, self.0@[0].depth()),
        ensures
            r.wf_at(self.0@[0].depth()),
            !(r is Empty),
            r.leaves() == nodes_leaves(self.0@),
    {
        let ghost s0 = self.0@;
        let ghost d = self.0@[0].depth();
        let mut ns = self.0;
        if ns.len() == 1 {
            let a = ns.pop().unwrap();
            proof {
                assert(s0 =~= seq![a]);
                lemma_nodes_singleton(a);
            }
            Tree::Single(a)
        } else if ns.len() == 2 {
            let b = ns.pop().unwrap();
            let a = ns.pop().unwrap();
            let mut p: Vec<Node<V, A>> = Vec::new();
            p.push(a);
            let mut s: Vec<Node<V, A>> = Vec::new();
            s.push(b);
            proof {
                assert(s0 =~= seq![a].push(b));
                assert(p@ =~= seq![a]);
                assert(s@ =~= seq![b]);
                lemma_nodes_singleton(a);
                lemma_nodes_push(seq![a], b);
                lemma_nodes_singleton(b);
                assert(nodes_leaves(p@) + Tree::<V, A>::Empty.leaves() + nodes_leaves(s@)
                    =~= nodes_leaves(s0));
            }
            deep(Digit(p), Tree::Empty, Digit(s))
        } else if ns.len() == 3 {
            let c = ns.pop().unwrap();
            let b = ns.pop().unwrap();
            let a = ns.pop().unwrap();
            let mut p: Vec<Node<V, A>> = Vec::new();
            p.push(a);
            p.push(b);
            let mut s: Vec<Node<V, A>> = Vec::new();
            s.push(c);
            proof {
                assert(s0 =~= seq![a].push(b).push(c));
                assert(p@ =~= seq![a].push(b));
                assert(s@ =~= seq![c]);
                lemma_nodes_singleton(a);
                lemma_nodes_push(seq![a], b);
                lemma_nodes_push(seq![a].push(b), c);
                lemma_nodes_singleton(c);
                assert(nodes_wf(p@, d)) by {
                    assert(p@[0] == s0[0] && p@[1] == s0[1]);
                }
                assert(nodes_leaves(p@) + Tree::<V, A>::Empty.leaves() + nodes_leaves(s@)
                    =~= nodes_leaves(s0));
            }
            deep(Digit(p), Tree::Empty, Digit(s))
        } else {
            let dd = ns.pop().unwrap();
            let c = ns.pop().unwrap();
            let b = ns.pop().unwrap();
            let a = ns.pop().unwrap();
            let mut p: Vec<Node<V, A>> = Vec::new();
            p.push(a);
            p.push(b);
            let mut s: Vec<Node<V, A>> = Vec::new();
            s.push(c);
            s.push(dd);
            proof {
                assert(s0 =~= seq![a].push(b).push(c).push(dd));
                assert(p@ =~= seq![a].push(b));
                assert(s@ =~= seq![c].push(dd));
                lemma_nodes_singleton(a);
                lemma_nodes_push(seq![a], b);
                lemma_nodes_push(seq![a].push(b), c);
                lemma_nodes_push(seq![a].push(b).push(c), dd);
                lemma_nodes_singleton(c);
                lemma_nodes_push(seq![c], dd);
                assert(nodes_wf(p@, d)) by {
                    assert(p@[0] == s0[0] && p@[1] == s0[1]);
                }
                assert(nodes_wf(s@, d)) by {
                    assert(s@[0] == s0[2] && s@[1] == s0[3]);
                }
                assert(nodes_leaves(p@) + Tree::<V, A>::Empty.leaves() + nodes_leaves(s@)
                    =~= nodes_leaves(s0));
            }
            deep(Digit(p), Tree::Empty, Digit(s))
        }
    }
}

/// The sanctioned `Deep` constructor: computes and caches the frame's
/// measure from its three parts.
pub(crate) fn deep<V: Monoid, A: Measured<V>>(
    pre: Digit<V, A>,
    mid: Tree<V, A>,
    suf: Digit<V, A>,
) -> (r: Tree<V, A>)
    requires
        1 <= pre.0@.len() <= 4,
        1 <= suf.0@.len() <= 4,
        nodes_wf(pre.0@, pre.0@[0].depth()),
        nodes_wf(suf.0@, pre.0@[0].depth()),
        mid.wf_at(pre.0@[0].depth() + 1),
    ensures
        r.wf(),
        r is Deep,
        r.dep() == pre.0@[0].depth(),
        r.leaves() == nodes_leaves(pre.0@) + mid.leaves() + nodes_leaves(suf.0@),
        r.first_node() == pre.0@[0],
        r.last_node() == suf.0@.last(),
{
    let v = pre.measure().join(&mid.measure()).join(&suf.measure());
    Tree::Deep(v, pre, Box::new(mid), suf)
}

/// Rebuilds a `Deep` frame whose prefix may have emptied: a non-empty
/// prefix is kept as it is; otherwise a node is pulled off the left of the
/// inner tree to serve as the prefix, and when the inner tree is empty too,
/// the frame collapses to the suffix alone.
pub(crate) fn deep_l<V: Monoid, A: Measured<V>>(
    pre: Vec<Node<V, A>>,
    mid: Tree<V, A>,
    suf: Digit<V, A>,
    Ghost(d): Ghost<nat>,
) -> (r: Tree<V, A>)
    requires
        pre@.len() <= 4,
        nodes_wf(pre@, d),
        mid.wf_at(d + 1),
        1 <= suf.0@.len() <= 4,
        nodes_wf(suf.0@, d),
    ensures
        r.wf_at(d),
        r.leaves() == nodes_leaves(pre@) + mid.leaves() + nodes_leaves(suf.0@),
    decreases mid.ht(), 1int,
{
    if pre.len() > 0 {
        proof {
            assert(pre@[0].depth() == d);
        }
        deep(Digit(pre), mid, suf)
    } else {
        let ghost m0 = mid;
        let ghost suf0 = suf.0@;
        match mid.view_left() {
            None => {
                let r = suf.to_tree();
                proof {
                    assert(suf0[0].depth() == d);
                    assert(nodes_leaves(pre@) + m0.leaves() + nodes_leaves(suf0)
                        =~= nodes_leaves(suf0));
                }
                r
            },
            Some((a, mid2)) => {
                let dg = a.to_digit();
                let ghost dg0 = dg.0@;
                let r = deep(dg, mid2, suf);
                proof {
                    assert(dg0[0].depth() == d);
                    assert(nodes_leaves(pre@) + m0.leaves() + nodes_leaves(suf0)
                        =~= nodes_leaves(dg0) + mid2.leaves() + nodes_leaves(suf0));
                }
                r
            },
        }
    }
}

/// Rebuilds a `Deep` frame whose suffix may have emptied; the mirror image
/// of the prefix repair.
pub(crate) fn deep_r<V: Monoid, A: Measured<V>>(
    pre: Digit<V, A>,
    mid: Tree<V, A>,
    suf: Vec<Node<V, A>>,
    Ghost(d): Ghost<nat>,
) -> (r: Tree<V, A>)
    requires
        suf@.len() <= 4,
        nodes_wf(suf@, d),
        mid.wf_at(d + 1),
        1 <= pre.0@.len() <= 4,
        nodes_wf(pre.0@, d),
    ensures
        r.wf_at(d),
        r.leaves() == nodes_leaves(pre.0@) + mid.leaves() + nodes_leaves(suf@),
    decreases mid.ht(), 1int,
{
    if suf.len() > 0 {
        proof {
            assert(pre.0@[0].depth() == d);
        }
        deep(pre, mid, Digit(suf))
    } else {
        let ghost m0 = mid;
        let ghost pre0 = pre.0@;
        match mid.view_right() {
            None => {
                let r = pre.to_tree();
                proof {
                    assert(pre0[0].depth() == d);
                    assert(nodes_leaves(pre0) + m0.leaves() + nodes_leaves(suf@)
                        =~= nodes_leaves(pre0));
                }
                r
            },
            Some((mid2, a)) => {
                let dg = a.to_digit();
                let ghost dg0 = dg.0@;
                let r = deep(pre, mid2, dg);
                proof {
                    assert(pre0[0].depth() == d);
                    assert(nodes_leaves(pre0) + m0.leaves() + nodes_leaves(suf@)
                        =~= nodes_leaves(pre0) + mid2.leaves() + nodes_leaves(dg0));
                }
                r
            },
        }
    }
}

/// Concatenation of sequences cancels on the left: one prefix followed
/// by two equal wholes leaves equal remainders. This carries the law
/// that viewing undoes consing: `cons_left` makes its node the first of
/// the tree and prepends that node's elements, `view_left` hands back
/// exactly the first node and the elements after it, so
/// `view_left(cons_left(t, a))` returns `a` itself and a tree holding
/// `t`'s elements.
pub proof fn lemma_concat_cancel_left<A>(s1: Seq<A>, s2: Seq<A>, s3: Seq<A>)
    requires
        s1 + s2 == s1 + s3,
    ensures
        s2 == s3,
{
    assert((s1 + s2).len() == s1.len() + s2.len());
    assert((s1 + s3).len() == s1.len() + s3.len());
    assert forall|i: int| 0 <= i < s2.len() implies s2[i] == s3[i] by {
        assert(0 <= s1.len() + i < s1.len() + s2.len());
        assert((s1 + s2)[s1.len() + i] == s2[i]);
        assert((s1 + s3)[s1.len() + i] == s3[i]);
    }
    assert(s2 =~= s3);
}

/// Concatenation of sequences cancels on the right; the mirror of
/// `lemma_concat_cancel_left`, carrying the law that
/// `view_right(cons_right(t, a))` returns `a` itself and a tree holding
/// `t`'s elements.
pub proof fn lemma_concat_cancel_right<A>(s1: Seq<A>, s2: Seq<A>, s3: Seq<A>)
    requires
        s2 + s1 == s3 + s1,
    ensures
        s2 == s3,
{
    assert((s2 + s1).len() == s2.len() + s1.len());
    assert((s3 + s1).len() == s3.len() + s1.len());
    assert forall|i: int| 0 <= i < s2.len() implies s2[i] == s3[i] by {
        assert(0 <= i < s3.len());
        assert((s2 + s1)[i] == s2[i]);
        assert((s3 + s1)[i] == s3[i]);
    }
    assert(s2 =~= s3);
}

impl<V: Monoid, A: Measured<V>> Tree<V, A> {
    /// Removes the leftmost top-level node: nothing on an empty tree, the
    /// node and the remaining tree otherwise.
    pub fn view_left(self) -> (r: Option<(Node<V, A>, Tree<V, A>)>)
        requires
            self.wf(),
        ensures
            (r is None) <==> (self is Empty),
            r matches Some(p) ==> {
                &&& p.0.wf()
                &&& p.0.depth() == self.dep()
                &&& p.0 == self.first_node()
                &&& p.1.wf_at(self.dep())
                &&& self.leaves() == p.0.leaves() + p.1.leaves()
            },
        decreases self.ht(), 0int,
    {
        let ghost t0 = self;
        match self {
            Tree::Empty => None,
            Tree::Single(a) => {
                proof {
                    assert(a.leaves() + Tree::<V, A>::Empty.leaves() =~= a.leaves());
                }
                Some((a, Tree::Empty))
            },
            Tree::Deep(_, pre, mid, suf) => {
                let ghost pre0 = pre.0@;
                let ghost suf0 = suf.0@;
                let ghost d = t0.dep();
                let mut ps = pre.0;
                let a = ps.remove(0);
                proof {
                    assert(ps@ =~= pre0.skip(1));
                    assert(nodes_wf(ps@, d)) by {
                        assert forall|i: int|
                            0 <= i < ps@.len() implies (#[trigger] ps@[i]).wf()
                            && ps@[i].depth() == d by {
                            assert(ps@[i] == pre0[i + 1]);
                        }
                    }
                }
                let rest = deep_l(ps, *mid, suf, Ghost(d));
                proof {
                    assert(pre0 =~= seq![a] + pre0.skip(1));
                    lemma_nodes_concat(seq![a], pre0.skip(1));
                    lemma_nodes_singleton(a);
                    assert(t0.leaves() =~= a.leaves() + rest.leaves());
                }
                Some((a, rest))
            },
        }
    }

    /// Removes the rightmost top-level node: nothing on an empty tree, the
    /// remaining tree and the node otherwise.
    pub fn view_right(self) -> (r: Option<(Tree<V, A>, Node<V, A>)>)
        requires
            self.wf(),
        ensures
            (r is None) <==> (self is Empty),
            r matches Some(p) ==> {
                &&& p.1.wf()
                &&& p.1.depth() == self.dep()
                &&& p.1 == self.last_node()
                &&& p.0.wf_at(self.dep())
                &&& self.leaves() == p.0.leaves() + p.1.leaves()
            },
        decreases self.ht(), 0int,
    {
        let ghost t0 = self;
        match self {
            Tree::Empty => None,
            Tree::Single(a) => {
                proof {
                    assert(Tree::<V, A>::Empty.leaves() + a.leaves() =~= a.leaves());
                }
                Some((Tree::Empty, a))
            },
            Tree::Deep(_, pre, mid, suf) => {
                let ghost pre0 = pre.0@;
                let ghost suf0 = suf.0@;
                let ghost d = t0.dep();
                let mut ss = suf.0;
                let a = ss.pop().unwrap();
                proof {
                    assert(ss@ =~= suf0.drop_last());
                    assert(nodes_wf(ss@, d)) by {
                        assert forall|i: int|
                            0 <= i < ss@.len() implies (#[trigger] ss@[i]).wf()
                            && ss@[i].depth() == d by {
                            assert(ss@[i] == suf0[i]);
                        }
                    }
                }
                let rest = deep_r(pre, *mid, ss, Ghost(d));
                proof {
                    assert(suf0 =~= suf0.drop_last().push(a));
                    lemma_nodes_push(suf0.drop_last(), a);
                    assert(t0.leaves() =~= rest.leaves() + a.leaves());
                }
                Some((rest, a))
            },
        }
    }
}

impl<V: Monoid, A: Measured<V>> Tree<V, A> {
    /// The empty tree.
    pub fn empty() -> (r: Tree<V, A>)
        ensures
            r == Tree::<V, A>::Empty,
    {
        Tree::Empty
    }

    /// A tree of one element.
    pub fn singleton(x: A) -> (r: Tree<V, A>)
        ensures
            r.wf_at(0),
            r.leaves() == seq![x],
            !(r is Empty),
    {
        Tree::Single(Node::Leaf(x))
    }

    /// Whether the tree holds nothing.
    pub fn is_empty(&self) -> (r: bool)
        ensures
            r == (*self is Empty),
    {
        match self {
            Tree::Empty => true,
            _ => false,
        }
    }

    /// Reports the tree's measure from the cache.
    pub fn measure(&self) -> (r: V)
        requires
            self.wf(),
        ensures
            r == self.mval(),
    {
        match self {
            Tree::Empty => V::unit(),
            Tree::Single(n) => n.measure(),
            Tree::Deep(v, _, _, _) => v.dup(),
        }
    }

    /// Adds a node at the left end. The new cached measure joins the
    /// node's measure on the left of the old one.
    #[verifier::rlimit(100)]
    #[verifier::spinoff_prover]
    pub fn cons_left(self, x: Node<V, A>) -> (r: Tree<V, A>)
        requires
            self.wf(),
            x.wf(),
            !(self is Empty) ==> self.dep() == x.depth(),
        ensures
            r.wf_at(x.depth()),
            !(r is Empty),
            r.leaves() == x.leaves() + self.leaves(),
            r.first_node() == x,
            r.last_node() == if self is Empty {
                x
            } else {
                self.last_node()
            },
        decreases self,
    {
        let ghost t0 = self;
        match self {
            Tree::Empty => {
                let r = Tree::Single(x);
                proof {
                    assert(x.leaves() + t0.leaves() =~= x.leaves());
                }
                r
            },
            Tree::Single(b) => {
                let ghost b0 = b;
                let mut p: Vec<Node<V, A>> = Vec::new();
                p.push(x);
                let mut s: Vec<Node<V, A>> = Vec::new();
                s.push(b);
                proof {
                    assert(p@ =~= seq![x]);
                    assert(s@ =~= seq![b0]);
                    lemma_nodes_singleton(x);
                    lemma_nodes_singleton(b0);
                    assert(x.leaves() + Tree::<V, A>::Empty.leaves() + b0.leaves()
                        =~= x.leaves() + t0.leaves());
                }
                deep(Digit(p), Tree::Empty, Digit(s))
            },
            Tree::Deep(v, pre, mid, suf) => {
                let ghost pre0 = pre.0@;
                let ghost suf0 = suf.0@;
                let ghost d = t0.dep();
                let v2 = x.measure().join(&v);
                if pre.0.len() == 4 {
                    let mut ps = pre.0;
                    let e = ps.pop().unwrap();
                    let dd = ps.pop().unwrap();
                    let c = ps.pop().unwrap();
                    let b = ps.pop().unwrap();
                    proof {
                        assert(pre0[1].wf() && pre0[2].wf() && pre0[3].wf());
                        assert(pre0 =~= seq![b, c, dd, e]);
                    }
                    let mut np: Vec<Node<V, A>> = Vec::new();
                    np.push(x);
                    np.push(b);
                    let nd = Node::new3(c, dd, e);
                    let m = *mid;
                    let mid2 = m.cons_left(nd);
                    let r = Tree::Deep(v2, Digit(np), Box::new(mid2), suf);
                    proof {
                        assert(np@ =~= seq![x].push(b));
                        lemma_nodes_singleton(x);
                        lemma_nodes_push(seq![x], b);
                        lemma_nodes_singleton(b);
                        lemma_nodes_push(seq![b], c);
                        lemma_nodes_push(seq![b, c], dd);
                        lemma_nodes_push(seq![b, c, dd], e);
                        assert(seq![b].push(c) =~= seq![b, c]);
                        assert(seq![b, c].push(dd) =~= seq![b, c, dd]);
                        assert(seq![b, c, dd].push(e) =~= pre0);
                        assert(r.leaves() =~= x.leaves() + t0.leaves());
                        lemma_tree_measure_fold(r);
                        lemma_tree_measure_fold(t0);
                        lemma_node_measure_fold(x);
                        lemma_seq_measure_concat(x.leaves(), t0.leaves());
                        assert(nodes_wf(np@, d)) by {
                            assert(np@[0] == x && np@[1] == b);
                        }
                    }
                    r
                } else {
                    let mut ps = pre.0;
                    ps.insert(0, x);
                    let r = Tree::Deep(v2, Digit(ps), mid, suf);
                    proof {
                        assert(ps@ =~= seq![x] + pre0);
                        lemma_nodes_singleton(x);
                        lemma_nodes_concat(seq![x], pre0);
                        assert(r.leaves() =~= x.leaves() + t0.leaves());
                        lemma_tree_measure_fold(r);
                        lemma_tree_measure_fold(t0);
                        lemma_node_measure_fold(x);
                        lemma_seq_measure_concat(x.leaves(), t0.leaves());
                        assert(nodes_wf(ps@, d)) by {
                            assert forall|i: int|
                                0 <= i < ps@.len() implies (#[trigger] ps@[i]).wf()
                                && ps@[i].depth() == d by {
                                if i == 0 {
                                    assert(ps@[0] == x);
                                } else {
                                    assert(ps@[i] == pre0[i - 1]);
                                }
                            }
                        }
                    }
                    r
                }
            },
        }
    }

    /// Adds a node at the right end. The new cached measure joins the
    /// node's measure on the right of the old one.
    #[verifier::rlimit(100)]
    #[verifier::spinoff_prover]
    pub fn cons_right(self, x: Node<V, A>) -> (r: Tree<V, A>)
        requires
            self.wf(),
            x.wf(),
            !(self is Empty) ==> self.dep() == x.depth(),
        ensures
            r.wf_at(x.depth()),
            !(r is Empty),
            r.leaves() == self.leaves() + x.leaves(),
            r.last_node() == x,
            r.first_node() == if self is Empty {
                x
            } else {
                self.first_node()
            },
        decreases self,
    {
        let ghost t0 = self;
        match self {
            Tree::Empty => {
                let r = Tree::Single(x);
                proof {
                    assert(t0.leaves() + x.leaves() =~= x.leaves());
                }
                r
            },
            Tree::Single(a) => {
                let ghost a0 = a;
                let mut p: Vec<Node<V, A>> = Vec::new();
                p.push(a);
                let mut s: Vec<Node<V, A>> = Vec::new();
                s.push(x);
                proof {
                    assert(p@ =~= seq![a0]);
                    assert(s@ =~= seq![x]);
                    lemma_nodes_singleton(a0);
                    lemma_nodes_singleton(x);
                    assert(a0.leaves() + Tree::<V, A>::Empty.leaves() + x.leaves()
                        =~= t0.leaves() + x.leaves());
                }
                deep(Digit(p), Tree::Empty, Digit(s))
            },
            Tree::Deep(v, pre, mid, suf) => {
                let ghost pre0 = pre.0@;
                let ghost suf0 = suf.0@;
                let ghost d = t0.dep();
                let v2 = v.join(&x.measure());
                if suf.0.len() == 4 {
                    let mut ss = suf.0;
                    let dd = ss.pop().unwrap();
                    let c = ss.pop().unwrap();
                    let b = ss.pop().unwrap();
                    let a = ss.pop().unwrap();
                    proof {
                        assert(suf0[0].wf() && suf0[1].wf() && suf0[2].wf());
                        assert(suf0 =~= seq![a, b, c, dd]);
                    }
                    let mut ns: Vec<Node<V, A>> = Vec::new();
                    ns.push(dd);
                    ns.push(x);
                    let nd = Node::new3(a, b, c);
                    let m = *mid;
                    let mid2 = m.cons_right(nd);
                    let r = Tree::Deep(v2, pre, Box::new(mid2), Digit(ns));
                    proof {
                        assert(ns@ =~= seq![dd].push(x));
                        lemma_nodes_singleton(dd);
                        lemma_nodes_push(seq![dd], x);
                        lemma_nodes_singleton(a);
                        lemma_nodes_push(seq![a], b);
                        lemma_nodes_push(seq![a, b], c);
                        lemma_nodes_push(seq![a, b, c], dd);
                        assert(seq![a].push(b) =~= seq![a, b]);
                        assert(seq![a, b].push(c) =~= seq![a, b, c]);
                        assert(seq![a, b, c].push(dd) =~= suf0);
                        assert(r.leaves() =~= t0.leaves() + x.leaves());
                        lemma_tree_measure_fold(r);
                        lemma_tree_measure_fold(t0);
                        lemma_node_measure_fold(x);
                        lemma_seq_measure_concat(t0.leaves(), x.leaves());
                        assert(nodes_wf(ns@, d)) by {
                            assert(ns@[0] == dd && ns@[1] == x);
                        }
                    }
                    r
                } else {
                    let mut ss = suf.0;
                    ss.push(x);
                    let r = Tree::Deep(v2, pre, mid, Digit(ss));
                    proof {
                        assert(ss@ =~= suf0.push(x));
                        lemma_nodes_push(suf0, x);
                        assert(r.leaves() =~= t0.leaves() + x.leaves());
                        lemma_tree_measure_fold(r);
                        lemma_tree_measure_fold(t0);
                        lemma_node_measure_fold(x);
                        lemma_seq_measure_concat(t0.leaves(), x.leaves());
                        assert(nodes_wf(ss@, d)) by {
                            assert forall|i: int|
                                0 <= i < ss@.len() implies (#[trigger] ss@[i]).wf()
                                && ss@[i].depth() == d by {
                                if i < suf0.len() {
                                    assert(ss@[i] == suf0[i]);
                                } else {
                                    assert(ss@[i] == x);
                                }
                            }
                        }
                    }
                    r
                }
            },
        }
    }
}

impl<V: Monoid, A: Measured<V>> Tree<V, A> {
    /// Borrows the leftmost element, if any.
    pub fn head_opt(&self) -> (r: Option<&A>)
        requires
            self.wf(),
        ensures
            (r is None) <==> self.leaves().len() == 0,
            r matches Some(a) ==> self.leaves().len() > 0 && *a == self.leaves()[0],
    {
        proof {
            lemma_tree_empty_iff_no_leaves(*self);
        }
        match self {
            Tree::Empty => None,
            Tree::Single(n) => Some(n.head()),
            Tree::Deep(_, pre, _, _) => Some(pre.head()),
        }
    }

    /// Borrows the rightmost element, if any.
    pub fn last_opt(&self) -> (r: Option<&A>)
        requires
            self.wf(),
        ensures
            (r is None) <==> self.leaves().len() == 0,
            r matches Some(a) ==> self.leaves().len() > 0 && *a == self.leaves().last(),
    {
        proof {
            lemma_tree_empty_iff_no_leaves(*self);
        }
        match self {
            Tree::Empty => None,
            Tree::Single(n) => Some(n.last()),
            Tree::Deep(_, _, _, suf) => {
                let i: usize = suf.0.len() - 1;
                let r = suf.0[i].last();
                proof {
                    assert(suf.0@ =~= suf.0@.drop_last().push(suf.0@.last()));
                    lemma_nodes_push(suf.0@.drop_last(), suf.0@.last());
                    lemma_node_leaves_nonempty(suf.0@.last());
                }
                Some(r)
            },
        }
    }

    /// Borrows the leftmost element of a non-empty tree.
    pub fn head(&self) -> (r: &A)
        requires
            self.wf(),
            self.leaves().len() > 0,
        ensures
            *r == self.leaves()[0],
    {
        self.head_opt().unwrap()
    }

    /// Borrows the rightmost element of a non-empty tree.
    pub fn last(&self) -> (r: &A)
        requires
            self.wf(),
            self.leaves().len() > 0,
        ensures
            *r == self.leaves().last(),
    {
        self.last_opt().unwrap()
    }

    /// Adds a run of nodes at the right end, leftmost first.
    pub(crate) fn append_array(self, elems: Vec<Node<V, A>>, Ghost(d): Ghost<nat>) -> (r: Tree<
        V,
        A,
    >)
        requires
            self.wf_at(d),
            nodes_wf(elems@, d),
        ensures
            r.wf_at(d),
            r.leaves() == self.leaves() + nodes_leaves(elems@),
            (r is Empty) <==> (self is Empty && elems@.len() == 0),
            elems@.len() == 0 ==> r == self,
    {
        let ghost t0 = self;
        let ghost e0 = elems@;
        let mut x = self;
        let mut elems = elems;
        proof {
            assert(t0.leaves() + nodes_leaves(e0) =~= t0.leaves() + nodes_leaves(e0));
        }
        while elems.len() > 0
            invariant
                x.wf_at(d),
                nodes_wf(elems@, d),
                x.leaves() + nodes_leaves(elems@) == t0.leaves() + nodes_leaves(e0),
                elems@.len() <= e0.len(),
                elems@.len() == e0.len() ==> x == t0,
                elems@.len() < e0.len() ==> !(x is Empty),
            decreases elems@.len(),
        {
            let ghost es = elems@;
            let ghost x0 = x;
            let n = elems.remove(0);
            x = x.cons_right(n);
            proof {
                assert(es =~= seq![n] + es.skip(1));
                lemma_nodes_concat(seq![n], es.skip(1));
                lemma_nodes_singleton(n);
                assert(elems@ =~= es.skip(1));
                assert(x.leaves() + nodes_leaves(elems@) =~= x0.leaves() + nodes_leaves(es));
            }
        }
        proof {
            assert(nodes_leaves(elems@) =~= Seq::<A>::empty());
            assert(x.leaves() =~= x.leaves() + nodes_leaves(elems@));
        }
        x
    }

    /// Adds a run of nodes at the left end, rightmost first.
    pub(crate) fn prepend_array(self, elems: Vec<Node<V, A>>, Ghost(d): Ghost<nat>) -> (r: Tree<
        V,
        A,
    >)
        requires
            self.wf_at(d),
            nodes_wf(elems@, d),
        ensures
            r.wf_at(d),
            r.leaves() == nodes_leaves(elems@) + self.leaves(),
            (r is Empty) <==> (self is Empty && elems@.len() == 0),
            elems@.len() == 0 ==> r == self,
    {
        let ghost t0 = self;
        let ghost e0 = elems@;
        let mut x = self;
        let mut elems = elems;
        while elems.len() > 0
            invariant
                x.wf_at(d),
                nodes_wf(elems@, d),
                nodes_leaves(elems@) + x.leaves() == nodes_leaves(e0) + t0.leaves(),
                elems@.len() <= e0.len(),
                elems@.len() == e0.len() ==> x == t0,
                elems@.len() < e0.len() ==> !(x is Empty),
            decreases elems@.len(),
        {
            let ghost es = elems@;
            let ghost x0 = x;
            let n = elems.pop().unwrap();
            x = x.cons_left(n);
            proof {
                assert(elems@ =~= es.drop_last());
                lemma_nodes_push(es.drop_last(), es.last());
                assert(es =~= es.drop_last().push(es.last()));
                assert(nodes_leaves(elems@) + x.leaves() =~= nodes_leaves(es) + x0.leaves());
            }
        }
        proof {
            assert(nodes_leaves(elems@) =~= Seq::<A>::empty());
            assert(x.leaves() =~= nodes_leaves(elems@) + x.leaves());
        }
        x
    }
}

/// Moves the contents of `y` to the end of `x`.
pub fn append_move<T>(x: Vec<T>, y: Vec<T>) -> (r: Vec<T>)
    ensures
        r@ == x@ + y@,
{
    let mut x = x;
    let mut y = y;
    x.append(&mut y);
    x
}

/// Splits a vector at index `i` into the part before, the element at `i`,
/// and the part after.
pub fn split_at<T>(x: Vec<T>, i: usize) -> (r: (Vec<T>, T, Vec<T>))
    requires
        i < x@.len(),
    ensures
        r.0@ == x@.take(i as int),
        r.1 == x@[i as int],
        r.2@ == x@.skip(i as int + 1),
{
    let ghost x0 = x@;
    let mut x = x;
    let mut rest = x.split_off(i);
    let v = rest.remove(0);
    proof {
        assert(x@ =~= x0.take(i as int));
        assert(rest@ =~= x0.skip(i as int + 1));
    }
    (x, v, rest)
}

impl<V: Monoid, A: Measured<V>> Tree<V, A> {
    /// Concatenates two trees. The result holds the left tree's elements
    /// followed by the right tree's; appending an empty tree on either
    /// side returns the other tree unchanged.
    pub fn append(self, other: Tree<V, A>) -> (r: Tree<V, A>)
        requires
            self.wf(),
            other.wf(),
            !(self is Empty) && !(other is Empty) ==> other.dep() == self.dep(),
        ensures
            r.wf_at(
                if !(self is Empty) {
                    self.dep()
                } else {
                    other.dep()
                },
            ),
            r.leaves() == self.leaves() + other.leaves(),
            other is Empty ==> r == self,
            self is Empty ==> r == other,
    {
        let ghost d = if !(self is Empty) {
            self.dep()
        } else {
            other.dep()
        };
        let ghost s0 = self;
        let ghost o0 = other;
        let r = self.app3(Vec::new(), other, Ghost(d));
        proof {
            assert(nodes_leaves(Seq::<Node<V, A>>::empty()) =~= Seq::<A>::empty());
            assert(s0.leaves() + Seq::<A>::empty() + o0.leaves() =~= s0.leaves() + o0.leaves());
        }
        r
    }

    /// Concatenates two trees around a run of middle nodes, all at the
    /// same depth; the workhorse behind `append`.
    #[verifier::rlimit(100)]
    pub(crate) fn app3(self, elems: Vec<Node<V, A>>, other: Tree<V, A>, Ghost(d): Ghost<nat>) -> (r:
        Tree<V, A>)
        requires
            self.wf_at(d),
            other.wf_at(d),
            nodes_wf(elems@, d),
        ensures
            r.wf_at(d),
            r.leaves() == self.leaves() + nodes_leaves(elems@) + other.leaves(),
            (r is Empty) <==> (self is Empty && other is Empty && elems@.len() == 0),
            other is Empty && elems@.len() == 0 ==> r == self,
            self is Empty && elems@.len() == 0 ==> r == other,
        decreases self,
    {
        let ghost s0 = self;
        let ghost o0 = other;
        let ghost e0 = elems@;
        match (self, other) {
            (Tree::Empty, snd) => {
                let r = snd.prepend_array(elems, Ghost(d));
                proof {
                    assert(s0.leaves() + nodes_leaves(e0) + snd.leaves()
                        =~= nodes_leaves(e0) + snd.leaves());
                }
                r
            },
            (fst, Tree::Empty) => {
                let r = fst.append_array(elems, Ghost(d));
                proof {
                    assert(fst.leaves() + nodes_leaves(e0) + o0.leaves()
                        =~= fst.leaves() + nodes_leaves(e0));
                }
                r
            },
            (Tree::Single(a), snd) => {
                let t = snd.prepend_array(elems, Ghost(d));
                let r = t.cons_left(a);
                proof {
                    assert(a.leaves() + (nodes_leaves(e0) + snd.leaves())
                        =~= s0.leaves() + nodes_leaves(e0) + snd.leaves());
                }
                r
            },
            (fst, Tree::Single(b)) => {
                let t = fst.append_array(elems, Ghost(d));
                let r = t.cons_right(b);
                proof {
                    assert((fst.leaves() + nodes_leaves(e0)) + b.leaves()
                        =~= fst.leaves() + nodes_leaves(e0) + o0.leaves());
                }
                r
            },
            (Tree::Deep(v1, pre1, mid1, suf1), Tree::Deep(v2, pre2, mid2, suf2)) => {
                let ghost sf1 = suf1.0@;
                let ghost p2 = pre2.0@;
                let vm = nodes_measure(&elems);
                let v = v1.join(&vm).join(&v2);

                // Chain the left suffix, the injected middle, and the right
                // prefix into one run of same-depth nodes.
                let mut items = append_move(append_move(suf1.0, elems), pre2.0);
                let ghost items0 = items@;
                proof {
                    lemma_nodes_concat(sf1, e0);
                    lemma_nodes_concat(sf1 + e0, p2);
                    assert(nodes_wf(items0, d)) by {
                        assert forall|i: int|
                            0 <= i < items0.len() implies (#[trigger] items0[i]).wf()
                            && items0[i].depth() == d by {
                            if i < sf1.len() {
                                assert(items0[i] == sf1[i]);
                            } else if i < sf1.len() + e0.len() {
                                assert(items0[i] == e0[i - sf1.len()]);
                            } else {
                                assert(items0[i] == p2[i - sf1.len() - e0.len()]);
                            }
                        }
                    }
                }

                // Bucket the run into 2-3 nodes of the next depth.
                let mut nodes: Vec<Node<V, A>> = Vec::new();
                while items.len() > 0
                    invariant
                        nodes_wf(items@, d),
                        nodes_wf(nodes@, d + 1),
                        items@.len() != 1,
                        nodes@.len() >= 1 || items@.len() >= 2,
                        nodes_leaves(nodes@) + nodes_leaves(items@) == nodes_leaves(items0),
                    decreases items@.len(),
                {
                    let ghost is = items@;
                    let ghost ns = nodes@;
                    proof {
                        assert(is[0].wf() && is[0].depth() == d);
                        assert(is[1].wf() && is[1].depth() == d);
                    }
                    let n: usize = items.len();
                    if n == 2 {
                        let a = items.remove(0);
                        let b = items.remove(0);
                        let nd = Node::new2(a, b);
                        nodes.push(nd);
                        proof {
                            assert(is =~= seq![a].push(b));
                            lemma_nodes_singleton(a);
                            lemma_nodes_push(seq![a], b);
                            lemma_nodes_push(ns, nd);
                            assert(items@ =~= Seq::<Node<V, A>>::empty());
                        }
                    } else if n == 4 {
                        proof {
                            assert(is[2].wf() && is[2].depth() == d);
                            assert(is[3].wf() && is[3].depth() == d);
                        }
                        let a = items.remove(0);
                        let b = items.remove(0);
                        let c = items.remove(0);
                        let dd = items.remove(0);
                        let nd1 = Node::new2(a, b);
                        let nd2 = Node::new2(c, dd);
                        nodes.push(nd1);
                        nodes.push(nd2);
                        proof {
                            assert(is =~= seq![a].push(b).push(c).push(dd));
                            lemma_nodes_singleton(a);
                            lemma_nodes_push(seq![a], b);
                            lemma_nodes_push(seq![a].push(b), c);
                            lemma_nodes_push(seq![a].push(b).push(c), dd);
                            lemma_nodes_push(ns, nd1);
                            lemma_nodes_push(ns.push(nd1), nd2);
                            assert(items@ =~= Seq::<Node<V, A>>::empty());
                        }
                    } else {
                        proof {
                            assert(is[2].wf() && is[2].depth() == d);
                        }
                        let a = items.remove(0);
                        let b = items.remove(0);
                        let c = items.remove(0);
                        let nd = Node::new3(a, b, c);
                        nodes.push(nd);
                        proof {
                            assert(items@ =~= is.skip(3));
                            assert(is =~= (seq![a].push(b).push(c)) + is.skip(3));
                            lemma_nodes_singleton(a);
                            lemma_nodes_push(seq![a], b);
                            lemma_nodes_push(seq![a].push(b), c);
                            lemma_nodes_concat(seq![a].push(b).push(c), is.skip(3));
                            lemma_nodes_push(ns, nd);
                            assert(nodes_wf(items@, d)) by {
                                assert forall|i: int|
                                    0 <= i < items@.len() implies (#[trigger] items@[i]).wf()
                                    && items@[i].depth() == d by {
                                    assert(items@[i] == is[i + 3]);
                                }
                            }
                        }
                    }
                    proof {
                        assert(nodes_leaves(nodes@) + nodes_leaves(items@)
                            =~= nodes_leaves(ns) + nodes_leaves(is));
                        assert(nodes_wf(nodes@, d + 1)) by {
                            assert forall|i: int|
                                0 <= i < nodes@.len() implies (#[trigger] nodes@[i]).wf()
                                && nodes@[i].depth() == d + 1 by {
                                if i < ns.len() {
                                    assert(nodes@[i] == ns[i]);
                                }
                            }
                        }
                    }
                }

                let m1x = *mid1;
                let m2x = *mid2;
                let nm = m1x.app3(nodes, m2x, Ghost(d + 1));
                let r = Tree::Deep(v, pre1, Box::new(nm), suf2);
                proof {
                    assert(nodes_leaves(items0) =~= nodes_leaves(sf1) + nodes_leaves(e0)
                        + nodes_leaves(p2));
                    assert(r.leaves() =~= s0.leaves() + nodes_leaves(e0) + o0.leaves());
                    lemma_tree_measure_fold(r);
                    lemma_tree_measure_fold(s0);
                    lemma_tree_measure_fold(o0);
                    lemma_nodes_measure_fold(e0);
                    lemma_seq_measure_concat(s0.leaves(), nodes_leaves(e0));
                    lemma_seq_measure_concat(s0.leaves() + nodes_leaves(e0), o0.leaves());
                    assert(s0.leaves() + nodes_leaves(e0) + o0.leaves() =~= (s0.leaves()
                        + nodes_leaves(e0)) + o0.leaves());
                }
                r
            },
        }
    }
}

impl<V: Monoid, A: Measured<V>> Digit<V, A> {
    /// Scans the digit left to right with a running accumulator starting
    /// at `v`, and returns the accumulator just before the first node
    /// whose inclusive measure satisfies `p`, with that node's index; or
    /// the accumulator over the whole digit when no node satisfies it.
    pub fn split_pos<P: Predicate<V>>(&self, v: V, p: &P) -> (r: (V, Option<usize>))
        requires
            forall|i: int| 0 <= i < self.0@.len() ==> (#[trigger] self.0@[i]).wf(),
        ensures
            ({
                let (vr, o) = r;
                match o {
                    None => {
                        &&& vr == v.mjoin(nodes_mval(self.0@))
                        &&& forall|j: int|
                            1 <= j <= self.0@.len() ==> !p.holds(
                                v.mjoin(#[trigger] nodes_mval(self.0@.take(j))),
                            )
                    },
                    Some(idx) => {
                        &&& 0 <= idx < self.0@.len()
                        &&& vr == v.mjoin(nodes_mval(self.0@.take(idx as int)))
                        &&& p.holds(vr.mjoin(self.0@[idx as int].mval()))
                        &&& forall|j: int|
                            1 <= j <= idx ==> !p.holds(
                                v.mjoin(#[trigger] nodes_mval(self.0@.take(j))),
                            )
                    },
                }
            }),
    {
        let ghost v0 = v;
        let ghost s = self.0@;
        let mut acc = v;
        let mut i: usize = 0;
        proof {
            assert(s.take(0) =~= Seq::<Node<V, A>>::empty());
            V::lemma_unit_right(v0);
        }
        while i < self.0.len()
            invariant
                0 <= i <= s.len(),
                v0 == v,
                s == self.0@,
                forall|k: int| 0 <= k < s.len() ==> (#[trigger] s[k]).wf(),
                acc == v0.mjoin(nodes_mval(s.take(i as int))),
                forall|j: int|
                    1 <= j <= i ==> !p.holds(v0.mjoin(#[trigger] nodes_mval(s.take(j)))),
            decreases s.len() - i,
        {
            let m = self.0[i].measure();
            let vnew = acc.join(&m);
            proof {
                assert(s.take(i + 1).drop_last() =~= s.take(i as int));
                assert(s.take(i + 1).last() == s[i as int]);
                V::lemma_join_assoc(v0, nodes_mval(s.take(i as int)), s[i as int].mval());
                assert(vnew == v0.mjoin(nodes_mval(s.take(i + 1))));
            }
            if p.test(&vnew) {
                return (acc, Some(i));
            }
            acc = vnew;
            i = i + 1;
        }
        proof {
            assert(s.take(s.len() as int) =~= s);
        }
        (acc, None)
    }
}

impl<V: Monoid, A: Measured<V>> Node<V, A> {
    /// Splits an internal node around the first child whose inclusive
    /// accumulated measure satisfies `p`, falling back to the last child
    /// when no child satisfies it.
    pub fn split<P: Predicate<V>>(self, v: V, p: &P) -> (r: (Vec<Node<V, A>>, Node<V, A>, Vec<
        Node<V, A>,
    >))
        requires
            self.wf(),
            self.depth() >= 1,
        ensures
            ({
                let (l, x, rr) = r;
                &&& nodes_wf(l@, (self.depth() - 1) as nat)
                &&& x.wf()
                &&& x.depth() == (self.depth() - 1) as nat
                &&& nodes_wf(rr@, (self.depth() - 1) as nat)
                &&& l@.len() <= 2
                &&& rr@.len() <= 2
                &&& nodes_leaves(l@) + x.leaves() + nodes_leaves(rr@) == self.leaves()
                &&& (l@.len() >= 1 ==> !p.holds(v.mjoin(nodes_mval(l@))))
                &&& (p.holds(v.mjoin(self.mval())) ==> p.holds(
                    v.mjoin(nodes_mval(l@)).mjoin(x.mval()),
                ))
            }),
    {
        let ghost n0 = self;
        match self {
            Node::Leaf(_) => vstd::pervasive::unreached(),
            Node::Node2(_, x, y) => {
                let ghost x0 = *x;
                let ghost y0 = *y;
                let vx = v.join(&x.measure());
                if p.test(&vx) {
                    let mut rv: Vec<Node<V, A>> = Vec::new();
                    rv.push(*y);
                    proof {
                        assert(rv@ =~= seq![y0]);
                        lemma_nodes_singleton(y0);
                        V::lemma_unit_right(v);
                        assert(nodes_leaves(Seq::<Node<V, A>>::empty()) + x0.leaves()
                            + nodes_leaves(rv@) =~= n0.leaves());
                    }
                    (Vec::new(), *x, rv)
                } else {
                    let mut lv: Vec<Node<V, A>> = Vec::new();
                    lv.push(*x);
                    proof {
                        assert(lv@ =~= seq![x0]);
                        lemma_nodes_singleton(x0);
                        V::lemma_join_assoc(v, x0.mval(), y0.mval());
                        assert(nodes_leaves(lv@) + y0.leaves()
                            + nodes_leaves(Seq::<Node<V, A>>::empty()) =~= n0.leaves());
                    }
                    (lv, *y, Vec::new())
                }
            },
            Node::Node3(_, x, y, z) => {
                let ghost x0 = *x;
                let ghost y0 = *y;
                let ghost z0 = *z;
                let vx = v.join(&x.measure());
                if p.test(&vx) {
                    let mut rv: Vec<Node<V, A>> = Vec::new();
                    rv.push(*y);
                    rv.push(*z);
                    proof {
                        assert(rv@ =~= seq![y0].push(z0));
                        lemma_nodes_singleton(y0);
                        lemma_nodes_push(seq![y0], z0);
                        V::lemma_unit_right(v);
                        assert(nodes_wf(rv@, x0.depth())) by {
                            assert(rv@[0] == y0 && rv@[1] == z0);
                        }
                        assert(nodes_leaves(Seq::<Node<V, A>>::empty()) + x0.leaves()
                            + nodes_leaves(rv@) =~= n0.leaves());
                    }
                    (Vec::new(), *x, rv)
                } else {
                    let vy = vx.join(&y.measure());
                    if p.test(&vy) {
                        let mut lv: Vec<Node<V, A>> = Vec::new();
                        lv.push(*x);
                        let mut rv: Vec<Node<V, A>> = Vec::new();
                        rv.push(*z);
                        proof {
                            assert(lv@ =~= seq![x0]);
                            assert(rv@ =~= seq![z0]);
                            lemma_nodes_singleton(x0);
                            lemma_nodes_singleton(z0);
                            assert(nodes_leaves(lv@) + y0.leaves() + nodes_leaves(rv@)
                                =~= n0.leaves());
                        }
                        (lv, *y, rv)
                    } else {
                        let mut lv: Vec<Node<V, A>> = Vec::new();
                        lv.push(*x);
                        lv.push(*y);
                        proof {
                            assert(lv@ =~= seq![x0].push(y0));
                            lemma_nodes_singleton(x0);
                            lemma_nodes_push(seq![x0], y0);
                            V::lemma_join_assoc(v, x0.mval(), y0.mval());
                            V::lemma_join_assoc(v, x0.mval().mjoin(y0.mval()), z0.mval());
                            assert(nodes_wf(lv@, x0.depth())) by {
                                assert(lv@[0] == x0 && lv@[1] == y0);
                            }
                            assert(nodes_leaves(lv@) + z0.leaves()
                                + nodes_leaves(Seq::<Node<V, A>>::empty()) =~= n0.leaves());
                        }
                        (lv, *z, Vec::new())
                    }
                }
            },
        }
    }
}

impl<V: Monoid, A: Measured<V>> Tree<V, A> {
    /// Splits a non-empty tree around the top-level node at which the
    /// running accumulated measure, started at `v`, first satisfies `p`;
    /// when it never does, around the last node.
    #[verifier::rlimit(100)]
    pub(crate) fn split_nonempty<P: Predicate<V>>(self, v: V, p: &P, Ghost(d): Ghost<nat>) -> (r: (
        Tree<V, A>,
        Node<V, A>,
        Tree<V, A>,
    ))
        requires
            self.wf_at(d),
            !(self is Empty),
            monotone(*p),
            p.holds(v.mjoin(self.mval())),
        ensures
            ({
                let (l, x, rt) = r;
                &&& l.wf_at(d)
                &&& x.wf()
                &&& x.depth() == d
                &&& rt.wf_at(d)
                &&& l.leaves() + x.leaves() + rt.leaves() == self.leaves()
                &&& (!(l is Empty) ==> !p.holds(v.mjoin(l.mval())))
                &&& p.holds(v.mjoin(l.mval()).mjoin(x.mval()))
            }),
        decreases self,
    {
        let ghost t0 = self;
        match self {
            Tree::Empty => vstd::pervasive::unreached(),
            Tree::Single(a) => {
                proof {
                    V::lemma_unit_right(v);
                    assert(Tree::<V, A>::Empty.leaves() + a.leaves() + Tree::<V, A>::Empty.leaves()
                        =~= a.leaves());
                }
                (Tree::Empty, a, Tree::Empty)
            },
            Tree::Deep(_, pre, mid, suf) => {
                let ghost p1 = pre.0@;
                let ghost m0 = *mid;
                let ghost s1 = suf.0@;
                let (vpre, o) = pre.split_pos(v.dup(), p);
                match o {
                    Some(idx) => {
                        let (ls, x, rs) = split_at(pre.0, idx);
                        proof {
                            assert(nodes_wf(ls@, d)) by {
                                assert forall|i: int|
                                    0 <= i < ls@.len() implies (#[trigger] ls@[i]).wf()
                                    && ls@[i].depth() == d by {
                                    assert(ls@[i] == p1[i]);
                                }
                            }
                            assert(nodes_wf(rs@, d)) by {
                                assert forall|i: int|
                                    0 <= i < rs@.len() implies (#[trigger] rs@[i]).wf()
                                    && rs@[i].depth() == d by {
                                    assert(rs@[i] == p1[i + idx + 1]);
                                }
                            }
                        }
                        let lt = Tree::empty().append_array(ls, Ghost(d));
                        let rt = deep_l(rs, *mid, suf, Ghost(d));
                        proof {
                            assert(p1 =~= p1.take(idx as int) + seq![x] + p1.skip(idx as int + 1));
                            lemma_nodes_concat(p1.take(idx as int), seq![x]);
                            lemma_nodes_concat(p1.take(idx as int) + seq![x], p1.skip(
                                idx as int + 1,
                            ));
                            lemma_nodes_singleton(x);
                            assert(lt.leaves() =~= nodes_leaves(p1.take(idx as int)));
                            assert(lt.leaves() + x.leaves() + rt.leaves() =~= t0.leaves());
                            lemma_tree_measure_fold(lt);
                            lemma_nodes_measure_fold(p1.take(idx as int));
                            assert(lt.mval() == nodes_mval(p1.take(idx as int)));
                            if idx == 0 {
                                assert(p1.take(0) =~= Seq::<Node<V, A>>::empty());
                                V::lemma_unit_right(v);
                            }
                        }
                        (lt, x, rt)
                    },
                    None => {
                        proof {
                            assert(p1.take(p1.len() as int) =~= p1);
                            assert(!p.holds(vpre));
                        }
                        let vmid = vpre.dup().join(&mid.measure());
                        if p.test(&vmid) {
                            proof {
                                if m0 is Empty {
                                    V::lemma_unit_right(vpre);
                                }
                            }
                            let m = *mid;
                            let (ml, xs, mr) = m.split_nonempty(vpre.dup(), p, Ghost(d + 1));
                            let vl = vpre.join(&ml.measure());
                            proof {
                                if ml is Empty {
                                    V::lemma_unit_right(vpre);
                                }
                                assert(!p.holds(vl));
                            }
                            let (ls, x, rs) = xs.split(vl, p);
                            let lt = deep_r(pre, ml, ls, Ghost(d));
                            let rt = deep_l(rs, mr, suf, Ghost(d));
                            proof {
                                assert(lt.leaves() + x.leaves() + rt.leaves() =~= t0.leaves());
                                lemma_tree_measure_fold(lt);
                                lemma_seq_measure_concat(nodes_leaves(p1), ml.leaves());
                                lemma_seq_measure_concat(
                                    nodes_leaves(p1) + ml.leaves(),
                                    nodes_leaves(ls@),
                                );
                                lemma_nodes_measure_fold(p1);
                                lemma_tree_measure_fold(ml);
                                lemma_nodes_measure_fold(ls@);
                                assert(lt.leaves() =~= (nodes_leaves(p1) + ml.leaves())
                                    + nodes_leaves(ls@));
                                assert(lt.mval() == nodes_mval(p1).mjoin(ml.mval()).mjoin(
                                    nodes_mval(ls@),
                                ));
                                V::lemma_join_assoc(v, nodes_mval(p1), ml.mval());
                                V::lemma_join_assoc(
                                    v,
                                    nodes_mval(p1).mjoin(ml.mval()),
                                    nodes_mval(ls@),
                                );
                                assert(v.mjoin(lt.mval()) == vl.mjoin(nodes_mval(ls@)));
                                if ls@.len() == 0 {
                                    V::lemma_unit_right(vl);
                                }
                            }
                            (lt, x, rt)
                        } else {
                            let (vsuf, o2) = suf.split_pos(vmid.dup(), p);
                            proof {
                                V::lemma_join_assoc(v, nodes_mval(p1), m0.mval());
                                V::lemma_join_assoc(
                                    v,
                                    nodes_mval(p1).mjoin(m0.mval()),
                                    nodes_mval(s1),
                                );
                                assert(v.mjoin(t0.mval()) == vmid.mjoin(nodes_mval(s1)));
                                if o2 is None {
                                    assert(s1.take(s1.len() as int) =~= s1);
                                    assert(false);
                                }
                            }
                            // A predicate that breaks the monotonicity
                            // contract can leave the scan without a hit;
                            // fall back to the last node rather than
                            // fail. Under the contract this arm is
                            // unreachable.
                            let idx = match o2 {
                                Some(i) => i,
                                None => suf.0.len() - 1,
                            };
                            let (ls, x, rs) = split_at(suf.0, idx);
                            proof {
                                assert(nodes_wf(ls@, d)) by {
                                    assert forall|i: int|
                                        0 <= i < ls@.len() implies (#[trigger] ls@[i]).wf()
                                        && ls@[i].depth() == d by {
                                        assert(ls@[i] == s1[i]);
                                    }
                                }
                                assert(nodes_wf(rs@, d)) by {
                                    assert forall|i: int|
                                        0 <= i < rs@.len() implies (#[trigger] rs@[i]).wf()
                                        && rs@[i].depth() == d by {
                                        assert(rs@[i] == s1[i + idx + 1]);
                                    }
                                }
                            }
                            let lt = deep_r(pre, *mid, ls, Ghost(d));
                            let rt = Tree::empty().append_array(rs, Ghost(d));
                            proof {
                                assert(s1 =~= s1.take(idx as int) + seq![x] + s1.skip(
                                    idx as int + 1,
                                ));
                                lemma_nodes_concat(s1.take(idx as int), seq![x]);
                                lemma_nodes_concat(s1.take(idx as int) + seq![x], s1.skip(
                                    idx as int + 1,
                                ));
                                lemma_nodes_singleton(x);
                                assert(rt.leaves() =~= nodes_leaves(s1.skip(idx as int + 1)));
                                assert(lt.leaves() + x.leaves() + rt.leaves() =~= t0.leaves());
                                lemma_tree_measure_fold(lt);
                                lemma_seq_measure_concat(nodes_leaves(p1), m0.leaves());
                                lemma_seq_measure_concat(
                                    nodes_leaves(p1) + m0.leaves(),
                                    nodes_leaves(s1.take(idx as int)),
                                );
                                lemma_nodes_measure_fold(p1);
                                lemma_tree_measure_fold(m0);
                                lemma_nodes_measure_fold(s1.take(idx as int));
                                assert(lt.leaves() =~= (nodes_leaves(p1) + m0.leaves())
                                    + nodes_leaves(s1.take(idx as int)));
                                assert(lt.mval() == nodes_mval(p1).mjoin(m0.mval()).mjoin(
                                    nodes_mval(s1.take(idx as int)),
                                ));
                                V::lemma_join_assoc(
                                    v,
                                    nodes_mval(p1).mjoin(m0.mval()),
                                    nodes_mval(s1.take(idx as int)),
                                );
                                assert(v.mjoin(lt.mval()) == vmid.mjoin(
                                    nodes_mval(s1.take(idx as int)),
                                ));
                                if idx == 0 {
                                    assert(s1.take(0) =~= Seq::<Node<V, A>>::empty());
                                    V::lemma_unit_right(vmid);
                                }
                            }
                            (lt, x, rt)
                        }
                    },
                }
            },
        }
    }

    /// Splits the tree at the first position whose inclusive prefix
    /// measure satisfies the monotone predicate `p`: everything strictly
    /// before that position goes left, the rest right. When the whole
    /// measure fails `p` there is no such position and the tree comes
    /// back unchanged on the left.
    pub fn split<P: Predicate<V>>(self, p: &P) -> (r: (Tree<V, A>, Tree<V, A>))
        requires
            self.wf(),
            monotone(*p),
        ensures
            ({
                let (l, rt) = r;
                &&& l.wf_at(self.dep())
                &&& rt.wf_at(self.dep())
                &&& l.leaves() + rt.leaves() == self.leaves()
                &&& (self is Empty ==> (l is Empty && rt is Empty))
                &&& (!(self is Empty) && !p.holds(self.mval()) ==> (l == self && rt is Empty))
                &&& (!(self is Empty) && p.holds(self.mval()) ==> {
                    &&& !(rt is Empty)
                    &&& (!(l is Empty) ==> !p.holds(l.mval()))
                    &&& p.holds(l.mval().mjoin(rt.first_node().mval()))
                })
            }),
    {
        let ghost t0 = self;
        if self.is_empty() {
            proof {
                assert(Seq::<A>::empty() + Seq::<A>::empty() =~= Seq::<A>::empty());
            }
            return (Tree::Empty, Tree::Empty);
        }
        let vt = self.measure();
        if !p.test(&vt) {
            proof {
                assert(t0.leaves() + Seq::<A>::empty() =~= t0.leaves());
            }
            return (self, Tree::Empty);
        }
        let ghost d = self.dep();
        proof {
            V::lemma_unit_left(t0.mval());
        }
        let (l, x, rt0) = self.split_nonempty(V::unit(), p, Ghost(d));
        let rt = rt0.cons_left(x);
        proof {
            assert(l.leaves() + rt.leaves() =~= t0.leaves());
            V::lemma_unit_left(l.mval());
        }
        (l, rt)
    }
}

impl<V: Monoid, A: Measured<V>> Node<V, A> {
    /// Descends one level: borrows the first child whose inclusive
    /// accumulated measure satisfies `p`, falling back to the last child,
    /// and reports the accumulator just before the chosen child together
    /// with the elements around it.
    pub fn lookup<P: Predicate<V>>(&self, v: V, p: &P) -> (r: (V, &Node<V, A>, Ghost<
        (Seq<A>, Seq<A>),
    >))
        requires
            self.wf(),
            self.depth() >= 1,
            monotone(*p),
            p.holds(v.mjoin(self.mval())),
        ensures
            ({
                let (vr, c, g) = r;
                &&& c.wf()
                &&& c.depth() == (self.depth() - 1) as nat
                &&& self.leaves() == g@.0 + c.leaves() + g@.1
                &&& vr == v.mjoin(seq_measure(g@.0))
                &&& p.holds(vr.mjoin(c.mval()))
                &&& (!p.holds(vr) || vr == v)
            }),
    {
        let ghost n0 = *self;
        match self {
            Node::Leaf(_) => vstd::pervasive::unreached(),
            Node::Node2(_, x, y) => {
                let vx = v.join(&x.measure());
                proof {
                    V::lemma_unit_right(v);
                    lemma_node_measure_fold(**x);
                    V::lemma_join_assoc(v, (**x).mval(), (**y).mval());
                }
                if p.test(&vx) {
                    proof {
                        assert(n0.leaves() =~= Seq::<A>::empty() + (**x).leaves()
                            + (**y).leaves());
                        assert(seq_measure(Seq::<A>::empty()) == V::munit());
                    }
                    (v, &**x, Ghost((Seq::empty(), (**y).leaves())))
                } else {
                    proof {
                        assert(n0.leaves() =~= (**x).leaves() + (**y).leaves()
                            + Seq::<A>::empty());
                    }
                    (vx, &**y, Ghost(((**x).leaves(), Seq::empty())))
                }
            },
            Node::Node3(_, x, y, z) => {
                let vx = v.join(&x.measure());
                proof {
                    V::lemma_unit_right(v);
                    lemma_node_measure_fold(**x);
                    lemma_node_measure_fold(**y);
                    lemma_seq_measure_concat((**x).leaves(), (**y).leaves());
                    V::lemma_join_assoc(v, (**x).mval(), (**y).mval());
                    V::lemma_join_assoc(v, (**x).mval().mjoin((**y).mval()), (**z).mval());
                }
                if p.test(&vx) {
                    proof {
                        assert(n0.leaves() =~= Seq::<A>::empty() + (**x).leaves()
                            + ((**y).leaves() + (**z).leaves()));
                    }
                    (v, &**x, Ghost((Seq::empty(), (**y).leaves() + (**z).leaves())))
                } else {
                    let vy = vx.join(&y.measure());
                    if p.test(&vy) {
                        proof {
                            assert(n0.leaves() =~= (**x).leaves() + (**y).leaves()
                                + (**z).leaves());
                        }
                        (vx, &**y, Ghost(((**x).leaves(), (**z).leaves())))
                    } else {
                        proof {
                            assert(n0.leaves() =~= ((**x).leaves() + (**y).leaves())
                                + (**z).leaves() + Seq::<A>::empty());
                        }
                        (vy, &**z, Ghost(((**x).leaves() + (**y).leaves(), Seq::empty())))
                    }
                }
            },
        }
    }
}

impl<V: Monoid, A: Measured<V>> Tree<V, A> {
    /// Finds the top-level node at which the running accumulated measure
    /// first satisfies `p`, without changing the tree: borrows that node
    /// and reports the accumulator over everything before it.
    #[verifier::rlimit(100)]
    pub(crate) fn lookup_inner<P: Predicate<V>>(&self, v: V, p: &P, Ghost(d): Ghost<nat>) -> (r: (
        V,
        &Node<V, A>,
        Ghost<(Seq<A>, Seq<A>)>,
    ))
        requires
            self.wf_at(d),
            !(*self is Empty),
            monotone(*p),
            p.holds(v.mjoin(self.mval())),
        ensures
            ({
                let (vr, c, g) = r;
                &&& c.wf()
                &&& c.depth() == d
                &&& self.leaves() == g@.0 + c.leaves() + g@.1
                &&& vr == v.mjoin(seq_measure(g@.0))
                &&& p.holds(vr.mjoin(c.mval()))
                &&& (!p.holds(vr) || vr == v)
            }),
        decreases self,
    {
        let ghost t0 = *self;
        match self {
            Tree::Empty => vstd::pervasive::unreached(),
            Tree::Single(a) => {
                proof {
                    V::lemma_unit_right(v);
                    assert(t0.leaves() =~= Seq::<A>::empty() + a.leaves() + Seq::<A>::empty());
                }
                (v, a, Ghost((Seq::empty(), Seq::empty())))
            },
            Tree::Deep(_, pre, mid, suf) => {
                let ghost p1 = pre.0@;
                let ghost m0 = **mid;
                let ghost s1 = suf.0@;
                let (vpre, o) = pre.split_pos(v.dup(), p);
                match o {
                    Some(idx) => {
                        let c = &pre.0[idx];
                        let ghost w1 = nodes_leaves(p1.take(idx as int));
                        let ghost w2 = nodes_leaves(p1.skip(idx as int + 1)) + m0.leaves()
                            + nodes_leaves(s1);
                        proof {
                            assert(p1 =~= p1.take(idx as int) + seq![*c] + p1.skip(
                                idx as int + 1,
                            ));
                            lemma_nodes_concat(p1.take(idx as int), seq![*c]);
                            lemma_nodes_concat(p1.take(idx as int) + seq![*c], p1.skip(
                                idx as int + 1,
                            ));
                            lemma_nodes_singleton(*c);
                            assert(t0.leaves() =~= w1 + c.leaves() + w2);
                            lemma_nodes_measure_fold(p1.take(idx as int));
                            if idx == 0 {
                                assert(p1.take(0) =~= Seq::<Node<V, A>>::empty());
                                V::lemma_unit_right(v);
                            }
                        }
                        (vpre, c, Ghost((w1, w2)))
                    },
                    None => {
                        proof {
                            assert(p1.take(p1.len() as int) =~= p1);
                            assert(!p.holds(vpre));
                        }
                        let vmid = vpre.dup().join(&mid.measure());
                        proof {
                            V::lemma_join_assoc(v, nodes_mval(p1), m0.mval());
                            V::lemma_join_assoc(v, nodes_mval(p1).mjoin(m0.mval()), nodes_mval(
                                s1,
                            ));
                            assert(v.mjoin(t0.mval()) == vmid.mjoin(nodes_mval(s1)));
                        }
                        if p.test(&vmid) {
                            proof {
                                if m0 is Empty {
                                    V::lemma_unit_right(vpre);
                                }
                            }
                            let (vl, xs, gm) = mid.lookup_inner(vpre.dup(), p, Ghost(d + 1));
                            let (vx, c, gn) = xs.lookup(vl, p);
                            let ghost w1 = nodes_leaves(p1) + gm@.0 + gn@.0;
                            let ghost w2 = gn@.1 + gm@.1 + nodes_leaves(s1);
                            proof {
                                assert(t0.leaves() =~= w1 + c.leaves() + w2);
                                lemma_nodes_measure_fold(p1);
                                lemma_seq_measure_concat(nodes_leaves(p1), gm@.0);
                                lemma_seq_measure_concat(nodes_leaves(p1) + gm@.0, gn@.0);
                                V::lemma_join_assoc(v, seq_measure(nodes_leaves(p1)), seq_measure(
                                    gm@.0,
                                ));
                                V::lemma_join_assoc(
                                    v,
                                    seq_measure(nodes_leaves(p1)).mjoin(seq_measure(gm@.0)),
                                    seq_measure(gn@.0),
                                );
                                assert(w1 =~= (nodes_leaves(p1) + gm@.0) + gn@.0);
                                assert(vx == v.mjoin(seq_measure(w1)));
                            }
                            (vx, c, Ghost((w1, w2)))
                        } else {
                            let (vsuf, o2) = suf.split_pos(vmid.dup(), p);
                            proof {
                                if o2 is None {
                                    assert(s1.take(s1.len() as int) =~= s1);
                                    assert(false);
                                }
                            }
                            let idx = o2.unwrap();
                            let c = &suf.0[idx];
                            let ghost w1 = nodes_leaves(p1) + m0.leaves() + nodes_leaves(
                                s1.take(idx as int),
                            );
                            let ghost w2 = nodes_leaves(s1.skip(idx as int + 1));
                            proof {
                                assert(s1 =~= s1.take(idx as int) + seq![*c] + s1.skip(
                                    idx as int + 1,
                                ));
                                lemma_nodes_concat(s1.take(idx as int), seq![*c]);
                                lemma_nodes_concat(s1.take(idx as int) + seq![*c], s1.skip(
                                    idx as int + 1,
                                ));
                                lemma_nodes_singleton(*c);
                                assert(t0.leaves() =~= w1 + c.leaves() + w2);
                                lemma_nodes_measure_fold(p1);
                                lemma_tree_measure_fold(m0);
                                lemma_nodes_measure_fold(s1.take(idx as int));
                                lemma_seq_measure_concat(nodes_leaves(p1), m0.leaves());
                                lemma_seq_measure_concat(
                                    nodes_leaves(p1) + m0.leaves(),
                                    nodes_leaves(s1.take(idx as int)),
                                );
                                V::lemma_join_assoc(v, nodes_mval(p1).mjoin(m0.mval()), nodes_mval(
                                    s1.take(idx as int),
                                ));
                                assert(w1 =~= (nodes_leaves(p1) + m0.leaves()) + nodes_leaves(
                                    s1.take(idx as int),
                                ));
                                assert(vsuf == v.mjoin(seq_measure(w1)));
                                if idx == 0 {
                                    assert(s1.take(0) =~= Seq::<Node<V, A>>::empty());
                                    V::lemma_unit_right(vmid);
                                }
                            }
                            (vsuf, c, Ghost((w1, w2)))
                        }
                    },
                }
            },
        }
    }

    /// Locates the leftmost position whose inclusive prefix measure
    /// satisfies the monotone predicate `p`: borrows the top-level node
    /// holding that position and returns the measure of everything
    /// strictly before the node. Returns no node when the tree is empty
    /// or its whole measure fails `p`.
    pub fn lookup<P: Predicate<V>>(&self, p: &P) -> (r: (V, Option<&Node<V, A>>))
        requires
            self.wf(),
            monotone(*p),
        ensures
            ({
                let (vr, o) = r;
                match o {
                    None => (*self is Empty || !p.holds(self.mval())) && vr == self.mval(),
                    Some(c) => {
                        &&& !(*self is Empty)
                        &&& p.holds(self.mval())
                        &&& c.wf()
                        &&& c.depth() == self.dep()
                        &&& exists|s1: Seq<A>, s2: Seq<A>|
                            #![auto]
                            {
                                &&& self.leaves() == s1 + c.leaves() + s2
                                &&& vr == seq_measure(s1)
                                &&& p.holds(vr.mjoin(c.mval()))
                                &&& (vr == V::munit() || !p.holds(vr))
                            }
                    },
                }
            }),
    {
        if self.is_empty() {
            return (V::unit(), None);
        }
        let vt = self.measure();
        if !p.test(&vt) {
            return (vt, None);
        }
        proof {
            V::lemma_unit_left(self.mval());
        }
        let (vr, c, g) = self.lookup_inner(V::unit(), p, Ghost(self.dep()));
        proof {
            let s1 = g@.0;
            let s2 = g@.1;
            V::lemma_unit_left(seq_measure(s1));
            assert(self.leaves() == s1 + c.leaves() + s2 && vr == seq_measure(s1) && p.holds(
                vr.mjoin(c.mval()),
            ) && (vr == V::munit() || !p.holds(vr)));
        }
        (vr, Some(c))
    }
}

} // verus!

//! Monoids, measured elements, and measure predicates.
//!
//! A finger tree is parameterised by a monoid `V`: every element reports a
//! measure in `V`, and the tree navigates by accumulating measures with the
//! monoid's `join`. This module defines the `Monoid` and `Measured`
//! capabilities, the `Size` monoid (a 64-bit element count), the `Predicate`
//! capability used by splitting and lookup, and the measure of a sequence of
//! elements together with its algebraic laws.

use vstd::prelude::*;

verus! {

/// A monoid: a type with an identity `unit` and an associative combiner
/// `join`. Associativity and the identity laws are demanded as proof
/// obligations of every implementation; commutativity is not assumed.
pub trait Monoid: Sized {
    /// The identity value, at the specification level.
    spec fn munit() -> Self;

    /// The combiner, at the specification level.
    spec fn mjoin(self, other: Self) -> Self;

    /// `join` is associative.
    proof fn lemma_join_assoc(a: Self, b: Self, c: Self)
        ensures
            a.mjoin(b).mjoin(c) == a.mjoin(b.mjoin(c)),
    ;

    /// `unit` is a left identity of `join`.
    proof fn lemma_unit_left(a: Self)
        ensures
            Self::munit().mjoin(a) == a,
    ;

    /// `unit` is a right identity of `join`.
    proof fn lemma_unit_right(a: Self)
        ensures
            a.mjoin(Self::munit()) == a,
    ;

    /// Returns the identity value.
    fn unit() -> (r: Self)
        ensures
            r == Self::munit(),
    ;

    /// Combines two values; the argument order matters.
    fn join(&self, x: &Self) -> (r: Self)
        ensures
            r == self.mjoin(*x),
    ;

    /// Returns a copy of the value. Cached measures are cheap to hand out
    /// only when the monoid can reproduce a value it already holds.
    fn dup(&self) -> (r: Self)
        ensures
            r == *self,
    ;
}

/// A measured element: it reports a measure in the monoid `V`.
pub trait Measured<V: Monoid>: Sized {
    /// The element's measure, at the specification level.
    spec fn mval(self) -> V;

    /// Reports the element's measure.
    fn measure(&self) -> (r: V)
        ensures
            r == self.mval(),
    ;
}

/// A test on accumulated measures, used to steer `split` and `lookup`.
pub trait Predicate<V: Monoid>: Sized {
    /// What the predicate holds of a measure, at the specification level.
    spec fn holds(self, v: V) -> bool;

    /// Decides the predicate on a measure.
    fn test(&self, v: &V) -> (r: bool)
        ensures
            r == self.holds(*v),
    ;
}

/// A predicate is monotone when extending a measure on the right can only
/// turn it from false to true, never back. Splitting and lookup demand this
/// of their predicate.
pub open spec fn monotone<V: Monoid, P: Predicate<V>>(p: P) -> bool {
    forall|a: V, b: V| p.holds(a) ==> #[trigger] p.holds(a.mjoin(b))
}

/// The measure of a sequence of elements: the left-to-right fold of `join`
/// over the element measures, starting from `unit`.
pub open spec fn seq_measure<V: Monoid, A: Measured<V>>(s: Seq<A>) -> V
    decreases s.len(),
{
    if s.len() == 0 {
        V::munit()
    } else {
        seq_measure(s.drop_last()).mjoin(s.last().mval())
    }
}

/// The measure of a concatenation is the join of the measures.
pub proof fn lemma_seq_measure_concat<V: Monoid, A: Measured<V>>(s1: Seq<A>, s2: Seq<A>)
    ensures
        seq_measure(s1 + s2) == seq_measure(s1).mjoin(seq_measure(s2)),
    decreases s2.len(),
{
    if s2.len() == 0 {
        assert(s1 + s2 =~= s1);
        V::lemma_unit_right(seq_measure(s1));
    } else {
        lemma_seq_measure_concat::<V, A>(s1, s2.drop_last());
        assert((s1 + s2).drop_last() =~= s1 + s2.drop_last());
        V::lemma_join_assoc(
            seq_measure(s1),
            seq_measure(s2.drop_last()),
            s2.last().mval(),
        );
    }
}

/// The measure of a one-element sequence is the element's measure.
pub proof fn lemma_seq_measure_singleton<V: Monoid, A: Measured<V>>(a: A)
    ensures
        seq_measure(seq![a]) == a.mval(),
{
    let s = seq![a];
    assert(s.len() == 1);
    assert(s.last() == a);
    assert(s.drop_last() =~= Seq::<A>::empty());
    assert(seq_measure(s) == seq_measure(Seq::<A>::empty()).mjoin(a.mval()));
    V::lemma_unit_left(a.mval());
}

/// Under a monotone predicate, a prefix of a sequence whose whole measure
/// fails the predicate fails it as well.
pub proof fn lemma_monotone_prefix<V: Monoid, A: Measured<V>, P: Predicate<V>>(
    p: P,
    s: Seq<A>,
    i: int,
)
    requires
        monotone(p),
        !p.holds(seq_measure(s)),
        0 <= i <= s.len(),
    ensures
        !p.holds(seq_measure(s.take(i))),
{
    assert(s =~= s.take(i) + s.skip(i));
    lemma_seq_measure_concat(s.take(i), s.skip(i));
}

/// The `Size` monoid: a 64-bit element count. `join` adds, saturating at
/// `u64::MAX`, which keeps it associative on all inputs. Counts of
/// elements held in memory stay far below the cap, so there `join` is
/// plain addition.
#[derive(Clone, Copy, Debug, PartialEq, Eq, Structural)]
pub struct Size(pub u64);

impl Monoid for Size {
    open spec fn munit() -> Size {
        Size(0)
    }

    open spec fn mjoin(self, other: Size) -> Size {
        Size(
            if self.0 + other.0 > u64::MAX {
                u64::MAX
            } else {
                (self.0 + other.0) as u64
            },
        )
    }

    proof fn lemma_join_assoc(a: Size, b: Size, c: Size) {
    }

    proof fn lemma_unit_left(a: Size) {
    }

    proof fn lemma_unit_right(a: Size) {
    }

    fn unit() -> (r: Size) {
        Size(0)
    }

    fn join(&self, x: &Size) -> (r: Size) {
        if self.0 > u64::MAX - x.0 {
            Size(u64::MAX)
        } else {
            Size(self.0 + x.0)
        }
    }

    fn dup(&self) -> (r: Size) {
        Size(self.0)
    }
}

/// The predicate `measure > Size(bound)`, the usual way to address the
/// element at a given position in a `Size`-measured tree.
#[derive(Clone, Copy, Debug, PartialEq, Eq, Structural)]
pub struct SizeGt(pub u64);

impl Predicate<Size> for SizeGt {
    open spec fn holds(self, v: Size) -> bool {
        v.0 > self.0
    }

    fn test(&self, v: &Size) -> (r: bool) {
        v.0 > self.0
    }
}

/// `SizeGt` is monotone: a count never shrinks under `join`, so once it
/// exceeds the bound every extension does too. It is therefore a fit
/// predicate for `split` and `lookup` on any `Size`-measured tree.
pub proof fn lemma_size_gt_monotone(p: SizeGt)
    ensures
        monotone(p),
{
}

} // verus!

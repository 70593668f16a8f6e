//! The variant for many small, short-lived associations: it reserves room for
//! `N` pairs when it is created.
use vstd::laws_eq::obeys_concrete_eq;
use vstd::prelude::*;
use vstd::std_specs::iter::IteratorSpec;
use crate::m2m::M2M;
use crate::order::{strictly_sorted, total_order};
use crate::pairs::{rights_of, without_left};

verus! {

/// A many-to-many association between `L` values and `R` values that reserves
/// room for `N` pairs up front, so that its first `N` insertions do not
/// allocate. It behaves as `M2M` does, with the smaller set of operations.
#[derive(Debug)]
pub struct SmallM2M<L, R, const N: usize> {
    inner: M2M<L, R>,
}

impl<L, R, const N: usize> View for SmallM2M<L, R, N> {
    type V = Seq<(L, R)>;

    closed spec fn view(&self) -> Seq<(L, R)> {
        self.inner@
    }
}

impl<L: Ord, R: Ord, const N: usize> SmallM2M<L, R, N> {
    /// The pairs stand in strictly ascending order of `(left, right)`.
    pub open spec fn wf(&self) -> bool {
        strictly_sorted(self@)
    }
}

impl<L, R, const N: usize> Default for SmallM2M<L, R, N> {
    fn default() -> (m: Self)
        ensures
            m@ == Seq::<(L, R)>::empty(),
    {
        SmallM2M { inner: M2M::with_capacity(N) }
    }
}

impl<L, R, const N: usize> IntoIterator for SmallM2M<L, R, N> {
    type Item = (L, R);
    type IntoIter = std::vec::IntoIter<(L, R)>;

    /// Consumes the association; the iterator hands out its pairs in order.
    fn into_iter(self) -> (it: std::vec::IntoIter<(L, R)>)
        ensures
            it.remaining() == self@,
    {
        self.inner.into_iter()
    }
}

impl<'a, L, R, const N: usize> IntoIterator for &'a SmallM2M<L, R, N> {
    type Item = &'a (L, R);
    type IntoIter = std::slice::Iter<'a, (L, R)>;

    /// The iterator hands out the pairs in order.
    fn into_iter(self) -> (it: std::slice::Iter<'a, (L, R)>)
        ensures
            it.remaining().unref() == self@,
    {
        self.iter()
    }
}

impl<'a, L, R, const N: usize> IntoIterator for &'a mut SmallM2M<L, R, N> {
    type Item = &'a mut (L, R);
    type IntoIter = std::slice::IterMut<'a, (L, R)>;

    /// The iterator hands out the pairs in order, open to writing.
    fn into_iter(self) -> (it: std::slice::IterMut<'a, (L, R)>)
        ensures
            final(self)@.len() == old(self)@.len(),
    {
        self.iter_mut()
    }
}

impl<L, R, const N: usize> SmallM2M<L, R, N> {
    /// An empty association.
    pub fn new() -> (m: SmallM2M<L, R, N>)
        ensures
            m@ == Seq::<(L, R)>::empty(),
    {
        SmallM2M { inner: M2M::with_capacity(N) }
    }

    /// The association of the distinct pairs of `pairs`, in ascending order.
    pub fn from(pairs: Vec<(L, R)>) -> (m: SmallM2M<L, R, N>)
        where
            L: Ord,
            R: Ord,
        requires
            total_order::<L>(),
            total_order::<R>(),
        ensures
            m.wf(),
            forall|p: (L, R)| #[trigger] m@.contains(p) <==> pairs@.contains(p),
    {
        SmallM2M { inner: M2M::from(pairs) }
    }

    /// Adds the pair `(left, right)`, keeping the order; returns `false`, and
    /// changes nothing, when the pair is already there.
    pub fn insert(&mut self, left: L, right: R) -> (inserted: bool)
        where
            L: Ord,
            R: Ord,
        requires
            total_order::<L>(),
            total_order::<R>(),
            old(self).wf(),
        ensures
            inserted == !old(self)@.contains((left, right)),
            final(self).wf(),
            forall|p: (L, R)| #[trigger] final(self)@.contains(p) <==> old(self)@.contains(p) || p == (left, right),
            final(self)@.len() == old(self)@.len() + if inserted { 1int } else { 0int },
            !inserted ==> final(self)@ == old(self)@,
    {
        self.inner.insert(left, right)
    }

    /// The number of pairs.
    pub fn len(&self) -> (n: usize)
        ensures
            n == self@.len(),
    {
        self.inner.len()
    }

    /// Whether there are no pairs.
    pub fn is_empty(&self) -> (b: bool)
        ensures
            b <==> self@.len() == 0,
    {
        self.inner.is_empty()
    }

    /// Removes every pair.
    pub fn clear(&mut self)
        ensures
            final(self)@ == Seq::<(L, R)>::empty(),
    {
        self.inner.clear();
    }

    /// Removes every pair whose left is `left`, and returns their rights in
    /// the order they stood; `None` when there was none.
    pub fn remove(&mut self, left: &L) -> (removed: Option<Vec<R>>)
        where
            L: PartialEq,
        requires
            obeys_concrete_eq::<L>(),
        ensures
            final(self)@ == without_left(old(self)@, *left),
            match removed {
                None => rights_of(old(self)@, *left).len() == 0,
                Some(v) => v@ == rights_of(old(self)@, *left) && v@.len() > 0,
            },
    {
        self.inner.remove(left)
    }

    /// Whether the pair `(left, right)` is there.
    pub fn contains(&self, left: &L, right: &R) -> (b: bool)
        where
            L: PartialEq,
            R: PartialEq,
        requires
            obeys_concrete_eq::<L>(),
            obeys_concrete_eq::<R>(),
        ensures
            b == self@.contains((*left, *right)),
    {
        self.inner.contains(left, right)
    }

    /// An iterator over the pairs, in their order.
    pub fn iter(&self) -> (it: std::slice::Iter<'_, (L, R)>)
        ensures
            it.remaining().unref() == self@,
    {
        self.inner.iter()
    }

    /// An iterator over the pairs, in their order, that may write to them;
    /// their number stays as it is.
    pub fn iter_mut(&mut self) -> (it: std::slice::IterMut<'_, (L, R)>)
        ensures
            final(self)@.len() == old(self)@.len(),
    {
        self.inner.iter_mut()
    }

    /// The pairs, in their order.
    pub fn as_slice(&self) -> (pairs: &[(L, R)])
        ensures
            pairs@ == self@,
    {
        self.inner.as_slice()
    }
}

} // verus!

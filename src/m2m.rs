//! The container: a vector of pairs kept in ascending order, without repeats.
use vstd::laws_eq::obeys_concrete_eq;
use vstd::pervasive::strictly_cloned;
use vstd::prelude::*;
use vstd::std_specs::iter::IteratorSpec;
use crate::order::{
    clone_copies, insert_sorted, lemma_concrete_eq, lemma_pair_total_order, lemma_ref_total_order,
    lemma_unref, strictly_sorted, total_order,
};
use crate::pairs::{
    has_left, has_right, lefts_of, lemma_with_lefts_none, lemma_with_rights_none, negated,
    rights_of, select, verdicts, with_lefts, with_rights, without_left,
};

verus! {

/// A many-to-many association between `L` values and `R` values.
///
/// It holds a sequence of `(left, right)` pairs. It is well formed (`wf`) when
/// the pairs stand in strictly ascending order, so that none repeats. Every
/// operation that builds or changes the pairs keeps that; writing through
/// `as_mut_slice` or `iter_mut` may break it, and the caller then restores it
/// before the next insertion.
#[derive(Debug)]
pub struct M2M<L, R> {
    pairs: Vec<(L, R)>,
}

impl<L, R> View for M2M<L, R> {
    type V = Seq<(L, R)>;

    closed spec fn view(&self) -> Seq<(L, R)> {
        self.pairs@
    }
}

impl<L: Ord, R: Ord> M2M<L, R> {
    /// The pairs stand in strictly ascending order of `(left, right)`.
    pub open spec fn wf(&self) -> bool {
        strictly_sorted(self@)
    }
}

impl<L, R> Default for M2M<L, R> {
    fn default() -> (m: Self)
        ensures
            m@ == Seq::<(L, R)>::empty(),
    {
        M2M { pairs: Vec::new() }
    }
}

impl<L, R> IntoIterator for M2M<L, R> {
    type Item = (L, R);
    type IntoIter = std::vec::IntoIter<(L, R)>;

    /// Consumes the association; the iterator hands out its pairs in order.
    fn into_iter(self) -> (it: std::vec::IntoIter<(L, R)>)
        ensures
            it.remaining() == self@,
    {
        self.pairs.into_iter()
    }
}

impl<'a, L, R> IntoIterator for &'a M2M<L, R> {
    type Item = &'a (L, R);
    type IntoIter = std::slice::Iter<'a, (L, R)>;

    /// The iterator hands out the pairs in order.
    fn into_iter(self) -> (it: std::slice::Iter<'a, (L, R)>)
        ensures
            it.remaining().unref() == self@,
    {
        self.iter()
    }
}

impl<'a, L, R> IntoIterator for &'a mut M2M<L, R> {
    type Item = &'a mut (L, R);
    type IntoIter = std::slice::IterMut<'a, (L, R)>;

    /// The iterator hands out the pairs in order, open to writing.
    fn into_iter(self) -> (it: std::slice::IterMut<'a, (L, R)>)
        ensures
            final(self)@.len() == old(self)@.len(),
    {
        self.iter_mut()
    }
}

impl<L, R> M2M<L, R> {
    /// An empty association.
    pub fn new() -> (m: M2M<L, R>)
        ensures
            m@ == Seq::<(L, R)>::empty(),
    {
        M2M { pairs: Vec::new() }
    }

    /// An empty association with room for `n` pairs before it grows.
    pub(crate) fn with_capacity(n: usize) -> (m: M2M<L, R>)
        ensures
            m@ == Seq::<(L, R)>::empty(),
    {
        M2M { pairs: Vec::with_capacity(n) }
    }

    /// The association of the distinct pairs of `pairs`, in ascending order.
    pub fn from(pairs: Vec<(L, R)>) -> (m: M2M<L, R>)
        where
            L: Ord,
            R: Ord,
        requires
            total_order::<L>(),
            total_order::<R>(),
        ensures
            m.wf(),
            forall|p: (L, R)| #[trigger] m@.contains(p) <==> pairs@.contains(p),
    {
        proof {
            lemma_pair_total_order::<L, R>();
        }
        let mut rest = pairs;
        let mut sorted: Vec<(L, R)> = Vec::new();
        while rest.len() > 0
            invariant
                total_order::<(L, R)>(),
                strictly_sorted(sorted@),
                forall|p: (L, R)| #[trigger] pairs@.contains(p) <==> sorted@.contains(p) || rest@.contains(p),
            decreases rest.len(),
        {
            let ghost before = rest@;
            let p = rest.pop().unwrap();
            proof {
                assert(before =~= rest@.push(p));
                assert forall|q: (L, R)| #[trigger] before.contains(q) <==> rest@.contains(q) || q == p by {
                    if before.contains(q) && q != p {
                        let k = choose|k: int| 0 <= k < before.len() && before[k] == q;
                        assert(rest@[k] == q);
                    }
                    if rest@.contains(q) {
                        let k = choose|k: int| 0 <= k < rest@.len() && rest@[k] == q;
                        assert(before[k] == q);
                    }
                    if q == p {
                        assert(before[before.len() - 1] == q);
                    }
                }
            }
            insert_sorted(&mut sorted, p);
        }
        M2M { pairs: sorted }
    }

    /// Adds the pair `(left, right)`, keeping the order; returns `false`, and
    /// changes nothing, when the pair is already there.
    pub fn insert(&mut self, left: L, right: R) -> (inserted: bool)
        where
            L: Ord,
            R: Ord,
        requires
            total_order::<L>(),
            total_order::<R>(),
            old(self).wf(),
        ensures
            inserted == !old(self)@.contains((left, right)),
            final(self).wf(),
            forall|p: (L, R)| #[trigger] final(self)@.contains(p) <==> old(self)@.contains(p) || p == (left, right),
            final(self)@.len() == old(self)@.len() + if inserted { 1int } else { 0int },
            !inserted ==> final(self)@ == old(self)@,
    {
        proof {
            lemma_pair_total_order::<L, R>();
        }
        insert_sorted(&mut self.pairs, (left, right))
    }

    /// The number of pairs.
    pub fn len(&self) -> (n: usize)
        ensures
            n == self@.len(),
    {
        self.pairs.len()
    }

    /// Whether there are no pairs.
    pub fn is_empty(&self) -> (b: bool)
        ensures
            b <==> self@.len() == 0,
    {
        self.pairs.is_empty()
    }

    /// Removes every pair.
    pub fn clear(&mut self)
        ensures
            final(self)@ == Seq::<(L, R)>::empty(),
    {
        self.pairs.clear();
    }

    /// Whether the pair `(left, right)` is there.
    pub fn contains(&self, left: &L, right: &R) -> (b: bool)
        where
            L: PartialEq,
            R: PartialEq,
        requires
            obeys_concrete_eq::<L>(),
            obeys_concrete_eq::<R>(),
        ensures
            b == self@.contains((*left, *right)),
    {
        let mut i: usize = 0;
        while i < self.pairs.len()
            invariant
                obeys_concrete_eq::<L>(),
                obeys_concrete_eq::<R>(),
                i <= self@.len(),
                forall|k: int| 0 <= k < i ==> self@[k] != (*left, *right),
            decreases self@.len() - i,
        {
            proof {
                lemma_concrete_eq::<L>();
                lemma_concrete_eq::<R>();
            }
            if self.pairs[i].0 == *left && self.pairs[i].1 == *right {
                assert(self@[i as int] == (*left, *right));
                return true;
            }
            i += 1;
        }
        false
    }

    /// Removes every pair whose left is `left`, and returns their rights in
    /// the order they stood; `None` when there was none.
    pub fn remove(&mut self, left: &L) -> (removed: Option<Vec<R>>)
        where
            L: PartialEq,
        requires
            obeys_concrete_eq::<L>(),
        ensures
            final(self)@ == without_left(old(self)@, *left),
            match removed {
                None => rights_of(old(self)@, *left).len() == 0,
                Some(v) => v@ == rights_of(old(self)@, *left) && v@.len() > 0,
            },
    {
        let ghost orig = self@;
        let mut rights: Vec<R> = Vec::new();
        let mut i: usize = 0;
        let ghost mut j: int = 0;
        while i < self.pairs.len()
            invariant
                obeys_concrete_eq::<L>(),
                0 <= j <= orig.len(),
                self@ == without_left(orig.take(j), *left) + orig.skip(j),
                i == without_left(orig.take(j), *left).len(),
                rights@ == rights_of(orig.take(j), *left),
            decreases self@.len() - i,
        {
            proof {
                lemma_concrete_eq::<L>();
                assert(orig.take(j + 1).drop_last() =~= orig.take(j));
                assert(orig.take(j + 1).last() == orig[j]);
                assert(self@[i as int] == orig[j]);
            }
            if self.pairs[i].0 == *left {
                let (_, r) = self.pairs.remove(i);
                rights.push(r);
                proof {
                    assert(self@ =~= without_left(orig.take(j + 1), *left) + orig.skip(j + 1));
                }
            } else {
                i += 1;
                proof {
                    assert(self@ =~= without_left(orig.take(j + 1), *left) + orig.skip(j + 1));
                }
            }
            proof {
                j = j + 1;
            }
        }
        proof {
            assert(j == orig.len()) by {
                if j < orig.len() {
                    assert(self@.len() > i);
                }
            }
            assert(orig.take(j) =~= orig);
            assert(self@ =~= without_left(orig, *left));
        }
        if rights.is_empty() {
            return None;
        }
        Some(rights)
    }

    /// Whether some pair has `left` on its left.
    pub fn contains_left(&self, left: &L) -> (b: bool)
        where
            L: PartialEq,
        requires
            obeys_concrete_eq::<L>(),
        ensures
            b == has_left(self@, *left),
    {
        let mut i: usize = 0;
        while i < self.pairs.len()
            invariant
                obeys_concrete_eq::<L>(),
                i <= self@.len(),
                forall|k: int| 0 <= k < i ==> (#[trigger] self@[k]).0 != *left,
            decreases self@.len() - i,
        {
            proof {
                lemma_concrete_eq::<L>();
            }
            if self.pairs[i].0 == *left {
                assert(self@[i as int].0 == *left);
                return true;
            }
            i += 1;
        }
        false
    }

    /// Whether some pair has `right` on its right.
    pub fn contains_right(&self, right: &R) -> (b: bool)
        where
            R: PartialEq,
        requires
            obeys_concrete_eq::<R>(),
        ensures
            b == has_right(self@, *right),
    {
        let mut i: usize = 0;
        while i < self.pairs.len()
            invariant
                obeys_concrete_eq::<R>(),
                i <= self@.len(),
                forall|k: int| 0 <= k < i ==> (#[trigger] self@[k]).1 != *right,
            decreases self@.len() - i,
        {
            proof {
                lemma_concrete_eq::<R>();
            }
            if self.pairs[i].1 == *right {
                assert(self@[i as int].1 == *right);
                return true;
            }
            i += 1;
        }
        false
    }

    /// The rights of the pairs whose left is `left`, in the pairs' order;
    /// `None` when there is none.
    pub fn get_rights(&self, left: &L) -> (rights: Option<Vec<&R>>)
        where
            L: PartialEq,
        requires
            obeys_concrete_eq::<L>(),
        ensures
            match rights {
                None => rights_of(self@, *left).len() == 0,
                Some(v) => v@.unref() == rights_of(self@, *left) && v@.len() > 0,
            },
    {
        let mut out: Vec<&R> = Vec::new();
        let mut i: usize = 0;
        while i < self.pairs.len()
            invariant
                obeys_concrete_eq::<L>(),
                i <= self@.len(),
                out@.unref() == rights_of(self@.take(i as int), *left),
            decreases self@.len() - i,
        {
            proof {
                lemma_concrete_eq::<L>();
                assert(self@.take(i + 1).drop_last() =~= self@.take(i as int));
            }
            let p = &self.pairs[i];
            if p.0 == *left {
                let ghost before = out@;
                out.push(&p.1);
                assert(out@.unref() =~= before.unref().push(p.1));
            }
            i += 1;
        }
        assert(self@.take(i as int) =~= self@);
        if out.is_empty() {
            return None;
        }
        Some(out)
    }

    /// The lefts of the pairs whose right is `right`, in the pairs' order;
    /// `None` when there is none.
    pub fn get_lefts(&self, right: &R) -> (lefts: Option<Vec<&L>>)
        where
            R: PartialEq,
        requires
            obeys_concrete_eq::<R>(),
        ensures
            match lefts {
                None => lefts_of(self@, *right).len() == 0,
                Some(v) => v@.unref() == lefts_of(self@, *right) && v@.len() > 0,
            },
    {
        let mut out: Vec<&L> = Vec::new();
        let mut i: usize = 0;
        while i < self.pairs.len()
            invariant
                obeys_concrete_eq::<R>(),
                i <= self@.len(),
                out@.unref() == lefts_of(self@.take(i as int), *right),
            decreases self@.len() - i,
        {
            proof {
                lemma_concrete_eq::<R>();
                assert(self@.take(i + 1).drop_last() =~= self@.take(i as int));
            }
            let p = &self.pairs[i];
            if p.1 == *right {
                let ghost before = out@;
                out.push(&p.0);
                assert(out@.unref() =~= before.unref().push(p.0));
            }
            i += 1;
        }
        assert(self@.take(i as int) =~= self@);
        if out.is_empty() {
            return None;
        }
        Some(out)
    }

    /// The rights of the pairs whose left is `left`, in the pairs' order, open
    /// to writing; `None` when there is none. What is written through them is
    /// what those pairs hold afterwards.
    pub fn get_rights_mut(&mut self, left: &L) -> (rights: Option<Vec<&mut R>>)
        where
            L: PartialEq,
        requires
            obeys_concrete_eq::<L>(),
        ensures
            match rights {
                None => rights_of(old(self)@, *left).len() == 0 && final(self)@ == old(self)@,
                Some(v) => {
                    &&& v@.len() > 0
                    &&& Seq::new(v@.len(), |k: int| *v@[k]) == rights_of(old(self)@, *left)
                    &&& final(self)@ == with_rights(old(self)@, *left, Seq::new(v@.len(), |k: int| *final(v@[k])))
                },
            },
    {
        let ghost orig = self@;
        let ghost fin = final(self)@;
        let mut out: Vec<&mut R> = Vec::new();
        let mut rest: &mut [(L, R)] = self.pairs.as_mut_slice();
        assert(fin == final(rest)@);
        let ghost mut done: int = 0;
        while rest.len() > 0
            invariant
                obeys_concrete_eq::<L>(),
                0 <= done <= orig.len(),
                rest@ == orig.skip(done),
                Seq::new(out@.len(), |k: int| *out@[k]) == rights_of(orig.take(done), *left),
                fin == with_rights(orig.take(done), *left, Seq::new(out@.len(), |k: int| *final(out@[k]))) + final(rest)@,
            decreases rest@.len(),
        {
            proof {
                lemma_concrete_eq::<L>();
            }
            let ghost out0 = out@;
            let ghost t0 = orig.take(done);
            let ghost t1 = orig.take(done + 1);
            proof {
                assert(t1.drop_last() =~= t0);
                assert(t1.last() == orig[done]);
                assert(rest@[0] == orig[done]);
            }
            let (head, tail) = rest.split_at_mut(1);
            let ghost head_fin = final(head)@;
            let p = head.first_mut().unwrap();
            if p.0 == *left {
                out.push(&mut p.1);
                proof {
                    let now = Seq::new(out@.len(), |k: int| *out@[k]);
                    assert(now.drop_last() =~= Seq::new(out0.len(), |k: int| *out0[k]));
                    let fins = Seq::new(out@.len(), |k: int| *final(out@[k]));
                    assert(fins.drop_last() =~= Seq::new(out0.len(), |k: int| *final(out0[k])));
                    assert(now =~= rights_of(t1, *left));
                    assert(with_rights(t1, *left, fins) + final(tail)@ =~= with_rights(t0, *left, fins.drop_last()) + head_fin + final(tail)@);
                }
            } else {
                proof {
                    let fins = Seq::new(out@.len(), |k: int| *final(out@[k]));
                    assert(with_rights(t1, *left, fins) + final(tail)@ =~= with_rights(t0, *left, fins) + head_fin + final(tail)@);
                }
            }
            rest = tail;
            proof {
                done = done + 1;
                assert(rest@ =~= orig.skip(done));
            }
        }
        proof {
            assert(done == orig.len());
            assert(orig.take(done) =~= orig);
            assert(final(rest)@ =~= Seq::<(L, R)>::empty());
            if out@.len() == 0 {
                lemma_with_rights_none(orig, *left, Seq::new(out@.len(), |k: int| *final(out@[k])));
            }
        }
        if out.len() == 0 {
            return None;
        }
        Some(out)
    }

    /// The lefts of the pairs whose right is `right`, in the pairs' order, open
    /// to writing; `None` when there is none. What is written through them is
    /// what those pairs hold afterwards.
    pub fn get_lefts_mut(&mut self, right: &R) -> (lefts: Option<Vec<&mut L>>)
        where
            R: PartialEq,
        requires
            obeys_concrete_eq::<R>(),
        ensures
            match lefts {
                None => lefts_of(old(self)@, *right).len() == 0 && final(self)@ == old(self)@,
                Some(v) => {
                    &&& v@.len() > 0
                    &&& Seq::new(v@.len(), |k: int| *v@[k]) == lefts_of(old(self)@, *right)
                    &&& final(self)@ == with_lefts(old(self)@, *right, Seq::new(v@.len(), |k: int| *final(v@[k])))
                },
            },
    {
        let ghost orig = self@;
        let ghost fin = final(self)@;
        let mut out: Vec<&mut L> = Vec::new();
        let mut rest: &mut [(L, R)] = self.pairs.as_mut_slice();
        assert(fin == final(rest)@);
        let ghost mut done: int = 0;
        while rest.len() > 0
            invariant
                obeys_concrete_eq::<R>(),
                0 <= done <= orig.len(),
                rest@ == orig.skip(done),
                Seq::new(out@.len(), |k: int| *out@[k]) == lefts_of(orig.take(done), *right),
                fin == with_lefts(orig.take(done), *right, Seq::new(out@.len(), |k: int| *final(out@[k]))) + final(rest)@,
            decreases rest@.len(),
        {
            proof {
                lemma_concrete_eq::<R>();
            }
            let ghost out0 = out@;
            let ghost t0 = orig.take(done);
            let ghost t1 = orig.take(done + 1);
            proof {
                assert(t1.drop_last() =~= t0);
                assert(t1.last() == orig[done]);
                assert(rest@[0] == orig[done]);
            }
            let (head, tail) = rest.split_at_mut(1);
            let ghost head_fin = final(head)@;
            let p = head.first_mut().unwrap();
            if p.1 == *right {
                out.push(&mut p.0);
                proof {
                    let now = Seq::new(out@.len(), |k: int| *out@[k]);
                    assert(now.drop_last() =~= Seq::new(out0.len(), |k: int| *out0[k]));
                    let fins = Seq::new(out@.len(), |k: int| *final(out@[k]));
                    assert(fins.drop_last() =~= Seq::new(out0.len(), |k: int| *final(out0[k])));
                    assert(now =~= lefts_of(t1, *right));
                    assert(with_lefts(t1, *right, fins) + final(tail)@ =~= with_lefts(t0, *right, fins.drop_last()) + head_fin + final(tail)@);
                }
            } else {
                proof {
                    let fins = Seq::new(out@.len(), |k: int| *final(out@[k]));
                    assert(with_lefts(t1, *right, fins) + final(tail)@ =~= with_lefts(t0, *right, fins) + head_fin + final(tail)@);
                }
            }
            rest = tail;
            proof {
                done = done + 1;
                assert(rest@ =~= orig.skip(done));
            }
        }
        proof {
            assert(done == orig.len());
            assert(orig.take(done) =~= orig);
            assert(final(rest)@ =~= Seq::<(L, R)>::empty());
            if out@.len() == 0 {
                lemma_with_lefts_none(orig, *right, Seq::new(out@.len(), |k: int| *final(out@[k])));
            }
        }
        if out.len() == 0 {
            return None;
        }
        Some(out)
    }

    /// Every distinct left, in ascending order; `None` when there is no pair.
    pub fn lefts(&self) -> (lefts: Option<Vec<&L>>)
        where
            L: Ord,
        requires
            total_order::<L>(),
        ensures
            match lefts {
                None => self@.len() == 0,
                Some(v) => {
                    &&& self@.len() > 0
                    &&& strictly_sorted(v@.unref())
                    &&& forall|l: L| #[trigger] v@.unref().contains(l) <==> has_left(self@, l)
                },
            },
    {
        proof {
            lemma_ref_total_order::<L>();
        }
        let mut out: Vec<&L> = Vec::new();
        let mut i: usize = 0;
        while i < self.pairs.len()
            invariant
                total_order::<&L>(),
                i <= self@.len(),
                strictly_sorted(out@),
                forall|l: &L| #[trigger] out@.contains(l) <==> has_left(self@.take(i as int), *l),
            decreases self@.len() - i,
        {
            let ghost before = out@;
            insert_sorted(&mut out, &self.pairs[i].0);
            proof {
                let t = self@.take(i + 1);
                assert forall|l: &L| #[trigger] out@.contains(l) <==> has_left(t, *l) by {
                    if has_left(t, *l) {
                        let k = choose|k: int| 0 <= k < t.len() && (#[trigger] t[k]).0 == *l;
                        if k < i {
                            assert(self@.take(i as int)[k] == t[k]);
                        }
                    }
                    if has_left(self@.take(i as int), *l) {
                        let k = choose|k: int| 0 <= k < i && (#[trigger] self@.take(i as int)[k]).0 == *l;
                        assert(t[k] == self@.take(i as int)[k]);
                    }
                    if *l == self@[i as int].0 {
                        assert(t[i as int].0 == *l);
                    }
                }
            }
            i += 1;
        }
        proof {
            assert(self@.take(i as int) =~= self@);
            lemma_unref(out@);
            if out@.len() > 0 {
                assert(out@.contains(out@[0]));
            }
            if self@.len() > 0 {
                assert(has_left(self@, self@[0].0));
                assert(out@.contains(&self@[0].0));
            }
        }
        if out.is_empty() {
            return None;
        }
        Some(out)
    }

    /// Every distinct right, in ascending order; `None` when there is no pair.
    pub fn rights(&self) -> (rights: Option<Vec<&R>>)
        where
            R: Ord,
        requires
            total_order::<R>(),
        ensures
            match rights {
                None => self@.len() == 0,
                Some(v) => {
                    &&& self@.len() > 0
                    &&& strictly_sorted(v@.unref())
                    &&& forall|r: R| #[trigger] v@.unref().contains(r) <==> has_right(self@, r)
                },
            },
    {
        proof {
            lemma_ref_total_order::<R>();
        }
        let mut out: Vec<&R> = Vec::new();
        let mut i: usize = 0;
        while i < self.pairs.len()
            invariant
                total_order::<&R>(),
                i <= self@.len(),
                strictly_sorted(out@),
                forall|r: &R| #[trigger] out@.contains(r) <==> has_right(self@.take(i as int), *r),
            decreases self@.len() - i,
        {
            insert_sorted(&mut out, &self.pairs[i].1);
            proof {
                let t = self@.take(i + 1);
                assert forall|r: &R| #[trigger] out@.contains(r) <==> has_right(t, *r) by {
                    if has_right(t, *r) {
                        let k = choose|k: int| 0 <= k < t.len() && (#[trigger] t[k]).1 == *r;
                        if k < i {
                            assert(self@.take(i as int)[k] == t[k]);
                        }
                    }
                    if has_right(self@.take(i as int), *r) {
                        let k = choose|k: int| 0 <= k < i && (#[trigger] self@.take(i as int)[k]).1 == *r;
                        assert(t[k] == self@.take(i as int)[k]);
                    }
                    if *r == self@[i as int].1 {
                        assert(t[i as int].1 == *r);
                    }
                }
            }
            i += 1;
        }
        proof {
            assert(self@.take(i as int) =~= self@);
            lemma_unref(out@);
            if out@.len() > 0 {
                assert(out@.contains(out@[0]));
            }
            if self@.len() > 0 {
                assert(has_right(self@, self@[0].1));
                assert(out@.contains(&self@[0].1));
            }
        }
        if out.is_empty() {
            return None;
        }
        Some(out)
    }

    /// Consumes the association and returns every distinct left, in ascending
    /// order; `None` when there was no pair.
    pub fn into_lefts(self) -> (lefts: Option<Vec<L>>)
        where
            L: Ord,
        requires
            total_order::<L>(),
        ensures
            match lefts {
                None => self@.len() == 0,
                Some(v) => {
                    &&& self@.len() > 0
                    &&& strictly_sorted(v@)
                    &&& forall|x: L| #[trigger] v@.contains(x) <==> has_left(self@, x)
                },
            },
    {
        let ghost all = self@;
        let mut rest = self.pairs;
        let mut out: Vec<L> = Vec::new();
        while rest.len() > 0
            invariant
                total_order::<L>(),
                strictly_sorted(out@),
                forall|x: L| #[trigger] has_left(all, x) <==> out@.contains(x) || has_left(rest@, x),
                out@.len() > 0 || all.len() == rest@.len(),
            decreases rest.len(),
        {
            let ghost before = rest@;
            let p = rest.pop().unwrap();
            proof {
                assert(before =~= rest@.push(p));
                assert forall|x: L| #[trigger] has_left(before, x) <==> has_left(rest@, x) || x == p.0 by {
                    if has_left(before, x) && x != p.0 {
                        let k = choose|k: int| 0 <= k < before.len() && (#[trigger] before[k]).0 == x;
                        assert(rest@[k] == before[k]);
                    }
                    if has_left(rest@, x) {
                        let k = choose|k: int| 0 <= k < rest@.len() && (#[trigger] rest@[k]).0 == x;
                        assert(before[k] == rest@[k]);
                    }
                    if x == p.0 {
                        assert(before[before.len() - 1] == p);
                    }
                }
            }
            let (a, b) = p;
            insert_sorted(&mut out, a);
        }
        proof {
            if out@.len() > 0 {
                assert(out@.contains(out@[0]));
                assert(has_left(all, out@[0]));
            }
            if all.len() > 0 {
                assert(has_left(all, all[0].0));
            }
        }
        if out.is_empty() {
            return None;
        }
        Some(out)
    }

    /// Consumes the association and returns every distinct right, in ascending
    /// order; `None` when there was no pair.
    pub fn into_rights(self) -> (rights: Option<Vec<R>>)
        where
            R: Ord,
        requires
            total_order::<R>(),
        ensures
            match rights {
                None => self@.len() == 0,
                Some(v) => {
                    &&& self@.len() > 0
                    &&& strictly_sorted(v@)
                    &&& forall|x: R| #[trigger] v@.contains(x) <==> has_right(self@, x)
                },
            },
    {
        let ghost all = self@;
        let mut rest = self.pairs;
        let mut out: Vec<R> = Vec::new();
        while rest.len() > 0
            invariant
                total_order::<R>(),
                strictly_sorted(out@),
                forall|x: R| #[trigger] has_right(all, x) <==> out@.contains(x) || has_right(rest@, x),
                out@.len() > 0 || all.len() == rest@.len(),
            decreases rest.len(),
        {
            let ghost before = rest@;
            let p = rest.pop().unwrap();
            proof {
                assert(before =~= rest@.push(p));
                assert forall|x: R| #[trigger] has_right(before, x) <==> has_right(rest@, x) || x == p.1 by {
                    if has_right(before, x) && x != p.1 {
                        let k = choose|k: int| 0 <= k < before.len() && (#[trigger] before[k]).1 == x;
                        assert(rest@[k] == before[k]);
                    }
                    if has_right(rest@, x) {
                        let k = choose|k: int| 0 <= k < rest@.len() && (#[trigger] rest@[k]).1 == x;
                        assert(before[k] == rest@[k]);
                    }
                    if x == p.1 {
                        assert(before[before.len() - 1] == p);
                    }
                }
            }
            let (a, b) = p;
            insert_sorted(&mut out, b);
        }
        proof {
            if out@.len() > 0 {
                assert(out@.contains(out@[0]));
                assert(has_right(all, out@[0]));
            }
            if all.len() > 0 {
                assert(has_right(all, all[0].1));
            }
        }
        if out.is_empty() {
            return None;
        }
        Some(out)
    }

    /// Keeps the pairs on which `f` answers `keep_when`, in their order.
    fn keep_where<F: Fn(&(L, R)) -> bool>(&mut self, f: F, keep_when: bool)
        requires
            forall|p: (L, R)| #[trigger] f.requires((&p,)),
        ensures
            exists|keep: Seq<bool>|
                {
                    &&& verdicts(f, old(self)@, keep)
                    &&& final(self)@ == select(old(self)@, if keep_when { keep } else { negated(keep) })
                },
    {
        let ghost orig = self@;
        let ghost mut keep: Seq<bool> = Seq::empty();
        let mut i: usize = 0;
        while i < self.pairs.len()
            invariant
                forall|p: (L, R)| #[trigger] f.requires((&p,)),
                0 <= keep.len() <= orig.len(),
                verdicts(f, orig.take(keep.len() as int), keep),
                self@ == select(orig.take(keep.len() as int), if keep_when { keep } else { negated(keep) }) + orig.skip(keep.len() as int),
                i == select(orig.take(keep.len() as int), if keep_when { keep } else { negated(keep) }).len(),
            decreases self@.len() - i,
        {
            let ghost j = keep.len() as int;
            proof {
                assert(orig.take(j + 1).drop_last() =~= orig.take(j));
                assert(self@[i as int] == orig[j]);
            }
            let b = f(&self.pairs[i]);
            proof {
                let k2 = keep.push(b);
                assert(k2.drop_last() =~= keep);
                assert(negated(k2).drop_last() =~= negated(keep));
                assert(verdicts(f, orig.take(j + 1), k2)) by {
                    assert forall|k: int| 0 <= k < j + 1 implies f.ensures((&orig.take(j + 1)[k],), #[trigger] k2[k]) by {
                        if k < j {
                            assert(orig.take(j + 1)[k] == orig.take(j)[k]);
                        }
                    }
                }
                keep = k2;
            }
            if b == keep_when {
                i += 1;
                proof {
                    assert(self@ =~= select(orig.take(j + 1), if keep_when { keep } else { negated(keep) }) + orig.skip(j + 1));
                }
            } else {
                self.pairs.remove(i);
                proof {
                    assert(self@ =~= select(orig.take(j + 1), if keep_when { keep } else { negated(keep) }) + orig.skip(j + 1));
                }
            }
        }
        proof {
            assert(keep.len() == orig.len()) by {
                if keep.len() < orig.len() {
                    assert(self@.len() > i);
                }
            }
            assert(orig.take(orig.len() as int) =~= orig);
            assert(orig.skip(orig.len() as int) =~= Seq::<(L, R)>::empty());
            assert(self@ =~= select(orig, if keep_when { keep } else { negated(keep) }));
        }
    }

    /// Keeps exactly the pairs on which `f` answers `true`, in their order.
    pub fn retain<F: Fn(&(L, R)) -> bool>(&mut self, f: F)
        requires
            forall|p: (L, R)| #[trigger] f.requires((&p,)),
        ensures
            exists|keep: Seq<bool>|
                verdicts(f, old(self)@, keep) && final(self)@ == select(old(self)@, keep),
    {
        self.keep_where(f, true);
    }

    /// Keeps exactly the pairs on which `f` answers `false`, in their order.
    pub fn reject<F: Fn(&(L, R)) -> bool>(&mut self, f: F)
        requires
            forall|p: (L, R)| #[trigger] f.requires((&p,)),
        ensures
            exists|keep: Seq<bool>|
                verdicts(f, old(self)@, keep) && final(self)@ == select(old(self)@, negated(keep)),
    {
        self.keep_where(f, false);
    }

    /// A new association holding each pair turned round, `(right, left)`, in
    /// ascending order; `self` is left as it is.
    pub fn flip(&self) -> (flipped: M2M<R, L>)
        where
            L: Ord + Clone,
            R: Ord + Clone,
        requires
            total_order::<L>(),
            total_order::<R>(),
            clone_copies::<L>(),
            clone_copies::<R>(),
        ensures
            flipped.wf(),
            forall|p: (R, L)| #[trigger] flipped@.contains(p) <==> self@.contains((p.1, p.0)),
    {
        proof {
            lemma_pair_total_order::<R, L>();
        }
        let mut out: Vec<(R, L)> = Vec::new();
        let mut i: usize = 0;
        while i < self.pairs.len()
            invariant
                total_order::<(R, L)>(),
                clone_copies::<L>(),
                clone_copies::<R>(),
                i <= self@.len(),
                strictly_sorted(out@),
                forall|p: (R, L)| #[trigger] out@.contains(p) <==> self@.take(i as int).contains((p.1, p.0)),
            decreases self@.len() - i,
        {
            let l = self.pairs[i].0.clone();
            let r = self.pairs[i].1.clone();
            assert(strictly_cloned(self@[i as int].0, l) && strictly_cloned(self@[i as int].1, r));
            insert_sorted(&mut out, (r, l));
            proof {
                let t = self@.take(i + 1);
                let u = self@.take(i as int);
                assert forall|p: (R, L)| #[trigger] out@.contains(p) <==> t.contains((p.1, p.0)) by {
                    if t.contains((p.1, p.0)) {
                        let k = choose|k: int| 0 <= k < t.len() && t[k] == (p.1, p.0);
                        if k < i {
                            assert(u[k] == t[k]);
                        }
                    }
                    if u.contains((p.1, p.0)) {
                        let k = choose|k: int| 0 <= k < u.len() && u[k] == (p.1, p.0);
                        assert(t[k] == u[k]);
                    }
                    if p == (r, l) {
                        assert(t[i as int] == (p.1, p.0));
                    }
                }
            }
            i += 1;
        }
        assert(self@.take(i as int) =~= self@);
        M2M { pairs: out }
    }

    /// The pairs, in their order.
    pub fn as_slice(&self) -> (pairs: &[(L, R)])
        ensures
            pairs@ == self@,
    {
        self.pairs.as_slice()
    }

    /// The pairs, in their order, open to writing; what is written there is
    /// what the association holds afterwards.
    pub fn as_mut_slice(&mut self) -> (pairs: &mut [(L, R)])
        ensures
            pairs@ == old(self)@,
            final(pairs)@ == final(self)@,
    {
        self.pairs.as_mut_slice()
    }

    /// An iterator over the pairs, in their order.
    pub fn iter(&self) -> (it: std::slice::Iter<'_, (L, R)>)
        ensures
            it.remaining().unref() == self@,
    {
        self.pairs.as_slice().iter()
    }

    /// An iterator over the pairs, in their order, that may write to them;
    /// their number stays as it is.
    pub fn iter_mut(&mut self) -> (it: std::slice::IterMut<'_, (L, R)>)
        ensures
            final(self)@.len() == old(self)@.len(),
    {
        slice_iter_mut(self.pairs.as_mut_slice())
    }
}

#[verifier::external_type_specification]
#[verifier::external_body]
#[verifier::reject_recursive_types(T)]
pub struct ExIterMut<'a, T: 'a>(std::slice::IterMut<'a, T>);

/// Relies on `<[T]>::iter_mut`: the iterator hands out each element of `s`
/// once, by mutable reference, so it can change elements but not their number.
#[verifier::external_body]
fn slice_iter_mut<'a, T>(s: &'a mut [T]) -> (it: std::slice::IterMut<'a, T>)
    ensures
        final(s)@.len() == old(s)@.len(),
{
    s.iter_mut()
}

} // verus!

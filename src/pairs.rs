//! The mathematical model shared by both containers: a sequence of pairs, and
//! what the queries read from it.
use vstd::prelude::*;

verus! {

/// Some pair of `s` has `l` on its left.
pub open spec fn has_left<L, R>(s: Seq<(L, R)>, l: L) -> bool {
    exists|i: int| 0 <= i < s.len() && (#[trigger] s[i]).0 == l
}

/// Some pair of `s` has `r` on its right.
pub open spec fn has_right<L, R>(s: Seq<(L, R)>, r: R) -> bool {
    exists|i: int| 0 <= i < s.len() && (#[trigger] s[i]).1 == r
}

/// The right components of the pairs of `s` whose left is `l`, in order.
pub open spec fn rights_of<L, R>(s: Seq<(L, R)>, l: L) -> Seq<R>
    decreases s.len(),
{
    if s.len() == 0 {
        Seq::empty()
    } else {
        let rest = rights_of(s.drop_last(), l);
        if s.last().0 == l {
            rest.push(s.last().1)
        } else {
            rest
        }
    }
}

/// The left components of the pairs of `s` whose right is `r`, in order.
pub open spec fn lefts_of<L, R>(s: Seq<(L, R)>, r: R) -> Seq<L>
    decreases s.len(),
{
    if s.len() == 0 {
        Seq::empty()
    } else {
        let rest = lefts_of(s.drop_last(), r);
        if s.last().1 == r {
            rest.push(s.last().0)
        } else {
            rest
        }
    }
}

/// `s` with the rights of its pairs whose left is `l` replaced, in order, by
/// the values of `rs`.
pub open spec fn with_rights<L, R>(s: Seq<(L, R)>, l: L, rs: Seq<R>) -> Seq<(L, R)>
    decreases s.len(),
{
    if s.len() == 0 {
        Seq::empty()
    } else if s.last().0 == l {
        with_rights(s.drop_last(), l, rs.drop_last()).push((l, rs.last()))
    } else {
        with_rights(s.drop_last(), l, rs).push(s.last())
    }
}

/// Where no pair has `l` on its left, replacing the rights of such pairs
/// changes nothing.
pub proof fn lemma_with_rights_none<L, R>(s: Seq<(L, R)>, l: L, rs: Seq<R>)
    requires
        rights_of(s, l).len() == 0,
    ensures
        with_rights(s, l, rs) == s,
    decreases s.len(),
{
    if s.len() > 0 {
        if s.last().0 == l {
            assert(rights_of(s, l).len() > 0);
        }
        lemma_with_rights_none(s.drop_last(), l, rs);
        assert(s =~= s.drop_last().push(s.last()));
    }
}

/// `s` with the lefts of its pairs whose right is `r` replaced, in order, by
/// the values of `ls`.
pub open spec fn with_lefts<L, R>(s: Seq<(L, R)>, r: R, ls: Seq<L>) -> Seq<(L, R)>
    decreases s.len(),
{
    if s.len() == 0 {
        Seq::empty()
    } else if s.last().1 == r {
        with_lefts(s.drop_last(), r, ls.drop_last()).push((ls.last(), r))
    } else {
        with_lefts(s.drop_last(), r, ls).push(s.last())
    }
}

/// Where no pair has `r` on its right, replacing the lefts of such pairs
/// changes nothing.
pub proof fn lemma_with_lefts_none<L, R>(s: Seq<(L, R)>, r: R, ls: Seq<L>)
    requires
        lefts_of(s, r).len() == 0,
    ensures
        with_lefts(s, r, ls) == s,
    decreases s.len(),
{
    if s.len() > 0 {
        if s.last().1 == r {
            assert(lefts_of(s, r).len() > 0);
        }
        lemma_with_lefts_none(s.drop_last(), r, ls);
        assert(s =~= s.drop_last().push(s.last()));
    }
}

/// `s` without the pairs whose left is `l`, the others in their order.
pub open spec fn without_left<L, R>(s: Seq<(L, R)>, l: L) -> Seq<(L, R)>
    decreases s.len(),
{
    if s.len() == 0 {
        Seq::empty()
    } else {
        let rest = without_left(s.drop_last(), l);
        if s.last().0 == l {
            rest
        } else {
            rest.push(s.last())
        }
    }
}

/// The elements of `s` at the positions where `keep` holds, in order.
pub open spec fn select<T>(s: Seq<T>, keep: Seq<bool>) -> Seq<T>
    decreases s.len(),
{
    if s.len() == 0 {
        Seq::empty()
    } else {
        let rest = select(s.drop_last(), keep.drop_last());
        if keep.last() {
            rest.push(s.last())
        } else {
            rest
        }
    }
}

/// `keep[i]` is an answer that `f` may give on the `i`-th pair of `s`.
pub open spec fn verdicts<L, R, F: Fn(&(L, R)) -> bool>(f: F, s: Seq<(L, R)>, keep: Seq<bool>) -> bool {
    &&& keep.len() == s.len()
    &&& forall|i: int| 0 <= i < s.len() ==> f.ensures((&s[i],), #[trigger] keep[i])
}

/// Each answer negated.
pub open spec fn negated(keep: Seq<bool>) -> Seq<bool> {
    keep.map_values(|b: bool| !b)
}

/// `f` gives one answer only on each pair.
pub open spec fn answers_once<L, R, F: Fn(&(L, R)) -> bool>(f: F) -> bool {
    forall|p: (L, R), a: bool, b: bool| #[trigger] f.ensures((&p,), a) && #[trigger] f.ensures((&p,), b) ==> a == b
}

/// `r` is among the rights of `l` exactly when `(l, r)` is a pair of `s`.
pub proof fn lemma_rights_of_members<L, R>(s: Seq<(L, R)>, l: L)
    ensures
        forall|r: R| #[trigger] rights_of(s, l).contains(r) <==> s.contains((l, r)),
    decreases s.len(),
{
    if s.len() > 0 {
        let t = s.drop_last();
        lemma_rights_of_members(t, l);
        assert forall|r: R| #[trigger] rights_of(s, l).contains(r) <==> s.contains((l, r)) by {
            if s.contains((l, r)) {
                let k = choose|k: int| 0 <= k < s.len() && s[k] == (l, r);
                if k < t.len() {
                    assert(t[k] == (l, r));
                    assert(rights_of(t, l).contains(r));
                    let m = choose|m: int| 0 <= m < rights_of(t, l).len() && rights_of(t, l)[m] == r;
                    if s.last().0 == l {
                        assert(rights_of(s, l)[m] == r);
                    }
                } else {
                    assert(rights_of(s, l).last() == r);
                }
            }
            if rights_of(s, l).contains(r) {
                let m = choose|m: int| 0 <= m < rights_of(s, l).len() && rights_of(s, l)[m] == r;
                if m < rights_of(t, l).len() {
                    assert(rights_of(t, l)[m] == r);
                    assert(rights_of(t, l).contains(r));
                    assert(t.contains((l, r)));
                    let k = choose|k: int| 0 <= k < t.len() && t[k] == (l, r);
                    assert(s[k] == (l, r));
                } else {
                    assert(s[s.len() - 1] == (l, r));
                }
            }
        }
    }
}

/// A pair stays in `without_left(s, l)` exactly when it is in `s` and its left
/// is not `l`.
pub proof fn lemma_without_left_members<L, R>(s: Seq<(L, R)>, l: L)
    ensures
        forall|p: (L, R)| #[trigger] without_left(s, l).contains(p) <==> s.contains(p) && p.0 != l,
    decreases s.len(),
{
    if s.len() > 0 {
        let t = s.drop_last();
        lemma_without_left_members(t, l);
        let w = without_left(s, l);
        let v = without_left(t, l);
        assert forall|p: (L, R)| #[trigger] w.contains(p) <==> s.contains(p) && p.0 != l by {
            if s.contains(p) && p.0 != l {
                let k = choose|k: int| 0 <= k < s.len() && s[k] == p;
                if k < t.len() {
                    assert(t[k] == p);
                    assert(v.contains(p));
                    let m = choose|m: int| 0 <= m < v.len() && v[m] == p;
                    assert(w[m] == p);
                } else {
                    assert(w.last() == p);
                }
            }
            if w.contains(p) {
                let m = choose|m: int| 0 <= m < w.len() && w[m] == p;
                if m < v.len() {
                    assert(v[m] == p);
                    assert(v.contains(p));
                    let k = choose|k: int| 0 <= k < t.len() && t[k] == p;
                    assert(s[k] == p);
                } else {
                    assert(s[s.len() - 1] == p);
                }
            }
        }
    }
}

/// `f` answered `true` on each pair that `select` keeps by its answers.
pub proof fn lemma_select_answered_true<L, R, F: Fn(&(L, R)) -> bool>(f: F, s: Seq<(L, R)>, keep: Seq<bool>)
    requires
        verdicts(f, s, keep),
    ensures
        forall|j: int| 0 <= j < select(s, keep).len() ==> f.ensures((&#[trigger] select(s, keep)[j],), true),
    decreases s.len(),
{
    if s.len() > 0 {
        let t = s.drop_last();
        let k = keep.drop_last();
        assert(verdicts(f, t, k)) by {
            assert forall|i: int| 0 <= i < t.len() implies f.ensures((&t[i],), #[trigger] k[i]) by {
                assert(t[i] == s[i] && k[i] == keep[i]);
            }
        }
        lemma_select_answered_true(f, t, k);
        assert forall|j: int| 0 <= j < select(s, keep).len() implies f.ensures((&#[trigger] select(s, keep)[j],), true) by {
            if j < select(t, k).len() {
                assert(select(s, keep)[j] == select(t, k)[j]);
            } else {
                assert(keep.last() && select(s, keep)[j] == s.last());
                assert(f.ensures((&s[s.len() - 1],), keep[s.len() - 1]));
            }
        }
    }
}

/// Keeping every position keeps the whole sequence.
pub proof fn lemma_select_all<T>(s: Seq<T>, keep: Seq<bool>)
    requires
        keep.len() == s.len(),
        forall|i: int| 0 <= i < keep.len() ==> #[trigger] keep[i],
    ensures
        select(s, keep) == s,
    decreases s.len(),
{
    if s.len() > 0 {
        let t = s.drop_last();
        let k = keep.drop_last();
        assert(forall|i: int| 0 <= i < k.len() ==> #[trigger] k[i] == keep[i]);
        lemma_select_all(t, k);
        assert(keep.last() == keep[keep.len() - 1]);
        assert(s =~= t.push(s.last()));
    }
}

/// What `select` keeps was in `s`.
pub proof fn lemma_select_members<T>(s: Seq<T>, keep: Seq<bool>)
    requires
        keep.len() == s.len(),
    ensures
        forall|x: T| #[trigger] select(s, keep).contains(x) ==> s.contains(x),
    decreases s.len(),
{
    if s.len() > 0 {
        let t = s.drop_last();
        let k = keep.drop_last();
        lemma_select_members(t, k);
        assert forall|x: T| #[trigger] select(s, keep).contains(x) implies s.contains(x) by {
            let j = choose|j: int| 0 <= j < select(s, keep).len() && select(s, keep)[j] == x;
            if j < select(t, k).len() {
                assert(select(t, k)[j] == x);
                assert(select(t, k).contains(x));
                let i = choose|i: int| 0 <= i < t.len() && t[i] == x;
                assert(s[i] == x);
            } else {
                assert(s[s.len() - 1] == x);
            }
        }
    }
}

} // verus!

//! What holds of every association and of every run of operations on one,
//! stated over the views that the operations' contracts use.
use vstd::prelude::*;
use crate::m2m::M2M;
use crate::order::{lemma_pair_total_order, lemma_sorted_by_members, lemma_sorted_push, lemma_total_order, lt, strictly_sorted, total_order};
use crate::pairs::{
    answers_once, has_left, has_right, lemma_rights_of_members, lemma_select_all,
    lemma_select_answered_true, lemma_select_members, lemma_without_left_members, negated, rights_of, select, verdicts,
    without_left,
};

verus! {

/// In a well-formed association no pair appears at two positions.
pub proof fn law_pairs_distinct<L: Ord, R: Ord>(m: M2M<L, R>)
    requires
        total_order::<L>(),
        total_order::<R>(),
        m.wf(),
    ensures
        forall|i: int, j: int| 0 <= i < m@.len() && 0 <= j < m@.len() && i != j ==> m@[i] != m@[j],
{
    lemma_pair_total_order::<L, R>();
    lemma_total_order::<(L, R)>();
    assert forall|i: int, j: int| 0 <= i < m@.len() && 0 <= j < m@.len() && i != j implies m@[i] != m@[j] by {
        if i < j {
            assert(lt(m@[i], m@[j]));
        } else {
            assert(lt(m@[j], m@[i]));
        }
    }
}

/// In a well-formed association each pair comes strictly before the next one,
/// by left and then by right.
pub proof fn law_pairs_ascending<L: Ord, R: Ord>(m: M2M<L, R>)
    requires
        m.wf(),
    ensures
        forall|i: int| 0 <= i < m@.len() - 1 ==> lt(#[trigger] m@[i], m@[i + 1]),
{
    assert forall|i: int| 0 <= i < m@.len() - 1 implies lt(#[trigger] m@[i], m@[i + 1]) by {
        assert(lt(m@[i], m@[i + 1]));
    }
}

/// A left is present exactly when some pair with that left is; likewise a
/// right.
pub proof fn law_contains_side<L, R>(s: Seq<(L, R)>, l: L, r: R)
    ensures
        has_left(s, l) <==> exists|x: R| s.contains((l, x)),
        has_right(s, r) <==> exists|x: L| s.contains((x, r)),
{
    if has_left(s, l) {
        let i = choose|i: int| 0 <= i < s.len() && (#[trigger] s[i]).0 == l;
        assert(s.contains((l, s[i].1)));
    }
    if exists|x: R| s.contains((l, x)) {
        let x = choose|x: R| s.contains((l, x));
        let i = choose|i: int| 0 <= i < s.len() && s[i] == (l, x);
        assert(s[i].0 == l);
    }
    if has_right(s, r) {
        let i = choose|i: int| 0 <= i < s.len() && (#[trigger] s[i]).1 == r;
        assert(s.contains((s[i].0, r)));
    }
    if exists|x: L| s.contains((x, r)) {
        let x = choose|x: L| s.contains((x, r));
        let i = choose|i: int| 0 <= i < s.len() && s[i] == (x, r);
        assert(s[i].1 == r);
    }
}

/// After `insert(l, r)` the association contains `(l, r)`.
pub proof fn law_insert_then_contains<L, R>(before: Seq<(L, R)>, after: Seq<(L, R)>, l: L, r: R)
    requires
        forall|p: (L, R)| #[trigger] after.contains(p) <==> before.contains(p) || p == (l, r),
    ensures
        after.contains((l, r)),
{
}

/// After `insert(l, r)`, `remove(&l)` hands back `r` among the rights, and
/// `(l, r)` is gone.
pub proof fn law_insert_then_remove<L, R>(
    before: Seq<(L, R)>,
    after: Seq<(L, R)>,
    l: L,
    r: R,
)
    requires
        forall|p: (L, R)| #[trigger] after.contains(p) <==> before.contains(p) || p == (l, r),
    ensures
        rights_of(after, l).contains(r),
        !without_left(after, l).contains((l, r)),
{
    lemma_rights_of_members(after, l);
    lemma_without_left_members(after, l);
    assert(after.contains((l, r)));
}

/// Building from the same pairs twice gives the same sequence of pairs.
pub proof fn law_from_deterministic<L: Ord, R: Ord>(
    pairs: Seq<(L, R)>,
    first: Seq<(L, R)>,
    second: Seq<(L, R)>,
)
    requires
        total_order::<L>(),
        total_order::<R>(),
        strictly_sorted(first),
        forall|p: (L, R)| #[trigger] first.contains(p) <==> pairs.contains(p),
        strictly_sorted(second),
        forall|p: (L, R)| #[trigger] second.contains(p) <==> pairs.contains(p),
    ensures
        first == second,
{
    lemma_pair_total_order::<L, R>();
    lemma_sorted_by_members(first, second);
}

/// Building from no pairs gives none; from a pair twice, that pair once.
pub proof fn law_from_dedups<L: Ord, R: Ord>(empty: Seq<(L, R)>, once: Seq<(L, R)>, p: (L, R))
    requires
        total_order::<L>(),
        total_order::<R>(),
        forall|q: (L, R)| #[trigger] empty.contains(q) <==> Seq::<(L, R)>::empty().contains(q),
        strictly_sorted(once),
        forall|q: (L, R)| #[trigger] once.contains(q) <==> seq![p, p].contains(q),
    ensures
        empty.len() == 0,
        once == seq![p],
{
    lemma_pair_total_order::<L, R>();
    if empty.len() > 0 {
        assert(empty.contains(empty[0]));
    }
    assert forall|q: (L, R)| #[trigger] once.contains(q) <==> seq![p].contains(q) by {
        if seq![p, p].contains(q) {
            assert(q == p);
        }
        if q == p {
            assert(seq![p, p][0] == q);
            assert(seq![p][0] == q);
        }
    }
    lemma_sorted_by_members(once, seq![p]);
}

/// Flipping twice gives back the same pairs; a well-formed association comes
/// back exactly.
pub proof fn law_flip_twice<L: Ord, R: Ord>(
    orig: Seq<(L, R)>,
    flipped: Seq<(R, L)>,
    back: Seq<(L, R)>,
)
    requires
        total_order::<L>(),
        total_order::<R>(),
        forall|p: (R, L)| #[trigger] flipped.contains(p) <==> orig.contains((p.1, p.0)),
        strictly_sorted(back),
        forall|p: (L, R)| #[trigger] back.contains(p) <==> flipped.contains((p.1, p.0)),
    ensures
        forall|p: (L, R)| #[trigger] back.contains(p) <==> orig.contains(p),
        strictly_sorted(orig) ==> back == orig,
{
    assert forall|p: (L, R)| #[trigger] back.contains(p) <==> orig.contains(p) by {
        assert(flipped.contains((p.1, p.0)) <==> orig.contains(((p.1, p.0).1, (p.1, p.0).0)));
        assert(((p.1, p.0).1, (p.1, p.0).0) == p);
    }
    if strictly_sorted(orig) {
        lemma_pair_total_order::<L, R>();
        lemma_sorted_by_members(back, orig);
    }
}

/// Inserting a pair a second time reports `false` and leaves the pairs as
/// they were.
pub proof fn law_insert_twice<L, R>(
    before: Seq<(L, R)>,
    once: Seq<(L, R)>,
    twice: Seq<(L, R)>,
    l: L,
    r: R,
    inserted_again: bool,
)
    requires
        forall|p: (L, R)| #[trigger] once.contains(p) <==> before.contains(p) || p == (l, r),
        inserted_again == !once.contains((l, r)),
        !inserted_again ==> twice == once,
    ensures
        !inserted_again,
        twice == once,
        twice.len() == once.len(),
{
    assert(once.contains((l, r)));
}

/// Retaining by the same predicate twice keeps what the first pass kept.
pub proof fn law_retain_twice<L, R, F: Fn(&(L, R)) -> bool>(
    f: F,
    s: Seq<(L, R)>,
    first: Seq<bool>,
    second: Seq<bool>,
)
    requires
        answers_once(f),
        verdicts(f, s, first),
        verdicts(f, select(s, first), second),
    ensures
        select(select(s, first), second) == select(s, first),
{
    let t = select(s, first);
    lemma_select_answered_true(f, s, first);
    assert forall|i: int| 0 <= i < second.len() implies #[trigger] second[i] by {
        assert(f.ensures((&t[i],), true));
        assert(f.ensures((&t[i],), second[i]));
    }
    lemma_select_all(t, second);
}

/// Retaining by `f` keeps the same pairs as rejecting by its negation `g`.
pub proof fn law_retain_is_reject_of_negation<L, R, F: Fn(&(L, R)) -> bool, G: Fn(&(L, R)) -> bool>(
    f: F,
    g: G,
    s: Seq<(L, R)>,
    by_f: Seq<bool>,
    by_g: Seq<bool>,
)
    requires
        answers_once(f),
        forall|p: (L, R), b: bool| #[trigger] g.ensures((&p,), b) <==> f.ensures((&p,), !b),
        verdicts(f, s, by_f),
        verdicts(g, s, by_g),
    ensures
        select(s, by_f) == select(s, negated(by_g)),
{
    assert forall|i: int| 0 <= i < s.len() implies #[trigger] by_f[i] == negated(by_g)[i] by {
        assert(g.ensures((&s[i],), by_g[i]));
        assert(f.ensures((&s[i],), !by_g[i]));
        assert(f.ensures((&s[i],), by_f[i]));
    }
    assert(by_f =~= negated(by_g));
}

/// `remove` on an association with no pairs finds nothing and changes nothing.
pub proof fn law_remove_on_empty<L, R>(l: L)
    ensures
        rights_of(Seq::<(L, R)>::empty(), l).len() == 0,
        without_left(Seq::<(L, R)>::empty(), l) == Seq::<(L, R)>::empty(),
{
}

/// Removing the pairs of a left, or those that `retain` or `reject` drop,
/// leaves a strictly ascending sequence of pairs strictly ascending.
pub proof fn law_dropping_keeps_order<L: Ord, R: Ord>(s: Seq<(L, R)>, l: L, keep: Seq<bool>)
    requires
        strictly_sorted(s),
        keep.len() == s.len(),
    ensures
        strictly_sorted(without_left(s, l)),
        strictly_sorted(select(s, keep)),
    decreases s.len(),
{
    if s.len() > 0 {
        let t = s.drop_last();
        let k = keep.drop_last();
        assert(strictly_sorted(t)) by {
            assert forall|i: int, j: int| 0 <= i < j < t.len() implies lt(#[trigger] t[i], #[trigger] t[j]) by {
                assert(t[i] == s[i] && t[j] == s[j]);
            }
        }
        law_dropping_keeps_order(t, l, k);
        assert forall|y: (L, R)| #[trigger] t.contains(y) implies lt(y, s.last()) by {
            let i = choose|i: int| 0 <= i < t.len() && t[i] == y;
            assert(s[i] == y);
        }
        lemma_without_left_members(t, l);
        lemma_select_members(t, k);
        if s.last().0 != l {
            lemma_sorted_push(without_left(t, l), s.last());
        }
        if keep.last() {
            lemma_select_members(t, k);
            lemma_sorted_push(select(t, k), s.last());
        }
    }
}

} // verus!

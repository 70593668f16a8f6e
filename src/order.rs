//! Total orders on element types, and strictly ascending sequences.
//!
//! The containers ask of their element types that `==` be equality of values
//! and that `cmp` be a total order agreeing with it (`total_order`); vstd
//! proves both for the integer types, and for references and tuples of such
//! types.
use vstd::laws_cmp::obeys_cmp;
use vstd::laws_eq::obeys_concrete_eq;
use vstd::pervasive::strictly_cloned;
use vstd::prelude::*;
use vstd::std_specs::cmp::{OrdSpec, PartialEqSpec, PartialOrdSpec};
use core::cmp::Ordering;

verus! {

/// `==` and `cmp` on `T` behave lawfully: `==` is equality of values, and
/// `cmp` is a total order whose `Equal` case is that equality.
pub open spec fn total_order<T: Ord>() -> bool {
    &&& obeys_cmp::<T>()
    &&& obeys_concrete_eq::<T>()
}

/// `clone` on `T` gives back the value it was called on.
pub open spec fn clone_copies<T: Clone>() -> bool {
    forall|a: T, b: T| #[trigger] strictly_cloned(a, b) ==> a == b
}

/// `a` comes strictly before `b` in `T`'s order.
pub open spec fn lt<T: Ord>(a: T, b: T) -> bool {
    a.cmp_spec(&b) == Ordering::Less
}

/// Every element of `s` comes strictly before each later one.
pub open spec fn strictly_sorted<T: Ord>(s: Seq<T>) -> bool {
    forall|i: int, j: int| 0 <= i < j < s.len() ==> lt(#[trigger] s[i], #[trigger] s[j])
}

/// The laws of a total order, stated over `lt` and `cmp_spec`.
pub proof fn lemma_total_order<T: Ord>()
    requires
        total_order::<T>(),
    ensures
        T::obeys_cmp_spec(),
        T::obeys_eq_spec(),
        forall|a: T, b: T| #[trigger] a.eq_spec(&b) <==> a == b,
        forall|a: T, b: T| #[trigger] a.cmp_spec(&b) == Ordering::Equal <==> a == b,
        forall|a: T, b: T| #[trigger] a.cmp_spec(&b) == Ordering::Greater <==> lt(b, a),
        forall|a: T| !lt(a, a),
        forall|a: T, b: T, c: T| lt(a, b) && #[trigger] lt(b, c) ==> #[trigger] lt(a, c),
        forall|a: T, b: T| a != b ==> lt(a, b) || #[trigger] lt(b, a),
{
    reveal(vstd::laws_eq::obeys_eq_spec_properties);
    reveal(vstd::laws_cmp::obeys_partial_cmp_spec_properties);
    reveal(vstd::laws_cmp::obeys_cmp_partial_ord);
    reveal(vstd::laws_cmp::obeys_cmp_ord);
    reveal(obeys_concrete_eq);
    assert forall|a: T, b: T| #[trigger] a.cmp_spec(&b) == Ordering::Greater <==> lt(b, a) by {
        assert(a.partial_cmp_spec(&b) == Some(a.cmp_spec(&b)));
        assert(b.partial_cmp_spec(&a) == Some(b.cmp_spec(&a)));
    }
    assert forall|a: T, b: T, c: T| lt(a, b) && #[trigger] lt(b, c) implies #[trigger] lt(a, c) by {
        assert(a.partial_cmp_spec(&b) == Some(a.cmp_spec(&b)));
        assert(b.partial_cmp_spec(&c) == Some(b.cmp_spec(&c)));
        assert(a.partial_cmp_spec(&c) == Some(a.cmp_spec(&c)));
    }
    assert forall|a: T, b: T| #[trigger] a.cmp_spec(&b) == Ordering::Equal <==> a == b by {
        assert(a.partial_cmp_spec(&b) == Some(a.cmp_spec(&b)));
    }
    assert forall|a: T| !lt(a, a) by {
        assert(a.partial_cmp_spec(&a) == Some(a.cmp_spec(&a)));
        assert(a.eq_spec(&a));
    }
}

/// `==` on `T` is equality of values.
pub proof fn lemma_concrete_eq<T: PartialEq>()
    requires
        obeys_concrete_eq::<T>(),
    ensures
        T::obeys_eq_spec(),
        forall|a: T, b: T| #[trigger] a.eq_spec(&b) <==> a == b,
{
    reveal(obeys_concrete_eq);
}

/// A sequence of references read as the values they point to: the same members,
/// in the same order.
pub proof fn lemma_unref<T: Ord>(s: Seq<&T>)
    ensures
        forall|x: T| #[trigger] s.unref().contains(x) <==> s.contains(&x),
        strictly_sorted(s) <==> strictly_sorted(s.unref()),
{
    assert forall|x: T| #[trigger] s.unref().contains(x) <==> s.contains(&x) by {
        if s.unref().contains(x) {
            let k = choose|k: int| 0 <= k < s.unref().len() && s.unref()[k] == x;
            assert(s[k] == &x);
        }
        if s.contains(&x) {
            let k = choose|k: int| 0 <= k < s.len() && s[k] == &x;
            assert(s.unref()[k] == x);
        }
    }
    if strictly_sorted(s) {
        assert forall|i: int, j: int| 0 <= i < j < s.unref().len() implies lt(#[trigger] s.unref()[i], #[trigger] s.unref()[j]) by {
            assert(lt(s[i], s[j]));
        }
    }
    if strictly_sorted(s.unref()) {
        assert forall|i: int, j: int| 0 <= i < j < s.len() implies lt(#[trigger] s[i], #[trigger] s[j]) by {
            assert(lt(s.unref()[i], s.unref()[j]));
        }
    }
}

/// Pairs ordered by their left component, then by their right one, as `(L, R)`
/// orders them.
pub proof fn lemma_pair_total_order<L: Ord, R: Ord>()
    requires
        total_order::<L>(),
        total_order::<R>(),
    ensures
        total_order::<(L, R)>(),
{
    broadcast use vstd::laws_cmp::group_laws_cmp;
    reveal(obeys_concrete_eq);
    assert(obeys_cmp::<(L, R)>());
}

/// References compare as the values they point to.
pub proof fn lemma_ref_total_order<T: Ord>()
    requires
        total_order::<T>(),
    ensures
        total_order::<&T>(),
{
    broadcast use vstd::laws_cmp::group_laws_cmp;
    reveal(obeys_concrete_eq);
    assert(obeys_cmp::<&T>());
}

/// Where `x` stands in the strictly ascending `v`: `Ok` with its index when it
/// is there, else `Err` with the index at which it would go.
pub fn search<T: Ord>(v: &[T], x: &T) -> (r: Result<usize, usize>)
    requires
        total_order::<T>(),
        strictly_sorted(v@),
    ensures
        match r {
            Ok(i) => i < v@.len() && v@[i as int] == *x,
            Err(i) => {
                &&& i <= v@.len()
                &&& forall|k: int| 0 <= k < i ==> lt(#[trigger] v@[k], *x)
                &&& forall|k: int| i <= k < v@.len() ==> lt(*x, #[trigger] v@[k])
            },
        },
{
    proof {
        lemma_total_order::<T>();
    }
    let mut lo: usize = 0;
    let mut hi: usize = v.len();
    while lo < hi
        invariant
            total_order::<T>(),
            strictly_sorted(v@),
            lo <= hi <= v@.len(),
            forall|k: int| 0 <= k < lo ==> lt(#[trigger] v@[k], *x),
            forall|k: int| hi <= k < v@.len() ==> lt(*x, #[trigger] v@[k]),
        decreases hi - lo,
    {
        proof {
            lemma_total_order::<T>();
        }
        let mid: usize = lo + (hi - lo) / 2;
        match x.cmp(&v[mid]) {
            Ordering::Equal => {
                return Ok(mid);
            },
            Ordering::Less => {
                hi = mid;
            },
            Ordering::Greater => {
                lo = mid + 1;
            },
        }
    }
    Err(lo)
}

/// Puts `x` into the strictly ascending `v` where it belongs, unless it is
/// already there; returns whether it was put in.
pub fn insert_sorted<T: Ord>(v: &mut Vec<T>, x: T) -> (inserted: bool)
    requires
        total_order::<T>(),
        strictly_sorted(old(v)@),
    ensures
        inserted == !old(v)@.contains(x),
        strictly_sorted(final(v)@),
        forall|y: T| #[trigger] final(v)@.contains(y) <==> old(v)@.contains(y) || y == x,
        final(v)@.len() == old(v)@.len() + if inserted { 1int } else { 0int },
        !inserted ==> final(v)@ == old(v)@,
{
    proof {
        lemma_total_order::<T>();
    }
    match search(v.as_slice(), &x) {
        Ok(_) => false,
        Err(i) => {
            let ghost old_v = v@;
            v.insert(i, x);
            assert forall|y: T| #[trigger] v@.contains(y) <==> old_v.contains(y) || y == x by {
                if v@.contains(y) {
                    let k = choose|k: int| 0 <= k < v@.len() && v@[k] == y;
                    if k < i {
                        assert(old_v[k] == y);
                    } else if k > i {
                        assert(old_v[k - 1] == y);
                    }
                }
                if old_v.contains(y) {
                    let k = choose|k: int| 0 <= k < old_v.len() && old_v[k] == y;
                    if k < i {
                        assert(v@[k] == y);
                    } else {
                        assert(v@[k + 1] == y);
                    }
                }
                if y == x {
                    assert(v@[i as int] == y);
                }
            }
            assert(!old_v.contains(x)) by {
                if old_v.contains(x) {
                    let k = choose|k: int| 0 <= k < old_v.len() && old_v[k] == x;
                    if k < i {
                        assert(lt(old_v[k], x));
                    } else {
                        assert(lt(x, old_v[k]));
                    }
                }
            }
            assert(strictly_sorted(v@)) by {
                assert forall|a: int, b: int| 0 <= a < b < v@.len() implies lt(#[trigger] v@[a], #[trigger] v@[b]) by {
                    if b < i {
                        assert(v@[a] == old_v[a] && v@[b] == old_v[b]);
                    } else if b == i {
                        assert(v@[a] == old_v[a]);
                    } else if a < i {
                        assert(v@[a] == old_v[a] && v@[b] == old_v[b - 1]);
                        assert(lt(x, old_v[b - 1]));
                    } else if a == i {
                        assert(v@[b] == old_v[b - 1]);
                    } else {
                        assert(v@[a] == old_v[a - 1] && v@[b] == old_v[b - 1]);
                    }
                }
            }
            true
        },
    }
}

/// A strictly ascending sequence is fixed by its members: two of them that
/// hold the same values are equal.
pub proof fn lemma_sorted_by_members<T: Ord>(a: Seq<T>, b: Seq<T>)
    requires
        total_order::<T>(),
        strictly_sorted(a),
        strictly_sorted(b),
        forall|x: T| #[trigger] a.contains(x) <==> b.contains(x),
    ensures
        a == b,
    decreases a.len() + b.len(),
{
    lemma_total_order::<T>();
    if a.len() == 0 || b.len() == 0 {
        if a.len() > 0 {
            assert(a.contains(a[0]));
            assert(b.contains(a[0]));
        }
        if b.len() > 0 {
            assert(b.contains(b[0]));
            assert(a.contains(b[0]));
        }
        assert(a =~= b);
    } else {
        assert(a.contains(a[0]) && b.contains(b[0]));
        assert(b.contains(a[0]) && a.contains(b[0]));
        let i = choose|i: int| 0 <= i < b.len() && b[i] == a[0];
        let j = choose|j: int| 0 <= j < a.len() && a[j] == b[0];
        if i > 0 {
            assert(lt(b[0], b[i]));
            if j > 0 {
                assert(lt(a[0], a[j]));
            }
        }
        assert(a[0] == b[0]);
        let a1 = a.drop_first();
        let b1 = b.drop_first();
        assert forall|x: T| #[trigger] a1.contains(x) <==> b1.contains(x) by {
            if a1.contains(x) {
                let k = choose|k: int| 0 <= k < a1.len() && a1[k] == x;
                assert(a[k + 1] == x);
                assert(lt(a[0], a[k + 1]));
                assert(a.contains(x));
                assert(b.contains(x));
                let m = choose|m: int| 0 <= m < b.len() && b[m] == x;
                assert(m != 0);
                assert(b1[m - 1] == x);
            }
            if b1.contains(x) {
                let k = choose|k: int| 0 <= k < b1.len() && b1[k] == x;
                assert(b[k + 1] == x);
                assert(lt(b[0], b[k + 1]));
                assert(b.contains(x));
                assert(a.contains(x));
                let m = choose|m: int| 0 <= m < a.len() && a[m] == x;
                assert(m != 0);
                assert(a1[m - 1] == x);
            }
        }
        assert(strictly_sorted(a1)) by {
            assert forall|p: int, q: int| 0 <= p < q < a1.len() implies lt(#[trigger] a1[p], #[trigger] a1[q]) by {
                assert(a1[p] == a[p + 1] && a1[q] == a[q + 1]);
            }
        }
        assert(strictly_sorted(b1)) by {
            assert forall|p: int, q: int| 0 <= p < q < b1.len() implies lt(#[trigger] b1[p], #[trigger] b1[q]) by {
                assert(b1[p] == b[p + 1] && b1[q] == b[q + 1]);
            }
        }
        lemma_sorted_by_members(a1, b1);
        assert(a =~= seq![a[0]] + a1);
        assert(b =~= seq![b[0]] + b1);
    }
}

/// Appending an element above all the others keeps a sequence strictly
/// ascending.
pub proof fn lemma_sorted_push<T: Ord>(a: Seq<T>, x: T)
    requires
        strictly_sorted(a),
        forall|y: T| #[trigger] a.contains(y) ==> lt(y, x),
    ensures
        strictly_sorted(a.push(x)),
{
    let b = a.push(x);
    assert forall|i: int, j: int| 0 <= i < j < b.len() implies lt(#[trigger] b[i], #[trigger] b[j]) by {
        assert(b[i] == a[i]);
        if j < a.len() {
            assert(b[j] == a[j]);
        } else {
            assert(a.contains(a[i]));
        }
    }
}

} // verus!

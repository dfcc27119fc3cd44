//! Totally ordered keys, sorted sequences of them, and the lower bound of a
//! key in a sequence.

use vstd::prelude::*;
use core::cmp::Ordering;
use vstd::std_specs::cmp::{OrdSpec, PartialEqSpec, PartialOrdSpec};

verus! {

/// The comparisons of `T` follow their specification and form a total order.
pub open spec fn total_order<T: Ord>() -> bool {
    vstd::laws_cmp::obeys_cmp::<T>()
}

/// `a` is strictly below `b`.
pub open spec fn lt<T: Ord>(a: T, b: T) -> bool {
    a.partial_cmp_spec(&b) == Some(Ordering::Less)
}

/// `a` is not above `b`.
pub open spec fn le<T: Ord>(a: T, b: T) -> bool {
    !lt(b, a)
}

/// What the proofs use of a total order: the executable `<` computes `lt`,
/// which is asymmetric and whose complement is transitive.
pub open spec fn order_laws<T: Ord>() -> bool {
    &&& T::obeys_partial_cmp_spec()
    &&& forall|a: T, b: T| #[trigger] lt(a, b) ==> !lt(b, a)
    &&& forall|a: T, b: T, c: T| !(#[trigger] lt(a, b)) && !(#[trigger] lt(b, c)) ==> !lt(a, c)
}

/// A total order has the order laws.
pub proof fn lemma_order_laws<T: Ord>()
    requires
        total_order::<T>(),
    ensures
        order_laws::<T>(),
{
    reveal(vstd::laws_eq::obeys_eq_spec_properties);
    reveal(vstd::laws_cmp::obeys_partial_cmp_spec_properties);
    reveal(vstd::laws_cmp::obeys_cmp_partial_ord);
    reveal(vstd::laws_cmp::obeys_cmp_ord);
    assert forall|a: T, b: T| #[trigger] lt(a, b) implies !lt(b, a) by {
        assert(b.partial_cmp_spec(&a) == Some(Ordering::Greater));
    }
    assert forall|a: T, b: T, c: T| !(#[trigger] lt(a, b)) && !(#[trigger] lt(b, c)) implies !lt(
        a,
        c,
    ) by {
        if lt(a, c) {
            let ab = a.cmp_spec(&b);
            let bc = b.cmp_spec(&c);
            assert(a.partial_cmp_spec(&b) == Some(ab));
            assert(b.partial_cmp_spec(&c) == Some(bc));
            assert(c.partial_cmp_spec(&a) == Some(Ordering::Greater));
            if ab == Ordering::Equal {
                assert(a.eq_spec(&b));
                if bc == Ordering::Equal {
                    assert(b.eq_spec(&c));
                    assert(a.eq_spec(&c));
                    assert(false);
                } else {
                    // b > c, c > a, so b > a
                    assert(bc == Ordering::Greater);
                    assert(b.partial_cmp_spec(&a) == Some(Ordering::Greater));
                    assert(a.partial_cmp_spec(&b) == Some(Ordering::Less));
                    assert(false);
                }
            } else {
                // a > b
                assert(ab == Ordering::Greater);
                if bc == Ordering::Equal {
                    // c > a, a > b, so c > b
                    assert(c.partial_cmp_spec(&b) == Some(Ordering::Greater));
                    assert(b.partial_cmp_spec(&c) == Some(Ordering::Less));
                    assert(false);
                } else {
                    assert(bc == Ordering::Greater);
                    assert(a.partial_cmp_spec(&c) == Some(Ordering::Greater));
                    assert(false);
                }
            }
        }
    }
}

/// `a` is in non-decreasing order.
pub open spec fn sorted<T: Ord>(a: Seq<T>) -> bool {
    forall|i: int, j: int| 0 <= i <= j < a.len() ==> le(a[i], a[j])
}

/// The lower bound of `q` in `a`: how many elements of `a` are strictly
/// below `q`.
pub open spec fn lower_bound<T: Ord>(a: Seq<T>, q: T) -> nat
    decreases a.len(),
{
    if a.len() == 0 {
        0
    } else {
        lower_bound(a.drop_last(), q) + if lt(a.last(), q) { 1nat } else { 0nat }
    }
}

/// `c` is a boundary of `q` in `a`: the slot just before it, if any, holds a
/// key below `q`, and the slot at it, if any, holds a key that is not.
pub open spec fn is_boundary<T: Ord>(a: Seq<T>, q: T, c: int) -> bool {
    &&& 0 <= c <= a.len()
    &&& c >= 1 ==> lt(a[c - 1], q)
    &&& c < a.len() ==> le(q, a[c])
}

/// A position that has only smaller keys before it and none from it on is the
/// lower bound, whether or not the sequence is sorted.
pub proof fn lemma_split_is_lower_bound<T: Ord>(a: Seq<T>, q: T, c: int)
    requires
        0 <= c <= a.len(),
        forall|i: int| 0 <= i < c ==> lt(a[i], q),
        forall|i: int| c <= i < a.len() ==> le(q, a[i]),
    ensures
        lower_bound(a, q) == c,
    decreases a.len(),
{
    if a.len() > 0 {
        let b = a.drop_last();
        if c == a.len() {
            lemma_split_is_lower_bound(b, q, c - 1);
        } else {
            lemma_split_is_lower_bound(b, q, c);
        }
    }
}

/// In a sorted sequence a boundary is the lower bound.
pub proof fn lemma_boundary_is_lower_bound<T: Ord>(a: Seq<T>, q: T, c: int)
    requires
        order_laws::<T>(),
        sorted(a),
        is_boundary(a, q, c),
    ensures
        lower_bound(a, q) == c,
{
    assert forall|i: int| 0 <= i < c implies lt(a[i], q) by {
        assert(le(a[i], a[c - 1]));
    }
    assert forall|i: int| c <= i < a.len() implies le(q, a[i]) by {
        assert(le(a[c], a[i]));
    }
    lemma_split_is_lower_bound(a, q, c);
}

/// In a sorted sequence the lower bound splits the keys: those before it are
/// below `q`, those from it on are not.
pub proof fn lemma_lower_bound_splits<T: Ord>(a: Seq<T>, q: T)
    requires
        order_laws::<T>(),
        sorted(a),
    ensures
        lower_bound(a, q) <= a.len(),
        forall|i: int| 0 <= i < lower_bound(a, q) ==> lt(a[i], q),
        forall|i: int| lower_bound(a, q) <= i < a.len() ==> le(q, a[i]),
    decreases a.len(),
{
    if a.len() > 0 {
        let b = a.drop_last();
        assert(sorted(b)) by {
            assert forall|i: int, j: int| 0 <= i <= j < b.len() implies le(b[i], b[j]) by {
                assert(le(a[i], a[j]));
            }
        }
        lemma_lower_bound_splits(b, q);
        if lt(a.last(), q) {
            assert forall|i: int| 0 <= i < b.len() implies lt(b[i], q) by {
                assert(le(a[i], a.last()));
            }
            lemma_split_is_lower_bound(b, q, b.len() as int);
            assert forall|i: int| 0 <= i < lower_bound(a, q) implies lt(a[i], q) by {
                assert(le(a[i], a.last()));
            }
        } else {
            assert forall|i: int| 0 <= i < lower_bound(a, q) implies lt(a[i], q) by {
                assert(a[i] == b[i]);
            }
            assert forall|i: int| lower_bound(a, q) <= i < a.len() implies le(q, a[i]) by {
                if i < b.len() {
                    assert(a[i] == b[i]);
                }
            }
        }
    }
}

/// A key that is not above any element has lower bound 0.
pub proof fn lemma_lower_bound_of_low_key<T: Ord>(a: Seq<T>, q: T)
    requires
        forall|i: int| 0 <= i < a.len() ==> le(q, a[i]),
    ensures
        lower_bound(a, q) == 0,
{
    lemma_split_is_lower_bound(a, q, 0);
}

/// A key above every element has the length as its lower bound.
pub proof fn lemma_lower_bound_of_high_key<T: Ord>(a: Seq<T>, q: T)
    requires
        forall|i: int| 0 <= i < a.len() ==> lt(a[i], q),
    ensures
        lower_bound(a, q) == a.len(),
{
    lemma_split_is_lower_bound(a, q, a.len() as int);
}

} // verus!

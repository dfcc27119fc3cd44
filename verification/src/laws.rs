//! Properties that relate the operations of the index to one another.

use vstd::prelude::*;
use crate::order::{
    le,
    lt,
    lower_bound,
    lemma_lower_bound_of_high_key,
    lemma_lower_bound_of_low_key,
    lemma_lower_bound_splits,
};
use crate::simple::FractionalCascade;

verus! {

/// Agreement: what the cascaded query returns is what the reference query
/// returns. `fast` stands for a result of `bisect_left`, `naive` for one of
/// `bisect_left_naive`, both for the key `q`.
pub proof fn law_agreement<T: Copy + Ord>(c: &FractionalCascade<T>, q: T, fast: Seq<usize>, naive: Seq<usize>)
    requires
        c.wf(),
        c.is_answer(q, fast),
        c.is_answer(q, naive),
    ensures
        fast == naive,
{
    assert forall|i: int| 0 <= i < fast.len() implies fast[i] == naive[i] by {
        assert(fast[i] as nat == lower_bound(c@[i], q));
        assert(naive[i] as nat == lower_bound(c@[i], q));
    }
    assert(fast =~= naive);
}

/// Stability: two queries for the same key return the same indices, however
/// many queries were made in between.
pub proof fn law_stability<T: Copy + Ord>(c: &FractionalCascade<T>, q: T, first: Seq<usize>, second: Seq<usize>)
    requires
        c.wf(),
        c.is_answer(q, first),
        c.is_answer(q, second),
    ensures
        first == second,
{
    law_agreement(c, q, first, second);
}

/// Boundary value below: for a key strictly below every key of every list,
/// every index of the answer is 0.
pub proof fn law_below_all<T: Copy + Ord>(c: &FractionalCascade<T>, q: T, out: Seq<usize>)
    requires
        c.wf(),
        c.is_answer(q, out),
        forall|i: int, j: int| 0 <= i < c@.len() && 0 <= j < c@[i].len() ==> lt(q, #[trigger] c@[i][j]),
    ensures
        forall|i: int| 0 <= i < out.len() ==> #[trigger] out[i] == 0,
{
    c.lemma_lists_sorted();
    assert forall|i: int| 0 <= i < out.len() implies #[trigger] out[i] == 0 by {
        assert forall|j: int| 0 <= j < c@[i].len() implies le(q, c@[i][j]) by {
            assert(lt(q, c@[i][j]));
        }
        lemma_lower_bound_of_low_key(c@[i], q);
    }
}

/// Boundary value above: for a key strictly above every key of every list,
/// each index of the answer is the length of its list.
pub proof fn law_above_all<T: Copy + Ord>(c: &FractionalCascade<T>, q: T, out: Seq<usize>)
    requires
        c.wf(),
        c.is_answer(q, out),
        forall|i: int, j: int| 0 <= i < c@.len() && 0 <= j < c@[i].len() ==> lt(#[trigger] c@[i][j], q),
    ensures
        forall|i: int| 0 <= i < out.len() ==> #[trigger] out[i] == c@[i].len(),
{
    assert forall|i: int| 0 <= i < out.len() implies #[trigger] out[i] == c@[i].len() by {
        lemma_lower_bound_of_high_key(c@[i], q);
    }
}

/// Prefix invariant: each index of the answer splits its list into the keys
/// strictly below the queried key and the keys that are not.
pub proof fn law_prefix<T: Copy + Ord>(c: &FractionalCascade<T>, q: T, out: Seq<usize>)
    requires
        c.wf(),
        c.is_answer(q, out),
    ensures
        forall|i: int| 0 <= i < out.len() ==> #[trigger] out[i] <= c@[i].len(),
        forall|i: int, j: int| 0 <= i < out.len() && 0 <= j < out[i] ==> lt(#[trigger] c@[i][j], q),
        forall|i: int, j: int|
            0 <= i < out.len() && out[i] <= j < c@[i].len() ==> le(q, #[trigger] c@[i][j]),
{
    c.lemma_lists_sorted();
    assert forall|i: int| 0 <= i < out.len() implies #[trigger] out[i] <= c@[i].len() by {
        lemma_lower_bound_splits(c@[i], q);
    }
    assert forall|i: int, j: int| 0 <= i < out.len() && 0 <= j < out[i] implies lt(
        #[trigger] c@[i][j],
        q,
    ) by {
        lemma_lower_bound_splits(c@[i], q);
    }
    assert forall|i: int, j: int| 0 <= i < out.len() && out[i] <= j < c@[i].len() implies le(
        q,
        #[trigger] c@[i][j],
    ) by {
        lemma_lower_bound_splits(c@[i], q);
    }
}

} // verus!

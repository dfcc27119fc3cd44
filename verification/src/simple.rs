//! The fractional cascading index and the binary search that it rests on.

use vstd::prelude::*;
use crate::order::{
    is_boundary, le, lemma_boundary_is_lower_bound, lemma_order_laws, lower_bound, lt, order_laws,
    sorted, total_order,
};

verus! {

/// One slot of an augmented level.
#[derive(Debug)]
struct Entry<T> {
    key: T,
    /// `false` for a key of the level's own list, `true` for a shadow of a
    /// key of the level below.
    is_cascaded: bool,
    /// The answer for this level when a query resolves at this slot: how many
    /// of the level's own keys stand before it.
    prev_original: usize,
    /// Where the walk resumes in the level below.
    next_level: usize,
    /// Whether the slot before `next_level` has to be looked at when resuming.
    check_preceding: bool,
}

/// An augmented level: the level's own keys merged with every second slot of
/// the augmented level below, and what applies when a query resolves past the
/// last slot.
#[derive(Debug)]
struct Level<T> {
    entries: Vec<Entry<T>>,
    num_original: usize,
    next_len: usize,
    check_preceding_if_past_end: bool,
}

/// A static index over a family of sorted lists that finds the lower bound of
/// a key in every list with a single binary search.
#[derive(Debug)]
pub struct FractionalCascade<T> {
    levels: Vec<Level<T>>,
}

/// Why an index could not be built.
#[derive(Clone, Copy, Debug, PartialEq, Eq)]
pub enum BuildError {
    /// There was no list to index.
    EmptyIndex,
}

/// The keys of a level's own list, in order: those of the slots that are not
/// shadows.
spec fn originals<T>(es: Seq<Entry<T>>) -> Seq<T>
    decreases es.len(),
{
    if es.len() == 0 {
        Seq::empty()
    } else if es.last().is_cascaded {
        originals(es.drop_last())
    } else {
        originals(es.drop_last()).push(es.last().key)
    }
}

/// Whether a walk that resumes at `nl` in a level of length `p` has to look
/// at the slot before `nl`.
spec fn check_needed(nl: int, p: int) -> bool {
    nl != 0 && (nl != p || p % 2 == 0)
}

/// The last sampled slot of the level below that lies before the first
/// sampled slot at or after `nl`; negative when there is none. `p` is the
/// length of the level below, and `nl == p` stands for "no sampled slot".
spec fn prev_sample(nl: int, p: int) -> int {
    if nl == p && p % 2 == 1 {
        p - 1
    } else {
        nl - 2
    }
}

// The shape of a level: what holds of it whatever the order of the keys.

/// The rank of slot `x` is the number of own keys before it, which is within
/// the own keys `o`, and an own key stands at its rank.
spec fn rank_shape<T>(es: Seq<Entry<T>>, o: Seq<T>, x: int) -> bool {
    let r = es[x].prev_original as int;
    &&& r == originals(es.subrange(0, x)).len()
    &&& r <= o.len()
    &&& !es[x].is_cascaded ==> r < o.len() && es[x].key == o[r]
}

/// The pointer of slot `x` is within the level below, `b`; a shadow points at
/// the even slot that it is the shadow of; the flag is the one that the
/// pointer calls for.
spec fn ptr_shape<T>(es: Seq<Entry<T>>, b: Seq<Entry<T>>, x: int) -> bool {
    let nl = es[x].next_level as int;
    &&& nl <= b.len()
    &&& es[x].is_cascaded ==> nl < b.len() && nl % 2 == 0 && es[x].key == b[nl].key
    &&& es[x].check_preceding == check_needed(nl, b.len() as int)
}

/// Slot `s` of the level below has a shadow among the slots `es`.
spec fn has_shadow<T>(es: Seq<Entry<T>>, s: int) -> bool {
    exists|x: int| 0 <= x < es.len() && (#[trigger] es[x]).is_cascaded && es[x].next_level == s
}

/// Shadows stand in the order of the slots that they are shadows of, so no
/// slot of the level below has two.
spec fn shadows_ascend<T>(es: Seq<Entry<T>>) -> bool {
    forall|x: int, y: int|
        0 <= x < y < es.len() && es[x].is_cascaded && es[y].is_cascaded ==> es[x].next_level
            < es[y].next_level
}

/// No shadow to the right of an own key has a smaller pointer than the key.
spec fn own_before_shadow<T>(es: Seq<Entry<T>>) -> bool {
    forall|x: int, y: int|
        0 <= x < y < es.len() && !es[x].is_cascaded && es[y].is_cascaded ==> es[x].next_level
            <= es[y].next_level
}

/// Some shadow to the right of slot `x` has the pointer of slot `x`.
spec fn shadow_right<T>(es: Seq<Entry<T>>, x: int) -> bool {
    exists|y: int|
        x < y < es.len() && (#[trigger] es[y]).is_cascaded && es[y].next_level == es[x].next_level
}

/// No shadow stands to the right of slot `x`.
spec fn no_shadow_right<T>(es: Seq<Entry<T>>, x: int) -> bool {
    forall|y: int| x < y < es.len() ==> !(#[trigger] es[y]).is_cascaded
}

/// The pointer of an own key at slot `x` is that of the first shadow to its
/// right, or `p`, the length of the level below, where there is none.
spec fn own_ptr<T>(es: Seq<Entry<T>>, p: int, x: int) -> bool {
    (es[x].next_level == p && no_shadow_right(es, x)) || shadow_right(es, x)
}

// The order of a level: what holds of it when the lists are sorted.

spec fn keys_sorted<T: Ord>(es: Seq<Entry<T>>) -> bool {
    forall|x: int, y: int| 0 <= x <= y < es.len() ==> le(es[x].key, es[y].key)
}

/// Where keys tie, own keys stand before shadows: a shadow to the left of an
/// own key is strictly below it.
spec fn own_keys_first<T: Ord>(es: Seq<Entry<T>>) -> bool {
    forall|x: int, y: int|
        0 <= x < y < es.len() && es[x].is_cascaded && !es[y].is_cascaded ==> lt(es[x].key, es[y].key)
}

/// `c` is a boundary of `q` among the slots `es`.
spec fn slot_boundary<T: Ord>(es: Seq<Entry<T>>, q: T, c: int) -> bool {
    &&& 0 <= c <= es.len()
    &&& c >= 1 ==> lt(es[c - 1].key, q)
    &&& c < es.len() ==> le(q, es[c].key)
}

/// The own key at the rank of slot `x`, if any, is not below the slot's key,
/// and the one before it stands to the left of the slot.
spec fn rank_ok<T: Ord>(es: Seq<Entry<T>>, o: Seq<T>, x: int) -> bool {
    let r = es[x].prev_original as int;
    &&& r < o.len() ==> le(es[x].key, o[r])
    &&& r >= 1 ==> x >= 1 && le(o[r - 1], es[x - 1].key)
}

spec fn end_rank_ok<T: Ord>(es: Seq<Entry<T>>, o: Seq<T>) -> bool {
    o.len() >= 1 ==> es.len() >= 1 && le(o[o.len() - 1], es[es.len() - 1].key)
}

/// The slot of the level below, `b`, that slot `x` points at, if any, holds
/// a key that is not below its own, and the sampled slot before that one has
/// its shadow to the left of `x`.
spec fn ptr_ok<T: Ord>(es: Seq<Entry<T>>, b: Seq<Entry<T>>, x: int) -> bool {
    let nl = es[x].next_level as int;
    let s = prev_sample(nl, b.len() as int);
    &&& nl < b.len() ==> le(es[x].key, b[nl].key)
    &&& s >= 0 ==> x >= 1 && le(b[s].key, es[x - 1].key)
}

spec fn end_ptr_ok<T: Ord>(es: Seq<Entry<T>>, b: Seq<Entry<T>>) -> bool {
    let s = prev_sample(b.len() as int, b.len() as int);
    s >= 0 ==> es.len() >= 1 && le(b[s].key, es[es.len() - 1].key)
}

/// What a walk carries into a level `b`: resuming at `nl`, after the one
/// step back that `check` allows, lands on a boundary of `q`.
spec fn resume_ok<T: Ord>(b: Seq<Entry<T>>, q: T, nl: int, check: bool) -> bool {
    &&& 0 <= nl <= b.len()
    &&& check ==> nl >= 1
    &&& slot_boundary(b, q, if check && le(q, b[nl - 1].key) { nl - 1 } else { nl })
}

/// The order of a merge in progress: `es` is what was merged so far, of the
/// sorted own keys `src` the first `a`, and of the level below, `b`, the
/// even slots before `j`.
spec fn merge_order<T: Ord>(es: Seq<Entry<T>>, src: Seq<T>, b: Seq<Entry<T>>, a: int, j: int) -> bool {
    let p = b.len() as int;
    let s = prev_sample(j, p);
    &&& keys_sorted(es)
    &&& own_keys_first(es)
    &&& es.len() >= 1 && a < src.len() ==> le(es[es.len() - 1].key, src[a])
    &&& es.len() >= 1 && j < p ==> le(es[es.len() - 1].key, b[j].key)
    &&& a >= 1 ==> es.len() >= 1 && le(src[a - 1], es[es.len() - 1].key)
    &&& s >= 0 ==> es.len() >= 1 && le(b[s].key, es[es.len() - 1].key)
    &&& forall|x: int|
        0 <= x < es.len() && (#[trigger] es[x]).is_cascaded && a < src.len() ==> lt(es[x].key, src[a])
    &&& forall|x: int| 0 <= x < es.len() ==> #[trigger] rank_ok(es, src, x)
    &&& forall|x: int| 0 <= x < es.len() ==> #[trigger] ptr_ok(es, b, x)
}

proof fn lemma_originals_push<T>(es: Seq<Entry<T>>, e: Entry<T>)
    ensures
        originals(es.push(e)) == if e.is_cascaded {
            originals(es)
        } else {
            originals(es).push(e.key)
        },
{
    assert(es.push(e).drop_last() =~= es);
}

impl<T: Copy + Ord> Level<T> {
    spec fn rank_at(&self, x: int) -> int {
        if x < self.entries@.len() {
            self.entries@[x].prev_original as int
        } else {
            self.num_original as int
        }
    }

    spec fn ptr_at(&self, x: int) -> int {
        if x < self.entries@.len() {
            self.entries@[x].next_level as int
        } else {
            self.next_len as int
        }
    }

    spec fn check_at(&self, x: int) -> bool {
        if x < self.entries@.len() {
            self.entries@[x].check_preceding
        } else {
            self.check_preceding_if_past_end
        }
    }

    /// Every rank is within the own keys, and every own key stands at its
    /// rank.
    #[verifier::opaque]
    spec fn shaped(&self) -> bool {
        let es = self.entries@;
        let o = originals(es);
        &&& self.num_original == o.len()
        &&& forall|x: int| 0 <= x < es.len() ==> #[trigger] rank_shape(es, o, x)
    }

    /// The level holds its own keys and nothing else: every slot is an own
    /// key that has its own index as its rank, no flag, and the largest
    /// index for a pointer, which stands for "no level below".
    #[verifier::opaque]
    spec fn bare(&self) -> bool {
        let es = self.entries@;
        &&& es.len() == originals(es).len()
        &&& forall|x: int|
            0 <= x < es.len() ==> !(#[trigger] es[x]).is_cascaded && es[x].prev_original == x
                && es[x].next_level == usize::MAX && !es[x].check_preceding
    }

    /// The level stands on the level `b`: it holds one shadow of each even
    /// slot of `b` beside its own keys, and every pointer and flag is the
    /// one that the shadows call for.
    #[verifier::opaque]
    spec fn joined(&self, b: Seq<Entry<T>>) -> bool {
        let es = self.entries@;
        &&& self.next_len == b.len()
        &&& self.check_preceding_if_past_end == check_needed(b.len() as int, b.len() as int)
        &&& es.len() == originals(es).len() + (b.len() + 1) / 2
        &&& shadows_ascend(es)
        &&& own_before_shadow(es)
        &&& forall|s: int| 0 <= s < b.len() && s % 2 == 0 ==> #[trigger] has_shadow(es, s)
        &&& forall|x: int| 0 <= x < es.len() ==> #[trigger] ptr_shape(es, b, x)
        &&& forall|x: int|
            0 <= x < es.len() && !(#[trigger] es[x]).is_cascaded ==> own_ptr(es, b.len() as int, x)
    }

    /// The level is sorted, own keys first on ties, and every rank splits
    /// the own keys at the slot's key.
    #[verifier::opaque]
    spec fn ranked(&self) -> bool {
        let es = self.entries@;
        let o = originals(es);
        &&& keys_sorted(es)
        &&& own_keys_first(es)
        &&& sorted(o)
        &&& forall|x: int| 0 <= x < es.len() ==> #[trigger] rank_ok(es, o, x)
        &&& end_rank_ok(es, o)
    }

    /// Every pointer splits the level below, `b`, to within one slot of the
    /// slot's key.
    #[verifier::opaque]
    spec fn linked(&self, b: Seq<Entry<T>>) -> bool {
        let es = self.entries@;
        &&& forall|x: int| 0 <= x < es.len() ==> #[trigger] ptr_ok(es, b, x)
        &&& end_ptr_ok(es, b)
    }

    /// A query that resolves at a boundary of the level reports the lower
    /// bound in the level's own list.
    proof fn lemma_resolve(&self, q: T, cur: int)
        requires
            order_laws::<T>(),
            self.shaped(),
            self.ranked(),
            slot_boundary(self.entries@, q, cur),
        ensures
            0 <= self.rank_at(cur),
            self.rank_at(cur) == lower_bound(originals(self.entries@), q),
    {
        reveal(Level::shaped);
        reveal(Level::ranked);
        let es = self.entries@;
        let o = originals(es);
        if cur < es.len() {
            assert(rank_shape(es, o, cur));
            assert(rank_ok(es, o, cur));
        }
        lemma_boundary_is_lower_bound(o, q, self.rank_at(cur));
    }

    /// Whatever the keys, what a query reports for the level is an index of
    /// the level's own list or the length of that list.
    proof fn lemma_rank_in_range(&self, cur: int)
        requires
            self.shaped(),
            0 <= cur <= self.entries@.len(),
        ensures
            0 <= self.rank_at(cur) <= originals(self.entries@).len(),
    {
        reveal(Level::shaped);
        if cur < self.entries@.len() {
            assert(rank_shape(self.entries@, originals(self.entries@), cur));
        }
    }

    /// Whatever the keys, the pointer that a query carries out of the level
    /// is within the level below, and not at its start where the flag asks
    /// for a look at the slot before.
    proof fn lemma_pointer_in_range(&self, b: Seq<Entry<T>>, cur: int)
        requires
            self.joined(b),
            0 <= cur <= self.entries@.len(),
        ensures
            0 <= self.ptr_at(cur) <= b.len(),
            self.check_at(cur) ==> self.ptr_at(cur) >= 1,
    {
        reveal(Level::joined);
        if cur < self.entries@.len() {
            assert(ptr_shape(self.entries@, b, cur));
        }
    }

    /// A query that resolves at a boundary of the level carries a pointer
    /// into the level below that is at most one slot past a boundary there.
    proof fn lemma_descend(&self, b: Seq<Entry<T>>, q: T, cur: int)
        requires
            order_laws::<T>(),
            self.joined(b),
            self.linked(b),
            slot_boundary(self.entries@, q, cur),
        ensures
            resume_ok(b, q, self.ptr_at(cur), self.check_at(cur)),
    {
        reveal(Level::joined);
        reveal(Level::linked);
        let es = self.entries@;
        if cur < es.len() {
            assert(ptr_shape(es, b, cur));
            assert(ptr_ok(es, b, cur));
        }
    }

    /// The last level: the keys as they are, none of them a shadow.
    fn build_last(src: &Vec<T>) -> (l: Level<T>)
        ensures
            l.shaped(),
            l.bare(),
            l.entries@.len() == src@.len(),
            originals(l.entries@) == src@,
            order_laws::<T>() && sorted(src@) ==> l.ranked(),
    {
        let n: usize = src.len();
        let mut entries: Vec<Entry<T>> = Vec::with_capacity(n);
        let mut a: usize = 0;
        while a < n
            invariant
                n == src@.len(),
                a <= n,
                entries@.len() == a,
                originals(entries@) == src@.subrange(0, a as int),
                forall|x: int|
                    0 <= x < a ==> (#[trigger] entries@[x]).key == src@[x]
                        && entries@[x].prev_original == x && !entries@[x].is_cascaded
                        && entries@[x].next_level == usize::MAX && !entries@[x].check_preceding
                        && originals(entries@.subrange(0, x)).len() == x,
            decreases n - a,
        {
            let ghost old_es = entries@;
            let e = Entry {
                key: src[a],
                is_cascaded: false,
                prev_original: a,
                next_level: usize::MAX,
                check_preceding: false,
            };
            proof {
                lemma_originals_push(entries@, e);
                assert(src@.subrange(0, a as int).push(e.key) =~= src@.subrange(0, a + 1));
            }
            entries.push(e);
            proof {
                let es = entries@;
                assert(es.subrange(0, a as int) =~= old_es);
                assert forall|x: int| 0 <= x < a implies originals(es.subrange(0, x)).len()
                    == x by {
                    assert(es.subrange(0, x) =~= old_es.subrange(0, x));
                    assert(old_es[x].key == src@[x]);
                }
            }
            a += 1;
        }
        let l = Level { entries, num_original: n, next_len: 0, check_preceding_if_past_end: false };
        proof {
            reveal(Level::shaped);
            reveal(Level::bare);
            reveal(Level::ranked);
            assert(src@.subrange(0, n as int) =~= src@);
            let es = l.entries@;
            assert forall|x: int| 0 <= x < es.len() implies #[trigger] rank_shape(es, src@, x) by {
                assert(es[x].key == src@[x]);
            }
            if order_laws::<T>() && sorted(src@) {
                assert forall|x: int| 0 <= x < es.len() implies #[trigger] rank_ok(es, src@, x) by {
                    assert(es[x].key == src@[x]);
                    if x >= 1 {
                        assert(es[x - 1].key == src@[x - 1]);
                    }
                }
                assert forall|x: int, y: int| 0 <= x <= y < es.len() implies le(
                    es[x].key,
                    es[y].key,
                ) by {
                    assert(es[x].key == src@[x]);
                    assert(es[y].key == src@[y]);
                    assert(le(src@[x], src@[y]));
                }
                if n >= 1 {
                    assert(es[n - 1].key == src@[n - 1]);
                }
            }
        }
        l
    }

    /// A level above another: the own keys `src` merged with every second
    /// slot of `below`, own keys first where keys tie.
    fn build_level(src: &Vec<T>, below: &Level<T>) -> (l: Level<T>)
        ensures
            l.shaped(),
            l.joined(below.entries@),
            originals(l.entries@) == src@,
            order_laws::<T>() && sorted(src@) && below.ranked() ==> l.ranked() && l.linked(
                below.entries@,
            ),
    {
        let n: usize = src.len();
        let p: usize = below.entries.len();
        let ghost b = below.entries@;
        let ghost in_order = order_laws::<T>() && sorted(src@) && keys_sorted(b);
        proof {
            if below.ranked() {
                reveal(Level::ranked);
            }
        }
        let mut entries: Vec<Entry<T>> = Vec::new();
        let mut a: usize = 0;
        let mut j: usize = 0;
        while a < n || j < p
            invariant
                n == src@.len(),
                p == b.len(),
                b == below.entries@,
                in_order == (order_laws::<T>() && sorted(src@) && keys_sorted(b)),
                a <= n,
                j <= p,
                j < p ==> j % 2 == 0,
                originals(entries@) == src@.subrange(0, a as int),
                entries@.len() == a + (j + 1) / 2,
                shadows_ascend(entries@),
                own_before_shadow(entries@),
                forall|x: int|
                    0 <= x < entries@.len() && (#[trigger] entries@[x]).is_cascaded
                        ==> entries@[x].next_level < j,
                forall|x: int|
                    0 <= x < entries@.len() && !(#[trigger] entries@[x]).is_cascaded
                        ==> entries@[x].next_level <= j && (entries@[x].next_level < j
                        ==> shadow_right(entries@, x)),
                forall|s: int| 0 <= s < j && s % 2 == 0 ==> #[trigger] has_shadow(entries@, s),
                forall|x: int| 0 <= x < entries@.len() ==> #[trigger] rank_shape(entries@, src@, x),
                forall|x: int| 0 <= x < entries@.len() ==> #[trigger] ptr_shape(entries@, b, x),
                in_order ==> merge_order(entries@, src@, b, a as int, j as int),
            decreases (n - a) + (p - j),
        {
            let ghost old_es = entries@;
            let ghost old_a = a;
            let ghost old_j = j;
            let take_own: bool = a < n && (j >= p || !(below.entries[j].key < src[a]));
            let e = Entry {
                key: if take_own { src[a] } else { below.entries[j].key },
                is_cascaded: !take_own,
                prev_original: a,
                next_level: j,
                check_preceding: j != 0 && (j != p || p % 2 == 0),
            };
            proof {
                lemma_originals_push(old_es, e);
                if take_own {
                    assert(src@.subrange(0, a as int).push(e.key) =~= src@.subrange(0, a + 1));
                }
            }
            entries.push(e);
            if take_own {
                a += 1;
            } else {
                j = if p - j > 2 { j + 2 } else { p };
            }
            proof {
                let es = entries@;
                let x0 = old_es.len() as int;
                assert(es[x0] == e);
                assert forall|x: int, y: int|
                    0 <= x < y < es.len() && es[x].is_cascaded && es[y].is_cascaded implies es[x].next_level
                    < es[y].next_level by {
                    assert(old_es[x].is_cascaded);
                    if y < x0 {
                        assert(old_es[y].is_cascaded);
                    }
                }
                assert forall|x: int, y: int|
                    0 <= x < y < es.len() && !es[x].is_cascaded && es[y].is_cascaded implies es[x].next_level
                    <= es[y].next_level by {
                    assert(!old_es[x].is_cascaded);
                    if y < x0 {
                        assert(old_es[y].is_cascaded);
                    }
                }
                assert forall|x: int|
                    0 <= x < es.len() && (#[trigger] es[x]).is_cascaded implies es[x].next_level
                    < j by {
                    if x < x0 {
                        assert(old_es[x].is_cascaded);
                    }
                }
                assert forall|x: int|
                    0 <= x < es.len() && !(#[trigger] es[x]).is_cascaded implies es[x].next_level
                    <= j && (es[x].next_level < j ==> shadow_right(es, x)) by {
                    if x < x0 {
                        assert(!old_es[x].is_cascaded);
                        if old_es[x].next_level < old_j {
                            assert(shadow_right(old_es, x));
                            let y = choose|y: int|
                                x < y < old_es.len() && (#[trigger] old_es[y]).is_cascaded
                                    && old_es[y].next_level == old_es[x].next_level;
                            assert(es[y].is_cascaded && es[y].next_level == es[x].next_level);
                        } else if es[x].next_level < j {
                            assert(es[x0].is_cascaded && es[x0].next_level == es[x].next_level);
                        }
                    }
                }
                assert forall|s: int| 0 <= s < j && s % 2 == 0 implies #[trigger] has_shadow(
                    es,
                    s,
                ) by {
                    if s < old_j {
                        assert(has_shadow(old_es, s));
                        let x = choose|x: int|
                            0 <= x < old_es.len() && (#[trigger] old_es[x]).is_cascaded
                                && old_es[x].next_level == s;
                        assert(es[x].is_cascaded && es[x].next_level == s);
                    } else {
                        assert(es[x0].is_cascaded && es[x0].next_level == s);
                    }
                }
                assert forall|x: int| 0 <= x < es.len() implies #[trigger] rank_shape(
                    es,
                    src@,
                    x,
                ) by {
                    if x < x0 {
                        assert(rank_shape(old_es, src@, x));
                        assert(es.subrange(0, x) =~= old_es.subrange(0, x));
                    } else {
                        assert(es.subrange(0, x) =~= old_es);
                    }
                }
                assert forall|x: int| 0 <= x < es.len() implies #[trigger] ptr_shape(es, b, x) by {
                    if x < x0 {
                        assert(ptr_shape(old_es, b, x));
                    }
                }
                if in_order {
                    assert(merge_order(old_es, src@, b, old_a as int, old_j as int));
                    assert forall|x: int, y: int| 0 <= x <= y < es.len() implies le(
                        es[x].key,
                        es[y].key,
                    ) by {
                        if y < x0 {
                            assert(le(old_es[x].key, old_es[y].key));
                        } else if x < x0 {
                            assert(le(old_es[x].key, old_es[x0 - 1].key));
                        }
                    }
                    assert forall|x: int, y: int|
                        0 <= x < y < es.len() && es[x].is_cascaded && !es[y].is_cascaded implies lt(
                        es[x].key,
                        es[y].key,
                    ) by {
                        if y < x0 {
                            assert(lt(old_es[x].key, old_es[y].key));
                        } else {
                            assert(old_es[x].is_cascaded);
                        }
                    }
                    assert forall|x: int|
                        0 <= x < es.len() && (#[trigger] es[x]).is_cascaded && a < n implies lt(
                        es[x].key,
                        src@[a as int],
                    ) by {
                        if x < x0 {
                            assert(old_es[x].is_cascaded);
                            assert(lt(old_es[x].key, src@[old_a as int]));
                            assert(le(src@[old_a as int], src@[a as int]));
                        }
                    }
                    assert forall|x: int| 0 <= x < es.len() implies #[trigger] rank_ok(
                        es,
                        src@,
                        x,
                    ) by {
                        if x < x0 {
                            assert(rank_ok(old_es, src@, x));
                        }
                    }
                    assert forall|x: int| 0 <= x < es.len() implies #[trigger] ptr_ok(es, b, x) by {
                        if x < x0 {
                            assert(ptr_ok(old_es, b, x));
                        }
                    }
                    assert(merge_order(es, src@, b, a as int, j as int));
                }
            }
        }
        let l = Level {
            entries,
            num_original: n,
            next_len: p,
            check_preceding_if_past_end: p != 0 && p % 2 == 0,
        };
        proof {
            reveal(Level::shaped);
            reveal(Level::joined);
            reveal(Level::ranked);
            reveal(Level::linked);
            assert(src@.subrange(0, n as int) =~= src@);
            let es = l.entries@;
            assert forall|x: int| 0 <= x < es.len() && !(#[trigger] es[x]).is_cascaded implies own_ptr(
                es,
                p as int,
                x,
            ) by {
                if es[x].next_level == p {
                    assert forall|y: int| x < y < es.len() implies !(#[trigger] es[y]).is_cascaded by {
                        if es[y].is_cascaded {
                            assert(es[y].next_level < p);
                            assert(es[x].next_level <= es[y].next_level);
                        }
                    }
                }
            }
            if in_order {
                assert(merge_order(es, src@, b, n as int, p as int));
            }
        }
        l
    }

    /// Binary search among the slots; where the keys obey the order laws,
    /// the result is a boundary of `key`.
    fn search(&self, key: T) -> (ix: usize)
        ensures
            ix <= self.entries@.len(),
            order_laws::<T>() ==> slot_boundary(self.entries@, key, ix as int),
    {
        let mut lo: usize = 0;
        let mut hi: usize = self.entries.len();
        while lo < hi
            invariant
                lo <= hi <= self.entries@.len(),
                order_laws::<T>() && lo >= 1 ==> lt(self.entries@[lo - 1].key, key),
                order_laws::<T>() && hi < self.entries@.len() ==> le(
                    key,
                    self.entries@[hi as int].key,
                ),
            decreases hi - lo,
        {
            let mid: usize = lo + (hi - lo) / 2;
            if self.entries[mid].key < key {
                lo = mid + 1;
            } else {
                hi = mid;
            }
        }
        lo
    }
}

impl<T: Copy + Ord> View for FractionalCascade<T> {
    type V = Seq<Seq<T>>;

    /// The lists that the index was built from, top level first.
    closed spec fn view(&self) -> Seq<Seq<T>> {
        Seq::new(self.levels@.len(), |i: int| originals(self.levels@[i].entries@))
    }
}

impl<T: Copy + Ord> FractionalCascade<T> {
    /// The index has the shape that building gives it, whatever the order
    /// of the keys: it has a level; the last level holds its own keys and
    /// nothing else; every level above holds, beside its own keys, one
    /// shadow of each even slot of the level below; and every rank, pointer
    /// and flag is the one that this layout calls for.
    pub closed spec fn shaped(&self) -> bool {
        let k = self.levels@.len();
        &&& k >= 1
        &&& forall|i: int| 0 <= i < k ==> (#[trigger] self.levels@[i]).shaped()
        &&& forall|i: int|
            0 <= i < k - 1 ==> (#[trigger] self.levels@[i]).joined(self.levels@[i + 1].entries@)
        &&& self.levels@[k - 1].bare()
    }

    /// The index is well formed: it is shaped, its keys obey the order
    /// laws, every level is sorted, and every rank and pointer splits what
    /// it points into at the slot's key.
    pub closed spec fn wf(&self) -> bool {
        let k = self.levels@.len();
        &&& self.shaped()
        &&& order_laws::<T>()
        &&& forall|i: int| 0 <= i < k ==> (#[trigger] self.levels@[i]).ranked()
        &&& forall|i: int|
            0 <= i < k - 1 ==> (#[trigger] self.levels@[i]).linked(self.levels@[i + 1].entries@)
    }

    /// `out` answers the query for `q`: one index for each list, the lower
    /// bound of `q` in that list.
    pub open spec fn is_answer(&self, q: T, out: Seq<usize>) -> bool {
        &&& out.len() == self@.len()
        &&& forall|i: int| 0 <= i < out.len() ==> out[i] as nat == lower_bound(#[trigger] self@[i], q)
    }

    /// A well-formed index is shaped, is over keys that obey the order laws,
    /// has a level, and each of its lists is sorted.
    pub proof fn lemma_lists_sorted(&self)
        requires
            self.wf(),
        ensures
            self.shaped(),
            order_laws::<T>(),
            self@.len() >= 1,
            forall|i: int| 0 <= i < self@.len() ==> sorted(#[trigger] self@[i]),
    {
        reveal(Level::ranked);
        assert forall|i: int| 0 <= i < self@.len() implies sorted(#[trigger] self@[i]) by {
            assert(self.levels@[i].ranked());
        }
    }

    /// Builds the index over `items`, the top level first. `items` holds at
    /// least one list; `build` is the variant that reports an empty family
    /// instead of demanding this of its caller.
    ///
    /// Every family is built into a shaped index over the same lists. The
    /// index is well formed, and so answers queries, where the keys are
    /// totally ordered and every list is sorted.
    pub fn new(items: Vec<Vec<T>>) -> (c: Self)
        requires
            items@.len() >= 1,
        ensures
            c.shaped(),
            c@.len() == items@.len(),
            forall|i: int| 0 <= i < items@.len() ==> c@[i] == #[trigger] items@[i]@,
            total_order::<T>() && (forall|i: int|
                0 <= i < items@.len() ==> sorted(#[trigger] items@[i]@)) ==> c.wf(),
    {
        let ghost in_order = total_order::<T>() && (forall|i: int|
            0 <= i < items@.len() ==> sorted(#[trigger] items@[i]@));
        proof {
            if total_order::<T>() {
                lemma_order_laws::<T>();
            }
        }
        let k: usize = items.len();
        let mut rev: Vec<Level<T>> = Vec::new();
        rev.push(Level::build_last(&items[k - 1]));
        let mut i: usize = k - 1;
        while i > 0
            invariant
                k == items@.len(),
                i < k,
                rev@.len() == k - i,
                in_order ==> order_laws::<T>(),
                in_order ==> forall|i: int| 0 <= i < items@.len() ==> sorted(#[trigger] items@[i]@),
                rev@[0].bare(),
                forall|t: int|
                    0 <= t < rev@.len() ==> (#[trigger] rev@[t]).shaped() && originals(
                        rev@[t].entries@,
                    ) == items@[k - 1 - t]@,
                forall|t: int|
                    1 <= t < rev@.len() ==> (#[trigger] rev@[t]).joined(rev@[t - 1].entries@),
                in_order ==> forall|t: int| 0 <= t < rev@.len() ==> (#[trigger] rev@[t]).ranked(),
                in_order ==> forall|t: int|
                    1 <= t < rev@.len() ==> (#[trigger] rev@[t]).linked(rev@[t - 1].entries@),
            decreases i,
        {
            i -= 1;
            let ghost lower = rev@;
            proof {
                if in_order {
                    assert(lower[lower.len() - 1].ranked());
                    assert(sorted(items@[i as int]@));
                }
            }
            let level = Level::build_level(&items[i], &rev[rev.len() - 1]);
            rev.push(level);
            proof {
                let top = lower.len() as int;
                assert(rev@[top].joined(lower[top - 1].entries@));
                assert forall|t: int| 0 <= t < rev@.len() implies (#[trigger] rev@[t]).shaped()
                    && originals(rev@[t].entries@) == items@[k - 1 - t]@ by {
                    if t < top {
                        assert(rev@[t] == lower[t]);
                    }
                }
                assert forall|t: int| 1 <= t < rev@.len() implies (#[trigger] rev@[t]).joined(
                    rev@[t - 1].entries@,
                ) by {
                    assert(rev@[t - 1] == lower[t - 1]);
                    if t < top {
                        assert(rev@[t] == lower[t]);
                    }
                }
                if in_order {
                    assert forall|t: int| 0 <= t < rev@.len() implies (#[trigger] rev@[t]).ranked() by {
                        if t < top {
                            assert(rev@[t] == lower[t]);
                        }
                    }
                    assert forall|t: int| 1 <= t < rev@.len() implies (#[trigger] rev@[t]).linked(
                        rev@[t - 1].entries@,
                    ) by {
                        assert(rev@[t - 1] == lower[t - 1]);
                        if t < top {
                            assert(rev@[t] == lower[t]);
                        }
                    }
                }
            }
        }
        let ghost built = rev@;
        let mut levels: Vec<Level<T>> = Vec::with_capacity(k);
        while rev.len() > 0
            invariant
                built.len() == k,
                rev@.len() + levels@.len() == k,
                rev@ == built.subrange(0, rev@.len() as int),
                forall|t: int| 0 <= t < levels@.len() ==> #[trigger] levels@[t] == built[k - 1 - t],
            decreases rev@.len(),
        {
            match rev.pop() {
                Some(level) => {
                    levels.push(level);
                },
                None => {},
            }
        }
        let c = FractionalCascade { levels };
        proof {
            assert forall|i: int| 0 <= i < c.levels@.len() implies (#[trigger] c.levels@[i]).shaped() by {
                assert(built[k - 1 - i].shaped());
            }
            assert forall|i: int| 0 <= i < c.levels@.len() - 1 implies (#[trigger] c.levels@[i]).joined(
                c.levels@[i + 1].entries@,
            ) by {
                assert(built[k - 1 - i].joined(built[k - 1 - i - 1].entries@));
            }
            assert(c.levels@[k - 1] == built[0]);
            assert forall|i: int| 0 <= i < items@.len() implies c@[i] == #[trigger] items@[i]@ by {
                assert(built[k - 1 - i].shaped());
            }
            if in_order {
                assert forall|i: int| 0 <= i < c.levels@.len() implies (#[trigger] c.levels@[i]).ranked() by {
                    assert(built[k - 1 - i].ranked());
                }
                assert forall|i: int| 0 <= i < c.levels@.len() - 1 implies (#[trigger] c.levels@[i]).linked(
                    c.levels@[i + 1].entries@,
                ) by {
                    assert(built[k - 1 - i].linked(built[k - 1 - i - 1].entries@));
                }
            }
        }
        c
    }

    /// Builds the index over `items`, the top level first, or reports that
    /// there is no list to index. What it builds is what `new` builds.
    pub fn build(items: Vec<Vec<T>>) -> (r: Result<Self, BuildError>)
        ensures
            items@.len() == 0 <==> r == Err::<Self, BuildError>(BuildError::EmptyIndex),
            items@.len() >= 1 <==> r.is_ok(),
            r.is_ok() ==> {
                let c = r.unwrap();
                &&& c.shaped()
                &&& c@.len() == items@.len()
                &&& forall|i: int| 0 <= i < items@.len() ==> c@[i] == #[trigger] items@[i]@
                &&& total_order::<T>() && (forall|i: int|
                    0 <= i < items@.len() ==> sorted(#[trigger] items@[i]@)) ==> c.wf()
            },
    {
        if items.len() == 0 {
            Err(BuildError::EmptyIndex)
        } else {
            Ok(Self::new(items))
        }
    }

    /// The reference query: an independent binary search in every level.
    ///
    /// It returns one index for each list, none of them past the end of its
    /// list; on a well-formed index these are the lower bounds of `key`.
    pub fn bisect_left_naive(&self, key: T) -> (out: Vec<usize>)
        requires
            self.shaped(),
        ensures
            out@.len() == self@.len(),
            forall|i: int| 0 <= i < out@.len() ==> out@[i] <= (#[trigger] self@[i]).len(),
            self.wf() ==> self.is_answer(key, out@),
    {
        let k: usize = self.levels.len();
        let mut out: Vec<usize> = Vec::with_capacity(k);
        let mut i: usize = 0;
        while i < k
            invariant
                self.shaped(),
                k == self.levels@.len(),
                i <= k,
                out@.len() == i,
                forall|t: int| 0 <= t < i ==> out@[t] <= (#[trigger] self@[t]).len(),
                self.wf() ==> forall|t: int|
                    0 <= t < i ==> out@[t] as nat == lower_bound(#[trigger] self@[t], key),
            decreases k - i,
        {
            let level = &self.levels[i];
            let cur: usize = level.search(key);
            let (result, _next_ptr, _check) = Self::cascade_ptr(level, cur);
            proof {
                level.lemma_rank_in_range(cur as int);
                if self.wf() {
                    level.lemma_resolve(key, cur as int);
                }
            }
            out.push(result);
            i += 1;
        }
        out
    }

    /// What a query that resolves at slot `ix` of `level` reports for the
    /// level, where it resumes in the next, and whether it has to look at
    /// the slot before that. `ix` may be the level's length.
    fn cascade_ptr(level: &Level<T>, ix: usize) -> (res: (usize, usize, bool))
        ensures
            res.0 == level.rank_at(ix as int),
            res.1 == level.ptr_at(ix as int),
            res.2 == level.check_at(ix as int),
    {
        if ix >= level.entries.len() {
            (level.num_original, level.next_len, level.check_preceding_if_past_end)
        } else {
            let e = &level.entries[ix];
            (e.prev_original, e.next_level, e.check_preceding)
        }
    }

    /// The query: one binary search in the top level and one step per level
    /// below.
    ///
    /// It returns one index for each list, none of them past the end of its
    /// list; on a well-formed index these are the lower bounds of `key`.
    pub fn bisect_left(&self, key: T) -> (out: Vec<usize>)
        requires
            self.shaped(),
        ensures
            out@.len() == self@.len(),
            forall|i: int| 0 <= i < out@.len() ==> out@[i] <= (#[trigger] self@[i]).len(),
            self.wf() ==> self.is_answer(key, out@),
    {
        let k: usize = self.levels.len();
        let mut out: Vec<usize> = Vec::with_capacity(k);
        let first_level = &self.levels[0];
        let cur_ptr: usize = first_level.search(key);
        let (result, ptr, chk) = Self::cascade_ptr(first_level, cur_ptr);
        let mut next_ptr: usize = ptr;
        let mut check: bool = chk;
        proof {
            first_level.lemma_rank_in_range(cur_ptr as int);
            if k > 1 {
                first_level.lemma_pointer_in_range(self.levels@[1].entries@, cur_ptr as int);
            }
            if self.wf() {
                first_level.lemma_resolve(key, cur_ptr as int);
                if k > 1 {
                    first_level.lemma_descend(self.levels@[1].entries@, key, cur_ptr as int);
                }
            }
        }
        out.push(result);
        let mut i: usize = 1;
        while i < k
            invariant
                self.shaped(),
                k == self.levels@.len(),
                1 <= i <= k,
                out@.len() == i,
                forall|t: int| 0 <= t < i ==> out@[t] <= (#[trigger] self@[t]).len(),
                i < k ==> next_ptr <= self.levels@[i as int].entries@.len() && (check ==> next_ptr
                    >= 1),
                self.wf() ==> forall|t: int|
                    0 <= t < i ==> out@[t] as nat == lower_bound(#[trigger] self@[t], key),
                self.wf() && i < k ==> resume_ok(
                    self.levels@[i as int].entries@,
                    key,
                    next_ptr as int,
                    check,
                ),
            decreases k - i,
        {
            let level = &self.levels[i];
            let mut cur_ptr: usize = next_ptr;
            if check && !(level.entries[cur_ptr - 1].key < key) {
                cur_ptr -= 1;
            }
            let (result, ptr, chk) = Self::cascade_ptr(level, cur_ptr);
            next_ptr = ptr;
            check = chk;
            proof {
                level.lemma_rank_in_range(cur_ptr as int);
                if i + 1 < k {
                    level.lemma_pointer_in_range(self.levels@[i + 1].entries@, cur_ptr as int);
                }
                if self.wf() {
                    level.lemma_resolve(key, cur_ptr as int);
                    if i + 1 < k {
                        level.lemma_descend(self.levels@[i + 1].entries@, key, cur_ptr as int);
                    }
                }
            }
            out.push(result);
            i += 1;
        }
        out
    }
}

/// Binary search for the lower bound of `key` in `array`.
///
/// Where the comparisons of `T` form a total order, the result is always a
/// boundary of `key`; on a sorted array that is the number of elements
/// strictly below `key`.
pub fn bisect_left<T: Ord>(array: &[T], key: T) -> (ix: usize)
    ensures
        ix <= array@.len(),
        total_order::<T>() ==> is_boundary(array@, key, ix as int),
        total_order::<T>() && sorted(array@) ==> ix == lower_bound(array@, key),
        total_order::<T>() && (forall|i: int| 0 <= i < array@.len() ==> le(key, array@[i])) ==> ix
            == 0,
        total_order::<T>() && (forall|i: int| 0 <= i < array@.len() ==> lt(array@[i], key)) ==> ix
            == array@.len(),
{
    proof {
        if total_order::<T>() {
            lemma_order_laws::<T>();
        }
    }
    let mut lo: usize = 0;
    let mut hi: usize = array.len();
    while lo < hi
        invariant
            lo <= hi <= array@.len(),
            total_order::<T>() ==> order_laws::<T>(),
            total_order::<T>() && lo >= 1 ==> lt(array@[lo - 1], key),
            total_order::<T>() && hi < array@.len() ==> le(key, array@[hi as int]),
        decreases hi - lo,
    {
        let mid: usize = lo + (hi - lo) / 2;
        if array[mid] < key {
            lo = mid + 1;
        } else {
            hi = mid;
        }
    }
    proof {
        if total_order::<T>() && sorted(array@) {
            lemma_boundary_is_lower_bound(array@, key, lo as int);
        }
    }
    lo
}

} // verus!

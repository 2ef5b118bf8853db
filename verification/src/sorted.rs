//! Strictly increasing sequences: the model of the set's contents.

use vstd::prelude::*;
use crate::order::total_order;
use crate::order::lt;
use crate::order::equiv;
use crate::order::lemma_lt_trans;

verus! {

/// `s` is strictly increasing.
pub open spec fn sorted<T: Ord>(s: Seq<T>) -> bool {
    forall|i: int, j: int| 0 <= i < j < s.len() ==> lt(#[trigger] s[i], #[trigger] s[j])
}

/// Every value of `s` is below `v`.
pub open spec fn all_below<T: Ord>(s: Seq<T>, v: T) -> bool {
    forall|i: int| 0 <= i < s.len() ==> lt(#[trigger] s[i], v)
}

/// Every value of `s` is above `v`.
pub open spec fn all_above<T: Ord>(s: Seq<T>, v: T) -> bool {
    forall|i: int| 0 <= i < s.len() ==> lt(v, #[trigger] s[i])
}

/// Some value of `s` compares equal to `v`.
pub open spec fn holds<T: Ord>(s: Seq<T>, v: T) -> bool {
    exists|i: int| 0 <= i < s.len() && equiv(#[trigger] s[i], v)
}

/// `s` after inserting `v` into it as into an ordered set: unchanged when an
/// equal value is present, else with `v` in its place among the others.
pub open spec fn insert_value<T: Ord>(s: Seq<T>, v: T) -> Seq<T> {
    if holds(s, v) {
        s
    } else {
        below(s, v) + seq![v] + above(s, v)
    }
}

/// `s` after inserting each of `vs` in turn.
pub open spec fn insert_values<T: Ord>(s: Seq<T>, vs: Seq<T>) -> Seq<T>
    decreases vs.len(),
{
    if vs.len() == 0 {
        s
    } else {
        insert_value(insert_values(s, vs.drop_last()), vs.last())
    }
}

/// The values of `s` below `v`, in order.
pub open spec fn below<T: Ord>(s: Seq<T>, v: T) -> Seq<T> {
    s.filter(|e: T| lt(e, v))
}

/// The values of `s` above `v`, in order.
pub open spec fn above<T: Ord>(s: Seq<T>, v: T) -> Seq<T> {
    s.filter(|e: T| lt(v, e))
}

/// The values of `s` that do not compare equal to `v`, in order.
pub open spec fn without<T: Ord>(s: Seq<T>, v: T) -> Seq<T> {
    s.filter(|e: T| !equiv(e, v))
}

/// Filtering keeps a sequence whose values all pass.
pub proof fn lemma_filter_keeps_all<A>(s: Seq<A>, p: spec_fn(A) -> bool)
    requires
        forall|i: int| 0 <= i < s.len() ==> p(#[trigger] s[i]),
    ensures
        s.filter(p) == s,
    decreases s.len(),
{
    reveal_with_fuel(Seq::filter, 1);
    if s.len() > 0 {
        lemma_filter_keeps_all(s.drop_last(), p);
        assert(s.drop_last().push(s.last()) =~= s);
    }
}

/// Filtering drops a sequence whose values all fail.
pub proof fn lemma_filter_drops_all<A>(s: Seq<A>, p: spec_fn(A) -> bool)
    requires
        forall|i: int| 0 <= i < s.len() ==> !p(#[trigger] s[i]),
    ensures
        s.filter(p) == Seq::<A>::empty(),
    decreases s.len(),
{
    reveal_with_fuel(Seq::filter, 1);
    if s.len() > 0 {
        lemma_filter_drops_all(s.drop_last(), p);
    }
}

/// Filtering a concatenation of three pieces filters each piece.
pub proof fn lemma_filter_three<A>(a: Seq<A>, x: A, b: Seq<A>, p: spec_fn(A) -> bool)
    ensures
        (a + seq![x] + b).filter(p) == a.filter(p) + (if p(x) { seq![x] } else { Seq::empty() })
            + b.filter(p),
{
    broadcast use Seq::filter_distributes_over_add;
    reveal_with_fuel(Seq::filter, 2);
    assert(seq![x].drop_last() =~= Seq::<A>::empty());
    assert(seq![x].filter(p) =~= (if p(x) { seq![x] } else { Seq::empty() }));
}

/// Every value kept by a filter comes from the filtered sequence.
pub proof fn lemma_filter_from<A>(s: Seq<A>, p: spec_fn(A) -> bool)
    ensures
        forall|i: int| 0 <= i < s.filter(p).len() ==> s.contains(#[trigger] s.filter(p)[i]),
        forall|i: int| 0 <= i < s.filter(p).len() ==> p(#[trigger] s.filter(p)[i]),
        s.filter(p).len() <= s.len(),
{
    broadcast use Seq::lemma_filter_len, Seq::lemma_filter_pred;
    assert forall|i: int| 0 <= i < s.filter(p).len() implies s.contains(#[trigger] s.filter(p)[i]) by {
        assert(s.filter(p).contains(s.filter(p)[i]));
        s.lemma_filter_contains_rev(p, s.filter(p)[i]);
    }
}

/// A node's in-order sequence is sorted exactly when both sides are sorted
/// and lie on the right sides of the node's value.
pub proof fn lemma_sorted_join<T: Ord>(l: Seq<T>, x: T, r: Seq<T>)
    requires
        total_order::<T>(),
    ensures
        sorted(l + seq![x] + r) <==> sorted(l) && sorted(r) && all_below(l, x) && all_above(r, x),
{
    let s = l + seq![x] + r;
    if sorted(s) {
        assert forall|i: int, j: int| 0 <= i < j < l.len() implies lt(l[i], l[j]) by {
            assert(s[i] == l[i] && s[j] == l[j]);
        }
        assert forall|i: int, j: int| 0 <= i < j < r.len() implies lt(r[i], r[j]) by {
            assert(s[l.len() + 1 + i] == r[i] && s[l.len() + 1 + j] == r[j]);
        }
        assert forall|i: int| 0 <= i < l.len() implies lt(l[i], x) by {
            assert(s[i] == l[i] && s[l.len() as int] == x);
        }
        assert forall|i: int| 0 <= i < r.len() implies lt(x, r[i]) by {
            assert(s[l.len() + 1 + i] == r[i] && s[l.len() as int] == x);
        }
    }
    if sorted(l) && sorted(r) && all_below(l, x) && all_above(r, x) {
        assert forall|i: int, j: int| 0 <= i < j < s.len() implies lt(s[i], s[j]) by {
            let n = l.len() as int;
            if j < n {
                assert(s[i] == l[i] && s[j] == l[j]);
            } else if j == n {
                assert(s[i] == l[i]);
            } else if i == n {
                assert(s[j] == r[j - n - 1]);
            } else if i > n {
                assert(s[i] == r[i - n - 1] && s[j] == r[j - n - 1]);
            } else {
                assert(s[i] == l[i] && s[j] == r[j - n - 1]);
                lemma_lt_trans(l[i], x, r[j - n - 1]);
            }
        }
    }
}

/// The values of `s` that are not below `v`, in order.
pub open spec fn at_or_above<T: Ord>(s: Seq<T>, v: T) -> Seq<T> {
    s.filter(|e: T| !lt(e, v))
}

/// The values of `s` that are not above `v`, in order.
pub open spec fn at_or_below<T: Ord>(s: Seq<T>, v: T) -> Seq<T> {
    s.filter(|e: T| !lt(v, e))
}

/// The first `n` values of `s`, or all of them when it has fewer.
pub open spec fn first_n<A>(s: Seq<A>, n: nat) -> Seq<A> {
    if n <= s.len() {
        s.take(n as int)
    } else {
        s
    }
}

/// Keeping a filter of a node's sorted sequence, where the filter passes
/// everything on one side of a threshold and nothing on the other.
pub proof fn lemma_filter_node<T: Ord>(l: Seq<T>, x: T, r: Seq<T>, p: spec_fn(T) -> bool)
    requires
        total_order::<T>(),
        sorted(l + seq![x] + r),
        forall|a: T, b: T| #[trigger] lt(a, b) && p(a) ==> p(b),
    ensures
        !p(x) ==> (l + seq![x] + r).filter(p) == r.filter(p),
        p(x) ==> (l + seq![x] + r).filter(p) == l.filter(p) + seq![x] + r,
{
    lemma_sorted_join(l, x, r);
    lemma_filter_three(l, x, r, p);
    if !p(x) {
        assert forall|i: int| 0 <= i < l.len() implies !p(#[trigger] l[i]) by {
            if p(l[i]) {
                assert(lt(l[i], x));
            }
        }
        lemma_filter_drops_all(l, p);
    } else {
        assert forall|i: int| 0 <= i < r.len() implies p(#[trigger] r[i]) by {
            assert(lt(x, r[i]));
        }
        lemma_filter_keeps_all(r, p);
    }
}

/// The mirror of `lemma_filter_node`, for a filter that passes everything
/// below a threshold.
pub proof fn lemma_filter_node_down<T: Ord>(l: Seq<T>, x: T, r: Seq<T>, p: spec_fn(T) -> bool)
    requires
        total_order::<T>(),
        sorted(l + seq![x] + r),
        forall|a: T, b: T| #[trigger] lt(a, b) && p(b) ==> p(a),
    ensures
        !p(x) ==> (l + seq![x] + r).filter(p) == l.filter(p),
        p(x) ==> (l + seq![x] + r).filter(p) == l + seq![x] + r.filter(p),
{
    lemma_sorted_join(l, x, r);
    lemma_filter_three(l, x, r, p);
    if !p(x) {
        assert forall|i: int| 0 <= i < r.len() implies !p(#[trigger] r[i]) by {
            if p(r[i]) {
                assert(lt(x, r[i]));
            }
        }
        lemma_filter_drops_all(r, p);
    } else {
        assert forall|i: int| 0 <= i < l.len() implies p(#[trigger] l[i]) by {
            assert(lt(l[i], x));
        }
        lemma_filter_keeps_all(l, p);
    }
}

/// Filtering twice is filtering once by both tests.
pub proof fn lemma_filter_twice<A>(s: Seq<A>, p: spec_fn(A) -> bool, q: spec_fn(A) -> bool, both: spec_fn(A) -> bool)
    requires
        forall|e: A| #[trigger] both(e) == (p(e) && q(e)),
    ensures
        s.filter(p).filter(q) == s.filter(both),
    decreases s.len(),
{
    reveal_with_fuel(Seq::filter, 1);
    if s.len() > 0 {
        lemma_filter_twice(s.drop_last(), p, q, both);
        let sub = s.drop_last().filter(p);
        if p(s.last()) {
            assert(s.filter(p) == sub.push(s.last()));
            assert(sub.push(s.last()).drop_last() =~= sub);
        }
    }
}

/// A filter of a strictly increasing sequence is strictly increasing.
pub proof fn lemma_filter_sorted<T: Ord>(s: Seq<T>, p: spec_fn(T) -> bool)
    requires
        sorted(s),
    ensures
        sorted(s.filter(p)),
    decreases s.len(),
{
    reveal_with_fuel(Seq::filter, 1);
    if s.len() > 0 {
        let init = s.drop_last();
        assert forall|i: int, j: int| 0 <= i < j < init.len() implies lt(#[trigger] init[i], #[trigger] init[j]) by {
            assert(init[i] == s[i] && init[j] == s[j]);
        }
        lemma_filter_sorted(init, p);
        lemma_filter_from(init, p);
        let sub = init.filter(p);
        if p(s.last()) {
            let f = sub.push(s.last());
            assert forall|i: int, j: int| 0 <= i < j < f.len() implies lt(#[trigger] f[i], #[trigger] f[j]) by {
                if j == f.len() - 1 {
                    assert(init.contains(sub[i]));
                    let k = choose|k: int| 0 <= k < init.len() && init[k] == sub[i];
                    assert(s[k] == init[k]);
                } else {
                    assert(f[i] == sub[i] && f[j] == sub[j]);
                }
            }
        }
    }
}

} // verus!

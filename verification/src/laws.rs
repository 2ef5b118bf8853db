//! What the set operations promise of one another.
//!
//! Each law is stated over the spec functions that the operations' own
//! contracts use: `insert` leaves `insert_value(old, value)`, `remove` leaves
//! `without(old, key)`, and `contains`/`search` answer `holds(view, key)`.

use vstd::prelude::*;
use vstd::arithmetic::power2::pow2;
use crate::order::total_order;
use crate::order::lt;
use crate::order::equiv;
use crate::order::lemma_order_facts;
use crate::order::lemma_lt_equiv;
use crate::sorted::sorted;
use crate::sorted::holds;
use crate::sorted::below;
use crate::sorted::above;
use crate::sorted::without;
use crate::sorted::insert_value;
use crate::sorted::lemma_filter_from;
use crate::sorted::lemma_filter_keeps_all;
use crate::tree::AVLTree;
use crate::iter::Iter;
use crate::node::fib;

verus! {

/// The values of `s` that compare equal to some value satisfy a property
/// exactly when a value at some index does.
proof fn lemma_filter_holds<T: Ord>(s: Seq<T>, p: spec_fn(T) -> bool, w: T)
    requires
        total_order::<T>(),
    ensures
        holds(s.filter(p), w) ==> holds(s, w),
        (exists|i: int| 0 <= i < s.len() && equiv(s[i], w) && p(s[i])) ==> holds(s.filter(p), w),
{
    broadcast use Seq::lemma_filter_contains;
    lemma_filter_from(s, p);
    if holds(s.filter(p), w) {
        let i = choose|i: int| 0 <= i < s.filter(p).len() && equiv(s.filter(p)[i], w);
        assert(s.contains(s.filter(p)[i]));
        let j = choose|j: int| 0 <= j < s.len() && s[j] == s.filter(p)[i];
        assert(equiv(s[j], w));
    }
    if exists|i: int| 0 <= i < s.len() && equiv(s[i], w) && p(s[i]) {
        let i = choose|i: int| 0 <= i < s.len() && equiv(s[i], w) && p(s[i]);
        assert(s.filter(p).contains(s[i]));
        let j = choose|j: int| 0 <= j < s.filter(p).len() && s.filter(p)[j] == s[i];
        assert(equiv(s.filter(p)[j], w));
    }
}

/// Set semantics of insertion: after inserting `v`, the set holds a value
/// equal to `w` exactly when it held one before or `w` equals `v`.
pub proof fn law_insert_holds<T: Ord>(s: Seq<T>, v: T, w: T)
    requires
        total_order::<T>(),
        sorted(s),
    ensures
        holds(insert_value(s, v), w) <==> holds(s, w) || equiv(w, v),
{
    lemma_order_facts(w, v);
    lemma_order_facts(v, w);
    if !holds(s, v) {
        let l = below(s, v);
        let r = above(s, v);
        let t = l + seq![v] + r;
        lemma_filter_holds(s, |e: T| lt(e, v), w);
        lemma_filter_holds(s, |e: T| lt(v, e), w);
        if holds(t, w) {
            let i = choose|i: int| 0 <= i < t.len() && equiv(t[i], w);
            if i < l.len() {
                assert(t[i] == l[i]);
                assert(holds(l, w));
            } else if i == l.len() {
                lemma_order_facts(t[i], w);
            } else {
                assert(t[i] == r[i - l.len() - 1]);
                assert(holds(r, w));
            }
        }
        if holds(s, w) {
            let i = choose|i: int| 0 <= i < s.len() && equiv(s[i], w);
            lemma_order_facts(s[i], v);
            lemma_lt_equiv(s[i], w, v);
            if lt(s[i], v) {
                assert(holds(l, w));
                let j = choose|j: int| 0 <= j < l.len() && equiv(l[j], w);
                assert(t[j] == l[j]);
            } else if lt(v, s[i]) {
                assert(holds(r, w));
                let j = choose|j: int| 0 <= j < r.len() && equiv(r[j], w);
                assert(t[l.len() + 1 + j] == r[j]);
            } else {
                lemma_lt_equiv(v, s[i], w);
                lemma_order_facts(s[i], v);
            }
        }
        if equiv(w, v) {
            assert(t[l.len() as int] == v);
            lemma_order_facts(v, w);
        }
    } else {
        if equiv(w, v) {
            let i = choose|i: int| 0 <= i < s.len() && equiv(s[i], v);
            lemma_lt_equiv(s[i], v, w);
            lemma_order_facts(w, v);
            lemma_lt_equiv(s[i], v, w);
        }
    }
}

/// After inserting a value, the set holds a value equal to it.
pub proof fn law_insert_then_contains<T: Ord>(s: Seq<T>, v: T)
    requires
        total_order::<T>(),
        sorted(s),
    ensures
        holds(insert_value(s, v), v),
{
    law_insert_holds(s, v, v);
    lemma_order_facts(v, v);
}

/// Inserting the same value twice is inserting it once.
pub proof fn law_insert_idempotent<T: Ord>(s: Seq<T>, v: T)
    requires
        total_order::<T>(),
        sorted(s),
    ensures
        insert_value(insert_value(s, v), v) == insert_value(s, v),
{
    law_insert_then_contains(s, v);
}

/// Set semantics of removal: after removing `key`, the set holds a value
/// equal to `w` exactly when it held one before and `w` does not equal
/// `key`.
pub proof fn law_remove_holds<T: Ord>(s: Seq<T>, key: T, w: T)
    requires
        total_order::<T>(),
    ensures
        holds(without(s, key), w) <==> holds(s, w) && !equiv(w, key),
{
    lemma_filter_holds(s, |e: T| !equiv(e, key), w);
    if holds(without(s, key), w) {
        let i = choose|i: int| 0 <= i < without(s, key).len() && equiv(without(s, key)[i], w);
        lemma_filter_from(s, |e: T| !equiv(e, key));
        let e = without(s, key)[i];
        lemma_lt_equiv(e, w, key);
        lemma_order_facts(e, w);
        lemma_lt_equiv(w, e, key);
        if equiv(w, key) {
            lemma_order_facts(w, key);
            lemma_order_facts(e, key);
        }
    }
    if holds(s, w) && !equiv(w, key) {
        let i = choose|i: int| 0 <= i < s.len() && equiv(s[i], w);
        lemma_lt_equiv(s[i], w, key);
        lemma_order_facts(s[i], w);
        if equiv(s[i], key) {
            lemma_lt_equiv(w, s[i], key);
        }
    }
}

/// After removing a key, no value equal to it is left.
pub proof fn law_remove_then_absent<T: Ord>(s: Seq<T>, key: T)
    requires
        total_order::<T>(),
    ensures
        !holds(without(s, key), key),
{
    law_remove_holds(s, key, key);
    lemma_order_facts(key, key);
}

/// Removing a key that no value equals changes nothing.
pub proof fn law_remove_absent<T: Ord>(s: Seq<T>, key: T)
    requires
        total_order::<T>(),
        !holds(s, key),
    ensures
        without(s, key) == s,
{
    assert forall|i: int| 0 <= i < s.len() implies !equiv(#[trigger] s[i], key) by {
        if equiv(s[i], key) {
            assert(holds(s, key));
        }
    }
    lemma_filter_keeps_all(s, |e: T| !equiv(e, key));
}

/// Removing a value just inserted, that was not there before, gives back a
/// set holding exactly what the set held before.
pub proof fn law_remove_undoes_insert<T: Ord>(s: Seq<T>, v: T, w: T)
    requires
        total_order::<T>(),
        sorted(s),
        !holds(s, v),
    ensures
        holds(without(insert_value(s, v), v), w) == holds(s, w),
{
    law_insert_holds(s, v, w);
    law_remove_holds(insert_value(s, v), v, w);
    if holds(s, w) && equiv(w, v) {
        let i = choose|i: int| 0 <= i < s.len() && equiv(s[i], w);
        lemma_lt_equiv(s[i], w, v);
        assert(holds(s, v));
    }
}

/// An AVL tree is shallow: a tree of height `h` holds at least `2^(h/2) - 1`
/// values, so search, insertion and removal take logarithmic time.
pub proof fn law_height_logarithmic<T>(tree: AVLTree<T>)
    requires
        tree.shape_ok(),
    ensures
        pow2(tree.spec_height() / 2) <= tree@.len() + 1,
{
    tree.lemma_height_logarithmic();
}

/// The AVL height bound: a tree of height `h` holds at least
/// `fib(h + 2) - 1` values, the fewest that any height-balanced tree of that
/// height can hold.
pub proof fn law_height_fibonacci<T>(tree: AVLTree<T>)
    requires
        tree.shape_ok(),
    ensures
        fib(tree.spec_height() + 2) <= tree@.len() + 1,
{
    tree.lemma_height_fibonacci();
}

/// Every traversal visits each stored value once: the pre-order,
/// post-order and level-order sequences hold the same values as the
/// ascending one.
pub proof fn law_traversals_permute<T>(tree: AVLTree<T>)
    ensures
        tree.spec_pre_order().to_multiset() == tree@.to_multiset(),
        tree.spec_post_order().to_multiset() == tree@.to_multiset(),
        tree.spec_level_order().to_multiset() == tree@.to_multiset(),
{
    tree.lemma_traversals_permute();
}

/// What a double-ended walk over `s` has done after `pulls`, taken in turn:
/// from the front where a pull is `true`, from the back where it is `false`,
/// each as `Iter::next` and `Iter::next_back` do, taking the first or the last
/// value of what is left, or nothing once nothing is left. Gives what is
/// left, the values taken from the front in order, and those taken from the
/// back in order.
pub open spec fn pulled<T>(s: Seq<T>, pulls: Seq<bool>) -> (Seq<T>, Seq<T>, Seq<T>)
    decreases pulls.len(),
{
    if pulls.len() == 0 {
        (s, Seq::empty(), Seq::empty())
    } else {
        let (left, front, back) = pulled(s, pulls.drop_last());
        if left.len() == 0 {
            (left, front, back)
        } else if pulls.last() {
            (left.drop_first(), front.push(left[0]), back)
        } else {
            (left.drop_last(), front, back.push(left.last()))
        }
    }
}

/// Taking from both ends meets in the middle: however `next` and
/// `next_back` calls are interleaved, the values taken from the front, then
/// what is left, then the values taken from the back read backwards, are the
/// whole sequence, so each value is yielded once and in order from its end.
pub proof fn law_both_ends_meet<T>(s: Seq<T>, pulls: Seq<bool>)
    ensures
        pulled(s, pulls).1 + pulled(s, pulls).0 + pulled(s, pulls).2.reverse() == s,
    decreases pulls.len(),
{
    if pulls.len() > 0 {
        law_both_ends_meet(s, pulls.drop_last());
        let (left, front, back) = pulled(s, pulls.drop_last());
        if left.len() > 0 {
            if pulls.last() {
                assert(front.push(left[0]) + left.drop_first() =~= front + left);
            } else {
                assert(back.push(left.last()).reverse() =~= seq![left.last()] + back.reverse());
                assert(left.drop_last() + seq![left.last()] =~= left);
                assert(front + left.drop_last() + back.push(left.last()).reverse() =~= front + left + back.reverse());
            }
        }
    } else {
        assert(Seq::<T>::empty() + s + Seq::<T>::empty().reverse() =~= s);
    }
}

/// Taking from both ends of an `Iter` meets in the middle. `next` appends
/// the value it yields to what was taken from the front and `next_back` to
/// what was taken from the back, each from its end of what is left; however
/// the calls are interleaved, the values taken from the front, then those
/// left, then those taken from the back read backwards, are all the values
/// the iterator was made with, so each is yielded once.
pub proof fn law_iter_both_ends<T>(it: Iter<'_, T>)
    requires
        it.wf(),
    ensures
        it.spec_front_taken() + it@ + it.spec_back_taken().reverse() == it.spec_all(),
{
    it.lemma_both_ends();
}

} // verus!

//! The AVL ordered set.

use vstd::prelude::*;
use crate::order::total_order;
use crate::order::lt;
use crate::order::equiv;
use crate::order::Relation;
use crate::order::compare;
use crate::order::lemma_order_facts;
use crate::order::lemma_lt_trans;
use crate::order::lemma_lt_equiv;
use crate::sorted::sorted;
use crate::sorted::all_below;
use crate::sorted::all_above;
use crate::sorted::holds;
use crate::sorted::below;
use crate::sorted::above;
use crate::sorted::without;
use crate::sorted::insert_value;
use crate::sorted::insert_values;
use crate::sorted::lemma_filter_keeps_all;
use crate::sorted::lemma_filter_drops_all;
use crate::sorted::lemma_filter_three;
use crate::sorted::lemma_filter_from;
use crate::sorted::lemma_sorted_join;
use crate::node::AVLNode;
use crate::node::Link;
use crate::node::values;
use crate::node::real_height;
use crate::node::avl;
use crate::node::rebalance;
use crate::node::join;
use crate::node::balanced_join;
use crate::node::lemma_avl_node;
use crate::node::lemma_height_small;
use crate::node::pre_values;
use crate::node::post_values;
use crate::sorted::at_or_above;
use crate::sorted::at_or_below;
use crate::sorted::first_n;
use crate::iter::Iter;
use crate::iter::IterFrom;
use crate::iter::IterTo;
use crate::iter::PreOrder;
use crate::iter::PostOrder;
use crate::iter::LevelOrder;
use crate::iter::Range;
use crate::iter::Bound;
use crate::iter::in_range;
use crate::iter::level_order_values;

verus! {

/// A height-balanced binary search tree storing unique values.
pub struct AVLTree<T> {
    root: Link<T>,
    len: usize,
}

/// Facts about the subtrees of a sorted AVL node.
pub(crate) proof fn lemma_sorted_node<T: Ord>(link: Link<T>)
    requires
        total_order::<T>(),
        link is Some,
        sorted(values(link)),
    ensures
        sorted(values(link.unwrap().left)),
        sorted(values(link.unwrap().right)),
        all_below(values(link.unwrap().left), link.unwrap().value),
        all_above(values(link.unwrap().right), link.unwrap().value),
{
    let n = link.unwrap();
    lemma_sorted_join(values(n.left), n.value, values(n.right));
}

/// Inserting below the node's value: how the node's sequence changes when its
/// left side changes from `l` to `nl`.
#[verifier::rlimit(50)]
proof fn lemma_insert_left<T: Ord>(l: Seq<T>, x: T, rr: Seq<T>, value: T, nl: Seq<T>, inserted: bool)
    requires
        total_order::<T>(),
        sorted(l + seq![x] + rr),
        lt(value, x),
        sorted(nl),
        inserted == !holds(l, value),
        inserted ==> nl == below(l, value) + seq![value] + above(l, value),
        !inserted ==> nl == l,
        forall|i: int| 0 <= i < nl.len() ==> #[trigger] nl[i] == value || l.contains(nl[i]),
    ensures
        sorted(nl + seq![x] + rr),
        inserted == !holds(l + seq![x] + rr, value),
        inserted ==> nl + seq![x] + rr == below(l + seq![x] + rr, value) + seq![value] + above(
            l + seq![x] + rr,
            value,
        ),
        !inserted ==> nl + seq![x] + rr == l + seq![x] + rr,
        forall|i: int| 0 <= i < (nl + seq![x] + rr).len() ==> #[trigger] (nl + seq![x] + rr)[i]
            == value || (l + seq![x] + rr).contains((nl + seq![x] + rr)[i]),
{
    let whole = l + seq![x] + rr;
    let s = nl + seq![x] + rr;
    lemma_sorted_join(l, x, rr);
    lemma_order_facts(value, x);
    assert forall|i: int| 0 <= i < rr.len() implies !equiv(#[trigger] rr[i], value) && !lt(rr[i], value) && lt(value, rr[i]) by {
        lemma_lt_trans(value, x, rr[i]);
        lemma_order_facts(value, rr[i]);
        lemma_order_facts(rr[i], value);
    }
    assert forall|i: int| 0 <= i < nl.len() implies lt(#[trigger] nl[i], x) by {
        if nl[i] != value {
            let j = choose|j: int| 0 <= j < l.len() && l[j] == nl[i];
        }
    }
    lemma_sorted_join(nl, x, rr);
    lemma_filter_three(l, x, rr, |e: T| lt(e, value));
    lemma_filter_three(l, x, rr, |e: T| lt(value, e));
    lemma_filter_drops_all(rr, |e: T| lt(e, value));
    lemma_filter_keeps_all(rr, |e: T| lt(value, e));
    if holds(l, value) {
        let j = choose|j: int| 0 <= j < l.len() && equiv(l[j], value);
        assert(whole[j] == l[j]);
    }
    if holds(whole, value) {
        let j = choose|j: int| 0 <= j < whole.len() && equiv(whole[j], value);
        if j < l.len() {
            assert(whole[j] == l[j]);
        } else if j == l.len() {
            lemma_order_facts(x, value);
        } else {
            assert(whole[j] == rr[j - l.len() - 1]);
        }
    }
    assert forall|i: int| 0 <= i < s.len() implies #[trigger] s[i] == value || whole.contains(s[i]) by {
        if i < nl.len() {
            assert(s[i] == nl[i]);
            if nl[i] != value {
                let j = choose|j: int| 0 <= j < l.len() && l[j] == nl[i];
                assert(whole[j] == l[j]);
            }
        } else if i == nl.len() {
            assert(whole[l.len() as int] == x);
        } else {
            assert(whole[i - nl.len() + l.len()] == rr[i - nl.len() - 1]);
        }
    }
}

/// Inserting above the node's value: how the node's sequence changes when its
/// right side changes from `rr` to `nr`.
#[verifier::rlimit(50)]
proof fn lemma_insert_right<T: Ord>(l: Seq<T>, x: T, rr: Seq<T>, value: T, nr: Seq<T>, inserted: bool)
    requires
        total_order::<T>(),
        sorted(l + seq![x] + rr),
        lt(x, value),
        sorted(nr),
        inserted == !holds(rr, value),
        inserted ==> nr == below(rr, value) + seq![value] + above(rr, value),
        !inserted ==> nr == rr,
        forall|i: int| 0 <= i < nr.len() ==> #[trigger] nr[i] == value || rr.contains(nr[i]),
    ensures
        sorted(l + seq![x] + nr),
        inserted == !holds(l + seq![x] + rr, value),
        inserted ==> l + seq![x] + nr == below(l + seq![x] + rr, value) + seq![value] + above(
            l + seq![x] + rr,
            value,
        ),
        !inserted ==> l + seq![x] + nr == l + seq![x] + rr,
        forall|i: int| 0 <= i < (l + seq![x] + nr).len() ==> #[trigger] (l + seq![x] + nr)[i]
            == value || (l + seq![x] + rr).contains((l + seq![x] + nr)[i]),
{
    let whole = l + seq![x] + rr;
    let s = l + seq![x] + nr;
    lemma_sorted_join(l, x, rr);
    lemma_order_facts(x, value);
    assert forall|i: int| 0 <= i < l.len() implies !equiv(#[trigger] l[i], value) && !lt(value, l[i]) && lt(l[i], value) by {
        lemma_lt_trans(l[i], x, value);
        lemma_order_facts(value, l[i]);
        lemma_order_facts(l[i], value);
    }
    assert forall|i: int| 0 <= i < nr.len() implies lt(x, #[trigger] nr[i]) by {
        if nr[i] != value {
            let j = choose|j: int| 0 <= j < rr.len() && rr[j] == nr[i];
        }
    }
    lemma_sorted_join(l, x, nr);
    lemma_filter_three(l, x, rr, |e: T| lt(e, value));
    lemma_filter_three(l, x, rr, |e: T| lt(value, e));
    lemma_filter_keeps_all(l, |e: T| lt(e, value));
    lemma_filter_drops_all(l, |e: T| lt(value, e));
    if holds(rr, value) {
        let j = choose|j: int| 0 <= j < rr.len() && equiv(rr[j], value);
        assert(whole[j + l.len() + 1] == rr[j]);
    }
    if holds(whole, value) {
        let j = choose|j: int| 0 <= j < whole.len() && equiv(whole[j], value);
        if j < l.len() {
            assert(whole[j] == l[j]);
        } else if j == l.len() {
            lemma_order_facts(x, value);
        } else {
            assert(whole[j] == rr[j - l.len() - 1]);
        }
    }
    assert forall|i: int| 0 <= i < s.len() implies #[trigger] s[i] == value || whole.contains(s[i]) by {
        if i < l.len() {
            assert(whole[i] == l[i]);
        } else if i == l.len() {
            assert(whole[l.len() as int] == x);
        } else {
            assert(s[i] == nr[i - l.len() - 1]);
            if nr[i - l.len() - 1] != value {
                let j = choose|j: int| 0 <= j < rr.len() && rr[j] == nr[i - l.len() - 1];
                assert(whole[j + l.len() + 1] == rr[j]);
            }
        }
    }
}

/// The subtree that inserting `value` below `link` makes: a new leaf where
/// the search for `value` ends on an empty subtree, each node on the way
/// rebalanced on the way back up; where an equal value is met, the subtree
/// is left as it is.
pub open(crate) spec fn inserted<T: Ord>(link: Link<T>, value: T) -> Link<T>
    decreases link,
{
    match link {
        None => join(value, None, None),
        Some(n) => if lt(value, n.value) {
            balanced_join(n.value, inserted(n.left, value), n.right)
        } else if lt(n.value, value) {
            balanced_join(n.value, n.left, inserted(n.right, value))
        } else {
            link
        },
    }
}

/// The subtree that inserting `vs` one after another below `link` makes.
pub open(crate) spec fn inserted_all<T: Ord>(link: Link<T>, vs: Seq<T>) -> Link<T>
    decreases vs.len(),
{
    if vs.len() == 0 {
        link
    } else {
        inserted(inserted_all(link, vs.drop_last()), vs.last())
    }
}

/// Inserts `value` below `node`, returning the new subtree and whether the
/// value was new; see `inserted`.
#[verifier::spinoff_prover]
#[verifier::rlimit(40)]
fn insert_node<T: Ord>(node: Link<T>, value: T) -> (r: (Link<T>, bool))
    requires
        total_order::<T>(),
        avl(node),
        sorted(values(node)),
        values(node).len() < usize::MAX,
    ensures
        avl(r.0),
        sorted(values(r.0)),
        r.1 == !holds(values(node), value),
        r.1 ==> values(r.0) == below(values(node), value) + seq![value] + above(values(node), value),
        !r.1 ==> r.0 == node,
        r.0 == inserted(node, value),
        values(r.0).len() == values(node).len() + (if r.1 { 1int } else { 0int }),
        forall|i: int| 0 <= i < values(r.0).len() ==> #[trigger] values(r.0)[i] == value
            || values(node).contains(values(r.0)[i]),
        real_height(node) <= real_height(r.0) <= real_height(node) + 1,
    decreases node,
{
    match node {
        None => {
            let r = Some(Box::new(AVLNode::new(value)));
            proof {
                lemma_filter_drops_all(values(node), |e: T| lt(e, value));
                lemma_filter_drops_all(values(node), |e: T| lt(value, e));
                assert(values(r) =~= seq![value]);
            }
            (r, true)
        },
        Some(mut n) => {
            let ghost n0 = *n;
            proof {
                lemma_avl_node(node);
                lemma_sorted_node(node);
                lemma_height_small(node);
                lemma_order_facts(value, n0.value);
            }
            match compare(&value, &n.value) {
                Relation::Less => {
                    let (left, inserted) = insert_node(n.left.take(), value);
                    n.left = left;
                    proof {
                        lemma_insert_left(values(n0.left), n0.value, values(n0.right), value, values(left), inserted);
                    }
                    let r = rebalance(n);
                    (Some(r), inserted)
                },
                Relation::Greater => {
                    let (right, inserted) = insert_node(n.right.take(), value);
                    n.right = right;
                    proof {
                        lemma_insert_right(values(n0.left), n0.value, values(n0.right), value, values(right), inserted);
                    }
                    let r = rebalance(n);
                    (Some(r), inserted)
                },
                Relation::Equal => {
                    proof {
                        assert(values(node)[values(n0.left).len() as int] == n0.value);
                        assert(Some(n) == node);
                        lemma_order_facts(n0.value, value);
                    }
                    (Some(n), false)
                },
            }
        },
    }
}

/// The rest of the subtree below `node` once its leftmost node is detached,
/// each node on the way rebalanced, and the detached value.
pub open(crate) spec fn without_min<T>(node: Box<AVLNode<T>>) -> (Link<T>, T)
    decreases node,
{
    match node.left {
        None => (node.right, node.value),
        Some(left) => {
            let (rest, minimum) = without_min(left);
            (balanced_join(node.value, rest, node.right), minimum)
        },
    }
}

/// The subtree that removing the value equal to `key` from below `link`
/// makes. The node that holds it gives way to its only child; a node with two
/// children takes the smallest value of its right subtree in its place. Each
/// node on the way is rebalanced on the way back up. Where no value is equal
/// to `key`, the subtree is left as it is.
pub open(crate) spec fn removed<T: Ord>(link: Link<T>, key: T) -> Link<T>
    decreases link,
{
    match link {
        None => None,
        Some(n) => if lt(key, n.value) {
            if holds(values(n.left), key) {
                balanced_join(n.value, removed(n.left, key), n.right)
            } else {
                link
            }
        } else if lt(n.value, key) {
            if holds(values(n.right), key) {
                balanced_join(n.value, n.left, removed(n.right, key))
            } else {
                link
            }
        } else {
            root_removed(n)
        },
    }
}

/// The subtree left when the root of `node`'s subtree is removed: its only
/// child, or, where it has two, the smallest value of its right subtree put
/// in its place and the node rebalanced.
pub open(crate) spec fn root_removed<T>(node: Box<AVLNode<T>>) -> Link<T> {
    match node.right {
        None => node.left,
        Some(right) => match node.left {
            None => node.right,
            Some(_) => {
                let (rest, minimum) = without_min(right);
                balanced_join(minimum, node.left, rest)
            },
        },
    }
}

/// Detaches the leftmost node of a subtree.
///
/// Returns the rest of the subtree and the detached node, which has no
/// children; the detached value comes first in the subtree's in-order
/// sequence.
pub(crate) fn take_min<T>(mut node: Box<AVLNode<T>>) -> (r: (Link<T>, Box<AVLNode<T>>))
    requires
        avl(Some(node)),
        values(Some(node)).len() <= usize::MAX,
    ensures
        avl(r.0),
        seq![r.1.value] + values(r.0) == values(Some(node)),
        r.1.left is None,
        r.1.right is None,
        real_height(r.0) <= real_height(Some(node)) <= real_height(r.0) + 1,
        (r.0, r.1.value) == without_min(node),
    decreases node,
{
    let ghost n0 = *node;
    proof {
        lemma_avl_node(Some(node));
        lemma_height_small(Some(node));
    }
    match node.left.take() {
        None => {
            let right = node.right.take();
            proof {
                assert(values(n0.left) =~= Seq::<T>::empty());
                assert(values(Some(Box::new(n0))) =~= seq![n0.value] + values(right));
            }
            (right, node)
        },
        Some(left) => {
            let (new_left, minimum) = take_min(left);
            node.left = new_left;
            proof {
                assert(values(Some(Box::new(n0))) =~= seq![minimum.value] + (values(new_left)
                    + seq![n0.value] + values(n0.right)));
            }
            let r = rebalance(node);
            proof {
                assert(values(Some(r)) =~= values(new_left) + seq![n0.value] + values(n0.right));
            }
            (Some(r), minimum)
        },
    }
}

/// Removing below the node's value: how the node's sequence changes when its
/// left side changes from `l` to `nl`.
proof fn lemma_remove_left<T: Ord>(l: Seq<T>, x: T, rr: Seq<T>, key: T, nl: Seq<T>)
    requires
        total_order::<T>(),
        sorted(l + seq![x] + rr),
        lt(key, x),
        sorted(nl),
        nl == without(l, key),
    ensures
        sorted(nl + seq![x] + rr),
        holds(l, key) == holds(l + seq![x] + rr, key),
        nl + seq![x] + rr == without(l + seq![x] + rr, key),
{
    let whole = l + seq![x] + rr;
    lemma_sorted_join(l, x, rr);
    lemma_order_facts(key, x);
    lemma_order_facts(x, key);
    assert forall|i: int| 0 <= i < rr.len() implies !equiv(#[trigger] rr[i], key) by {
        lemma_lt_trans(key, x, rr[i]);
        lemma_order_facts(key, rr[i]);
        lemma_order_facts(rr[i], key);
    }
    lemma_filter_from(l, |e: T| !equiv(e, key));
    assert forall|i: int| 0 <= i < nl.len() implies lt(#[trigger] nl[i], x) by {
        let j = choose|j: int| 0 <= j < l.len() && l[j] == nl[i];
    }
    lemma_sorted_join(nl, x, rr);
    lemma_filter_three(l, x, rr, |e: T| !equiv(e, key));
    lemma_filter_keeps_all(rr, |e: T| !equiv(e, key));
    if holds(l, key) {
        let j = choose|j: int| 0 <= j < l.len() && equiv(l[j], key);
        assert(whole[j] == l[j]);
    }
    if holds(whole, key) {
        let j = choose|j: int| 0 <= j < whole.len() && equiv(whole[j], key);
        if j < l.len() {
            assert(whole[j] == l[j]);
        } else if j > l.len() {
            assert(whole[j] == rr[j - l.len() - 1]);
        }
    }
}

/// Removing above the node's value: how the node's sequence changes when its
/// right side changes from `rr` to `nr`.
proof fn lemma_remove_right<T: Ord>(l: Seq<T>, x: T, rr: Seq<T>, key: T, nr: Seq<T>)
    requires
        total_order::<T>(),
        sorted(l + seq![x] + rr),
        lt(x, key),
        sorted(nr),
        nr == without(rr, key),
    ensures
        sorted(l + seq![x] + nr),
        holds(rr, key) == holds(l + seq![x] + rr, key),
        l + seq![x] + nr == without(l + seq![x] + rr, key),
{
    let whole = l + seq![x] + rr;
    lemma_sorted_join(l, x, rr);
    lemma_order_facts(key, x);
    lemma_order_facts(x, key);
    assert forall|i: int| 0 <= i < l.len() implies !equiv(#[trigger] l[i], key) by {
        lemma_lt_trans(l[i], x, key);
        lemma_order_facts(key, l[i]);
        lemma_order_facts(l[i], key);
    }
    lemma_filter_from(rr, |e: T| !equiv(e, key));
    assert forall|i: int| 0 <= i < nr.len() implies lt(x, #[trigger] nr[i]) by {
        let j = choose|j: int| 0 <= j < rr.len() && rr[j] == nr[i];
    }
    lemma_sorted_join(l, x, nr);
    lemma_filter_three(l, x, rr, |e: T| !equiv(e, key));
    lemma_filter_keeps_all(l, |e: T| !equiv(e, key));
    if holds(rr, key) {
        let j = choose|j: int| 0 <= j < rr.len() && equiv(rr[j], key);
        assert(whole[j + l.len() + 1] == rr[j]);
    }
    if holds(whole, key) {
        let j = choose|j: int| 0 <= j < whole.len() && equiv(whole[j], key);
        if j < l.len() {
            assert(whole[j] == l[j]);
        } else if j > l.len() {
            assert(whole[j] == rr[j - l.len() - 1]);
        }
    }
}

/// Removing the node's own value leaves the two sides, joined.
proof fn lemma_remove_here<T: Ord>(l: Seq<T>, x: T, rr: Seq<T>, key: T)
    requires
        total_order::<T>(),
        sorted(l + seq![x] + rr),
        equiv(key, x),
    ensures
        holds(l + seq![x] + rr, key),
        l + rr == without(l + seq![x] + rr, key),
        all_below(l, x),
        all_above(rr, x),
        sorted(l),
        sorted(rr),
{
    let whole = l + seq![x] + rr;
    lemma_sorted_join(l, x, rr);
    lemma_order_facts(key, x);
    lemma_order_facts(x, key);
    assert(whole[l.len() as int] == x);
    assert forall|i: int| 0 <= i < l.len() implies !equiv(#[trigger] l[i], key) by {
        lemma_lt_equiv(l[i], x, key);
        lemma_order_facts(l[i], key);
    }
    assert forall|i: int| 0 <= i < rr.len() implies !equiv(#[trigger] rr[i], key) by {
        lemma_lt_equiv(key, x, rr[i]);
        lemma_order_facts(key, rr[i]);
        lemma_order_facts(rr[i], key);
    }
    lemma_filter_three(l, x, rr, |e: T| !equiv(e, key));
    lemma_filter_keeps_all(l, |e: T| !equiv(e, key));
    lemma_filter_keeps_all(rr, |e: T| !equiv(e, key));
}

/// Removes the value equal to `key` from below `node`, returning the new
/// subtree and whether there was one; see `removed`.
#[verifier::spinoff_prover]
#[verifier::rlimit(60)]
fn remove_node<T: Ord>(node: Link<T>, key: &T) -> (r: (Link<T>, bool))
    requires
        total_order::<T>(),
        avl(node),
        sorted(values(node)),
        values(node).len() <= usize::MAX,
    ensures
        avl(r.0),
        sorted(values(r.0)),
        r.1 == holds(values(node), *key),
        values(r.0) == without(values(node), *key),
        !r.1 ==> r.0 == node,
        r.0 == removed(node, *key),
        values(r.0).len() + (if r.1 { 1int } else { 0int }) == values(node).len(),
        real_height(r.0) <= real_height(node) <= real_height(r.0) + 1,
    decreases node,
{
    match node {
        None => {
            proof {
                lemma_filter_keeps_all(values(node), |e: T| !equiv(e, *key));
            }
            (None, false)
        },
        Some(mut n) => {
            let ghost n0 = *n;
            let ghost l = values(n0.left);
            let ghost rr = values(n0.right);
            proof {
                lemma_avl_node(node);
                lemma_sorted_node(node);
                lemma_height_small(node);
                lemma_order_facts(*key, n0.value);
                assert(values(node) == l + seq![n0.value] + rr);
            }
            match compare(key, &n.value) {
                Relation::Less => {
                    let (left, removed) = remove_node(n.left.take(), key);
                    n.left = left;
                    proof {
                        lemma_remove_left(l, n0.value, rr, *key, values(left));
                    }
                    if removed {
                        (Some(rebalance(n)), true)
                    } else {
                        (Some(n), false)
                    }
                },
                Relation::Greater => {
                    let (right, removed) = remove_node(n.right.take(), key);
                    n.right = right;
                    proof {
                        lemma_remove_right(l, n0.value, rr, *key, values(right));
                    }
                    if removed {
                        (Some(rebalance(n)), true)
                    } else {
                        (Some(n), false)
                    }
                },
                Relation::Equal => {
                    proof {
                        lemma_remove_here(l, n0.value, rr, *key);
                    }
                    let left = n.left.take();
                    let right = n.right.take();
                    match right {
                        None => {
                            proof {
                                assert(l + rr =~= l);
                            }
                            (left, true)
                        },
                        Some(right) => {
                            match left {
                                None => {
                                    proof {
                                        assert(l + rr =~= rr);
                                    }
                                    (Some(right), true)
                                },
                                Some(left) => {
                                    let (new_right, mut successor) = take_min(right);
                                    let ghost m = successor.value;
                                    let ghost nr = values(new_right);
                                    proof {
                                        assert(rr == seq![m] + nr);
                                        assert(rr[0] == m);
                                        assert forall|i: int| 0 <= i < nr.len() implies lt(m, #[trigger] nr[i]) by {
                                            assert(rr[i + 1] == nr[i]);
                                        }
                                        assert forall|i: int, j: int| 0 <= i < j < nr.len() implies lt(#[trigger] nr[i], #[trigger] nr[j]) by {
                                            assert(rr[i + 1] == nr[i] && rr[j + 1] == nr[j]);
                                        }
                                        assert forall|i: int| 0 <= i < l.len() implies lt(#[trigger] l[i], m) by {
                                            lemma_lt_trans(l[i], n0.value, m);
                                        }
                                        lemma_sorted_join(l, m, nr);
                                        assert(l + rr =~= l + seq![m] + nr);
                                    }
                                    successor.left = Some(left);
                                    successor.right = new_right;
                                    let r = rebalance(successor);
                                    (Some(r), true)
                                },
                            }
                        },
                    }
                },
            }
        },
    }
}

/// Where a search for `key` goes at a node with value `x`.
proof fn lemma_descend<T: Ord>(l: Seq<T>, x: T, rr: Seq<T>, key: T)
    requires
        total_order::<T>(),
        sorted(l + seq![x] + rr),
    ensures
        lt(key, x) ==> holds(l + seq![x] + rr, key) == holds(l, key),
        lt(x, key) ==> holds(l + seq![x] + rr, key) == holds(rr, key),
        equiv(key, x) ==> holds(l + seq![x] + rr, key),
        forall|i: int| 0 <= i < l.len() ==> (l + seq![x] + rr).contains(#[trigger] l[i]),
        forall|i: int| 0 <= i < rr.len() ==> (l + seq![x] + rr).contains(#[trigger] rr[i]),
        (l + seq![x] + rr).contains(x),
{
    let whole = l + seq![x] + rr;
    lemma_sorted_join(l, x, rr);
    lemma_order_facts(key, x);
    lemma_order_facts(x, key);
    assert(whole[l.len() as int] == x);
    assert forall|i: int| 0 <= i < l.len() implies whole.contains(#[trigger] l[i]) by {
        assert(whole[i] == l[i]);
    }
    assert forall|i: int| 0 <= i < rr.len() implies whole.contains(#[trigger] rr[i]) by {
        assert(whole[i + l.len() + 1] == rr[i]);
    }
    if lt(key, x) {
        assert forall|i: int| 0 <= i < rr.len() implies !equiv(#[trigger] rr[i], key) by {
            lemma_lt_trans(key, x, rr[i]);
            lemma_order_facts(key, rr[i]);
            lemma_order_facts(rr[i], key);
        }
        if holds(l, key) {
            let j = choose|j: int| 0 <= j < l.len() && equiv(l[j], key);
            assert(whole[j] == l[j]);
        }
        if holds(whole, key) {
            let j = choose|j: int| 0 <= j < whole.len() && equiv(whole[j], key);
            if j < l.len() {
                assert(whole[j] == l[j]);
            } else if j > l.len() {
                assert(whole[j] == rr[j - l.len() - 1]);
            }
        }
    }
    if lt(x, key) {
        assert forall|i: int| 0 <= i < l.len() implies !equiv(#[trigger] l[i], key) by {
            lemma_lt_trans(l[i], x, key);
            lemma_order_facts(key, l[i]);
            lemma_order_facts(l[i], key);
        }
        if holds(rr, key) {
            let j = choose|j: int| 0 <= j < rr.len() && equiv(rr[j], key);
            assert(whole[j + l.len() + 1] == rr[j]);
        }
        if holds(whole, key) {
            let j = choose|j: int| 0 <= j < whole.len() && equiv(whole[j], key);
            if j < l.len() {
                assert(whole[j] == l[j]);
            } else if j > l.len() {
                assert(whole[j] == rr[j - l.len() - 1]);
            }
        }
    }
    if equiv(key, x) {
        lemma_order_facts(x, key);
    }
}

impl<T> AVLTree<T> {
    /// The stored values in ascending order.
    pub closed spec fn spec_values(&self) -> Seq<T> {
        values(self.root)
    }

    /// The root subtree.
    pub closed spec fn spec_root(&self) -> Link<T> {
        self.root
    }

    /// The number of levels of the tree; an empty tree has height zero.
    pub closed spec fn spec_height(&self) -> nat {
        real_height(self.root)
    }

    /// The tree is height-balanced, every node caches its height, and the
    /// length counter is the number of stored values.
    #[verifier::type_invariant]
    pub closed spec fn shape_ok(&self) -> bool {
        &&& avl(self.root)
        &&& self.len == values(self.root).len()
    }

    /// Creates an empty tree.
    pub fn new() -> (r: Self)
        ensures
            r.shape_ok(),
            r@ == Seq::<T>::empty(),
            r.spec_height() == 0,
            r.spec_root() is None,
    {
        AVLTree { root: None, len: 0 }
    }

    /// Returns the number of values in the tree.
    pub fn len(&self) -> (r: usize)
        ensures
            r == self@.len(),
    {
        proof {
            use_type_invariant(&*self);
        }
        self.len
    }

    /// Returns `true` when the tree contains no values.
    pub fn is_empty(&self) -> (r: bool)
        ensures
            r == (self@.len() == 0),
    {
        proof {
            use_type_invariant(&*self);
        }
        self.len == 0
    }

    /// Returns the tree height, where an empty tree has height zero.
    pub fn height(&self) -> (r: usize)
        ensures
            r == self.spec_height(),
            r == 0 <==> self@.len() == 0,
    {
        proof {
            use_type_invariant(&*self);
            crate::node::lemma_cached_height(self.root);
        }
        crate::node::height(&self.root)
    }

    /// Removes all values.
    pub fn clear(&mut self)
        ensures
            final(self).shape_ok(),
            final(self)@ == Seq::<T>::empty(),
            final(self).spec_height() == 0,
            final(self).spec_root() is None,
    {
        *self = AVLTree { root: None, len: 0 };
    }

    /// The values in root-left-right order.
    pub closed spec fn spec_pre_order(&self) -> Seq<T> {
        pre_values(self.root)
    }

    /// The values in left-right-root order.
    pub closed spec fn spec_post_order(&self) -> Seq<T> {
        post_values(self.root)
    }

    /// The values level by level, each level left to right.
    pub closed spec fn spec_level_order(&self) -> Seq<T> {
        level_order_values(self.root)
    }

    /// Iterates over values in ascending (in-order) sequence.
    pub fn iter(&self) -> (r: Iter<'_, T>)
        ensures
            r.wf(),
            r@ == self@,
            r.spec_all() == self@,
            r.spec_front_taken() == Seq::<T>::empty(),
            r.spec_back_taken() == Seq::<T>::empty(),
    {
        proof {
            use_type_invariant(&*self);
        }
        Iter::new(&self.root, self.len)
    }

    /// Alias for [`iter`](Self::iter).
    pub fn in_order(&self) -> (r: Iter<'_, T>)
        ensures
            r.wf(),
            r@ == self@,
            r.spec_all() == self@,
            r.spec_front_taken() == Seq::<T>::empty(),
            r.spec_back_taken() == Seq::<T>::empty(),
    {
        proof {
            use_type_invariant(&*self);
        }
        self.iter()
    }

    /// Traverses values in root-left-right order.
    pub fn pre_order(&self) -> (r: PreOrder<'_, T>)
        ensures
            r@ == self.spec_pre_order(),
    {
        PreOrder::new(&self.root)
    }

    /// Traverses values in left-right-root order.
    pub fn post_order(&self) -> (r: PostOrder<'_, T>)
        ensures
            r@ == self.spec_post_order(),
    {
        PostOrder::new(&self.root)
    }

    /// Traverses values one level at a time.
    pub fn level_order(&self) -> (r: LevelOrder<'_, T>)
        ensures
            r@ == self.spec_level_order(),
    {
        LevelOrder::new(&self.root)
    }

    /// See `laws::law_height_logarithmic`.
    pub proof fn lemma_height_logarithmic(&self)
        requires
            self.shape_ok(),
        ensures
            vstd::arithmetic::power2::pow2(self.spec_height() / 2) <= self@.len() + 1,
    {
        crate::node::lemma_height_logarithmic(self.root);
    }

    /// See `laws::law_height_fibonacci`.
    pub proof fn lemma_height_fibonacci(&self)
        requires
            self.shape_ok(),
        ensures
            crate::node::fib(self.spec_height() + 2) <= self@.len() + 1,
    {
        crate::node::lemma_height_fibonacci(self.root);
    }

    /// See `laws::law_traversals_permute`.
    pub proof fn lemma_traversals_permute(&self)
        ensures
            self.spec_pre_order().to_multiset() == self@.to_multiset(),
            self.spec_post_order().to_multiset() == self@.to_multiset(),
            self.spec_level_order().to_multiset() == self@.to_multiset(),
    {
        crate::node::lemma_orders_permute(self.root);
        crate::iter::lemma_level_order_permutes(self.root);
    }

    /// Returns a read-only view of the root node.
    pub fn root(&self) -> (r: Option<&AVLNode<T>>)
        ensures
            r == match self.spec_root() {
                Some(b) => Some(&*b),
                None => None::<&AVLNode<T>>,
            },
            r is None <==> self@.len() == 0,
    {
        match &self.root {
            Some(b) => Some(&**b),
            None => None,
        }
    }
}

impl<T> Default for AVLTree<T> {
    fn default() -> (r: Self)
        ensures
            r.shape_ok(),
            r@ == Seq::<T>::empty(),
    {
        Self::new()
    }
}

impl<T> View for AVLTree<T> {
    type V = Seq<T>;

    /// The stored values in ascending order.
    open spec fn view(&self) -> Seq<T> {
        self.spec_values()
    }
}

impl<T: Ord> AVLTree<T> {
    /// The tree's invariant: its shape is right and its values are strictly
    /// increasing.
    pub open spec fn well_formed(&self) -> bool {
        self.shape_ok() && sorted(self@)
    }

    /// Inserts `value`, returning `false` if an equal value was already
    /// present (the tree is then unchanged).
    pub fn insert(&mut self, value: T) -> (r: bool)
        requires
            total_order::<T>(),
            old(self).well_formed(),
            old(self)@.len() < usize::MAX,
        ensures
            final(self).well_formed(),
            r == !holds(old(self)@, value),
            final(self)@ == insert_value(old(self)@, value),
            final(self)@.len() == old(self)@.len() + (if r { 1int } else { 0int }),
            r ==> final(self)@ == below(old(self)@, value) + seq![value] + above(old(self)@, value),
            !r ==> *final(self) == *old(self),
            final(self).spec_root() == inserted(old(self).spec_root(), value),
    {
        let mut tree = AVLTree { root: None, len: 0 };
        core::mem::swap(&mut tree, self);
        let AVLTree { root, len } = tree;
        let (root, inserted) = insert_node(root, value);
        let len = if inserted {
            len + 1
        } else {
            len
        };
        *self = AVLTree { root, len };
        inserted
    }

    /// Inserts each value in turn.
    #[verifier::rlimit(30)]
    pub fn extend(&mut self, values: Vec<T>)
        requires
            total_order::<T>(),
            old(self).well_formed(),
            old(self)@.len() + values.len() <= usize::MAX,
        ensures
            final(self).well_formed(),
            final(self)@ == insert_values(old(self)@, values@),
            final(self).spec_root() == inserted_all(old(self).spec_root(), values@),
    {
        let ghost vs = values@;
        let ghost start = self@;
        let ghost start_root = self.spec_root();
        for value in it: values
            invariant
                total_order::<T>(),
                self.well_formed(),
                start.len() + vs.len() <= usize::MAX,
                it.seq() == vs,
                it.index() <= vs.len(),
                self@.len() <= start.len() + it.index(),
                self@ == insert_values(start, vs.take(it.index() as int)),
                self.spec_root() == inserted_all(start_root, vs.take(it.index() as int)),
        {
            let ghost done = vs.take(it.index() as int);
            let ghost next = vs.take(it.index() + 1 as int);
            proof {
                assert(next.drop_last() =~= done);
                assert(vs[it.index() as int] == value);
                assert(next.last() == value);
            }
            self.insert(value);
            proof {
                assert(self.spec_root() == inserted_all(start_root, next));
            }
        }
        proof {
            assert(vs.take(vs.len() as int) =~= vs);
        }
    }

    /// Builds a tree holding the given values; of several equal values the
    /// first is kept.
    pub fn from_iter(values: Vec<T>) -> (r: Self)
        requires
            total_order::<T>(),
        ensures
            r.well_formed(),
            r@ == insert_values(Seq::<T>::empty(), values@),
            r.spec_root() == inserted_all(None, values@),
    {
        let mut tree = Self::new();
        tree.extend(values);
        tree
    }

    /// Finds and returns the stored value equal to `key`.
    pub fn search(&self, key: &T) -> (r: Option<&T>)
        requires
            total_order::<T>(),
            self.well_formed(),
        ensures
            match r {
                Some(v) => self@.contains(*v) && equiv(*key, *v),
                None => !holds(self@, *key),
            },
    {
        let mut node = &self.root;
        loop
            invariant
                total_order::<T>(),
                sorted(values(*node)),
                holds(self@, *key) == holds(values(*node), *key),
                forall|i: int| 0 <= i < values(*node).len() ==> self@.contains(#[trigger] values(*node)[i]),
            decreases real_height(*node),
        {
            match node {
                None => {
                    return None;
                },
                Some(current) => {
                    proof {
                        lemma_sorted_node(*node);
                        lemma_descend(values(current.left), current.value, values(current.right), *key);
                        assert(values(*node) == values(current.left) + seq![current.value] + values(current.right));
                        assert(values(*node)[values(current.left).len() as int] == current.value);
                    }
                    match compare(key, &current.value) {
                        Relation::Less => {
                            node = &current.left;
                        },
                        Relation::Greater => {
                            node = &current.right;
                        },
                        Relation::Equal => {
                            return Some(&current.value);
                        },
                    }
                },
            }
        }
    }

    /// Conventional alias for [`search`](Self::search).
    pub fn get(&self, key: &T) -> (r: Option<&T>)
        requires
            total_order::<T>(),
            self.well_formed(),
        ensures
            match r {
                Some(v) => self@.contains(*v) && equiv(*key, *v),
                None => !holds(self@, *key),
            },
    {
        self.search(key)
    }

    /// Returns whether a value equal to `key` is present.
    pub fn contains(&self, key: &T) -> (r: bool)
        requires
            total_order::<T>(),
            self.well_formed(),
        ensures
            r == holds(self@, *key),
    {
        let found = self.search(key);
        proof {
            if let Some(v) = found {
                lemma_order_facts(*key, *v);
                let j = choose|j: int| 0 <= j < self@.len() && self@[j] == *v;
                assert(equiv(self@[j], *key));
            }
        }
        found.is_some()
    }

    /// Compatibility alias for [`contains`](Self::contains).
    pub fn has_node(&self, key: &T) -> (r: bool)
        requires
            total_order::<T>(),
            self.well_formed(),
        ensures
            r == holds(self@, *key),
    {
        self.contains(key)
    }

    /// Returns the smallest value.
    pub fn first(&self) -> (r: Option<&T>)
        ensures
            match r {
                Some(v) => self@.len() > 0 && *v == self@[0],
                None => self@.len() == 0,
            },
    {
        proof {
            use_type_invariant(&*self);
        }
        let mut node = match &self.root {
            Some(n) => n,
            None => {
                return None;
            },
        };
        loop
            invariant
                self@.len() > 0,
                values(Some(*node)).len() > 0,
                values(Some(*node))[0] == self@[0],
            decreases real_height(Some(*node)),
        {
            proof {
                assert(values(Some(*node)) == values(node.left) + seq![node.value] + values(node.right));
            }
            match &node.left {
                Some(left) => {
                    proof {
                        assert(values(Some(*node))[0] == values(node.left)[0]);
                    }
                    node = left;
                },
                None => {
                    proof {
                        assert(values(node.left) =~= Seq::<T>::empty());
                        assert(values(Some(*node))[0] == node.value);
                    }
                    return Some(&node.value);
                },
            }
        }
    }

    /// Alias for [`first`](Self::first).
    pub fn min(&self) -> (r: Option<&T>)
        ensures
            match r {
                Some(v) => self@.len() > 0 && *v == self@[0],
                None => self@.len() == 0,
            },
    {
        proof {
            use_type_invariant(&*self);
        }
        self.first()
    }

    /// Returns the largest value.
    pub fn last(&self) -> (r: Option<&T>)
        ensures
            match r {
                Some(v) => self@.len() > 0 && *v == self@.last(),
                None => self@.len() == 0,
            },
    {
        proof {
            use_type_invariant(&*self);
        }
        let mut node = match &self.root {
            Some(n) => n,
            None => {
                return None;
            },
        };
        loop
            invariant
                self@.len() > 0,
                values(Some(*node)).len() > 0,
                values(Some(*node)).last() == self@.last(),
            decreases real_height(Some(*node)),
        {
            proof {
                assert(values(Some(*node)) == values(node.left) + seq![node.value] + values(node.right));
            }
            match &node.right {
                Some(right) => {
                    proof {
                        assert(values(Some(*node)).last() == values(node.right).last());
                    }
                    node = right;
                },
                None => {
                    proof {
                        assert(values(node.right) =~= Seq::<T>::empty());
                        assert(values(Some(*node)).last() == node.value);
                    }
                    return Some(&node.value);
                },
            }
        }
    }

    /// Alias for [`last`](Self::last).
    pub fn max(&self) -> (r: Option<&T>)
        ensures
            match r {
                Some(v) => self@.len() > 0 && *v == self@.last(),
                None => self@.len() == 0,
            },
    {
        proof {
            use_type_invariant(&*self);
        }
        self.last()
    }

    /// Iterates over values inside the range from `start` to `end` in
    /// ascending order.
    ///
    /// The search skips subtrees below the lower bound and stops at the upper
    /// bound.
    pub fn range<'a>(&'a self, start: Bound<&'a T>, end: Bound<&'a T>) -> (r: Range<'a, T>)
        requires
            total_order::<T>(),
            self.well_formed(),
        ensures
            r.wf(),
            r@ == self@.filter(|e: T| in_range(start, end, e)),
    {
        Range::new(&self.root, start, end)
    }

    /// Iterates upwards over at most `count` values, starting at the first
    /// value that is not below `start`.
    pub fn iter_from(&self, start: &T, count: usize) -> (r: IterFrom<'_, T>)
        requires
            total_order::<T>(),
            self.well_formed(),
        ensures
            r@ == first_n(at_or_above(self@, *start), count as nat),
    {
        IterFrom::new(&self.root, start, count)
    }

    /// Iterates downwards over at most `count` values, starting at the last
    /// value that is not above `end`.
    pub fn iter_to(&self, end: &T, count: usize) -> (r: IterTo<'_, T>)
        requires
            total_order::<T>(),
            self.well_formed(),
        ensures
            r@ == first_n(at_or_below(self@, *end).reverse(), count as nat),
    {
        IterTo::new(&self.root, end, count)
    }

    /// Removes the value equal to `key`, returning whether one was removed.
    pub fn remove(&mut self, key: &T) -> (r: bool)
        requires
            total_order::<T>(),
            old(self).well_formed(),
        ensures
            final(self).well_formed(),
            r == holds(old(self)@, *key),
            final(self)@ == without(old(self)@, *key),
            final(self)@.len() + (if r { 1int } else { 0int }) == old(self)@.len(),
            !r ==> *final(self) == *old(self),
            final(self).spec_root() == removed(old(self).spec_root(), *key),
    {
        let mut tree = AVLTree { root: None, len: 0 };
        core::mem::swap(&mut tree, self);
        let AVLTree { root, len } = tree;
        let (root, removed) = remove_node(root, key);
        let len = if removed {
            len - 1
        } else {
            len
        };
        *self = AVLTree { root, len };
        removed
    }
}

} // verus!

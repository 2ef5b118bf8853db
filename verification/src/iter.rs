//! Lazy traversals of an [`AVLTree`](crate::tree::AVLTree).
//!
//! Each traversal keeps a stack (or a queue) of borrowed nodes and hands out
//! borrowed values one at a time. Its view is the sequence of values it has
//! still to hand out.

use vstd::prelude::*;
use crate::node::AVLNode;
use crate::node::Link;
use crate::node::values;
use crate::node::pre_values;
use crate::node::post_values;
use crate::node::nat_max;
use std::collections::VecDeque;
use crate::node::real_height;
use crate::order::total_order;
use crate::order::lt;
use crate::order::Relation;
use crate::order::compare;
use crate::order::lemma_lt_trans;
use crate::sorted::sorted;
use crate::sorted::at_or_above;
use crate::sorted::at_or_below;
use crate::sorted::first_n;
use crate::sorted::lemma_filter_three;
use crate::sorted::lemma_filter_node;
use crate::sorted::lemma_filter_node_down;
use crate::sorted::lemma_filter_drops_all;
use crate::sorted::lemma_filter_keeps_all;
use crate::sorted::lemma_filter_twice;
use crate::sorted::lemma_filter_sorted;
use crate::sorted::lemma_filter_from;
use crate::tree::lemma_sorted_node;

verus! {

/// The values still to come from a stack of nodes whose left subtrees have
/// already been visited: the top node, then its right subtree, then the rest
/// of the stack.
pub open(crate) spec fn ascending_from<T>(stack: Seq<&AVLNode<T>>) -> Seq<T>
    decreases stack.len(),
{
    if stack.len() == 0 {
        Seq::empty()
    } else {
        let top = stack.last();
        seq![top.value] + values(top.right) + ascending_from(stack.drop_last())
    }
}

/// The mirror of `ascending_from`: the top node, then its left subtree in
/// descending order, then the rest of the stack.
pub open(crate) spec fn descending_from<T>(stack: Seq<&AVLNode<T>>) -> Seq<T>
    decreases stack.len(),
{
    if stack.len() == 0 {
        Seq::empty()
    } else {
        let top = stack.last();
        seq![top.value] + values(top.left).reverse() + descending_from(stack.drop_last())
    }
}

/// A double-ended iterator over values in sorted order.
pub struct Iter<'a, T> {
    front_stack: Vec<&'a AVLNode<T>>,
    back_stack: Vec<&'a AVLNode<T>>,
    remaining: usize,
    all: Ghost<Seq<T>>,
    front: Ghost<nat>,
    back: Ghost<nat>,
}

impl<'a, T> Iter<'a, T> {
    /// The values that the iterator has still to yield, in ascending order.
    pub closed spec fn spec_remaining(&self) -> Seq<T> {
        self.all@.subrange(self.front@ as int, self.all@.len() - self.back@)
    }

    /// All the values the iterator was made to yield, in ascending order.
    pub closed spec fn spec_all(&self) -> Seq<T> {
        self.all@
    }

    /// The values taken from the front so far, in the order they came.
    pub closed spec fn spec_front_taken(&self) -> Seq<T> {
        self.all@.take(self.front@ as int)
    }

    /// The values taken from the back so far, in the order they came.
    pub closed spec fn spec_back_taken(&self) -> Seq<T> {
        self.all@.skip(self.all@.len() - self.back@).reverse()
    }

    /// What was taken from the front, what is left, and what was taken from
    /// the back, read backwards, make up all the values.
    pub proof fn lemma_both_ends(&self)
        requires
            self.wf(),
        ensures
            self.spec_front_taken() + self@ + self.spec_back_taken().reverse() == self.spec_all(),
    {
        let all = self.all@;
        let back_start = all.len() - self.back@;
        assert(all.skip(back_start).reverse().reverse() =~= all.skip(back_start));
        assert(all.take(self.front@ as int) + all.subrange(self.front@ as int, back_start) + all.skip(back_start) =~= all);
    }

    /// The iterator's invariant.
    pub closed spec fn wf(&self) -> bool {
        &&& self.front@ + self.back@ <= self.all@.len()
        &&& self.remaining == self.all@.len() - self.front@ - self.back@
        &&& ascending_from(self.front_stack@) == self.all@.skip(self.front@ as int)
        &&& descending_from(self.back_stack@) == self.all@.take(
            self.all@.len() - self.back@,
        ).reverse()
    }

    pub(crate) fn new(root: &'a Link<T>, len: usize) -> (r: Self)
        requires
            len == values(*root).len(),
        ensures
            r.wf(),
            r@ == values(*root),
            r.spec_all() == values(*root),
            r.spec_front_taken() == Seq::<T>::empty(),
            r.spec_back_taken() == Seq::<T>::empty(),
    {
        let mut iter = Iter {
            front_stack: Vec::new(),
            back_stack: Vec::new(),
            remaining: len,
            all: Ghost(values(*root)),
            front: Ghost(0),
            back: Ghost(0),
        };
        iter.push_left(root);
        iter.push_right(root);
        proof {
            assert(values(*root).skip(0) =~= values(*root));
            assert(values(*root).take(values(*root).len() as int) =~= values(*root));
            assert(iter.all@.subrange(0, iter.all@.len() as int) =~= values(*root));
        }
        iter
    }

    /// Pushes the path from `link` down its left edge.
    fn push_left(&mut self, link: &'a Link<T>)
        ensures
            final(self).back_stack == old(self).back_stack,
            final(self).remaining == old(self).remaining,
            final(self).all == old(self).all,
            final(self).front == old(self).front,
            final(self).back == old(self).back,
            ascending_from(final(self).front_stack@) == values(*link) + ascending_from(
                old(self).front_stack@,
            ),
    {
        let mut node = link;
        loop
            invariant
                self.back_stack == old(self).back_stack,
                self.remaining == old(self).remaining,
                self.all == old(self).all,
                self.front == old(self).front,
                self.back == old(self).back,
                values(*node) + ascending_from(self.front_stack@) == values(*link)
                    + ascending_from(old(self).front_stack@),
            decreases crate::node::real_height(*node),
        {
            let current = match node {
                Some(current) => current,
                None => {
                    return;
                },
            };
            let ghost before = self.front_stack@;
            self.front_stack.push(&**current);
            proof {
                assert(self.front_stack@.drop_last() == before);
                assert(values(*node) == values(current.left) + seq![current.value] + values(
                    current.right,
                ));
                assert(values(current.left) + ascending_from(self.front_stack@) =~= values(*node)
                    + ascending_from(before));
            }
            node = &current.left;
        }
    }

    /// Pushes the path from `link` down its right edge.
    fn push_right(&mut self, link: &'a Link<T>)
        ensures
            final(self).front_stack == old(self).front_stack,
            final(self).remaining == old(self).remaining,
            final(self).all == old(self).all,
            final(self).front == old(self).front,
            final(self).back == old(self).back,
            descending_from(final(self).back_stack@) == values(*link).reverse() + descending_from(
                old(self).back_stack@,
            ),
    {
        let mut node = link;
        loop
            invariant
                self.front_stack == old(self).front_stack,
                self.remaining == old(self).remaining,
                self.all == old(self).all,
                self.front == old(self).front,
                self.back == old(self).back,
                values(*node).reverse() + descending_from(self.back_stack@) == values(
                    *link,
                ).reverse() + descending_from(old(self).back_stack@),
            decreases crate::node::real_height(*node),
        {
            let current = match node {
                Some(current) => current,
                None => {
                    return;
                },
            };
            let ghost before = self.back_stack@;
            self.back_stack.push(&**current);
            proof {
                assert(self.back_stack@.drop_last() == before);
                assert(values(*node) == values(current.left) + seq![current.value] + values(
                    current.right,
                ));
                assert(values(*node).reverse() =~= values(current.right).reverse() + (seq![current.value]
                    + values(current.left).reverse()));
                assert(values(current.right).reverse() + descending_from(self.back_stack@)
                    =~= values(*node).reverse() + descending_from(before));
            }
            node = &current.right;
        }
    }

    /// Returns the next value in ascending order.
    pub fn next(&mut self) -> (r: Option<&'a T>)
        requires
            old(self).wf(),
        ensures
            final(self).wf(),
            match r {
                Some(v) => old(self)@.len() > 0 && *v == old(self)@[0] && final(self)@ == old(
                    self,
                )@.drop_first(),
                None => old(self)@.len() == 0 && final(self)@ == old(self)@,
            },
            final(self).spec_all() == old(self).spec_all(),
            final(self).spec_back_taken() == old(self).spec_back_taken(),
            match r {
                Some(v) => final(self).spec_front_taken() == old(self).spec_front_taken().push(*v),
                None => final(self).spec_front_taken() == old(self).spec_front_taken(),
            },
    {
        if self.remaining == 0 {
            return None;
        }
        let ghost stack0 = self.front_stack@;
        proof {
            assert(ascending_from(stack0)[0] == self.all@[self.front@ as int]);
        }
        let node = self.front_stack.pop().unwrap();
        let ghost popped = self.front_stack@;
        self.remaining = self.remaining - 1;
        self.push_left(&node.right);
        proof {
            assert(popped == stack0.drop_last());
            assert(ascending_from(self.front_stack@) == values(node.right) + ascending_from(popped));
            let f: nat = self.front@;
            assert(ascending_from(stack0) == seq![node.value] + values(node.right) + ascending_from(
                stack0.drop_last(),
            ));
            self.front@ = f + 1;
            assert(ascending_from(stack0).drop_first() =~= values(node.right) + ascending_from(popped));
            assert(self.all@.skip(f as int).drop_first() =~= self.all@.skip(f + 1 as int));
            assert(ascending_from(self.front_stack@) =~= self.all@.skip(f + 1 as int));
            assert(self@ =~= old(self)@.drop_first());
            assert(self.all@.take(f + 1 as int) =~= self.all@.take(f as int).push(node.value));
        }
        Some(&node.value)
    }

    /// Returns the next value in descending order, from the back.
    pub fn next_back(&mut self) -> (r: Option<&'a T>)
        requires
            old(self).wf(),
        ensures
            final(self).wf(),
            match r {
                Some(v) => old(self)@.len() > 0 && *v == old(self)@.last() && final(self)@ == old(
                    self,
                )@.drop_last(),
                None => old(self)@.len() == 0 && final(self)@ == old(self)@,
            },
            final(self).spec_all() == old(self).spec_all(),
            final(self).spec_front_taken() == old(self).spec_front_taken(),
            match r {
                Some(v) => final(self).spec_back_taken() == old(self).spec_back_taken().push(*v),
                None => final(self).spec_back_taken() == old(self).spec_back_taken(),
            },
    {
        if self.remaining == 0 {
            return None;
        }
        let ghost stack0 = self.back_stack@;
        let ghost b = self.back@;
        let ghost n = self.all@.len();
        proof {
            assert(descending_from(stack0)[0] == self.all@[n - b - 1]);
        }
        let node = self.back_stack.pop().unwrap();
        let ghost popped = self.back_stack@;
        self.remaining = self.remaining - 1;
        self.push_right(&node.left);
        proof {
            assert(popped == stack0.drop_last());
            assert(descending_from(self.back_stack@) == values(node.left).reverse() + descending_from(popped));
            assert(descending_from(stack0) == seq![node.value] + values(node.left).reverse()
                + descending_from(stack0.drop_last()));
            self.back@ = b + 1;
            assert(self.all@.take(n - b - 1).reverse() =~= self.all@.take(n - b).reverse().drop_first());
            assert(descending_from(self.back_stack@) =~= self.all@.take(n - b - 1).reverse());
            assert(self@ =~= old(self)@.drop_last());
            assert(self.all@.skip(n - b - 1).reverse() =~= self.all@.skip(n - b).reverse().push(node.value));
        }
        Some(&node.value)
    }

    /// The number of values still to come, exactly.
    pub fn size_hint(&self) -> (r: (usize, Option<usize>))
        requires
            self.wf(),
        ensures
            r.0 == self@.len(),
            r.1 == Some(self@.len() as usize),
    {
        (self.remaining, Some(self.remaining))
    }
}

impl<'a, T> View for Iter<'a, T> {
    type V = Seq<T>;

    open spec fn view(&self) -> Seq<T> {
        self.spec_remaining()
    }
}

/// Reversing a node's sequence.
proof fn lemma_reverse_join<A>(l: Seq<A>, x: A, r: Seq<A>)
    ensures
        (l + seq![x] + r).reverse() == r.reverse() + (seq![x] + l.reverse()),
{
    assert((l + seq![x] + r).reverse() =~= r.reverse() + (seq![x] + l.reverse()));
}

/// Passing `!(e < start)` is kept by moving up.
proof fn lemma_at_or_above_upward<T: Ord>(start: T)
    requires
        total_order::<T>(),
    ensures
        forall|a: T, b: T| #[trigger] lt(a, b) && !lt(a, start) ==> !lt(b, start),
{
    assert forall|a: T, b: T| #[trigger] lt(a, b) && !lt(a, start) implies !lt(b, start) by {
        if lt(b, start) {
            lemma_lt_trans(a, b, start);
        }
    }
}

/// Passing `!(end < e)` is kept by moving down.
proof fn lemma_at_or_below_downward<T: Ord>(end: T)
    requires
        total_order::<T>(),
    ensures
        forall|a: T, b: T| #[trigger] lt(a, b) && !lt(end, b) ==> !lt(end, a),
{
    assert forall|a: T, b: T| #[trigger] lt(a, b) && !lt(end, b) implies !lt(end, a) by {
        if lt(end, a) {
            lemma_lt_trans(end, a, b);
        }
    }
}

/// An ascending iterator starting at an inclusive lower-bound key, limited to
/// a number of values.
pub struct IterFrom<'a, T> {
    stack: Vec<&'a AVLNode<T>>,
    remaining: usize,
}

impl<'a, T> IterFrom<'a, T> {
    /// The most values that the iterator may still yield.
    pub closed spec fn limit(&self) -> nat {
        self.remaining as nat
    }

    /// The values that the iterator has still to yield, in ascending order.
    pub closed spec fn spec_remaining(&self) -> Seq<T> {
        first_n(ascending_from(self.stack@), self.remaining as nat)
    }

    pub(crate) fn new(root: &'a Link<T>, start: &T, count: usize) -> (r: Self)
        where T: Ord
        requires
            total_order::<T>(),
            sorted(values(*root)),
        ensures
            r@ == first_n(at_or_above(values(*root), *start), count as nat),
    {
        let mut iter = IterFrom { stack: Vec::new(), remaining: count };
        if count == 0 {
            return iter;
        }
        let mut node = root;
        loop
            invariant
                total_order::<T>(),
                iter.remaining == count,
                sorted(values(*node)),
                at_or_above(values(*node), *start) + ascending_from(iter.stack@) == at_or_above(
                    values(*root),
                    *start,
                ),
            decreases real_height(*node),
        {
            let current = match node {
                Some(current) => current,
                None => {
                    proof {
                        lemma_filter_drops_all(values(*node), |e: T| !lt(e, *start));
                        assert(at_or_above(values(*node), *start) + ascending_from(iter.stack@)
                            =~= ascending_from(iter.stack@));
                    }
                    return iter;
                },
            };
            proof {
                lemma_at_or_above_upward(*start);
                lemma_sorted_node(*node);
                lemma_filter_node(values(current.left), current.value, values(current.right), |e: T| !lt(e, *start));
                assert(values(*node) == values(current.left) + seq![current.value] + values(current.right));
            }
            match compare(&current.value, start) {
                Relation::Less => {
                    node = &current.right;
                },
                _ => {
                    let ghost before = iter.stack@;
                    iter.stack.push(&**current);
                    proof {
                        assert(iter.stack@.drop_last() == before);
                        assert(at_or_above(values(current.left), *start) + ascending_from(iter.stack@)
                            =~= at_or_above(values(*node), *start) + ascending_from(before));
                    }
                    node = &current.left;
                },
            }
        }
    }

    /// Pushes the path from `link` down its left edge.
    fn push_left(&mut self, link: &'a Link<T>)
        ensures
            final(self).remaining == old(self).remaining,
            ascending_from(final(self).stack@) == values(*link) + ascending_from(old(self).stack@),
    {
        let mut node = link;
        loop
            invariant
                self.remaining == old(self).remaining,
                values(*node) + ascending_from(self.stack@) == values(*link) + ascending_from(
                    old(self).stack@,
                ),
            decreases real_height(*node),
        {
            let current = match node {
                Some(current) => current,
                None => {
                    return;
                },
            };
            let ghost before = self.stack@;
            self.stack.push(&**current);
            proof {
                assert(self.stack@.drop_last() == before);
                assert(values(*node) == values(current.left) + seq![current.value] + values(
                    current.right,
                ));
                assert(values(current.left) + ascending_from(self.stack@) =~= values(*node)
                    + ascending_from(before));
            }
            node = &current.left;
        }
    }

    /// Returns the next value in ascending order.
    pub fn next(&mut self) -> (r: Option<&'a T>)
        ensures
            match r {
                Some(v) => old(self)@.len() > 0 && *v == old(self)@[0] && final(self)@ == old(
                    self,
                )@.drop_first(),
                None => old(self)@.len() == 0 && final(self)@ == old(self)@,
            },
    {
        if self.remaining == 0 {
            return None;
        }
        let ghost stack0 = self.stack@;
        let node = match self.stack.pop() {
            Some(node) => node,
            None => {
                return None;
            },
        };
        let ghost popped = self.stack@;
        self.remaining = self.remaining - 1;
        self.push_left(&node.right);
        proof {
            assert(popped == stack0.drop_last());
            let whole = ascending_from(stack0);
            assert(whole == seq![node.value] + values(node.right) + ascending_from(popped));
            assert(ascending_from(self.stack@) =~= whole.drop_first());
            assert(first_n(whole.drop_first(), self.remaining as nat) =~= first_n(whole, old(self).remaining as nat).drop_first());
        }
        Some(&node.value)
    }

    /// Bounds on the number of values still to come.
    pub fn size_hint(&self) -> (r: (usize, Option<usize>))
        ensures
            r.0 == 0,
            r.1 == Some(self.limit() as usize),
            self@.len() <= self.limit(),
    {
        (0, Some(self.remaining))
    }
}

impl<'a, T> View for IterFrom<'a, T> {
    type V = Seq<T>;

    open spec fn view(&self) -> Seq<T> {
        self.spec_remaining()
    }
}

/// A descending iterator starting at an inclusive upper-bound key, limited to
/// a number of values.
pub struct IterTo<'a, T> {
    stack: Vec<&'a AVLNode<T>>,
    remaining: usize,
}

impl<'a, T> IterTo<'a, T> {
    /// The most values that the iterator may still yield.
    pub closed spec fn limit(&self) -> nat {
        self.remaining as nat
    }

    /// The values that the iterator has still to yield, in descending order.
    pub closed spec fn spec_remaining(&self) -> Seq<T> {
        first_n(descending_from(self.stack@), self.remaining as nat)
    }

    #[verifier::rlimit(30)]
    pub(crate) fn new(root: &'a Link<T>, end: &T, count: usize) -> (r: Self)
        where T: Ord
        requires
            total_order::<T>(),
            sorted(values(*root)),
        ensures
            r@ == first_n(at_or_below(values(*root), *end).reverse(), count as nat),
    {
        let mut iter = IterTo { stack: Vec::new(), remaining: count };
        if count == 0 {
            return iter;
        }
        let mut node = root;
        loop
            invariant
                total_order::<T>(),
                iter.remaining == count,
                sorted(values(*node)),
                at_or_below(values(*node), *end).reverse() + descending_from(iter.stack@)
                    == at_or_below(values(*root), *end).reverse(),
            decreases real_height(*node),
        {
            let current = match node {
                Some(current) => current,
                None => {
                    proof {
                        lemma_filter_drops_all(values(*node), |e: T| !lt(*end, e));
                        assert(at_or_below(values(*node), *end).reverse() + descending_from(iter.stack@)
                            =~= descending_from(iter.stack@));
                    }
                    return iter;
                },
            };
            proof {
                lemma_at_or_below_downward(*end);
                lemma_sorted_node(*node);
                lemma_filter_node_down(values(current.left), current.value, values(current.right), |e: T| !lt(*end, e));
                assert(values(*node) == values(current.left) + seq![current.value] + values(current.right));
            }
            match compare(&current.value, end) {
                Relation::Greater => {
                    node = &current.left;
                },
                _ => {
                    let ghost before = iter.stack@;
                    iter.stack.push(&**current);
                    proof {
                        let rb = at_or_below(values(current.right), *end);
                        assert(iter.stack@.drop_last() == before);
                        assert(descending_from(iter.stack@) == seq![current.value] + values(current.left).reverse() + descending_from(before));
                        lemma_reverse_join(values(current.left), current.value, rb);
                        assert(rb.reverse() + descending_from(iter.stack@)
                            =~= at_or_below(values(*node), *end).reverse() + descending_from(before));
                    }
                    node = &current.right;
                },
            }
        }
    }

    /// Pushes the path from `link` down its right edge.
    fn push_right(&mut self, link: &'a Link<T>)
        ensures
            final(self).remaining == old(self).remaining,
            descending_from(final(self).stack@) == values(*link).reverse() + descending_from(
                old(self).stack@,
            ),
    {
        let mut node = link;
        loop
            invariant
                self.remaining == old(self).remaining,
                values(*node).reverse() + descending_from(self.stack@) == values(*link).reverse()
                    + descending_from(old(self).stack@),
            decreases real_height(*node),
        {
            let current = match node {
                Some(current) => current,
                None => {
                    return;
                },
            };
            let ghost before = self.stack@;
            self.stack.push(&**current);
            proof {
                assert(self.stack@.drop_last() == before);
                assert(values(*node) == values(current.left) + seq![current.value] + values(
                    current.right,
                ));
                assert(values(*node).reverse() =~= values(current.right).reverse() + (seq![current.value]
                    + values(current.left).reverse()));
                assert(values(current.right).reverse() + descending_from(self.stack@)
                    =~= values(*node).reverse() + descending_from(before));
            }
            node = &current.right;
        }
    }

    /// Returns the next value in descending order.
    pub fn next(&mut self) -> (r: Option<&'a T>)
        ensures
            match r {
                Some(v) => old(self)@.len() > 0 && *v == old(self)@[0] && final(self)@ == old(
                    self,
                )@.drop_first(),
                None => old(self)@.len() == 0 && final(self)@ == old(self)@,
            },
    {
        if self.remaining == 0 {
            return None;
        }
        let ghost stack0 = self.stack@;
        let node = match self.stack.pop() {
            Some(node) => node,
            None => {
                return None;
            },
        };
        let ghost popped = self.stack@;
        self.remaining = self.remaining - 1;
        self.push_right(&node.left);
        proof {
            assert(popped == stack0.drop_last());
            let whole = descending_from(stack0);
            assert(whole == seq![node.value] + values(node.left).reverse() + descending_from(popped));
            assert(descending_from(self.stack@) =~= whole.drop_first());
            assert(first_n(whole.drop_first(), self.remaining as nat) =~= first_n(whole, old(self).remaining as nat).drop_first());
        }
        Some(&node.value)
    }

    /// Bounds on the number of values still to come.
    pub fn size_hint(&self) -> (r: (usize, Option<usize>))
        ensures
            r.0 == 0,
            r.1 == Some(self.limit() as usize),
            self@.len() <= self.limit(),
    {
        (0, Some(self.remaining))
    }
}

impl<'a, T> View for IterTo<'a, T> {
    type V = Seq<T>;

    open spec fn view(&self) -> Seq<T> {
        self.spec_remaining()
    }
}

/// The values still to come from a pre-order stack: each stacked subtree in
/// pre-order, from the top of the stack down.
pub open(crate) spec fn pre_order_from<T>(stack: Seq<&AVLNode<T>>) -> Seq<T>
    decreases stack.len(),
{
    if stack.len() == 0 {
        Seq::empty()
    } else {
        let top = stack.last();
        seq![top.value] + pre_values(top.left) + pre_values(top.right) + pre_order_from(
            stack.drop_last(),
        )
    }
}

/// A root-left-right traversal iterator.
pub struct PreOrder<'a, T> {
    stack: Vec<&'a AVLNode<T>>,
}

impl<'a, T> PreOrder<'a, T> {
    /// The values that the iterator has still to yield, in pre-order.
    pub closed spec fn spec_remaining(&self) -> Seq<T> {
        pre_order_from(self.stack@)
    }

    pub(crate) fn new(root: &'a Link<T>) -> (r: Self)
        ensures
            r@ == pre_values(*root),
    {
        let mut stack = Vec::new();
        match root {
            Some(node) => {
                stack.push(&**node);
                proof {
                    assert(stack@.drop_last() =~= Seq::<&AVLNode<T>>::empty());
                    assert(pre_order_from(stack@.drop_last()) == Seq::<T>::empty());
                    assert(pre_values(*root) == seq![node.value] + pre_values(node.left) + pre_values(node.right));
                    assert(pre_order_from(stack@) =~= pre_values(*root));
                }
            },
            None => {},
        }
        PreOrder { stack }
    }

    /// Returns the next value in pre-order.
    pub fn next(&mut self) -> (r: Option<&'a T>)
        ensures
            match r {
                Some(v) => old(self)@.len() > 0 && *v == old(self)@[0] && final(self)@ == old(
                    self,
                )@.drop_first(),
                None => old(self)@.len() == 0 && final(self)@ == old(self)@,
            },
    {
        let ghost stack0 = self.stack@;
        let node = match self.stack.pop() {
            Some(node) => node,
            None => {
                return None;
            },
        };
        let ghost rest = self.stack@;
        if let Some(right) = &node.right {
            self.stack.push(&**right);
        }
        let ghost mid = self.stack@;
        if let Some(left) = &node.left {
            self.stack.push(&**left);
        }
        proof {
            assert(rest == stack0.drop_last());
            assert(pre_order_from(mid) =~= pre_values(node.right) + pre_order_from(rest)) by {
                if node.right is Some {
                    assert(mid.drop_last() == rest);
                }
            }
            assert(pre_order_from(self.stack@) =~= pre_values(node.left) + pre_values(node.right)
                + pre_order_from(rest)) by {
                if node.left is Some {
                    assert(self.stack@.drop_last() == mid);
                }
            }
            assert(pre_order_from(self.stack@) =~= pre_order_from(stack0).drop_first());
        }
        Some(&node.value)
    }
}

impl<'a, T> View for PreOrder<'a, T> {
    type V = Seq<T>;

    open spec fn view(&self) -> Seq<T> {
        self.spec_remaining()
    }
}

/// The values still to come from a post-order stack: from the top down, a
/// node marked visited gives its own value, and an unvisited one its whole
/// subtree in post-order.
pub open(crate) spec fn post_order_from<T>(stack: Seq<(&AVLNode<T>, bool)>) -> Seq<T>
    decreases stack.len(),
{
    if stack.len() == 0 {
        Seq::empty()
    } else {
        let (top, visited) = stack.last();
        (if visited {
            seq![top.value]
        } else {
            post_values(top.left) + post_values(top.right) + seq![top.value]
        }) + post_order_from(stack.drop_last())
    }
}

/// Work left on a post-order stack: a visited node counts one, an unvisited
/// node twice its size.
pub open(crate) spec fn post_order_work<T>(stack: Seq<(&AVLNode<T>, bool)>) -> nat
    decreases stack.len(),
{
    if stack.len() == 0 {
        0
    } else {
        let (top, visited) = stack.last();
        (if visited {
            1
        } else {
            2 * (values(top.left).len() + values(top.right).len() + 1)
        }) + post_order_work(stack.drop_last())
    }
}

/// A left-right-root traversal iterator.
pub struct PostOrder<'a, T> {
    stack: Vec<(&'a AVLNode<T>, bool)>,
}

impl<'a, T> PostOrder<'a, T> {
    /// The values that the iterator has still to yield, in post-order.
    pub closed spec fn spec_remaining(&self) -> Seq<T> {
        post_order_from(self.stack@)
    }

    pub(crate) fn new(root: &'a Link<T>) -> (r: Self)
        ensures
            r@ == post_values(*root),
    {
        let mut stack = Vec::new();
        match root {
            Some(node) => {
                stack.push((&**node, false));
                proof {
                    assert(stack@.drop_last() =~= Seq::<(&AVLNode<T>, bool)>::empty());
                    assert(post_order_from(stack@.drop_last()) == Seq::<T>::empty());
                    assert(post_values(*root) == post_values(node.left) + post_values(node.right) + seq![node.value]);
                    assert(post_order_from(stack@) =~= post_values(*root));
                }
            },
            None => {},
        }
        PostOrder { stack }
    }

    /// Returns the next value in post-order.
    pub fn next(&mut self) -> (r: Option<&'a T>)
        ensures
            match r {
                Some(v) => old(self)@.len() > 0 && *v == old(self)@[0] && final(self)@ == old(
                    self,
                )@.drop_first(),
                None => old(self)@.len() == 0 && final(self)@ == old(self)@,
            },
    {
        loop
            invariant
                post_order_from(self.stack@) == old(self)@,
            decreases post_order_work(self.stack@),
        {
            let ghost stack0 = self.stack@;
            let (node, visited) = match self.stack.pop() {
                Some(entry) => entry,
                None => {
                    return None;
                },
            };
            let ghost rest = self.stack@;
            proof {
                assert(rest == stack0.drop_last());
            }
            if visited {
                proof {
                    assert(post_order_from(stack0) == seq![node.value] + post_order_from(rest));
                    assert(post_order_from(rest) =~= post_order_from(stack0).drop_first());
                }
                return Some(&node.value);
            }
            self.stack.push((node, true));
            let ghost s1 = self.stack@;
            if let Some(right) = &node.right {
                self.stack.push((&**right, false));
            }
            let ghost s2 = self.stack@;
            if let Some(left) = &node.left {
                self.stack.push((&**left, false));
            }
            proof {
                assert(s1.drop_last() == rest);
                assert(post_order_from(s1) == seq![node.value] + post_order_from(rest));
                assert(post_order_work(s1) == 1 + post_order_work(rest));
                assert(post_order_from(s2) =~= post_values(node.right) + post_order_from(s1)
                    && post_order_work(s2) == 2 * values(node.right).len() + post_order_work(s1)) by {
                    if node.right is Some {
                        assert(s2.drop_last() == s1);
                    }
                }
                assert(post_order_from(self.stack@) =~= post_values(node.left) + post_order_from(s2)
                    && post_order_work(self.stack@) == 2 * values(node.left).len() + post_order_work(s2)) by {
                    if node.left is Some {
                        assert(self.stack@.drop_last() == s2);
                    }
                }
                assert(post_order_from(self.stack@) =~= post_order_from(stack0));
            }
        }
    }
}

impl<'a, T> View for PostOrder<'a, T> {
    type V = Seq<T>;

    open spec fn view(&self) -> Seq<T> {
        self.spec_remaining()
    }
}

/// The children of a node, left before right.
pub open(crate) spec fn kids<'a, T>(n: &'a AVLNode<T>) -> Seq<&'a AVLNode<T>> {
    (match &n.left {
        Some(b) => seq![&**b],
        None => Seq::empty(),
    }) + (match &n.right {
        Some(b) => seq![&**b],
        None => Seq::empty(),
    })
}

/// The children of a row of nodes, in order.
pub open(crate) spec fn children<'a, T>(row: Seq<&'a AVLNode<T>>) -> Seq<&'a AVLNode<T>>
    decreases row.len(),
{
    if row.len() == 0 {
        Seq::empty()
    } else {
        children(row.drop_last()) + kids(row.last())
    }
}

/// The values at the roots of a row of nodes.
pub open(crate) spec fn roots<T>(row: Seq<&AVLNode<T>>) -> Seq<T> {
    row.map_values(|n: &AVLNode<T>| n.value)
}

/// The height of the tallest subtree in a row.
pub open(crate) spec fn row_height<T>(row: Seq<&AVLNode<T>>) -> nat
    decreases row.len(),
{
    if row.len() == 0 {
        0
    } else {
        nat_max(row_height(row.drop_last()), 1 + nat_max(real_height(row.last().left), real_height(row.last().right)))
    }
}

/// Level order of a row of subtrees: the row's own values, then the level
/// order of the row of their children.
pub open(crate) spec fn level_values<T>(row: Seq<&AVLNode<T>>) -> Seq<T>
    decreases row_height(row),
{
    if row.len() == 0 {
        Seq::empty()
    } else {
        proof {
            lemma_children_lower(row);
        }
        roots(row) + level_values(children(row))
    }
}

/// The values of a subtree one level at a time, each level left to right.
pub open(crate) spec fn level_order_values<T>(link: Link<T>) -> Seq<T> {
    match link {
        None => Seq::empty(),
        Some(b) => level_values(seq![&*b]),
    }
}

pub(crate) proof fn lemma_row_height_add<T>(a: Seq<&AVLNode<T>>, b: Seq<&AVLNode<T>>)
    ensures
        row_height(a + b) == nat_max(row_height(a), row_height(b)),
    decreases b.len(),
{
    if b.len() == 0 {
        assert(a + b =~= a);
    } else {
        lemma_row_height_add(a, b.drop_last());
        assert((a + b).drop_last() =~= a + b.drop_last());
    }
}

pub(crate) proof fn lemma_children_add<'a, T>(a: Seq<&'a AVLNode<T>>, b: Seq<&'a AVLNode<T>>)
    ensures
        children(a + b) == children(a) + children(b),
    decreases b.len(),
{
    if b.len() == 0 {
        assert(a + b =~= a);
        assert(children(a) + children(b) =~= children(a));
    } else {
        lemma_children_add(a, b.drop_last());
        assert((a + b).drop_last() =~= a + b.drop_last());
        assert(children(a + b) =~= children(a) + children(b));
    }
}

pub(crate) proof fn lemma_children_lower<T>(row: Seq<&AVLNode<T>>)
    ensures
        row.len() > 0 ==> row_height(children(row)) < row_height(row),
        row.len() == 0 ==> children(row) == Seq::<&AVLNode<T>>::empty(),
    decreases row.len(),
{
    if row.len() > 0 {
        let n = row.last();
        lemma_children_lower(row.drop_last());
        lemma_row_height_add(children(row.drop_last()), kids(n));
        let l: Seq<&AVLNode<T>> = match &n.left {
            Some(b) => seq![&**b],
            None => Seq::empty(),
        };
        let r: Seq<&AVLNode<T>> = match &n.right {
            Some(b) => seq![&**b],
            None => Seq::empty(),
        };
        lemma_row_height_add(l, r);
        assert(row_height(l) <= real_height(n.left)) by {
            match n.left {
                Some(b) => {
                    assert(l.drop_last() =~= Seq::<&AVLNode<T>>::empty());
                    assert(row_height(l.drop_last()) == 0);
                    assert(l.last() == &*b);
                },
                None => {},
            }
        }
        assert(row_height(r) <= real_height(n.right)) by {
            match n.right {
                Some(b) => {
                    assert(r.drop_last() =~= Seq::<&AVLNode<T>>::empty());
                    assert(row_height(r.drop_last()) == 0);
                    assert(r.last() == &*b);
                },
                None => {},
            }
        }
    }
}

/// Level order of a row split in two: the first part's values, then the
/// level order of the second part followed by the first part's children.
pub(crate) proof fn lemma_level_split<'a, T>(a: Seq<&'a AVLNode<T>>, b: Seq<&'a AVLNode<T>>)
    ensures
        level_values(a + b) == roots(a) + level_values(b + children(a)),
    decreases row_height(a + b),
{
    lemma_children_add(a, b);
    lemma_children_lower(a);
    lemma_children_lower(b);
    lemma_children_lower(a + b);
    assert(roots(a + b) =~= roots(a) + roots(b));
    if a.len() == 0 {
        assert(a + b =~= b);
        assert(b + children(a) =~= b);
        assert(roots(a) =~= Seq::<T>::empty());
    } else if b.len() + children(a).len() == 0 {
        assert(b =~= Seq::<&AVLNode<T>>::empty());
        assert(a + b =~= a);
        assert(b + children(a) =~= Seq::<&AVLNode<T>>::empty());
        assert(children(a) + children(b) =~= Seq::<&AVLNode<T>>::empty());
    } else {
        let ca = children(a);
        let cb = children(b);
        lemma_level_split(ca, cb);
        lemma_children_add(b, ca);
        assert(roots(b + ca) =~= roots(b) + roots(ca));
        assert(cb + children(ca) == children(b + ca));
        assert(level_values(b + ca) == roots(b + ca) + level_values(children(b + ca)));
        assert(level_values(a + b) == roots(a + b) + level_values(ca + cb));
        assert(level_values(a + b) =~= roots(a) + level_values(b + ca));
    }
}

/// The in-order values of each subtree of a row, one subtree after another.
pub open(crate) spec fn row_values<T>(row: Seq<&AVLNode<T>>) -> Seq<T>
    decreases row.len(),
{
    if row.len() == 0 {
        Seq::empty()
    } else {
        let n = row.last();
        row_values(row.drop_last()) + (values(n.left) + seq![n.value] + values(n.right))
    }
}

proof fn lemma_row_values_add<'a, T>(a: Seq<&'a AVLNode<T>>, b: Seq<&'a AVLNode<T>>)
    ensures
        row_values(a + b) == row_values(a) + row_values(b),
    decreases b.len(),
{
    if b.len() == 0 {
        assert(a + b =~= a);
        assert(row_values(a) + row_values(b) =~= row_values(a));
    } else {
        lemma_row_values_add(a, b.drop_last());
        assert((a + b).drop_last() =~= a + b.drop_last());
        assert(row_values(a + b) =~= row_values(a) + row_values(b));
    }
}

proof fn lemma_row_values_split<T>(row: Seq<&AVLNode<T>>)
    ensures
        row_values(row).to_multiset() == roots(row).to_multiset().add(row_values(children(row)).to_multiset()),
    decreases row.len(),
{
    broadcast use vstd::multiset::group_multiset_axioms;
    if row.len() == 0 {
        lemma_children_lower(row);
        let e = Seq::<T>::empty();
        assert(roots(row) =~= e);
        assert(row_values(children(row)) =~= e);
        assert(row_values(row) =~= e);
        vstd::seq_lib::lemma_multiset_commutative(e, e);
        assert(e + e =~= e);
    } else {
        let init = row.drop_last();
        let n = row.last();
        lemma_row_values_split(init);
        lemma_row_values_add(children(init), kids(n));
        let l: Seq<&AVLNode<T>> = match &n.left {
            Some(b) => seq![&**b],
            None => Seq::empty(),
        };
        let r: Seq<&AVLNode<T>> = match &n.right {
            Some(b) => seq![&**b],
            None => Seq::empty(),
        };
        lemma_row_values_add(l, r);
        assert(row_values(l) == values(n.left)) by {
            match n.left {
                Some(b) => {
                    assert(l.drop_last() =~= Seq::<&AVLNode<T>>::empty());
                    assert(row_values(l.drop_last()) == Seq::<T>::empty());
                    assert(l.last() == &*b);
                    assert(values(n.left) == values(b.left) + seq![b.value] + values(b.right));
                    assert(row_values(l) =~= values(n.left));
                },
                None => {
                    assert(row_values(l) =~= values(n.left));
                },
            }
        }
        assert(row_values(r) == values(n.right)) by {
            match n.right {
                Some(b) => {
                    assert(r.drop_last() =~= Seq::<&AVLNode<T>>::empty());
                    assert(row_values(r.drop_last()) == Seq::<T>::empty());
                    assert(r.last() == &*b);
                    assert(values(n.right) == values(b.left) + seq![b.value] + values(b.right));
                    assert(row_values(r) =~= values(n.right));
                },
                None => {
                    assert(row_values(r) =~= values(n.right));
                },
            }
        }
        let a = row_values(init);
        let ra = roots(init);
        let ca = row_values(children(init));
        let lv = values(n.left);
        let rv = values(n.right);
        let x = seq![n.value];
        assert(roots(row) =~= ra + x);
        assert(row_values(children(row)) == ca + (lv + rv));
        assert(row_values(row) == a + (lv + x + rv));
        vstd::seq_lib::lemma_multiset_commutative(a, lv + x + rv);
        vstd::seq_lib::lemma_multiset_commutative(lv + x, rv);
        vstd::seq_lib::lemma_multiset_commutative(lv, x);
        vstd::seq_lib::lemma_multiset_commutative(ra, x);
        vstd::seq_lib::lemma_multiset_commutative(ca, lv + rv);
        vstd::seq_lib::lemma_multiset_commutative(lv, rv);
        assert(row_values(row).to_multiset() =~= roots(row).to_multiset().add(row_values(children(row)).to_multiset()));
    }
}

/// Level order visits the same values as the in-order walks of the row's
/// subtrees.
pub(crate) proof fn lemma_level_values_permute<T>(row: Seq<&AVLNode<T>>)
    ensures
        level_values(row).to_multiset() == row_values(row).to_multiset(),
    decreases row_height(row),
{
    broadcast use vstd::multiset::group_multiset_axioms;
    if row.len() == 0 {
        assert(row_values(row) =~= Seq::<T>::empty());
    } else {
        lemma_children_lower(row);
        lemma_level_values_permute(children(row));
        lemma_row_values_split(row);
        vstd::seq_lib::lemma_multiset_commutative(roots(row), level_values(children(row)));
    }
}

/// The level order of a subtree holds the same values as its in-order
/// sequence.
pub(crate) proof fn lemma_level_order_permutes<T>(link: Link<T>)
    ensures
        level_order_values(link).to_multiset() == values(link).to_multiset(),
{
    broadcast use vstd::multiset::group_multiset_axioms;
    match link {
        None => {},
        Some(b) => {
            let row = seq![&*b];
            lemma_level_values_permute(row);
            assert(row.drop_last() =~= Seq::<&AVLNode<T>>::empty());
            assert(row_values(row.drop_last()) == Seq::<T>::empty());
            assert(row.last() == &*b);
            assert(values(link) == values(b.left) + seq![b.value] + values(b.right));
            assert(row_values(row) =~= values(link));
        },
    }
}

/// A breadth-first traversal iterator.
pub struct LevelOrder<'a, T> {
    queue: VecDeque<&'a AVLNode<T>>,
}

impl<'a, T> LevelOrder<'a, T> {
    /// The values that the iterator has still to yield, level by level.
    pub closed spec fn spec_remaining(&self) -> Seq<T> {
        level_values(self.queue@)
    }

    pub(crate) fn new(root: &'a Link<T>) -> (r: Self)
        ensures
            r@ == level_order_values(*root),
    {
        let mut queue = VecDeque::new();
        match root {
            Some(node) => {
                queue.push_back(&**node);
                proof {
                    assert(queue@ =~= seq![&**node]);
                }
            },
            None => {
                proof {
                    lemma_children_lower(queue@);
                }
            },
        }
        LevelOrder { queue }
    }

    /// Returns the next value in level order.
    pub fn next(&mut self) -> (r: Option<&'a T>)
        ensures
            match r {
                Some(v) => old(self)@.len() > 0 && *v == old(self)@[0] && final(self)@ == old(
                    self,
                )@.drop_first(),
                None => old(self)@.len() == 0 && final(self)@ == old(self)@,
            },
    {
        let ghost q0 = self.queue@;
        let node = match self.queue.pop_front() {
            Some(node) => node,
            None => {
                return None;
            },
        };
        let ghost rest = self.queue@;
        if let Some(left) = &node.left {
            self.queue.push_back(&**left);
        }
        if let Some(right) = &node.right {
            self.queue.push_back(&**right);
        }
        proof {
            assert(q0 =~= seq![node] + rest);
            lemma_level_split(seq![node], rest);
            assert(seq![node].drop_last() =~= Seq::<&AVLNode<T>>::empty());
            lemma_children_lower(seq![node].drop_last());
            assert(children(seq![node]) =~= kids(node));
            assert(self.queue@ =~= rest + kids(node));
            assert(roots(seq![node]) =~= seq![node.value]);
            assert(level_values(self.queue@) =~= level_values(q0).drop_first());
        }
        Some(&node.value)
    }
}

impl<'a, T> View for LevelOrder<'a, T> {
    type V = Seq<T>;

    open spec fn view(&self) -> Seq<T> {
        self.spec_remaining()
    }
}

/// One end of a range of values.
#[derive(Clone, Copy, Debug)]
pub enum Bound<T> {
    /// The range includes this value.
    Included(T),
    /// The range stops short of this value.
    Excluded(T),
    /// The range is open at this end.
    Unbounded,
}

/// `v` is not below the range's start.
pub open spec fn after_start<T: Ord>(start: Bound<&T>, v: T) -> bool {
    match start {
        Bound::Included(s) => !lt(v, *s),
        Bound::Excluded(s) => lt(*s, v),
        Bound::Unbounded => true,
    }
}

/// `v` is not beyond the range's end.
pub open spec fn before_end<T: Ord>(end: Bound<&T>, v: T) -> bool {
    match end {
        Bound::Included(e) => !lt(*e, v),
        Bound::Excluded(e) => lt(v, *e),
        Bound::Unbounded => true,
    }
}

/// `v` lies inside the range from `start` to `end`.
pub open spec fn in_range<T: Ord>(start: Bound<&T>, end: Bound<&T>, v: T) -> bool {
    after_start(start, v) && before_end(end, v)
}

proof fn lemma_bounds_monotone<T: Ord>(start: Bound<&T>, end: Bound<&T>)
    requires
        total_order::<T>(),
    ensures
        forall|a: T, b: T| #[trigger] lt(a, b) && after_start(start, a) ==> after_start(start, b),
        forall|a: T, b: T| #[trigger] lt(a, b) && before_end(end, b) ==> before_end(end, a),
{
    assert forall|a: T, b: T| #[trigger] lt(a, b) && after_start(start, a) implies after_start(start, b) by {
        match start {
            Bound::Included(s) => {
                if lt(b, *s) {
                    lemma_lt_trans(a, b, *s);
                }
            },
            Bound::Excluded(s) => {
                lemma_lt_trans(*s, a, b);
            },
            Bound::Unbounded => {},
        }
    }
    assert forall|a: T, b: T| #[trigger] lt(a, b) && before_end(end, b) implies before_end(end, a) by {
        match end {
            Bound::Included(e) => {
                if lt(*e, a) {
                    lemma_lt_trans(*e, a, b);
                }
            },
            Bound::Excluded(e) => {
                lemma_lt_trans(a, b, *e);
            },
            Bound::Unbounded => {},
        }
    }
}

/// An ascending iterator limited to a range of values.
pub struct Range<'a, T> {
    stack: Vec<&'a AVLNode<T>>,
    start: Bound<&'a T>,
    end: Bound<&'a T>,
    finished: bool,
}

impl<'a, T: Ord> Range<'a, T> {
    /// The values that the iterator has still to yield, in ascending order.
    pub closed spec fn spec_remaining(&self) -> Seq<T> {
        if self.finished {
            Seq::empty()
        } else {
            ascending_from(self.stack@).filter(|e: T| before_end(self.end, e))
        }
    }

    /// The iterator's invariant.
    pub closed spec fn wf(&self) -> bool {
        &&& total_order::<T>()
        &&& sorted(ascending_from(self.stack@))
        &&& forall|i: int| 0 <= i < ascending_from(self.stack@).len() ==> after_start(self.start, #[trigger] ascending_from(self.stack@)[i])
    }

    pub(crate) fn new(root: &'a Link<T>, start: Bound<&'a T>, end: Bound<&'a T>) -> (r: Self)
        requires
            total_order::<T>(),
            sorted(values(*root)),
        ensures
            r.wf(),
            r@ == values(*root).filter(|e: T| in_range(start, end, e)),
    {
        let mut range = Range { stack: Vec::new(), start, end, finished: false };
        proof {
            assert(ascending_from(range.stack@) =~= Seq::<T>::empty());
        }
        range.push_candidates(root);
        proof {
            lemma_filter_twice(values(*root), |e: T| after_start(start, e), |e: T| before_end(end, e), |e: T| in_range(start, end, e));
            assert(ascending_from(range.stack@) =~= values(*root).filter(|e: T| after_start(start, e)));
            let a = values(*root).filter(|e: T| after_start(start, e));
            lemma_filter_from(values(*root), |e: T| after_start(start, e));
            lemma_filter_sorted(values(*root), |e: T| after_start(start, e));
            assert forall|i: int| 0 <= i < a.len() implies after_start(start, #[trigger] a[i]) by {
                assert((|e: T| after_start(start, e))(a[i]));
            }
            assert(range@ == a.filter(|e: T| before_end(end, e)));
        }
        range
    }

    /// Whether `value` lies below the start of the range.
    fn below_start(&self, value: &T) -> (r: bool)
        requires
            total_order::<T>(),
        ensures
            r == !after_start(self.start, *value),
    {
        match self.start {
            Bound::Included(start) => compare(value, start) == Relation::Less,
            Bound::Excluded(start) => compare(value, start) != Relation::Greater,
            Bound::Unbounded => false,
        }
    }

    /// Whether `value` lies beyond the end of the range.
    fn beyond_end(&self, value: &T) -> (r: bool)
        requires
            total_order::<T>(),
        ensures
            r == !before_end(self.end, *value),
    {
        match self.end {
            Bound::Included(end) => compare(value, end) == Relation::Greater,
            Bound::Excluded(end) => compare(value, end) != Relation::Less,
            Bound::Unbounded => false,
        }
    }

    /// Pushes the nodes of `link` that are not below the start, along the
    /// search path for the start.
    fn push_candidates(&mut self, link: &'a Link<T>)
        requires
            total_order::<T>(),
            sorted(values(*link)),
        ensures
            final(self).start == old(self).start,
            final(self).end == old(self).end,
            final(self).finished == old(self).finished,
            ascending_from(final(self).stack@) == values(*link).filter(|e: T| after_start(old(self).start, e))
                + ascending_from(old(self).stack@),
    {
        let mut node = link;
        loop
            invariant
                total_order::<T>(),
                self.start == old(self).start,
                self.end == old(self).end,
                self.finished == old(self).finished,
                sorted(values(*node)),
                values(*node).filter(|e: T| after_start(self.start, e)) + ascending_from(self.stack@)
                    == values(*link).filter(|e: T| after_start(self.start, e)) + ascending_from(
                    old(self).stack@,
                ),
            decreases real_height(*node),
        {
            let current = match node {
                Some(current) => current,
                None => {
                    proof {
                        lemma_filter_drops_all(values(*node), |e: T| after_start(self.start, e));
                        assert(values(*node).filter(|e: T| after_start(self.start, e))
                            + ascending_from(self.stack@) =~= ascending_from(self.stack@));
                    }
                    return;
                },
            };
            proof {
                lemma_bounds_monotone(self.start, self.end);
                lemma_sorted_node(*node);
                lemma_filter_node(values(current.left), current.value, values(current.right), |e: T| after_start(self.start, e));
                assert(values(*node) == values(current.left) + seq![current.value] + values(current.right));
            }
            if self.below_start(&current.value) {
                node = &current.right;
            } else {
                let ghost before = self.stack@;
                self.stack.push(&**current);
                proof {
                    assert(self.stack@.drop_last() == before);
                    assert(values(current.left).filter(|e: T| after_start(self.start, e)) + ascending_from(self.stack@)
                        =~= values(*node).filter(|e: T| after_start(self.start, e)) + ascending_from(before));
                }
                node = &current.left;
            }
        }
    }

    /// Returns the next value of the range in ascending order.
    #[verifier::spinoff_prover]
    pub fn next(&mut self) -> (r: Option<&'a T>)
        requires
            old(self).wf(),
        ensures
            final(self).wf(),
            match r {
                Some(v) => old(self)@.len() > 0 && *v == old(self)@[0] && final(self)@ == old(
                    self,
                )@.drop_first(),
                None => old(self)@.len() == 0 && final(self)@ == old(self)@,
            },
    {
        if self.finished {
            return None;
        }
        let ghost stack0 = self.stack@;
        let ghost asc0 = ascending_from(stack0);
        let node = match self.stack.pop() {
            Some(node) => node,
            None => {
                proof {
                    lemma_filter_drops_all(asc0, |e: T| before_end(self.end, e));
                }
                return None;
            },
        };
        let ghost popped = self.stack@;
        proof {
            assert(popped == stack0.drop_last());
            assert(asc0 == seq![node.value] + values(node.right) + ascending_from(popped));
            lemma_range_step(node.value, values(node.right), ascending_from(popped), self.start, self.end);
        }
        if self.beyond_end(&node.value) {
            self.finished = true;
            self.stack.clear();
            proof {
                assert(self.stack@ =~= Seq::<&AVLNode<T>>::empty());
                assert(ascending_from(self.stack@) =~= Seq::<T>::empty());
            }
            return None;
        }
        self.push_candidates(&node.right);
        proof {
            let tail = values(node.right) + ascending_from(popped);
            assert(ascending_from(self.stack@) == tail);
            assert(sorted(tail));
            assert(forall|i: int| 0 <= i < tail.len() ==> after_start(self.start, #[trigger] tail[i]));
        }
        Some(&node.value)
    }
}

/// One step of a range iterator: the popped value `v` is followed by its
/// right subtree `right` and then by `rest`.
proof fn lemma_range_step<T: Ord>(v: T, right: Seq<T>, rest: Seq<T>, start: Bound<&T>, end: Bound<&T>)
    requires
        total_order::<T>(),
        sorted(seq![v] + right + rest),
        forall|i: int| 0 <= i < (seq![v] + right + rest).len() ==> after_start(start, #[trigger] (seq![v] + right + rest)[i]),
    ensures
        !before_end(end, v) ==> (seq![v] + right + rest).filter(|e: T| before_end(end, e)) == Seq::<T>::empty(),
        before_end(end, v) ==> (seq![v] + right + rest).filter(|e: T| before_end(end, e)) == seq![v] + (right + rest).filter(|e: T| before_end(end, e)),
        sorted(right),
        sorted(right + rest),
        right.filter(|e: T| after_start(start, e)) == right,
        forall|i: int| 0 <= i < (right + rest).len() ==> after_start(start, #[trigger] (right + rest)[i]),
{
    let all = seq![v] + right + rest;
    let tail = right + rest;
    lemma_bounds_monotone(start, end);
    assert(all == Seq::<T>::empty() + seq![v] + tail);
    lemma_filter_three(Seq::<T>::empty(), v, tail, |e: T| before_end(end, e));
    lemma_filter_drops_all(Seq::<T>::empty(), |e: T| before_end(end, e));
    assert forall|i: int| 0 <= i < tail.len() implies lt(v, #[trigger] tail[i]) && after_start(start, tail[i]) by {
        assert(all[i + 1] == tail[i]);
        assert(all[0] == v);
    }
    if !before_end(end, v) {
        assert forall|i: int| 0 <= i < tail.len() implies !before_end(end, #[trigger] tail[i]) by {
            assert(lt(v, tail[i]));
        }
        lemma_filter_drops_all(tail, |e: T| before_end(end, e));
    }
    assert forall|i: int, j: int| 0 <= i < j < tail.len() implies lt(#[trigger] tail[i], #[trigger] tail[j]) by {
        assert(all[i + 1] == tail[i] && all[j + 1] == tail[j]);
    }
    assert forall|i: int, j: int| 0 <= i < j < right.len() implies lt(#[trigger] right[i], #[trigger] right[j]) by {
        assert(tail[i] == right[i] && tail[j] == right[j]);
    }
    assert forall|i: int| 0 <= i < right.len() implies after_start(start, #[trigger] right[i]) by {
        assert(tail[i] == right[i]);
    }
    lemma_filter_keeps_all(right, |e: T| after_start(start, e));
}

impl<'a, T: Ord> View for Range<'a, T> {
    type V = Seq<T>;

    open spec fn view(&self) -> Seq<T> {
        self.spec_remaining()
    }
}

} // verus!

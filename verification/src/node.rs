//! Tree nodes, their mathematical model, and the AVL balancing primitives.

use vstd::prelude::*;
use vstd::arithmetic::power2::pow2;
use vstd::arithmetic::power2::lemma_pow2_unfold;
use vstd::arithmetic::power2::lemma_pow2_strictly_increases;
use vstd::arithmetic::power2::lemma2_to64;

verus! {

/// An owned, possibly empty, subtree.
pub type Link<T> = Option<Box<AVLNode<T>>>;

/// A read-only view of a node in an [`AVLTree`](crate::tree::AVLTree).
///
/// Tree mutations are kept on `AVLTree` so callers cannot break the ordering
/// or balance invariants.
pub struct AVLNode<T> {
    pub(crate) value: T,
    pub(crate) left: Link<T>,
    pub(crate) right: Link<T>,
    pub(crate) height: usize,
}

/// The larger of two heights.
pub open spec fn nat_max(a: nat, b: nat) -> nat {
    if a >= b { a } else { b }
}

/// The values of a subtree, left to right (in-order).
pub open(crate) spec fn values<T>(link: Link<T>) -> Seq<T>
    decreases link,
{
    match link {
        None => Seq::empty(),
        Some(n) => values(n.left) + seq![n.value] + values(n.right),
    }
}

/// The values of a subtree, each node before its subtrees (pre-order).
pub open(crate) spec fn pre_values<T>(link: Link<T>) -> Seq<T>
    decreases link,
{
    match link {
        None => Seq::empty(),
        Some(n) => seq![n.value] + pre_values(n.left) + pre_values(n.right),
    }
}

/// The values of a subtree, each node after its subtrees (post-order).
pub open(crate) spec fn post_values<T>(link: Link<T>) -> Seq<T>
    decreases link,
{
    match link {
        None => Seq::empty(),
        Some(n) => post_values(n.left) + post_values(n.right) + seq![n.value],
    }
}

/// The number of levels of a subtree; an empty subtree has height zero.
pub open(crate) spec fn real_height<T>(link: Link<T>) -> nat
    decreases link,
{
    match link {
        None => 0,
        Some(n) => 1 + nat_max(real_height(n.left), real_height(n.right)),
    }
}

/// Every node caches its own height.
pub open(crate) spec fn heights_ok<T>(link: Link<T>) -> bool
    decreases link,
{
    match link {
        None => true,
        Some(n) => {
            &&& n.height == real_height(link)
            &&& heights_ok(n.left)
            &&& heights_ok(n.right)
        },
    }
}

/// At every node the heights of the two subtrees differ by at most one.
pub open(crate) spec fn balanced<T>(link: Link<T>) -> bool
    decreases link,
{
    match link {
        None => true,
        Some(n) => {
            &&& real_height(n.left) <= real_height(n.right) + 1
            &&& real_height(n.right) <= real_height(n.left) + 1
            &&& balanced(n.left)
            &&& balanced(n.right)
        },
    }
}

/// The AVL shape invariant: cached heights are right and every node is
/// balanced.
pub open(crate) spec fn avl<T>(link: Link<T>) -> bool {
    heights_ok(link) && balanced(link)
}

/// The height stored at the root of a subtree (zero when it is empty).
pub open(crate) spec fn cached_height<T>(link: Link<T>) -> nat {
    match link {
        None => 0,
        Some(n) => n.height as nat,
    }
}

/// A generous bound on subtree heights below which height arithmetic cannot
/// overflow; every tree that fits in memory is far below it (see
/// `lemma_height_logarithmic`).
pub open spec fn height_cap() -> nat {
    1000
}

impl<T> AVLNode<T> {
    /// The value stored at this node.
    pub open(crate) spec fn spec_value(&self) -> T {
        self.value
    }

    /// The cached height of this node.
    pub open(crate) spec fn spec_height(&self) -> usize {
        self.height
    }

    /// The left subtree of this node.
    pub open(crate) spec fn spec_left(&self) -> Link<T> {
        self.left
    }

    /// The right subtree of this node.
    pub open(crate) spec fn spec_right(&self) -> Link<T> {
        self.right
    }

    pub(crate) fn new(value: T) -> (r: Self)
        ensures
            r.value == value,
            r.left is None,
            r.right is None,
            r.height == 1,
    {
        AVLNode { value, left: None, right: None, height: 1 }
    }

    /// Returns the value stored at this node.
    pub fn value(&self) -> (r: &T)
        ensures
            *r == self.spec_value(),
    {
        &self.value
    }

    /// Returns the cached height of this node.
    pub fn height(&self) -> (r: usize)
        ensures
            r == self.spec_height(),
    {
        self.height
    }

    /// Returns this node's left child, if present.
    pub fn left(&self) -> (r: Option<&Self>)
        ensures
            r == match self.spec_left() {
                Some(b) => Some(&*b),
                None => None::<&Self>,
            },
    {
        match &self.left {
            Some(b) => Some(&**b),
            None => None,
        }
    }

    /// Returns this node's right child, if present.
    pub fn right(&self) -> (r: Option<&Self>)
        ensures
            r == match self.spec_right() {
                Some(b) => Some(&*b),
                None => None::<&Self>,
            },
    {
        match &self.right {
            Some(b) => Some(&**b),
            None => None,
        }
    }
}

/// Where the cached heights are right, the root's cached height is the
/// subtree's height.
pub proof fn lemma_cached_height<T>(link: Link<T>)
    requires
        heights_ok(link),
    ensures
        cached_height(link) == real_height(link),
{
}

/// The children of an AVL node are AVL trees, the node caches its height,
/// and the children's heights differ by at most one.
pub(crate) proof fn lemma_avl_node<T>(link: Link<T>)
    requires
        avl(link),
        link is Some,
    ensures
        avl(link.unwrap().left),
        avl(link.unwrap().right),
        link.unwrap().height == real_height(link),
        real_height(link.unwrap().left) <= real_height(link.unwrap().right) + 1,
        real_height(link.unwrap().right) <= real_height(link.unwrap().left) + 1,
        real_height(link) == 1 + nat_max(real_height(link.unwrap().left), real_height(link.unwrap().right)),
{
}

/// A balanced subtree of height `h` holds at least `2^(h/2) - 1` values, so
/// its height is logarithmic in its size.
pub proof fn lemma_height_logarithmic<T>(link: Link<T>)
    requires
        balanced(link),
    ensures
        pow2(real_height(link) / 2) <= values(link).len() + 1,
    decreases link,
{
    match link {
        None => {
            lemma2_to64();
        },
        Some(n) => {
            lemma_height_logarithmic(n.left);
            lemma_height_logarithmic(n.right);
            let h: nat = real_height(link);
            let hl: nat = real_height(n.left);
            let hr: nat = real_height(n.right);
            if h < 2 {
                lemma2_to64();
            } else {
                let e: nat = ((h - 2) / 2) as nat;
                assert(e + 1 == h / 2);
                if e < hl / 2 {
                    lemma_pow2_strictly_increases(e, hl / 2);
                }
                if e < hr / 2 {
                    lemma_pow2_strictly_increases(e, hr / 2);
                }
                lemma_pow2_unfold(e + 1);
                assert(pow2(e) <= values(n.left).len() + 1);
                assert(pow2(e) <= values(n.right).len() + 1);
            }
        },
    }
}

/// The Fibonacci numbers: 0, 1, 1, 2, 3, 5, ...
pub open spec fn fib(n: nat) -> nat
    decreases n,
{
    if n < 2 {
        n
    } else {
        fib((n - 1) as nat) + fib((n - 2) as nat)
    }
}

/// The Fibonacci numbers never decrease.
pub proof fn lemma_fib_monotone(a: nat, b: nat)
    requires
        a <= b,
    ensures
        fib(a) <= fib(b),
    decreases b,
{
    if a < b {
        lemma_fib_monotone(a, (b - 1) as nat);
    }
}

/// A balanced subtree of height `h` holds at least `fib(h + 2) - 1` values:
/// the fewest that any height-balanced tree of that height can hold.
pub proof fn lemma_height_fibonacci<T>(link: Link<T>)
    requires
        balanced(link),
    ensures
        fib(real_height(link) + 2) <= values(link).len() + 1,
    decreases link,
{
    match link {
        None => {
            reveal_with_fuel(fib, 3);
        },
        Some(n) => {
            lemma_height_fibonacci(n.left);
            lemma_height_fibonacci(n.right);
            let h: nat = real_height(link);
            let hl: nat = real_height(n.left);
            let hr: nat = real_height(n.right);
            assert(values(link) == values(n.left) + seq![n.value] + values(n.right));
            assert(fib(h + 2) == fib(h + 1) + fib(h));
            if hl >= hr {
                assert(h == hl + 1);
                lemma_fib_monotone(h, hr + 2);
            } else {
                assert(h == hr + 1);
                lemma_fib_monotone(h, hl + 2);
            }
        },
    }
}

/// The pre-order and post-order sequences of a subtree hold the same values
/// as its in-order sequence.
pub proof fn lemma_orders_permute<T>(link: Link<T>)
    ensures
        pre_values(link).to_multiset() == values(link).to_multiset(),
        post_values(link).to_multiset() == values(link).to_multiset(),
    decreases link,
{
    broadcast use vstd::multiset::group_multiset_axioms;
    match link {
        None => {},
        Some(n) => {
            lemma_orders_permute(n.left);
            lemma_orders_permute(n.right);
            let l = values(n.left);
            let r = values(n.right);
            let x = seq![n.value];
            assert(pre_values(link) == x + pre_values(n.left) + pre_values(n.right));
            assert(post_values(link) == post_values(n.left) + post_values(n.right) + x);
            assert(values(link) == l + x + r);
            vstd::seq_lib::lemma_multiset_commutative(x + pre_values(n.left), pre_values(n.right));
            vstd::seq_lib::lemma_multiset_commutative(x, pre_values(n.left));
            vstd::seq_lib::lemma_multiset_commutative(post_values(n.left) + post_values(n.right), x);
            vstd::seq_lib::lemma_multiset_commutative(post_values(n.left), post_values(n.right));
            vstd::seq_lib::lemma_multiset_commutative(l + x, r);
            vstd::seq_lib::lemma_multiset_commutative(l, x);
            assert(pre_values(link).to_multiset() =~= x.to_multiset().add(l.to_multiset()).add(r.to_multiset()));
            assert(post_values(link).to_multiset() =~= l.to_multiset().add(r.to_multiset()).add(x.to_multiset()));
            assert(values(link).to_multiset() =~= l.to_multiset().add(x.to_multiset()).add(r.to_multiset()));
        },
    }
}

/// A balanced subtree that fits in memory is at most 129 levels high.
pub proof fn lemma_height_small<T>(link: Link<T>)
    requires
        balanced(link),
        values(link).len() <= usize::MAX,
    ensures
        real_height(link) <= 129,
{
    lemma_height_logarithmic(link);
    lemma2_to64();
    if real_height(link) / 2 > 64 {
        lemma_pow2_strictly_increases(64, real_height(link) / 2);
    }
}

/// Returns the height cached at the root of `link`, zero when it is empty.
pub(crate) fn height<T>(link: &Link<T>) -> (r: usize)
    ensures
        r == cached_height(*link),
{
    match link {
        Some(n) => n.height,
        None => 0,
    }
}

/// Recomputes `node.height` from its children's cached heights.
pub(crate) fn update_height<T>(node: &mut AVLNode<T>)
    requires
        cached_height(old(node).left) <= height_cap(),
        cached_height(old(node).right) <= height_cap(),
    ensures
        final(node).value == old(node).value,
        final(node).left == old(node).left,
        final(node).right == old(node).right,
        final(node).height == 1 + nat_max(cached_height(old(node).left), cached_height(old(node).right)),
{
    let hl: usize = height(&node.left);
    let hr: usize = height(&node.right);
    node.height = 1 + if hl >= hr { hl } else { hr };
}

/// The left subtree's height minus the right subtree's.
pub(crate) fn balance_factor<T>(node: &AVLNode<T>) -> (r: isize)
    requires
        cached_height(node.left) <= height_cap(),
        cached_height(node.right) <= height_cap(),
    ensures
        r == cached_height(node.left) - cached_height(node.right),
{
    height(&node.left) as isize - height(&node.right) as isize
}

/// Rotates a left-heavy subtree to the right.
///
/// Before: `y` owns `x`, and `x` owns the middle subtree `b`.
/// After: `x` becomes the root, `y` becomes its right child, and `b` moves
/// to `y.left`. This preserves the in-order sequence.
pub(crate) fn rotate_right<T>(mut y: Box<AVLNode<T>>) -> (x: Box<AVLNode<T>>)
    requires
        y.left is Some,
        heights_ok(y.left.unwrap().left),
        heights_ok(y.left.unwrap().right),
        heights_ok(y.right),
        real_height(y.left.unwrap().left) < height_cap(),
        real_height(y.left.unwrap().right) < height_cap(),
        real_height(y.right) < height_cap(),
    ensures
        x.value == y.left.unwrap().value,
        x.left == y.left.unwrap().left,
        x.right matches Some(z) && z.value == y.value && z.left == y.left.unwrap().right
            && z.right == y.right,
        heights_ok(Some(x)),
        values(Some(x)) == values(Some(y)),
        Some(x) == rotated_right(y.value, y.left, y.right),
{
    let ghost y0 = *y;
    let mut x = y.left.take().unwrap();
    let middle = x.right.take();
    y.left = middle;
    update_height(&mut *y);
    let ghost z = *y;
    x.right = Some(y);
    update_height(&mut *x);
    proof {
        let xb = y0.left.unwrap();
        lemma_cached_height(xb.left);
        lemma_cached_height(xb.right);
        lemma_cached_height(y0.right);
        assert(heights_ok(Some(Box::new(z))));
        assert(values(Some(Box::new(z))) == values(xb.right) + seq![y0.value] + values(y0.right));
        assert(values(Some(x)) == values(xb.left) + seq![xb.value] + values(Some(Box::new(z))));
        assert(values(y0.left) == values(xb.left) + seq![xb.value] + values(xb.right));
        assert(values(Some(Box::new(y0))) == values(y0.left) + seq![y0.value] + values(y0.right));
        assert(values(Some(x)) =~= values(Some(Box::new(y0))));
        assert(Some(Box::new(z)) == join(y0.value, xb.right, y0.right));
    }
    x
}

/// Rotates a right-heavy subtree to the left.
///
/// This is the mirror of `rotate_right`: the new root is the old right child,
/// and its middle subtree moves to the old root's right side.
pub(crate) fn rotate_left<T>(mut x: Box<AVLNode<T>>) -> (y: Box<AVLNode<T>>)
    requires
        x.right is Some,
        heights_ok(x.left),
        heights_ok(x.right.unwrap().left),
        heights_ok(x.right.unwrap().right),
        real_height(x.left) < height_cap(),
        real_height(x.right.unwrap().left) < height_cap(),
        real_height(x.right.unwrap().right) < height_cap(),
    ensures
        y.value == x.right.unwrap().value,
        y.right == x.right.unwrap().right,
        y.left matches Some(z) && z.value == x.value && z.left == x.left && z.right
            == x.right.unwrap().left,
        heights_ok(Some(y)),
        values(Some(y)) == values(Some(x)),
        Some(y) == rotated_left(x.value, x.left, x.right),
{
    let ghost x0 = *x;
    let mut y = x.right.take().unwrap();
    let middle = y.left.take();
    x.right = middle;
    update_height(&mut *x);
    let ghost z = *x;
    y.left = Some(x);
    update_height(&mut *y);
    proof {
        let yb = x0.right.unwrap();
        lemma_cached_height(yb.left);
        lemma_cached_height(yb.right);
        lemma_cached_height(x0.left);
        assert(heights_ok(Some(Box::new(z))));
        assert(values(Some(Box::new(z))) == values(x0.left) + seq![x0.value] + values(yb.left));
        assert(values(Some(y)) == values(Some(Box::new(z))) + seq![yb.value] + values(yb.right));
        assert(values(x0.right) == values(yb.left) + seq![yb.value] + values(yb.right));
        assert(values(Some(Box::new(x0))) == values(x0.left) + seq![x0.value] + values(x0.right));
        assert(values(Some(y)) =~= values(Some(Box::new(x0))));
        assert(Some(Box::new(z)) == join(x0.value, x0.left, yb.left));
    }
    y
}

/// The subtree with `value` at its root over `left` and `right`, the root
/// caching its height.
pub open(crate) spec fn join<T>(value: T, left: Link<T>, right: Link<T>) -> Link<T> {
    Some(
        Box::new(
            AVLNode { value, left, right, height: (1 + nat_max(real_height(left), real_height(right))) as usize },
        ),
    )
}

/// The subtree that rotating `join(value, left, right)` to the right makes:
/// the left child rises to the root.
pub open(crate) spec fn rotated_right<T>(value: T, left: Link<T>, right: Link<T>) -> Link<T> {
    match left {
        Some(x) => join(x.value, x.left, join(value, x.right, right)),
        None => join(value, left, right),
    }
}

/// The subtree that rotating `join(value, left, right)` to the left makes:
/// the right child rises to the root.
pub open(crate) spec fn rotated_left<T>(value: T, left: Link<T>, right: Link<T>) -> Link<T> {
    match right {
        Some(y) => join(y.value, join(value, left, y.left), y.right),
        None => join(value, left, right),
    }
}

/// The subtree that rebalancing `value` over `left` and `right` makes.
///
/// Where the left side is two levels taller, the tree turns right, first
/// turning the left child left when its own right side is the taller; the
/// mirror case turns left; otherwise no rotation is made.
pub open(crate) spec fn balanced_join<T>(value: T, left: Link<T>, right: Link<T>) -> Link<T> {
    if real_height(left) > real_height(right) + 1 {
        match left {
            Some(l) => if real_height(l.left) < real_height(l.right) {
                rotated_right(value, rotated_left(l.value, l.left, l.right), right)
            } else {
                rotated_right(value, left, right)
            },
            None => join(value, left, right),
        }
    } else if real_height(right) > real_height(left) + 1 {
        match right {
            Some(r) => if real_height(r.left) > real_height(r.right) {
                rotated_left(value, left, rotated_right(r.value, r.left, r.right))
            } else {
                rotated_left(value, left, right)
            },
            None => join(value, left, right),
        }
    } else {
        join(value, left, right)
    }
}

/// A subtree whose root may be off balance by two, after one of its
/// subtrees grew or shrank by one level.
pub open(crate) spec fn nearly_avl<T>(node: AVLNode<T>) -> bool {
    &&& avl(node.left)
    &&& avl(node.right)
    &&& real_height(node.left) <= real_height(node.right) + 2
    &&& real_height(node.right) <= real_height(node.left) + 2
    &&& real_height(node.left) + 2 < height_cap()
    &&& real_height(node.right) + 2 < height_cap()
}

/// The height the node would have if its children stayed where they are.
pub open(crate) spec fn joined_height<T>(node: AVLNode<T>) -> nat {
    1 + nat_max(real_height(node.left), real_height(node.right))
}

/// Restores the AVL balance of a subtree whose two children are AVL trees
/// whose heights differ by at most two.
///
/// The in-order sequence is unchanged; the height is what the node would
/// have had, or one less when a rotation was needed.
pub(crate) fn rebalance<T>(mut node: Box<AVLNode<T>>) -> (r: Box<AVLNode<T>>)
    requires
        nearly_avl(*node),
    ensures
        avl(Some(r)),
        values(Some(r)) == values(Some(node)),
        real_height(Some(r)) <= joined_height(*node),
        real_height(Some(r)) + 1 >= joined_height(*node),
        real_height(node.left) <= real_height(node.right) + 1 && real_height(node.right)
            <= real_height(node.left) + 1 ==> real_height(Some(r)) == joined_height(*node),
        avl(Some(node)) ==> r == node,
        Some(r) == balanced_join(node.value, node.left, node.right),
{
    let ghost n0 = *node;
    proof {
        lemma_cached_height(n0.left);
        lemma_cached_height(n0.right);
    }
    update_height(&mut *node);
    proof {
        if avl(Some(Box::new(n0))) {
            assert(*node == n0);
        }
    }
    let balance: isize = balance_factor(&*node);
    if balance > 1 {
        // A left-right shape first needs its child straightened into a
        // left-left shape; the final right rotation can then lift it safely.
        let ghost l0 = *n0.left.unwrap();
        proof {
            lemma_avl_node(n0.left);
            lemma_cached_height(l0.left);
            lemma_cached_height(l0.right);
        }
        let mut zig_zag = false;
        match &node.left {
            Some(left) => {
                zig_zag = balance_factor(&**left) < 0;
            },
            None => {},
        }
        if zig_zag {
            let left = node.left.take().unwrap();
            proof {
                lemma_avl_node(l0.right);
                let lr = *l0.right.unwrap();
                lemma_cached_height(lr.left);
                lemma_cached_height(lr.right);
            }
            node.left = Some(rotate_left(left));
        }
        let r = rotate_right(node);
        proof {
            let z = r.right.unwrap();
            assert(balanced(z.left) && balanced(z.right));
            assert(balanced(r.right));
            assert(balanced(r.left));
            assert(balanced(Some(r)));
        }
        return r;
    }
    if balance < -1 {
        // Mirror case: turn a right-left zig-zag into a right-right line before
        // rotating the unbalanced root to the left.
        let ghost r0 = *n0.right.unwrap();
        proof {
            lemma_avl_node(n0.right);
            lemma_cached_height(r0.left);
            lemma_cached_height(r0.right);
        }
        let mut zig_zag = false;
        match &node.right {
            Some(right) => {
                zig_zag = balance_factor(&**right) > 0;
            },
            None => {},
        }
        if zig_zag {
            let right = node.right.take().unwrap();
            proof {
                lemma_avl_node(r0.left);
                let rl = *r0.left.unwrap();
                lemma_cached_height(rl.left);
                lemma_cached_height(rl.right);
            }
            node.right = Some(rotate_right(right));
        }
        let r = rotate_left(node);
        proof {
            let z = r.left.unwrap();
            assert(balanced(z.left) && balanced(z.right));
            assert(balanced(r.right));
            assert(balanced(r.left));
            assert(balanced(Some(r)));
        }
        return r;
    }
    node
}

} // verus!

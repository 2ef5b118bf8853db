//! The total order that the tree keeps its values in.
//!
//! Values are compared through `Ord`. The laws that a lawful `Ord` obeys are
//! taken from vstd's description of `Ord`, and restated here as the few facts
//! that the tree's proofs need.

use vstd::prelude::*;
use vstd::laws_cmp::obeys_cmp;
use vstd::laws_eq::obeys_eq_spec_properties;
use vstd::laws_cmp::obeys_partial_cmp_spec_properties;
use vstd::laws_cmp::obeys_cmp_partial_ord;
use vstd::laws_cmp::obeys_cmp_ord;
use core::cmp::Ordering;
use vstd::std_specs::cmp::OrdSpec;
use vstd::std_specs::cmp::PartialOrdSpec;

verus! {

/// `T`'s `Ord` implementation is a lawful total order.
pub open spec fn total_order<T: Ord>() -> bool {
    obeys_cmp::<T>()
}

/// `a` is ordered strictly before `b`.
pub open spec fn lt<T: Ord>(a: T, b: T) -> bool {
    a.cmp_spec(&b) == Ordering::Less
}

/// `a` and `b` compare equal, so the set treats them as the same value.
pub open spec fn equiv<T: Ord>(a: T, b: T) -> bool {
    a.cmp_spec(&b) == Ordering::Equal
}

/// The outcome of comparing two values.
#[derive(PartialEq, Eq, Structural, Clone, Copy, Debug)]
pub enum Relation {
    Less,
    Equal,
    Greater,
}

/// Compares `a` with `b`.
pub fn compare<T: Ord>(a: &T, b: &T) -> (r: Relation)
    requires
        total_order::<T>(),
    ensures
        r == Relation::Less <==> lt(*a, *b),
        r == Relation::Equal <==> equiv(*a, *b),
        r == Relation::Greater <==> lt(*b, *a),
{
    proof {
        lemma_order_facts(*a, *b);
        lemma_greater(*a, *b);
        reveal(obeys_cmp_ord);
    }
    match a.cmp(b) {
        Ordering::Less => Relation::Less,
        Ordering::Equal => Relation::Equal,
        Ordering::Greater => Relation::Greater,
    }
}

/// Exactly one of `a < b`, `a == b`, `b < a` holds, and each is stated both
/// ways round.
pub proof fn lemma_order_facts<T: Ord>(a: T, b: T)
    requires
        total_order::<T>(),
    ensures
        lt(a, b) ==> !equiv(a, b) && !lt(b, a),
        equiv(a, b) ==> !lt(a, b) && !lt(b, a) && equiv(b, a),
        lt(a, b) || equiv(a, b) || lt(b, a),
        equiv(a, a),
{
    lemma_greater(a, b);
    reveal(obeys_partial_cmp_spec_properties);
    reveal(obeys_cmp_partial_ord);
    reveal(obeys_cmp_ord);
    reveal(obeys_eq_spec_properties);
    assert(a.partial_cmp_spec(&b) == Some(a.cmp_spec(&b)));
    assert(b.partial_cmp_spec(&a) == Some(b.cmp_spec(&a)));
    assert(a.partial_cmp_spec(&a) == Some(a.cmp_spec(&a)));
}

/// `a` compares greater than `b` exactly when `b < a`.
proof fn lemma_greater<T: Ord>(a: T, b: T)
    requires
        total_order::<T>(),
    ensures
        a.cmp_spec(&b) == Ordering::Greater <==> lt(b, a),
        equiv(a, a),
{
    reveal(obeys_partial_cmp_spec_properties);
    reveal(obeys_cmp_partial_ord);
    reveal(obeys_cmp_ord);
    reveal(obeys_eq_spec_properties);
    assert(a.partial_cmp_spec(&b) == Some(a.cmp_spec(&b)));
    assert(b.partial_cmp_spec(&a) == Some(b.cmp_spec(&a)));
    assert(a.partial_cmp_spec(&a) == Some(a.cmp_spec(&a)));
}

/// `<` is transitive.
pub proof fn lemma_lt_trans<T: Ord>(a: T, b: T, c: T)
    requires
        total_order::<T>(),
        lt(a, b),
        lt(b, c),
    ensures
        lt(a, c),
{
    reveal(obeys_partial_cmp_spec_properties);
    reveal(obeys_cmp_partial_ord);
    reveal(obeys_cmp_ord);
    assert(a.partial_cmp_spec(&b) == Some(a.cmp_spec(&b)));
    assert(b.partial_cmp_spec(&c) == Some(b.cmp_spec(&c)));
    assert(a.partial_cmp_spec(&c) == Some(a.cmp_spec(&c)));
}

/// `<` followed by equality, or equality followed by `<`, is `<`.
pub proof fn lemma_lt_equiv<T: Ord>(a: T, b: T, c: T)
    requires
        total_order::<T>(),
    ensures
        lt(a, b) && equiv(b, c) ==> lt(a, c),
        equiv(a, b) && lt(b, c) ==> lt(a, c),
        equiv(a, b) && equiv(b, c) ==> equiv(a, c),
{
    lemma_order_facts(a, b);
    lemma_order_facts(b, c);
    lemma_order_facts(a, c);
    reveal(obeys_partial_cmp_spec_properties);
    reveal(obeys_cmp_partial_ord);
    reveal(obeys_cmp_ord);
    reveal(obeys_eq_spec_properties);
    assert(a.partial_cmp_spec(&b) == Some(a.cmp_spec(&b)));
    assert(b.partial_cmp_spec(&c) == Some(b.cmp_spec(&c)));
    assert(a.partial_cmp_spec(&c) == Some(a.cmp_spec(&c)));
    assert(c.partial_cmp_spec(&a) == Some(c.cmp_spec(&a)));
    assert(c.partial_cmp_spec(&b) == Some(c.cmp_spec(&b)));
    assert(b.partial_cmp_spec(&a) == Some(b.cmp_spec(&a)));
    if lt(a, b) && equiv(b, c) {
        if lt(c, a) {
            lemma_lt_trans(c, a, b);
        }
    }
    if equiv(a, b) && lt(b, c) {
        if lt(c, a) {
            lemma_lt_trans(b, c, a);
        }
    }
}

} // verus!

use std::cmp::Ordering;
use std::collections::BTreeSet;

use rs_avl::{AVLNode, AVLTree, Bound};

fn collect<'a, T: Clone + 'a>(mut next: impl FnMut() -> Option<&'a T>) -> Vec<T> {
    let mut out = Vec::new();
    while let Some(value) = next() {
        out.push(value.clone());
    }
    out
}

fn ascending<T: Clone + Ord>(tree: &AVLTree<T>) -> Vec<T> {
    let mut iter = tree.iter();
    collect(|| iter.next())
}

fn assert_invariants<T: Ord + std::fmt::Debug>(tree: &AVLTree<T>) {
    fn visit<T: Ord + std::fmt::Debug>(
        node: Option<&AVLNode<T>>,
        lower: Option<&T>,
        upper: Option<&T>,
    ) -> (usize, usize) {
        let Some(node) = node else {
            return (0, 0);
        };

        if let Some(lower) = lower {
            assert!(node.value() > lower);
        }
        if let Some(upper) = upper {
            assert!(node.value() < upper);
        }

        let (left_height, left_len) = visit(node.left(), lower, Some(node.value()));
        let (right_height, right_len) = visit(node.right(), Some(node.value()), upper);
        let expected_height = 1 + left_height.max(right_height);

        assert_eq!(node.height(), expected_height);
        assert!(left_height.abs_diff(right_height) <= 1);
        (expected_height, left_len + right_len + 1)
    }

    let (height, len) = visit(tree.root(), None, None);
    assert_eq!(tree.height(), height);
    assert_eq!(tree.len(), len);
}

#[test]
fn insertion_handles_all_four_rotation_shapes() {
    for values in [[30, 20, 10], [30, 10, 20], [10, 20, 30], [10, 30, 20]] {
        let tree = AVLTree::from_iter(values.to_vec());
        assert_eq!(tree.root().map(AVLNode::value), Some(&20));
        assert_eq!(ascending(&tree), [10, 20, 30]);
        assert_invariants(&tree);
    }
}

#[test]
fn insert_search_and_duplicate_semantics_are_set_like() {
    let mut tree = AVLTree::new();
    assert!(tree.is_empty());
    assert!(tree.insert(String::from("pear")));
    assert!(tree.insert(String::from("apple")));
    assert!(tree.insert(String::from("orange")));
    assert!(!tree.insert(String::from("pear")));

    assert_eq!(tree.len(), 3);
    assert_eq!(
        tree.search(&String::from("orange")).map(String::as_str),
        Some("orange")
    );
    assert_eq!(tree.get(&String::from("missing")), None);
    assert!(tree.contains(&String::from("apple")));
    assert!(tree.has_node(&String::from("pear")));
    assert_eq!(tree.min().map(String::as_str), Some("apple"));
    assert_eq!(tree.max().map(String::as_str), Some("pear"));
    let apple = String::from("apple");
    let orange = String::from("orange");
    let mut range = tree.range(Bound::Included(&apple), Bound::Included(&orange));
    assert_eq!(collect(|| range.next()), ["apple", "orange"]);
    assert_invariants(&tree);
}

#[test]
fn removal_rebalances_leaf_single_child_and_two_child_cases() {
    let mut tree = AVLTree::from_iter((0..100).collect());

    for value in [99, 98, 50, 0, 64, 32, 31, 63, 10, 20, 40] {
        assert!(tree.remove(&value));
        assert!(!tree.contains(&value));
        assert_invariants(&tree);
    }
    assert!(!tree.remove(&1_000));

    let values = ascending(&tree);
    assert!(values.windows(2).all(|pair| pair[0] < pair[1]));
    assert_eq!(values.len(), tree.len());
}

#[test]
fn ranges_observe_inclusive_exclusive_and_unbounded_limits() {
    let tree = AVLTree::from_iter((0..10).collect());
    let range = |start: Bound<&i32>, end: Bound<&i32>| {
        let mut iter = tree.range(start, end);
        collect(|| iter.next())
    };

    assert_eq!(range(Bound::Included(&3), Bound::Excluded(&7)), [3, 4, 5, 6]);
    assert_eq!(range(Bound::Included(&3), Bound::Included(&7)), [3, 4, 5, 6, 7]);
    assert_eq!(range(Bound::Unbounded, Bound::Excluded(&3)), [0, 1, 2]);
    assert_eq!(range(Bound::Included(&8), Bound::Unbounded), [8, 9]);
    assert_eq!(range(Bound::Excluded(&3), Bound::Included(&6)), [4, 5, 6]);
}

#[test]
fn iter_from_seeks_to_an_inclusive_lower_bound_and_limits_results() {
    let numbers = AVLTree::from_iter(vec![10, 20, 30, 40, 50]);
    let from = |start: i32, count: usize| {
        let mut iter = numbers.iter_from(&start, count);
        collect(|| iter.next())
    };

    assert_eq!(from(20, 3), [20, 30, 40]);
    assert_eq!(from(25, 3), [30, 40, 50]);
    assert_eq!(from(50, 10), [50]);
    assert!(numbers.iter_from(&60, 3).next().is_none());
    assert!(numbers.iter_from(&10, 0).next().is_none());

    let words = AVLTree::from_iter(vec!["apple".to_owned(), "pear".to_owned()]);
    let mut iter = words.iter_from(&"banana".to_owned(), 1);
    assert_eq!(collect(|| iter.next()), ["pear"]);
}

#[test]
fn traversal_iterators_have_their_documented_order() {
    let tree = AVLTree::from_iter(vec![4, 2, 6, 1, 3, 5, 7]);

    let mut in_order = tree.in_order();
    assert_eq!(collect(|| in_order.next()), [1, 2, 3, 4, 5, 6, 7]);
    let mut pre_order = tree.pre_order();
    assert_eq!(collect(|| pre_order.next()), [4, 2, 1, 3, 6, 5, 7]);
    let mut post_order = tree.post_order();
    assert_eq!(collect(|| post_order.next()), [1, 3, 2, 5, 7, 6, 4]);
    let mut level_order = tree.level_order();
    assert_eq!(collect(|| level_order.next()), [4, 2, 6, 1, 3, 5, 7]);
    assert_eq!(ascending(&tree), [1, 2, 3, 4, 5, 6, 7]);
}

#[test]
fn values_do_not_need_to_implement_clone() {
    #[derive(Debug, Eq, Ord, PartialEq, PartialOrd)]
    struct NotClone(i32);

    let mut tree = AVLTree::new();
    for value in [2, 1, 4, 3, 5] {
        tree.insert(NotClone(value));
    }
    assert!(tree.remove(&NotClone(2)));
    let mut iter = tree.iter();
    let mut seen = Vec::new();
    while let Some(value) = iter.next() {
        seen.push(value.0);
    }
    assert_eq!(seen, [1, 3, 4, 5]);
    assert_invariants(&tree);
}

#[test]
fn clear_restores_the_empty_state() {
    let mut tree = AVLTree::from_iter((1..=5).collect());
    tree.clear();

    assert!(tree.is_empty());
    assert_eq!(tree.len(), 0);
    assert_eq!(tree.height(), 0);
    assert_eq!(tree.first(), None);
    assert_eq!(tree.last(), None);
    assert!(ascending(&tree).is_empty());
}

#[test]
fn mixed_updates_match_the_standard_ordered_set() {
    let mut tree = AVLTree::new();
    let mut expected = BTreeSet::new();
    let mut state = 0x1234_5678_u32;

    for step in 0..2_000 {
        // A fixed linear-congruential sequence keeps this stress test repeatable.
        state = state.wrapping_mul(1_664_525).wrapping_add(1_013_904_223);
        let value = (state % 250) as i32;
        if state & 1 == 0 {
            assert_eq!(tree.insert(value), expected.insert(value));
        } else {
            assert_eq!(tree.remove(&value), expected.remove(&value));
        }

        assert_eq!(
            ascending(&tree),
            expected.iter().copied().collect::<Vec<_>>()
        );
        if step % 25 == 0 {
            assert_invariants(&tree);
        }
    }
    assert_invariants(&tree);
}

#[test]
fn double_ended_iteration_meets_in_the_middle() {
    let tree = AVLTree::from_iter(vec![30, 10, 20, 40, 50]);
    let mut iter = tree.iter();
    assert_eq!(iter.size_hint(), (5, Some(5)));
    assert_eq!(iter.next(), Some(&10));
    assert_eq!(iter.next_back(), Some(&50));
    assert_eq!(iter.next_back(), Some(&40));
    assert_eq!(iter.size_hint(), (2, Some(2)));
    assert_eq!(iter.next(), Some(&20));
    assert_eq!(iter.next(), Some(&30));
    assert_eq!(iter.next(), None);
    assert_eq!(iter.next_back(), None);

    let mut backwards = tree.iter();
    assert_eq!(collect(|| backwards.next_back()), [50, 40, 30, 20, 10]);
}

#[test]
fn iter_to_descends_from_an_inclusive_upper_bound() {
    let tree = AVLTree::from_iter(vec![30, 10, 20, 40, 50]);
    let to = |end: i32, count: usize| {
        let mut iter = tree.iter_to(&end, count);
        collect(|| iter.next())
    };
    assert_eq!(to(40, 3), [40, 30, 20]);
    assert_eq!(to(35, 10), [30, 20, 10]);
    assert_eq!(to(5, 3), Vec::<i32>::new());
    assert_eq!(to(50, 0), Vec::<i32>::new());
    let iter = tree.iter_to(&50, 2);
    assert_eq!(iter.size_hint(), (0, Some(2)));
}

#[test]
fn range_examples_from_the_readme() {
    let mut tree = AVLTree::from_iter(vec![4, 2, 6, 1, 3, 5, 7]);
    assert!(tree.insert(8));
    assert!(!tree.insert(8));
    assert_eq!(tree.search(&3), Some(&3));
    let mut range = tree.range(Bound::Included(&2), Bound::Included(&5));
    assert_eq!(collect(|| range.next()), [2, 3, 4, 5]);
    assert_eq!(ascending(&tree), [1, 2, 3, 4, 5, 6, 7, 8]);
    assert!(tree.remove(&4));
    assert!(!tree.contains(&4));
}

#[test]
fn range_with_empty_or_reversed_bounds_yields_nothing() {
    let tree = AVLTree::from_iter((0..10).collect());
    let mut empty = tree.range(Bound::Excluded(&4), Bound::Excluded(&5));
    assert_eq!(empty.next(), None);
    let mut reversed = tree.range(Bound::Included(&7), Bound::Included(&2));
    assert_eq!(reversed.next(), None);
    let mut everything = tree.range(Bound::Unbounded, Bound::Unbounded);
    assert_eq!(collect(|| everything.next()), (0..10).collect::<Vec<_>>());
}

/// A value ordered by its key alone, so two values can compare equal while
/// carrying different tags.
#[derive(Debug, Clone)]
struct Keyed(i32, &'static str);

impl PartialEq for Keyed {
    fn eq(&self, other: &Self) -> bool {
        self.0 == other.0
    }
}

impl Eq for Keyed {}

impl PartialOrd for Keyed {
    fn partial_cmp(&self, other: &Self) -> Option<Ordering> {
        Some(self.cmp(other))
    }
}

impl Ord for Keyed {
    fn cmp(&self, other: &Self) -> Ordering {
        self.0.cmp(&other.0)
    }
}

#[test]
fn an_equal_value_is_not_replaced() {
    let mut tree = AVLTree::from_iter(vec![Keyed(1, "first"), Keyed(1, "second")]);
    assert_eq!(tree.len(), 1);
    assert_eq!(tree.search(&Keyed(1, "probe")).map(|k| k.1), Some("first"));
    assert!(!tree.insert(Keyed(1, "third")));
    assert_eq!(tree.first().map(|k| k.1), Some("first"));
    assert!(tree.remove(&Keyed(1, "other")));
    assert!(tree.is_empty());
}

#[test]
fn inserting_then_removing_restores_membership() {
    let mut tree = AVLTree::from_iter(vec![5, 3, 8]);
    let before = ascending(&tree);
    assert!(tree.insert(4));
    assert!(tree.contains(&4));
    assert!(tree.remove(&4));
    assert!(!tree.contains(&4));
    assert_eq!(ascending(&tree), before);
    assert!(!tree.remove(&4));
    assert_eq!(ascending(&tree), before);
}

#[test]
fn inserting_twice_is_inserting_once() {
    let mut once = AVLTree::from_iter(vec![1, 9]);
    let mut twice = AVLTree::from_iter(vec![1, 9]);
    assert!(once.insert(5));
    assert!(twice.insert(5));
    assert!(!twice.insert(5));
    assert_eq!(ascending(&once), ascending(&twice));
    assert_eq!(twice.len(), 3);
}

#[test]
fn heights_stay_logarithmic() {
    let mut tree = AVLTree::new();
    for value in 0..4096 {
        tree.insert(value);
    }
    // 4096 values need at least 13 levels, and an AVL tree is never more
    // than about 1.44 times that.
    assert!(tree.height() >= 13);
    assert!(tree.height() <= 2 * 13);
    assert_invariants(&tree);
}

#[test]
fn traversals_visit_every_value_once() {
    let tree = AVLTree::from_iter((0..50).map(|v| (v * 37) % 101).collect());
    let mut sorted = ascending(&tree);
    let mut pre = {
        let mut it = tree.pre_order();
        collect(|| it.next())
    };
    let mut post = {
        let mut it = tree.post_order();
        collect(|| it.next())
    };
    let mut level = {
        let mut it = tree.level_order();
        collect(|| it.next())
    };
    sorted.sort();
    pre.sort();
    post.sort();
    level.sort();
    assert_eq!(pre, sorted);
    assert_eq!(post, sorted);
    assert_eq!(level, sorted);
    assert_eq!(level.len(), 50);
}

#[test]
fn an_empty_tree_has_no_first_last_or_values() {
    let tree: AVLTree<u64> = AVLTree::default();
    assert_eq!(tree.first(), None);
    assert_eq!(tree.max(), None);
    assert_eq!(tree.height(), 0);
    assert!(tree.root().is_none());
    assert!(tree.pre_order().next().is_none());
    assert!(tree.level_order().next().is_none());
    assert!(tree.iter_from(&0, 5).next().is_none());
}

#[test]
fn extend_adds_values_in_turn() {
    let mut tree = AVLTree::from_iter(vec![10, 20]);
    tree.extend(vec![15, 10, 25]);
    assert_eq!(ascending(&tree), [10, 15, 20, 25]);
    assert_eq!(tree.len(), 4);
}

#[test]
fn failed_updates_leave_the_shape_alone() {
    fn shape(tree: &AVLTree<i32>) -> Vec<i32> {
        let mut out = Vec::new();
        let mut it = tree.pre_order();
        while let Some(v) = it.next() {
            out.push(*v);
        }
        out
    }
    let mut tree = AVLTree::from_iter((0..100).collect());
    let height = tree.height();
    let before = shape(&tree);
    assert!(!tree.insert(42));
    assert!(!tree.remove(&1_000));
    assert_eq!(tree.height(), height);
    assert_eq!(tree.len(), 100);
    assert_eq!(shape(&tree), before);
}

#[test]
fn height_stays_within_the_fibonacci_bound() {
    fn fib(n: usize) -> usize {
        let (mut a, mut b) = (0usize, 1usize);
        for _ in 0..n {
            let next = a + b;
            a = b;
            b = next;
        }
        a
    }
    for n in [0usize, 1, 2, 3, 7, 12, 100, 1000] {
        let tree = AVLTree::from_iter((0..n as i32).collect());
        let h = tree.height();
        assert!(fib(h + 2) <= n + 1, "height {h} with {n} values");
    }
}

use pyo3::Py;
use pyo3::Python;
use pyo3::types::PyAnyMethods;
use pyo3::types::PyAny;
use pyo3::IntoPyObject;

use rs_avl::order::Relation;
use rs_avl::python_tree::{at_or_above, at_or_below, range_step, step, tree_repr, Entry, KeyExtractor, PythonAvlTree, RangeStep, Step};

fn py_int(py: Python<'_>, value: i64) -> Py<PyAny> {
    value.into_pyobject(py).unwrap().into_any().unbind()
}

fn text(py: Python<'_>, value: &str) -> Py<PyAny> {
    value.into_pyobject(py).unwrap().into_any().unbind()
}

fn ints(py: Python<'_>, values: &[Py<PyAny>]) -> Vec<i64> {
    values.iter().map(|v| v.bind(py).extract::<i64>().unwrap()).collect()
}

fn entry(py: Python<'_>, value: i64) -> Entry {
    Entry::new(py_int(py, value), py_int(py, value))
}

fn tree_of(py: Python<'_>, values: &[i64]) -> PythonAvlTree {
    let mut tree = PythonAvlTree::default();
    for &value in values {
        tree.insert(py, entry(py, value)).0.unwrap();
    }
    tree
}

#[test]
fn python_values_are_kept_in_key_order_without_duplicates() {
    Python::initialize();
    Python::attach(|py| {
        let mut tree = tree_of(py, &[4, 2, 6, 1, 3, 5]);
        assert_eq!(tree.insert(py, entry(py, 7)).0.unwrap(), true);
        assert_eq!(tree.insert(py, entry(py, 3)).0.unwrap(), false);
        assert_eq!(tree.len(), 7);
        assert_eq!(ints(py, &tree.in_order(py)), [1, 2, 3, 4, 5, 6, 7]);
        assert_eq!(ints(py, &tree.descending(py)), [7, 6, 5, 4, 3, 2, 1]);
        let found = tree.search(py, &py_int(py, 3)).0.unwrap().unwrap();
        assert_eq!(found.bind(py).extract::<i64>().unwrap(), 3);
        assert!(tree.search(py, &py_int(py, 10)).0.unwrap().is_none());
        assert_eq!(tree.first(py).unwrap().bind(py).extract::<i64>().unwrap(), 1);
        assert_eq!(tree.last(py).unwrap().bind(py).extract::<i64>().unwrap(), 7);
    });
}

#[test]
fn python_traversals_follow_the_tree_shape() {
    Python::initialize();
    Python::attach(|py| {
        let tree = tree_of(py, &[4, 2, 6, 1, 3, 5, 7]);
        assert_eq!(ints(py, &tree.pre_order(py)), [4, 2, 1, 3, 6, 5, 7]);
        assert_eq!(ints(py, &tree.post_order(py)), [1, 3, 2, 5, 7, 6, 4]);
        assert_eq!(ints(py, &tree.level_order(py)), [4, 2, 6, 1, 3, 5, 7]);
        assert_eq!(tree.height(), 3);
    });
}

#[test]
fn python_removal_and_failed_comparisons() {
    Python::initialize();
    Python::attach(|py| {
        let mut tree = tree_of(py, &[1, 2, 3, 4, 5]);
        assert!(tree.remove(py, &py_int(py, 3)).0.unwrap());
        assert!(!tree.remove(py, &py_int(py, 3)).0.unwrap());
        assert_eq!(ints(py, &tree.in_order(py)), [1, 2, 4, 5]);

        // A string cannot be ordered against integers: the error comes back
        // and the tree is untouched.
        assert!(tree.insert(py, Entry::new(text(py, "x"), text(py, "x"))).0.is_err());
        assert!(tree.remove(py, &text(py, "x")).0.is_err());
        assert!(tree.search(py, &text(py, "x")).0.is_err());
        assert_eq!(tree.len(), 4);
        assert_eq!(ints(py, &tree.in_order(py)), [1, 2, 4, 5]);

        tree.clear();
        assert!(tree.is_empty());
        assert!(tree.first(py).is_none());
    });
}

#[test]
fn python_ranges_and_bounded_walks() {
    Python::initialize();
    Python::attach(|py| {
        let tree = tree_of(py, &[10, 20, 30, 40, 50]);
        let two = py_int(py, 20);
        let four = py_int(py, 40);
        assert_eq!(
            ints(py, &tree.range(py, Some(&two), Some(&four), true, false).0.unwrap()),
            [20, 30]
        );
        assert_eq!(
            ints(py, &tree.range(py, Some(&two), Some(&four), false, true).0.unwrap()),
            [30, 40]
        );
        assert_eq!(ints(py, &tree.range(py, None, Some(&two), true, true).0.unwrap()), [10, 20]);
        assert_eq!(ints(py, &tree.range(py, Some(&four), None, true, false).0.unwrap()), [40, 50]);
        assert!(tree.range(py, Some(&four), Some(&two), true, false).0.is_err());

        assert_eq!(ints(py, &tree.iter_from(py, &py_int(py, 25), 2).0.unwrap()), [30, 40]);
        assert_eq!(ints(py, &tree.iter_from(py, &py_int(py, 20), 10).0.unwrap()), [20, 30, 40, 50]);
        assert!(tree.iter_from(py, &py_int(py, 60), 3).0.unwrap().is_empty());
        assert_eq!(ints(py, &tree.iter_to(py, &py_int(py, 35), 2).0.unwrap()), [30, 20]);
        assert!(tree.iter_to(py, &py_int(py, 50), 0).0.unwrap().is_empty());
    });
}

#[test]
fn python_sorted_builder_makes_a_balanced_tree() {
    Python::initialize();
    Python::attach(|py| {
        let entries: Vec<Entry> = (1..=7).map(|v| entry(py, v)).collect();
        let tree = PythonAvlTree::from_sorted(entries);
        assert_eq!(tree.len(), 7);
        assert_eq!(tree.height(), 3);
        assert_eq!(ints(py, &tree.in_order(py)), [1, 2, 3, 4, 5, 6, 7]);
        assert_eq!(ints(py, &tree.level_order(py)), [4, 2, 6, 1, 3, 5, 7]);
        let pairs = tree.in_order_entries(py);
        assert_eq!(pairs.len(), 7);
        assert_eq!(pairs[0].1.bind(py).extract::<i64>().unwrap(), 1);

        let empty = PythonAvlTree::from_sorted(Vec::new());
        assert!(empty.is_empty());
        assert_eq!(empty.height(), 0);
    });
}

#[test]
fn python_calls_that_need_no_comparison_succeed() {
    Python::initialize();
    Python::attach(|py| {
        let mut tree = PythonAvlTree::default();
        assert!(tree.search(py, &text(py, "x")).0.unwrap().is_none());
        assert!(!tree.remove(py, &text(py, "x")).0.unwrap());
        assert!(tree.iter_from(py, &text(py, "x"), 3).0.unwrap().is_empty());
        assert!(tree.iter_to(py, &text(py, "x"), 3).0.unwrap().is_empty());
        assert!(tree.range(py, Some(&text(py, "x")), None, true, false).0.unwrap().is_empty());
        assert!(tree.insert(py, Entry::new(text(py, "x"), text(py, "x"))).0.unwrap());
        assert_eq!(tree.len(), 1);

        let tree = tree_of(py, &[3, 1, 2]);
        assert_eq!(ints(py, &tree.range(py, None, None, false, false).0.unwrap()), [1, 2, 3]);
        assert!(tree.iter_from(py, &text(py, "x"), 0).0.unwrap().is_empty());
    });
}

#[test]
fn walk_steps_follow_the_comparison() {
    assert_eq!(step(Relation::Less), Step::Left);
    assert_eq!(step(Relation::Equal), Step::Here);
    assert_eq!(step(Relation::Greater), Step::Right);
    assert!(!at_or_above(Relation::Less));
    assert!(at_or_above(Relation::Equal));
    assert!(at_or_above(Relation::Greater));
    assert!(at_or_below(Relation::Less));
    assert!(at_or_below(Relation::Equal));
    assert!(!at_or_below(Relation::Greater));
    let all = RangeStep { visit_left: true, keep: true, visit_right: true };
    assert_eq!(range_step(None, None, false, false), all);
    assert_eq!(range_step(Some(Relation::Greater), Some(Relation::Less), false, false), all);
    assert_eq!(
        range_step(Some(Relation::Equal), Some(Relation::Equal), true, false),
        RangeStep { visit_left: false, keep: false, visit_right: false }
    );
    assert_eq!(
        range_step(Some(Relation::Equal), Some(Relation::Equal), false, true),
        RangeStep { visit_left: false, keep: false, visit_right: false }
    );
    assert_eq!(
        range_step(Some(Relation::Equal), Some(Relation::Equal), true, true),
        RangeStep { visit_left: false, keep: true, visit_right: false }
    );
    assert_eq!(
        range_step(Some(Relation::Equal), None, true, false),
        RangeStep { visit_left: false, keep: true, visit_right: true }
    );
    assert_eq!(
        range_step(None, Some(Relation::Equal), false, true),
        RangeStep { visit_left: true, keep: true, visit_right: false }
    );
    assert_eq!(
        range_step(Some(Relation::Less), None, true, true),
        RangeStep { visit_left: false, keep: false, visit_right: true }
    );
    assert_eq!(
        range_step(None, Some(Relation::Greater), true, true),
        RangeStep { visit_left: true, keep: false, visit_right: false }
    );
}

#[test]
fn python_readme_range_is_start_inclusive_end_exclusive() {
    Python::initialize();
    Python::attach(|py| {
        let mut tree = tree_of(py, &[4, 2, 6, 1, 3, 5]);
        assert!(tree.insert(py, entry(py, 7)).0.unwrap());
        let two = py_int(py, 2);
        let six = py_int(py, 6);
        assert_eq!(ints(py, &tree.range(py, Some(&two), Some(&six), true, false).0.unwrap()), [2, 3, 4, 5]);
        assert_eq!(ints(py, &tree.range(py, Some(&two), Some(&six), false, true).0.unwrap()), [3, 4, 5, 6]);
        assert_eq!(ints(py, &tree.range(py, Some(&two), Some(&two), true, true).0.unwrap()), [2]);
        assert!(tree.range(py, Some(&two), Some(&two), true, false).0.unwrap().is_empty());
        assert_eq!(ints(py, &tree.iter_from(py, &py_int(py, 3), 3).0.unwrap()), [3, 4, 5]);
        assert_eq!(ints(py, &tree.iter_to(py, &py_int(py, 3), 5).0.unwrap()), [3, 2, 1]);
        // A comparison that raises inside the walk comes back as the error.
        assert!(tree.iter_from(py, &text(py, "x"), 3).0.is_err());
        assert!(tree.iter_to(py, &text(py, "x"), 3).0.is_err());
        assert!(tree.range(py, Some(&text(py, "x")), None, true, true).0.is_err());
        assert!(tree.range(py, None, Some(&text(py, "x")), true, true).0.is_err());
    });
}

#[test]
fn representation_joins_the_value_reprs() {
    assert_eq!(tree_repr(&Vec::new()), "AVLTree([])");
    assert_eq!(tree_repr(&vec!["1".to_string()]), "AVLTree([1])");
    assert_eq!(
        tree_repr(&vec!["1".to_string(), "'two'".to_string(), "3".to_string()]),
        "AVLTree([1, 'two', 3])"
    );
}

#[test]
fn keys_are_taken_as_the_extractor_says() {
    Python::initialize();
    Python::attach(|py| {
        let value = py_int(py, -7);
        let same = KeyExtractor::Identity.extract(py, &value).unwrap();
        assert_eq!(same.bind(py).extract::<i64>().unwrap(), -7);
        let real = KeyExtractor::Attribute("real".to_string()).extract(py, &value).unwrap();
        assert_eq!(real.bind(py).extract::<i64>().unwrap(), -7);
        let abs = py.import("builtins").unwrap().getattr("abs").unwrap().unbind();
        let absolute = KeyExtractor::Callable(abs).extract(py, &value).unwrap();
        assert_eq!(absolute.bind(py).extract::<i64>().unwrap(), 7);
        assert!(KeyExtractor::Attribute("missing".to_string()).extract(py, &value).is_err());
    });
}

#[test]
fn building_from_values_keeps_the_first_of_equal_keys() {
    Python::initialize();
    Python::attach(|py| {
        let values: Vec<Py<PyAny>> = [3, 1, 2, 3].iter().map(|&v| py_int(py, v)).collect();
        let tree = PythonAvlTree::from_values(py, values, &KeyExtractor::Identity).0.unwrap();
        assert_eq!(tree.len(), 3);
        assert_eq!(ints(py, &tree.in_order(py)), [1, 2, 3]);

        let abs = py.import("builtins").unwrap().getattr("abs").unwrap().unbind();
        let values: Vec<Py<PyAny>> = [-2, 1, 2].iter().map(|&v| py_int(py, v)).collect();
        let tree = PythonAvlTree::from_values(py, values, &KeyExtractor::Callable(abs)).0.unwrap();
        assert_eq!(ints(py, &tree.in_order(py)), [1, -2]);

        let empty = PythonAvlTree::from_values(py, Vec::new(), &KeyExtractor::Identity).0.unwrap();
        assert!(empty.is_empty());

        let mixed = vec![py_int(py, 1), text(py, "x")];
        assert!(PythonAvlTree::from_values(py, mixed, &KeyExtractor::Identity).0.is_err());
        let values = vec![py_int(py, 1)];
        assert!(PythonAvlTree::from_values(py, values, &KeyExtractor::Attribute("missing".to_string())).0.is_err());
    });
}

#[test]
fn representation_lists_the_values_in_key_order() {
    Python::initialize();
    Python::attach(|py| {
        let tree = tree_of(py, &[3, 1, 2]);
        assert_eq!(tree.repr(py).unwrap(), "AVLTree([1, 2, 3])");
        assert_eq!(PythonAvlTree::default().repr(py).unwrap(), "AVLTree([])");
    });
}

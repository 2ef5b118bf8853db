//! An AVL ordered set of Python objects, ordered by keys that Python compares.
//!
//! Python comparisons can fail, and nothing obliges them to be consistent, so
//! each walk over the tree asks Python through a `ComparisonLog` and hands the
//! log back: the keys handed to Python and each answer, in the order asked.
//! Its contract says, for every sequence of answers, where the walk went and
//! what it did there; a raised comparison comes back as that very error and
//! leaves the tree untouched.
//! The `law_*_follows_rank` proofs add what this means where Python's answers
//! follow a total order of the keys.

use vstd::prelude::*;
use pyo3::Py;
use pyo3::PyErr;
use pyo3::Python;
use pyo3::types::PyAny;
use pyo3::types::PyAnyMethods;
use pyo3::types::PyStringMethods;
use crate::order::Relation;
use crate::comparison::Comparison;
use crate::comparison::ComparisonLog;
use crate::comparison::fails_with;
use crate::comparison::Question;
use crate::comparison::answered;
use crate::comparison::ask_attribute;
use crate::comparison::ask_call;
use crate::comparison::shown;
use crate::comparison::ask_repr;
use crate::node::AVLNode;
use crate::node::Link;
use crate::node::values;
use crate::node::real_height;
use crate::node::avl;
use crate::node::rebalance;
use crate::node::join;
use crate::node::balanced_join;
use crate::node::lemma_avl_node;
use crate::node::lemma_height_small;
use crate::node::lemma_cached_height;
use crate::tree::take_min;
use crate::tree::root_removed;
use crate::node::pre_values;
use crate::node::post_values;
use crate::iter::level_values;
use crate::iter::level_order_values;
use crate::iter::lemma_level_split;
use crate::iter::lemma_children_lower;
use crate::iter::children;
use crate::iter::kids;
use crate::iter::roots;
use crate::iter::ascending_from;
use crate::iter::descending_from;
use crate::sorted::first_n;
use crate::sorted::lemma_filter_drops_all;
use crate::sorted::lemma_filter_keeps_all;
use crate::sorted::lemma_filter_three;
use crate::node::update_height;
use std::collections::VecDeque;
use vstd::string::StringExecFns;

verus! {

/// pyo3's owned reference to a Python object, carried through opaquely.
#[verifier::external_type_specification]
#[verifier::external_body]
#[verifier::reject_recursive_types(T)]
pub struct ExPy<T>(Py<T>);

/// pyo3's type of an arbitrary Python object, carried through opaquely.
#[verifier::external_type_specification]
#[verifier::external_body]
pub struct ExPyAny(PyAny);

/// pyo3's Python exception, carried through opaquely.
#[verifier::external_type_specification]
#[verifier::external_body]
pub struct ExPyErr(PyErr);

/// pyo3's token for holding the interpreter, carried through opaquely.
#[verifier::external_type_specification]
#[verifier::external_body]
pub struct ExPython<'py>(Python<'py>);

/// The error raised for a range whose start exceeds its end, built with
/// pyo3's `PyValueError::new_err`.
#[verifier::external_body]
fn range_bounds_error() -> (r: PyErr) {
    pyo3::exceptions::PyValueError::new_err("range start must not exceed end")
}

/// pyo3's `Py::clone_ref`: a new reference to the same Python object, so the
/// same pointer value.
#[verifier::external_body]
fn clone_object(py: Python<'_>, object: &Py<PyAny>) -> (r: Py<PyAny>)
    ensures
        r == *object,
{
    object.clone_ref(py)
}

/// How the key a value is ordered by is taken from it.
pub enum KeyExtractor {
    /// The value is its own key.
    Identity,
    /// The key is the value's attribute of this name.
    Attribute(String),
    /// The key is what this callable returns for the value.
    Callable(Py<PyAny>),
}

/// `result` is what taking the key of `value` with `extractor` gives: the
/// value itself for `Identity`; for `Attribute(name)`, exactly what Python
/// gave back (or raised) when asked for that attribute of the value; for
/// `Callable(f)`, exactly what one call of `f` with the value as its only
/// argument gave back (or raised).
pub open spec fn key_of(extractor: KeyExtractor, value: Py<PyAny>, result: Result<Py<PyAny>, PyErr>) -> bool {
    match extractor {
        KeyExtractor::Identity => result == Ok::<Py<PyAny>, PyErr>(value),
        KeyExtractor::Attribute(name) => answered(value, Question::Attribute(name@), result),
        KeyExtractor::Callable(f) => answered(value, Question::Call(f), result),
    }
}

impl KeyExtractor {
    /// Takes the key of `value`. The value is its own key for `Identity`;
    /// the attribute lookup and the call run Python code, and what they
    /// return, or the error they raise, is passed back as it is.
    pub fn extract(&self, py: Python<'_>, value: &Py<PyAny>) -> (r: Result<Py<PyAny>, PyErr>)
        ensures
            self is Identity ==> r == Ok::<Py<PyAny>, PyErr>(*value),
            key_of(*self, *value, r),
    {
        match self {
            KeyExtractor::Identity => Ok(clone_object(py, value)),
            KeyExtractor::Attribute(name) => ask_attribute(py, value, name.as_str()),
            KeyExtractor::Callable(callable) => ask_call(py, callable, value),
        }
    }
}

/// Where a search for a key goes from a node.
#[derive(PartialEq, Eq, Structural, Clone, Copy, Debug)]
pub enum Step {
    /// The key is smaller than the node's: go to the left subtree.
    Left,
    /// The key is the node's.
    Here,
    /// The key is larger than the node's: go to the right subtree.
    Right,
}

/// The step a search takes from a node, given how the searched key compares
/// with the node's key.
pub open spec fn spec_step(key_vs_node: Relation) -> Step {
    match key_vs_node {
        Relation::Less => Step::Left,
        Relation::Equal => Step::Here,
        Relation::Greater => Step::Right,
    }
}

/// Decides the step a search takes from a node.
pub fn step(key_vs_node: Relation) -> (r: Step)
    ensures
        r == spec_step(key_vs_node),
{
    match key_vs_node {
        Relation::Less => Step::Left,
        Relation::Equal => Step::Here,
        Relation::Greater => Step::Right,
    }
}

/// Whether a node whose key compares with a lower bound as given lies at or
/// above the bound. An ascending walk from the bound keeps such a node and
/// looks for a smaller one on its left; it skips any other node and its left
/// subtree.
pub fn at_or_above(node_vs_bound: Relation) -> (r: bool)
    ensures
        r == (node_vs_bound != Relation::Less),
{
    match node_vs_bound {
        Relation::Less => false,
        _ => true,
    }
}

/// Whether a node whose key compares with an upper bound as given lies at or
/// below the bound. A descending walk from the bound keeps such a node and
/// looks for a larger one on its right; it skips any other node and its right
/// subtree.
pub fn at_or_below(node_vs_bound: Relation) -> (r: bool)
    ensures
        r == (node_vs_bound != Relation::Greater),
{
    match node_vs_bound {
        Relation::Greater => false,
        _ => true,
    }
}

/// What a range walk does at a node.
#[derive(PartialEq, Eq, Structural, Clone, Copy, Debug)]
pub struct RangeStep {
    /// Whether the left subtree can hold keys within the range.
    pub visit_left: bool,
    /// Whether the node's own key is within the range.
    pub keep: bool,
    /// Whether the right subtree can hold keys within the range.
    pub visit_right: bool,
}

/// The range walk's decision at a node, from how the node's key compares with
/// the start and with the end (`None` for an absent bound) and whether each
/// bound is inclusive.
pub open spec fn range_decision(
    start_order: Option<Relation>,
    end_order: Option<Relation>,
    include_start: bool,
    include_end: bool,
) -> RangeStep {
    RangeStep {
        visit_left: match start_order {
            None => true,
            Some(order) => order == Relation::Greater,
        },
        keep: (match start_order {
            None => true,
            Some(order) => order == Relation::Greater || (include_start && order == Relation::Equal),
        }) && (match end_order {
            None => true,
            Some(order) => order == Relation::Less || (include_end && order == Relation::Equal),
        }),
        visit_right: match end_order {
            None => true,
            Some(order) => order == Relation::Less,
        },
    }
}

/// Decides what the range walk does at a node.
pub fn range_step(
    start_order: Option<Relation>,
    end_order: Option<Relation>,
    include_start: bool,
    include_end: bool,
) -> (r: RangeStep)
    ensures
        r == range_decision(start_order, end_order, include_start, include_end),
{
    let visit_left = match start_order {
        None => true,
        Some(order) => order == Relation::Greater,
    };
    let within_start = match start_order {
        None => true,
        Some(order) => order == Relation::Greater || (include_start && order == Relation::Equal),
    };
    let within_end = match end_order {
        None => true,
        Some(order) => order == Relation::Less || (include_end && order == Relation::Equal),
    };
    let visit_right = match end_order {
        None => true,
        Some(order) => order == Relation::Less,
    };
    RangeStep { visit_left, keep: within_start && within_end, visit_right }
}

/// A Python value paired with the key computed when it was inserted.
///
/// Caching the key avoids repeatedly calling a user key function and lets
/// traversals return the stored object itself instead of its ordering key.
pub struct Entry {
    pub(crate) value: Py<PyAny>,
    pub(crate) key: Py<PyAny>,
}

impl Entry {
    /// The stored Python value.
    pub closed spec fn spec_value(&self) -> Py<PyAny> {
        self.value
    }

    /// The key the entry is ordered by.
    pub closed spec fn spec_key(&self) -> Py<PyAny> {
        self.key
    }

    /// Pairs `value` with its extracted `key`.
    pub fn new(value: Py<PyAny>, key: Py<PyAny>) -> (r: Self)
        ensures
            r.spec_value() == value,
            r.spec_key() == key,
    {
        Entry { value, key }
    }
}

/// An AVL ordered set specialized for owned Python references.
///
/// Equal keys are duplicates, so `len` counts unique keys rather than object
/// identities. Every comparison happens through Python and may fail.
pub struct PythonAvlTree {
    root: Link<Entry>,
    len: usize,
}

/// How a search for a key ends.
pub enum WalkEnd {
    /// A comparison raised.
    Raised,
    /// The key compared equal to the key of the entry at this index.
    Found(int),
    /// The search reached an empty subtree: this is the index at which an
    /// entry with the key goes.
    Absent(int),
}

/// `end`, with the index it holds moved up by `by`.
pub open spec fn shift_walk(end: Option<WalkEnd>, by: int) -> Option<WalkEnd> {
    match end {
        Some(WalkEnd::Found(i)) => Some(WalkEnd::Found(by + i)),
        Some(WalkEnd::Absent(i)) => Some(WalkEnd::Absent(by + i)),
        other => other,
    }
}

/// How a search for `key` below `link` ends, when its comparisons were
/// `trace`; `None` when `trace` is not the record of such a search.
///
/// At each node the search compares `key` with the node's key and takes the
/// step that the answer decides; a raised comparison ends it. Indices count
/// entries from the left of the subtree.
pub open(crate) spec fn key_walk(link: Link<Entry>, key: Py<PyAny>, trace: Seq<Comparison>) -> Option<WalkEnd>
    decreases link,
{
    match link {
        None => if trace.len() == 0 {
            Some(WalkEnd::Absent(0))
        } else {
            None
        },
        Some(node) => if trace.len() == 0 || trace[0].left() != key || trace[0].right() != node.value.key {
            None
        } else {
            let rest = trace.drop_first();
            match trace[0].outcome() {
                None => if rest.len() == 0 {
                    Some(WalkEnd::Raised)
                } else {
                    None
                },
                Some(relation) => match spec_step(relation) {
                    Step::Here => if rest.len() == 0 {
                        Some(WalkEnd::Found(values(node.left).len() as int))
                    } else {
                        None
                    },
                    Step::Left => key_walk(node.left, key, rest),
                    Step::Right => shift_walk(key_walk(node.right, key, rest), values(node.left).len() + 1int),
                },
            }
        },
    }
}

/// The index a search ends at lies within the subtree, and the search's
/// last comparison is of the searched key: with the found entry's key and an
/// equal answer where it found one, with no answer where it raised. A search
/// makes at most as many comparisons as the subtree has levels.
proof fn lemma_key_walk_end(link: Link<Entry>, key: Py<PyAny>, trace: Seq<Comparison>)
    ensures
        match key_walk(link, key, trace) {
            Some(WalkEnd::Found(i)) => {
                &&& 0 <= i < values(link).len()
                &&& trace.len() > 0
                &&& trace.last().left() == key
                &&& trace.last().right() == values(link)[i].key
                &&& trace.last().outcome() == Some(Relation::Equal)
            },
            Some(WalkEnd::Absent(k)) => 0 <= k <= values(link).len(),
            Some(WalkEnd::Raised) => trace.len() > 0 && trace.last().left() == key && trace.last().outcome() is None,
            None => true,
        },
        key_walk(link, key, trace) is Some ==> trace.len() <= real_height(link),
    decreases link,
{
    match link {
        None => {},
        Some(node) => {
            if trace.len() > 0 {
                let rest = trace.drop_first();
                lemma_key_walk_end(node.left, key, rest);
                lemma_key_walk_end(node.right, key, rest);
                assert(values(link) == values(node.left) + seq![node.value] + values(node.right));
                if rest.len() > 0 {
                    assert(trace.last() == rest.last());
                }
                match key_walk(node.right, key, rest) {
                    Some(WalkEnd::Found(i)) => {
                        assert(values(link)[values(node.left).len() + 1 + i] == values(node.right)[i]);
                    },
                    _ => {},
                }
                match key_walk(node.left, key, rest) {
                    Some(WalkEnd::Found(i)) => {
                        assert(values(link)[i] == values(node.left)[i]);
                    },
                    _ => {},
                }
            }
        },
    }
}

/// How `a` compares with `b` when keys are ranked by integers.
pub open spec fn rank_relation(a: int, b: int) -> Relation {
    if a < b {
        Relation::Less
    } else if a == b {
        Relation::Equal
    } else {
        Relation::Greater
    }
}

/// Every answer in `trace` is the one that ranking keys by `rank` gives: the
/// comparisons behaved as a total order.
pub open spec fn answers_follow(trace: Seq<Comparison>, rank: spec_fn(Py<PyAny>) -> int) -> bool {
    forall|i: int|
        0 <= i < trace.len() ==> match #[trigger] trace[i].outcome() {
            Some(relation) => relation == rank_relation(rank(trace[i].left()), rank(trace[i].right())),
            None => true,
        }
}

/// The rank of the key of the entry at `i`.
pub open spec fn key_rank(entries: Seq<Entry>, i: int, rank: spec_fn(Py<PyAny>) -> int) -> int {
    rank(entries[i].spec_key())
}

/// The entries' keys strictly ascend by `rank`.
pub open spec fn ranked(entries: Seq<Entry>, rank: spec_fn(Py<PyAny>) -> int) -> bool {
    forall|i: int, j: int| 0 <= i < j < entries.len() ==> key_rank(entries, i, rank) < key_rank(entries, j, rank)
}

/// `bound` splits `entries` at `k`: the keys before it rank below `bound`,
/// and those from it on rank above.
pub open spec fn splits_at(entries: Seq<Entry>, k: int, bound: int, rank: spec_fn(Py<PyAny>) -> int) -> bool {
    &&& 0 <= k <= entries.len()
    &&& forall|j: int| 0 <= j < k ==> key_rank(entries, j, rank) < bound
    &&& forall|j: int| k <= j < entries.len() ==> bound < key_rank(entries, j, rank)
}

/// The parts of a ranked subtree: both subtrees are ranked, and the node's
/// key ranks above every key on its left and below every key on its right.
proof fn lemma_ranked_node(node: Box<AVLNode<Entry>>, rank: spec_fn(Py<PyAny>) -> int)
    requires
        ranked(values(Some(node)), rank),
    ensures
        ranked(values(node.left), rank),
        ranked(values(node.right), rank),
        forall|j: int| 0 <= j < values(node.left).len() ==> key_rank(values(node.left), j, rank) < rank(node.value.spec_key()),
        forall|j: int| 0 <= j < values(node.right).len() ==> rank(node.value.spec_key()) < key_rank(values(node.right), j, rank),
        values(Some(node)) == values(node.left) + seq![node.value] + values(node.right),
{
    let l = values(node.left);
    let r = values(node.right);
    let all = values(Some(node));
    assert(all == l + seq![node.value] + r);
    assert(all[l.len() as int] == node.value);
    assert forall|i: int, j: int| 0 <= i < j < l.len() implies key_rank(l, i, rank) < key_rank(l, j, rank) by {
        assert(all[i] == l[i] && all[j] == l[j]);
        assert(key_rank(all, i, rank) < key_rank(all, j, rank));
    }
    assert forall|i: int, j: int| 0 <= i < j < r.len() implies key_rank(r, i, rank) < key_rank(r, j, rank) by {
        assert(all[l.len() + 1 + i] == r[i] && all[l.len() + 1 + j] == r[j]);
        assert(key_rank(all, l.len() + 1 + i, rank) < key_rank(all, l.len() + 1 + j, rank));
    }
    assert forall|j: int| 0 <= j < l.len() implies key_rank(l, j, rank) < rank(node.value.spec_key()) by {
        assert(all[j] == l[j]);
        assert(key_rank(all, j, rank) < key_rank(all, l.len() as int, rank));
    }
    assert forall|j: int| 0 <= j < r.len() implies rank(node.value.spec_key()) < key_rank(r, j, rank) by {
        assert(all[l.len() + 1 + j] == r[j]);
        assert(key_rank(all, l.len() as int, rank) < key_rank(all, l.len() + 1 + j, rank));
    }
}

/// The answers of a trace's first comparison and of the rest follow `rank`
/// where the whole trace's do.
proof fn lemma_answers_rest(trace: Seq<Comparison>, rank: spec_fn(Py<PyAny>) -> int)
    requires
        answers_follow(trace, rank),
        trace.len() > 0,
    ensures
        answers_follow(trace.drop_first(), rank),
        match trace[0].outcome() {
            Some(relation) => relation == rank_relation(rank(trace[0].left()), rank(trace[0].right())),
            None => true,
        },
{
    let rest = trace.drop_first();
    assert forall|i: int| 0 <= i < rest.len() implies match #[trigger] rest[i].outcome() {
        Some(relation) => relation == rank_relation(rank(rest[i].left()), rank(rest[i].right())),
        None => true,
    } by {
        assert(rest[i] == trace[i + 1]);
    }
    assert(match trace[0].outcome() {
        Some(relation) => relation == rank_relation(rank(trace[0].left()), rank(trace[0].right())),
        None => true,
    });
}

/// Where the keys below `link` ascend by `rank` and the comparisons of a
/// search follow `rank`, the search finds a key of the same rank, or ends
/// where the key splits the entries.
proof fn lemma_key_walk_ranked(link: Link<Entry>, key: Py<PyAny>, trace: Seq<Comparison>, rank: spec_fn(Py<PyAny>) -> int)
    requires
        ranked(values(link), rank),
        answers_follow(trace, rank),
    ensures
        match key_walk(link, key, trace) {
            Some(WalkEnd::Found(i)) => 0 <= i < values(link).len() && key_rank(values(link), i, rank) == rank(key),
            Some(WalkEnd::Absent(k)) => splits_at(values(link), k, rank(key), rank),
            _ => true,
        },
    decreases link,
{
    match link {
        None => {},
        Some(node) => {
            if trace.len() > 0 {
                let rest = trace.drop_first();
                lemma_answers_rest(trace, rank);
                lemma_ranked_node(node, rank);
                lemma_key_walk_ranked(node.left, key, rest, rank);
                lemma_key_walk_ranked(node.right, key, rest, rank);
                let l = values(node.left);
                let r = values(node.right);
                let all = values(link);
                assert(all[l.len() as int] == node.value);
                if key_walk(link, key, trace) is None {
                } else if trace[0].outcome() == Some(Relation::Less) {
                    match key_walk(node.left, key, rest) {
                        Some(WalkEnd::Found(i)) => {
                            assert(all[i] == l[i]);
                        },
                        Some(WalkEnd::Absent(k)) => {
                            assert forall|j: int| 0 <= j < k implies key_rank(all, j, rank) < rank(key) by {
                                assert(all[j] == l[j]);
                                assert(key_rank(all, j, rank) == key_rank(l, j, rank));
                            }
                            assert forall|j: int| k <= j < all.len() implies rank(key) < key_rank(all, j, rank) by {
                                if j < l.len() {
                                    assert(all[j] == l[j]);
                                    assert(key_rank(all, j, rank) == key_rank(l, j, rank));
                                } else if j > l.len() {
                                    assert(all[j] == r[j - l.len() - 1]);
                                    assert(key_rank(all, j, rank) == key_rank(r, j - l.len() - 1, rank));
                                }
                            }
                        },
                        _ => {},
                    }
                } else if trace[0].outcome() == Some(Relation::Greater) {
                    match key_walk(node.right, key, rest) {
                        Some(WalkEnd::Found(i)) => {
                            assert(all[l.len() + 1 + i] == r[i]);
                        },
                        Some(WalkEnd::Absent(k)) => {
                            assert forall|j: int| 0 <= j < l.len() + 1 + k implies key_rank(all, j, rank) < rank(key) by {
                                if j < l.len() {
                                    assert(all[j] == l[j]);
                                    assert(key_rank(all, j, rank) == key_rank(l, j, rank));
                                } else if j > l.len() {
                                    assert(all[j] == r[j - l.len() - 1]);
                                    assert(key_rank(all, j, rank) == key_rank(r, j - l.len() - 1, rank));
                                }
                            }
                            assert forall|j: int| l.len() + 1 + k <= j < all.len() implies rank(key) < key_rank(all, j, rank) by {
                                assert(all[j] == r[j - l.len() - 1]);
                                assert(key_rank(all, j, rank) == key_rank(r, j - l.len() - 1, rank));
                            }
                        },
                        _ => {},
                    }
                }
            }
        },
    }
}

/// The first `k` entries are those whose keys rank below `bound`.
pub open spec fn first_at_or_above(entries: Seq<Entry>, k: int, bound: int, rank: spec_fn(Py<PyAny>) -> int) -> bool {
    &&& 0 <= k <= entries.len()
    &&& forall|j: int| 0 <= j < k ==> key_rank(entries, j, rank) < bound
    &&& forall|j: int| k <= j < entries.len() ==> bound <= key_rank(entries, j, rank)
}

/// The first `k` entries are those whose keys rank at or below `bound`.
pub open spec fn past_at_or_below(entries: Seq<Entry>, k: int, bound: int, rank: spec_fn(Py<PyAny>) -> int) -> bool {
    &&& 0 <= k <= entries.len()
    &&& forall|j: int| 0 <= j < k ==> key_rank(entries, j, rank) <= bound
    &&& forall|j: int| k <= j < entries.len() ==> bound < key_rank(entries, j, rank)
}

/// Where the keys below `link` ascend by `rank` and the comparisons of a walk
/// towards the lower bound `start` follow `rank`, the walk ends before the
/// first key that ranks at or above `start`.
proof fn lemma_seek_from_ranked(link: Link<Entry>, start: Py<PyAny>, trace: Seq<Comparison>, rank: spec_fn(Py<PyAny>) -> int)
    requires
        ranked(values(link), rank),
        answers_follow(trace, rank),
    ensures
        seek_from(link, start, trace) matches Some(SeekEnd::At(k)) ==> first_at_or_above(values(link), k, rank(start), rank),
    decreases link,
{
    match link {
        None => {},
        Some(node) => {
            if trace.len() > 0 && seek_from(link, start, trace) matches Some(SeekEnd::At(_)) {
                let rest = trace.drop_first();
                lemma_answers_rest(trace, rank);
                lemma_ranked_node(node, rank);
                lemma_seek_from_ranked(node.left, start, rest, rank);
                lemma_seek_from_ranked(node.right, start, rest, rank);
                let l = values(node.left);
                let r = values(node.right);
                let all = values(link);
                assert(all[l.len() as int] == node.value);
                if trace[0].outcome() != Some(Relation::Less) {
                    match seek_from(node.left, start, rest) {
                        Some(SeekEnd::At(k)) => {
                            assert forall|j: int| 0 <= j < k implies key_rank(all, j, rank) < rank(start) by {
                                assert(all[j] == l[j]);
                                assert(key_rank(all, j, rank) == key_rank(l, j, rank));
                            }
                            assert forall|j: int| k <= j < all.len() implies rank(start) <= key_rank(all, j, rank) by {
                                if j < l.len() {
                                    assert(all[j] == l[j]);
                                    assert(key_rank(all, j, rank) == key_rank(l, j, rank));
                                } else if j > l.len() {
                                    assert(all[j] == r[j - l.len() - 1]);
                                    assert(key_rank(all, j, rank) == key_rank(r, j - l.len() - 1, rank));
                                }
                            }
                        },
                        _ => {},
                    }
                } else {
                    match seek_from(node.right, start, rest) {
                        Some(SeekEnd::At(k)) => {
                            assert forall|j: int| 0 <= j < l.len() + 1 + k implies key_rank(all, j, rank) < rank(start) by {
                                if j < l.len() {
                                    assert(all[j] == l[j]);
                                    assert(key_rank(all, j, rank) == key_rank(l, j, rank));
                                } else if j > l.len() {
                                    assert(all[j] == r[j - l.len() - 1]);
                                    assert(key_rank(all, j, rank) == key_rank(r, j - l.len() - 1, rank));
                                }
                            }
                            assert forall|j: int| l.len() + 1 + k <= j < all.len() implies rank(start) <= key_rank(all, j, rank) by {
                                assert(all[j] == r[j - l.len() - 1]);
                                assert(key_rank(all, j, rank) == key_rank(r, j - l.len() - 1, rank));
                            }
                        },
                        _ => {},
                    }
                }
            }
        },
    }
}

/// Where the keys below `link` ascend by `rank` and the comparisons of a walk
/// towards the upper bound `end` follow `rank`, the walk ends after the last
/// key that ranks at or below `end`.
proof fn lemma_seek_to_ranked(link: Link<Entry>, end: Py<PyAny>, trace: Seq<Comparison>, rank: spec_fn(Py<PyAny>) -> int)
    requires
        ranked(values(link), rank),
        answers_follow(trace, rank),
    ensures
        seek_to(link, end, trace) matches Some(SeekEnd::At(k)) ==> past_at_or_below(values(link), k, rank(end), rank),
    decreases link,
{
    match link {
        None => {},
        Some(node) => {
            if trace.len() > 0 && seek_to(link, end, trace) matches Some(SeekEnd::At(_)) {
                let rest = trace.drop_first();
                lemma_answers_rest(trace, rank);
                lemma_ranked_node(node, rank);
                lemma_seek_to_ranked(node.left, end, rest, rank);
                lemma_seek_to_ranked(node.right, end, rest, rank);
                let l = values(node.left);
                let r = values(node.right);
                let all = values(link);
                assert(all[l.len() as int] == node.value);
                if trace[0].outcome() == Some(Relation::Greater) {
                    match seek_to(node.left, end, rest) {
                        Some(SeekEnd::At(k)) => {
                            assert forall|j: int| 0 <= j < k implies key_rank(all, j, rank) <= rank(end) by {
                                assert(all[j] == l[j]);
                                assert(key_rank(all, j, rank) == key_rank(l, j, rank));
                            }
                            assert forall|j: int| k <= j < all.len() implies rank(end) < key_rank(all, j, rank) by {
                                if j < l.len() {
                                    assert(all[j] == l[j]);
                                    assert(key_rank(all, j, rank) == key_rank(l, j, rank));
                                } else if j > l.len() {
                                    assert(all[j] == r[j - l.len() - 1]);
                                    assert(key_rank(all, j, rank) == key_rank(r, j - l.len() - 1, rank));
                                }
                            }
                        },
                        _ => {},
                    }
                } else {
                    match seek_to(node.right, end, rest) {
                        Some(SeekEnd::At(k)) => {
                            assert forall|j: int| 0 <= j < l.len() + 1 + k implies key_rank(all, j, rank) <= rank(end) by {
                                if j < l.len() {
                                    assert(all[j] == l[j]);
                                    assert(key_rank(all, j, rank) == key_rank(l, j, rank));
                                } else if j > l.len() {
                                    assert(all[j] == r[j - l.len() - 1]);
                                    assert(key_rank(all, j, rank) == key_rank(r, j - l.len() - 1, rank));
                                }
                            }
                            assert forall|j: int| l.len() + 1 + k <= j < all.len() implies rank(end) < key_rank(all, j, rank) by {
                                assert(all[j] == r[j - l.len() - 1]);
                                assert(key_rank(all, j, rank) == key_rank(r, j - l.len() - 1, rank));
                            }
                        },
                        _ => {},
                    }
                }
            }
        },
    }
}

/// Whether an entry's key ranks at or above `bound`.
pub open spec fn ranks_at_or_above(bound: int, rank: spec_fn(Py<PyAny>) -> int) -> spec_fn(Entry) -> bool {
    |e: Entry| bound <= rank(e.spec_key())
}

/// Whether an entry's key ranks at or below `bound`.
pub open spec fn ranks_at_or_below(bound: int, rank: spec_fn(Py<PyAny>) -> int) -> spec_fn(Entry) -> bool {
    |e: Entry| rank(e.spec_key()) <= bound
}

/// A filter that fails before `k` and passes from `k` on keeps the entries
/// from `k` on; one that passes before `k` and fails from `k` on keeps those
/// before `k`.
proof fn lemma_filter_split(s: Seq<Entry>, k: int, p: spec_fn(Entry) -> bool)
    requires
        0 <= k <= s.len(),
    ensures
        (forall|j: int| 0 <= j < k ==> !p(#[trigger] s[j])) && (forall|j: int| k <= j < s.len() ==> p(#[trigger] s[j]))
            ==> s.filter(p) == s.skip(k),
        (forall|j: int| 0 <= j < k ==> p(#[trigger] s[j])) && (forall|j: int| k <= j < s.len() ==> !p(#[trigger] s[j]))
            ==> s.filter(p) == s.take(k),
{
    broadcast use Seq::filter_distributes_over_add;
    let front = s.take(k);
    let back = s.skip(k);
    assert(s =~= front + back);
    if (forall|j: int| 0 <= j < k ==> !p(#[trigger] s[j])) && (forall|j: int| k <= j < s.len() ==> p(#[trigger] s[j])) {
        assert forall|i: int| 0 <= i < front.len() implies !p(#[trigger] front[i]) by {
            assert(front[i] == s[i]);
        }
        assert forall|i: int| 0 <= i < back.len() implies p(#[trigger] back[i]) by {
            assert(back[i] == s[k + i]);
        }
        lemma_filter_drops_all(front, p);
        lemma_filter_keeps_all(back, p);
        assert(s.filter(p) =~= back);
    }
    if (forall|j: int| 0 <= j < k ==> p(#[trigger] s[j])) && (forall|j: int| k <= j < s.len() ==> !p(#[trigger] s[j])) {
        assert forall|i: int| 0 <= i < front.len() implies p(#[trigger] front[i]) by {
            assert(front[i] == s[i]);
        }
        assert forall|i: int| 0 <= i < back.len() implies !p(#[trigger] back[i]) by {
            assert(back[i] == s[k + i]);
        }
        lemma_filter_keeps_all(front, p);
        lemma_filter_drops_all(back, p);
        assert(s.filter(p) =~= front);
    }
}

/// Where the entries' keys ascend by `rank` and a walk towards the lower
/// bound `start` ended at `k` with answers following `rank`, the entries from
/// `k` on are those whose keys rank at or above `start`.
proof fn lemma_lower_walk_filter(link: Link<Entry>, start: Py<PyAny>, trace: Seq<Comparison>, rank: spec_fn(Py<PyAny>) -> int)
    requires
        ranked(values(link), rank),
        answers_follow(trace, rank),
    ensures
        seek_from(link, start, trace) matches Some(SeekEnd::At(k)) ==> values(link).filter(ranks_at_or_above(rank(start), rank))
            == values(link).skip(k),
{
    lemma_seek_from_ranked(link, start, trace, rank);
    match seek_from(link, start, trace) {
        Some(SeekEnd::At(k)) => {
            let s = values(link);
            let p = ranks_at_or_above(rank(start), rank);
            lemma_filter_split(s, k, p);
            assert forall|j: int| 0 <= j < k implies !p(#[trigger] s[j]) by {
                assert(key_rank(s, j, rank) < rank(start));
            }
            assert forall|j: int| k <= j < s.len() implies p(#[trigger] s[j]) by {
                assert(rank(start) <= key_rank(s, j, rank));
            }
        },
        _ => {},
    }
}

/// Where the entries' keys ascend by `rank` and a walk towards the upper
/// bound `end` ended at `k` with answers following `rank`, the entries before
/// `k` are those whose keys rank at or below `end`.
proof fn lemma_upper_walk_filter(link: Link<Entry>, end: Py<PyAny>, trace: Seq<Comparison>, rank: spec_fn(Py<PyAny>) -> int)
    requires
        ranked(values(link), rank),
        answers_follow(trace, rank),
    ensures
        seek_to(link, end, trace) matches Some(SeekEnd::At(k)) ==> values(link).filter(ranks_at_or_below(rank(end), rank))
            == values(link).take(k),
{
    lemma_seek_to_ranked(link, end, trace, rank);
    match seek_to(link, end, trace) {
        Some(SeekEnd::At(k)) => {
            let s = values(link);
            let p = ranks_at_or_below(rank(end), rank);
            lemma_filter_split(s, k, p);
            assert forall|j: int| 0 <= j < k implies p(#[trigger] s[j]) by {
                assert(key_rank(s, j, rank) <= rank(end));
            }
            assert forall|j: int| k <= j < s.len() implies !p(#[trigger] s[j]) by {
                assert(rank(end) < key_rank(s, j, rank));
            }
        },
        _ => {},
    }
}

/// The subtree that inserting `entry` below `link` makes when the search for
/// its key, recorded in `trace`, reached an empty subtree: a leaf there, and
/// each node on the way rebalanced on the way back up.
pub open(crate) spec fn placed(link: Link<Entry>, entry: Entry, trace: Seq<Comparison>) -> Link<Entry>
    decreases link,
{
    match link {
        None => join(entry, None, None),
        Some(node) => if trace.len() == 0 {
            link
        } else {
            match trace[0].outcome() {
                Some(Relation::Less) => balanced_join(node.value, placed(node.left, entry, trace.drop_first()), node.right),
                Some(Relation::Greater) => balanced_join(node.value, node.left, placed(node.right, entry, trace.drop_first())),
                _ => link,
            }
        },
    }
}

/// How a walk's record of comparisons grows: the comparison made at a node,
/// then those made below it.
proof fn lemma_log_extends(before: Seq<Comparison>, here: Comparison, below: Seq<Comparison>)
    ensures
        before.push(here) + below == before + (seq![here] + below),
        before.push(here) == before + seq![here],
        (seq![here] + below).drop_first() == below,
        (seq![here] + below)[0] == here,
        below.len() > 0 ==> (seq![here] + below).last() == below.last(),
        seq![here].drop_first() == Seq::<Comparison>::empty(),
        seq![here].last() == here,
{
    assert(before.push(here) + below =~= before + (seq![here] + below));
    assert(before.push(here) =~= before + seq![here]);
    assert((seq![here] + below).drop_first() =~= below);
    assert(seq![here].drop_first() =~= Seq::<Comparison>::empty());
}

/// Inserts `entry` below `link`; see `PythonAvlTree::insert`.
#[verifier::spinoff_prover]
#[verifier::rlimit(40)]
fn insert_at(py: Python<'_>, link: &mut Link<Entry>, entry: Entry, log: &mut ComparisonLog) -> (r: (Result<bool, PyErr>, Ghost<Seq<Comparison>>))
    requires
        avl(*old(link)),
        values(*old(link)).len() < usize::MAX,
    ensures
        final(log).made() == old(log).made() + r.1@,
        match key_walk(*old(link), entry.spec_key(), r.1@) {
            Some(WalkEnd::Absent(k)) => {
                &&& r.0 == Ok::<bool, PyErr>(true)
                &&& avl(*final(link))
                &&& values(*final(link)) == values(*old(link)).insert(k, entry)
                &&& *final(link) == placed(*old(link), entry, r.1@)
                &&& real_height(*old(link)) <= real_height(*final(link)) <= real_height(*old(link)) + 1
            },
            Some(WalkEnd::Found(_)) => r.0 == Ok::<bool, PyErr>(false) && *final(link) == *old(link),
            Some(WalkEnd::Raised) => fails_with(r.0, r.1@.last()) && *final(link) == *old(link),
            None => false,
        },
    decreases *old(link),
{
    let ghost old_link = *link;
    let mut node = match link.take() {
        None => {
            *link = Some(Box::new(AVLNode::new(entry)));
            proof {
                assert(values(*link) =~= values(old_link).insert(0, entry));
            }
            proof {
                assert(log.made() =~= old(log).made() + Seq::<Comparison>::empty());
            }
            return (Ok(true), Ghost(Seq::empty()));
        },
        Some(node) => node,
    };
    let ghost n0 = *node;
    let ghost l0 = values(n0.left);
    let ghost r0 = values(n0.right);
    proof {
        lemma_avl_node(old_link);
        lemma_height_small(old_link);
    }
    // Compare before changing any links. If Python raises, the error is
    // returned while this node and every ancestor keep their structure.
    let answer = log.compare(py, &entry.key, &node.value.key);
    let ghost here = log.made().last();
    proof {
        lemma_log_extends(old(log).made(), here, Seq::empty());
    }
    let relation = match answer {
        Ok(relation) => relation,
        Err(e) => {
            *link = Some(node);
            let ghost trace = seq![here];
            return (Err(e), Ghost(trace));
        },
    };
    let ghost key = entry.spec_key();
    let (inserted, Ghost(below)) = match step(relation) {
        Step::Left => {
            let (result, below) = insert_at(py, &mut node.left, entry, log);
            proof {
                lemma_log_extends(old(log).made(), here, below@);
                lemma_key_walk_end(n0.left, key, below@);
            }
            match result {
                Ok(inserted) => (inserted, below),
                Err(e) => {
                    *link = Some(node);
                    let ghost trace = seq![here] + below@;
                    return (Err(e), Ghost(trace));
                },
            }
        },
        Step::Right => {
            let (result, below) = insert_at(py, &mut node.right, entry, log);
            proof {
                lemma_log_extends(old(log).made(), here, below@);
                lemma_key_walk_end(n0.right, key, below@);
            }
            match result {
                Ok(inserted) => (inserted, below),
                Err(e) => {
                    *link = Some(node);
                    let ghost trace = seq![here] + below@;
                    return (Err(e), Ghost(trace));
                },
            }
        },
        Step::Here => (false, Ghost(Seq::empty())),
    };
    let ghost trace = seq![here] + below;
    proof {
        lemma_log_extends(old(log).made(), here, below);
    }
    if inserted {
        proof {
            lemma_key_walk_end(n0.left, key, below);
            lemma_key_walk_end(n0.right, key, below);
            if relation == Relation::Less {
                match key_walk(n0.left, key, below) {
                    Some(WalkEnd::Absent(k)) => {
                        assert(values(node.left) + seq![n0.value] + r0 =~= (l0 + seq![n0.value] + r0).insert(k, entry));
                    },
                    _ => {},
                }
            } else {
                match key_walk(n0.right, key, below) {
                    Some(WalkEnd::Absent(k)) => {
                        assert(l0 + seq![n0.value] + values(node.right) =~= (l0 + seq![n0.value] + r0).insert(l0.len() + 1 + k, entry));
                    },
                    _ => {},
                }
            }
        }
        // The recursive insertion succeeded, so it is safe to restore this
        // subtree's AVL balance.
        *link = Some(rebalance(node));
    } else {
        *link = Some(node);
    }
    (Ok(inserted), Ghost(trace))
}

/// The subtree that removing the entry where the search recorded in `trace`
/// found its key makes: that node gives way to its only child, or takes the
/// smallest entry of its right subtree in its place when it has two; each
/// node on the way is rebalanced on the way back up.
pub open(crate) spec fn unplaced(link: Link<Entry>, trace: Seq<Comparison>) -> Link<Entry>
    decreases link,
{
    match link {
        None => None,
        Some(node) => if trace.len() == 0 {
            link
        } else {
            match trace[0].outcome() {
                Some(Relation::Less) => balanced_join(node.value, unplaced(node.left, trace.drop_first()), node.right),
                Some(Relation::Greater) => balanced_join(node.value, node.left, unplaced(node.right, trace.drop_first())),
                Some(Relation::Equal) => root_removed(node),
                None => link,
            }
        },
    }
}

/// Removes the entry at the root of `node`'s subtree; see `root_removed`.
#[verifier::spinoff_prover]
#[verifier::rlimit(40)]
fn remove_root(mut node: Box<AVLNode<Entry>>) -> (r: Link<Entry>)
    requires
        avl(Some(node)),
        values(Some(node)).len() <= usize::MAX,
    ensures
        avl(r),
        values(r) == values(node.left) + values(node.right),
        real_height(r) <= real_height(Some(node)) <= real_height(r) + 1,
        r == root_removed(node),
{
    let ghost n0 = node;
    let ghost l0 = values(node.left);
    let ghost r0 = values(node.right);
    proof {
        lemma_avl_node(Some(node));
        lemma_height_small(Some(node));
    }
    let left = node.left.take();
    let right = node.right.take();
    match right {
        None => {
            proof {
                assert(l0 + r0 =~= l0);
            }
            left
        },
        Some(right) => match left {
            None => {
                proof {
                    assert(l0 + r0 =~= r0);
                }
                Some(right)
            },
            Some(left) => {
                // With two children, move the smallest node of the right
                // subtree here; the whole entry moves, so value and key stay
                // together.
                let (new_right, mut successor) = take_min(right);
                proof {
                    assert(l0 + r0 =~= l0 + seq![successor.value] + values(new_right));
                }
                successor.left = Some(left);
                successor.right = new_right;
                Some(rebalance(successor))
            },
        },
    }
}

/// Removes the entry whose key compares equal to `key` from below `link`; see
/// `PythonAvlTree::remove`.
#[verifier::spinoff_prover]
#[verifier::rlimit(80)]
fn remove_at(py: Python<'_>, link: &mut Link<Entry>, key: &Py<PyAny>, log: &mut ComparisonLog) -> (r: (Result<bool, PyErr>, Ghost<Seq<Comparison>>))
    requires
        avl(*old(link)),
        values(*old(link)).len() <= usize::MAX,
    ensures
        final(log).made() == old(log).made() + r.1@,
        match key_walk(*old(link), *key, r.1@) {
            Some(WalkEnd::Found(i)) => {
                &&& r.0 == Ok::<bool, PyErr>(true)
                &&& avl(*final(link))
                &&& values(*final(link)) == values(*old(link)).remove(i)
                &&& *final(link) == unplaced(*old(link), r.1@)
                &&& real_height(*final(link)) <= real_height(*old(link)) <= real_height(*final(link)) + 1
            },
            Some(WalkEnd::Absent(_)) => r.0 == Ok::<bool, PyErr>(false) && *final(link) == *old(link),
            Some(WalkEnd::Raised) => fails_with(r.0, r.1@.last()) && *final(link) == *old(link),
            None => false,
        },
    decreases *old(link),
{
    let ghost old_link = *link;
    let mut node = match link.take() {
        None => {
            proof {
                assert(log.made() =~= old(log).made() + Seq::<Comparison>::empty());
            }
            return (Ok(false), Ghost(Seq::empty()));
        },
        Some(node) => node,
    };
    let ghost n0 = *node;
    let ghost l0 = values(n0.left);
    let ghost r0 = values(n0.right);
    proof {
        lemma_avl_node(old_link);
        lemma_height_small(old_link);
    }
    // No link is changed until every fallible comparison on the search path
    // has succeeded, so an exception leaves the tree untouched.
    let answer = log.compare(py, key, &node.value.key);
    let ghost here = log.made().last();
    proof {
        lemma_log_extends(old(log).made(), here, Seq::empty());
    }
    let relation = match answer {
        Ok(relation) => relation,
        Err(e) => {
            *link = Some(node);
            let ghost trace = seq![here];
            return (Err(e), Ghost(trace));
        },
    };
    match step(relation) {
        Step::Left => {
            let (result, Ghost(below)) = remove_at(py, &mut node.left, key, log);
            let ghost trace = seq![here] + below;
            proof {
                lemma_log_extends(old(log).made(), here, below);
                lemma_key_walk_end(n0.left, *key, below);
            }
            let removed = match result {
                Ok(removed) => removed,
                Err(e) => {
                    *link = Some(node);
                    return (Err(e), Ghost(trace));
                },
            };
            if removed {
                proof {
                    match key_walk(n0.left, *key, below) {
                        Some(WalkEnd::Found(k)) => {
                            assert(values(node.left) + seq![n0.value] + r0 =~= (l0 + seq![n0.value] + r0).remove(k));
                        },
                        _ => {},
                    }
                }
                *link = Some(rebalance(node));
            } else {
                *link = Some(node);
            }
            (Ok(removed), Ghost(trace))
        },
        Step::Right => {
            let (result, Ghost(below)) = remove_at(py, &mut node.right, key, log);
            let ghost trace = seq![here] + below;
            proof {
                lemma_log_extends(old(log).made(), here, below);
                lemma_key_walk_end(n0.right, *key, below);
            }
            let removed = match result {
                Ok(removed) => removed,
                Err(e) => {
                    *link = Some(node);
                    return (Err(e), Ghost(trace));
                },
            };
            if removed {
                proof {
                    match key_walk(n0.right, *key, below) {
                        Some(WalkEnd::Found(k)) => {
                            assert(l0 + seq![n0.value] + values(node.right) =~= (l0 + seq![n0.value] + r0).remove(l0.len() + 1 + k));
                        },
                        _ => {},
                    }
                }
                *link = Some(rebalance(node));
            } else {
                *link = Some(node);
            }
            (Ok(removed), Ghost(trace))
        },
        Step::Here => {
            let ghost trace = seq![here];
            *link = remove_root(node);
            (Ok(true), Ghost(trace))
        },
    }
}

/// Finds the value whose key compares equal to `key` below `link`; see
/// `PythonAvlTree::search`.
fn search_at(link: &Link<Entry>, py: Python<'_>, key: &Py<PyAny>, log: &mut ComparisonLog) -> (r: (Result<Option<Py<PyAny>>, PyErr>, Ghost<Seq<Comparison>>))
    ensures
        final(log).made() == old(log).made() + r.1@,
        match key_walk(*link, *key, r.1@) {
            Some(WalkEnd::Found(i)) => 0 <= i < values(*link).len() && r.0 == Ok::<Option<Py<PyAny>>, PyErr>(
                Some(values(*link)[i].spec_value()),
            ),
            Some(WalkEnd::Absent(_)) => r.0 == Ok::<Option<Py<PyAny>>, PyErr>(None),
            Some(WalkEnd::Raised) => fails_with(r.0, r.1@.last()),
            None => false,
        },
    decreases *link,
{
    let node = match link {
        None => {
            proof {
                assert(log.made() =~= old(log).made() + Seq::<Comparison>::empty());
            }
            return (Ok(None), Ghost(Seq::empty()));
        },
        Some(node) => node,
    };
    proof {
        assert(values(*link) == values(node.left) + seq![node.value] + values(node.right));
    }
    let answer = log.compare(py, key, &node.value.key);
    let ghost here = log.made().last();
    proof {
        lemma_log_extends(old(log).made(), here, Seq::empty());
    }
    let relation = match answer {
        Ok(relation) => relation,
        Err(e) => {
            let ghost trace = seq![here];
            return (Err(e), Ghost(trace));
        },
    };
    match step(relation) {
        Step::Here => {
            let ghost trace = seq![here];
            proof {
                assert(values(*link)[values(node.left).len() as int] == node.value);
            }
            (Ok(Some(clone_object(py, &node.value.value))), Ghost(trace))
        },
        Step::Left => {
            let (found, Ghost(below)) = search_at(&node.left, py, key, log);
            let ghost trace = seq![here] + below;
            proof {
                lemma_log_extends(old(log).made(), here, below);
                lemma_key_walk_end(node.left, *key, below);
                match key_walk(node.left, *key, below) {
                    Some(WalkEnd::Found(i)) => {
                        assert(values(*link)[i] == values(node.left)[i]);
                    },
                    _ => {},
                }
            }
            (found, Ghost(trace))
        },
        Step::Right => {
            let (found, Ghost(below)) = search_at(&node.right, py, key, log);
            let ghost trace = seq![here] + below;
            proof {
                lemma_log_extends(old(log).made(), here, below);
                lemma_key_walk_end(node.right, *key, below);
                match key_walk(node.right, *key, below) {
                    Some(WalkEnd::Found(i)) => {
                        assert(values(*link)[values(node.left).len() + 1 + i] == values(node.right)[i]);
                    },
                    _ => {},
                }
            }
            (found, Ghost(trace))
        },
    }
}

/// Where a walk towards a bound ends.
pub enum SeekEnd {
    /// A comparison raised.
    Raised,
    /// The walk split the subtree's entries before this index.
    At(int),
}

/// `end`, with the index it holds moved up by `by`.
pub open spec fn shift_seek(end: Option<SeekEnd>, by: int) -> Option<SeekEnd> {
    match end {
        Some(SeekEnd::At(i)) => Some(SeekEnd::At(by + i)),
        other => other,
    }
}

/// Where the walk towards the lower bound `start` below `link` ends, when
/// its comparisons were `trace`; `None` when `trace` is not the record of
/// such a walk.
///
/// At each node the walk compares the node's key with `start`: a node at or
/// above the bound is kept and the walk goes on to its left; any other node
/// is skipped, with its left subtree, and the walk goes on to its right. The
/// entries from the index it ends at onwards are those it kept, with what
/// lies to their right.
pub open(crate) spec fn seek_from(link: Link<Entry>, start: Py<PyAny>, trace: Seq<Comparison>) -> Option<SeekEnd>
    decreases link,
{
    match link {
        None => if trace.len() == 0 {
            Some(SeekEnd::At(0))
        } else {
            None
        },
        Some(node) => if trace.len() == 0 || trace[0].left() != node.value.key || trace[0].right() != start {
            None
        } else {
            let rest = trace.drop_first();
            match trace[0].outcome() {
                None => if rest.len() == 0 {
                    Some(SeekEnd::Raised)
                } else {
                    None
                },
                Some(relation) => if relation != Relation::Less {
                    seek_from(node.left, start, rest)
                } else {
                    shift_seek(seek_from(node.right, start, rest), values(node.left).len() + 1int)
                },
            }
        },
    }
}

/// Where the walk towards the upper bound `end` below `link` ends, when its
/// comparisons were `trace`; `None` when `trace` is not the record of such a
/// walk.
///
/// At each node the walk compares the node's key with `end`: a node at or
/// below the bound is kept and the walk goes on to its right; any other node
/// is skipped, with its right subtree, and the walk goes on to its left. The
/// entries before the index it ends at are those it kept, with what lies to
/// their left.
pub open(crate) spec fn seek_to(link: Link<Entry>, end: Py<PyAny>, trace: Seq<Comparison>) -> Option<SeekEnd>
    decreases link,
{
    match link {
        None => if trace.len() == 0 {
            Some(SeekEnd::At(0))
        } else {
            None
        },
        Some(node) => if trace.len() == 0 || trace[0].left() != node.value.key || trace[0].right() != end {
            None
        } else {
            let rest = trace.drop_first();
            match trace[0].outcome() {
                None => if rest.len() == 0 {
                    Some(SeekEnd::Raised)
                } else {
                    None
                },
                Some(relation) => if relation != Relation::Greater {
                    shift_seek(seek_to(node.right, end, rest), values(node.left).len() + 1int)
                } else {
                    seek_to(node.left, end, rest)
                },
            }
        },
    }
}

/// A walk towards a bound that raised made a comparison, and no walk makes
/// more comparisons than the subtree has levels.
proof fn lemma_seek_end(link: Link<Entry>, bound: Py<PyAny>, trace: Seq<Comparison>)
    ensures
        seek_from(link, bound, trace) matches Some(SeekEnd::Raised) ==> trace.len() > 0 && trace.last().outcome() is None,
        seek_to(link, bound, trace) matches Some(SeekEnd::Raised) ==> trace.len() > 0 && trace.last().outcome() is None,
        seek_from(link, bound, trace) is Some ==> trace.len() <= real_height(link),
        seek_to(link, bound, trace) is Some ==> trace.len() <= real_height(link),
    decreases link,
{
    match link {
        None => {},
        Some(node) => {
            if trace.len() > 0 {
                lemma_seek_end(node.left, bound, trace.drop_first());
                lemma_seek_end(node.right, bound, trace.drop_first());
                if trace.drop_first().len() > 0 {
                    assert(trace.last() == trace.drop_first().last());
                }
            }
        },
    }
}

/// Walks from `link` towards the lower bound `start`, pushing the nodes it
/// keeps onto `stack`; see `seek_from`.
fn descend_from<'a>(
    link: &'a Link<Entry>,
    py: Python<'_>,
    start: &Py<PyAny>,
    stack: &mut Vec<&'a AVLNode<Entry>>,
    log: &mut ComparisonLog,
) -> (r: (Result<(), PyErr>, Ghost<Seq<Comparison>>))
    ensures
        final(log).made() == old(log).made() + r.1@,
        match seek_from(*link, *start, r.1@) {
            Some(SeekEnd::At(i)) => {
                &&& r.0 is Ok
                &&& 0 <= i <= values(*link).len()
                &&& ascending_from(final(stack)@) == values(*link).skip(i) + ascending_from(old(stack)@)
            },
            Some(SeekEnd::Raised) => fails_with(r.0, r.1@.last()),
            None => false,
        },
    decreases *link,
{
    let node = match link {
        None => {
            proof {
                assert(values(*link).skip(0) + ascending_from(stack@) =~= ascending_from(stack@));
            }
            proof {
                assert(log.made() =~= old(log).made() + Seq::<Comparison>::empty());
            }
            return (Ok(()), Ghost(Seq::empty()));
        },
        Some(node) => node,
    };
    let ghost l = values(node.left);
    let ghost rr = values(node.right);
    proof {
        assert(values(*link) == l + seq![node.value] + rr);
    }
    let answer = log.compare(py, &node.value.key, start);
    let ghost here = log.made().last();
    proof {
        lemma_log_extends(old(log).made(), here, Seq::empty());
    }
    let relation = match answer {
        Ok(relation) => relation,
        Err(e) => {
            let ghost trace = seq![here];
            return (Err(e), Ghost(trace));
        },
    };
    if at_or_above(relation) {
        let ghost before = stack@;
        stack.push(node);
        proof {
            assert(stack@.drop_last() == before);
        }
        let (result, Ghost(below)) = descend_from(&node.left, py, start, stack, log);
        let ghost trace = seq![here] + below;
        proof {
            lemma_log_extends(old(log).made(), here, below);
            lemma_seek_end(node.left, *start, below);
            match seek_from(node.left, *start, below) {
                Some(SeekEnd::At(i)) => {
                    assert(values(*link).skip(i) =~= l.skip(i) + seq![node.value] + rr);
                },
                _ => {},
            }
        }
        (result, Ghost(trace))
    } else {
        let (result, Ghost(below)) = descend_from(&node.right, py, start, stack, log);
        let ghost trace = seq![here] + below;
        proof {
            lemma_log_extends(old(log).made(), here, below);
            lemma_seek_end(node.right, *start, below);
            match seek_from(node.right, *start, below) {
                Some(SeekEnd::At(i)) => {
                    assert(values(*link).skip(l.len() + 1 + i) =~= rr.skip(i));
                },
                _ => {},
            }
        }
        (result, Ghost(trace))
    }
}

/// Walks from `link` towards the upper bound `end`, pushing the nodes it
/// keeps onto `stack`; see `seek_to`.
fn descend_to<'a>(
    link: &'a Link<Entry>,
    py: Python<'_>,
    end: &Py<PyAny>,
    stack: &mut Vec<&'a AVLNode<Entry>>,
    log: &mut ComparisonLog,
) -> (r: (Result<(), PyErr>, Ghost<Seq<Comparison>>))
    ensures
        final(log).made() == old(log).made() + r.1@,
        match seek_to(*link, *end, r.1@) {
            Some(SeekEnd::At(i)) => {
                &&& r.0 is Ok
                &&& 0 <= i <= values(*link).len()
                &&& descending_from(final(stack)@) == values(*link).take(i).reverse() + descending_from(old(stack)@)
            },
            Some(SeekEnd::Raised) => fails_with(r.0, r.1@.last()),
            None => false,
        },
    decreases *link,
{
    let node = match link {
        None => {
            proof {
                assert(values(*link).take(0).reverse() + descending_from(stack@) =~= descending_from(stack@));
            }
            proof {
                assert(log.made() =~= old(log).made() + Seq::<Comparison>::empty());
            }
            return (Ok(()), Ghost(Seq::empty()));
        },
        Some(node) => node,
    };
    let ghost l = values(node.left);
    let ghost rr = values(node.right);
    proof {
        assert(values(*link) == l + seq![node.value] + rr);
    }
    let answer = log.compare(py, &node.value.key, end);
    let ghost here = log.made().last();
    proof {
        lemma_log_extends(old(log).made(), here, Seq::empty());
    }
    let relation = match answer {
        Ok(relation) => relation,
        Err(e) => {
            let ghost trace = seq![here];
            return (Err(e), Ghost(trace));
        },
    };
    if at_or_below(relation) {
        let ghost before = stack@;
        stack.push(node);
        proof {
            assert(stack@.drop_last() == before);
        }
        let (result, Ghost(below)) = descend_to(&node.right, py, end, stack, log);
        let ghost trace = seq![here] + below;
        proof {
            lemma_log_extends(old(log).made(), here, below);
            lemma_seek_end(node.right, *end, below);
            match seek_to(node.right, *end, below) {
                Some(SeekEnd::At(i)) => {
                    assert(values(*link).take(l.len() + 1 + i) =~= l + seq![node.value] + rr.take(i));
                    assert((l + seq![node.value] + rr.take(i)).reverse() =~= rr.take(i).reverse() + (seq![node.value] + l.reverse()));
                },
                _ => {},
            }
        }
        (result, Ghost(trace))
    } else {
        let (result, Ghost(below)) = descend_to(&node.left, py, end, stack, log);
        let ghost trace = seq![here] + below;
        proof {
            lemma_log_extends(old(log).made(), here, below);
            lemma_seek_end(node.left, *end, below);
            match seek_to(node.left, *end, below) {
                Some(SeekEnd::At(i)) => {
                    assert(values(*link).take(i) =~= l.take(i));
                },
                _ => {},
            }
        }
        (result, Ghost(trace))
    }
}

/// The Python values of a sequence of entries.
pub open spec fn entry_values(s: Seq<Entry>) -> Seq<Py<PyAny>> {
    s.map_values(|e: Entry| e.spec_value())
}

/// The (value, key) pairs of a sequence of entries.
pub open spec fn entry_pairs(s: Seq<Entry>) -> Seq<(Py<PyAny>, Py<PyAny>)> {
    s.map_values(|e: Entry| (e.spec_value(), e.spec_key()))
}

proof fn lemma_entry_values_join(l: Seq<Entry>, x: Entry, r: Seq<Entry>)
    ensures
        entry_values(l + seq![x] + r) == entry_values(l) + seq![x.spec_value()] + entry_values(r),
        entry_values(seq![x] + l + r) == seq![x.spec_value()] + entry_values(l) + entry_values(r),
        entry_values(l + r + seq![x]) == entry_values(l) + entry_values(r) + seq![x.spec_value()],
        entry_pairs(l + seq![x] + r) == entry_pairs(l) + seq![(x.spec_value(), x.spec_key())] + entry_pairs(r),
{
    assert(entry_values(l + seq![x] + r) =~= entry_values(l) + seq![x.spec_value()] + entry_values(r));
    assert(entry_values(seq![x] + l + r) =~= seq![x.spec_value()] + entry_values(l) + entry_values(r));
    assert(entry_values(l + r + seq![x]) =~= entry_values(l) + entry_values(r) + seq![x.spec_value()]);
    assert(entry_pairs(l + seq![x] + r) =~= entry_pairs(l) + seq![(x.spec_value(), x.spec_key())] + entry_pairs(r));
}

/// Appends the values below `link` in left-to-right order.
fn collect_in_order(link: &Link<Entry>, py: Python<'_>, out: &mut Vec<Py<PyAny>>)
    ensures
        final(out)@ == old(out)@ + entry_values(values(*link)),
    decreases *link,
{
    match link {
        Some(node) => {
            collect_in_order(&node.left, py, out);
            out.push(clone_object(py, &node.value.value));
            collect_in_order(&node.right, py, out);
            proof {
                lemma_entry_values_join(values(node.left), node.value, values(node.right));
            }
        },
        None => {
            proof {
                assert(old(out)@ + entry_values(values(*link)) =~= old(out)@);
            }
        },
    }
}

/// Appends the values below `link` in right-to-left order.
fn collect_descending(link: &Link<Entry>, py: Python<'_>, out: &mut Vec<Py<PyAny>>)
    ensures
        final(out)@ == old(out)@ + entry_values(values(*link)).reverse(),
    decreases *link,
{
    match link {
        Some(node) => {
            collect_descending(&node.right, py, out);
            out.push(clone_object(py, &node.value.value));
            collect_descending(&node.left, py, out);
            proof {
                lemma_entry_values_join(values(node.left), node.value, values(node.right));
                let l = entry_values(values(node.left));
                let r = entry_values(values(node.right));
                assert((l + seq![node.value.spec_value()] + r).reverse() =~= r.reverse() + seq![node.value.spec_value()] + l.reverse());
            }
        },
        None => {
            proof {
                assert(old(out)@ + entry_values(values(*link)).reverse() =~= old(out)@);
            }
        },
    }
}

/// Appends the (value, key) pairs below `link` in left-to-right order.
fn collect_entries(link: &Link<Entry>, py: Python<'_>, out: &mut Vec<(Py<PyAny>, Py<PyAny>)>)
    ensures
        final(out)@ == old(out)@ + entry_pairs(values(*link)),
    decreases *link,
{
    match link {
        Some(node) => {
            collect_entries(&node.left, py, out);
            out.push((clone_object(py, &node.value.value), clone_object(py, &node.value.key)));
            collect_entries(&node.right, py, out);
            proof {
                lemma_entry_values_join(values(node.left), node.value, values(node.right));
            }
        },
        None => {
            proof {
                assert(old(out)@ + entry_pairs(values(*link)) =~= old(out)@);
            }
        },
    }
}

/// Appends the values below `link` in root-left-right order.
fn collect_pre_order(link: &Link<Entry>, py: Python<'_>, out: &mut Vec<Py<PyAny>>)
    ensures
        final(out)@ == old(out)@ + entry_values(pre_values(*link)),
    decreases *link,
{
    match link {
        Some(node) => {
            out.push(clone_object(py, &node.value.value));
            collect_pre_order(&node.left, py, out);
            collect_pre_order(&node.right, py, out);
            proof {
                lemma_entry_values_join(pre_values(node.left), node.value, pre_values(node.right));
            }
        },
        None => {
            proof {
                assert(old(out)@ + entry_values(pre_values(*link)) =~= old(out)@);
            }
        },
    }
}

/// Appends the values below `link` in left-right-root order.
fn collect_post_order(link: &Link<Entry>, py: Python<'_>, out: &mut Vec<Py<PyAny>>)
    ensures
        final(out)@ == old(out)@ + entry_values(post_values(*link)),
    decreases *link,
{
    match link {
        Some(node) => {
            collect_post_order(&node.left, py, out);
            collect_post_order(&node.right, py, out);
            out.push(clone_object(py, &node.value.value));
            proof {
                lemma_entry_values_join(post_values(node.left), node.value, post_values(node.right));
            }
        },
        None => {
            proof {
                assert(old(out)@ + entry_values(post_values(*link)) =~= old(out)@);
            }
        },
    }
}

/// The comparisons a range walk made at and below a node.
pub enum RangeTrace {
    /// No comparison: an empty subtree, or one the walk did not enter.
    Empty,
    /// The node's key compared with the start and then with the end, each
    /// `None` where that bound is absent or the walk stopped before it; then
    /// the walks of the left and right subtrees.
    Node { start: Option<Comparison>, end: Option<Comparison>, left: Box<RangeTrace>, right: Box<RangeTrace> },
}

/// How a range walk ends.
pub enum RangeEnd {
    /// A comparison raised.
    Raised,
    /// The walk kept these values, in left-to-right order.
    Kept(Seq<Py<PyAny>>),
}

/// `record` is the comparison of `key` with `bound`, or there is neither a
/// bound nor a comparison.
pub open spec fn compared_with(record: Option<Comparison>, key: Py<PyAny>, bound: Option<&Py<PyAny>>) -> bool {
    match bound {
        None => record is None,
        Some(b) => match record {
            Some(c) => c.left() == key && c.right() == *b,
            None => false,
        },
    }
}

/// `record` is a comparison that raised.
pub open spec fn raised(record: Option<Comparison>) -> bool {
    match record {
        Some(c) => c.outcome() is None,
        None => false,
    }
}

/// The answer of a recorded comparison, `None` where there is none.
pub open spec fn answer(record: Option<Comparison>) -> Option<Relation> {
    match record {
        Some(c) => c.outcome(),
        None => None,
    }
}

/// The comparison held by `record`, as a sequence of none or one.
pub open spec fn recorded(record: Option<Comparison>) -> Seq<Comparison> {
    match record {
        Some(c) => seq![c],
        None => Seq::empty(),
    }
}

/// The comparisons of a range walk, in the order it made them: at a node,
/// with the start, with the end, then those of the left and of the right
/// subtree.
pub open spec fn range_records(trace: RangeTrace) -> Seq<Comparison>
    decreases trace,
{
    match trace {
        RangeTrace::Empty => Seq::empty(),
        RangeTrace::Node { start, end, left, right } => recorded(start) + recorded(end) + range_records(*left)
            + range_records(*right),
    }
}

/// Both bounds are given, and the start ranks above the end.
pub open spec fn bounds_reversed(start: Option<&Py<PyAny>>, end: Option<&Py<PyAny>>, rank: spec_fn(Py<PyAny>) -> int) -> bool {
    match (start, end) {
        (Some(s), Some(e)) => rank(*s) > rank(*e),
        _ => false,
    }
}

/// Some comparison in `made` raised.
pub open spec fn some_raised(made: Seq<Comparison>) -> bool {
    exists|i: int| 0 <= i < made.len() && #[trigger] made[i].outcome() is None
}

/// The record of the comparison of the start with the end, which comes
/// first in a range's log where both bounds are given.
pub open spec fn bounds_record(start: Option<&Py<PyAny>>, end: Option<&Py<PyAny>>, made: Seq<Comparison>) -> Option<
    Comparison,
> {
    match (start, end) {
        (Some(_), Some(_)) => Some(made[0]),
        _ => None,
    }
}

/// The comparison of the start with the end refused the range: Python
/// raised, or ordered the start after the end.
pub open spec fn bounds_refused(record: Option<Comparison>) -> bool {
    match record {
        Some(c) => c.outcome() is None || c.outcome() == Some(Relation::Greater),
        None => false,
    }
}

/// How the walk for the keys between `start` and `end` below `link` ends,
/// when its comparisons were `trace`; `None` when `trace` is not the record
/// of such a walk.
///
/// At each node the walk compares the node's key with each bound that is
/// given, start first, and `range_decision` says from the answers which
/// subtrees it enters and whether it keeps the node's value. A raised
/// comparison ends the walk.
#[verifier::opaque]
pub open(crate) spec fn range_walk(
    link: Link<Entry>,
    start: Option<&Py<PyAny>>,
    end: Option<&Py<PyAny>>,
    include_start: bool,
    include_end: bool,
    trace: RangeTrace,
) -> Option<RangeEnd>
    decreases link,
{
    match link {
        None => if trace is Empty {
            Some(RangeEnd::Kept(Seq::empty()))
        } else {
            None
        },
        Some(node) => match trace {
            RangeTrace::Empty => None,
            RangeTrace::Node { start: at_start, end: at_end, left: left_trace, right: right_trace } => {
                if !compared_with(at_start, node.value.key, start) {
                    None
                } else if raised(at_start) {
                    if at_end is None && *left_trace is Empty && *right_trace is Empty {
                        Some(RangeEnd::Raised)
                    } else {
                        None
                    }
                } else if !compared_with(at_end, node.value.key, end) {
                    None
                } else if raised(at_end) {
                    if *left_trace is Empty && *right_trace is Empty {
                        Some(RangeEnd::Raised)
                    } else {
                        None
                    }
                } else {
                    let decision = range_decision(answer(at_start), answer(at_end), include_start, include_end);
                    let left_end = if decision.visit_left {
                        range_walk(node.left, start, end, include_start, include_end, *left_trace)
                    } else if *left_trace is Empty {
                        Some(RangeEnd::Kept(Seq::empty()))
                    } else {
                        None
                    };
                    match left_end {
                        Some(RangeEnd::Kept(before)) => {
                            let right_end = if decision.visit_right {
                                range_walk(node.right, start, end, include_start, include_end, *right_trace)
                            } else if *right_trace is Empty {
                                Some(RangeEnd::Kept(Seq::empty()))
                            } else {
                                None
                            };
                            match right_end {
                                Some(RangeEnd::Kept(after)) => Some(
                                    RangeEnd::Kept(
                                        before + (if decision.keep {
                                            seq![node.value.value]
                                        } else {
                                            Seq::empty()
                                        }) + after,
                                    ),
                                ),
                                other => other,
                            }
                        },
                        Some(RangeEnd::Raised) => if *right_trace is Empty {
                            Some(RangeEnd::Raised)
                        } else {
                            None
                        },
                        None => None,
                    }
                }
            },
        },
    }
}

/// Whether a key of rank `x` lies between the bounds, keys ranked by `rank`.
pub open spec fn within_bounds(
    x: int,
    start: Option<&Py<PyAny>>,
    end: Option<&Py<PyAny>>,
    include_start: bool,
    include_end: bool,
    rank: spec_fn(Py<PyAny>) -> int,
) -> bool {
    &&& match start {
        None => true,
        Some(s) => rank(*s) < x || (include_start && rank(*s) == x),
    }
    &&& match end {
        None => true,
        Some(e) => x < rank(*e) || (include_end && x == rank(*e)),
    }
}

/// Whether an entry's key lies between the bounds, keys ranked by `rank`.
pub open spec fn entry_within(
    start: Option<&Py<PyAny>>,
    end: Option<&Py<PyAny>>,
    include_start: bool,
    include_end: bool,
    rank: spec_fn(Py<PyAny>) -> int,
) -> spec_fn(Entry) -> bool {
    |e: Entry| within_bounds(rank(e.spec_key()), start, end, include_start, include_end, rank)
}

/// The values of the entries whose keys lie between the bounds, in order.
pub open spec fn values_within(
    entries: Seq<Entry>,
    start: Option<&Py<PyAny>>,
    end: Option<&Py<PyAny>>,
    include_start: bool,
    include_end: bool,
    rank: spec_fn(Py<PyAny>) -> int,
) -> Seq<Py<PyAny>> {
    entry_values(entries.filter(entry_within(start, end, include_start, include_end, rank)))
}

/// The answer of a recorded comparison, if any, follows `rank`.
pub open spec fn answer_follows(record: Option<Comparison>, rank: spec_fn(Py<PyAny>) -> int) -> bool {
    match record {
        Some(c) => match c.outcome() {
            Some(relation) => relation == rank_relation(rank(c.left()), rank(c.right())),
            None => true,
        },
        None => true,
    }
}

/// Every answer recorded in a range walk's trace follows `rank`.
pub open spec fn range_answers_follow(trace: RangeTrace, rank: spec_fn(Py<PyAny>) -> int) -> bool
    decreases trace,
{
    match trace {
        RangeTrace::Empty => true,
        RangeTrace::Node { start, end, left, right } => {
            &&& answer_follows(start, rank)
            &&& answer_follows(end, rank)
            &&& range_answers_follow(*left, rank)
            &&& range_answers_follow(*right, rank)
        },
    }
}

proof fn lemma_entry_values_add(a: Seq<Entry>, b: Seq<Entry>)
    ensures
        entry_values(a + b) == entry_values(a) + entry_values(b),
{
    assert(entry_values(a + b) =~= entry_values(a) + entry_values(b));
}

/// A range walk that kept values at a node compared its key with each given
/// bound without a raise, and kept what its subtrees' walks kept, around the
/// node's own value where `range_decision` keeps it.
proof fn lemma_range_node_kept(
    node: Box<AVLNode<Entry>>,
    start: Option<&Py<PyAny>>,
    end: Option<&Py<PyAny>>,
    include_start: bool,
    include_end: bool,
    trace: RangeTrace,
    kept: Seq<Py<PyAny>>,
) -> (r: (Seq<Py<PyAny>>, Seq<Py<PyAny>>))
    requires
        range_walk(Some(node), start, end, include_start, include_end, trace) == Some(RangeEnd::Kept(kept)),
    ensures
        trace matches RangeTrace::Node { start: at_start, end: at_end, left: left_trace, right: right_trace } && {
            let decision = range_decision(answer(at_start), answer(at_end), include_start, include_end);
            &&& compared_with(at_start, node.value.key, start)
            &&& !raised(at_start)
            &&& compared_with(at_end, node.value.key, end)
            &&& !raised(at_end)
            &&& (decision.visit_left ==> range_walk(node.left, start, end, include_start, include_end, *left_trace)
                == Some(RangeEnd::Kept(r.0)))
            &&& (!decision.visit_left ==> r.0 == Seq::<Py<PyAny>>::empty())
            &&& (decision.visit_right ==> range_walk(node.right, start, end, include_start, include_end, *right_trace)
                == Some(RangeEnd::Kept(r.1)))
            &&& (!decision.visit_right ==> r.1 == Seq::<Py<PyAny>>::empty())
            &&& kept == r.0 + (if decision.keep {
                seq![node.value.value]
            } else {
                Seq::empty()
            }) + r.1
        },
{
    reveal(range_walk);
    match trace {
        RangeTrace::Node { start: at_start, end: at_end, left: left_trace, right: right_trace } => {
            let decision = range_decision(answer(at_start), answer(at_end), include_start, include_end);
            let before = if decision.visit_left {
                match range_walk(node.left, start, end, include_start, include_end, *left_trace) {
                    Some(RangeEnd::Kept(b)) => b,
                    _ => Seq::empty(),
                }
            } else {
                Seq::empty()
            };
            let after = if decision.visit_right {
                match range_walk(node.right, start, end, include_start, include_end, *right_trace) {
                    Some(RangeEnd::Kept(a)) => a,
                    _ => Seq::empty(),
                }
            } else {
                Seq::empty()
            };
            (before, after)
        },
        RangeTrace::Empty => (Seq::empty(), Seq::empty()),
    }
}

/// One node of a range walk whose answers follow `rank`: what it keeps of
/// the node and its subtrees is what lies between the bounds, given that the
/// subtrees' walks keep what lies between the bounds there.
proof fn lemma_range_step_ranked(
    l: Seq<Entry>,
    v: Entry,
    r: Seq<Entry>,
    start: Option<&Py<PyAny>>,
    end: Option<&Py<PyAny>>,
    include_start: bool,
    include_end: bool,
    rank: spec_fn(Py<PyAny>) -> int,
    at_start: Option<Comparison>,
    at_end: Option<Comparison>,
    before: Seq<Py<PyAny>>,
    after: Seq<Py<PyAny>>,
)
    requires
        forall|j: int| 0 <= j < l.len() ==> key_rank(l, j, rank) < rank(v.spec_key()),
        forall|j: int| 0 <= j < r.len() ==> rank(v.spec_key()) < key_rank(r, j, rank),
        compared_with(at_start, v.spec_key(), start),
        !raised(at_start),
        compared_with(at_end, v.spec_key(), end),
        !raised(at_end),
        answer_follows(at_start, rank),
        answer_follows(at_end, rank),
        range_decision(answer(at_start), answer(at_end), include_start, include_end).visit_left ==> before
            == values_within(l, start, end, include_start, include_end, rank),
        !range_decision(answer(at_start), answer(at_end), include_start, include_end).visit_left ==> before
            == Seq::<Py<PyAny>>::empty(),
        range_decision(answer(at_start), answer(at_end), include_start, include_end).visit_right ==> after
            == values_within(r, start, end, include_start, include_end, rank),
        !range_decision(answer(at_start), answer(at_end), include_start, include_end).visit_right ==> after
            == Seq::<Py<PyAny>>::empty(),
    ensures
        before + (if range_decision(answer(at_start), answer(at_end), include_start, include_end).keep {
            seq![v.spec_value()]
        } else {
            Seq::empty()
        }) + after == values_within(l + seq![v] + r, start, end, include_start, include_end, rank),
{
    let p = entry_within(start, end, include_start, include_end, rank);
    let x = rank(v.spec_key());
    let decision = range_decision(answer(at_start), answer(at_end), include_start, include_end);
    lemma_filter_three(l, v, r, p);
    assert(decision.keep == p(v));
    if !decision.visit_left {
        assert forall|i: int| 0 <= i < l.len() implies !p(#[trigger] l[i]) by {
            assert(key_rank(l, i, rank) < x);
        }
        lemma_filter_drops_all(l, p);
        assert(entry_values(l.filter(p)) =~= Seq::<Py<PyAny>>::empty());
    }
    if !decision.visit_right {
        assert forall|i: int| 0 <= i < r.len() implies !p(#[trigger] r[i]) by {
            assert(x < key_rank(r, i, rank));
        }
        lemma_filter_drops_all(r, p);
        assert(entry_values(r.filter(p)) =~= Seq::<Py<PyAny>>::empty());
    }
    let mid: Seq<Entry> = if p(v) { seq![v] } else { Seq::empty() };
    lemma_entry_values_add(l.filter(p) + mid, r.filter(p));
    lemma_entry_values_add(l.filter(p), mid);
    assert(entry_values(mid) =~= (if decision.keep { seq![v.spec_value()] } else { Seq::<Py<PyAny>>::empty() }));
}

/// Where the keys below `link` ascend by `rank` and the answers of a range
/// walk follow `rank`, the walk keeps exactly the values whose keys lie
/// between the bounds.
proof fn lemma_range_walk_ranked(
    link: Link<Entry>,
    start: Option<&Py<PyAny>>,
    end: Option<&Py<PyAny>>,
    include_start: bool,
    include_end: bool,
    trace: RangeTrace,
    rank: spec_fn(Py<PyAny>) -> int,
)
    requires
        ranked(values(link), rank),
        range_answers_follow(trace, rank),
    ensures
        range_walk(link, start, end, include_start, include_end, trace) matches Some(RangeEnd::Kept(kept))
            ==> kept == values_within(values(link), start, end, include_start, include_end, rank),
    decreases link,
{
    match link {
        None => {
            reveal(range_walk);
            let p = entry_within(start, end, include_start, include_end, rank);
            assert(values(link) =~= Seq::<Entry>::empty());
            lemma_filter_drops_all(values(link), p);
            assert(entry_values(Seq::<Entry>::empty()) =~= Seq::<Py<PyAny>>::empty());
        },
        Some(node) => {
            match range_walk(link, start, end, include_start, include_end, trace) {
                Some(RangeEnd::Kept(kept)) => {
                    let (before, after) = lemma_range_node_kept(node, start, end, include_start, include_end, trace, kept);
                    match trace {
                        RangeTrace::Node { start: at_start, end: at_end, left: left_trace, right: right_trace } => {
                            lemma_ranked_node(node, rank);
                            lemma_range_walk_ranked(node.left, start, end, include_start, include_end, *left_trace, rank);
                            lemma_range_walk_ranked(node.right, start, end, include_start, include_end, *right_trace, rank);
                            lemma_range_step_ranked(
                                values(node.left),
                                node.value,
                                values(node.right),
                                start,
                                end,
                                include_start,
                                include_end,
                                rank,
                                at_start,
                                at_end,
                                before,
                                after,
                            );
                        },
                        RangeTrace::Empty => {},
                    }
                },
                _ => {},
            }
        },
    }
}

/// The log of a range walk at a node: the comparisons made before it, those
/// made with the node's key, then those of its two subtrees' walks.
proof fn lemma_range_log(
    log0: Seq<Comparison>,
    at_start: Option<Comparison>,
    at_end: Option<Comparison>,
    left: RangeTrace,
    right: RangeTrace,
    made: Seq<Comparison>,
)
    requires
        made == log0 + recorded(at_start) + recorded(at_end) + range_records(left) + range_records(right),
    ensures
        made == log0 + range_records(
            RangeTrace::Node { start: at_start, end: at_end, left: Box::new(left), right: Box::new(right) },
        ),
        range_records(right).len() > 0 ==> made.last() == range_records(right).last(),
        range_records(right).len() == 0 && range_records(left).len() > 0 ==> made.last() == range_records(left).last(),
{
    let trace = RangeTrace::Node { start: at_start, end: at_end, left: Box::new(left), right: Box::new(right) };
    assert(range_records(trace) == recorded(at_start) + recorded(at_end) + range_records(left) + range_records(right));
    assert(made =~= log0 + range_records(trace));
    if range_records(right).len() == 0 {
        assert(made =~= log0 + recorded(at_start) + recorded(at_end) + range_records(left));
    }
}

/// A range walk that raised made a comparison.
proof fn lemma_range_raised_records(
    link: Link<Entry>,
    start: Option<&Py<PyAny>>,
    end: Option<&Py<PyAny>>,
    include_start: bool,
    include_end: bool,
    trace: RangeTrace,
)
    ensures
        range_walk(link, start, end, include_start, include_end, trace) matches Some(RangeEnd::Raised)
            ==> range_records(trace).len() > 0,
    decreases link,
{
    reveal(range_walk);
    match link {
        None => {},
        Some(node) => {
            match trace {
                RangeTrace::Node { start: at_start, end: at_end, left: left_trace, right: right_trace } => {
                    lemma_range_raised_records(node.left, start, end, include_start, include_end, *left_trace);
                    lemma_range_raised_records(node.right, start, end, include_start, include_end, *right_trace);
                },
                RangeTrace::Empty => {},
            }
        },
    }
}

/// A range walk whose comparison with a bound raised at a node ends there.
proof fn lemma_range_walk_bound_raised(
    node: Box<AVLNode<Entry>>,
    start: Option<&Py<PyAny>>,
    end: Option<&Py<PyAny>>,
    include_start: bool,
    include_end: bool,
    at_start: Option<Comparison>,
    at_end: Option<Comparison>,
)
    requires
        compared_with(at_start, node.value.key, start),
        raised(at_start) && at_end is None || !raised(at_start) && compared_with(at_end, node.value.key, end) && raised(
            at_end,
        ),
    ensures
        range_walk(
            Some(node),
            start,
            end,
            include_start,
            include_end,
            RangeTrace::Node {
                start: at_start,
                end: at_end,
                left: Box::new(RangeTrace::Empty),
                right: Box::new(RangeTrace::Empty),
            },
        ) == Some(RangeEnd::Raised),
{
    reveal(range_walk);
}

/// What a range walk does with one side of a node: walks it where the
/// decision is to visit it, and otherwise leaves it, making no comparison.
pub open spec fn side_walk(
    visit: bool,
    link: Link<Entry>,
    start: Option<&Py<PyAny>>,
    end: Option<&Py<PyAny>>,
    include_start: bool,
    include_end: bool,
    trace: RangeTrace,
) -> Option<RangeEnd> {
    if visit {
        range_walk(link, start, end, include_start, include_end, trace)
    } else if trace is Empty {
        Some(RangeEnd::Kept(Seq::empty()))
    } else {
        None
    }
}

/// A range walk at a node whose comparisons with the bounds answered, and
/// whose subtrees' walks kept values, keeps theirs around the node's own
/// where the decision keeps it.
proof fn lemma_range_walk_kept_at(
    node: Box<AVLNode<Entry>>,
    start: Option<&Py<PyAny>>,
    end: Option<&Py<PyAny>>,
    include_start: bool,
    include_end: bool,
    at_start: Option<Comparison>,
    at_end: Option<Comparison>,
    left: RangeTrace,
    right: RangeTrace,
    before: Seq<Py<PyAny>>,
    after: Seq<Py<PyAny>>,
)
    requires
        compared_with(at_start, node.value.key, start),
        !raised(at_start),
        compared_with(at_end, node.value.key, end),
        !raised(at_end),
        side_walk(range_decision(answer(at_start), answer(at_end), include_start, include_end).visit_left, node.left, start, end, include_start, include_end, left) == Some(
            RangeEnd::Kept(before),
        ),
        side_walk(range_decision(answer(at_start), answer(at_end), include_start, include_end).visit_right, node.right, start, end, include_start, include_end, right) == Some(
            RangeEnd::Kept(after),
        ),
    ensures
        range_walk(
            Some(node),
            start,
            end,
            include_start,
            include_end,
            RangeTrace::Node { start: at_start, end: at_end, left: Box::new(left), right: Box::new(right) },
        ) == Some(
            RangeEnd::Kept(
                before + (if range_decision(answer(at_start), answer(at_end), include_start, include_end).keep {
                    seq![node.value.value]
                } else {
                    Seq::empty()
                }) + after,
            ),
        ),
{
    reveal(range_walk);
}

/// A range walk at a node whose comparisons with the bounds answered raised
/// where one of its subtrees' walks raised.
proof fn lemma_range_walk_raised_below(
    node: Box<AVLNode<Entry>>,
    start: Option<&Py<PyAny>>,
    end: Option<&Py<PyAny>>,
    include_start: bool,
    include_end: bool,
    at_start: Option<Comparison>,
    at_end: Option<Comparison>,
    left: RangeTrace,
    right: RangeTrace,
    before: Seq<Py<PyAny>>,
)
    requires
        compared_with(at_start, node.value.key, start),
        !raised(at_start),
        compared_with(at_end, node.value.key, end),
        !raised(at_end),
        side_walk(range_decision(answer(at_start), answer(at_end), include_start, include_end).visit_left, node.left, start, end, include_start, include_end, left) == Some(RangeEnd::Raised)
            && right is Empty || side_walk(range_decision(answer(at_start), answer(at_end), include_start, include_end).visit_left, node.left, start, end, include_start, include_end, left) == Some(
            RangeEnd::Kept(before),
        ) && side_walk(range_decision(answer(at_start), answer(at_end), include_start, include_end).visit_right, node.right, start, end, include_start, include_end, right) == Some(
            RangeEnd::Raised,
        ),
    ensures
        range_walk(
            Some(node),
            start,
            end,
            include_start,
            include_end,
            RangeTrace::Node { start: at_start, end: at_end, left: Box::new(left), right: Box::new(right) },
        ) == Some(RangeEnd::Raised),
{
    reveal(range_walk);
}

/// Compares `key` with each bound that is given, the start first, stopping
/// at a raise; returns the answers and the records of the comparisons.
fn compare_with_bounds(
    py: Python<'_>,
    key: &Py<PyAny>,
    start: Option<&Py<PyAny>>,
    end: Option<&Py<PyAny>>,
    log: &mut ComparisonLog,
) -> (r: (Result<(Option<Relation>, Option<Relation>), PyErr>, Ghost<(Option<Comparison>, Option<Comparison>)>))
    ensures
        final(log).made() == old(log).made() + recorded(r.1@.0) + recorded(r.1@.1),
        compared_with(r.1@.0, *key, start),
        match r.0 {
            Ok(orders) => {
                &&& !raised(r.1@.0)
                &&& compared_with(r.1@.1, *key, end)
                &&& !raised(r.1@.1)
                &&& orders.0 == answer(r.1@.0)
                &&& orders.1 == answer(r.1@.1)
            },
            Err(_) => {
                &&& fails_with(r.0, final(log).made().last())
                &&& final(log).made().len() > old(log).made().len()
                &&& (raised(r.1@.0) && r.1@.1 is None || !raised(r.1@.0) && compared_with(r.1@.1, *key, end) && raised(
                    r.1@.1,
                ))
            },
        },
{
    let ghost log0 = log.made();
    let (start_order, at_start) = match start {
        Some(bound) => {
            let answer = log.compare(py, key, bound);
            let ghost record = log.made().last();
            proof {
                assert(log.made() =~= log0 + recorded(Some(record)) + recorded(None));
            }
            match answer {
                Ok(order) => (Some(order), Ghost(Some(record))),
                Err(e) => {
                    return (Err(e), Ghost((Some(record), None)));
                },
            }
        },
        None => (None, Ghost(None)),
    };
    let ghost log1 = log.made();
    proof {
        assert(log1 =~= log0 + recorded(at_start@));
    }
    match end {
        Some(bound) => {
            let answer = log.compare(py, key, bound);
            let ghost record = log.made().last();
            proof {
                assert(log.made() =~= log0 + recorded(at_start@) + recorded(Some(record)));
            }
            match answer {
                Ok(order) => (Ok((start_order, Some(order))), Ghost((at_start@, Some(record)))),
                Err(e) => (Err(e), Ghost((at_start@, Some(record)))),
            }
        },
        None => {
            proof {
                assert(log.made() =~= log0 + recorded(at_start@) + recorded(None));
            }
            (Ok((start_order, None)), Ghost((at_start@, None)))
        },
    }
}

/// Appends the values below `link` whose keys fall between the optional
/// endpoints, and returns the comparisons it asked of Python. The walk skips
/// branches which cannot hold a matching key.
#[verifier::rlimit(100)]
#[verifier::spinoff_prover]
fn collect_range(
    link: &Link<Entry>,
    py: Python<'_>,
    start: Option<&Py<PyAny>>,
    end: Option<&Py<PyAny>>,
    include_start: bool,
    include_end: bool,
    out: &mut Vec<Py<PyAny>>,
    log: &mut ComparisonLog,
) -> (r: (Result<(), PyErr>, Ghost<RangeTrace>))
    ensures
        final(log).made() == old(log).made() + range_records(r.1@),
        match range_walk(*link, start, end, include_start, include_end, r.1@) {
            Some(RangeEnd::Kept(kept)) => r.0 is Ok && final(out)@ == old(out)@ + kept,
            Some(RangeEnd::Raised) => fails_with(r.0, range_records(r.1@).last()),
            None => false,
        },
        start is None && end is None ==> r.0 is Ok && final(out)@ == old(out)@ + entry_values(values(*link)),
    decreases *link,
{
    let node = match link {
        None => {
            proof {
                reveal(range_walk);
                assert(old(out)@ + Seq::<Py<PyAny>>::empty() =~= old(out)@);
                assert(entry_values(values(*link)) =~= Seq::<Py<PyAny>>::empty());
            }
            proof {
                assert(log.made() =~= old(log).made() + range_records(RangeTrace::Empty));
            }
            return (Ok(()), Ghost(RangeTrace::Empty));
        },
        Some(node) => node,
    };
    let ghost log0 = log.made();
    let ghost lv = entry_values(values(node.left));
    let ghost rv = entry_values(values(node.right));
    let ghost x = node.value.spec_value();
    proof {
        lemma_entry_values_join(values(node.left), node.value, values(node.right));
    }
    // Compare this node once per bound and reuse the answers for pruning,
    // inclusion, and deciding whether to visit the other branch.
    let (orders, records) = compare_with_bounds(py, &node.value.key, start, end, log);
    let ghost at_start = records@.0;
    let ghost at_end = records@.1;
    let (start_order, end_order) = match orders {
        Ok(orders) => orders,
        Err(e) => {
            let ghost trace = RangeTrace::Node {
                start: at_start,
                end: at_end,
                left: Box::new(RangeTrace::Empty),
                right: Box::new(RangeTrace::Empty),
            };
            proof {
                assert(range_records(RangeTrace::Empty) == Seq::<Comparison>::empty());
                assert(log.made() =~= log0 + recorded(at_start) + recorded(at_end) + range_records(RangeTrace::Empty)
                    + range_records(RangeTrace::Empty));
                lemma_range_log(log0, at_start, at_end, RangeTrace::Empty, RangeTrace::Empty, log.made());
                lemma_range_walk_bound_raised(*node, start, end, include_start, include_end, at_start, at_end);
                assert(range_records(trace) == recorded(at_start) + recorded(at_end));
            }
            return (Err(e), Ghost(trace));
        },
    };
    let ghost log1 = log.made();
    proof {
        assert(log1 =~= log0 + recorded(at_start) + recorded(at_end));
    }
    let decision = range_step(start_order, end_order, include_start, include_end);
    let ghost out0 = out@;
    // Visit left only when a smaller key could still meet the lower bound.
    let left_trace = if decision.visit_left {
        let (result, below) = collect_range(&node.left, py, start, end, include_start, include_end, out, log);
        match result {
            Ok(()) => {},
            Err(e) => {
                let ghost trace = RangeTrace::Node {
                    start: at_start,
                    end: at_end,
                    left: Box::new(below@),
                    right: Box::new(RangeTrace::Empty),
                };
                proof {
                    lemma_range_walk_raised_below(
                        *node,
                        start,
                        end,
                        include_start,
                        include_end,
                        at_start,
                        at_end,
                        below@,
                        RangeTrace::Empty,
                        Seq::empty(),
                    );
                    lemma_range_raised_records(node.left, start, end, include_start, include_end, below@);
                    assert(range_records(RangeTrace::Empty) == Seq::<Comparison>::empty());
                    assert(log.made() =~= log1 + range_records(below@) + range_records(RangeTrace::Empty));
                    lemma_range_log(log0, at_start, at_end, below@, RangeTrace::Empty, log.made());
                }
                return (Err(e), Ghost(trace));
            },
        }
        below
    } else {
        proof {
            assert(out@ =~= out0 + Seq::<Py<PyAny>>::empty());
        }
        Ghost(RangeTrace::Empty)
    };
    let ghost out1 = out@;
    let ghost before = match side_walk(decision.visit_left, node.left, start, end, include_start, include_end, left_trace@) {
        Some(RangeEnd::Kept(b)) => b,
        _ => Seq::empty(),
    };
    proof {
        assert(side_walk(decision.visit_left, node.left, start, end, include_start, include_end, left_trace@) == Some(
            RangeEnd::Kept(before),
        ));
        assert(out1 == out0 + before);
    }
    let ghost log2 = log.made();
    proof {
        assert(range_records(RangeTrace::Empty) == Seq::<Comparison>::empty());
        assert(log2 =~= log1 + range_records(left_trace@));
    }
    if decision.keep {
        out.push(clone_object(py, &node.value.value));
    }
    let ghost out2 = out@;
    // Visit right only when a larger key could still meet the upper bound.
    let right_trace = if decision.visit_right {
        let (result, below) = collect_range(&node.right, py, start, end, include_start, include_end, out, log);
        match result {
            Ok(()) => {},
            Err(e) => {
                let ghost trace = RangeTrace::Node {
                    start: at_start,
                    end: at_end,
                    left: Box::new(left_trace@),
                    right: Box::new(below@),
                };
                proof {
                    lemma_range_walk_raised_below(
                        *node,
                        start,
                        end,
                        include_start,
                        include_end,
                        at_start,
                        at_end,
                        left_trace@,
                        below@,
                        before,
                    );
                    lemma_range_raised_records(node.right, start, end, include_start, include_end, below@);
                    lemma_range_log(log0, at_start, at_end, left_trace@, below@, log.made());
                }
                return (Err(e), Ghost(trace));
            },
        }
        below
    } else {
        proof {
            assert(out@ =~= out2 + Seq::<Py<PyAny>>::empty());
        }
        Ghost(RangeTrace::Empty)
    };
    let ghost trace = RangeTrace::Node {
        start: at_start,
        end: at_end,
        left: Box::new(left_trace@),
        right: Box::new(right_trace@),
    };
    let ghost after = match side_walk(decision.visit_right, node.right, start, end, include_start, include_end, right_trace@) {
        Some(RangeEnd::Kept(a)) => a,
        _ => Seq::empty(),
    };
    proof {
        lemma_range_log(log0, at_start, at_end, left_trace@, right_trace@, log.made());
        assert(side_walk(decision.visit_right, node.right, start, end, include_start, include_end, right_trace@) == Some(
            RangeEnd::Kept(after),
        ));
        assert(out@ == out2 + after);
        lemma_range_walk_kept_at(
            *node,
            start,
            end,
            include_start,
            include_end,
            at_start,
            at_end,
            left_trace@,
            right_trace@,
            before,
            after,
        );
        let kept = if decision.keep { seq![x] } else { Seq::<Py<PyAny>>::empty() };
        assert(out2 =~= out1 + kept);
        assert(out@ =~= old(out)@ + (before + kept + after));
        if start is None && end is None {
            assert(out1 == out0 + lv);
            assert(out2 == out1 + seq![x]);
            assert(out@ == out2 + rv);
            assert(out@ =~= old(out)@ + entry_values(values(*link)));
        }
    }
    (Ok(()), Ghost(trace))
}

/// The height of the tree that `build_balanced` makes from `n` entries.
pub open(crate) spec fn built_height(n: nat) -> nat
    decreases n,
{
    if n == 0 {
        0
    } else {
        1 + built_height(n / 2)
    }
}

proof fn lemma_built_height_step(n: nat)
    ensures
        built_height(n) <= built_height(n + 1) <= built_height(n) + 1,
    decreases n,
{
    if n > 0 {
        if (n + 1) / 2 != n / 2 {
            lemma_built_height_step(n / 2);
        }
    }
}

proof fn lemma_built_height_monotone(a: nat, b: nat)
    requires
        a <= b,
    ensures
        built_height(a) <= built_height(b),
    decreases b - a,
{
    if a < b {
        lemma_built_height_step(a);
        lemma_built_height_monotone(a + 1, b);
    }
}

/// Builds a balanced subtree holding `entries` in the given order, taking the
/// middle entry as the root.
fn build_balanced(mut entries: Vec<Entry>) -> (r: Link<Entry>)
    ensures
        values(r) == entries@,
        avl(r),
        real_height(r) == built_height(entries@.len()),
    decreases entries@.len(),
{
    let ghost all = entries@;
    let n: usize = entries.len();
    if n == 0 {
        proof {
            assert(values(None::<Box<AVLNode<Entry>>>) =~= all);
        }
        return None;
    }
    let mid: usize = n / 2;
    let right_entries = entries.split_off(mid + 1);
    let middle = entries.pop().unwrap();
    let left = build_balanced(entries);
    let right = build_balanced(right_entries);
    proof {
        lemma_built_height_monotone((n - mid - 1) as nat, mid as nat);
        if n - mid - 1 < mid {
            lemma_built_height_step((n - mid - 1) as nat);
        }
        lemma_height_small(left);
        lemma_height_small(right);
        lemma_cached_height(left);
        lemma_cached_height(right);
    }
    let mut node = Box::new(AVLNode { value: middle, left, right, height: 1 });
    update_height(&mut *node);
    proof {
        assert(values(Some(node)) =~= all);
    }
    Some(node)
}

/// The comparisons recorded in each of `logs`.
pub open spec fn logs_made(logs: Seq<ComparisonLog>) -> Seq<Seq<Comparison>> {
    logs.map_values(|log: ComparisonLog| log.made())
}

/// The tree that inserting `entries` in turn below `root` makes, when the
/// comparisons of the i-th insertion were `traces[i]`: where its search
/// reaches an empty subtree the entry goes in there; where it meets a key
/// that compares equal, the entry already there stays and the new one is
/// dropped. `None` where a search raised, or the traces do not fit.
pub open(crate) spec fn built_in_turn(root: Link<Entry>, entries: Seq<Entry>, traces: Seq<Seq<Comparison>>) -> Option<
    Link<Entry>,
>
    decreases entries.len(),
{
    if entries.len() != traces.len() {
        None
    } else if entries.len() == 0 {
        Some(root)
    } else {
        match built_in_turn(root, entries.drop_last(), traces.drop_last()) {
            Some(before) => match key_walk(before, entries.last().spec_key(), traces.last()) {
                Some(WalkEnd::Absent(_)) => Some(placed(before, entries.last(), traces.last())),
                Some(WalkEnd::Found(_)) => Some(before),
                _ => None,
            },
            None => None,
        }
    }
}

impl PythonAvlTree {
    /// The entries in the tree's left-to-right order.
    pub closed spec fn entries(&self) -> Seq<Entry> {
        values(self.root)
    }

    /// The number of levels of the tree; an empty tree has height zero.
    pub closed spec fn spec_height(&self) -> nat {
        real_height(self.root)
    }

    /// The tree is height-balanced, caches its heights, and counts its
    /// entries.
    #[verifier::type_invariant]
    pub closed spec fn wf(&self) -> bool {
        &&& avl(self.root)
        &&& self.len == values(self.root).len()
    }

    /// Creates an empty tree.
    pub fn new() -> (r: Self)
        ensures
            r.wf(),
            r.entries() == Seq::<Entry>::empty(),
    {
        PythonAvlTree { root: None, len: 0 }
    }

    /// The tree's root, from which its shape can be read.
    pub closed spec fn spec_root(&self) -> Link<Entry> {
        self.root
    }

    /// How a search for `key` in this tree ends, when its comparisons were
    /// `trace`: see `key_walk`.
    pub closed spec fn walk(&self, key: Py<PyAny>, trace: Seq<Comparison>) -> Option<WalkEnd> {
        key_walk(self.root, key, trace)
    }

    /// Inserts an entry and reports whether its key was new, together with
    /// the log of the comparisons it asked of Python.
    ///
    /// The search for the entry's key decides: where it reaches an empty
    /// subtree the entry goes in there; where a key compares equal nothing
    /// changes; where a comparison raises, that error is returned and the
    /// tree is left exactly as it was.
    pub fn insert(&mut self, py: Python<'_>, entry: Entry) -> (r: (Result<bool, PyErr>, ComparisonLog))
        requires
            old(self).entries().len() < usize::MAX,
        ensures
            final(self).wf(),
            match old(self).walk(entry.spec_key(), r.1.made()) {
                Some(WalkEnd::Absent(k)) => {
                    &&& r.0 == Ok::<bool, PyErr>(true)
                    &&& 0 <= k <= old(self).entries().len()
                    &&& final(self).entries() == old(self).entries().insert(k, entry)
                    &&& final(self).spec_root() == placed(old(self).spec_root(), entry, r.1.made())
                },
                Some(WalkEnd::Found(i)) => {
                    &&& r.0 == Ok::<bool, PyErr>(false)
                    &&& *final(self) == *old(self)
                    &&& 0 <= i < old(self).entries().len()
                    &&& r.1.made().last().left() == entry.spec_key()
                    &&& r.1.made().last().right() == old(self).entries()[i].spec_key()
                    &&& r.1.made().last().outcome() == Some(Relation::Equal)
                },
                Some(WalkEnd::Raised) => fails_with(r.0, r.1.made().last()) && *final(self) == *old(self),
                None => false,
            },
            forall|rank: spec_fn(Py<PyAny>) -> int|
                #![trigger answers_follow(r.1.made(), rank)]
                ranked(old(self).entries(), rank) && answers_follow(r.1.made(), rank) ==> {
                    &&& (r.0 == Ok::<bool, PyErr>(true) ==> ranked(final(self).entries(), rank) && forall|j: int|
                        0 <= j < old(self).entries().len() ==> key_rank(old(self).entries(), j, rank) != rank(
                            entry.spec_key(),
                        ))
                    &&& (r.0 == Ok::<bool, PyErr>(false) ==> exists|i: int|
                        0 <= i < old(self).entries().len() && key_rank(old(self).entries(), i, rank) == rank(
                            entry.spec_key(),
                        ))
                },
            (forall|i: int| 0 <= i < r.1.made().len() ==> #[trigger] r.1.made()[i].outcome() is Some) ==> r.0 is Ok,
            r.1.made().len() <= old(self).spec_height(),
            old(self).entries().len() == 0 ==> r.0 == Ok::<bool, PyErr>(true) && r.1.made().len() == 0
                && final(self).entries() == seq![entry],
    {
        proof {
            use_type_invariant(&*self);
        }
        let mut log = ComparisonLog::new();
        let mut tree = PythonAvlTree { root: None, len: 0 };
        core::mem::swap(&mut tree, self);
        let PythonAvlTree { mut root, len } = tree;
        let (inserted, trace) = insert_at(py, &mut root, entry, &mut log);
        proof {
            assert(log.made() =~= trace@);
            lemma_key_walk_end(old(self).root, entry.spec_key(), trace@);
            if old(self).entries().len() == 0 {
                assert(old(self).entries().insert(0, entry) =~= seq![entry]);
            }
        }
        let len = match inserted {
            Ok(true) => len + 1,
            _ => len,
        };
        *self = PythonAvlTree { root, len };
        proof {
            assert forall|rank: spec_fn(Py<PyAny>) -> int|
                #![trigger answers_follow(log.made(), rank)]
                ranked(old(self).entries(), rank) && answers_follow(log.made(), rank) implies {
                    &&& (inserted == Ok::<bool, PyErr>(true) ==> ranked(self.entries(), rank) && forall|j: int|
                        0 <= j < old(self).entries().len() ==> key_rank(old(self).entries(), j, rank) != rank(
                            entry.spec_key(),
                        ))
                    &&& (inserted == Ok::<bool, PyErr>(false) ==> exists|i: int|
                        0 <= i < old(self).entries().len() && key_rank(old(self).entries(), i, rank) == rank(
                            entry.spec_key(),
                        ))
                } by {
                lemma_key_walk_ranked(old(self).root, entry.spec_key(), trace@, rank);
                match key_walk(old(self).root, entry.spec_key(), trace@) {
                    Some(WalkEnd::Absent(k)) => {
                        law_insert_keeps_rank(old(self).entries(), k, entry, rank);
                    },
                    _ => {},
                }
            }
        }
        (inserted, log)
    }

    /// Removes the entry whose key compares equal to `key`, reporting whether
    /// there was one, together with the log of the comparisons it asked of
    /// Python.
    ///
    /// The search for `key` decides: the entry whose key compares equal is
    /// removed; where the search reaches an empty subtree nothing changes;
    /// where a comparison raises, that error is returned and the tree is left
    /// exactly as it was.
    pub fn remove(&mut self, py: Python<'_>, key: &Py<PyAny>) -> (r: (Result<bool, PyErr>, ComparisonLog))
        ensures
            final(self).wf(),
            match old(self).walk(*key, r.1.made()) {
                Some(WalkEnd::Found(i)) => {
                    &&& r.0 == Ok::<bool, PyErr>(true)
                    &&& 0 <= i < old(self).entries().len()
                    &&& final(self).entries() == old(self).entries().remove(i)
                    &&& final(self).spec_root() == unplaced(old(self).spec_root(), r.1.made())
                    &&& r.1.made().last().left() == *key
                    &&& r.1.made().last().right() == old(self).entries()[i].spec_key()
                    &&& r.1.made().last().outcome() == Some(Relation::Equal)
                },
                Some(WalkEnd::Absent(_)) => r.0 == Ok::<bool, PyErr>(false) && *final(self) == *old(self),
                Some(WalkEnd::Raised) => fails_with(r.0, r.1.made().last()) && *final(self) == *old(self),
                None => false,
            },
            forall|rank: spec_fn(Py<PyAny>) -> int|
                #![trigger answers_follow(r.1.made(), rank)]
                ranked(old(self).entries(), rank) && answers_follow(r.1.made(), rank) ==> {
                    &&& (r.0 == Ok::<bool, PyErr>(true) ==> exists|i: int|
                        0 <= i < old(self).entries().len() && key_rank(old(self).entries(), i, rank) == rank(*key)
                            && final(self).entries() == old(self).entries().remove(i))
                    &&& (r.0 == Ok::<bool, PyErr>(false) ==> forall|j: int|
                        0 <= j < old(self).entries().len() ==> key_rank(old(self).entries(), j, rank) != rank(*key))
                },
            (forall|i: int| 0 <= i < r.1.made().len() ==> #[trigger] r.1.made()[i].outcome() is Some) ==> r.0 is Ok,
            r.1.made().len() <= old(self).spec_height(),
            old(self).entries().len() == 0 ==> r.0 == Ok::<bool, PyErr>(false) && r.1.made().len() == 0,
    {
        proof {
            use_type_invariant(&*self);
        }
        let mut log = ComparisonLog::new();
        let mut tree = PythonAvlTree { root: None, len: 0 };
        core::mem::swap(&mut tree, self);
        let PythonAvlTree { mut root, len } = tree;
        let (removed, trace) = remove_at(py, &mut root, key, &mut log);
        proof {
            assert(log.made() =~= trace@);
            lemma_key_walk_end(old(self).root, *key, trace@);
        }
        let len = match removed {
            Ok(true) => len - 1,
            _ => len,
        };
        *self = PythonAvlTree { root, len };
        proof {
            assert forall|rank: spec_fn(Py<PyAny>) -> int|
                #![trigger answers_follow(log.made(), rank)]
                ranked(old(self).entries(), rank) && answers_follow(log.made(), rank) implies {
                    &&& (removed == Ok::<bool, PyErr>(true) ==> exists|i: int|
                        0 <= i < old(self).entries().len() && key_rank(old(self).entries(), i, rank) == rank(*key)
                            && self.entries() == old(self).entries().remove(i))
                    &&& (removed == Ok::<bool, PyErr>(false) ==> forall|j: int|
                        0 <= j < old(self).entries().len() ==> key_rank(old(self).entries(), j, rank) != rank(*key))
                } by {
                lemma_key_walk_ranked(old(self).root, *key, trace@, rank);
            }
        }
        (removed, log)
    }

    /// Finds the value whose key compares equal to `key`, together with the
    /// log of the comparisons it asked of Python.
    ///
    /// The search for `key` decides: the value of the entry whose key
    /// compares equal is returned; where the search reaches an empty subtree
    /// there is none; where a comparison raises, that error is returned.
    pub fn search(&self, py: Python<'_>, key: &Py<PyAny>) -> (r: (Result<Option<Py<PyAny>>, PyErr>, ComparisonLog))
        ensures
            match self.walk(*key, r.1.made()) {
                Some(WalkEnd::Found(i)) => {
                    &&& 0 <= i < self.entries().len()
                    &&& r.0 == Ok::<Option<Py<PyAny>>, PyErr>(Some(self.entries()[i].spec_value()))
                    &&& r.1.made().last().left() == *key
                    &&& r.1.made().last().right() == self.entries()[i].spec_key()
                    &&& r.1.made().last().outcome() == Some(Relation::Equal)
                },
                Some(WalkEnd::Absent(_)) => r.0 == Ok::<Option<Py<PyAny>>, PyErr>(None),
                Some(WalkEnd::Raised) => fails_with(r.0, r.1.made().last()),
                None => false,
            },
            forall|rank: spec_fn(Py<PyAny>) -> int|
                #![trigger answers_follow(r.1.made(), rank)]
                ranked(self.entries(), rank) && answers_follow(r.1.made(), rank) ==> {
                    &&& (r.0 matches Ok(Some(v)) ==> exists|i: int|
                        0 <= i < self.entries().len() && key_rank(self.entries(), i, rank) == rank(*key) && v
                            == self.entries()[i].spec_value())
                    &&& (r.0 == Ok::<Option<Py<PyAny>>, PyErr>(None) ==> forall|j: int|
                        0 <= j < self.entries().len() ==> key_rank(self.entries(), j, rank) != rank(*key))
                },
            (forall|i: int| 0 <= i < r.1.made().len() ==> #[trigger] r.1.made()[i].outcome() is Some) ==> r.0 is Ok,
            r.1.made().len() <= self.spec_height(),
            self.entries().len() == 0 ==> r.0 == Ok::<Option<Py<PyAny>>, PyErr>(None) && r.1.made().len() == 0,
    {
        proof {
            use_type_invariant(&*self);
        }
        let mut log = ComparisonLog::new();
        let (found, trace) = search_at(&self.root, py, key, &mut log);
        proof {
            assert(log.made() =~= trace@);
            lemma_key_walk_end(self.root, *key, trace@);
        }
        proof {
            assert forall|rank: spec_fn(Py<PyAny>) -> int|
                #![trigger answers_follow(log.made(), rank)]
                ranked(self.entries(), rank) && answers_follow(log.made(), rank) implies {
                    &&& (found matches Ok(Some(v)) ==> exists|i: int|
                        0 <= i < self.entries().len() && key_rank(self.entries(), i, rank) == rank(*key) && v
                            == self.entries()[i].spec_value())
                    &&& (found == Ok::<Option<Py<PyAny>>, PyErr>(None) ==> forall|j: int|
                        0 <= j < self.entries().len() ==> key_rank(self.entries(), j, rank) != rank(*key))
                } by {
                lemma_key_walk_ranked(self.root, *key, trace@, rank);
            }
        }
        (found, log)
    }

    /// Returns the value of the first entry, if any.
    pub fn first(&self, py: Python<'_>) -> (r: Option<Py<PyAny>>)
        ensures
            match r {
                Some(v) => self.entries().len() > 0 && v == self.entries()[0].spec_value(),
                None => self.entries().len() == 0,
            },
    {
        proof {
            use_type_invariant(&*self);
        }
        let mut node = match &self.root {
            Some(n) => n,
            None => {
                return None;
            },
        };
        loop
            invariant
                self.entries().len() > 0,
                values(Some(*node)).len() > 0,
                values(Some(*node))[0] == self.entries()[0],
            decreases real_height(Some(*node)),
        {
            proof {
                assert(values(Some(*node)) == values(node.left) + seq![node.value] + values(node.right));
            }
            match &node.left {
                Some(left) => {
                    proof {
                        assert(values(Some(*node))[0] == values(node.left)[0]);
                    }
                    node = left;
                },
                None => {
                    proof {
                        assert(values(node.left) =~= Seq::<Entry>::empty());
                        assert(values(Some(*node))[0] == node.value);
                    }
                    return Some(clone_object(py, &node.value.value));
                },
            }
        }
    }

    /// Returns the value of the last entry, if any.
    pub fn last(&self, py: Python<'_>) -> (r: Option<Py<PyAny>>)
        ensures
            match r {
                Some(v) => self.entries().len() > 0 && v == self.entries().last().spec_value(),
                None => self.entries().len() == 0,
            },
    {
        proof {
            use_type_invariant(&*self);
        }
        let mut node = match &self.root {
            Some(n) => n,
            None => {
                return None;
            },
        };
        loop
            invariant
                self.entries().len() > 0,
                values(Some(*node)).len() > 0,
                values(Some(*node)).last() == self.entries().last(),
            decreases real_height(Some(*node)),
        {
            proof {
                assert(values(Some(*node)) == values(node.left) + seq![node.value] + values(node.right));
            }
            match &node.right {
                Some(right) => {
                    proof {
                        assert(values(Some(*node)).last() == values(node.right).last());
                    }
                    node = right;
                },
                None => {
                    proof {
                        assert(values(node.right) =~= Seq::<Entry>::empty());
                        assert(values(Some(*node)).last() == node.value);
                    }
                    return Some(clone_object(py, &node.value.value));
                },
            }
        }
    }

    /// Returns the values in left-to-right (ascending key) order.
    pub fn in_order(&self, py: Python<'_>) -> (r: Vec<Py<PyAny>>)
        ensures
            r@ == entry_values(self.entries()),
    {
        proof {
            use_type_invariant(&*self);
        }
        let mut out = Vec::with_capacity(self.len);
        collect_in_order(&self.root, py, &mut out);
        proof {
            assert(Seq::<Py<PyAny>>::empty() + entry_values(self.entries()) =~= entry_values(self.entries()));
        }
        out
    }

    /// Returns the values in right-to-left (descending key) order.
    pub fn descending(&self, py: Python<'_>) -> (r: Vec<Py<PyAny>>)
        ensures
            r@ == entry_values(self.entries()).reverse(),
    {
        proof {
            use_type_invariant(&*self);
        }
        let mut out = Vec::with_capacity(self.len);
        collect_descending(&self.root, py, &mut out);
        proof {
            assert(Seq::<Py<PyAny>>::empty() + entry_values(self.entries()).reverse() =~= entry_values(self.entries()).reverse());
        }
        out
    }

    /// Returns the (value, key) pairs in left-to-right order.
    pub fn in_order_entries(&self, py: Python<'_>) -> (r: Vec<(Py<PyAny>, Py<PyAny>)>)
        ensures
            r@ == entry_pairs(self.entries()),
    {
        proof {
            use_type_invariant(&*self);
        }
        let mut out = Vec::with_capacity(self.len);
        collect_entries(&self.root, py, &mut out);
        proof {
            assert(Seq::<(Py<PyAny>, Py<PyAny>)>::empty() + entry_pairs(self.entries()) =~= entry_pairs(self.entries()));
        }
        out
    }

    /// The values in root-left-right order.
    pub closed spec fn spec_pre_order(&self) -> Seq<Py<PyAny>> {
        entry_values(pre_values(self.root))
    }

    /// The values in left-right-root order.
    pub closed spec fn spec_post_order(&self) -> Seq<Py<PyAny>> {
        entry_values(post_values(self.root))
    }

    /// The values level by level, each level left to right.
    pub closed spec fn spec_level_order(&self) -> Seq<Py<PyAny>> {
        entry_values(level_order_values(self.root))
    }

    /// Returns the values in root-left-right order.
    pub fn pre_order(&self, py: Python<'_>) -> (r: Vec<Py<PyAny>>)
        ensures
            r@ == self.spec_pre_order(),
    {
        proof {
            use_type_invariant(&*self);
        }
        let mut out = Vec::with_capacity(self.len);
        collect_pre_order(&self.root, py, &mut out);
        proof {
            assert(Seq::<Py<PyAny>>::empty() + self.spec_pre_order() =~= self.spec_pre_order());
        }
        out
    }

    /// Returns the values in left-right-root order.
    pub fn post_order(&self, py: Python<'_>) -> (r: Vec<Py<PyAny>>)
        ensures
            r@ == self.spec_post_order(),
    {
        proof {
            use_type_invariant(&*self);
        }
        let mut out = Vec::with_capacity(self.len);
        collect_post_order(&self.root, py, &mut out);
        proof {
            assert(Seq::<Py<PyAny>>::empty() + self.spec_post_order() =~= self.spec_post_order());
        }
        out
    }

    /// Returns the values breadth-first, one tree level at a time.
    pub fn level_order(&self, py: Python<'_>) -> (r: Vec<Py<PyAny>>)
        ensures
            r@ == self.spec_level_order(),
    {
        proof {
            use_type_invariant(&*self);
        }
        let mut out = Vec::with_capacity(self.len);
        let mut queue: VecDeque<&AVLNode<Entry>> = VecDeque::new();
        if let Some(root) = &self.root {
            queue.push_back(&**root);
        }
        proof {
            match &self.root {
                Some(b) => {
                    assert(queue@ =~= seq![&**b]);
                },
                None => {
                    lemma_children_lower(queue@);
                },
            }
        }
        loop
            invariant
                out@ + entry_values(level_values(queue@)) == self.spec_level_order(),
            decreases level_values(queue@).len(),
        {
            let ghost q0 = queue@;
            let node = match queue.pop_front() {
                Some(node) => node,
                None => {
                    proof {
                        assert(out@ + entry_values(level_values(queue@)) =~= out@);
                    }
                    return out;
                },
            };
            let ghost rest = queue@;
            out.push(clone_object(py, &node.value.value));
            if let Some(left) = &node.left {
                queue.push_back(&**left);
            }
            if let Some(right) = &node.right {
                queue.push_back(&**right);
            }
            proof {
                assert(q0 =~= seq![node] + rest);
                lemma_level_split(seq![node], rest);
                assert(seq![node].drop_last() =~= Seq::<&AVLNode<Entry>>::empty());
                lemma_children_lower(seq![node].drop_last());
                assert(children(seq![node]) =~= kids(node));
                assert(queue@ =~= rest + kids(node));
                assert(roots(seq![node]) =~= seq![node.value]);
                assert(level_values(q0) =~= seq![node.value] + level_values(queue@));
                assert(entry_values(level_values(q0)) =~= seq![node.value.spec_value()] + entry_values(level_values(queue@)));
                assert(out@ + entry_values(level_values(queue@)) =~= self.spec_level_order());
            }
        }
    }

    /// Where the walk towards the lower bound `start` in this tree ends, when
    /// its comparisons were `trace`: see `seek_from`.
    pub closed spec fn lower_walk(&self, start: Py<PyAny>, trace: Seq<Comparison>) -> Option<SeekEnd> {
        seek_from(self.root, start, trace)
    }

    /// Where the walk towards the upper bound `end` in this tree ends, when
    /// its comparisons were `trace`: see `seek_to`.
    pub closed spec fn upper_walk(&self, end: Py<PyAny>, trace: Seq<Comparison>) -> Option<SeekEnd> {
        seek_to(self.root, end, trace)
    }

    /// Returns at most `count` values, ascending from an inclusive lower-bound
    /// key, together with the comparisons it asked of Python.
    ///
    /// If `start` is absent, collection begins at the first greater key. The
    /// walk towards `start` decides where the run of values begins; where one
    /// of its comparisons raises, the error is returned.
    pub fn iter_from(&self, py: Python<'_>, start: &Py<PyAny>, count: usize) -> (r: (Result<Vec<Py<PyAny>>, PyErr>, ComparisonLog))
        ensures
            count == 0 ==> r.1.made().len() == 0 && (r.0 matches Ok(v) && v@.len() == 0),
            count > 0 ==> match self.lower_walk(*start, r.1.made()) {
                Some(SeekEnd::At(k)) => 0 <= k <= self.entries().len() && (r.0 matches Ok(v) && v@ == first_n(
                    entry_values(self.entries().skip(k)),
                    count as nat,
                )),
                Some(SeekEnd::Raised) => fails_with(r.0, r.1.made().last()),
                None => false,
            },
            (forall|i: int| 0 <= i < r.1.made().len() ==> #[trigger] r.1.made()[i].outcome() is Some) ==> r.0 is Ok,
            r.1.made().len() <= self.spec_height(),
            forall|rank: spec_fn(Py<PyAny>) -> int|
                #![trigger answers_follow(r.1.made(), rank)]
                ranked(self.entries(), rank) && answers_follow(r.1.made(), rank) ==> (r.0 matches Ok(v) ==> v@ == first_n(
                    entry_values(self.entries().filter(ranks_at_or_above(rank(*start), rank))),
                    count as nat,
                )),
            self.entries().len() == 0 ==> r.1.made().len() == 0 && (r.0 matches Ok(v) && v@.len() == 0),
    {
        proof {
            use_type_invariant(&*self);
        }
        let mut log = ComparisonLog::new();
        let mut out = Vec::with_capacity(if count < self.len { count } else { self.len });
        if count == 0 {
            proof {
                assert(out@ =~= first_n(entry_values(self.entries().skip(0)), count as nat));
            }
            proof {
                assert forall|rank: spec_fn(Py<PyAny>) -> int|
                    #![trigger answers_follow(log.made(), rank)]
                    ranked(self.entries(), rank) && answers_follow(log.made(), rank) implies out@ == first_n(
                    entry_values(self.entries().filter(ranks_at_or_above(rank(*start), rank))),
                    count as nat,
                ) by {
                    assert(first_n(entry_values(self.entries().filter(ranks_at_or_above(rank(*start), rank))), 0) =~= Seq::<Py<PyAny>>::empty());
                }
            }
            return (Ok(out), log);
        }
        let mut stack: Vec<&AVLNode<Entry>> = Vec::new();
        let (found, trace) = descend_from(&self.root, py, start, &mut stack, &mut log);
        proof {
            assert(log.made() =~= trace@);
            lemma_seek_end(self.root, *start, trace@);
        }
        match found {
            Err(e) => {
                return (Err(e), log);
            },
            Ok(()) => {},
        }
        let ghost k: int = match seek_from(self.root, *start, trace@) {
            Some(SeekEnd::At(k)) => k,
            _ => 0,
        };
        proof {
            assert(ascending_from(Seq::<&AVLNode<Entry>>::empty()) == Seq::<Entry>::empty());
            assert(self.entries().skip(k) + Seq::<Entry>::empty() =~= self.entries().skip(k));
        }
        let ghost suffix = self.entries().skip(k);
        proof {
            assert(ascending_from(stack@) =~= suffix);
        }
        while out.len() < count && stack.len() > 0
            invariant
                log.made() == trace@,
                suffix == self.entries().skip(k),
                out@.len() <= count,
                out@.len() <= suffix.len(),
                out@ == entry_values(suffix.take(out@.len() as int)),
                ascending_from(stack@) == suffix.skip(out@.len() as int),
            decreases suffix.len() - out@.len(),
        {
            let ghost s0 = stack@;
            let current = stack.pop().unwrap();
            let ghost popped = stack@;
            proof {
                assert(popped == s0.drop_last());
                assert(ascending_from(s0) == seq![current.value] + values(current.right) + ascending_from(popped));
                assert(suffix.skip(out@.len() as int)[0] == current.value);
                assert(suffix[out@.len() as int] == current.value);
            }
            out.push(clone_object(py, &current.value.value));
            let mut successor = &current.right;
            loop
                invariant
                    log.made() == trace@,
                    values(*successor) + ascending_from(stack@) == values(current.right) + ascending_from(popped),
                ensures
                    ascending_from(stack@) == values(current.right) + ascending_from(popped),
                decreases real_height(*successor),
            {
                let next = match successor {
                    Some(next) => next,
                    None => {
                        proof {
                            assert(values(*successor) + ascending_from(stack@) =~= ascending_from(stack@));
                        }
                        break;
                    },
                };
                let ghost before = stack@;
                stack.push(next);
                proof {
                    assert(stack@.drop_last() == before);
                    assert(values(*successor) == values(next.left) + seq![next.value] + values(next.right));
                    assert(values(next.left) + ascending_from(stack@) =~= values(*successor) + ascending_from(before));
                }
                successor = &next.left;
            }
            proof {
                let m: int = out@.len() - 1;
                assert(ascending_from(s0) == suffix.skip(m));
                assert(ascending_from(s0).drop_first() =~= values(current.right) + ascending_from(popped));
                assert(suffix.skip(m).drop_first() =~= suffix.skip(m + 1));
                assert(ascending_from(stack@) =~= suffix.skip(m + 1));
                assert(suffix.take(m + 1) =~= suffix.take(m).push(current.value));
                assert(entry_values(suffix.take(m + 1)) =~= entry_values(suffix.take(m)).push(current.value.spec_value()));
            }
        }
        proof {
            if out@.len() < count {
                assert(out@.len() == suffix.len());
                assert(suffix.take(out@.len() as int) =~= suffix);
            } else {
                assert(entry_values(suffix.take(count as int)) =~= entry_values(suffix).take(count as int));
            }
        }
        proof {
            assert forall|rank: spec_fn(Py<PyAny>) -> int|
                #![trigger answers_follow(log.made(), rank)]
                ranked(self.entries(), rank) && answers_follow(log.made(), rank) implies out@ == first_n(
                entry_values(self.entries().filter(ranks_at_or_above(rank(*start), rank))),
                count as nat,
            ) by {
                lemma_lower_walk_filter(self.root, *start, trace@, rank);
            }
        }
        (Ok(out), log)
    }

    /// Returns at most `count` values, descending from an inclusive
    /// upper-bound key, together with the comparisons it asked of Python.
    ///
    /// If `end` is absent, collection begins at the first smaller key. The
    /// walk towards `end` decides where the run of values begins; where one
    /// of its comparisons raises, the error is returned.
    pub fn iter_to(&self, py: Python<'_>, end: &Py<PyAny>, count: usize) -> (r: (Result<Vec<Py<PyAny>>, PyErr>, ComparisonLog))
        ensures
            count == 0 ==> r.1.made().len() == 0 && (r.0 matches Ok(v) && v@.len() == 0),
            count > 0 ==> match self.upper_walk(*end, r.1.made()) {
                Some(SeekEnd::At(k)) => 0 <= k <= self.entries().len() && (r.0 matches Ok(v) && v@ == first_n(
                    entry_values(self.entries().take(k)).reverse(),
                    count as nat,
                )),
                Some(SeekEnd::Raised) => fails_with(r.0, r.1.made().last()),
                None => false,
            },
            (forall|i: int| 0 <= i < r.1.made().len() ==> #[trigger] r.1.made()[i].outcome() is Some) ==> r.0 is Ok,
            r.1.made().len() <= self.spec_height(),
            forall|rank: spec_fn(Py<PyAny>) -> int|
                #![trigger answers_follow(r.1.made(), rank)]
                ranked(self.entries(), rank) && answers_follow(r.1.made(), rank) ==> (r.0 matches Ok(v) ==> v@ == first_n(
                    entry_values(self.entries().filter(ranks_at_or_below(rank(*end), rank))).reverse(),
                    count as nat,
                )),
            self.entries().len() == 0 ==> r.1.made().len() == 0 && (r.0 matches Ok(v) && v@.len() == 0),
    {
        proof {
            use_type_invariant(&*self);
        }
        let mut log = ComparisonLog::new();
        let mut out = Vec::with_capacity(if count < self.len { count } else { self.len });
        if count == 0 {
            proof {
                assert(out@ =~= first_n(entry_values(self.entries().take(0)).reverse(), count as nat));
            }
            proof {
                assert forall|rank: spec_fn(Py<PyAny>) -> int|
                    #![trigger answers_follow(log.made(), rank)]
                    ranked(self.entries(), rank) && answers_follow(log.made(), rank) implies out@ == first_n(
                    entry_values(self.entries().filter(ranks_at_or_below(rank(*end), rank))).reverse(),
                    count as nat,
                ) by {
                    assert(first_n(entry_values(self.entries().filter(ranks_at_or_below(rank(*end), rank))).reverse(), 0) =~= Seq::<Py<PyAny>>::empty());
                }
            }
            return (Ok(out), log);
        }
        let mut stack: Vec<&AVLNode<Entry>> = Vec::new();
        let (found, trace) = descend_to(&self.root, py, end, &mut stack, &mut log);
        proof {
            assert(log.made() =~= trace@);
            lemma_seek_end(self.root, *end, trace@);
        }
        match found {
            Err(e) => {
                return (Err(e), log);
            },
            Ok(()) => {},
        }
        let ghost k: int = match seek_to(self.root, *end, trace@) {
            Some(SeekEnd::At(k)) => k,
            _ => 0,
        };
        proof {
            assert(descending_from(Seq::<&AVLNode<Entry>>::empty()) == Seq::<Entry>::empty());
            assert(self.entries().take(k).reverse() + Seq::<Entry>::empty() =~= self.entries().take(k).reverse());
        }
        let ghost prefix = self.entries().take(k).reverse();
        proof {
            assert(descending_from(stack@) =~= prefix);
        }
        while out.len() < count && stack.len() > 0
            invariant
                log.made() == trace@,
                prefix == self.entries().take(k).reverse(),
                out@.len() <= count,
                out@.len() <= prefix.len(),
                out@ == entry_values(prefix.take(out@.len() as int)),
                descending_from(stack@) == prefix.skip(out@.len() as int),
            decreases prefix.len() - out@.len(),
        {
            let ghost s0 = stack@;
            let current = stack.pop().unwrap();
            let ghost popped = stack@;
            proof {
                assert(popped == s0.drop_last());
                assert(descending_from(s0) == seq![current.value] + values(current.left).reverse() + descending_from(popped));
                assert(prefix.skip(out@.len() as int)[0] == current.value);
                assert(prefix[out@.len() as int] == current.value);
            }
            out.push(clone_object(py, &current.value.value));
            let mut predecessor = &current.left;
            loop
                invariant
                    log.made() == trace@,
                    values(*predecessor).reverse() + descending_from(stack@) == values(current.left).reverse() + descending_from(popped),
                ensures
                    descending_from(stack@) == values(current.left).reverse() + descending_from(popped),
                decreases real_height(*predecessor),
            {
                let next = match predecessor {
                    Some(next) => next,
                    None => {
                        proof {
                            assert(values(*predecessor).reverse() + descending_from(stack@) =~= descending_from(stack@));
                        }
                        break;
                    },
                };
                let ghost before = stack@;
                stack.push(next);
                proof {
                    assert(stack@.drop_last() == before);
                    assert(values(*predecessor) == values(next.left) + seq![next.value] + values(next.right));
                    assert(values(*predecessor).reverse() =~= values(next.right).reverse() + (seq![next.value] + values(next.left).reverse()));
                    assert(values(next.right).reverse() + descending_from(stack@) =~= values(*predecessor).reverse() + descending_from(before));
                }
                predecessor = &next.right;
            }
            proof {
                let m: int = out@.len() - 1;
                assert(descending_from(s0) == prefix.skip(m));
                assert(descending_from(s0).drop_first() =~= values(current.left).reverse() + descending_from(popped));
                assert(prefix.skip(m).drop_first() =~= prefix.skip(m + 1));
                assert(descending_from(stack@) =~= prefix.skip(m + 1));
                assert(prefix.take(m + 1) =~= prefix.take(m).push(current.value));
                assert(entry_values(prefix.take(m + 1)) =~= entry_values(prefix.take(m)).push(current.value.spec_value()));
            }
        }
        proof {
            assert(entry_values(prefix) =~= entry_values(self.entries().take(k)).reverse());
            if out@.len() < count {
                assert(out@.len() == prefix.len());
                assert(prefix.take(out@.len() as int) =~= prefix);
            } else {
                assert(entry_values(prefix.take(count as int)) =~= entry_values(prefix).take(count as int));
            }
        }
        proof {
            assert forall|rank: spec_fn(Py<PyAny>) -> int|
                #![trigger answers_follow(log.made(), rank)]
                ranked(self.entries(), rank) && answers_follow(log.made(), rank) implies out@ == first_n(
                entry_values(self.entries().filter(ranks_at_or_below(rank(*end), rank))).reverse(),
                count as nat,
            ) by {
                lemma_upper_walk_filter(self.root, *end, trace@, rank);
            }
        }
        (Ok(out), log)
    }

    /// How the walk for the keys between `start` and `end` in this tree ends,
    /// when its comparisons were `trace`: see `range_walk`.
    pub closed spec fn selection(
        &self,
        start: Option<&Py<PyAny>>,
        end: Option<&Py<PyAny>>,
        include_start: bool,
        include_end: bool,
        trace: RangeTrace,
    ) -> Option<RangeEnd> {
        range_walk(self.root, start, end, include_start, include_end, trace)
    }

    /// Returns the values whose keys fall between optional endpoints,
    /// together with the log of the comparisons it asked of Python, and the
    /// walk's comparisons arranged by node.
    ///
    /// Endpoints are already-extracted keys; `include_start` and
    /// `include_end` say whether each is inclusive. When both endpoints are
    /// given, the start is compared with the end first: where Python orders
    /// the start after the end, a `ValueError` is returned, and where that
    /// comparison raises, its error; either way no key of the tree is
    /// compared. Otherwise the walk decides which values come back, in
    /// left-to-right order.
    pub fn range(
        &self,
        py: Python<'_>,
        start: Option<&Py<PyAny>>,
        end: Option<&Py<PyAny>>,
        include_start: bool,
        include_end: bool,
    ) -> (r: (Result<Vec<Py<PyAny>>, PyErr>, ComparisonLog, Ghost<RangeTrace>))
        ensures
            r.1.made() == recorded(bounds_record(start, end, r.1.made())) + range_records(r.2@),
            match (start, end) {
                (Some(s), Some(e)) => r.1.made().len() > 0 && r.1.made()[0].left() == *s && r.1.made()[0].right() == *e,
                _ => true,
            },
            bounds_refused(bounds_record(start, end, r.1.made())) ==> {
                &&& r.2@ is Empty
                &&& r.0 is Err
                &&& r.1.made()[0].outcome() is None ==> fails_with(r.0, r.1.made()[0])
            },
            !bounds_refused(bounds_record(start, end, r.1.made())) ==> match self.selection(
                start,
                end,
                include_start,
                include_end,
                r.2@,
            ) {
                Some(RangeEnd::Kept(kept)) => (r.0 matches Ok(v) && v@ == kept),
                Some(RangeEnd::Raised) => fails_with(r.0, r.1.made().last()),
                None => false,
            },
            start is None && end is None ==> (r.0 matches Ok(v) && v@ == entry_values(self.entries())),
            (forall|i: int| 0 <= i < r.1.made().len() ==> #[trigger] r.1.made()[i].outcome() is Some) && !(bounds_record(
                start,
                end,
                r.1.made(),
            ) matches Some(c) && c.outcome() == Some(Relation::Greater)) ==> r.0 is Ok,
            forall|rank: spec_fn(Py<PyAny>) -> int|
                #![trigger range_answers_follow(r.2@, rank)]
                ranked(self.entries(), rank) && answer_follows(bounds_record(start, end, r.1.made()), rank)
                    && range_answers_follow(r.2@, rank) ==> {
                    &&& (r.0 matches Ok(v) ==> v@ == values_within(self.entries(), start, end, include_start, include_end, rank))
                    &&& (bounds_reversed(start, end, rank) ==> r.0 is Err)
                    &&& (r.0 is Err ==> bounds_reversed(start, end, rank) || some_raised(r.1.made()))
                },
    {
        proof {
            use_type_invariant(&*self);
        }
        let mut log = ComparisonLog::new();
        match (start, end) {
            (Some(s), Some(e)) => {
                let answer = log.compare(py, s, e);
                proof {
                    assert(log.made() =~= seq![log.made()[0]]);
                    assert(recorded(bounds_record(start, end, log.made())) + range_records(RangeTrace::Empty) =~= log.made());
                }
                match answer {
                    Err(err) => {
                        proof {
                            assert forall|rank: spec_fn(Py<PyAny>) -> int|
                                #![trigger range_answers_follow(RangeTrace::Empty, rank)]
                                ranked(self.entries(), rank) && answer_follows(bounds_record(start, end, log.made()), rank)
                    && range_answers_follow(RangeTrace::Empty, rank) implies {
                    &&& (Err::<Vec<Py<PyAny>>, PyErr>(err) matches Ok(v) ==> v@ == values_within(self.entries(), start, end, include_start, include_end, rank))
                    &&& (bounds_reversed(start, end, rank) ==> Err::<Vec<Py<PyAny>>, PyErr>(err) is Err)
                    &&& (Err::<Vec<Py<PyAny>>, PyErr>(err) is Err ==> bounds_reversed(start, end, rank) || some_raised(log.made()))
                } by {
                                assert(log.made()[0].outcome() is None);
                            }
                        }
                        return (Err(err), log, Ghost(RangeTrace::Empty));
                    },
                    Ok(Relation::Greater) => {
                        let err = range_bounds_error();
                        proof {
                            assert forall|rank: spec_fn(Py<PyAny>) -> int|
                                #![trigger range_answers_follow(RangeTrace::Empty, rank)]
                                ranked(self.entries(), rank) && answer_follows(bounds_record(start, end, log.made()), rank)
                    && range_answers_follow(RangeTrace::Empty, rank) implies {
                    &&& (Err::<Vec<Py<PyAny>>, PyErr>(err) matches Ok(v) ==> v@ == values_within(self.entries(), start, end, include_start, include_end, rank))
                    &&& (bounds_reversed(start, end, rank) ==> Err::<Vec<Py<PyAny>>, PyErr>(err) is Err)
                    &&& (Err::<Vec<Py<PyAny>>, PyErr>(err) is Err ==> bounds_reversed(start, end, rank) || some_raised(log.made()))
                } by {
                                assert(log.made()[0].outcome() == Some(Relation::Greater));
                            }
                        }
                        return (Err(err), log, Ghost(RangeTrace::Empty));
                    },
                    Ok(_) => {},
                }
            },
            _ => {},
        }
        let ghost log0 = log.made();
        proof {
            assert(log0 =~= recorded(bounds_record(start, end, log0)));
        }
        let mut out = Vec::new();
        let (walked, trace) = collect_range(&self.root, py, start, end, include_start, include_end, &mut out, &mut log);
        proof {
            assert(Seq::<Py<PyAny>>::empty() + entry_values(self.entries()) =~= entry_values(self.entries()));
            lemma_range_raised_records(self.root, start, end, include_start, include_end, trace@);
            if log0.len() > 0 {
                assert(log.made()[0] == log0[0]);
            }
            assert(bounds_record(start, end, log.made()) == bounds_record(start, end, log0));
            match range_walk(self.root, start, end, include_start, include_end, trace@) {
                Some(RangeEnd::Kept(kept)) => {
                    assert(Seq::<Py<PyAny>>::empty() + kept =~= kept);
                },
                Some(RangeEnd::Raised) => {
                    assert(log.made().last() == range_records(trace@).last());
                },
                _ => {},
            }
        }
        let result = match walked {
            Err(e) => Err(e),
            Ok(()) => Ok(out),
        };
        proof {
            assert forall|rank: spec_fn(Py<PyAny>) -> int|
                #![trigger range_answers_follow(trace@, rank)]
                ranked(self.entries(), rank) && answer_follows(bounds_record(start, end, log.made()), rank)
                    && range_answers_follow(trace@, rank) implies {
                    &&& (result matches Ok(v) ==> v@ == values_within(self.entries(), start, end, include_start, include_end, rank))
                    &&& (bounds_reversed(start, end, rank) ==> result is Err)
                    &&& (result is Err ==> bounds_reversed(start, end, rank) || some_raised(log.made()))
                } by {
                lemma_range_walk_ranked(self.root, start, end, include_start, include_end, trace@, rank);
                if result is Err {
                    assert(log.made().last().outcome() is None);
                    assert(log.made()[log.made().len() - 1] == log.made().last());
                }
            }
        }
        (result, log, trace)
    }

    /// Builds a tree from `values`, taking each value's key with `key` and
    /// inserting the values in turn; of values whose keys compare equal, the
    /// first is kept. Stops at the first error, from taking a key or from a
    /// comparison, and returns it.
    ///
    /// Gives back, with the result, the log of each insertion's comparisons
    /// and the entries that were made, one per value whose key was taken.
    pub fn from_values(py: Python<'_>, values: Vec<Py<PyAny>>, key: &KeyExtractor) -> (r: (
        Result<Self, PyErr>,
        Vec<ComparisonLog>,
        Ghost<Seq<Entry>>,
    ))
        ensures
            r.2@.len() == r.1@.len() <= values@.len(),
            entry_values(r.2@) == values@.take(r.2@.len() as int),
            key is Identity ==> forall|i: int| 0 <= i < r.2@.len() ==> #[trigger] r.2@[i].spec_key() == values@[i],
            forall|i: int|
                0 <= i < r.2@.len() ==> #[trigger] key_of(*key, values@[i], Ok::<Py<PyAny>, PyErr>(r.2@[i].spec_key())),
            match r.0 {
                Ok(tree) => {
                    &&& r.2@.len() == values@.len()
                    &&& built_in_turn(None, r.2@, logs_made(r.1@)) == Some(tree.spec_root())
                },
                Err(_) => {
                    // The key of the next value could not be taken...
                    ||| r.2@.len() < values@.len() && built_in_turn(None, r.2@, logs_made(r.1@)) is Some && (r.0 matches Err(
                        e,
                    ) && key_of(*key, values@[r.2@.len() as int], Err::<Py<PyAny>, PyErr>(e)))
                    // ...or the last insertion's search raised that error.
                    ||| r.2@.len() > 0 && (built_in_turn(None, r.2@.drop_last(), logs_made(r.1@).drop_last()) matches Some(
                        before,
                    ) && key_walk(before, r.2@.last().spec_key(), r.1@.last().made()) == Some(WalkEnd::Raised)
                        && fails_with(r.0, r.1@.last().made().last()))
                },
            },
    {
        let ghost vs = values@;
        let count = values.len();
        let mut tree = PythonAvlTree::new();
        let mut logs: Vec<ComparisonLog> = Vec::with_capacity(count);
        let ghost mut entries: Seq<Entry> = Seq::empty();
        proof {
            assert(logs_made(logs@) =~= Seq::<Seq<Comparison>>::empty());
            assert(entry_values(entries) =~= vs.take(0));
        }
        for value in it: values
            invariant
                it.seq() == vs,
                it.index() <= vs.len(),
                vs.len() <= usize::MAX,
                entries.len() == logs@.len() == it.index(),
                entry_values(entries) == vs.take(it.index() as int),
                key is Identity ==> forall|i: int| 0 <= i < entries.len() ==> #[trigger] entries[i].spec_key() == vs[i],
                forall|i: int|
                    0 <= i < entries.len() ==> #[trigger] key_of(*key, vs[i], Ok::<Py<PyAny>, PyErr>(entries[i].spec_key())),
                built_in_turn(None, entries, logs_made(logs@)) == Some(tree.spec_root()),
                tree.entries().len() <= it.index(),
        {
            proof {
                assert(vs[it.index() as int] == value);
            }
            let extracted = match key.extract(py, &value) {
                Ok(extracted) => extracted,
                Err(e) => {
                    return (Err(e), logs, Ghost(entries));
                },
            };
            let entry = Entry::new(value, extracted);
            let ghost added = entry;
            let ghost before = tree.spec_root();
            let ghost before_entries = entries;
            let ghost before_logs = logs@;
            proof {
                use_type_invariant(&tree);
            }
            let (inserted, log) = tree.insert(py, entry);
            let ghost made = log.made();
            logs.push(log);
            proof {
                entries = entries.push(added);
                assert(entries.drop_last() =~= before_entries);
                assert(logs_made(logs@).drop_last() =~= logs_made(before_logs));
                assert(logs_made(logs@).last() == made);
                assert(entry_values(entries) =~= vs.take(it.index() + 1));
                assert(entries.last() == added);
            }
            match inserted {
                Err(e) => {
                    return (Err(e), logs, Ghost(entries));
                },
                Ok(_) => {},
            }
        }
        proof {
            assert(vs.take(vs.len() as int) =~= vs);
        }
        (Ok(tree), logs, Ghost(entries))
    }

    /// Builds a tree from entries given in strictly ascending key order.
    ///
    /// Nodes are allocated directly in a balanced shape: no comparison is made,
    /// so the order of `entries` becomes the tree's order.
    pub fn from_sorted(entries: Vec<Entry>) -> (r: Self)
        ensures
            r.wf(),
            r.entries() == entries@,
    {
        let len: usize = entries.len();
        PythonAvlTree { root: build_balanced(entries), len }
    }

    /// Returns the number of unique keys.
    pub fn len(&self) -> (r: usize)
        ensures
            r == self.entries().len(),
    {
        proof {
            use_type_invariant(&*self);
        }
        self.len
    }

    /// Returns whether the tree holds no entries.
    pub fn is_empty(&self) -> (r: bool)
        ensures
            r == (self.entries().len() == 0),
    {
        proof {
            use_type_invariant(&*self);
        }
        self.len == 0
    }

    /// Returns the tree height, where an empty tree has height zero.
    pub fn height(&self) -> (r: usize)
        ensures
            r == self.spec_height(),
    {
        proof {
            use_type_invariant(&*self);
        }
        proof {
            lemma_cached_height(self.root);
        }
        crate::node::height(&self.root)
    }

    /// Removes every entry.
    pub fn clear(&mut self)
        ensures
            final(self).wf(),
            final(self).entries() == Seq::<Entry>::empty(),
    {
        *self = PythonAvlTree { root: None, len: 0 };
    }
}

impl PythonAvlTree {
    /// The tree's representation: `AVLTree([` and `])` around Python's
    /// `repr` of each value in ascending key order, with `", "` between each
    /// two. The first error a `repr` raises is returned.
    pub fn repr(&self, py: Python<'_>) -> (r: Result<String, PyErr>)
        ensures
            r matches Ok(text) ==> exists|parts: Seq<String>|
                #![trigger texts(parts)]
                reprs_of(entry_values(self.entries()), parts) && text@ == "AVLTree(["@ + joined(texts(parts)) + "])"@,
            r matches Err(e) ==> exists|i: int|
                0 <= i < self.entries().len() && #[trigger] shown(
                    entry_values(self.entries())[i],
                    Err::<String, PyErr>(e),
                ),
            self.entries().len() == 0 ==> (r matches Ok(text) && text@ == "AVLTree(["@ + joined(texts(Seq::empty()))
                + "])"@),
    {
        let values = self.in_order(py);
        let ghost objects = values@;
        let mut parts: Vec<String> = Vec::with_capacity(values.len());
        let mut i: usize = 0;
        while i < values.len()
            invariant
                i <= values@.len(),
                parts@.len() == i,
                values@ == objects,
                objects == entry_values(self.entries()),
                forall|j: int| 0 <= j < i ==> #[trigger] shown(objects[j], Ok::<String, PyErr>(parts@[j])),
            decreases values@.len() - i,
        {
            match ask_repr(py, &values[i]) {
                Ok(text) => parts.push(text),
                Err(e) => {
                    proof {
                        assert(shown(objects[i as int], Err::<String, PyErr>(e)));
                    }
                    return Err(e);
                },
            }
            i = i + 1;
        }
        let text = tree_repr(&parts);
        proof {
            if self.entries().len() == 0 {
                assert(parts@ =~= Seq::<String>::empty());
            }
            assert(reprs_of(objects, parts@));
        }
        Ok(text)
    }
}

/// `parts[i]` is the text Python gave back when asked for the `repr` of
/// `objects[i]`, for each `i`.
pub open spec fn reprs_of(objects: Seq<Py<PyAny>>, parts: Seq<String>) -> bool {
    &&& parts.len() == objects.len()
    &&& forall|i: int| 0 <= i < objects.len() ==> #[trigger] shown(objects[i], Ok::<String, PyErr>(parts[i]))
}

/// The texts in `parts`, with `", "` between each two.
pub open spec fn joined(parts: Seq<Seq<char>>) -> Seq<char>
    decreases parts.len(),
{
    if parts.len() == 0 {
        Seq::empty()
    } else if parts.len() == 1 {
        parts[0]
    } else {
        joined(parts.drop_last()) + ", "@ + parts.last()
    }
}

/// The texts of a sequence of strings.
pub open spec fn texts(parts: Seq<String>) -> Seq<Seq<char>> {
    parts.map_values(|p: String| p@)
}

/// The representation of a tree whose values, in ascending key order, have
/// the representations `parts`: `AVLTree([` and `])` around them, with
/// `", "` between each two.
pub fn tree_repr(parts: &Vec<String>) -> (r: String)
    ensures
        r@ == "AVLTree(["@ + joined(texts(parts@)) + "])"@,
{
    let mut out = String::from_str("AVLTree([");
    let mut i: usize = 0;
    while i < parts.len()
        invariant
            i <= parts.len(),
            out@ == "AVLTree(["@ + joined(texts(parts@.take(i as int))),
        decreases parts.len() - i,
    {
        let ghost before = out@;
        if i > 0 {
            out.append(", ");
        }
        out.append(parts[i].as_str());
        proof {
            let done = parts@.take(i as int);
            let next = parts@.take(i + 1);
            assert(next.drop_last() =~= done);
            assert(texts(next).drop_last() =~= texts(done));
            assert(texts(next).last() == parts@[i as int]@);
            if i == 0 {
                assert(texts(next) =~= seq![parts@[0]@]);
                assert(texts(done) =~= Seq::<Seq<char>>::empty());
                assert(out@ =~= "AVLTree(["@ + joined(texts(next)));
            } else {
                assert(out@ =~= "AVLTree(["@ + joined(texts(next)));
            }
        }
        i = i + 1;
    }
    out.append("])");
    proof {
        assert(parts@.take(parts@.len() as int) =~= parts@);
    }
    out
}

/// Where the tree's keys ascend by `rank` and Python answered each
/// comparison of a search as `rank` orders the keys, the search finds the
/// entry whose key ranks as `key` does; where it finds none, `key` splits the
/// entries at the index where it ended, so no key ranks as `key` does.
pub proof fn law_search_follows_rank(
    tree: &PythonAvlTree,
    key: Py<PyAny>,
    trace: Seq<Comparison>,
    rank: spec_fn(Py<PyAny>) -> int,
)
    requires
        ranked(tree.entries(), rank),
        answers_follow(trace, rank),
    ensures
        match tree.walk(key, trace) {
            Some(WalkEnd::Found(i)) => 0 <= i < tree.entries().len() && key_rank(tree.entries(), i, rank) == rank(key),
            Some(WalkEnd::Absent(k)) => splits_at(tree.entries(), k, rank(key), rank),
            _ => true,
        },
{
    lemma_key_walk_ranked(tree.root, key, trace, rank);
}

/// An entry inserted where its key splits ascending keys keeps them
/// ascending.
pub proof fn law_insert_keeps_rank(entries: Seq<Entry>, k: int, entry: Entry, rank: spec_fn(Py<PyAny>) -> int)
    requires
        ranked(entries, rank),
        splits_at(entries, k, rank(entry.spec_key()), rank),
    ensures
        ranked(entries.insert(k, entry), rank),
{
    let after = entries.insert(k, entry);
    assert forall|i: int, j: int| 0 <= i < j < after.len() implies key_rank(after, i, rank) < key_rank(after, j, rank) by {
        if i < k {
            assert(after[i] == entries[i]);
            assert(key_rank(after, i, rank) == key_rank(entries, i, rank));
        } else if i > k {
            assert(after[i] == entries[i - 1]);
            assert(key_rank(after, i, rank) == key_rank(entries, i - 1, rank));
        }
        if j < k {
            assert(after[j] == entries[j]);
            assert(key_rank(after, j, rank) == key_rank(entries, j, rank));
        } else if j > k {
            assert(after[j] == entries[j - 1]);
            assert(key_rank(after, j, rank) == key_rank(entries, j - 1, rank));
        }
    }
}

/// Where the keys ascend by `rank` and Python's answers follow `rank`, a
/// search for the key of an entry that an insertion put in place finds that
/// very entry, unless a comparison raised.
pub proof fn law_search_finds_inserted(
    before: &PythonAvlTree,
    after: &PythonAvlTree,
    entry: Entry,
    k: int,
    key: Py<PyAny>,
    trace: Seq<Comparison>,
    rank: spec_fn(Py<PyAny>) -> int,
)
    requires
        ranked(before.entries(), rank),
        splits_at(before.entries(), k, rank(entry.spec_key()), rank),
        after.entries() == before.entries().insert(k, entry),
        rank(key) == rank(entry.spec_key()),
        answers_follow(trace, rank),
    ensures
        after.walk(key, trace) matches Some(WalkEnd::Found(i)) ==> i == k && after.entries()[i] == entry,
        !(after.walk(key, trace) matches Some(WalkEnd::Absent(_))),
{
    law_insert_keeps_rank(before.entries(), k, entry, rank);
    lemma_key_walk_ranked(after.root, key, trace, rank);
    let entries = after.entries();
    assert(entries[k] == entry);
    assert(key_rank(entries, k, rank) == rank(key));
    match after.walk(key, trace) {
        Some(WalkEnd::Found(i)) => {
            if i < k {
                assert(key_rank(entries, i, rank) < key_rank(entries, k, rank));
            } else if i > k {
                assert(key_rank(entries, k, rank) < key_rank(entries, i, rank));
            }
        },
        Some(WalkEnd::Absent(j)) => {
            if k < j {
                assert(key_rank(entries, k, rank) < rank(key));
            } else {
                assert(rank(key) < key_rank(entries, k, rank));
            }
        },
        _ => {},
    }
}

/// Where the tree's keys ascend by `rank` and Python answered each
/// comparison of the walk towards a lower bound as `rank` orders the keys,
/// the walk ends at the first entry whose key ranks at or above `start`.
pub proof fn law_lower_walk_follows_rank(
    tree: &PythonAvlTree,
    start: Py<PyAny>,
    trace: Seq<Comparison>,
    rank: spec_fn(Py<PyAny>) -> int,
)
    requires
        ranked(tree.entries(), rank),
        answers_follow(trace, rank),
    ensures
        tree.lower_walk(start, trace) matches Some(SeekEnd::At(k)) ==> first_at_or_above(tree.entries(), k, rank(start), rank),
{
    lemma_seek_from_ranked(tree.root, start, trace, rank);
}

/// Where the tree's keys ascend by `rank` and Python answered each
/// comparison of the walk towards an upper bound as `rank` orders the keys,
/// the walk ends after the last entry whose key ranks at or below `end`.
pub proof fn law_upper_walk_follows_rank(
    tree: &PythonAvlTree,
    end: Py<PyAny>,
    trace: Seq<Comparison>,
    rank: spec_fn(Py<PyAny>) -> int,
)
    requires
        ranked(tree.entries(), rank),
        answers_follow(trace, rank),
    ensures
        tree.upper_walk(end, trace) matches Some(SeekEnd::At(k)) ==> past_at_or_below(tree.entries(), k, rank(end), rank),
{
    lemma_seek_to_ranked(tree.root, end, trace, rank);
}

/// Where the tree's keys ascend by `rank` and Python answered each
/// comparison of a range walk as `rank` orders the keys, the walk keeps
/// exactly the values whose keys lie between the bounds, each bound inclusive
/// or not as asked, in ascending key order.
pub proof fn law_range_follows_rank(
    tree: &PythonAvlTree,
    start: Option<&Py<PyAny>>,
    end: Option<&Py<PyAny>>,
    include_start: bool,
    include_end: bool,
    trace: RangeTrace,
    rank: spec_fn(Py<PyAny>) -> int,
)
    requires
        ranked(tree.entries(), rank),
        range_answers_follow(trace, rank),
    ensures
        tree.selection(start, end, include_start, include_end, trace) matches Some(RangeEnd::Kept(kept))
            ==> kept == values_within(tree.entries(), start, end, include_start, include_end, rank),
{
    lemma_range_walk_ranked(tree.root, start, end, include_start, include_end, trace, rank);
}

impl Default for PythonAvlTree {
    fn default() -> (r: Self)
        ensures
            r.wf(),
            r.entries() == Seq::<Entry>::empty(),
    {
        Self::new()
    }
}

} // verus!

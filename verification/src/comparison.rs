//! The questions that the Python tree puts to Python — comparisons of keys,
//! key lookups and calls, `repr` — and the records of their answers.
//!
//! A `Comparison` can only be made by `ComparisonLog::compare`, which asks
//! Python and appends the record to the log: its fields are private to this
//! module and nothing here builds one otherwise. A log's records are thus the
//! comparisons that were made through it, in order, each with the two keys
//! that were handed to Python and Python's answer, the raised error included.
//! In the same way an `Asked` or a `Shown` record can only be made by asking
//! Python, so that a contract saying such a record exists says that Python
//! was asked that question and gave that answer.

use vstd::prelude::*;
use pyo3::Py;
use pyo3::PyErr;
use pyo3::Python;
use pyo3::types::PyAny;
use pyo3::types::PyAnyMethods;
use pyo3::types::PyStringMethods;
use crate::order::Relation;

verus! {

/// Asks Python to order two keys, through pyo3's `compare` on `left`: Python
/// evaluates `==`, then `<`, then `>`, and raises when all three are false.
/// Each of these may run arbitrary Python code or raise, so nothing is
/// promised of the outcome.
#[verifier::external_body]
fn compare_keys(py: Python<'_>, left: &Py<PyAny>, right: &Py<PyAny>) -> (r: Result<Relation, PyErr>) {
    match left.bind(py).compare(right.bind(py)) {
        Ok(core::cmp::Ordering::Less) => Ok(Relation::Less),
        Ok(core::cmp::Ordering::Equal) => Ok(Relation::Equal),
        Ok(core::cmp::Ordering::Greater) => Ok(Relation::Greater),
        Err(e) => Err(e),
    }
}

/// pyo3's `getattr` on `value`: looks up the attribute `name`. The lookup
/// runs Python code (a property, `__getattr__`) and may raise, so nothing is
/// promised of the outcome.
#[verifier::external_body]
fn get_attribute(py: Python<'_>, value: &Py<PyAny>, name: &str) -> (r: Result<Py<PyAny>, PyErr>) {
    match value.bind(py).getattr(name) {
        Ok(attribute) => Ok(attribute.unbind()),
        Err(e) => Err(e),
    }
}

/// pyo3's `call1` on `callable` with `value` as the one argument. The call
/// runs Python code and may raise, so nothing is promised of the outcome.
#[verifier::external_body]
fn call_key(py: Python<'_>, callable: &Py<PyAny>, value: &Py<PyAny>) -> (r: Result<Py<PyAny>, PyErr>) {
    match callable.bind(py).call1((value.bind(py),)) {
        Ok(key) => Ok(key.unbind()),
        Err(e) => Err(e),
    }
}

/// pyo3's `repr` on `value`, as Rust text: Python's `repr(value)`, which runs
/// Python code and may raise, so nothing is promised of the outcome.
#[verifier::external_body]
fn value_repr(py: Python<'_>, value: &Py<PyAny>) -> (r: Result<String, PyErr>) {
    match value.bind(py).repr() {
        Ok(text) => match text.to_str() {
            Ok(text) => Ok(text.to_owned()),
            Err(e) => Err(e),
        },
        Err(e) => Err(e),
    }
}

/// What Python was asked about a value.
pub enum Question {
    /// Its attribute of this name.
    Attribute(Seq<char>),
    /// What this callable returns when called with the value alone.
    Call(Py<PyAny>),
}

/// One question that was put to Python about a value, and what Python gave
/// back. Only `ask_attribute` and `ask_call` make one.
pub struct Asked {
    subject: Py<PyAny>,
    question: Question,
    answer: Result<Py<PyAny>, PyErr>,
}

impl Asked {
    /// The value the question was about.
    pub closed spec fn subject(&self) -> Py<PyAny> {
        self.subject
    }

    /// What was asked.
    pub closed spec fn question(&self) -> Question {
        self.question
    }

    /// What Python gave back, or the error it raised.
    pub closed spec fn answer(&self) -> Result<Py<PyAny>, PyErr> {
        self.answer
    }
}

/// Python was asked `question` about `subject`, and gave back `answer`.
pub open spec fn answered(subject: Py<PyAny>, question: Question, answer: Result<Py<PyAny>, PyErr>) -> bool {
    exists|asked: Asked|
        #![trigger asked.subject(), asked.question(), asked.answer()]
        asked.subject() == subject && asked.question() == question && asked.answer() == answer
}

/// Asks Python for the attribute `name` of `value`, and records the
/// question with the answer.
pub fn ask_attribute(py: Python<'_>, value: &Py<PyAny>, name: &str) -> (r: Result<Py<PyAny>, PyErr>)
    ensures
        answered(*value, Question::Attribute(name@), r),
{
    let answer = get_attribute(py, value, name);
    let ghost asked = Asked { subject: *value, question: Question::Attribute(name@), answer };
    proof {
        assert(asked.subject() == *value && asked.question() == Question::Attribute(name@) && asked.answer() == answer);
    }
    answer
}

/// Calls `callable` with `value` as its one argument, and records the
/// question with the answer.
pub fn ask_call(py: Python<'_>, callable: &Py<PyAny>, value: &Py<PyAny>) -> (r: Result<Py<PyAny>, PyErr>)
    ensures
        answered(*value, Question::Call(*callable), r),
{
    let answer = call_key(py, callable, value);
    let ghost asked = Asked { subject: *value, question: Question::Call(*callable), answer };
    proof {
        assert(asked.subject() == *value && asked.question() == Question::Call(*callable) && asked.answer() == answer);
    }
    answer
}

/// One `repr` that Python was asked for, and what it gave back. Only
/// `ask_repr` makes one.
pub struct Shown {
    subject: Py<PyAny>,
    answer: Result<String, PyErr>,
}

impl Shown {
    /// The value whose `repr` was asked for.
    pub closed spec fn subject(&self) -> Py<PyAny> {
        self.subject
    }

    /// The text Python gave back, or the error it raised.
    pub closed spec fn answer(&self) -> Result<String, PyErr> {
        self.answer
    }
}

/// Python was asked for the `repr` of `subject`, and gave back `answer`.
pub open spec fn shown(subject: Py<PyAny>, answer: Result<String, PyErr>) -> bool {
    exists|s: Shown| #![trigger s.subject(), s.answer()] s.subject() == subject && s.answer() == answer
}

/// Asks Python for the `repr` of `value`, and records the question with the
/// answer.
pub fn ask_repr(py: Python<'_>, value: &Py<PyAny>) -> (r: Result<String, PyErr>)
    ensures
        shown(*value, r),
{
    let answer = value_repr(py, value);
    let ghost record = Shown { subject: *value, answer };
    proof {
        assert(record.subject() == *value && record.answer() == answer);
    }
    answer
}

/// One comparison that was asked of Python.
pub struct Comparison {
    left: Py<PyAny>,
    right: Py<PyAny>,
    answer: Result<Relation, PyErr>,
}

impl Comparison {
    /// The key that Python was asked to order.
    pub closed spec fn left(&self) -> Py<PyAny> {
        self.left
    }

    /// The key it was ordered against.
    pub closed spec fn right(&self) -> Py<PyAny> {
        self.right
    }

    /// What Python answered: how `left` compares with `right`, or the error
    /// it raised.
    pub closed spec fn answer(&self) -> Result<Relation, PyErr> {
        self.answer
    }

    /// Python's answer, `None` where it raised.
    pub open spec fn outcome(&self) -> Option<Relation> {
        match self.answer() {
            Ok(relation) => Some(relation),
            Err(_) => None,
        }
    }
}

/// `result` is the error that `record`'s comparison raised.
pub open spec fn fails_with<A>(result: Result<A, PyErr>, record: Comparison) -> bool {
    match result {
        Ok(_) => false,
        Err(e) => record.answer() == Err::<Relation, PyErr>(e),
    }
}

/// The comparisons asked of Python through this log, in the order they were
/// made.
pub struct ComparisonLog {
    made: Ghost<Seq<Comparison>>,
}

impl ComparisonLog {
    /// The comparisons made through this log, in order.
    pub closed spec fn made(&self) -> Seq<Comparison> {
        self.made@
    }

    /// A log of no comparison.
    pub fn new() -> (r: Self)
        ensures
            r.made() == Seq::<Comparison>::empty(),
    {
        ComparisonLog { made: Ghost(Seq::empty()) }
    }

    /// Asks Python how `left` compares with `right`, and records the question
    /// and the answer at the end of the log.
    pub fn compare(&mut self, py: Python<'_>, left: &Py<PyAny>, right: &Py<PyAny>) -> (r: Result<Relation, PyErr>)
        ensures
            final(self).made() == old(self).made().push(final(self).made().last()),
            final(self).made().last().left() == *left,
            final(self).made().last().right() == *right,
            final(self).made().last().answer() == r,
    {
        let answer = compare_keys(py, left, right);
        let ghost record = Comparison { left: *left, right: *right, answer };
        self.made = Ghost(self.made@.push(record));
        answer
    }
}

} // verus!

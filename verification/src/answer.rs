//! The outcome of evaluating an expression: one value, or several equally
//! valid alternatives kept in a fixed order.

use crate::fanout::{
    binary_run, gathered, lemma_pairing_at, lemma_spliced_push, pairings, spliced, unary_run,
};
use vstd::prelude::*;

verus! {

/// An answer of an evaluation: a single value or several alternatives.
///
/// The alternatives keep the order in which they were produced. A
/// well-formed `Multiple` holds at least two values, but every operation
/// also works on one that holds fewer.
#[derive(Debug, PartialEq)]
pub enum Answer<N> {
    /// Exactly one value.
    Single(N),
    /// Several alternative values, in stored order.
    Multiple(Vec<N>),
}

/// The mathematical model of an [`Answer`].
#[verifier::ext_equal]
pub enum AnswerView<N> {
    /// Exactly one value.
    Single(N),
    /// The alternatives in stored order.
    Multiple(Seq<N>),
}

impl<N> AnswerView<N> {
    /// The values in stored order, whatever the shape; one value for a
    /// `Single`.
    pub open spec fn values(self) -> Seq<N> {
        match self {
            AnswerView::Single(n) => seq![n],
            AnswerView::Multiple(ns) => ns,
        }
    }

    /// A `Multiple` holds at least two alternatives.
    pub open spec fn well_formed(self) -> bool {
        self is Multiple ==> self.values().len() >= 2
    }

    /// The values of both operands in one flat `Multiple`: those of `self`
    /// first, then those of `other`.
    pub open spec fn joined(self, other: Self) -> Self {
        AnswerView::Multiple(self.values() + other.values())
    }
}

impl<N> View for Answer<N> {
    type V = AnswerView<N>;

    open spec fn view(&self) -> AnswerView<N> {
        match self {
            Answer::Single(n) => AnswerView::Single(*n),
            Answer::Multiple(ns) => AnswerView::Multiple(ns@),
        }
    }
}

impl<N: Clone> Clone for Answer<N> {
    /// Clones value by value: the shape and the number of values stay, and
    /// each value of the copy is a clone of the value at its position.
    fn clone(&self) -> (copy: Self)
        ensures
            copy is Single <==> self is Single,
            copy@.values().len() == self@.values().len(),
            forall|i: int|
                0 <= i < self@.values().len() ==> cloned::<N>(
                    self@.values()[i],
                    #[trigger] copy@.values()[i],
                ),
    {
        match self {
            Answer::Single(n) => Answer::Single(n.clone()),
            Answer::Multiple(ns) => Answer::Multiple(ns.clone()),
        }
    }
}

/// Moves the values of `answer` to the end of `list`, in order.
fn push_answers<N>(answer: Answer<N>, list: &mut Vec<N>)
    ensures
        final(list)@ == old(list)@ + answer@.values(),
{
    match answer {
        Answer::Single(n) => {
            list.push(n);
            assert(list@ =~= old(list)@ + seq![n]);
        },
        Answer::Multiple(ns) => {
            let mut ns = ns;
            list.append(&mut ns);
        },
    }
}

impl<N> Answer<N> {
    /// The number of values.
    fn count(&self) -> (n: usize)
        ensures
            n == self@.values().len(),
    {
        match self {
            Answer::Single(_) => 1,
            Answer::Multiple(ns) => ns.len(),
        }
    }

    /// The value at position `i`.
    fn value(&self, i: usize) -> (n: &N)
        requires
            i < self@.values().len(),
        ensures
            *n == self@.values()[i as int],
    {
        match self {
            Answer::Single(n) => n,
            Answer::Multiple(ns) => &ns[i],
        }
    }

    /// Performs an operation on all the values of an answer with all the
    /// values of another answer.
    pub fn op<E, F: Fn(&N, &N) -> Result<Answer<N>, E>>(&self, other: &Self, oper: F) -> (r: Result<
        Answer<N>,
        E,
    >)
        requires
            forall|i: int, j: int|
                0 <= i < self@.values().len() && 0 <= j < other@.values().len() ==> call_requires(
                    oper,
                    (&#[trigger] self@.values()[i], &#[trigger] other@.values()[j]),
                ),
        ensures
            self.op_yields(*other, oper, r),
    {
        if let Answer::Single(n) = self {
            if let Answer::Single(n2) = other {
                assert(self@.values()[0] == *n && other@.values()[0] == *n2);
                return oper(n, n2);
            }
        }
        let ghost a = self@.values();
        let ghost b = other@.values();
        let rows = self.count();
        let cols = other.count();
        let mut answers: Vec<N> = Vec::new();
        let ghost mut trace: Seq<Result<Answer<N>, E>> = Seq::empty();
        let mut i: usize = 0;
        while i < rows
            invariant
                a == self@.values(),
                b == other@.values(),
                rows == a.len(),
                cols == b.len(),
                !(self is Single && other is Single),
                i <= rows,
                trace.len() == i * cols,
                trace.len() <= pairings(a, b).len(),
                answers@ == spliced(trace),
                forall|k: int| 0 <= k < trace.len() ==> (#[trigger] trace[k]) is Ok,
                forall|k: int|
                    0 <= k < trace.len() ==> call_ensures(
                        oper,
                        (&pairings(a, b)[k].0, &pairings(a, b)[k].1),
                        #[trigger] trace[k],
                    ),
                forall|i: int, j: int|
                    0 <= i < a.len() && 0 <= j < b.len() ==> call_requires(
                        oper,
                        (&#[trigger] a[i], &#[trigger] b[j]),
                    ),
            decreases rows - i,
        {
            let mut j: usize = 0;
            while j < cols
                invariant
                    a == self@.values(),
                    b == other@.values(),
                    rows == a.len(),
                    cols == b.len(),
                    !(self is Single && other is Single),
                    i < rows,
                    j <= cols,
                    trace.len() == i * cols + j,
                    trace.len() <= pairings(a, b).len(),
                    answers@ == spliced(trace),
                    forall|k: int| 0 <= k < trace.len() ==> (#[trigger] trace[k]) is Ok,
                    forall|k: int|
                        0 <= k < trace.len() ==> call_ensures(
                            oper,
                            (&pairings(a, b)[k].0, &pairings(a, b)[k].1),
                            #[trigger] trace[k],
                        ),
                    forall|i: int, j: int|
                        0 <= i < a.len() && 0 <= j < b.len() ==> call_requires(
                            oper,
                            (&#[trigger] a[i], &#[trigger] b[j]),
                        ),
                decreases cols - j,
            {
                let x = self.value(i);
                let y = other.value(j);
                assert(*x == a[i as int] && *y == b[j as int]);
                let outcome = oper(x, y);
                proof {
                    lemma_pairing_at(a, b, i as int, j as int);
                    lemma_spliced_push(trace, outcome);
                    trace = trace.push(outcome);
                }
                match outcome {
                    Ok(answer) => {
                        push_answers(answer, &mut answers);
                    },
                    Err(e) => {
                        proof {
                            assert(binary_run(oper, a, b, trace));
                            assert(gathered(trace) == Err::<AnswerView<N>, E>(e));
                        }
                        return Err(e);
                    },
                }
                j += 1;
            }
            proof {
                assert(i * cols + cols == (i + 1) * cols) by (nonlinear_arith);
            }
            i += 1;
        }
        proof {
            assert(binary_run(oper, a, b, trace));
        }
        Ok(Answer::Multiple(answers))
    }

    /// Performs an operation on all the values of an answer.
    pub fn unop<E, F: Fn(&N) -> Result<Answer<N>, E>>(&self, oper: F) -> (r: Result<Answer<N>, E>)
        requires
            forall|i: int|
                0 <= i < self@.values().len() ==> call_requires(
                    oper,
                    (&#[trigger] self@.values()[i],),
                ),
        ensures
            self.unop_yields(oper, r),
    {
        match self {
            Answer::Single(n) => {
                assert(self@.values()[0] == *n);
                oper(n)
            },
            Answer::Multiple(ns) => {
                assert(self@.values() == ns@);
                let mut answers: Vec<N> = Vec::new();
                let ghost mut trace: Seq<Result<Answer<N>, E>> = Seq::empty();
                let mut i: usize = 0;
                while i < ns.len()
                    invariant
                        ns@ == self@.values(),
                        i <= ns.len(),
                        trace.len() == i,
                        answers@ == spliced(trace),
                        forall|k: int| 0 <= k < trace.len() ==> (#[trigger] trace[k]) is Ok,
                        forall|k: int|
                            0 <= k < trace.len() ==> call_ensures(
                                oper,
                                (&ns@[k],),
                                #[trigger] trace[k],
                            ),
                        forall|i: int|
                            0 <= i < ns@.len() ==> call_requires(oper, (&#[trigger] ns@[i],)),
                    decreases ns.len() - i,
                {
                    let outcome = oper(&ns[i]);
                    proof {
                        lemma_spliced_push(trace, outcome);
                        trace = trace.push(outcome);
                    }
                    match outcome {
                        Ok(answer) => {
                            push_answers(answer, &mut answers);
                        },
                        Err(e) => {
                            proof {
                                assert(unary_run(oper, ns@, trace));
                                assert(gathered(trace) == Err::<AnswerView<N>, E>(e));
                            }
                            return Err(e);
                        },
                    }
                    i += 1;
                }
                proof {
                    assert(unary_run(oper, ns@, trace));
                }
                Ok(Answer::Multiple(answers))
            },
        }
    }

    /// Whether the answer is a single value.
    pub fn is_single(&self) -> (single: bool)
        ensures
            single == (self is Single),
    {
        match self {
            Answer::Single(_) => true,
            Answer::Multiple(_) => false,
        }
    }

    /// Unwraps the single variant of an answer.
    ///
    /// Calling this on a `Multiple` is a contract violation of the caller,
    /// who has to know where several values cannot occur.
    pub fn unwrap_single(self) -> (n: N)
        requires
            self is Single,
        ensures
            self == Answer::Single(n),
    {
        match self {
            Answer::Single(n) => n,
            Answer::Multiple(_) => unreached(),
        }
    }

    /// Converts this answer into a vector of its values, in stored order.
    pub fn to_vec(self) -> (values: Vec<N>)
        ensures
            values@ == self@.values(),
    {
        match self {
            Answer::Single(n) => vec![n],
            Answer::Multiple(ns) => ns,
        }
    }

    /// Adds all the values of another answer to the values of this answer,
    /// returning a new answer that is always a `Multiple`.
    pub fn join(self, other: Self) -> (joined: Self)
        ensures
            joined@ == self@.joined(other@),
    {
        let mut new: Vec<N> = Vec::new();
        push_answers(self, &mut new);
        push_answers(other, &mut new);
        Answer::Multiple(new)
    }
}

} // verus!

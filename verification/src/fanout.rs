//! Mathematical model of applying a fallible operation to every value, or
//! every pairing of values, of multi-valued answers.
//!
//! An operation is an executable closure, so all that is known of a call is
//! that its outcome satisfies the closure's postcondition. A *trace* records
//! the outcomes of the calls that were made, in the order they were made.

use crate::answer::{Answer, AnswerView};
use vstd::prelude::*;

verus! {

/// Every pairing of a value of `a` with a value of `b`, in row-major order:
/// `a` is the outer sequence and `b` the inner one.
pub open spec fn pairings<N>(a: Seq<N>, b: Seq<N>) -> Seq<(N, N)> {
    Seq::new((a.len() * b.len()) as nat, |k: int| (a[k / (b.len() as int)], b[k % (b.len() as int)]))
}

/// A trace of at most `total` calls that went on after every success and
/// ended at the first failure.
pub open spec fn stops_at_first_failure<N, E>(total: nat, trace: Seq<Result<Answer<N>, E>>) -> bool {
    &&& trace.len() <= total
    &&& forall|k: int| 0 <= k < trace.len() - 1 ==> (#[trigger] trace[k]) is Ok
    &&& trace.len() < total ==> trace.len() > 0 && trace.last() is Err
}

/// `trace` is a possible course of applying `oper` to the pairings of `a`
/// and `b` in row-major order, up to the first failure.
pub open spec fn binary_run<N, E, F: Fn(&N, &N) -> Result<Answer<N>, E>>(
    oper: F,
    a: Seq<N>,
    b: Seq<N>,
    trace: Seq<Result<Answer<N>, E>>,
) -> bool {
    &&& stops_at_first_failure(pairings(a, b).len(), trace)
    &&& forall|k: int|
        0 <= k < trace.len() ==> call_ensures(
            oper,
            (&pairings(a, b)[k].0, &pairings(a, b)[k].1),
            #[trigger] trace[k],
        )
}

/// `trace` is a possible course of applying `oper` to the values of `a` in
/// order, up to the first failure.
pub open spec fn unary_run<N, E, F: Fn(&N) -> Result<Answer<N>, E>>(
    oper: F,
    a: Seq<N>,
    trace: Seq<Result<Answer<N>, E>>,
) -> bool {
    &&& stops_at_first_failure(a.len(), trace)
    &&& forall|k: int| 0 <= k < trace.len() ==> call_ensures(oper, (&a[k],), #[trigger] trace[k])
}

/// The values that one outcome contributes: those of its answer, none for a
/// failure.
pub open spec fn contribution<N, E>(outcome: Result<Answer<N>, E>) -> Seq<N> {
    match outcome {
        Ok(answer) => answer@.values(),
        Err(_) => Seq::empty(),
    }
}

/// The values of all outcomes of a trace, each outcome's values spliced in
/// at its position.
pub open spec fn spliced<N, E>(trace: Seq<Result<Answer<N>, E>>) -> Seq<N>
    decreases trace.len(),
{
    if trace.len() == 0 {
        Seq::empty()
    } else {
        spliced(trace.drop_last()) + contribution(trace.last())
    }
}

/// What a finished trace amounts to: its failure if it ended in one, else
/// one flat collection of all values.
pub open spec fn gathered<N, E>(trace: Seq<Result<Answer<N>, E>>) -> Result<AnswerView<N>, E> {
    if trace.len() > 0 && trace.last() is Err {
        Err(trace.last()->Err_0)
    } else {
        Ok(AnswerView::Multiple(spliced(trace)))
    }
}

/// An outcome with its answer replaced by the answer's model.
pub open spec fn outcome_view<N, E>(outcome: Result<Answer<N>, E>) -> Result<AnswerView<N>, E> {
    match outcome {
        Ok(answer) => Ok(answer@),
        Err(e) => Err(e),
    }
}

impl<N> Answer<N> {
    /// `r` is a possible result of combining `self` with `other` under
    /// `oper`.
    ///
    /// Two single values are combined by one call, whose outcome is the
    /// result as it stands. Otherwise `oper` is applied to the pairings in
    /// row-major order up to the first failure; that failure is the result,
    /// or else one flat `Multiple` of all the values that came back.
    pub open spec fn op_yields<E, F: Fn(&N, &N) -> Result<Answer<N>, E>>(
        self,
        other: Self,
        oper: F,
        r: Result<Answer<N>, E>,
    ) -> bool {
        if self is Single && other is Single {
            call_ensures(oper, (&self->Single_0, &other->Single_0), r)
        } else {
            exists|trace: Seq<Result<Answer<N>, E>>|
                #[trigger] binary_run(oper, self@.values(), other@.values(), trace)
                    && outcome_view(r) == gathered(trace)
        }
    }

    /// `r` is a possible result of transforming `self` under `oper`.
    ///
    /// A single value is transformed by one call, whose outcome is the
    /// result as it stands. Otherwise `oper` is applied to the values in
    /// stored order up to the first failure; that failure is the result, or
    /// else one flat `Multiple` of all the values that came back.
    pub open spec fn unop_yields<E, F: Fn(&N) -> Result<Answer<N>, E>>(
        self,
        oper: F,
        r: Result<Answer<N>, E>,
    ) -> bool {
        if self is Single {
            call_ensures(oper, (&self->Single_0,), r)
        } else {
            exists|trace: Seq<Result<Answer<N>, E>>|
                #[trigger] unary_run(oper, self@.values(), trace) && outcome_view(r) == gathered(
                    trace,
                )
        }
    }
}

/// The pairing at row `i` and column `j` stands at index `i * b.len() + j`.
pub proof fn lemma_pairing_at<N>(a: Seq<N>, b: Seq<N>, i: int, j: int)
    requires
        0 <= i < a.len(),
        0 <= j < b.len(),
    ensures
        0 <= i * b.len() + j < pairings(a, b).len(),
        pairings(a, b)[i * b.len() + j] == (a[i], b[j]),
{
    let n = b.len() as int;
    let k = i * n + j;
    assert(0 <= k < a.len() * n) by (nonlinear_arith)
        requires
            0 <= i < a.len(),
            0 <= j < n,
            k == i * n + j,
    ;
    vstd::arithmetic::div_mod::lemma_fundamental_div_mod_converse(k, n, i, j);
}

/// Appending one outcome to a trace appends its contribution to the
/// spliced values.
pub proof fn lemma_spliced_push<N, E>(trace: Seq<Result<Answer<N>, E>>, outcome: Result<Answer<N>, E>)
    ensures
        spliced(trace.push(outcome)) == spliced(trace) + contribution(outcome),
{
    assert(trace.push(outcome).drop_last() =~= trace);
}

/// The position of a pairing determines its row and its column.
pub proof fn lemma_pairing_of<N>(a: Seq<N>, b: Seq<N>, k: int)
    requires
        0 <= k < pairings(a, b).len(),
    ensures
        0 <= k / (b.len() as int) < a.len(),
        0 <= k % (b.len() as int) < b.len(),
        pairings(a, b)[k] == (a[k / (b.len() as int)], b[k % (b.len() as int)]),
{
    let m = a.len() as int;
    let n = b.len() as int;
    assert(n > 0) by (nonlinear_arith)
        requires
            0 <= k < m * n,
            0 <= n,
    ;
    vstd::arithmetic::div_mod::lemma_fundamental_div_mod(k, n);
    vstd::arithmetic::div_mod::lemma_mod_pos_bound(k, n);
    let q = k / n;
    assert(0 <= q < m) by (nonlinear_arith)
        requires
            0 <= k < m * n,
            0 < n,
            k == n * q + k % n,
            0 <= k % n < n,
    ;
}

/// A run in which every call succeeded went through all its steps, and
/// amounts to one flat collection of the values that came back.
pub proof fn lemma_successful_run<N, E>(total: nat, trace: Seq<Result<Answer<N>, E>>)
    requires
        stops_at_first_failure(total, trace),
        gathered(trace) is Ok,
    ensures
        trace.len() == total,
        forall|k: int| 0 <= k < trace.len() ==> (#[trigger] trace[k]) is Ok,
        gathered(trace) == Ok::<AnswerView<N>, E>(AnswerView::Multiple(spliced(trace))),
{
}

/// Where every outcome is a success with a single value, the spliced
/// values are those values, one per outcome and in the order of the trace.
pub proof fn lemma_spliced_singles<N, E>(trace: Seq<Result<Answer<N>, E>>)
    requires
        forall|k: int|
            0 <= k < trace.len() ==> (#[trigger] trace[k]) is Ok && trace[k]->Ok_0 is Single,
    ensures
        spliced(trace).len() == trace.len(),
        forall|k: int|
            0 <= k < trace.len() ==> #[trigger] trace[k] == Ok::<Answer<N>, E>(
                Answer::Single(spliced(trace)[k]),
            ),
    decreases trace.len(),
{
    if trace.len() > 0 {
        lemma_spliced_singles(trace.drop_last());
        assert forall|k: int| 0 <= k < trace.len() implies #[trigger] trace[k] == Ok::<
            Answer<N>,
            E,
        >(Answer::Single(spliced(trace)[k])) by {
            if k < trace.len() - 1 {
                assert(trace.drop_last()[k] == trace[k]);
            }
        }
    }
}

/// Where every outcome is a success with at least one value, there are at
/// least as many spliced values as outcomes.
pub proof fn lemma_spliced_at_least<N, E>(trace: Seq<Result<Answer<N>, E>>)
    requires
        forall|k: int|
            0 <= k < trace.len() ==> (#[trigger] trace[k]) is Ok && trace[k]->Ok_0@.values().len()
                >= 1,
    ensures
        spliced(trace).len() >= trace.len(),
    decreases trace.len(),
{
    if trace.len() > 0 {
        assert forall|k: int| 0 <= k < trace.drop_last().len() implies (
        #[trigger] trace.drop_last()[k]) is Ok && trace.drop_last()[k]->Ok_0@.values().len()
            >= 1 by {
            assert(trace.drop_last()[k] == trace[k]);
        }
        lemma_spliced_at_least(trace.drop_last());
    }
}

} // verus!

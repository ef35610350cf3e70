//! What holds of combining answers, whatever the operation: how many values
//! come out and in which order, which shape the result has, and how a
//! failure travels.

use crate::answer::{Answer, AnswerView};
use crate::fanout::{
    binary_run, contribution, gathered, lemma_pairing_at, lemma_pairing_of,
    lemma_spliced_at_least, lemma_spliced_singles, lemma_successful_run, outcome_view, pairings,
    spliced, stops_at_first_failure, unary_run,
};
use vstd::prelude::*;

verus! {

/// Whatever `oper` hands back on a pairing of `a` and `b` is a success with
/// exactly one value.
pub open spec fn single_valued_on_pairs<N, E, F: Fn(&N, &N) -> Result<Answer<N>, E>>(
    oper: F,
    a: Seq<N>,
    b: Seq<N>,
) -> bool {
    forall|i: int, j: int, outcome: Result<Answer<N>, E>|
        0 <= i < a.len() && 0 <= j < b.len() && #[trigger] call_ensures(
            oper,
            (&a[i], &b[j]),
            outcome,
        ) ==> outcome is Ok && outcome->Ok_0 is Single
}

/// Whatever `oper` hands back on a value of `a` is a success with exactly
/// one value.
pub open spec fn single_valued_on<N, E, F: Fn(&N) -> Result<Answer<N>, E>>(
    oper: F,
    a: Seq<N>,
) -> bool {
    forall|i: int, outcome: Result<Answer<N>, E>|
        0 <= i < a.len() && #[trigger] call_ensures(oper, (&a[i],), outcome) ==> outcome is Ok
            && outcome->Ok_0 is Single
}

/// Whatever `oper` hands back on a pairing of `a` and `b`, a success is a
/// well-formed answer.
pub open spec fn well_formed_on_pairs<N, E, F: Fn(&N, &N) -> Result<Answer<N>, E>>(
    oper: F,
    a: Seq<N>,
    b: Seq<N>,
) -> bool {
    forall|i: int, j: int, outcome: Result<Answer<N>, E>|
        0 <= i < a.len() && 0 <= j < b.len() && #[trigger] call_ensures(
            oper,
            (&a[i], &b[j]),
            outcome,
        ) && outcome is Ok ==> outcome->Ok_0@.well_formed()
}

/// Whatever `oper` hands back on a value of `a`, a success is a well-formed
/// answer.
pub open spec fn well_formed_on<N, E, F: Fn(&N) -> Result<Answer<N>, E>>(
    oper: F,
    a: Seq<N>,
) -> bool {
    forall|i: int, outcome: Result<Answer<N>, E>|
        0 <= i < a.len() && #[trigger] call_ensures(oper, (&a[i],), outcome) && outcome is Ok
            ==> outcome->Ok_0@.well_formed()
}

/// `oper` is a function on the pairings of `a` and `b`: whatever it hands
/// back on one pairing is the same outcome, up to the answers' models.
pub open spec fn determined_on_pairs<N, E, F: Fn(&N, &N) -> Result<Answer<N>, E>>(
    oper: F,
    a: Seq<N>,
    b: Seq<N>,
) -> bool {
    forall|i: int, j: int, first: Result<Answer<N>, E>, second: Result<Answer<N>, E>|
        0 <= i < a.len() && 0 <= j < b.len() && #[trigger] call_ensures(
            oper,
            (&a[i], &b[j]),
            first,
        ) && #[trigger] call_ensures(oper, (&a[i], &b[j]), second) ==> outcome_view(first)
            == outcome_view(second)
}

/// `oper` is a function on the values of `a`: whatever it hands back on one
/// value is the same outcome, up to the answers' models.
pub open spec fn determined_on<N, E, F: Fn(&N) -> Result<Answer<N>, E>>(
    oper: F,
    a: Seq<N>,
) -> bool {
    forall|i: int, first: Result<Answer<N>, E>, second: Result<Answer<N>, E>|
        0 <= i < a.len() && #[trigger] call_ensures(oper, (&a[i],), first) && #[trigger] call_ensures(
            oper,
            (&a[i],),
            second,
        ) ==> outcome_view(first) == outcome_view(second)
}

/// Where in the spliced values the contribution of outcome `k` begins: after
/// the values of all earlier outcomes.
pub open spec fn splice_start<N, E>(trace: Seq<Result<Answer<N>, E>>, k: int) -> int {
    spliced(trace.take(k)).len() as int
}

/// Cardinality law. Where the operation succeeds with a single value on
/// every pairing, combining an answer of `m` values with one of `n` values
/// gives exactly `m * n` values in row-major order: the value at
/// `i * n + j` is what the operation gave for the `i`-th value of `a` and
/// the `j`-th value of `b`.
pub proof fn lemma_op_cardinality<N, E, F: Fn(&N, &N) -> Result<Answer<N>, E>>(
    a: Answer<N>,
    b: Answer<N>,
    oper: F,
    r: Result<Answer<N>, E>,
)
    requires
        a.op_yields(b, oper, r),
        single_valued_on_pairs(oper, a@.values(), b@.values()),
    ensures
        r is Ok,
        r->Ok_0@.values().len() == a@.values().len() * b@.values().len(),
        forall|i: int, j: int|
            #![trigger a@.values()[i], b@.values()[j]]
            0 <= i < a@.values().len() && 0 <= j < b@.values().len() ==> call_ensures(
                oper,
                (&a@.values()[i], &b@.values()[j]),
                Ok::<Answer<N>, E>(Answer::Single(r->Ok_0@.values()[i * b@.values().len() + j])),
            ),
{
    let av = a@.values();
    let bv = b@.values();
    if a is Single && b is Single {
        assert(av[0] == a->Single_0 && bv[0] == b->Single_0);
        assert(r->Ok_0 == Answer::Single(r->Ok_0@.values()[0]));
        assert(1 * 1 == 1) by (nonlinear_arith);
    } else {
        let trace = choose|trace: Seq<Result<Answer<N>, E>>|
            #[trigger] binary_run(oper, av, bv, trace) && outcome_view(r) == gathered(trace);
        assert forall|k: int| 0 <= k < trace.len() implies (#[trigger] trace[k]) is Ok
            && trace[k]->Ok_0 is Single by {
            lemma_pairing_of(av, bv, k);
        }
        lemma_successful_run(pairings(av, bv).len(), trace);
        lemma_spliced_singles(trace);
        assert forall|i: int, j: int|
            #![trigger av[i], bv[j]]
            0 <= i < av.len() && 0 <= j < bv.len() implies call_ensures(
            oper,
            (&av[i], &bv[j]),
            Ok::<Answer<N>, E>(Answer::Single(r->Ok_0@.values()[i * bv.len() + j])),
        ) by {
            lemma_pairing_at(av, bv, i, j);
            let k = i * bv.len() + j;
            assert(trace[k] == Ok::<Answer<N>, E>(Answer::Single(spliced(trace)[k])));
        }
    }
}

/// Flattening law. A combination that succeeds is a `Multiple` unless both
/// operands are single; two single values give whatever the one call gave,
/// a `Single` where the operation is single-valued on them. Either way the
/// result holds values, never answers.
pub proof fn lemma_op_shape<N, E, F: Fn(&N, &N) -> Result<Answer<N>, E>>(
    a: Answer<N>,
    b: Answer<N>,
    oper: F,
    r: Result<Answer<N>, E>,
)
    requires
        a.op_yields(b, oper, r),
        r is Ok,
    ensures
        !(a is Single && b is Single) ==> r->Ok_0 is Multiple,
        a is Single && b is Single && single_valued_on_pairs(oper, a@.values(), b@.values())
            ==> r->Ok_0 is Single,
{
    if a is Single && b is Single {
        assert(a@.values()[0] == a->Single_0 && b@.values()[0] == b->Single_0);
    }
}

/// Short-circuit law. If the operation fails on some pairing, whatever it
/// is called with there, the whole combination fails.
pub proof fn lemma_op_short_circuit<N, E, F: Fn(&N, &N) -> Result<Answer<N>, E>>(
    a: Answer<N>,
    b: Answer<N>,
    oper: F,
    r: Result<Answer<N>, E>,
    i: int,
    j: int,
)
    requires
        a.op_yields(b, oper, r),
        0 <= i < a@.values().len(),
        0 <= j < b@.values().len(),
        forall|outcome: Result<Answer<N>, E>|
            call_ensures(oper, (&a@.values()[i], &b@.values()[j]), outcome) ==> outcome is Err,
    ensures
        r is Err,
{
    let av = a@.values();
    let bv = b@.values();
    if a is Single && b is Single {
        assert(av[0] == a->Single_0 && bv[0] == b->Single_0);
    } else if r is Ok {
        let trace = choose|trace: Seq<Result<Answer<N>, E>>|
            #[trigger] binary_run(oper, av, bv, trace) && outcome_view(r) == gathered(trace);
        lemma_successful_run(pairings(av, bv).len(), trace);
        lemma_pairing_at(av, bv, i, j);
        let k = i * bv.len() + j;
        assert(trace[k] is Ok);
    }
}

/// A failed combination carries, unchanged, a failure that the operation
/// gave on one of the pairings; no value of an earlier success comes with
/// it.
pub proof fn lemma_op_failure_is_verbatim<N, E, F: Fn(&N, &N) -> Result<Answer<N>, E>>(
    a: Answer<N>,
    b: Answer<N>,
    oper: F,
    r: Result<Answer<N>, E>,
)
    requires
        a.op_yields(b, oper, r),
        r is Err,
    ensures
        exists|i: int, j: int|
            #![trigger a@.values()[i], b@.values()[j]]
            0 <= i < a@.values().len() && 0 <= j < b@.values().len() && call_ensures(
                oper,
                (&a@.values()[i], &b@.values()[j]),
                Err::<Answer<N>, E>(r->Err_0),
            ),
{
    let av = a@.values();
    let bv = b@.values();
    if a is Single && b is Single {
        assert(av[0] == a->Single_0 && bv[0] == b->Single_0);
        assert(r == Err::<Answer<N>, E>(r->Err_0));
    } else {
        let trace = choose|trace: Seq<Result<Answer<N>, E>>|
            #[trigger] binary_run(oper, av, bv, trace) && outcome_view(r) == gathered(trace);
        let k = trace.len() - 1;
        lemma_pairing_of(av, bv, k);
        let i = k / (bv.len() as int);
        let j = k % (bv.len() as int);
        assert(trace[k] == Err::<Answer<N>, E>(r->Err_0));
        assert(call_ensures(oper, (&av[i], &bv[j]), Err::<Answer<N>, E>(r->Err_0)));
    }
}

/// Cardinality law for one operand. Where the operation succeeds with a
/// single value on every value, transforming an answer of `n` values gives
/// exactly `n` values in the same order.
pub proof fn lemma_unop_cardinality<N, E, F: Fn(&N) -> Result<Answer<N>, E>>(
    a: Answer<N>,
    oper: F,
    r: Result<Answer<N>, E>,
)
    requires
        a.unop_yields(oper, r),
        single_valued_on(oper, a@.values()),
    ensures
        r is Ok,
        r->Ok_0 is Single <==> a is Single,
        r->Ok_0@.values().len() == a@.values().len(),
        forall|i: int|
            #![trigger a@.values()[i]]
            0 <= i < a@.values().len() ==> call_ensures(
                oper,
                (&a@.values()[i],),
                Ok::<Answer<N>, E>(Answer::Single(r->Ok_0@.values()[i])),
            ),
{
    let av = a@.values();
    if a is Single {
        assert(av[0] == a->Single_0);
        assert(r->Ok_0 == Answer::Single(r->Ok_0@.values()[0]));
    } else {
        let trace = choose|trace: Seq<Result<Answer<N>, E>>|
            #[trigger] unary_run(oper, av, trace) && outcome_view(r) == gathered(trace);
        lemma_successful_run(av.len(), trace);
        lemma_spliced_singles(trace);
        assert forall|i: int| #![trigger av[i]] 0 <= i < av.len() implies call_ensures(
            oper,
            (&av[i],),
            Ok::<Answer<N>, E>(Answer::Single(r->Ok_0@.values()[i])),
        ) by {
            assert(trace[i] == Ok::<Answer<N>, E>(Answer::Single(spliced(trace)[i])));
        }
    }
}

/// Short-circuit law for one operand. If the operation fails on some value,
/// whatever it is called with there, the whole transformation fails.
pub proof fn lemma_unop_short_circuit<N, E, F: Fn(&N) -> Result<Answer<N>, E>>(
    a: Answer<N>,
    oper: F,
    r: Result<Answer<N>, E>,
    i: int,
)
    requires
        a.unop_yields(oper, r),
        0 <= i < a@.values().len(),
        forall|outcome: Result<Answer<N>, E>|
            call_ensures(oper, (&a@.values()[i],), outcome) ==> outcome is Err,
    ensures
        r is Err,
{
    let av = a@.values();
    if a is Single {
        assert(av[0] == a->Single_0);
    } else if r is Ok {
        let trace = choose|trace: Seq<Result<Answer<N>, E>>|
            #[trigger] unary_run(oper, av, trace) && outcome_view(r) == gathered(trace);
        lemma_successful_run(av.len(), trace);
        assert(trace[i] is Ok);
    }
}

/// A failed transformation carries, unchanged, a failure that the operation
/// gave on one of the values; no value of an earlier success comes with it.
pub proof fn lemma_unop_failure_is_verbatim<N, E, F: Fn(&N) -> Result<Answer<N>, E>>(
    a: Answer<N>,
    oper: F,
    r: Result<Answer<N>, E>,
)
    requires
        a.unop_yields(oper, r),
        r is Err,
    ensures
        exists|i: int|
            0 <= i < a@.values().len() && call_ensures(
                oper,
                (&#[trigger] a@.values()[i],),
                Err::<Answer<N>, E>(r->Err_0),
            ),
{
    let av = a@.values();
    if a is Single {
        assert(av[0] == a->Single_0);
        assert(r == Err::<Answer<N>, E>(r->Err_0));
    } else {
        let trace = choose|trace: Seq<Result<Answer<N>, E>>|
            #[trigger] unary_run(oper, av, trace) && outcome_view(r) == gathered(trace);
        let k = trace.len() - 1;
        assert(trace[k] == Err::<Answer<N>, E>(r->Err_0));
        assert(call_ensures(oper, (&av[k],), Err::<Answer<N>, E>(r->Err_0)));
    }
}

/// Combining well-formed answers under an operation that gives well-formed
/// answers gives a well-formed answer: no `Multiple` with fewer than two
/// values arises.
pub proof fn lemma_op_keeps_well_formed<N, E, F: Fn(&N, &N) -> Result<Answer<N>, E>>(
    a: Answer<N>,
    b: Answer<N>,
    oper: F,
    r: Result<Answer<N>, E>,
)
    requires
        a.op_yields(b, oper, r),
        a@.well_formed(),
        b@.well_formed(),
        well_formed_on_pairs(oper, a@.values(), b@.values()),
        r is Ok,
    ensures
        r->Ok_0@.well_formed(),
{
    let av = a@.values();
    let bv = b@.values();
    if a is Single && b is Single {
        assert(av[0] == a->Single_0 && bv[0] == b->Single_0);
    } else {
        let trace = choose|trace: Seq<Result<Answer<N>, E>>|
            #[trigger] binary_run(oper, av, bv, trace) && outcome_view(r) == gathered(trace);
        lemma_successful_run(pairings(av, bv).len(), trace);
        assert forall|k: int| 0 <= k < trace.len() implies (#[trigger] trace[k]) is Ok
            && trace[k]->Ok_0@.values().len() >= 1 by {
            lemma_pairing_of(av, bv, k);
            assert(trace[k]->Ok_0@.well_formed());
        }
        lemma_spliced_at_least(trace);
        assert(av.len() * bv.len() >= 2) by (nonlinear_arith)
            requires
                av.len() >= 1,
                bv.len() >= 1,
                av.len() >= 2 || bv.len() >= 2,
        ;
    }
}

/// Transforming a well-formed answer under an operation that gives
/// well-formed answers gives a well-formed answer.
pub proof fn lemma_unop_keeps_well_formed<N, E, F: Fn(&N) -> Result<Answer<N>, E>>(
    a: Answer<N>,
    oper: F,
    r: Result<Answer<N>, E>,
)
    requires
        a.unop_yields(oper, r),
        a@.well_formed(),
        well_formed_on(oper, a@.values()),
        r is Ok,
    ensures
        r->Ok_0@.well_formed(),
{
    let av = a@.values();
    if a is Single {
        assert(av[0] == a->Single_0);
    } else {
        let trace = choose|trace: Seq<Result<Answer<N>, E>>|
            #[trigger] unary_run(oper, av, trace) && outcome_view(r) == gathered(trace);
        lemma_successful_run(av.len(), trace);
        assert forall|k: int| 0 <= k < trace.len() implies (#[trigger] trace[k]) is Ok
            && trace[k]->Ok_0@.values().len() >= 1 by {
            assert(trace[k]->Ok_0@.well_formed());
        }
        lemma_spliced_at_least(trace);
    }
}

/// Splicing law. Each outcome's values stand in the result as one block at
/// the outcome's position: after the values of all earlier outcomes, in
/// their own order. So a success with several values widens the result
/// where it stands and moves nothing else.
pub proof fn lemma_spliced_at<N, E>(trace: Seq<Result<Answer<N>, E>>, k: int)
    requires
        0 <= k < trace.len(),
    ensures
        splice_start(trace, k) + contribution(trace[k]).len() <= spliced(trace).len(),
        spliced(trace).subrange(
            splice_start(trace, k),
            splice_start(trace, k) + contribution(trace[k]).len(),
        ) == contribution(trace[k]),
        splice_start(trace, k + 1) == splice_start(trace, k) + contribution(trace[k]).len(),
    decreases trace.len(),
{
    let front = trace.drop_last();
    assert(trace.take(k + 1).drop_last() =~= trace.take(k));
    if k == trace.len() - 1 {
        assert(trace.take(k) =~= front);
        assert(trace.take(k + 1) =~= trace);
        assert(spliced(trace).subrange(
            splice_start(trace, k),
            splice_start(trace, k) + contribution(trace[k]).len(),
        ) =~= contribution(trace[k]));
    } else {
        lemma_spliced_at(front, k);
        assert(front.take(k) =~= trace.take(k));
        assert(front.take(k + 1) =~= trace.take(k + 1));
        assert(front[k] == trace[k]);
        assert(spliced(trace).subrange(
            splice_start(trace, k),
            splice_start(trace, k) + contribution(trace[k]).len(),
        ) =~= spliced(front).subrange(
            splice_start(front, k),
            splice_start(front, k) + contribution(front[k]).len(),
        ));
    }
}

/// Two traces that agree outcome for outcome, up to the answers' models,
/// amount to the same.
pub proof fn lemma_gathered_by_views<N, E>(
    first: Seq<Result<Answer<N>, E>>,
    second: Seq<Result<Answer<N>, E>>,
)
    requires
        first.len() == second.len(),
        forall|k: int|
            0 <= k < first.len() ==> outcome_view(#[trigger] first[k]) == outcome_view(second[k]),
    ensures
        spliced(first) == spliced(second),
        gathered(first) == gathered(second),
    decreases first.len(),
{
    if first.len() > 0 {
        assert forall|k: int| 0 <= k < first.drop_last().len() implies outcome_view(
            #[trigger] first.drop_last()[k],
        ) == outcome_view(second.drop_last()[k]) by {
            assert(first.drop_last()[k] == first[k]);
            assert(second.drop_last()[k] == second[k]);
        }
        lemma_gathered_by_views(first.drop_last(), second.drop_last());
        assert(outcome_view(first.last()) == outcome_view(second.last()));
    }
}

/// Two runs of the same length bound whose outcomes agree wherever both
/// have one are equally long.
proof fn lemma_runs_end_together<N, E>(
    total: nat,
    first: Seq<Result<Answer<N>, E>>,
    second: Seq<Result<Answer<N>, E>>,
)
    requires
        stops_at_first_failure(total, first),
        stops_at_first_failure(total, second),
        forall|k: int|
            0 <= k < first.len() && k < second.len() ==> outcome_view(#[trigger] first[k])
                == outcome_view(second[k]),
    ensures
        first.len() == second.len(),
{
    if first.len() < second.len() {
        let k = first.len() - 1;
        assert(outcome_view(first[k]) == outcome_view(second[k]));
        assert(second[k] is Ok);
    } else if second.len() < first.len() {
        let k = second.len() - 1;
        assert(outcome_view(first[k]) == outcome_view(second[k]));
        assert(first[k] is Ok);
    }
}

/// Determinism law. Where the operation is a function on the pairings, the
/// operands determine the result: its shape, its values and their order,
/// or its failure.
pub proof fn lemma_op_is_determined<N, E, F: Fn(&N, &N) -> Result<Answer<N>, E>>(
    a: Answer<N>,
    b: Answer<N>,
    oper: F,
    first: Result<Answer<N>, E>,
    second: Result<Answer<N>, E>,
)
    requires
        a.op_yields(b, oper, first),
        a.op_yields(b, oper, second),
        determined_on_pairs(oper, a@.values(), b@.values()),
    ensures
        outcome_view(first) == outcome_view(second),
{
    let av = a@.values();
    let bv = b@.values();
    if a is Single && b is Single {
        assert(av[0] == a->Single_0 && bv[0] == b->Single_0);
    } else {
        let t1 = choose|trace: Seq<Result<Answer<N>, E>>|
            #[trigger] binary_run(oper, av, bv, trace) && outcome_view(first) == gathered(trace);
        let t2 = choose|trace: Seq<Result<Answer<N>, E>>|
            #[trigger] binary_run(oper, av, bv, trace) && outcome_view(second) == gathered(trace);
        assert forall|k: int| 0 <= k < t1.len() && k < t2.len() implies outcome_view(
            #[trigger] t1[k],
        ) == outcome_view(t2[k]) by {
            lemma_pairing_of(av, bv, k);
            let i = k / (bv.len() as int);
            let j = k % (bv.len() as int);
            assert(call_ensures(oper, (&av[i], &bv[j]), t1[k]));
            assert(call_ensures(oper, (&av[i], &bv[j]), t2[k]));
        }
        lemma_runs_end_together(pairings(av, bv).len(), t1, t2);
        lemma_gathered_by_views(t1, t2);
    }
}

/// Determinism law for one operand. Where the operation is a function on
/// the values, the operand determines the result.
pub proof fn lemma_unop_is_determined<N, E, F: Fn(&N) -> Result<Answer<N>, E>>(
    a: Answer<N>,
    oper: F,
    first: Result<Answer<N>, E>,
    second: Result<Answer<N>, E>,
)
    requires
        a.unop_yields(oper, first),
        a.unop_yields(oper, second),
        determined_on(oper, a@.values()),
    ensures
        outcome_view(first) == outcome_view(second),
{
    let av = a@.values();
    if a is Single {
        assert(av[0] == a->Single_0);
    } else {
        let t1 = choose|trace: Seq<Result<Answer<N>, E>>|
            #[trigger] unary_run(oper, av, trace) && outcome_view(first) == gathered(trace);
        let t2 = choose|trace: Seq<Result<Answer<N>, E>>|
            #[trigger] unary_run(oper, av, trace) && outcome_view(second) == gathered(trace);
        assert forall|k: int| 0 <= k < t1.len() && k < t2.len() implies outcome_view(
            #[trigger] t1[k],
        ) == outcome_view(t2[k]) by {
            assert(call_ensures(oper, (&av[k],), t1[k]));
            assert(call_ensures(oper, (&av[k],), t2[k]));
        }
        lemma_runs_end_together(av.len(), t1, t2);
        lemma_gathered_by_views(t1, t2);
    }
}

/// Alternative-merge law. Joining two single values gives a `Multiple` of
/// both; joining a `Multiple` with a single value appends the value. The
/// order is kept and equal values stay apart.
pub proof fn lemma_join_merges_in_order<N>(a: N, b: N, c: N)
    ensures
        AnswerView::Single(a).joined(AnswerView::Single(b)) == AnswerView::Multiple(seq![a, b]),
        AnswerView::Multiple(seq![a, b]).joined(AnswerView::Single(c)) == AnswerView::Multiple(
            seq![a, b, c],
        ),
{
    assert(seq![a] + seq![b] =~= seq![a, b]);
    assert(seq![a, b] + seq![c] =~= seq![a, b, c]);
}

/// A join holds every value of both operands, those of the left operand
/// first; nothing is dropped or merged.
pub proof fn lemma_join_keeps_every_value<N>(x: AnswerView<N>, y: AnswerView<N>)
    ensures
        x.joined(y) is Multiple,
        x.joined(y).values().len() == x.values().len() + y.values().len(),
        forall|i: int| 0 <= i < x.values().len() ==> x.joined(y).values()[i] == x.values()[i],
        forall|i: int|
            0 <= i < y.values().len() ==> x.joined(y).values()[x.values().len() + i]
                == y.values()[i],
        x.well_formed() && y.well_formed() ==> x.joined(y).well_formed(),
{
}

/// Joining is associative: three answers joined either way give the same
/// alternatives in the same order.
pub proof fn lemma_join_is_associative<N>(x: AnswerView<N>, y: AnswerView<N>, z: AnswerView<N>)
    ensures
        x.joined(y).joined(z) == x.joined(y.joined(z)),
{
    assert((x.values() + y.values()) + z.values() =~= x.values() + (y.values() + z.values()));
}

} // verus!

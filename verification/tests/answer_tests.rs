use calc_core::answer::Answer;
use std::cell::Cell;

#[derive(Debug, Clone, PartialEq)]
enum MathError {
    DivideByZero,
    Negative,
}

fn add(a: &i64, b: &i64) -> Result<Answer<i64>, MathError> {
    Ok(Answer::Single(a + b))
}

fn mul(a: &i64, b: &i64) -> Result<Answer<i64>, MathError> {
    Ok(Answer::Single(a * b))
}

fn div(a: &i64, b: &i64) -> Result<Answer<i64>, MathError> {
    if *b == 0 {
        Err(MathError::DivideByZero)
    } else {
        Ok(Answer::Single(a / b))
    }
}

fn plus_minus(a: &i64, b: &i64) -> Result<Answer<i64>, MathError> {
    Ok(Answer::Multiple(vec![a + b, a - b]))
}

fn pair_code(a: &i64, b: &i64) -> Result<Answer<i64>, MathError> {
    Ok(Answer::Single(a * 100 + b))
}

fn negate(a: &i64) -> Result<Answer<i64>, MathError> {
    Ok(Answer::Single(-a))
}

fn both_signs(a: &i64) -> Result<Answer<i64>, MathError> {
    Ok(Answer::Multiple(vec![*a, -a]))
}

fn root_of_square(a: &i64) -> Result<Answer<i64>, MathError> {
    match *a {
        n if n < 0 => Err(MathError::Negative),
        0 => Ok(Answer::Single(0)),
        1 => Ok(Answer::Multiple(vec![1, -1])),
        4 => Ok(Answer::Multiple(vec![2, -2])),
        9 => Ok(Answer::Multiple(vec![3, -3])),
        _ => Err(MathError::DivideByZero),
    }
}

#[test]
fn op_on_two_singles_gives_the_outcome_of_the_one_call() {
    let r = Answer::Single(4).op(&Answer::Single(1), add);
    assert_eq!(r, Ok(Answer::Single(5)));
}

#[test]
fn op_on_two_singles_keeps_a_multiple_outcome_as_it_is() {
    let r = Answer::Single(4).op(&Answer::Single(1), plus_minus);
    assert_eq!(r, Ok(Answer::Multiple(vec![5, 3])));
}

#[test]
fn op_on_two_singles_hands_the_failure_on() {
    let r = Answer::Single(4).op(&Answer::Single(0), div);
    assert_eq!(r, Err(MathError::DivideByZero));
}

#[test]
fn plus_or_minus_fans_out_through_a_following_product() {
    let four_pm_one = Answer::Single(4).op(&Answer::Single(1), plus_minus).unwrap();
    assert_eq!(four_pm_one, Answer::Multiple(vec![5, 3]));
    let doubled = four_pm_one.op(&Answer::Single(2), mul);
    assert_eq!(doubled, Ok(Answer::Multiple(vec![10, 6])));
}

#[test]
fn op_gives_every_pairing_in_row_major_order() {
    let a = Answer::Multiple(vec![1, 2, 3]);
    let b = Answer::Multiple(vec![10, 20]);
    let r = a.op(&b, pair_code).unwrap();
    assert_eq!(r, Answer::Multiple(vec![110, 120, 210, 220, 310, 320]));
    assert_eq!(r.to_vec().len(), 3 * 2);
}

#[test]
fn op_with_a_single_on_the_left_runs_over_the_right() {
    let r = Answer::Single(7).op(&Answer::Multiple(vec![1, 2, 3]), pair_code);
    assert_eq!(r, Ok(Answer::Multiple(vec![701, 702, 703])));
}

#[test]
fn op_with_a_single_on_the_right_runs_over_the_left() {
    let r = Answer::Multiple(vec![1, 2, 3]).op(&Answer::Single(7), pair_code);
    assert_eq!(r, Ok(Answer::Multiple(vec![107, 207, 307])));
}

#[test]
fn op_splices_multiple_outcomes_in_at_their_position() {
    let r = Answer::Multiple(vec![1, 2]).op(&Answer::Single(10), plus_minus);
    assert_eq!(r, Ok(Answer::Multiple(vec![11, -9, 12, -8])));
    let r = Answer::Multiple(vec![1, 2]).op(&Answer::Multiple(vec![10, 20]), plus_minus);
    assert_eq!(r, Ok(Answer::Multiple(vec![11, -9, 21, -19, 12, -8, 22, -18])));
}

#[test]
fn op_mixes_single_and_multiple_outcomes() {
    let oper = |a: &i64, b: &i64| -> Result<Answer<i64>, MathError> {
        if *b == 0 {
            Ok(Answer::Single(*a))
        } else {
            Ok(Answer::Multiple(vec![a + b, a - b]))
        }
    };
    let r = Answer::Multiple(vec![1, 2]).op(&Answer::Multiple(vec![0, 5]), oper);
    assert_eq!(r, Ok(Answer::Multiple(vec![1, 6, -4, 2, 7, -3])));
}

#[test]
fn op_keeps_duplicates() {
    let r = Answer::Multiple(vec![2, 2]).op(&Answer::Multiple(vec![3, 3]), mul);
    assert_eq!(r, Ok(Answer::Multiple(vec![6, 6, 6, 6])));
}

#[test]
fn op_fails_as_a_whole_when_one_pairing_fails() {
    let r = Answer::Multiple(vec![8, 6]).op(&Answer::Multiple(vec![2, 0]), div);
    assert_eq!(r, Err(MathError::DivideByZero));
    let r = Answer::Multiple(vec![8, 6]).op(&Answer::Single(0), div);
    assert_eq!(r, Err(MathError::DivideByZero));
    let r = Answer::Single(8).op(&Answer::Multiple(vec![4, 2, 0]), div);
    assert_eq!(r, Err(MathError::DivideByZero));
}

#[test]
fn op_stops_at_the_first_failure() {
    let calls = Cell::new(0usize);
    let oper = |a: &i64, b: &i64| -> Result<Answer<i64>, MathError> {
        calls.set(calls.get() + 1);
        div(a, b)
    };
    let r = Answer::Multiple(vec![8, 6, 4]).op(&Answer::Multiple(vec![2, 0, 1]), oper);
    assert_eq!(r, Err(MathError::DivideByZero));
    assert_eq!(calls.get(), 2);
}

#[test]
fn op_reports_the_first_failure_unchanged() {
    let oper = |a: &i64, b: &i64| -> Result<Answer<i64>, MathError> {
        if *a < 0 {
            Err(MathError::Negative)
        } else {
            div(a, b)
        }
    };
    let r = Answer::Multiple(vec![1, -1]).op(&Answer::Multiple(vec![1, 0]), oper);
    assert_eq!(r, Err(MathError::DivideByZero));
    let r = Answer::Multiple(vec![-1, 1]).op(&Answer::Multiple(vec![1, 0]), oper);
    assert_eq!(r, Err(MathError::Negative));
}

#[test]
fn op_visits_the_pairings_left_outer_right_inner() {
    let seen = std::cell::RefCell::new(Vec::new());
    let oper = |a: &i64, b: &i64| -> Result<Answer<i64>, MathError> {
        seen.borrow_mut().push((*a, *b));
        Ok(Answer::Single(0))
    };
    let r = Answer::Multiple(vec![1, 2]).op(&Answer::Multiple(vec![7, 8, 9]), oper);
    assert_eq!(r, Ok(Answer::Multiple(vec![0, 0, 0, 0, 0, 0])));
    assert_eq!(*seen.borrow(), vec![(1, 7), (1, 8), (1, 9), (2, 7), (2, 8), (2, 9)]);
}

#[test]
fn op_yields_a_single_only_for_two_singles() {
    let single = Answer::Single(1).op(&Answer::Single(2), add).unwrap();
    assert!(single.is_single());
    let left = Answer::Multiple(vec![1, 2]).op(&Answer::Single(2), add).unwrap();
    assert!(!left.is_single());
    let right = Answer::Single(1).op(&Answer::Multiple(vec![1, 2]), add).unwrap();
    assert!(!right.is_single());
    let both = Answer::Multiple(vec![1, 2]).op(&Answer::Multiple(vec![1, 2]), add).unwrap();
    assert!(!both.is_single());
}

#[test]
fn op_works_on_a_multiple_with_fewer_than_two_values() {
    let none: Answer<i64> = Answer::Multiple(vec![]);
    assert_eq!(none.op(&Answer::Single(1), add), Ok(Answer::Multiple(vec![])));
    assert_eq!(Answer::Single(1).op(&none, add), Ok(Answer::Multiple(vec![])));
    assert_eq!(none.op(&Answer::Multiple(vec![1, 2]), div), Ok(Answer::Multiple(vec![])));
    let one = Answer::Multiple(vec![7]);
    assert_eq!(one.op(&Answer::Single(1), add), Ok(Answer::Multiple(vec![8])));
    assert_eq!(one.op(&one, mul), Ok(Answer::Multiple(vec![49])));
}

#[test]
fn op_leaves_its_operands_as_they_were() {
    let a = Answer::Multiple(vec![1, 2]);
    let b = Answer::Single(3);
    let _ = a.op(&b, add);
    assert_eq!(a, Answer::Multiple(vec![1, 2]));
    assert_eq!(b, Answer::Single(3));
}

#[test]
fn unop_on_a_single_gives_the_outcome_of_the_one_call() {
    assert_eq!(Answer::Single(4).unop(negate), Ok(Answer::Single(-4)));
    assert_eq!(Answer::Single(4).unop(both_signs), Ok(Answer::Multiple(vec![4, -4])));
    assert_eq!(Answer::Single(-4).unop(root_of_square), Err(MathError::Negative));
}

#[test]
fn unop_maps_every_value_in_order() {
    let r = Answer::Multiple(vec![1, 2, 3]).unop(negate);
    assert_eq!(r, Ok(Answer::Multiple(vec![-1, -2, -3])));
}

#[test]
fn unop_splices_multiple_outcomes_in_at_their_position() {
    let r = Answer::Multiple(vec![4, 0, 9]).unop(root_of_square);
    assert_eq!(r, Ok(Answer::Multiple(vec![2, -2, 0, 3, -3])));
}

#[test]
fn unop_stops_at_the_first_failure_and_reports_it_unchanged() {
    let calls = Cell::new(0usize);
    let oper = |a: &i64| -> Result<Answer<i64>, MathError> {
        calls.set(calls.get() + 1);
        root_of_square(a)
    };
    let r = Answer::Multiple(vec![4, -1, 5, 9]).unop(oper);
    assert_eq!(r, Err(MathError::Negative));
    assert_eq!(calls.get(), 2);
    let r = Answer::Multiple(vec![4, 5, -1]).unop(root_of_square);
    assert_eq!(r, Err(MathError::DivideByZero));
}

#[test]
fn unop_works_on_a_multiple_with_fewer_than_two_values() {
    let none: Answer<i64> = Answer::Multiple(vec![]);
    assert_eq!(none.unop(negate), Ok(Answer::Multiple(vec![])));
    assert_eq!(Answer::Multiple(vec![3]).unop(negate), Ok(Answer::Multiple(vec![-3])));
}

#[test]
fn unwrap_single_returns_the_sole_value() {
    assert_eq!(Answer::Single(42).unwrap_single(), 42);
    assert_eq!(Answer::Single(String::from("x")).unwrap_single(), "x");
}

#[test]
fn a_multiple_is_not_single_and_keeps_all_its_values() {
    let answer = Answer::Multiple(vec![1, 2]);
    assert!(!answer.is_single());
    assert!(Answer::Single(1).is_single());
    assert!(!Answer::Multiple(vec![1]).is_single());
    assert_eq!(answer.to_vec(), vec![1, 2]);
}

#[test]
fn to_vec_gives_the_values_in_stored_order() {
    assert_eq!(Answer::Single(5).to_vec(), vec![5]);
    assert_eq!(Answer::Multiple(vec![3, 1, 2]).to_vec(), vec![3, 1, 2]);
    assert_eq!(Answer::Multiple(vec![9]).to_vec(), vec![9]);
    assert_eq!(Answer::<i64>::Multiple(vec![]).to_vec(), Vec::<i64>::new());
}

#[test]
fn join_of_two_singles_is_a_multiple_of_both() {
    assert_eq!(Answer::Single(1).join(Answer::Single(2)), Answer::Multiple(vec![1, 2]));
}

#[test]
fn join_of_a_multiple_and_a_single_appends_the_single() {
    let joined = Answer::Multiple(vec![1, 2]).join(Answer::Single(3));
    assert_eq!(joined, Answer::Multiple(vec![1, 2, 3]));
    let joined = Answer::Single(3).join(Answer::Multiple(vec![1, 2]));
    assert_eq!(joined, Answer::Multiple(vec![3, 1, 2]));
}

#[test]
fn join_keeps_order_and_duplicates() {
    assert_eq!(Answer::Single(1).join(Answer::Single(1)), Answer::Multiple(vec![1, 1]));
    let joined = Answer::Multiple(vec![2, 1]).join(Answer::Multiple(vec![1, 2]));
    assert_eq!(joined, Answer::Multiple(vec![2, 1, 1, 2]));
}

#[test]
fn join_is_associative() {
    let left = Answer::Single(1).join(Answer::Multiple(vec![2, 3])).join(Answer::Single(4));
    let right = Answer::Single(1).join(Answer::Multiple(vec![2, 3]).join(Answer::Single(4)));
    assert_eq!(left, right);
    assert_eq!(left, Answer::Multiple(vec![1, 2, 3, 4]));
}

#[test]
fn join_works_on_a_multiple_with_fewer_than_two_values() {
    let none: Answer<i64> = Answer::Multiple(vec![]);
    assert_eq!(none.clone().join(none.clone()), Answer::Multiple(vec![]));
    assert_eq!(none.join(Answer::Single(1)), Answer::Multiple(vec![1]));
}

#[test]
fn clone_gives_an_equal_answer() {
    let single = Answer::Single(5);
    assert_eq!(single.clone(), single);
    let multiple = Answer::Multiple(vec![String::from("a"), String::from("b")]);
    assert_eq!(multiple.clone(), multiple);
}

#[test]
fn answers_of_different_shape_differ() {
    assert_ne!(Answer::Single(1), Answer::Multiple(vec![1]));
    assert_ne!(Answer::Multiple(vec![1, 2]), Answer::Multiple(vec![2, 1]));
}

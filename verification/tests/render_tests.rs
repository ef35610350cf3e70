use calc_core::answer::Answer;

#[test]
fn a_multiple_is_shown_as_a_brace_list() {
    assert_eq!(Answer::Multiple(vec![2, -2]).to_string(), "{2, -2}");
}

#[test]
fn a_single_is_shown_as_its_value() {
    assert_eq!(Answer::Single(5).to_string(), "5");
    assert_eq!(Answer::Single(-17).to_string(), "-17");
}

#[test]
fn a_multiple_is_shown_in_stored_order() {
    assert_eq!(Answer::Multiple(vec![3, 1, 2]).to_string(), "{3, 1, 2}");
    assert_eq!(Answer::Multiple(vec![2, 1, 3]).to_string(), "{2, 1, 3}");
    assert_eq!(Answer::Multiple(vec![1, 1]).to_string(), "{1, 1}");
}

#[test]
fn a_multiple_with_fewer_than_two_values_is_still_shown() {
    assert_eq!(Answer::<i64>::Multiple(vec![]).to_string(), "{}");
    assert_eq!(Answer::Multiple(vec![7]).to_string(), "{7}");
}

#[test]
fn values_are_shown_by_their_own_display() {
    assert_eq!(Answer::Multiple(vec!['a', 'b']).to_string(), "{a, b}");
    assert_eq!(Answer::Single("text").to_string(), "text");
    assert_eq!(Answer::Multiple(vec![true, false, true]).to_string(), "{true, false, true}");
}

#[test]
fn showing_is_repeatable() {
    let answer = Answer::Multiple(vec![2, -2]);
    assert_eq!(answer.to_string(), answer.to_string());
}

#[test]
fn render_joins_the_given_texts() {
    let texts = Answer::Multiple(vec![String::from("2"), String::from("-2")]);
    assert_eq!(texts.render(), "{2, -2}");
    let texts = Answer::Multiple(vec![String::from("a"), String::from(""), String::from("c")]);
    assert_eq!(texts.render(), "{a, , c}");
}

#[test]
fn render_of_a_single_text_is_the_text() {
    assert_eq!(Answer::Single(String::from("5")).render(), "5");
    assert_eq!(Answer::Single(String::new()).render(), "");
}

#[test]
fn render_of_few_texts() {
    assert_eq!(Answer::<String>::Multiple(vec![]).render(), "{}");
    assert_eq!(Answer::Multiple(vec![String::from("x")]).render(), "{x}");
}

#[test]
fn render_keeps_characters_outside_ascii() {
    let texts = Answer::Multiple(vec![String::from("±1"), String::from("π")]);
    assert_eq!(texts.render(), "{±1, π}");
}

#[test]
fn to_string_agrees_with_render_of_the_shown_values() {
    let answer = Answer::Multiple(vec![10, 6]);
    let texts = Answer::Multiple(vec![10.to_string(), 6.to_string()]);
    assert_eq!(answer.to_string(), texts.render());
}

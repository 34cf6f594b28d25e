use qdl_quiz::{Parser, Question};

fn strings(items: &[&str]) -> Vec<String> {
    items.iter().map(|s| s.to_string()).collect()
}

fn parse(line: &str) -> Question {
    Parser::new(line, "test").next().unwrap().unwrap()
}

#[test]
fn handles_raw_answer() {
    let question = parse("This [is] a [test] progra[m]");

    let answers = strings(&["is", "test", "m"]);

    assert!(question.check_answers(answers).is_none());
}

#[test]
fn handles_one_of_answer() {
    let question = parse("This [is | may be] a [test | real] progra[m | me]");

    let answers = strings(&["is", "test", "m"]);

    assert!(question.check_answers(answers).is_none());

    let answers2 = strings(&["may be", "real", "me"]);

    assert!(question.check_answers(answers2).is_none());
}

#[test]
#[should_panic]
fn handles_multiple_from_single() {
    let question = parse("[fake | answer]");

    let answer = strings(&["fake | answer"]);

    assert!(question.check_answers(answer).is_none());
}

#[test]
fn handles_pool_items() {
    let question = parse("The four seasons are: {1}, {1}, {1} and {1}. The best type of weather is either {2} or {2}; spring, summer, fall, winter; rain, snow, sun");

    let answer = strings(&["summer", "spring", "winter", "fall", "sun", "snow"]);

    assert!(question.check_answers(answer).is_none());
}

#[test]
fn expected_answer_text_on_failure() {
    let question = parse("[a], [b | c], {1}, {2}; e, f; g, h");

    let verdict = question.check_answers(strings(&["c", "a", "j", "m"]));

    assert_eq!(
        verdict,
        Some("a, b OR c, {one of the #1 set}, {one of the #2 set}. Set #1:  e, f. Set #2:  g, h".to_string())
    );
}

#[test]
fn case_and_whitespace_do_not_matter() {
    let question = parse("The [Capital] of [ France ]");
    assert!(question.check_answers(strings(&["  capital ", "FRANCE"])).is_none());
    assert_eq!(
        question.check_answers(strings(&["capitol", "france"])),
        Some("The Capital of France".to_string())
    );
}

#[test]
fn fewer_answers_than_slots_is_wrong() {
    let question = parse("[a] [b]");
    assert_eq!(question.check_answers(strings(&["a"])), Some("a b".to_string()));
    assert!(question.check_answers(strings(&["a", "b", "extra"])).is_none());
}

#[test]
fn pool_items_in_any_order() {
    let question = parse("{1} {1} {1}; x, y, z");
    for order in [["x", "y", "z"], ["z", "x", "y"], ["y", "z", "x"], ["z", "y", "x"]] {
        assert!(question.check_answers(strings(&order)).is_none());
    }
}

#[test]
fn pool_item_used_once() {
    let question = parse("{1} {1}; x, y");
    assert_eq!(
        question.check_answers(strings(&["x", "x"])),
        Some("{one of the #1 set} {one of the #1 set}. Set #1:  x, y".to_string())
    );
    let twice = parse("{1} {1}; x, X");
    assert!(twice.check_answers(strings(&["x", "x"])).is_none());
}

#[test]
fn regrading_starts_fresh() {
    let question = parse("{1} {1}; x, y");
    assert!(question.check_answers(strings(&["x", "y"])).is_none());
    assert!(question.check_answers(strings(&["y", "x"])).is_none());
}

#[test]
fn renderable_shows_text_and_blanks() {
    let question = parse("q [a] r");
    assert_eq!(
        question.renderable(),
        vec![(Some("q ".to_string()), true), (Some(" r".to_string()), false)]
    );
}

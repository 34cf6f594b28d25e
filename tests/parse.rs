use qdl_quiz::{Answer, Parser, Question};

fn message_only(line: &str) -> Result<Question, String> {
    Parser::parse_question(line).map_err(|(_, msg)| msg)
}

#[test]
fn parse_answer_only() {
    let src = "[answer]".to_string();

    let question = Parser::new(&src, "test").next();

    assert_eq!(
        Some(Ok(Question {
            pools: Vec::new(),
            dat: vec![(
                Option::<String>::None,
                Some(Answer::Raw("answer".to_string()))
            )]
        })),
        question
    );
}

#[test]
fn parse_too_many_opens() {
    let src = "[[answer]".to_string();

    let question = message_only(&src);

    assert_eq!(Err(String::from("Unexpected `[`!")), question);
}

#[test]
fn parse_unclosed_answer() {
    let src = "[answer".to_string();

    let question = message_only(&src);

    assert_eq!(Err(String::from("Unexpected end of answer!")), question);
}

#[test]
fn parse_valid_question() {
    let src = "question [answer] question [answer]".to_string();

    let question = Parser::new(&src, "test").next();

    assert_eq!(
        Some(Ok(Question {
            pools: Vec::new(),
            dat: vec![
                (
                    Some("question ".to_string()),
                    Some(Answer::Raw("answer".to_string()))
                ),
                (
                    Some(" question ".to_string()),
                    Some(Answer::Raw("answer".to_string()))
                )
            ]
        })),
        question
    );
}

#[test]
fn parse_unexpected_closer_in_question() {
    let src = "answer]".to_string();

    let question = message_only(&src);

    assert_eq!(Err(String::from("Unexpected `]`!")), question);
}

#[test]
fn parse_unexpected_closer_in_answer() {
    // A `]` that stands where a segment should start is an unexpected
    // closing bracket.
    let src = "[answer]]".to_string();

    let question = message_only(&src);

    assert_eq!(Err(String::from("Unexpected closing bracket!")), question);
}

#[test]
fn parse_one_of_three() {
    let src = "[a1 | a2 | a3]".to_string();

    let question = Parser::new(&src, "test").next();

    assert_eq!(
        Some(Ok(Question {
            dat: vec![(
                None,
                Some(Answer::OneOf(vec![
                    "a1".to_string(),
                    "a2".to_string(),
                    "a3".to_string()
                ]))
            )],
            pools: Vec::new()
        })),
        question
    )
}

#[test]
fn parse_one_shared_pool() {
    let question = Parser::new("{1}; abc", "test").next();

    assert_eq!(
        Some(Ok(Question {
            dat: vec![(None, Some(Answer::SharedPool(0)))],
            pools: vec![vec!["abc".to_string()]]
        })),
        question
    )
}

#[test]
fn parse_multiple_shared_pools() {
    let question = Parser::new("{1}, {1}, {2}, {2}; amogus, sus; cheese, man", "test").next();

    assert_eq!(
        Some(Ok(Question {
            dat: vec![
                (None, Some(Answer::SharedPool(0))),
                (Some(", ".to_string()), Some(Answer::SharedPool(0))),
                (Some(", ".to_string()), Some(Answer::SharedPool(1))),
                (Some(", ".to_string()), Some(Answer::SharedPool(1)))
            ],
            pools: vec![
                vec!["amogus".to_string(), "sus".to_string()],
                vec!["cheese".to_string(), "man".to_string()]
            ]
        })),
        question
    );
}

#[test]
fn error_positions_and_messages() {
    assert_eq!(Parser::parse_question("ab[[x]"), Err((3, "Unexpected `[`!".to_string())));
    assert_eq!(Parser::parse_question("ab [x"), Err((3, "Unexpected end of answer!".to_string())));
    assert_eq!(Parser::parse_question("abc]"), Err((3, "Unexpected `]`!".to_string())));
    assert_eq!(Parser::parse_question("a}b"), Err((1, "Unexpected closing bracket!".to_string())));
    assert_eq!(Parser::parse_question("}"), Err((0, "Unexpected closing bracket!".to_string())));
    assert_eq!(Parser::parse_question("x {1"), Err((2, "Expected end of answer!".to_string())));
    assert_eq!(Parser::parse_question("x {one}; a"), Err((2, "Not a number!".to_string())));
    assert_eq!(Parser::parse_question("{0}; a"), Err((0, "Not a number!".to_string())));
    assert_eq!(Parser::parse_question("{1}; a;; b"), Err((7, "Pool cannot be empty!".to_string())));
}

#[test]
fn pool_count_errors() {
    assert_eq!(
        Parser::parse_question("{1} and {1}"),
        Err((3, "Expected 1 pools, but none were provided!".to_string()))
    );
    assert_eq!(
        Parser::parse_question("{1}, {2}; a"),
        Err((8, "Expected 2 pools, but found 1!".to_string()))
    );
    assert_eq!(
        Parser::parse_question("{1}; a; b"),
        Err((3, "Expected 1 pool, but found 2!".to_string()))
    );
    assert_eq!(
        Parser::parse_question("{1};"),
        Err((3, "Expected 1 pool, but found 0!".to_string()))
    );
    assert_eq!(
        Parser::parse_question("{1} {3}; a; b"),
        Err((7, "Expected 3 pools, but found 2!".to_string()))
    );
}

#[test]
fn pool_numbers_may_carry_sign_and_spaces() {
    assert_eq!(
        Parser::parse_question("{ +2 } {1}; a; b"),
        Ok(Question {
            dat: vec![
                (None, Some(Answer::SharedPool(1))),
                (Some(" ".to_string()), Some(Answer::SharedPool(0)))
            ],
            pools: vec![vec!["a".to_string()], vec!["b".to_string()]]
        })
    );
}

#[test]
fn text_then_pools_and_trailing_text() {
    assert_eq!(
        Parser::parse_question("just text"),
        Ok(Question { dat: vec![(Some("just text".to_string()), None)], pools: vec![] })
    );
    assert_eq!(
        Parser::parse_question("[x] tail; p , q"),
        Ok(Question {
            dat: vec![(None, Some(Answer::Raw("x".to_string()))), (Some(" tail".to_string()), None)],
            pools: vec![vec!["p".to_string(), "q".to_string()]]
        })
    );
    assert_eq!(
        Parser::parse_question("[ a |  | b ]"),
        Ok(Question {
            dat: vec![(
                None,
                Some(Answer::OneOf(vec!["a".to_string(), "".to_string(), "b".to_string()]))
            )],
            pools: vec![]
        })
    );
}

#[test]
fn blank_line_is_an_empty_question() {
    assert_eq!(Parser::parse_question(""), Ok(Question { dat: vec![], pools: vec![] }));
}

#[test]
fn parser_reads_lines_and_formats_errors() {
    let mut parser = Parser::new("[a]\r\n[[b]\n\n{1}; z\n", "quiz.txt");
    assert_eq!(
        parser.next(),
        Some(Ok(Question { dat: vec![(None, Some(Answer::Raw("a".to_string())))], pools: vec![] }))
    );
    assert_eq!(parser.next(), Some(Err("quiz.txt:1:1 Unexpected `[`!".to_string())));
    assert_eq!(parser.next(), Some(Ok(Question { dat: vec![], pools: vec![] })));
    assert_eq!(
        parser.next(),
        Some(Ok(Question {
            dat: vec![(None, Some(Answer::SharedPool(0)))],
            pools: vec![vec!["z".to_string()]]
        }))
    );
    assert_eq!(parser.next(), None);
    assert_eq!(parser.next(), None);
}

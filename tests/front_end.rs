use qdl_quiz::render::{partially_answered, prompt_text, retyped_matches, split_answers};
use qdl_quiz::{Answer, Parser, Question};

fn strings(items: &[&str]) -> Vec<String> {
    items.iter().map(|s| s.to_string()).collect()
}

#[test]
fn prompt_shows_blanks() {
    let question = Parser::parse_question("q [a] r {1}; x").unwrap();
    assert_eq!(prompt_text(&question.renderable()), "q ___ r ___".to_string());
    assert_eq!(prompt_text(&vec![]), String::new());
}

#[test]
fn answers_split_at_commas_after_trimming() {
    assert_eq!(split_answers("  a, b ,c \n"), strings(&["a", " b ", "c"]));
    assert_eq!(split_answers(""), strings(&[""]));
    assert_eq!(split_answers("one"), strings(&["one"]));
    assert_eq!(split_answers(",,"), strings(&["", "", ""]));
}

#[test]
fn retyped_correction_ignores_case_and_spaces() {
    assert!(retyped_matches("The Answer", "  the ANSWER \n"));
    assert!(!retyped_matches("x", "y"));
}

#[test]
fn partially_answered_question() {
    let items = vec![
        (Some("A ".to_string()), true),
        (Some(" B ".to_string()), true),
        (Some(" C ".to_string()), true),
    ];
    assert_eq!(
        partially_answered(&items, &strings(&["x"]), "y"),
        ("A x B y".to_string(), " C ___".to_string())
    );
    assert_eq!(
        partially_answered(&items, &strings(&["x", "y", "z"]), ""),
        (String::new(), "A x B y C z".to_string())
    );
    assert_eq!(
        partially_answered(&items, &vec![], "t"),
        ("A t".to_string(), " B ___ C ___".to_string())
    );
}

#[test]
fn well_formedness() {
    assert!(Parser::parse_question("{1} {2}; a; b").unwrap().is_well_formed());
    let broken = Question { dat: vec![(None, Some(Answer::SharedPool(1)))], pools: vec![vec!["a".to_string()]] };
    assert!(!broken.is_well_formed());
}

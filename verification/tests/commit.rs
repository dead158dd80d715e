use noil::commit::{announce, change_line, decide, read_answer, read_lowered, Action, Answer};
use noil::parse::parse_input;

#[test]
fn answers_are_read_without_case_and_space() {
    assert_eq!(read_answer("y"), Answer::Yes);
    assert_eq!(read_answer("Y\n"), Answer::Yes);
    assert_eq!(read_answer("  n \r\n"), Answer::No);
    assert_eq!(read_answer("N"), Answer::No);
    assert_eq!(read_answer("e"), Answer::Edit);
    assert_eq!(read_answer("E"), Answer::Edit);
    assert_eq!(read_answer(""), Answer::Edit);
    assert_eq!(read_answer(" \n"), Answer::Edit);
    assert_eq!(read_answer("yes"), Answer::Unclear);
    assert_eq!(read_answer("y n"), Answer::Unclear);
    assert_eq!(read_answer("q"), Answer::Unclear);
}

#[test]
fn lowered_answers_are_taken_as_they_are() {
    assert_eq!(read_lowered("y"), Answer::Yes);
    assert_eq!(read_lowered("n"), Answer::No);
    assert_eq!(read_lowered("e"), Answer::Edit);
    assert_eq!(read_lowered(""), Answer::Edit);
    assert_eq!(read_lowered("Y"), Answer::Unclear);
    assert_eq!(read_lowered(" y"), Answer::Unclear);
}

#[test]
fn decision_follows_the_answer() {
    assert_eq!(
        decide(false, Answer::Yes, "abc : /a"),
        Action::Apply {
            original: "abc : /a".into()
        }
    );
    assert_eq!(decide(false, Answer::No, "abc : /a"), Action::Quit);
    assert_eq!(decide(false, Answer::Edit, "abc : /a"), Action::Edit);
    assert_eq!(decide(false, Answer::Unclear, "abc : /a"), Action::Edit);
}

#[test]
fn preview_never_applies() {
    for answer in [Answer::Yes, Answer::No, Answer::Edit, Answer::Unclear] {
        assert_eq!(decide(true, answer, "abc : /a"), Action::Quit);
    }
}

#[test]
fn change_lines_show_what_is_there() {
    assert_eq!(
        change_line("MOVE", Some("abc"), Some("/dst/a.txt")),
        "  - MOVE (abc) - /dst/a.txt"
    );
    assert_eq!(change_line("MOVE", Some("abc"), None), "  - MOVE (abc)");
    assert_eq!(change_line("ADD", None, Some("/new")), "  - ADD - /new");
    assert_eq!(change_line("ADD", None, None), "  - ADD");
}

#[test]
fn only_changes_are_announced() {
    let buffer = parse_input("abc : /a\nA : /new\nC abc : /copy\nD abc : /a\nM abc : /b").unwrap();
    let lines: Vec<Option<String>> = buffer.files.iter().map(announce).collect();
    assert_eq!(
        lines,
        vec![
            None,
            Some("  - \u{1b}[1;32mADD\u{1b}[0m - /new".to_string()),
            Some("  - \u{1b}[1;34mCOPY\u{1b}[0m (abc) - /copy".to_string()),
            Some("  - \u{1b}[1;31mDELETE\u{1b}[0m (abc) - /a".to_string()),
            Some("  - \u{1b}[1;38;2;224;145;64mMOVE\u{1b}[0m (abc) - /b".to_string()),
        ]
    );
}

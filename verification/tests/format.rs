use noil::format::format_buffer;
use noil::models::{Buffer, File, FileEntry, Operation, ParseError};
use noil::parse::parse_input;

#[test]
fn can_format_complex_file() {
    let input = r#"
C asdf : /Somasdlf
as    :      /bla/bla/bla
MOVE assdfasdf    :    /bla/bla/bla
RENAME asdf23 : /bla/bla/bla
a : /bla/bla/bla

123 :     /123123/1231
        "#;

    let expected = r#"
COPY   asdf        :   /Somasdlf
       as          :   /bla/bla/bla
MOVE   assdfasdf   :   /bla/bla/bla
MOVE   asdf23      :   /bla/bla/bla
       a           :   /bla/bla/bla
       123         :   /123123/1231
        "#
    .trim();

    let output = noil::format::format(input).unwrap();

    assert_eq!(expected, &output);
}

#[test]
fn can_format_no_op() {
    let input = r#"
asdf : /Somasdlf
as    :      /bla/bla/bla
   assdfasdf    :    /bla/bla/bla
 asdf23 : /bla/bla/bla
a : /bla/bla/bla

123 :     /123123/1231
        "#;

    let expected = r#"
asdf        :   /Somasdlf
as          :   /bla/bla/bla
assdfasdf   :   /bla/bla/bla
asdf23      :   /bla/bla/bla
a           :   /bla/bla/bla
123         :   /123123/1231
        "#
    .trim();

    let output = noil::format::format(input).unwrap();

    assert_eq!(expected, &output);
}

#[test]
fn format_of_nothing_is_empty() {
    assert_eq!(noil::format::format("").unwrap(), "");
    assert_eq!(noil::format::format("no separator here\n\n").unwrap(), "");
    assert_eq!(format_buffer(&Buffer { files: vec![] }), "");
}

#[test]
fn format_reports_the_parse_error() {
    assert_eq!(
        noil::format::format("abc : /a\nC : /copy"),
        Err(ParseError::UnsupportedOperation {
            operation: "C".into()
        })
    );
}

#[test]
fn format_leaves_out_a_column_that_is_empty_everywhere() {
    assert_eq!(
        noil::format::format("A : /one\nADD : /two/").unwrap(),
        "ADD   :   /one\nADD   :   /two/"
    );
    let buffer = Buffer {
        files: vec![File {
            path: "/p".into(),
            entry: FileEntry {
                raw_op: None,
                operation: Operation::Existing { index: "".into() },
            },
        }],
    };
    assert_eq!(format_buffer(&buffer), ":   /p");
}

#[test]
fn format_pads_by_characters() {
    assert_eq!(
        noil::format::format("D \u{e9}t\u{e9} : /x\nabcd : /y").unwrap(),
        "DELETE   \u{e9}t\u{e9}    :   /x\n         abcd   :   /y"
    );
}

#[test]
fn format_keeps_the_open_verb() {
    let buffer = Buffer {
        files: vec![
            File {
                path: "/a".into(),
                entry: FileEntry {
                    raw_op: Some("O".into()),
                    operation: Operation::Open { index: "ab".into() },
                },
            },
            File {
                path: "/b".into(),
                entry: FileEntry {
                    raw_op: None,
                    operation: Operation::Add,
                },
            },
        ],
    };
    assert_eq!(format_buffer(&buffer), "OPEN   ab   :   /a\nADD         :   /b");
}

#[test]
fn formatted_text_parses_to_the_same_entries() {
    let input = "C asdf : /Somasdlf\nas : /bla\n\nM as : /dst/bla\nA : /new/dir/\nDEL asdf : /Somasdlf";
    let first = parse_input(input).unwrap();
    let second = parse_input(&noil::format::format(input).unwrap()).unwrap();
    assert_eq!(first.files.len(), second.files.len());
    for (a, b) in first.files.iter().zip(second.files.iter()) {
        assert_eq!(a.path, b.path);
        assert_eq!(a.entry.operation, b.entry.operation);
    }
    assert_eq!(second.files[0].entry.raw_op, Some("COPY".to_string()));
    assert_eq!(noil::format::format(&noil::format::format(input).unwrap()), noil::format::format(input));
}

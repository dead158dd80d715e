use noil::models::{Buffer, File, FileEntry, Operation, ParseError};
use noil::parse::parse_input;

fn existing(path: &str, index: &str) -> File {
    File {
        path: path.into(),
        entry: FileEntry {
            raw_op: None,
            operation: Operation::Existing {
                index: index.into(),
            },
        },
    }
}

fn entry(path: &str, raw_op: &str, operation: Operation) -> File {
    File {
        path: path.into(),
        entry: FileEntry {
            raw_op: Some(raw_op.into()),
            operation,
        },
    }
}

#[test]
fn can_parse_item() {
    let input = r#"
abc  : /var/my                
ecd  : /var/my/path                
"#;

    let output = parse_input(input).unwrap();

    assert_eq!(
        Buffer {
            files: vec![
                File {
                    path: "/var/my".into(),
                    entry: FileEntry {
                        raw_op: None,
                        operation: Operation::Existing {
                            index: "abc".into()
                        },
                    },
                },
                File {
                    path: "/var/my/path".into(),
                    entry: FileEntry {
                        raw_op: None,
                        operation: Operation::Existing {
                            index: "ecd".into()
                        }
                    }
                }
            ]
        },
        output
    );
}

#[test]
fn can_parse_item_add_operation() {
    let input = r#"
abc  : /var/my                
ecd  : /var/my/path                
A    : /var/my/path/new-path                
ADD  : /var/my/path/new-long-path                
"#;

    let output = parse_input(input).unwrap();

    assert_eq!(
        Buffer {
            files: vec![
                File {
                    path: "/var/my".into(),
                    entry: FileEntry {
                        raw_op: None,
                        operation: Operation::Existing {
                            index: "abc".into()
                        }
                    },
                },
                File {
                    path: "/var/my/path".into(),
                    entry: FileEntry {
                        raw_op: None,
                        operation: Operation::Existing {
                            index: "ecd".into()
                        }
                    },
                },
                File {
                    path: "/var/my/path/new-path".into(),
                    entry: FileEntry {
                        raw_op: Some("A".into()),
                        operation: Operation::Add,
                    },
                },
                File {
                    path: "/var/my/path/new-long-path".into(),
                    entry: FileEntry {
                        raw_op: Some("ADD".into()),
                        operation: Operation::Add,
                    }
                }
            ]
        },
        output
    );
}

#[test]
fn can_parse_item_copy_operation() {
    let input = r#"
abc      : /var/my                
ecd      : /var/my/path                
C    abc : /var/my/path/copy-into                
COPY ecd : /var/my/path/copy-into-long                
"#;

    let output = parse_input(input).unwrap();

    assert_eq!(
        Buffer {
            files: vec![
                File {
                    path: "/var/my".into(),
                    entry: FileEntry {
                        raw_op: None,
                        operation: Operation::Existing {
                            index: "abc".into()
                        }
                    },
                },
                File {
                    path: "/var/my/path".into(),
                    entry: FileEntry {
                        raw_op: None,
                        operation: Operation::Existing {
                            index: "ecd".into()
                        }
                    },
                },
                File {
                    path: "/var/my/path/copy-into".into(),
                    entry: FileEntry {
                        raw_op: Some("C".into()),
                        operation: Operation::Copy {
                            index: "abc".into()
                        },
                    },
                },
                File {
                    path: "/var/my/path/copy-into-long".into(),
                    entry: FileEntry {
                        raw_op: Some("COPY".into()),
                        operation: Operation::Copy {
                            index: "ecd".into()
                        },
                    }
                }
            ]
        },
        output
    );
}

#[test]
fn can_parse_item_delete_operation() {
    let input = r#"
D abc           : /var/my                
DEL ecd         : /var/my/path                
DELETE ecd      : /var/my/path                
"#;

    let output = parse_input(input).unwrap();

    assert_eq!(
        Buffer {
            files: vec![
                File {
                    path: "/var/my".into(),
                    entry: FileEntry {
                        raw_op: Some("D".into()),
                        operation: Operation::Delete {
                            index: "abc".into()
                        }
                    },
                },
                File {
                    path: "/var/my/path".into(),
                    entry: FileEntry {
                        raw_op: Some("DEL".into()),
                        operation: Operation::Delete {
                            index: "ecd".into()
                        }
                    },
                },
                File {
                    path: "/var/my/path".into(),
                    entry: FileEntry {
                        raw_op: Some("DELETE".into()),
                        operation: Operation::Delete {
                            index: "ecd".into()
                        }
                    },
                },
            ]
        },
        output
    );
}

#[test]
fn can_parse_item_move_operation() {
    let input = r#"
abc        : /var/my
ecd        : /var/my/path
M abc      : /var/my/some-different-place
MV ecd     : /var/my/some-different-place
MOVE ecd   : /var/my/some-different-place
RENAME ecd : /var/my/some-different-place
"#;

    let output = parse_input(input).unwrap();

    assert_eq!(
        Buffer {
            files: vec![
                File {
                    path: "/var/my".into(),
                    entry: FileEntry {
                        raw_op: None,
                        operation: Operation::Existing {
                            index: "abc".into()
                        }
                    },
                },
                File {
                    path: "/var/my/path".into(),
                    entry: FileEntry {
                        raw_op: None,
                        operation: Operation::Existing {
                            index: "ecd".into()
                        }
                    },
                },
                File {
                    path: "/var/my/some-different-place".into(),
                    entry: FileEntry {
                        raw_op: Some("M".into()),
                        operation: Operation::Move {
                            index: "abc".into()
                        }
                    },
                },
                File {
                    path: "/var/my/some-different-place".into(),
                    entry: FileEntry {
                        raw_op: Some("MV".into()),
                        operation: Operation::Move {
                            index: "ecd".into()
                        }
                    },
                },
                File {
                    path: "/var/my/some-different-place".into(),
                    entry: FileEntry {
                        raw_op: Some("MOVE".into()),
                        operation: Operation::Move {
                            index: "ecd".into()
                        }
                    },
                },
                File {
                    path: "/var/my/some-different-place".into(),
                    entry: FileEntry {
                        raw_op: Some("RENAME".into()),
                        operation: Operation::Move {
                            index: "ecd".into()
                        }
                    },
                },
            ]
        },
        output
    );
}

#[test]
fn classifies_each_kind_of_line() {
    assert_eq!(
        parse_input("abc : /var/my").unwrap().files,
        vec![existing("/var/my", "abc")]
    );
    assert_eq!(
        parse_input("A : /new").unwrap().files,
        vec![entry("/new", "A", Operation::Add)]
    );
    assert_eq!(
        parse_input("C abc : /copy").unwrap().files,
        vec![entry(
            "/copy",
            "C",
            Operation::Copy {
                index: "abc".into()
            }
        )]
    );
    assert_eq!(
        parse_input("DELETE abc : /var/my").unwrap().files,
        vec![entry(
            "/var/my",
            "DELETE",
            Operation::Delete {
                index: "abc".into()
            }
        )]
    );
    assert_eq!(
        parse_input("RENAME abc : /new/place").unwrap().files,
        vec![entry(
            "/new/place",
            "RENAME",
            Operation::Move {
                index: "abc".into()
            }
        )]
    );
}

#[test]
fn copy_without_index_is_an_error() {
    assert_eq!(
        parse_input("C : /copy"),
        Err(ParseError::UnsupportedOperation {
            operation: "C".into()
        })
    );
}

#[test]
fn verbs_are_case_sensitive() {
    assert_eq!(
        parse_input("Copy abc : /copy"),
        Err(ParseError::UnsupportedOperation {
            operation: "Copy".into()
        })
    );
    assert_eq!(
        parse_input("add : /new").unwrap().files,
        vec![existing("/new", "add")]
    );
}

#[test]
fn add_with_an_operand_is_an_error() {
    assert_eq!(
        parse_input("ADD abc : /new"),
        Err(ParseError::UnsupportedOperation {
            operation: "ADD".into()
        })
    );
}

#[test]
fn unknown_verb_is_named_in_the_error() {
    let error = parse_input("abc : /a\nOPEN abc : /a\nC : /x").unwrap_err();
    assert_eq!(
        error,
        ParseError::UnsupportedOperation {
            operation: "OPEN".into()
        }
    );
    assert_eq!(error.to_string(), "operation: OPEN is not supported");
}

#[test]
fn lines_without_separator_are_skipped() {
    let buffer = parse_input("\n\nnot a recipe line\nabc: /no\nabc :/no\n  \t \nabc : /yes\n").unwrap();
    assert_eq!(buffer.files, vec![existing("/yes", "abc")]);
    assert_eq!(parse_input("").unwrap().files, vec![]);
}

#[test]
fn split_is_made_at_the_last_separator() {
    let buffer = parse_input("C my index : abc : /target").unwrap();
    assert_eq!(
        buffer.files,
        vec![entry(
            "/target",
            "C",
            Operation::Copy {
                index: "abc".into()
            }
        )]
    );
    let buffer = parse_input("abc : /with : colon").unwrap_err();
    assert_eq!(
        buffer,
        ParseError::UnsupportedOperation {
            operation: "abc".into()
        }
    );
}

#[test]
fn whitespace_around_both_sides_is_ignored() {
    let buffer = parse_input("\t  M   abc \u{a0} :  \t /dst/a.txt \r\n").unwrap();
    assert_eq!(
        buffer.files,
        vec![entry(
            "/dst/a.txt",
            "M",
            Operation::Move {
                index: "abc".into()
            }
        )]
    );
}

#[test]
fn repeated_lone_token_is_an_index() {
    assert_eq!(
        parse_input("abc abc : /p").unwrap().files,
        vec![existing("/p", "abc")]
    );
}

#[test]
fn uppercase_beyond_ascii_is_no_index() {
    assert_eq!(
        parse_input("\u{394}x : /p"),
        Err(ParseError::UnsupportedOperation {
            operation: "\u{394}x".into()
        })
    );
    assert_eq!(
        parse_input("\u{3b4}x : /p").unwrap().files,
        vec![existing("/p", "\u{3b4}x")]
    );
}

#[test]
fn file_entry_parse_reads_the_left_side() {
    assert_eq!(
        FileEntry::parse("MV abc"),
        Ok(FileEntry {
            raw_op: Some("MV".into()),
            operation: Operation::Move {
                index: "abc".into()
            }
        })
    );
    assert_eq!(
        FileEntry::parse(""),
        Ok(FileEntry {
            raw_op: None,
            operation: Operation::Existing { index: "".into() }
        })
    );
    assert_eq!(
        FileEntry::parse("DEL"),
        Err(ParseError::UnsupportedOperation {
            operation: "DEL".into()
        })
    );
}

#[test]
fn get_existing_finds_the_first_declaration() {
    let buffer = parse_input("abc : /first\nC abc : /copy\nabc : /second\nxyz : /other").unwrap();
    assert_eq!(buffer.get_existing("abc"), Some(&existing("/first", "abc")));
    assert_eq!(buffer.get_existing("xyz"), Some(&existing("/other", "xyz")));
    assert_eq!(buffer.get_existing("ab"), None);
    assert_eq!(buffer.get_existing("/copy"), None);
}

#[test]
fn operation_to_string_is_the_long_verb() {
    let index = || String::from("abc");
    assert_eq!(Operation::Existing { index: index() }.to_string(), "");
    assert_eq!(Operation::Add.to_string(), "ADD");
    assert_eq!(Operation::Copy { index: index() }.to_string(), "COPY");
    assert_eq!(Operation::Delete { index: index() }.to_string(), "DELETE");
    assert_eq!(Operation::Move { index: index() }.to_string(), "MOVE");
    assert_eq!(Operation::Open { index: index() }.to_string(), "OPEN");
    assert_eq!(Operation::Add.index(), None);
    assert_eq!(Operation::Move { index: index() }.index(), Some(&index()));
}

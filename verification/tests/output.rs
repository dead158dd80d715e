use noil::find_prefix::shortest_unique_prefixes;
use noil::apply::PathKind;
use noil::output::{
    code_of, get_outputs, listing, listing_root, path_key_of, show_path, Found, ListingLine,
    RootError,
};

fn found(path: &str, is_dir: bool) -> Found {
    Found {
        path: path.into(),
        is_dir,
    }
}

fn tree() -> Vec<Found> {
    vec![
        found("proj/src/main.rs", false),
        found("proj", true),
        found("proj/src", true),
        found("proj/README.md", false),
        found("proj/src-old", true),
        found("proj/src/lib.rs", false),
        found("proj/src-old/main.rs", false),
    ]
}

#[test]
fn code_is_the_digest_in_base_36() {
    assert_eq!(
        code_of(""),
        "endgql195xu4fwxulr9oy5xp1cknl6099zowfpy81kc2f4bilw"
    );
    assert_ne!(code_of("a"), code_of("b"));
    assert_eq!(code_of("proj/src"), code_of("proj/src"));
    assert_ne!(code_of("proj/src"), "proj/src");
}

#[test]
fn listing_is_in_path_order() {
    let lines = listing(&tree());
    let paths: Vec<&str> = lines.iter().map(|l| l.path.as_str()).collect();
    assert_eq!(
        paths,
        vec![
            "proj/",
            "proj/README.md",
            "proj/src/",
            "proj/src/lib.rs",
            "proj/src/main.rs",
            "proj/src-old/",
            "proj/src-old/main.rs",
        ]
    );
}

#[test]
fn identifiers_are_the_global_prefixes_of_the_codes() {
    let entries = tree();
    let mut codes: Vec<String> = entries.iter().map(|e| code_of(&e.path)).collect();
    codes.sort();
    let sorted: Vec<&str> = codes.iter().map(|c| c.as_str()).collect();
    let (len, _, individual) = shortest_unique_prefixes(&sorted);
    assert!(len >= 1);

    let lines = listing(&entries);
    assert_eq!(lines.len(), entries.len());
    for line in &lines {
        let path = line.path.trim_end_matches('/');
        let code = code_of(path);
        let identifier = format!("{}{}", line.individual, line.remainder);
        assert_eq!(identifier, &code[..len]);
        let at = codes.iter().position(|c| *c == code).unwrap();
        assert_eq!(line.individual, individual[at]);
    }
    for (i, a) in lines.iter().enumerate() {
        for b in &lines[..i] {
            assert_ne!(
                format!("{}{}", a.individual, a.remainder),
                format!("{}{}", b.individual, b.remainder)
            );
        }
    }
}

#[test]
fn text_of_a_line_has_three_columns() {
    let line = ListingLine {
        individual: "k3".into(),
        remainder: "x9".into(),
        path: "proj/src/".into(),
    };
    assert_eq!(line.text(), "   k3x9   :   proj/src/");
}

#[test]
fn outputs_are_the_lines_one_under_the_other() {
    let entries = tree();
    let expected: Vec<String> = listing(&entries).iter().map(|l| l.text()).collect();
    assert_eq!(get_outputs(&entries, true), expected.join("\n"));
    assert_eq!(get_outputs(&[], true), "");
    assert_eq!(get_outputs(&[], false), "");
    let one = [found("solo.txt", false)];
    assert_eq!(get_outputs(&one, true), "      :   solo.txt");
    assert_eq!(get_outputs(&one, false), "      :   solo.txt");
}

#[test]
fn listing_can_be_parsed_as_a_recipe() {
    let entries = tree();
    let buffer = noil::parse::parse_input(&get_outputs(&entries, true)).unwrap();
    assert_eq!(buffer.files.len(), entries.len());
    for (file, line) in buffer.files.iter().zip(listing(&entries)) {
        assert_eq!(file.path, line.path);
        assert_eq!(
            file.entry.operation,
            noil::models::Operation::Existing {
                index: format!("{}{}", line.individual, line.remainder)
            }
        );
    }
}

#[test]
fn directories_are_shown_with_a_slash() {
    assert_eq!(show_path(&found("a/b", true)), "a/b/");
    assert_eq!(show_path(&found("a/b/", true)), "a/b/");
    assert_eq!(show_path(&found("a/b/ ", true)), "a/b/ ");
    assert_eq!(show_path(&found("a/b", false)), "a/b");
    assert_eq!(show_path(&found("", true)), "/");
}

#[test]
fn path_key_puts_the_slash_first() {
    let chars: Vec<char> = "a/-".chars().collect();
    assert_eq!(path_key_of(&chars), vec![98, 0, 46]);
}

#[test]
fn same_path_twice_keeps_the_order_found() {
    let entries = vec![found("x", true), found("a", false), found("x", false)];
    let lines = listing(&entries);
    let paths: Vec<&str> = lines.iter().map(|l| l.path.as_str()).collect();
    assert_eq!(paths, vec!["a", "x/", "x"]);
}

#[test]
fn root_of_a_listing() {
    assert_eq!(
        listing_root("proj/src", PathKind::Directory, Some("proj")),
        Ok("proj/src".to_string())
    );
    assert_eq!(
        listing_root("proj/src/main.rs", PathKind::File, Some("proj/src")),
        Ok("proj/src".to_string())
    );
    assert_eq!(
        listing_root("main.rs", PathKind::File, Some("")),
        Ok(".".to_string())
    );
    assert_eq!(
        listing_root("main.rs", PathKind::File, None),
        Err(RootError::NoParent)
    );
    assert_eq!(
        listing_root("nowhere", PathKind::Missing, Some("")),
        Err(RootError::Missing)
    );
}

#[test]
fn remainder_can_be_dressed() {
    let line = ListingLine {
        individual: "k3".into(),
        remainder: "x9".into(),
        path: "proj/src/".into(),
    };
    assert_eq!(line.text_with("<x9>"), "   k3<x9>   :   proj/src/");
    assert_eq!(line.text_with(&line.remainder), line.text());
}

#[test]
fn colours_dim_the_remainder() {
    let line = ListingLine {
        individual: "k3".into(),
        remainder: "x9".into(),
        path: "proj/src/".into(),
    };
    assert_eq!(line.shown(true), "   k3x9   :   proj/src/");
    assert_eq!(
        line.shown(false),
        "   k3\u{1b}[2mx9\u{1b}[0m   :   proj/src/"
    );
    let whole = ListingLine {
        individual: "k3x9".into(),
        remainder: "".into(),
        path: "a".into(),
    };
    assert_eq!(whole.shown(false), "   k3x9   :   a");

    let entries = tree();
    let expected: Vec<String> = listing(&entries).iter().map(|l| l.shown(false)).collect();
    assert_eq!(get_outputs(&entries, false), expected.join("\n"));
}

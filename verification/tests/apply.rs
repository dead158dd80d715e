use noil::apply::{
    chooser_contents, chooser_output, is_directory_path, plan_entry, ApplyError, ApplyOptions,
    PathKind, Step, Warning,
};
use noil::models::{Buffer, File, FileEntry, Operation};
use noil::parse::parse_input;

const KINDS: [PathKind; 3] = [PathKind::Missing, PathKind::File, PathKind::Directory];

fn recipe() -> Buffer {
    parse_input(
        "abc : /src/a.txt\nxyz : /src/b/\nA : /new/file\nA : /new/dir/\nC abc : /copy\n\
         D xyz : /src/b/\nM abc : /dst/a.txt\nC nope : /copy2\nD nope : /gone\nM nope : /moved",
    )
    .unwrap()
}

fn open(path: &str) -> File {
    File {
        path: path.into(),
        entry: FileEntry {
            raw_op: Some("O".into()),
            operation: Operation::Open {
                index: "abc".into(),
            },
        },
    }
}

/// The disk as one run sees it: only the two paths of one entry.
fn after(step: Step, source: PathKind, target: PathKind) -> (PathKind, PathKind) {
    match step {
        Step::Nothing | Step::Skip(_) | Step::Open => (source, target),
        Step::CreateDirectory => (source, PathKind::Directory),
        Step::CreateFile => (source, PathKind::File),
        Step::CopyFile => (source, PathKind::File),
        Step::CopyTree => (source, PathKind::Directory),
        Step::RemoveFile | Step::RemoveTree => (PathKind::Missing, target),
        Step::Rename => (PathKind::Missing, source),
    }
}

#[test]
fn existing_entries_are_left_alone() {
    let buffer = recipe();
    for source in KINDS {
        for target in KINDS {
            assert_eq!(
                plan_entry(&buffer, &buffer.files[0], source, target),
                Ok(Step::Nothing)
            );
        }
    }
}

#[test]
fn add_creates_what_is_missing() {
    let buffer = recipe();
    let file = &buffer.files[2];
    let dir = &buffer.files[3];
    for source in KINDS {
        assert_eq!(
            plan_entry(&buffer, file, source, PathKind::Missing),
            Ok(Step::CreateFile)
        );
        assert_eq!(
            plan_entry(&buffer, dir, source, PathKind::Missing),
            Ok(Step::CreateDirectory)
        );
        for target in [PathKind::File, PathKind::Directory] {
            assert_eq!(
                plan_entry(&buffer, file, source, target),
                Ok(Step::Skip(Warning::TargetExists))
            );
            assert_eq!(
                plan_entry(&buffer, dir, source, target),
                Ok(Step::Skip(Warning::TargetExists))
            );
        }
    }
}

#[test]
fn copy_needs_its_source() {
    let buffer = recipe();
    let copy = &buffer.files[4];
    assert_eq!(buffer.source_of(&copy.entry.operation), Some(&"/src/a.txt".to_string()));
    assert_eq!(
        plan_entry(&buffer, copy, PathKind::File, PathKind::Missing),
        Ok(Step::CopyFile)
    );
    assert_eq!(
        plan_entry(&buffer, copy, PathKind::Directory, PathKind::Missing),
        Ok(Step::CopyTree)
    );
    assert_eq!(
        plan_entry(&buffer, copy, PathKind::File, PathKind::File),
        Ok(Step::Skip(Warning::TargetExists))
    );
    assert_eq!(
        plan_entry(&buffer, copy, PathKind::Directory, PathKind::Directory),
        Ok(Step::Skip(Warning::TargetExists))
    );
    for target in KINDS {
        assert_eq!(
            plan_entry(&buffer, copy, PathKind::Missing, target),
            Err(ApplyError::MissingSource)
        );
    }
}

#[test]
fn delete_removes_the_source() {
    let buffer = recipe();
    let delete = &buffer.files[5];
    assert_eq!(buffer.source_of(&delete.entry.operation), Some(&"/src/b/".to_string()));
    for target in KINDS {
        assert_eq!(
            plan_entry(&buffer, delete, PathKind::Directory, target),
            Ok(Step::RemoveTree)
        );
        assert_eq!(
            plan_entry(&buffer, delete, PathKind::File, target),
            Ok(Step::RemoveFile)
        );
        assert_eq!(
            plan_entry(&buffer, delete, PathKind::Missing, target),
            Ok(Step::Skip(Warning::SourceGone))
        );
    }
}

#[test]
fn move_refuses_to_overwrite() {
    let buffer = recipe();
    let mv = &buffer.files[6];
    for source in [PathKind::File, PathKind::Directory] {
        assert_eq!(
            plan_entry(&buffer, mv, source, PathKind::Missing),
            Ok(Step::Rename)
        );
        for target in [PathKind::File, PathKind::Directory] {
            assert_eq!(
                plan_entry(&buffer, mv, source, target),
                Err(ApplyError::TargetOccupied)
            );
        }
    }
    assert_eq!(
        plan_entry(&buffer, mv, PathKind::Missing, PathKind::File),
        Ok(Step::Skip(Warning::AlreadyMoved))
    );
    assert_eq!(
        plan_entry(&buffer, mv, PathKind::Missing, PathKind::Missing),
        Err(ApplyError::NothingToMove)
    );
}

#[test]
fn unknown_index_stops_copy_and_delete() {
    let buffer = recipe();
    for source in KINDS {
        for target in KINDS {
            assert_eq!(
                plan_entry(&buffer, &buffer.files[7], source, target),
                Err(ApplyError::UnknownIndex)
            );
            assert_eq!(
                plan_entry(&buffer, &buffer.files[8], source, target),
                Err(ApplyError::UnknownIndex)
            );
        }
    }
    assert_eq!(buffer.source_of(&buffer.files[7].entry.operation), None);
}

#[test]
fn move_without_owner_counts_as_source_gone() {
    let buffer = recipe();
    let mv = &buffer.files[9];
    for source in KINDS {
        assert_eq!(
            plan_entry(&buffer, mv, source, PathKind::Directory),
            Ok(Step::Skip(Warning::AlreadyMoved))
        );
        assert_eq!(
            plan_entry(&buffer, mv, source, PathKind::Missing),
            Err(ApplyError::NothingToMove)
        );
    }
}

#[test]
fn open_notes_files_only() {
    let buffer = recipe();
    for source in KINDS {
        for target in KINDS {
            assert_eq!(
                plan_entry(&buffer, &open("/src/a.txt"), source, target),
                Ok(Step::Open)
            );
            assert_eq!(
                plan_entry(&buffer, &open("/src/b/"), source, target),
                Ok(Step::Nothing)
            );
        }
    }
}

#[test]
fn second_run_only_warns() {
    let buffer = recipe();
    for file in &buffer.files {
        for source in KINDS {
            for target in KINDS {
                let Ok(step) = plan_entry(&buffer, file, source, target) else {
                    continue;
                };
                let (source, target) = after(step, source, target);
                let again = plan_entry(&buffer, file, source, target).unwrap();
                assert!(matches!(again, Step::Nothing | Step::Skip(_)));
                if !matches!(step, Step::Nothing | Step::Skip(_)) {
                    assert!(matches!(again, Step::Skip(_)));
                }
            }
        }
    }
}

#[test]
fn edited_listing_moves_one_file() {
    // a.txt and b/ were listed; the user added a line that moves a.txt
    let buffer = parse_input("abc : /src/a.txt\nxyz : /src/b/\nM abc : /dst/a.txt").unwrap();
    assert_eq!(
        plan_entry(&buffer, &buffer.files[0], PathKind::Missing, PathKind::File),
        Ok(Step::Nothing)
    );
    assert_eq!(
        plan_entry(&buffer, &buffer.files[1], PathKind::Missing, PathKind::Directory),
        Ok(Step::Nothing)
    );
    let mv = &buffer.files[2];
    assert_eq!(buffer.source_of(&mv.entry.operation), Some(&"/src/a.txt".to_string()));
    assert_eq!(mv.path, "/dst/a.txt");
    assert_eq!(
        plan_entry(&buffer, mv, PathKind::File, PathKind::Missing),
        Ok(Step::Rename)
    );
    // run again: the file is at its new place
    assert_eq!(
        plan_entry(&buffer, mv, PathKind::Missing, PathKind::File),
        Ok(Step::Skip(Warning::AlreadyMoved))
    );
}

#[test]
fn directory_paths_end_in_a_slash() {
    assert!(is_directory_path("/a/b/"));
    assert!(is_directory_path("/"));
    assert!(!is_directory_path("/a/b"));
    assert!(!is_directory_path(""));
    assert!(!is_directory_path("/a/b/ "));
}

#[test]
fn chooser_lists_opened_files() {
    let buffer = Buffer {
        files: vec![
            open("/one"),
            open("/dir/"),
            parse_input("abc : /kept").unwrap().files.remove(0),
            open("/two"),
            open("/three"),
        ],
    };
    assert_eq!(chooser_contents(&buffer), "/one\n/two\n/three");
    assert_eq!(chooser_contents(&recipe()), "");
    assert_eq!(chooser_contents(&Buffer { files: vec![open("/only")] }), "/only");
}

#[test]
fn chooser_is_written_only_when_set() {
    let buffer = Buffer {
        files: vec![open("/one"), open("/two")],
    };
    let unset = ApplyOptions::default();
    assert_eq!(unset.chooser_file, None);
    assert!(!unset.quiet);
    assert_eq!(chooser_output(&buffer, &unset), None);
    let set = ApplyOptions {
        chooser_file: Some("/tmp/chosen".into()),
        quiet: true,
    };
    assert_eq!(
        chooser_output(&buffer, &set),
        Some(("/tmp/chosen".to_string(), "/one\n/two".to_string()))
    );
}

#[test]
fn warnings_and_errors_have_words() {
    assert_eq!(Warning::TargetExists.to_string(), "path already exists");
    assert_eq!(Warning::SourceGone.to_string(), "path doesn't exist");
    assert_eq!(
        Warning::AlreadyMoved.to_string(),
        "destination file looks to already have been moved"
    );
    assert_eq!(
        ApplyError::UnknownIndex.to_string(),
        "no entry with this index exists"
    );
    assert_eq!(
        ApplyError::MissingSource.to_string(),
        "existing does not exist for copy"
    );
    assert_eq!(
        ApplyError::NothingToMove.to_string(),
        "neither existing, or destination exists for move"
    );
    assert_eq!(
        ApplyError::TargetOccupied.to_string(),
        "destination already exists cannot move"
    );
}

#[test]
fn failure_names_verb_index_and_path() {
    let buffer = recipe();
    assert_eq!(
        noil::apply::describe_failure(ApplyError::TargetOccupied, &buffer.files[6]),
        "  - MOVE (abc) - /dst/a.txt: destination already exists cannot move"
    );
    assert_eq!(
        noil::apply::describe_failure(ApplyError::UnknownIndex, &buffer.files[7]),
        "  - COPY (nope) - /copy2: no entry with this index exists"
    );
}

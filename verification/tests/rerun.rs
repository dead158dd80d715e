use std::collections::HashMap;

use noil::apply::{plan_entry, ApplyError, PathKind, Step};
use noil::models::Buffer;
use noil::parse::parse_input;

type Disk = HashMap<String, PathKind>;

fn found_at(disk: &Disk, path: &str) -> PathKind {
    disk.get(path).copied().unwrap_or(PathKind::Missing)
}

/// Applies a recipe to a picture of the disk, as a caller would to the disk.
fn run(buffer: &Buffer, disk: &mut Disk) -> Result<Vec<Step>, ApplyError> {
    let mut steps = Vec::new();
    for file in &buffer.files {
        let source = buffer.source_of(&file.entry.operation).cloned();
        let at_source = match &source {
            Some(path) => found_at(disk, path),
            None => PathKind::Missing,
        };
        let step = plan_entry(buffer, file, at_source, found_at(disk, &file.path))?;
        match step {
            Step::Nothing | Step::Skip(_) | Step::Open => {}
            Step::CreateDirectory | Step::CopyTree => {
                disk.insert(file.path.clone(), PathKind::Directory);
            }
            Step::CreateFile | Step::CopyFile => {
                disk.insert(file.path.clone(), PathKind::File);
            }
            Step::RemoveFile | Step::RemoveTree => {
                disk.insert(source.unwrap(), PathKind::Missing);
            }
            Step::Rename => {
                disk.insert(file.path.clone(), at_source);
                disk.insert(source.unwrap(), PathKind::Missing);
            }
        }
        steps.push(step);
    }
    Ok(steps)
}

fn disk() -> Disk {
    let mut disk = Disk::new();
    disk.insert("/src/a.txt".into(), PathKind::File);
    disk.insert("/src/b".into(), PathKind::Directory);
    disk.insert("/src/c.txt".into(), PathKind::File);
    disk.insert("/src/d".into(), PathKind::Directory);
    disk
}

#[test]
fn applying_twice_is_applying_once() {
    let buffer = parse_input(
        "abc : /src/a.txt\nxyz : /src/b\ncde : /src/c.txt\ndef : /src/d\n\
         A : /new/file\nA : /new/dir/\nM abc : /dst/a.txt\nD xyz : /src/b\n\
         C cde : /copy/c.txt\nC def : /copy/d\nD gone : /nowhere/at/all",
    );
    // the last line has no owner: the recipe stops there
    let mut first = disk();
    assert_eq!(run(&buffer.unwrap(), &mut first), Err(ApplyError::UnknownIndex));

    let buffer = parse_input(
        "abc : /src/a.txt\nxyz : /src/b\ncde : /src/c.txt\ndef : /src/d\n\
         A : /new/file\nA : /new/dir/\nM abc : /dst/a.txt\nD xyz : /src/b\n\
         C cde : /copy/c.txt\nC def : /copy/d",
    )
    .unwrap();
    let mut once = disk();
    let steps = run(&buffer, &mut once).unwrap();
    assert_eq!(
        steps[4..],
        [
            Step::CreateFile,
            Step::CreateDirectory,
            Step::Rename,
            Step::RemoveTree,
            Step::CopyFile,
            Step::CopyTree
        ]
    );
    assert_eq!(found_at(&once, "/src/a.txt"), PathKind::Missing);
    assert_eq!(found_at(&once, "/dst/a.txt"), PathKind::File);
    assert_eq!(found_at(&once, "/src/b"), PathKind::Missing);
    assert_eq!(found_at(&once, "/new/dir/"), PathKind::Directory);
    assert_eq!(found_at(&once, "/copy/d"), PathKind::Directory);
    assert_eq!(found_at(&once, "/src/c.txt"), PathKind::File);

    let mut twice = once.clone();
    let again = run(&buffer, &mut twice).unwrap();
    assert_eq!(twice, once);
    assert!(again[..4].iter().all(|step| *step == Step::Nothing));
    assert!(again[4..].iter().all(|step| matches!(step, Step::Skip(_))));
}

#[test]
fn entries_in_each_other_s_way_can_fail_the_second_time() {
    // the file that is added is the one that is moved away
    let buffer = parse_input("abc : /x\nA : /x\nM abc : /y").unwrap();
    let mut disk = Disk::new();
    assert_eq!(
        run(&buffer, &mut disk),
        Ok(vec![Step::Nothing, Step::CreateFile, Step::Rename])
    );
    assert_eq!(run(&buffer, &mut disk), Err(ApplyError::TargetOccupied));
}

//! Applying a recipe twice.
//!
//! The engine decides on what is found at paths, so what a whole run does
//! can be said on a picture of the disk: what is at each path. In this
//! picture paths are plain names, none inside another. On it, a recipe whose
//! entries keep out of each other's way can be applied again and nothing
//! happens.

use vstd::prelude::*;

use crate::apply::{plan, source_path, ApplyError, PathKind, Step};
use crate::models::{FileView, OperationView};

verus! {

/// What is at `path` on the disk; nothing, unless the picture says otherwise.
pub open spec fn found_at(disk: Map<Seq<char>, PathKind>, path: Seq<char>) -> PathKind {
    if disk.dom().contains(path) {
        disk[path]
    } else {
        PathKind::Missing
    }
}

/// What is at the source of an entry, if it has one.
pub open spec fn found_at_source(disk: Map<Seq<char>, PathKind>, source: Option<Seq<char>>)
    -> PathKind {
    match source {
        Some(path) => found_at(disk, path),
        None => PathKind::Missing,
    }
}

/// The path that an entry works from, if it has one.
pub open spec fn source_of(files: Seq<FileView>, file: FileView) -> Option<Seq<char>> {
    match file.entry.operation {
        OperationView::Copy { index } => source_path(files, index),
        OperationView::Delete { index } => source_path(files, index),
        OperationView::Move { index } => source_path(files, index),
        _ => None,
    }
}

/// The disk once a step is done.
pub open spec fn performed(
    disk: Map<Seq<char>, PathKind>,
    step: Step,
    source: Option<Seq<char>>,
    target: Seq<char>,
) -> Map<Seq<char>, PathKind> {
    match step {
        Step::Nothing | Step::Skip(_) | Step::Open => disk,
        Step::CreateDirectory | Step::CopyTree => disk.insert(target, PathKind::Directory),
        Step::CreateFile | Step::CopyFile => disk.insert(target, PathKind::File),
        Step::RemoveFile | Step::RemoveTree => match source {
            Some(source) => disk.insert(source, PathKind::Missing),
            None => disk,
        },
        Step::Rename => match source {
            Some(source) => disk.insert(target, found_at(disk, source)).insert(
                source,
                PathKind::Missing,
            ),
            None => disk,
        },
    }
}

/// The decision for an entry on a disk.
pub open spec fn decided(files: Seq<FileView>, file: FileView, disk: Map<Seq<char>, PathKind>)
    -> Result<Step, ApplyError> {
    plan(files, file, found_at_source(disk, source_of(files, file)), found_at(disk, file.path))
}

/// Whether an entry is found done on a disk: deciding for it gives no error
/// and asks for no change.
pub open spec fn found_done(files: Seq<FileView>, file: FileView, disk: Map<Seq<char>, PathKind>)
    -> bool {
    decided(files, file, disk) matches Ok(step) && step.is_idle()
}

/// The disk after the first `upto` entries are applied in order, or the
/// error of the first entry that fails.
pub open spec fn applied(files: Seq<FileView>, upto: int, disk: Map<Seq<char>, PathKind>) -> Result<
    Map<Seq<char>, PathKind>,
    ApplyError,
>
    decreases upto,
{
    if upto <= 0 {
        Ok(disk)
    } else {
        match applied(files, upto - 1, disk) {
            Err(error) => Err(error),
            Ok(before) => {
                let file = files[upto - 1];
                match decided(files, file, before) {
                    Err(error) => Err(error),
                    Ok(step) => Ok(performed(before, step, source_of(files, file), file.path)),
                }
            },
        }
    }
}

/// Whether an entry may change what is at `path`.
pub open spec fn writes(files: Seq<FileView>, file: FileView, path: Seq<char>) -> bool {
    match file.entry.operation {
        OperationView::Existing { .. } => false,
        OperationView::Open { .. } => false,
        OperationView::Add => path == file.path,
        OperationView::Copy { .. } => path == file.path,
        OperationView::Delete { .. } => source_of(files, file) == Some(path),
        OperationView::Move { .. } => path == file.path || source_of(files, file) == Some(path),
    }
}

/// Whether the decision for an entry depends on what is at `path`, or the
/// entry may change it.
pub open spec fn touches(files: Seq<FileView>, file: FileView, path: Seq<char>) -> bool {
    match file.entry.operation {
        OperationView::Existing { .. } => false,
        OperationView::Open { .. } => false,
        OperationView::Add => path == file.path,
        OperationView::Delete { .. } => source_of(files, file) == Some(path),
        OperationView::Copy { .. } => path == file.path || source_of(files, file) == Some(path),
        OperationView::Move { .. } => path == file.path || source_of(files, file) == Some(path),
    }
}

/// Whether the entries keep out of each other's way: no entry changes a
/// path that another entry touches.
pub open spec fn separate(files: Seq<FileView>) -> bool {
    forall|i: int, j: int, path: Seq<char>|
        0 <= i < files.len() && 0 <= j < files.len() && i != j && touches(
            files,
            #[trigger] files[i],
            path,
        ) ==> !#[trigger] writes(files, files[j], path)
}

/// A step changes only what its entry writes.
proof fn lemma_step_frame(
    files: Seq<FileView>,
    file: FileView,
    disk: Map<Seq<char>, PathKind>,
    path: Seq<char>,
)
    requires
        decided(files, file, disk).is_ok(),
        !writes(files, file, path),
    ensures
        found_at(
            performed(disk, decided(files, file, disk)->Ok_0, source_of(files, file), file.path),
            path,
        ) == found_at(disk, path),
{
}

/// Entries change only what they write.
proof fn lemma_run_frame(
    files: Seq<FileView>,
    from: int,
    upto: int,
    disk: Map<Seq<char>, PathKind>,
    path: Seq<char>,
)
    requires
        0 <= from <= upto <= files.len(),
        applied(files, upto, disk).is_ok(),
        forall|j: int| from <= j < upto ==> !writes(files, #[trigger] files[j], path),
    ensures
        applied(files, from, disk).is_ok(),
        found_at(applied(files, upto, disk)->Ok_0, path) == found_at(
            applied(files, from, disk)->Ok_0,
            path,
        ),
    decreases upto - from,
{
    if from < upto {
        lemma_run_frame(files, from, upto - 1, disk, path);
        let before = applied(files, upto - 1, disk)->Ok_0;
        assert(!writes(files, files[upto - 1], path));
        lemma_step_frame(files, files[upto - 1], before, path);
    }
}

/// Deciding for an entry once its step is done is deciding on what the
/// step is said to leave at its two paths.
proof fn lemma_step_outcome(files: Seq<FileView>, file: FileView, disk: Map<Seq<char>, PathKind>)
    requires
        decided(files, file, disk).is_ok(),
    ensures
        ({
            let step = decided(files, file, disk)->Ok_0;
            let source = source_of(files, file);
            let after = performed(disk, step, source, file.path);
            let outcome = step.outcome(found_at_source(disk, source), found_at(disk, file.path));
            decided(files, file, after) == plan(files, file, outcome.0, outcome.1)
        }),
{
}

/// The decision for an entry depends only on what is at the paths it touches.
proof fn lemma_decided_on_touched(
    files: Seq<FileView>,
    file: FileView,
    one: Map<Seq<char>, PathKind>,
    other: Map<Seq<char>, PathKind>,
)
    requires
        forall|path: Seq<char>| touches(files, file, path) ==> found_at(one, path) == found_at(
            other,
            path,
        ),
    ensures
        decided(files, file, one) == decided(files, file, other),
{
    assert(touches(files, file, file.path) ==> found_at(one, file.path) == found_at(
        other,
        file.path,
    ));
    match source_of(files, file) {
        Some(path) => {
            assert(touches(files, file, path) ==> found_at(one, path) == found_at(other, path));
        },
        None => {},
    }
}

/// Idempotent apply. Where the entries of a recipe keep out of each other's
/// way and the recipe was applied without error, applying it again fails at
/// no entry and leaves the disk as it is: every entry is found done.
pub proof fn lemma_second_run_changes_nothing(
    files: Seq<FileView>,
    disk: Map<Seq<char>, PathKind>,
)
    requires
        separate(files),
        applied(files, files.len() as int, disk).is_ok(),
    ensures
        ({
            let done = applied(files, files.len() as int, disk)->Ok_0;
            &&& applied(files, files.len() as int, done) == Ok::<
                Map<Seq<char>, PathKind>,
                ApplyError,
            >(done)
            &&& forall|k: int| 0 <= k < files.len() ==> found_done(files, #[trigger] files[k], done)
        }),
{
    let n = files.len() as int;
    let done = applied(files, n, disk)->Ok_0;
    assert forall|k: int| 0 <= k < n implies found_done(files, #[trigger] files[k], done) by {
        lemma_entry_found_done(files, disk, k);
    }
    lemma_idle_run(files, n, done);
}

/// After a run, every entry is found done.
proof fn lemma_entry_found_done(files: Seq<FileView>, disk: Map<Seq<char>, PathKind>, k: int)
    requires
        separate(files),
        applied(files, files.len() as int, disk).is_ok(),
        0 <= k < files.len(),
    ensures
        found_done(files, files[k], applied(files, files.len() as int, disk)->Ok_0),
{
    let n = files.len() as int;
    let file = files[k];
    let source = source_of(files, file);
    let done = applied(files, n, disk)->Ok_0;
    lemma_run_ok(files, k + 1, n, disk);
    let before = applied(files, k, disk)->Ok_0;
    let after = applied(files, k + 1, disk)->Ok_0;
    // nothing after the entry changes what it touches
    assert forall|path: Seq<char>| touches(files, file, path) implies found_at(done, path)
        == found_at(after, path) by {
        assert forall|j: int| k + 1 <= j < n implies !writes(files, #[trigger] files[j], path) by {
            assert(touches(files, files[k], path));
        }
        lemma_run_frame(files, k + 1, n, disk, path);
    }
    lemma_decided_on_touched(files, file, done, after);
    lemma_step_outcome(files, file, before);
    crate::apply::lemma_second_run_is_idle(
        files,
        file,
        found_at_source(before, source),
        found_at(before, file.path),
    );
}

/// A run that goes well went well up to every entry.
proof fn lemma_run_ok(files: Seq<FileView>, from: int, upto: int, disk: Map<Seq<char>, PathKind>)
    requires
        0 <= from <= upto,
        applied(files, upto, disk).is_ok(),
    ensures
        applied(files, from, disk).is_ok(),
    decreases upto - from,
{
    if from < upto {
        lemma_run_ok(files, from, upto - 1, disk);
    }
}

/// A run in which every entry is found done leaves the disk as it is.
proof fn lemma_idle_run(files: Seq<FileView>, upto: int, disk: Map<Seq<char>, PathKind>)
    requires
        0 <= upto <= files.len(),
        forall|k: int| 0 <= k < files.len() ==> found_done(files, #[trigger] files[k], disk),
    ensures
        applied(files, upto, disk) == Ok::<Map<Seq<char>, PathKind>, ApplyError>(disk),
    decreases upto,
{
    if upto > 0 {
        lemma_idle_run(files, upto - 1, disk);
        assert(found_done(files, files[upto - 1], disk));
    }
}

} // verus!

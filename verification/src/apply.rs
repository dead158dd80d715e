//! Deciding what to do on disk for each entry of a recipe.
//!
//! The engine never touches the file system itself. For one entry at a time
//! the caller looks at the two paths involved, hands over what it saw, and
//! gets back the step to perform, a warning that the entry is already
//! satisfied, or the error that ends the run. Entries are applied in buffer
//! order, each on what the disk holds after the steps before it.
//!
//! Every decision leans towards leaving data alone: nothing is ever created
//! over an occupied path, and a source that is already gone counts as done.

use vstd::prelude::*;

use crate::commit::{change_line, change_text};
use crate::models::{owner_of, Buffer, File, FileView, Operation, OperationView};
use crate::text::{chars_of, push_char, push_chars, push_text};

verus! {

/// Settings of one run.
#[derive(Default, Clone, Debug, PartialEq)]
pub struct ApplyOptions {
    /// Where to write the list of files to open, if anywhere.
    pub chooser_file: Option<String>,
    /// Whether to keep quiet about the run starting.
    pub quiet: bool,
}

/// What the caller found at a path.
#[derive(Clone, Copy, Debug, PartialEq, Eq, Structural)]
pub enum PathKind {
    Missing,
    File,
    Directory,
}

/// Why an entry needs no work.
#[derive(Clone, Copy, Debug, PartialEq, Eq, Structural)]
pub enum Warning {
    /// The path to create or copy to is already there.
    TargetExists,
    /// What should be deleted is already gone.
    SourceGone,
    /// The source is gone and the target is there: the move was made before.
    AlreadyMoved,
}

/// What to do on disk for one entry.
///
/// The source is the path of the entry that owns the index, the target the
/// path of the entry itself. Wherever something is created at the target, its
/// missing parent directories are created first.
#[derive(Clone, Copy, Debug, PartialEq, Eq, Structural)]
pub enum Step {
    /// Leave the disk as it is.
    Nothing,
    /// Leave the disk as it is and say why.
    Skip(Warning),
    /// Leave the disk as it is; the target is one of the files to open.
    Open,
    /// Create the target as a directory.
    CreateDirectory,
    /// Create the target as an empty file.
    CreateFile,
    /// Copy the source file to the target.
    CopyFile,
    /// Copy the source directory with all it holds to the target.
    CopyTree,
    /// Remove the source file.
    RemoveFile,
    /// Remove the source directory with all it holds.
    RemoveTree,
    /// Move the source to the target.
    Rename,
}

/// Why a run stops at an entry.
#[derive(Clone, Copy, Debug, PartialEq, Eq, Structural)]
pub enum ApplyError {
    /// A copy or a delete refers to an index that no entry declares.
    UnknownIndex,
    /// The source of a copy is not on disk.
    MissingSource,
    /// Neither the source nor the target of a move is on disk.
    NothingToMove,
    /// The target of a move is occupied while its source is still there.
    TargetOccupied,
}

impl Warning {
    /// The warning in words.
    pub open spec fn text(self) -> Seq<char> {
        match self {
            Warning::TargetExists => "path already exists"@,
            Warning::SourceGone => "path doesn't exist"@,
            Warning::AlreadyMoved => "destination file looks to already have been moved"@,
        }
    }

    /// The warning in words.
    pub fn to_string(&self) -> (out: String)
        ensures
            out@ == self.text(),
    {
        match self {
            Warning::TargetExists => "path already exists".to_owned(),
            Warning::SourceGone => "path doesn't exist".to_owned(),
            Warning::AlreadyMoved => "destination file looks to already have been moved".to_owned(),
        }
    }
}

impl ApplyError {
    /// The error in words.
    pub open spec fn text(self) -> Seq<char> {
        match self {
            ApplyError::UnknownIndex => "no entry with this index exists"@,
            ApplyError::MissingSource => "existing does not exist for copy"@,
            ApplyError::NothingToMove => "neither existing, or destination exists for move"@,
            ApplyError::TargetOccupied => "destination already exists cannot move"@,
        }
    }

    /// The error in words.
    pub fn to_string(&self) -> (out: String)
        ensures
            out@ == self.text(),
    {
        match self {
            ApplyError::UnknownIndex => "no entry with this index exists".to_owned(),
            ApplyError::MissingSource => "existing does not exist for copy".to_owned(),
            ApplyError::NothingToMove => "neither existing, or destination exists for move".to_owned(),
            ApplyError::TargetOccupied => "destination already exists cannot move".to_owned(),
        }
    }
}

/// The report of an error at an entry: the verb, the index and the path of
/// the entry, then the error in words.
pub open spec fn failure_text(error: ApplyError, file: FileView) -> Seq<char> {
    change_text(file.entry.operation.keyword(), file.entry.operation.index(), Some(file.path))
        + ": "@ + error.text()
}

/// The report of `error` at `file`, for the user to mend the recipe.
pub fn describe_failure(error: ApplyError, file: &File) -> (out: String)
    ensures
        out@ == failure_text(error, file@),
{
    let verb = file.entry.operation.to_string();
    let index = match file.entry.operation.index() {
        Some(index) => Some(index.as_str()),
        None => None,
    };
    let mut out = change_line(verb.as_str(), index, Some(file.path.as_str()));
    push_text(&mut out, ": ");
    let reason = error.to_string();
    push_text(&mut out, reason.as_str());
    out
}

/// Whether a path is written as a directory: with a trailing `/`.
pub open spec fn names_directory(path: Seq<char>) -> bool {
    path.len() > 0 && path.last() == '/'
}

/// The path of the entry that owns `index`, if one does.
pub open spec fn source_path(files: Seq<FileView>, index: Seq<char>) -> Option<Seq<char>> {
    match owner_of(files, index) {
        Some(k) => Some(files[k].path),
        None => None,
    }
}

/// The decision for one entry.
///
/// `source` is what was found at the path that owns the entry's index, and
/// counts only where some entry does own it; `target` is what was found at the
/// entry's own path.
pub open spec fn plan(files: Seq<FileView>, file: FileView, source: PathKind, target: PathKind)
    -> Result<Step, ApplyError> {
    match file.entry.operation {
        OperationView::Existing { .. } => Ok(Step::Nothing),
        OperationView::Open { .. } => if names_directory(file.path) {
            Ok(Step::Nothing)
        } else {
            Ok(Step::Open)
        },
        OperationView::Add => if target != PathKind::Missing {
            Ok(Step::Skip(Warning::TargetExists))
        } else if names_directory(file.path) {
            Ok(Step::CreateDirectory)
        } else {
            Ok(Step::CreateFile)
        },
        OperationView::Copy { index } => if source_path(files, index).is_none() {
            Err(ApplyError::UnknownIndex)
        } else if source == PathKind::Missing {
            Err(ApplyError::MissingSource)
        } else if target != PathKind::Missing {
            Ok(Step::Skip(Warning::TargetExists))
        } else if source == PathKind::Directory {
            Ok(Step::CopyTree)
        } else {
            Ok(Step::CopyFile)
        },
        OperationView::Delete { index } => if source_path(files, index).is_none() {
            Err(ApplyError::UnknownIndex)
        } else if source == PathKind::Missing {
            Ok(Step::Skip(Warning::SourceGone))
        } else if source == PathKind::Directory {
            Ok(Step::RemoveTree)
        } else {
            Ok(Step::RemoveFile)
        },
        OperationView::Move { index } => {
            let absent = source_path(files, index).is_none() || source == PathKind::Missing;
            if absent && target != PathKind::Missing {
                Ok(Step::Skip(Warning::AlreadyMoved))
            } else if absent {
                Err(ApplyError::NothingToMove)
            } else if target != PathKind::Missing {
                Err(ApplyError::TargetOccupied)
            } else {
                Ok(Step::Rename)
            }
        },
    }
}

impl Step {
    /// Whether the step leaves the disk as it is.
    pub open spec fn is_idle(self) -> bool {
        self == Step::Nothing || self == Step::Open || self is Skip
    }

    /// What is found at the source and at the target once the step is done,
    /// given what was found there before. The two paths are taken to be
    /// different and neither to lie inside the other.
    pub open spec fn outcome(self, source: PathKind, target: PathKind) -> (PathKind, PathKind) {
        match self {
            Step::Nothing | Step::Skip(_) | Step::Open => (source, target),
            Step::CreateDirectory => (source, PathKind::Directory),
            Step::CreateFile => (source, PathKind::File),
            Step::CopyFile => (source, PathKind::File),
            Step::CopyTree => (source, PathKind::Directory),
            Step::RemoveFile | Step::RemoveTree => (PathKind::Missing, target),
            Step::Rename => (PathKind::Missing, source),
        }
    }
}

/// Applying an entry a second time changes nothing.
///
/// Once the step decided for an entry is done, deciding again for the same
/// entry, on what is then found at its two paths, never fails and asks for no
/// further change on disk: it is a warning, or nothing at all.
pub proof fn lemma_second_run_is_idle(
    files: Seq<FileView>,
    file: FileView,
    source: PathKind,
    target: PathKind,
)
    requires
        plan(files, file, source, target).is_ok(),
    ensures
        ({
            let step = plan(files, file, source, target)->Ok_0;
            let (source_after, target_after) = step.outcome(source, target);
            &&& plan(files, file, source_after, target_after) matches Ok(again)
            &&& again.is_idle()
            &&& again.outcome(source_after, target_after) == (source_after, target_after)
            &&& !step.is_idle() ==> again is Skip
        }),
{
}

/// A step is only ever taken on a free target, and only removes or moves
/// what is there: no decision overwrites a path that is occupied.
pub proof fn lemma_no_clobber(
    files: Seq<FileView>,
    file: FileView,
    source: PathKind,
    target: PathKind,
)
    ensures
        match plan(files, file, source, target) {
            Ok(Step::CreateDirectory) | Ok(Step::CreateFile) => target == PathKind::Missing,
            Ok(Step::CopyFile) => target == PathKind::Missing && source == PathKind::File,
            Ok(Step::CopyTree) => target == PathKind::Missing && source == PathKind::Directory,
            Ok(Step::Rename) => target == PathKind::Missing && source != PathKind::Missing,
            Ok(Step::RemoveFile) => source == PathKind::File,
            Ok(Step::RemoveTree) => source == PathKind::Directory,
            _ => true,
        },
{
}

/// Whether a path is written as a directory: with a trailing `/`.
pub fn is_directory_path(path: &str) -> (b: bool)
    ensures
        b == names_directory(path@),
{
    let chars = chars_of(path);
    chars.len() > 0 && chars[chars.len() - 1] == '/'
}

impl Buffer {
    /// The path that the operation works from: that of the entry which owns
    /// its index. None where the operation has no source or nothing owns it.
    pub fn source_of(&self, operation: &Operation) -> (found: Option<&String>)
        ensures
            match operation@ {
                OperationView::Copy { index } | OperationView::Delete { index } | OperationView::Move {
                    index,
                } => match found {
                    Some(path) => source_path(self@, index) == Some(path@),
                    None => source_path(self@, index).is_none(),
                },
                _ => found.is_none(),
            },
    {
        let index = match operation {
            Operation::Copy { index } => index,
            Operation::Delete { index } => index,
            Operation::Move { index } => index,
            _ => {
                return None;
            },
        };
        match self.get_existing(index.as_str()) {
            Some(file) => Some(&file.path),
            None => None,
        }
    }
}

/// Decides what to do on disk for `file`, an entry of `buffer`.
///
/// `source` says what is at the path given by [`Buffer::source_of`] (it is not
/// looked at where that is none), `target` what is at the path of `file`.
pub fn plan_entry(buffer: &Buffer, file: &File, source: PathKind, target: PathKind) -> (decision:
    Result<Step, ApplyError>)
    ensures
        decision == plan(buffer@, file@, source, target),
{
    let target_free = match target {
        PathKind::Missing => true,
        _ => false,
    };
    let source_there = match source {
        PathKind::Missing => false,
        _ => true,
    };
    let source_is_directory = match source {
        PathKind::Directory => true,
        _ => false,
    };
    let owned = buffer.source_of(&file.entry.operation).is_some();
    match &file.entry.operation {
        Operation::Existing { .. } => Ok(Step::Nothing),
        Operation::Open { .. } => {
            if is_directory_path(file.path.as_str()) {
                Ok(Step::Nothing)
            } else {
                Ok(Step::Open)
            }
        },
        Operation::Add => {
            if !target_free {
                Ok(Step::Skip(Warning::TargetExists))
            } else if is_directory_path(file.path.as_str()) {
                Ok(Step::CreateDirectory)
            } else {
                Ok(Step::CreateFile)
            }
        },
        Operation::Copy { .. } => {
            if !owned {
                Err(ApplyError::UnknownIndex)
            } else if !source_there {
                Err(ApplyError::MissingSource)
            } else if !target_free {
                Ok(Step::Skip(Warning::TargetExists))
            } else if source_is_directory {
                Ok(Step::CopyTree)
            } else {
                Ok(Step::CopyFile)
            }
        },
        Operation::Delete { .. } => {
            if !owned {
                Err(ApplyError::UnknownIndex)
            } else if !source_there {
                Ok(Step::Skip(Warning::SourceGone))
            } else if source_is_directory {
                Ok(Step::RemoveTree)
            } else {
                Ok(Step::RemoveFile)
            }
        },
        Operation::Move { .. } => {
            let absent = !owned || !source_there;
            if absent && !target_free {
                Ok(Step::Skip(Warning::AlreadyMoved))
            } else if absent {
                Err(ApplyError::NothingToMove)
            } else if !target_free {
                Err(ApplyError::TargetOccupied)
            } else {
                Ok(Step::Rename)
            }
        },
    }
}

/// Whether the entry asks for its path to be opened: an `Open` entry whose
/// path is not written as a directory.
pub open spec fn is_opened(file: FileView) -> bool {
    file.entry.operation is Open && !names_directory(file.path)
}

/// The list of files to open among the first `upto` entries: their paths, one
/// per line, in buffer order.
pub open spec fn open_list(files: Seq<FileView>, upto: int) -> Seq<char>
    decreases upto,
{
    if upto <= 0 {
        Seq::empty()
    } else {
        let before = open_list(files, upto - 1);
        if !is_opened(files[upto - 1]) {
            before
        } else if opened_count(files, upto - 1) == 0 {
            files[upto - 1].path
        } else {
            before + seq!['\n'] + files[upto - 1].path
        }
    }
}

/// How many of the first `upto` entries ask for their path to be opened.
pub open spec fn opened_count(files: Seq<FileView>, upto: int) -> nat
    decreases upto,
{
    if upto <= 0 {
        0
    } else if is_opened(files[upto - 1]) {
        opened_count(files, upto - 1) + 1
    } else {
        opened_count(files, upto - 1)
    }
}

/// The text of the list of files to open: the paths of the `Open` entries
/// that name no directory, in buffer order, with a line feed between each two.
pub fn chooser_contents(buffer: &Buffer) -> (out: String)
    ensures
        out@ == open_list(buffer@, buffer@.len() as int),
{
    let mut out = String::new();
    let mut any = false;
    let mut i: usize = 0;
    while i < buffer.files.len()
        invariant
            i <= buffer.files.len(),
            buffer@.len() == buffer.files.len(),
            out@ == open_list(buffer@, i as int),
            any == (opened_count(buffer@, i as int) > 0),
        decreases buffer.files.len() - i,
    {
        let file = &buffer.files[i];
        assert(file@ == buffer@[i as int]);
        let opened = match &file.entry.operation {
            Operation::Open { .. } => !is_directory_path(file.path.as_str()),
            _ => false,
        };
        if opened {
            if any {
                push_char(&mut out, '\n');
            }
            let path = chars_of(file.path.as_str());
            push_chars(&mut out, path.as_slice());
            any = true;
            proof {
                if opened_count(buffer@, i as int) == 0 {
                    lemma_open_list_empty(buffer@, i as int);
                    assert(out@ =~= file@.path);
                }
            }
        }
        i += 1;
    }
    out
}

/// While no entry asks to be opened, the list is empty.
proof fn lemma_open_list_empty(files: Seq<FileView>, upto: int)
    requires
        opened_count(files, upto) == 0,
    ensures
        open_list(files, upto) == Seq::<char>::empty(),
    decreases upto,
{
    if upto > 0 {
        lemma_open_list_empty(files, upto - 1);
    }
}

/// What to write where once every entry is applied: the chooser file and the
/// list of files to open, if a chooser file is set.
pub fn chooser_output(buffer: &Buffer, options: &ApplyOptions) -> (out: Option<(String, String)>)
    ensures
        match options.chooser_file {
            Some(path) => out matches Some((to, text)) && to@ == path@ && text@ == open_list(
                buffer@,
                buffer@.len() as int,
            ),
            None => out.is_none(),
        },
{
    match &options.chooser_file {
        Some(path) => Some((path.clone(), chooser_contents(buffer))),
        None => None,
    }
}

} // verus!

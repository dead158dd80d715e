//! Putting the changes of a recipe before the user, and reading the answer.

use vstd::prelude::*;

use crate::models::{File, FileView, Operation, OperationView};
use crate::paint::{paint, painted, Emphasis, Tint};
use crate::text::{chars_of, push_text, same_text, string_of, trim, trimmed};

verus! {

/// What to do with an edited recipe.
#[derive(Clone, Debug, PartialEq)]
pub enum Action {
    /// Leave everything as it is.
    Quit,
    /// Apply the recipe, given here as it was read.
    Apply { original: String },
    /// Hand the recipe back to the editor.
    Edit,
}

/// What an answer to "apply changes?" says.
#[derive(Clone, Copy, Debug, PartialEq, Eq, Structural)]
pub enum Answer {
    Yes,
    No,
    Edit,
    /// Neither of the above: the recipe goes back to the editor once the
    /// user has seen that the answer was not understood.
    Unclear,
}

/// An action as plain values.
pub enum ActionView {
    Quit,
    Apply { original: Seq<char> },
    Edit,
}

impl View for Action {
    type V = ActionView;

    open spec fn view(&self) -> ActionView {
        match self {
            Action::Quit => ActionView::Quit,
            Action::Apply { original } => ActionView::Apply { original: original@ },
            Action::Edit => ActionView::Edit,
        }
    }
}

/// The text in lower case, as the Unicode case mapping gives it.
pub uninterp spec fn lowercased(text: Seq<char>) -> Seq<char>;

/// Trusted: stands for `str::to_lowercase`. Its result is a function of the
/// text alone, and it is only named here, not described.
#[verifier::external_body]
fn to_lowercase(text: &str) -> (out: String)
    ensures
        out@ == lowercased(text@),
{
    text.to_lowercase()
}

/// What an answer says once it is trimmed and in lower case: `y` is yes, `n`
/// is no, `e` and the empty answer ask for the editor.
pub open spec fn answer_of(lowered: Seq<char>) -> Answer {
    if lowered == "y"@ {
        Answer::Yes
    } else if lowered == "n"@ {
        Answer::No
    } else if lowered == "e"@ || lowered.len() == 0 {
        Answer::Edit
    } else {
        Answer::Unclear
    }
}

/// Reads an answer that is already trimmed and in lower case.
pub fn read_lowered(lowered: &str) -> (answer: Answer)
    ensures
        answer == answer_of(lowered@),
{
    if same_text(lowered, "y") {
        Answer::Yes
    } else if same_text(lowered, "n") {
        Answer::No
    } else if same_text(lowered, "e") || lowered.unicode_len() == 0 {
        Answer::Edit
    } else {
        Answer::Unclear
    }
}

/// Reads the line that the user typed as an answer: whitespace around it and
/// the case of its letters do not count.
pub fn read_answer(line: &str) -> (answer: Answer)
    ensures
        answer == answer_of(lowercased(trimmed(line@))),
{
    let chars = chars_of(line);
    let kept = string_of(trim(chars.as_slice()));
    let lowered = to_lowercase(kept.as_str());
    read_lowered(lowered.as_str())
}

/// What to do after the changes were shown.
///
/// In a preview nothing is asked and nothing is done. Otherwise the answer
/// decides: yes applies the recipe as it was read, no quits, anything else
/// goes back to the editor.
pub open spec fn decision(preview: bool, answer: Answer, original: Seq<char>) -> ActionView {
    if preview {
        ActionView::Quit
    } else {
        match answer {
            Answer::Yes => ActionView::Apply { original },
            Answer::No => ActionView::Quit,
            Answer::Edit => ActionView::Edit,
            Answer::Unclear => ActionView::Edit,
        }
    }
}

/// What to do after the changes were shown; see [`decision`].
pub fn decide(preview: bool, answer: Answer, original: &str) -> (action: Action)
    ensures
        action@ == decision(preview, answer, original@),
{
    if preview {
        return Action::Quit;
    }
    match answer {
        Answer::Yes => Action::Apply { original: original.to_owned() },
        Answer::No => Action::Quit,
        Answer::Edit => Action::Edit,
        Answer::Unclear => Action::Edit,
    }
}

/// One line of the list of changes: the label, the index in brackets if
/// there is one, and the path if there is one.
pub open spec fn change_text(label: Seq<char>, index: Option<Seq<char>>, path: Option<Seq<char>>)
    -> Seq<char> {
    let start = "  - "@ + label;
    let middle = match index {
        Some(index) => start + " ("@ + index + ")"@,
        None => start,
    };
    match path {
        Some(path) => middle + " - "@ + path,
        None => middle,
    }
}

/// One line of the list of changes, under the label given.
pub fn change_line(label: &str, index: Option<&str>, path: Option<&str>) -> (out: String)
    ensures
        out@ == change_text(
            label@,
            match index {
                Some(index) => Some(index@),
                None => None,
            },
            match path {
                Some(path) => Some(path@),
                None => None,
            },
        ),
{
    let mut out = "  - ".to_owned();
    push_text(&mut out, label);
    if let Some(index) = index {
        push_text(&mut out, " (");
        push_text(&mut out, index);
        push_text(&mut out, ")");
    }
    if let Some(path) = path {
        push_text(&mut out, " - ");
        push_text(&mut out, path);
    }
    out
}

/// The emphasis of the verb of an operation among the changes: bold, in
/// green for what is added, blue for what is copied, red for what is
/// deleted and orange for what is moved.
pub open spec fn verb_emphasis(operation: OperationView) -> Emphasis {
    let tint = match operation {
        OperationView::Add => Some(Tint::Green),
        OperationView::Copy { .. } => Some(Tint::Blue),
        OperationView::Delete { .. } => Some(Tint::Red),
        OperationView::Move { .. } => Some(Tint::Rgb(224, 145, 64)),
        _ => None,
    };
    Emphasis { tint, bold: tint.is_some(), dimmed: false }
}

/// The line that announces an entry among the changes, if it is a change:
/// entries that are left alone or only opened are not. The verb stands out
/// as [`verb_emphasis`] says.
pub open spec fn announced(file: FileView) -> Option<Seq<char>> {
    let operation = file.entry.operation;
    let label = painted(verb_emphasis(operation), operation.keyword());
    match operation {
        OperationView::Existing { .. } => None,
        OperationView::Open { .. } => None,
        OperationView::Add => Some(change_text(label, None, Some(file.path))),
        _ => Some(change_text(label, operation.index(), Some(file.path))),
    }
}

/// The line that announces `file` among the changes; none if the entry
/// changes nothing.
pub fn announce(file: &File) -> (out: Option<String>)
    ensures
        match out {
            Some(line) => announced(file@) == Some(line@),
            None => announced(file@).is_none(),
        },
{
    let (tint, index) = match &file.entry.operation {
        Operation::Existing { .. } => {
            return None;
        },
        Operation::Open { .. } => {
            return None;
        },
        Operation::Add => (Tint::Green, None),
        Operation::Copy { index } => (Tint::Blue, Some(index.as_str())),
        Operation::Delete { index } => (Tint::Red, Some(index.as_str())),
        Operation::Move { index } => (Tint::Rgb(224, 145, 64), Some(index.as_str())),
    };
    let verb = file.entry.operation.to_string();
    let label = paint(Emphasis { tint: Some(tint), bold: true, dimmed: false }, verb.as_str());
    Some(change_line(label.as_str(), index, Some(file.path.as_str())))
}

} // verus!

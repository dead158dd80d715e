//! Writing a buffer back as aligned recipe text.
//!
//! Every line has three columns before the path: the verb in its long form,
//! the index, and the colon. The verb and index columns are as wide as their
//! widest entry and are followed by three spaces; a column that is empty in
//! every line is left out altogether.

use vstd::prelude::*;

use crate::models::{Buffer, File, FileView, OperationView, ParseError, ParseErrorView};
use crate::parse::{parse_input, parse_text};
use crate::text::{chars_of, push_char, push_chars, push_spaces, spaces};

verus! {

/// The text of the index column: the index, or nothing where there is none.
pub open spec fn index_text(operation: OperationView) -> Seq<char> {
    match operation.index() {
        Some(index) => index,
        None => Seq::empty(),
    }
}

/// Width of the verb column: the longest verb among the first `upto` entries.
pub open spec fn keyword_width(files: Seq<FileView>, upto: int) -> nat
    decreases upto,
{
    if upto <= 0 {
        0
    } else {
        let before = keyword_width(files, upto - 1);
        let here = files[upto - 1].entry.operation.keyword().len();
        if here > before {
            here
        } else {
            before
        }
    }
}

/// Width of the index column: the longest index among the first `upto` entries.
pub open spec fn index_width(files: Seq<FileView>, upto: int) -> nat
    decreases upto,
{
    if upto <= 0 {
        0
    } else {
        let before = index_width(files, upto - 1);
        let here = index_text(files[upto - 1].entry.operation).len();
        if here > before {
            here
        } else {
            before
        }
    }
}

/// One column: the text, padded to the width, and three spaces; nothing at
/// all when the width is zero.
pub open spec fn column(text: Seq<char>, width: nat) -> Seq<char> {
    if width == 0 {
        Seq::empty()
    } else {
        text + spaces((width - text.len()) as nat) + spaces(3)
    }
}

/// One line: verb column, index column, colon, three spaces, path.
pub open spec fn render_line(file: FileView, verbs: nat, indexes: nat) -> Seq<char> {
    column(file.entry.operation.keyword(), verbs) + column(
        index_text(file.entry.operation),
        indexes,
    ) + seq![':'] + spaces(3) + file.path
}

/// The first `upto` lines, with a line feed between each two.
pub open spec fn render_lines(files: Seq<FileView>, verbs: nat, indexes: nat, upto: int) -> Seq<
    char,
>
    decreases upto,
{
    if upto <= 0 {
        Seq::empty()
    } else if upto == 1 {
        render_line(files[0], verbs, indexes)
    } else {
        render_lines(files, verbs, indexes, upto - 1) + seq!['\n'] + render_line(
            files[upto - 1],
            verbs,
            indexes,
        )
    }
}

/// The text of a buffer: one aligned line per entry, in order.
pub open spec fn rendered(files: Seq<FileView>) -> Seq<char> {
    render_lines(
        files,
        keyword_width(files, files.len() as int),
        index_width(files, files.len() as int),
        files.len() as int,
    )
}

/// The widths of the verb column and of the index column.
fn column_widths(buffer: &Buffer) -> (widths: (usize, usize))
    ensures
        widths.0 == keyword_width(buffer@, buffer@.len() as int),
        widths.1 == index_width(buffer@, buffer@.len() as int),
{
    let mut verbs: usize = 0;
    let mut indexes: usize = 0;
    let mut i: usize = 0;
    while i < buffer.files.len()
        invariant
            i <= buffer.files.len(),
            buffer@.len() == buffer.files.len(),
            verbs == keyword_width(buffer@, i as int),
            indexes == index_width(buffer@, i as int),
        decreases buffer.files.len() - i,
    {
        let operation = &buffer.files[i].entry.operation;
        assert(operation@ == buffer@[i as int].entry.operation);
        let verb = operation.to_string();
        let verb_len = verb.as_str().unicode_len();
        if verb_len > verbs {
            verbs = verb_len;
        }
        let index_len = match operation.index() {
            Some(index) => index.as_str().unicode_len(),
            None => 0,
        };
        if index_len > indexes {
            indexes = index_len;
        }
        i += 1;
    }
    (verbs, indexes)
}

/// Appends one column to `out`.
fn push_column(out: &mut String, text: &[char], width: usize)
    requires
        text@.len() <= width,
    ensures
        final(out)@ == old(out)@ + column(text@, width as nat),
{
    if width > 0 {
        push_chars(out, text);
        push_spaces(out, width - text.len());
        push_spaces(out, 3);
        assert(out@ =~= old(out)@ + column(text@, width as nat));
    } else {
        assert(out@ =~= old(out)@ + column(text@, width as nat));
    }
}

/// Appends the line of `file` to `out`.
fn push_line(out: &mut String, file: &File, verbs: usize, indexes: usize)
    requires
        file@.entry.operation.keyword().len() <= verbs,
        index_text(file@.entry.operation).len() <= indexes,
    ensures
        final(out)@ == old(out)@ + render_line(file@, verbs as nat, indexes as nat),
{
    let verb = chars_of(file.entry.operation.to_string().as_str());
    push_column(out, verb.as_slice(), verbs);
    match file.entry.operation.index() {
        Some(index) => {
            let index = chars_of(index.as_str());
            push_column(out, index.as_slice(), indexes);
        },
        None => {
            let none: Vec<char> = Vec::new();
            push_column(out, none.as_slice(), indexes);
        },
    }
    push_char(out, ':');
    push_spaces(out, 3);
    let path = chars_of(file.path.as_str());
    push_chars(out, path.as_slice());
    assert(out@ =~= old(out)@ + render_line(file@, verbs as nat, indexes as nat));
}

/// No entry among the first `upto` is wider than the column widths.
pub(crate) proof fn lemma_widths_bound(files: Seq<FileView>, upto: int, k: int)
    requires
        0 <= k < upto <= files.len(),
    ensures
        files[k].entry.operation.keyword().len() <= keyword_width(files, upto),
        index_text(files[k].entry.operation).len() <= index_width(files, upto),
    decreases upto,
{
    if k < upto - 1 {
        lemma_widths_bound(files, upto - 1, k);
    }
}

/// Writes a buffer as aligned recipe text, one line per entry, in order.
pub fn format_buffer(buffer: &Buffer) -> (out: String)
    ensures
        out@ == rendered(buffer@),
{
    let (verbs, indexes) = column_widths(buffer);
    let mut out = String::new();
    let mut i: usize = 0;
    while i < buffer.files.len()
        invariant
            i <= buffer.files.len(),
            buffer@.len() == buffer.files.len(),
            verbs == keyword_width(buffer@, buffer@.len() as int),
            indexes == index_width(buffer@, buffer@.len() as int),
            out@ == render_lines(buffer@, verbs as nat, indexes as nat, i as int),
        decreases buffer.files.len() - i,
    {
        if i > 0 {
            push_char(&mut out, '\n');
        }
        let file = &buffer.files[i];
        assert(file@ == buffer@[i as int]);
        proof {
            lemma_widths_bound(buffer@, buffer@.len() as int, i as int);
        }
        push_line(&mut out, file, verbs, indexes);
        proof {
            if i == 0 {
                assert(out@ =~= render_line(file@, verbs as nat, indexes as nat));
            }
        }
        i += 1;
    }
    out
}

/// Reads recipe text and writes it back aligned.
///
/// Fails exactly when the text cannot be read, with the error of the parse.
pub fn format(input: &str) -> (result: Result<String, ParseError>)
    ensures
        match result {
            Ok(out) => parse_text(input@) matches Ok(files) && out@ == rendered(files),
            Err(error) => parse_text(input@) == Err::<Seq<FileView>, ParseErrorView>(error@),
        },
{
    match parse_input(input) {
        Ok(buffer) => Ok(format_buffer(&buffer)),
        Err(error) => Err(error),
    }
}

} // verus!

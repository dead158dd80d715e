//! Reading recipe text into a buffer.
//!
//! Each line of the form `<left> : <right>` is an entry. It is split at the
//! right-most ` : `; the right side, trimmed, is the path, and the left side,
//! trimmed, says what to do with it. Lines without the separator are skipped.

use vstd::prelude::*;
use vstd::slice::slice_subrange;

use crate::models::{
    classify, views_of, Buffer, File, FileEntry, FileView, ParseError, ParseErrorView,
};
use crate::text::{chars_of, string_of, trim, trimmed};

verus! {

/// Whether the separator ` : ` stands at position `i` of `s`.
pub open spec fn separator_at(s: Seq<char>, i: int) -> bool {
    0 <= i && i + 3 <= s.len() && s[i] == ' ' && s[i + 1] == ':' && s[i + 2] == ' '
}

/// The greatest position below `upto` at which the separator stands, or -1.
pub open spec fn last_separator(s: Seq<char>, upto: int) -> int
    decreases upto,
{
    if upto <= 0 {
        -1
    } else if separator_at(s, upto - 1) {
        upto - 1
    } else {
        last_separator(s, upto - 1)
    }
}

/// The two sides of `s` around its right-most separator, if it has one.
pub open spec fn split_sides(s: Seq<char>) -> Option<(Seq<char>, Seq<char>)> {
    let at = last_separator(s, s.len() as int);
    if at < 0 {
        None
    } else {
        Some((s.take(at), s.skip(at + 3)))
    }
}

/// `last_separator` is the right-most separator position, and -1 only if there is none.
pub(crate) proof fn lemma_last_separator(s: Seq<char>, upto: int)
    ensures
        ({
            let at = last_separator(s, upto);
            &&& -1 <= at
            &&& at < upto || at == -1
            &&& at >= 0 ==> separator_at(s, at)
            &&& forall|j: int| at < j < upto ==> !separator_at(s, j)
        }),
    decreases upto,
{
    if upto > 0 && !separator_at(s, upto - 1) {
        lemma_last_separator(s, upto - 1);
    }
}

/// A separator with none to its right is the one the split is made at.
pub(crate) proof fn lemma_split_at(s: Seq<char>, at: int)
    requires
        separator_at(s, at),
        forall|j: int| at < j < s.len() ==> !separator_at(s, j),
    ensures
        split_sides(s) == Some((s.take(at), s.skip(at + 3))),
{
    lemma_last_separator(s, s.len() as int);
}

/// What one line of recipe text contributes: nothing, an entry, or an error.
pub open spec fn parse_line(line: Seq<char>) -> Option<Result<FileView, ParseErrorView>> {
    match split_sides(trimmed(line)) {
        None => None,
        Some((left, right)) => Some(
            match classify(trimmed(left)) {
                Ok(entry) => Ok(FileView { path: trimmed(right), entry }),
                Err(error) => Err(error),
            },
        ),
    }
}

/// The lines of `text`: the pieces between its line feeds.
pub open spec fn lines_of(text: Seq<char>) -> Seq<Seq<char>>
    decreases text.len(),
{
    if text.len() == 0 {
        seq![Seq::empty()]
    } else {
        let before = lines_of(text.drop_last());
        if text.last() == '\n' {
            before.push(Seq::empty())
        } else {
            before.drop_last().push(before.last().push(text.last()))
        }
    }
}

/// The entries of a sequence of lines, or the error of the first line that has one.
pub open spec fn parse_lines(lines: Seq<Seq<char>>) -> Result<Seq<FileView>, ParseErrorView>
    decreases lines.len(),
{
    if lines.len() == 0 {
        Ok(Seq::empty())
    } else {
        match parse_lines(lines.drop_last()) {
            Err(error) => Err(error),
            Ok(files) => match parse_line(lines.last()) {
                None => Ok(files),
                Some(Ok(file)) => Ok(files.push(file)),
                Some(Err(error)) => Err(error),
            },
        }
    }
}

/// What recipe text means: its entries in order, or the error of the first
/// line that cannot be read.
pub open spec fn parse_text(text: Seq<char>) -> Result<Seq<FileView>, ParseErrorView> {
    parse_lines(lines_of(text))
}

/// The lines of a text are never none, and the last one is what follows the
/// last line feed.
pub(crate) proof fn lemma_lines_of_nonempty(text: Seq<char>)
    ensures
        lines_of(text).len() >= 1,
    decreases text.len(),
{
    if text.len() > 0 {
        lemma_lines_of_nonempty(text.drop_last());
    }
}

/// Splits `s` at its right-most separator.
pub fn split_line(s: &[char]) -> (sides: Option<(&[char], &[char])>)
    ensures
        match sides {
            Some((left, right)) => split_sides(s@) == Some((left@, right@)),
            None => split_sides(s@).is_none(),
        },
{
    let mut upto: usize = s.len();
    while upto > 0
        invariant
            upto <= s.len(),
            forall|j: int| upto <= j < s.len() ==> !separator_at(s@, j),
        decreases upto,
    {
        let at = upto - 1;
        if s.len() - at >= 3 && s[at] == ' ' && s[at + 1] == ':' && s[at + 2] == ' ' {
            proof {
                lemma_split_at(s@, at as int);
            }
            let left = slice_subrange(s, 0, at);
            let right = slice_subrange(s, at + 3, s.len());
            return Some((left, right));
        }
        upto -= 1;
    }
    proof {
        lemma_last_separator(s@, s.len() as int);
    }
    None
}

/// Reads one line of recipe text.
pub fn parse_one(line: &[char]) -> (parsed: Option<Result<File, ParseError>>)
    ensures
        match parsed {
            None => parse_line(line@).is_none(),
            Some(Ok(file)) => parse_line(line@) == Some(
                Ok::<FileView, ParseErrorView>(file@),
            ),
            Some(Err(error)) => parse_line(line@) == Some(
                Err::<FileView, ParseErrorView>(error@),
            ),
        },
{
    match split_line(trim(line)) {
        None => None,
        Some((left, right)) => {
            let path = string_of(trim(right));
            match FileEntry::parse_chars(trim(left)) {
                Ok(entry) => Some(Ok(File { path, entry })),
                Err(error) => Some(Err(error)),
            }
        },
    }
}

/// Reads recipe text into a buffer.
///
/// Blank lines and lines without ` : ` are skipped. The first line whose left
/// side cannot be read ends the parse with its error.
pub fn parse_input(input: &str) -> (result: Result<Buffer, ParseError>)
    ensures
        match result {
            Ok(buffer) => parse_text(input@) == Ok::<Seq<FileView>, ParseErrorView>(buffer@),
            Err(error) => parse_text(input@) == Err::<Seq<FileView>, ParseErrorView>(error@),
        },
{
    let text = chars_of(input);
    let mut files: Vec<File> = Vec::new();
    let mut start: usize = 0;
    let mut i: usize = 0;
    let ghost mut done: Seq<Seq<char>> = Seq::empty();
    proof {
        assert(text@.take(0) =~= Seq::<char>::empty());
        assert(text@.subrange(0, 0) =~= Seq::<char>::empty());
        assert(lines_of(text@.take(0)) =~= done.push(text@.subrange(0, 0)));
        assert(views_of(files@) =~= Seq::<FileView>::empty());
    }
    while i < text.len()
        invariant
            start <= i <= text.len(),
            text@ == input@,
            lines_of(text@.take(i as int)) == done.push(text@.subrange(start as int, i as int)),
            parse_lines(done) == Ok::<Seq<FileView>, ParseErrorView>(
                views_of(files@),
            ),
        decreases text.len() - i,
    {
        let ghost current = text@.subrange(start as int, i as int);
        proof {
            assert(text@.take(i + 1).drop_last() =~= text@.take(i as int));
            assert(done.push(current).drop_last() =~= done);
        }
        if text[i] == '\n' {
            let line = slice_subrange(text.as_slice(), start, i);
            let ghost before = views_of(files@);
            let ghost lines = done.push(current);
            proof {
                assert(lines.drop_last() =~= done);
            }
            match parse_one(line) {
                None => {},
                Some(Ok(file)) => {
                    files.push(file);
                    proof {
                        assert(views_of(files@) =~= before.push(file@));
                    }
                },
                Some(Err(error)) => {
                    proof {
                        assert(lines_of(text@.take(i + 1)).drop_last() =~= lines);
                        lemma_error_stays(lines, lines_of(text@), text@, i as int + 1);
                    }
                    return Err(error);
                },
            }
            proof {
                done = lines;
                assert(text@.subrange(i + 1, i + 1) =~= Seq::<char>::empty());
            }
            start = i + 1;
        } else {
            proof {
                assert(text@.subrange(start as int, i + 1) =~= current.push(text@[i as int]));
            }
        }
        i += 1;
    }
    proof {
        assert(text@.take(i as int) =~= text@);
        assert(done.push(text@.subrange(start as int, i as int)).drop_last() =~= done);
    }
    let line = slice_subrange(text.as_slice(), start, i);
    let ghost before = views_of(files@);
    match parse_one(line) {
        None => {},
        Some(Ok(file)) => {
            files.push(file);
            proof {
                assert(views_of(files@) =~= before.push(file@));
            }
        },
        Some(Err(error)) => {
            return Err(error);
        },
    }
    Ok(Buffer { files })
}

/// The complete lines of a prefix of a text are the first lines of the text.
proof fn lemma_lines_prefix(text: Seq<char>, upto: int)
    requires
        0 <= upto <= text.len(),
    ensures
        lines_of(text.take(upto)).len() <= lines_of(text).len(),
        lines_of(text.take(upto)).drop_last() == lines_of(text).take(
            lines_of(text.take(upto)).len() - 1,
        ),
    decreases text.len() - upto,
{
    lemma_lines_of_nonempty(text.take(upto));
    if upto == text.len() {
        assert(text.take(upto) =~= text);
        let l = lines_of(text);
        assert(l.drop_last() =~= l.take(l.len() - 1));
    } else {
        lemma_lines_prefix(text, upto + 1);
        let shorter = lines_of(text.take(upto));
        let longer = lines_of(text.take(upto + 1));
        assert(text.take(upto + 1).drop_last() =~= text.take(upto));
        lemma_lines_of_nonempty(text.take(upto + 1));
        let all = lines_of(text);
        if text[upto] == '\n' {
            assert(longer == shorter.push(Seq::empty()));
            assert(longer.drop_last() =~= shorter);
            assert(shorter.drop_last() =~= all.take(shorter.len() - 1)) by {
                assert(longer.drop_last() == all.take(longer.len() - 1));
                assert forall|k: int| 0 <= k < shorter.len() - 1 implies shorter.drop_last()[k]
                    == all.take(shorter.len() - 1)[k] by {
                    assert(longer.drop_last()[k] == all.take(longer.len() - 1)[k]);
                }
            }
        } else {
            assert(longer.drop_last() =~= shorter.drop_last());
        }
    }
}

/// An error among the first lines is the error of the whole.
proof fn lemma_parse_lines_error(lines: Seq<Seq<char>>, upto: int)
    requires
        0 <= upto <= lines.len(),
        parse_lines(lines.take(upto)).is_err(),
    ensures
        parse_lines(lines) == parse_lines(lines.take(upto)),
    decreases lines.len() - upto,
{
    if upto < lines.len() {
        assert(lines.take(upto + 1).drop_last() =~= lines.take(upto));
        lemma_parse_lines_error(lines, upto + 1);
    } else {
        assert(lines.take(upto) =~= lines);
    }
}

/// If the lines completed after `upto` characters end in an error, the whole
/// text has that error.
proof fn lemma_error_stays(lines: Seq<Seq<char>>, all: Seq<Seq<char>>, text: Seq<char>, upto: int)
    requires
        0 < upto <= text.len(),
        all == lines_of(text),
        lines_of(text.take(upto)).drop_last() == lines,
        parse_lines(lines).is_err(),
    ensures
        parse_lines(all) == parse_lines(lines),
{
    lemma_lines_prefix(text, upto);
    let n = lines_of(text.take(upto)).len() - 1;
    assert(lines == all.take(n));
    lemma_parse_lines_error(all, n);
}

} // verus!

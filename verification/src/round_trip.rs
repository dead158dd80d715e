//! Formatting a parsed recipe and parsing it again gives the same entries.

use vstd::prelude::*;

use crate::format::{
    column, index_text, index_width, keyword_width, lemma_widths_bound, render_line, render_lines,
    rendered,
};
use crate::models::{
    after_last_space, classify, first_space, first_token, last_token, lemma_after_last_space,
    lemma_after_last_space_is, lemma_first_space, lemma_first_space_is, EntryView, FileView,
    OperationView, ParseErrorView,
};
use crate::parse::{
    last_separator, lemma_last_separator, lemma_lines_of_nonempty, lemma_split_at, lines_of,
    parse_line, parse_lines, parse_text, separator_at,
};
use crate::text::{
    has_uppercase, is_uppercase, is_whitespace, leading_ws, lemma_leading_ws_ends,
    lemma_trailing_ws_starts, lemma_trimmed_is, spaces, trailing_ws, trimmed,
};

verus! {

/// Whether `c` occurs nowhere in `s`.
pub open spec fn lacks(s: Seq<char>, c: char) -> bool {
    forall|i: int| 0 <= i < s.len() ==> #[trigger] s[i] != c
}

/// Whether `s` is not empty and has no whitespace at either end.
pub open spec fn tight(s: Seq<char>) -> bool {
    s.len() > 0 && !is_whitespace(s[0]) && !is_whitespace(s.last())
}

/// Whether every character of `s` is whitespace.
pub open spec fn blank(s: Seq<char>) -> bool {
    forall|i: int| 0 <= i < s.len() ==> is_whitespace(#[trigger] s[i])
}

/// Whether the separator ` : ` stands nowhere in `s`.
pub open spec fn lacks_separator(s: Seq<char>) -> bool {
    forall|j: int| !separator_at(s, j)
}

/// Trimming removes blank ends around a tight middle, and nothing else.
proof fn lemma_trimmed_around(lead: Seq<char>, core: Seq<char>, trail: Seq<char>)
    requires
        blank(lead),
        blank(trail),
        tight(core),
    ensures
        trimmed(lead + core + trail) == core,
{
    let s = lead + core + trail;
    let a = lead.len() as int;
    let b = a + core.len();
    assert forall|i: int| 0 <= i < a implies is_whitespace(#[trigger] s[i]) by {
        assert(s[i] == lead[i]);
    }
    assert forall|i: int| b <= i < s.len() implies is_whitespace(#[trigger] s[i]) by {
        assert(s[i] == trail[i - b]);
    }
    assert(s[a] == core[0]);
    assert(s[b - 1] == core.last());
    lemma_trimmed_is(s, a, b);
    assert(s.subrange(a, b) =~= core);
}

/// What trimming leaves is a piece of the text: it is tight if the text has a
/// character that is not whitespace, and it holds no character and no
/// separator that the text does not hold.
proof fn lemma_trimmed_piece(s: Seq<char>) -> (a: int)
    ensures
        0 <= a,
        a + trimmed(s).len() <= s.len(),
        trimmed(s) == s.subrange(a, a + trimmed(s).len()),
        blank(s.take(a)),
        blank(s.skip(a + trimmed(s).len())),
        !blank(s) ==> tight(trimmed(s)),
{
    lemma_leading_ws_ends(s);
    let a = leading_ws(s) as int;
    let rest = s.skip(a);
    lemma_trailing_ws_starts(rest);
    let n = rest.len() - trailing_ws(rest);
    let t = trimmed(s);
    assert(t =~= s.subrange(a, a + n));
    assert forall|i: int| 0 <= i < s.take(a).len() implies is_whitespace(
        #[trigger] s.take(a)[i],
    ) by {
        assert(s.take(a)[i] == s[i]);
    }
    assert forall|i: int| 0 <= i < s.skip(a + n).len() implies is_whitespace(
        #[trigger] s.skip(a + n)[i],
    ) by {
        assert(s.skip(a + n)[i] == rest[n + i]);
    }
    if !blank(s) {
        let w = choose|i: int| 0 <= i < s.len() && !is_whitespace(#[trigger] s[i]);
        assert(a <= w);
        assert(rest[w - a] == s[w]);
        assert(w - a < n);
        assert(t[0] == s[a]);
        assert(t.last() == rest[n - 1]);
    }
    a
}

/// A word without spaces, followed by nothing or by a space, is the first token.
proof fn lemma_first_token_is(word: Seq<char>, rest: Seq<char>)
    requires
        lacks(word, ' '),
        rest.len() > 0 ==> rest[0] == ' ',
    ensures
        first_token(word + rest) == word,
{
    let s = word + rest;
    let k = word.len() as int;
    assert forall|i: int| 0 <= i < k implies #[trigger] s[i] != ' ' by {
        assert(s[i] == word[i]);
    }
    if k < s.len() {
        assert(s[k] == rest[0]);
    }
    lemma_first_space(s, k);
    assert(s.take(k) =~= word);
}

/// A word without spaces, preceded by nothing or by a space, is the last token.
proof fn lemma_last_token_is(rest: Seq<char>, word: Seq<char>)
    requires
        lacks(word, ' '),
        rest.len() > 0 ==> rest.last() == ' ',
    ensures
        last_token(rest + word) == word,
{
    let s = rest + word;
    let k = rest.len() as int;
    assert forall|i: int| k <= i < s.len() implies #[trigger] s[i] != ' ' by {
        assert(s[i] == word[i - k]);
    }
    if k > 0 {
        assert(s[k - 1] == rest.last());
    }
    lemma_after_last_space(s, k);
    assert(s.skip(k) =~= word);
}

/// The tokens of a tight text have no space in them, are not empty, start
/// where the text starts and end where it ends.
proof fn lemma_tokens_of_tight(s: Seq<char>)
    requires
        tight(s),
    ensures
        lacks(first_token(s), ' '),
        lacks(last_token(s), ' '),
        0 < first_token(s).len() <= s.len(),
        0 < last_token(s).len() <= s.len(),
        first_token(s)[0] == s[0],
        last_token(s).last() == s.last(),
        first_token(s) == s.take(first_token(s).len() as int),
        last_token(s) == s.skip(s.len() - last_token(s).len()),
{
    lemma_first_space_is(s);
    lemma_after_last_space_is(s);
    let a = first_space(s) as int;
    let b = after_last_space(s) as int;
    assert(a > 0);
    assert(b < s.len());
    let first = first_token(s);
    let last = last_token(s);
    assert forall|i: int| 0 <= i < first.len() implies #[trigger] first[i] != ' ' by {
        assert(first[i] == s[i]);
    }
    assert forall|i: int| 0 <= i < last.len() implies #[trigger] last[i] != ' ' by {
        assert(last[i] == s[b + i]);
    }
}

/// Whether an index can be written into a line and read back: it is not
/// empty, holds no space and no line feed, and does not end in whitespace.
pub open spec fn readable_index(index: Seq<char>) -> bool {
    index.len() > 0 && lacks(index, ' ') && lacks(index, '\n') && !is_whitespace(index.last())
}

/// Whether a path can be written into a line and read back: it is tight and
/// holds no line feed and no separator.
pub open spec fn readable_path(path: Seq<char>) -> bool {
    tight(path) && lacks(path, '\n') && lacks_separator(path)
}

/// Whether an entry has the shape of one that was read from text.
pub open spec fn readable(file: FileView) -> bool {
    &&& readable_path(file.path)
    &&& match file.entry.operation {
        OperationView::Existing { index } => readable_index(index) && !is_whitespace(index[0])
            && !has_uppercase(index),
        OperationView::Add => true,
        OperationView::Copy { index } => readable_index(index),
        OperationView::Delete { index } => readable_index(index),
        OperationView::Move { index } => readable_index(index),
        OperationView::Open { .. } => false,
    }
}

/// Whether every entry has the shape of one that was read from text.
pub open spec fn all_readable(files: Seq<FileView>) -> bool {
    forall|k: int| 0 <= k < files.len() ==> readable(#[trigger] files[k])
}

/// A piece of a text holds no character that the text does not hold.
proof fn lemma_piece_lacks(s: Seq<char>, a: int, b: int, c: char)
    requires
        0 <= a <= b <= s.len(),
        lacks(s, c),
    ensures
        lacks(s.subrange(a, b), c),
{
    let t = s.subrange(a, b);
    assert forall|i: int| 0 <= i < t.len() implies #[trigger] t[i] != c by {
        assert(t[i] == s[a + i]);
    }
}

/// An entry read from a line without line feeds is readable.
proof fn lemma_parsed_is_readable(line: Seq<char>, file: FileView)
    requires
        lacks(line, '\n'),
        parse_line(line) == Some(Ok::<FileView, ParseErrorView>(file)),
    ensures
        readable(file),
{
    let a0 = lemma_trimmed_piece(line);
    let t = trimmed(line);
    lemma_piece_lacks(line, a0, a0 + t.len(), '\n');
    lemma_last_separator(t, t.len() as int);
    let at = last_separator(t, t.len() as int);
    assert(at >= 0);
    assert(separator_at(t, at));
    // the trimmed line holds the separator, so it is tight
    assert(!blank(line)) by {
        if blank(line) {
            assert(t[at + 1] == line[a0 + at + 1]);
            assert(is_whitespace(line[a0 + at + 1]));
        }
    }
    assert(tight(t));
    let left = t.take(at);
    let right = t.skip(at + 3);
    assert(at > 0);
    assert(at + 3 < t.len()) by {
        if at + 3 == t.len() {
            assert(t.last() == t[at + 2]);
        }
    }
    // the path
    assert(right.last() == t.last());
    assert(!blank(right)) by {
        if blank(right) {
            assert(is_whitespace(right[right.len() - 1]));
        }
    }
    let a2 = lemma_trimmed_piece(right);
    let path = trimmed(right);
    assert(file.path == path);
    assert(right =~= t.subrange(at + 3, t.len() as int));
    lemma_piece_lacks(t, at + 3, t.len() as int, '\n');
    lemma_piece_lacks(right, a2, a2 + path.len(), '\n');
    assert forall|j: int| !separator_at(path, j) by {
        if separator_at(path, j) {
            assert(path[j] == t[at + 3 + a2 + j]);
            assert(path[j + 1] == t[at + 3 + a2 + j + 1]);
            assert(path[j + 2] == t[at + 3 + a2 + j + 2]);
            assert(separator_at(t, at + 3 + a2 + j));
        }
    }
    // the left side
    assert(left[0] == t[0]);
    assert(!blank(left)) by {
        if blank(left) {
            assert(is_whitespace(left[0]));
        }
    }
    let a1 = lemma_trimmed_piece(left);
    let tl = trimmed(left);
    assert(left =~= t.subrange(0, at));
    lemma_piece_lacks(t, 0, at, '\n');
    lemma_piece_lacks(left, a1, a1 + tl.len(), '\n');
    lemma_tokens_of_tight(tl);
    let first = first_token(tl);
    let last = last_token(tl);
    assert(first =~= tl.subrange(0, first.len() as int));
    assert(last =~= tl.subrange(tl.len() - last.len(), tl.len() as int));
    lemma_piece_lacks(tl, 0, first.len() as int, '\n');
    lemma_piece_lacks(tl, tl.len() - last.len(), tl.len() as int, '\n');
    assert(classify(tl) == Ok::<EntryView, ParseErrorView>(file.entry));
}

/// Whether every character of `s` is a space.
pub open spec fn all_spaces(s: Seq<char>) -> bool {
    forall|i: int| 0 <= i < s.len() ==> #[trigger] s[i] == ' '
}

/// Where the characters of a line stand: the left side, the spaces after
/// it, the colon, three spaces, the path.
proof fn lemma_layout(core: Seq<char>, trail: Seq<char>, path: Seq<char>)
    requires
        all_spaces(trail),
    ensures
        ({
            let x = core + trail + seq![':'] + spaces(3) + path;
            let colon = (core.len() + trail.len()) as int;
            &&& x.len() == colon + 4 + path.len()
            &&& forall|i: int| 0 <= i < core.len() ==> #[trigger] x[i] == core[i]
            &&& forall|i: int| core.len() <= i < colon ==> #[trigger] x[i] == ' '
            &&& x[colon] == ':'
            &&& forall|i: int| colon < i < colon + 4 ==> #[trigger] x[i] == ' '
            &&& forall|i: int| 0 <= i < path.len() ==> #[trigger] x[colon + 4 + i] == path[i]
        }),
{
    let x = core + trail + seq![':'] + spaces(3) + path;
    let colon = (core.len() + trail.len()) as int;
    assert forall|i: int| core.len() <= i < colon implies #[trigger] x[i] == ' ' by {
        assert(x[i] == trail[i - core.len()]);
    }
    assert forall|i: int| colon < i < colon + 4 implies #[trigger] x[i] == ' ' by {
        assert(x[i] == spaces(3)[i - colon - 1]);
    }
}

/// A line is trimmed to what follows the spaces before its left side.
proof fn lemma_line_trimmed(lead: Seq<char>, core: Seq<char>, trail: Seq<char>, path: Seq<char>)
    requires
        all_spaces(lead),
        all_spaces(trail),
        tight(core),
        tight(path),
    ensures
        trimmed(lead + core + trail + seq![':'] + spaces(3) + path) == core + trail + seq![':']
            + spaces(3) + path,
{
    let x = core + trail + seq![':'] + spaces(3) + path;
    let line = lead + core + trail + seq![':'] + spaces(3) + path;
    lemma_layout(core, trail, path);
    assert(x[0] == core[0]);
    assert(x.last() == path.last()) by {
        assert(x[(core.len() + trail.len()) as int + 4 + (path.len() - 1)] == path[
            path.len() - 1
        ]);
    }
    assert(blank(lead));
    assert(line =~= lead + x + Seq::<char>::empty());
    assert(blank(Seq::<char>::empty()));
    lemma_trimmed_around(lead, x, Seq::empty());
}

/// A line made of a left side, spaces, a colon, three spaces and a path is
/// read as that left side and that path, whatever spaces stand before it.
proof fn lemma_reads_sides(lead: Seq<char>, core: Seq<char>, trail: Seq<char>, path: Seq<char>)
    requires
        all_spaces(lead),
        all_spaces(trail),
        trail.len() > 0,
        tight(core),
        readable_path(path),
        !(path.len() >= 2 && path[0] == ':' && path[1] == ' '),
    ensures
        parse_line(lead + core + trail + seq![':'] + spaces(3) + path) == Some(
            match classify(core) {
                Ok(entry) => Ok::<FileView, ParseErrorView>(FileView { path, entry }),
                Err(error) => Err::<FileView, ParseErrorView>(error),
            },
        ),
{
    let x = core + trail + seq![':'] + spaces(3) + path;
    let colon = (core.len() + trail.len()) as int;
    let at = colon - 1;
    lemma_layout(core, trail, path);
    lemma_line_trimmed(lead, core, trail, path);
    // the separator around the colon is the last one
    assert(separator_at(x, at));
    assert forall|j: int| at < j < x.len() implies !separator_at(x, j) by {
        if separator_at(x, j) {
            if j == colon + 3 {
                assert(x[colon + 4 + 0] == path[0]);
                assert(x[colon + 4 + 1] == path[1]);
            } else if j > colon + 3 {
                let k = j - colon - 4;
                assert(x[colon + 4 + k] == path[k]);
                assert(x[colon + 4 + (k + 1)] == path[k + 1]);
                assert(x[colon + 4 + (k + 2)] == path[k + 2]);
                assert(separator_at(path, k));
            }
        }
    }
    lemma_split_at(x, at);
    let left = x.take(at);
    let right = x.skip(at + 3);
    let short = trail.drop_last();
    assert(left =~= Seq::<char>::empty() + core + short);
    assert(blank(short));
    lemma_trimmed_around(Seq::empty(), core, short);
    assert(trimmed(left) == core);
    assert(right =~= spaces(2) + path + Seq::<char>::empty()) by {
        assert forall|i: int| 0 <= i < path.len() implies right[2 + i] == path[i] by {
            assert(x[colon + 4 + i] == path[i]);
        }
    }
    assert(blank(spaces(2)));
    lemma_trimmed_around(spaces(2), path, Seq::empty());
    assert(trimmed(right) == path);
}

/// A line made of a left side, spaces, a colon, three spaces and a path
/// holds the separator: it is read as an entry or as an error.
proof fn lemma_reads_separator(lead: Seq<char>, core: Seq<char>, trail: Seq<char>, path: Seq<char>)
    requires
        all_spaces(lead),
        all_spaces(trail),
        trail.len() > 0,
        tight(core),
        tight(path),
    ensures
        parse_line(lead + core + trail + seq![':'] + spaces(3) + path).is_some(),
{
    let x = core + trail + seq![':'] + spaces(3) + path;
    let colon = (core.len() + trail.len()) as int;
    lemma_layout(core, trail, path);
    lemma_line_trimmed(lead, core, trail, path);
    assert(separator_at(x, colon - 1));
    lemma_last_separator(x, x.len() as int);
}

/// A path that starts with a colon and a space is cut short when its line is
/// read: the separator is found inside it.
proof fn lemma_reads_short_path(
    lead: Seq<char>,
    core: Seq<char>,
    trail: Seq<char>,
    path: Seq<char>,
)
    requires
        all_spaces(lead),
        all_spaces(trail),
        tight(core),
        tight(path),
        path.len() >= 2 && path[0] == ':' && path[1] == ' ',
    ensures
        parse_line(lead + core + trail + seq![':'] + spaces(3) + path) matches Some(Ok(file))
            ==> file.path.len() < path.len(),
{
    let x = core + trail + seq![':'] + spaces(3) + path;
    let colon = (core.len() + trail.len()) as int;
    lemma_layout(core, trail, path);
    lemma_line_trimmed(lead, core, trail, path);
    assert(separator_at(x, colon + 3)) by {
        assert(x[colon + 4 + 0] == path[0]);
        assert(x[colon + 4 + 1] == path[1]);
    }
    lemma_last_separator(x, x.len() as int);
    let at = last_separator(x, x.len() as int);
    assert(at >= colon + 3);
    let right = x.skip(at + 3);
    let a = lemma_trimmed_piece(right);
}

/// The entry as formatted text gives it back: the same path and operation,
/// with the verb in its long form.
pub open spec fn canonical(file: FileView) -> FileView {
    FileView {
        path: file.path,
        entry: EntryView {
            raw_op: if file.entry.operation is Existing {
                None
            } else {
                Some(file.entry.operation.keyword())
            },
            operation: file.entry.operation,
        },
    }
}

/// Whether the entry keeps its meaning when written as a line: its path does
/// not start with a colon and a space, which would be read as the separator,
/// and its index is not its own verb, which would be read as a lone token.
pub open spec fn survives(file: FileView) -> bool {
    &&& !(file.path.len() >= 2 && file.path[0] == ':' && file.path[1] == ' ')
    &&& match file.entry.operation {
        OperationView::Copy { index } => index != "COPY"@,
        OperationView::Delete { index } => index != "DELETE"@,
        OperationView::Move { index } => index != "MOVE"@,
        _ => true,
    }
}

/// Whether every entry keeps its meaning when written as a line.
pub open spec fn all_survive(files: Seq<FileView>) -> bool {
    forall|k: int| 0 <= k < files.len() ==> survives(#[trigger] files[k])
}

/// What the long verbs are made of.
proof fn lemma_keywords()
    ensures
        "A"@ == seq!['A'],
        "ADD"@ == seq!['A', 'D', 'D'],
        "C"@ == seq!['C'],
        "COPY"@ == seq!['C', 'O', 'P', 'Y'],
        "D"@ == seq!['D'],
        "DEL"@ == seq!['D', 'E', 'L'],
        "DELETE"@ == seq!['D', 'E', 'L', 'E', 'T', 'E'],
        "M"@ == seq!['M'],
        "MV"@ == seq!['M', 'V'],
        "MOVE"@ == seq!['M', 'O', 'V', 'E'],
        "RENAME"@ == seq!['R', 'E', 'N', 'A', 'M', 'E'],
{
    reveal_strlit("A");
    reveal_strlit("ADD");
    reveal_strlit("C");
    reveal_strlit("COPY");
    reveal_strlit("D");
    reveal_strlit("DEL");
    reveal_strlit("DELETE");
    reveal_strlit("M");
    reveal_strlit("MV");
    reveal_strlit("MOVE");
    reveal_strlit("RENAME");
    assert("A"@ =~= seq!['A']);
    assert("ADD"@ =~= seq!['A', 'D', 'D']);
    assert("C"@ =~= seq!['C']);
    assert("COPY"@ =~= seq!['C', 'O', 'P', 'Y']);
    assert("D"@ =~= seq!['D']);
    assert("DEL"@ =~= seq!['D', 'E', 'L']);
    assert("DELETE"@ =~= seq!['D', 'E', 'L', 'E', 'T', 'E']);
    assert("M"@ =~= seq!['M']);
    assert("MV"@ =~= seq!['M', 'V']);
    assert("MOVE"@ =~= seq!['M', 'O', 'V', 'E']);
    assert("RENAME"@ =~= seq!['R', 'E', 'N', 'A', 'M', 'E']);
}

/// A verb followed by spaces and an index is read as that verb with that
/// index, unless the index is the verb itself: then it is not read at all.
proof fn lemma_reads_verb(verb: Seq<char>, gap: Seq<char>, index: Seq<char>)
    requires
        verb == "COPY"@ || verb == "DELETE"@ || verb == "MOVE"@,
        all_spaces(gap),
        gap.len() > 0,
        readable_index(index),
    ensures
        tight(verb + gap + index),
        lacks(verb + gap + index, '\n'),
        index != verb ==> classify(verb + gap + index) == Ok::<EntryView, ParseErrorView>(
            EntryView {
                raw_op: Some(verb),
                operation: if verb == "COPY"@ {
                    OperationView::Copy { index }
                } else if verb == "DELETE"@ {
                    OperationView::Delete { index }
                } else {
                    OperationView::Move { index }
                },
            },
        ),
        index == verb ==> classify(verb + gap + index).is_err(),
{
    lemma_keywords();
    let core = verb + gap + index;
    assert(lacks(verb, ' '));
    assert(core =~= verb + (gap + index));
    assert((gap + index)[0] == gap[0]);
    lemma_first_token_is(verb, gap + index);
    assert((verb + gap).last() == gap.last());
    lemma_last_token_is(verb + gap, index);
    assert(core[0] == verb[0]);
    assert(core.last() == index.last());
    assert forall|i: int| 0 <= i < core.len() implies #[trigger] core[i] != '\n' by {
        if i < verb.len() {
            assert(core[i] == verb[i]);
        } else if i < verb.len() + gap.len() {
            assert(core[i] == gap[i - verb.len()]);
        } else {
            assert(core[i] == index[i - verb.len() - gap.len()]);
        }
    }
    assert(verb[0] != 'A');
    assert(is_uppercase(verb[0]));
}

/// The spaces before the left side of the line of an entry, the left side as
/// it is read, and the spaces after it.
pub open spec fn line_parts(file: FileView, verbs: nat, indexes: nat) -> (
    Seq<char>,
    Seq<char>,
    Seq<char>,
) {
    let operation = file.entry.operation;
    let verb = operation.keyword();
    let index = index_text(operation);
    let after_verb = spaces((verbs - verb.len()) as nat) + spaces(3);
    let after_index = spaces((indexes - index.len()) as nat) + spaces(3);
    match operation {
        OperationView::Existing { .. } => (column(verb, verbs), index, after_index),
        OperationView::Add => (Seq::empty(), verb, after_verb + column(index, indexes)),
        _ => (Seq::empty(), verb + after_verb + index, after_index),
    }
}

/// The line of a readable entry is made of its parts, and its left side is
/// read as the entry unless the index is the verb itself.
proof fn lemma_line_parts(file: FileView, verbs: nat, indexes: nat)
    requires
        readable(file),
        file.entry.operation.keyword().len() <= verbs,
        index_text(file.entry.operation).len() <= indexes,
    ensures
        ({
            let (lead, core, trail) = line_parts(file, verbs, indexes);
            &&& render_line(file, verbs, indexes) == lead + core + trail + seq![':'] + spaces(3)
                + file.path
            &&& all_spaces(lead)
            &&& all_spaces(trail)
            &&& trail.len() > 0
            &&& tight(core)
            &&& lacks(core, '\n')
            &&& match file.entry.operation {
                OperationView::Copy { index } if index == "COPY"@ => classify(core).is_err(),
                OperationView::Delete { index } if index == "DELETE"@ => classify(core).is_err(),
                OperationView::Move { index } if index == "MOVE"@ => classify(core).is_err(),
                _ => classify(core) == Ok::<EntryView, ParseErrorView>(canonical(file).entry),
            }
        }),
{
    lemma_keywords();
    let operation = file.entry.operation;
    let verb = operation.keyword();
    let index = index_text(operation);
    let (lead, core, trail) = line_parts(file, verbs, indexes);
    let after_verb = spaces((verbs - verb.len()) as nat) + spaces(3);
    assert(column(verb, verbs) + column(index, indexes) =~= lead + core + trail);
    assert(render_line(file, verbs, indexes) =~= lead + core + trail + seq![':'] + spaces(3)
        + file.path);
    match operation {
        OperationView::Existing { .. } => {
            assert(index + Seq::<char>::empty() =~= index);
            assert(Seq::<char>::empty() + index =~= index);
            lemma_first_token_is(index, Seq::empty());
            lemma_last_token_is(Seq::empty(), index);
        },
        OperationView::Add => {
            assert(lacks(verb, ' '));
            assert(verb + Seq::<char>::empty() =~= verb);
            assert(Seq::<char>::empty() + verb =~= verb);
            lemma_first_token_is(verb, Seq::empty());
            lemma_last_token_is(Seq::empty(), verb);
            assert(is_uppercase(verb[0]));
            assert(lacks(core, '\n'));
        },
        OperationView::Copy { index: ix } => {
            lemma_reads_verb(verb, after_verb, ix);
        },
        OperationView::Delete { index: ix } => {
            lemma_reads_verb(verb, after_verb, ix);
        },
        OperationView::Move { index: ix } => {
            lemma_reads_verb(verb, after_verb, ix);
        },
        OperationView::Open { .. } => {},
    }
}

/// The line of a readable entry holds no line feed.
proof fn lemma_line_lacks_feed(file: FileView, verbs: nat, indexes: nat)
    requires
        readable(file),
        file.entry.operation.keyword().len() <= verbs,
        index_text(file.entry.operation).len() <= indexes,
    ensures
        lacks(render_line(file, verbs, indexes), '\n'),
{
    let (lead, core, trail) = line_parts(file, verbs, indexes);
    let path = file.path;
    let line = render_line(file, verbs, indexes);
    lemma_line_parts(file, verbs, indexes);
    assert forall|i: int| 0 <= i < line.len() implies #[trigger] line[i] != '\n' by {
        let a = lead.len();
        let b = a + core.len();
        let c = b + trail.len();
        if i < a {
            assert(line[i] == lead[i]);
        } else if i < b {
            assert(line[i] == core[i - a]);
        } else if i < c {
            assert(line[i] == trail[i - b]);
        } else if i == c {
            assert(line[i] == ':');
        } else if i < c + 4 {
            assert(line[i] == spaces(3)[i - c - 1]);
        } else {
            assert(line[i] == path[i - c - 4]);
        }
    }
}

/// The line of a readable entry that survives is read back as that entry.
pub proof fn lemma_line_reads_back(file: FileView, verbs: nat, indexes: nat)
    requires
        readable(file),
        survives(file),
        file.entry.operation.keyword().len() <= verbs,
        index_text(file.entry.operation).len() <= indexes,
    ensures
        parse_line(render_line(file, verbs, indexes)) == Some(
            Ok::<FileView, ParseErrorView>(canonical(file)),
        ),
{
    let (lead, core, trail) = line_parts(file, verbs, indexes);
    lemma_line_parts(file, verbs, indexes);
    lemma_reads_sides(lead, core, trail, file.path);
}

/// The line of a readable entry that does not survive is not read back as
/// that entry: it is read as an error, or with a shorter path.
pub proof fn lemma_line_is_misread(file: FileView, verbs: nat, indexes: nat)
    requires
        readable(file),
        !survives(file),
        file.entry.operation.keyword().len() <= verbs,
        index_text(file.entry.operation).len() <= indexes,
    ensures
        parse_line(render_line(file, verbs, indexes)) != Some(
            Ok::<FileView, ParseErrorView>(canonical(file)),
        ),
{
    let (lead, core, trail) = line_parts(file, verbs, indexes);
    let path = file.path;
    lemma_line_parts(file, verbs, indexes);
    if path.len() >= 2 && path[0] == ':' && path[1] == ' ' {
        lemma_reads_short_path(lead, core, trail, path);
    } else {
        lemma_reads_sides(lead, core, trail, path);
    }
}

/// The entries as formatted text gives them back.
pub open spec fn canonical_all(files: Seq<FileView>) -> Seq<FileView> {
    Seq::new(files.len(), |k: int| canonical(files[k]))
}

/// A text without line feeds is one line.
proof fn lemma_one_line(line: Seq<char>)
    requires
        lacks(line, '\n'),
    ensures
        lines_of(line) == seq![line],
    decreases line.len(),
{
    if line.len() > 0 {
        let init = line.drop_last();
        assert forall|i: int| 0 <= i < init.len() implies #[trigger] init[i] != '\n' by {
            assert(init[i] == line[i]);
        }
        lemma_one_line(init);
        assert(lines_of(line) =~= seq![line]) by {
            assert(seq![init].drop_last().push(init.push(line.last())) =~= seq![line]) by {
                assert(init.push(line.last()) =~= line);
            }
        }
    } else {
        assert(line =~= Seq::<char>::empty());
    }
}

/// A line feed and a text without line feeds add one line.
proof fn lemma_one_more_line(text: Seq<char>, line: Seq<char>)
    requires
        lacks(line, '\n'),
    ensures
        lines_of(text + seq!['\n'] + line) == lines_of(text).push(line),
    decreases line.len(),
{
    let whole = text + seq!['\n'] + line;
    if line.len() > 0 {
        let init = line.drop_last();
        assert forall|i: int| 0 <= i < init.len() implies #[trigger] init[i] != '\n' by {
            assert(init[i] == line[i]);
        }
        lemma_one_more_line(text, init);
        assert(whole.drop_last() =~= text + seq!['\n'] + init);
        assert(whole.last() == line.last());
        let before = lines_of(text).push(init);
        assert(before.drop_last() =~= lines_of(text));
        assert(init.push(line.last()) =~= line);
    } else {
        assert(whole.drop_last() =~= text);
        assert(whole.last() == '\n');
        assert(line =~= Seq::<char>::empty());
    }
}

/// No line of a text holds a line feed.
proof fn lemma_lines_lack_feeds(text: Seq<char>)
    ensures
        forall|k: int| 0 <= k < lines_of(text).len() ==> lacks(#[trigger] lines_of(text)[k], '\n'),
    decreases text.len(),
{
    let lines = lines_of(text);
    if text.len() > 0 {
        let before = lines_of(text.drop_last());
        lemma_lines_lack_feeds(text.drop_last());
        lemma_lines_of_nonempty(text.drop_last());
        assert forall|k: int| 0 <= k < lines.len() implies lacks(#[trigger] lines[k], '\n') by {
            if text.last() == '\n' {
                if k < before.len() {
                    assert(lines[k] == before[k]);
                }
            } else {
                if k < before.len() - 1 {
                    assert(lines[k] == before[k]);
                } else {
                    assert(lacks(before.last(), '\n'));
                    assert(lines[k] == before.last().push(text.last()));
                }
            }
        }
    }
}

/// The entries read from lines without line feeds are readable.
proof fn lemma_parsed_lines_readable(lines: Seq<Seq<char>>, files: Seq<FileView>)
    requires
        forall|k: int| 0 <= k < lines.len() ==> lacks(#[trigger] lines[k], '\n'),
        parse_lines(lines) == Ok::<Seq<FileView>, ParseErrorView>(files),
    ensures
        all_readable(files),
    decreases lines.len(),
{
    if lines.len() > 0 {
        let init = lines.drop_last();
        assert forall|k: int| 0 <= k < init.len() implies lacks(#[trigger] init[k], '\n') by {
            assert(init[k] == lines[k]);
        }
        let before = parse_lines(init)->Ok_0;
        lemma_parsed_lines_readable(init, before);
        match parse_line(lines.last()) {
            Some(Ok(file)) => {
                lemma_parsed_is_readable(lines.last(), file);
                assert forall|k: int| 0 <= k < files.len() implies readable(#[trigger] files[k]) by {
                    if k < before.len() {
                        assert(files[k] == before[k]);
                    }
                }
            },
            _ => {},
        }
    }
}

/// Lines that each read as an entry read together as those entries.
proof fn lemma_parse_each(lines: Seq<Seq<char>>, files: Seq<FileView>)
    requires
        lines.len() == files.len(),
        forall|k: int|
            0 <= k < lines.len() ==> parse_line(#[trigger] lines[k]) == Some(
                Ok::<FileView, ParseErrorView>(files[k]),
            ),
    ensures
        parse_lines(lines) == Ok::<Seq<FileView>, ParseErrorView>(files),
    decreases lines.len(),
{
    if lines.len() > 0 {
        let init = lines.drop_last();
        let before = files.drop_last();
        assert forall|k: int| 0 <= k < init.len() implies parse_line(#[trigger] init[k]) == Some(
            Ok::<FileView, ParseErrorView>(before[k]),
        ) by {
            assert(init[k] == lines[k]);
        }
        lemma_parse_each(init, before);
        assert(before.push(files.last()) =~= files);
    } else {
        assert(files =~= Seq::<FileView>::empty());
    }
}

/// The lines of the formatted text are the lines of the entries.
proof fn lemma_lines_of_rendered(files: Seq<FileView>, verbs: nat, indexes: nat, upto: int)
    requires
        1 <= upto <= files.len(),
        forall|k: int|
            0 <= k < files.len() ==> lacks(#[trigger] render_line(files[k], verbs, indexes), '\n'),
    ensures
        lines_of(render_lines(files, verbs, indexes, upto)) == Seq::new(
            upto as nat,
            |k: int| render_line(files[k], verbs, indexes),
        ),
    decreases upto,
{
    let lines = Seq::new(upto as nat, |k: int| render_line(files[k], verbs, indexes));
    if upto == 1 {
        lemma_one_line(render_line(files[0], verbs, indexes));
        assert(seq![render_line(files[0], verbs, indexes)] =~= lines);
    } else {
        lemma_lines_of_rendered(files, verbs, indexes, upto - 1);
        lemma_one_more_line(
            render_lines(files, verbs, indexes, upto - 1),
            render_line(files[upto - 1], verbs, indexes),
        );
        assert(Seq::new((upto - 1) as nat, |k: int| render_line(files[k], verbs, indexes)).push(
            render_line(files[upto - 1], verbs, indexes),
        ) =~= lines);
    }
}

/// Formatting readable entries that survive and parsing the text gives the
/// entries back, each with its path and operation, the verbs in long form.
pub proof fn lemma_rendered_reads_back(files: Seq<FileView>)
    requires
        all_readable(files),
        all_survive(files),
    ensures
        parse_text(rendered(files)) == Ok::<Seq<FileView>, ParseErrorView>(canonical_all(files)),
{
    let n = files.len() as int;
    let verbs = keyword_width(files, n);
    let indexes = index_width(files, n);
    if n == 0 {
        let nothing = Seq::<char>::empty();
        assert(rendered(files) =~= nothing);
        assert(lines_of(nothing) =~= seq![nothing]);
        assert(trimmed(nothing) =~= nothing);
        assert(parse_line(nothing).is_none());
        let one = seq![nothing];
        assert(one.drop_last() =~= Seq::<Seq<char>>::empty());
        assert(one.last() == nothing);
        assert(parse_lines(one.drop_last()) == Ok::<Seq<FileView>, ParseErrorView>(Seq::empty()));
        assert(parse_lines(one) == Ok::<Seq<FileView>, ParseErrorView>(Seq::empty()));
        assert(canonical_all(files) =~= Seq::<FileView>::empty());
    } else {
        assert forall|k: int| 0 <= k < n implies parse_line(
            #[trigger] render_line(files[k], verbs, indexes),
        ) == Some(Ok::<FileView, ParseErrorView>(canonical(files[k]))) && lacks(
            render_line(files[k], verbs, indexes),
            '\n',
        ) by {
            lemma_widths_bound(files, n, k);
            lemma_line_reads_back(files[k], verbs, indexes);
            lemma_line_lacks_feed(files[k], verbs, indexes);
        }
        lemma_lines_of_rendered(files, verbs, indexes, n);
        let lines = Seq::new(n as nat, |k: int| render_line(files[k], verbs, indexes));
        assert forall|k: int| 0 <= k < lines.len() implies parse_line(#[trigger] lines[k]) == Some(
            Ok::<FileView, ParseErrorView>(canonical_all(files)[k]),
        ) by {
            assert(lines[k] == render_line(files[k], verbs, indexes));
        }
        lemma_parse_each(lines, canonical_all(files));
        assert(rendered(files) == render_lines(files, verbs, indexes, n));
    }
}

/// The entries read from text are readable.
pub proof fn lemma_parsed_text_readable(text: Seq<char>)
    requires
        parse_text(text).is_ok(),
    ensures
        all_readable(parse_text(text)->Ok_0),
{
    lemma_lines_lack_feeds(text);
    lemma_parsed_lines_readable(lines_of(text), parse_text(text)->Ok_0);
}

/// Round trip. Text that parses, formatted and parsed again, gives the same
/// entries: the same paths and operations in the same order, with the verbs
/// in long form. This holds of every text whose entries survive being
/// written as a line.
pub proof fn lemma_round_trip(text: Seq<char>)
    requires
        parse_text(text).is_ok(),
        all_survive(parse_text(text)->Ok_0),
    ensures
        ({
            let files = parse_text(text)->Ok_0;
            &&& parse_text(rendered(files)) matches Ok(again)
            &&& again.len() == files.len()
            &&& forall|k: int|
                0 <= k < files.len() ==> (#[trigger] again[k]).path == files[k].path
                    && again[k].entry.operation == files[k].entry.operation
            &&& parse_text(rendered(again)) == Ok::<Seq<FileView>, ParseErrorView>(again)
            &&& rendered(again) == rendered(files)
        }),
{
    let files = parse_text(text)->Ok_0;
    lemma_parsed_text_readable(text);
    lemma_rendered_reads_back(files);
    let again = canonical_all(files);
    assert(all_readable(again)) by {
        assert forall|k: int| 0 <= k < again.len() implies readable(#[trigger] again[k]) by {
            assert(readable(files[k]));
        }
    }
    assert(all_survive(again)) by {
        assert forall|k: int| 0 <= k < again.len() implies survives(#[trigger] again[k]) by {
            assert(survives(files[k]));
        }
    }
    lemma_rendered_reads_back(again);
    assert(canonical_all(again) =~= again);
    lemma_rendered_same(files, again, files.len() as int);
}

/// Lines that all hold an entry or an error and read together as entries
/// read each as the entry at its place.
proof fn lemma_parse_each_back(lines: Seq<Seq<char>>, files: Seq<FileView>)
    requires
        forall|k: int| 0 <= k < lines.len() ==> parse_line(#[trigger] lines[k]).is_some(),
        parse_lines(lines) == Ok::<Seq<FileView>, ParseErrorView>(files),
    ensures
        files.len() == lines.len(),
        forall|k: int|
            0 <= k < lines.len() ==> parse_line(#[trigger] lines[k]) == Some(
                Ok::<FileView, ParseErrorView>(files[k]),
            ),
    decreases lines.len(),
{
    if lines.len() > 0 {
        let init = lines.drop_last();
        assert forall|k: int| 0 <= k < init.len() implies parse_line(#[trigger] init[k]).is_some() by {
            assert(init[k] == lines[k]);
        }
        let before = parse_lines(init)->Ok_0;
        lemma_parse_each_back(init, before);
        assert forall|k: int| 0 <= k < lines.len() implies parse_line(#[trigger] lines[k]) == Some(
            Ok::<FileView, ParseErrorView>(files[k]),
        ) by {
            if k < init.len() {
                assert(init[k] == lines[k]);
                assert(files[k] == before[k]);
            }
        }
    }
}

/// The condition of the round trip is needed. Where an entry read from text
/// does not survive being written as a line, formatting the entries and
/// parsing the text does not give them back.
pub proof fn lemma_round_trip_needs_survival(text: Seq<char>)
    requires
        parse_text(text).is_ok(),
        !all_survive(parse_text(text)->Ok_0),
    ensures
        parse_text(rendered(parse_text(text)->Ok_0)) != Ok::<Seq<FileView>, ParseErrorView>(
            canonical_all(parse_text(text)->Ok_0),
        ),
{
    let files = parse_text(text)->Ok_0;
    lemma_parsed_text_readable(text);
    let n = files.len() as int;
    let verbs = keyword_width(files, n);
    let indexes = index_width(files, n);
    let bad = choose|k: int| 0 <= k < files.len() && !survives(#[trigger] files[k]);
    assert forall|k: int| 0 <= k < n implies lacks(
        #[trigger] render_line(files[k], verbs, indexes),
        '\n',
    ) by {
        lemma_widths_bound(files, n, k);
        lemma_line_lacks_feed(files[k], verbs, indexes);
    }
    lemma_lines_of_rendered(files, verbs, indexes, n);
    let lines = Seq::new(n as nat, |k: int| render_line(files[k], verbs, indexes));
    assert(parse_text(rendered(files)) == parse_lines(lines));
    if parse_lines(lines) == Ok::<Seq<FileView>, ParseErrorView>(canonical_all(files)) {
        assert forall|k: int| 0 <= k < lines.len() implies parse_line(#[trigger] lines[k]).is_some() by {
            let (lead, core, trail) = line_parts(files[k], verbs, indexes);
            lemma_widths_bound(files, n, k);
            lemma_line_parts(files[k], verbs, indexes);
            if files[k].path.len() >= 2 && files[k].path[0] == ':' && files[k].path[1] == ' ' {
                lemma_reads_separator(lead, core, trail, files[k].path);
            } else {
                lemma_reads_sides(lead, core, trail, files[k].path);
            }
        }
        lemma_parse_each_back(lines, canonical_all(files));
        lemma_widths_bound(files, n, bad);
        lemma_line_is_misread(files[bad], verbs, indexes);
        assert(lines[bad] == render_line(files[bad], verbs, indexes));
        assert(canonical_all(files)[bad] == canonical(files[bad]));
    }
}

/// Text depends on the paths and operations of the entries only.
proof fn lemma_rendered_same(files: Seq<FileView>, other: Seq<FileView>, upto: int)
    requires
        files.len() == other.len(),
        0 <= upto <= files.len(),
        forall|k: int|
            0 <= k < files.len() ==> (#[trigger] other[k]).path == files[k].path
                && other[k].entry.operation == files[k].entry.operation,
    ensures
        keyword_width(files, upto) == keyword_width(other, upto),
        index_width(files, upto) == index_width(other, upto),
        forall|verbs: nat, indexes: nat|
            render_lines(files, verbs, indexes, upto) == #[trigger] render_lines(
                other,
                verbs,
                indexes,
                upto,
            ),
        upto == files.len() ==> rendered(files) == rendered(other),
    decreases upto,
{
    if upto > 0 {
        lemma_rendered_same(files, other, upto - 1);
        assert(other[upto - 1].path == files[upto - 1].path);
        assert(other[0].path == files[0].path);
        assert forall|verbs: nat, indexes: nat|
            render_lines(files, verbs, indexes, upto) == #[trigger] render_lines(
                other,
                verbs,
                indexes,
                upto,
            ) by {
            assert(render_lines(files, verbs, indexes, upto - 1) == render_lines(
                other,
                verbs,
                indexes,
                upto - 1,
            ));
        }
    }
}

} // verus!

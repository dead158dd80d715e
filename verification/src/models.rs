//! The recipe as data: a buffer of entries, each a path with an operation.

use vstd::prelude::*;
use vstd::slice::slice_subrange;

use crate::text::{any_uppercase, chars_of, has_uppercase, push_chars, same_chars, string_of};

verus! {

/// What a recipe line asks for.
#[derive(Clone, PartialEq, Debug)]
pub enum Operation {
    /// The path carries this index and is left alone.
    Existing { index: String },
    /// Create the path; a directory if it ends in `/`.
    Add,
    /// Create the path as a copy of what carries the index.
    Copy { index: String },
    /// Remove what carries the index.
    Delete { index: String },
    /// Move what carries the index to the path.
    Move { index: String },
    /// Note the path in the list of files to open afterwards.
    Open { index: String },
}

/// The left side of a recipe line.
#[derive(Clone, PartialEq, Debug)]
pub struct FileEntry {
    /// The verb as it was written, if the line had one.
    pub raw_op: Option<String>,
    pub operation: Operation,
}

/// One recipe line: where the entry should end up, and how.
#[derive(Clone, PartialEq, Debug)]
pub struct File {
    pub path: String,
    pub entry: FileEntry,
}

/// A recipe: its entries in the order of the text.
#[derive(Clone, PartialEq, Debug)]
pub struct Buffer {
    pub files: Vec<File>,
}

/// A recipe line that cannot be read.
#[derive(Clone, PartialEq, Debug)]
pub enum ParseError {
    /// The line starts with a token that is no known verb in that position.
    UnsupportedOperation { operation: String },
}

/// An operation as plain values: what contracts speak of.
pub enum OperationView {
    Existing { index: Seq<char> },
    Add,
    Copy { index: Seq<char> },
    Delete { index: Seq<char> },
    Move { index: Seq<char> },
    Open { index: Seq<char> },
}

/// The left side of a line as plain values.
pub struct EntryView {
    pub raw_op: Option<Seq<char>>,
    pub operation: OperationView,
}

/// A line as plain values.
pub struct FileView {
    pub path: Seq<char>,
    pub entry: EntryView,
}

/// A parse error as plain values.
pub enum ParseErrorView {
    UnsupportedOperation { operation: Seq<char> },
}

impl View for Operation {
    type V = OperationView;

    open spec fn view(&self) -> OperationView {
        match self {
            Operation::Existing { index } => OperationView::Existing { index: index@ },
            Operation::Add => OperationView::Add,
            Operation::Copy { index } => OperationView::Copy { index: index@ },
            Operation::Delete { index } => OperationView::Delete { index: index@ },
            Operation::Move { index } => OperationView::Move { index: index@ },
            Operation::Open { index } => OperationView::Open { index: index@ },
        }
    }
}

impl View for FileEntry {
    type V = EntryView;

    open spec fn view(&self) -> EntryView {
        EntryView {
            raw_op: match self.raw_op {
                Some(raw) => Some(raw@),
                None => None,
            },
            operation: self.operation@,
        }
    }
}

impl View for File {
    type V = FileView;

    open spec fn view(&self) -> FileView {
        FileView { path: self.path@, entry: self.entry@ }
    }
}

impl View for Buffer {
    type V = Seq<FileView>;

    open spec fn view(&self) -> Seq<FileView> {
        views_of(self.files@)
    }
}

/// The entries of a sequence of files as plain values.
pub open spec fn views_of(files: Seq<File>) -> Seq<FileView> {
    Seq::new(files.len(), |i: int| files[i]@)
}

impl View for ParseError {
    type V = ParseErrorView;

    open spec fn view(&self) -> ParseErrorView {
        match self {
            ParseError::UnsupportedOperation { operation } => ParseErrorView::UnsupportedOperation {
                operation: operation@,
            },
        }
    }
}

impl OperationView {
    /// The verb in its long form; empty for an untouched entry.
    pub open spec fn keyword(self) -> Seq<char> {
        match self {
            OperationView::Existing { .. } => Seq::empty(),
            OperationView::Add => "ADD"@,
            OperationView::Copy { .. } => "COPY"@,
            OperationView::Delete { .. } => "DELETE"@,
            OperationView::Move { .. } => "MOVE"@,
            OperationView::Open { .. } => "OPEN"@,
        }
    }

    /// The index the operation refers to, if it has one.
    pub open spec fn index(self) -> Option<Seq<char>> {
        match self {
            OperationView::Existing { index } => Some(index),
            OperationView::Add => None,
            OperationView::Copy { index } => Some(index),
            OperationView::Delete { index } => Some(index),
            OperationView::Move { index } => Some(index),
            OperationView::Open { index } => Some(index),
        }
    }
}

impl FileView {
    /// Whether the entry declares that its path carries `index`.
    pub open spec fn declares(self, index: Seq<char>) -> bool {
        self.entry.operation == (OperationView::Existing { index })
    }
}

/// Position of the first entry among the first `upto` that declares `index`.
pub open spec fn first_existing(files: Seq<FileView>, index: Seq<char>, upto: int) -> Option<int>
    decreases upto,
{
    if upto <= 0 {
        None
    } else {
        match first_existing(files, index, upto - 1) {
            Some(k) => Some(k),
            None => if files[upto - 1].declares(index) {
                Some(upto - 1)
            } else {
                None
            },
        }
    }
}

/// Position of the entry that owns `index`: the first that declares it.
pub open spec fn owner_of(files: Seq<FileView>, index: Seq<char>) -> Option<int> {
    first_existing(files, index, files.len() as int)
}

/// `first_existing` finds the least declaring position, and none only if there is none.
pub proof fn lemma_first_existing(files: Seq<FileView>, index: Seq<char>, upto: int)
    requires
        0 <= upto <= files.len(),
    ensures
        match first_existing(files, index, upto) {
            Some(k) => 0 <= k < upto && files[k].declares(index) && forall|j: int|
                0 <= j < k ==> !(#[trigger] files[j]).declares(index),
            None => forall|j: int| 0 <= j < upto ==> !(#[trigger] files[j]).declares(index),
        },
    decreases upto,
{
    if upto > 0 {
        lemma_first_existing(files, index, upto - 1);
    }
}

impl Operation {
    /// The verb in its long form; empty for an untouched entry.
    pub fn to_string(&self) -> (out: String)
        ensures
            out@ == self@.keyword(),
    {
        let word = match self {
            Operation::Existing { .. } => "",
            Operation::Add => "ADD",
            Operation::Copy { .. } => "COPY",
            Operation::Delete { .. } => "DELETE",
            Operation::Move { .. } => "MOVE",
            Operation::Open { .. } => "OPEN",
        };
        proof {
            reveal_strlit("");
            assert(""@ =~= Seq::<char>::empty());
        }
        word.to_owned()
    }

    /// The index the operation refers to, if it has one.
    pub fn index(&self) -> (out: Option<&String>)
        ensures
            match out {
                Some(index) => self@.index() == Some(index@),
                None => self@.index().is_none(),
            },
    {
        match self {
            Operation::Existing { index } => Some(index),
            Operation::Add => None,
            Operation::Copy { index } => Some(index),
            Operation::Delete { index } => Some(index),
            Operation::Move { index } => Some(index),
            Operation::Open { index } => Some(index),
        }
    }
}

impl ParseError {
    /// The error as a sentence for the user, naming the offending token.
    pub fn to_string(&self) -> (out: String)
        ensures
            match self@ {
                ParseErrorView::UnsupportedOperation { operation } => out@ == "operation: "@
                    + operation + " is not supported"@,
            },
    {
        match self {
            ParseError::UnsupportedOperation { operation } => {
                let mut out = "operation: ".to_owned();
                let token = chars_of(operation.as_str());
                push_chars(&mut out, token.as_slice());
                let tail = chars_of(" is not supported");
                push_chars(&mut out, tail.as_slice());
                out
            },
        }
    }
}

impl Buffer {
    /// The entry that owns `index`: the first one that declares it.
    pub fn get_existing(&self, index: &str) -> (found: Option<&File>)
        ensures
            match found {
                Some(file) => owner_of(self@, index@) matches Some(k) && file@ == self@[k],
                None => owner_of(self@, index@).is_none(),
            },
    {
        let wanted = index.to_owned();
        let mut i: usize = 0;
        while i < self.files.len()
            invariant
                i <= self.files.len(),
                wanted@ == index@,
                first_existing(self@, index@, i as int).is_none(),
            decreases self.files.len() - i,
        {
            let file = &self.files[i];
            let hit = match &file.entry.operation {
                Operation::Existing { index: idx } => *idx == wanted,
                _ => false,
            };
            assert(hit == self@[i as int].declares(index@));
            if hit {
                proof {
                    lemma_owner_from(self@, index@, i as int + 1);
                }
                return Some(file);
            }
            i += 1;
        }
        None
    }
}

/// Once found among the first `upto` entries, the owner stays the same for the whole buffer.
proof fn lemma_owner_from(files: Seq<FileView>, index: Seq<char>, upto: int)
    requires
        0 <= upto <= files.len(),
        first_existing(files, index, upto).is_some(),
    ensures
        owner_of(files, index) == first_existing(files, index, upto),
    decreases files.len() - upto,
{
    if upto < files.len() {
        lemma_owner_from(files, index, upto + 1);
    }
}

/// Position of the first space in `s`, or its length if it has none.
pub open spec fn first_space(s: Seq<char>) -> nat
    decreases s.len(),
{
    if s.len() == 0 || s[0] == ' ' {
        0
    } else {
        1 + first_space(s.drop_first())
    }
}

/// Position just after the last space in `s`, or zero if it has none.
pub open spec fn after_last_space(s: Seq<char>) -> nat
    decreases s.len(),
{
    if s.len() == 0 {
        0
    } else if s.last() == ' ' {
        s.len()
    } else {
        after_last_space(s.drop_last())
    }
}

/// The first of the tokens that single spaces separate.
pub open spec fn first_token(s: Seq<char>) -> Seq<char> {
    s.take(first_space(s) as int)
}

/// The last of the tokens that single spaces separate.
pub open spec fn last_token(s: Seq<char>) -> Seq<char> {
    s.skip(after_last_space(s) as int)
}

/// `k` is the position of the first space in `s`, or its length if it has none.
pub open spec fn is_first_space(s: Seq<char>, k: int) -> bool {
    &&& 0 <= k <= s.len()
    &&& forall|i: int| 0 <= i < k ==> #[trigger] s[i] != ' '
    &&& k < s.len() ==> s[k] == ' '
}

/// `k` is the position just after the last space in `s`, or zero if it has none.
pub open spec fn is_after_last_space(s: Seq<char>, k: int) -> bool {
    &&& 0 <= k <= s.len()
    &&& forall|i: int| k <= i < s.len() ==> #[trigger] s[i] != ' '
    &&& k > 0 ==> s[k - 1] == ' '
}

/// A position that has the marks of the first space is the first space.
pub(crate) proof fn lemma_first_space(s: Seq<char>, k: int)
    requires
        is_first_space(s, k),
    ensures
        first_space(s) == k,
    decreases s.len(),
{
    if k > 0 {
        assert(s[0] != ' ');
        let rest = s.drop_first();
        assert forall|i: int| 0 <= i < k - 1 implies #[trigger] rest[i] != ' ' by {
            assert(rest[i] == s[i + 1]);
        }
        lemma_first_space(rest, k - 1);
    }
}

/// The first space has the marks of the first space.
pub(crate) proof fn lemma_first_space_is(s: Seq<char>)
    ensures
        is_first_space(s, first_space(s) as int),
    decreases s.len(),
{
    if s.len() > 0 && s[0] != ' ' {
        let rest = s.drop_first();
        lemma_first_space_is(rest);
        let k = first_space(s) as int;
        assert forall|i: int| 0 <= i < k implies #[trigger] s[i] != ' ' by {
            if i > 0 {
                assert(s[i] == rest[i - 1]);
            }
        }
        if k < s.len() {
            assert(s[k] == rest[k - 1]);
        }
    }
}

/// A position that has the marks of the end of the last space is that end.
pub(crate) proof fn lemma_after_last_space(s: Seq<char>, k: int)
    requires
        is_after_last_space(s, k),
    ensures
        after_last_space(s) == k,
    decreases s.len(),
{
    if k < s.len() {
        assert(s[s.len() - 1] != ' ');
        let rest = s.drop_last();
        assert forall|i: int| k <= i < rest.len() implies #[trigger] rest[i] != ' ' by {
            assert(rest[i] == s[i]);
        }
        if k > 0 {
            assert(rest[k - 1] == s[k - 1]);
        }
        lemma_after_last_space(rest, k);
    }
}

/// The end of the last space has the marks of the end of the last space.
pub(crate) proof fn lemma_after_last_space_is(s: Seq<char>)
    ensures
        is_after_last_space(s, after_last_space(s) as int),
    decreases s.len(),
{
    if s.len() > 0 && s.last() != ' ' {
        let rest = s.drop_last();
        lemma_after_last_space_is(rest);
        let k = after_last_space(s) as int;
        assert forall|i: int| k <= i < s.len() implies #[trigger] s[i] != ' ' by {
            if i < s.len() - 1 {
                assert(s[i] == rest[i]);
            }
        }
        if k > 0 {
            assert(s[k - 1] == rest[k - 1]);
        }
    }
}

/// What the left side of a recipe line means.
///
/// A lone token without uppercase letters is the index of an untouched entry.
/// Otherwise the first token is the verb and the last token its index: `A` and
/// `ADD` take no index; `C`/`COPY`, `D`/`DEL`/`DELETE` and
/// `M`/`MV`/`MOVE`/`RENAME` need one. Anything else is an error that carries
/// the first token.
pub open spec fn classify(left: Seq<char>) -> Result<EntryView, ParseErrorView> {
    let first = first_token(left);
    let last = last_token(left);
    let lone = first == last;
    if lone && !has_uppercase(first) {
        Ok(EntryView { raw_op: None, operation: OperationView::Existing { index: first } })
    } else if (first == "A"@ || first == "ADD"@) && lone {
        Ok(EntryView { raw_op: Some(first), operation: OperationView::Add })
    } else if (first == "C"@ || first == "COPY"@) && !lone {
        Ok(EntryView { raw_op: Some(first), operation: OperationView::Copy { index: last } })
    } else if (first == "D"@ || first == "DEL"@ || first == "DELETE"@) && !lone {
        Ok(EntryView { raw_op: Some(first), operation: OperationView::Delete { index: last } })
    } else if (first == "M"@ || first == "MV"@ || first == "MOVE"@ || first == "RENAME"@)
        && !lone {
        Ok(EntryView { raw_op: Some(first), operation: OperationView::Move { index: last } })
    } else {
        Err(ParseErrorView::UnsupportedOperation { operation: first })
    }
}

/// Whether `s` is the word `word`.
fn is_word(s: &[char], word: &str) -> (b: bool)
    ensures
        b == (s@ == word@),
{
    let w = chars_of(word);
    same_chars(s, w.as_slice())
}

impl FileEntry {
    /// Reads the left side of a recipe line, already trimmed.
    pub fn parse(file_entry: &str) -> (result: Result<FileEntry, ParseError>)
        ensures
            match result {
                Ok(entry) => classify(file_entry@) == Ok::<EntryView, ParseErrorView>(entry@),
                Err(error) => classify(file_entry@) == Err::<EntryView, ParseErrorView>(error@),
            },
    {
        let chars = chars_of(file_entry);
        FileEntry::parse_chars(chars.as_slice())
    }

    /// Reads the left side of a recipe line, already trimmed, from its characters.
    pub fn parse_chars(left: &[char]) -> (result: Result<FileEntry, ParseError>)
        ensures
            match result {
                Ok(entry) => classify(left@) == Ok::<EntryView, ParseErrorView>(entry@),
                Err(error) => classify(left@) == Err::<EntryView, ParseErrorView>(error@),
            },
    {
        let mut a: usize = 0;
        while a < left.len() && left[a] != ' '
            invariant
                a <= left.len(),
                forall|i: int| 0 <= i < a ==> #[trigger] left@[i] != ' ',
            decreases left.len() - a,
        {
            a += 1;
        }
        let mut b: usize = left.len();
        while b > 0 && left[b - 1] != ' '
            invariant
                b <= left.len(),
                forall|i: int| b <= i < left.len() ==> #[trigger] left@[i] != ' ',
            decreases b,
        {
            b -= 1;
        }
        proof {
            lemma_first_space(left@, a as int);
            lemma_after_last_space(left@, b as int);
        }
        let first = slice_subrange(left, 0, a);
        let last = slice_subrange(left, b, left.len());
        assert(first@ == first_token(left@));
        assert(last@ == last_token(left@));
        let lone = same_chars(first, last);

        if lone && !any_uppercase(first) {
            return Ok(
                FileEntry { raw_op: None, operation: Operation::Existing { index: string_of(first) } },
            );
        }
        let operation = if (is_word(first, "A") || is_word(first, "ADD")) && lone {
            Operation::Add
        } else if (is_word(first, "C") || is_word(first, "COPY")) && !lone {
            Operation::Copy { index: string_of(last) }
        } else if (is_word(first, "D") || is_word(first, "DEL") || is_word(first, "DELETE"))
            && !lone {
            Operation::Delete { index: string_of(last) }
        } else if (is_word(first, "M") || is_word(first, "MV") || is_word(first, "MOVE")
            || is_word(first, "RENAME")) && !lone {
            Operation::Move { index: string_of(last) }
        } else {
            return Err(ParseError::UnsupportedOperation { operation: string_of(first) });
        };
        Ok(FileEntry { raw_op: Some(string_of(first)), operation })
    }
}

} // verus!
